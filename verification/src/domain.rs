use vstd::prelude::*;
use vstd::string::StringSliceAdditionalSpecFns;
use crate::digest::{sha256, sha256_digest, be_value, be_u128};

verus! {

/// The ten cognitive domains a seed node can be routed to.
#[derive(Debug, Clone, Copy, PartialEq, Eq, Hash, Structural)]
pub enum SephirotDomain {
    Keter,
    Chochmah,
    Binah,
    Chesed,
    Gevurah,
    Tiferet,
    Netzach,
    Hod,
    Yesod,
    Malkuth,
}

/// Position of a domain in the canonical order (Keter = 0 … Malkuth = 9).
pub open spec fn domain_index(d: SephirotDomain) -> nat {
    match d {
        SephirotDomain::Keter => 0,
        SephirotDomain::Chochmah => 1,
        SephirotDomain::Binah => 2,
        SephirotDomain::Chesed => 3,
        SephirotDomain::Gevurah => 4,
        SephirotDomain::Tiferet => 5,
        SephirotDomain::Netzach => 6,
        SephirotDomain::Hod => 7,
        SephirotDomain::Yesod => 8,
        SephirotDomain::Malkuth => 9,
    }
}

/// The domain at a position of the canonical order.
pub open spec fn domain_at(i: nat) -> SephirotDomain {
    if i == 0 {
        SephirotDomain::Keter
    } else if i == 1 {
        SephirotDomain::Chochmah
    } else if i == 2 {
        SephirotDomain::Binah
    } else if i == 3 {
        SephirotDomain::Chesed
    } else if i == 4 {
        SephirotDomain::Gevurah
    } else if i == 5 {
        SephirotDomain::Tiferet
    } else if i == 6 {
        SephirotDomain::Netzach
    } else if i == 7 {
        SephirotDomain::Hod
    } else if i == 8 {
        SephirotDomain::Yesod
    } else {
        SephirotDomain::Malkuth
    }
}

/// The bucket a key hashes to: the first eight bytes of the SHA-256 digest
/// of its UTF-8 encoding, read big-endian, modulo 10.
pub open spec fn hash_bucket(key: Seq<char>) -> nat {
    be_value(sha256(vstd::utf8::encode_utf8(key)).subrange(0, 8)) % 10
}

impl SephirotDomain {
    /// The domain at position `i` of the canonical order.
    pub fn from_index(i: u8) -> (d: SephirotDomain)
        requires
            i < 10,
        ensures
            d == domain_at(i as nat),
            domain_index(d) == i,
    {
        match i {
            0 => SephirotDomain::Keter,
            1 => SephirotDomain::Chochmah,
            2 => SephirotDomain::Binah,
            3 => SephirotDomain::Chesed,
            4 => SephirotDomain::Gevurah,
            5 => SephirotDomain::Tiferet,
            6 => SephirotDomain::Netzach,
            7 => SephirotDomain::Hod,
            8 => SephirotDomain::Yesod,
            _ => SephirotDomain::Malkuth,
        }
    }

    /// Stable string-hash bucketing into one of the ten domains, for sources
    /// whose items carry no natural domain label. The same key always lands
    /// in the same domain, in every process and on every machine.
    pub fn from_hash(key: &str) -> (d: SephirotDomain)
        ensures
            d == domain_at(hash_bucket(key@)),
    {
        let h = sha256_digest(key.as_bytes());
        let v = be_u128(&h, 0, 8);
        let b = (v % 10) as u8;
        SephirotDomain::from_index(b)
    }

    /// The domain's stable numeric tag.
    pub fn index(self) -> (i: u8)
        ensures
            i == domain_index(self),
    {
        match self {
            SephirotDomain::Keter => 0,
            SephirotDomain::Chochmah => 1,
            SephirotDomain::Binah => 2,
            SephirotDomain::Chesed => 3,
            SephirotDomain::Gevurah => 4,
            SephirotDomain::Tiferet => 5,
            SephirotDomain::Netzach => 6,
            SephirotDomain::Hod => 7,
            SephirotDomain::Yesod => 8,
            SephirotDomain::Malkuth => 9,
        }
    }
}

} // verus!
