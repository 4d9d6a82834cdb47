//! Curated paper identifiers for the abstract source, each tagged with the
//! domain its abstract is routed to. Keter has no entries.

use vstd::prelude::*;
use crate::domain::SephirotDomain;
use crate::topics::{count_in, distribution_of};

verus! {

/// Paper identifiers with their domains, grouped by domain.
pub const SEED_TOPICS: [(&'static str, SephirotDomain); 65] = [
    // Hod
    ("1706.03762", SephirotDomain::Hod),
    ("1810.04805", SephirotDomain::Hod),
    ("2005.14165", SephirotDomain::Hod),
    ("2203.02155", SephirotDomain::Hod),
    ("2305.18290", SephirotDomain::Hod),
    ("2307.09288", SephirotDomain::Hod),
    ("2407.10671", SephirotDomain::Hod),
    ("2303.08774", SephirotDomain::Hod),
    ("2106.09685", SephirotDomain::Hod),
    ("2305.14314", SephirotDomain::Hod),
    ("2104.09864", SephirotDomain::Hod),
    ("2305.13245", SephirotDomain::Hod),
    ("2401.04088", SephirotDomain::Hod),
    ("1911.02150", SephirotDomain::Hod),
    ("2204.02311", SephirotDomain::Hod),
    ("2206.07682", SephirotDomain::Hod),

    // Yesod
    ("2005.11401", SephirotDomain::Yesod),
    ("2112.04426", SephirotDomain::Yesod),
    ("2310.11511", SephirotDomain::Yesod),
    ("2402.03216", SephirotDomain::Yesod),
    ("1607.06450", SephirotDomain::Yesod),
    ("2305.13245", SephirotDomain::Yesod),
    ("2104.05952", SephirotDomain::Yesod),

    // Binah
    ("2311.08105", SephirotDomain::Binah),
    ("2301.11913", SephirotDomain::Binah),
    ("1811.06965", SephirotDomain::Binah),
    ("1909.08053", SephirotDomain::Binah),
    ("1910.02054", SephirotDomain::Binah),
    ("2104.07857", SephirotDomain::Binah),
    ("2007.07314", SephirotDomain::Binah),
    ("1901.09269", SephirotDomain::Binah),
    ("1904.09848", SephirotDomain::Binah),
    ("1610.05492", SephirotDomain::Binah),
    ("2105.04663", SephirotDomain::Binah),

    // Gevurah
    ("2212.08073", SephirotDomain::Gevurah),
    ("2210.10760", SephirotDomain::Gevurah),
    ("2202.03286", SephirotDomain::Gevurah),
    ("2402.13228", SephirotDomain::Gevurah),
    ("1906.01820", SephirotDomain::Gevurah),
    ("2009.03300", SephirotDomain::Gevurah),
    ("2110.14168", SephirotDomain::Gevurah),
    ("2109.07958", SephirotDomain::Gevurah),
    ("1803.05457", SephirotDomain::Gevurah),

    // Chochmah
    ("1411.4028", SephirotDomain::Chochmah),
    ("1304.3061", SephirotDomain::Chochmah),
    ("1812.10773", SephirotDomain::Chochmah),
    ("1905.10876", SephirotDomain::Chochmah),
    ("2012.09265", SephirotDomain::Chochmah),
    ("2103.07585", SephirotDomain::Chochmah),

    // Tiferet
    ("0712.1374", SephirotDomain::Tiferet),
    ("2105.11521", SephirotDomain::Tiferet),

    // Netzach
    ("2206.11795", SephirotDomain::Netzach),
    ("1707.06347", SephirotDomain::Netzach),
    ("1502.05477", SephirotDomain::Netzach),
    ("1707.06887", SephirotDomain::Netzach),
    ("1710.06542", SephirotDomain::Netzach),

    // Malkuth
    ("2206.01288", SephirotDomain::Malkuth),
    ("2206.06550", SephirotDomain::Malkuth),
    ("1810.00440", SephirotDomain::Malkuth),
    ("2208.07339", SephirotDomain::Malkuth),
    ("2306.00978", SephirotDomain::Malkuth),
    ("2306.03078", SephirotDomain::Malkuth),
    ("2310.11453", SephirotDomain::Malkuth),

    // Chesed
    ("2206.10498", SephirotDomain::Chesed),
    ("2007.05558", SephirotDomain::Chesed),
];

/// How many seed topics are routed to each domain, indexed by the domain's
/// position in the canonical order.
pub fn distribution() -> (d: [usize; 10])
    ensures
        forall|i: int| 0 <= i < 10 ==> d@[i] == count_in(SEED_TOPICS@, i as nat),
{
    distribution_of(&SEED_TOPICS)
}

} // verus!
