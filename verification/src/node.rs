use vstd::prelude::*;
use std::collections::{HashMap, HashSet};
use crate::domain::{SephirotDomain, domain_index};
use crate::digest::{sha256, sha256_digest, be_value, be_u128, lemma_be_value_injective};

verus! {

broadcast use vstd::std_specs::hash::group_hash_axioms;

/// A single piece of knowledge ready for ingestion.
pub struct SeedNode {
    /// Knowledge text.
    pub text: String,
    /// Cognitive domain the text is routed to.
    pub domain: SephirotDomain,
    /// Free-form source attribution, e.g. `grokipedia:Quantum_computing`.
    pub source: String,
    /// Confidence in thousandths (850 stands for 0.85).
    pub confidence_permille: u16,
}

/// The bytes that identify a node: its text's UTF-8 encoding followed by the
/// domain's numeric tag. Source and confidence are metadata and do not count.
pub open spec fn identity_bytes(text: Seq<char>, domain: SephirotDomain) -> Seq<u8> {
    vstd::utf8::encode_utf8(text).push(domain_index(domain) as u8)
}

/// Content hash of a node with the given text and domain.
pub open spec fn content_hash_of(text: Seq<char>, domain: SephirotDomain) -> Seq<u8> {
    sha256(identity_bytes(text, domain))
}

impl SeedNode {
    /// Stable content hash for dedup: SHA-256 over the text's bytes and the
    /// domain tag only.
    pub fn content_hash(&self) -> (h: [u8; 32])
        ensures
            h@ == content_hash_of(self.text@, self.domain),
    {
        let text_bytes = self.text.as_str().as_bytes();
        let mut data: Vec<u8> = Vec::new();
        let mut i: usize = 0;
        while i < text_bytes.len()
            invariant
                i <= text_bytes@.len(),
                data@ == text_bytes@.subrange(0, i as int),
            decreases text_bytes@.len() - i,
        {
            data.push(text_bytes[i]);
            proof {
                assert(data@ =~= text_bytes@.subrange(0, i + 1));
            }
            i = i + 1;
        }
        data.push(self.domain.index());
        proof {
            assert(text_bytes@.subrange(0, text_bytes@.len() as int) =~= text_bytes@);
            assert(data@ == identity_bytes(self.text@, self.domain));
        }
        sha256_digest(data.as_slice())
    }
}

/// First half of a digest, as a big-endian number.
pub open spec fn key_hi(h: [u8; 32]) -> u128 {
    be_value(h@.subrange(0, 16)) as u128
}

/// Second half of a digest, as a big-endian number.
pub open spec fn key_lo(h: [u8; 32]) -> u128 {
    be_value(h@.subrange(16, 32)) as u128
}

proof fn lemma_keys_injective(a: [u8; 32], b: [u8; 32])
    requires
        key_hi(a) == key_hi(b),
        key_lo(a) == key_lo(b),
    ensures
        a == b,
{
    crate::digest::lemma_be_value_bound(a@.subrange(0, 16));
    crate::digest::lemma_be_value_bound(b@.subrange(0, 16));
    crate::digest::lemma_be_value_bound(a@.subrange(16, 32));
    crate::digest::lemma_be_value_bound(b@.subrange(16, 32));
    assert(crate::digest::pow256(16) == 0x1_0000_0000_0000_0000_0000_0000_0000_0000) by {
        reveal_with_fuel(crate::digest::pow256, 17);
    }
    lemma_be_value_injective(a@.subrange(0, 16), b@.subrange(0, 16));
    lemma_be_value_injective(a@.subrange(16, 32), b@.subrange(16, 32));
    assert(a@ =~= a@.subrange(0, 16) + a@.subrange(16, 32));
    assert(b@ =~= b@.subrange(0, 16) + b@.subrange(16, 32));
    assert(a@ == b@);
    broadcast use vstd::array::axiom_array_ext_equal;
}

/// The byte sequences of a list of digests.
pub open spec fn digest_views(s: Seq<[u8; 32]>) -> Seq<Seq<u8>> {
    s.map_values(|a: [u8; 32]| a@)
}

proof fn lemma_digest_views_contains(s: Seq<[u8; 32]>, h: [u8; 32])
    ensures
        digest_views(s).contains(h@) <==> s.contains(h),
{
    broadcast use vstd::array::axiom_array_ext_equal;

    if digest_views(s).contains(h@) {
        let j = choose|j: int| 0 <= j < digest_views(s).len() && digest_views(s)[j] == h@;
        assert(s[j]@ == h@);
        assert(s[j] == h);
    }
    if s.contains(h) {
        let j = choose|j: int| 0 <= j < s.len() && s[j] == h;
        assert(digest_views(s)[j] == h@);
    }
}

pub proof fn lemma_push_to_set<A>(s: Seq<A>, x: A)
    ensures
        s.push(x).to_set() == s.to_set().insert(x),
{
    assert forall|y: A| s.push(x).to_set().contains(y) <==> s.to_set().insert(x).contains(y) by {
        if s.push(x).contains(y) {
            let j = choose|j: int| 0 <= j < s.push(x).len() && s.push(x)[j] == y;
            if j < s.len() {
                assert(s[j] == y);
            }
        }
        if s.contains(y) {
            let j = choose|j: int| 0 <= j < s.len() && s[j] == y;
            assert(s.push(x)[j] == y);
        }
        if y == x {
            assert(s.push(x)[s.len() as int] == x);
        }
    }
    assert(s.push(x).to_set() =~= s.to_set().insert(x));
}

proof fn lemma_digest_views_no_dup(s: Seq<[u8; 32]>)
    requires
        s.no_duplicates(),
    ensures
        digest_views(s).no_duplicates(),
{
    broadcast use vstd::array::axiom_array_ext_equal;

    assert forall|i: int, j: int|
        0 <= i < digest_views(s).len() && 0 <= j < digest_views(s).len() && i != j implies digest_views(s)[i]
        != digest_views(s)[j] by {
        if s[i]@ == s[j]@ {
            assert(s[i] == s[j]);
        }
    }
}

/// The lookup structure holds exactly the recorded hashes, each once.
spec fn dedup_wf(index: Map<u128, HashSet<u128>>, order: Seq<[u8; 32]>) -> bool {
    &&& order.no_duplicates()
    &&& forall|i: int|
        0 <= i < order.len() ==> {
            &&& #[trigger] index.contains_key(key_hi(order[i]))
            &&& index[key_hi(order[i])]@.contains(key_lo(order[i]))
        }
    &&& forall|hi: u128, lo: u128|
        #![trigger index[hi]@.contains(lo)]
        index.contains_key(hi) && index[hi]@.contains(lo) ==> exists|i: int|
            0 <= i < order.len() && key_hi(#[trigger] order[i]) == hi && key_lo(order[i]) == lo
}

/// Reusable content-hash dedup state: the set of 32-byte hashes seen so far.
pub struct DedupSet {
    index: HashMap<u128, HashSet<u128>>,
    order: Vec<[u8; 32]>,
}

impl View for DedupSet {
    type V = Set<Seq<u8>>;

    closed spec fn view(&self) -> Set<Seq<u8>> {
        digest_views(self.order@).to_set()
    }
}

impl DedupSet {
    #[verifier::type_invariant]
    closed spec fn wf(&self) -> bool {
        dedup_wf(self.index@, self.order@)
    }

    /// The recorded hashes form a finite set.
    pub proof fn lemma_view_finite(&self)
        ensures
            self@.finite(),
    {
        vstd::seq_lib::seq_to_set_is_finite(digest_views(self.order@));
    }

    /// An empty set.
    pub fn new() -> (d: DedupSet)
        ensures
            d@ == Set::<Seq<u8>>::empty(),
            d@.finite(),
    {
        let d = DedupSet { index: HashMap::new(), order: Vec::new() };
        proof {
            assert(digest_views(d.order@).to_set() =~= Set::<Seq<u8>>::empty());
        }
        d
    }

    /// Returns `true` if this hash is new (and records it).
    pub fn insert_new(&mut self, hash: [u8; 32]) -> (fresh: bool)
        ensures
            fresh == !old(self)@.contains(hash@),
            final(self)@ == old(self)@.insert(hash@),
            final(self)@.finite(),
            final(self)@.len() == old(self)@.len() + if fresh { 1nat } else { 0nat },
    {
        proof {
            use_type_invariant(&*self);
            self.lemma_view_finite();
        }
        let hi = be_u128(&hash, 0, 16);
        let lo = be_u128(&hash, 16, 32);
        let ghost hv = hash;
        assert(hi == key_hi(hash) && lo == key_lo(hash));
        let present = match self.index.get(&hi) {
            Some(inner) => inner.contains(&lo),
            None => false,
        };
        if present {
            proof {
                let i = choose|i: int|
                    0 <= i < self.order@.len() && key_hi(#[trigger] self.order@[i]) == hi && key_lo(
                        self.order@[i],
                    ) == lo;
                lemma_keys_injective(self.order@[i], hash);
                lemma_digest_views_contains(self.order@, hash);
                assert(self@.insert(hash@) =~= self@);
            }
            return false;
        }
        proof {
            if self.order@.contains(hash) {
                let i = choose|i: int| 0 <= i < self.order@.len() && self.order@[i] == hash;
                assert(self.index@.contains_key(key_hi(self.order@[i])));
                assert(self.index@[key_hi(self.order@[i])]@.contains(key_lo(self.order@[i])));
            }
            assert(!self.order@.contains(hash));
            lemma_digest_views_contains(self.order@, hash);
        }
        let ghost old_order = self.order@;
        let mut taken = DedupSet::new();
        std::mem::swap(self, &mut taken);
        let DedupSet { index: mut index, order: mut order } = taken;
        let ghost old_index = index@;
        assert(old_index == old(self).index@);
        let mut inner = match index.remove(&hi) {
            Some(s) => s,
            None => HashSet::new(),
        };
        assert(index@ == old_index.remove(hi));
        assert(old_index.contains_key(hi) ==> inner@ == old_index[hi]@);
        assert(!old_index.contains_key(hi) ==> inner@ == Set::<u128>::empty());
        let ghost old_inner = inner@;
        inner.insert(lo);
        assert(inner@ == old_inner.insert(lo));
        index.insert(hi, inner);
        assert(index@ == old_index.remove(hi).insert(hi, inner));
        order.push(hash);
        proof {
            assert(order@ == old_order.push(hash));
            assert forall|i: int| 0 <= i < order@.len() implies {
                &&& #[trigger] index@.contains_key(key_hi(order@[i]))
                &&& index@[key_hi(order@[i])]@.contains(key_lo(order@[i]))
            } by {
                if i < old_order.len() {
                    assert(order@[i] == old_order[i]);
                    assert(old_index.contains_key(key_hi(old_order[i])));
                    assert(old_index[key_hi(old_order[i])]@.contains(key_lo(old_order[i])));
                } else {
                    assert(order@[i] == hash);
                }
            }
            assert forall|h: u128, l: u128|
                #![trigger index@[h]@.contains(l)]
                index@.contains_key(h) && index@[h]@.contains(l) implies exists|i: int|
                    0 <= i < order@.len() && key_hi(#[trigger] order@[i]) == h && key_lo(order@[i]) == l
            by {
                if h == hi && l == lo {
                    assert(order@[old_order.len() as int] == hash);
                } else {
                    assert(old(self).index@.contains_key(h) && old(self).index@[h]@.contains(l));
                    let i = choose|i: int|
                        0 <= i < old_order.len() && key_hi(#[trigger] old_order[i]) == h && key_lo(
                            old_order[i],
                        ) == l;
                    assert(order@[i] == old_order[i]);
                }
            }
            assert(order@.no_duplicates()) by {
                assert forall|i: int, j: int| 0 <= i < order@.len() && 0 <= j < order@.len() && i != j implies order@[i] != order@[j] by {
                    if j == old_order.len() {
                        assert(order@[i] == old_order[i]);
                    } else if i == old_order.len() {
                        assert(order@[j] == old_order[j]);
                    } else {
                        assert(order@[i] == old_order[i]);
                        assert(order@[j] == old_order[j]);
                    }
                }
            }
        }
        proof {
            assert(digest_views(order@) =~= digest_views(old_order).push(hash@));
            lemma_push_to_set(digest_views(old_order), hash@);
        }
        assert(dedup_wf(index@, order@));
        *self = DedupSet { index, order };
        true
    }

    /// Number of distinct hashes recorded.
    pub fn len(&self) -> (n: usize)
        ensures
            n == self@.len(),
            self@.finite(),
    {
        proof {
            use_type_invariant(self);
            self.lemma_view_finite();
            lemma_digest_views_no_dup(self.order@);
            digest_views(self.order@).unique_seq_to_set();
        }
        self.order.len()
    }

    /// Whether no hash has been recorded yet.
    pub fn is_empty(&self) -> (e: bool)
        ensures
            e == (self@.len() == 0),
    {
        self.len() == 0
    }
}

/// The recorded set after inserting `hs` in order into `s`.
pub open spec fn after_inserts(s: Set<Seq<u8>>, hs: Seq<Seq<u8>>) -> Set<Seq<u8>>
    decreases hs.len(),
{
    if hs.len() == 0 {
        s
    } else {
        after_inserts(s, hs.drop_last()).insert(hs.last())
    }
}

/// How many of the inserts of `hs` into `s`, in order, report a new hash.
pub open spec fn fresh_count(s: Set<Seq<u8>>, hs: Seq<Seq<u8>>) -> nat
    decreases hs.len(),
{
    if hs.len() == 0 {
        0
    } else {
        fresh_count(s, hs.drop_last()) + if after_inserts(s, hs.drop_last()).contains(hs.last()) {
            0nat
        } else {
            1nat
        }
    }
}

/// Over any run of inserts into a dedup set: the set recorded is the one
/// before plus the hashes inserted, and its length grows by exactly the
/// number of inserts that reported a new hash. From an empty set the length
/// is the number of distinct hashes inserted.
pub proof fn law_dedup_length_counts_fresh_inserts(s: Set<Seq<u8>>, hs: Seq<Seq<u8>>)
    requires
        s.finite(),
    ensures
        after_inserts(s, hs) == s + hs.to_set(),
        after_inserts(s, hs).finite(),
        after_inserts(s, hs).len() == s.len() + fresh_count(s, hs),
        s.len() == 0 ==> after_inserts(s, hs).len() == hs.to_set().len(),
    decreases hs.len(),
{
    if hs.len() == 0 {
        assert(hs.to_set() =~= Set::<Seq<u8>>::empty());
        assert(s + hs.to_set() =~= s);
    } else {
        let init = hs.drop_last();
        law_dedup_length_counts_fresh_inserts(s, init);
        assert(hs =~= init.push(hs.last()));
        lemma_push_to_set(init, hs.last());
        assert(after_inserts(s, hs) =~= s + hs.to_set());
    }
    if s.len() == 0 {
        vstd::set_lib::lemma_set_empty_equivalency_len(s);
        assert(s =~= Set::<Seq<u8>>::empty());
        assert(s + hs.to_set() =~= hs.to_set());
    }
}

impl Default for DedupSet {
    fn default() -> (d: DedupSet)
        ensures
            d@ == Set::<Seq<u8>>::empty(),
            d@.finite(),
    {
        DedupSet::new()
    }
}

} // verus!
