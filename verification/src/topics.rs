//! Seed topic lists shared by the curated sources, and what holds of any
//! such list: per-domain counts and rotation.

use vstd::prelude::*;
use crate::domain::{SephirotDomain, domain_index};

pub mod grokipedia;
pub mod wikipedia;
pub mod arxiv;

verus! {

/// How many entries of a topic list are routed to the domain at position `i`.
pub open spec fn count_in(ts: Seq<(&'static str, SephirotDomain)>, i: nat) -> nat
    decreases ts.len(),
{
    if ts.len() == 0 {
        0
    } else {
        count_in(ts.drop_last(), i) + if domain_index(ts.last().1) == i {
            1nat
        } else {
            0nat
        }
    }
}

/// The counts of the first `n` domains, added up.
pub open spec fn sum_counts(ts: Seq<(&'static str, SephirotDomain)>, n: nat) -> nat
    decreases n,
{
    if n == 0 {
        0
    } else {
        sum_counts(ts, (n - 1) as nat) + count_in(ts, (n - 1) as nat)
    }
}

/// A sequence rotated left by `k` places.
pub open spec fn rotation<A>(s: Seq<A>, k: int) -> Seq<A> {
    s.skip(k) + s.take(k)
}

proof fn lemma_count_bounded(ts: Seq<(&'static str, SephirotDomain)>, i: nat)
    ensures
        count_in(ts, i) <= ts.len(),
    decreases ts.len(),
{
    if ts.len() > 0 {
        lemma_count_bounded(ts.drop_last(), i);
    }
}

/// Per-domain counts of a topic list, indexed by the domain's position in
/// the canonical order.
pub fn distribution_of(topics: &[(&'static str, SephirotDomain)]) -> (d: [usize; 10])
    ensures
        forall|i: int| 0 <= i < 10 ==> d@[i] == count_in(topics@, i as nat),
{
    let mut d = [0usize; 10];
    let n = topics.len();
    let mut k: usize = 0;
    while k < n
        invariant
            k <= n,
            n == topics@.len(),
            forall|i: int| 0 <= i < 10 ==> d@[i] == count_in(topics@.take(k as int), i as nat),
        decreases n - k,
    {
        let (_, dom) = topics[k];
        let x = dom.index() as usize;
        assert(topics@.take(k as int + 1).drop_last() =~= topics@.take(k as int));
        proof {
            lemma_count_bounded(topics@.take(k as int), x as nat);
        }
        d[x] = d[x] + 1;
        k = k + 1;
    }
    assert(topics@.take(n as int) =~= topics@);
    d
}

proof fn lemma_sum_counts_push(
    ts: Seq<(&'static str, SephirotDomain)>,
    t: (&'static str, SephirotDomain),
    n: nat,
)
    ensures
        sum_counts(ts.push(t), n) == sum_counts(ts, n) + if domain_index(t.1) < n {
            1nat
        } else {
            0nat
        },
    decreases n,
{
    assert(ts.push(t).drop_last() =~= ts);
    if n > 0 {
        lemma_sum_counts_push(ts, t, (n - 1) as nat);
    }
}

/// Every entry of a topic list is counted under exactly one domain: the ten
/// per-domain counts add up to the length of the list.
pub proof fn law_distribution_counts_every_topic(ts: Seq<(&'static str, SephirotDomain)>)
    ensures
        sum_counts(ts, 10) == ts.len(),
    decreases ts.len(),
{
    if ts.len() == 0 {
        assert(sum_counts(ts, 10) == 0) by {
            reveal_with_fuel(sum_counts, 11);
        }
    } else {
        let init = ts.drop_last();
        law_distribution_counts_every_topic(init);
        lemma_sum_counts_push(init, ts.last(), 10);
        assert(init.push(ts.last()) =~= ts);
    }
}

/// Rotating a list reorders it and nothing more: the rotated list holds the
/// same entries, each as often as before.
pub proof fn law_rotation_is_permutation<A>(s: Seq<A>, k: int)
    requires
        0 <= k <= s.len(),
    ensures
        rotation(s, k).len() == s.len(),
        rotation(s, k).to_multiset() =~= s.to_multiset(),
{
    vstd::seq_lib::lemma_multiset_commutative(s.skip(k), s.take(k));
    vstd::seq_lib::lemma_multiset_commutative(s.take(k), s.skip(k));
    assert(s.take(k) + s.skip(k) =~= s);
}

/// A rotation by zero places leaves the list as it was.
pub proof fn law_rotation_by_zero_is_identity<A>(s: Seq<A>)
    ensures
        rotation(s, 0) =~= s,
{
}

} // verus!
