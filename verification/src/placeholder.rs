//! A stand-in knowledge source for smoke tests: numbered stub texts, up to
//! a fixed cap, spread round-robin over the ten domains.

use vstd::prelude::*;
use crate::domain::{SephirotDomain, domain_at};
use crate::node::SeedNode;
use crate::text::{chars_of, append_range, string_from_chars};
use crate::strs::{decimal, decimal_chars, lemma_decimal_injective};
use crate::pipeline::{node_view, nodes_view};

verus! {

/// How many stub nodes the smoke-test source gives in all.
pub const PLACEHOLDER_CAP: usize = 2000;
/// Confidence (in thousandths) given to stub nodes.
pub const PLACEHOLDER_CONFIDENCE: u16 = 500;

/// The text of stub node `i`.
pub open spec fn placeholder_text(i: nat) -> Seq<char> {
    "[placeholder #"@ + decimal(i) + "] real seeder must replace this with curated knowledge from a content source (Grokipedia, ArXiv, Wikipedia dump)."@
}

/// The attribution of stub node `i`.
pub open spec fn placeholder_source(i: nat) -> Seq<char> {
    "placeholder:#"@ + decimal(i)
}

/// Stub node `i`: its text, the domain `i mod 10` in the canonical order,
/// its attribution and confidence.
pub open spec fn placeholder_node(i: nat) -> (Seq<char>, SephirotDomain, Seq<char>, u16) {
    (placeholder_text(i), domain_at(i % 10), placeholder_source(i), PLACEHOLDER_CONFIDENCE)
}

/// How many stub nodes a request for `n` gets when `counter` have been
/// given out of `cap`.
pub open spec fn placeholder_count(counter: nat, cap: nat, n: nat) -> nat {
    if counter >= cap {
        0
    } else if cap - counter < n {
        (cap - counter) as nat
    } else {
        n
    }
}

proof fn lemma_framed_injective(p: Seq<char>, a: Seq<char>, b: Seq<char>, s: Seq<char>)
    requires
        p + a + s == p + b + s,
    ensures
        a == b,
{
    let x = p + a + s;
    let y = p + b + s;
    assert(x.len() == y.len());
    assert(a.len() == b.len());
    assert(a =~= x.subrange(p.len() as int, (p.len() + a.len()) as int));
    assert(b =~= y.subrange(p.len() as int, (p.len() + b.len()) as int));
}

/// The smoke-test source never gives the same stub twice: distinct node
/// numbers have distinct texts and distinct attributions.
pub proof fn law_placeholder_stubs_distinct(i: nat, j: nat)
    requires
        i != j,
    ensures
        placeholder_text(i) != placeholder_text(j),
        placeholder_source(i) != placeholder_source(j),
{
    let pre = "[placeholder #"@;
    let suf = "] real seeder must replace this with curated knowledge from a content source (Grokipedia, ArXiv, Wikipedia dump)."@;
    if placeholder_text(i) == placeholder_text(j) {
        lemma_framed_injective(pre, decimal(i), decimal(j), suf);
        lemma_decimal_injective(i, j);
    }
    if placeholder_source(i) == placeholder_source(j) {
        assert("placeholder:#"@ + decimal(i) =~= "placeholder:#"@ + decimal(i) + Seq::<char>::empty());
        assert("placeholder:#"@ + decimal(j) =~= "placeholder:#"@ + decimal(j) + Seq::<char>::empty());
        lemma_framed_injective("placeholder:#"@, decimal(i), decimal(j), Seq::<char>::empty());
        lemma_decimal_injective(i, j);
    }
}

/// The smoke-test source: a cap and how many stub nodes were given out.
pub struct PlaceholderSource {
    pub cap: usize,
    pub counter: usize,
}

fn with_number(prefix: &str, i: usize, suffix: &str) -> (s: String)
    ensures
        s@ == prefix@ + decimal(i as nat) + suffix@,
{
    let mut all = chars_of(prefix);
    let d = decimal_chars(i as u64);
    append_range(&mut all, &d, 0, d.len());
    let t = chars_of(suffix);
    append_range(&mut all, &t, 0, t.len());
    proof {
        assert(d@.subrange(0, d@.len() as int) =~= d@);
        assert(t@.subrange(0, t@.len() as int) =~= t@);
    }
    string_from_chars(all.as_slice())
}

impl PlaceholderSource {
    /// A source that will give `cap` stub nodes.
    pub fn new(cap: usize) -> (s: PlaceholderSource)
        ensures
            s.cap == cap,
            s.counter == 0,
    {
        PlaceholderSource { cap, counter: 0 }
    }

    /// The next stub nodes, as many as asked for while the cap allows.
    pub fn fetch_batch(&mut self, n: usize) -> (out: Vec<SeedNode>)
        ensures
            final(self).cap == old(self).cap,
            final(self).counter == old(self).counter + placeholder_count(
                old(self).counter as nat,
                old(self).cap as nat,
                n as nat,
            ),
            nodes_view(out@) == Seq::new(
                placeholder_count(old(self).counter as nat, old(self).cap as nat, n as nat),
                |j: int| placeholder_node((old(self).counter + j) as nat),
            ),
    {
        let mut out: Vec<SeedNode> = Vec::new();
        let ghost c0 = self.counter;
        let ghost k = placeholder_count(c0 as nat, self.cap as nat, n as nat);
        while out.len() < n && self.counter < self.cap
            invariant
                self.cap == old(self).cap,
                c0 == old(self).counter,
                k == placeholder_count(c0 as nat, self.cap as nat, n as nat),
                c0 <= self.counter <= self.cap || (c0 > self.cap && self.counter == c0),
                self.counter - c0 == out@.len(),
                out@.len() <= n,
                nodes_view(out@) == Seq::new(out@.len(), |j: int| placeholder_node((c0 + j) as nat)),
            decreases n - out@.len(),
        {
            let i = self.counter;
            let text = with_number("[placeholder #", i, "] real seeder must replace this with curated knowledge from a content source (Grokipedia, ArXiv, Wikipedia dump).");
            let source = with_number("placeholder:#", i, "");
            let domain = SephirotDomain::from_index((i % 10) as u8);
            let node = SeedNode { text, domain, source, confidence_permille: PLACEHOLDER_CONFIDENCE };
            let ghost before = out@;
            out.push(node);
            proof {
                assert(""@ =~= Seq::<char>::empty()) by {
                    reveal_strlit("");
                }
                assert(node_view(node) == placeholder_node(i as nat));
                assert(nodes_view(out@) =~= nodes_view(before).push(node_view(node)));
                assert(nodes_view(out@) =~= Seq::new(out@.len(), |j: int| placeholder_node((c0 + j) as nat)));
            }
            self.counter = self.counter + 1;
        }
        proof {
            assert(out@.len() == k);
        }
        out
    }
}

} // verus!
