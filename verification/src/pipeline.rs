use vstd::prelude::*;
use std::collections::VecDeque;
use crate::domain::SephirotDomain;
use crate::node::{SeedNode, DedupSet, content_hash_of};
use crate::chunk::{strings_view, chunks, chunk_text};

verus! {

/// Content hash of a node.
pub open spec fn node_hash(n: SeedNode) -> Seq<u8> {
    content_hash_of(n.text@, n.domain)
}

/// Content hashes of a sequence of nodes.
pub open spec fn hashes_of(s: Seq<SeedNode>) -> Set<Seq<u8>> {
    s.map_values(|n: SeedNode| node_hash(n)).to_set()
}

/// No two nodes of `s` share a content hash.
pub open spec fn distinct_hashes(s: Seq<SeedNode>) -> bool {
    forall|i: int, j: int| 0 <= i < s.len() && 0 <= j < s.len() && i != j ==> node_hash(s[i]) != node_hash(s[j])
}

/// How many pending nodes one poll hands out: as many as are pending, up to
/// what the batch still lacks of `n` nodes.
pub open spec fn drain_count(pending_len: nat, out_len: nat, n: nat) -> nat {
    if out_len >= n {
        0
    } else if pending_len <= n - out_len {
        pending_len
    } else {
        (n - out_len) as nat
    }
}

/// Deduplicating a list of chunk texts against the hashes seen so far: the
/// updated set of seen hashes and the texts that were new, in order.
pub open spec fn ingest_fold(seen: Set<Seq<u8>>, chunks: Seq<Seq<char>>, domain: SephirotDomain) -> (Set<Seq<u8>>, Seq<Seq<char>>)
    decreases chunks.len(),
{
    if chunks.len() == 0 {
        (seen, seq![])
    } else {
        let acc = ingest_fold(seen, chunks.drop_last(), domain);
        let c = chunks.last();
        let h = content_hash_of(c, domain);
        if acc.0.contains(h) {
            acc
        } else {
            (acc.0.insert(h), acc.1.push(c))
        }
    }
}

/// The observable fields of a node: text, domain, source and confidence.
pub open spec fn node_view(n: SeedNode) -> (Seq<char>, SephirotDomain, Seq<char>, u16) {
    (n.text@, n.domain, n.source@, n.confidence_permille)
}

/// The views of the nodes made from `texts` with the given metadata.
pub open spec fn made_nodes(texts: Seq<Seq<char>>, domain: SephirotDomain, source: Seq<char>, confidence_permille: u16) -> Seq<(Seq<char>, SephirotDomain, Seq<char>, u16)> {
    texts.map_values(|t: Seq<char>| (t, domain, source, confidence_permille))
}

/// The views of a sequence of nodes.
pub open spec fn nodes_view(s: Seq<SeedNode>) -> Seq<(Seq<char>, SephirotDomain, Seq<char>, u16)> {
    s.map_values(|n: SeedNode| node_view(n))
}

proof fn lemma_hashes_of_push(s: Seq<SeedNode>, n: SeedNode)
    ensures
        hashes_of(s.push(n)) == hashes_of(s).insert(node_hash(n)),
{
    let f = |x: SeedNode| node_hash(x);
    assert(s.push(n).map_values(f) =~= s.map_values(f).push(node_hash(n)));
    crate::node::lemma_push_to_set(s.map_values(f), node_hash(n));
}

proof fn lemma_take_distinct(s: Seq<SeedNode>, k: int)
    requires
        distinct_hashes(s),
        0 <= k <= s.len(),
    ensures
        distinct_hashes(s.take(k)),
        distinct_hashes(s.skip(k)),
{
    assert forall|i: int, j: int| 0 <= i < s.take(k).len() && 0 <= j < s.take(k).len() && i != j implies node_hash(
        s.take(k)[i],
    ) != node_hash(s.take(k)[j]) by {
        assert(s.take(k)[i] == s[i] && s.take(k)[j] == s[j]);
    }
    assert forall|i: int, j: int| 0 <= i < s.skip(k).len() && 0 <= j < s.skip(k).len() && i != j implies node_hash(
        s.skip(k)[i],
    ) != node_hash(s.skip(k)[j]) by {
        assert(s.skip(k)[i] == s[i + k] && s.skip(k)[j] == s[j + k]);
    }
}

proof fn lemma_hashes_of_contains(s: Seq<SeedNode>, h: Seq<u8>)
    ensures
        hashes_of(s).contains(h) <==> exists|i: int| 0 <= i < s.len() && node_hash(s[i]) == h,
{
    let f = |x: SeedNode| node_hash(x);
    if hashes_of(s).contains(h) {
        let i = choose|i: int| 0 <= i < s.map_values(f).len() && s.map_values(f)[i] == h;
        assert(node_hash(s[i]) == h);
    }
    if exists|i: int| 0 <= i < s.len() && node_hash(s[i]) == h {
        let i = choose|i: int| 0 <= i < s.len() && node_hash(s[i]) == h;
        assert(s.map_values(f)[i] == h);
    }
}

proof fn lemma_drain_keeps_invariant(e0: Set<Seq<u8>>, p0: Seq<SeedNode>, k: int, seen: Set<Seq<u8>>)
    requires
        0 <= k <= p0.len(),
        distinct_hashes(p0),
        forall|i: int| 0 <= i < p0.len() ==> !e0.contains(#[trigger] node_hash(p0[i])),
        seen == e0 + hashes_of(p0),
    ensures
        distinct_hashes(p0.skip(k)),
        forall|i: int| 0 <= i < p0.skip(k).len() ==> !(e0 + hashes_of(p0.take(k))).contains(#[trigger] node_hash(p0.skip(k)[i])),
        seen == (e0 + hashes_of(p0.take(k))) + hashes_of(p0.skip(k)),
{
    lemma_take_distinct(p0, k);
    assert forall|i: int| 0 <= i < p0.skip(k).len() implies !(e0 + hashes_of(p0.take(k))).contains(#[trigger] node_hash(p0.skip(k)[i])) by {
        assert(p0.skip(k)[i] == p0[i + k]);
        lemma_hashes_of_contains(p0.take(k), node_hash(p0[i + k]));
        if hashes_of(p0.take(k)).contains(node_hash(p0[i + k])) {
            let j = choose|j: int| 0 <= j < p0.take(k).len() && node_hash(p0.take(k)[j]) == node_hash(p0[i + k]);
            assert(p0.take(k)[j] == p0[j]);
        }
    }
    assert forall|h: Seq<u8>| hashes_of(p0).contains(h) <==> (hashes_of(p0.take(k)).contains(h) || hashes_of(p0.skip(k)).contains(h)) by {
        lemma_hashes_of_contains(p0, h);
        lemma_hashes_of_contains(p0.take(k), h);
        lemma_hashes_of_contains(p0.skip(k), h);
        if hashes_of(p0).contains(h) {
            let i = choose|i: int| 0 <= i < p0.len() && node_hash(p0[i]) == h;
            if i < k {
                assert(p0.take(k)[i] == p0[i]);
            } else {
                assert(p0.skip(k)[i - k] == p0[i]);
            }
        }
        if hashes_of(p0.take(k)).contains(h) {
            let i = choose|i: int| 0 <= i < p0.take(k).len() && node_hash(p0.take(k)[i]) == h;
            assert(p0.take(k)[i] == p0[i]);
        }
        if hashes_of(p0.skip(k)).contains(h) {
            let i = choose|i: int| 0 <= i < p0.skip(k).len() && node_hash(p0.skip(k)[i]) == h;
            assert(p0.skip(k)[i] == p0[i + k]);
        }
    }
    assert(seen =~= (e0 + hashes_of(p0.take(k))) + hashes_of(p0.skip(k)));
}

proof fn lemma_fold_records_all(seen: Set<Seq<u8>>, cs: Seq<Seq<char>>, domain: SephirotDomain)
    ensures
        seen.subset_of(ingest_fold(seen, cs, domain).0),
        forall|i: int| 0 <= i < cs.len() ==> ingest_fold(seen, cs, domain).0.contains(#[trigger] content_hash_of(cs[i], domain)),
    decreases cs.len(),
{
    if cs.len() > 0 {
        let init = cs.drop_last();
        lemma_fold_records_all(seen, init, domain);
        assert forall|i: int| 0 <= i < cs.len() implies ingest_fold(seen, cs, domain).0.contains(#[trigger] content_hash_of(cs[i], domain)) by {
            if i < cs.len() - 1 {
                assert(cs[i] == init[i]);
            }
        }
    }
}

proof fn lemma_fold_nothing_new(seen: Set<Seq<u8>>, cs: Seq<Seq<char>>, domain: SephirotDomain)
    requires
        forall|i: int| 0 <= i < cs.len() ==> seen.contains(#[trigger] content_hash_of(cs[i], domain)),
    ensures
        ingest_fold(seen, cs, domain) == (seen, Seq::<Seq<char>>::empty()),
    decreases cs.len(),
{
    if cs.len() > 0 {
        let init = cs.drop_last();
        assert forall|i: int| 0 <= i < init.len() implies seen.contains(#[trigger] content_hash_of(init[i], domain)) by {
            assert(init[i] == cs[i]);
        }
        lemma_fold_nothing_new(seen, init, domain);
        assert(seen.contains(content_hash_of(cs[cs.len() - 1], domain)));
    }
}

/// Queuing the same chunks a second time queues nothing and records
/// nothing new: every chunk's content hash was recorded the first time.
pub proof fn law_reingest_queues_nothing(seen: Set<Seq<u8>>, cs: Seq<Seq<char>>, domain: SephirotDomain)
    ensures
        ingest_fold(ingest_fold(seen, cs, domain).0, cs, domain) == (ingest_fold(seen, cs, domain).0, Seq::<Seq<char>>::empty()),
{
    lemma_fold_records_all(seen, cs, domain);
    lemma_fold_nothing_new(ingest_fold(seen, cs, domain).0, cs, domain);
}

/// Chunk `i` of `cs` is fresh: its content hash is neither among the hashes
/// seen before nor that of an earlier chunk.
pub open spec fn fresh_at(seen: Set<Seq<u8>>, cs: Seq<Seq<char>>, domain: SephirotDomain, i: int) -> bool {
    &&& !seen.contains(content_hash_of(cs[i], domain))
    &&& forall|j: int| 0 <= j < i ==> content_hash_of(#[trigger] cs[j], domain) != content_hash_of(cs[i], domain)
}

/// The content hashes of chunks `cs`.
pub open spec fn chunk_hashes(cs: Seq<Seq<char>>, domain: SephirotDomain) -> Set<Seq<u8>> {
    Set::new(|h: Seq<u8>| exists|i: int| 0 <= i < cs.len() && h == content_hash_of(#[trigger] cs[i], domain))
}

/// Deduplication keeps exactly the fresh chunks, in order, and records every
/// chunk's hash: the chunks kept are those at the positions `at`, which
/// increase; a position is among them exactly when its chunk is fresh; the
/// hashes seen afterwards are those seen before and those of all the chunks.
pub proof fn law_ingest_keeps_fresh_chunks_in_order(seen: Set<Seq<u8>>, cs: Seq<Seq<char>>, domain: SephirotDomain) -> (at: Seq<int>)
    ensures
        at.len() == ingest_fold(seen, cs, domain).1.len(),
        forall|k: int| 0 <= k < at.len() ==> 0 <= #[trigger] at[k] < cs.len() && ingest_fold(seen, cs, domain).1[k] == cs[at[k]],
        forall|k: int, l: int| 0 <= k < l < at.len() ==> #[trigger] at[k] < #[trigger] at[l],
        forall|i: int| 0 <= i < cs.len() ==> (at.contains(i) <==> #[trigger] fresh_at(seen, cs, domain, i)),
        ingest_fold(seen, cs, domain).0 == seen + chunk_hashes(cs, domain),
    decreases cs.len(),
{
    if cs.len() == 0 {
        assert(chunk_hashes(cs, domain) =~= Set::<Seq<u8>>::empty());
        assert(seen + Set::<Seq<u8>>::empty() =~= seen);
        Seq::<int>::empty()
    } else {
        let prev = cs.drop_last();
        let n = cs.len() - 1;
        let c = cs.last();
        let h = content_hash_of(c, domain);
        let ap = law_ingest_keeps_fresh_chunks_in_order(seen, prev, domain);
        let acc = ingest_fold(seen, prev, domain);
        assert forall|j: int| 0 <= j < n implies #[trigger] prev[j] == cs[j] by {}
        assert forall|i: int| 0 <= i < n implies #[trigger] fresh_at(seen, cs, domain, i) == fresh_at(seen, prev, domain, i) by {
            assert(cs[i] == prev[i]);
            assert forall|j: int| 0 <= j < i implies #[trigger] cs[j] == prev[j] by {}
        }
        let fresh_n = fresh_at(seen, cs, domain, n);
        if acc.0.contains(h) {
            assert(!fresh_n) by {
                if !seen.contains(h) {
                    assert(chunk_hashes(prev, domain).contains(h));
                    let j = choose|j: int| 0 <= j < prev.len() && h == content_hash_of(#[trigger] prev[j], domain);
                    assert(cs[j] == prev[j]);
                }
            }
        } else {
            assert(fresh_n) by {
                assert forall|j: int| 0 <= j < n implies content_hash_of(#[trigger] cs[j], domain) != h by {
                    assert(cs[j] == prev[j]);
                    if content_hash_of(cs[j], domain) == h {
                        assert(chunk_hashes(prev, domain).contains(h));
                    }
                }
            }
        }
        assert(chunk_hashes(cs, domain) =~= chunk_hashes(prev, domain).insert(h)) by {
            assert forall|x: Seq<u8>| chunk_hashes(cs, domain).contains(x) <==> chunk_hashes(prev, domain).insert(h).contains(x) by {
                if chunk_hashes(cs, domain).contains(x) {
                    let i = choose|i: int| 0 <= i < cs.len() && x == content_hash_of(#[trigger] cs[i], domain);
                    if i < n {
                        assert(cs[i] == prev[i]);
                    }
                }
                if chunk_hashes(prev, domain).contains(x) {
                    let i = choose|i: int| 0 <= i < prev.len() && x == content_hash_of(#[trigger] prev[i], domain);
                    assert(cs[i] == prev[i]);
                }
                if x == h {
                    assert(cs[n] == c);
                }
            }
        }
        if acc.0.contains(h) {
            assert(ingest_fold(seen, cs, domain) == acc);
            assert(ingest_fold(seen, cs, domain).0 =~= seen + chunk_hashes(cs, domain));
            assert forall|i: int| 0 <= i < cs.len() implies (ap.contains(i) <==> #[trigger] fresh_at(seen, cs, domain, i)) by {
                if i == n && ap.contains(i) {
                    let k = choose|k: int| 0 <= k < ap.len() && ap[k] == i;
                }
            }
            ap
        } else {
            let at = ap.push(n);
            assert(ingest_fold(seen, cs, domain) == (acc.0.insert(h), acc.1.push(c)));
            assert(ingest_fold(seen, cs, domain).0 =~= seen + chunk_hashes(cs, domain));
            assert forall|k: int| 0 <= k < at.len() implies 0 <= #[trigger] at[k] < cs.len() && ingest_fold(seen, cs, domain).1[k] == cs[at[k]] by {
                if k < ap.len() {
                    assert(at[k] == ap[k]);
                }
            }
            assert forall|k: int, l: int| 0 <= k < l < at.len() implies #[trigger] at[k] < #[trigger] at[l] by {
                assert(at[k] == ap[k]);
                if l < ap.len() {
                    assert(at[l] == ap[l]);
                }
            }
            assert forall|i: int| 0 <= i < cs.len() implies (at.contains(i) <==> #[trigger] fresh_at(seen, cs, domain, i)) by {
                if i == n {
                    assert(at[ap.len() as int] == n);
                } else {
                    if ap.contains(i) {
                        let k = choose|k: int| 0 <= k < ap.len() && ap[k] == i;
                        assert(at[k] == i);
                    }
                    if at.contains(i) {
                        let k = choose|k: int| 0 <= k < at.len() && at[k] == i;
                        assert(k < ap.len());
                        assert(ap[k] == i);
                    }
                }
            }
            at
        }
    }
}

/// A node's identity is its text and domain: two nodes that agree on both
/// have the same content hash, whatever their attribution and confidence.
pub proof fn law_identity_ignores_metadata(a: SeedNode, b: SeedNode)
    requires
        a.text@ == b.text@,
        a.domain == b.domain,
    ensures
        node_hash(a) == node_hash(b),
{
}

/// The bytes hashed for a node determine its text and domain: two nodes
/// whose texts or domains differ hash different bytes, so their content
/// hashes can only agree through a SHA-256 collision.
pub proof fn law_identity_bytes_determine_node(t1: Seq<char>, d1: SephirotDomain, t2: Seq<char>, d2: SephirotDomain)
    ensures
        crate::node::identity_bytes(t1, d1) == crate::node::identity_bytes(t2, d2) <==> (t1 == t2 && d1 == d2),
{
    let b1 = crate::node::identity_bytes(t1, d1);
    let b2 = crate::node::identity_bytes(t2, d2);
    if b1 == b2 {
        assert(b1.drop_last() =~= vstd::utf8::encode_utf8(t1));
        assert(b2.drop_last() =~= vstd::utf8::encode_utf8(t2));
        broadcast use vstd::utf8::encode_utf8_decode_utf8;
        assert(vstd::utf8::decode_utf8(vstd::utf8::encode_utf8(t1)) == t1);
        assert(vstd::utf8::decode_utf8(vstd::utf8::encode_utf8(t2)) == t2);
        assert(b1.last() == b2.last());
    }
}

/// One step of a source's run, as far as handing nodes out goes: `after`
/// has handed out `batch` since `before`, each of its nodes distinct and
/// never handed out before.
pub open spec fn hands_out<T>(before: SourceQueue<T>, after: SourceQueue<T>, batch: Seq<SeedNode>) -> bool {
    &&& after.wf()
    &&& after.emitted() == before.emitted() + hashes_of(batch)
    &&& distinct_hashes(batch)
    &&& forall|i: int| 0 <= i < batch.len() ==> !before.emitted().contains(#[trigger] node_hash(batch[i]))
}

/// A poll is such a step: it hands out the nodes it appended to the batch.
pub proof fn law_poll_hands_out<T>(
    before: SourceQueue<T>,
    after: SourceQueue<T>,
    out0: Seq<SeedNode>,
    out1: Seq<SeedNode>,
    n: nat,
    fetched: Option<T>,
)
    requires
        polled(before, after, out0, out1, n, fetched),
    ensures
        out1 == out0 + out1.skip(out0.len() as int),
        hands_out(before, after, out1.skip(out0.len() as int)),
{
    let k = drain_count(before.pending().len(), out0.len(), n);
    assert(out1.skip(out0.len() as int) =~= before.pending().take(k as int));
}

/// A step that queues without handing out (a refill) is such a step with
/// an empty batch.
pub proof fn law_queuing_hands_out_nothing<T>(before: SourceQueue<T>, after: SourceQueue<T>)
    requires
        after.wf(),
        after.emitted() == before.emitted(),
    ensures
        hands_out(before, after, Seq::<SeedNode>::empty()),
{
    assert(hashes_of(Seq::<SeedNode>::empty()) =~= Set::<Seq<u8>>::empty());
    assert(before.emitted() + Set::<Seq<u8>>::empty() =~= before.emitted());
}

/// All batches of a run, one after another.
pub open spec fn concat_batches(batches: Seq<Seq<SeedNode>>) -> Seq<SeedNode>
    decreases batches.len(),
{
    if batches.len() == 0 {
        seq![]
    } else {
        concat_batches(batches.drop_last()) + batches.last()
    }
}

/// Over a whole run of a source (any sequence of polls and refills, the
/// states `qs[0]`, `qs[1]`, … with `batches[i]` handed out between
/// `qs[i]` and `qs[i + 1]`), no two nodes handed out share a content hash,
/// none was handed out before the run, and the hashes recorded as handed
/// out grow by exactly those of the run.
pub proof fn law_run_never_repeats<T>(qs: Seq<SourceQueue<T>>, batches: Seq<Seq<SeedNode>>)
    requires
        qs.len() == batches.len() + 1,
        forall|i: int| 0 <= i < batches.len() ==> hands_out(#[trigger] qs[i], qs[i + 1], batches[i]),
    ensures
        distinct_hashes(concat_batches(batches)),
        forall|j: int| 0 <= j < concat_batches(batches).len() ==> !qs[0].emitted().contains(#[trigger] node_hash(concat_batches(batches)[j])),
        qs.last().emitted() == qs[0].emitted() + hashes_of(concat_batches(batches)),
    decreases batches.len(),
{
    if batches.len() == 0 {
        assert(concat_batches(batches) =~= Seq::<SeedNode>::empty());
        assert(hashes_of(Seq::<SeedNode>::empty()) =~= Set::<Seq<u8>>::empty());
        assert(qs[0].emitted() + Set::<Seq<u8>>::empty() =~= qs[0].emitted());
    } else {
        let m = batches.len() - 1;
        let qi = qs.drop_last();
        let bi = batches.drop_last();
        assert forall|i: int| 0 <= i < bi.len() implies hands_out(#[trigger] qi[i], qi[i + 1], bi[i]) by {
            assert(qi[i] == qs[i] && qi[i + 1] == qs[i + 1] && bi[i] == batches[i]);
            assert(hands_out(qs[i], qs[i + 1], batches[i]));
        }
        law_run_never_repeats(qi, bi);
        let earlier = concat_batches(bi);
        let last = batches[m];
        assert(hands_out(qs[m], qs[m + 1], batches[m]));
        assert(qi.last() == qs[m]);
        let e = qs[m].emitted();
        assert forall|h: Seq<u8>| hashes_of(earlier).contains(h) implies e.contains(h) by {}
        law_batches_never_repeat(earlier, last, e);
        assert(concat_batches(batches) == earlier + last);
        assert forall|j: int| 0 <= j < concat_batches(batches).len() implies !qs[0].emitted().contains(#[trigger] node_hash(concat_batches(batches)[j])) by {
            let all = concat_batches(batches);
            if j < earlier.len() {
                assert(all[j] == earlier[j]);
            } else {
                assert(all[j] == last[j - earlier.len()]);
                assert(!e.contains(node_hash(last[j - earlier.len()])));
            }
        }
        assert(qs.last() == qs[m + 1]);
        assert(qs.last().emitted() =~= qs[0].emitted() + hashes_of(concat_batches(batches)));
    }
}

/// Once a poll comes back short of a positive batch size, the source is
/// exhausted: nothing is pending and nothing is left to fetch, and every
/// later poll hands out nothing and fetches nothing.
pub proof fn law_exhausted_source_stays_exhausted<T>(
    q0: SourceQueue<T>,
    q1: SourceQueue<T>,
    out0: Seq<SeedNode>,
    out1: Seq<SeedNode>,
    n: nat,
    q2: SourceQueue<T>,
    o: Seq<SeedNode>,
    o2: Seq<SeedNode>,
    m: nat,
    fetched: Option<T>,
)
    requires
        polled(q0, q1, out0, out1, n, None),
        out1.len() < n,
        polled(q1, q2, o, o2, m, fetched),
    ensures
        q1.pending().len() == 0,
        q1.worklist().len() == 0,
        fetched is None,
        o2 == o,
        q2.pending().len() == 0,
        q2.worklist().len() == 0,
{
    let k = drain_count(q0.pending().len(), out0.len(), n);
    assert(out1.len() == out0.len() + k);
    let k2 = drain_count(q1.pending().len(), o.len(), m);
    assert(k2 == 0);
    assert(q1.pending().take(0) =~= Seq::<SeedNode>::empty());
    assert(o2 =~= o);
    assert(q1.pending().skip(0) =~= q1.pending());
}

/// Across successive batches of one source, no two handed-out nodes share a
/// content hash: a batch whose nodes are pairwise distinct and were never
/// handed out before extends a duplicate-free history to a duplicate-free
/// history.
pub proof fn law_batches_never_repeat(earlier: Seq<SeedNode>, batch: Seq<SeedNode>, emitted: Set<Seq<u8>>)
    requires
        distinct_hashes(earlier),
        hashes_of(earlier).subset_of(emitted),
        distinct_hashes(batch),
        forall|i: int| 0 <= i < batch.len() ==> !emitted.contains(#[trigger] node_hash(batch[i])),
    ensures
        distinct_hashes(earlier + batch),
        hashes_of(earlier + batch) == hashes_of(earlier) + hashes_of(batch),
{
    let all = earlier + batch;
    assert forall|a: int, b: int| 0 <= a < all.len() && 0 <= b < all.len() && a != b implies node_hash(all[a]) != node_hash(all[b]) by {
        if a < earlier.len() && b < earlier.len() {
        } else if a >= earlier.len() && b >= earlier.len() {
            assert(all[a] == batch[a - earlier.len()] && all[b] == batch[b - earlier.len()]);
        } else if a < earlier.len() {
            lemma_hashes_of_contains(earlier, node_hash(all[a]));
            assert(all[b] == batch[b - earlier.len()]);
        } else {
            lemma_hashes_of_contains(earlier, node_hash(all[b]));
            assert(all[a] == batch[a - earlier.len()]);
        }
    }
    assert forall|h: Seq<u8>| hashes_of(all).contains(h) <==> (hashes_of(earlier) + hashes_of(batch)).contains(h) by {
        lemma_hashes_of_contains(all, h);
        lemma_hashes_of_contains(earlier, h);
        lemma_hashes_of_contains(batch, h);
        if hashes_of(all).contains(h) {
            let i = choose|i: int| 0 <= i < all.len() && node_hash(all[i]) == h;
            if i >= earlier.len() {
                assert(all[i] == batch[i - earlier.len()]);
            }
        }
        if hashes_of(batch).contains(h) {
            let i = choose|i: int| 0 <= i < batch.len() && node_hash(batch[i]) == h;
            assert(all[i + earlier.len()] == batch[i]);
        }
        if hashes_of(earlier).contains(h) {
            let i = choose|i: int| 0 <= i < earlier.len() && node_hash(earlier[i]) == h;
            assert(all[i] == earlier[i]);
        }
    }
    assert(hashes_of(all) =~= hashes_of(earlier) + hashes_of(batch));
}

/// What one poll of a source asks of its driver.
pub enum BatchStep<T> {
    /// The batch is complete: hand the collected nodes to the caller.
    Ready,
    /// Fetch this work item, then [`SourceQueue::ingest_chunks`] its text and poll again.
    Fetch(T),
}

/// The shared state of a knowledge source: a worklist of items still to be
/// fetched, chunks waiting to be handed out, and the content hashes seen so
/// far. Every node handed out has a content hash never handed out before.
pub struct SourceQueue<T> {
    worklist: VecDeque<T>,
    pending: VecDeque<SeedNode>,
    dedup: DedupSet,
    emitted: Ghost<Set<Seq<u8>>>,
}

/// What one poll does (see [`SourceQueue::poll_batch`]): `after` and the
/// batch `out1` are `before` and `out0` with the first `k` pending nodes
/// handed out, `k` as [`drain_count`] gives; `fetched` is `None` when the
/// batch is complete (it holds `n` nodes, or nothing is pending or left to
/// fetch), else the front work item, taken off the worklist.
pub open spec fn polled<T>(
    before: SourceQueue<T>,
    after: SourceQueue<T>,
    out0: Seq<SeedNode>,
    out1: Seq<SeedNode>,
    n: nat,
    fetched: Option<T>,
) -> bool {
    let k = drain_count(before.pending().len(), out0.len(), n);
    let handed = before.pending().take(k as int);
    &&& after.wf()
    &&& out1 == out0 + handed
    &&& after.pending() == before.pending().skip(k as int)
    &&& after.emitted() == before.emitted() + hashes_of(handed)
    &&& after.seen() == before.seen()
    &&& distinct_hashes(handed)
    &&& forall|i: int| 0 <= i < handed.len() ==> !before.emitted().contains(#[trigger] node_hash(handed[i]))
    &&& match fetched {
        None => {
            &&& out0.len() + k >= n || (after.pending().len() == 0 && before.worklist().len() == 0)
            &&& after.worklist() == before.worklist()
        },
        Some(t) => {
            &&& out0.len() + k < n
            &&& after.pending().len() == 0
            &&& before.worklist().len() > 0
            &&& t == before.worklist()[0]
            &&& after.worklist() == before.worklist().drop_first()
        },
    }
}

impl<T> SourceQueue<T> {
    /// Items not yet fetched, front first.
    pub closed spec fn worklist(&self) -> Seq<T> {
        self.worklist@
    }

    /// Nodes waiting to be handed out, front first.
    pub closed spec fn pending(&self) -> Seq<SeedNode> {
        self.pending@
    }

    /// Content hashes recorded so far.
    pub closed spec fn seen(&self) -> Set<Seq<u8>> {
        self.dedup@
    }

    /// Content hashes of every node handed out so far.
    pub closed spec fn emitted(&self) -> Set<Seq<u8>> {
        self.emitted@
    }

    /// Pending nodes are pairwise distinct, were never handed out, and the
    /// recorded hashes are exactly those handed out or pending.
    pub closed spec fn wf(&self) -> bool {
        &&& distinct_hashes(self.pending@)
        &&& forall|i: int| 0 <= i < self.pending@.len() ==> !self.emitted@.contains(#[trigger] node_hash(self.pending@[i]))
        &&& self.dedup@ == self.emitted@ + hashes_of(self.pending@)
    }

    /// A source over the given work items, with nothing seen yet.
    pub fn new(items: Vec<T>) -> (q: SourceQueue<T>)
        ensures
            q.wf(),
            q.worklist() == items@,
            q.pending() == Seq::<SeedNode>::empty(),
            q.seen() == Set::<Seq<u8>>::empty(),
            q.emitted() == Set::<Seq<u8>>::empty(),
    {
        let mut worklist: VecDeque<T> = VecDeque::new();
        let mut items = items;
        let ghost all = items@;
        while items.len() > 0
            invariant
                all == worklist@ + items@,
            decreases items@.len(),
        {
            let x = items.remove(0);
            worklist.push_back(x);
            proof {
                assert(all =~= worklist@ + items@);
            }
        }
        proof {
            assert(all =~= worklist@);
        }
        let q = SourceQueue {
            worklist,
            pending: VecDeque::new(),
            dedup: DedupSet::new(),
            emitted: Ghost(Set::empty()),
        };
        proof {
            assert(hashes_of(q.pending@) =~= Set::<Seq<u8>>::empty());
            assert(q.dedup@ =~= q.emitted@ + hashes_of(q.pending@));
        }
        q
    }

    /// Puts an item back at the front of the worklist (it will be fetched next).
    pub fn requeue_front(&mut self, item: T)
        requires
            old(self).wf(),
        ensures
            final(self).wf(),
            final(self).worklist() == seq![item] + old(self).worklist(),
            final(self).pending() == old(self).pending(),
            final(self).seen() == old(self).seen(),
            final(self).emitted() == old(self).emitted(),
    {
        self.worklist.push_front(item);
        proof {
            assert(self.worklist@ =~= seq![item] + old(self).worklist@);
        }
    }

    /// One round of `fetch_batch`: hands pending nodes out into `out` until it
    /// holds `n` nodes (never more), then reports the batch complete, or names
    /// the next work item to fetch when more nodes are needed, none is
    /// pending and the worklist is not empty.
    pub fn poll_batch(&mut self, out: &mut Vec<SeedNode>, n: usize) -> (step: BatchStep<T>)
        requires
            old(self).wf(),
        ensures
            polled(*old(self), *final(self), old(out)@, final(out)@, n as nat, match step {
                BatchStep::Ready => None,
                BatchStep::Fetch(t) => Some(t),
            }),
    {
        let ghost k = drain_count(old(self).pending@.len(), old(out)@.len(), n as nat);
        let ghost p0 = self.pending@;
        let ghost out0 = out@;
        let ghost e0 = self.emitted@;
        proof {
            assert(p0.take(0) =~= Seq::<SeedNode>::empty());
            assert(hashes_of(p0.take(0)) =~= Set::<Seq<u8>>::empty());
            assert(self.emitted@ =~= e0 + hashes_of(p0.take(0)));
            assert(p0.skip(0) =~= p0);
            assert(out@ =~= out0 + p0.take(0));
            lemma_take_distinct(p0, 0);
            lemma_drain_keeps_invariant(e0, p0, 0, self.dedup@);
        }
        if out.len() >= n {
            return BatchStep::Ready;
        }
        let mut popped: usize = 0;
        while out.len() < n && self.pending.len() > 0
            invariant
                p0 == old(self).pending@,
                out0 == old(out)@,
                e0 == old(self).emitted@,
                out0.len() < n,
                self.worklist@ == old(self).worklist@,
                self.dedup@ == old(self).dedup@,
                old(self).wf(),
                popped <= k,
                popped <= p0.len(),
                self.pending@ == p0.skip(popped as int),
                out@ == out0 + p0.take(popped as int),
                self.emitted@ == e0 + hashes_of(p0.take(popped as int)),
                k == drain_count(p0.len(), out0.len(), n as nat),
            decreases self.pending@.len(),
        {
            let node = self.pending.pop_front().unwrap();
            proof {
                assert(p0.skip(popped as int)[0] == p0[popped as int]);
                assert(self.pending@ =~= p0.skip(popped + 1));
                assert(p0.take(popped + 1) =~= p0.take(popped as int).push(p0[popped as int]));
                self.emitted@ = self.emitted@.insert(node_hash(node));
            }
            out.push(node);
            popped = popped + 1;
            proof {
                assert(out@ =~= out0 + p0.take(popped as int));
                assert(hashes_of(p0.take(popped as int)) =~= hashes_of(p0.take(popped - 1)).insert(node_hash(node))) by {
                    lemma_hashes_of_push(p0.take(popped - 1), node);
                }
                assert(self.emitted@ =~= e0 + hashes_of(p0.take(popped as int)));
            }
        }
        proof {
            if out.len() < n {
                assert(p0.skip(popped as int).len() == 0);
            }
            assert(popped == k);
            lemma_take_distinct(p0, k as int);
            let handed = p0.take(k as int);
            assert forall|i: int| 0 <= i < handed.len() implies !e0.contains(#[trigger] node_hash(handed[i])) by {
                assert(handed[i] == p0[i]);
            }
            lemma_drain_keeps_invariant(e0, p0, k as int, self.dedup@);
        }
        if out.len() >= n {
            return BatchStep::Ready;
        }
        if self.worklist.len() == 0 {
            return BatchStep::Ready;
        }
        let item = self.worklist.pop_front().unwrap();
        BatchStep::Fetch(item)
    }

    /// Turns the chunks of one fetched item into nodes and queues those whose
    /// content hash has not been seen before, recording their hashes.
    pub fn ingest_chunks(&mut self, chunks: &Vec<String>, domain: SephirotDomain, source: &String, confidence_permille: u16)
        requires
            old(self).wf(),
        ensures
            final(self).wf(),
            ({
                let r = ingest_fold(old(self).seen(), strings_view(chunks@), domain);
                &&& nodes_view(final(self).pending()) == nodes_view(old(self).pending()) + made_nodes(
                    r.1,
                    domain,
                    source@,
                    confidence_permille,
                )
                &&& final(self).seen() == r.0
            }),
            final(self).worklist() == old(self).worklist(),
            final(self).emitted() == old(self).emitted(),
    {
        let ghost p0 = self.pending@;
        let ghost seen0 = self.dedup@;
        let ghost texts = strings_view(chunks@);
        let mut i: usize = 0;
        while i < chunks.len()
            invariant
                i <= chunks@.len(),
                self.wf(),
                self.worklist@ == old(self).worklist@,
                self.emitted@ == old(self).emitted@,
                seen0 == old(self).dedup@,
                p0 == old(self).pending@,
                texts == strings_view(chunks@),
                self.dedup@ == ingest_fold(seen0, texts.take(i as int), domain).0,
                nodes_view(self.pending@) == nodes_view(p0) + made_nodes(
                    ingest_fold(seen0, texts.take(i as int), domain).1,
                    domain,
                    source@,
                    confidence_permille,
                ),
            decreases chunks@.len() - i,
        {
            let ghost prev = ingest_fold(seen0, texts.take(i as int), domain);
            proof {
                assert(texts.take(i + 1).drop_last() =~= texts.take(i as int));
                assert(texts.take(i + 1).last() == chunks@[i as int]@);
            }
            let text = chunks[i].clone();
            let node = SeedNode { text, domain, source: source.clone(), confidence_permille };
            let h = node.content_hash();
            let ghost d0 = self.dedup@;
            assert(h@ == node_hash(node));
            if self.dedup.insert_new(h) {
                let ghost pend = self.pending@;
                proof {
                    lemma_hashes_of_push(pend, node);
                    assert(!hashes_of(pend).contains(node_hash(node)));
                    assert forall|a: int, b: int|
                        0 <= a < pend.push(node).len() && 0 <= b < pend.push(node).len() && a != b implies node_hash(
                        pend.push(node)[a],
                    ) != node_hash(pend.push(node)[b]) by {
                        if a == pend.len() {
                            lemma_hashes_of_contains(pend, node_hash(node));
                            assert(pend.push(node)[b] == pend[b]);
                        } else if b == pend.len() {
                            lemma_hashes_of_contains(pend, node_hash(node));
                            assert(pend.push(node)[a] == pend[a]);
                        } else {
                            assert(pend.push(node)[a] == pend[a]);
                            assert(pend.push(node)[b] == pend[b]);
                        }
                    }
                }
                self.pending.push_back(node);
                proof {
                    assert(self.pending@ == pend.push(node));
                    assert(distinct_hashes(self.pending@));
                    assert forall|q: int| 0 <= q < self.pending@.len() implies !self.emitted@.contains(
                        #[trigger] node_hash(self.pending@[q]),
                    ) by {
                        if q < pend.len() {
                            assert(self.pending@[q] == pend[q]);
                        } else {
                            assert(self.pending@[q] == node);
                        }
                    }
                    assert(node_view(node) == (chunks@[i as int]@, domain, source@, confidence_permille));
                    assert(nodes_view(self.pending@) =~= nodes_view(pend).push(node_view(node)));
                    assert(made_nodes(ingest_fold(seen0, texts.take(i + 1), domain).1, domain, source@, confidence_permille)
                        =~= made_nodes(prev.1, domain, source@, confidence_permille).push(node_view(node)));
                    assert(nodes_view(self.pending@) =~= nodes_view(p0) + made_nodes(
                        ingest_fold(seen0, texts.take(i + 1), domain).1,
                        domain,
                        source@,
                        confidence_permille,
                    ));
                    assert(self.dedup@ =~= self.emitted@ + hashes_of(self.pending@));
                }
            } else {
                proof {
                    assert(self.dedup@ =~= d0);
                    assert(ingest_fold(seen0, texts.take(i + 1), domain) == prev);
                }
            }
            i = i + 1;
        }
        proof {
            assert(texts.take(chunks@.len() as int) =~= texts);
        }
    }

    /// Splits a fetched text into chunks and queues the new ones
    /// (see [`SourceQueue::ingest_chunks`]).
    pub fn ingest_text(&mut self, body: &str, domain: SephirotDomain, source: &String, confidence_permille: u16)
        requires
            old(self).wf(),
        ensures
            final(self).wf(),
            ({
                let r = ingest_fold(old(self).seen(), chunks(body@), domain);
                &&& nodes_view(final(self).pending()) == nodes_view(old(self).pending()) + made_nodes(
                    r.1,
                    domain,
                    source@,
                    confidence_permille,
                )
                &&& final(self).seen() == r.0
            }),
            final(self).worklist() == old(self).worklist(),
            final(self).emitted() == old(self).emitted(),
    {
        let cs = chunk_text(body);
        self.ingest_chunks(&cs, domain, source, confidence_permille);
    }

    /// Forgets what was handed out, so content handed out before may be
    /// queued again. The hashes of the nodes still pending stay recorded:
    /// clearing them too would let a pending node be queued a second time
    /// and handed out twice. When nothing is pending, nothing stays recorded.
    pub fn forget_emitted(&mut self)
        requires
            old(self).wf(),
        ensures
            final(self).wf(),
            final(self).worklist() == old(self).worklist(),
            final(self).pending() == old(self).pending(),
            final(self).seen() == hashes_of(old(self).pending()),
            final(self).emitted() == Set::<Seq<u8>>::empty(),
    {
        let mut d = DedupSet::new();
        let mut i: usize = 0;
        proof {
            assert(self.pending@.take(0) =~= Seq::<SeedNode>::empty());
            assert(hashes_of(self.pending@.take(0)) =~= Set::<Seq<u8>>::empty());
        }
        while i < self.pending.len()
            invariant
                i <= self.pending@.len(),
                self.pending@ == old(self).pending@,
                self.worklist@ == old(self).worklist@,
                d@ == hashes_of(self.pending@.take(i as int)),
            decreases self.pending@.len() - i,
        {
            let h = self.pending[i].content_hash();
            d.insert_new(h);
            proof {
                assert(self.pending@.take(i + 1) =~= self.pending@.take(i as int).push(self.pending@[i as int]));
                lemma_hashes_of_push(self.pending@.take(i as int), self.pending@[i as int]);
            }
            i = i + 1;
        }
        proof {
            assert(self.pending@.take(self.pending@.len() as int) =~= self.pending@);
        }
        self.dedup = d;
        self.emitted = Ghost(Set::empty());
        proof {
            assert(self.dedup@ =~= self.emitted@ + hashes_of(self.pending@));
        }
    }
}

} // verus!
