use vstd::prelude::*;
use vstd::utf8::{valid_utf8, is_char_boundary, encode_utf8, decode_utf8, encode_utf8_valid_utf8, encode_utf8_decode_utf8, is_char_boundary_start_end_of_seq, valid_utf8_split, decode_utf8_split};
use vstd::string::StringSliceAdditionalSpecFns;
use crate::text::{lemma_trim_idempotent, join_with, lemma_trim_utf8_len, lemma_utf8_len_push, lemma_utf8_len_concat, utf8_len, cap_usize, trim, trim_bounds, utf8_len_range, copy_range, append_range, chars_of, string_from_chars};

verus! {

broadcast use vstd::seq_lib::group_seq_properties;

/// Target upper bound on a chunk's size, in UTF-8 bytes.
pub const CHUNK_MAX_CHARS: usize = 800;

/// Chunks shorter than this many UTF-8 bytes are dropped.
pub const CHUNK_MIN_CHARS: usize = 40;

/// `.`, `!` or `?`: characters that can end a sentence.
pub open spec fn is_terminator(c: char) -> bool {
    c == '.' || c == '!' || c == '?'
}

/// Space, tab, newline or carriage return: the whitespace that separates sentences.
pub open spec fn is_break(c: char) -> bool {
    c == ' ' || c == '\t' || c == '\n' || c == '\r'
}

/// A sentence ends at position `i`: a terminator followed by a break character.
pub open spec fn is_cut(cs: Seq<char>, i: int) -> bool {
    0 <= i && i + 1 < cs.len() && is_terminator(cs[i]) && is_break(cs[i + 1])
}

/// First sentence end at or after `k`, or `cs.len()` when there is none.
pub open spec fn next_cut(cs: Seq<char>, k: int) -> int
    decreases cs.len() - k,
{
    if k >= cs.len() {
        cs.len() as int
    } else if is_cut(cs, k) {
        k
    } else {
        next_cut(cs, k + 1)
    }
}

/// First position at or after `k` that is not a break character.
pub open spec fn skip_breaks(cs: Seq<char>, k: int) -> int
    decreases cs.len() - k,
{
    if k < cs.len() && is_break(cs[k]) {
        skip_breaks(cs, k + 1)
    } else {
        k
    }
}

pub proof fn lemma_next_cut_bounds(cs: Seq<char>, k: int)
    requires
        0 <= k,
    ensures
        k <= cs.len() ==> k <= next_cut(cs, k) <= cs.len(),
        next_cut(cs, k) < cs.len() ==> is_cut(cs, next_cut(cs, k)),
    decreases cs.len() - k,
{
    if k < cs.len() && !is_cut(cs, k) {
        lemma_next_cut_bounds(cs, k + 1);
    }
}

pub proof fn lemma_skip_breaks_bounds(cs: Seq<char>, k: int)
    requires
        0 <= k <= cs.len(),
    ensures
        k <= skip_breaks(cs, k) <= cs.len(),
        forall|j: int| k <= j < skip_breaks(cs, k) ==> is_break(#[trigger] cs[j]),
        skip_breaks(cs, k) < cs.len() ==> !is_break(cs[skip_breaks(cs, k)]),
    decreases cs.len() - k,
{
    if k < cs.len() && is_break(cs[k]) {
        lemma_skip_breaks_bounds(cs, k + 1);
    }
}

/// The sentences of `cs` that start at `start`, as half-open character spans.
/// A sentence runs up to and including its terminator; the break characters
/// after it are skipped; text after the last terminator is a final sentence.
pub open spec fn sentence_spans_from(cs: Seq<char>, start: int) -> Seq<(int, int)>
    decreases cs.len() - start,
{
    if start < 0 || start >= cs.len() {
        seq![]
    } else {
        let t = next_cut(cs, start);
        proof {
            lemma_next_cut_bounds(cs, start);
        }
        if t < cs.len() {
            proof {
                lemma_skip_breaks_bounds(cs, t + 1);
            }
            seq![(start, t + 1)] + sentence_spans_from(cs, skip_breaks(cs, t + 1))
        } else {
            seq![(start, cs.len() as int)]
        }
    }
}

/// The sentence spans of a whole text.
pub open spec fn sentence_spans(cs: Seq<char>) -> Seq<(int, int)> {
    sentence_spans_from(cs, 0)
}

/// The sentences of a text.
pub open spec fn sentences(cs: Seq<char>) -> Seq<Seq<char>> {
    sentence_spans(cs).map_values(|p: (int, int)| cs.subrange(p.0, p.1))
}

/// No sentence end lies inside the span `p` before its last character.
pub open spec fn no_cut_inside(cs: Seq<char>, p: (int, int)) -> bool {
    forall|j: int| p.0 <= j < p.1 - 1 ==> !#[trigger] is_cut(cs, j)
}

/// Only break characters lie in `a..b`.
pub open spec fn all_breaks(cs: Seq<char>, a: int, b: int) -> bool {
    forall|j: int| a <= j < b ==> is_break(#[trigger] cs[j])
}

/// Span `p` ends just after a terminator that a break follows, only breaks
/// lie between it and span `q`, and `q` begins at a non-break.
pub open spec fn ends_before(cs: Seq<char>, p: (int, int), q: (int, int)) -> bool {
    &&& is_cut(cs, p.1 - 1)
    &&& all_breaks(cs, p.1, q.0)
    &&& !is_break(cs[q.0])
}

/// `sp` splits `cs` from `start` on into sentences: the spans lie in order,
/// the first at `start`; each ends just after a terminator that a break
/// follows and holds no such sentence end before that; only breaks lie
/// between two spans, and the next span begins at a non-break; the last span
/// runs to the end of the text, or ends at a sentence end after which only
/// breaks follow.
pub open spec fn splits_at_sentence_ends(cs: Seq<char>, start: int, sp: Seq<(int, int)>) -> bool {
    &&& (sp.len() == 0 <==> start >= cs.len())
    &&& sp.len() > 0 ==> sp[0].0 == start
    &&& forall|i: int| 0 <= i < sp.len() ==> start <= (#[trigger] sp[i]).0 < sp[i].1 <= cs.len() && no_cut_inside(cs, sp[i])
    &&& forall|i: int, k: int|
        #![trigger sp[i], sp[k]]
        0 <= i && k == i + 1 && k < sp.len() ==> ends_before(cs, sp[i], sp[k])
    &&& sp.len() > 0 ==> (sp.last().1 == cs.len() || (is_cut(cs, sp.last().1 - 1) && all_breaks(cs, sp.last().1, cs.len() as int)))
}

proof fn lemma_next_cut_is_first(cs: Seq<char>, k: int)
    requires
        0 <= k,
    ensures
        forall|j: int| k <= j < next_cut(cs, k) ==> !#[trigger] is_cut(cs, j),
    decreases cs.len() - k,
{
    if k < cs.len() && !is_cut(cs, k) {
        lemma_next_cut_is_first(cs, k + 1);
    }
}

proof fn lemma_spans_from_split(cs: Seq<char>, start: int)
    requires
        0 <= start,
    ensures
        splits_at_sentence_ends(cs, start, sentence_spans_from(cs, start)),
    decreases cs.len() - start,
{
    let sp = sentence_spans_from(cs, start);
    if start < cs.len() {
        let t = next_cut(cs, start);
        lemma_next_cut_bounds(cs, start);
        lemma_next_cut_is_first(cs, start);
        if t < cs.len() {
            lemma_skip_breaks_bounds(cs, t + 1);
            let nxt = skip_breaks(cs, t + 1);
            lemma_spans_from_split(cs, nxt);
            let rest = sentence_spans_from(cs, nxt);
            assert(sp == seq![(start, t + 1)] + rest);
            assert(sp[0] == (start, t + 1));
            assert(no_cut_inside(cs, (start, t + 1)));
            assert forall|i: int| 0 <= i < sp.len() implies start <= (#[trigger] sp[i]).0 < sp[i].1 <= cs.len() && no_cut_inside(cs, sp[i]) by {
                if i > 0 {
                    assert(sp[i] == rest[i - 1]);
                }
            }
            assert forall|i: int, k: int| #![trigger sp[i], sp[k]] 0 <= i && k == i + 1 && k < sp.len() implies ends_before(cs, sp[i], sp[k]) by {
                assert(sp[k] == rest[k - 1]);
                if i > 0 {
                    assert(sp[i] == rest[i - 1]);
                } else {
                    assert(rest[0].0 == nxt);
                }
            }
            if rest.len() > 0 {
                assert(sp.last() == rest.last());
            } else {
                assert(sp.last() == (start, t + 1));
                assert(all_breaks(cs, t + 1, cs.len() as int));
            }
        } else {
            assert(sp == seq![(start, cs.len() as int)]);
            assert(no_cut_inside(cs, (start, cs.len() as int)));
        }
    }
}

/// A text splits into sentences exactly at its sentence ends: each sentence
/// but the last ends with a `.`, `!` or `?` that a space, tab or line break
/// follows, and none holds such an end before its last character; only
/// breaks lie between sentences, each sentence beginning at a non-break; the
/// first begins at the start of the text, and the last runs to its end or is
/// followed by breaks only. An empty text has no sentences.
pub proof fn law_sentences_end_at_terminators(cs: Seq<char>)
    ensures
        splits_at_sentence_ends(cs, 0, sentence_spans(cs)),
        forall|i: int| 0 <= i < sentences(cs).len()
            ==> #[trigger] sentences(cs)[i] == cs.subrange(sentence_spans(cs)[i].0, sentence_spans(cs)[i].1),
{
    lemma_spans_from_split(cs, 0);
}

pub open spec fn spans_view(v: Seq<(usize, usize)>) -> Seq<(int, int)> {
    v.map_values(|p: (usize, usize)| (p.0 as int, p.1 as int))
}

/// Sentence spans of `cs`.
pub fn sentence_spans_exec(cs: &Vec<char>) -> (out: Vec<(usize, usize)>)
    ensures
        spans_view(out@) == sentence_spans(cs@),
        forall|k: int| 0 <= k < out@.len() ==> #[trigger] out@[k].0 < out@[k].1 <= cs@.len(),
{
    let n = cs.len();
    let mut out: Vec<(usize, usize)> = Vec::new();
    let mut start: usize = 0;
    let mut i: usize = 0;
    while i < n
        invariant
            n == cs@.len(),
            start <= i <= n,
            sentence_spans(cs@) == spans_view(out@) + sentence_spans_from(cs@, start as int),
            next_cut(cs@, start as int) == next_cut(cs@, i as int),
            forall|k: int| 0 <= k < out@.len() ==> #[trigger] out@[k].0 < out@[k].1 <= n,
        decreases n - i,
    {
        let c = cs[i];
        if (c == '.' || c == '!' || c == '?') && i + 1 < n {
            let d = cs[i + 1];
            if d == ' ' || d == '\t' || d == '\n' || d == '\r' {
                let end = i + 1;
                proof {
                    assert(is_cut(cs@, i as int));
                    lemma_next_cut_bounds(cs@, start as int);
                    lemma_skip_breaks_bounds(cs@, end as int);
                }
                let mut j = end;
                while j < n && (cs[j] == ' ' || cs[j] == '\t' || cs[j] == '\n' || cs[j] == '\r')
                    invariant
                        n == cs@.len(),
                        end <= j <= n,
                        skip_breaks(cs@, end as int) == skip_breaks(cs@, j as int),
                    decreases n - j,
                {
                    j = j + 1;
                }
                let ghost old_out = out@;
                out.push((start, end));
                proof {
                    assert forall|q: int| 0 <= q < out@.len() implies #[trigger] out@[q].0 < out@[q].1 <= n by {
                        if q < old_out.len() {
                            assert(out@[q] == old_out[q]);
                        }
                    }
                    assert(spans_view(out@) =~= spans_view(old_out).push((start as int, end as int)));
                    assert(sentence_spans_from(cs@, start as int) == seq![(start as int, end as int)]
                        + sentence_spans_from(cs@, j as int));
                }
                start = j;
                i = j;
                continue;
            }
        }
        i = i + 1;
    }
    proof {
        lemma_next_cut_bounds(cs@, start as int);
    }
    if start < n {
        let ghost old_out = out@;
        out.push((start, n));
        proof {
            assert(spans_view(out@) =~= spans_view(old_out).push((start as int, n as int)));
        }
    } else {
        proof {
            assert(sentence_spans_from(cs@, start as int) =~= Seq::<(int, int)>::empty());
            assert(spans_view(out@) + Seq::<(int, int)>::empty() =~= spans_view(out@));
        }
    }
    out
}


/// One step of chunk assembly: given the finished chunks and the chunk being
/// built, take in the next sentence.
pub open spec fn chunk_step(acc: (Seq<Seq<char>>, Seq<char>), s: Seq<char>) -> (Seq<Seq<char>>, Seq<char>) {
    let out = acc.0;
    let cur = acc.1;
    if cur.len() > 0 && utf8_len(cur) + utf8_len(s) > CHUNK_MAX_CHARS {
        let t = trim(cur);
        (if utf8_len(t) >= CHUNK_MIN_CHARS { out.push(t) } else { out }, s)
    } else if cur.len() == 0 {
        (out, s)
    } else {
        (out, cur + seq![' '] + s)
    }
}

/// Chunk assembly over a sequence of sentences, left to right.
pub open spec fn chunk_fold(ss: Seq<Seq<char>>) -> (Seq<Seq<char>>, Seq<char>)
    decreases ss.len(),
{
    if ss.len() == 0 {
        (seq![], seq![])
    } else {
        chunk_step(chunk_fold(ss.drop_last()), ss.last())
    }
}

/// Emits the chunk still being built, trimmed, if it is long enough.
pub open spec fn flush_chunk(acc: (Seq<Seq<char>>, Seq<char>)) -> Seq<Seq<char>> {
    let t = trim(acc.1);
    if utf8_len(t) >= CHUNK_MIN_CHARS {
        acc.0.push(t)
    } else {
        acc.0
    }
}

/// The chunks of a text: its sentences joined by single spaces, a sentence
/// starting a new piece when the piece's bytes plus the sentence's bytes
/// would exceed `CHUNK_MAX_CHARS` (the joining space is not counted, so a
/// piece can be one byte over, and a single longer sentence stays whole);
/// pieces trimmed, keeping only those of at least `CHUNK_MIN_CHARS` bytes.
pub open spec fn chunks(cs: Seq<char>) -> Seq<Seq<char>> {
    flush_chunk(chunk_fold(sentences(cs)))
}

pub open spec fn strings_view(v: Seq<String>) -> Seq<Seq<char>> {
    v.map_values(|s: String| s@)
}

/// Splits `text` into sentence-aligned chunks (see [`chunks`]).
pub fn chunk_text(text: &str) -> (out: Vec<String>)
    ensures
        strings_view(out@) == chunks(text@),
{
    let cs = chars_of(text);
    let spans = sentence_spans_exec(&cs);
    let ghost ss = sentences(cs@);
    let mut out: Vec<String> = Vec::new();
    let mut current: Vec<char> = Vec::new();
    let mut cur_len: usize = 0;
    let mut k: usize = 0;
    while k < spans.len()
        invariant
            cs@ == text@,
            ss == sentences(cs@),
            spans_view(spans@) == sentence_spans(cs@),
            forall|q: int| 0 <= q < spans@.len() ==> #[trigger] spans@[q].0 < spans@[q].1 <= cs@.len(),
            0 <= k <= spans@.len(),
            (strings_view(out@), current@) == chunk_fold(ss.take(k as int)),
            cur_len == cap_usize(utf8_len(current@)),
        decreases spans@.len() - k,
    {
        let (a, b) = spans[k];
        let s_len = utf8_len_range(&cs, a, b);
        let ghost sentence = cs@.subrange(a as int, b as int);
        proof {
            assert(spans_view(spans@)[k as int] == (a as int, b as int));
            assert(ss[k as int] == sentence);
            assert(ss.take(k + 1).drop_last() =~= ss.take(k as int));
            assert(ss.take(k + 1).last() == sentence);
        }
        let ghost prev = (strings_view(out@), current@);
        if current.len() > 0 && (cur_len > CHUNK_MAX_CHARS || s_len > CHUNK_MAX_CHARS - cur_len) {
            let (ts, te) = trim_bounds(&current, 0, current.len());
            let t_len = utf8_len_range(&current, ts, te);
            proof {
                assert(current@.subrange(0, current@.len() as int) =~= current@);
            }
            if t_len >= CHUNK_MIN_CHARS {
                let t = copy_range(&current, ts, te);
                let st = string_from_chars(t.as_slice());
                let ghost old_out = out@;
                out.push(st);
                proof {
                    assert(strings_view(out@) =~= strings_view(old_out).push(t@));
                }
            }
            current = copy_range(&cs, a, b);
            cur_len = s_len;
        } else if current.len() == 0 {
            current = copy_range(&cs, a, b);
            cur_len = s_len;
        } else {
            let ghost old_cur = current@;
            current.push(' ');
            append_range(&mut current, &cs, a, b);
            proof {
                lemma_utf8_len_push(old_cur, ' ');
                lemma_utf8_len_concat(old_cur.push(' '), sentence);
                assert(old_cur + seq![' '] =~= old_cur.push(' '));
            }
            cur_len = cur_len + 1 + s_len;
        }
        k = k + 1;
    }
    proof {
        assert(ss.take(spans@.len() as int) =~= ss);
    }
    let (ts, te) = trim_bounds(&current, 0, current.len());
    let t_len = utf8_len_range(&current, ts, te);
    proof {
        assert(current@.subrange(0, current@.len() as int) =~= current@);
    }
    if t_len >= CHUNK_MIN_CHARS {
        let t = copy_range(&current, ts, te);
        let st = string_from_chars(t.as_slice());
        let ghost old_out = out@;
        out.push(st);
        proof {
            assert(strings_view(out@) =~= strings_view(old_out).push(t@));
        }
    }
    out
}


proof fn lemma_chunk_fold_min(ss: Seq<Seq<char>>)
    ensures
        forall|i: int| 0 <= i < chunk_fold(ss).0.len() ==> utf8_len(#[trigger] chunk_fold(ss).0[i]) >= CHUNK_MIN_CHARS,
    decreases ss.len(),
{
    if ss.len() > 0 {
        lemma_chunk_fold_min(ss.drop_last());
        let acc = chunk_fold(ss.drop_last());
        let res = chunk_fold(ss);
        assert forall|i: int| 0 <= i < res.0.len() implies utf8_len(#[trigger] res.0[i]) >= CHUNK_MIN_CHARS by {
            if i < acc.0.len() {
                assert(res.0[i] == acc.0[i]);
            }
        }
    }
}

/// Every chunk of a text is at least `CHUNK_MIN_CHARS` bytes long.
pub proof fn law_chunks_meet_minimum(cs: Seq<char>)
    ensures
        forall|i: int| 0 <= i < chunks(cs).len() ==> utf8_len(#[trigger] chunks(cs)[i]) >= CHUNK_MIN_CHARS,
{
    lemma_chunk_fold_min(sentences(cs));
}

proof fn lemma_chunk_fold_max(ss: Seq<Seq<char>>)
    requires
        forall|i: int| 0 <= i < ss.len() ==> utf8_len(#[trigger] ss[i]) <= CHUNK_MAX_CHARS,
    ensures
        forall|i: int| 0 <= i < chunk_fold(ss).0.len() ==> utf8_len(#[trigger] chunk_fold(ss).0[i]) <= CHUNK_MAX_CHARS + 1,
        utf8_len(chunk_fold(ss).1) <= CHUNK_MAX_CHARS + 1,
    decreases ss.len(),
{
    if ss.len() > 0 {
        let prev = ss.drop_last();
        assert forall|i: int| 0 <= i < prev.len() implies utf8_len(#[trigger] prev[i]) <= CHUNK_MAX_CHARS by {
            assert(prev[i] == ss[i]);
        }
        lemma_chunk_fold_max(prev);
        let acc = chunk_fold(prev);
        let s = ss.last();
        assert(utf8_len(s) <= CHUNK_MAX_CHARS);
        lemma_trim_utf8_len(acc.1);
        if !(acc.1.len() > 0 && utf8_len(acc.1) + utf8_len(s) > CHUNK_MAX_CHARS) && acc.1.len() != 0 {
            lemma_utf8_len_push(acc.1, ' ');
            lemma_utf8_len_concat(acc.1.push(' '), s);
            assert(acc.1 + seq![' '] =~= acc.1.push(' '));
        }
    }
}

/// When no sentence of a text is longer than `CHUNK_MAX_CHARS` bytes, no chunk
/// is longer than `CHUNK_MAX_CHARS + 1` bytes (the joining space is not
/// counted when deciding whether a sentence still fits).
pub proof fn law_chunks_respect_maximum(cs: Seq<char>)
    requires
        forall|i: int| 0 <= i < sentences(cs).len() ==> utf8_len(#[trigger] sentences(cs)[i]) <= CHUNK_MAX_CHARS,
    ensures
        forall|i: int| 0 <= i < chunks(cs).len() ==> utf8_len(#[trigger] chunks(cs)[i]) <= CHUNK_MAX_CHARS + 1,
{
    let ss = sentences(cs);
    lemma_chunk_fold_max(ss);
    lemma_trim_utf8_len(chunk_fold(ss).1);
}


/// The pieces a span list picks out of `ss`: each run of sentences joined by
/// single spaces, trimmed.
pub open spec fn runs_ok(ss: Seq<Seq<char>>, pieces: Seq<Seq<char>>, spans: Seq<(int, int)>, bound: int) -> bool {
    &&& spans.len() == pieces.len()
    &&& forall|i: int| 0 <= i < spans.len() ==> 0 <= (#[trigger] spans[i]).0 < spans[i].1 <= bound
    &&& forall|i: int, j: int| 0 <= i < j < spans.len() ==> (#[trigger] spans[i]).1 <= (#[trigger] spans[j]).0
    &&& forall|i: int| 0 <= i < spans.len() ==> #[trigger] pieces[i] == trim(join_with(ss.subrange(spans[i].0, spans[i].1), seq![' ']))
}

proof fn lemma_join_empty(ss: Seq<Seq<char>>, a: int)
    requires
        0 <= a <= ss.len(),
        join_with(ss.subrange(a, ss.len() as int), seq![' ']).len() > 0,
    ensures
        a < ss.len(),
{
    if a == ss.len() {
        assert(ss.subrange(a, ss.len() as int).len() == 0);
    }
}

proof fn lemma_fold_runs(ss: Seq<Seq<char>>) -> (r: (Seq<(int, int)>, int))
    ensures
        0 <= r.1 <= ss.len(),
        runs_ok(ss, chunk_fold(ss).0, r.0, r.1),
        chunk_fold(ss).1 == join_with(ss.subrange(r.1, ss.len() as int), seq![' ']),
    decreases ss.len(),
{
    if ss.len() == 0 {
        assert(ss.subrange(0, 0).len() == 0);
        (Seq::<(int, int)>::empty(), 0)
    } else {
        let prev = ss.drop_last();
        let x = ss.last();
        let pr = lemma_fold_runs(prev);
        let spans = pr.0;
        let st = pr.1;
        let acc = chunk_fold(prev);
        let cur = acc.1;
        let pl = prev.len() as int;
        assert forall|a: int, b: int| 0 <= a <= b <= pl implies #[trigger] ss.subrange(a, b) == prev.subrange(a, b) by {
            assert(ss.subrange(a, b) =~= prev.subrange(a, b));
        }
        assert(ss.subrange(pl, ss.len() as int) =~= seq![x]);
        assert(forall|i: int| 0 <= i < spans.len() ==> ss.subrange((#[trigger] spans[i]).0, spans[i].1) == prev.subrange(spans[i].0, spans[i].1));
        if cur.len() > 0 && utf8_len(cur) + utf8_len(x) > CHUNK_MAX_CHARS {
            lemma_join_empty(prev, st);
            let t = trim(cur);
            if utf8_len(t) >= CHUNK_MIN_CHARS {
                let sp2 = spans.push((st, pl));
                assert(chunk_fold(ss).0 == acc.0.push(t));
                assert forall|i: int| 0 <= i < sp2.len() implies #[trigger] chunk_fold(ss).0[i] == trim(join_with(ss.subrange(sp2[i].0, sp2[i].1), seq![' '])) by {
                    if i < spans.len() {
                        assert(sp2[i] == spans[i]);
                    } else {
                        assert(ss.subrange(st, pl) == prev.subrange(st, pl));
                    }
                }
                assert forall|i: int, j: int| 0 <= i < j < sp2.len() implies (#[trigger] sp2[i]).1 <= (#[trigger] sp2[j]).0 by {
                    if j < spans.len() {
                        assert(sp2[i] == spans[i] && sp2[j] == spans[j]);
                    } else {
                        assert(sp2[i] == spans[i]);
                    }
                }
                assert(forall|i: int| 0 <= i < sp2.len() ==> 0 <= (#[trigger] sp2[i]).0 < sp2[i].1 <= pl);
                (sp2, pl)
            } else {
                (spans, pl)
            }
        } else if cur.len() == 0 {
            (spans, pl)
        } else {
            lemma_join_empty(prev, st);
            let p = prev.subrange(st, pl);
            assert(ss.subrange(st, ss.len() as int) =~= p.push(x));
            assert(p.push(x).drop_last() =~= p);
            assert(chunk_fold(ss).1 == cur + seq![' '] + x);
            (spans, st)
        }
    }
}

/// Every chunk is a run of consecutive sentences of the text, in order:
/// the runs' sentence ranges are non-empty, do not overlap and come in the
/// order of the chunks, and each chunk is its run joined by single spaces
/// and trimmed. (Runs too short to keep leave gaps between the ranges.)
pub proof fn law_chunks_are_runs_of_sentences(cs: Seq<char>) -> (spans: Seq<(int, int)>)
    ensures
        runs_ok(sentences(cs), chunks(cs), spans, sentences(cs).len() as int),
{
    let ss = sentences(cs);
    let r = lemma_fold_runs(ss);
    let acc = chunk_fold(ss);
    let t = trim(acc.1);
    if utf8_len(t) >= CHUNK_MIN_CHARS {
        lemma_trim_utf8_len(acc.1);
        if acc.1.len() == 0 {
            assert(acc.1 =~= Seq::<char>::empty());
        }
        lemma_join_empty(ss, r.1);
        let sp2 = r.0.push((r.1, ss.len() as int));
        assert(chunks(cs) == acc.0.push(t));
        assert forall|i: int| 0 <= i < sp2.len() implies #[trigger] chunks(cs)[i] == trim(join_with(ss.subrange(sp2[i].0, sp2[i].1), seq![' '])) by {
            if i < r.0.len() {
                assert(sp2[i] == r.0[i]);
            }
        }
        assert forall|i: int, j: int| 0 <= i < j < sp2.len() implies (#[trigger] sp2[i]).1 <= (#[trigger] sp2[j]).0 by {
            if j < r.0.len() {
                assert(sp2[i] == r.0[i] && sp2[j] == r.0[j]);
            } else {
                assert(sp2[i] == r.0[i]);
            }
        }
        assert(forall|i: int| 0 <= i < sp2.len() ==> 0 <= (#[trigger] sp2[i]).0 < sp2[i].1 <= ss.len());
        sp2
    } else {
        r.0
    }
}

/// Chunks come out trimmed: trimming a chunk again changes nothing.
pub proof fn law_chunks_are_trimmed(cs: Seq<char>)
    ensures
        forall|i: int| 0 <= i < chunks(cs).len() ==> trim(#[trigger] chunks(cs)[i]) == chunks(cs)[i],
{
    let spans = law_chunks_are_runs_of_sentences(cs);
    let ss = sentences(cs);
    assert forall|i: int| 0 <= i < chunks(cs).len() implies trim(#[trigger] chunks(cs)[i]) == chunks(cs)[i] by {
        assert(chunks(cs)[i] == trim(join_with(ss.subrange(spans[i].0, spans[i].1), seq![' '])));
        lemma_trim_idempotent(join_with(ss.subrange(spans[i].0, spans[i].1), seq![' ']));
    }
}

/// The sentences `a..b` of `ss`, joined by single spaces.
pub open spec fn run_text(ss: Seq<Seq<char>>, a: int, b: int) -> Seq<char> {
    join_with(ss.subrange(a, b), seq![' '])
}

/// Sentence `j` still fits after sentences `a..j`: their joined bytes plus
/// its bytes stay within `CHUNK_MAX_CHARS`.
pub open spec fn fits_after(ss: Seq<Seq<char>>, a: int, j: int) -> bool {
    utf8_len(run_text(ss, a, j)) + utf8_len(ss[j]) <= CHUNK_MAX_CHARS
}

/// Where the run after `runs` starts: right after the last one, or at sentence 0.
pub open spec fn next_run_start(runs: Seq<(int, int)>) -> int {
    if runs.len() == 0 {
        0
    } else {
        runs.last().1
    }
}

/// `runs` are non-empty sentence ranges laid end to end from sentence 0, each
/// as long as the packing rule allows: every sentence of a run after its first
/// fits after the ones before it, and the first sentence of each following
/// run does not fit after the whole run before it.
pub open spec fn greedy_runs(ss: Seq<Seq<char>>, runs: Seq<(int, int)>) -> bool
    decreases runs.len(),
{
    if runs.len() == 0 {
        true
    } else {
        let prev = runs.drop_last();
        let r = runs.last();
        &&& greedy_runs(ss, prev)
        &&& r.0 == next_run_start(prev)
        &&& r.0 < r.1 <= ss.len()
        &&& forall|j: int| r.0 < j < r.1 ==> #[trigger] fits_after(ss, r.0, j)
        &&& prev.len() > 0 ==> !fits_after(ss, prev.last().0, r.0)
    }
}

/// The pieces the runs give: each run joined by single spaces and trimmed,
/// kept when it has at least `CHUNK_MIN_CHARS` bytes.
pub open spec fn kept_pieces(ss: Seq<Seq<char>>, runs: Seq<(int, int)>) -> Seq<Seq<char>>
    decreases runs.len(),
{
    if runs.len() == 0 {
        seq![]
    } else {
        let before = kept_pieces(ss, runs.drop_last());
        let t = trim(run_text(ss, runs.last().0, runs.last().1));
        if utf8_len(t) >= CHUNK_MIN_CHARS {
            before.push(t)
        } else {
            before
        }
    }
}

proof fn lemma_spans_from_in_bounds(cs: Seq<char>, start: int)
    ensures
        forall|i: int| 0 <= i < sentence_spans_from(cs, start).len()
            ==> 0 <= (#[trigger] sentence_spans_from(cs, start)[i]).0 < sentence_spans_from(cs, start)[i].1 <= cs.len(),
    decreases cs.len() - start,
{
    if 0 <= start < cs.len() {
        let t = next_cut(cs, start);
        lemma_next_cut_bounds(cs, start);
        if t < cs.len() {
            lemma_skip_breaks_bounds(cs, t + 1);
            let nxt = skip_breaks(cs, t + 1);
            lemma_spans_from_in_bounds(cs, nxt);
            let rest = sentence_spans_from(cs, nxt);
            let all = sentence_spans_from(cs, start);
            assert(all == seq![(start, t + 1)] + rest);
            assert forall|i: int| 0 <= i < all.len() implies 0 <= (#[trigger] all[i]).0 < all[i].1 <= cs.len() by {
                if i > 0 {
                    assert(all[i] == rest[i - 1]);
                }
            }
        }
    }
}

/// Every sentence has at least one character.
proof fn lemma_sentences_nonempty(cs: Seq<char>)
    ensures
        forall|i: int| 0 <= i < sentences(cs).len() ==> (#[trigger] sentences(cs)[i]).len() > 0,
{
    lemma_spans_from_in_bounds(cs, 0);
    let sp = sentence_spans(cs);
    assert forall|i: int| 0 <= i < sentences(cs).len() implies (#[trigger] sentences(cs)[i]).len() > 0 by {
        assert(sentences(cs)[i] == cs.subrange(sp[i].0, sp[i].1));
    }
}

proof fn lemma_run_text_nonempty(ss: Seq<Seq<char>>, a: int, b: int)
    requires
        0 <= a < b <= ss.len(),
        ss[a].len() > 0,
    ensures
        run_text(ss, a, b).len() > 0,
{
    let p = ss.subrange(a, b);
    if p.len() == 1 {
        assert(p[0] == ss[a]);
    }
}

proof fn lemma_run_text_extend(ss: Seq<Seq<char>>, a: int, b: int)
    requires
        0 <= a < b < ss.len(),
    ensures
        run_text(ss, a, b + 1) == run_text(ss, a, b) + seq![' '] + ss[b],
{
    let p = ss.subrange(a, b + 1);
    assert(p.drop_last() =~= ss.subrange(a, b));
    assert(p.last() == ss[b]);
}

/// Chunk assembly over the first `k` sentences, described by the runs it has
/// closed so far and the run it is building.
proof fn lemma_fold_greedy(ss: Seq<Seq<char>>, k: int) -> (runs: Seq<(int, int)>)
    requires
        0 <= k <= ss.len(),
        forall|i: int| 0 <= i < ss.len() ==> (#[trigger] ss[i]).len() > 0,
    ensures
        greedy_runs(ss, runs),
        runs.len() > 0 ==> !fits_after(ss, runs.last().0, runs.last().1),
        chunk_fold(ss.take(k)).0 == kept_pieces(ss, runs),
        k == 0 ==> runs.len() == 0 && chunk_fold(ss.take(k)).1.len() == 0,
        0 <= next_run_start(runs) <= k,
        k > 0 ==> next_run_start(runs) < k,
        k > 0 ==> chunk_fold(ss.take(k)).1 == run_text(ss, next_run_start(runs), k),
        forall|j: int| next_run_start(runs) < j < k ==> #[trigger] fits_after(ss, next_run_start(runs), j),
    decreases k,
{
    if k == 0 {
        assert(ss.take(0) =~= Seq::<Seq<char>>::empty());
        Seq::<(int, int)>::empty()
    } else {
        let pr = lemma_fold_greedy(ss, k - 1);
        let acc = chunk_fold(ss.take(k - 1));
        let x = ss[k - 1];
        assert(ss.take(k).drop_last() =~= ss.take(k - 1));
        assert(ss.take(k).last() == x);
        assert(chunk_fold(ss.take(k)) == chunk_step(acc, x));
        let st = next_run_start(pr);
        if k - 1 == 0 {
            assert(ss.subrange(0, 1) =~= seq![ss[0]]);
            pr
        } else {
            let cur = acc.1;
            lemma_run_text_nonempty(ss, st, k - 1);
            if utf8_len(cur) + utf8_len(x) > CHUNK_MAX_CHARS {
                let runs = pr.push((st, k - 1));
                assert(runs.drop_last() =~= pr);
                assert(runs.last() == (st, k - 1));
                assert(ss.subrange(k - 1, k) =~= seq![x]);
                runs
            } else {
                lemma_run_text_extend(ss, st, k - 1);
                pr
            }
        }
    }
}

/// No sentence is lost, and sentences are packed greedily: the sentences of a
/// text fall into runs that lie end to end and cover all of them in order; a
/// run takes in the next sentence while the run's bytes plus the sentence's
/// bytes stay within `CHUNK_MAX_CHARS`, and the sentence that does not fit
/// starts the next run. The chunks are the runs, each joined by single spaces
/// and trimmed, leaving out only the runs shorter than `CHUNK_MIN_CHARS` bytes.
pub proof fn law_chunks_pack_sentences_greedily(cs: Seq<char>) -> (runs: Seq<(int, int)>)
    ensures
        greedy_runs(sentences(cs), runs),
        runs.len() == 0 <==> sentences(cs).len() == 0,
        runs.len() > 0 ==> runs.last().1 == sentences(cs).len(),
        chunks(cs) == kept_pieces(sentences(cs), runs),
{
    let ss = sentences(cs);
    lemma_sentences_nonempty(cs);
    let n = ss.len() as int;
    let pr = lemma_fold_greedy(ss, n);
    assert(ss.take(n) =~= ss);
    let acc = chunk_fold(ss);
    if n == 0 {
        lemma_trim_utf8_len(acc.1);
        assert(acc.1 =~= Seq::<char>::empty());
        assert(encode_utf8(Seq::<char>::empty()) =~= Seq::<u8>::empty());
        pr
    } else {
        let st = next_run_start(pr);
        let runs = pr.push((st, n));
        assert(runs.drop_last() =~= pr);
        assert(runs.last() == (st, n));
        runs
    }
}

/// Largest character boundary of `bs` at or below `k` (0 when there is none).
pub open spec fn floor_boundary(bs: Seq<u8>, k: int) -> int
    decreases k,
{
    if k <= 0 {
        0
    } else if is_char_boundary(bs, k) {
        k
    } else {
        floor_boundary(bs, k - 1)
    }
}

/// Byte length that [`safe_truncate`] keeps of `bs`.
pub open spec fn truncate_point(bs: Seq<u8>, max_bytes: int) -> int {
    if bs.len() <= max_bytes {
        bs.len() as int
    } else {
        floor_boundary(bs, max_bytes)
    }
}

proof fn lemma_floor_boundary(bs: Seq<u8>, k: int)
    requires
        valid_utf8(bs),
        0 <= k,
    ensures
        0 <= floor_boundary(bs, k) <= k,
        is_char_boundary(bs, floor_boundary(bs, k)),
    decreases k,
{
    if k > 0 && !is_char_boundary(bs, k) {
        lemma_floor_boundary(bs, k - 1);
    }
}

/// Truncates `s` to at most `max_bytes` bytes without splitting a character:
/// the cut is moved down to the nearest character boundary.
pub fn safe_truncate(s: &str, max_bytes: usize) -> (r: &str)
    ensures
        r.spec_bytes() == s.spec_bytes().take(truncate_point(s.spec_bytes(), max_bytes as int)),
{
    let bytes = s.as_bytes();
    let ghost bs = s.spec_bytes();
    proof {
        broadcast use encode_utf8_valid_utf8;
        assert(valid_utf8(bs));
    }
    if bytes.len() <= max_bytes {
        proof {
            assert(bs.take(bs.len() as int) =~= bs);
        }
        return s;
    }
    let mut idx = max_bytes;
    while idx > 0 && !s.is_char_boundary(idx)
        invariant
            bs == s.spec_bytes(),
            valid_utf8(bs),
            idx <= max_bytes,
            floor_boundary(bs, max_bytes as int) == floor_boundary(bs, idx as int),
        decreases idx,
    {
        idx = idx - 1;
    }
    proof {
        lemma_floor_boundary(bs, idx as int);
    }
    let (head, _) = s.split_at(idx);
    head
}

/// [`safe_truncate`] keeps a prefix of the input of at most `max_bytes`
/// bytes, made of whole characters, and keeps the whole input when it fits.
pub proof fn law_truncate_keeps_whole_characters(s: Seq<char>, max_bytes: nat)
    ensures
        ({
            let bs = encode_utf8(s);
            let kept = bs.take(truncate_point(bs, max_bytes as int));
            &&& kept.len() <= max_bytes || bs.len() <= max_bytes
            &&& (bs.len() <= max_bytes ==> kept == bs)
            &&& valid_utf8(kept)
            &&& decode_utf8(kept) == s.take(decode_utf8(kept).len() as int)
        }),
{
    broadcast use encode_utf8_valid_utf8, encode_utf8_decode_utf8;

    let bs = encode_utf8(s);
    let p = truncate_point(bs, max_bytes as int);
    if bs.len() > max_bytes {
        lemma_floor_boundary(bs, max_bytes as int);
    } else {
        assert(bs.take(bs.len() as int) =~= bs);
        is_char_boundary_start_end_of_seq(bs);
    }
    assert(is_char_boundary(bs, p));
    valid_utf8_split(bs, p);
    decode_utf8_split(bs, p);
    assert(bs.take(p) =~= bs.subrange(0, p));
    let head = decode_utf8(bs.subrange(0, p));
    let tail = decode_utf8(bs.subrange(p, bs.len() as int));
    assert(s == head + tail);
    assert(s.take(head.len() as int) =~= head);
}

} // verus!
