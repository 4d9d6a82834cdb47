use vstd::prelude::*;
use vstd::utf8::*;
use vstd::string::StringSliceAdditionalSpecFns;
use crate::strs::{find_from, find_bytes_from, lemma_boundary_after_ascii, replace_all, replace_chars, has_prefix, has_infix, starts_with_chars, contains_chars, decimal, decimal_chars};
use crate::text::{utf8_len, chars_of, string_from_chars, trim, trim_str, concat_str, trim_bounds, utf8_len_range, append_range, join_with, join_chars, char_vecs_view};
use crate::clean::{plain_text, strip_html, lacks};
use crate::html::strings_seq_view;
use crate::error::SeederError;
use crate::pipeline::{SourceQueue, ingest_fold, made_nodes, nodes_view};
use crate::chunk::chunks;
use crate::domain::{SephirotDomain, domain_at, hash_bucket};
use crate::chunk::{truncate_point, safe_truncate};
use crate::clean::{with_headline, headline_join, first_match, first_group_trimmed, normalize_arxiv_summary, normalized_summary, RE_ENTRY_TITLE, RE_SUMMARY};
use crate::html::opt_view;

verus! {

broadcast use vstd::slice::group_slice_axioms;

/// First byte of the encoding of a string that starts with an ASCII character.
pub proof fn lemma_ascii_first_byte(s: Seq<char>)
    requires
        s.len() > 0,
        (s[0] as u32) < 0x80,
    ensures
        encode_utf8(s).len() > 0,
        encode_utf8(s)[0] == s[0] as u32 as u8,
{
    let c = s[0] as u32;
    assert((c & 0x7F) as u8 == c as u8) by (bit_vector)
        requires
            c < 0x80,
    ;
}

/// Where the body starts after a start marker: just past the end of the
/// line that holds the marker's first occurrence, if that line ends.
pub open spec fn after_marker_line(bs: Seq<u8>, marker: Seq<u8>) -> Option<int> {
    match find_from(bs, marker, 0) {
        None => None,
        Some(idx) => match find_from(bs, seq![10u8], idx) {
            None => None,
            Some(nl) => Some(nl + 1),
        },
    }
}

/// Byte range of the book body between the Project Gutenberg header and
/// footer markers (`*** START OF THE/THIS PROJECT GUTENBERG …` and
/// `*** END OF THE/THIS PROJECT GUTENBERG …`); the whole text when the
/// markers are missing or out of order.
pub open spec fn pg_body_range(bs: Seq<u8>, start1: Seq<u8>, start2: Seq<u8>, end1: Seq<u8>, end2: Seq<u8>) -> (int, int) {
    let start = match after_marker_line(bs, start1) {
        Some(p) => p,
        None => match after_marker_line(bs, start2) {
            Some(p) => p,
            None => 0,
        },
    };
    let end = match find_from(bs, end1, 0) {
        Some(i) => i,
        None => match find_from(bs, end2, 0) {
            Some(i) => i,
            None => bs.len() as int,
        },
    };
    if end < start {
        (0, bs.len() as int)
    } else {
        (start, end)
    }
}

pub proof fn lemma_find_from_bounds(bs: Seq<u8>, pat: Seq<u8>, k: int)
    ensures
        find_from(bs, pat, k) matches Some(i) ==> k <= i && i + pat.len() <= bs.len() && bs.subrange(i, i + pat.len()) == pat,
    decreases bs.len() + 1 - k,
{
    if !(k < 0 || k + pat.len() > bs.len()) && !crate::strs::matches_at(bs, pat, k) {
        lemma_find_from_bounds(bs, pat, k + 1);
    }
}

pub proof fn lemma_after_marker_line(bs: Seq<u8>, marker: Seq<u8>)
    ensures
        after_marker_line(bs, marker) matches Some(p) ==> 1 <= p <= bs.len() && bs[p - 1] == 10u8,
{
    lemma_find_from_bounds(bs, marker, 0);
    if let Some(idx) = find_from(bs, marker, 0) {
        lemma_find_from_bounds(bs, seq![10u8], idx);
        if let Some(nl) = find_from(bs, seq![10u8], idx) {
            assert(bs.subrange(nl, nl + 1)[0] == bs[nl]);
        }
    }
}

fn marker_line_end(bs: &[u8], marker: &[u8]) -> (r: Option<usize>)
    ensures
        r matches Some(p) ==> after_marker_line(bs@, marker@) == Some(p as int),
        r is None ==> after_marker_line(bs@, marker@) is None,
{
    match find_bytes_from(bs, marker, 0) {
        None => None,
        Some(idx) => {
            let nl: [u8; 1] = [10u8];
            proof {
                assert(nl@ =~= seq![10u8]);
                lemma_find_from_bounds(bs@, nl@, idx as int);
            }
            match find_bytes_from(bs, &nl, idx) {
                None => None,
                Some(p) => {
                    proof {
                        lemma_find_from_bounds(bs@, nl@, idx as int);
                        assert(bs@.len() == bs.len());
                    }
                    Some(p + 1)
                },
            }
        },
    }
}

pub const PG_START_THE: &'static str = "*** START OF THE PROJECT GUTENBERG";
pub const PG_START_THIS: &'static str = "*** START OF THIS PROJECT GUTENBERG";
pub const PG_END_THE: &'static str = "*** END OF THE PROJECT GUTENBERG";
pub const PG_END_THIS: &'static str = "*** END OF THIS PROJECT GUTENBERG";

/// Strips the Project Gutenberg header and footer (see [`pg_body_range`]).
pub fn strip_pg_boilerplate(raw: &str) -> (r: &str)
    ensures
        ({
            let range = pg_range(raw.spec_bytes());
            r.spec_bytes() == raw.spec_bytes().subrange(range.0, range.1)
        }),
{
    let start1 = PG_START_THE;
    let start2 = PG_START_THIS;
    let end1 = PG_END_THE;
    let end2 = PG_END_THIS;
    let bytes = raw.as_bytes();
    let ghost bs = raw.spec_bytes();
    proof {
        broadcast use encode_utf8_valid_utf8;
        reveal_strlit("*** END OF THE PROJECT GUTENBERG");
        reveal_strlit("*** END OF THIS PROJECT GUTENBERG");
        lemma_ascii_first_byte(end1@);
        lemma_ascii_first_byte(end2@);
        assert(valid_utf8(bs));
    }
    let body_start = match marker_line_end(bytes, start1.as_bytes()) {
        Some(p) => p,
        None => match marker_line_end(bytes, start2.as_bytes()) {
            Some(p) => p,
            None => 0,
        },
    };
    let body_end = match find_bytes_from(bytes, end1.as_bytes(), 0) {
        Some(i) => i,
        None => match find_bytes_from(bytes, end2.as_bytes(), 0) {
            Some(i) => i,
            None => bytes.len(),
        },
    };
    proof {
        lemma_find_from_bounds(bs, end1.spec_bytes(), 0);
        lemma_find_from_bounds(bs, end2.spec_bytes(), 0);
        lemma_find_from_bounds(bs, start1.spec_bytes(), 0);
        lemma_find_from_bounds(bs, start2.spec_bytes(), 0);
    }
    if body_end < body_start {
        proof {
            assert(bs.subrange(0, bs.len() as int) =~= bs);
        }
        return raw;
    }
    proof {
        // The end is a character boundary: it is the end of the text or the
        // position of an ASCII `*`.
        if body_end < bs.len() {
            let m = if find_from(bs, end1.spec_bytes(), 0) is Some { end1.spec_bytes() } else { end2.spec_bytes() };
            assert(bs.subrange(body_end as int, body_end + m.len()) == m);
            assert(bs[body_end as int] == m[0]);
            assert(bs[body_end as int] < 0x80);
            is_char_boundary_iff_is_leading_byte(bs, body_end as int);
        } else {
            is_char_boundary_start_end_of_seq(bs);
        }
        // The start is 0 or just past a newline byte.
        lemma_after_marker_line(bs, start1.spec_bytes());
        lemma_after_marker_line(bs, start2.spec_bytes());
        if body_start > 0 {
            assert(bs[body_start - 1] == 10u8);
            lemma_boundary_after_ascii(bs, body_start - 1);
        }
    }
    let (head, _) = raw.split_at(body_end);
    proof {
        valid_utf8_split(bs, body_end as int);
        assert(head.spec_bytes() =~= bs.subrange(0, body_end as int));
    }
    proof {
        let hb = head.spec_bytes();
        if body_start > 0 {
            assert(hb[body_start - 1] == 10u8);
            lemma_boundary_after_ascii(hb, body_start - 1);
        } else {
            is_char_boundary_start_end_of_seq(hb);
        }
    }
    let (_, body) = head.split_at(body_start);
    proof {
        assert(body.spec_bytes() =~= bs.subrange(body_start as int, body_end as int));
    }
    body
}


/// Article bodies are capped at this many UTF-8 bytes.
pub const ARTICLE_MAX_CHARS: usize = 50_000;
/// Abstracts are capped at this many UTF-8 bytes.
pub const ABSTRACT_MAX_CHARS: usize = 8_000;
/// Books are capped at this many UTF-8 bytes.
pub const BOOK_MAX_CHARS: usize = 200_000;
/// Questions are capped at this many UTF-8 bytes.
pub const QUESTION_MAX_CHARS: usize = 12_000;
/// Dataset rows are capped at this many UTF-8 bytes.
pub const ROW_MAX_CHARS: usize = 8_000;

/// The characters kept when `cs` is cut to at most `max_bytes` bytes on a
/// character boundary.
pub open spec fn truncated_chars(cs: Seq<char>, max_bytes: int) -> Seq<char> {
    decode_utf8(encode_utf8(cs).take(truncate_point(encode_utf8(cs), max_bytes)))
}

/// `safe_truncate(s, max_bytes).to_string()`.
pub fn truncate_string(s: &str, max_bytes: usize) -> (r: String)
    ensures
        r@ == truncated_chars(s@, max_bytes as int),
{
    let t = safe_truncate(s, max_bytes);
    proof {
        broadcast use encode_utf8_decode_utf8;
        assert(decode_utf8(encode_utf8(t@)) == t@);
    }
    t.to_owned()
}

/// Byte length of a string slice.
pub fn byte_len(s: &str) -> (n: usize)
    ensures
        n == utf8_len(s@),
{
    s.as_bytes().len()
}

/// The text built from a Wikipedia extract: `None` when the extract is
/// missing or shorter than 100 bytes; else the extract cut to
/// `ARTICLE_MAX_CHARS` bytes, `==` heading marks, blank lines and tabs
/// turned into spaces, headed by the page title (or the requested title with
/// underscores as spaces).
pub open spec fn wikipedia_text(title: Seq<char>, page_title: Option<Seq<char>>, extract: Option<Seq<char>>) -> Option<Seq<char>> {
    let e = match extract {
        Some(x) => x,
        None => seq![],
    };
    if utf8_len(e) < 100 {
        None
    } else {
        let t = truncated_chars(e, ARTICLE_MAX_CHARS as int);
        let cleaned = replace_all(
            replace_all(replace_all(t, seq!['=', '='], seq![' ']), seq!['\n', '\n'], seq![' ']),
            seq!['\t'],
            seq![' '],
        );
        let display = match page_title {
            Some(p) => p,
            None => replace_all(title, seq!['_'], seq![' ']),
        };
        Some(with_headline(display, cleaned))
    }
}

/// Prepares a Wikipedia extract for chunking (see [`wikipedia_text`]).
pub fn prepare_wikipedia_extract(title: &str, page_title: Option<String>, extract: Option<String>) -> (r: Option<String>)
    ensures
        opt_view(r) == wikipedia_text(title@, opt_view(page_title), opt_view(extract)),
{
    let e = match extract {
        Some(x) => x,
        None => String::new(),
    };
    if byte_len(e.as_str()) < 100 {
        return None;
    }
    let t = chars_of(truncate_string(e.as_str(), ARTICLE_MAX_CHARS).as_str());
    let eq2 = vec!['=', '='];
    let nl2 = vec!['\n', '\n'];
    let tab = vec!['\t'];
    let sp = vec![' '];
    let us = vec!['_'];
    proof {
        assert(eq2@ =~= seq!['=', '=']);
        assert(nl2@ =~= seq!['\n', '\n']);
        assert(tab@ =~= seq!['\t']);
        assert(sp@ =~= seq![' ']);
        assert(us@ =~= seq!['_']);
    }
    let c1 = replace_chars(&t, &eq2, &sp);
    let c2 = replace_chars(&c1, &nl2, &sp);
    let cleaned = replace_chars(&c2, &tab, &sp);
    let display = match page_title {
        Some(p) => chars_of(p.as_str()),
        None => replace_chars(&chars_of(title), &us, &sp),
    };
    Some(headline_join(&display, &cleaned))
}


/// The text built from an arXiv Atom response: `None` when there is no
/// summary of at least 100 bytes after whitespace normalization; else the
/// summary cut to `ABSTRACT_MAX_CHARS` bytes, headed by the entry title (or
/// the paper id when there is none).
pub open spec fn arxiv_text(arxiv_id: Seq<char>, xml: Seq<char>) -> Option<Seq<char>> {
    let title = match first_group_trimmed(xml, RE_ENTRY_TITLE@) {
        Some(t) => t,
        None => arxiv_id,
    };
    match first_group_trimmed(xml, RE_SUMMARY@) {
        None => None,
        Some(raw) => {
            let summary = normalized_summary(raw);
            if utf8_len(summary) >= 100 {
                Some(with_headline(title, truncated_chars(summary, ABSTRACT_MAX_CHARS as int)))
            } else {
                None
            }
        },
    }
}

/// Prepares an arXiv abstract for chunking (see [`arxiv_text`]).
pub fn prepare_arxiv_abstract(arxiv_id: &str, xml: &str) -> (r: Option<String>)
    ensures
        opt_view(r) == arxiv_text(arxiv_id@, xml@),
{
    let title = match first_match(xml, RE_ENTRY_TITLE) {
        Some(t) => chars_of(t.as_str()),
        None => chars_of(arxiv_id),
    };
    let raw = match first_match(xml, RE_SUMMARY) {
        Some(x) => x,
        None => return None,
    };
    let summary = normalize_arxiv_summary(raw);
    if byte_len(summary.as_str()) < 100 {
        return None;
    }
    let body = chars_of(truncate_string(summary.as_str(), ABSTRACT_MAX_CHARS).as_str());
    Some(headline_join(&title, &body))
}

/// Byte range of the book body of `bs` (see [`pg_body_range`]).
pub open spec fn pg_range(bs: Seq<u8>) -> (int, int) {
    pg_body_range(bs, PG_START_THE.spec_bytes(), PG_START_THIS.spec_bytes(), PG_END_THE.spec_bytes(), PG_END_THIS.spec_bytes())
}

/// `find_from` gives the first occurrence: none starts between `k` and it,
/// and none at all from `k` on when it finds nothing.
pub proof fn lemma_find_from_first(bs: Seq<u8>, pat: Seq<u8>, k: int)
    requires
        0 <= k,
    ensures
        find_from(bs, pat, k) matches Some(e) ==> forall|q: int| k <= q < e ==> !crate::strs::matches_at(bs, pat, q),
        find_from(bs, pat, k) is None ==> forall|q: int| k <= q ==> !crate::strs::matches_at(bs, pat, q),
    decreases bs.len() + 1 - k,
{
    if !(k + pat.len() > bs.len()) && !crate::strs::matches_at(bs, pat, k) {
        lemma_find_from_first(bs, pat, k + 1);
    }
}

/// The book body ends where the end marker begins, and holds no end marker:
/// unless the markers are out of order and the whole text is kept, the body
/// stops at the first occurrence of the first end marker (or, when that one
/// is missing, of the second), and no occurrence of the first end marker
/// lies inside it.
pub proof fn law_body_stops_at_end_marker(bs: Seq<u8>, start1: Seq<u8>, start2: Seq<u8>, end1: Seq<u8>, end2: Seq<u8>)
    requires
        end1.len() > 0,
    ensures
        ({
            let r = pg_body_range(bs, start1, start2, end1, end2);
            &&& 0 <= r.0 <= r.1 <= bs.len()
            &&& (find_from(bs, end1, 0) matches Some(e) ==> r.1 == e || r == (0int, bs.len() as int))
            &&& (find_from(bs, end1, 0) is None ==> (find_from(bs, end2, 0) matches Some(e)
                ==> r.1 == e || r == (0int, bs.len() as int)))
            &&& (r != (0int, bs.len() as int) ==> forall|i: int| !crate::strs::matches_at(bs.subrange(r.0, r.1), end1, i))
        }),
{
    let r = pg_body_range(bs, start1, start2, end1, end2);
    lemma_after_marker_line(bs, start1);
    lemma_after_marker_line(bs, start2);
    lemma_find_from_bounds(bs, end1, 0);
    lemma_find_from_bounds(bs, end2, 0);
    lemma_find_from_first(bs, end1, 0);
    if r != (0int, bs.len() as int) {
        let body = bs.subrange(r.0, r.1);
        let m = end1.len() as int;
        assert forall|i: int| !crate::strs::matches_at(body, end1, i) by {
            if crate::strs::matches_at(body, end1, i) {
                assert(bs.subrange(r.0 + i, r.0 + i + m) =~= body.subrange(i, i + m));
                assert(crate::strs::matches_at(bs, end1, r.0 + i));
            }
        }
    }
}

proof fn lemma_after_marker_line_shape(bs: Seq<u8>, marker: Seq<u8>)
    ensures
        after_marker_line(bs, marker) matches Some(p) ==> {
            &&& 1 <= p <= bs.len()
            &&& bs[p - 1] == 10u8
            &&& exists|m: int| 0 <= m < p && #[trigger] crate::strs::matches_at(bs, marker, m)
                && forall|j: int| m <= j < p - 1 ==> bs[j] != 10u8
        },
        (forall|m: int| !#[trigger] crate::strs::matches_at(bs, marker, m)) ==> after_marker_line(bs, marker) is None,
{
    lemma_after_marker_line(bs, marker);
    lemma_find_from_bounds(bs, marker, 0);
    if let Some(m) = find_from(bs, marker, 0) {
        assert(crate::strs::matches_at(bs, marker, m));
        let nlp = seq![10u8];
        lemma_find_from_bounds(bs, nlp, m);
        if let Some(nl) = find_from(bs, nlp, m) {
            lemma_find_from_first(bs, nlp, m);
            assert forall|j: int| m <= j < nl implies bs[j] != 10u8 by {
                if bs[j] == 10u8 {
                    assert(bs.subrange(j, j + 1) =~= nlp);
                    assert(crate::strs::matches_at(bs, nlp, j));
                }
            }
        }
    }
}

/// One of the two markers occurs at `m`.
pub open spec fn marker_at(bs: Seq<u8>, marker1: Seq<u8>, marker2: Seq<u8>, m: int) -> bool {
    crate::strs::matches_at(bs, marker1, m) || crate::strs::matches_at(bs, marker2, m)
}

/// The book body starts just past the end of a line that holds a start
/// marker, no line break lying between the marker and that end; or at the
/// start of the text. With no start marker anywhere, it starts at the start
/// of the text (unless the markers are out of order and the whole text is
/// kept, which also starts there).
pub proof fn law_body_starts_after_start_marker_line(bs: Seq<u8>, start1: Seq<u8>, start2: Seq<u8>, end1: Seq<u8>, end2: Seq<u8>)
    ensures
        ({
            let r = pg_body_range(bs, start1, start2, end1, end2);
            &&& r.0 == 0 || ({
                &&& bs[r.0 - 1] == 10u8
                &&& exists|m: int| 0 <= m < r.0 && #[trigger] marker_at(bs, start1, start2, m)
                    && forall|j: int| m <= j < r.0 - 1 ==> bs[j] != 10u8
            })
            &&& ((forall|m: int| !#[trigger] crate::strs::matches_at(bs, start1, m))
                && (forall|m: int| !#[trigger] crate::strs::matches_at(bs, start2, m)) ==> r.0 == 0)
        }),
{
    lemma_after_marker_line_shape(bs, start1);
    lemma_after_marker_line_shape(bs, start2);
    let r = pg_body_range(bs, start1, start2, end1, end2);
    if r.0 != 0 {
        if let Some(p) = after_marker_line(bs, start1) {
            assert(r.0 == p);
            let m = choose|m: int| 0 <= m < p && #[trigger] crate::strs::matches_at(bs, start1, m)
                && forall|j: int| m <= j < p - 1 ==> bs[j] != 10u8;
            assert(marker_at(bs, start1, start2, m));
            assert(forall|j: int| m <= j < r.0 - 1 ==> bs[j] != 10u8);
        } else if let Some(p) = after_marker_line(bs, start2) {
            assert(r.0 == p);
            let m = choose|m: int| 0 <= m < p && #[trigger] crate::strs::matches_at(bs, start2, m)
                && forall|j: int| m <= j < p - 1 ==> bs[j] != 10u8;
            assert(marker_at(bs, start1, start2, m));
            assert(forall|j: int| m <= j < r.0 - 1 ==> bs[j] != 10u8);
        }
    }
    if (forall|m: int| !#[trigger] crate::strs::matches_at(bs, start1, m))
        && (forall|m: int| !#[trigger] crate::strs::matches_at(bs, start2, m)) {
        assert(after_marker_line(bs, start1) is None);
        assert(after_marker_line(bs, start2) is None);
        assert(r.0 == 0);
    }
}

/// A Project Gutenberg book body never holds the `*** END OF THE PROJECT
/// GUTENBERG` marker, unless the markers are out of order and the whole text
/// is kept.
pub proof fn law_book_body_holds_no_end_marker(bs: Seq<u8>)
    ensures
        ({
            let r = pg_range(bs);
            r != (0int, bs.len() as int) ==> forall|i: int| !crate::strs::matches_at(bs.subrange(r.0, r.1), PG_END_THE.spec_bytes(), i)
        }),
{
    reveal_strlit("*** END OF THE PROJECT GUTENBERG");
    lemma_ascii_first_byte(PG_END_THE@);
    law_body_stops_at_end_marker(bs, PG_START_THE.spec_bytes(), PG_START_THIS.spec_bytes(), PG_END_THE.spec_bytes(), PG_END_THIS.spec_bytes());
}

/// The text built from a Project Gutenberg plain-text book: the body between
/// the markers, cut to `BOOK_MAX_CHARS` bytes; `None` when fewer than 500
/// bytes remain; else carriage returns and tabs as spaces, blank lines as
/// `" \n"`, headed by the title.
pub open spec fn book_text(title: Seq<char>, raw: Seq<char>) -> Option<Seq<char>> {
    let bs = encode_utf8(raw);
    let r = pg_range(bs);
    let body = bs.subrange(r.0, r.1);
    let cut = body.take(truncate_point(body, BOOK_MAX_CHARS as int));
    if cut.len() < 500 {
        None
    } else {
        let t = decode_utf8(cut);
        let n = replace_all(
            replace_all(replace_all(t, seq!['\r'], seq![' ']), seq!['\t'], seq![' ']),
            seq!['\n', '\n'],
            seq![' ', '\n'],
        );
        Some(with_headline(title, n))
    }
}

/// Replacement brings in no character that neither the text nor the
/// replacement holds.
proof fn lemma_replace_brings_no_new_char(cs: Seq<char>, pat: Seq<char>, rep: Seq<char>, c: char)
    requires
        lacks(cs, c),
        lacks(rep, c),
    ensures
        lacks(replace_all(cs, pat, rep), c),
    decreases cs.len(),
{
    if !(pat.len() == 0 || cs.len() < pat.len()) {
        if cs.take(pat.len() as int) == pat {
            let rest = cs.skip(pat.len() as int);
            assert forall|i: int| 0 <= i < rest.len() implies rest[i] != c by {
                assert(rest[i] == cs[i + pat.len()]);
            }
            lemma_replace_brings_no_new_char(rest, pat, rep, c);
            let r = replace_all(cs, pat, rep);
            assert forall|i: int| 0 <= i < r.len() implies r[i] != c by {
                if i >= rep.len() {
                    assert(r[i] == replace_all(rest, pat, rep)[i - rep.len()]);
                }
            }
        } else {
            let rest = cs.drop_first();
            assert forall|i: int| 0 <= i < rest.len() implies rest[i] != c by {
                assert(rest[i] == cs[i + 1]);
            }
            lemma_replace_brings_no_new_char(rest, pat, rep, c);
            let r = replace_all(cs, pat, rep);
            assert forall|i: int| 0 <= i < r.len() implies r[i] != c by {
                if i >= 1 {
                    assert(r[i] == replace_all(rest, pat, rep)[i - 1]);
                }
            }
        }
    }
}

/// A prepared book holds no carriage return and no tab after its headline:
/// it is the title, a blank line, then text without either.
pub proof fn law_book_text_has_no_carriage_returns_or_tabs(title: Seq<char>, raw: Seq<char>) -> (text: Seq<char>)
    ensures
        book_text(title, raw) matches Some(t) ==> t == with_headline(title, text) && lacks(text, '\r') && lacks(text, '\t'),
{
    let bs = encode_utf8(raw);
    let r = pg_range(bs);
    let body = bs.subrange(r.0, r.1);
    let cut = body.take(truncate_point(body, BOOK_MAX_CHARS as int));
    let t = decode_utf8(cut);
    let n1 = replace_all(t, seq!['\r'], seq![' ']);
    let n2 = replace_all(n1, seq!['\t'], seq![' ']);
    let n = replace_all(n2, seq!['\n', '\n'], seq![' ', '\n']);
    crate::strs::law_replacing_a_character_maps_each_character(t, '\r', ' ');
    crate::strs::law_replacing_a_character_maps_each_character(n1, '\t', ' ');
    assert forall|i: int| 0 <= i < n1.len() implies n1[i] != '\r' by {
        assert(n1[i] == (if t[i] == '\r' { ' ' } else { t[i] }));
    }
    assert forall|i: int| 0 <= i < n2.len() implies n2[i] != '\r' && n2[i] != '\t' by {
        assert(n2[i] == (if n1[i] == '\t' { ' ' } else { n1[i] }));
    }
    assert(lacks(n2, '\r') && lacks(n2, '\t'));
    assert(lacks(seq![' ', '\n'], '\r') && lacks(seq![' ', '\n'], '\t'));
    lemma_replace_brings_no_new_char(n2, seq!['\n', '\n'], seq![' ', '\n'], '\r');
    lemma_replace_brings_no_new_char(n2, seq!['\n', '\n'], seq![' ', '\n'], '\t');
    n
}

/// Prepares a downloaded book for chunking (see [`book_text`]).
pub fn prepare_book_text(title: &str, raw: &str) -> (r: Option<String>)
    ensures
        opt_view(r) == book_text(title@, raw@),
{
    let cleaned = strip_pg_boilerplate(raw);
    let trimmed = safe_truncate(cleaned, BOOK_MAX_CHARS);
    if trimmed.as_bytes().len() < 500 {
        return None;
    }
    proof {
        broadcast use encode_utf8_decode_utf8;
        assert(decode_utf8(encode_utf8(trimmed@)) == trimmed@);
    }
    let t = chars_of(trimmed);
    let cr = vec!['\r'];
    let tab = vec!['\t'];
    let nl2 = vec!['\n', '\n'];
    let sp = vec![' '];
    let spnl = vec![' ', '\n'];
    proof {
        assert(cr@ =~= seq!['\r']);
        assert(tab@ =~= seq!['\t']);
        assert(nl2@ =~= seq!['\n', '\n']);
        assert(sp@ =~= seq![' ']);
        assert(spnl@ =~= seq![' ', '\n']);
    }
    let n1 = replace_chars(&t, &cr, &sp);
    let n2 = replace_chars(&n1, &tab, &sp);
    let n3 = replace_chars(&n2, &nl2, &spnl);
    Some(headline_join(&chars_of(title), &n3))
}


// ── Gutenberg listings ───────────────────────────────────────────────

/// Whether a format key names plain text (`text/plain…`), and, when
/// `need_utf8`, also mentions `utf-8`.
pub open spec fn is_plain_format(key: Seq<char>, need_utf8: bool) -> bool {
    has_prefix(key, seq!['t', 'e', 'x', 't', '/', 'p', 'l', 'a', 'i', 'n'])
        && (!need_utf8 || has_infix(key, seq!['u', 't', 'f', '-', '8']))
}

/// URL of the first format (in listing order) that [`is_plain_format`] accepts.
pub open spec fn first_plain_url(formats: Seq<(String, String)>, need_utf8: bool) -> Option<Seq<char>>
    decreases formats.len(),
{
    if formats.len() == 0 {
        None
    } else if is_plain_format(formats[0].0@, need_utf8) {
        Some(formats[0].1@)
    } else {
        first_plain_url(formats.drop_first(), need_utf8)
    }
}

/// A plain-text URL from a format listing: UTF-8 plain text preferred, any
/// plain text otherwise.
pub open spec fn text_url_choice(formats: Seq<(String, String)>) -> Option<Seq<char>> {
    match first_plain_url(formats, true) {
        Some(u) => Some(u),
        None => first_plain_url(formats, false),
    }
}

fn first_plain_url_exec(formats: &Vec<(String, String)>, need_utf8: bool) -> (r: Option<String>)
    ensures
        opt_view(r) == first_plain_url(formats@, need_utf8),
{
    let prefix = vec!['t', 'e', 'x', 't', '/', 'p', 'l', 'a', 'i', 'n'];
    let utf8 = vec!['u', 't', 'f', '-', '8'];
    proof {
        assert(prefix@ =~= seq!['t', 'e', 'x', 't', '/', 'p', 'l', 'a', 'i', 'n']);
        assert(utf8@ =~= seq!['u', 't', 'f', '-', '8']);
        assert(formats@.skip(0) =~= formats@);
    }
    let mut i: usize = 0;
    while i < formats.len()
        invariant
            i <= formats@.len(),
            prefix@ == seq!['t', 'e', 'x', 't', '/', 'p', 'l', 'a', 'i', 'n'],
            utf8@ == seq!['u', 't', 'f', '-', '8'],
            first_plain_url(formats@, need_utf8) == first_plain_url(formats@.skip(i as int), need_utf8),
        decreases formats@.len() - i,
    {
        let key = chars_of(formats[i].0.as_str());
        let ok = starts_with_chars(&key, &prefix) && (!need_utf8 || contains_chars(&key, &utf8));
        proof {
            assert(formats@.skip(i as int)[0] == formats@[i as int]);
            assert(formats@.skip(i as int).drop_first() =~= formats@.skip(i + 1));
        }
        if ok {
            return Some(formats[i].1.clone());
        }
        i = i + 1;
    }
    None
}

/// Picks a usable plain-text URL from a format listing (see [`text_url_choice`]).
pub fn pick_text_url(formats: &Vec<(String, String)>) -> (r: Option<String>)
    ensures
        opt_view(r) == text_url_choice(formats@),
{
    match first_plain_url_exec(formats, true) {
        Some(u) => Some(u),
        None => first_plain_url_exec(formats, false),
    }
}

/// One book of a listing: its id, optional title and available formats.
pub struct GutendexBook {
    pub id: u64,
    pub title: Option<String>,
    pub formats: Vec<(String, String)>,
}

/// A book queued for download.
pub struct BookEntry {
    pub id: u64,
    pub title: String,
    pub domain: SephirotDomain,
    pub text_url: String,
}

/// `PG#{id}`, the title used for untitled books.
pub open spec fn untitled_book(id: u64) -> Seq<char> {
    seq!['P', 'G', '#'] + decimal(id as nat)
}

/// `gutenberg:{id}`, the key a book's domain is hashed from and its nodes'
/// source attribution.
pub open spec fn book_key(id: u64) -> Seq<char> {
    seq!['g', 'u', 't', 'e', 'n', 'b', 'e', 'r', 'g', ':'] + decimal(id as nat)
}

/// The queue entry made for a listed book.
pub open spec fn book_entry_of(b: GutendexBook) -> (u64, Seq<char>, SephirotDomain, Seq<char>) {
    (
        b.id,
        match b.title {
            Some(t) => t@,
            None => untitled_book(b.id),
        },
        domain_at(hash_bucket(book_key(b.id))),
        match text_url_choice(b.formats@) {
            Some(u) => u,
            None => seq![],
        },
    )
}

/// The observable fields of a queue entry.
pub open spec fn book_entry_view(e: BookEntry) -> (u64, Seq<char>, SephirotDomain, Seq<char>) {
    (e.id, e.title@, e.domain, e.text_url@)
}

fn prefixed_decimal(prefix: Vec<char>, n: u64) -> (s: String)
    ensures
        s@ == prefix@ + decimal(n as nat),
{
    let mut all = prefix;
    let d = decimal_chars(n);
    append_range(&mut all, &d, 0, d.len());
    proof {
        assert(d@.subrange(0, d@.len() as int) =~= d@);
    }
    string_from_chars(all.as_slice())
}

/// `gutenberg:{id}`.
pub fn book_key_string(id: u64) -> (s: String)
    ensures
        s@ == book_key(id),
{
    let p = vec!['g', 'u', 't', 'e', 'n', 'b', 'e', 'r', 'g', ':'];
    proof {
        assert(p@ =~= seq!['g', 'u', 't', 'e', 'n', 'b', 'e', 'r', 'g', ':']);
    }
    prefixed_decimal(p, id)
}

/// The queue entry for one listed book (see [`book_entry_of`]).
pub fn book_entry(b: &GutendexBook) -> (e: BookEntry)
    ensures
        book_entry_view(e) == book_entry_of(*b),
{
    let text_url = match pick_text_url(&b.formats) {
        Some(u) => u,
        None => String::new(),
    };
    let title = match &b.title {
        Some(t) => t.clone(),
        None => {
            let p = vec!['P', 'G', '#'];
            proof {
                assert(p@ =~= seq!['P', 'G', '#']);
            }
            prefixed_decimal(p, b.id)
        },
    };
    let key = book_key_string(b.id);
    let domain = SephirotDomain::from_hash(key.as_str());
    BookEntry { id: b.id, title, domain, text_url }
}

/// The views of queue entries.
pub open spec fn entries_view(v: Seq<BookEntry>) -> Seq<(u64, Seq<char>, SephirotDomain, Seq<char>)> {
    v.map_values(|e: BookEntry| book_entry_view(e))
}

/// The queue entries made for listed books.
pub open spec fn entries_of(v: Seq<GutendexBook>) -> Seq<(u64, Seq<char>, SephirotDomain, Seq<char>)> {
    v.map_values(|b: GutendexBook| book_entry_of(b))
}

/// The first `take_n` books of a listing, as queue entries.
pub fn book_entries(books: &Vec<GutendexBook>, take_n: usize) -> (out: Vec<BookEntry>)
    ensures
        entries_view(out@) == entries_of(books@.take(if take_n <= books@.len() { take_n as int } else { books@.len() as int })),
{
    let mut out: Vec<BookEntry> = Vec::new();
    let mut i: usize = 0;
    while i < books.len() && i < take_n
        invariant
            i <= books@.len(),
            i <= take_n,
            entries_view(out@) == entries_of(books@.take(i as int)),
        decreases books@.len() - i,
    {
        let e = book_entry(&books[i]);
        let ghost before = out@;
        out.push(e);
        proof {
            assert(book_entry_view(e) == book_entry_of(books@[i as int]));
            assert(books@.take(i + 1) =~= books@.take(i as int).push(books@[i as int]));
            assert(out@ == before.push(e));
            assert(entries_view(out@) =~= entries_view(before).push(book_entry_view(e)));
            assert(entries_of(books@.take(i + 1)) =~= entries_of(books@.take(i as int)).push(book_entry_of(books@[i as int])));
        }
        i = i + 1;
    }
    out
}

/// Where a book's plain text is downloaded from: the listed URL, or the
/// mirror path `{base}/{id}/pg{id}.txt` when none was listed.
pub open spec fn book_url(text_url: Seq<char>, base: Seq<char>, id: u64) -> Seq<char> {
    if text_url.len() > 0 {
        text_url
    } else {
        base + seq!['/'] + decimal(id as nat) + seq!['/', 'p', 'g'] + decimal(id as nat) + seq!['.', 't', 'x', 't']
    }
}

/// The download URL of a queued book (see [`book_url`]).
pub fn book_text_url(entry: &BookEntry, base: &str) -> (u: String)
    ensures
        u@ == book_url(entry.text_url@, base@, entry.id),
{
    if byte_len(entry.text_url.as_str()) > 0 {
        proof {
            crate::text::lemma_utf8_len_ge(entry.text_url@);
            if entry.text_url@.len() == 0 {
                assert(entry.text_url@ =~= Seq::<char>::empty());
            }
        }
        return entry.text_url.clone();
    }
    proof {
        crate::text::lemma_utf8_len_ge(entry.text_url@);
    }
    let mut all = chars_of(base);
    let ghost b0 = all@;
    all.push('/');
    let d = decimal_chars(entry.id);
    append_range(&mut all, &d, 0, d.len());
    all.push('/');
    all.push('p');
    all.push('g');
    append_range(&mut all, &d, 0, d.len());
    all.push('.');
    all.push('t');
    all.push('x');
    all.push('t');
    proof {
        assert(d@.subrange(0, d@.len() as int) =~= d@);
        assert(all@ =~= book_url(entry.text_url@, base@, entry.id));
    }
    string_from_chars(all.as_slice())
}


// ── Stack Exchange questions ─────────────────────────────────────────

/// One question of an API page.
pub struct SeQuestion {
    pub question_id: u64,
    pub title: Option<String>,
    pub body: Option<String>,
    pub tags: Vec<String>,
}

/// A question queued for chunking.
pub struct QuestionEntry {
    pub question_id: u64,
    pub site: String,
    pub text: String,
    pub domain: SephirotDomain,
}

/// `Tags: a, b, c` and a blank line, or nothing when there are no tags.
pub open spec fn tag_line(tags: Seq<Seq<char>>) -> Seq<char> {
    if tags.len() == 0 {
        seq![]
    } else {
        seq!['T', 'a', 'g', 's', ':', ' '] + join_with(tags, seq![',', ' ']) + seq!['\n', '\n']
    }
}

/// The text kept for a question: title, blank line, tag line, then the
/// body as plain text, cut to `QUESTION_MAX_CHARS` bytes. `None` when the
/// HTML patterns fail to compile; `Some(None)` when fewer than 80 bytes
/// remain once trimmed.
pub open spec fn question_text(q: SeQuestion) -> Option<Option<Seq<char>>> {
    let title = match q.title {
        Some(t) => t@,
        None => seq![],
    };
    let body = match q.body {
        Some(b) => b@,
        None => seq![],
    };
    match plain_text(body) {
        None => None,
        Some(body_text) => {
            let combined = title + seq!['\n', '\n'] + tag_line(strings_seq_view(q.tags@)) + body_text;
            let t = truncated_chars(combined, QUESTION_MAX_CHARS as int);
            if utf8_len(trim(t)) < 80 {
                Some(None)
            } else {
                Some(Some(t))
            }
        },
    }
}

/// `{site}:{id}`, the key a question's domain is hashed from.
pub open spec fn question_key(site: Seq<char>, id: u64) -> Seq<char> {
    site + seq![':'] + decimal(id as nat)
}

/// The observable fields of a queued question.
pub open spec fn question_entry_view(e: QuestionEntry) -> (u64, Seq<char>, Seq<char>, SephirotDomain) {
    (e.question_id, e.site@, e.text@, e.domain)
}

/// The queued questions of a page, in order; `None` when the HTML patterns
/// fail to compile.
pub open spec fn question_entries_of(site: Seq<char>, qs: Seq<SeQuestion>) -> Option<Seq<(u64, Seq<char>, Seq<char>, SephirotDomain)>>
    decreases qs.len(),
{
    if qs.len() == 0 {
        Some(seq![])
    } else {
        match question_entries_of(site, qs.drop_last()) {
            None => None,
            Some(acc) => {
                let q = qs.last();
                match question_text(q) {
                    None => None,
                    Some(None) => Some(acc),
                    Some(Some(t)) => Some(
                        acc.push((q.question_id, site, t, domain_at(hash_bucket(question_key(site, q.question_id))))),
                    ),
                }
            },
        }
    }
}

proof fn lemma_question_entries_none(site: Seq<char>, qs: Seq<SeQuestion>, k: int)
    requires
        0 <= k <= qs.len(),
        question_entries_of(site, qs.take(k)) is None,
    ensures
        question_entries_of(site, qs) is None,
    decreases qs.len(),
{
    if k == qs.len() {
        assert(qs.take(k) =~= qs);
    } else {
        assert(qs.drop_last().take(k) =~= qs.take(k));
        lemma_question_entries_none(site, qs.drop_last(), k);
    }
}

/// The views of queued questions.
pub open spec fn questions_view(v: Seq<QuestionEntry>) -> Seq<(u64, Seq<char>, Seq<char>, SephirotDomain)> {
    v.map_values(|e: QuestionEntry| question_entry_view(e))
}

fn question_text_exec(q: &SeQuestion) -> (r: Option<Option<String>>)
    ensures
        match r {
            None => question_text(*q) is None,
            Some(o) => question_text(*q) == Some(opt_view(o)),
        },
{
    let body = match &q.body {
        Some(b) => b.clone(),
        None => String::new(),
    };
    let body_text = match strip_html(body.as_str()) {
        None => return None,
        Some(t) => t,
    };
    let mut all = match &q.title {
        Some(t) => chars_of(t.as_str()),
        None => Vec::new(),
    };
    let ghost title = all@;
    all.push('\n');
    all.push('\n');
    let ghost before_tags = all@;
    let tags_line: Vec<char> = if q.tags.len() == 0 {
        Vec::new()
    } else {
        let mut parts: Vec<Vec<char>> = Vec::new();
        let mut i: usize = 0;
        while i < q.tags.len()
            invariant
                i <= q.tags@.len(),
                char_vecs_view(parts@) == strings_seq_view(q.tags@).take(i as int),
            decreases q.tags@.len() - i,
        {
            let ghost before = parts@;
            parts.push(chars_of(q.tags[i].as_str()));
            proof {
                assert(char_vecs_view(parts@) =~= char_vecs_view(before).push(q.tags@[i as int]@));
                assert(strings_seq_view(q.tags@).take(i + 1) =~= strings_seq_view(q.tags@).take(i as int).push(q.tags@[i as int]@));
                assert(char_vecs_view(parts@) =~= strings_seq_view(q.tags@).take(i + 1));
            }
            i = i + 1;
        }
        proof {
            assert(strings_seq_view(q.tags@).take(q.tags@.len() as int) =~= strings_seq_view(q.tags@));
        }
        let sep = vec![',', ' '];
        let joined = join_chars(&parts, &sep);
        let mut line = vec!['T', 'a', 'g', 's', ':', ' '];
        append_range(&mut line, &joined, 0, joined.len());
        line.push('\n');
        line.push('\n');
        proof {
            assert(sep@ =~= seq![',', ' ']);
            assert(joined@.subrange(0, joined@.len() as int) =~= joined@);
            assert(line@ =~= tag_line(strings_seq_view(q.tags@)));
        }
        line
    };
    proof {
        if q.tags@.len() == 0 {
            assert(tags_line@ =~= tag_line(strings_seq_view(q.tags@)));
        }
    }
    append_range(&mut all, &tags_line, 0, tags_line.len());
    let bt = chars_of(body_text.as_str());
    append_range(&mut all, &bt, 0, bt.len());
    proof {
        assert(tags_line@.subrange(0, tags_line@.len() as int) =~= tags_line@);
        assert(bt@.subrange(0, bt@.len() as int) =~= bt@);
    }
    let combined = string_from_chars(all.as_slice());
    let t = truncate_string(combined.as_str(), QUESTION_MAX_CHARS);
    let tc = chars_of(t.as_str());
    let (a, b) = trim_bounds(&tc, 0, tc.len());
    let n = utf8_len_range(&tc, a, b);
    proof {
        assert(tc@.subrange(0, tc@.len() as int) =~= tc@);
        assert(combined@ =~= title + seq!['\n', '\n'] + tag_line(strings_seq_view(q.tags@)) + body_text@);
    }
    if n < 80 {
        Some(None)
    } else {
        Some(Some(t))
    }
}

/// `{site}:{id}`.
pub fn question_key_string(site: &str, id: u64) -> (s: String)
    ensures
        s@ == question_key(site@, id),
{
    let mut p = chars_of(site);
    p.push(':');
    let d = decimal_chars(id);
    append_range(&mut p, &d, 0, d.len());
    proof {
        assert(d@.subrange(0, d@.len() as int) =~= d@);
    }
    string_from_chars(p.as_slice())
}

/// Turns a page of questions into queue entries (see [`question_entries_of`]).
pub fn question_entries(site: &str, items: &Vec<SeQuestion>) -> (r: Option<Vec<QuestionEntry>>)
    ensures
        match r {
            None => question_entries_of(site@, items@) is None,
            Some(v) => question_entries_of(site@, items@) == Some(questions_view(v@)),
        },
{
    let mut out: Vec<QuestionEntry> = Vec::new();
    let mut i: usize = 0;
    while i < items.len()
        invariant
            i <= items@.len(),
            question_entries_of(site@, items@.take(i as int)) == Some(questions_view(out@)),
        decreases items@.len() - i,
    {
        proof {
            assert(items@.take(i + 1).drop_last() =~= items@.take(i as int));
            assert(items@.take(i + 1).last() == items@[i as int]);
        }
        let q = &items[i];
        match question_text_exec(q) {
            None => {
                proof {
                    lemma_question_entries_none(site@, items@, i + 1);
                }
                return None;
            },
            Some(None) => {},
            Some(Some(text)) => {
                let key = question_key_string(site, q.question_id);
                let domain = SephirotDomain::from_hash(key.as_str());
                let ghost before = out@;
                out.push(QuestionEntry { question_id: q.question_id, site: site.to_owned(), text, domain });
                proof {
                    assert(questions_view(out@) =~= questions_view(before).push(question_entry_view(out@.last())));
                }
            },
        }
        i = i + 1;
    }
    proof {
        assert(items@.take(items@.len() as int) =~= items@);
    }
    Some(out)
}

// ── FineWeb offsets ──────────────────────────────────────────────────

/// The offset of the `i`-th API call: `start + i × count_per_call`,
/// saturating at `u64::MAX`.
pub open spec fn call_offset(start: u64, count_per_call: u64, i: int) -> u64 {
    if start + i * count_per_call <= u64::MAX {
        (start + i * count_per_call) as u64
    } else {
        u64::MAX
    }
}

/// Offsets of the `total_rows / count_per_call` API calls that fetch rows
/// `count_per_call` at a time, starting at `start` and advancing by
/// `count_per_call` each call.
pub open spec fn offset_plan_spec(start: u64, count_per_call: u64, total_rows: u64) -> Seq<u64> {
    Seq::new((total_rows / count_per_call) as nat, |i: int| call_offset(start, count_per_call, i))
}

/// The offsets to fetch (see [`offset_plan_spec`]); the error
/// `Other("count_per_call must be > 0")` when `count_per_call` is zero.
pub fn offset_plan(start: u64, count_per_call: u64, total_rows: u64) -> (r: Result<Vec<u64>, SeederError>)
    ensures
        count_per_call == 0 ==> (r matches Err(SeederError::Other(m)) && m@ == "count_per_call must be > 0"@),
        count_per_call > 0 ==> (r matches Ok(v) && v@ == offset_plan_spec(start, count_per_call, total_rows)),
{
    if count_per_call == 0 {
        return Err(SeederError::Other("count_per_call must be > 0".to_owned()));
    }
    let calls = total_rows / count_per_call;
    let mut v: Vec<u64> = Vec::new();
    let mut offset = start;
    let mut i: u64 = 0;
    while i < calls
        invariant
            count_per_call > 0,
            i <= calls,
            calls == total_rows / count_per_call,
            offset == call_offset(start, count_per_call, i as int),
            v@ == Seq::new(i as nat, |j: int| call_offset(start, count_per_call, j)),
        decreases calls - i,
    {
        v.push(offset);
        proof {
            assert(v@ =~= Seq::new((i + 1) as nat, |j: int| call_offset(start, count_per_call, j)));
            assert(start + (i + 1) * count_per_call == start + i * count_per_call + count_per_call) by (nonlinear_arith);
            assert(start + i * count_per_call >= start) by (nonlinear_arith);
        }
        offset = offset.saturating_add(count_per_call);
        i = i + 1;
    }
    Ok(v)
}


// ── FineWeb rows ─────────────────────────────────────────────────────

/// Confidence (in thousandths) given to FineWeb rows.
pub const FINEWEB_CONFIDENCE: u16 = 850;

/// The `Authorization` header sent to the rows API: `Bearer` and the token
/// trimmed, the token taken from the environment when it is not blank,
/// else from the token file when that is not blank; none otherwise.
pub open spec fn hf_auth(env_token: Option<Seq<char>>, file_token: Option<Seq<char>>) -> Option<Seq<char>> {
    match env_token {
        Some(t) if trim(t).len() > 0 => Some("Bearer "@ + trim(t)),
        _ => match file_token {
            Some(f) if trim(f).len() > 0 => Some("Bearer "@ + trim(f)),
            _ => None,
        },
    }
}

/// Builds the `Authorization` header of the rows API (see [`hf_auth`]).
pub fn hf_auth_header(env_token: Option<String>, file_token: Option<String>) -> (h: Option<String>)
    ensures
        opt_view(h) == hf_auth(opt_view(env_token), opt_view(file_token)),
{
    if let Some(t) = env_token {
        let tt = trim_str(t.as_str());
        if tt.as_str().as_bytes().len() > 0 {
            proof {
                crate::text::lemma_utf8_len_ge(tt@);
                if tt@.len() == 0 {
                    assert(tt@ =~= Seq::<char>::empty());
                }
            }
            return Some(concat_str("Bearer ", tt.as_str()));
        }
        proof {
            crate::text::lemma_utf8_len_ge(tt@);
        }
    }
    if let Some(f) = file_token {
        let ft = trim_str(f.as_str());
        if ft.as_str().as_bytes().len() > 0 {
            proof {
                crate::text::lemma_utf8_len_ge(ft@);
                if ft@.len() == 0 {
                    assert(ft@ =~= Seq::<char>::empty());
                }
            }
            return Some(concat_str("Bearer ", ft.as_str()));
        }
        proof {
            crate::text::lemma_utf8_len_ge(ft@);
        }
    }
    None
}

/// One row of the datasets-server rows API.
pub struct HfRow {
    pub row_idx: u64,
    pub text: Option<String>,
    pub url: Option<String>,
}

/// `fineweb:{row_idx}`, the domain key of a row without a URL.
pub open spec fn fineweb_key(idx: u64) -> Seq<char> {
    seq!['f', 'i', 'n', 'e', 'w', 'e', 'b', ':'] + decimal(idx as nat)
}

/// `huggingface-fineweb:{row_idx}`, the source attribution of a row's nodes.
pub open spec fn fineweb_source(idx: u64) -> Seq<char> {
    "huggingface-fineweb:"@ + decimal(idx as nat)
}

/// What a row contributes: nothing when its text is under 80 bytes once
/// trimmed; else its text cut to `ROW_MAX_CHARS` bytes, the domain hashed
/// from its URL (or `fineweb:{row_idx}`), and its source attribution.
pub open spec fn row_plan(r: HfRow) -> Option<(Seq<char>, SephirotDomain, Seq<char>)> {
    let t = match r.text {
        Some(x) => x@,
        None => seq![],
    };
    if utf8_len(trim(t)) < 80 {
        None
    } else {
        let key = match r.url {
            Some(u) => u@,
            None => fineweb_key(r.row_idx),
        };
        Some((truncated_chars(t, ROW_MAX_CHARS as int), domain_at(hash_bucket(key)), fineweb_source(r.row_idx)))
    }
}

/// Ingesting rows in order: the seen hashes afterwards and the nodes queued.
pub open spec fn rows_fold(seen: Set<Seq<u8>>, rows: Seq<HfRow>) -> (Set<Seq<u8>>, Seq<(Seq<char>, SephirotDomain, Seq<char>, u16)>)
    decreases rows.len(),
{
    if rows.len() == 0 {
        (seen, seq![])
    } else {
        let acc = rows_fold(seen, rows.drop_last());
        match row_plan(rows.last()) {
            None => acc,
            Some(p) => {
                let r = ingest_fold(acc.0, chunks(p.0), p.1);
                (r.0, acc.1 + made_nodes(r.1, p.1, p.2, FINEWEB_CONFIDENCE))
            },
        }
    }
}

/// One row is ingested on its own terms: a row too short to use adds nothing;
/// else its text is chunked, its fresh chunks are queued as nodes with the
/// row's domain and source, and their hashes join the seen set.
pub proof fn law_one_row_is_ingested(seen: Set<Seq<u8>>, r: HfRow)
    ensures
        rows_fold(seen, seq![r]) == (match row_plan(r) {
            None => (seen, Seq::<(Seq<char>, SephirotDomain, Seq<char>, u16)>::empty()),
            Some(p) => {
                let x = ingest_fold(seen, chunks(p.0), p.1);
                (x.0, made_nodes(x.1, p.1, p.2, FINEWEB_CONFIDENCE))
            },
        }),
{
    let rows = seq![r];
    assert(rows.drop_last() =~= Seq::<HfRow>::empty());
    assert(rows.last() == r);
    assert(rows_fold(seen, rows.drop_last()) == (seen, Seq::<(Seq<char>, SephirotDomain, Seq<char>, u16)>::empty()));
    if let Some(p) = row_plan(r) {
        let x = ingest_fold(seen, chunks(p.0), p.1);
        assert(Seq::<(Seq<char>, SephirotDomain, Seq<char>, u16)>::empty() + made_nodes(x.1, p.1, p.2, FINEWEB_CONFIDENCE)
            =~= made_nodes(x.1, p.1, p.2, FINEWEB_CONFIDENCE));
    }
}

/// Ingesting two pages of rows one after the other is ingesting them as one
/// page: every row of both is taken in order, the second page starting from
/// the hashes the first left seen, and its nodes queued after the first's.
pub proof fn law_pages_of_rows_compose(seen: Set<Seq<u8>>, a: Seq<HfRow>, b: Seq<HfRow>)
    ensures
        rows_fold(seen, a + b) == (
            rows_fold(rows_fold(seen, a).0, b).0,
            rows_fold(seen, a).1 + rows_fold(rows_fold(seen, a).0, b).1,
        ),
    decreases b.len(),
{
    let fa = rows_fold(seen, a);
    if b.len() == 0 {
        assert(a + b =~= a);
        assert(fa.1 + Seq::<(Seq<char>, SephirotDomain, Seq<char>, u16)>::empty() =~= fa.1);
    } else {
        let bd = b.drop_last();
        law_pages_of_rows_compose(seen, a, bd);
        assert((a + b).drop_last() =~= a + bd);
        assert((a + b).last() == b.last());
        let fb = rows_fold(fa.0, bd);
        if let Some(p) = row_plan(b.last()) {
            let x = ingest_fold(fb.0, chunks(p.0), p.1);
            let m = made_nodes(x.1, p.1, p.2, FINEWEB_CONFIDENCE);
            assert(fa.1 + fb.1 + m =~= fa.1 + (fb.1 + m));
        }
    }
}

fn prefixed_decimal_str(prefix: &str, n: u64) -> (s: String)
    ensures
        s@ == prefix@ + decimal(n as nat),
{
    prefixed_decimal(chars_of(prefix), n)
}

/// Chunks and queues the rows of one API page (see [`rows_fold`]).
pub fn ingest_rows(q: &mut SourceQueue<u64>, rows: &Vec<HfRow>)
    requires
        old(q).wf(),
    ensures
        final(q).wf(),
        nodes_view(final(q).pending()) == nodes_view(old(q).pending()) + rows_fold(old(q).seen(), rows@).1,
        final(q).seen() == rows_fold(old(q).seen(), rows@).0,
        final(q).worklist() == old(q).worklist(),
        final(q).emitted() == old(q).emitted(),
{
    let ghost seen0 = q.seen();
    let ghost p0 = nodes_view(q.pending());
    let mut i: usize = 0;
    while i < rows.len()
        invariant
            i <= rows@.len(),
            q.wf(),
            seen0 == old(q).seen(),
            p0 == nodes_view(old(q).pending()),
            q.worklist() == old(q).worklist(),
            q.emitted() == old(q).emitted(),
            q.seen() == rows_fold(seen0, rows@.take(i as int)).0,
            nodes_view(q.pending()) == p0 + rows_fold(seen0, rows@.take(i as int)).1,
        decreases rows@.len() - i,
    {
        proof {
            assert(rows@.take(i + 1).drop_last() =~= rows@.take(i as int));
            assert(rows@.take(i + 1).last() == rows@[i as int]);
        }
        let row = &rows[i];
        let text = match &row.text {
            Some(x) => x.clone(),
            None => String::new(),
        };
        let tc = chars_of(text.as_str());
        let (a, b) = trim_bounds(&tc, 0, tc.len());
        let n = utf8_len_range(&tc, a, b);
        proof {
            assert(tc@.subrange(0, tc@.len() as int) =~= tc@);
        }
        if n >= 80 {
            let key = match &row.url {
                Some(u) => u.clone(),
                None => prefixed_decimal_str("fineweb:", row.row_idx),
            };
            proof {
                reveal_strlit("fineweb:");
                assert("fineweb:"@ =~= seq!['f', 'i', 'n', 'e', 'w', 'e', 'b', ':']);
            }
            let domain = SephirotDomain::from_hash(key.as_str());
            let body = truncate_string(text.as_str(), ROW_MAX_CHARS);
            let source = prefixed_decimal_str("huggingface-fineweb:", row.row_idx);
            let ghost before = nodes_view(q.pending());
            q.ingest_text(body.as_str(), domain, &source, FINEWEB_CONFIDENCE);
            proof {
                assert(nodes_view(q.pending()) =~= p0 + rows_fold(seen0, rows@.take(i + 1)).1);
            }
        }
        i = i + 1;
    }
    proof {
        assert(rows@.take(rows@.len() as int) =~= rows@);
    }
}

} // verus!
