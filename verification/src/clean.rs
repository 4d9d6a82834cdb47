use vstd::prelude::*;
use crate::text::{trim, trim_str, chars_of, string_from_chars, collapse_whitespace, join_with, words, append_range};
use crate::strs::{replace_all, replace_chars};
use crate::html::{opt_view, regex_replace_all, regex_replace_all_result, regex_first_group, regex_first_group_result, regex_all_first_groups, regex_all_first_groups_result, strings_seq_view, opt_strings_view};

verus! {

pub const RE_SCRIPT: &'static str = r"(?is)<script[^>]*>.*?</script>";
pub const RE_STYLE: &'static str = r"(?is)<style[^>]*>.*?</style>";
pub const RE_NAV: &'static str = r"(?is)<nav[^>]*>.*?</nav>";
pub const RE_HEADER: &'static str = r"(?is)<header[^>]*>.*?</header>";
pub const RE_FOOTER: &'static str = r"(?is)<footer[^>]*>.*?</footer>";
pub const RE_ARTICLE: &'static str = r"(?is)<article[^>]*>(.*?)</article>";
pub const RE_TAG: &'static str = r"<[^>]+>";
pub const RE_WHITESPACE: &'static str = r"\s+";
pub const RE_REF: &'static str = r"\[\d+\]";
/// First `<title>` inside an `<entry>` of an Atom feed.
pub const RE_ENTRY_TITLE: &'static str = r"(?is)<entry>.*?<title[^>]*>(.*?)</title>";
/// First `<summary>` of an Atom feed.
pub const RE_SUMMARY: &'static str = r"(?is)<summary[^>]*>(.*?)</summary>";
/// An arXiv abstract link in an RSS `<link>` element; group 1 is the paper id.
pub const RE_RSS_LINK: &'static str = r"(?is)<link[^>]*>\s*https?://arxiv\.org/abs/([0-9]{4}\.[0-9]{4,6})(?:v\d+)?\s*</link>";

/// Applies a regex replacement to a text that may be missing.
pub open spec fn then_replace(o: Option<Seq<char>>, pattern: Seq<char>, replacement: Seq<char>) -> Option<Seq<char>> {
    match o {
        Some(h) => regex_replace_all_result(pattern, h, replacement),
        None => None,
    }
}

/// `headline`, a blank line, then `body`.
pub open spec fn with_headline(headline: Seq<char>, body: Seq<char>) -> Seq<char> {
    headline + seq!['\n', '\n'] + body
}

/// `headline`, a blank line, then `body`, as a string.
pub fn headline_join(headline: &Vec<char>, body: &Vec<char>) -> (s: String)
    ensures
        s@ == with_headline(headline@, body@),
{
    let mut all: Vec<char> = Vec::new();
    append_range(&mut all, headline, 0, headline.len());
    all.push('\n');
    all.push('\n');
    append_range(&mut all, body, 0, body.len());
    proof {
        assert(headline@.subrange(0, headline@.len() as int) =~= headline@);
        assert(body@.subrange(0, body@.len() as int) =~= body@);
        assert(all@ =~= with_headline(headline@, body@));
    }
    string_from_chars(all.as_slice())
}

/// The article text of a page: script, style, nav, header and footer blocks
/// removed; the `<article>` body kept when there is one; tags replaced by
/// spaces; whitespace runs collapsed; `[n]` reference marks removed.
pub open spec fn page_body(html: Seq<char>) -> Option<Seq<char>> {
    let cleaned = then_replace(
        then_replace(
            then_replace(
                then_replace(regex_replace_all_result(RE_SCRIPT@, html, ""@), RE_STYLE@, ""@),
                RE_NAV@,
                ""@,
            ),
            RE_HEADER@,
            ""@,
        ),
        RE_FOOTER@,
        ""@,
    );
    let body = match cleaned {
        None => None,
        Some(c) => match regex_first_group_result(RE_ARTICLE@, c) {
            None => None,
            Some(Some(g)) => Some(g),
            Some(None) => Some(c),
        },
    };
    then_replace(then_replace(then_replace(body, RE_TAG@, " "@), RE_WHITESPACE@, " "@), RE_REF@, ""@)
}

/// The cleaned article text of a page, headed by its slug with underscores
/// turned into spaces; `None` only when one of the fixed patterns fails to
/// compile.
pub open spec fn clean_page(html: Seq<char>, slug: Seq<char>) -> Option<Seq<char>> {
    match page_body(html) {
        None => None,
        Some(b) => Some(titled_article(b, slug)),
    }
}

/// An article body headed by its slug: the slug with underscores turned
/// into spaces, a blank line, then the body trimmed.
pub open spec fn titled_article(body: Seq<char>, slug: Seq<char>) -> Seq<char> {
    with_headline(replace_all(slug, seq!['_'], seq![' ']), trim(body))
}

/// Heads a cleaned article body with its slug (see [`titled_article`]).
pub fn title_article(body: &str, slug: &str) -> (s: String)
    ensures
        s@ == titled_article(body@, slug@),
{
    let trimmed = chars_of(trim_str(body).as_str());
    let slug_chars = chars_of(slug);
    let underscore = vec!['_'];
    let space = vec![' '];
    let headline = replace_chars(&slug_chars, &underscore, &space);
    proof {
        assert(underscore@ =~= seq!['_']);
        assert(space@ =~= seq![' ']);
    }
    headline_join(&headline, &trimmed)
}

fn replace_step(o: Option<String>, pattern: &str, replacement: &str) -> (r: Option<String>)
    ensures
        opt_view(r) == then_replace(opt_view(o), pattern@, replacement@),
{
    match o {
        Some(h) => regex_replace_all(pattern, h.as_str(), replacement),
        None => None,
    }
}

/// Strips an HTML page down to its article text (see [`clean_page`]).
pub fn extract_clean_text(html: &str, slug: &str) -> (r: Option<String>)
    ensures
        opt_view(r) == clean_page(html@, slug@),
{
    let s1 = regex_replace_all(RE_SCRIPT, html, "");
    let s2 = replace_step(s1, RE_STYLE, "");
    let s3 = replace_step(s2, RE_NAV, "");
    let s4 = replace_step(s3, RE_HEADER, "");
    let cleaned = replace_step(s4, RE_FOOTER, "");
    let body = match cleaned {
        None => None,
        Some(c) => match regex_first_group(RE_ARTICLE, c.as_str()) {
            None => None,
            Some(Some(g)) => Some(g),
            Some(None) => Some(c),
        },
    };
    let t1 = replace_step(body, RE_TAG, " ");
    let t2 = replace_step(t1, RE_WHITESPACE, " ");
    let t3 = replace_step(t2, RE_REF, "");
    match t3 {
        None => None,
        Some(b) => Some(title_article(b.as_str(), slug)),
    }
}


/// A page with its script, style, nav, header and footer blocks removed;
/// `None` when one of those patterns fails to compile.
pub open spec fn page_shell(html: Seq<char>) -> Option<Seq<char>> {
    then_replace(
        then_replace(
            then_replace(
                then_replace(regex_replace_all_result(RE_SCRIPT@, html, ""@), RE_STYLE@, ""@),
                RE_NAV@,
                ""@,
            ),
            RE_HEADER@,
            ""@,
        ),
        RE_FOOTER@,
        ""@,
    )
}

/// A text with its tags turned into spaces, its whitespace runs collapsed and
/// its `[n]` reference marks removed.
pub open spec fn markup_stripped(text: Seq<char>) -> Option<Seq<char>> {
    then_replace(then_replace(regex_replace_all_result(RE_TAG@, text, " "@), RE_WHITESPACE@, " "@), RE_REF@, ""@)
}

/// When the page holds an `<article>` element, its body is all that is kept:
/// the cleaned text is capture group 1 of the first article match, markup
/// stripped, headed by the slug; nothing outside the article reaches it.
pub proof fn law_article_body_is_all_that_is_kept(html: Seq<char>, slug: Seq<char>, shell: Seq<char>, article: Seq<char>)
    requires
        page_shell(html) == Some(shell),
        regex_first_group_result(RE_ARTICLE@, shell) == Some(Some(article)),
    ensures
        page_body(html) == markup_stripped(article),
        clean_page(html, slug) == (match markup_stripped(article) {
            Some(b) => Some(titled_article(b, slug)),
            None => None,
        }),
{
}

/// Without an `<article>` element, the whole page, its script, style, nav,
/// header and footer blocks removed, is what is markup stripped.
pub proof fn law_page_without_article_is_kept_whole(html: Seq<char>, shell: Seq<char>)
    requires
        page_shell(html) == Some(shell),
        regex_first_group_result(RE_ARTICLE@, shell) == Some(None::<Seq<char>>),
    ensures
        page_body(html) == markup_stripped(shell),
{
}

/// Two pages whose article elements have the same body give the same text,
/// whatever else the pages hold.
pub proof fn law_text_outside_article_does_not_matter(html1: Seq<char>, html2: Seq<char>, slug: Seq<char>, article: Seq<char>)
    requires
        page_shell(html1) matches Some(c1) && regex_first_group_result(RE_ARTICLE@, c1) == Some(Some(article)),
        page_shell(html2) matches Some(c2) && regex_first_group_result(RE_ARTICLE@, c2) == Some(Some(article)),
    ensures
        clean_page(html1, slug) == clean_page(html2, slug),
{
}

/// The six character entities decoded in question bodies, in the order they
/// are applied.
pub open spec fn decode_entities(cs: Seq<char>) -> Seq<char> {
    let s1 = replace_all(cs, seq!['&', 'a', 'm', 'p', ';'], seq!['&']);
    let s2 = replace_all(s1, seq!['&', 'l', 't', ';'], seq!['<']);
    let s3 = replace_all(s2, seq!['&', 'g', 't', ';'], seq!['>']);
    let s4 = replace_all(s3, seq!['&', 'q', 'u', 'o', 't', ';'], seq!['"']);
    let s5 = replace_all(s4, seq!['&', '#', '3', '9', ';'], seq!['\'']);
    replace_all(s5, seq!['&', 'n', 'b', 's', 'p', ';'], seq![' '])
}

/// `cs` holds no `c`.
pub open spec fn lacks(cs: Seq<char>, c: char) -> bool {
    forall|i: int| 0 <= i < cs.len() ==> cs[i] != c
}

/// A pattern that starts with `&` leaves a text without `&` unchanged.
proof fn lemma_replace_without_amp(cs: Seq<char>, pat: Seq<char>, rep: Seq<char>)
    requires
        pat.len() > 0,
        pat[0] == '&',
        lacks(cs, '&'),
    ensures
        replace_all(cs, pat, rep) == cs,
    decreases cs.len(),
{
    if cs.len() >= pat.len() {
        assert(cs.take(pat.len() as int)[0] == cs[0]);
        lemma_replace_without_amp(cs.drop_first(), pat, rep);
        assert(seq![cs[0]] + cs.drop_first() =~= cs);
    }
}

/// A pattern that starts with `&` passes over a leading stretch without `&`.
proof fn lemma_replace_skips_plain_prefix(a: Seq<char>, b: Seq<char>, pat: Seq<char>, rep: Seq<char>)
    requires
        pat.len() > 0,
        pat[0] == '&',
        lacks(a, '&'),
    ensures
        replace_all(a + b, pat, rep) == a + replace_all(b, pat, rep),
    decreases a.len(),
{
    if a.len() == 0 {
        assert(a + b =~= b);
        assert(a + replace_all(b, pat, rep) =~= replace_all(b, pat, rep));
    } else {
        let ab = a + b;
        if ab.len() < pat.len() {
            assert(replace_all(b, pat, rep) == b);
        } else {
            assert(ab.take(pat.len() as int)[0] == a[0]);
            assert(ab.drop_first() =~= a.drop_first() + b);
            lemma_replace_skips_plain_prefix(a.drop_first(), b, pat, rep);
            assert(seq![a[0]] + (a.drop_first() + replace_all(b, pat, rep)) =~= a + replace_all(b, pat, rep));
        }
    }
}

/// A pattern found at the head of a text is replaced there.
proof fn lemma_replace_at_head(pat: Seq<char>, b: Seq<char>, rep: Seq<char>)
    requires
        pat.len() > 0,
    ensures
        replace_all(pat + b, pat, rep) == rep + replace_all(b, pat, rep),
{
    let pb = pat + b;
    assert(pb.take(pat.len() as int) =~= pat);
    assert(pb.skip(pat.len() as int) =~= b);
}

/// An entity is left alone by the replacement of another entity that differs
/// from it in its second character.
proof fn lemma_other_entity_kept(e: Seq<char>, b: Seq<char>, pat: Seq<char>, rep: Seq<char>)
    requires
        e.len() >= 2,
        pat.len() >= 2,
        e[0] == '&',
        pat[0] == '&',
        e[1] != pat[1],
        lacks(e.drop_first(), '&'),
        lacks(b, '&'),
    ensures
        replace_all(e + b, pat, rep) == e + b,
{
    let eb = e + b;
    if eb.len() >= pat.len() {
        assert(eb.take(pat.len() as int)[1] == e[1]);
        assert(eb.drop_first() =~= e.drop_first() + b);
        lemma_replace_without_amp(e.drop_first() + b, pat, rep);
        assert(seq![eb[0]] + eb.drop_first() =~= eb);
    }
}

/// A lone `&` followed by text without `&` or `;` is left alone by the
/// replacement of an entity, which ends in `;`.
proof fn lemma_lone_amp_kept(b: Seq<char>, pat: Seq<char>, rep: Seq<char>)
    requires
        pat.len() >= 2,
        pat[0] == '&',
        pat[pat.len() - 1] == ';',
        lacks(b, '&'),
        lacks(b, ';'),
    ensures
        replace_all(seq!['&'] + b, pat, rep) == seq!['&'] + b,
{
    let ab = seq!['&'] + b;
    if ab.len() >= pat.len() {
        let n = pat.len() as int;
        assert(ab.take(n)[n - 1] == b[n - 2]);
        assert(ab.drop_first() =~= b);
        lemma_replace_without_amp(b, pat, rep);
        assert(seq![ab[0]] + b =~= ab);
    }
}

/// `a + e + b` is kept by an entity pattern that differs from `e` in its
/// second character.
proof fn lemma_step_keeps(a: Seq<char>, e: Seq<char>, b: Seq<char>, pat: Seq<char>, rep: Seq<char>)
    requires
        e.len() >= 2,
        pat.len() >= 2,
        e[0] == '&',
        pat[0] == '&',
        e[1] != pat[1],
        lacks(e.drop_first(), '&'),
        lacks(a, '&'),
        lacks(b, '&'),
    ensures
        replace_all(a + e + b, pat, rep) == a + e + b,
{
    assert(a + e + b =~= a + (e + b));
    lemma_replace_skips_plain_prefix(a, e + b, pat, rep);
    lemma_other_entity_kept(e, b, pat, rep);
}

/// `a + e + b` becomes `a + d + b` under the pattern `e`.
proof fn lemma_step_decodes(a: Seq<char>, e: Seq<char>, d: Seq<char>, b: Seq<char>)
    requires
        e.len() > 0,
        e[0] == '&',
        lacks(a, '&'),
        lacks(b, '&'),
    ensures
        replace_all(a + e + b, e, d) == a + d + b,
{
    assert(a + e + b =~= a + (e + b));
    lemma_replace_skips_plain_prefix(a, e + b, e, d);
    lemma_replace_at_head(e, b, d);
    lemma_replace_without_amp(b, e, d);
    assert(a + (d + b) =~= a + d + b);
}

/// A text without `&` is kept by every entity pattern.
proof fn lemma_step_plain(a: Seq<char>, d: Seq<char>, b: Seq<char>, pat: Seq<char>, rep: Seq<char>)
    requires
        pat.len() > 0,
        pat[0] == '&',
        lacks(a, '&'),
        lacks(d, '&'),
        lacks(b, '&'),
    ensures
        replace_all(a + d + b, pat, rep) == a + d + b,
{
    let s = a + d + b;
    assert forall|i: int| 0 <= i < s.len() implies s[i] != '&' by {
        if i < a.len() {
            assert(s[i] == a[i]);
        } else if i < a.len() + d.len() {
            assert(s[i] == d[i - a.len()]);
        } else {
            assert(s[i] == b[i - a.len() - d.len()]);
        }
    }
    lemma_replace_without_amp(s, pat, rep);
}

/// `a + "&" + b` is kept by an entity pattern when `b` holds no `&` and no `;`.
proof fn lemma_step_lone_amp(a: Seq<char>, b: Seq<char>, pat: Seq<char>, rep: Seq<char>)
    requires
        pat.len() >= 2,
        pat[0] == '&',
        pat[pat.len() - 1] == ';',
        lacks(a, '&'),
        lacks(b, '&'),
        lacks(b, ';'),
    ensures
        replace_all(a + seq!['&'] + b, pat, rep) == a + seq!['&'] + b,
{
    assert(a + seq!['&'] + b =~= a + (seq!['&'] + b));
    lemma_replace_skips_plain_prefix(a, seq!['&'] + b, pat, rep);
    lemma_lone_amp_kept(b, pat, rep);
}

/// Each of the six entities is decoded to its character: an entity standing
/// between two stretches of text that hold no other `&` becomes its
/// character, and the stretches are kept as they are. For `&amp;` the text
/// after it must also hold no `;`, since the `&` it gives could begin another
/// entity, which the later replacements then decode too. A text without `&`
/// is left unchanged.
pub proof fn law_each_entity_is_decoded(a: Seq<char>, b: Seq<char>)
    requires
        lacks(a, '&'),
        lacks(b, '&'),
    ensures
        decode_entities(a + b) == a + b,
        lacks(b, ';') ==> decode_entities(a + seq!['&', 'a', 'm', 'p', ';'] + b) == a + seq!['&'] + b,
        decode_entities(a + seq!['&', 'l', 't', ';'] + b) == a + seq!['<'] + b,
        decode_entities(a + seq!['&', 'g', 't', ';'] + b) == a + seq!['>'] + b,
        decode_entities(a + seq!['&', 'q', 'u', 'o', 't', ';'] + b) == a + seq!['"'] + b,
        decode_entities(a + seq!['&', '#', '3', '9', ';'] + b) == a + seq!['\''] + b,
        decode_entities(a + seq!['&', 'n', 'b', 's', 'p', ';'] + b) == a + seq![' '] + b,
{
    let p1 = seq!['&', 'a', 'm', 'p', ';'];
    let p2 = seq!['&', 'l', 't', ';'];
    let p3 = seq!['&', 'g', 't', ';'];
    let p4 = seq!['&', 'q', 'u', 'o', 't', ';'];
    let p5 = seq!['&', '#', '3', '9', ';'];
    let p6 = seq!['&', 'n', 'b', 's', 'p', ';'];
    let r1 = seq!['&'];
    let r2 = seq!['<'];
    let r3 = seq!['>'];
    let r4 = seq!['"'];
    let r5 = seq!['\''];
    let r6 = seq![' '];
    assert(p1.drop_first() =~= seq!['a', 'm', 'p', ';']);
    assert(p2.drop_first() =~= seq!['l', 't', ';']);
    assert(p3.drop_first() =~= seq!['g', 't', ';']);
    assert(p4.drop_first() =~= seq!['q', 'u', 'o', 't', ';']);
    assert(p5.drop_first() =~= seq!['#', '3', '9', ';']);
    assert(p6.drop_first() =~= seq!['n', 'b', 's', 'p', ';']);
    assert(lacks(p2.drop_first(), '&'));
    assert(lacks(p3.drop_first(), '&'));
    assert(lacks(p4.drop_first(), '&'));
    assert(lacks(p5.drop_first(), '&'));
    assert(lacks(p6.drop_first(), '&'));
    assert(lacks(r2, '&') && lacks(r3, '&') && lacks(r4, '&') && lacks(r5, '&') && lacks(r6, '&'));
    let e = Seq::<char>::empty();
    assert(lacks(e, '&'));
    assert(a + e + b =~= a + b);
    lemma_step_plain(a, e, b, p1, r1);
    lemma_step_plain(a, e, b, p2, r2);
    lemma_step_plain(a, e, b, p3, r3);
    lemma_step_plain(a, e, b, p4, r4);
    lemma_step_plain(a, e, b, p5, r5);
    lemma_step_plain(a, e, b, p6, r6);
    if lacks(b, ';') {
        lemma_step_decodes(a, p1, r1, b);
        lemma_step_lone_amp(a, b, p2, r2);
        lemma_step_lone_amp(a, b, p3, r3);
        lemma_step_lone_amp(a, b, p4, r4);
        lemma_step_lone_amp(a, b, p5, r5);
        lemma_step_lone_amp(a, b, p6, r6);
    }
    lemma_step_keeps(a, p2, b, p1, r1);
    lemma_step_decodes(a, p2, r2, b);
    lemma_step_plain(a, r2, b, p3, r3);
    lemma_step_plain(a, r2, b, p4, r4);
    lemma_step_plain(a, r2, b, p5, r5);
    lemma_step_plain(a, r2, b, p6, r6);
    lemma_step_keeps(a, p3, b, p1, r1);
    lemma_step_keeps(a, p3, b, p2, r2);
    lemma_step_decodes(a, p3, r3, b);
    lemma_step_plain(a, r3, b, p4, r4);
    lemma_step_plain(a, r3, b, p5, r5);
    lemma_step_plain(a, r3, b, p6, r6);
    lemma_step_keeps(a, p4, b, p1, r1);
    lemma_step_keeps(a, p4, b, p2, r2);
    lemma_step_keeps(a, p4, b, p3, r3);
    lemma_step_decodes(a, p4, r4, b);
    lemma_step_plain(a, r4, b, p5, r5);
    lemma_step_plain(a, r4, b, p6, r6);
    lemma_step_keeps(a, p5, b, p1, r1);
    lemma_step_keeps(a, p5, b, p2, r2);
    lemma_step_keeps(a, p5, b, p3, r3);
    lemma_step_keeps(a, p5, b, p4, r4);
    lemma_step_decodes(a, p5, r5, b);
    lemma_step_plain(a, r5, b, p6, r6);
    lemma_step_keeps(a, p6, b, p1, r1);
    lemma_step_keeps(a, p6, b, p2, r2);
    lemma_step_keeps(a, p6, b, p3, r3);
    lemma_step_keeps(a, p6, b, p4, r4);
    lemma_step_keeps(a, p6, b, p5, r5);
    lemma_step_decodes(a, p6, r6, b);
}

/// `&amp;` is decoded first, so an `&amp;` followed by the rest of another
/// entity gives that entity, which is then decoded too: `&amp;lt;` becomes
/// `<`, and likewise for the other four (between stretches without `&`).
pub proof fn law_escaped_entity_is_decoded_twice(a: Seq<char>, b: Seq<char>)
    requires
        lacks(a, '&'),
        lacks(b, '&'),
    ensures
        decode_entities(a + seq!['&', 'a', 'm', 'p', ';', 'l', 't', ';'] + b) == a + seq!['<'] + b,
        decode_entities(a + seq!['&', 'a', 'm', 'p', ';', 'g', 't', ';'] + b) == a + seq!['>'] + b,
        decode_entities(a + seq!['&', 'a', 'm', 'p', ';', 'q', 'u', 'o', 't', ';'] + b) == a + seq!['"'] + b,
        decode_entities(a + seq!['&', 'a', 'm', 'p', ';', '#', '3', '9', ';'] + b) == a + seq!['\''] + b,
        decode_entities(a + seq!['&', 'a', 'm', 'p', ';', 'n', 'b', 's', 'p', ';'] + b) == a + seq![' '] + b,
{
    let p1 = seq!['&', 'a', 'm', 'p', ';'];
    let r1 = seq!['&'];
    let p2 = seq!['&', 'l', 't', ';'];
    let p3 = seq!['&', 'g', 't', ';'];
    let p4 = seq!['&', 'q', 'u', 'o', 't', ';'];
    let p5 = seq!['&', '#', '3', '9', ';'];
    let p6 = seq!['&', 'n', 'b', 's', 'p', ';'];
    assert(p2.drop_first() =~= seq!['l', 't', ';']);
    assert(p3.drop_first() =~= seq!['g', 't', ';']);
    assert(p4.drop_first() =~= seq!['q', 'u', 'o', 't', ';']);
    assert(p5.drop_first() =~= seq!['#', '3', '9', ';']);
    assert(p6.drop_first() =~= seq!['n', 'b', 's', 'p', ';']);
    let es = seq![p2, p3, p4, p5, p6];
    assert forall|k: int| 0 <= k < 5 implies {
        let e = #[trigger] es[k];
        &&& lacks(e.drop_first(), '&')
        &&& replace_all(a + (p1 + e.drop_first()) + b, p1, r1) == a + e + b
    } by {
        let e = es[k];
        let tail = e.drop_first() + b;
        assert(lacks(e.drop_first(), '&'));
        assert forall|i: int| 0 <= i < tail.len() implies tail[i] != '&' by {
            if i < e.drop_first().len() {
                assert(tail[i] == e.drop_first()[i]);
            } else {
                assert(tail[i] == b[i - e.drop_first().len()]);
            }
        }
        assert(a + (p1 + e.drop_first()) + b =~= a + p1 + tail);
        lemma_step_decodes(a, p1, r1, tail);
        assert(a + r1 + tail =~= a + e + b);
    }
    assert(p1 + p2.drop_first() =~= seq!['&', 'a', 'm', 'p', ';', 'l', 't', ';']);
    assert(p1 + p3.drop_first() =~= seq!['&', 'a', 'm', 'p', ';', 'g', 't', ';']);
    assert(p1 + p4.drop_first() =~= seq!['&', 'a', 'm', 'p', ';', 'q', 'u', 'o', 't', ';']);
    assert(p1 + p5.drop_first() =~= seq!['&', 'a', 'm', 'p', ';', '#', '3', '9', ';']);
    assert(p1 + p6.drop_first() =~= seq!['&', 'a', 'm', 'p', ';', 'n', 'b', 's', 'p', ';']);
    assert(es[0] == p2 && es[1] == p3 && es[2] == p4 && es[3] == p5 && es[4] == p6);
    lemma_step_keeps(a, p2, b, p1, r1);
    lemma_step_keeps(a, p3, b, p1, r1);
    lemma_step_keeps(a, p4, b, p1, r1);
    lemma_step_keeps(a, p5, b, p1, r1);
    lemma_step_keeps(a, p6, b, p1, r1);
    law_each_entity_is_decoded(a, b);
}

/// Plain text of an HTML fragment: tags become spaces, a few entities are
/// decoded, whitespace runs collapse to one space, ends are trimmed. `None`
/// only when one of the fixed patterns fails to compile.
pub open spec fn plain_text(html: Seq<char>) -> Option<Seq<char>> {
    match regex_replace_all_result(RE_TAG@, html, " "@) {
        None => None,
        Some(no_tags) => match regex_replace_all_result(RE_WHITESPACE@, decode_entities(no_tags), " "@) {
            None => None,
            Some(c) => Some(trim(c)),
        },
    }
}

fn replace_lit(cs: &Vec<char>, pat: Vec<char>, rep: Vec<char>) -> (out: Vec<char>)
    requires
        pat@.len() > 0,
    ensures
        out@ == replace_all(cs@, pat@, rep@),
{
    replace_chars(cs, &pat, &rep)
}

/// Decodes the entities of [`decode_entities`].
pub fn decode_entities_exec(cs: &Vec<char>) -> (out: Vec<char>)
    ensures
        out@ == decode_entities(cs@),
{
    let p1 = vec!['&', 'a', 'm', 'p', ';'];
    let r1 = vec!['&'];
    let p2 = vec!['&', 'l', 't', ';'];
    let r2 = vec!['<'];
    let p3 = vec!['&', 'g', 't', ';'];
    let r3 = vec!['>'];
    let p4 = vec!['&', 'q', 'u', 'o', 't', ';'];
    let r4 = vec!['"'];
    let p5 = vec!['&', '#', '3', '9', ';'];
    let r5 = vec!['\''];
    let p6 = vec!['&', 'n', 'b', 's', 'p', ';'];
    let r6 = vec![' '];
    proof {
        assert(p1@ =~= seq!['&', 'a', 'm', 'p', ';']);
        assert(r1@ =~= seq!['&']);
        assert(p2@ =~= seq!['&', 'l', 't', ';']);
        assert(r2@ =~= seq!['<']);
        assert(p3@ =~= seq!['&', 'g', 't', ';']);
        assert(r3@ =~= seq!['>']);
        assert(p4@ =~= seq!['&', 'q', 'u', 'o', 't', ';']);
        assert(r4@ =~= seq!['"']);
        assert(p5@ =~= seq!['&', '#', '3', '9', ';']);
        assert(r5@ =~= seq!['\'']);
        assert(p6@ =~= seq!['&', 'n', 'b', 's', 'p', ';']);
        assert(r6@ =~= seq![' ']);
    }
    let s1 = replace_lit(cs, p1, r1);
    let s2 = replace_lit(&s1, p2, r2);
    let s3 = replace_lit(&s2, p3, r3);
    let s4 = replace_lit(&s3, p4, r4);
    let s5 = replace_lit(&s4, p5, r5);
    replace_lit(&s5, p6, r6)
}

/// Lightweight HTML to plain text (see [`plain_text`]).
pub fn strip_html(html: &str) -> (r: Option<String>)
    ensures
        opt_view(r) == plain_text(html@),
{
    match regex_replace_all(RE_TAG, html, " ") {
        None => None,
        Some(no_tags) => {
            let decoded = decode_entities_exec(&chars_of(no_tags.as_str()));
            let decoded_str = string_from_chars(decoded.as_slice());
            match regex_replace_all(RE_WHITESPACE, decoded_str.as_str(), " ") {
                None => None,
                Some(c) => Some(trim_str(c.as_str())),
            }
        },
    }
}

/// Trimmed capture group 1 of the first match of `pattern`, if any.
pub open spec fn first_group_trimmed(haystack: Seq<char>, pattern: Seq<char>) -> Option<Seq<char>> {
    match regex_first_group_result(pattern, haystack) {
        Some(Some(g)) => Some(trim(g)),
        _ => None,
    }
}

/// Capture group 1 of the first match of `pattern` in `haystack`, trimmed;
/// `None` when nothing matches (or the pattern does not compile).
pub fn first_match(haystack: &str, pattern: &str) -> (r: Option<String>)
    ensures
        opt_view(r) == first_group_trimmed(haystack@, pattern@),
{
    match regex_first_group(pattern, haystack) {
        Some(Some(g)) => Some(trim_str(g.as_str())),
        _ => None,
    }
}

/// An abstract with line breaks turned into spaces and every whitespace run
/// collapsed into one space, ends trimmed.
pub open spec fn normalized_summary(cs: Seq<char>) -> Seq<char> {
    join_with(words(replace_all(cs, seq!['\n'], seq![' '])), seq![' '])
}

/// arXiv summaries wrap lines; normalizes whitespace before chunking.
pub fn normalize_arxiv_summary(s: String) -> (r: String)
    ensures
        r@ == normalized_summary(s@),
{
    let cs = chars_of(s.as_str());
    let nl = vec!['\n'];
    let sp = vec![' '];
    proof {
        assert(nl@ =~= seq!['\n']);
        assert(sp@ =~= seq![' ']);
    }
    let replaced = replace_chars(&cs, &nl, &sp);
    let collapsed = collapse_whitespace(&replaced);
    string_from_chars(collapsed.as_slice())
}

/// The present entries of `s`, with later repeats removed and first
/// occurrences kept in order.
pub open spec fn present_once(s: Seq<Option<Seq<char>>>) -> Seq<Seq<char>>
    decreases s.len(),
{
    if s.len() == 0 {
        seq![]
    } else {
        let d = present_once(s.drop_last());
        match s.last() {
            None => d,
            Some(x) => if d.contains(x) {
                d
            } else {
                d.push(x)
            },
        }
    }
}

/// Every present entry is kept once, at its first appearance, in order: the
/// result lists distinct values; each is present in `s`, at a position with
/// no earlier occurrence of it, and those positions increase along the
/// result; every present entry of `s` is in the result.
pub proof fn law_present_once_keeps_first_occurrences(s: Seq<Option<Seq<char>>>) -> (at: Seq<int>)
    ensures
        at.len() == present_once(s).len(),
        forall|i: int| 0 <= i < at.len() ==> {
            &&& 0 <= #[trigger] at[i] < s.len()
            &&& s[at[i]] == Some(present_once(s)[i])
            &&& forall|q: int| 0 <= q < at[i] ==> s[q] != Some(present_once(s)[i])
        },
        forall|i: int, j: int| 0 <= i < j < at.len() ==> #[trigger] at[i] < #[trigger] at[j],
        forall|i: int, j: int| 0 <= i < j < present_once(s).len() ==> #[trigger] present_once(s)[i] != #[trigger] present_once(s)[j],
        forall|q: int| 0 <= q < s.len() ==> (#[trigger] s[q] matches Some(x) ==> present_once(s).contains(x)),
    decreases s.len(),
{
    if s.len() == 0 {
        Seq::<int>::empty()
    } else {
        let prev = s.drop_last();
        let d = present_once(prev);
        let ad = law_present_once_keeps_first_occurrences(prev);
        let n = s.len() - 1;
        assert forall|q: int| 0 <= q < n implies #[trigger] s[q] == prev[q] by {}
        let r = present_once(s);
        match s.last() {
            None => {
                assert(r == d);
                assert forall|q: int| 0 <= q < s.len() implies (#[trigger] s[q] matches Some(x) ==> r.contains(x)) by {
                    if q < n {
                        assert(s[q] == prev[q]);
                    }
                }
                ad
            },
            Some(x) => {
                if d.contains(x) {
                    assert(r == d);
                    assert forall|q: int| 0 <= q < s.len() implies (#[trigger] s[q] matches Some(y) ==> r.contains(y)) by {
                        if q < n {
                            assert(s[q] == prev[q]);
                        }
                    }
                    ad
                } else {
                    assert(r == d.push(x));
                    let at = ad.push(n);
                    assert forall|q: int| 0 <= q < n implies s[q] != Some(x) by {
                        assert(s[q] == prev[q]);
                        if prev[q] == Some(x) {
                            assert(d.contains(x));
                        }
                    }
                    assert forall|i: int| 0 <= i < at.len() implies {
                        &&& 0 <= #[trigger] at[i] < s.len()
                        &&& s[at[i]] == Some(r[i])
                        &&& forall|q: int| 0 <= q < at[i] ==> s[q] != Some(r[i])
                    } by {
                        if i < ad.len() {
                            assert(at[i] == ad[i]);
                            assert(r[i] == d[i]);
                            assert forall|q: int| 0 <= q < at[i] implies s[q] != Some(r[i]) by {
                                assert(s[q] == prev[q]);
                            }
                        }
                    }
                    assert forall|i: int, j: int| 0 <= i < j < at.len() implies #[trigger] at[i] < #[trigger] at[j] by {
                        assert(at[i] == ad[i]);
                        if j < ad.len() {
                            assert(at[j] == ad[j]);
                        }
                    }
                    assert forall|i: int, j: int| 0 <= i < j < r.len() implies #[trigger] r[i] != #[trigger] r[j] by {
                        assert(r[i] == d[i]);
                        if j < d.len() {
                            assert(r[j] == d[j]);
                        } else {
                            assert(r[j] == x);
                        }
                    }
                    assert forall|q: int| 0 <= q < s.len() implies (#[trigger] s[q] matches Some(y) ==> r.contains(y)) by {
                        if q < n {
                            assert(s[q] == prev[q]);
                            if let Some(y) = s[q] {
                                assert(d.contains(y));
                                let w = choose|w: int| 0 <= w < d.len() && d[w] == y;
                                assert(r[w] == y);
                            }
                        } else {
                            assert(r[d.len() as int] == x);
                        }
                    }
                    at
                }
            },
        }
    }
}

/// Paper ids linked from an arXiv RSS feed, each once, in order of first
/// appearance; `None` only when the link pattern fails to compile.
pub open spec fn rss_paper_ids(body: Seq<char>) -> Option<Seq<Seq<char>>> {
    match regex_all_first_groups_result(RE_RSS_LINK@, body) {
        None => None,
        Some(groups) => Some(present_once(groups)),
    }
}

/// Extracts the paper ids from an arXiv RSS feed (see [`rss_paper_ids`]).
pub fn rss_ids(body: &str) -> (r: Option<Vec<String>>)
    ensures
        match r {
            None => rss_paper_ids(body@) is None,
            Some(v) => rss_paper_ids(body@) == Some(strings_seq_view(v@)),
        },
{
    let all = match regex_all_first_groups(RE_RSS_LINK, body) {
        None => return None,
        Some(v) => v,
    };
    let ghost groups = opt_strings_view(all@);
    let mut out: Vec<String> = Vec::new();
    let mut i: usize = 0;
    while i < all.len()
        invariant
            i <= all@.len(),
            groups == opt_strings_view(all@),
            strings_seq_view(out@) == present_once(groups.take(i as int)),
        decreases all@.len() - i,
    {
        proof {
            assert(groups.take(i + 1).drop_last() =~= groups.take(i as int));
            assert(groups.take(i + 1).last() == opt_view(all@[i as int]));
        }
        match &all[i] {
            None => {},
            Some(g) => {
                let mut seen = false;
                let mut j: usize = 0;
                while j < out.len()
                    invariant
                        j <= out@.len(),
                        seen == exists|q: int| 0 <= q < j && out@[q]@ == g@,
                    decreases out@.len() - j,
                {
                    if out[j] == *g {
                        seen = true;
                    }
                    j = j + 1;
                }
                proof {
                    let d = strings_seq_view(out@);
                    if seen {
                        let q = choose|q: int| 0 <= q < out@.len() && out@[q]@ == g@;
                        assert(d[q] == g@);
                        assert(d.contains(g@));
                    } else {
                        assert(!d.contains(g@));
                    }
                }
                if !seen {
                    let ghost before = out@;
                    out.push(g.clone());
                    proof {
                        assert(strings_seq_view(out@) =~= strings_seq_view(before).push(g@));
                    }
                }
            },
        }
        i = i + 1;
    }
    proof {
        assert(groups.take(all@.len() as int) =~= groups);
    }
    Some(out)
}

} // verus!
