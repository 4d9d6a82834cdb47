use vstd::prelude::*;
use vstd::utf8::*;

verus! {

broadcast use vstd::seq_lib::group_seq_properties;

/// Characters with the Unicode `White_Space` property (PropList.txt).
pub open spec fn is_unicode_whitespace(c: char) -> bool {
    let u = c as u32;
    ||| (0x09 <= u && u <= 0x0D)
    ||| u == 0x20
    ||| u == 0x85
    ||| u == 0xA0
    ||| u == 0x1680
    ||| (0x2000 <= u && u <= 0x200A)
    ||| u == 0x2028
    ||| u == 0x2029
    ||| u == 0x202F
    ||| u == 0x205F
    ||| u == 0x3000
}

/// Whether a character has the Unicode `White_Space` property, the
/// definition `char::is_whitespace` documents.
pub fn is_whitespace(c: char) -> (r: bool)
    ensures
        r == is_unicode_whitespace(c),
{
    let u = c as u32;
    (0x09 <= u && u <= 0x0D) || u == 0x20 || u == 0x85 || u == 0xA0 || u == 0x1680 || (0x2000 <= u && u
        <= 0x200A) || u == 0x2028 || u == 0x2029 || u == 0x202F || u == 0x205F || u == 0x3000
}

/// Collecting characters into a `String` (`FromIterator<char>`): the string
/// holds exactly those characters, in order.
#[verifier::external_body]
pub(crate) fn string_from_chars(cs: &[char]) -> (s: String)
    ensures
        s@ == cs@,
{
    cs.iter().collect()
}

/// Number of bytes in the UTF-8 encoding of a character sequence.
pub open spec fn utf8_len(cs: Seq<char>) -> nat {
    encode_utf8(cs).len()
}

/// `n` capped at `usize::MAX`.
pub open spec fn cap_usize(n: nat) -> usize {
    if n <= usize::MAX {
        n as usize
    } else {
        usize::MAX
    }
}

/// Encoding distributes over concatenation.
pub proof fn lemma_encode_utf8_concat(a: Seq<char>, b: Seq<char>)
    ensures
        encode_utf8(a + b) == encode_utf8(a) + encode_utf8(b),
    decreases a.len(),
{
    if a.len() == 0 {
        assert(a + b =~= b);
    } else {
        assert((a + b).drop_first() =~= a.drop_first() + b);
        lemma_encode_utf8_concat(a.drop_first(), b);
        assert((a + b)[0] == a[0]);
    }
}

/// Encoding of a single character.
pub proof fn lemma_encode_utf8_single(c: char)
    ensures
        encode_utf8(seq![c]) == encode_scalar(c as u32),
{
    assert(seq![c].drop_first() =~= Seq::<char>::empty());
    assert(encode_utf8(Seq::<char>::empty()) =~= Seq::<u8>::empty());
    assert(encode_scalar(c as u32) + Seq::<u8>::empty() =~= encode_scalar(c as u32));
}

/// Byte length of a sequence extended by one character.
pub proof fn lemma_utf8_len_push(a: Seq<char>, c: char)
    ensures
        utf8_len(a.push(c)) == utf8_len(a) + encode_scalar(c as u32).len(),
{
    assert(a.push(c) =~= a + seq![c]);
    lemma_encode_utf8_concat(a, seq![c]);
    lemma_encode_utf8_single(c);
}

/// Byte length of a concatenation.
pub proof fn lemma_utf8_len_concat(a: Seq<char>, b: Seq<char>)
    ensures
        utf8_len(a + b) == utf8_len(a) + utf8_len(b),
{
    lemma_encode_utf8_concat(a, b);
}

/// Byte length is at least the number of characters.
pub proof fn lemma_utf8_len_ge(cs: Seq<char>)
    ensures
        utf8_len(cs) >= cs.len(),
        cs.len() > 0 ==> utf8_len(cs) > 0,
    decreases cs.len(),
{
    if cs.len() > 0 {
        lemma_utf8_len_ge(cs.drop_first());
    }
}

/// Number of UTF-8 bytes needed for one character.
pub fn char_utf8_width(c: char) -> (w: usize)
    ensures
        w == encode_scalar(c as u32).len(),
        1 <= w <= 4,
{
    let u = c as u32;
    if u <= 0x7F {
        1
    } else if u <= 0x7FF {
        2
    } else if u <= 0xFFFF {
        proof {
            assert(is_scalar(u)) by {
                broadcast use char_is_scalar;
            }
        }
        3
    } else {
        proof {
            assert(is_scalar(u)) by {
                broadcast use char_is_scalar;
            }
        }
        4
    }
}

/// UTF-8 byte length of `cs[a..b]`, capped at `usize::MAX`.
pub fn utf8_len_range(cs: &Vec<char>, a: usize, b: usize) -> (n: usize)
    requires
        a <= b <= cs@.len(),
    ensures
        n == cap_usize(utf8_len(cs@.subrange(a as int, b as int))),
{
    let mut n: usize = 0;
    let mut i = a;
    while i < b
        invariant
            a <= i <= b <= cs@.len(),
            n == cap_usize(utf8_len(cs@.subrange(a as int, i as int))),
        decreases b - i,
    {
        let w = char_utf8_width(cs[i]);
        proof {
            assert(cs@.subrange(a as int, i + 1) =~= cs@.subrange(a as int, i as int).push(cs@[i as int]));
            lemma_utf8_len_push(cs@.subrange(a as int, i as int), cs@[i as int]);
        }
        n = n.saturating_add(w);
        i = i + 1;
    }
    n
}

/// The characters `cs[a..b]` as a new vector.
pub fn copy_range(cs: &Vec<char>, a: usize, b: usize) -> (out: Vec<char>)
    requires
        a <= b <= cs@.len(),
    ensures
        out@ == cs@.subrange(a as int, b as int),
{
    let mut out: Vec<char> = Vec::new();
    let mut i = a;
    while i < b
        invariant
            a <= i <= b <= cs@.len(),
            out@ == cs@.subrange(a as int, i as int),
        decreases b - i,
    {
        out.push(cs[i]);
        proof {
            assert(out@ =~= cs@.subrange(a as int, i + 1));
        }
        i = i + 1;
    }
    out
}

/// Appends `cs[a..b]` to `out`.
pub fn append_range(out: &mut Vec<char>, cs: &Vec<char>, a: usize, b: usize)
    requires
        a <= b <= cs@.len(),
    ensures
        final(out)@ == old(out)@ + cs@.subrange(a as int, b as int),
{
    let mut i = a;
    while i < b
        invariant
            a <= i <= b <= cs@.len(),
            out@ == old(out)@ + cs@.subrange(a as int, i as int),
        decreases b - i,
    {
        out.push(cs[i]);
        proof {
            assert(out@ =~= old(out)@ + cs@.subrange(a as int, i + 1));
        }
        i = i + 1;
    }
}

/// The characters of a string slice, in order.
pub fn chars_of(s: &str) -> (v: Vec<char>)
    ensures
        v@ == s@,
{
    let mut v: Vec<char> = Vec::new();
    for c in it: s.chars()
        invariant
            v@.len() == it.index(),
            forall|i: int| 0 <= i < v@.len() ==> v@[i] == it.seq()[i],
    {
        v.push(c);
    }
    proof {
        broadcast use vstd::string::axiom_spec_iter;

        assert(v@ =~= s@);
    }
    v
}

/// `str::trim` on a string slice, as a new string.
pub fn trim_str(s: &str) -> (r: String)
    ensures
        r@ == trim(s@),
{
    let cs = chars_of(s);
    let (a, b) = trim_bounds(&cs, 0, cs.len());
    proof {
        assert(cs@.subrange(0, cs@.len() as int) =~= cs@);
    }
    let t = copy_range(&cs, a, b);
    string_from_chars(t.as_slice())
}

/// `cs` without its trailing occurrences of `c` (`str::trim_end_matches`
/// with a character).
pub open spec fn trim_end_char(cs: Seq<char>, c: char) -> Seq<char>
    decreases cs.len(),
{
    if cs.len() > 0 && cs.last() == c {
        trim_end_char(cs.drop_last(), c)
    } else {
        cs
    }
}

/// A service URL: `base` without its trailing slashes, then `path`.
pub fn endpoint_url(base: &str, path: &str) -> (s: String)
    ensures
        s@ == trim_end_char(base@, '/') + path@,
{
    let mut all = chars_of(base);
    while all.len() > 0 && all[all.len() - 1] == '/'
        invariant
            trim_end_char(all@, '/') == trim_end_char(base@, '/'),
        decreases all@.len(),
    {
        all.pop();
    }
    let p = chars_of(path);
    append_range(&mut all, &p, 0, p.len());
    proof {
        assert(p@.subrange(0, p@.len() as int) =~= p@);
    }
    string_from_chars(all.as_slice())
}

/// `a` followed by `b`, as a string.
pub fn concat_str(a: &str, b: &str) -> (s: String)
    ensures
        s@ == a@ + b@,
{
    let mut all = chars_of(a);
    let bc = chars_of(b);
    let ghost a0 = all@;
    append_range(&mut all, &bc, 0, bc.len());
    proof {
        assert(bc@.subrange(0, bc@.len() as int) =~= bc@);
    }
    string_from_chars(all.as_slice())
}

// ── Words (`str::split_whitespace`) and joining ─────────────────────

/// First position at or after `k` holding a non-whitespace character.
pub open spec fn skip_ws(cs: Seq<char>, k: int) -> int
    decreases cs.len() - k,
{
    if 0 <= k < cs.len() && is_unicode_whitespace(cs[k]) {
        skip_ws(cs, k + 1)
    } else {
        k
    }
}

/// First position at or after `k` holding a whitespace character.
pub open spec fn word_end(cs: Seq<char>, k: int) -> int
    decreases cs.len() - k,
{
    if 0 <= k < cs.len() && !is_unicode_whitespace(cs[k]) {
        word_end(cs, k + 1)
    } else {
        k
    }
}

pub proof fn lemma_skip_ws_bounds(cs: Seq<char>, k: int)
    requires
        0 <= k <= cs.len(),
    ensures
        k <= skip_ws(cs, k) <= cs.len(),
        skip_ws(cs, k) < cs.len() ==> !is_unicode_whitespace(cs[skip_ws(cs, k)]),
    decreases cs.len() - k,
{
    if k < cs.len() && is_unicode_whitespace(cs[k]) {
        lemma_skip_ws_bounds(cs, k + 1);
    }
}

pub proof fn lemma_word_end_bounds(cs: Seq<char>, k: int)
    requires
        0 <= k <= cs.len(),
    ensures
        k <= word_end(cs, k) <= cs.len(),
        k < cs.len() && !is_unicode_whitespace(cs[k]) ==> k < word_end(cs, k),
    decreases cs.len() - k,
{
    if k < cs.len() && !is_unicode_whitespace(cs[k]) {
        lemma_word_end_bounds(cs, k + 1);
    }
}

/// The maximal runs of non-whitespace characters of `cs` from position `k` on.
pub open spec fn words_from(cs: Seq<char>, k: int) -> Seq<Seq<char>>
    decreases cs.len() - k,
{
    if k < 0 || k > cs.len() {
        seq![]
    } else {
        let a = skip_ws(cs, k);
        proof {
            lemma_skip_ws_bounds(cs, k);
        }
        if a >= cs.len() {
            seq![]
        } else {
            let b = word_end(cs, a);
            proof {
                lemma_word_end_bounds(cs, a);
            }
            seq![cs.subrange(a, b)] + words_from(cs, b)
        }
    }
}

/// The whitespace-separated words of `cs`.
pub open spec fn words(cs: Seq<char>) -> Seq<Seq<char>> {
    words_from(cs, 0)
}

proof fn lemma_skip_ws_all_ws(cs: Seq<char>, k: int)
    requires
        0 <= k <= cs.len(),
    ensures
        forall|j: int| k <= j < skip_ws(cs, k) ==> is_unicode_whitespace(#[trigger] cs[j]),
    decreases cs.len() - k,
{
    if k < cs.len() && is_unicode_whitespace(cs[k]) {
        lemma_skip_ws_all_ws(cs, k + 1);
    }
}

proof fn lemma_word_end_no_ws(cs: Seq<char>, k: int)
    requires
        0 <= k <= cs.len(),
    ensures
        forall|j: int| k <= j < word_end(cs, k) ==> !is_unicode_whitespace(#[trigger] cs[j]),
        word_end(cs, k) < cs.len() ==> is_unicode_whitespace(cs[word_end(cs, k)]),
    decreases cs.len() - k,
{
    if k < cs.len() && !is_unicode_whitespace(cs[k]) {
        lemma_word_end_no_ws(cs, k + 1);
    }
}

/// `sp` marks the maximal runs of non-whitespace characters of `cs` from
/// position `k` on, in order: each span holds no whitespace, has whitespace
/// (or `k`, or the end of the text) on both sides, the spans do not touch,
/// and every non-whitespace character from `k` on lies in one of them.
pub open spec fn word_spans_ok(cs: Seq<char>, k: int, sp: Seq<(int, int)>) -> bool {
    &&& forall|i: int| 0 <= i < sp.len() ==> {
        &&& k <= (#[trigger] sp[i]).0 < sp[i].1 <= cs.len()
        &&& forall|j: int| sp[i].0 <= j < sp[i].1 ==> !is_unicode_whitespace(#[trigger] cs[j])
        &&& sp[i].0 == k || is_unicode_whitespace(cs[sp[i].0 - 1])
        &&& sp[i].1 == cs.len() || is_unicode_whitespace(cs[sp[i].1])
    }
    &&& forall|i: int, l: int| 0 <= i < l < sp.len() ==> (#[trigger] sp[i]).1 < (#[trigger] sp[l]).0
    &&& forall|j: int| k <= j < cs.len() && !is_unicode_whitespace(cs[j])
        ==> exists|i: int| 0 <= i < sp.len() && (#[trigger] sp[i]).0 <= j < sp[i].1
}

proof fn lemma_words_from_spans(cs: Seq<char>, k: int) -> (sp: Seq<(int, int)>)
    requires
        0 <= k <= cs.len(),
    ensures
        sp.len() == words_from(cs, k).len(),
        forall|i: int| 0 <= i < sp.len() ==> #[trigger] words_from(cs, k)[i] == cs.subrange(sp[i].0, sp[i].1),
        word_spans_ok(cs, k, sp),
    decreases cs.len() - k,
{
    let a = skip_ws(cs, k);
    lemma_skip_ws_bounds(cs, k);
    lemma_skip_ws_all_ws(cs, k);
    if a >= cs.len() {
        assert forall|j: int| k <= j < cs.len() && !is_unicode_whitespace(cs[j])
            implies exists|i: int| 0 <= i < Seq::<(int, int)>::empty().len() && (#[trigger] Seq::<(int, int)>::empty()[i]).0 <= j < Seq::<(int, int)>::empty()[i].1 by {
            assert(is_unicode_whitespace(cs[j]));
        }
        Seq::<(int, int)>::empty()
    } else {
        let b = word_end(cs, a);
        lemma_word_end_bounds(cs, a);
        lemma_word_end_no_ws(cs, a);
        let rest = lemma_words_from_spans(cs, b);
        let ws = words_from(cs, k);
        assert(ws == seq![cs.subrange(a, b)] + words_from(cs, b));
        let sp = seq![(a, b)] + rest;
        assert forall|i: int| 0 <= i < sp.len() implies #[trigger] ws[i] == cs.subrange(sp[i].0, sp[i].1) by {
            if i > 0 {
                assert(sp[i] == rest[i - 1]);
                assert(ws[i] == words_from(cs, b)[i - 1]);
            }
        }
        assert forall|i: int| 0 <= i < sp.len() implies {
            &&& k <= (#[trigger] sp[i]).0 < sp[i].1 <= cs.len()
            &&& forall|j: int| sp[i].0 <= j < sp[i].1 ==> !is_unicode_whitespace(#[trigger] cs[j])
            &&& sp[i].0 == k || is_unicode_whitespace(cs[sp[i].0 - 1])
            &&& sp[i].1 == cs.len() || is_unicode_whitespace(cs[sp[i].1])
        } by {
            if i > 0 {
                assert(sp[i] == rest[i - 1]);
                if rest[i - 1].0 == b {
                    assert(is_unicode_whitespace(cs[b]) || b == cs.len());
                }
            } else {
                if a > k {
                    assert(is_unicode_whitespace(cs[a - 1]));
                }
            }
        }
        assert forall|i: int, l: int| 0 <= i < l < sp.len() implies (#[trigger] sp[i]).1 < (#[trigger] sp[l]).0 by {
            assert(sp[l] == rest[l - 1]);
            if i > 0 {
                assert(sp[i] == rest[i - 1]);
            } else {
                assert(rest[l - 1].0 >= b);
                if rest[l - 1].0 == b {
                    assert(b < cs.len());
                    assert(!is_unicode_whitespace(cs[b]));
                }
            }
        }
        assert forall|j: int| k <= j < cs.len() && !is_unicode_whitespace(cs[j])
            implies exists|i: int| 0 <= i < sp.len() && (#[trigger] sp[i]).0 <= j < sp[i].1 by {
            if j < a {
                assert(is_unicode_whitespace(cs[j]));
            } else if j < b {
                assert(sp[0] == (a, b));
            } else {
                let i = choose|i: int| 0 <= i < rest.len() && (#[trigger] rest[i]).0 <= j < rest[i].1;
                assert(sp[i + 1] == rest[i]);
            }
        }
        sp
    }
}

/// The words of a text are its maximal runs of non-whitespace characters, in
/// order: each word is the text between two spans of whitespace (or the ends
/// of the text), holds no whitespace, and every non-whitespace character of
/// the text lies in exactly one word.
pub proof fn law_words_are_maximal_runs(cs: Seq<char>) -> (sp: Seq<(int, int)>)
    ensures
        sp.len() == words(cs).len(),
        forall|i: int| 0 <= i < sp.len() ==> #[trigger] words(cs)[i] == cs.subrange(sp[i].0, sp[i].1),
        word_spans_ok(cs, 0, sp),
{
    lemma_words_from_spans(cs, 0)
}

/// The parts joined with `sep` between consecutive parts.
pub open spec fn join_with(parts: Seq<Seq<char>>, sep: Seq<char>) -> Seq<char>
    decreases parts.len(),
{
    if parts.len() == 0 {
        seq![]
    } else if parts.len() == 1 {
        parts[0]
    } else {
        join_with(parts.drop_last(), sep) + sep + parts.last()
    }
}

/// The views of a list of character vectors.
pub open spec fn char_vecs_view(v: Seq<Vec<char>>) -> Seq<Seq<char>> {
    v.map_values(|p: Vec<char>| p@)
}

/// Joins parts with `sep` between consecutive parts (`[T]::join`).
pub fn join_chars(parts: &Vec<Vec<char>>, sep: &Vec<char>) -> (out: Vec<char>)
    ensures
        out@ == join_with(char_vecs_view(parts@), sep@),
{
    let mut out: Vec<char> = Vec::new();
    let ghost views = char_vecs_view(parts@);
    let mut i: usize = 0;
    while i < parts.len()
        invariant
            i <= parts@.len(),
            views == char_vecs_view(parts@),
            out@ == join_with(views.take(i as int), sep@),
        decreases parts@.len() - i,
    {
        let ghost before = out@;
        if i > 0 {
            append_range(&mut out, sep, 0, sep.len());
        }
        append_range(&mut out, &parts[i], 0, parts[i].len());
        proof {
            assert(sep@.subrange(0, sep@.len() as int) =~= sep@);
            assert(parts@[i as int]@.subrange(0, parts@[i as int]@.len() as int) =~= views[i as int]);
            assert(views.take(i + 1).drop_last() =~= views.take(i as int));
            assert(views.take(i + 1).last() == views[i as int]);
            if i == 0 {
                assert(views.take(1) =~= seq![views[0]]);
                assert(out@ =~= views[0]);
            } else {
                assert(out@ =~= before + sep@ + views[i as int]);
            }
        }
        i = i + 1;
    }
    proof {
        assert(views.take(parts@.len() as int) =~= views);
    }
    out
}

/// Words of `cs` joined by single spaces: whitespace runs collapsed, ends trimmed.
pub fn collapse_whitespace(cs: &Vec<char>) -> (out: Vec<char>)
    ensures
        out@ == join_with(words(cs@), seq![' ']),
{
    let n = cs.len();
    let mut out: Vec<char> = Vec::new();
    let mut k: usize = 0;
    let ghost mut done: Seq<Seq<char>> = seq![];
    let mut any = false;
    while k < n
        invariant
            any == (done.len() > 0),
            n == cs@.len(),
            k <= n,
            words(cs@) == done + words_from(cs@, k as int),
            out@ == join_with(done, seq![' ']),
        ensures
            out@ == join_with(words(cs@), seq![' ']),
        decreases n - k,
    {
        let mut a = k;
        while a < n && is_whitespace(cs[a])
            invariant
                k <= a <= n,
                n == cs@.len(),
                skip_ws(cs@, k as int) == skip_ws(cs@, a as int),
            decreases n - a,
        {
            a = a + 1;
        }
        if a >= n {
            proof {
                lemma_skip_ws_bounds(cs@, k as int);
                assert(words_from(cs@, k as int) =~= Seq::<Seq<char>>::empty());
                assert(done + Seq::<Seq<char>>::empty() =~= done);
            }
            k = n;
            break;
        }
        let mut b = a;
        while b < n && !is_whitespace(cs[b])
            invariant
                a <= b <= n,
                n == cs@.len(),
                word_end(cs@, a as int) == word_end(cs@, b as int),
            decreases n - b,
        {
            b = b + 1;
        }
        proof {
            lemma_skip_ws_bounds(cs@, k as int);
            lemma_word_end_bounds(cs@, a as int);
        }
        let ghost w = cs@.subrange(a as int, b as int);
        let ghost out0 = out@;
        if any {
            out.push(' ');
        }
        append_range(&mut out, cs, a, b);
        any = true;
        proof {
            assert(words_from(cs@, k as int) == seq![w] + words_from(cs@, b as int));
            assert(done + (seq![w] + words_from(cs@, b as int)) =~= done.push(w) + words_from(cs@, b as int));
            assert(done.push(w).drop_last() =~= done);
            if done.len() > 0 {
                assert(out@ =~= join_with(done, seq![' ']) + seq![' '] + w);
            } else {
                assert(out@ =~= w);
            }
            done = done.push(w);
        }
        k = b;
        proof {
            if k >= n {
                assert(words_from(cs@, k as int) =~= Seq::<Seq<char>>::empty());
                assert(done + Seq::<Seq<char>>::empty() =~= done);
            }
        }
    }
    out
}

// ── Whitespace trimming ──────────────────────────────────────────────

/// `cs` without its leading whitespace characters.
pub open spec fn trim_start(cs: Seq<char>) -> Seq<char>
    decreases cs.len(),
{
    if cs.len() > 0 && is_unicode_whitespace(cs[0]) {
        trim_start(cs.drop_first())
    } else {
        cs
    }
}

/// `cs` without its trailing whitespace characters.
pub open spec fn trim_end(cs: Seq<char>) -> Seq<char>
    decreases cs.len(),
{
    if cs.len() > 0 && is_unicode_whitespace(cs.last()) {
        trim_end(cs.drop_last())
    } else {
        cs
    }
}

/// `cs` without leading and trailing whitespace (`str::trim`).
pub open spec fn trim(cs: Seq<char>) -> Seq<char> {
    trim_end(trim_start(cs))
}

proof fn lemma_trim_start_shape(x: Seq<char>)
    ensures
        trim_start(x).len() == 0 || !is_unicode_whitespace(trim_start(x)[0]),
    decreases x.len(),
{
    if x.len() > 0 && is_unicode_whitespace(x[0]) {
        lemma_trim_start_shape(x.drop_first());
    }
}

proof fn lemma_trim_end_shape(y: Seq<char>)
    ensures
        trim_end(y).len() <= y.len(),
        trim_end(y) == y.take(trim_end(y).len() as int),
        trim_end(y).len() == 0 || !is_unicode_whitespace(trim_end(y).last()),
    decreases y.len(),
{
    if y.len() > 0 && is_unicode_whitespace(y.last()) {
        lemma_trim_end_shape(y.drop_last());
        assert(y.drop_last().take(trim_end(y).len() as int) =~= y.take(trim_end(y).len() as int));
    } else {
        assert(y.take(y.len() as int) =~= y);
    }
}

/// Trimming twice trims no more than trimming once.
pub proof fn lemma_trim_idempotent(x: Seq<char>)
    ensures
        trim(trim(x)) == trim(x),
{
    let y = trim_start(x);
    let z = trim_end(y);
    lemma_trim_start_shape(x);
    lemma_trim_end_shape(y);
    if z.len() > 0 {
        assert(z[0] == y[0]);
    }
    assert(trim_start(z) == z);
    assert(trim_end(z) == z);
}

proof fn lemma_trim_start_skips(x: Seq<char>) -> (a: int)
    ensures
        0 <= a <= x.len(),
        trim_start(x) == x.skip(a),
        forall|j: int| 0 <= j < a ==> is_unicode_whitespace(#[trigger] x[j]),
    decreases x.len(),
{
    if x.len() > 0 && is_unicode_whitespace(x[0]) {
        let a1 = lemma_trim_start_skips(x.drop_first());
        assert(x.drop_first().skip(a1) =~= x.skip(a1 + 1));
        assert forall|j: int| 0 <= j < a1 + 1 implies is_unicode_whitespace(#[trigger] x[j]) by {
            if j > 0 {
                assert(x[j] == x.drop_first()[j - 1]);
            }
        }
        a1 + 1
    } else {
        assert(x.skip(0) =~= x);
        0
    }
}

proof fn lemma_trim_end_suffix(y: Seq<char>)
    ensures
        forall|j: int| trim_end(y).len() <= j < y.len() ==> is_unicode_whitespace(#[trigger] y[j]),
    decreases y.len(),
{
    lemma_trim_end_shape(y);
    if y.len() > 0 && is_unicode_whitespace(y.last()) {
        lemma_trim_end_suffix(y.drop_last());
        lemma_trim_end_shape(y.drop_last());
        assert forall|j: int| trim_end(y).len() <= j < y.len() implies is_unicode_whitespace(#[trigger] y[j]) by {
            if j < y.len() - 1 {
                assert(y[j] == y.drop_last()[j]);
            }
        }
    }
}

/// Trimming removes whitespace at the two ends and nothing else: the result
/// is the part of the text between a run of leading whitespace and a run of
/// trailing whitespace, and it is empty or begins and ends with a
/// non-whitespace character.
pub proof fn law_trim_removes_only_edge_whitespace(x: Seq<char>) -> (r: (int, int))
    ensures
        0 <= r.0 <= r.1 <= x.len(),
        trim(x) == x.subrange(r.0, r.1),
        forall|j: int| 0 <= j < r.0 ==> is_unicode_whitespace(#[trigger] x[j]),
        forall|j: int| r.1 <= j < x.len() ==> is_unicode_whitespace(#[trigger] x[j]),
        r.0 < r.1 ==> !is_unicode_whitespace(x[r.0]) && !is_unicode_whitespace(x[r.1 - 1]),
{
    let a = lemma_trim_start_skips(x);
    let y = trim_start(x);
    lemma_trim_start_shape(x);
    lemma_trim_end_shape(y);
    lemma_trim_end_suffix(y);
    let k = trim_end(y).len() as int;
    assert(trim(x) =~= x.subrange(a, a + k));
    assert forall|j: int| a + k <= j < x.len() implies is_unicode_whitespace(#[trigger] x[j]) by {
        assert(x[j] == y[j - a]);
    }
    if k > 0 {
        assert(trim(x)[0] == y[0]);
        assert(x[a] == y[0]);
        assert(x[a + k - 1] == trim(x).last());
    }
    (a, a + k)
}

/// Trimming never lengthens a sequence.
pub proof fn lemma_trim_utf8_len(cs: Seq<char>)
    ensures
        utf8_len(trim(cs)) <= utf8_len(cs),
        utf8_len(trim_start(cs)) <= utf8_len(cs),
{
    lemma_trim_start_utf8_len(cs);
    lemma_trim_end_utf8_len(trim_start(cs));
}

proof fn lemma_trim_start_utf8_len(cs: Seq<char>)
    ensures
        utf8_len(trim_start(cs)) <= utf8_len(cs),
    decreases cs.len(),
{
    if cs.len() > 0 && is_unicode_whitespace(cs[0]) {
        lemma_trim_start_utf8_len(cs.drop_first());
    }
}

proof fn lemma_trim_end_utf8_len(cs: Seq<char>)
    ensures
        utf8_len(trim_end(cs)) <= utf8_len(cs),
    decreases cs.len(),
{
    if cs.len() > 0 && is_unicode_whitespace(cs.last()) {
        lemma_trim_end_utf8_len(cs.drop_last());
        assert(cs =~= cs.drop_last().push(cs.last()));
        lemma_utf8_len_push(cs.drop_last(), cs.last());
    }
}

/// Bounds of the trimmed part of `cs[a..b]`.
pub fn trim_bounds(cs: &Vec<char>, a: usize, b: usize) -> (r: (usize, usize))
    requires
        a <= b <= cs@.len(),
    ensures
        a <= r.0 <= r.1 <= b,
        cs@.subrange(r.0 as int, r.1 as int) == trim(cs@.subrange(a as int, b as int)),
{
    let ghost sub = cs@.subrange(a as int, b as int);
    let mut s = a;
    while s < b && is_whitespace(cs[s])
        invariant
            a <= s <= b <= cs@.len(),
            sub == cs@.subrange(a as int, b as int),
            trim_start(sub) == trim_start(cs@.subrange(s as int, b as int)),
        decreases b - s,
    {
        proof {
            let t = cs@.subrange(s as int, b as int);
            assert(t.drop_first() =~= cs@.subrange(s + 1, b as int));
            assert(t[0] == cs@[s as int]);
        }
        s = s + 1;
    }
    proof {
        let t = cs@.subrange(s as int, b as int);
        if s < b {
            assert(t[0] == cs@[s as int]);
        }
        assert(trim_start(t) == t);
    }
    let mut e = b;
    while e > s && is_whitespace(cs[e - 1])
        invariant
            a <= s <= e <= b <= cs@.len(),
            trim(sub) == trim_end(cs@.subrange(s as int, e as int)),
        decreases e - s,
    {
        proof {
            let t = cs@.subrange(s as int, e as int);
            assert(t.drop_last() =~= cs@.subrange(s as int, e - 1));
            assert(t.last() == cs@[e - 1]);
        }
        e = e - 1;
    }
    proof {
        let t = cs@.subrange(s as int, e as int);
        if e > s {
            assert(t.last() == cs@[e - 1]);
        }
        assert(trim_end(t) == t);
    }
    (s, e)
}

} // verus!
