use vstd::prelude::*;
use vstd::utf8::*;

verus! {

broadcast use vstd::seq_lib::group_seq_properties;

// ── Literal replacement (`str::replace`) ─────────────────────────────

/// `cs` with every occurrence of `pat` replaced by `rep`, matching left to
/// right without overlap. An empty pattern leaves `cs` unchanged.
pub open spec fn replace_all(cs: Seq<char>, pat: Seq<char>, rep: Seq<char>) -> Seq<char>
    decreases cs.len(),
{
    if pat.len() == 0 || cs.len() < pat.len() {
        cs
    } else if cs.take(pat.len() as int) == pat {
        rep + replace_all(cs.skip(pat.len() as int), pat, rep)
    } else {
        seq![cs[0]] + replace_all(cs.drop_first(), pat, rep)
    }
}

/// Replacing one character by another changes the text character by
/// character: the length stays, each `x` becomes `y`, all else is kept.
pub proof fn law_replacing_a_character_maps_each_character(cs: Seq<char>, x: char, y: char)
    ensures
        replace_all(cs, seq![x], seq![y]).len() == cs.len(),
        forall|i: int| 0 <= i < cs.len() ==> #[trigger] replace_all(cs, seq![x], seq![y])[i] == (if cs[i] == x { y } else { cs[i] }),
    decreases cs.len(),
{
    if cs.len() > 0 {
        let rest = cs.drop_first();
        law_replacing_a_character_maps_each_character(rest, x, y);
        let r = replace_all(cs, seq![x], seq![y]);
        let rr = replace_all(rest, seq![x], seq![y]);
        if cs[0] == x {
            assert(cs.take(1) =~= seq![x]);
            assert(cs.skip(1) =~= rest);
            assert(r == seq![y] + rr);
        } else {
            assert(cs.take(1)[0] == cs[0]);
            assert(cs.take(1) != seq![x]);
            assert(r == seq![cs[0]] + rr);
        }
        assert forall|i: int| 0 <= i < cs.len() implies #[trigger] r[i] == (if cs[i] == x { y } else { cs[i] }) by {
            if i > 0 {
                assert(r[i] == rr[i - 1]);
                assert(rest[i - 1] == cs[i]);
            }
        }
    }
}

/// Whether `pat` occurs in `cs` at position `i`.
pub open spec fn matches_at<A>(cs: Seq<A>, pat: Seq<A>, i: int) -> bool {
    0 <= i && i + pat.len() <= cs.len() && cs.subrange(i, i + pat.len()) == pat
}

/// Whether `pat` occurs at position `i` of `cs`.
pub fn matches_at_exec(cs: &Vec<char>, pat: &Vec<char>, i: usize) -> (r: bool)
    ensures
        r == matches_at(cs@, pat@, i as int),
{
    if i > cs.len() || pat.len() > cs.len() - i {
        return false;
    }
    let mut j: usize = 0;
    while j < pat.len()
        invariant
            i + pat@.len() <= cs.len(),
            j <= pat@.len(),
            forall|q: int| 0 <= q < j ==> cs@[i + q] == pat@[q],
        decreases pat@.len() - j,
    {
        if cs[i + j] != pat[j] {
            proof {
                assert(cs@.subrange(i as int, i + pat@.len())[j as int] != pat@[j as int]);
            }
            return false;
        }
        j = j + 1;
    }
    proof {
        assert(cs@.subrange(i as int, i + pat@.len()) =~= pat@);
    }
    true
}

/// Replaces every occurrence of `pat` in `cs` by `rep` (see [`replace_all`]).
pub fn replace_chars(cs: &Vec<char>, pat: &Vec<char>, rep: &Vec<char>) -> (out: Vec<char>)
    requires
        pat@.len() > 0,
    ensures
        out@ == replace_all(cs@, pat@, rep@),
{
    let mut out: Vec<char> = Vec::new();
    let mut i: usize = 0;
    proof {
        assert(cs@.skip(0) =~= cs@);
    }
    while i < cs.len()
        invariant
            pat@.len() > 0,
            i <= cs@.len(),
            replace_all(cs@, pat@, rep@) == out@ + replace_all(cs@.skip(i as int), pat@, rep@),
        decreases cs@.len() - i,
    {
        let ghost rest = cs@.skip(i as int);
        if matches_at_exec(cs, pat, i) {
            proof {
                assert(rest.take(pat@.len() as int) =~= cs@.subrange(i as int, i + pat@.len()));
                assert(rest.skip(pat@.len() as int) =~= cs@.skip(i + pat@.len()));
            }
            let mut k: usize = 0;
            let ghost out0 = out@;
            while k < rep.len()
                invariant
                    k <= rep@.len(),
                    out@ == out0 + rep@.take(k as int),
                decreases rep@.len() - k,
            {
                out.push(rep[k]);
                proof {
                    assert(out@ =~= out0 + rep@.take(k + 1));
                }
                k = k + 1;
            }
            proof {
                assert(rep@.take(rep@.len() as int) =~= rep@);
                assert(out0 + (rep@ + replace_all(rest.skip(pat@.len() as int), pat@, rep@)) =~= out@
                    + replace_all(rest.skip(pat@.len() as int), pat@, rep@));
            }
            i = i + pat.len();
        } else {
            proof {
                if rest.len() >= pat@.len() {
                    assert(rest.take(pat@.len() as int) =~= cs@.subrange(i as int, i + pat@.len()));
                }
                assert(rest.drop_first() =~= cs@.skip(i + 1));
                assert(rest[0] == cs@[i as int]);
                assert(replace_all(rest, pat@, rep@) == seq![cs@[i as int]] + replace_all(cs@.skip(i + 1), pat@, rep@));
            }
            let ghost out0 = out@;
            out.push(cs[i]);
            proof {
                assert(out0 + (seq![cs@[i as int]] + replace_all(cs@.skip(i + 1), pat@, rep@)) =~= out@
                    + replace_all(cs@.skip(i + 1), pat@, rep@));
            }
            i = i + 1;
        }
    }
    proof {
        assert(cs@.skip(i as int) =~= Seq::<char>::empty());
        assert(out@ + Seq::<char>::empty() =~= out@);
    }
    out
}

// ── Prefix / substring tests ─────────────────────────────────────────

/// Whether `cs` begins with `pat`.
pub open spec fn has_prefix(cs: Seq<char>, pat: Seq<char>) -> bool {
    pat.len() <= cs.len() && cs.take(pat.len() as int) == pat
}

/// Whether `pat` occurs somewhere in `cs`.
pub open spec fn has_infix(cs: Seq<char>, pat: Seq<char>) -> bool {
    exists|i: int| matches_at(cs, pat, i)
}

/// `str::starts_with`.
pub fn starts_with_chars(cs: &Vec<char>, pat: &Vec<char>) -> (r: bool)
    ensures
        r == has_prefix(cs@, pat@),
{
    let r = matches_at_exec(cs, pat, 0);
    proof {
        if pat@.len() <= cs@.len() {
            assert(cs@.take(pat@.len() as int) =~= cs@.subrange(0, pat@.len() as int));
        }
    }
    r
}

/// `str::contains` for a string pattern.
pub fn contains_chars(cs: &Vec<char>, pat: &Vec<char>) -> (r: bool)
    ensures
        r == has_infix(cs@, pat@),
{
    if pat.len() > cs.len() {
        return false;
    }
    let last = cs.len() - pat.len();
    let mut i: usize = 0;
    loop
        invariant
            pat@.len() <= cs@.len(),
            last == cs@.len() - pat@.len(),
            i <= last,
            forall|q: int| 0 <= q < i ==> !matches_at(cs@, pat@, q),
        decreases last - i,
    {
        if matches_at_exec(cs, pat, i) {
            return true;
        }
        if i == last {
            proof {
                assert forall|q: int| #![auto] matches_at(cs@, pat@, q) implies false by {
                    if q > last as int {
                        assert(q + pat@.len() > cs@.len());
                    }
                }
            }
            return false;
        }
        i = i + 1;
    }
}

// ── Byte search (`str::find` on ASCII patterns) ──────────────────────

/// First position at or after `k` where `pat` occurs in `bs`.
pub open spec fn find_from(bs: Seq<u8>, pat: Seq<u8>, k: int) -> Option<int>
    decreases bs.len() + 1 - k,
{
    if k < 0 || k + pat.len() > bs.len() {
        None
    } else if matches_at(bs, pat, k) {
        Some(k)
    } else {
        find_from(bs, pat, k + 1)
    }
}

/// First position at or after `k` where `pat` occurs in `bs`.
pub fn find_bytes_from(bs: &[u8], pat: &[u8], k: usize) -> (r: Option<usize>)
    ensures
        r matches Some(i) ==> find_from(bs@, pat@, k as int) == Some(i as int),
        r is None ==> find_from(bs@, pat@, k as int) is None,
{
    let mut i = k;
    if pat.len() > bs.len() || i > bs.len() - pat.len() {
        return None;
    }
    let last = bs.len() - pat.len();
    loop
        invariant
            pat@.len() <= bs@.len(),
            last == bs@.len() - pat@.len(),
            k <= i <= last,
            find_from(bs@, pat@, k as int) == find_from(bs@, pat@, i as int),
        decreases last - i,
    {
        let mut j: usize = 0;
        let mut ok = true;
        while j < pat.len()
            invariant
                i + pat@.len() <= bs.len(),
                j <= pat@.len(),
                ok ==> forall|q: int| 0 <= q < j ==> bs@[i + q] == pat@[q],
                !ok ==> !matches_at(bs@, pat@, i as int),
            decreases pat@.len() - j,
        {
            if ok && bs[i + j] != pat[j] {
                ok = false;
                proof {
                    assert(bs@.subrange(i as int, i + pat@.len())[j as int] != pat@[j as int]);
                }
            }
            j = j + 1;
        }
        if ok {
            proof {
                assert(bs@.subrange(i as int, i + pat@.len()) =~= pat@);
            }
            return Some(i);
        }
        if i == last {
            proof {
                assert(find_from(bs@, pat@, i + 1) is None);
            }
            return None;
        }
        i = i + 1;
    }
}

/// In valid UTF-8, the position right after an ASCII byte is a character boundary.
pub proof fn lemma_boundary_after_ascii(bs: Seq<u8>, k: int)
    requires
        valid_utf8(bs),
        0 <= k < bs.len(),
        bs[k] < 0x80,
    ensures
        is_char_boundary(bs, k + 1),
{
    is_char_boundary_iff_is_leading_byte(bs, k);
    valid_utf8_split(bs, k);
    let suffix = bs.subrange(k, bs.len() as int);
    assert(suffix[0] == bs[k]);
    assert(valid_first_scalar(suffix));
    assert(length_of_first_scalar(suffix) == 1);
    let rest = pop_first_scalar(suffix);
    assert(valid_utf8(rest));
    if k + 1 == bs.len() {
        is_char_boundary_start_end_of_seq(bs);
    } else {
        assert(rest[0] == bs[k + 1]);
        assert(valid_first_scalar(rest));
        is_char_boundary_iff_not_is_continuation_byte(bs, k + 1);
    }
}

// ── Decimal numbers ──────────────────────────────────────────────────

/// The decimal digit character for `d < 10`.
pub open spec fn digit_char(d: nat) -> char {
    ((48 + d) as u32) as char
}

/// Decimal representation of `n`, without sign or leading zeros.
pub open spec fn decimal(n: nat) -> Seq<char>
    decreases n,
{
    if n < 10 {
        seq![digit_char(n)]
    } else {
        decimal(n / 10).push(digit_char(n % 10))
    }
}

/// Reading back a decimal representation gives the number.
pub proof fn lemma_decimal_value(n: nat)
    ensures
        digits_value(decimal(n)) == n,
        decimal(n).len() > 0,
    decreases n,
{
    if n < 10 {
        let d = decimal(n);
        assert(d.drop_last() =~= Seq::<char>::empty());
        assert(d.last() == digit_char(n));
        assert(digit_char(n) as u32 == 48 + n);
        assert(digits_value(d) == digits_value(d.drop_last()) * 10 + ((d.last() as u32) - 48) as nat);
    } else {
        let d = decimal(n);
        lemma_decimal_value(n / 10);
        assert(d.drop_last() =~= decimal(n / 10));
        assert(d.last() == digit_char(n % 10));
        assert(digit_char(n % 10) as u32 == 48 + n % 10);
        assert(digits_value(d) == digits_value(d.drop_last()) * 10 + ((d.last() as u32) - 48) as nat);
        assert((n / 10) * 10 + n % 10 == n) by (nonlinear_arith);
    }
}

/// Distinct numbers have distinct decimal representations.
pub proof fn lemma_decimal_injective(a: nat, b: nat)
    requires
        decimal(a) == decimal(b),
    ensures
        a == b,
{
    lemma_decimal_value(a);
    lemma_decimal_value(b);
}

/// Decimal representation of `n` (`u64::to_string`).
pub fn decimal_chars(n: u64) -> (out: Vec<char>)
    ensures
        out@ == decimal(n as nat),
{
    let mut digits: Vec<char> = Vec::new();
    let mut m = n;
    // digits holds the low-order digits, least significant first.
    while m >= 10
        invariant
            decimal(n as nat) == decimal(m as nat) + digits@.reverse(),
        decreases m,
    {
        let d = (m % 10) as u32;
        let c = char_from_digit(d);
        proof {
            assert(decimal(m as nat) == decimal((m / 10) as nat).push(digit_char((m % 10) as nat)));
            assert(digits@.push(c).reverse() =~= seq![c] + digits@.reverse());
            assert(decimal((m / 10) as nat).push(c) + digits@.reverse() =~= decimal((m / 10) as nat) + (seq![c] + digits@.reverse()));
        }
        digits.push(c);
        m = m / 10;
    }
    let c = char_from_digit(m as u32);
    digits.push(c);
    proof {
        assert(digits@.reverse() =~= seq![c] + digits@.drop_last().reverse());
    }
    let mut out: Vec<char> = Vec::new();
    let mut i = digits.len();
    while i > 0
        invariant
            i <= digits@.len(),
            out@ == digits@.reverse().take((digits@.len() - i) as int),
        decreases i,
    {
        i = i - 1;
        out.push(digits[i]);
        proof {
            assert(out@ =~= digits@.reverse().take((digits@.len() - i) as int));
        }
    }
    proof {
        assert(digits@.reverse().take(digits@.len() as int) =~= digits@.reverse());
    }
    out
}

/// The character of a decimal digit.
pub fn char_from_digit(d: u32) -> (c: char)
    requires
        d < 10,
    ensures
        c == digit_char(d as nat),
{
    match d {
        0 => '0',
        1 => '1',
        2 => '2',
        3 => '3',
        4 => '4',
        5 => '5',
        6 => '6',
        7 => '7',
        8 => '8',
        _ => '9',
    }
}

/// Whether `c` is an ASCII decimal digit.
pub open spec fn is_digit(c: char) -> bool {
    '0' <= c && c <= '9'
}

/// The value of a run of decimal digits.
pub open spec fn digits_value(cs: Seq<char>) -> nat
    decreases cs.len(),
{
    if cs.len() == 0 {
        0
    } else {
        digits_value(cs.drop_last()) * 10 + ((cs.last() as u32) - 48) as nat
    }
}

/// Whether every character of `ds` is an ASCII digit.
pub open spec fn all_digits(ds: Seq<char>) -> bool {
    forall|i: int| 0 <= i < ds.len() ==> is_digit(#[trigger] ds[i])
}

/// `cs` without one leading `+`, if it has one.
pub open spec fn without_plus(cs: Seq<char>) -> Seq<char> {
    if cs.len() > 0 && cs[0] == '+' {
        cs.drop_first()
    } else {
        cs
    }
}

/// `u64::from_str`: an optional `+`, then one or more ASCII digits whose
/// value fits in a `u64`; anything else is rejected.
pub open spec fn parse_u64(cs: Seq<char>) -> Option<u64> {
    let ds = without_plus(cs);
    if ds.len() > 0 && all_digits(ds) && digits_value(ds) <= u64::MAX {
        Some(digits_value(ds) as u64)
    } else {
        None
    }
}

proof fn lemma_decimal_all_digits(n: nat)
    ensures
        all_digits(decimal(n)),
    decreases n,
{
    let d = decimal(n);
    if n < 10 {
        assert(digit_char(n) as u32 == 48 + n);
        assert(is_digit(d[0]));
    } else {
        lemma_decimal_all_digits(n / 10);
        assert(digit_char(n % 10) as u32 == 48 + n % 10);
        assert forall|i: int| 0 <= i < d.len() implies is_digit(#[trigger] d[i]) by {
            if i < d.len() - 1 {
                assert(d[i] == decimal(n / 10)[i]);
            }
        }
    }
}

/// Reading a number's decimal representation back as a `u64` gives the
/// number.
pub proof fn law_decimal_reads_back(n: u64)
    ensures
        parse_u64(decimal(n as nat)) == Some(n),
{
    let d = decimal(n as nat);
    lemma_decimal_value(n as nat);
    lemma_decimal_all_digits(n as nat);
    assert(is_digit(d[0]));
    assert(without_plus(d) == d);
}

proof fn lemma_digit_step_bounds(v: nat, d: nat)
    requires
        d < 10,
    ensures
        v * 10 + d >= v,
        v <= (u64::MAX - d) / 10 ==> v * 10 + d <= u64::MAX,
        v > (u64::MAX - d) / 10 ==> v * 10 + d > u64::MAX,
{
    assert(v * 10 + d >= v) by (nonlinear_arith)
        requires
            d >= 0,
    ;
    assert(v <= (u64::MAX - d) / 10 ==> v * 10 + d <= u64::MAX) by (nonlinear_arith)
        requires
            d < 10,
    ;
    assert(v > (u64::MAX - d) / 10 ==> v * 10 + d > u64::MAX) by (nonlinear_arith)
        requires
            d < 10,
    ;
}

/// Parses a decimal `u64` (see [`parse_u64`]).
pub fn parse_u64_chars(cs: &Vec<char>) -> (r: Option<u64>)
    ensures
        r == parse_u64(cs@),
{
    let ghost ds = without_plus(cs@);
    let start: usize = if cs.len() > 0 && cs[0] == '+' { 1 } else { 0 };
    proof {
        assert(ds =~= cs@.skip(start as int));
    }
    if start >= cs.len() {
        return None;
    }
    let mut v: u64 = 0;
    let mut i = start;
    let mut overflow = false;
    while i < cs.len()
        invariant
            start <= i <= cs@.len(),
            ds == cs@.skip(start as int),
            ds == without_plus(cs@),
            forall|q: int| start <= q < i ==> is_digit(#[trigger] cs@[q]),
            !overflow ==> v == digits_value(cs@.subrange(start as int, i as int)),
            overflow ==> digits_value(cs@.subrange(start as int, i as int)) > u64::MAX,
        decreases cs@.len() - i,
    {
        let c = cs[i];
        if !('0' <= c && c <= '9') {
            proof {
                assert(ds[i - start] == c);
                assert(!is_digit(ds[i - start]));
                assert(!all_digits(ds));
            }
            return None;
        }
        let d = (c as u32 - 48) as u64;
        proof {
            assert(cs@.subrange(start as int, i + 1).drop_last() =~= cs@.subrange(start as int, i as int));
            assert(cs@.subrange(start as int, i + 1).last() == c);
        }
        proof {
            lemma_digit_step_bounds(digits_value(cs@.subrange(start as int, i as int)), d as nat);
        }
        if !overflow {
            if v > (u64::MAX - d) / 10 {
                overflow = true;
            } else {
                v = v * 10 + d;
            }
        }
        i = i + 1;
    }
    proof {
        assert(cs@.subrange(start as int, cs@.len() as int) =~= ds);
        assert forall|q: int| 0 <= q < ds.len() implies is_digit(#[trigger] ds[q]) by {
            assert(ds[q] == cs@[q + start]);
        }
        assert(all_digits(ds));
    }
    if overflow {
        None
    } else {
        Some(v)
    }
}

} // verus!
