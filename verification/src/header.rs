//! Reading the `Retry-After` header of an HTTP reply, given the header
//! value's raw bytes.

use vstd::prelude::*;
use crate::text::{trim, trim_bounds};
use crate::strs::{parse_u64, parse_u64_chars};

verus! {

/// Whether a header value reads as text: every byte is visible ASCII or a
/// tab (the condition under which `HeaderValue::to_str` succeeds).
pub open spec fn is_header_text(bs: Seq<u8>) -> bool {
    forall|i: int| 0 <= i < bs.len() ==> ((32 <= #[trigger] bs[i] && bs[i] < 127) || bs[i] == 9)
}

/// The characters of a header value read byte by byte.
pub open spec fn header_chars(bs: Seq<u8>) -> Seq<char> {
    bs.map_values(|b: u8| b as char)
}

fn header_char_vec(bs: &[u8]) -> (cs: Vec<char>)
    requires
        is_header_text(bs@),
    ensures
        cs@ == header_chars(bs@),
{
    let mut cs: Vec<char> = Vec::new();
    let mut i: usize = 0;
    while i < bs.len()
        invariant
            i <= bs@.len(),
            is_header_text(bs@),
            cs@ == header_chars(bs@.take(i as int)),
        decreases bs@.len() - i,
    {
        let b = bs[i];
        assert(bs@[i as int] == b);
        let c = b as char;
        cs.push(c);
        proof {
            assert(bs@.take(i + 1) =~= bs@.take(i as int).push(b));
            assert(header_chars(bs@.take(i + 1)) =~= header_chars(bs@.take(i as int)).push(b as char));
        }
        i = i + 1;
    }
    proof {
        assert(bs@.take(bs@.len() as int) =~= bs@);
    }
    cs
}

fn check_header_text(bs: &[u8]) -> (ok: bool)
    ensures
        ok == is_header_text(bs@),
{
    let mut i: usize = 0;
    while i < bs.len()
        invariant
            i <= bs@.len(),
            forall|j: int| 0 <= j < i ==> ((32 <= #[trigger] bs@[j] && bs@[j] < 127) || bs@[j] == 9),
        decreases bs@.len() - i,
    {
        let b = bs[i];
        if !((32 <= b && b < 127) || b == 9) {
            assert(!((32 <= bs@[i as int] && bs@[i as int] < 127) || bs@[i as int] == 9));
            return false;
        }
        i = i + 1;
    }
    true
}

/// `Retry-After` as whole seconds: the header's text, trimmed, read as a
/// decimal `u64`; `None` when the header is absent, not text, or not such a
/// number (the HTTP-date form among them).
pub open spec fn retry_after_secs(header: Option<Seq<u8>>) -> Option<u64> {
    match header {
        None => None,
        Some(bs) => if is_header_text(bs) {
            parse_u64(trim(header_chars(bs)))
        } else {
            None
        },
    }
}

/// The bytes of an optional header value.
pub open spec fn header_view(header: Option<&[u8]>) -> Option<Seq<u8>> {
    match header {
        Some(bs) => Some(bs@),
        None => None,
    }
}

/// The bytes of an optional header value held in a vector.
pub open spec fn opt_bytes(h: Option<Vec<u8>>) -> Option<Seq<u8>> {
    match h {
        Some(v) => Some(v@),
        None => None,
    }
}

/// Reads `Retry-After` as whole seconds (see [`retry_after_secs`]).
pub fn parse_retry_after_seconds(header: Option<&[u8]>) -> (r: Option<u64>)
    ensures
        r == retry_after_secs(header_view(header)),
{
    let bs = match header {
        Some(bs) => bs,
        None => return None,
    };
    if !check_header_text(bs) {
        return None;
    }
    let cs = header_char_vec(bs);
    let (a, b) = trim_bounds(&cs, 0, cs.len());
    let mut t: Vec<char> = Vec::new();
    let mut i = a;
    while i < b
        invariant
            a <= i <= b <= cs@.len(),
            t@ == cs@.subrange(a as int, i as int),
        decreases b - i,
    {
        t.push(cs[i]);
        proof {
            assert(t@ =~= cs@.subrange(a as int, i + 1));
        }
        i = i + 1;
    }
    proof {
        assert(cs@.subrange(0, cs@.len() as int) =~= cs@);
    }
    parse_u64_chars(&t)
}

/// How long a worker waits after a rate-limited submission, in seconds: the
/// header's text read as a decimal `u64` as it stands (untrimmed), or 5 when
/// the header is absent, not text, or not such a number.
pub open spec fn submit_retry_after_secs(header: Option<Seq<u8>>) -> u64 {
    match header {
        Some(bs) => if is_header_text(bs) {
            match parse_u64(header_chars(bs)) {
                Some(n) => n,
                None => 5,
            }
        } else {
            5
        },
        None => 5,
    }
}

/// Reads a submission's `Retry-After` (see [`submit_retry_after_secs`]).
pub fn submit_retry_after(header: Option<&[u8]>) -> (secs: u64)
    ensures
        secs == submit_retry_after_secs(header_view(header)),
{
    let bs = match header {
        Some(bs) => bs,
        None => return 5,
    };
    if !check_header_text(bs) {
        return 5;
    }
    let cs = header_char_vec(bs);
    match parse_u64_chars(&cs) {
        Some(n) => n,
        None => 5,
    }
}

} // verus!
