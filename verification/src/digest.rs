use vstd::prelude::*;

verus! {

/// The SHA-256 digest of a byte sequence.
pub uninterp spec fn sha256(data: Seq<u8>) -> Seq<u8>;

/// `sha2::Sha256::digest`: the 32-byte SHA-256 digest of `data`, a function
/// of `data` alone.
#[verifier::external_body]
pub(crate) fn sha256_digest(data: &[u8]) -> (h: [u8; 32])
    ensures
        h@ == sha256(data@),
{
    <sha2::Sha256 as sha2::Digest>::digest(data).into()
}

/// `256^n`.
pub open spec fn pow256(n: nat) -> nat
    decreases n,
{
    if n == 0 {
        1
    } else {
        256 * pow256((n - 1) as nat)
    }
}

/// The big-endian value of a byte sequence.
pub open spec fn be_value(s: Seq<u8>) -> nat
    decreases s.len(),
{
    if s.len() == 0 {
        0
    } else {
        be_value(s.drop_last()) * 256 + s.last() as nat
    }
}

pub proof fn lemma_be_value_bound(s: Seq<u8>)
    ensures
        be_value(s) < pow256(s.len()),
    decreases s.len(),
{
    if s.len() > 0 {
        lemma_be_value_bound(s.drop_last());
        let x = be_value(s.drop_last());
        let p = pow256((s.len() - 1) as nat);
        let r = s.last() as nat;
        assert(x * 256 + r < p * 256) by (nonlinear_arith)
            requires
                x < p,
                r < 256,
        ;
    }
}

proof fn lemma_div_mod_256(x: nat, r: nat)
    requires
        r < 256,
    ensures
        (x * 256 + r) % 256 == r,
        (x * 256 + r) / 256 == x,
{
    assert((x * 256 + r) % 256 == r && (x * 256 + r) / 256 == x) by (nonlinear_arith)
        requires
            r < 256,
    ;
}

/// Equal-length byte sequences with equal big-endian values are equal.
pub proof fn lemma_be_value_injective(a: Seq<u8>, b: Seq<u8>)
    requires
        a.len() == b.len(),
        be_value(a) == be_value(b),
    ensures
        a == b,
    decreases a.len(),
{
    if a.len() > 0 {
        lemma_div_mod_256(be_value(a.drop_last()), a.last() as nat);
        lemma_div_mod_256(be_value(b.drop_last()), b.last() as nat);
        lemma_be_value_injective(a.drop_last(), b.drop_last());
        assert(a =~= a.drop_last().push(a.last()));
        assert(b =~= b.drop_last().push(b.last()));
    }
}

/// The big-endian value of `bytes[a..b]`, for at most 16 bytes.
pub fn be_u128(bytes: &[u8], a: usize, b: usize) -> (v: u128)
    requires
        a <= b <= bytes@.len(),
        b - a <= 16,
    ensures
        v == be_value(bytes@.subrange(a as int, b as int)),
{
    proof {
        assert(pow256(16) == 0x1_0000_0000_0000_0000_0000_0000_0000_0000) by {
            reveal_with_fuel(pow256, 17);
        }
    }
    let mut v: u128 = 0;
    let mut i = a;
    while i < b
        invariant
            a <= i <= b <= bytes@.len(),
            b - a <= 16,
            pow256(16) == 0x1_0000_0000_0000_0000_0000_0000_0000_0000,
            v == be_value(bytes@.subrange(a as int, i as int)),
        decreases b - i,
    {
        let ghost prefix = bytes@.subrange(a as int, i as int);
        let ghost next = bytes@.subrange(a as int, i + 1);
        proof {
            assert(next.drop_last() =~= prefix);
            lemma_be_value_bound(next);
            lemma_pow256_mono((i + 1 - a) as nat, 16);
        }
        v = v * 256 + bytes[i] as u128;
        i = i + 1;
    }
    v
}

pub proof fn lemma_pow256_mono(m: nat, n: nat)
    requires
        m <= n,
    ensures
        pow256(m) <= pow256(n),
    decreases n,
{
    if m < n {
        lemma_pow256_mono(m, (n - 1) as nat);
    }
}

} // verus!
