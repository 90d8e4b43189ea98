//! Little-endian byte encodings of unsigned numbers: what `to_le_bytes`
//! writes and `from_le_bytes` reads.
use vstd::prelude::*;

verus! {

/// `256^n`.
pub open spec fn pow256(n: nat) -> nat
    decreases n,
{
    if n == 0 {
        1
    } else {
        256 * pow256((n - 1) as nat)
    }
}

/// The number the little-endian bytes `b` encode.
pub open spec fn le_value(b: Seq<u8>) -> nat
    decreases b.len(),
{
    if b.len() == 0 {
        0
    } else {
        b[0] as nat + 256 * le_value(b.drop_first())
    }
}

/// The `len` low bytes of `n`, least significant first.
pub open spec fn le_bytes(n: nat, len: nat) -> Seq<u8>
    decreases len,
{
    if len == 0 {
        seq![]
    } else {
        seq![(n % 256) as u8] + le_bytes(n / 256, (len - 1) as nat)
    }
}

pub proof fn lemma_pow256_positive(n: nat)
    ensures
        pow256(n) >= 1,
    decreases n,
{
    if n > 0 {
        lemma_pow256_positive((n - 1) as nat);
    }
}

pub proof fn lemma_pow256_values()
    ensures
        pow256(1) == 0x100,
        pow256(2) == 0x1_0000,
        pow256(4) == 0x1_0000_0000,
        pow256(8) == 0x1_0000_0000_0000_0000,
{
    reveal_with_fuel(pow256, 9);
}

/// The bytes of a number hold less than `256^len`.
pub proof fn lemma_le_value_bound(b: Seq<u8>)
    ensures
        le_value(b) < pow256(b.len()),
    decreases b.len(),
{
    if b.len() > 0 {
        lemma_le_value_bound(b.drop_first());
        let r = le_value(b.drop_first());
        let p = pow256((b.len() - 1) as nat);
        assert(b[0] as nat + 256 * r < 256 * p) by (nonlinear_arith)
            requires
                r < p,
                b[0] < 256,
        ;
    }
}

pub proof fn lemma_le_bytes_len(n: nat, len: nat)
    ensures
        le_bytes(n, len).len() == len,
    decreases len,
{
    if len > 0 {
        lemma_le_bytes_len(n / 256, (len - 1) as nat);
    }
}

/// Reading back what was written gives the number, cut to `len` bytes.
pub proof fn lemma_le_value_of_bytes(n: nat, len: nat)
    ensures
        le_value(le_bytes(n, len)) == n % pow256(len),
    decreases len,
{
    lemma_le_bytes_len(n, len);
    if len == 0 {
        assert(le_bytes(n, len) =~= Seq::<u8>::empty());
    } else {
        let rest = le_bytes(n / 256, (len - 1) as nat);
        let b = le_bytes(n, len);
        assert(b.drop_first() =~= rest);
        lemma_le_value_of_bytes(n / 256, (len - 1) as nat);
        let p = pow256((len - 1) as nat);
        lemma_pow256_positive((len - 1) as nat);
        vstd::arithmetic::div_mod::lemma_breakdown(n as int, 256, p as int);
    }
}

/// Writing what was read gives the bytes back.
pub proof fn lemma_le_bytes_of_value(b: Seq<u8>)
    ensures
        le_bytes(le_value(b), b.len()) == b,
    decreases b.len(),
{
    if b.len() > 0 {
        let r = le_value(b.drop_first());
        let v = le_value(b);
        vstd::arithmetic::div_mod::lemma_fundamental_div_mod_converse(
            v as int,
            256,
            r as int,
            b[0] as int,
        );
        lemma_le_bytes_of_value(b.drop_first());
        assert(le_bytes(v, b.len()) =~= b);
    }
}

/// The number the little-endian `bytes` encode.
pub fn le_u64(bytes: &[u8]) -> (r: u64)
    requires
        bytes@.len() <= 8,
    ensures
        r == le_value(bytes@),
{
    let mut v: u64 = 0;
    let mut k = bytes.len();
    proof {
        assert(bytes@.skip(k as int) =~= Seq::<u8>::empty());
    }
    while k > 0
        invariant
            k <= bytes.len() <= 8,
            v == le_value(bytes@.skip(k as int)),
        decreases k,
    {
        let ghost tail = bytes@.skip(k as int);
        let ghost next = bytes@.skip(k - 1);
        assert(next.drop_first() =~= tail);
        proof {
            lemma_le_value_bound(next);
            lemma_pow256_values();
            assert(pow256(next.len()) <= pow256(8)) by {
                lemma_pow256_monotone(next.len(), 8);
            }
        }
        let b = bytes[k - 1];
        assert(next[0] == b);
        v = b as u64 + 256 * v;
        k = k - 1;
    }
    assert(bytes@.skip(0) =~= bytes@);
    v
}

pub proof fn lemma_pow256_monotone(a: nat, b: nat)
    requires
        a <= b,
    ensures
        pow256(a) <= pow256(b),
    decreases b,
{
    if a < b {
        lemma_pow256_monotone(a, (b - 1) as nat);
        lemma_pow256_positive((b - 1) as nat);
    }
}

/// The `len` low bytes of `v`, least significant first.
pub fn le_bytes_of(v: u64, len: usize) -> (r: Vec<u8>)
    requires
        len <= 8,
    ensures
        r@ == le_bytes(v as nat, len as nat),
{
    let mut out: Vec<u8> = Vec::new();
    let mut rest = v;
    let mut k: usize = 0;
    while k < len
        invariant
            k <= len <= 8,
            out@ + le_bytes(rest as nat, (len - k) as nat) == le_bytes(v as nat, len as nat),
        decreases len - k,
    {
        let ghost before = out@;
        let ghost r0 = rest;
        out.push((rest % 256) as u8);
        rest = rest / 256;
        k = k + 1;
        assert(le_bytes(r0 as nat, (len - k + 1) as nat) == seq![(r0 % 256) as u8] + le_bytes(
            rest as nat,
            (len - k) as nat,
        ));
        assert(out@ + le_bytes(rest as nat, (len - k) as nat) =~= before + le_bytes(
            r0 as nat,
            (len - k + 1) as nat,
        ));
    }
    assert(le_bytes(rest as nat, 0) =~= Seq::<u8>::empty());
    assert(out@ + Seq::<u8>::empty() =~= out@);
    out
}

} // verus!
