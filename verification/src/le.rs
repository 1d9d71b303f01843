//! Little-endian fixed-width integer fields, as the container stores them.

use vstd::prelude::*;

verus! {

/// `256^n`: one past the largest value an `n`-byte field holds.
pub open spec fn byte_range(n: nat) -> nat
    decreases n,
{
    if n == 0 { 1 } else { 256 * byte_range((n - 1) as nat) }
}

/// The `n` little-endian bytes of `v` (the low `n` bytes when `v` is wider).
pub open spec fn le_bytes(v: nat, n: nat) -> Seq<u8>
    decreases n,
{
    if n == 0 {
        Seq::empty()
    } else {
        seq![(v % 256) as u8] + le_bytes(v / 256, (n - 1) as nat)
    }
}

/// The value of a little-endian byte string.
pub open spec fn le_value(s: Seq<u8>) -> nat
    decreases s.len(),
{
    if s.len() == 0 { 0 } else { s[0] as nat + 256 * le_value(s.drop_first()) }
}

pub proof fn lemma_byte_range_facts(n: nat)
    ensures
        byte_range(n) >= 1,
        n == 1 ==> byte_range(n) == 0x100,
        n == 2 ==> byte_range(n) == 0x1_0000,
        n == 4 ==> byte_range(n) == 0x1_0000_0000,
        n == 8 ==> byte_range(n) == 0x1_0000_0000_0000_0000,
    decreases n,
{
    reveal_with_fuel(byte_range, 9);
    if n > 0 {
        lemma_byte_range_facts((n - 1) as nat);
    }
}

pub proof fn lemma_le_bytes_len(v: nat, n: nat)
    ensures
        le_bytes(v, n).len() == n,
    decreases n,
{
    if n > 0 {
        lemma_le_bytes_len(v / 256, (n - 1) as nat);
    }
}

/// Reading back `n` written bytes gives the value, when it fits in `n` bytes.
pub proof fn lemma_le_roundtrip(v: nat, n: nat)
    requires
        v < byte_range(n),
    ensures
        le_value(le_bytes(v, n)) == v,
        le_bytes(v, n).len() == n,
    decreases n,
{
    lemma_le_bytes_len(v, n);
    if n > 0 {
        let rest = le_bytes(v / 256, (n - 1) as nat);
        assert(v / 256 < byte_range((n - 1) as nat)) by (nonlinear_arith)
            requires
                v < 256 * byte_range((n - 1) as nat),
        ;
        lemma_le_roundtrip(v / 256, (n - 1) as nat);
        let s = le_bytes(v, n);
        assert(s.drop_first() =~= rest);
        assert(v == v % 256 + 256 * (v / 256)) by (nonlinear_arith);
    }
}

/// Writing back the value of a byte string gives the byte string.
pub proof fn lemma_le_bytes_of_value(s: Seq<u8>)
    ensures
        le_bytes(le_value(s), s.len()) == s,
    decreases s.len(),
{
    if s.len() > 0 {
        let r = le_value(s.drop_first());
        lemma_le_bytes_of_value(s.drop_first());
        let v = le_value(s);
        assert(v % 256 == s[0] && v / 256 == r) by {
            vstd::arithmetic::div_mod::lemma_fundamental_div_mod_converse(
                v as int,
                256,
                r as int,
                s[0] as int,
            );
        }
        assert(le_bytes(v, s.len()) =~= s);
    }
}

/// A byte string's value fits in its length.
pub proof fn lemma_le_value_bound(s: Seq<u8>)
    ensures
        le_value(s) < byte_range(s.len()),
    decreases s.len(),
{
    if s.len() > 0 {
        lemma_le_value_bound(s.drop_first());
        let r = le_value(s.drop_first());
        let b = byte_range((s.len() - 1) as nat);
        assert(s[0] as nat + 256 * r < 256 * b) by (nonlinear_arith)
            requires
                r < b,
                s[0] < 256,
        ;
    }
}

/// Append the `n` little-endian bytes of `v` to `out`.
pub fn push_le(out: &mut Vec<u8>, v: u64, n: usize)
    requires
        n <= 8,
    ensures
        final(out)@ == old(out)@ + le_bytes(v as nat, n as nat),
{
    let ghost start = out@;
    let mut rest: u64 = v;
    let mut i: usize = 0;
    while i < n
        invariant
            i <= n,
            out@ + le_bytes(rest as nat, (n - i) as nat) == start + le_bytes(v as nat, n as nat),
        decreases n - i,
    {
        let ghost before = out@;
        out.push((rest % 256) as u8);
        proof {
            assert(le_bytes(rest as nat, (n - i) as nat) == seq![(rest % 256) as u8]
                + le_bytes((rest / 256) as nat, (n - i - 1) as nat));
            assert(out@ + le_bytes((rest / 256) as nat, (n - i - 1) as nat) =~= before
                + le_bytes(rest as nat, (n - i) as nat));
        }
        rest = rest / 256;
        i = i + 1;
    }
    assert(out@ =~= out@ + le_bytes(rest as nat, 0));
}

/// Read the `n`-byte little-endian value at `bytes[at..at + n]`.
pub fn read_le(bytes: &[u8], at: usize, n: usize) -> (r: u64)
    requires
        n <= 8,
        at + n <= bytes@.len(),
    ensures
        r == le_value(bytes@.subrange(at as int, at + n)),
{
    let mut acc: u64 = 0;
    let mut i: usize = n;
    proof {
        assert(bytes@.subrange(at + n, at + n).len() == 0);
    }
    while i > 0
        invariant
            i <= n <= 8,
            at + n <= bytes@.len(),
            acc == le_value(bytes@.subrange(at + i, at + n)),
        decreases i,
    {
        let ghost tail = bytes@.subrange(at + i, at + n);
        assert(bytes@.len() == bytes.len());
        let b = bytes[at + i - 1];
        proof {
            lemma_le_value_bound(tail);
            lemma_byte_range_facts(8);
            lemma_byte_range_mono(tail.len(), 7);
            assert(tail.len() <= 7);
            assert(b as nat + 256 * acc < 0x1_0000_0000_0000_0000) by (nonlinear_arith)
                requires
                    acc < byte_range(tail.len()),
                    byte_range(tail.len()) <= byte_range(7),
                    256 * byte_range(7) == 0x1_0000_0000_0000_0000,
                    b < 256,
            ;
        }
        acc = b as u64 + 256 * acc;
        i = i - 1;
        proof {
            let s = bytes@.subrange(at + i, at + n);
            assert(s.drop_first() =~= tail);
        }
    }
    acc
}

pub proof fn lemma_byte_range_mono(a: nat, b: nat)
    requires
        a <= b,
    ensures
        byte_range(a) <= byte_range(b),
        b == 7 ==> 256 * byte_range(b) == 0x1_0000_0000_0000_0000,
    decreases b,
{
    reveal_with_fuel(byte_range, 8);
    if a < b {
        lemma_byte_range_mono(a, (b - 1) as nat);
    }
}

} // verus!
