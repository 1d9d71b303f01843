//! UTF-8-inspired variable-length integer used for palette indices.
//!
//! The scheme reuses the exact byte-length thresholds of UTF-8 so a palette
//! index is packed the way a Unicode scalar would be:
//!
//! | value range            | bytes |
//! |------------------------|-------|
//! | `0 ..= 127`            | 1     |
//! | `128 ..= 2_047`        | 2     |
//! | `2_048 ..= 65_535`     | 3     |
//! | `65_536 ..= 2_097_151` | 4     |
//!
//! The 4-byte form carries 21 bits, which covers the format's 1,112,064-color
//! ceiling (the count of valid Unicode scalars) and then some.

use vstd::prelude::*;

use crate::error::{DifError, DifResult};

verus! {

/// Largest index that fits in the 4-byte form (21 payload bits).
pub const MAX_INDEX: u32 = 0x1F_FFFF;

/// The encoding of `value`: a lead byte carrying the high bits, then one
/// `0b10xx_xxxx` continuation byte per further 6 bits.
pub open spec fn varint_bytes(value: u32) -> Seq<u8> {
    if value <= 0x7F {
        seq![value as u8]
    } else if value <= 0x7FF {
        seq![(0xC0 + value / 64) as u8, (0x80 + value % 64) as u8]
    } else if value <= 0xFFFF {
        seq![
            (0xE0 + value / 4096) as u8,
            (0x80 + (value / 64) % 64) as u8,
            (0x80 + value % 64) as u8,
        ]
    } else {
        seq![
            (0xF0 + value / 0x4_0000) as u8,
            (0x80 + (value / 4096) % 64) as u8,
            (0x80 + (value / 64) % 64) as u8,
            (0x80 + value % 64) as u8,
        ]
    }
}

/// Reading `extra` continuation bytes from `p` onward, accumulating into `value`.
/// Returns the outcome and the position reached.
pub open spec fn varint_continue(bytes: Seq<u8>, p: nat, value: nat, extra: nat) -> (
    DifResult<u32>,
    nat,
)
    decreases extra,
{
    if extra == 0 {
        (Ok(value as u32), p)
    } else if p >= bytes.len() {
        (Err(DifError::UnexpectedEof), p)
    } else if bytes[p as int] / 64 != 2 {
        (Err(DifError::BadVarint), p)
    } else {
        varint_continue(bytes, p + 1, (value * 64 + bytes[p as int] % 64) as nat, (extra - 1) as nat)
    }
}

/// Reading one value at `pos`: the outcome and the position reached (also on error).
pub open spec fn varint_read(bytes: Seq<u8>, pos: nat) -> (DifResult<u32>, nat) {
    if pos >= bytes.len() {
        (Err(DifError::UnexpectedEof), pos)
    } else {
        let b0 = bytes[pos as int];
        if b0 <= 0x7F {
            (Ok(b0 as u32), pos + 1)
        } else if 0xC0 <= b0 <= 0xDF {
            varint_continue(bytes, pos + 1, (b0 - 0xC0) as nat, 1)
        } else if 0xE0 <= b0 <= 0xEF {
            varint_continue(bytes, pos + 1, (b0 - 0xE0) as nat, 2)
        } else if 0xF0 <= b0 <= 0xF7 {
            varint_continue(bytes, pos + 1, (b0 - 0xF0) as nat, 3)
        } else {
            (Err(DifError::BadVarint), pos + 1)
        }
    }
}

/// Append the UTF-8-style encoding of `value` to `out`.
pub fn write(out: &mut Vec<u8>, value: u32)
    requires
        value <= MAX_INDEX,
    ensures
        final(out)@ == old(out)@ + varint_bytes(value),
{
    let ghost start = out@;
    if value <= 0x7F {
        out.push(value as u8);
    } else if value <= 0x7FF {
        out.push((0xC0 + value / 64) as u8);
        out.push((0x80 + value % 64) as u8);
    } else if value <= 0xFFFF {
        out.push((0xE0 + value / 4096) as u8);
        out.push((0x80 + (value / 64) % 64) as u8);
        out.push((0x80 + value % 64) as u8);
    } else {
        out.push((0xF0 + value / 0x4_0000) as u8);
        out.push((0x80 + (value / 4096) % 64) as u8);
        out.push((0x80 + (value / 64) % 64) as u8);
        out.push((0x80 + value % 64) as u8);
    }
    assert(out@ =~= start + varint_bytes(value));
}

/// Read one UTF-8-style value starting at `bytes[*pos]`, advancing `*pos`.
pub fn read(bytes: &[u8], pos: &mut usize) -> (r: DifResult<u32>)
    ensures
        (r, *final(pos) as nat) == varint_read(bytes@, *old(pos) as nat),
{
    if *pos >= bytes.len() {
        return Err(DifError::UnexpectedEof);
    }
    let b0 = bytes[*pos];
    *pos = *pos + 1;
    let (mut value, extra): (u32, usize) = if b0 <= 0x7F {
        return Ok(b0 as u32);
    } else if 0xC0 <= b0 && b0 <= 0xDF {
        ((b0 - 0xC0) as u32, 1)
    } else if 0xE0 <= b0 && b0 <= 0xEF {
        ((b0 - 0xE0) as u32, 2)
    } else if 0xF0 <= b0 && b0 <= 0xF7 {
        ((b0 - 0xF0) as u32, 3)
    } else {
        return Err(DifError::BadVarint);
    };
    let ghost goal = varint_read(bytes@, *old(pos) as nat);
    let mut k: usize = 0;
    while k < extra
        invariant
            extra <= 3,
            k <= extra,
            value < 0x20 * pow64(k as nat),
            *pos <= bytes@.len(),
            goal == varint_continue(bytes@, *pos as nat, value as nat, (extra - k) as nat),
            goal == varint_read(bytes@, *old(pos) as nat),
        decreases extra - k,
    {
        if *pos >= bytes.len() {
            return Err(DifError::UnexpectedEof);
        }
        let b = bytes[*pos];
        if b / 64 != 2 {
            return Err(DifError::BadVarint);
        }
        proof {
            lemma_pow64_small(k as nat);
            assert(value * 64 + b % 64 < 0x20 * pow64((k + 1) as nat)) by (nonlinear_arith)
                requires
                    value < 0x20 * pow64(k as nat),
                    pow64((k + 1) as nat) == 64 * pow64(k as nat),
            ;
        }
        value = value * 64 + (b % 64) as u32;
        *pos = *pos + 1;
        k = k + 1;
    }
    Ok(value)
}

/// `64^k`.
pub open spec fn pow64(k: nat) -> nat
    decreases k,
{
    if k == 0 { 1 } else { 64 * pow64((k - 1) as nat) }
}

proof fn lemma_pow64_small(k: nat)
    requires
        k < 3,
    ensures
        pow64(k + 1) == 64 * pow64(k),
        0x20 * pow64(k + 1) <= 0x20 * 0x4_0000,
{
    reveal_with_fuel(pow64, 4);
}

/// What `read` returns on the bytes that `write` produced: the same value, with the
/// position just past them, whatever surrounds them.
pub proof fn lemma_varint_roundtrip(value: u32, before: Seq<u8>, after: Seq<u8>)
    requires
        value <= MAX_INDEX,
    ensures
        varint_read(before + varint_bytes(value) + after, before.len())
            == (Ok::<u32, DifError>(value), before.len() + varint_bytes(value).len()),
{
    let s = before + varint_bytes(value) + after;
    let p = before.len() as int;
    let e = varint_bytes(value);
    assert(forall|i: int| 0 <= i < e.len() ==> s[p + i] == #[trigger] e[i]);
    reveal_with_fuel(varint_continue, 4);
    if value <= 0x7F {
        assert(s[p] == e[0]);
    } else if value <= 0x7FF {
        assert(s[p] == e[0] && s[p + 1] == e[1]);
    } else if value <= 0xFFFF {
        assert(s[p] == e[0] && s[p + 1] == e[1] && s[p + 2] == e[2]);
        assert((value / 4096) * 64 + (value / 64) % 64 == value / 64);
        assert((value / 64) * 64 + value % 64 == value);
    } else {
        assert(s[p] == e[0] && s[p + 1] == e[1] && s[p + 2] == e[2] && s[p + 3] == e[3]);
        assert((value / 0x4_0000) * 64 + (value / 4096) % 64 == value / 4096);
        assert((value / 4096) * 64 + (value / 64) % 64 == value / 64);
        assert((value / 64) * 64 + value % 64 == value);
    }
}

} // verus!
