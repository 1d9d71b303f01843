//! Errors produced while encoding, decoding, or (de)serializing DIF data.

use vstd::prelude::*;
use vstd::string::StringExecFns;

verus! {

/// Errors produced while encoding, decoding, or (de)serializing DIF data.
#[derive(Debug, PartialEq, Eq)]
pub enum DifError {
    /// Input bytes ended before a full structure could be read.
    UnexpectedEof,
    /// File magic did not match `DIF3` (compressed) or `DIFR3` (raw).
    BadMagic([u8; 8]),
    /// Unsupported container/format version byte.
    BadVersion(u8),
    /// Unknown or unsupported codec family / level in a container byte.
    BadCodec(u8),
    /// The flags byte requested an index width that is defined but unsupported
    /// (32-/64-bit) or otherwise invalid.
    BadIndexWidth(u8),
    /// The flags byte requested a mapped-color depth that is reserved/unknown.
    BadColorDepth(u8),
    /// Theme count was 0 or exceeded 256.
    BadThemeCount(usize),
    /// A theme abilities byte set a reserved bit.
    BadAbilities(u8),
    /// A header field that must be 16-byte aligned was not.
    Unaligned(u64),
    /// A variable-length integer had a malformed lead or continuation byte.
    BadVarint,
    /// A field violated an invariant (e.g. palette length mismatch); carries a reason.
    Invalid(&'static str),
    /// The embedded compression library failed.
    CompressionFailed,
}

/// Result type of the library.
pub type DifResult<T> = core::result::Result<T, DifError>;

/// The text of one decimal digit `d` (`0 <= d < 10`).
pub open spec fn digit_text(d: nat) -> Seq<char> {
    if d == 0 { "0"@ } else if d == 1 { "1"@ } else if d == 2 { "2"@ } else if d == 3 { "3"@ }
    else if d == 4 { "4"@ } else if d == 5 { "5"@ } else if d == 6 { "6"@ } else if d == 7 { "7"@ }
    else if d == 8 { "8"@ } else { "9"@ }
}

/// The decimal text of `n`, without leading zeros.
pub open spec fn decimal_text(n: nat) -> Seq<char>
    decreases n,
{
    if n < 10 { digit_text(n) } else { decimal_text(n / 10) + digit_text(n % 10) }
}

/// The text of one lowercase hexadecimal digit `d` (`0 <= d < 16`).
pub open spec fn hex_digit_text(d: nat) -> Seq<char> {
    if d < 10 { digit_text(d) } else if d == 10 { "a"@ } else if d == 11 { "b"@ }
    else if d == 12 { "c"@ } else if d == 13 { "d"@ } else if d == 14 { "e"@ } else { "f"@ }
}

/// The bytes of a magic, as `[b0, b1, ..., b7]`.
pub open spec fn byte_list_text(m: Seq<u8>) -> Seq<char>
    decreases m.len(),
{
    if m.len() == 0 {
        Seq::empty()
    } else if m.len() == 1 {
        decimal_text(m[0] as nat)
    } else {
        decimal_text(m[0] as nat) + ", "@ + byte_list_text(m.drop_first())
    }
}

/// The human-readable description of an error.
pub open spec fn error_text(e: DifError) -> Seq<char> {
    match e {
        DifError::UnexpectedEof => "unexpected end of input"@,
        DifError::BadMagic(m) => "bad magic: ["@ + byte_list_text(m@) + "]"@,
        DifError::BadVersion(v) => "unsupported version: "@ + decimal_text(v as nat),
        DifError::BadCodec(c) => "unknown/unsupported codec byte: "@ + decimal_text(c as nat),
        DifError::BadIndexWidth(w) => "unsupported index width bits: "@ + decimal_text(w as nat),
        DifError::BadColorDepth(d) => "reserved/unknown color depth: "@ + decimal_text(d as nat),
        DifError::BadThemeCount(n) => "theme count "@ + decimal_text(n as nat)
            + " out of range 1..=256"@,
        DifError::BadAbilities(a) => "theme abilities set a reserved bit: 0x"@
            + hex_digit_text((a / 16) as nat) + hex_digit_text((a % 16) as nat),
        DifError::Unaligned(o) => "offset "@ + decimal_text(o as nat) + " is not 16-byte aligned"@,
        DifError::BadVarint => "malformed variable-length integer"@,
        DifError::Invalid(why) => "invalid DIF data: "@ + why@,
        DifError::CompressionFailed => "compression/decompression failed"@,
    }
}

fn append_digit(s: &mut String, d: u64)
    requires
        d < 10,
    ensures
        final(s)@ == old(s)@ + digit_text(d as nat),
{
    if d == 0 { s.append("0") } else if d == 1 { s.append("1") } else if d == 2 { s.append("2") }
    else if d == 3 { s.append("3") } else if d == 4 { s.append("4") } else if d == 5 { s.append("5") }
    else if d == 6 { s.append("6") } else if d == 7 { s.append("7") } else if d == 8 { s.append("8") }
    else { s.append("9") }
}

fn append_decimal(s: &mut String, n: u64)
    ensures
        final(s)@ == old(s)@ + decimal_text(n as nat),
    decreases n,
{
    if n < 10 {
        append_digit(s, n);
    } else {
        append_decimal(s, n / 10);
        append_digit(s, n % 10);
        assert(final(s)@ =~= old(s)@ + decimal_text(n as nat));
    }
}

pub(crate) fn append_hex_digit(s: &mut String, d: u8)
    requires
        d < 16,
    ensures
        final(s)@ == old(s)@ + hex_digit_text(d as nat),
{
    if d < 10 {
        append_digit(s, d as u64);
    } else if d == 10 { s.append("a") } else if d == 11 { s.append("b") }
    else if d == 12 { s.append("c") } else if d == 13 { s.append("d") }
    else if d == 14 { s.append("e") } else { s.append("f") }
}

/// The text that follows an already printed element of a byte list.
spec fn byte_list_tail(r: Seq<u8>) -> Seq<char> {
    if r.len() == 0 { Seq::empty() } else { ", "@ + byte_list_text(r) }
}

fn append_byte_list(s: &mut String, m: &[u8; 8])
    ensures
        final(s)@ == old(s)@ + byte_list_text(m@),
{
    let ghost start = s@;
    let mut i: usize = 0;
    while i < 8
        invariant
            i <= 8,
            m@.len() == 8,
            i > 0 ==> s@ + byte_list_tail(m@.skip(i as int)) == start + byte_list_text(m@),
            i == 0 ==> s@ == start,
        decreases 8 - i,
    {
        if i > 0 {
            s.append(", ");
        }
        append_decimal(s, m[i] as u64);
        proof {
            let rest = m@.skip(i as int);
            assert(rest[0] == m@[i as int]);
            assert(rest.drop_first() =~= m@.skip(i + 1));
            if i == 0 {
                assert(m@.skip(0) =~= m@);
            }
            if i + 1 < 8 {
                assert(byte_list_text(rest) == decimal_text(rest[0] as nat) + ", "@
                    + byte_list_text(rest.drop_first()));
            } else {
                assert(rest.len() == 1);
                assert(m@.skip(i + 1).len() == 0);
            }
            assert(s@ + byte_list_tail(m@.skip(i + 1)) =~= start + byte_list_text(m@));
        }
        i = i + 1;
    }
    assert(m@.skip(8).len() == 0);
    assert(s@ =~= s@ + byte_list_tail(m@.skip(8)));
}

impl DifError {
    /// The human-readable description of this error (what `Display` would print).
    pub fn message(&self) -> (s: String)
        ensures
            s@ == error_text(*self),
    {
        let mut s = String::new();
        match self {
            DifError::UnexpectedEof => s.append("unexpected end of input"),
            DifError::BadMagic(m) => {
                s.append("bad magic: [");
                append_byte_list(&mut s, m);
                s.append("]");
            },
            DifError::BadVersion(v) => {
                s.append("unsupported version: ");
                append_decimal(&mut s, *v as u64);
            },
            DifError::BadCodec(c) => {
                s.append("unknown/unsupported codec byte: ");
                append_decimal(&mut s, *c as u64);
            },
            DifError::BadIndexWidth(w) => {
                s.append("unsupported index width bits: ");
                append_decimal(&mut s, *w as u64);
            },
            DifError::BadColorDepth(d) => {
                s.append("reserved/unknown color depth: ");
                append_decimal(&mut s, *d as u64);
            },
            DifError::BadThemeCount(n) => {
                s.append("theme count ");
                append_decimal(&mut s, *n as u64);
                s.append(" out of range 1..=256");
            },
            DifError::BadAbilities(a) => {
                s.append("theme abilities set a reserved bit: 0x");
                append_hex_digit(&mut s, *a / 16);
                append_hex_digit(&mut s, *a % 16);
            },
            DifError::Unaligned(o) => {
                s.append("offset ");
                append_decimal(&mut s, *o);
                s.append(" is not 16-byte aligned");
            },
            DifError::BadVarint => s.append("malformed variable-length integer"),
            DifError::Invalid(why) => {
                s.append("invalid DIF data: ");
                s.append(why);
            },
            DifError::CompressionFailed => s.append("compression/decompression failed"),
        }
        proof {
            assert(s@ =~= error_text(*self));
        }
        s
    }
}

} // verus!
