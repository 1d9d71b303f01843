//! DIF v3 byte layout: the fixed 64-byte container header and the pure
//! (de)serialization of the *decompressed* body sections (themes, palettes, and
//! per-frame index planes). This module is codec-agnostic: `crate::codec` drives
//! the two-stage compression and assembles the intermediate body.
//!
//! Header (64 bytes, little-endian):
//!
//! ```text
//! 0  magic[8]   "DIF3\0\0\0\0" | "DIFR3\0\0\0"   (carries version '3')
//! 8  codec:u8         outer whole-body  (4b family | 4b level index)
//! 9  flags:u8         bit0-1 index width; bit2-5 color depth
//! 10 codec_palette:u8 per-palette section codec
//! 11 codec_frame:u8   per-frame section codec
//! 12 theme_count:u8   stored = count - 1  (1..=256)
//! 13 reserved:u8
//! 14 frame_count:u16
//! 16 replay_count:u16 0=infinite, 1=static
//! 18 reserved:u16
//! 20 width:u32
//! 24 height:u32
//! 28 frame_long_offset:u32  upper 32 bits of the first-frame offset
//! 32 frame_offset:u64       lower 64 bits of the first-frame offset
//! 40 frame_alignment:u64    per-frame stride (multiple of 16)
//! 48 index_count:u64        palette length (color count)
//! 56 palette_size:u64       compressed palette-section length
//! 64 compressed_body[]
//! ```

use vstd::prelude::*;

use crate::container::{ColorDepth, IndexWidth, Rgba, Theme};
use crate::error::{DifError, DifResult};
use crate::le::{
    le_bytes, le_value, lemma_byte_range_facts, lemma_le_bytes_of_value, lemma_le_roundtrip,
    lemma_le_value_bound, push_le, read_le,
};

verus! {

broadcast use vstd::array::group_array_axioms;

/// Magic of a compressed `.dif` container: `"DIF3\0\0\0\0"`.
pub const MAGIC_DIF: [u8; 8] = [0x44, 0x49, 0x46, 0x33, 0, 0, 0, 0];
/// Magic of a raw `.difr` container: `"DIFR3\0\0\0"`.
pub const MAGIC_DIFR: [u8; 8] = [0x44, 0x49, 0x46, 0x52, 0x33, 0, 0, 0];
/// Length of the fixed container header.
pub const HEADER_LEN: usize = 64;

/// `2^64`, the weight of the upper first-frame offset field.
pub open spec fn two_pow_64() -> nat {
    0x1_0000_0000_0000_0000
}

/// `n` rounded up to the next multiple of 16.
pub open spec fn spec_align16(n: nat) -> nat {
    ((n + 15) / 16) * 16
}

/// Round `n` up to the next multiple of 16.
pub fn align16(n: usize) -> (r: usize)
    requires
        n + 15 <= usize::MAX,
    ensures
        r == spec_align16(n as nat),
        r % 16 == 0,
        n <= r < n + 16,
{
    (n + 15) / 16 * 16
}

/// `n` zero bytes.
pub open spec fn zeros(n: nat) -> Seq<u8> {
    Seq::new(n, |i: int| 0u8)
}

/// Parsed 64-byte container header.
#[derive(Clone, Copy, Debug)]
pub struct Header {
    pub is_raw: bool,
    pub codec: u8,
    pub flags: u8,
    pub codec_palette: u8,
    pub codec_frame: u8,
    pub theme_count: usize,
    pub frame_count: usize,
    pub replay_count: u16,
    pub width: u32,
    pub height: u32,
    /// First-frame offset within the (outer-decompressed) intermediate body,
    /// measured from the file start: `long * 2^64 + offset`.
    pub first_frame_offset: u128,
    pub frame_alignment: u64,
    pub index_count: u64,
    /// Compressed length of the single palette blob (offset 56).
    pub palette_size: u64,
}

/// The 64 bytes that [`Header::write`] appends for `h`.
pub open spec fn header_bytes(h: Header) -> Seq<u8> {
    (if h.is_raw { MAGIC_DIFR@ } else { MAGIC_DIF@ })
        + seq![h.codec, h.flags, h.codec_palette, h.codec_frame, (h.theme_count - 1) as u8, 0u8]
        + le_bytes(h.frame_count as nat % 0x1_0000, 2)
        + le_bytes(h.replay_count as nat, 2)
        + le_bytes(0, 2)
        + le_bytes(h.width as nat, 4)
        + le_bytes(h.height as nat, 4)
        + le_bytes((h.first_frame_offset as nat / two_pow_64()) % 0x1_0000_0000, 4)
        + le_bytes(h.first_frame_offset as nat % two_pow_64(), 8)
        + le_bytes(h.frame_alignment as nat, 8)
        + le_bytes(h.index_count as nat, 8)
        + le_bytes(h.palette_size as nat, 8)
}

/// The little-endian field of `n` bytes at `at`.
pub open spec fn field(bytes: Seq<u8>, at: int, n: int) -> nat {
    le_value(bytes.subrange(at, at + n))
}

/// The magic bytes at the start of `bytes`, as an array.
pub open spec fn magic_of(bytes: Seq<u8>) -> [u8; 8] {
    [bytes[0], bytes[1], bytes[2], bytes[3], bytes[4], bytes[5], bytes[6], bytes[7]]
}

/// What [`Header::read`] returns for `bytes`.
pub open spec fn parse_header(bytes: Seq<u8>) -> DifResult<Header> {
    if bytes.len() < 64 {
        Err(DifError::UnexpectedEof)
    } else if bytes.subrange(0, 8) != MAGIC_DIF@ && bytes.subrange(0, 8) != MAGIC_DIFR@ {
        Err(DifError::BadMagic(magic_of(bytes)))
    } else {
        Ok(
            Header {
                is_raw: bytes.subrange(0, 8) == MAGIC_DIFR@,
                codec: bytes[8],
                flags: bytes[9],
                codec_palette: bytes[10],
                codec_frame: bytes[11],
                theme_count: (bytes[12] + 1) as usize,
                frame_count: field(bytes, 14, 2) as usize,
                replay_count: field(bytes, 16, 2) as u16,
                width: field(bytes, 20, 4) as u32,
                height: field(bytes, 24, 4) as u32,
                first_frame_offset: (field(bytes, 28, 4) * two_pow_64() + field(bytes, 32, 8)) as u128,
                frame_alignment: field(bytes, 40, 8) as u64,
                index_count: field(bytes, 48, 8) as u64,
                palette_size: field(bytes, 56, 8) as u64,
            },
        )
    }
}

fn push_magic(out: &mut Vec<u8>, magic: &[u8; 8])
    ensures
        final(out)@ == old(out)@ + magic@,
{
    let ghost start = out@;
    let mut i: usize = 0;
    while i < 8
        invariant
            i <= 8,
            out@ == start + magic@.take(i as int),
        decreases 8 - i,
    {
        out.push(magic[i]);
        assert(magic@.take(i + 1) =~= magic@.take(i as int).push(magic@[i as int]));
        i = i + 1;
    }
    assert(magic@.take(8) =~= magic@);
}

impl Header {
    /// The header's index-width code (flags bits 0..1), decoded.
    pub open spec fn spec_index_width(&self) -> DifResult<IndexWidth> {
        let b = (self.flags % 4) as u8;
        if b == 0 {
            Ok(IndexWidth::Bit8)
        } else if b == 1 {
            Ok(IndexWidth::Bit16)
        } else if b == 2 {
            Ok(IndexWidth::Bit32)
        } else {
            Ok(IndexWidth::Bit64)
        }
    }

    /// The header's color-depth code (flags bits 2..5), decoded.
    pub open spec fn spec_color_depth(&self) -> DifResult<ColorDepth> {
        let b = ((self.flags / 4) % 16) as u8;
        if b == 0 {
            Ok(ColorDepth::Rgba8)
        } else if b == 1 {
            Ok(ColorDepth::Rgba16)
        } else {
            Err(DifError::BadColorDepth(b))
        }
    }

    pub fn index_width(&self) -> (r: DifResult<IndexWidth>)
        ensures
            r == self.spec_index_width(),
    {
        let r = IndexWidth::from_bits(self.flags % 4);
        proof {
            let b = (self.flags % 4) as u8;
            assert(b <= 3);
        }
        r
    }

    pub fn color_depth(&self) -> (r: DifResult<ColorDepth>)
        ensures
            r == self.spec_color_depth(),
    {
        ColorDepth::from_bits((self.flags / 4) % 16)
    }

    /// Append the 64 header bytes to `out`.
    pub fn write(&self, out: &mut Vec<u8>)
        requires
            self.theme_count >= 1,
        ensures
            final(out)@ == old(out)@ + header_bytes(*self),
    {
        let ghost start = out@;
        if self.is_raw {
            push_magic(out, &MAGIC_DIFR);
        } else {
            push_magic(out, &MAGIC_DIF);
        }
        out.push(self.codec);
        out.push(self.flags);
        out.push(self.codec_palette);
        out.push(self.codec_frame);
        out.push((self.theme_count - 1) as u8);
        out.push(0);
        push_le(out, (self.frame_count as u64) % 0x1_0000, 2);
        push_le(out, self.replay_count as u64, 2);
        push_le(out, 0, 2);
        push_le(out, self.width as u64, 4);
        push_le(out, self.height as u64, 4);
        let long: u64 = ((self.first_frame_offset / 0x1_0000_0000_0000_0000) % 0x1_0000_0000) as u64;
        let low: u64 = (self.first_frame_offset % 0x1_0000_0000_0000_0000) as u64;
        push_le(out, long, 4);
        push_le(out, low, 8);
        push_le(out, self.frame_alignment, 8);
        push_le(out, self.index_count, 8);
        push_le(out, self.palette_size, 8);
        assert(out@ =~= start + header_bytes(*self));
    }

    /// Parse the 64-byte header at the start of `bytes`.
    pub fn read(bytes: &[u8]) -> (r: DifResult<Header>)
        ensures
            r == parse_header(bytes@),
    {
        if bytes.len() < HEADER_LEN {
            return Err(DifError::UnexpectedEof);
        }
        let magic: [u8; 8] = [
            bytes[0],
            bytes[1],
            bytes[2],
            bytes[3],
            bytes[4],
            bytes[5],
            bytes[6],
            bytes[7],
        ];
        let is_dif = bytes[0] == 0x44 && bytes[1] == 0x49 && bytes[2] == 0x46 && bytes[3] == 0x33
            && bytes[4] == 0 && bytes[5] == 0 && bytes[6] == 0 && bytes[7] == 0;
        let is_difr = bytes[0] == 0x44 && bytes[1] == 0x49 && bytes[2] == 0x46 && bytes[3] == 0x52
            && bytes[4] == 0x33 && bytes[5] == 0 && bytes[6] == 0 && bytes[7] == 0;
        proof {
            assert(is_dif <==> bytes@.subrange(0, 8) =~= MAGIC_DIF@);
            assert(is_difr <==> bytes@.subrange(0, 8) =~= MAGIC_DIFR@);
        }
        let is_raw = if is_dif {
            false
        } else if is_difr {
            true
        } else {
            assert(magic =~= magic_of(bytes@));
            return Err(DifError::BadMagic(magic));
        };
        let theme_count = bytes[12] as usize + 1;
        let frame_count = read_le(bytes, 14, 2) as usize;
        let replay_count = read_le(bytes, 16, 2);
        let width = read_le(bytes, 20, 4);
        let height = read_le(bytes, 24, 4);
        let long = read_le(bytes, 28, 4);
        let low = read_le(bytes, 32, 8);
        let frame_alignment = read_le(bytes, 40, 8);
        let index_count = read_le(bytes, 48, 8);
        let palette_size = read_le(bytes, 56, 8);
        proof {
            crate::le::lemma_le_value_bound(bytes@.subrange(16, 18));
            crate::le::lemma_le_value_bound(bytes@.subrange(20, 24));
            crate::le::lemma_le_value_bound(bytes@.subrange(24, 28));
            crate::le::lemma_le_value_bound(bytes@.subrange(28, 32));
            crate::le::lemma_byte_range_facts(2);
            crate::le::lemma_byte_range_facts(4);
        }
        Ok(
            Header {
                is_raw,
                codec: bytes[8],
                flags: bytes[9],
                codec_palette: bytes[10],
                codec_frame: bytes[11],
                theme_count,
                frame_count,
                replay_count: replay_count as u16,
                width: width as u32,
                height: height as u32,
                first_frame_offset: (long as u128) * 0x1_0000_0000_0000_0000 + (low as u128),
                frame_alignment,
                index_count,
                palette_size,
            },
        )
    }
}

/// Reading back a written header gives the same header, whatever bytes follow it.
pub proof fn lemma_header_roundtrip(h: Header, rest: Seq<u8>)
    requires
        1 <= h.theme_count <= 256,
        h.frame_count < 0x1_0000,
        h.first_frame_offset < 0x1_0000_0000 * two_pow_64(),
    ensures
        header_bytes(h).len() == 64,
        parse_header(header_bytes(h) + rest) == Ok::<Header, DifError>(h),
{
    lemma_byte_range_facts(2);
    lemma_byte_range_facts(4);
    lemma_byte_range_facts(8);
    let ffo = h.first_frame_offset as nat;
    let long = (ffo / two_pow_64()) % 0x1_0000_0000;
    let low = ffo % two_pow_64();
    lemma_le_roundtrip(h.frame_count as nat % 0x1_0000, 2);
    lemma_le_roundtrip(h.replay_count as nat, 2);
    lemma_le_roundtrip(0, 2);
    lemma_le_roundtrip(h.width as nat, 4);
    lemma_le_roundtrip(h.height as nat, 4);
    lemma_le_roundtrip(long, 4);
    lemma_le_roundtrip(low, 8);
    lemma_le_roundtrip(h.frame_alignment as nat, 8);
    lemma_le_roundtrip(h.index_count as nat, 8);
    lemma_le_roundtrip(h.palette_size as nat, 8);
    let hb = header_bytes(h);
    let b = hb + rest;
    let magic = if h.is_raw { MAGIC_DIFR@ } else { MAGIC_DIF@ };
    assert(magic.len() == 8);
    assert(hb.len() == 64);
    assert(b.subrange(0, 8) =~= magic);
    assert(b.subrange(14, 16) =~= le_bytes(h.frame_count as nat % 0x1_0000, 2));
    assert(b.subrange(16, 18) =~= le_bytes(h.replay_count as nat, 2));
    assert(b.subrange(20, 24) =~= le_bytes(h.width as nat, 4));
    assert(b.subrange(24, 28) =~= le_bytes(h.height as nat, 4));
    assert(b.subrange(28, 32) =~= le_bytes(long, 4));
    assert(b.subrange(32, 40) =~= le_bytes(low, 8));
    assert(b.subrange(40, 48) =~= le_bytes(h.frame_alignment as nat, 8));
    assert(b.subrange(48, 56) =~= le_bytes(h.index_count as nat, 8));
    assert(b.subrange(56, 64) =~= le_bytes(h.palette_size as nat, 8));
    assert(MAGIC_DIF@ != MAGIC_DIFR@) by {
        assert(MAGIC_DIF@[3] != MAGIC_DIFR@[3]);
    }
    assert(b[12] == (h.theme_count - 1) as u8);
    assert(ffo / two_pow_64() < 0x1_0000_0000) by (nonlinear_arith)
        requires
            ffo < 0x1_0000_0000 * two_pow_64(),
            two_pow_64() > 0,
    ;
    assert(long * two_pow_64() + low == ffo) by (nonlinear_arith)
        requires
            long == ffo / two_pow_64(),
            low == ffo % two_pow_64(),
            two_pow_64() > 0,
    ;
    let parsed = parse_header(b).unwrap();
    assert(parsed.first_frame_offset == h.first_frame_offset);
    assert(parsed.frame_count == h.frame_count);
    assert(parsed.theme_count == h.theme_count);
}

/// Writing back a header just read gives the 64 bytes it was read from, when the
/// bytes the header does not keep (offsets 13, 18 and 19) are zero.
pub proof fn lemma_header_write_undoes_read(b: Seq<u8>)
    requires
        parse_header(b) is Ok,
        b[13] == 0,
        b[18] == 0,
        b[19] == 0,
    ensures
        header_bytes(parse_header(b)->Ok_0) == b.take(64),
{
    let h = parse_header(b)->Ok_0;
    lemma_byte_range_facts(2);
    lemma_byte_range_facts(4);
    lemma_byte_range_facts(8);
    let s14 = b.subrange(14, 16);
    let s16 = b.subrange(16, 18);
    let s18 = b.subrange(18, 20);
    let s20 = b.subrange(20, 24);
    let s24 = b.subrange(24, 28);
    let s28 = b.subrange(28, 32);
    let s32 = b.subrange(32, 40);
    let s40 = b.subrange(40, 48);
    let s48 = b.subrange(48, 56);
    let s56 = b.subrange(56, 64);
    lemma_le_value_bound(s14);
    lemma_le_value_bound(s16);
    lemma_le_value_bound(s20);
    lemma_le_value_bound(s24);
    lemma_le_value_bound(s28);
    lemma_le_value_bound(s32);
    lemma_le_value_bound(s40);
    lemma_le_value_bound(s48);
    lemma_le_value_bound(s56);
    lemma_le_bytes_of_value(s14);
    lemma_le_bytes_of_value(s16);
    lemma_le_bytes_of_value(s18);
    lemma_le_bytes_of_value(s20);
    lemma_le_bytes_of_value(s24);
    lemma_le_bytes_of_value(s28);
    lemma_le_bytes_of_value(s32);
    lemma_le_bytes_of_value(s40);
    lemma_le_bytes_of_value(s48);
    lemma_le_bytes_of_value(s56);
    assert(le_value(s18) == 0) by {
        reveal_with_fuel(le_value, 3);
    }
    let hi = le_value(s28);
    let lo = le_value(s32);
    let ffo = hi * two_pow_64() + lo;
    assert(ffo < 0x1_0000_0000 * two_pow_64()) by (nonlinear_arith)
        requires
            hi < 0x1_0000_0000,
            lo < two_pow_64(),
            ffo == hi * two_pow_64() + lo,
    ;
    assert(h.first_frame_offset as nat == ffo);
    vstd::arithmetic::div_mod::lemma_fundamental_div_mod_converse(
        ffo as int,
        two_pow_64() as int,
        hi as int,
        lo as int,
    );
    assert(MAGIC_DIF@ != MAGIC_DIFR@) by {
        assert(MAGIC_DIF@[3] != MAGIC_DIFR@[3]);
    }
    let magic = if h.is_raw { MAGIC_DIFR@ } else { MAGIC_DIF@ };
    assert(magic =~= b.subrange(0, 8));
    assert(header_bytes(h) =~= b.take(64));
}

// --- pure section (de)serialization (the decompressed forms) --------------

/// The concatenation of `chunks`, in order.
pub open spec fn concat(chunks: Seq<Seq<u8>>) -> Seq<u8>
    decreases chunks.len(),
{
    if chunks.len() == 0 {
        Seq::empty()
    } else {
        concat(chunks.drop_last()) + chunks.last()
    }
}

pub proof fn lemma_concat_push(chunks: Seq<Seq<u8>>, c: Seq<u8>)
    ensures
        concat(chunks.push(c)) == concat(chunks) + c,
{
    assert(chunks.push(c).drop_last() =~= chunks);
}

/// Chunks of one length `l` lie side by side: chunk `j` starts at `j * l`.
pub proof fn lemma_concat_uniform(chunks: Seq<Seq<u8>>, l: nat)
    requires
        forall|j: int| 0 <= j < chunks.len() ==> (#[trigger] chunks[j]).len() == l,
    ensures
        concat(chunks).len() == chunks.len() * l,
        forall|j: int|
            0 <= j < chunks.len() ==> concat(chunks).subrange(j * l, j * l + l) == #[trigger] chunks[j],
    decreases chunks.len(),
{
    if chunks.len() > 0 {
        let init = chunks.drop_last();
        let n = chunks.len();
        lemma_concat_uniform(init, l);
        assert((n - 1) * l + l == n * l) by (nonlinear_arith);
        assert forall|j: int| 0 <= j < chunks.len() implies concat(chunks).subrange(j * l, j * l + l)
            == #[trigger] chunks[j] by {
            if j < n - 1 {
                assert(j * l + l <= (n - 1) * l) by (nonlinear_arith)
                    requires
                        j < n - 1,
                        0 <= j,
                ;
                assert(init[j] == chunks[j]);
                assert(concat(chunks).subrange(j * l, j * l + l) =~= concat(init).subrange(
                    j * l,
                    j * l + l,
                ));
            } else {
                assert(concat(chunks).subrange(j * l, j * l + l) =~= chunks.last());
            }
        }
    }
}

/// `abilities, r, g, b` of one theme.
pub open spec fn theme_bytes(t: Theme) -> Seq<u8> {
    seq![t.abilities, t.base_color[0], t.base_color[1], t.base_color[2]]
}

/// `theme_count * 4` bytes: `abilities, r, g, b` per theme.
pub open spec fn spec_themes_bytes(themes: Seq<Theme>) -> Seq<u8> {
    concat(themes.map_values(|t: Theme| theme_bytes(t)))
}

/// The theme stored at byte `k`.
pub open spec fn theme_at(bytes: Seq<u8>, k: int) -> Theme {
    Theme { abilities: bytes[k], base_color: [bytes[k + 1], bytes[k + 2], bytes[k + 3]] }
}

/// What [`read_themes`] returns.
pub open spec fn spec_read_themes(bytes: Seq<u8>, count: nat) -> DifResult<Seq<Theme>> {
    if bytes.len() < count * 4 {
        Err(DifError::UnexpectedEof)
    } else {
        Ok(Seq::new(count, |i: int| theme_at(bytes, 4 * i)))
    }
}

pub fn themes_bytes(themes: &[Theme], out: &mut Vec<u8>)
    ensures
        final(out)@ == old(out)@ + spec_themes_bytes(themes@),
{
    let ghost start = out@;
    let ghost chunks = themes@.map_values(|t: Theme| theme_bytes(t));
    let mut i: usize = 0;
    assert(chunks.take(0) =~= Seq::<Seq<u8>>::empty());
    while i < themes.len()
        invariant
            i <= themes@.len(),
            chunks == themes@.map_values(|t: Theme| theme_bytes(t)),
            out@ == start + concat(chunks.take(i as int)),
        decreases themes.len() - i,
    {
        let t = themes[i];
        out.push(t.abilities);
        out.push(t.base_color[0]);
        out.push(t.base_color[1]);
        out.push(t.base_color[2]);
        proof {
            assert(chunks.take(i + 1) =~= chunks.take(i as int).push(chunks[i as int]));
            lemma_concat_push(chunks.take(i as int), chunks[i as int]);
            assert(out@ =~= start + concat(chunks.take(i + 1)));
        }
        i = i + 1;
    }
    assert(chunks.take(themes@.len() as int) =~= chunks);
}

pub fn read_themes(bytes: &[u8], count: usize) -> (r: DifResult<Vec<Theme>>)
    requires
        count * 4 <= usize::MAX,
    ensures
        match r {
            Ok(v) => spec_read_themes(bytes@, count as nat) == Ok::<Seq<Theme>, DifError>(v@),
            Err(e) => spec_read_themes(bytes@, count as nat) == Err::<Seq<Theme>, DifError>(e),
        },
{
    if bytes.len() < count * 4 {
        return Err(DifError::UnexpectedEof);
    }
    let mut themes: Vec<Theme> = Vec::new();
    let mut i: usize = 0;
    while i < count
        invariant
            i <= count,
            count * 4 <= bytes@.len(),
            count * 4 <= usize::MAX,
            themes@ =~= Seq::new(i as nat, |q: int| theme_at(bytes@, 4 * q)),
        decreases count - i,
    {
        let k = i * 4;
        themes.push(Theme { abilities: bytes[k], base_color: [bytes[k + 1], bytes[k + 2], bytes[k + 3]] });
        i = i + 1;
    }
    Ok(themes)
}

/// Reading back written themes gives the same themes.
pub proof fn lemma_themes_roundtrip(themes: Seq<Theme>, rest: Seq<u8>)
    ensures
        spec_themes_bytes(themes).len() == themes.len() * 4,
        spec_read_themes(spec_themes_bytes(themes) + rest, themes.len()) == Ok::<Seq<Theme>, DifError>(
            themes,
        ),
{
    let chunks = themes.map_values(|t: Theme| theme_bytes(t));
    lemma_concat_uniform(chunks, 4);
    let b = spec_themes_bytes(themes) + rest;
    assert forall|i: int| 0 <= i < themes.len() implies theme_at(b, 4 * i) == themes[i] by {
        assert(chunks[i] == theme_bytes(themes[i]));
        let sub = concat(chunks).subrange(i * 4, i * 4 + 4);
        assert(sub == chunks[i]);
        assert(b[4 * i] == sub[0]);
        assert(b[4 * i + 1] == sub[1]);
        assert(b[4 * i + 2] == sub[2]);
        assert(b[4 * i + 3] == sub[3]);
        assert(theme_at(b, 4 * i).base_color =~= themes[i].base_color);
    }
    assert(Seq::new(themes.len(), |i: int| theme_at(b, 4 * i)) =~= themes);
}

/// One channel at `depth`: one byte (the low byte) or two little-endian bytes.
pub open spec fn channel_bytes(v: u16, depth: ColorDepth) -> Seq<u8> {
    match depth {
        ColorDepth::Rgba8 => seq![v as u8],
        ColorDepth::Rgba16 => le_bytes(v as nat, 2),
    }
}

/// One color at `depth`: its `r, g, b, a` channels.
pub open spec fn color_bytes(c: Rgba, depth: ColorDepth) -> Seq<u8> {
    channel_bytes(c.r, depth) + channel_bytes(c.g, depth) + channel_bytes(c.b, depth)
        + channel_bytes(c.a, depth)
}

/// One palette: its colors in index order.
pub open spec fn palette_bytes(p: Seq<Rgba>, depth: ColorDepth) -> Seq<u8> {
    concat(p.map_values(|c: Rgba| color_bytes(c, depth)))
}

/// All palettes concatenated: `palettes[theme][index]` as RGBA at `depth`.
pub open spec fn spec_palettes_bytes(palettes: Seq<Seq<Rgba>>, depth: ColorDepth) -> Seq<u8> {
    concat(palettes.map_values(|p: Seq<Rgba>| palette_bytes(p, depth)))
}

/// The channel stored at byte `k`.
pub open spec fn channel_at(bytes: Seq<u8>, k: int, depth: ColorDepth) -> u16 {
    match depth {
        ColorDepth::Rgba8 => bytes[k] as u16,
        ColorDepth::Rgba16 => field(bytes, k, 2) as u16,
    }
}

/// The color stored at byte `k`.
pub open spec fn color_at(bytes: Seq<u8>, k: int, depth: ColorDepth) -> Rgba {
    let w = depth.spec_channel_bytes() as int;
    Rgba {
        r: channel_at(bytes, k, depth),
        g: channel_at(bytes, k + w, depth),
        b: channel_at(bytes, k + 2 * w, depth),
        a: channel_at(bytes, k + 3 * w, depth),
    }
}

/// Bytes per color at `depth`.
pub open spec fn color_len(depth: ColorDepth) -> nat {
    4 * depth.spec_channel_bytes()
}

/// What [`read_palettes`] returns.
pub open spec fn spec_read_palettes(
    bytes: Seq<u8>,
    theme_count: nat,
    index_count: nat,
    depth: ColorDepth,
) -> DifResult<Seq<Seq<Rgba>>> {
    if bytes.len() < theme_count * index_count * color_len(depth) {
        Err(DifError::UnexpectedEof)
    } else {
        Ok(
            Seq::new(
                theme_count,
                |t: int|
                    Seq::new(
                        index_count,
                        |i: int| color_at(bytes, (t * index_count + i) * color_len(depth), depth),
                    ),
            ),
        )
    }
}

fn write_channel(out: &mut Vec<u8>, v: u16, depth: ColorDepth)
    ensures
        final(out)@ == old(out)@ + channel_bytes(v, depth),
{
    match depth {
        ColorDepth::Rgba8 => {
            out.push(v as u8);
            assert(final(out)@ =~= old(out)@ + channel_bytes(v, depth));
        },
        ColorDepth::Rgba16 => push_le(out, v as u64, 2),
    }
}

fn read_channel(bytes: &[u8], pos: &mut usize, depth: ColorDepth) -> (v: u16)
    requires
        *old(pos) + depth.spec_channel_bytes() <= bytes@.len(),
    ensures
        v == channel_at(bytes@, *old(pos) as int, depth),
        *final(pos) == *old(pos) + depth.spec_channel_bytes(),
{
    match depth {
        ColorDepth::Rgba8 => {
            let v = bytes[*pos] as u16;
            *pos = *pos + 1;
            v
        },
        ColorDepth::Rgba16 => {
            let v = read_le(bytes, *pos, 2);
            proof {
                crate::le::lemma_le_value_bound(bytes@.subrange(*old(pos) as int, *old(pos) + 2));
                lemma_byte_range_facts(2);
            }
            assert(bytes@.len() == bytes.len());
            *pos = *pos + 2;
            v as u16
        },
    }
}

fn write_color(out: &mut Vec<u8>, c: Rgba, depth: ColorDepth)
    ensures
        final(out)@ == old(out)@ + color_bytes(c, depth),
{
    let ghost start = out@;
    write_channel(out, c.r, depth);
    write_channel(out, c.g, depth);
    write_channel(out, c.b, depth);
    write_channel(out, c.a, depth);
    assert(out@ =~= start + color_bytes(c, depth));
}

fn palette_bytes_into(pal: &[Rgba], depth: ColorDepth, out: &mut Vec<u8>)
    ensures
        final(out)@ == old(out)@ + palette_bytes(pal@, depth),
{
    let ghost start = out@;
    let ghost chunks = pal@.map_values(|c: Rgba| color_bytes(c, depth));
    let mut i: usize = 0;
    assert(chunks.take(0) =~= Seq::<Seq<u8>>::empty());
    while i < pal.len()
        invariant
            i <= pal@.len(),
            chunks == pal@.map_values(|c: Rgba| color_bytes(c, depth)),
            out@ == start + concat(chunks.take(i as int)),
        decreases pal.len() - i,
    {
        write_color(out, pal[i], depth);
        proof {
            assert(chunks.take(i + 1) =~= chunks.take(i as int).push(chunks[i as int]));
            lemma_concat_push(chunks.take(i as int), chunks[i as int]);
            assert(out@ =~= start + concat(chunks.take(i + 1)));
        }
        i = i + 1;
    }
    assert(chunks.take(pal@.len() as int) =~= chunks);
}

/// All palettes concatenated: `palettes[theme][index]` as RGBA at `depth`.
pub fn palettes_bytes(palettes: &[Vec<Rgba>], depth: ColorDepth, out: &mut Vec<u8>)
    ensures
        final(out)@ == old(out)@ + spec_palettes_bytes(
            palettes@.map_values(|p: Vec<Rgba>| p@),
            depth,
        ),
{
    let ghost start = out@;
    let ghost ps = palettes@.map_values(|p: Vec<Rgba>| p@);
    let ghost chunks = ps.map_values(|p: Seq<Rgba>| palette_bytes(p, depth));
    let mut i: usize = 0;
    assert(chunks.take(0) =~= Seq::<Seq<u8>>::empty());
    while i < palettes.len()
        invariant
            i <= palettes@.len(),
            ps == palettes@.map_values(|p: Vec<Rgba>| p@),
            chunks == ps.map_values(|p: Seq<Rgba>| palette_bytes(p, depth)),
            out@ == start + concat(chunks.take(i as int)),
        decreases palettes.len() - i,
    {
        palette_bytes_into(palettes[i].as_slice(), depth, out);
        proof {
            assert(chunks.take(i + 1) =~= chunks.take(i as int).push(chunks[i as int]));
            lemma_concat_push(chunks.take(i as int), chunks[i as int]);
            assert(out@ =~= start + concat(chunks.take(i + 1)));
        }
        i = i + 1;
    }
    assert(chunks.take(palettes@.len() as int) =~= chunks);
}

/// Read `theme_count` palettes of `index_count` colors each.
pub fn read_palettes(
    bytes: &[u8],
    theme_count: usize,
    index_count: usize,
    depth: ColorDepth,
) -> (r: DifResult<Vec<Vec<Rgba>>>)
    requires
        theme_count * index_count * color_len(depth) <= usize::MAX,
    ensures
        match r {
            Ok(v) => spec_read_palettes(bytes@, theme_count as nat, index_count as nat, depth)
                == Ok::<Seq<Seq<Rgba>>, DifError>(v@.map_values(|p: Vec<Rgba>| p@)),
            Err(e) => spec_read_palettes(bytes@, theme_count as nat, index_count as nat, depth)
                == Err::<Seq<Seq<Rgba>>, DifError>(e),
        },
{
    let cb = depth.color_bytes();
    assert(theme_count * index_count <= theme_count * index_count * cb) by (nonlinear_arith)
        requires
            cb >= 4,
    ;
    let need = theme_count * index_count * cb;
    if bytes.len() < need {
        return Err(DifError::UnexpectedEof);
    }
    let ghost want = spec_read_palettes(bytes@, theme_count as nat, index_count as nat, depth)->Ok_0;
    let ghost cl = color_len(depth) as int;
    let mut pos: usize = 0;
    let mut palettes: Vec<Vec<Rgba>> = Vec::new();
    let mut t: usize = 0;
    while t < theme_count
        invariant
            t <= theme_count,
            cb == cl == color_len(depth),
            need == theme_count * index_count * cb <= bytes@.len(),
            pos == t * index_count * cb,
            want.len() == theme_count,
            want == spec_read_palettes(bytes@, theme_count as nat, index_count as nat, depth)->Ok_0,
            palettes@.len() == t,
            palettes@.map_values(|p: Vec<Rgba>| p@) =~= want.take(t as int),
        decreases theme_count - t,
    {
        let mut pal: Vec<Rgba> = Vec::new();
        let mut i: usize = 0;
        proof {
            assert((t + 1) * index_count * cb <= theme_count * index_count * cb) by (nonlinear_arith)
                requires
                    t < theme_count,
            ;
            assert((t + 1) * index_count * cb == t * index_count * cb + index_count * cb)
                by (nonlinear_arith);
        }
        while i < index_count
            invariant
                i <= index_count,
                t < theme_count,
                cb == cl == color_len(depth),
                need == theme_count * index_count * cb <= bytes@.len(),
                (t + 1) * index_count * cb <= need,
                pos == (t * index_count + i) * cb,
                want.len() == theme_count,
                want == spec_read_palettes(bytes@, theme_count as nat, index_count as nat, depth)->Ok_0,
                pal@ =~= want[t as int].take(i as int),
            decreases index_count - i,
        {
            proof {
                assert((t * index_count + i + 1) * cb <= (t + 1) * index_count * cb) by (nonlinear_arith)
                    requires
                        i < index_count,
                ;
                assert((t * index_count + i + 1) * cb == (t * index_count + i) * cb + cb)
                    by (nonlinear_arith);
            }
            let ghost p0 = pos as int;
            let r = read_channel(bytes, &mut pos, depth);
            let g = read_channel(bytes, &mut pos, depth);
            let b = read_channel(bytes, &mut pos, depth);
            let a = read_channel(bytes, &mut pos, depth);
            pal.push(Rgba::new(r, g, b, a));
            proof {
                assert(color_at(bytes@, p0, depth) == (Rgba { r, g, b, a }));
                assert(want[t as int][i as int] == color_at(bytes@, (t * index_count + i) * cl, depth));
                assert(pal@ =~= want[t as int].take(i + 1));
            }
            i = i + 1;
        }
        proof {
            assert(want[t as int].take(index_count as int) =~= want[t as int]);
            assert(pos == (t + 1) * index_count * cb) by (nonlinear_arith)
                requires
                    pos == (t * index_count + index_count) * cb,
            ;
        }
        let ghost before = palettes@;
        let ghost pal_view = pal@;
        palettes.push(pal);
        proof {
            assert(palettes@ == before.push(palettes@[t as int]));
            assert(palettes@[t as int]@ == pal_view);
            assert(palettes@.map_values(|p: Vec<Rgba>| p@) =~= before.map_values(|p: Vec<Rgba>| p@).push(pal_view));
            assert(want.take(t + 1) =~= want.take(t as int).push(want[t as int]));
        }
        t = t + 1;
    }
    proof {
        assert(want.take(theme_count as int) =~= want);
    }
    Ok(palettes)
}

proof fn lemma_color_len(c: Rgba, depth: ColorDepth)
    ensures
        color_bytes(c, depth).len() == color_len(depth),
{
    crate::le::lemma_le_bytes_len(c.r as nat, 2);
    crate::le::lemma_le_bytes_len(c.g as nat, 2);
    crate::le::lemma_le_bytes_len(c.b as nat, 2);
    crate::le::lemma_le_bytes_len(c.a as nat, 2);
}

proof fn lemma_channel_roundtrip(v: u16, depth: ColorDepth, b: Seq<u8>, k: int)
    requires
        0 <= k,
        k + depth.spec_channel_bytes() <= b.len(),
        b.subrange(k, k + depth.spec_channel_bytes()) == channel_bytes(v, depth),
        v <= depth.spec_max_value(),
    ensures
        channel_at(b, k, depth) == v,
{
    match depth {
        ColorDepth::Rgba8 => {
            assert(b[k] == b.subrange(k, k + 1)[0]);
        },
        ColorDepth::Rgba16 => {
            lemma_byte_range_facts(2);
            lemma_le_roundtrip(v as nat, 2);
        },
    }
}

proof fn lemma_color_roundtrip(c: Rgba, depth: ColorDepth, b: Seq<u8>, k: int)
    requires
        0 <= k,
        k + color_len(depth) <= b.len(),
        b.subrange(k, k + color_len(depth)) == color_bytes(c, depth),
        crate::container::color_fits(c, depth),
    ensures
        color_at(b, k, depth) == c,
{
    let w = depth.spec_channel_bytes() as int;
    let cb = color_bytes(c, depth);
    crate::le::lemma_le_bytes_len(c.r as nat, 2);
    crate::le::lemma_le_bytes_len(c.g as nat, 2);
    crate::le::lemma_le_bytes_len(c.b as nat, 2);
    crate::le::lemma_le_bytes_len(c.a as nat, 2);
    assert(b.subrange(k, k + w) =~= cb.subrange(0, w));
    assert(cb.subrange(0, w) =~= channel_bytes(c.r, depth));
    assert(b.subrange(k + w, k + 2 * w) =~= cb.subrange(w, 2 * w));
    assert(cb.subrange(w, 2 * w) =~= channel_bytes(c.g, depth));
    assert(b.subrange(k + 2 * w, k + 3 * w) =~= cb.subrange(2 * w, 3 * w));
    assert(cb.subrange(2 * w, 3 * w) =~= channel_bytes(c.b, depth));
    assert(b.subrange(k + 3 * w, k + 4 * w) =~= cb.subrange(3 * w, 4 * w));
    assert(cb.subrange(3 * w, 4 * w) =~= channel_bytes(c.a, depth));
    lemma_channel_roundtrip(c.r, depth, b, k);
    lemma_channel_roundtrip(c.g, depth, b, k + w);
    lemma_channel_roundtrip(c.b, depth, b, k + 2 * w);
    lemma_channel_roundtrip(c.a, depth, b, k + 3 * w);
}

proof fn lemma_palette_layout(p: Seq<Rgba>, depth: ColorDepth)
    ensures
        palette_bytes(p, depth).len() == p.len() * color_len(depth),
        forall|i: int|
            0 <= i < p.len() ==> palette_bytes(p, depth).subrange(
                i * color_len(depth),
                i * color_len(depth) + color_len(depth),
            ) == color_bytes(#[trigger] p[i], depth),
{
    let chunks = p.map_values(|c: Rgba| color_bytes(c, depth));
    assert forall|j: int| 0 <= j < chunks.len() implies (#[trigger] chunks[j]).len() == color_len(
        depth,
    ) by {
        lemma_color_len(p[j], depth);
    }
    lemma_concat_uniform(chunks, color_len(depth));
    assert forall|i: int| 0 <= i < p.len() implies palette_bytes(p, depth).subrange(
        i * color_len(depth),
        i * color_len(depth) + color_len(depth),
    ) == color_bytes(#[trigger] p[i], depth) by {
        assert(chunks[i] == color_bytes(p[i], depth));
    }
}

/// Reading back written palettes gives the same palettes, when every palette has
/// `index_count` colors that fit the depth.
pub proof fn lemma_palettes_roundtrip(
    palettes: Seq<Seq<Rgba>>,
    index_count: nat,
    depth: ColorDepth,
    rest: Seq<u8>,
)
    requires
        forall|t: int| 0 <= t < palettes.len() ==> (#[trigger] palettes[t]).len() == index_count,
        forall|t: int, i: int|
            0 <= t < palettes.len() && 0 <= i < index_count ==> crate::container::color_fits(
                #[trigger] palettes[t][i],
                depth,
            ),
    ensures
        spec_palettes_bytes(palettes, depth).len() == palettes.len() * index_count * color_len(
            depth,
        ),
        spec_read_palettes(
            spec_palettes_bytes(palettes, depth) + rest,
            palettes.len(),
            index_count,
            depth,
        ) == Ok::<Seq<Seq<Rgba>>, DifError>(palettes),
{
    let cl = color_len(depth);
    let pl = index_count * cl;
    let chunks = palettes.map_values(|p: Seq<Rgba>| palette_bytes(p, depth));
    assert forall|j: int| 0 <= j < chunks.len() implies (#[trigger] chunks[j]).len() == pl by {
        lemma_palette_layout(palettes[j], depth);
    }
    lemma_concat_uniform(chunks, pl);
    let whole = spec_palettes_bytes(palettes, depth);
    let b = whole + rest;
    assert(palettes.len() * pl == palettes.len() * index_count * cl) by (nonlinear_arith)
        requires
            pl == index_count * cl,
    ;
    let got = Seq::new(
        palettes.len(),
        |t: int| Seq::new(index_count, |i: int| color_at(b, (t * index_count + i) * cl, depth)),
    );
    assert forall|t: int| 0 <= t < palettes.len() implies #[trigger] got[t] == palettes[t] by {
        lemma_palette_layout(palettes[t], depth);
        assert forall|i: int| 0 <= i < index_count implies #[trigger] got[t][i] == palettes[t][i] by {
            let off = (t * index_count + i) * cl;
            assert(off == t * pl + i * cl) by (nonlinear_arith)
                requires
                    off == (t * index_count + i) * cl,
                    pl == index_count * cl,
            ;
            assert(t * pl + i * cl + cl <= t * pl + pl) by (nonlinear_arith)
                requires
                    i < index_count,
                    pl == index_count * cl,
            ;
            assert(t * pl + pl <= palettes.len() * pl) by (nonlinear_arith)
                requires
                    t < palettes.len(),
            ;
            let sub_p = whole.subrange(t * pl, t * pl + pl);
            assert(sub_p == chunks[t]);
            assert(chunks[t] == palette_bytes(palettes[t], depth));
            assert(b.subrange(off, off + cl) =~= sub_p.subrange(i * cl, i * cl + cl));
            lemma_color_roundtrip(palettes[t][i], depth, b, off);
        }
        assert(got[t] =~= palettes[t]);
    }
    assert(got =~= palettes);
}

/// One stored index at a supported width: the low byte, or the low two bytes
/// little-endian.
pub open spec fn index_bytes(i: u64, width: IndexWidth) -> Seq<u8> {
    match width {
        IndexWidth::Bit8 => seq![i as u8],
        _ => le_bytes((i as u16) as nat, 2),
    }
}

/// One frame's index plane at `width`.
pub open spec fn spec_frame_bitmap_bytes(indices: Seq<u64>, width: IndexWidth) -> Seq<u8> {
    concat(indices.map_values(|i: u64| index_bytes(i, width)))
}

/// The index stored at byte `k`.
pub open spec fn index_at(bytes: Seq<u8>, k: int, width: IndexWidth) -> u64 {
    match width {
        IndexWidth::Bit8 => bytes[k] as u64,
        _ => field(bytes, k, 2) as u64,
    }
}

/// What [`read_frame_bitmap`] returns.
pub open spec fn spec_read_frame_bitmap(bytes: Seq<u8>, px: nat, width: IndexWidth) -> DifResult<
    Seq<u64>,
> {
    let w = width.spec_bytes();
    if bytes.len() < px * w {
        Err(DifError::UnexpectedEof)
    } else if !width.spec_supported() {
        Err(DifError::BadIndexWidth((w * 8) as u8))
    } else {
        Ok(Seq::new(px, |i: int| index_at(bytes, i * w, width)))
    }
}

/// One frame's index plane: the indices at `width`.
pub fn frame_bitmap_bytes(indices: &[u64], width: IndexWidth, out: &mut Vec<u8>)
    requires
        width.spec_supported(),
    ensures
        final(out)@ == old(out)@ + spec_frame_bitmap_bytes(indices@, width),
{
    let ghost start = out@;
    let ghost chunks = indices@.map_values(|i: u64| index_bytes(i, width));
    let mut k: usize = 0;
    assert(chunks.take(0) =~= Seq::<Seq<u8>>::empty());
    while k < indices.len()
        invariant
            k <= indices@.len(),
            width.spec_supported(),
            chunks == indices@.map_values(|i: u64| index_bytes(i, width)),
            out@ == start + concat(chunks.take(k as int)),
        decreases indices.len() - k,
    {
        let ghost before = out@;
        let i = indices[k];
        match width {
            IndexWidth::Bit8 => {
                out.push(i as u8);
                assert(out@ =~= before + index_bytes(i, width));
            },
            _ => push_le(out, (i as u16) as u64, 2),
        }
        proof {
            assert(chunks.take(k + 1) =~= chunks.take(k as int).push(chunks[k as int]));
            lemma_concat_push(chunks.take(k as int), chunks[k as int]);
            assert(out@ =~= start + concat(chunks.take(k + 1)));
        }
        k = k + 1;
    }
    assert(chunks.take(indices@.len() as int) =~= chunks);
}

/// Read `px` indices of `width` bytes each.
pub fn read_frame_bitmap(bytes: &[u8], px: usize, width: IndexWidth) -> (r: DifResult<Vec<u64>>)
    requires
        px * width.spec_bytes() <= usize::MAX,
    ensures
        match r {
            Ok(v) => spec_read_frame_bitmap(bytes@, px as nat, width) == Ok::<Seq<u64>, DifError>(v@),
            Err(e) => spec_read_frame_bitmap(bytes@, px as nat, width) == Err::<Seq<u64>, DifError>(e),
        },
{
    let w = width.bytes();
    let need = px * w;
    if bytes.len() < need {
        return Err(DifError::UnexpectedEof);
    }
    if !width.supported() {
        return Err(DifError::BadIndexWidth((w * 8) as u8));
    }
    let mut out: Vec<u64> = Vec::new();
    let mut k: usize = 0;
    while k < px
        invariant
            k <= px,
            w == width.spec_bytes(),
            width.spec_supported(),
            need == px * w <= bytes@.len(),
            out@ =~= Seq::new(k as nat, |i: int| index_at(bytes@, i * w, width)),
        decreases px - k,
    {
        proof {
            assert(k * w + w <= px * w) by (nonlinear_arith)
                requires
                    k < px,
            ;
            assert(k * w + w == (k + 1) * w) by (nonlinear_arith);
        }
        let v: u64 = match width {
            IndexWidth::Bit8 => bytes[k] as u64,
            _ => {
                let x = read_le(bytes, k * 2, 2);
                proof {
                    crate::le::lemma_le_value_bound(bytes@.subrange(k * 2, k * 2 + 2));
                    lemma_byte_range_facts(2);
                }
                x
            },
        };
        out.push(v);
        k = k + 1;
    }
    Ok(out)
}

/// Reading back a written index plane gives the same indices, when each fits the width.
pub proof fn lemma_frame_bitmap_roundtrip(indices: Seq<u64>, width: IndexWidth, rest: Seq<u8>)
    requires
        width.spec_supported(),
        forall|p: int| 0 <= p < indices.len() ==> #[trigger] indices[p] < width.spec_capacity(),
    ensures
        spec_frame_bitmap_bytes(indices, width).len() == indices.len() * width.spec_bytes(),
        spec_read_frame_bitmap(spec_frame_bitmap_bytes(indices, width) + rest, indices.len(), width)
            == Ok::<Seq<u64>, DifError>(indices),
{
    let w = width.spec_bytes();
    let chunks = indices.map_values(|i: u64| index_bytes(i, width));
    assert forall|j: int| 0 <= j < chunks.len() implies (#[trigger] chunks[j]).len() == w by {
        crate::le::lemma_le_bytes_len((indices[j] as u16) as nat, 2);
    }
    lemma_concat_uniform(chunks, w);
    let whole = spec_frame_bitmap_bytes(indices, width);
    let b = whole + rest;
    let got = Seq::new(indices.len(), |i: int| index_at(b, i * w, width));
    assert forall|i: int| 0 <= i < indices.len() implies #[trigger] got[i] == indices[i] by {
        assert(i * w + w <= indices.len() * w) by (nonlinear_arith)
            requires
                i < indices.len(),
        ;
        let sub = whole.subrange(i * w, i * w + w);
        assert(sub == chunks[i]);
        assert(b.subrange(i * w, i * w + w) =~= sub);
        if width == IndexWidth::Bit8 {
            assert(b[i * w] == sub[0]);
        } else {
            lemma_byte_range_facts(2);
            lemma_le_roundtrip((indices[i] as u16) as nat, 2);
        }
    }
    assert(got =~= indices);
}

} // verus!
