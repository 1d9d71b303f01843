//! DIF v3 container: the fixed 64-byte header (see `crate::format`) plus a
//! two-stage codec body.
//!
//! A codec byte packs a 4-bit **family** and a 4-bit **level index** into a
//! per-family level table. Family 0 is `common-pick`; `0/0` is `Store`.
//!
//! Encoding builds the *fully-decompressed* sections (themes, palettes, index
//! planes), compresses each palette/frame section independently (`codec_palette`
//! / `codec_frame`) into the **intermediate body**, then wraps the whole
//! intermediate body in the outer `codec`. With the outer codec set to `Store`
//! the header offsets index frames directly for random-access decode.
//!
//! Decode is level-agnostic: every supported codec's stream is self-describing,
//! so only the family (-> method) and the known raw length are needed.

use vstd::prelude::*;

use crate::backends;
use crate::backends::{
    brotli_compressed, brotli_compressed_multi, brotli_decoded, deflate_compressed, deflate_decoded,
    lz4_compressed, lz4_decoded, zstd_compressed_mt,
    zstd_bound, zstd_compressed, zstd_decoded,
};
use crate::container::{ColorDepth, DifImage, Frame, FrameModel, ImageModel, IndexWidth, Rgba, Theme};
use crate::error::{DifError, DifResult};
use crate::format::{
    color_len, concat, field, header_bytes, parse_header, spec_align16, spec_frame_bitmap_bytes,
    spec_palettes_bytes, spec_read_frame_bitmap, spec_read_palettes, spec_read_themes,
    spec_themes_bytes, zeros, Header, HEADER_LEN,
};
use crate::le::{le_bytes, push_le};
use crate::text::{
    chars_of, first_index_of, lemma_first_index_of, parse_i32, span_is, span_starts_with,
    spec_parse_i32, starts_with,
};
use vstd::string::StrSliceExecFns;

verus! {

/// On-disk codec **family** (the high nibble of a codec byte).
#[derive(Clone, Copy, PartialEq, Eq, Debug, Structural)]
pub enum CodecId {
    /// Benchmark-derived preset table; `level 0` = Store (no compression).
    Common,
    /// DEFLATE (`miniz_oxide`).
    Deflate,
    /// Brotli (`brotli` crate).
    Brotli,
    /// libbsc BWT; not available in this build.
    Bsc,
    /// Zstandard via `zstd-safe`.
    Zstd,
    /// LZ4 block via `lz4_flex`.
    Lz4,
    /// LZAV; not available in this build.
    Lzav,
}

impl CodecId {
    /// The family's number in the high nibble.
    pub open spec fn spec_id(self) -> u8 {
        match self {
            CodecId::Common => 0,
            CodecId::Deflate => 1,
            CodecId::Brotli => 2,
            CodecId::Bsc => 3,
            CodecId::Zstd => 4,
            CodecId::Lz4 => 5,
            CodecId::Lzav => 6,
        }
    }

    pub fn id(self) -> (b: u8)
        ensures
            b == self.spec_id(),
    {
        match self {
            CodecId::Common => 0,
            CodecId::Deflate => 1,
            CodecId::Brotli => 2,
            CodecId::Bsc => 3,
            CodecId::Zstd => 4,
            CodecId::Lz4 => 5,
            CodecId::Lzav => 6,
        }
    }
}

/// Decode/encode method a codec byte resolves to.
#[derive(Clone, Copy, PartialEq, Eq, Debug)]
pub enum Method {
    Store,
    Deflate,
    Brotli,
    Bsc,
    Zstd,
    Lz4,
    Lzav,
}

/// The nominal levels a family's level nibble indexes (empty for `Common`).
pub open spec fn level_table(family: CodecId) -> Seq<int> {
    match family {
        CodecId::Common => seq![],
        CodecId::Deflate => seq![1int, 2, 3, 4, 5, 6, 7, 8, 9, 10, 11, 12],
        CodecId::Brotli => seq![0int, 1, 2, 3, 4, 5, 6, 7, 8, 9, 10, 11],
        CodecId::Bsc => seq![1int, 2, 3],
        CodecId::Zstd => seq![-7int, -5, -3, -1, 1, 2, 3, 6, 8, 10, 12, 14, 16, 18, 20, 22],
        CodecId::Lz4 => seq![
            -512int, -256, -128, -64, -32, -16, -8, -4, -2, -1, 2, 4, 6, 9, 10, 12,
        ],
        CodecId::Lzav => seq![1int, 2],
    }
}

fn levels(family: CodecId) -> (t: Vec<i32>)
    ensures
        t@.map_values(|x: i32| x as int) == level_table(family),
{
    let t = match family {
        CodecId::Common => vec![],
        CodecId::Deflate => vec![1i32, 2, 3, 4, 5, 6, 7, 8, 9, 10, 11, 12],
        CodecId::Brotli => vec![0i32, 1, 2, 3, 4, 5, 6, 7, 8, 9, 10, 11],
        CodecId::Bsc => vec![1i32, 2, 3],
        CodecId::Zstd => vec![-7i32, -5, -3, -1, 1, 2, 3, 6, 8, 10, 12, 14, 16, 18, 20, 22],
        CodecId::Lz4 => vec![
            -512i32, -256, -128, -64, -32, -16, -8, -4, -2, -1, 2, 4, 6, 9, 10, 12,
        ],
        CodecId::Lzav => vec![1i32, 2],
    };
    assert(t@.map_values(|x: i32| x as int) =~= level_table(family));
    t
}

/// The family numbered `f`, if any.
pub open spec fn family_of(f: u8) -> Option<CodecId> {
    if f == 0 {
        Some(CodecId::Common)
    } else if f == 1 {
        Some(CodecId::Deflate)
    } else if f == 2 {
        Some(CodecId::Brotli)
    } else if f == 3 {
        Some(CodecId::Bsc)
    } else if f == 4 {
        Some(CodecId::Zstd)
    } else if f == 5 {
        Some(CodecId::Lz4)
    } else if f == 6 {
        Some(CodecId::Lzav)
    } else {
        None
    }
}

/// The method a family compresses with (`Common` only has `Store`).
pub open spec fn method_of(family: CodecId) -> Method {
    match family {
        CodecId::Common => Method::Store,
        CodecId::Deflate => Method::Deflate,
        CodecId::Brotli => Method::Brotli,
        CodecId::Bsc => Method::Bsc,
        CodecId::Zstd => Method::Zstd,
        CodecId::Lz4 => Method::Lz4,
        CodecId::Lzav => Method::Lzav,
    }
}

/// A packed codec byte: `(family << 4) | level_index`.
#[derive(Clone, Copy, PartialEq, Eq, Debug)]
pub struct Codec(pub u8);

/// The method and nominal level a codec byte stands for, or why it stands for none.
pub open spec fn spec_resolve(c: u8) -> DifResult<(Method, i32)> {
    let lvl = c % 16;
    match family_of(c / 16) {
        None => Err(DifError::BadCodec(c)),
        Some(CodecId::Common) => if lvl == 0 {
            Ok((Method::Store, 0i32))
        } else {
            Err(DifError::BadCodec(c))
        },
        Some(fam) => if lvl < level_table(fam).len() {
            Ok((method_of(fam), level_table(fam)[lvl as int] as i32))
        } else {
            Err(DifError::BadCodec(c))
        },
    }
}

/// A codec byte names its method by its high nibble: 0 stored, 1 DEFLATE,
/// 2 Brotli, 3 BSC, 4 zstd, 5 LZ4, 6 LZAV; every level index of a family's table
/// resolves, and no other byte does.
pub proof fn lemma_resolve_family(c: u8)
    ensures
        spec_resolve(c) is Ok ==> {
            let m = spec_resolve(c)->Ok_0.0;
            &&& (m == Method::Store <==> c / 16 == 0)
            &&& (m == Method::Deflate <==> c / 16 == 1)
            &&& (m == Method::Brotli <==> c / 16 == 2)
            &&& (m == Method::Bsc <==> c / 16 == 3)
            &&& (m == Method::Zstd <==> c / 16 == 4)
            &&& (m == Method::Lz4 <==> c / 16 == 5)
            &&& (m == Method::Lzav <==> c / 16 == 6)
        },
        c / 16 == 1 && c % 16 < 12 ==> spec_resolve(c) == Ok::<(Method, i32), DifError>(
            (Method::Deflate, (c % 16 + 1) as i32),
        ),
        c / 16 == 2 && c % 16 < 12 ==> spec_resolve(c) == Ok::<(Method, i32), DifError>(
            (Method::Brotli, (c % 16) as i32),
        ),
        c / 16 == 4 ==> spec_resolve(c) is Ok && spec_resolve(c)->Ok_0.0 == Method::Zstd,
        c / 16 == 5 ==> spec_resolve(c) is Ok && spec_resolve(c)->Ok_0.0 == Method::Lz4,
        c == 0 ==> spec_resolve(c) == Ok::<(Method, i32), DifError>((Method::Store, 0)),
        c / 16 > 6 ==> spec_resolve(c) == Err::<(Method, i32), DifError>(DifError::BadCodec(c)),
{
}

/// A section whose codec byte is a Brotli one (high nibble 2, level index `q`
/// below 12) is written by the Brotli encoder at quality `q` (single-threaded)
/// and read by the Brotli decoder.
pub proof fn lemma_brotli_sections(c: u8, raw: Seq<u8>, data: Seq<u8>, raw_len: nat)
    requires
        c / 16 == 2,
        c % 16 < 12,
    ensures
        spec_compress_section(c, raw, 0, 0) == lib_outcome(brotli_compressed(raw, c % 16)),
        spec_decompress_section(c, data, raw_len) == lib_outcome(brotli_decoded(data)),
{
    lemma_resolve_family(c);
}

impl Codec {
    pub fn new(family: CodecId, level_index: u8) -> (c: Codec)
        ensures
            c.0 == family.spec_id() * 16 + level_index % 16,
    {
        Codec(family.id() * 16 + level_index % 16)
    }

    /// `Store`: common-pick family, level 0.
    pub fn store() -> (c: Codec)
        ensures
            c.0 == 0,
    {
        Codec(0x00)
    }

    pub fn family(self) -> (f: u8)
        ensures
            f == self.0 / 16,
    {
        self.0 / 16
    }

    pub fn level_index(self) -> (l: usize)
        ensures
            l == self.0 % 16,
    {
        (self.0 % 16) as usize
    }

    /// The method and nominal level this codec byte stands for.
    pub fn resolve(self) -> (r: DifResult<(Method, i32)>)
        ensures
            r == spec_resolve(self.0),
    {
        let lvl = self.level_index();
        let fam = match self.family() {
            0 => {
                if lvl == 0 {
                    return Ok((Method::Store, 0));
                }
                return Err(DifError::BadCodec(self.0));
            },
            1 => CodecId::Deflate,
            2 => CodecId::Brotli,
            3 => CodecId::Bsc,
            4 => CodecId::Zstd,
            5 => CodecId::Lz4,
            6 => CodecId::Lzav,
            _ => {
                return Err(DifError::BadCodec(self.0));
            },
        };
        let table = levels(fam);
        if lvl >= table.len() {
            return Err(DifError::BadCodec(self.0));
        }
        let method = match fam {
            CodecId::Deflate => Method::Deflate,
            CodecId::Brotli => Method::Brotli,
            CodecId::Bsc => Method::Bsc,
            CodecId::Zstd => Method::Zstd,
            CodecId::Lz4 => Method::Lz4,
            _ => Method::Lzav,
        };
        Ok((method, table[lvl]))
    }
}

// --- variant names ---------------------------------------------------------

/// The error every unrecognised codec variant string gets.
pub open spec fn bad_variant() -> DifError {
    DifError::Invalid("unknown codec variant string")
}

/// A family name and the nominal level its bare name stands for.
pub open spec fn family_by_name(f: Seq<char>) -> Option<(CodecId, int)> {
    if f == "deflate"@ || f == "libdeflate"@ {
        Some((CodecId::Deflate, 6))
    } else if f == "brotli"@ {
        Some((CodecId::Brotli, 5))
    } else if f == "bsc"@ {
        Some((CodecId::Bsc, 2))
    } else if f == "zstd"@ {
        Some((CodecId::Zstd, 3))
    } else if f == "lz4"@ {
        Some((CodecId::Lz4, -1))
    } else if f == "lzav"@ {
        Some((CodecId::Lzav, 1))
    } else {
        None
    }
}

/// The stored LZ4 level of HC level `n`. Every HC level `2..=12` is accepted;
/// the level table has room for six of them, so a level without a row of its own
/// is stored as the nearest tabled HC level below it (3 as 2, 5 as 4, 7 and 8 as
/// 6, 11 as 10). The LZ4 encoder does not use the level; it is provenance only.
/// Other values are left as they are.
pub open spec fn lz4_hc_stored(n: int) -> int {
    if n < 2 || n > 12 {
        n
    } else if n >= 12 {
        12
    } else if n >= 10 {
        10
    } else if n >= 9 {
        9
    } else if n >= 6 {
        6
    } else if n >= 4 {
        4
    } else {
        2
    }
}

fn lz4_hc_level(n: i32) -> (r: i32)
    ensures
        r == lz4_hc_stored(n as int),
{
    if n < 2 || n > 12 {
        n
    } else if n >= 12 {
        12
    } else if n >= 10 {
        10
    } else if n >= 9 {
        9
    } else if n >= 6 {
        6
    } else if n >= 4 {
        4
    } else {
        2
    }
}

/// The nominal level a level string names: LZ4 spells `fast<n>` for `-n` and
/// `hc<n>` for HC level `n` (stored as `lz4_hc_stored(n)`); every family takes
/// a bare integer.
pub open spec fn spec_parse_level(fam: CodecId, l: Seq<char>) -> Option<int> {
    if fam == CodecId::Lz4 && starts_with(l, "fast"@) {
        match spec_parse_i32(l.skip("fast"@.len() as int)) {
            Some(v) => Some(-(v as int)),
            None => None,
        }
    } else if fam == CodecId::Lz4 && starts_with(l, "hc"@) {
        match spec_parse_i32(l.skip("hc"@.len() as int)) {
            Some(v) => Some(lz4_hc_stored(v as int)),
            None => None,
        }
    } else {
        match spec_parse_i32(l) {
            Some(v) => Some(v as int),
            None => None,
        }
    }
}

/// The codec a variant string names: `store`, a bare family name (its default
/// level), or `<family>-<level>` for a level in the family's table.
pub open spec fn spec_parse_codec(n: Seq<char>) -> DifResult<Codec> {
    if n == "store"@ {
        Ok(Codec(0))
    } else {
        let (fam_s, lvl_s) = match first_index_of(n, '-') {
            Some(k) => (n.take(k as int), Some(n.skip(k + 1int))),
            None => (n, None::<Seq<char>>),
        };
        match family_by_name(fam_s) {
            None => Err(bad_variant()),
            Some((fam, default)) => {
                let nominal = match lvl_s {
                    None => Some(default),
                    Some(l) => spec_parse_level(fam, l),
                };
                match nominal {
                    None => Err(bad_variant()),
                    Some(v) => match first_index_of(level_table(fam), v) {
                        None => Err(bad_variant()),
                        Some(p) => Ok(Codec((fam.spec_id() * 16 + p) as u8)),
                    },
                }
            },
        }
    }
}

/// The family named by `n[0..k]`, with its default level.
fn family_named(n: &Vec<char>, k: usize) -> (r: Option<(CodecId, i32)>)
    requires
        k <= n.len(),
    ensures
        match family_by_name(n@.subrange(0, k as int)) {
            None => r is None,
            Some((f, d)) => r == Some((f, d as i32)),
        },
{
    if span_is(n, 0, k, "deflate") || span_is(n, 0, k, "libdeflate") {
        Some((CodecId::Deflate, 6))
    } else if span_is(n, 0, k, "brotli") {
        Some((CodecId::Brotli, 5))
    } else if span_is(n, 0, k, "bsc") {
        Some((CodecId::Bsc, 2))
    } else if span_is(n, 0, k, "zstd") {
        Some((CodecId::Zstd, 3))
    } else if span_is(n, 0, k, "lz4") {
        Some((CodecId::Lz4, -1))
    } else if span_is(n, 0, k, "lzav") {
        Some((CodecId::Lzav, 1))
    } else {
        None
    }
}

/// The nominal level `n[from..]` names for `fam` (see `spec_parse_level`).
fn parse_level(fam: CodecId, n: &Vec<char>, from: usize) -> (r: Option<i64>)
    requires
        from <= n.len(),
    ensures
        match spec_parse_level(fam, n@.skip(from as int)) {
            None => r is None,
            Some(v) => r == Some(v as i64),
        },
{
    let to = n.len();
    let ghost l = n@.skip(from as int);
    assert(l =~= n@.subrange(from as int, to as int));
    if fam == CodecId::Lz4 && span_starts_with(n, from, to, "fast") {
        let k = "fast".unicode_len();
        assert(l.skip("fast"@.len() as int) =~= n@.subrange((from + k) as int, to as int));
        return match parse_i32(n, from + k, to) {
            Some(v) => Some(0 - (v as i64)),
            None => None,
        };
    }
    if fam == CodecId::Lz4 && span_starts_with(n, from, to, "hc") {
        let k = "hc".unicode_len();
        assert(l.skip("hc"@.len() as int) =~= n@.subrange((from + k) as int, to as int));
        return match parse_i32(n, from + k, to) {
            Some(v) => Some(lz4_hc_level(v) as i64),
            None => None,
        };
    }
    match parse_i32(n, from, to) {
        Some(v) => Some(v as i64),
        None => None,
    }
}

impl Codec {
    /// Parse a variant string (`"store"`, `"zstd-3"`, `"brotli-11"`, `"lz4-fast1"`,
    /// `"libdeflate-6"`, ...) into a codec byte. A bare family name stands for its
    /// default level.
    pub fn parse(name: &str) -> (r: DifResult<Codec>)
        ensures
            r == spec_parse_codec(name@),
    {
        let n = chars_of(name);
        if span_is(&n, 0, n.len(), "store") {
            assert(n@.subrange(0, n@.len() as int) =~= n@);
            return Ok(Codec::store());
        }
        assert(n@.subrange(0, n@.len() as int) =~= n@);
        let mut k: usize = 0;
        while k < n.len() && n[k] != '-'
            invariant
                k <= n.len(),
                forall|j: int| 0 <= j < k ==> n@[j] != '-',
            decreases n.len() - k,
        {
            k = k + 1;
        }
        proof {
            lemma_first_index_of(n@, '-', k as int);
            if k == n.len() {
                assert(n@.take(k as int) =~= n@);
            }
        }
        assert(n@.take(k as int) =~= n@.subrange(0, k as int));
        let (fam, default) = match family_named(&n, k) {
            None => {
                return Err(DifError::Invalid("unknown codec variant string"));
            },
            Some(f) => f,
        };
        let nominal: Option<i64> = if k == n.len() {
            Some(default as i64)
        } else {
            parse_level(fam, &n, k + 1)
        };
        let v = match nominal {
            None => {
                return Err(DifError::Invalid("unknown codec variant string"));
            },
            Some(v) => v,
        };
        let table = levels(fam);
        let mut p: usize = 0;
        while p < table.len() && (table[p] as i64) != v
            invariant
                p <= table.len(),
                table@.map_values(|x: i32| x as int) == level_table(fam),
                forall|j: int| 0 <= j < p ==> level_table(fam)[j] != v as int,
            decreases table.len() - p,
        {
            assert(level_table(fam)[p as int] == table@[p as int] as int);
            p = p + 1;
        }
        proof {
            if p < table.len() {
                assert(level_table(fam)[p as int] == table@[p as int] as int);
            }
            lemma_first_index_of(level_table(fam), v as int, p as int);
        }
        if p == table.len() {
            return Err(DifError::Invalid("unknown codec variant string"));
        }
        assert(p < 16);
        Ok(Codec::new(fam, p as u8))
    }
}

// --- section (de)compression ---------------------------------------------

/// `v` limited to `lo..=hi`.
pub open spec fn clamp(v: i32, lo: i32, hi: i32) -> i32 {
    if v < lo { lo } else if v > hi { hi } else { v }
}

fn clamp_level(v: i32, lo: i32, hi: i32) -> (r: i32)
    requires
        lo <= hi,
    ensures
        r == clamp(v, lo, hi),
{
    if v < lo { lo } else if v > hi { hi } else { v }
}

/// Why a method that this build does not carry cannot run. LZAV and BSC are C
/// libraries with no Rust crate, so they are never carried; zstd is, through
/// `zstd-safe`, though a build of the C codecs carries LZAV beside it.
pub open spec fn unavailable(method: Method) -> DifError {
    if method == Method::Lzav {
        DifError::Invalid("lzav codec requires a C-codec feature")
    } else {
        DifError::Invalid("bsc codec requires the `bsc` feature")
    }
}

/// An outside outcome as a library result: `None` is a library failure.
pub open spec fn lib_outcome(o: Option<Seq<u8>>) -> DifResult<Seq<u8>> {
    match o {
        Some(v) => Ok(v),
        None => Err(DifError::CompressionFailed),
    }
}

/// The Brotli worker count for an encoder thread budget: `1..=16`.
pub open spec fn brotli_threads(workers: u32) -> nat {
    if workers < 1 {
        1
    } else if workers > 16 {
        16
    } else {
        workers as nat
    }
}

/// What compressing `data` with `method` at nominal `level` gives, with an
/// encoder thread budget of `workers` and zstd job size `job` (0: zstd's
/// default). Brotli at quality 10 or more runs `brotli_threads(workers)` workers
/// when `workers > 1`; zstd runs `workers` worker threads when `workers > 0`;
/// every other method ignores both.
pub open spec fn spec_compress(method: Method, level: i32, data: Seq<u8>, workers: u32, job: u32) -> DifResult<Seq<u8>> {
    match method {
        Method::Store => Ok(data),
        Method::Deflate => Ok(deflate_compressed(data, clamp(level, 0, 10) as u8)),
        Method::Brotli => {
            let q = clamp(level, 0, 11) as u8;
            if workers > 1 && q >= 10 {
                lib_outcome(brotli_compressed_multi(data, q, brotli_threads(workers)))
            } else {
                lib_outcome(brotli_compressed(data, q))
            }
        },
        Method::Zstd => if workers > 0 {
            lib_outcome(zstd_compressed_mt(data, level, workers, job, zstd_bound(data.len())))
        } else {
            lib_outcome(zstd_compressed(data, level, zstd_bound(data.len())))
        },
        Method::Lz4 => Ok(lz4_compressed(data)),
        Method::Lzav => Err(unavailable(method)),
        Method::Bsc => Err(unavailable(method)),
    }
}

/// What decompressing `data` with `method`, expecting `raw_len` bytes, gives.
pub open spec fn spec_decompress(method: Method, data: Seq<u8>, raw_len: nat) -> DifResult<
    Seq<u8>,
> {
    match method {
        Method::Store => if data.len() < raw_len {
            Err(DifError::UnexpectedEof)
        } else {
            Ok(data.take(raw_len as int))
        },
        Method::Deflate => lib_outcome(deflate_decoded(data)),
        Method::Brotli => lib_outcome(brotli_decoded(data)),
        Method::Zstd => lib_outcome(zstd_decoded(data, raw_len)),
        Method::Lz4 => lib_outcome(lz4_decoded(data, raw_len)),
        Method::Lzav => Err(unavailable(method)),
        Method::Bsc => Err(unavailable(method)),
    }
}

/// Decompressing what compression produced gives the input back.
pub open spec fn decodes_back(method: Method, compressed: Seq<u8>, data: Seq<u8>) -> bool {
    spec_decompress(method, compressed, data.len()) == Ok::<Seq<u8>, DifError>(data)
}

/// A library result carrying a vector, seen as its bytes.
pub open spec fn bytes_result(r: DifResult<Vec<u8>>) -> DifResult<Seq<u8>> {
    match r {
        Ok(v) => Ok(v@),
        Err(e) => Err(e),
    }
}

fn slice_to_vec(data: &[u8]) -> (v: Vec<u8>)
    ensures
        v@ == data@,
{
    let mut v: Vec<u8> = Vec::new();
    let mut i: usize = 0;
    while i < data.len()
        invariant
            i <= data@.len(),
            v@ == data@.take(i as int),
        decreases data.len() - i,
    {
        v.push(data[i]);
        assert(data@.take(i + 1) =~= data@.take(i as int).push(data@[i as int]));
        i = i + 1;
    }
    assert(data@.take(data@.len() as int) =~= data@);
    v
}

fn zstd_compress(data: &[u8], level: i32, workers: u32, job: u32) -> (r: DifResult<Vec<u8>>)
    ensures
        bytes_result(r) == spec_compress(Method::Zstd, level, data@, workers, job),
        r matches Ok(v) ==> decodes_back(Method::Zstd, v@, data@),
{
    let bound = backends::zstd_compress_bound(data.len());
    let mut out: Vec<u8> = vec![0u8; bound];
    let res = if workers > 0 {
        backends::zstd_compress_mt_into(&mut out, data, level, workers, job)
    } else {
        backends::zstd_compress_into(&mut out, data, level)
    };
    match res {
        Ok(n) => {
            out.truncate(n);
            Ok(out)
        },
        Err(_) => Err(DifError::CompressionFailed),
    }
}

fn zstd_decompress(data: &[u8], raw_len: usize) -> (r: DifResult<Vec<u8>>)
    ensures
        bytes_result(r) == spec_decompress(Method::Zstd, data@, raw_len as nat),
{
    let mut out: Vec<u8> = vec![0u8; raw_len];
    match backends::zstd_decompress_into(&mut out, data) {
        Ok(n) => {
            out.truncate(n);
            Ok(out)
        },
        Err(_) => Err(DifError::CompressionFailed),
    }
}

/// Compress `data` with `method` at nominal `level` and encoder thread budget
/// `workers` (see `spec_compress`).
pub fn compress(method: Method, level: i32, data: &[u8], workers: u32) -> (r: DifResult<Vec<u8>>)
    ensures
        bytes_result(r) == spec_compress(method, level, data@, workers, 0),
        r matches Ok(v) ==> decodes_back(method, v@, data@),
{
    match method {
        Method::Store => {
            let v = slice_to_vec(data);
            assert(data@.take(data@.len() as int) =~= data@);
            Ok(v)
        },
        Method::Deflate => Ok(backends::deflate_compress(data, clamp_level(level, 0, 10) as u8)),
        Method::Brotli => {
            let q = clamp_level(level, 0, 11) as u8;
            if workers > 1 && q >= 10 {
                let threads: usize = if workers > 16 {
                    16
                } else {
                    workers as usize
                };
                match backends::brotli_compress_multi(data, q, threads) {
                    Ok(v) => Ok(v),
                    Err(_) => Err(DifError::CompressionFailed),
                }
            } else {
                match backends::brotli_compress(data, q) {
                    Ok(v) => Ok(v),
                    Err(_) => Err(DifError::CompressionFailed),
                }
            }
        },
        Method::Zstd => zstd_compress(data, level, workers, 0),
        Method::Lz4 => Ok(backends::lz4_compress(data)),
        Method::Lzav => Err(DifError::Invalid("lzav codec requires a C-codec feature")),
        Method::Bsc => Err(DifError::Invalid("bsc codec requires the `bsc` feature")),
    }
}

/// Decompress `data` with `method`, expecting `raw_len` bytes.
pub fn decompress(method: Method, data: &[u8], raw_len: usize) -> (r: DifResult<Vec<u8>>)
    ensures
        bytes_result(r) == spec_decompress(method, data@, raw_len as nat),
{
    match method {
        Method::Store => {
            if data.len() < raw_len {
                return Err(DifError::UnexpectedEof);
            }
            let v = slice_to_vec(data.split_at(raw_len).0);
            Ok(v)
        },
        Method::Deflate => match backends::deflate_decompress(data) {
            Ok(v) => Ok(v),
            Err(_) => Err(DifError::CompressionFailed),
        },
        Method::Brotli => match backends::brotli_decompress(data) {
            Ok(v) => Ok(v),
            Err(_) => Err(DifError::CompressionFailed),
        },
        Method::Zstd => zstd_decompress(data, raw_len),
        Method::Lz4 => match backends::lz4_decompress(data, raw_len) {
            Ok(v) => Ok(v),
            Err(_) => Err(DifError::CompressionFailed),
        },
        Method::Lzav => Err(DifError::Invalid("lzav codec requires a C-codec feature")),
        Method::Bsc => Err(DifError::Invalid("bsc codec requires the `bsc` feature")),
    }
}

/// What compressing a section with codec byte `c` gives, with encoder thread
/// budget `workers` and zstd job size `job`.
pub open spec fn spec_compress_section(c: u8, raw: Seq<u8>, workers: u32, job: u32) -> DifResult<Seq<u8>> {
    match spec_resolve(c) {
        Ok((method, level)) => spec_compress(method, level, raw, workers, job),
        Err(e) => Err(e),
    }
}

/// What decompressing a section with codec byte `c` gives.
pub open spec fn spec_decompress_section(c: u8, data: Seq<u8>, raw_len: nat) -> DifResult<
    Seq<u8>,
> {
    match spec_resolve(c) {
        Ok((method, _)) => spec_decompress(method, data, raw_len),
        Err(e) => Err(e),
    }
}

/// Compress one section with codec byte `codec` and encoder thread budget
/// `workers`.
pub fn compress_section(codec: Codec, raw: &[u8], workers: u32) -> (r: DifResult<Vec<u8>>)
    ensures
        bytes_result(r) == spec_compress_section(codec.0, raw@, workers, 0),
        r matches Ok(v) ==> spec_decompress_section(codec.0, v@, raw@.len()) == Ok::<
            Seq<u8>,
            DifError,
        >(raw@),
{
    let (method, level) = codec.resolve()?;
    compress(method, level, raw, workers)
}

/// Compress one frame's index plane with split factor `k` and zstd job size
/// `job`: zstd takes both, every other family goes through `compress`.
fn compress_frame(codec: Codec, raw: &[u8], k: u32, job: u32) -> (r: DifResult<Vec<u8>>)
    ensures
        bytes_result(r) == spec_compress_section(codec.0, raw@, k, job),
        r matches Ok(v) ==> spec_decompress_section(codec.0, v@, raw@.len()) == Ok::<
            Seq<u8>,
            DifError,
        >(raw@),
{
    let (method, level) = codec.resolve()?;
    match method {
        Method::Zstd => zstd_compress(raw, level, k, job),
        _ => compress(method, level, raw, k),
    }
}

pub fn decompress_section(codec: Codec, data: &[u8], raw_len: usize) -> (r: DifResult<Vec<u8>>)
    ensures
        bytes_result(r) == spec_decompress_section(codec.0, data@, raw_len as nat),
{
    let (method, _) = codec.resolve()?;
    decompress(method, data, raw_len)
}

// --- container assembly ---------------------------------------------------

/// `s` followed by zeros up to the next multiple of 16.
pub open spec fn pad16(s: Seq<u8>) -> Seq<u8> {
    s + zeros((spec_align16(s.len()) - s.len()) as nat)
}

/// The raw (decompressed) index plane of one frame.
pub open spec fn frame_raw(f: FrameModel, iw: IndexWidth) -> Seq<u8> {
    spec_frame_bitmap_bytes(f.indices, iw)
}

/// The compressed frame sections in frame order, or the first frame's error,
/// each frame compressed with split factor `w` and zstd job size `jb`.
pub open spec fn spec_compress_frames(frames: Seq<FrameModel>, iw: IndexWidth, c: u8, w: u32, jb: u32) -> DifResult<
    Seq<Seq<u8>>,
>
    decreases frames.len(),
{
    if frames.len() == 0 {
        Ok(Seq::empty())
    } else {
        match spec_compress_frames(frames.drop_last(), iw, c, w, jb) {
            Err(e) => Err(e),
            Ok(blobs) => match spec_compress_section(c, frame_raw(frames.last(), iw), w, jb) {
                Err(e) => Err(e),
                Ok(b) => Ok(blobs.push(b)),
            },
        }
    }
}

/// `a` or `b`, whichever is larger.
pub open spec fn max_nat(a: nat, b: nat) -> nat {
    if a < b { b } else { a }
}

/// The uniform frame-record stride: the 16-aligned size of the largest record
/// (12 header bytes plus the blob), at least 16.
pub open spec fn stride(blobs: Seq<Seq<u8>>) -> nat
    decreases blobs.len(),
{
    if blobs.len() == 0 {
        16
    } else {
        max_nat(stride(blobs.drop_last()), spec_align16(12 + blobs.last().len()))
    }
}

/// One frame record: `size:u64` (12 + blob length), `delay:u32`, the blob, zeros
/// up to `alignment`.
pub open spec fn frame_record(delay: u32, blob: Seq<u8>, alignment: nat) -> Seq<u8> {
    le_bytes(12 + blob.len(), 8) + le_bytes(delay as nat, 4) + blob + zeros(
        (alignment - 12 - blob.len()) as nat,
    )
}

/// All frame records, in frame order.
pub open spec fn frame_records(frames: Seq<FrameModel>, blobs: Seq<Seq<u8>>, alignment: nat) -> Seq<
    u8,
> {
    concat(
        Seq::new(blobs.len(), |j: int| frame_record(frames[j].delay_us, blobs[j], alignment)),
    )
}

/// Themes, padded, then the palette blob, padded: everything before the frames.
pub open spec fn pre_frames(img: ImageModel, pal_blob: Seq<u8>) -> Seq<u8> {
    pad16(pad16(spec_themes_bytes(img.themes)) + pal_blob)
}

/// The intermediate body: themes | pad16 | palette blob | pad16 | frame records.
pub open spec fn intermediate_body(img: ImageModel, pal_blob: Seq<u8>, blobs: Seq<Seq<u8>>) -> Seq<
    u8,
> {
    pre_frames(img, pal_blob) + frame_records(img.frames, blobs, stride(blobs))
}

/// The raw palette section of an image.
pub open spec fn palette_raw(img: ImageModel) -> Seq<u8> {
    spec_palettes_bytes(img.palettes, img.color_depth)
}

/// Whether the container's sizes are addressable on this machine.
pub open spec fn layout_fits(pal_blob: Seq<u8>, blobs: Seq<Seq<u8>>, pre_len: nat) -> bool {
    &&& pal_blob.len() + 2048 <= usize::MAX
    &&& forall|j: int| 0 <= j < blobs.len() ==> (#[trigger] blobs[j]).len() + 27 <= usize::MAX
    &&& pre_len + blobs.len() * stride(blobs) <= usize::MAX
}

/// The error for a container larger than the machine can address.
pub open spec fn too_large() -> DifError {
    DifError::Invalid("image too large for this machine")
}

/// The header an encoding writes.
pub open spec fn header_of(
    img: ImageModel,
    is_raw: bool,
    outer: u8,
    palette: u8,
    frame: u8,
    pal_blob: Seq<u8>,
    blobs: Seq<Seq<u8>>,
) -> Header {
    Header {
        is_raw,
        codec: outer,
        flags: (img.index_width.spec_bits() + img.color_depth.spec_bits() * 4) as u8,
        codec_palette: palette,
        codec_frame: frame,
        theme_count: img.themes.len() as usize,
        frame_count: img.frames.len() as usize,
        replay_count: img.replay_count,
        width: img.width,
        height: img.height,
        first_frame_offset: (64 + pre_frames(img, pal_blob).len()) as u128,
        frame_alignment: stride(blobs) as u64,
        index_count: img.index_count() as u64,
        palette_size: pal_blob.len() as u64,
    }
}

/// The palette section an encoding compresses, under encoder thread budget
/// `workers`.
pub open spec fn encoded_palette(img: ImageModel, palette: u8, workers: u32) -> DifResult<Seq<u8>> {
    spec_compress_section(palette, palette_raw(img), workers, 0)
}

/// The frame sections an encoding compresses, under encoder thread budget
/// `workers`: split `frame_split` ways with job size `FRAME_JOB_SIZE`.
pub open spec fn encoded_frames(img: ImageModel, frame: u8, workers: u32) -> DifResult<Seq<Seq<u8>>> {
    spec_compress_frames(
        img.frames,
        img.index_width,
        frame,
        frame_split(img.frames, img.index_width, workers, FRAME_JOB_SIZE),
        job_u32(FRAME_JOB_SIZE),
    )
}

/// The container bytes an encoding of `img` produces under encoder thread
/// budget `workers`, or its error.
pub open spec fn spec_encode(img: ImageModel, is_raw: bool, outer: u8, palette: u8, frame: u8, workers: u32) -> DifResult<
    Seq<u8>,
> {
    match img.validation() {
        Err(e) => Err(e),
        Ok(_) => match encoded_palette(img, palette, workers) {
            Err(e) => Err(e),
            Ok(pal_blob) => match encoded_frames(img, frame, workers) {
                Err(e) => Err(e),
                Ok(blobs) => if !layout_fits(
                    pal_blob,
                    blobs,
                    pre_frames(img, pal_blob).len(),
                ) {
                    Err(too_large())
                } else {
                    match spec_compress_section(outer, intermediate_body(img, pal_blob, blobs), workers, 0) {
                        Err(e) => Err(e),
                        Ok(body) => Ok(
                            header_bytes(header_of(img, is_raw, outer, palette, frame, pal_blob, blobs))
                                + body,
                        ),
                    }
                },
            },
        },
    }
}

fn append(out: &mut Vec<u8>, data: &[u8])
    ensures
        final(out)@ == old(out)@ + data@,
{
    let ghost start = out@;
    let mut i: usize = 0;
    while i < data.len()
        invariant
            i <= data@.len(),
            out@ == start + data@.take(i as int),
        decreases data.len() - i,
    {
        out.push(data[i]);
        assert(data@.take(i + 1) =~= data@.take(i as int).push(data@[i as int]));
        i = i + 1;
    }
    assert(data@.take(data@.len() as int) =~= data@);
}

fn push_zeros(out: &mut Vec<u8>, n: usize)
    ensures
        final(out)@ == old(out)@ + zeros(n as nat),
{
    let ghost start = out@;
    let mut i: usize = 0;
    while i < n
        invariant
            i <= n,
            out@ == start + zeros(i as nat),
        decreases n - i,
    {
        out.push(0);
        assert(zeros((i + 1) as nat) =~= zeros(i as nat).push(0u8));
        i = i + 1;
    }
}

fn pad_to_16(buf: &mut Vec<u8>)
    requires
        old(buf)@.len() + 15 <= usize::MAX,
    ensures
        final(buf)@ == pad16(old(buf)@),
{
    let n = crate::format::align16(buf.len());
    let k = n - buf.len();
    push_zeros(buf, k);
}

/// The job size the encoder hands zstd for each frame when frames are split:
/// 4 MiB.
pub const FRAME_JOB_SIZE: usize = 0x40_0000;

/// The longest frame, in indices.
pub open spec fn max_frame_len(frames: Seq<FrameModel>) -> nat
    decreases frames.len(),
{
    if frames.len() == 0 {
        0
    } else {
        max_nat(max_frame_len(frames.drop_last()), frames.last().indices.len())
    }
}

/// The in-frame split factor `k` for `frames` under an encoder thread budget of
/// `workers` and job size `job_size`. With `T = max(workers, 1)` threads and
/// `n` frames: when `n == 0` or `n >= T` each frame runs single-threaded (`0`);
/// otherwise `k = max(1, min(ceil(T / n), max(1, S / max(J, 1))))` where `S` is
/// the largest index plane in bytes (saturated at `usize::MAX`) and `J` the job
/// size.
pub open spec fn frame_split(frames: Seq<FrameModel>, iw: IndexWidth, workers: u32, job_size: usize) -> u32 {
    let n = frames.len();
    let t: nat = if workers < 1 { 1 } else { workers as nat };
    if n == 0 || n >= t {
        0
    } else {
        let s: nat = if max_frame_len(frames) * iw.spec_bytes() > usize::MAX {
            usize::MAX as nat
        } else {
            max_frame_len(frames) * iw.spec_bytes()
        };
        let by_threads: nat = ((t + n - 1) as int / n as int) as nat;
        let j: nat = if job_size < 1 { 1 } else { job_size as nat };
        let by_size: nat = if s / j < 1 { 1 } else { s / j };
        let k: nat = if by_threads < by_size { by_threads } else { by_size };
        (if k < 1 { 1 } else { k }) as u32
    }
}

/// A job size as zstd takes it, saturated at `u32::MAX`.
pub open spec fn job_u32(job_size: usize) -> u32 {
    if job_size > u32::MAX { u32::MAX } else { job_size as u32 }
}

/// The in-frame split factor of `frames` (see `frame_split`).
pub fn split_factor(frames: &[Frame], iw: IndexWidth, workers: u32, job_size: usize) -> (k: u32)
    ensures
        k == frame_split(frames@.map_values(|f: Frame| f@), iw, workers, job_size),
{
    let ghost fs = frames@.map_values(|f: Frame| f@);
    let n = frames.len();
    let t: u64 = if workers < 1 { 1 } else { workers as u64 };
    if n == 0 || n as u64 >= t {
        return 0;
    }
    let mut longest: usize = 0;
    let mut i: usize = 0;
    assert(fs.take(0) =~= Seq::<FrameModel>::empty());
    while i < n
        invariant
            i <= n == frames@.len(),
            fs == frames@.map_values(|f: Frame| f@),
            longest == max_frame_len(fs.take(i as int)),
        decreases n - i,
    {
        let l = frames[i].indices.len();
        proof {
            assert(fs.take(i + 1).drop_last() =~= fs.take(i as int));
            assert(fs.take(i + 1).last() == fs[i as int]);
        }
        if l > longest {
            longest = l;
        }
        i = i + 1;
    }
    assert(fs.take(n as int) =~= fs);
    let s: usize = match longest.checked_mul(iw.bytes()) {
        Some(v) => v,
        None => usize::MAX,
    };
    let nn = n as u64;
    let by_threads: u64 = (t + nn - 1) / nn;
    let j: usize = if job_size < 1 { 1 } else { job_size };
    let by_size: usize = if s / j < 1 { 1 } else { s / j };
    let k: u64 = if by_threads < by_size as u64 { by_threads } else { by_size as u64 };
    assert(by_threads <= t) by (nonlinear_arith)
        requires
            by_threads as int == (t + nn - 1) as int / nn as int,
            nn >= 1,
            t >= 1,
    ;
    if k < 1 {
        1
    } else {
        k as u32
    }
}

/// Compress every frame's index plane, in frame order. With fewer frames than
/// the encoder thread budget `workers`, each frame is split `k` ways (see
/// `frame_split`) with zstd job size `job_size`; otherwise each frame runs
/// single-threaded.
pub fn compress_frames(
    frames: &[Frame],
    iw: IndexWidth,
    codec: Codec,
    workers: u32,
    job_size: usize,
) -> (r: DifResult<Vec<Vec<u8>>>)
    requires
        iw.spec_supported(),
    ensures
        ({
            let fs = frames@.map_values(|f: Frame| f@);
            let k = frame_split(fs, iw, workers, job_size);
            match r {
                Ok(blobs) => spec_compress_frames(fs, iw, codec.0, k, job_u32(job_size)) == Ok::<
                    Seq<Seq<u8>>,
                    DifError,
                >(blobs@.map_values(|b: Vec<u8>| b@)),
                Err(e) => spec_compress_frames(fs, iw, codec.0, k, job_u32(job_size)) == Err::<
                    Seq<Seq<u8>>,
                    DifError,
                >(e),
            }
        }),
        r matches Ok(blobs) ==> forall|j: int|
            0 <= j < blobs@.len() ==> spec_decompress_section(
                codec.0,
                (#[trigger] blobs@[j])@,
                frame_raw(frames@[j]@, iw).len(),
            ) == Ok::<Seq<u8>, DifError>(frame_raw(frames@[j]@, iw)),
{
    let ghost fs = frames@.map_values(|f: Frame| f@);
    let k = split_factor(frames, iw, workers, job_size);
    let js: u32 = if job_size > 0xFFFF_FFFF { 0xFFFF_FFFF } else { job_size as u32 };
    assert(js == job_u32(job_size));
    let mut blobs: Vec<Vec<u8>> = Vec::new();
    let mut j: usize = 0;
    assert(fs.take(0) =~= Seq::<FrameModel>::empty());
    assert(blobs@.map_values(|b: Vec<u8>| b@) =~= Seq::<Seq<u8>>::empty());
    while j < frames.len()
        invariant
            j <= frames@.len(),
            iw.spec_supported(),
            fs == frames@.map_values(|f: Frame| f@),
            k == frame_split(fs, iw, workers, job_size),
            js == job_u32(job_size),
            blobs@.len() == j,
            spec_compress_frames(fs.take(j as int), iw, codec.0, k, js) == Ok::<Seq<Seq<u8>>, DifError>(
                blobs@.map_values(|b: Vec<u8>| b@),
            ),
            forall|q: int|
                0 <= q < j ==> spec_decompress_section(
                    codec.0,
                    (#[trigger] blobs@[q])@,
                    frame_raw(frames@[q]@, iw).len(),
                ) == Ok::<Seq<u8>, DifError>(frame_raw(frames@[q]@, iw)),
        decreases frames.len() - j,
    {
        let mut raw: Vec<u8> = Vec::new();
        crate::format::frame_bitmap_bytes(frames[j].indices.as_slice(), iw, &mut raw);
        proof {
            assert(fs.take(j + 1).drop_last() =~= fs.take(j as int));
            assert(fs.take(j + 1).last() == fs[j as int]);
            assert(raw@ == frame_raw(fs[j as int], iw));
        }
        let blob = match compress_frame(codec, raw.as_slice(), k, js) {
            Ok(b) => b,
            Err(e) => {
                proof {
                    assert(spec_compress_frames(fs.take(j + 1), iw, codec.0, k, js) == Err::<
                        Seq<Seq<u8>>,
                        DifError,
                    >(e));
                    lemma_compress_frames_error_stays(fs, iw, codec.0, k, js, (j + 1) as nat);
                }
                return Err(e);
            },
        };
        let ghost before = blobs@;
        let ghost bv = blob@;
        blobs.push(blob);
        proof {
            assert(blobs@ == before.push(blobs@[j as int]));
            assert(blobs@.map_values(|b: Vec<u8>| b@) =~= before.map_values(|b: Vec<u8>| b@).push(bv));
        }
        j = j + 1;
    }
    assert(fs.take(frames@.len() as int) =~= fs);
    Ok(blobs)
}

/// An error among the first `k` frames is the error of all of them.
proof fn lemma_compress_frames_error_stays(
    fs: Seq<FrameModel>,
    iw: IndexWidth,
    c: u8,
    w: u32,
    jb: u32,
    k: nat,
)
    requires
        k <= fs.len(),
        spec_compress_frames(fs.take(k as int), iw, c, w, jb) is Err,
    ensures
        spec_compress_frames(fs, iw, c, w, jb) == spec_compress_frames(fs.take(k as int), iw, c, w, jb),
    decreases fs.len() - k,
{
    if k == fs.len() {
        assert(fs.take(k as int) =~= fs);
    } else {
        assert(fs.take((k + 1) as int).drop_last() =~= fs.take(k as int));
        assert(spec_compress_frames(fs.take((k + 1) as int), iw, c, w, jb) == spec_compress_frames(fs.take(k as int), iw, c, w, jb));
        lemma_compress_frames_error_stays(fs, iw, c, w, jb, k + 1);
    }
}

/// The stride of `blobs`, or the machine-size error.
fn stride_of(blobs: &Vec<Vec<u8>>) -> (r: DifResult<usize>)
    ensures
        match r {
            Ok(a) => a == stride(blobs@.map_values(|b: Vec<u8>| b@)) && forall|j: int|
                0 <= j < blobs@.len() ==> (#[trigger] blobs@[j])@.len() + 27 <= usize::MAX,
            Err(e) => e == too_large() && exists|j: int|
                0 <= j < blobs@.len() && (#[trigger] blobs@[j])@.len() + 27 > usize::MAX,
        },
{
    let ghost bs = blobs@.map_values(|b: Vec<u8>| b@);
    let mut a: usize = 16;
    let mut j: usize = 0;
    assert(bs.take(0) =~= Seq::<Seq<u8>>::empty());
    while j < blobs.len()
        invariant
            j <= blobs@.len(),
            bs == blobs@.map_values(|b: Vec<u8>| b@),
            a == stride(bs.take(j as int)),
            forall|q: int| 0 <= q < j ==> (#[trigger] blobs@[q])@.len() + 27 <= usize::MAX,
        decreases blobs.len() - j,
    {
        let n = blobs[j].len();
        if n > usize::MAX - 27 {
            assert(blobs@[j as int]@.len() + 27 > usize::MAX);
            return Err(DifError::Invalid("image too large for this machine"));
        }
        let s = crate::format::align16(12 + n);
        proof {
            assert(bs.take(j + 1).drop_last() =~= bs.take(j as int));
            assert(bs.take(j + 1).last() == blobs@[j as int]@);
        }
        if s > a {
            a = s;
        }
        j = j + 1;
    }
    assert(bs.take(blobs@.len() as int) =~= bs);
    Ok(a)
}

/// Compressed frames come one per frame, each the compression of its frame.
pub proof fn lemma_compress_frames_ok(fs: Seq<FrameModel>, iw: IndexWidth, c: u8, w: u32, jb: u32)
    requires
        spec_compress_frames(fs, iw, c, w, jb) is Ok,
    ensures
        spec_compress_frames(fs, iw, c, w, jb)->Ok_0.len() == fs.len(),
        forall|j: int|
            0 <= j < fs.len() ==> spec_compress_section(c, frame_raw(#[trigger] fs[j], iw), w, jb) == Ok::<
                Seq<u8>,
                DifError,
            >(spec_compress_frames(fs, iw, c, w, jb)->Ok_0[j]),
    decreases fs.len(),
{
    if fs.len() > 0 {
        let init = fs.drop_last();
        lemma_compress_frames_ok(init, iw, c, w, jb);
        let bs = spec_compress_frames(fs, iw, c, w, jb)->Ok_0;
        let bi = spec_compress_frames(init, iw, c, w, jb)->Ok_0;
        assert forall|j: int| 0 <= j < fs.len() implies spec_compress_section(
            c,
            frame_raw(#[trigger] fs[j], iw),
            w,
            jb,
        ) == Ok::<Seq<u8>, DifError>(bs[j]) by {
            if j < fs.len() - 1 {
                assert(init[j] == fs[j]);
                assert(bs[j] == bi[j]);
            }
        }
    }
}

/// Every record fits the stride, and the stride is a positive multiple of 16.
pub proof fn lemma_stride_bound(blobs: Seq<Seq<u8>>)
    ensures
        stride(blobs) >= 16,
        stride(blobs) % 16 == 0,
        forall|j: int| 0 <= j < blobs.len() ==> 12 + (#[trigger] blobs[j]).len() <= stride(blobs),
    decreases blobs.len(),
{
    if blobs.len() > 0 {
        let init = blobs.drop_last();
        lemma_stride_bound(init);
        assert forall|j: int| 0 <= j < blobs.len() implies 12 + (#[trigger] blobs[j]).len() <= stride(
            blobs,
        ) by {
            if j < blobs.len() - 1 {
                assert(init[j] == blobs[j]);
            }
        }
    }
}

proof fn lemma_encoding_decodes(
    img: &DifImage,
    blobs: &Vec<Vec<u8>>,
    m: ImageModel,
    is_raw: bool,
    outer: u8,
    palette: u8,
    frame: u8,
    pal_blob: Seq<u8>,
    body: Seq<u8>,
)
    requires
        m == img@,
        m.valid(),
        blobs@.len() == m.frames.len(),
        layout_fits(pal_blob, blobs@.map_values(|b: Vec<u8>| b@), pre_frames(m, pal_blob).len()),
        palette_raw(m).len() <= usize::MAX,
        m.pixel_count() * m.index_width.spec_bytes() <= usize::MAX,
        spec_decompress_section(palette, pal_blob, palette_raw(m).len()) == Ok::<Seq<u8>, DifError>(
            palette_raw(m),
        ),
        forall|j: int|
            0 <= j < blobs@.len() ==> spec_decompress_section(
                frame,
                (#[trigger] blobs@[j])@,
                frame_raw(img.frames@[j]@, m.index_width).len(),
            ) == Ok::<Seq<u8>, DifError>(frame_raw(img.frames@[j]@, m.index_width)),
        spec_decompress_section(
            outer,
            body,
            intermediate_body(m, pal_blob, blobs@.map_values(|b: Vec<u8>| b@)).len(),
        ) == Ok::<Seq<u8>, DifError>(
            intermediate_body(m, pal_blob, blobs@.map_values(|b: Vec<u8>| b@)),
        ),
    ensures
        spec_decode(
            header_bytes(
                header_of(
                    m,
                    is_raw,
                    outer,
                    palette,
                    frame,
                    pal_blob,
                    blobs@.map_values(|b: Vec<u8>| b@),
                ),
            ) + body,
        ) == Ok::<ImageModel, DifError>(m),
{
    let bs = blobs@.map_values(|b: Vec<u8>| b@);
    assert forall|q: int| 0 <= q < m.frames.len() implies spec_decompress_section(
        frame,
        #[trigger] bs[q],
        frame_raw(m.frames[q], m.index_width).len(),
    ) == Ok::<Seq<u8>, DifError>(frame_raw(m.frames[q], m.index_width)) by {
        assert(bs[q] == blobs@[q]@);
        assert(m.frames[q] == img.frames@[q]@);
    }
    lemma_decode_of_encoding(m, is_raw, outer, palette, frame, pal_blob, bs, body);
}

#[verifier::rlimit(60)]
fn encode(img: &DifImage, is_raw: bool, outer: Codec, palette: Codec, frame: Codec, workers: u32) -> (r: DifResult<
    Vec<u8>,
>)
    ensures
        bytes_result(r) == spec_encode(img@, is_raw, outer.0, palette.0, frame.0, workers),
        r matches Ok(b) ==> (img@.pixel_count() * img@.index_width.spec_bytes() <= usize::MAX
            ==> spec_decode(b@) == Ok::<ImageModel, DifError>(img@)),
{
    let ghost m = img@;
    img.validate()?;
    let depth = img.color_depth;
    let iw = img.index_width;
    let mut raw_pal: Vec<u8> = Vec::new();
    crate::format::palettes_bytes(img.palettes.as_slice(), depth, &mut raw_pal);
    assert(raw_pal@ == palette_raw(m));
    let pal_blob = compress_section(palette, raw_pal.as_slice(), workers)?;
    let blobs = compress_frames(img.frames.as_slice(), iw, frame, workers, FRAME_JOB_SIZE)?;
    let ghost fs = m.frames;
    let ghost bs = blobs@.map_values(|b: Vec<u8>| b@);
    assert(fs == img.frames@.map_values(|f: Frame| f@));
    proof {
        lemma_compress_frames_ok(
            fs,
            iw,
            frame.0,
            frame_split(fs, iw, workers, FRAME_JOB_SIZE),
            job_u32(FRAME_JOB_SIZE),
        );
    }
    if pal_blob.len() > usize::MAX - 2048 {
        return Err(DifError::Invalid("image too large for this machine"));
    }
    let alignment = match stride_of(&blobs) {
        Ok(a) => a,
        Err(e) => {
            proof {
                let j = choose|j: int|
                    0 <= j < blobs@.len() && (#[trigger] blobs@[j])@.len() + 27 > usize::MAX;
                assert(bs[j].len() == blobs@[j]@.len());
            }
            return Err(e);
        },
    };
    proof {
        lemma_stride_bound(bs);
    }
    let mut mid: Vec<u8> = Vec::new();
    crate::format::themes_bytes(img.themes.as_slice(), &mut mid);
    proof {
        crate::format::lemma_themes_roundtrip(m.themes, Seq::empty());
    }
    pad_to_16(&mut mid);
    append(&mut mid, pal_blob.as_slice());
    pad_to_16(&mut mid);
    let first_frame_start = mid.len();
    let ghost pre = mid@;
    assert(pre == pre_frames(m, pal_blob@));
    let n = blobs.len();
    let total_ok = match n.checked_mul(alignment) {
        None => false,
        Some(x) => match first_frame_start.checked_add(x) {
            None => false,
            Some(_) => true,
        },
    };
    if !total_ok {
        return Err(DifError::Invalid("image too large for this machine"));
    }
    assert(layout_fits(pal_blob@, bs, pre.len()));
    let ghost records = Seq::new(
        bs.len(),
        |q: int| frame_record(fs[q].delay_us, bs[q], alignment as nat),
    );
    let mut j: usize = 0;
    assert(records.take(0) =~= Seq::<Seq<u8>>::empty());
    while j < n
        invariant
            j <= n == blobs@.len() == bs.len() == fs.len(),
            bs == blobs@.map_values(|b: Vec<u8>| b@),
            fs == img.frames@.map_values(|f: Frame| f@),
            alignment == stride(bs),
            forall|q: int| 0 <= q < bs.len() ==> 12 + (#[trigger] bs[q]).len() <= stride(bs),
            records == Seq::new(
                bs.len(),
                |q: int| frame_record(fs[q].delay_us, bs[q], alignment as nat),
            ),
            mid@ == pre + concat(records.take(j as int)),
        decreases n - j,
    {
        let blob = &blobs[j];
        assert(12 + bs[j as int].len() <= alignment);
        let ghost before = mid@;
        push_le(&mut mid, (12 + blob.len()) as u64, 8);
        push_le(&mut mid, img.frames[j].delay_us as u64, 4);
        append(&mut mid, blob.as_slice());
        push_zeros(&mut mid, alignment - 12 - blob.len());
        proof {
            assert(mid@ =~= before + records[j as int]);
            assert(records.take(j + 1) =~= records.take(j as int).push(records[j as int]));
            crate::format::lemma_concat_push(records.take(j as int), records[j as int]);
        }
        j = j + 1;
    }
    proof {
        assert(records.take(n as int) =~= records);
        assert(mid@ == intermediate_body(m, pal_blob@, bs));
    }
    let body = compress_section(outer, mid.as_slice(), workers)?;
    let header = Header {
        is_raw,
        codec: outer.0,
        flags: iw.to_bits() + depth.to_bits() * 4,
        codec_palette: palette.0,
        codec_frame: frame.0,
        theme_count: img.themes.len(),
        frame_count: img.frames.len(),
        replay_count: img.replay_count,
        width: img.width,
        height: img.height,
        first_frame_offset: (HEADER_LEN as u128) + (first_frame_start as u128),
        frame_alignment: alignment as u64,
        index_count: img.index_count() as u64,
        palette_size: pal_blob.len() as u64,
    };
    assert(header == header_of(m, is_raw, outer.0, palette.0, frame.0, pal_blob@, bs));
    let mut out: Vec<u8> = Vec::new();
    header.write(&mut out);
    append(&mut out, body.as_slice());
    assert(out@ =~= header_bytes(header) + body@);
    proof {
        if m.pixel_count() * m.index_width.spec_bytes() <= usize::MAX {
            assert(palette_raw(m).len() == raw_pal.len());
            lemma_encoding_decodes(img, &blobs, m, is_raw, outer.0, palette.0, frame.0, pal_blob@, body@);
        }
    }
    Ok(out)
}

// --- container parsing -----------------------------------------------------

/// Where frame `j`'s record starts in the intermediate body.
pub open spec fn frame_start(ffi: nat, alignment: nat, j: nat) -> nat {
    ffi + j * alignment
}

/// Decoding frame `j`'s record from the intermediate body `mid`.
pub open spec fn spec_decode_frame(
    mid: Seq<u8>,
    ffi: nat,
    alignment: nat,
    j: nat,
    codec_frame: u8,
    px: nat,
    iw: IndexWidth,
) -> DifResult<FrameModel> {
    let fstart = frame_start(ffi, alignment, j);
    if fstart + 12 > mid.len() {
        Err(DifError::UnexpectedEof)
    } else {
        let size = field(mid, fstart as int, 8) as usize as nat;
        let delay = field(mid, fstart + 8 as int, 4) as u32;
        if size < 12 || fstart + size > mid.len() {
            Err(DifError::Invalid("bad frame record size"))
        } else {
            match spec_decompress_section(
                codec_frame,
                mid.subrange(fstart + 12 as int, fstart + size as int),
                px * iw.spec_bytes(),
            ) {
                Err(e) => Err(e),
                Ok(raw) => match spec_read_frame_bitmap(raw, px, iw) {
                    Err(e) => Err(e),
                    Ok(indices) => Ok(FrameModel { delay_us: delay, indices }),
                },
            }
        }
    }
}

/// Decoding the first `n` frames, in order; the first failing frame's error.
pub open spec fn spec_decode_frames(
    mid: Seq<u8>,
    ffi: nat,
    alignment: nat,
    n: nat,
    codec_frame: u8,
    px: nat,
    iw: IndexWidth,
) -> DifResult<Seq<FrameModel>>
    decreases n,
{
    if n == 0 {
        Ok(Seq::empty())
    } else {
        match spec_decode_frames(mid, ffi, alignment, (n - 1) as nat, codec_frame, px, iw) {
            Err(e) => Err(e),
            Ok(fs) => match spec_decode_frame(
                mid,
                ffi,
                alignment,
                (n - 1) as nat,
                codec_frame,
                px,
                iw,
            ) {
                Err(e) => Err(e),
                Ok(f) => Ok(fs.push(f)),
            },
        }
    }
}

/// Decoding from the intermediate body on, once the header's fields are known.
pub open spec fn spec_decode_body(
    h: Header,
    depth: ColorDepth,
    iw: IndexWidth,
    ffi: nat,
    alignment: nat,
    px: nat,
    mid: Seq<u8>,
) -> DifResult<ImageModel> {
    let t = h.theme_count as nat;
    let cc = h.index_count as usize as nat;
    match spec_read_themes(mid, t) {
        Err(e) => Err(e),
        Ok(themes) => {
            let ps = spec_align16(t * 4);
            let psize = h.palette_size as usize as nat;
            if ps + psize > usize::MAX {
                Err(DifError::UnexpectedEof)
            } else if ps + psize > mid.len() || ffi < ps {
                Err(DifError::Invalid("palette section out of bounds"))
            } else if t * cc * color_len(depth) > usize::MAX {
                Err(DifError::UnexpectedEof)
            } else {
                match spec_decompress_section(
                    h.codec_palette,
                    mid.subrange(ps as int, (ps + psize) as int),
                    t * cc * color_len(depth),
                ) {
                    Err(e) => Err(e),
                    Ok(raw_pal) => match spec_read_palettes(raw_pal, t, cc, depth) {
                        Err(e) => Err(e),
                        Ok(palettes) => if px * iw.spec_bytes() > usize::MAX {
                            Err(DifError::UnexpectedEof)
                        } else {
                            match spec_decode_frames(
                                mid,
                                ffi,
                                alignment,
                                h.frame_count as nat,
                                h.codec_frame,
                                px,
                                iw,
                            ) {
                                Err(e) => Err(e),
                                Ok(frames) => {
                                    let img = ImageModel {
                                        width: h.width,
                                        height: h.height,
                                        color_depth: depth,
                                        index_width: iw,
                                        themes,
                                        palettes,
                                        frames,
                                        replay_count: h.replay_count,
                                    };
                                    match img.validation() {
                                        Err(e) => Err(e),
                                        Ok(_) => Ok(img),
                                    }
                                },
                            }
                        },
                    },
                }
            }
        },
    }
}

/// Decoding once the header is parsed.
pub open spec fn spec_decode_with(bytes: Seq<u8>, h: Header) -> DifResult<ImageModel> {
    match h.spec_color_depth() {
        Err(e) => Err(e),
        Ok(depth) => {
            let iw = h.spec_index_width()->Ok_0;
            let t = h.theme_count as nat;
            let px = h.width as nat * h.height as nat;
            let alignment = h.frame_alignment as usize as nat;
            if !iw.spec_supported() {
                Err(DifError::BadIndexWidth((iw.spec_bytes() * 8) as u8))
            } else if t == 0 || t > 256 {
                Err(DifError::BadThemeCount(h.theme_count))
            } else if px > usize::MAX {
                Err(DifError::UnexpectedEof)
            } else if h.first_frame_offset < 64 {
                Err(DifError::UnexpectedEof)
            } else if alignment == 0 || alignment % 16 != 0 {
                Err(DifError::Unaligned(alignment as u64))
            } else {
                let ffi = (h.first_frame_offset - 64) as usize as nat;
                if ffi + h.frame_count * alignment > usize::MAX {
                    Err(DifError::UnexpectedEof)
                } else {
                    let mid_len = (ffi + h.frame_count * alignment) as nat;
                    match spec_decompress_section(h.codec, bytes.skip(64), mid_len) {
                        Err(e) => Err(e),
                        Ok(mid) => if mid.len() < mid_len {
                            Err(DifError::UnexpectedEof)
                        } else {
                            spec_decode_body(h, depth, iw, ffi, alignment, px, mid)
                        },
                    }
                }
            }
        },
    }
}

/// What decoding the container `bytes` gives.
pub open spec fn spec_decode(bytes: Seq<u8>) -> DifResult<ImageModel> {
    match parse_header(bytes) {
        Err(e) => Err(e),
        Ok(h) => spec_decode_with(bytes, h),
    }
}

/// A library result carrying an image, seen as its model.
pub open spec fn image_result(r: DifResult<DifImage>) -> DifResult<ImageModel> {
    match r {
        Ok(img) => Ok(img@),
        Err(e) => Err(e),
    }
}

fn decode_frame(
    mid: &[u8],
    ffi: usize,
    alignment: usize,
    j: usize,
    codec_frame: Codec,
    px: usize,
    iw: IndexWidth,
) -> (r: DifResult<Frame>)
    requires
        ffi + j * alignment <= usize::MAX,
        px * iw.spec_bytes() <= usize::MAX,
    ensures
        match r {
            Ok(f) => spec_decode_frame(mid@, ffi as nat, alignment as nat, j as nat, codec_frame.0, px as nat, iw)
                == Ok::<FrameModel, DifError>(f@),
            Err(e) => spec_decode_frame(mid@, ffi as nat, alignment as nat, j as nat, codec_frame.0, px as nat, iw)
                == Err::<FrameModel, DifError>(e),
        },
{
    let fstart = ffi + j * alignment;
    if fstart > mid.len() || mid.len() - fstart < 12 {
        return Err(DifError::UnexpectedEof);
    }
    let size = crate::le::read_le(mid, fstart, 8) as usize;
    let delay = crate::le::read_le(mid, fstart + 8, 4);
    proof {
        crate::le::lemma_le_value_bound(mid@.subrange(fstart + 8, fstart + 12));
        crate::le::lemma_byte_range_facts(4);
    }
    if size < 12 || size > mid.len() - fstart {
        return Err(DifError::Invalid("bad frame record size"));
    }
    let blob = vstd::slice::slice_subrange(mid, fstart + 12, fstart + size);
    let raw = decompress_section(codec_frame, blob, px * iw.bytes())?;
    let indices = crate::format::read_frame_bitmap(raw.as_slice(), px, iw)?;
    Ok(Frame { delay_us: delay as u32, indices })
}

#[verifier::loop_isolation(false)]
fn decode(bytes: &[u8]) -> (r: DifResult<DifImage>)
    ensures
        image_result(r) == spec_decode(bytes@),
{
    let h = Header::read(bytes)?;
    let depth = h.color_depth()?;
    let iw = h.index_width()?;
    if !iw.supported() {
        return Err(DifError::BadIndexWidth((iw.bytes() * 8) as u8));
    }
    let t = h.theme_count;
    if t == 0 || t > 256 {
        return Err(DifError::BadThemeCount(t));
    }
    let cc = #[verifier::truncate] (h.index_count as usize);
    let px = match (h.width as usize).checked_mul(h.height as usize) {
        Some(p) => p,
        None => {
            return Err(DifError::UnexpectedEof);
        },
    };
    let body = bytes.split_at(HEADER_LEN).1;
    if h.first_frame_offset < 64 {
        return Err(DifError::UnexpectedEof);
    }
    let first_frame_internal = #[verifier::truncate] ((h.first_frame_offset - 64) as usize);
    let alignment = h.frame_alignment as usize;
    if alignment == 0 || alignment % 16 != 0 {
        return Err(DifError::Unaligned(alignment as u64));
    }
    let span = match h.frame_count.checked_mul(alignment) {
        Some(x) => x,
        None => {
            return Err(DifError::UnexpectedEof);
        },
    };
    let mid_len = match first_frame_internal.checked_add(span) {
        Some(x) => x,
        None => {
            return Err(DifError::UnexpectedEof);
        },
    };
    let mid = decompress_section(Codec(h.codec), body, mid_len)?;
    if mid.len() < mid_len {
        return Err(DifError::UnexpectedEof);
    }
    let themes = crate::format::read_themes(mid.as_slice(), t)?;
    let palette_start = crate::format::align16(t * 4);
    let palette_size = h.palette_size as usize;
    let pal_end = match palette_start.checked_add(palette_size) {
        Some(x) => x,
        None => {
            return Err(DifError::UnexpectedEof);
        },
    };
    if pal_end > mid.len() || first_frame_internal < palette_start {
        return Err(DifError::Invalid("palette section out of bounds"));
    }
    let pal_blob = vstd::slice::slice_subrange(mid.as_slice(), palette_start, pal_end);
    let cb = depth.color_bytes();
    let raw_pal_len = match t.checked_mul(cc) {
        Some(x) => match x.checked_mul(cb) {
            Some(y) => y,
            None => {
                return Err(DifError::UnexpectedEof);
            },
        },
        None => {
            proof {
                assert(t * cc <= t * cc * cb) by (nonlinear_arith)
                    requires
                        cb >= 4,
                ;
            }
            return Err(DifError::UnexpectedEof);
        },
    };
    let raw_pal = decompress_section(Codec(h.codec_palette), pal_blob, raw_pal_len)?;
    let palettes = crate::format::read_palettes(raw_pal.as_slice(), t, cc, depth)?;
    let bm_len = match px.checked_mul(iw.bytes()) {
        Some(x) => x,
        None => {
            return Err(DifError::UnexpectedEof);
        },
    };
    let ghost midv = mid@;
    let mut frames: Vec<Frame> = Vec::new();
    let mut j: usize = 0;
    assert(frames@.map_values(|f: Frame| f@) =~= Seq::<FrameModel>::empty());
    while j < h.frame_count
        invariant
            j <= h.frame_count,
            midv == mid@,
            first_frame_internal + h.frame_count * alignment <= usize::MAX,
            px * iw.spec_bytes() <= usize::MAX,
            frames@.len() == j,
            spec_decode_frames(midv, first_frame_internal as nat, alignment as nat, j as nat, h.codec_frame, px as nat, iw)
                == Ok::<Seq<FrameModel>, DifError>(frames@.map_values(|f: Frame| f@)),
        decreases h.frame_count - j,
    {
        proof {
            assert(j * alignment <= h.frame_count * alignment) by (nonlinear_arith)
                requires
                    j <= h.frame_count,
            ;
        }
        let f = match decode_frame(mid.as_slice(), first_frame_internal, alignment, j, Codec(h.codec_frame), px, iw) {
            Ok(f) => f,
            Err(e) => {
                proof {
                    lemma_decode_frames_error_stays(midv, first_frame_internal as nat, alignment as nat, h.frame_count as nat, (j + 1) as nat, h.codec_frame, px as nat, iw);
                }
                return Err(e);
            },
        };
        let ghost before = frames@;
        let ghost fv = f@;
        frames.push(f);
        proof {
            assert(frames@ == before.push(frames@[j as int]));
            assert(frames@.map_values(|f: Frame| f@) =~= before.map_values(|f: Frame| f@).push(fv));
        }
        j = j + 1;
    }
    let img = DifImage {
        width: h.width,
        height: h.height,
        color_depth: depth,
        index_width: iw,
        themes,
        palettes,
        frames,
        replay_count: h.replay_count,
    };
    img.validate()?;
    Ok(img)
}

/// An error among the first `k` frames is the error of the first `n`.
proof fn lemma_decode_frames_error_stays(
    mid: Seq<u8>,
    ffi: nat,
    alignment: nat,
    n: nat,
    k: nat,
    codec_frame: u8,
    px: nat,
    iw: IndexWidth,
)
    requires
        k <= n,
        spec_decode_frames(mid, ffi, alignment, k, codec_frame, px, iw) is Err,
    ensures
        spec_decode_frames(mid, ffi, alignment, n, codec_frame, px, iw) == spec_decode_frames(
            mid,
            ffi,
            alignment,
            k,
            codec_frame,
            px,
            iw,
        ),
    decreases n - k,
{
    if k < n {
        lemma_decode_frames_error_stays(mid, ffi, alignment, n, k + 1, codec_frame, px, iw);
    }
}

// --- what decoding an encoding gives -----------------------------------------

proof fn lemma_record_len(delay: u32, blob: Seq<u8>, a: nat)
    requires
        12 + blob.len() <= a,
    ensures
        frame_record(delay, blob, a).len() == a,
{
    crate::le::lemma_le_bytes_len(12 + blob.len(), 8);
    crate::le::lemma_le_bytes_len(delay as nat, 4);
}

/// Frame records lie side by side, one stride each.
proof fn lemma_records_layout(frames: Seq<FrameModel>, blobs: Seq<Seq<u8>>, a: nat)
    requires
        forall|j: int| 0 <= j < blobs.len() ==> 12 + (#[trigger] blobs[j]).len() <= a,
    ensures
        frame_records(frames, blobs, a).len() == blobs.len() * a,
        forall|j: int|
            0 <= j < blobs.len() ==> frame_records(frames, blobs, a).subrange(j * a, j * a + a)
                == frame_record(frames[j].delay_us, #[trigger] blobs[j], a),
{
    let recs = Seq::new(blobs.len(), |j: int| frame_record(frames[j].delay_us, blobs[j], a));
    assert forall|j: int| 0 <= j < recs.len() implies (#[trigger] recs[j]).len() == a by {
        lemma_record_len(frames[j].delay_us, blobs[j], a);
    }
    crate::format::lemma_concat_uniform(recs, a);
    assert forall|j: int| 0 <= j < blobs.len() implies frame_records(frames, blobs, a).subrange(
        j * a,
        j * a + a,
    ) == frame_record(frames[j].delay_us, #[trigger] blobs[j], a) by {
        assert(recs[j] == frame_record(frames[j].delay_us, blobs[j], a));
    }
}

/// The record of one frame decodes back to that frame.
proof fn lemma_decode_frame_of_record(
    mid: Seq<u8>,
    ffi: nat,
    a: nat,
    j: nat,
    codec_frame: u8,
    px: nat,
    iw: IndexWidth,
    f: FrameModel,
    blob: Seq<u8>,
    cc: nat,
)
    requires
        frame_start(ffi, a, j) + a <= mid.len(),
        mid.subrange(frame_start(ffi, a, j) as int, (frame_start(ffi, a, j) + a) as int) == frame_record(
            f.delay_us,
            blob,
            a,
        ),
        12 + blob.len() <= a,
        a + 15 <= usize::MAX,
        iw.spec_supported(),
        f.indices.len() == px,
        cc <= iw.spec_capacity(),
        forall|p: int| 0 <= p < f.indices.len() ==> #[trigger] f.indices[p] < cc,
        spec_decompress_section(codec_frame, blob, frame_raw(f, iw).len()) == Ok::<
            Seq<u8>,
            DifError,
        >(frame_raw(f, iw)),
    ensures
        spec_decode_frame(mid, ffi, a, j, codec_frame, px, iw) == Ok::<FrameModel, DifError>(f),
{
    let fs = frame_start(ffi, a, j) as int;
    let rec = frame_record(f.delay_us, blob, a);
    let size = 12 + blob.len();
    crate::le::lemma_byte_range_facts(8);
    crate::le::lemma_byte_range_facts(4);
    crate::le::lemma_le_roundtrip(size, 8);
    crate::le::lemma_le_roundtrip(f.delay_us as nat, 4);
    assert(mid.subrange(fs, fs + 8) =~= rec.subrange(0, 8));
    assert(rec.subrange(0, 8) =~= le_bytes(size, 8));
    assert(mid.subrange(fs + 8, fs + 12) =~= rec.subrange(8, 12));
    assert(rec.subrange(8, 12) =~= le_bytes(f.delay_us as nat, 4));
    assert(field(mid, fs, 8) == size);
    assert(field(mid, fs + 8, 4) == f.delay_us as nat);
    assert(size as usize as nat == size);
    assert(rec.subrange(12, 12 + blob.len() as int) =~= blob);
    assert(mid.subrange(fs + 12, fs + size) =~= rec.subrange(12, 12 + blob.len() as int));
    crate::format::lemma_frame_bitmap_roundtrip(f.indices, iw, Seq::empty());
    assert(frame_raw(f, iw) + Seq::<u8>::empty() =~= frame_raw(f, iw));
    assert(frame_raw(f, iw).len() == px * iw.spec_bytes()) by (nonlinear_arith)
        requires
            frame_raw(f, iw).len() == f.indices.len() * iw.spec_bytes(),
            f.indices.len() == px,
    ;
}

/// All records decode back to their frames.
proof fn lemma_decode_frames_of_records(
    mid: Seq<u8>,
    ffi: nat,
    a: nat,
    k: nat,
    codec_frame: u8,
    px: nat,
    iw: IndexWidth,
    frames: Seq<FrameModel>,
    blobs: Seq<Seq<u8>>,
    cc: nat,
)
    requires
        k <= frames.len() == blobs.len(),
        ffi + frames.len() * a <= mid.len(),
        mid.subrange(ffi as int, (ffi + frames.len() * a) as int) == frame_records(frames, blobs, a),
        forall|j: int| 0 <= j < blobs.len() ==> 12 + (#[trigger] blobs[j]).len() <= a,
        a + 15 <= usize::MAX,
        iw.spec_supported(),
        cc <= iw.spec_capacity(),
        forall|j: int| 0 <= j < frames.len() ==> (#[trigger] frames[j]).indices.len() == px,
        forall|j: int, p: int|
            0 <= j < frames.len() && 0 <= p < frames[j].indices.len() ==> #[trigger] frames[j].indices[p]
                < cc,
        forall|j: int|
            0 <= j < frames.len() ==> spec_decompress_section(
                codec_frame,
                #[trigger] blobs[j],
                frame_raw(frames[j], iw).len(),
            ) == Ok::<Seq<u8>, DifError>(frame_raw(frames[j], iw)),
    ensures
        spec_decode_frames(mid, ffi, a, k, codec_frame, px, iw) == Ok::<Seq<FrameModel>, DifError>(
            frames.take(k as int),
        ),
    decreases k,
{
    if k == 0 {
        assert(frames.take(0) =~= Seq::<FrameModel>::empty());
    } else {
        let j = (k - 1) as nat;
        lemma_decode_frames_of_records(mid, ffi, a, j, codec_frame, px, iw, frames, blobs, cc);
        lemma_records_layout(frames, blobs, a);
        let recs = frame_records(frames, blobs, a);
        assert(j * a + a <= frames.len() * a) by (nonlinear_arith)
            requires
                j < frames.len(),
        ;
        let fs = frame_start(ffi, a, j);
        assert(mid.subrange(fs as int, (fs + a) as int) =~= recs.subrange((j * a) as int, (j * a + a) as int));
        lemma_decode_frame_of_record(mid, ffi, a, j, codec_frame, px, iw, frames[j as int], blobs[j as int], cc);
        assert(frames.take(k as int) =~= frames.take(j as int).push(frames[j as int]));
    }
}

/// The stride is addressable.
proof fn lemma_stride_fits(blobs: Seq<Seq<u8>>, pre_len: nat)
    requires
        pre_len + blobs.len() * stride(blobs) <= usize::MAX,
    ensures
        stride(blobs) <= usize::MAX,
{
    if blobs.len() > 0 {
        assert(stride(blobs) <= blobs.len() * stride(blobs)) by (nonlinear_arith)
            requires
                blobs.len() >= 1,
        ;
    }
}

/// The intermediate body, once decompressed, decodes to the image.
#[verifier::rlimit(80)]
#[verifier::spinoff_prover]
proof fn lemma_body_decodes(
    m: ImageModel,
    h: Header,
    pal_blob: Seq<u8>,
    blobs: Seq<Seq<u8>>,
    palette: u8,
    frame: u8,
)
    requires
        m.valid(),
        blobs.len() == m.frames.len(),
        layout_fits(pal_blob, blobs, pre_frames(m, pal_blob).len()),
        palette_raw(m).len() <= usize::MAX,
        m.pixel_count() * m.index_width.spec_bytes() <= usize::MAX,
        h.theme_count == m.themes.len(),
        h.index_count as usize as nat == m.index_count(),
        h.palette_size as usize as nat == pal_blob.len(),
        h.codec_palette == palette,
        h.codec_frame == frame,
        h.frame_count == m.frames.len(),
        h.width == m.width,
        h.height == m.height,
        h.replay_count == m.replay_count,
        spec_decompress_section(palette, pal_blob, palette_raw(m).len()) == Ok::<Seq<u8>, DifError>(
            palette_raw(m),
        ),
        forall|j: int|
            0 <= j < m.frames.len() ==> spec_decompress_section(
                frame,
                #[trigger] blobs[j],
                frame_raw(m.frames[j], m.index_width).len(),
            ) == Ok::<Seq<u8>, DifError>(frame_raw(m.frames[j], m.index_width)),
    ensures
        spec_decode_body(
            h,
            m.color_depth,
            m.index_width,
            pre_frames(m, pal_blob).len(),
            stride(blobs),
            m.pixel_count(),
            intermediate_body(m, pal_blob, blobs),
        ) == Ok::<ImageModel, DifError>(m),
{
    let t = m.themes.len();
    let cc = m.index_count();
    let depth = m.color_depth;
    let iw = m.index_width;
    let a = stride(blobs);
    let pre = pre_frames(m, pal_blob);
    let tb = spec_themes_bytes(m.themes);
    let n = m.frames.len();
    let mid = intermediate_body(m, pal_blob, blobs);
    let px = m.pixel_count();
    lemma_stride_bound(blobs);
    lemma_stride_fits(blobs, pre.len());
    crate::format::lemma_themes_roundtrip(m.themes, Seq::empty());
    assert(tb.len() == 4 * t);
    lemma_records_layout(m.frames, blobs, a);
    let gap1 = zeros((spec_align16(tb.len()) - tb.len()) as nat);
    let gap2 = zeros(
        (spec_align16(pad16(tb).len() + pal_blob.len()) - (pad16(tb).len() + pal_blob.len())) as nat,
    );
    let recs = frame_records(m.frames, blobs, a);
    assert(mid =~= tb + (gap1 + pal_blob + gap2 + recs));
    crate::format::lemma_themes_roundtrip(m.themes, gap1 + pal_blob + gap2 + recs);
    let ps = spec_align16(t * 4);
    assert(mid.subrange(ps as int, (ps + pal_blob.len()) as int) =~= pal_blob);
    crate::format::lemma_palettes_roundtrip(m.palettes, cc, depth, Seq::empty());
    assert(palette_raw(m) + Seq::<u8>::empty() =~= palette_raw(m));
    assert(mid.subrange(pre.len() as int, (pre.len() + n * a) as int) =~= recs);
    lemma_decode_frames_of_records(mid, pre.len(), a, n, frame, px, iw, m.frames, blobs, cc);
    assert(m.frames.take(n as int) =~= m.frames);
}

/// Decoding an encoding of a valid image gives the image back, when every section
/// decompresses to what was compressed into it.
#[verifier::rlimit(100)]
proof fn lemma_decode_of_encoding(
    m: ImageModel,
    is_raw: bool,
    outer: u8,
    palette: u8,
    frame: u8,
    pal_blob: Seq<u8>,
    blobs: Seq<Seq<u8>>,
    body: Seq<u8>,
)
    requires
        m.valid(),
        blobs.len() == m.frames.len(),
        layout_fits(pal_blob, blobs, pre_frames(m, pal_blob).len()),
        palette_raw(m).len() <= usize::MAX,
        m.pixel_count() * m.index_width.spec_bytes() <= usize::MAX,
        spec_decompress_section(palette, pal_blob, palette_raw(m).len()) == Ok::<Seq<u8>, DifError>(
            palette_raw(m),
        ),
        forall|j: int|
            0 <= j < m.frames.len() ==> spec_decompress_section(
                frame,
                #[trigger] blobs[j],
                frame_raw(m.frames[j], m.index_width).len(),
            ) == Ok::<Seq<u8>, DifError>(frame_raw(m.frames[j], m.index_width)),
        spec_decompress_section(outer, body, intermediate_body(m, pal_blob, blobs).len()) == Ok::<
            Seq<u8>,
            DifError,
        >(intermediate_body(m, pal_blob, blobs)),
    ensures
        spec_decode(header_bytes(header_of(m, is_raw, outer, palette, frame, pal_blob, blobs)) + body)
            == Ok::<ImageModel, DifError>(m),
{
    let h = header_of(m, is_raw, outer, palette, frame, pal_blob, blobs);
    let bytes = header_bytes(h) + body;
    let depth = m.color_depth;
    let iw = m.index_width;
    let a = stride(blobs);
    let pre = pre_frames(m, pal_blob);
    let n = m.frames.len();
    let mid = intermediate_body(m, pal_blob, blobs);
    let px = m.pixel_count();
    lemma_stride_bound(blobs);
    lemma_stride_fits(blobs, pre.len());
    assert(h.first_frame_offset < 0x1_0000_0000 * crate::format::two_pow_64());
    crate::format::lemma_header_roundtrip(h, body);
    assert(bytes.skip(64) =~= body);
    assert(h.flags % 4 == iw.spec_bits());
    assert((h.flags / 4) % 16 == depth.spec_bits());
    assert(h.spec_color_depth() == Ok::<ColorDepth, DifError>(depth));
    assert(h.spec_index_width()->Ok_0 == iw);
    assert(h.frame_alignment as usize as nat == a);
    assert((h.first_frame_offset - 64) as usize as nat == pre.len());
    assert(px <= usize::MAX) by (nonlinear_arith)
        requires
            px * iw.spec_bytes() <= usize::MAX,
            iw.spec_bytes() >= 1,
    ;
    lemma_records_layout(m.frames, blobs, a);
    assert(mid.len() == pre.len() + n * a);
    lemma_body_decodes(m, h, pal_blob, blobs, palette, frame);
}

// --- public entry points ---------------------------------------------------

/// What [`from_dif`] returns: a compressed container's image; a raw one is refused.
pub open spec fn spec_from_dif(bytes: Seq<u8>) -> DifResult<ImageModel> {
    match parse_header(bytes) {
        Err(e) => Err(e),
        Ok(h) => if h.is_raw {
            Err(DifError::BadMagic(crate::format::MAGIC_DIFR))
        } else {
            spec_decode(bytes)
        },
    }
}

/// What [`from_difr`] returns: a raw container's image; a compressed one is refused.
pub open spec fn spec_from_difr(bytes: Seq<u8>) -> DifResult<ImageModel> {
    match parse_header(bytes) {
        Err(e) => Err(e),
        Ok(h) => if !h.is_raw {
            Err(DifError::BadMagic(crate::format::MAGIC_DIF))
        } else {
            spec_decode(bytes)
        },
    }
}

/// Every index plane of the image is addressable once decoded.
pub open spec fn planes_addressable(img: ImageModel) -> bool {
    img.pixel_count() * img.index_width.spec_bytes() <= usize::MAX
}

/// Serialize and compress an image into a `.dif` container (single-thread).
pub fn to_dif(img: &DifImage, outer: Codec, palette: Codec, frame: Codec) -> (r: DifResult<Vec<u8>>)
    ensures
        bytes_result(r) == spec_encode(img@, false, outer.0, palette.0, frame.0, 0),
        r matches Ok(b) ==> (planes_addressable(img@) ==> spec_from_dif(b@) == Ok::<
            ImageModel,
            DifError,
        >(img@)),
{
    to_dif_workers(img, outer, palette, frame, 0)
}

/// Like [`to_dif`], with encoder thread budget `workers`: zstd and brotli (quality
/// 10 or more) sections run multithreaded, and with fewer frames than `workers`
/// each frame is split (see `frame_split`). The bytes stay a standard container
/// that [`from_dif`] decodes back.
pub fn to_dif_workers(
    img: &DifImage,
    outer: Codec,
    palette: Codec,
    frame: Codec,
    workers: u32,
) -> (r: DifResult<Vec<u8>>)
    ensures
        bytes_result(r) == spec_encode(img@, false, outer.0, palette.0, frame.0, workers),
        r matches Ok(b) ==> (planes_addressable(img@) ==> spec_from_dif(b@) == Ok::<
            ImageModel,
            DifError,
        >(img@)),
{
    let r = encode(img, false, outer, palette, frame, workers);
    proof {
        if r is Ok {
            lemma_encoded_header_kind(img@, false, outer.0, palette.0, frame.0, workers);
        }
    }
    r
}

/// Serialize to a raw, uncompressed `.difr` container (all sections `Store`).
pub fn to_difr(img: &DifImage) -> (r: DifResult<Vec<u8>>)
    ensures
        bytes_result(r) == spec_encode(img@, true, 0, 0, 0, 0),
        r matches Ok(b) ==> (planes_addressable(img@) ==> spec_from_difr(b@) == Ok::<
            ImageModel,
            DifError,
        >(img@)),
{
    let r = encode(img, true, Codec::store(), Codec::store(), Codec::store(), 0);
    proof {
        if r is Ok {
            lemma_encoded_header_kind(img@, true, 0, 0, 0, 0);
        }
    }
    r
}

/// An encoding's header records whether it is raw.
proof fn lemma_encoded_header_kind(
    img: ImageModel,
    is_raw: bool,
    outer: u8,
    palette: u8,
    frame: u8,
    workers: u32,
)
    requires
        spec_encode(img, is_raw, outer, palette, frame, workers) is Ok,
    ensures
        parse_header(spec_encode(img, is_raw, outer, palette, frame, workers)->Ok_0) matches Ok(h)
            && h.is_raw == is_raw,
{
    let pal_blob = encoded_palette(img, palette, workers)->Ok_0;
    let blobs = encoded_frames(img, frame, workers)->Ok_0;
    let body = spec_compress_section(outer, intermediate_body(img, pal_blob, blobs), workers, 0)->Ok_0;
    let h = header_of(img, is_raw, outer, palette, frame, pal_blob, blobs);
    lemma_compress_frames_ok(
        img.frames,
        img.index_width,
        frame,
        frame_split(img.frames, img.index_width, workers, FRAME_JOB_SIZE),
        job_u32(FRAME_JOB_SIZE),
    );
    lemma_stride_bound(blobs);
    assert(h.first_frame_offset < 0x1_0000_0000 * crate::format::two_pow_64());
    crate::format::lemma_header_roundtrip(h, body);
}

/// Parse and decompress a `.dif` container (single-thread).
pub fn from_dif(bytes: &[u8]) -> (r: DifResult<DifImage>)
    ensures
        image_result(r) == spec_from_dif(bytes@),
{
    from_dif_workers(bytes, 1)
}

/// Like [`from_dif`]; `workers` is the decoder thread budget. The result does not
/// depend on it.
pub fn from_dif_workers(bytes: &[u8], workers: u32) -> (r: DifResult<DifImage>)
    ensures
        image_result(r) == spec_from_dif(bytes@),
{
    let _ = workers;
    let h = Header::read(bytes)?;
    if h.is_raw {
        return Err(DifError::BadMagic(crate::format::MAGIC_DIFR));
    }
    decode(bytes)
}

/// Parse a raw `.difr` container.
pub fn from_difr(bytes: &[u8]) -> (r: DifResult<DifImage>)
    ensures
        image_result(r) == spec_from_difr(bytes@),
{
    let h = Header::read(bytes)?;
    if !h.is_raw {
        return Err(DifError::BadMagic(crate::format::MAGIC_DIF));
    }
    decode(bytes)
}

/// A stored (uncompressed) section decompresses back to itself.
proof fn lemma_store_section(raw: Seq<u8>, w: u32, jb: u32)
    ensures
        spec_compress_section(0, raw, w, jb) == Ok::<Seq<u8>, DifError>(raw),
        spec_decompress_section(0, raw, raw.len()) == Ok::<Seq<u8>, DifError>(raw),
{
    assert(raw.take(raw.len() as int) =~= raw);
}

/// Stored frame sections are the raw index planes.
proof fn lemma_store_frames(fs: Seq<FrameModel>, iw: IndexWidth, w: u32, jb: u32)
    ensures
        spec_compress_frames(fs, iw, 0, w, jb) == Ok::<Seq<Seq<u8>>, DifError>(
            fs.map_values(|f: FrameModel| frame_raw(f, iw)),
        ),
    decreases fs.len(),
{
    if fs.len() > 0 {
        lemma_store_frames(fs.drop_last(), iw, w, jb);
        lemma_store_section(frame_raw(fs.last(), iw), w, jb);
        assert(fs.map_values(|f: FrameModel| frame_raw(f, iw)) =~= fs.drop_last().map_values(
            |f: FrameModel| frame_raw(f, iw),
        ).push(frame_raw(fs.last(), iw)));
    } else {
        assert(fs.map_values(|f: FrameModel| frame_raw(f, iw)) =~= Seq::<Seq<u8>>::empty());
    }
}

/// The index planes of an image's frames, as the all-`Store` encoding holds them.
pub open spec fn stored_planes(img: ImageModel) -> Seq<Seq<u8>> {
    img.frames.map_values(|f: FrameModel| frame_raw(f, img.index_width))
}

/// With `Store` sections, encoding fails only on an invalid image, with its
/// validation error, or on a container too large for this machine to address:
/// every valid image whose container fits encodes.
pub proof fn lemma_store_encodes(img: ImageModel, is_raw: bool, workers: u32)
    ensures
        spec_encode(img, is_raw, 0, 0, 0, workers) == if !img.valid() {
            Err::<Seq<u8>, DifError>(img.validation()->Err_0)
        } else if !layout_fits(
            palette_raw(img),
            stored_planes(img),
            pre_frames(img, palette_raw(img)).len(),
        ) {
            Err(too_large())
        } else {
            Ok(
                header_bytes(
                    header_of(img, is_raw, 0, 0, 0, palette_raw(img), stored_planes(img)),
                ) + intermediate_body(img, palette_raw(img), stored_planes(img)),
            )
        },
{
    let raw_pal = palette_raw(img);
    lemma_store_section(raw_pal, workers, 0);
    lemma_store_frames(
        img.frames,
        img.index_width,
        frame_split(img.frames, img.index_width, workers, FRAME_JOB_SIZE),
        job_u32(FRAME_JOB_SIZE),
    );
    lemma_store_section(intermediate_body(img, raw_pal, stored_planes(img)), workers, 0);
}

/// Every valid image whose container this machine can address encodes with
/// `Store` sections, and decoding the result gives the image back.
pub proof fn lemma_store_encodes_and_roundtrips(img: ImageModel, is_raw: bool, workers: u32)
    requires
        img.valid(),
        layout_fits(palette_raw(img), stored_planes(img), pre_frames(img, palette_raw(img)).len()),
        planes_addressable(img),
    ensures
        spec_encode(img, is_raw, 0, 0, 0, workers) is Ok,
        spec_decode(spec_encode(img, is_raw, 0, 0, 0, workers)->Ok_0) == Ok::<ImageModel, DifError>(img),
{
    lemma_store_encodes(img, is_raw, workers);
    lemma_store_roundtrip(img, is_raw, workers);
}

/// Decoding what the all-`Store` encoding of an image produced gives the image back:
/// for every image that encodes and whose planes are addressable.
pub proof fn lemma_store_roundtrip(img: ImageModel, is_raw: bool, workers: u32)
    requires
        spec_encode(img, is_raw, 0, 0, 0, workers) is Ok,
        planes_addressable(img),
    ensures
        spec_decode(spec_encode(img, is_raw, 0, 0, 0, workers)->Ok_0) == Ok::<ImageModel, DifError>(img),
{
    let raw_pal = palette_raw(img);
    lemma_store_section(raw_pal, workers, 0);
    lemma_store_frames(
        img.frames,
        img.index_width,
        frame_split(img.frames, img.index_width, workers, FRAME_JOB_SIZE),
        job_u32(FRAME_JOB_SIZE),
    );
    let blobs = img.frames.map_values(|f: FrameModel| frame_raw(f, img.index_width));
    let mid = intermediate_body(img, raw_pal, blobs);
    lemma_store_section(mid, workers, 0);
    assert forall|j: int| 0 <= j < img.frames.len() implies spec_decompress_section(
        0,
        #[trigger] blobs[j],
        frame_raw(img.frames[j], img.index_width).len(),
    ) == Ok::<Seq<u8>, DifError>(frame_raw(img.frames[j], img.index_width)) by {
        lemma_store_section(blobs[j], 0, 0);
    }
    lemma_decode_of_encoding(img, is_raw, 0, 0, 0, raw_pal, blobs, mid);
}

/// The all-stored outer body: an encoding with outer codec `Store` is its header
/// followed by the intermediate body itself.
proof fn lemma_store_outer_bytes(img: ImageModel, is_raw: bool, palette: u8, frame: u8, workers: u32)
    requires
        spec_encode(img, is_raw, 0, palette, frame, workers) is Ok,
    ensures
        ({
            let pal_blob = encoded_palette(img, palette, workers)->Ok_0;
            let blobs = encoded_frames(img, frame, workers)->Ok_0;
            let h = header_of(img, is_raw, 0, palette, frame, pal_blob, blobs);
            let bytes = spec_encode(img, is_raw, 0, palette, frame, workers)->Ok_0;
            &&& bytes == header_bytes(h) + intermediate_body(img, pal_blob, blobs)
            &&& header_bytes(h).len() == 64
            &&& parse_header(bytes) == Ok::<Header, DifError>(h)
            &&& blobs.len() == img.frames.len()
            &&& img.frames.len() * stride(blobs) <= usize::MAX
        }),
{
    let pal_blob = encoded_palette(img, palette, workers)->Ok_0;
    let blobs = encoded_frames(img, frame, workers)->Ok_0;
    let mid = intermediate_body(img, pal_blob, blobs);
    lemma_store_section(mid, workers, 0);
    lemma_compress_frames_ok(
        img.frames,
        img.index_width,
        frame,
        frame_split(img.frames, img.index_width, workers, FRAME_JOB_SIZE),
        job_u32(FRAME_JOB_SIZE),
    );
    let h = header_of(img, is_raw, 0, palette, frame, pal_blob, blobs);
    lemma_stride_bound(blobs);
    assert(h.first_frame_offset < 0x1_0000_0000 * crate::format::two_pow_64());
    crate::format::lemma_header_roundtrip(h, mid);
}

/// Record `j` of the frame records sits one stride after record `j - 1`.
proof fn lemma_record_at(head: Seq<u8>, recs: Seq<u8>, n: nat, a: nat, j: int)
    requires
        recs.len() == n * a,
        0 <= j < n,
    ensures
        head.len() + j * a + a <= (head + recs).len(),
        (head + recs).subrange(head.len() + j * a, head.len() + j * a + a) == recs.subrange(
            j * a,
            j * a + a,
        ),
{
    assert((j + 1) * a <= n * a) by (nonlinear_arith)
        requires
            j + 1 <= n,
    ;
    assert(j * a + a == (j + 1) * a) by (nonlinear_arith);
    assert((head + recs).subrange(head.len() + j * a, head.len() + j * a + a) =~= recs.subrange(
        j * a,
        j * a + a,
    ));
}

/// With the outer codec `Store`, the header addresses every frame in the file
/// itself: frame `j`'s record starts at `first_frame_offset + j *
/// frame_alignment`, spans one alignment, and holds the frame's delay and its
/// compressed frame section, so one frame can be read without the others; the
/// file ends with the last record.
#[verifier::rlimit(40)]
pub proof fn lemma_store_outer_random_access(
    img: ImageModel,
    is_raw: bool,
    palette: u8,
    frame: u8,
    workers: u32,
)
    requires
        spec_encode(img, is_raw, 0, palette, frame, workers) is Ok,
    ensures
        ({
            let bytes = spec_encode(img, is_raw, 0, palette, frame, workers)->Ok_0;
            let h = parse_header(bytes)->Ok_0;
            let blobs = encoded_frames(img, frame, workers)->Ok_0;
            &&& parse_header(bytes) is Ok
            &&& h.is_raw == is_raw
            &&& h.frame_count == img.frames.len()
            &&& blobs.len() == img.frames.len()
            &&& h.first_frame_offset + img.frames.len() * h.frame_alignment == bytes.len()
            &&& forall|j: int|
                #![trigger blobs[j]]
                0 <= j < img.frames.len() ==> bytes.subrange(
                    h.first_frame_offset + j * h.frame_alignment,
                    h.first_frame_offset + j * h.frame_alignment + h.frame_alignment,
                ) == frame_record(img.frames[j].delay_us, blobs[j], h.frame_alignment as nat)
        }),
{
    let pal_blob = encoded_palette(img, palette, workers)->Ok_0;
    let blobs = encoded_frames(img, frame, workers)->Ok_0;
    lemma_store_outer_bytes(img, is_raw, palette, frame, workers);
    let h = header_of(img, is_raw, 0, palette, frame, pal_blob, blobs);
    let a = stride(blobs);
    let pre = pre_frames(img, pal_blob);
    let recs = frame_records(img.frames, blobs, a);
    lemma_stride_bound(blobs);
    lemma_records_layout(img.frames, blobs, a);
    let head = header_bytes(h) + pre;
    let bytes = spec_encode(img, is_raw, 0, palette, frame, workers)->Ok_0;
    assert(bytes =~= head + recs);
    assert(h.first_frame_offset == head.len());
    assert(h.frame_alignment == a);
    assert(parse_header(bytes)->Ok_0 == h);
    assert(img.validation() is Ok);
    assert(h.frame_count == img.frames.len());
    assert(h.is_raw == is_raw);
    assert(bytes.len() == head.len() + img.frames.len() * a);
    assert forall|j: int| 0 <= j < img.frames.len() implies bytes.subrange(
        h.first_frame_offset + j * h.frame_alignment,
        h.first_frame_offset + j * h.frame_alignment + h.frame_alignment,
    ) == frame_record(img.frames[j].delay_us, #[trigger] blobs[j], h.frame_alignment as nat) by {
        lemma_record_at(head, recs, img.frames.len(), a, j);
    }
}

/// Every proper prefix of a container whose outer codec is `Store` is refused as
/// truncated: decoding it, and reading it back as its own kind, gives
/// `UnexpectedEof`.
#[verifier::rlimit(100)]
pub proof fn lemma_store_outer_prefix_truncated(
    img: ImageModel,
    is_raw: bool,
    palette: u8,
    frame: u8,
    workers: u32,
    k: nat,
)
    requires
        spec_encode(img, is_raw, 0, palette, frame, workers) is Ok,
        k < spec_encode(img, is_raw, 0, palette, frame, workers)->Ok_0.len(),
    ensures
        ({
            let prefix = spec_encode(img, is_raw, 0, palette, frame, workers)->Ok_0.take(k as int);
            &&& spec_decode(prefix) == Err::<ImageModel, DifError>(DifError::UnexpectedEof)
            &&& is_raw ==> spec_from_difr(prefix) == Err::<ImageModel, DifError>(
                DifError::UnexpectedEof,
            )
            &&& !is_raw ==> spec_from_dif(prefix) == Err::<ImageModel, DifError>(
                DifError::UnexpectedEof,
            )
        }),
{
    let pal_blob = encoded_palette(img, palette, workers)->Ok_0;
    let blobs = encoded_frames(img, frame, workers)->Ok_0;
    lemma_store_outer_bytes(img, is_raw, palette, frame, workers);
    let h = header_of(img, is_raw, 0, palette, frame, pal_blob, blobs);
    let mid = intermediate_body(img, pal_blob, blobs);
    let bytes = spec_encode(img, is_raw, 0, palette, frame, workers)->Ok_0;
    let prefix = bytes.take(k as int);
    if k < 64 {
        assert(prefix.len() < 64);
    } else {
        let a = stride(blobs);
        let pre = pre_frames(img, pal_blob);
        lemma_stride_bound(blobs);
        lemma_stride_fits(blobs, pre.len());
        lemma_records_layout(img.frames, blobs, a);
        assert(prefix =~= header_bytes(h) + mid.take(k - 64));
        crate::format::lemma_header_roundtrip(h, mid.take(k - 64));
        assert(parse_header(prefix) == Ok::<Header, DifError>(h));
        assert(img.validation() is Ok);
        let iw = img.index_width;
        let depth = img.color_depth;
        assert(h.flags % 4 == iw.spec_bits());
        assert((h.flags / 4) % 16 == depth.spec_bits());
        assert(h.spec_color_depth() == Ok::<ColorDepth, DifError>(depth));
        assert(h.spec_index_width()->Ok_0 == iw);
        assert(h.frame_alignment as usize as nat == a);
        assert((h.first_frame_offset - 64) as usize as nat == pre.len());
        assert(mid.len() == pre.len() + img.frames.len() * a);
        assert(prefix.skip(64).len() == k - 64);
        assert(spec_resolve(0) == Ok::<(Method, i32), DifError>((Method::Store, 0i32)));
    }
}

} // verus!
