//! The in-memory image: themes, palettes and frames of indices, with the rules
//! that make an image encodable.

use vstd::prelude::*;

use crate::error::{DifError, DifResult};

verus! {

/// One mapped color. Channels are in `0..=255` at [`ColorDepth::Rgba8`] and
/// `0..=65535` at [`ColorDepth::Rgba16`].
#[derive(Clone, Copy, Debug, PartialEq, Eq)]
pub struct Rgba {
    pub r: u16,
    pub g: u16,
    pub b: u16,
    pub a: u16,
}

impl Rgba {
    pub fn new(r: u16, g: u16, b: u16, a: u16) -> (c: Rgba)
        ensures
            c == (Rgba { r, g, b, a }),
    {
        Rgba { r, g, b, a }
    }
}

/// Channel depth of the mapped colors.
#[derive(Clone, Copy, Debug, PartialEq, Eq)]
pub enum ColorDepth {
    Rgba8,
    Rgba16,
}

impl ColorDepth {
    /// The 4-bit code stored in flags bits 2..5.
    pub open spec fn spec_bits(self) -> u8 {
        match self {
            ColorDepth::Rgba8 => 0,
            ColorDepth::Rgba16 => 1,
        }
    }

    /// Bytes per channel.
    pub open spec fn spec_channel_bytes(self) -> nat {
        match self {
            ColorDepth::Rgba8 => 1,
            ColorDepth::Rgba16 => 2,
        }
    }

    /// Largest channel value.
    pub open spec fn spec_max_value(self) -> u16 {
        match self {
            ColorDepth::Rgba8 => 255,
            ColorDepth::Rgba16 => 65535,
        }
    }

    pub fn to_bits(self) -> (b: u8)
        ensures
            b == self.spec_bits(),
    {
        match self {
            ColorDepth::Rgba8 => 0,
            ColorDepth::Rgba16 => 1,
        }
    }

    /// Decode the flags' color-depth code; codes other than 0 and 1 are reserved.
    pub fn from_bits(b: u8) -> (r: DifResult<ColorDepth>)
        ensures
            b == 0 ==> r == Ok::<ColorDepth, DifError>(ColorDepth::Rgba8),
            b == 1 ==> r == Ok::<ColorDepth, DifError>(ColorDepth::Rgba16),
            b > 1 ==> r == Err::<ColorDepth, DifError>(DifError::BadColorDepth(b)),
    {
        if b == 0 {
            Ok(ColorDepth::Rgba8)
        } else if b == 1 {
            Ok(ColorDepth::Rgba16)
        } else {
            Err(DifError::BadColorDepth(b))
        }
    }

    /// Bytes per channel.
    pub fn channel_bytes(self) -> (n: usize)
        ensures
            n == self.spec_channel_bytes(),
    {
        match self {
            ColorDepth::Rgba8 => 1,
            ColorDepth::Rgba16 => 2,
        }
    }

    /// Bytes per mapped color (four channels).
    pub fn color_bytes(self) -> (n: usize)
        ensures
            n == 4 * self.spec_channel_bytes(),
    {
        match self {
            ColorDepth::Rgba8 => 4,
            ColorDepth::Rgba16 => 8,
        }
    }

    /// Largest channel value.
    pub fn max_value(self) -> (m: u16)
        ensures
            m == self.spec_max_value(),
    {
        match self {
            ColorDepth::Rgba8 => 255,
            ColorDepth::Rgba16 => 65535,
        }
    }
}

/// Constant width of one stored palette index.
#[derive(Clone, Copy, Debug, PartialEq, Eq)]
pub enum IndexWidth {
    Bit8,
    Bit16,
    Bit32,
    Bit64,
}

impl IndexWidth {
    /// The 2-bit code stored in flags bits 0..1.
    pub open spec fn spec_bits(self) -> u8 {
        match self {
            IndexWidth::Bit8 => 0,
            IndexWidth::Bit16 => 1,
            IndexWidth::Bit32 => 2,
            IndexWidth::Bit64 => 3,
        }
    }

    /// Bytes per stored index.
    pub open spec fn spec_bytes(self) -> nat {
        match self {
            IndexWidth::Bit8 => 1,
            IndexWidth::Bit16 => 2,
            IndexWidth::Bit32 => 4,
            IndexWidth::Bit64 => 8,
        }
    }

    /// Whether this build reads and writes planes of this width (8 and 16 bits).
    pub open spec fn spec_supported(self) -> bool {
        self == IndexWidth::Bit8 || self == IndexWidth::Bit16
    }

    /// Number of distinct indices the width can hold (`2^bits`, saturated at `u64::MAX`).
    pub open spec fn spec_capacity(self) -> u64 {
        match self {
            IndexWidth::Bit8 => 0x100,
            IndexWidth::Bit16 => 0x1_0000,
            IndexWidth::Bit32 => 0x1_0000_0000,
            IndexWidth::Bit64 => u64::MAX,
        }
    }

    pub fn to_bits(self) -> (b: u8)
        ensures
            b == self.spec_bits(),
    {
        match self {
            IndexWidth::Bit8 => 0,
            IndexWidth::Bit16 => 1,
            IndexWidth::Bit32 => 2,
            IndexWidth::Bit64 => 3,
        }
    }

    /// Decode a 2-bit index-width code.
    pub fn from_bits(b: u8) -> (r: DifResult<IndexWidth>)
        ensures
            b <= 3 ==> (r matches Ok(w) && w.spec_bits() == b),
            b > 3 ==> r == Err::<IndexWidth, DifError>(DifError::BadIndexWidth(b)),
    {
        if b == 0 {
            Ok(IndexWidth::Bit8)
        } else if b == 1 {
            Ok(IndexWidth::Bit16)
        } else if b == 2 {
            Ok(IndexWidth::Bit32)
        } else if b == 3 {
            Ok(IndexWidth::Bit64)
        } else {
            Err(DifError::BadIndexWidth(b))
        }
    }

    /// Bytes per stored index.
    pub fn bytes(self) -> (n: usize)
        ensures
            n == self.spec_bytes(),
    {
        match self {
            IndexWidth::Bit8 => 1,
            IndexWidth::Bit16 => 2,
            IndexWidth::Bit32 => 4,
            IndexWidth::Bit64 => 8,
        }
    }

    /// Whether this build handles the width (8- and 16-bit only).
    pub fn supported(self) -> (s: bool)
        ensures
            s == self.spec_supported(),
    {
        match self {
            IndexWidth::Bit8 => true,
            IndexWidth::Bit16 => true,
            _ => false,
        }
    }

    /// Number of distinct indices the width can hold.
    pub fn capacity(self) -> (c: u64)
        ensures
            c == self.spec_capacity(),
    {
        match self {
            IndexWidth::Bit8 => 0x100,
            IndexWidth::Bit16 => 0x1_0000,
            IndexWidth::Bit32 => 0x1_0000_0000,
            IndexWidth::Bit64 => u64::MAX,
        }
    }

    /// The narrowest width whose capacity holds `count` indices.
    pub fn for_count(count: u64) -> (w: IndexWidth)
        ensures
            count <= w.spec_capacity(),
            w == IndexWidth::Bit8 || IndexWidth::Bit8.spec_capacity() < count,
            w == IndexWidth::Bit8 || w == IndexWidth::Bit16 || IndexWidth::Bit16.spec_capacity() < count,
            w != IndexWidth::Bit64 || IndexWidth::Bit32.spec_capacity() < count,
    {
        if count <= 0x100 {
            IndexWidth::Bit8
        } else if count <= 0x1_0000 {
            IndexWidth::Bit16
        } else if count <= 0x1_0000_0000 {
            IndexWidth::Bit32
        } else {
            IndexWidth::Bit64
        }
    }
}

/// One theme: its ability bits and the RGB8 base color it was designed against.
#[derive(Clone, Copy, Debug, PartialEq, Eq)]
pub struct Theme {
    pub abilities: u8,
    pub base_color: [u8; 3],
}

/// A host appearance a theme is picked for.
#[derive(Clone, Copy, Debug, PartialEq, Eq)]
pub enum ThemeTag {
    Light,
    Dark,
    HighContrast,
}

impl ThemeTag {
    /// The ability bit that marks a theme as capable of this appearance.
    pub open spec fn spec_bit(self) -> u8 {
        match self {
            ThemeTag::Light => crate::abilities::LIGHT,
            ThemeTag::Dark => crate::abilities::DARK,
            ThemeTag::HighContrast => crate::abilities::HIGH_CONTRAST,
        }
    }

    pub fn bit(self) -> (b: u8)
        ensures
            b == self.spec_bit(),
    {
        match self {
            ThemeTag::Light => crate::abilities::LIGHT,
            ThemeTag::Dark => crate::abilities::DARK,
            ThemeTag::HighContrast => crate::abilities::HIGH_CONTRAST,
        }
    }
}

/// One frame: its display delay and its row-major palette indices.
#[derive(Clone, Debug, PartialEq, Eq)]
pub struct Frame {
    pub delay_us: u32,
    pub indices: Vec<u64>,
}

/// The mathematical content of a frame.
pub struct FrameModel {
    pub delay_us: u32,
    pub indices: Seq<u64>,
}

impl View for Frame {
    type V = FrameModel;

    open spec fn view(&self) -> FrameModel {
        FrameModel { delay_us: self.delay_us, indices: self.indices@ }
    }
}

/// A palette-indexed, multi-theme image.
#[derive(Clone, Debug, PartialEq, Eq)]
pub struct DifImage {
    pub width: u32,
    pub height: u32,
    pub color_depth: ColorDepth,
    pub index_width: IndexWidth,
    pub themes: Vec<Theme>,
    /// `palettes[theme][index]`: one palette per theme, all of one length.
    pub palettes: Vec<Vec<Rgba>>,
    pub frames: Vec<Frame>,
    /// How many times to replay the animation: `0` = infinite, `1` = static.
    pub replay_count: u16,
}

/// The mathematical content of an image.
pub struct ImageModel {
    pub width: u32,
    pub height: u32,
    pub color_depth: ColorDepth,
    pub index_width: IndexWidth,
    pub themes: Seq<Theme>,
    pub palettes: Seq<Seq<Rgba>>,
    pub frames: Seq<FrameModel>,
    pub replay_count: u16,
}

impl View for DifImage {
    type V = ImageModel;

    open spec fn view(&self) -> ImageModel {
        ImageModel {
            width: self.width,
            height: self.height,
            color_depth: self.color_depth,
            index_width: self.index_width,
            themes: self.themes@,
            palettes: self.palettes@.map_values(|p: Vec<Rgba>| p@),
            frames: self.frames@.map_values(|f: Frame| f@),
            replay_count: self.replay_count,
        }
    }
}

/// The first theme that sets a reserved ability bit, if any.
pub open spec fn first_bad_abilities(themes: Seq<Theme>) -> Option<u8>
    decreases themes.len(),
{
    if themes.len() == 0 {
        None
    } else if themes[0].abilities >= 8 {
        Some(themes[0].abilities)
    } else {
        first_bad_abilities(themes.drop_first())
    }
}

/// Every channel of `c` fits the depth.
pub open spec fn color_fits(c: Rgba, depth: ColorDepth) -> bool {
    let m = depth.spec_max_value();
    c.r <= m && c.g <= m && c.b <= m && c.a <= m
}

impl ImageModel {
    /// Palette length, shared by every theme (0 when there is no palette).
    pub open spec fn index_count(self) -> nat {
        if self.palettes.len() == 0 { 0 } else { self.palettes[0].len() }
    }

    /// Pixels per frame.
    pub open spec fn pixel_count(self) -> nat {
        self.width as nat * self.height as nat
    }

    /// The check that [`DifImage::validate`] performs, error for error, in its order.
    pub open spec fn validation(self) -> DifResult<()> {
        if !self.index_width.spec_supported() {
            Err(DifError::BadIndexWidth((self.index_width.spec_bytes() * 8) as u8))
        } else if self.themes.len() == 0 || self.themes.len() > 256 {
            Err(DifError::BadThemeCount(self.themes.len() as usize))
        } else if first_bad_abilities(self.themes) is Some {
            Err(DifError::BadAbilities(first_bad_abilities(self.themes)->0))
        } else if self.palettes.len() != self.themes.len() {
            Err(DifError::Invalid("palette count does not match theme count"))
        } else if exists|t: int| 0 <= t < self.palettes.len() && #[trigger] self.palettes[t].len()
            != self.index_count() {
            Err(DifError::Invalid("palettes differ in length"))
        } else if self.index_count() > self.index_width.spec_capacity() {
            Err(DifError::Invalid("palette too large for the index width"))
        } else if exists|t: int, i: int|
            0 <= t < self.palettes.len() && 0 <= i < self.palettes[t].len() && !color_fits(
                #[trigger] self.palettes[t][i],
                self.color_depth,
            ) {
            Err(DifError::Invalid("color channel exceeds the color depth"))
        } else if self.frames.len() > 0xFFFF {
            Err(DifError::Invalid("too many frames"))
        } else if exists|j: int| 0 <= j < self.frames.len() && #[trigger] self.frames[j].indices.len()
            != self.pixel_count() {
            Err(DifError::Invalid("frame size does not match width * height"))
        } else if exists|j: int, p: int|
            0 <= j < self.frames.len() && 0 <= p < self.frames[j].indices.len()
                && #[trigger] self.frames[j].indices[p] >= self.index_count() {
            Err(DifError::Invalid("frame index outside the palette"))
        } else {
            Ok(())
        }
    }

    /// The image can be encoded and decoded back.
    pub open spec fn valid(self) -> bool {
        self.validation() is Ok
    }
}

impl DifImage {
    /// Palette length, shared by every theme (0 when there is no palette).
    pub fn index_count(&self) -> (n: usize)
        ensures
            n == self@.index_count(),
    {
        if self.palettes.len() == 0 {
            0
        } else {
            self.palettes[0].len()
        }
    }

    /// Number of frames.
    pub fn frame_count(&self) -> (n: usize)
        ensures
            n == self@.frames.len(),
    {
        self.frames.len()
    }

    /// Check every rule an encodable image obeys; the first broken rule is the error.
    #[verifier::loop_isolation(false)]
    pub fn validate(&self) -> (r: DifResult<()>)
        ensures
            r == self@.validation(),
    {
        let ghost m = self@;
        if !self.index_width.supported() {
            return Err(DifError::BadIndexWidth((self.index_width.bytes() * 8) as u8));
        }
        let t = self.themes.len();
        if t == 0 || t > 256 {
            return Err(DifError::BadThemeCount(t));
        }
        let mut i: usize = 0;
        assert(self.themes@.skip(0) =~= self.themes@);
        while i < t
            invariant
                i <= t == self.themes@.len(),
                first_bad_abilities(self.themes@) == first_bad_abilities(
                    self.themes@.skip(i as int),
                ),
            decreases t - i,
        {
            let ghost rest = self.themes@.skip(i as int);
            assert(rest[0] == self.themes@[i as int]);
            assert(rest.drop_first() =~= self.themes@.skip(i + 1));
            if self.themes[i].abilities >= 8 {
                return Err(DifError::BadAbilities(self.themes[i].abilities));
            }
            i = i + 1;
        }
        assert(self.themes@.skip(t as int).len() == 0);
        if self.palettes.len() != t {
            return Err(DifError::Invalid("palette count does not match theme count"));
        }
        let cc = self.index_count();
        let mut k: usize = 0;
        while k < t
            invariant
                k <= t == self.palettes@.len(),
                cc == m.index_count(),
                m == self@,
                forall|q: int| 0 <= q < k ==> #[trigger] m.palettes[q].len() == cc,
            decreases t - k,
        {
            if self.palettes[k].len() != cc {
                assert(m.palettes[k as int].len() != m.index_count());
                return Err(DifError::Invalid("palettes differ in length"));
            }
            k = k + 1;
        }
        if cc as u64 > self.index_width.capacity() {
            return Err(DifError::Invalid("palette too large for the index width"));
        }
        let maxv = self.color_depth.max_value();
        let mut q: usize = 0;
        while q < t
            invariant
                q <= t == self.palettes@.len(),
                m == self@,
                maxv == m.color_depth.spec_max_value(),
                forall|a: int, b: int|
                    0 <= a < q && 0 <= b < m.palettes[a].len() ==> color_fits(
                        #[trigger] m.palettes[a][b],
                        m.color_depth,
                    ),
            decreases t - q,
        {
            let pal = &self.palettes[q];
            let n = pal.len();
            let mut c: usize = 0;
            while c < n
                invariant
                    c <= n == pal@.len(),
                    q < t == self.palettes@.len(),
                    m == self@,
                    pal@ == m.palettes[q as int],
                    maxv == m.color_depth.spec_max_value(),
                    forall|a: int, b: int|
                        0 <= a < q && 0 <= b < m.palettes[a].len() ==> color_fits(
                            #[trigger] m.palettes[a][b],
                            m.color_depth,
                        ),
                    forall|b: int| 0 <= b < c ==> color_fits(#[trigger] m.palettes[q as int][b], m.color_depth),
                decreases n - c,
            {
                let col = pal[c];
                if col.r > maxv || col.g > maxv || col.b > maxv || col.a > maxv {
                    assert(!color_fits(m.palettes[q as int][c as int], m.color_depth));
                    return Err(DifError::Invalid("color channel exceeds the color depth"));
                }
                c = c + 1;
            }
            q = q + 1;
        }
        let nf = self.frames.len();
        if nf > 0xFFFF {
            return Err(DifError::Invalid("too many frames"));
        }
        assert(self.width as u64 * self.height as u64 <= 0xFFFF_FFFF * 0xFFFF_FFFF) by (nonlinear_arith);
        let px: u64 = self.width as u64 * self.height as u64;
        let mut j: usize = 0;
        while j < nf
            invariant
                j <= nf == m.frames.len(),
                m == self@,
                px == m.pixel_count(),
                forall|a: int| 0 <= a < j ==> #[trigger] m.frames[a].indices.len() == m.pixel_count(),
            decreases nf - j,
        {
            if self.frames[j].indices.len() as u64 != px {
                assert(m.frames[j as int].indices.len() != m.pixel_count());
                return Err(DifError::Invalid("frame size does not match width * height"));
            }
            j = j + 1;
        }
        let mut f: usize = 0;
        while f < nf
            invariant
                f <= nf == m.frames.len(),
                m == self@,
                cc == m.index_count(),
                forall|a: int, p: int|
                    0 <= a < f && 0 <= p < m.frames[a].indices.len() ==> #[trigger] m.frames[a].indices[p]
                        < m.index_count(),
            decreases nf - f,
        {
            let idx = &self.frames[f].indices;
            let n = idx.len();
            let mut p: usize = 0;
            while p < n
                invariant
                    p <= n == idx@.len(),
                    f < nf == m.frames.len(),
                    m == self@,
                    idx@ == m.frames[f as int].indices,
                    cc == m.index_count(),
                    forall|a: int, p2: int|
                        0 <= a < f && 0 <= p2 < m.frames[a].indices.len() ==> #[trigger] m.frames[a].indices[p2]
                            < m.index_count(),
                    forall|p2: int| 0 <= p2 < p ==> #[trigger] m.frames[f as int].indices[p2] < m.index_count(),
                decreases n - p,
            {
                if idx[p] >= cc as u64 {
                    assert(m.frames[f as int].indices[p as int] >= m.index_count());
                    return Err(DifError::Invalid("frame index outside the palette"));
                }
                p = p + 1;
            }
            f = f + 1;
        }
        Ok(())
    }
}


// --- theme picking and rendering --------------------------------------------

/// Whether a theme is marked capable of a host appearance.
pub open spec fn capable(t: Theme, tag: ThemeTag) -> bool {
    t.abilities & tag.spec_bit() != 0
}

/// Squared RGB distance between a theme's base color and the host background.
pub open spec fn base_distance(t: Theme, base: [u8; 3]) -> int {
    let dr = t.base_color[0] as int - base[0] as int;
    let dg = t.base_color[1] as int - base[1] as int;
    let db = t.base_color[2] as int - base[2] as int;
    dr * dr + dg * dg + db * db
}

/// How well a theme suits a host (lower is better): every theme capable of the
/// appearance before every theme that is not, then the nearest base color.
pub open spec fn theme_rank(t: Theme, tag: ThemeTag, base: [u8; 3]) -> int {
    (if capable(t, tag) {
        0int
    } else {
        1int
    }) * 0x40000 + base_distance(t, base)
}

/// The theme a host gets: the first theme of least rank (0 when there is none).
pub open spec fn pick_index(themes: Seq<Theme>, tag: ThemeTag, base: [u8; 3]) -> nat
    decreases themes.len(),
{
    if themes.len() <= 1 {
        0
    } else {
        let p = pick_index(themes.drop_last(), tag, base);
        if theme_rank(themes.last(), tag, base) < theme_rank(themes[p as int], tag, base) {
            (themes.len() - 1) as nat
        } else {
            p
        }
    }
}

/// The picked theme is the best one for the host, and the first of the best: a
/// capable theme whenever there is one, among those the nearest base color.
pub proof fn lemma_pick_is_first_best(themes: Seq<Theme>, tag: ThemeTag, base: [u8; 3])
    requires
        themes.len() > 0,
    ensures
        pick_index(themes, tag, base) < themes.len(),
        forall|j: int|
            0 <= j < themes.len() ==> theme_rank(themes[pick_index(themes, tag, base) as int], tag, base)
                <= #[trigger] theme_rank(themes[j], tag, base),
        forall|j: int|
            0 <= j < pick_index(themes, tag, base) ==> #[trigger] theme_rank(themes[j], tag, base)
                > theme_rank(themes[pick_index(themes, tag, base) as int], tag, base),
        (exists|j: int| 0 <= j < themes.len() && capable(#[trigger] themes[j], tag)) ==> capable(
            themes[pick_index(themes, tag, base) as int],
            tag,
        ),
    decreases themes.len(),
{
    let k = pick_index(themes, tag, base);
    if themes.len() > 1 {
        let init = themes.drop_last();
        lemma_pick_is_first_best(init, tag, base);
        assert forall|j: int| 0 <= j < init.len() implies #[trigger] init[j] == themes[j] by {}
    }
    assert forall|j: int| 0 <= j < themes.len() implies theme_rank(themes[k as int], tag, base)
        <= #[trigger] theme_rank(themes[j], tag, base) by {
        if themes.len() > 1 && j < themes.len() - 1 {
            assert(themes.drop_last()[j] == themes[j]);
        }
    }
    assert forall|j: int| 0 <= j < k implies #[trigger] theme_rank(themes[j], tag, base)
        > theme_rank(themes[k as int], tag, base) by {
        assert(themes.drop_last()[j] == themes[j]);
    }
    if exists|j: int| 0 <= j < themes.len() && capable(#[trigger] themes[j], tag) {
        let j = choose|j: int| 0 <= j < themes.len() && capable(#[trigger] themes[j], tag);
        assert(theme_rank(themes[j], tag, base) < 0x40000) by {
            lemma_distance_bound(themes[j], base);
        }
        assert(theme_rank(themes[k as int], tag, base) <= theme_rank(themes[j], tag, base));
        lemma_distance_bound(themes[k as int], base);
    }
}

/// Among themes equally capable of the host appearance, the picked theme's base
/// color is nearest the host background: its squared RGB distance, each channel
/// against the same channel of the background, is no larger than any other's.
pub proof fn lemma_pick_nearest_background(themes: Seq<Theme>, tag: ThemeTag, base: [u8; 3], j: int)
    requires
        0 <= j < themes.len(),
        (themes[j].abilities & tag.spec_bit() != 0) == (themes[pick_index(themes, tag, base) as int].abilities
            & tag.spec_bit() != 0),
    ensures
        ({
            let t = themes[pick_index(themes, tag, base) as int].base_color;
            let u = themes[j].base_color;
            (t[0] - base[0]) * (t[0] - base[0]) + (t[1] - base[1]) * (t[1] - base[1]) + (t[2]
                - base[2]) * (t[2] - base[2]) <= (u[0] - base[0]) * (u[0] - base[0]) + (u[1]
                - base[1]) * (u[1] - base[1]) + (u[2] - base[2]) * (u[2] - base[2])
        }),
{
    lemma_pick_is_first_best(themes, tag, base);
    assert(theme_rank(themes[pick_index(themes, tag, base) as int], tag, base) <= theme_rank(
        themes[j],
        tag,
        base,
    ));
}

/// A host gets a theme marked with its appearance's ability bit whenever one
/// has it (light bit 1, dark bit 2, high contrast bit 4).
pub proof fn lemma_pick_prefers_capable(themes: Seq<Theme>, tag: ThemeTag, base: [u8; 3], j: int)
    requires
        0 <= j < themes.len(),
        themes[j].abilities & tag.spec_bit() != 0,
    ensures
        themes[pick_index(themes, tag, base) as int].abilities & tag.spec_bit() != 0,
        tag == ThemeTag::Light ==> tag.spec_bit() == 1,
        tag == ThemeTag::Dark ==> tag.spec_bit() == 2,
        tag == ThemeTag::HighContrast ==> tag.spec_bit() == 4,
{
    lemma_pick_is_first_best(themes, tag, base);
    assert(capable(themes[j], tag));
}

proof fn lemma_distance_bound(t: Theme, base: [u8; 3])
    ensures
        0 <= base_distance(t, base) <= 3 * 255 * 255,
{
    let dr = t.base_color[0] as int - base[0] as int;
    let dg = t.base_color[1] as int - base[1] as int;
    let db = t.base_color[2] as int - base[2] as int;
    assert(0 <= dr * dr <= 255 * 255) by (nonlinear_arith)
        requires
            -255 <= dr <= 255,
    ;
    assert(0 <= dg * dg <= 255 * 255) by (nonlinear_arith)
        requires
            -255 <= dg <= 255,
    ;
    assert(0 <= db * db <= 255 * 255) by (nonlinear_arith)
        requires
            -255 <= db <= 255,
    ;
}

/// A channel brought to 8 bits: kept at 8-bit depth, its high byte at 16-bit.
pub open spec fn channel8(v: u16, depth: ColorDepth) -> u8 {
    match depth {
        ColorDepth::Rgba8 => v as u8,
        ColorDepth::Rgba16 => (v / 256) as u8,
    }
}

/// The four RGBA8 bytes of one color.
pub open spec fn pixel_rgba8(c: Rgba, depth: ColorDepth) -> Seq<u8> {
    seq![channel8(c.r, depth), channel8(c.g, depth), channel8(c.b, depth), channel8(c.a, depth)]
}

/// The packed RGBA8 bytes of a plane of indices into `pal`.
pub open spec fn rgba8_plane(indices: Seq<u64>, pal: Seq<Rgba>, depth: ColorDepth) -> Seq<u8>
    decreases indices.len(),
{
    if indices.len() == 0 {
        Seq::empty()
    } else {
        rgba8_plane(indices.drop_last(), pal, depth) + pixel_rgba8(
            pal[indices.last() as int],
            depth,
        )
    }
}

/// What rendering frame `frame` for a host gives: the frame's pixels through the
/// picked theme's palette as packed RGBA8, or why there is nothing to render.
pub open spec fn spec_render(m: ImageModel, tag: ThemeTag, base: [u8; 3], frame: nat) -> DifResult<
    Seq<u8>,
> {
    let k = pick_index(m.themes, tag, base);
    if frame >= m.frames.len() {
        Err(DifError::Invalid("frame index out of range"))
    } else if k >= m.palettes.len() {
        Err(DifError::Invalid("no palette for the picked theme"))
    } else if exists|p: int|
        0 <= p < m.frames[frame as int].indices.len() && #[trigger] m.frames[frame as int].indices[p]
            >= m.palettes[k as int].len() {
        Err(DifError::Invalid("frame index outside the palette"))
    } else {
        Ok(rgba8_plane(m.frames[frame as int].indices, m.palettes[k as int], m.color_depth))
    }
}

fn channel_to_8(v: u16, depth: ColorDepth) -> (b: u8)
    ensures
        b == channel8(v, depth),
{
    match depth {
        ColorDepth::Rgba8 => v as u8,
        ColorDepth::Rgba16 => (v / 256) as u8,
    }
}

fn theme_score(t: &Theme, tag: ThemeTag, base: [u8; 3]) -> (s: u32)
    ensures
        s == theme_rank(*t, tag, base),
{
    proof {
        lemma_distance_bound(*t, base);
    }
    let dr = t.base_color[0] as i32 - base[0] as i32;
    let dg = t.base_color[1] as i32 - base[1] as i32;
    let db = t.base_color[2] as i32 - base[2] as i32;
    assert(0 <= dr * dr <= 255 * 255) by (nonlinear_arith)
        requires
            -255 <= dr <= 255,
    ;
    assert(0 <= dg * dg <= 255 * 255) by (nonlinear_arith)
        requires
            -255 <= dg <= 255,
    ;
    assert(0 <= db * db <= 255 * 255) by (nonlinear_arith)
        requires
            -255 <= db <= 255,
    ;
    let dist = (dr * dr + dg * dg + db * db) as u32;
    if t.abilities & tag.bit() != 0 {
        dist
    } else {
        0x40000 + dist
    }
}

impl DifImage {
    /// The theme to show a host of appearance `tag` over background `base`: the
    /// first theme of least rank (see `theme_rank`).
    pub fn pick_theme(&self, tag: ThemeTag, base: [u8; 3]) -> (k: usize)
        ensures
            k == pick_index(self@.themes, tag, base),
    {
        let n = self.themes.len();
        if n == 0 {
            return 0;
        }
        let mut best: usize = 0;
        let mut best_score = theme_score(&self.themes[0], tag, base);
        let mut i: usize = 1;
        assert(self.themes@.take(1).drop_last() =~= Seq::<Theme>::empty());
        while i < n
            invariant
                1 <= i <= n == self.themes@.len(),
                best < i,
                best == pick_index(self.themes@.take(i as int), tag, base),
                best_score == theme_rank(self.themes@[best as int], tag, base),
            decreases n - i,
        {
            let s = theme_score(&self.themes[i], tag, base);
            let ghost pre = self.themes@.take(i as int);
            assert(self.themes@.take(i + 1).drop_last() =~= pre);
            assert(pre[best as int] == self.themes@[best as int]);
            if s < best_score {
                best = i;
                best_score = s;
            }
            i = i + 1;
        }
        assert(self.themes@.take(n as int) =~= self.themes@);
        best
    }

    /// Render frame `frame` for a host of appearance `tag` over background `base`
    /// as packed RGBA8 (`4 * width * height` bytes for a valid image).
    #[verifier::loop_isolation(false)]
    pub fn render_rgba8(&self, tag: ThemeTag, base: [u8; 3], frame: usize) -> (r: DifResult<Vec<u8>>)
        ensures
            match r {
                Ok(b) => spec_render(self@, tag, base, frame as nat) == Ok::<Seq<u8>, DifError>(b@),
                Err(e) => spec_render(self@, tag, base, frame as nat) == Err::<Seq<u8>, DifError>(e),
            },
    {
        let ghost m = self@;
        if frame >= self.frames.len() {
            return Err(DifError::Invalid("frame index out of range"));
        }
        let k = self.pick_theme(tag, base);
        if k >= self.palettes.len() {
            return Err(DifError::Invalid("no palette for the picked theme"));
        }
        let pal = &self.palettes[k];
        let idx = &self.frames[frame].indices;
        assert(pal@ == m.palettes[k as int]);
        assert(idx@ == m.frames[frame as int].indices);
        let depth = self.color_depth;
        let mut out: Vec<u8> = Vec::new();
        let mut p: usize = 0;
        assert(idx@.take(0) =~= Seq::<u64>::empty());
        while p < idx.len()
            invariant
                p <= idx@.len(),
                out@ == rgba8_plane(idx@.take(p as int), pal@, depth),
                forall|q: int| 0 <= q < p ==> #[trigger] idx@[q] < pal@.len(),
            decreases idx.len() - p,
        {
            let i = idx[p];
            if i >= pal.len() as u64 {
                assert(m.frames[frame as int].indices[p as int] >= m.palettes[k as int].len());
                return Err(DifError::Invalid("frame index outside the palette"));
            }
            let c = pal[i as usize];
            let ghost before = out@;
            out.push(channel_to_8(c.r, depth));
            out.push(channel_to_8(c.g, depth));
            out.push(channel_to_8(c.b, depth));
            out.push(channel_to_8(c.a, depth));
            proof {
                let t = idx@.take(p + 1);
                assert(t.drop_last() =~= idx@.take(p as int));
                assert(t.last() == i);
                assert(out@ =~= before + pixel_rgba8(c, depth));
            }
            p = p + 1;
        }
        assert(idx@.take(idx@.len() as int) =~= idx@);
        Ok(out)
    }
}

} // verus!
