//! Dark-theme derivation: how a source (light) color maps to its dark-theme
//! color under a [`Strategy`].
//!
//! - `Keep`: the dark theme is identical to the source.
//! - `Invert`: the photographic negative (`max - channel`), alpha kept.
//! - `Arithmetic`: a perceptual OKLab transform. Its color math is done in
//!   floating point by the caller, which hands the resulting RGB in; this module
//!   keeps the alpha and picks the branch.

use vstd::prelude::*;

use crate::container::{ColorDepth, Rgba};
use crate::error::{DifError, DifResult};
use crate::text::{chars_of, span_is};

verus! {

/// Which kind of region a color belongs to, deciding its dark-theme transform:
/// `Background` keeps the per-color transform, `Foreground` (text, thin strokes)
/// gets a higher-contrast one.
#[derive(Clone, Copy, PartialEq, Eq, Debug, Structural)]
pub enum RegionClass {
    Background,
    Foreground,
}

/// Dark-theme derivation strategy.
#[derive(Clone, Copy, PartialEq, Eq, Debug, Structural)]
pub enum Strategy {
    Keep,
    Invert,
    Arithmetic,
}

/// The strategy a name stands for.
pub open spec fn spec_strategy_named(s: Seq<char>) -> DifResult<Strategy> {
    if s == "keep"@ {
        Ok(Strategy::Keep)
    } else if s == "invert"@ {
        Ok(Strategy::Invert)
    } else if s == "arithmetic"@ {
        Ok(Strategy::Arithmetic)
    } else {
        Err(DifError::Invalid("strategy must be 'keep', 'invert', or 'arithmetic'"))
    }
}

impl Strategy {
    /// Parse `"keep"`, `"invert"` or `"arithmetic"`.
    pub fn from_name(s: &str) -> (r: DifResult<Strategy>)
        ensures
            r == spec_strategy_named(s@),
    {
        let n = chars_of(s);
        assert(n@.subrange(0, n@.len() as int) =~= n@);
        if span_is(&n, 0, n.len(), "keep") {
            Ok(Strategy::Keep)
        } else if span_is(&n, 0, n.len(), "invert") {
            Ok(Strategy::Invert)
        } else if span_is(&n, 0, n.len(), "arithmetic") {
            Ok(Strategy::Arithmetic)
        } else {
            Err(DifError::Invalid("strategy must be 'keep', 'invert', or 'arithmetic'"))
        }
    }
}

/// The negative of `c` at `depth`: every color channel subtracted from the
/// channel maximum, alpha kept.
pub open spec fn negative(c: Rgba, depth: ColorDepth) -> Rgba {
    let m = depth.spec_max_value();
    Rgba { r: (m - c.r) as u16, g: (m - c.g) as u16, b: (m - c.b) as u16, a: c.a }
}

/// The color channels of `c` fit `depth` (alpha aside).
pub open spec fn rgb_fits(c: Rgba, depth: ColorDepth) -> bool {
    let m = depth.spec_max_value();
    c.r <= m && c.g <= m && c.b <= m
}

/// The dark-theme color of `c`: itself under `Keep`, its negative under
/// `Invert`, and under `Arithmetic` the RGB the perceptual transform computed,
/// with `c`'s alpha.
pub open spec fn spec_dark_color(
    c: Rgba,
    strategy: Strategy,
    depth: ColorDepth,
    arithmetic: Option<(u16, u16, u16)>,
) -> Rgba {
    match strategy {
        Strategy::Keep => c,
        Strategy::Invert => negative(c, depth),
        Strategy::Arithmetic => {
            let (r, g, b) = arithmetic.unwrap();
            Rgba { r, g, b, a: c.a }
        },
    }
}

/// The perceptual transform's RGB is there and, having been clamped to the
/// gamut, fits `depth`.
pub open spec fn arithmetic_fits(arithmetic: Option<(u16, u16, u16)>, depth: ColorDepth) -> bool {
    match arithmetic {
        Some((r, g, b)) => r <= depth.spec_max_value() && g <= depth.spec_max_value() && b
            <= depth.spec_max_value(),
        None => false,
    }
}

/// Derive one color's dark-theme color under `strategy` at color depth `depth`.
/// `arithmetic` carries the RGB of the perceptual transform of `c`; it is read
/// only under `Strategy::Arithmetic`.
pub fn dark_color_for(
    c: Rgba,
    strategy: Strategy,
    depth: ColorDepth,
    arithmetic: Option<(u16, u16, u16)>,
) -> (d: Rgba)
    requires
        strategy == Strategy::Invert ==> rgb_fits(c, depth),
        strategy == Strategy::Arithmetic ==> arithmetic_fits(arithmetic, depth),
    ensures
        d == spec_dark_color(c, strategy, depth, arithmetic),
        strategy != Strategy::Keep ==> rgb_fits(d, depth),
{
    let maxv = depth.max_value();
    match strategy {
        Strategy::Keep => c,
        Strategy::Invert => Rgba::new(maxv - c.r, maxv - c.g, maxv - c.b, c.a),
        Strategy::Arithmetic => {
            let (r, g, b) = arithmetic.unwrap();
            Rgba::new(r, g, b, c.a)
        },
    }
}

/// The dark theme's base color (RGB8) for a source base color, as the RGB8
/// channels of its dark-theme color (an opaque color at 8-bit depth).
pub open spec fn spec_dark_base(
    base: [u8; 3],
    strategy: Strategy,
    arithmetic: Option<(u16, u16, u16)>,
) -> [u8; 3] {
    let c = Rgba { r: base[0] as u16, g: base[1] as u16, b: base[2] as u16, a: 255 };
    let d = spec_dark_color(c, strategy, ColorDepth::Rgba8, arithmetic);
    [d.r as u8, d.g as u8, d.b as u8]
}

/// Derive the dark theme's `base_color` from the source base color under
/// `strategy`, so the theme picker tie-breaks against a representative
/// background. `arithmetic` is as for [`dark_color_for`].
pub fn derive_dark_base_color(
    base: [u8; 3],
    strategy: Strategy,
    arithmetic: Option<(u16, u16, u16)>,
) -> (d: [u8; 3])
    requires
        strategy == Strategy::Arithmetic ==> arithmetic_fits(arithmetic, ColorDepth::Rgba8),
    ensures
        d == spec_dark_base(base, strategy, arithmetic),
{
    let c = Rgba::new(base[0] as u16, base[1] as u16, base[2] as u16, 255);
    let d = dark_color_for(c, strategy, ColorDepth::Rgba8, arithmetic);
    [d.r as u8, d.g as u8, d.b as u8]
}

/// `Invert` is an involution: the negative of the negative of a color whose
/// channels fit the depth is the color itself, and the negative fits too.
pub proof fn lemma_invert_involution(c: Rgba, depth: ColorDepth)
    requires
        rgb_fits(c, depth),
    ensures
        rgb_fits(negative(c, depth), depth),
        negative(negative(c, depth), depth) == c,
{
}

/// `Keep` leaves every color, and every base color, as it was.
pub proof fn lemma_keep_is_identity(c: Rgba, depth: ColorDepth, base: [u8; 3])
    ensures
        spec_dark_color(c, Strategy::Keep, depth, None) == c,
        spec_dark_base(base, Strategy::Keep, None) == base,
{
    assert(spec_dark_base(base, Strategy::Keep, None) =~= base);
}

} // verus!
