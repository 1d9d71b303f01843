//! Theme ability bits: which host appearances a theme can display under.

use vstd::prelude::*;

verus! {

/// The theme displays under a light host appearance.
pub const LIGHT: u8 = 0x01;
/// The theme displays under a dark host appearance.
pub const DARK: u8 = 0x02;
/// The theme displays under a high-contrast host appearance.
pub const HIGH_CONTRAST: u8 = 0x04;
/// The bits reserved for future abilities; a valid theme sets none of them.
pub const RESERVED: u8 = 0xF8;

} // verus!
