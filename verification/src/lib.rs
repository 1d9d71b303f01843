//! Core codec for DIF v3, the Diagram Image Format: a lossless, theme-aware,
//! palette-indexed raster format.

pub mod error;
pub mod le;
pub mod varint;
pub mod abilities;
pub mod container;
pub mod format;
pub mod backends;
pub mod codec;
pub mod text;
pub mod derive;
pub mod regions;
pub mod tally;
pub mod features;
pub mod describe;
pub mod ranking;
pub mod regional;
