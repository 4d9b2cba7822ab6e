//! Error types surfaced by the library.

use vstd::prelude::*;

verus! {

/// Errors raised while building bitmaps for SDF rendering.
#[derive(Debug)]
pub enum SdfGlyphError {
    /// The rasterizer did not report the size metrics the caller needs.
    MissingSizeMetrics,
    /// The alpha data length does not match the formula the dimensions imply:
    /// the first field names the formula, the second holds its value, the
    /// third the actual data length.
    InvalidDataDimensions(&'static str, usize, usize),
}

/// Errors raised while decoding the binary wire format.
#[derive(Debug, PartialEq, Eq)]
pub enum DecodeError {
    /// The input ended in the middle of a varint or a length-delimited field.
    Truncated,
    /// A varint ran longer than the ten bytes a 64-bit value may occupy.
    VarintTooLong,
    /// A field tag does not belong to the message being decoded.
    UnknownField,
    /// A length-delimited string field did not hold valid UTF-8.
    InvalidString,
}

} // verus!
