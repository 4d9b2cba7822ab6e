//! Signed-distance-field glyph tooling.
//!
//! This library turns rasterized glyph alpha bitmaps into signed distance
//! fields, packs the resulting glyph records into fontstack messages,
//! writes and reads those messages in a compact binary wire format, and
//! merges fontstacks from several fonts with fallback precedence.
//!
//! The distance computation works in exact fixed-point arithmetic: alpha
//! potentials and squared distances are held as integers scaled by
//! [`sdf::SQ_UNIT`], so the separable Euclidean distance transform in
//! [`transform`] is bit-exact and carries a full functional contract.
//! Turning the squared fields into normalized floating-point distances
//! (and quantizing those with a cutoff) is a thin numeric step left to
//! callers.
//!
//! The wire codec in [`codec`] round-trips exactly:
//! [`codec::lemma_codec_round_trip`] proves that decoding an encoding
//! yields the encoded model, and [`codec::encode_glyphs`] promises it of
//! its own output.

pub mod bitmap;
pub mod codec;
pub mod combine;
pub mod error;
pub mod model;
pub mod sdf;
pub mod text;
pub mod transform;
