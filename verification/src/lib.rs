//! Compact binary records for geographic map features: varint, point and
//! label codecs, node/line/area record builders, a dispatcher for ways, and
//! a ring assembler that orders the boundary segments of multi-part
//! relations.
//!
//! Coordinates are handled in quantized form: a longitude or latitude in
//! degrees is represented as its value scaled by `1e7` and rounded to the
//! nearest integer, which fits a 32-bit signed integer for the whole
//! `±180 / ±90` domain. Callers quantize before encoding and divide by
//! `1e7` after decoding.
pub mod encode;
pub mod label;
pub mod member;
pub mod point;
pub mod record;
pub mod varint;
