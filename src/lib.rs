//! Compact placeholder hashes: a truncated cosine transform of an image's
//! colours, quantized and written in a base-83 alphabet.
//!
//! This crate holds the integer side of the encoder: the base-83 codec, the
//! packing and clamping of quantized components, the order in which components
//! are visited, and the assembly of the final hash string.
pub mod base83;
pub mod components;
pub mod hash;
pub mod pixels;

pub use base83::{decode_base83, encode_base83};
pub use components::{basis_normalization, clamp_component_count, component_order};
pub use hash::{encode_ac, encode_dc, encode_quantized, quantize_ac_level, quantize_scale};
pub use pixels::PixelGrid;
