//! Generic bit-level encoding of bytes into base-2^n text (base16, base32,
//! base64 and their relatives), parameterised by a [`base::Base`] that gives
//! the symbol width, the alphabet and the padding character.

pub mod base;
pub mod tool;
pub mod model;
pub mod encode;
pub mod round_trip;
pub mod bits;
