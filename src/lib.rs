//! A lossless image codec: a 14-byte header, then tagged chunks that predict
//! each pixel from the previous one and from a 64-slot color table, then an
//! 8-byte end marker.

pub mod codec;
pub mod color;
pub mod header;
pub mod lemmas;
pub mod source;

pub use codec::{check_pixel_count, decode, encode, Data, DecodeError};
pub use color::Rgba;
pub use header::{Channels, ColorSpace, Header};
pub use source::Source;
