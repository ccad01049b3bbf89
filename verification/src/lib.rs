//! Experimental Fastvid codec: an intermediate video codec with independently
//! coded tiles, spatial and temporal prediction, and adaptive entropy coding.
//!
//! The version-zero bitstream is unstable. Its purpose is to make codec ideas
//! measurable while keeping tile independence and malformed-input handling
//! explicit.

pub mod analysis;
pub mod analyze;
pub mod analyze16;
pub mod bitio;
pub mod bits;
pub mod codec;
pub mod codec16;
pub mod entropy;
pub mod model;
pub mod predict;
pub mod rans;
pub mod research;
pub mod residual;
pub mod residual16;
pub mod tile_coding;
pub mod tile_coding16;
pub mod tiles;

pub use codec::{
    DecodedTile, StreamInfo, decode, decode_tile, decode_with_reference, encode,
    encode_with_reference, inspect,
};
pub use model::{CodecError, CodecOptions, Frame, Frame16, FrameRate, PixelFormat, Plane, Plane16};
