//! Turns a byte stream into QR-framed text lines or a tiled QR raster, and back,
//! with an optional authenticated-encryption envelope.

pub mod error;
pub mod frame;
pub mod assemble;
pub mod codec;
pub mod split;
pub mod render;
pub mod pipeline;
pub mod options;
