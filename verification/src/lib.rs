//! Host-side core of a tiled 2D vector renderer: the scene element stream and
//! its wire format, outline conversion, text scene assembly, the annotation
//! and binning formats with the chunk merge, the coordination trace, and the
//! frame pipeline's control flow.
//!
//! Coordinates are IEEE 754 binary32 values held by their bit patterns, so
//! that every buffer the library reads or writes is exact to the bit.

pub mod error;
pub mod single;
pub mod scene;
pub mod text;
pub mod binning;
pub mod encoder;
pub mod anno;
pub mod trace;
pub mod dump;
pub mod pipeline;
