//! Bitmap formats.
pub mod argb;
pub mod bits;
pub mod code_lengths;
pub mod huffman;
pub mod lossless;
pub mod optimal;
pub mod resize;
pub mod transform;
pub mod tree;
pub mod vp8;
pub mod vp8l;
pub mod webp;
