//! Rendering: what a content stream paints, in which state.
//!
//! Numbers, names, strings and the objects of a document are handles into
//! tables that the caller keeps. The interpreter settles which operator does
//! what to which state and what is painted; the caller computes coordinates,
//! colours and pixels.
pub mod codes;
pub mod interp;
pub mod laws;
pub mod operators;
pub mod pixels;
pub mod state;
