//! VP8 keyframes, the lossy half of WebP.
//!
//! The intra-only path of the format: the boolean entropy decoder, frame and
//! macroblock headers, coefficients, the inverse transforms, prediction, the
//! loop filter, and conversion to RGBA.
use vstd::prelude::*;

pub mod arith;
pub mod dct;
pub mod filter;
pub mod frame;
pub mod header;
pub mod laws;
pub mod modes;
pub mod plane;
pub mod predict;
pub mod recon;
pub mod tables;
pub mod tokens;

verus! {

/// Decode the body of a `VP8 ` chunk into width, height and RGBA bytes.
pub fn decode(body: &[u8]) -> (r: Option<(u32, u32, Vec<u8>)>)
    ensures
        match frame::keyframe_rgba(body@) {
            Some(d) => r is Some && (r->0).0 == d.0 && (r->0).1 == d.1 && (r->0).2@ == d.2,
            None => r is None,
        },
{
    frame::decode_keyframe(body)
}

} // verus!
