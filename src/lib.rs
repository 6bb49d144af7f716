//! Frame-accurate random access into transport-stream video assets: an
//! entry-point map parser, a frame-number predictor, a segment-granular byte
//! cache and the decode-session reuse protocol.
use vstd::prelude::*;

pub mod clpi;
pub mod predict;
pub mod fcache;
pub mod cached_decoder;

verus! {

} // verus!
