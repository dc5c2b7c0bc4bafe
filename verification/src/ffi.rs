//! The opaque handle of a native rendering context.

use vstd::prelude::*;

verus! {

/// A native render context; only ever handled behind a pointer.
pub struct RiveRenderContext {
    opaque: [u8; 0],
}

} // verus!
