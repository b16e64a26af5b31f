//! The ways in which a render can fail.

use vstd::prelude::*;

verus! {

/// Why a render was abandoned. No partial image is ever handed out.
#[derive(Clone, Copy, Debug, PartialEq, Eq, Structural)]
pub enum RenderError {
    /// A width or a height of zero, a raster too large to address, or no
    /// worker to render it.
    InvalidDimension,
    /// A band's computation did not complete.
    WorkerFailure,
    /// The finished image could not be handed to the encoder, or the
    /// encoder could not write it.
    EncodingFailure,
}

} // verus!
