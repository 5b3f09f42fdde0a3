//! The camera's integer settings.
use vstd::prelude::*;

verus! {

/// The size of the rendered image, in pixels.
#[derive(Clone, Copy, Debug, PartialEq, Eq, Structural)]
pub struct Resolution {
    pub width: u32,
    pub height: u32,
}

} // verus!
