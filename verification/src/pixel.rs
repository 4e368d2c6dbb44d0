//! What may serve as a pixel of a seed image.

use vstd::prelude::*;

verus! {

/// A pixel: an opaque value that is copied and compared, nothing more.
pub trait Pixel {

}

impl Pixel for usize {

}

impl Pixel for [u8; 3] {

}

} // verus!
