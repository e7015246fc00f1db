//! The layered butterfly transform and its inverse.
use vstd::prelude::*;

pub mod ifft;
pub mod lanes;
pub mod layout;
pub mod model;
pub mod rfft;
pub mod transpose;
pub mod twiddles;

verus! {

/// The smallest logarithmic size that the transforms take.
pub const MIN_FFT_LOG_SIZE: u32 = 4;

/// The largest logarithmic size whose coefficients are laid out in the
/// order of the layers; above it the vectors are held transposed.
pub const CACHED_FFT_LOG_SIZE: u32 = 16;

/// The largest logarithmic size that the transforms take.
pub const MAX_FFT_LOG_SIZE: u32 = 30;

} // verus!
