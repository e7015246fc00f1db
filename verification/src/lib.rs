//! Circle-group Fourier transform over the Mersenne field of order 2^31 - 1:
//! interpolation, evaluation and point evaluation of circle polynomials held
//! in sixteen-lane columns.
//!
//! Field elements are held fully reduced everywhere: every stored value is
//! the canonical representative below the modulus, and every operation
//! returns one.
pub mod backend;
pub mod circle;
pub mod column;
pub mod domain;
pub mod fft;
pub mod fields;
pub mod fold;
pub mod laws;
pub mod point;
pub mod poly;
pub mod utils;
