//! The complex extension of the base field: `a + b i` with `i^2 = -1`.
use crate::fields::m31::M31;
use crate::fields::ExtensionOf;
use vstd::prelude::*;

verus! {

/// The element `a + b i`, by its two base field coordinates.
#[derive(Clone, Copy, Debug, PartialEq, Eq)]
pub struct CM31(pub M31, pub M31);

impl CM31 {
    /// The element with the given canonical representatives.
    pub fn from_u32_unchecked(a: u32, b: u32) -> (r: CM31)
        requires
            a < crate::fields::m31::P,
            b < crate::fields::m31::P,
        ensures
            r.is_valid(),
            r.0.0 == a,
            r.1.0 == b,
    {
        CM31(M31(a), M31(b))
    }
}

impl ExtensionOf for CM31 {
    open spec fn is_valid(&self) -> bool {
        self.0.wf() && self.1.wf()
    }

    open spec fn add_spec(self, rhs: Self) -> Self {
        CM31(self.0.add_spec(rhs.0), self.1.add_spec(rhs.1))
    }

    open spec fn sub_spec(self, rhs: Self) -> Self {
        CM31(self.0.sub_spec(rhs.0), self.1.sub_spec(rhs.1))
    }

    /// `(a + b i)(c + d i) = (a c - b d) + (a d + b c) i`.
    open spec fn mul_spec(self, rhs: Self) -> Self {
        CM31(
            self.0.mul_spec(rhs.0).sub_spec(self.1.mul_spec(rhs.1)),
            self.0.mul_spec(rhs.1).add_spec(self.1.mul_spec(rhs.0)),
        )
    }

    open spec fn from_base_spec(b: int) -> Self {
        CM31(M31(b as u32), M31(0))
    }

    open spec fn one_spec() -> Self {
        CM31(M31(1), M31(0))
    }

    fn add(self, rhs: Self) -> (r: Self) {
        CM31(ExtensionOf::add(self.0, rhs.0), ExtensionOf::add(self.1, rhs.1))
    }

    fn sub(self, rhs: Self) -> (r: Self) {
        CM31(ExtensionOf::sub(self.0, rhs.0), ExtensionOf::sub(self.1, rhs.1))
    }

    fn mul(self, rhs: Self) -> (r: Self) {
        let ac: M31 = ExtensionOf::mul(self.0, rhs.0);
        let bd: M31 = ExtensionOf::mul(self.1, rhs.1);
        let ad: M31 = ExtensionOf::mul(self.0, rhs.1);
        let bc: M31 = ExtensionOf::mul(self.1, rhs.0);
        CM31(ExtensionOf::sub(ac, bd), ExtensionOf::add(ad, bc))
    }

    fn from_base(b: M31) -> (r: Self) {
        CM31(b, M31(0))
    }

    fn one() -> (r: Self) {
        CM31(M31(1), M31(0))
    }
}

} // verus!
