//! The degree four extension of the base field: `a + b u` over the complex
//! extension, with `u^2 = 2 + i`.
use crate::fields::cm31::CM31;
use crate::fields::m31::M31;
use crate::fields::ExtensionOf;
use vstd::prelude::*;

verus! {

/// The element `a + b u`, by its two complex coordinates.
#[derive(Clone, Copy, Debug, PartialEq, Eq)]
pub struct QM31(pub CM31, pub CM31);

/// The field in which points outside the base field are taken.
pub type SecureField = QM31;

/// The square of `u`: `2 + i`.
pub open spec fn r_spec() -> CM31 {
    CM31(M31(2), M31(1))
}

impl QM31 {
    /// The element with the given canonical representatives.
    pub fn from_u32_unchecked(a: u32, b: u32, c: u32, d: u32) -> (r: QM31)
        requires
            a < crate::fields::m31::P,
            b < crate::fields::m31::P,
            c < crate::fields::m31::P,
            d < crate::fields::m31::P,
        ensures
            r.is_valid(),
            r == QM31(CM31(M31(a), M31(b)), CM31(M31(c), M31(d))),
    {
        QM31(CM31(M31(a), M31(b)), CM31(M31(c), M31(d)))
    }
}

impl ExtensionOf for QM31 {
    open spec fn is_valid(&self) -> bool {
        self.0.is_valid() && self.1.is_valid()
    }

    open spec fn add_spec(self, rhs: Self) -> Self {
        QM31(self.0.add_spec(rhs.0), self.1.add_spec(rhs.1))
    }

    open spec fn sub_spec(self, rhs: Self) -> Self {
        QM31(self.0.sub_spec(rhs.0), self.1.sub_spec(rhs.1))
    }

    /// `(a + b u)(c + d u) = (a c + (2 + i) b d) + (a d + b c) u`.
    open spec fn mul_spec(self, rhs: Self) -> Self {
        QM31(
            self.0.mul_spec(rhs.0).add_spec(r_spec().mul_spec(self.1.mul_spec(rhs.1))),
            self.0.mul_spec(rhs.1).add_spec(self.1.mul_spec(rhs.0)),
        )
    }

    open spec fn from_base_spec(b: int) -> Self {
        QM31(CM31(M31(b as u32), M31(0)), CM31(M31(0), M31(0)))
    }

    open spec fn one_spec() -> Self {
        QM31(CM31(M31(1), M31(0)), CM31(M31(0), M31(0)))
    }

    fn add(self, rhs: Self) -> (r: Self) {
        QM31(ExtensionOf::add(self.0, rhs.0), ExtensionOf::add(self.1, rhs.1))
    }

    fn sub(self, rhs: Self) -> (r: Self) {
        QM31(ExtensionOf::sub(self.0, rhs.0), ExtensionOf::sub(self.1, rhs.1))
    }

    fn mul(self, rhs: Self) -> (r: Self) {
        let ac: CM31 = ExtensionOf::mul(self.0, rhs.0);
        let bd: CM31 = ExtensionOf::mul(self.1, rhs.1);
        let ad: CM31 = ExtensionOf::mul(self.0, rhs.1);
        let bc: CM31 = ExtensionOf::mul(self.1, rhs.0);
        let rbd: CM31 = ExtensionOf::mul(CM31(M31(2), M31(1)), bd);
        QM31(ExtensionOf::add(ac, rbd), ExtensionOf::add(ad, bc))
    }

    fn from_base(b: M31) -> (r: Self) {
        QM31(CM31(b, M31(0)), CM31(M31(0), M31(0)))
    }

    fn one() -> (r: Self) {
        QM31(CM31(M31(1), M31(0)), CM31(M31(0), M31(0)))
    }
}

} // verus!
