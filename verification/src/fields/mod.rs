//! Field arithmetic: the base field and its extensions.
use crate::fields::m31::{fp, M31};
use vstd::prelude::*;

pub mod cm31;
pub mod m31;
pub mod qm31;

verus! {

/// A field that extends the base field: its elements can be added,
/// subtracted and multiplied, and every base field element is one of them.
pub trait ExtensionOf: Sized + Copy {
    /// The element is held by canonical representatives.
    spec fn is_valid(&self) -> bool;

    /// The sum of two elements.
    spec fn add_spec(self, rhs: Self) -> Self;

    /// The difference of two elements.
    spec fn sub_spec(self, rhs: Self) -> Self;

    /// The product of two elements.
    spec fn mul_spec(self, rhs: Self) -> Self;

    /// The base field element with the canonical representative `b`, as an
    /// element of this field.
    spec fn from_base_spec(b: int) -> Self;

    /// The unit element.
    spec fn one_spec() -> Self;

    fn add(self, rhs: Self) -> (r: Self)
        requires
            self.is_valid(),
            rhs.is_valid(),
        ensures
            r.is_valid(),
            r == self.add_spec(rhs),
    ;

    fn sub(self, rhs: Self) -> (r: Self)
        requires
            self.is_valid(),
            rhs.is_valid(),
        ensures
            r.is_valid(),
            r == self.sub_spec(rhs),
    ;

    fn mul(self, rhs: Self) -> (r: Self)
        requires
            self.is_valid(),
            rhs.is_valid(),
        ensures
            r.is_valid(),
            r == self.mul_spec(rhs),
    ;

    fn from_base(b: M31) -> (r: Self)
        requires
            b.wf(),
        ensures
            r.is_valid(),
            r == Self::from_base_spec(b@),
    ;

    fn one() -> (r: Self)
        ensures
            r.is_valid(),
            r == Self::one_spec(),
    ;
}

impl ExtensionOf for M31 {
    open spec fn is_valid(&self) -> bool {
        self.wf()
    }

    open spec fn add_spec(self, rhs: Self) -> Self {
        M31(fp(self@ + rhs@) as u32)
    }

    open spec fn sub_spec(self, rhs: Self) -> Self {
        M31(fp(self@ - rhs@) as u32)
    }

    open spec fn mul_spec(self, rhs: Self) -> Self {
        M31(fp(self@ * rhs@) as u32)
    }

    open spec fn from_base_spec(b: int) -> Self {
        M31(b as u32)
    }

    open spec fn one_spec() -> Self {
        M31(1)
    }

    fn add(self, rhs: Self) -> (r: Self) {
        M31(crate::fields::m31::add_mod(self.0, rhs.0))
    }

    fn sub(self, rhs: Self) -> (r: Self) {
        M31(crate::fields::m31::sub_mod(self.0, rhs.0))
    }

    fn mul(self, rhs: Self) -> (r: Self) {
        M31(crate::fields::m31::mul_mod(self.0, rhs.0))
    }

    fn from_base(b: M31) -> (r: Self) {
        b
    }

    fn one() -> (r: Self) {
        M31(1)
    }
}

} // verus!
