//! Points of the circle and their indices, as machine values.
use crate::circle::{
    circle_gen, circle_order, double_x, lemma_gen_order, lemma_pt_add_assoc, lemma_pt_add_comm,
    lemma_pt_add_half_turn, lemma_pt_add_id, lemma_pt_add_on_circle, lemma_pt_conj, lemma_pt_double,
    lemma_pt_mul_add, lemma_pt_mul_mul, lemma_pt_mul_on_circle, lemma_pt_mul_two, on_circle,
    point_at, pt_add, pt_antipode, pt_conj, pt_double, pt_id, pt_mul, rep_double, Pt,
};
use crate::fields::m31::{lemma_fp_add, M31};
use crate::fields::ExtensionOf;
use crate::utils::pow2_usize;
use vstd::arithmetic::div_mod::*;
use vstd::arithmetic::power2::*;
use vstd::prelude::*;

verus! {

/// The logarithm of the order of the circle group.
pub const M31_CIRCLE_LOG_ORDER: u32 = 31;

/// A point of the plane with coordinates in `F`.
#[derive(Clone, Copy, Debug, PartialEq, Eq)]
pub struct CirclePoint<F> {
    pub x: F,
    pub y: F,
}

/// The generator of the circle group.
pub fn m31_circle_gen() -> (r: CirclePoint<M31>)
    ensures
        r.pt() == circle_gen(),
        r.wf(),
{
    proof {
        lemma_gen_order();
    }
    CirclePoint { x: M31(2), y: M31(1268011823) }
}

/// The x coordinate of the double of a point of the circle with x
/// coordinate `x`, in any field that extends the base field: `2 x^2 - 1`.
pub open spec fn ext_double_x<F: ExtensionOf>(x: F) -> F {
    x.mul_spec(x).add_spec(x.mul_spec(x)).sub_spec(F::one_spec())
}

/// In the base field the doubling map is the one of the integer model.
pub proof fn lemma_ext_double_x_base(x: M31)
    requires
        x.wf(),
    ensures
        ext_double_x(x).wf(),
        ext_double_x(x)@ == double_x(x@),
{
    let s = x@ * x@;
    lemma_fp_add(s, s);
    lemma_fp_add(s + s, 1);
    assert(2 * x@ * x@ == s + s) by (nonlinear_arith)
        requires
            s == x@ * x@,
    ;
}

impl<F: ExtensionOf> CirclePoint<F> {
    /// Both coordinates are held by canonical representatives.
    pub open spec fn coords_valid(self) -> bool {
        self.x.is_valid() && self.y.is_valid()
    }

    /// The x coordinate of the double of a point with x coordinate `x`.
    pub fn double_x(x: F) -> (r: F)
        requires
            x.is_valid(),
        ensures
            r.is_valid(),
            r == ext_double_x(x),
    {
        let sx: F = x.mul(x);
        sx.add(sx).sub(F::one())
    }
}

impl CirclePoint<M31> {
    /// The point as a pair of integers.
    pub open spec fn pt(self) -> Pt {
        Pt { x: self.x@, y: self.y@ }
    }

    /// The coordinates are canonical and the point lies on the circle.
    pub open spec fn wf(self) -> bool {
        on_circle(self.pt())
    }

    /// The neutral element `(1, 0)`.
    pub fn zero() -> (r: Self)
        ensures
            r.pt() == pt_id(),
            r.wf(),
    {
        assert(1int * 1int + 0int * 0int == 1);
        CirclePoint { x: M31(1), y: M31(0) }
    }

    /// The sum of two points of the circle.
    pub fn add(self, rhs: Self) -> (r: Self)
        requires
            self.wf(),
            rhs.wf(),
        ensures
            r.pt() == pt_add(self.pt(), rhs.pt()),
            r.wf(),
    {
        let x: M31 = self.x.mul(rhs.x).sub(self.y.mul(rhs.y));
        let y: M31 = self.x.mul(rhs.y).add(self.y.mul(rhs.x));
        proof {
            lemma_fp_add(self.x@ * rhs.x@, self.y@ * rhs.y@);
            lemma_fp_add(self.x@ * rhs.y@, self.y@ * rhs.x@);
            lemma_pt_add_on_circle(self.pt(), rhs.pt());
        }
        CirclePoint { x, y }
    }

    /// The double of a point of the circle.
    pub fn double(self) -> (r: Self)
        requires
            self.wf(),
        ensures
            r.pt() == pt_double(self.pt()),
            r.wf(),
    {
        self.add(self)
    }

    /// The point doubled `n` times.
    pub fn repeated_double(self, n: u32) -> (r: Self)
        requires
            self.wf(),
        ensures
            r.pt() == rep_double(self.pt(), n as nat),
            r.wf(),
    {
        let mut res: Self = self;
        let mut i: u32 = 0;
        while i < n
            invariant
                i <= n,
                res.wf(),
                res.pt() == rep_double(self.pt(), i as nat),
            decreases n - i,
        {
            res = res.double();
            i = i + 1;
        }
        res
    }

    /// The mirror image in the x axis, which is the inverse in the group.
    pub fn conjugate(self) -> (r: Self)
        requires
            self.wf(),
        ensures
            r.pt() == pt_conj(self.pt()),
            r.wf(),
    {
        proof {
            lemma_pt_conj(self.pt());
        }
        CirclePoint { x: self.x, y: self.y.neg() }
    }

    /// The opposite point.
    pub fn antipode(self) -> (r: Self)
        requires
            self.wf(),
        ensures
            r.pt() == pt_antipode(self.pt()),
            r.wf(),
    {
        proof {
            lemma_pt_add_half_turn(self.pt());
            assert(2147483646int * 2147483646int + 0int * 0int == 2147483647 * 2147483645 + 1);
            lemma_pt_add_on_circle(self.pt(), Pt { x: 2147483646, y: 0 });
        }
        CirclePoint { x: self.x.neg(), y: self.y.neg() }
    }

    /// The point multiplied by a scalar, by doubling and adding.
    pub fn mul(self, scalar: u64) -> (r: Self)
        requires
            self.wf(),
        ensures
            r.pt() == pt_mul(scalar as nat, self.pt()),
            r.wf(),
    {
        let mut res: Self = Self::zero();
        let mut cur: Self = self;
        let mut s: u64 = scalar;
        proof {
            lemma_pt_mul_on_circle(scalar as nat, self.pt());
            lemma_pt_add_id(pt_mul(scalar as nat, self.pt()));
        }
        while s > 0
            invariant
                cur.wf(),
                res.wf(),
                pt_mul(scalar as nat, self.pt()) == pt_add(res.pt(), pt_mul(s as nat, cur.pt())),
            decreases s,
        {
            proof {
                let h: nat = (s / 2) as nat;
                let c = cur.pt();
                let a = pt_mul(h, pt_double(c));
                lemma_pt_mul_add(h * 2, (s % 2) as nat, c);
                lemma_pt_mul_mul(h, 2, c);
                lemma_pt_mul_two(c);
                lemma_pt_double(c);
                lemma_pt_mul_on_circle(h, pt_double(c));
                assert(pt_mul(s as nat, c) == pt_add(a, pt_mul((s % 2) as nat, c)));
                if s % 2 == 1 {
                    lemma_pt_add_comm(a, c);
                    lemma_pt_add_assoc(res.pt(), c, a);
                } else {
                    assert(pt_mul(0, c) == pt_id());
                    lemma_pt_add_id(a);
                }
            }
            if s % 2 == 1 {
                res = res.add(cur);
            }
            cur = cur.double();
            s = s / 2;
        }
        proof {
            assert(pt_mul(0, cur.pt()) == pt_id());
            lemma_pt_add_id(res.pt());
        }
        res
    }
}

/// The index of a point of the circle: the multiple of the generator that
/// it is, counted modulo the group order.
#[derive(Clone, Copy, Debug, PartialEq, Eq)]
pub struct CirclePointIndex(pub usize);

impl CirclePointIndex {
    /// The index is reduced modulo the group order.
    pub open spec fn wf(self) -> bool {
        self.0 < 0x8000_0000
    }

    pub fn zero() -> (r: Self)
        ensures
            r.0 == 0,
    {
        CirclePointIndex(0)
    }

    pub fn generator() -> (r: Self)
        ensures
            r.0 == 1,
    {
        CirclePointIndex(1)
    }

    /// The index reduced modulo the group order.
    pub fn reduce(self) -> (r: Self)
        ensures
            r.wf(),
            r.0 as int == self.0 as int % circle_order(),
    {
        CirclePointIndex(self.0 % 0x8000_0000)
    }

    /// The index of a generator of the subgroup of order `2^log_size`.
    pub fn subgroup_gen(log_size: u32) -> (r: Self)
        requires
            log_size <= M31_CIRCLE_LOG_ORDER,
        ensures
            r.wf(),
            r.0 as int == pow2((31 - log_size) as nat) as int % circle_order(),
    {
        let v: usize = pow2_usize(M31_CIRCLE_LOG_ORDER - log_size);
        CirclePointIndex(v % 0x8000_0000)
    }

    /// The point with this index.
    pub fn to_point(self) -> (r: CirclePoint<M31>)
        requires
            self.wf(),
        ensures
            r.pt() == point_at(self.0 as int),
            r.wf(),
    {
        m31_circle_gen().mul(self.0 as u64)
    }

    /// Half of an even index.
    pub fn half(self) -> (r: Self)
        requires
            self.wf(),
            self.0 % 2 == 0,
        ensures
            r.wf(),
            2 * r.0 == self.0,
    {
        CirclePointIndex(self.0 / 2)
    }

    pub fn add(self, rhs: Self) -> (r: Self)
        requires
            self.wf(),
            rhs.wf(),
        ensures
            r.wf(),
            r.0 as int == (self.0 + rhs.0) % circle_order(),
    {
        CirclePointIndex((self.0 + rhs.0) % 0x8000_0000)
    }

    pub fn sub(self, rhs: Self) -> (r: Self)
        requires
            self.wf(),
            rhs.wf(),
        ensures
            r.wf(),
            r.0 as int == (self.0 - rhs.0) % circle_order(),
    {
        CirclePointIndex((self.0 + (0x8000_0000 - rhs.0)) % 0x8000_0000)
    }

    pub fn neg(self) -> (r: Self)
        requires
            self.wf(),
        ensures
            r.wf(),
            r.0 as int == (-(self.0 as int)) % circle_order(),
    {
        CirclePointIndex((0x8000_0000 - self.0) % 0x8000_0000)
    }

    /// The index multiplied by a scalar.
    pub fn mul(self, rhs: usize) -> (r: Self)
        requires
            self.wf(),
        ensures
            r.wf(),
            r.0 as int == (self.0 * rhs) % circle_order(),
    {
        let k: u64 = (rhs % 0x8000_0000) as u64;
        assert(self.0 * k <= 0x7fff_ffff * 0x7fff_ffff) by (nonlinear_arith)
            requires
                self.0 < 0x8000_0000,
                k < 0x8000_0000,
        ;
        let v: u64 = ((self.0 as u64) * k) % 0x8000_0000;
        proof {
            lemma_mul_mod_noop_right(self.0 as int, rhs as int, 0x8000_0000);
        }
        CirclePointIndex(v as usize)
    }
}

} // verus!
