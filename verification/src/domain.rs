//! Cosets of the circle group and the domains built from them.
use crate::circle::{circle_order, lemma_point_at_double, lemma_point_at_on_circle, point_at, Pt};
use crate::fields::m31::M31;
use crate::point::{CirclePoint, CirclePointIndex, M31_CIRCLE_LOG_ORDER};
use crate::utils::{lemma_pow2_le, lemma_pow2_step, pow2_usize};
use vstd::arithmetic::div_mod::*;
use vstd::arithmetic::power2::*;
use vstd::prelude::*;

verus! {

/// The largest logarithmic size of a circle domain.
pub const MAX_CIRCLE_DOMAIN_LOG_SIZE: u32 = 30;

/// The points `initial + i step` for `i < 2^log_size`, where `step`
/// generates the subgroup of order `2^log_size`.
#[derive(Clone, Copy, Debug, PartialEq, Eq)]
pub struct Coset {
    pub initial_index: CirclePointIndex,
    pub initial: CirclePoint<M31>,
    pub step_size: CirclePointIndex,
    pub step: CirclePoint<M31>,
    pub log_size: u32,
}

impl Coset {
    /// The index of the step as an integer: `2^(31 - log_size)`.
    pub open spec fn step_spec(self) -> int {
        pow2((31 - self.log_size) as nat) as int
    }

    /// The points agree with the indices, and the step with the size.
    pub open spec fn wf(self) -> bool {
        &&& self.log_size <= 31
        &&& self.initial_index.wf()
        &&& self.step_size.wf()
        &&& self.step_size.0 as int == self.step_spec() % circle_order()
        &&& self.initial.pt() == point_at(self.initial_index.0 as int)
        &&& self.step.pt() == point_at(self.step_size.0 as int)
    }

    /// The index of the `i`-th point, not reduced.
    pub open spec fn index_at_spec(self, i: int) -> int {
        self.initial_index.0 + i * self.step_spec()
    }

    /// The `i`-th point.
    pub open spec fn at_spec(self, i: int) -> Pt {
        point_at(self.index_at_spec(i))
    }

    /// The coset of the subgroup of order `2^log_size` through the point
    /// with the given index.
    pub fn new(initial_index: CirclePointIndex, log_size: u32) -> (r: Self)
        requires
            initial_index.wf(),
            log_size <= M31_CIRCLE_LOG_ORDER,
        ensures
            r.wf(),
            r.initial_index == initial_index,
            r.log_size == log_size,
    {
        let step_size: CirclePointIndex = CirclePointIndex::subgroup_gen(log_size);
        Coset {
            initial_index,
            initial: initial_index.to_point(),
            step_size,
            step: step_size.to_point(),
            log_size,
        }
    }

    /// The subgroup of order `2^log_size`.
    pub fn subgroup(log_size: u32) -> (r: Self)
        requires
            log_size <= M31_CIRCLE_LOG_ORDER,
        ensures
            r.wf(),
            r.initial_index.0 == 0,
            r.log_size == log_size,
    {
        Self::new(CirclePointIndex::zero(), log_size)
    }

    /// The odd multiples of the generator of the subgroup of order
    /// `2^(log_size + 1)`.
    pub fn odds(log_size: u32) -> (r: Self)
        requires
            log_size <= 30,
        ensures
            r.wf(),
            r.initial_index.0 == pow2((30 - log_size) as nat),
            r.log_size == log_size,
    {
        proof {
            lemma_pow2_le((30 - log_size) as nat, 30);
            lemma2_to64();
        }
        Self::new(CirclePointIndex::subgroup_gen(log_size + 1), log_size)
    }

    /// Every other one of the odd multiples of the generator of the subgroup
    /// of order `2^(log_size + 2)`, starting with the generator itself.
    pub fn half_odds(log_size: u32) -> (r: Self)
        requires
            log_size <= 29,
        ensures
            r.wf(),
            r.initial_index.0 == pow2((29 - log_size) as nat),
            r.log_size == log_size,
    {
        proof {
            lemma_pow2_le((29 - log_size) as nat, 29);
            lemma2_to64();
        }
        Self::new(CirclePointIndex::subgroup_gen(log_size + 2), log_size)
    }

    /// The number of points.
    pub fn size(&self) -> (r: usize)
        requires
            self.log_size <= 31,
        ensures
            r == pow2(self.log_size as nat),
    {
        pow2_usize(self.log_size)
    }

    pub fn log_size(&self) -> (r: u32)
        ensures
            r == self.log_size,
    {
        self.log_size
    }

    /// The coset of the doubles of the points, of half the size.
    pub fn double(&self) -> (r: Self)
        requires
            self.wf(),
            self.log_size >= 1,
        ensures
            r.wf(),
            r.log_size == self.log_size - 1,
            r.initial_index.0 as int == (2 * self.initial_index.0) % circle_order(),
    {
        proof {
            lemma_pow2_step((31 - self.log_size) as nat);
            lemma_pow2_le((31 - self.log_size) as nat, 30);
            lemma2_to64();
            lemma_point_at_double(self.initial_index.0 as int);
            lemma_point_at_double(self.step_size.0 as int);
            lemma_point_at_on_circle(self.initial_index.0 as int);
            lemma_point_at_on_circle(self.step_size.0 as int);
        }
        let initial_index: CirclePointIndex = self.initial_index.mul(2);
        let step_size: CirclePointIndex = self.step_size.mul(2);
        Coset {
            initial_index,
            initial: self.initial.double(),
            step_size,
            step: self.step.double(),
            log_size: self.log_size - 1,
        }
    }

    /// The index of the `i`-th point.
    pub fn index_at(&self, index: usize) -> (r: CirclePointIndex)
        requires
            self.wf(),
        ensures
            r.wf(),
            r.0 as int == self.index_at_spec(index as int) % circle_order(),
    {
        proof {
            lemma_mul_mod_noop_left(self.step_spec(), index as int, circle_order());
            assert(self.step_spec() * index == index * self.step_spec()) by (nonlinear_arith);
        }
        self.initial_index.add(self.step_size.mul(index))
    }

    /// The `i`-th point.
    pub fn at(&self, index: usize) -> (r: CirclePoint<M31>)
        requires
            self.wf(),
        ensures
            r.wf(),
            r.pt() == self.at_spec(index as int),
    {
        self.index_at(index).to_point()
    }
}

/// A coset together with its mirror image: the points of `half_coset` in
/// order, then their conjugates in the same order.
#[derive(Clone, Copy, Debug, PartialEq, Eq)]
pub struct CircleDomain {
    pub half_coset: Coset,
}

impl CircleDomain {
    /// The half coset is well formed and small enough.
    pub open spec fn wf(self) -> bool {
        self.half_coset.wf() && self.half_coset.log_size < MAX_CIRCLE_DOMAIN_LOG_SIZE
    }

    /// The logarithm of the number of points.
    pub open spec fn log_size_spec(self) -> nat {
        (self.half_coset.log_size + 1) as nat
    }

    /// The index of the `i`-th point, not reduced.
    pub open spec fn index_at_spec(self, i: int) -> int {
        let half = pow2(self.half_coset.log_size as nat) as int;
        if i < half {
            self.half_coset.index_at_spec(i)
        } else {
            -self.half_coset.index_at_spec(i - half)
        }
    }

    /// The `i`-th point.
    pub open spec fn at_spec(self, i: int) -> Pt {
        point_at(self.index_at_spec(i))
    }

    /// The half coset and its mirror image are disjoint, so that the domain
    /// has `2^log_size` different points and none of them on an axis of a
    /// transform layer.
    pub open spec fn is_fft_domain(self) -> bool {
        self.half_coset.initial_index.0 as int % (pow2((30 - self.half_coset.log_size) as nat) as int)
            != 0
    }

    /// The domain of the half coset and its mirror image.
    pub fn new(half_coset: Coset) -> (r: Self)
        ensures
            r.half_coset == half_coset,
    {
        CircleDomain { half_coset }
    }

    /// The domain whose half coset starts at the generator of the group.
    pub fn constraint_evaluation_domain(log_size: u32) -> (r: Self)
        requires
            1 <= log_size <= MAX_CIRCLE_DOMAIN_LOG_SIZE,
        ensures
            r.wf(),
            r.log_size_spec() == log_size,
            r.half_coset.initial_index.0 == 1,
            r.is_fft_domain(),
    {
        let r = CircleDomain::new(Coset::new(CirclePointIndex::generator(), log_size - 1));
        proof {
            let e: nat = (30 - (log_size - 1)) as nat;
            lemma_pow2_step((e - 1) as nat);
            lemma_small_mod(1, pow2(e));
        }
        r
    }

    /// The number of points.
    pub fn size(&self) -> (r: usize)
        requires
            self.wf(),
        ensures
            r == pow2(self.log_size_spec()),
    {
        pow2_usize(self.half_coset.log_size + 1)
    }

    pub fn log_size(&self) -> (r: u32)
        requires
            self.wf(),
        ensures
            r == self.log_size_spec(),
    {
        self.half_coset.log_size + 1
    }

    /// The index of the `i`-th point.
    pub fn index_at(&self, index: usize) -> (r: CirclePointIndex)
        requires
            self.wf(),
        ensures
            r.wf(),
            r.0 as int == self.index_at_spec(index as int) % circle_order(),
    {
        let half: usize = self.half_coset.size();
        if index < half {
            self.half_coset.index_at(index)
        } else {
            let i: CirclePointIndex = self.half_coset.index_at(index - half);
            proof {
                let a = self.half_coset.index_at_spec(index - half);
                lemma_sub_mod_noop(0, a, circle_order());
            }
            i.neg()
        }
    }

    /// The `i`-th point.
    pub fn at(&self, index: usize) -> (r: CirclePoint<M31>)
        requires
            self.wf(),
        ensures
            r.wf(),
            r.pt() == self.at_spec(index as int),
    {
        self.index_at(index).to_point()
    }
}

/// The canonical coset of a given size: the odd multiples of the generator
/// of the subgroup of twice that size.
#[derive(Clone, Copy, Debug, PartialEq, Eq)]
pub struct CanonicCoset {
    pub coset: Coset,
}

impl CanonicCoset {
    /// The coset is the canonical one of its size.
    pub open spec fn wf(self) -> bool {
        &&& self.coset.wf()
        &&& 1 <= self.coset.log_size <= MAX_CIRCLE_DOMAIN_LOG_SIZE
        &&& self.coset.initial_index.0 == pow2((30 - self.coset.log_size) as nat)
    }

    /// The canonical coset of size `2^log_size`.
    pub fn new(log_size: u32) -> (r: Self)
        requires
            1 <= log_size <= MAX_CIRCLE_DOMAIN_LOG_SIZE,
        ensures
            r.wf(),
            r.coset.log_size == log_size,
    {
        CanonicCoset { coset: Coset::odds(log_size) }
    }

    pub fn log_size(&self) -> (r: u32)
        ensures
            r == self.coset.log_size,
    {
        self.coset.log_size
    }

    /// The number of points.
    pub fn size(&self) -> (r: usize)
        requires
            self.wf(),
        ensures
            r == pow2(self.coset.log_size as nat),
    {
        pow2_usize(self.coset.log_size)
    }

    /// The full coset.
    pub fn coset(&self) -> (r: Coset)
        ensures
            r == self.coset,
    {
        self.coset
    }

    /// The circle domain with the same points: its half coset is every
    /// other point of the coset, starting with the first.
    pub fn circle_domain(&self) -> (r: CircleDomain)
        requires
            self.wf(),
        ensures
            r.wf(),
            r.log_size_spec() == self.coset.log_size,
            r.half_coset.initial_index == self.coset.initial_index,
            r.is_fft_domain(),
    {
        let r = CircleDomain::new(Coset::half_odds(self.coset.log_size - 1));
        proof {
            let e: nat = (30 - self.coset.log_size) as nat;
            lemma_pow2_step(e);
            lemma_pow2_pos(e);
            lemma_small_mod(pow2(e), pow2(e + 1));
        }
        r
    }
}

} // verus!
