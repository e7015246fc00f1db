//! Circle polynomials and their evaluations on circle domains.
use crate::circle::Pt;
use crate::column::BaseFieldVec;
use crate::domain::{CircleDomain, MAX_CIRCLE_DOMAIN_LOG_SIZE};
use crate::fft::layout::{lemma_ml_factors, ml, swap_bit};
use crate::fft::model::is_fp_seq;
use crate::fft::rfft::lemma_flat_fp;
use crate::fft::twiddles::layer_factor;
use crate::fft::{MAX_FFT_LOG_SIZE, MIN_FFT_LOG_SIZE};
use crate::fields::m31::{fp, is_fp, M31, P};
use crate::fields::ExtensionOf;
use crate::fold::{ext_ml, lemma_ext_ml_base};
use crate::point::{ext_double_x, lemma_ext_double_x_base};
use crate::point::CirclePoint;
use crate::utils::{bit_rev, bit_reverse, lemma_bit_rev_bound, lemma_pow2_sum, pow2_usize};
use vstd::arithmetic::power2::*;
use vstd::prelude::*;

use crate::backend::{extended_coeffs, AVX512Backend};
verus! {

/// Marks an evaluation whose value `i` belongs to point `i` of the domain.
#[derive(Clone, Copy, Debug, PartialEq, Eq)]
pub struct NaturalOrder;

/// Marks an evaluation whose value `i` belongs to the point of the domain
/// whose index is `i` with its bits reversed.
#[derive(Clone, Copy, Debug, PartialEq, Eq)]
pub struct BitReversedOrder;

/// The value of the polynomial with the `2^n` coefficients `c`, as they are
/// held, at the point `p`: the multilinear form of the coefficients in
/// which the index bit that stands for layer `l` contributes
/// `layer_factor(p, l)`.
pub open spec fn poly_eval(c: Seq<int>, n: nat, p: Pt) -> int {
    fp(ml(c, |b: int| layer_factor(p, swap_bit(n, b) as nat), n, 0))
}

/// The value that layer `l` of a transform assigns to a point with
/// coordinates in a field that extends the base field.
pub open spec fn ext_layer_factor<E: ExtensionOf>(p: CirclePoint<E>, l: nat) -> E
    decreases l,
{
    if l == 0 {
        p.y
    } else if l == 1 {
        p.x
    } else {
        ext_double_x(ext_layer_factor(p, (l - 1) as nat))
    }
}

/// The value of the polynomial with the `2^n` coefficients `c`, as they are
/// held, at a point with coordinates in a field that extends the base
/// field.
pub open spec fn ext_poly_eval<E: ExtensionOf>(c: Seq<int>, n: nat, p: CirclePoint<E>) -> E {
    ext_ml(c, |b: int| ext_layer_factor(p, swap_bit(n, b) as nat), n, 0)
}

/// At a point of the base field, the layer factors are those of the
/// integer model.
pub proof fn lemma_ext_layer_factor_base(p: CirclePoint<M31>, l: nat)
    requires
        p.x.wf(),
        p.y.wf(),
    ensures
        ext_layer_factor(p, l).wf(),
        ext_layer_factor(p, l)@ == layer_factor(p.pt(), l),
    decreases l,
{
    if l >= 2 {
        lemma_ext_layer_factor_base(p, (l - 1) as nat);
        lemma_ext_double_x_base(ext_layer_factor(p, (l - 1) as nat));
        assert(layer_factor(p.pt(), l) == crate::circle::double_x(
            layer_factor(p.pt(), (l - 1) as nat),
        ));
    }
}

/// At a point of the base field, the value of a polynomial is the one of
/// the integer model.
pub proof fn lemma_ext_poly_eval_base(c: Seq<int>, n: nat, p: CirclePoint<M31>)
    requires
        is_fp_seq(c),
        c.len() == pow2(n),
        p.x.wf(),
        p.y.wf(),
    ensures
        ext_poly_eval(c, n, p).wf(),
        ext_poly_eval(c, n, p)@ == poly_eval(c, n, p.pt()),
{
    let g = |b: int| ext_layer_factor(p, swap_bit(n, b) as nat);
    assert forall|b: int| 0 <= b < n implies (#[trigger] g(b)).wf() by {
        lemma_ext_layer_factor_base(p, swap_bit(n, b) as nat);
    }
    assert forall|i: int| 0 <= i < c.len() implies 0 <= #[trigger] c[i] < P by {
        assert(is_fp(c[i]));
    }
    lemma_ext_ml_base(c, g, n, 0);
    assert forall|b: int| 0 <= b < n implies (#[trigger] g(b))@ == layer_factor(
        p.pt(),
        swap_bit(n, b) as nat,
    ) by {
        lemma_ext_layer_factor_base(p, swap_bit(n, b) as nat);
    }
    lemma_ml_factors(
        c,
        |b: int| g(b)@,
        |b: int| layer_factor(p.pt(), swap_bit(n, b) as nat),
        n,
        0,
    );
}

/// The point that position `i` of a bit-reversed evaluation on the domain
/// belongs to.
pub open spec fn eval_point(domain: CircleDomain, i: int) -> Pt {
    domain.at_spec(bit_rev(i as nat, domain.log_size_spec()) as int)
}

/// The length is a power of two that the transforms take.
pub open spec fn valid_len(len: int) -> bool {
    exists|n: nat| MIN_FFT_LOG_SIZE <= n <= MAX_FFT_LOG_SIZE && len == #[trigger] pow2(n)
}

/// A polynomial on the circle, by its coefficients in the basis of the
/// transform.
#[derive(Clone, Debug)]
pub struct CirclePoly {
    pub log_size: u32,
    pub coeffs: BaseFieldVec,
}

/// The values of a polynomial on the points of a domain.
#[derive(Clone, Debug)]
pub struct CircleEvaluation<EvalOrder> {
    pub domain: CircleDomain,
    pub values: BaseFieldVec,
    pub order: EvalOrder,
}

/// The values are the values of the polynomial on the domain, in
/// bit-reversed order.
pub open spec fn is_evaluation_of(values: Seq<int>, poly: CirclePoly, domain: CircleDomain) -> bool {
    &&& values.len() == pow2(domain.log_size_spec())
    &&& forall|i: int|
        0 <= i < pow2(domain.log_size_spec()) ==> #[trigger] values[i] == poly.eval_spec(
            eval_point(domain, i),
        )
}

/// The polynomial has the size of the domain and takes the values, given in
/// bit-reversed order, on its points.
pub open spec fn is_interpolation_of(poly: CirclePoly, values: Seq<int>, domain: CircleDomain) -> bool {
    &&& poly.wf()
    &&& poly.log_size == domain.log_size_spec()
    &&& is_evaluation_of(values, poly, domain)
}

impl CirclePoly {
    /// The coefficients are well formed and `2^log_size` in number.
    pub open spec fn wf(&self) -> bool {
        &&& self.coeffs.wf()
        &&& MIN_FFT_LOG_SIZE <= self.log_size <= MAX_FFT_LOG_SIZE
        &&& self.coeffs.length == pow2(self.log_size as nat)
    }

    /// The value of the polynomial at a point.
    pub open spec fn eval_spec(&self, p: Pt) -> int {
        poly_eval(self.coeffs@, self.log_size as nat, p)
    }

    /// The polynomial with the given coefficients.
    pub fn new(coeffs: BaseFieldVec) -> (r: Self)
        requires
            coeffs.wf(),
            valid_len(coeffs.length as int),
        ensures
            r.wf(),
            r.coeffs == coeffs,
    {
        let len: usize = coeffs.len();
        let ghost w = choose|n: nat|
            MIN_FFT_LOG_SIZE <= n <= MAX_FFT_LOG_SIZE && len == #[trigger] pow2(n);
        let mut n: u32 = MIN_FFT_LOG_SIZE;
        while n < MAX_FFT_LOG_SIZE && pow2_usize(n) != len
            invariant
                MIN_FFT_LOG_SIZE <= n <= MAX_FFT_LOG_SIZE,
                n <= w <= MAX_FFT_LOG_SIZE,
                len == pow2(w),
            decreases MAX_FFT_LOG_SIZE - n,
        {
            n = n + 1;
        }
        CirclePoly { log_size: n, coeffs }
    }

    pub fn log_size(&self) -> (r: u32)
        ensures
            r == self.log_size,
    {
        self.log_size
    }

    /// The value of the polynomial at a point with coordinates in a field
    /// that extends the base field.
    pub open spec fn eval_ext_spec<E: ExtensionOf>(&self, p: CirclePoint<E>) -> E {
        ext_poly_eval(self.coeffs@, self.log_size as nat, p)
    }

    /// At a point of the base field, `eval_ext_spec` is `eval_spec`.
    pub proof fn lemma_eval_base(&self, p: CirclePoint<M31>)
        requires
            self.wf(),
            p.x.wf(),
            p.y.wf(),
        ensures
            self.eval_ext_spec(p).wf(),
            self.eval_ext_spec(p)@ == self.eval_spec(p.pt()),
    {
        lemma_flat_fp(self.coeffs.data@);
        lemma2_to64();
        lemma_pow2_sum(4, (self.log_size - 4) as nat);
        lemma_ext_poly_eval_base(self.coeffs@, self.log_size as nat, p);
    }

    /// The value of the polynomial at a point, which need not lie in the
    /// base field.
    pub fn eval_at_point<E: ExtensionOf>(&self, point: CirclePoint<E>) -> (r: E)
        requires
            self.wf(),
            point.coords_valid(),
        ensures
            r.is_valid(),
            r == self.eval_ext_spec(point),
    {
        AVX512Backend::eval_at_point(self, point)
    }

    /// The values of the polynomial on a domain at least as large as it.
    pub fn evaluate(&self, domain: CircleDomain) -> (r: CircleEvaluation<BitReversedOrder>)
        requires
            self.wf(),
            domain.wf(),
            self.log_size <= domain.log_size_spec(),
        ensures
            r.wf(),
            r.domain == domain,
            is_evaluation_of(r.values@, *self, domain),
    {
        AVX512Backend::evaluate(self, domain)
    }

    /// The same polynomial with `2^log_size` coefficients.
    pub fn extend(&self, log_size: u32) -> (r: CirclePoly)
        requires
            self.wf(),
            self.log_size <= log_size <= MAX_CIRCLE_DOMAIN_LOG_SIZE,
        ensures
            r.wf(),
            r.log_size == log_size,
            r.coeffs@ == extended_coeffs(self.coeffs@, self.log_size as nat, log_size as nat),
            forall|p: Pt| #[trigger] r.eval_spec(p) == self.eval_spec(p),
    {
        AVX512Backend::extend(self, log_size)
    }
}

/// The domain has the points of the canonical domain of the given size.
pub open spec fn canonic_domain(domain: CircleDomain, log_size: nat) -> bool {
    &&& domain.wf()
    &&& domain.log_size_spec() == log_size
    &&& domain.half_coset.initial_index.0 == pow2((30 - log_size) as nat)
}

impl<EvalOrder> CircleEvaluation<EvalOrder> {
    /// The values are well formed and one for each point of the domain.
    pub open spec fn wf(&self) -> bool {
        &&& self.domain.wf()
        &&& self.values.wf()
        &&& self.values.length == pow2(self.domain.log_size_spec())
    }
}

/// The column with its elements in bit-reversed order.
pub fn bit_reverse_column(values: &BaseFieldVec, log_size: u32) -> (r: BaseFieldVec)
    requires
        values.wf(),
        MIN_FFT_LOG_SIZE <= log_size <= MAX_FFT_LOG_SIZE,
        values.length == pow2(log_size as nat),
    ensures
        r.wf(),
        r.length == values.length,
        r@.len() == values@.len(),
        forall|i: int|
            0 <= i < values.length ==> #[trigger] r@[i] == values@[bit_rev(
                i as nat,
                log_size as nat,
            ) as int],
{
    proof {
        lemma2_to64();
        lemma_pow2_sum(4, (log_size - 4) as nat);
    }
    let mut v: Vec<M31> = values.to_vec();
    let ghost before = v@;
    bit_reverse(&mut v, log_size);
    proof {
        assert forall|i: int| 0 <= i < v.len() implies (#[trigger] v@[i]).wf() && v@[i]@
            == values@[bit_rev(i as nat, log_size as nat) as int] by {
            lemma_bit_rev_bound(i as nat, log_size as nat);
            let j = bit_rev(i as nat, log_size as nat) as int;
            assert(before[j].wf());
        }
    }
    BaseFieldVec::from_vec(v)
}

impl CircleEvaluation<NaturalOrder> {
    /// The evaluation with the given values on the given domain.
    pub fn new(domain: CircleDomain, values: BaseFieldVec) -> (r: Self)
        requires
            domain.wf(),
            values.wf(),
            values.length == pow2(domain.log_size_spec()),
        ensures
            r.wf(),
            r.domain == domain,
            r.values == values,
    {
        CircleEvaluation { domain, values, order: NaturalOrder }
    }

    /// The same evaluation with its values in bit-reversed order.
    pub fn bit_reverse(self) -> (r: CircleEvaluation<BitReversedOrder>)
        requires
            self.wf(),
            MIN_FFT_LOG_SIZE <= self.domain.log_size_spec(),
        ensures
            r.wf(),
            r.domain == self.domain,
            forall|i: int|
                0 <= i < self.values.length ==> #[trigger] r.values@[i] == self.values@[bit_rev(
                    i as nat,
                    self.domain.log_size_spec(),
                ) as int],
    {
        let log_size: u32 = self.domain.log_size();
        let values: BaseFieldVec = bit_reverse_column(&self.values, log_size);
        CircleEvaluation::<BitReversedOrder>::new(self.domain, values)
    }
}

impl CircleEvaluation<BitReversedOrder> {
    /// The evaluation with the given values on the given domain.
    pub fn new(domain: CircleDomain, values: BaseFieldVec) -> (r: Self)
        requires
            domain.wf(),
            values.wf(),
            values.length == pow2(domain.log_size_spec()),
        ensures
            r.wf(),
            r.domain == domain,
            r.values == values,
    {
        CircleEvaluation { domain, values, order: BitReversedOrder }
    }

    /// The same evaluation with its values in the order of the domain.
    pub fn bit_reverse(self) -> (r: CircleEvaluation<NaturalOrder>)
        requires
            self.wf(),
            MIN_FFT_LOG_SIZE <= self.domain.log_size_spec(),
        ensures
            r.wf(),
            r.domain == self.domain,
            forall|i: int|
                0 <= i < self.values.length ==> #[trigger] r.values@[i] == self.values@[bit_rev(
                    i as nat,
                    self.domain.log_size_spec(),
                ) as int],
    {
        let log_size: u32 = self.domain.log_size();
        let values: BaseFieldVec = bit_reverse_column(&self.values, log_size);
        CircleEvaluation::<NaturalOrder>::new(self.domain, values)
    }

    /// The polynomial of the size of the domain with these values.
    pub fn interpolate(self) -> (r: CirclePoly)
        requires
            self.wf(),
            self.domain.is_fft_domain(),
            MIN_FFT_LOG_SIZE <= self.domain.log_size_spec(),
        ensures
            is_interpolation_of(r, self.values@, self.domain),
    {
        AVX512Backend::interpolate(self)
    }
}

} // verus!
