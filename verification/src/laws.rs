//! Laws that relate interpolation, evaluation and point evaluation.
use crate::circle::{circle_order, lemma_point_at_on_circle, lemma_point_at_periodic};
use crate::circle::Pt;
use crate::fields::m31::M31;
use crate::point::CirclePoint;
use crate::domain::{CanonicCoset, CircleDomain};
use crate::backend::canonic_index;
use crate::poly::{
    canonic_domain, eval_point, is_evaluation_of, is_interpolation_of, CirclePoly,
};
use crate::utils::{
    bit_rev, lemma_bit_rev_bound, lemma_bit_rev_concat, lemma_bit_rev_involution, lemma_pow2_le,
    lemma_pow2_step, lemma_pow2_sum,
};
use vstd::arithmetic::power2::*;
use vstd::prelude::*;

verus! {

/// Round trip: the evaluation, on the same domain, of the interpolation of
/// some values gives those values back.
pub proof fn law_round_trip(
    values: Seq<int>,
    poly: CirclePoly,
    domain: CircleDomain,
    values2: Seq<int>,
)
    requires
        is_interpolation_of(poly, values, domain),
        is_evaluation_of(values2, poly, domain),
    ensures
        values2 == values,
{
    assert(values2 =~= values);
}

/// Point evaluation agreement: the value of the evaluation of a polynomial
/// that belongs to point `i` of the domain is what point evaluation gives
/// at that point.
pub proof fn law_point_evaluation(
    values: Seq<int>,
    poly: CirclePoly,
    domain: CircleDomain,
    i: int,
    p: CirclePoint<M31>,
)
    requires
        poly.wf(),
        is_evaluation_of(values, poly, domain),
        0 <= i < pow2(domain.log_size_spec()),
        p.pt() == domain.at_spec(i),
    ensures
        0 <= bit_rev(i as nat, domain.log_size_spec()) < pow2(domain.log_size_spec()),
        poly.eval_ext_spec(p)@ == values[bit_rev(i as nat, domain.log_size_spec()) as int],
        poly.eval_spec(domain.at_spec(i)) == values[bit_rev(
            i as nat,
            domain.log_size_spec(),
        ) as int],
{
    let n = domain.log_size_spec();
    lemma_bit_rev_bound(i as nat, n);
    lemma_bit_rev_involution(i as nat, n);
    let k = bit_rev(i as nat, n) as int;
    assert(values[k] == poly.eval_spec(eval_point(domain, k)));
    lemma_point_at_on_circle(domain.index_at_spec(i));
    poly.lemma_eval_base(p);
}

/// The reversal of zero is zero.
proof fn lemma_bit_rev_zero(n: nat)
    ensures
        bit_rev(0, n) == 0,
    decreases n,
{
    if n > 0 {
        lemma_bit_rev_zero((n - 1) as nat);
        assert(0 * pow2((n - 1) as nat) == 0);
    }
}

/// A domain that starts at the same point as a smaller one holds the
/// points of the smaller one at the same positions of the bit-reversed
/// order.
#[verifier::rlimit(50)]
pub proof fn law_nested_domains(small: CircleDomain, big: CircleDomain, i: int)
    requires
        small.wf(),
        big.wf(),
        small.half_coset.initial_index == big.half_coset.initial_index,
        small.log_size_spec() <= big.log_size_spec(),
        0 <= i < pow2(small.log_size_spec()),
    ensures
        0 <= i < pow2(big.log_size_spec()),
        eval_point(big, i) == eval_point(small, i),
{
    let ns = small.log_size_spec();
    let nb = big.log_size_spec();
    let delta: nat = (nb - ns) as nat;
    let hs: nat = (ns - 1) as nat;
    let hb: nat = (nb - 1) as nat;
    let jump = pow2(delta) as int;
    lemma_pow2_le(ns, nb);
    lemma_bit_rev_zero(delta);
    assert(0 * pow2(ns) + i == i);
    lemma_bit_rev_concat(0, i as nat, ns, nb);
    let js = bit_rev(i as nat, ns) as int;
    let jb = bit_rev(i as nat, nb) as int;
    assert(jb == js * jump);
    lemma_bit_rev_bound(i as nat, ns);
    lemma_pow2_sum(hs, delta);
    lemma_pow2_sum((31 - hb) as nat, delta);
    let half_s = pow2(hs) as int;
    let half_b = pow2(hb) as int;
    let st_s = pow2((31 - hs) as nat) as int;
    let st_b = pow2((31 - hb) as nat) as int;
    assert(half_b == half_s * jump);
    assert(st_s == st_b * jump);
    lemma_pow2_pos(delta);
    if js < half_s {
        assert(jb < half_b) by (nonlinear_arith)
            requires
                jb == js * jump,
                half_b == half_s * jump,
                js < half_s,
                jump > 0,
        ;
        assert(jb * st_b == js * st_s) by (nonlinear_arith)
            requires
                jb == js * jump,
                st_s == st_b * jump,
        ;
    } else {
        assert(jb >= half_b) by (nonlinear_arith)
            requires
                jb == js * jump,
                half_b == half_s * jump,
                js >= half_s,
                jump > 0,
        ;
        assert((jb - half_b) * st_b == (js - half_s) * st_s) by (nonlinear_arith)
            requires
                jb == js * jump,
                half_b == half_s * jump,
                st_s == st_b * jump,
        ;
    }
}

/// Extension consistency: the evaluation of a polynomial on a larger domain
/// that starts at the same point, restricted to the positions of the
/// smaller domain, is its evaluation on the smaller domain.
pub proof fn law_extension_consistency(
    poly: CirclePoly,
    small: CircleDomain,
    big: CircleDomain,
    values_small: Seq<int>,
    values_big: Seq<int>,
    i: int,
)
    requires
        small.wf(),
        big.wf(),
        small.half_coset.initial_index == big.half_coset.initial_index,
        small.log_size_spec() <= big.log_size_spec(),
        is_evaluation_of(values_small, poly, small),
        is_evaluation_of(values_big, poly, big),
        0 <= i < pow2(small.log_size_spec()),
    ensures
        values_big[i] == values_small[i],
{
    law_nested_domains(small, big, i);
}

/// Extension and re-evaluation: a polynomial with the same value as another
/// at every point, as the extension of a polynomial to a larger size is,
/// has the same evaluation on every domain.
pub proof fn law_extend_evaluate(
    poly: CirclePoly,
    extended: CirclePoly,
    domain: CircleDomain,
    values: Seq<int>,
    values_extended: Seq<int>,
)
    requires
        forall|p: Pt| #[trigger] extended.eval_spec(p) == poly.eval_spec(p),
        is_evaluation_of(values, poly, domain),
        is_evaluation_of(values_extended, extended, domain),
    ensures
        values_extended == values,
{
    assert forall|i: int| 0 <= i < values.len() implies values_extended[i] == values[i] by {
        assert(extended.eval_spec(eval_point(domain, i)) == poly.eval_spec(eval_point(domain, i)));
    }
    assert(values_extended =~= values);
}

/// The points of the circle domain of a canonical coset are the points of
/// the coset, in the order given by `canonic_index`.
#[verifier::rlimit(50)]
pub proof fn law_canonic_order(coset: CanonicCoset, domain: CircleDomain, j: int)
    requires
        coset.wf(),
        canonic_domain(domain, coset.coset.log_size as nat),
        0 <= j < pow2(coset.coset.log_size as nat),
    ensures
        domain.at_spec(j) == coset.coset.at_spec(canonic_index(j, coset.coset.log_size as nat)),
{
    let n = coset.coset.log_size as nat;
    let a0 = pow2((30 - n) as nat) as int;
    let st_c = pow2((31 - n) as nat) as int;
    let st_d = pow2((32 - n) as nat) as int;
    let half = pow2((n - 1) as nat) as int;
    lemma2_to64();
    lemma_pow2_step((30 - n) as nat);
    lemma_pow2_step((31 - n) as nat);
    lemma_pow2_step((n - 1) as nat);
    lemma_pow2_sum((31 - n) as nat, n);
    assert(st_c * pow2(n) == 2147483648);
    if j < half {
        assert(j * st_d == (2 * j) * st_c) by (nonlinear_arith)
            requires
                st_d == 2 * st_c,
        ;
    } else {
        let k = j - half;
        let c = pow2(n) - 1 - 2 * k;
        assert(-(a0 + k * st_d) + 1 * circle_order() == a0 + c * st_c) by (nonlinear_arith)
            requires
                st_d == 2 * st_c,
                st_c == 2 * a0,
                st_c * pow2(n) == 2147483648,
                c == pow2(n) - 1 - 2 * k,
                circle_order() == 2147483648,
        ;
        lemma_point_at_periodic(-(a0 + k * st_d), 1);
    }
}

/// Interpolation is unique: two polynomials of the size of a domain that
/// take the same values on its points have the same coefficients. So the
/// interpolation of the evaluation of a polynomial, on a domain of its own
/// size, is that polynomial.
pub proof fn law_interpolation_unique(
    poly: CirclePoly,
    domain: CircleDomain,
    values: Seq<int>,
    poly2: CirclePoly,
)
    requires
        poly.wf(),
        domain.wf(),
        domain.is_fft_domain(),
        poly.log_size == domain.log_size_spec(),
        is_evaluation_of(values, poly, domain),
        is_interpolation_of(poly2, values, domain),
    ensures
        poly2.coeffs@ == poly.coeffs@,
        poly2.log_size == poly.log_size,
{
    let n = domain.log_size_spec();
    lemma2_to64();
    lemma_pow2_sum(4, (n - 4) as nat);
    crate::fft::rfft::lemma_flat_fp(poly.coeffs.data@);
    crate::fft::rfft::lemma_flat_fp(poly2.coeffs.data@);
    assert forall|i: int| 0 <= i < pow2(n) implies crate::poly::poly_eval(
        poly2.coeffs@,
        n,
        #[trigger] eval_point(domain, i),
    ) == crate::poly::poly_eval(poly.coeffs@, n, eval_point(domain, i)) by {
        assert(values[i] == poly.eval_spec(eval_point(domain, i)));
        assert(values[i] == poly2.eval_spec(eval_point(domain, i)));
    }
    crate::backend::lemma_interpolation_unique(poly2.coeffs@, poly.coeffs@, domain);
}

} // verus!
