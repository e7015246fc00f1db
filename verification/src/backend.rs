//! The operations on circle polynomials, built on the transforms.
use crate::column::{cast_lanes, BaseFieldVec};
use crate::domain::{CanonicCoset, CircleDomain, MAX_CIRCLE_DOMAIN_LOG_SIZE};
use crate::fft::ifft::{get_itwiddle_dbls, ifft, ifft_spec, lemma_fft_of_scaled_ifft};
use crate::fft::lanes::{flat, lanes_wf, twiddles_wf, vec_wf, PackedBaseField};
use crate::circle::Pt;
use crate::fft::layout::{
    lemma_ml_factors, lemma_ml_layout, lemma_ml_pad, ml, swap_bit, zero_pad,
};
use crate::fields::m31::is_fp;
use crate::circle::lemma_point_at_on_circle;
use crate::fft::model::{
    factor, fft_range, inverse_tables, is_fp_seq, lemma_fft_eval, lemma_fft_range_shape,
    lemma_ifft_of_fft, lemma_pair_index, lemma_scale_one, lemma_scale_scale, partial_eval, scale,
    twiddle_eval,
};
use crate::fft::twiddles::{lemma_twiddle_nonzero, twiddle_index};
use crate::fields::m31::{inv_spec, lemma_inverse_exists};
use crate::fft::rfft::{chunk_twiddles, fft, get_twiddle_dbls, lemma_flat_fp, table_wf};
use crate::fft::transpose::{lemma_logical_layout, logical_layout};
use crate::fft::twiddles::{
    entry_ok, is_table, layer_factor, lemma_layer_factor_fp,
    lemma_twiddle_factor, twiddle_spec,
};
use crate::fft::{CACHED_FFT_LOG_SIZE, MIN_FFT_LOG_SIZE};
use crate::fields::m31::{fp, lemma_fp_add_cong, lemma_fp_mul_cong, mul_mod, M31, P};
use crate::fields::ExtensionOf;
use crate::fold::{ext_fold_factor, fold, lemma_ext_ml_factors, u32_ints};
use crate::point::CirclePoint;
use crate::utils::{
    bit_rev, bit_reverse, lemma_bit_rev_bound, lemma_half_shift, lemma_pow2_le, lemma_pow2_step,
    lemma_pow2_sum, pow2_usize,
};
use vstd::arithmetic::power2::*;
use vstd::prelude::*;

use crate::poly::{
    canonic_domain, eval_point, is_evaluation_of, is_interpolation_of, poly_eval, ext_layer_factor,
    BitReversedOrder, CircleEvaluation, CirclePoly,
};
verus! {

/// The multilinear form in the signed twiddles of a position agrees with
/// the form in any factors congruent to them.
pub proof fn lemma_partial_eval_ml(
    c: Seq<int>,
    tws: Seq<Seq<int>>,
    g: spec_fn(int) -> int,
    m: nat,
    q: int,
    off: int,
)
    requires
        forall|l: int|
            0 <= l < m ==> fp(factor(tws, l, q / (pow2(l as nat) as int))) == fp(#[trigger] g(l)),
    ensures
        fp(partial_eval(c, tws, 0, m, q, off)) == fp(ml(c, g, m, off)),
    decreases m,
{
    if m > 0 {
        let m1: nat = (m - 1) as nat;
        lemma_partial_eval_ml(c, tws, g, m1, q, off);
        lemma_partial_eval_ml(c, tws, g, m1, q, off + pow2(m1));
        let a = partial_eval(c, tws, 0, m1, q, off);
        let b = partial_eval(c, tws, 0, m1, q, off + pow2(m1));
        let f = factor(tws, m1 as int, q / (pow2(m1) as int));
        let a2 = ml(c, g, m1, off);
        let b2 = ml(c, g, m1, off + pow2(m1));
        assert(fp(f) == fp(g(m1 as int)));
        lemma_fp_mul_cong(f, b, g(m1 as int), b2);
        lemma_fp_add_cong(a, f * b, a2, g(m1 as int) * b2);
        assert(partial_eval(c, tws, 0, m, q, off) == a + f * b);
    }
}

/// What a transform with the twiddles of block `coset` of the domain holds
/// at position `i` is the value of the polynomial at the point of position
/// `coset 2^f + i`.
#[verifier::rlimit(50)]
pub proof fn lemma_transform_is_evaluation(
    c: Seq<int>,
    tws: Seq<Seq<int>>,
    d: CircleDomain,
    f: nat,
    coset: int,
    i: int,
)
    requires
        d.wf(),
        4 <= f <= d.log_size_spec(),
        c.len() == pow2(f),
        0 <= coset < pow2((d.log_size_spec() - f) as nat),
        0 <= i < pow2(f),
        forall|l: int, h: int|
            0 <= l < f && 0 <= h < pow2((f - 1 - l) as nat) ==> #[trigger] tws[l][h]
                == twiddle_spec(d, l as nat, coset * pow2((f - 1 - l) as nat) + h),
    ensures
        0 <= coset * pow2(f) + i < pow2(d.log_size_spec()),
        twiddle_eval(logical_layout(c, f), tws, f, i) == poly_eval(
            c,
            f,
            eval_point(d, coset * pow2(f) + i),
        ),
{
    let big_n = d.log_size_spec();
    let pos = coset * pow2(f) + i;
    lemma_pow2_sum(f, (big_n - f) as nat);
    assert(0 <= pos < pow2(big_n)) by (nonlinear_arith)
        requires
            pos == coset * pow2(f) + i,
            0 <= coset,
            coset + 1 <= pow2((big_n - f) as nat),
            0 <= i < pow2(f),
            pow2(big_n) == pow2(f) * pow2((big_n - f) as nat),
    ;
    let p = eval_point(d, pos);
    let lc = logical_layout(c, f);
    let g = |l: int| layer_factor(p, l as nat);
    assert forall|l: int| 0 <= l < f implies fp(factor(tws, l, i / (pow2(l as nat) as int))) == fp(
        #[trigger] g(l),
    ) by {
        let w = pow2(l as nat) as int;
        let cnt = pow2((f - 1 - l) as nat) as int;
        let q1 = i / w;
        lemma_pair_index(i, l as nat, f);
        lemma_pow2_sum(l as nat, (f - l) as nat);
        lemma_pow2_step((f - 1 - l) as nat);
        assert(pos == i + w * (coset * (2 * cnt))) by (nonlinear_arith)
            requires
                pos == coset * pow2(f) + i,
                pow2(f) == w * (2 * cnt),
        ;
        crate::fft::layout::lemma_add_above(i, coset * (2 * cnt), w);
        let q = pos / w;
        assert(q == q1 + 2 * (coset * cnt)) by (nonlinear_arith)
            requires
                q == q1 + coset * (2 * cnt),
        ;
        lemma_half_shift(coset * cnt, q1);
        assert(q / 2 == coset * cnt + q1 / 2);
        assert(q % 2 == q1 % 2);
        assert(tws[l][q1 / 2] == twiddle_spec(d, l as nat, coset * cnt + q1 / 2));
        lemma_twiddle_factor(d, l as nat, pos);
        lemma_layer_factor_fp(p, l as nat);
    }
    lemma_partial_eval_ml(lc, tws, g, f, i, 0);
    lemma_ml_layout(c, g, f);
    lemma_ml_factors(
        c,
        |b: int| g(swap_bit(f, b)),
        |b: int| layer_factor(p, swap_bit(f, b) as nat),
        f,
        0,
    );
}

/// The twiddle table of the domain serves the transform of every block of
/// `2^f` positions, and its entries stand for the twiddles of the domain.
#[verifier::rlimit(50)]
pub proof fn lemma_table_chunk(
    table: Seq<Vec<u32>>,
    d: CircleDomain,
    f: nat,
    coset: int,
    inverse: bool,
)
    requires
        d.wf(),
        1 <= f <= d.log_size_spec(),
        0 <= coset < pow2((d.log_size_spec() - f) as nat),
        is_table(table, d, inverse),
    ensures
        table_wf(table, f, coset),
        forall|l: int, h: int|
            0 <= l < f && 0 <= h < pow2((f - 1 - l) as nat) ==> entry_ok(
                table[l]@[coset * pow2((f - 1 - l) as nat) + h],
                twiddle_spec(d, l as nat, coset * pow2((f - 1 - l) as nat) + h),
                inverse,
            ) && #[trigger] chunk_twiddles(table, f, coset)[l][h] == (table[l]@[coset * pow2(
                (f - 1 - l) as nat,
            ) + h] / 2) as int,
{
    let big_n = d.log_size_spec();
    assert forall|l: int| 0 <= l < f implies twiddles_wf(
        (#[trigger] table[l])@,
        coset * pow2((f - 1 - l) as nat),
        pow2((f - 1 - l) as nat),
    ) by {
        lemma_pow2_pos((f - 1 - l) as nat);
        lemma_chunk_range(big_n, f, l, coset, 0);
        let cnt = pow2((f - 1 - l) as nat) as int;
        assert forall|h: int| coset * cnt <= h < coset * cnt + cnt implies (
        #[trigger] table[l]@[h]) / 2 < P by {
            lemma_chunk_range(big_n, f, l, coset, h - coset * cnt);
            assert(entry_ok(table[l]@[h], twiddle_spec(d, l as nat, h), inverse));
        }
    }
    assert forall|l: int, h: int| 0 <= l < f && 0 <= h < pow2((f - 1 - l) as nat) implies entry_ok(
        table[l]@[coset * pow2((f - 1 - l) as nat) + h],
        twiddle_spec(d, l as nat, coset * pow2((f - 1 - l) as nat) + h),
        inverse,
    ) && #[trigger] chunk_twiddles(table, f, coset)[l][h] == (table[l]@[coset * pow2(
        (f - 1 - l) as nat,
    ) + h] / 2) as int by {
        lemma_chunk_range(big_n, f, l, coset, h);
    }
}

/// Entry `h` of block `coset` of layer `l` lies within the layer.
pub proof fn lemma_chunk_range(big_n: nat, f: nat, l: int, coset: int, h: int)
    requires
        0 <= l < f <= big_n,
        0 <= coset < pow2((big_n - f) as nat),
        0 <= h < pow2((f - 1 - l) as nat),
    ensures
        0 <= coset * pow2((f - 1 - l) as nat),
        coset * pow2((f - 1 - l) as nat) + pow2((f - 1 - l) as nat) <= pow2((big_n - 1 - l) as nat),
        0 <= coset * pow2((f - 1 - l) as nat) + h < pow2((big_n - 1 - l) as nat),
{
    let cnt = pow2((f - 1 - l) as nat) as int;
    let jump = pow2((big_n - f) as nat) as int;
    lemma_pow2_sum((f - 1 - l) as nat, (big_n - f) as nat);
    assert(0 <= coset * cnt && coset * cnt + cnt <= cnt * jump) by (nonlinear_arith)
        requires
            0 <= coset,
            coset + 1 <= jump,
            cnt > 0,
    ;
}

/// A copy of the vectors.
fn copy_vecs(src: &Vec<PackedBaseField>) -> (r: Vec<PackedBaseField>)
    ensures
        r@ == src@,
{
    let n: usize = src.len();
    let mut out: Vec<PackedBaseField> = Vec::with_capacity(n);
    let mut u: usize = 0;
    while u < n
        invariant
            u <= n,
            n == src.len(),
            out.len() == u,
            forall|w: int| 0 <= w < u ==> out@[w] == src@[w],
        decreases n - u,
    {
        out.push(src[u]);
        u = u + 1;
    }
    assert(out@ =~= src@);
    out
}

/// Every element of the column multiplied by `c`.
#[verifier::rlimit(50)]
fn scale_vecs(values: &mut Vec<PackedBaseField>, c: u32)
    requires
        lanes_wf(old(values)@),
        c < P,
    ensures
        final(values).len() == old(values).len(),
        lanes_wf(final(values)@),
        flat(final(values)@) == scale(flat(old(values)@), c as int),
{
    let n: usize = values.len();
    let ghost d0 = values@;
    let mut u: usize = 0;
    while u < n
        invariant
            u <= n,
            n == values.len(),
            d0.len() == n,
            c < P,
            lanes_wf(d0),
            lanes_wf(values@),
            forall|w: int, j: int|
                0 <= w < n && 0 <= j < 16 ==> (#[trigger] values@[w][j]) as int == (if w < u {
                    fp(c * d0[w][j])
                } else {
                    d0[w][j] as int
                }),
        decreases n - u,
    {
        let val: PackedBaseField = values[u];
        let mut out: PackedBaseField = val;
        let mut j: usize = 0;
        proof {
            assert(vec_wf(values@[u as int]));
        }
        while j < 16
            invariant
                j <= 16,
                c < P,
                vec_wf(val),
                vec_wf(out),
                forall|k: int| 0 <= k < j ==> (#[trigger] out[k]) as int == fp(c * val[k]),
            decreases 16 - j,
        {
            out[j] = mul_mod(c, val[j]);
            j = j + 1;
        }
        let ghost before = values@;
        values[u] = out;
        proof {
            assert forall|w: int, k: int| 0 <= w < n && 0 <= k < 16 implies (
            #[trigger] values@[w][k]) as int == (if w < u + 1 {
                fp(c * d0[w][k])
            } else {
                d0[w][k] as int
            }) by {
                if w != u {
                    assert(values@[w] == before[w]);
                } else {
                    assert(before[w][k] == d0[w][k]);
                }
            }
            assert forall|w: int| 0 <= w < values@.len() implies vec_wf(#[trigger] values@[w]) by {
                if w != u {
                    assert(values@[w] == before[w]);
                }
            }
        }
        u = u + 1;
    }
    proof {
        let target = scale(flat(d0), c as int);
        assert forall|i: int| 0 <= i < 16 * n implies flat(values@)[i] == target[i] by {
            assert(values@[i / 16][i % 16] as int == fp(c * d0[i / 16][i % 16]));
        }
        assert(flat(values@) =~= target);
    }
}

/// The index in the canonical coset of size `2^n` of point `j` of its
/// circle domain: the first half of the domain is every other point of the
/// coset, the second half the remaining points from the last one down.
pub open spec fn canonic_index(j: int, n: nat) -> int {
    let half = pow2((n - 1) as nat) as int;
    if j < half {
        2 * j
    } else {
        pow2(n) - 1 - 2 * (j - half)
    }
}

/// The index in the coset of every point of the domain lies in the coset.
pub proof fn lemma_canonic_index(j: int, n: nat)
    requires
        1 <= n,
        0 <= j < pow2(n),
    ensures
        0 <= canonic_index(j, n) < pow2(n),
        j < pow2((n - 1) as nat) ==> canonic_index(j, n) == 2 * j,
        j >= pow2((n - 1) as nat) ==> canonic_index(j, n) == pow2(n) - 1 - 2 * (j - pow2(
            (n - 1) as nat,
        )),
{
    lemma_pow2_step((n - 1) as nat);
}

/// The forward twiddles of the domain, as a table of integers.
pub open spec fn domain_twiddles(d: CircleDomain) -> Seq<Seq<int>> {
    Seq::new(
        d.log_size_spec(),
        |l: int|
            Seq::new(
                pow2((d.log_size_spec() - 1 - l) as nat),
                |h: int| twiddle_spec(d, l as nat, h),
            ),
    )
}

/// The inverses of the forward twiddles of the domain.
pub open spec fn domain_itwiddles(d: CircleDomain) -> Seq<Seq<int>> {
    Seq::new(
        d.log_size_spec(),
        |l: int|
            Seq::new(
                pow2((d.log_size_spec() - 1 - l) as nat),
                |h: int| inv_spec(twiddle_spec(d, l as nat, h)),
            ),
    )
}

/// On a domain whose half coset avoids its mirror image, every twiddle has
/// an inverse.
pub proof fn lemma_domain_tables(d: CircleDomain)
    requires
        d.wf(),
        d.is_fft_domain(),
        1 <= d.half_coset.log_size,
    ensures
        inverse_tables(domain_twiddles(d), domain_itwiddles(d), d.log_size_spec()),
{
    let n = d.log_size_spec();
    let tws = domain_twiddles(d);
    let itws = domain_itwiddles(d);
    assert forall|l: int, h: int| 0 <= l < n && 0 <= h < pow2((n - 1 - l) as nat) implies fp(
        #[trigger] tws[l][h] * #[trigger] itws[l][h],
    ) == 1 by {
        lemma_twiddle_nonzero(d, l as nat, h);
        lemma_point_at_on_circle(twiddle_index(d, l as nat, h));
        lemma_inverse_exists(twiddle_spec(d, l as nat, h));
    }
}

/// Two polynomials of the size of a domain with the same values on its
/// points have the same coefficients.
#[verifier::rlimit(50)]
pub proof fn lemma_interpolation_unique(c1: Seq<int>, c2: Seq<int>, d: CircleDomain)
    requires
        d.wf(),
        d.is_fft_domain(),
        MIN_FFT_LOG_SIZE <= d.log_size_spec(),
        is_fp_seq(c1),
        is_fp_seq(c2),
        c1.len() == pow2(d.log_size_spec()),
        c2.len() == pow2(d.log_size_spec()),
        forall|i: int|
            0 <= i < pow2(d.log_size_spec()) ==> poly_eval(
                c1,
                d.log_size_spec(),
                #[trigger] eval_point(d, i),
            ) == poly_eval(c2, d.log_size_spec(), eval_point(d, i)),
    ensures
        c1 == c2,
{
    let n = d.log_size_spec();
    let tws = domain_twiddles(d);
    let itws = domain_itwiddles(d);
    lemma_domain_tables(d);
    let l1 = logical_layout(c1, n);
    let l2 = logical_layout(c2, n);
    lemma_logical_layout(c1, n);
    lemma_logical_layout(c2, n);
    lemma_fft_range_shape(l1, n, 0, tws);
    lemma_fft_range_shape(l2, n, 0, tws);
    let e1 = fft_range(l1, n, 0, tws);
    let e2 = fft_range(l2, n, 0, tws);
    assert forall|i: int| 0 <= i < pow2(n) implies e1[i] == e2[i] by {
        lemma_fft_eval(l1, tws, n, i);
        lemma_fft_eval(l2, tws, n, i);
        assert(0 * pow2(n) + i == i);
        assert forall|l: int, h: int|
            0 <= l < n && 0 <= h < pow2((n - 1 - l) as nat) implies #[trigger] tws[l][h]
            == twiddle_spec(d, l as nat, 0 * pow2((n - 1 - l) as nat) + h) by {
            assert(0 * pow2((n - 1 - l) as nat) + h == h);
        }
        lemma2_to64();
        lemma_transform_is_evaluation(c1, tws, d, n, 0, i);
        lemma_transform_is_evaluation(c2, tws, d, n, 0, i);
    }
    assert(e1 =~= e2);
    lemma_ifft_of_fft(l1, tws, itws, n, 0);
    lemma_ifft_of_fft(l2, tws, itws, n, 0);
    let big = pow2(n) as int;
    lemma_pow2_le(n, 30);
    lemma2_to64();
    lemma_pow2_pos(n);
    lemma_inverse_exists(big);
    let c = inv_spec(big);
    lemma_scale_scale(l1, big, c);
    lemma_scale_scale(l2, big, c);
    lemma_scale_one(l1, big * c);
    lemma_scale_one(l2, big * c);
    assert(l1 == l2);
}

/// The coefficients, as they are held, of the polynomial of size `2^m`
/// that is the polynomial of size `2^n` with the coefficients `c`: in the
/// order of the layers, the same coefficients followed by zeros.
pub open spec fn extended_coeffs(c: Seq<int>, n: nat, m: nat) -> Seq<int> {
    logical_layout(zero_pad(logical_layout(c, n), pow2(m)), m)
}

/// The extended coefficients give the same value at every point.
pub proof fn lemma_extended_eval(c: Seq<int>, n: nat, m: nat, p: Pt)
    requires
        4 <= n <= m,
        c.len() == pow2(n),
        is_fp_seq(c),
    ensures
        extended_coeffs(c, n, m).len() == pow2(m),
        is_fp_seq(extended_coeffs(c, n, m)),
        poly_eval(extended_coeffs(c, n, m), m, p) == poly_eval(c, n, p),
{
    let lc = logical_layout(c, n);
    let padded = zero_pad(lc, pow2(m));
    let e = extended_coeffs(c, n, m);
    let g = |l: int| layer_factor(p, l as nat);
    lemma_logical_layout(c, n);
    lemma_pow2_le(n, m);
    assert(is_fp_seq(padded)) by {
        assert forall|i: int| 0 <= i < padded.len() implies is_fp(#[trigger] padded[i]) by {
            if i < lc.len() {
                assert(is_fp(lc[i]));
            }
        }
    }
    lemma_logical_layout(padded, m);
    lemma_ml_layout(e, g, m);
    lemma_ml_factors(
        e,
        |b: int| g(swap_bit(m, b)),
        |b: int| layer_factor(p, swap_bit(m, b) as nat),
        m,
        0,
    );
    lemma_ml_pad(lc, g, n, m);
    lemma_ml_layout(c, g, n);
    lemma_ml_factors(
        c,
        |b: int| g(swap_bit(n, b)),
        |b: int| layer_factor(p, swap_bit(n, b) as nat),
        n,
        0,
    );
}

/// The operations on circle polynomials over columns of sixteen lanes.
pub struct AVX512Backend;

impl AVX512Backend {
    /// The evaluation on the circle domain of a canonical coset from values
    /// given in the order of the coset, as a bit-reversed evaluation.
    #[verifier::rlimit(50)]
    pub fn new_canonical_ordered(coset: CanonicCoset, values: BaseFieldVec) -> (r: CircleEvaluation<
        BitReversedOrder,
    >)
        requires
            coset.wf(),
            MIN_FFT_LOG_SIZE <= coset.coset.log_size,
            values.wf(),
            values.length == pow2(coset.coset.log_size as nat),
        ensures
            r.wf(),
            canonic_domain(r.domain, coset.coset.log_size as nat),
            r.domain.is_fft_domain(),
            forall|k: int|
                0 <= k < values.length ==> #[trigger] r.values@[k] == values@[canonic_index(
                    bit_rev(k as nat, coset.coset.log_size as nat) as int,
                    coset.coset.log_size as nat,
                )],
    {
        let domain: CircleDomain = coset.circle_domain();
        let n: u32 = coset.log_size();
        let v: Vec<M31> = values.to_vec();
        let size: usize = v.len();
        let half: usize = pow2_usize(n - 1);
        proof {
            lemma_pow2_step((n - 1) as nat);
            lemma2_to64();
            lemma_pow2_sum(4, (n - 4) as nat);
        }
        let mut new_values: Vec<M31> = Vec::with_capacity(size);
        let mut i: usize = 0;
        while i < half
            invariant
                i <= half,
                size == 2 * half,
                v.len() == size,
                1 <= n,
                half == pow2((n - 1) as nat),
                size == pow2(n as nat),
                new_values.len() == i,
                forall|k: int| 0 <= k < i ==> #[trigger] new_values@[k] == v@[canonic_index(k, n as nat)],
            decreases half - i,
        {
            proof {
                lemma_canonic_index(i as int, n as nat);
            }
            new_values.push(v[2 * i]);
            i = i + 1;
        }
        let mut i: usize = 0;
        while i < half
            invariant
                i <= half,
                size == 2 * half,
                v.len() == size,
                1 <= n,
                half == pow2((n - 1) as nat),
                size == pow2(n as nat),
                new_values.len() == half + i,
                forall|k: int|
                    0 <= k < half + i ==> #[trigger] new_values@[k] == v@[canonic_index(k, n as nat)],
            decreases half - i,
        {
            proof {
                lemma_canonic_index(half + i, n as nat);
            }
            new_values.push(v[size - 1 - 2 * i]);
            i = i + 1;
        }
        let ghost pre = new_values@;
        bit_reverse(&mut new_values, n);
        proof {
            assert forall|k: int| 0 <= k < size implies (#[trigger] new_values@[k]).wf()
                && new_values@[k]@ == values@[canonic_index(
                bit_rev(k as nat, n as nat) as int,
                n as nat,
            )] by {
                lemma_bit_rev_bound(k as nat, n as nat);
                let j = bit_rev(k as nat, n as nat) as int;
                assert(new_values@[k] == pre[j]);
                let c = canonic_index(j, n as nat);
                lemma_canonic_index(j, n as nat);
                assert(v@[c].wf());
            }
        }
        CircleEvaluation::<BitReversedOrder>::new(domain, BaseFieldVec::from_vec(new_values))
    }

    /// The values of a polynomial on a domain at least as large as it, in
    /// bit-reversed order.
    ///
    /// The domain splits into blocks of the size of the polynomial; each
    /// block is one forward transform of the coefficients with the twiddles
    /// of that block.
    #[verifier::rlimit(50)]
    pub fn evaluate(poly: &CirclePoly, domain: CircleDomain) -> (r: CircleEvaluation<
        BitReversedOrder,
    >)
        requires
            poly.wf(),
            domain.wf(),
            poly.log_size <= domain.log_size_spec(),
        ensures
            r.wf(),
            r.domain == domain,
            is_evaluation_of(r.values@, *poly, domain),
    {
        let log_size: u32 = domain.log_size();
        let fft_log_size: u32 = poly.log_size();
        let log_jump: u32 = log_size - fft_log_size;
        let twiddles: Vec<Vec<u32>> = get_twiddle_dbls(domain);
        let n_cosets: usize = pow2_usize(log_jump);
        let size: usize = domain.size();
        let mut values: Vec<PackedBaseField> = Vec::with_capacity(size / 16);
        let ghost f = fft_log_size as nat;
        let ghost c = poly.coeffs@;
        let ghost chunk_len = pow2(f) as int;
        proof {
            lemma2_to64();
            lemma_pow2_sum(4, (f - 4) as nat);
            lemma_pow2_sum(f, log_jump as nat);
            lemma_flat_fp(poly.coeffs.data@);
        }
        let mut coset: usize = 0;
        while coset < n_cosets
            invariant
                coset <= n_cosets,
                n_cosets == pow2(log_jump as nat),
                log_jump == log_size - fft_log_size,
                log_size == domain.log_size_spec(),
                f == fft_log_size,
                poly.wf(),
                domain.wf(),
                fft_log_size == poly.log_size,
                c == poly.coeffs@,
                chunk_len == pow2(f),
                chunk_len == 16 * poly.coeffs.data.len(),
                size == pow2(log_size as nat),
                size == chunk_len * n_cosets,
                is_table(twiddles@, domain, false),
                16 * values.len() == coset * chunk_len,
                lanes_wf(values@),
                forall|i: int|
                    0 <= i < coset * chunk_len ==> #[trigger] flat(values@)[i] == poly.eval_spec(
                        eval_point(domain, i),
                    ),
            decreases n_cosets - coset,
        {
            let mut chunk: Vec<PackedBaseField> = copy_vecs(&poly.coeffs.data);
            proof {
                lemma_table_chunk(twiddles@, domain, f, coset as int, false);
            }
            fft(&mut chunk, &twiddles, coset, fft_log_size);
            let ghost before = values@;
            let ghost done = chunk@;
            proof {
                let tws = chunk_twiddles(twiddles@, f, coset as int);
                assert forall|i: int| 0 <= i < chunk_len implies #[trigger] flat(done)[i]
                    == poly.eval_spec(eval_point(domain, coset * chunk_len + i)) by {
                    lemma_transform_is_evaluation(c, tws, domain, f, coset as int, i);
                }
            }
            values.append(&mut chunk);
            proof {
                assert(values@ == before + done);
                assert((coset + 1) * chunk_len == coset * chunk_len + chunk_len)
                    by (nonlinear_arith);
                assert forall|u: int| 0 <= u < values@.len() implies vec_wf(
                    #[trigger] values@[u],
                ) by {
                    if u < before.len() {
                        assert(values@[u] == before[u]);
                    } else {
                        assert(values@[u] == done[u - before.len()]);
                    }
                }
                assert forall|i: int| 0 <= i < (coset + 1) * chunk_len implies #[trigger] flat(
                    values@,
                )[i] == poly.eval_spec(eval_point(domain, i)) by {
                    if i < coset * chunk_len {
                        assert(values@[i / 16] == before[i / 16]);
                        assert(flat(values@)[i] == flat(before)[i]);
                    } else {
                        let k = i - coset * chunk_len;
                        assert(values@[i / 16] == done[i / 16 - before.len()]);
                        assert(flat(values@)[i] == flat(done)[k]);
                    }
                }
            }
            coset = coset + 1;
        }
        proof {
            assert(n_cosets * chunk_len == chunk_len * n_cosets) by (nonlinear_arith);
        }
        CircleEvaluation::<BitReversedOrder>::new(
            domain,
            BaseFieldVec { data: values, length: size },
        )
    }

    /// The polynomial of the size of the domain that takes the given
    /// values, in bit-reversed order, on its points.
    #[verifier::rlimit(50)]
    pub fn interpolate(eval: CircleEvaluation<BitReversedOrder>) -> (r: CirclePoly)
        requires
            eval.wf(),
            eval.domain.is_fft_domain(),
            MIN_FFT_LOG_SIZE <= eval.domain.log_size_spec(),
        ensures
            is_interpolation_of(r, eval.values@, eval.domain),
    {
        let domain: CircleDomain = eval.domain;
        let length: usize = eval.values.length;
        let mut data: Vec<PackedBaseField> = eval.values.data;
        let ghost v = flat(data@);
        let twiddles: Vec<Vec<u32>> = get_itwiddle_dbls(domain);
        let log_size: u32 = domain.log_size();
        let ghost n = log_size as nat;
        proof {
            lemma2_to64();
            lemma_pow2_sum(4, (n - 4) as nat);
            lemma_pow2_le(n, 30);
            lemma_table_chunk(twiddles@, domain, n, 0, true);
            lemma_flat_fp(data@);
        }
        ifft(&mut data, &twiddles, log_size);
        let size: usize = domain.size();
        let inv: M31 = M31::from_u32_unchecked(size as u32).inverse();
        let ghost unscaled = flat(data@);
        scale_vecs(&mut data, inv.0);
        let coeffs = BaseFieldVec { data, length };
        let r = CirclePoly { log_size, coeffs };
        proof {
            let itws = chunk_twiddles(twiddles@, n, 0);
            let tws = Seq::new(
                n,
                |l: int|
                    Seq::new(pow2((n - 1 - l) as nat), |h: int| twiddle_spec(domain, l as nat, h)),
            );
            assert(inverse_tables(tws, itws, n)) by {
                assert forall|l: int, h: int|
                    0 <= l < n && 0 <= h < pow2((n - 1 - l) as nat) implies fp(
                    #[trigger] tws[l][h] * #[trigger] itws[l][h],
                ) == 1 by {
                    assert(0 * pow2((n - 1 - l) as nat) + h == h);
                    assert(chunk_twiddles(twiddles@, n, 0)[l][h] == (twiddles@[l]@[h] / 2) as int);
                    assert(entry_ok(twiddles@[l]@[h], twiddle_spec(domain, l as nat, h), true));
                    assert(tws[l][h] * itws[l][h] == itws[l][h] * tws[l][h]) by (nonlinear_arith);
                }
            }
            let cf = r.coeffs@;
            assert(cf == scale(ifft_spec(v, n, itws), inv@));
            assert(size * inv@ == pow2(n) * inv@);
            lemma_fft_of_scaled_ifft(v, tws, itws, n, inv@);
            lemma_flat_fp(r.coeffs.data@);
            lemma_logical_layout(cf, n);
            assert forall|i: int| 0 <= i < pow2(n) implies #[trigger] v[i] == r.eval_spec(
                eval_point(domain, i),
            ) by {
                lemma_fft_eval(logical_layout(cf, n), tws, n, i);
                assert(0 * pow2(n) + i == i);
                assert forall|l: int, h: int|
                    0 <= l < n && 0 <= h < pow2((n - 1 - l) as nat) implies #[trigger] tws[l][h]
                    == twiddle_spec(domain, l as nat, 0 * pow2((n - 1 - l) as nat) + h) by {
                    assert(0 * pow2((n - 1 - l) as nat) + h == h);
                }
                lemma_transform_is_evaluation(cf, tws, domain, n, 0, i);
            }
        }
        r
    }

    /// The value of the polynomial at a point, which need not lie in the
    /// base field.
    ///
    /// The factors of the point are its y coordinate, its x coordinate and
    /// the doubles of the x coordinate; they are folded against the
    /// coefficients from the highest layer down, in the order in which the
    /// coefficients are held.
    #[verifier::rlimit(50)]
    pub fn eval_at_point<E: ExtensionOf>(poly: &CirclePoly, point: CirclePoint<E>) -> (r: E)
        requires
            poly.wf(),
            point.coords_valid(),
        ensures
            r.is_valid(),
            r == poly.eval_ext_spec(point),
    {
        let n: usize = poly.log_size() as usize;
        let mut mappings: Vec<E> = Vec::with_capacity(n);
        mappings.push(point.y);
        mappings.push(point.x);
        let mut x: E = point.x;
        let mut k: usize = 2;
        while k < n
            invariant
                2 <= k <= n,
                n == poly.log_size,
                poly.wf(),
                mappings.len() == k,
                x.is_valid(),
                x == ext_layer_factor(point, (k - 1) as nat),
                forall|j: int|
                    0 <= j < k ==> (#[trigger] mappings@[j]).is_valid() && mappings@[j]
                        == ext_layer_factor(point, j as nat),
            decreases n - k,
        {
            x = CirclePoint::double_x(x);
            mappings.push(x);
            k = k + 1;
        }
        let mut factors: Vec<E> = Vec::with_capacity(n);
        let mut j: usize = 0;
        while j < n
            invariant
                j <= n,
                mappings.len() == n,
                factors.len() == j,
                forall|i: int|
                    0 <= i < n ==> (#[trigger] mappings@[i]).is_valid() && mappings@[i]
                        == ext_layer_factor(point, i as nat),
                forall|i: int|
                    0 <= i < j ==> (#[trigger] factors@[i]).is_valid() && factors@[i]
                        == ext_layer_factor(point, (n - 1 - i) as nat),
            decreases n - j,
        {
            factors.push(mappings[n - 1 - j]);
            j = j + 1;
        }
        let n0: usize = (n - 4) / 2;
        let n1: usize = (n - 4 + 1) / 2;
        if n > CACHED_FFT_LOG_SIZE as usize {
            let mut i: usize = 0;
            while i < n0
                invariant
                    i <= n0,
                    n0 == (n - 4) / 2,
                    n1 == (n - 4 + 1) / 2,
                    n > CACHED_FFT_LOG_SIZE,
                    factors.len() == n,
                    forall|t: int|
                        0 <= t < n ==> (#[trigger] factors@[t]).is_valid() && factors@[t]
                            == ext_layer_factor(
                            point,
                            (if t < i || n1 <= t < n1 + i {
                                swap_bit(n as nat, n - 1 - t)
                            } else {
                                n - 1 - t
                            }) as nat,
                        ),
                decreases n0 - i,
            {
                let a: E = factors[i];
                let b: E = factors[i + n1];
                factors[i] = b;
                factors[i + n1] = a;
                i = i + 1;
            }
        }
        proof {
            lemma2_to64();
            lemma_pow2_sum(4, (n - 4) as nat);
            lemma_flat_fp(poly.coeffs.data@);
        }
        let values: &[u32] = cast_lanes(poly.coeffs.data.as_slice());
        proof {
            assert(u32_ints(values@) =~= poly.coeffs@);
            assert forall|i: int| 0 <= i < values.len() implies (#[trigger] values@[i]) < P by {
                assert(vec_wf(poly.coeffs.data@[i / 16]));
                assert(poly.coeffs.data@[i / 16][i % 16] < P);
            }
        }
        let r: E = fold(values, factors.as_slice());
        proof {
            let fs = factors@;
            assert forall|b: int| 0 <= b < n implies #[trigger] ext_fold_factor(fs, b)
                == ext_layer_factor(point, swap_bit(n as nat, b) as nat) by {
                let t = n - 1 - b;
                assert(factors@[t].is_valid());
            }
            lemma_ext_ml_factors(
                poly.coeffs@,
                |b: int| ext_fold_factor(fs, b),
                |b: int| ext_layer_factor(point, swap_bit(n as nat, b) as nat),
                n as nat,
                0,
            );
        }
        r
    }

    /// The same polynomial with `2^log_size` coefficients: it is evaluated
    /// on the canonical domain of that size and the values are
    /// interpolated.
    #[verifier::rlimit(50)]
    pub fn extend(poly: &CirclePoly, log_size: u32) -> (r: CirclePoly)
        requires
            poly.wf(),
            poly.log_size <= log_size <= MAX_CIRCLE_DOMAIN_LOG_SIZE,
        ensures
            r.wf(),
            r.log_size == log_size,
            r.coeffs@ == extended_coeffs(poly.coeffs@, poly.log_size as nat, log_size as nat),
            forall|p: Pt| #[trigger] r.eval_spec(p) == poly.eval_spec(p),
    {
        let domain: CircleDomain = CanonicCoset::new(log_size).circle_domain();
        let eval = AVX512Backend::evaluate(poly, domain);
        let r = AVX512Backend::interpolate(eval);
        proof {
            let n = poly.log_size as nat;
            let m = log_size as nat;
            let c = poly.coeffs@;
            let e = extended_coeffs(c, n, m);
            lemma2_to64();
            lemma_pow2_sum(4, (n - 4) as nat);
            lemma_pow2_sum(4, (m - 4) as nat);
            lemma_flat_fp(poly.coeffs.data@);
            lemma_flat_fp(r.coeffs.data@);
            assert forall|i: int| 0 <= i < pow2(m) implies poly_eval(
                r.coeffs@,
                m,
                #[trigger] eval_point(domain, i),
            ) == poly_eval(e, m, eval_point(domain, i)) by {
                lemma_extended_eval(c, n, m, eval_point(domain, i));
                assert(eval.values@[i] == r.eval_spec(eval_point(domain, i)));
                assert(eval.values@[i] == poly.eval_spec(eval_point(domain, i)));
            }
            lemma_extended_eval(c, n, m, eval_point(domain, 0));
            lemma_interpolation_unique(r.coeffs@, e, domain);
            assert forall|p: Pt| #[trigger] r.eval_spec(p) == poly.eval_spec(p) by {
                lemma_extended_eval(c, n, m, p);
            }
        }
        r
    }
}

} // verus!
