//! The mathematical model of the transform: butterfly layers on sequences of
//! field elements, and what their composition computes.
use crate::fields::m31::{fp, is_fp, lemma_fp_add, lemma_fp_add_cong, lemma_fp_mul};
use crate::utils::{
    lemma_div_mod_compose, lemma_div_mod_split, lemma_div_mod_succ, lemma_pow2_step, lemma_pow2_sum,
};
use vstd::arithmetic::div_mod::*;
use vstd::arithmetic::power2::*;
use vstd::prelude::*;

verus! {

/// Every entry is a canonical field element.
pub open spec fn is_fp_seq(v: Seq<int>) -> bool {
    forall|i: int| 0 <= i < v.len() ==> is_fp(#[trigger] v[i])
}

/// Every entry multiplied by `a`.
pub open spec fn scale(v: Seq<int>, a: int) -> Seq<int> {
    Seq::new(v.len(), |i: int| fp(a * v[i]))
}

/// Entry `i` after the forward butterflies of layer `l`: positions `i` and
/// `i + 2^l` (bit `l` of `i` clear) become `a + t b` and `a - t b`, where `t`
/// is the twiddle of their block of `2^(l+1)` positions.
pub open spec fn fwd_at(v: Seq<int>, l: nat, tl: Seq<int>, i: int) -> int {
    let hf = pow2(l) as int;
    let q = i / hf;
    if q % 2 == 0 {
        fp(v[i] + tl[q / 2] * v[i + hf])
    } else {
        fp(v[i - hf] - tl[q / 2] * v[i])
    }
}

/// Entry `i` after the inverse butterflies of layer `l`: positions `i` and
/// `i + 2^l` become `a + b` and `(a - b) t`.
pub open spec fn inv_at(v: Seq<int>, l: nat, tl: Seq<int>, i: int) -> int {
    let hf = pow2(l) as int;
    let q = i / hf;
    if q % 2 == 0 {
        fp(v[i] + v[i + hf])
    } else {
        fp((v[i - hf] - v[i]) * tl[q / 2])
    }
}

/// One forward butterfly layer.
pub open spec fn fwd_layer(v: Seq<int>, l: nat, tl: Seq<int>) -> Seq<int> {
    Seq::new(v.len(), |i: int| fwd_at(v, l, tl, i))
}

/// One inverse butterfly layer.
pub open spec fn inv_layer(v: Seq<int>, l: nat, tl: Seq<int>) -> Seq<int> {
    Seq::new(v.len(), |i: int| inv_at(v, l, tl, i))
}

/// The forward layers `hi - 1`, `hi - 2`, ..., `lo`, applied in that order.
pub open spec fn fft_range(v: Seq<int>, hi: nat, lo: nat, tw: Seq<Seq<int>>) -> Seq<int>
    decreases hi - lo,
{
    if hi <= lo {
        v
    } else {
        fwd_layer(fft_range(v, hi, lo + 1, tw), lo, tw[lo as int])
    }
}

/// The inverse layers `lo`, `lo + 1`, ..., `hi - 1`, applied in that order.
pub open spec fn ifft_range(v: Seq<int>, lo: nat, hi: nat, tw: Seq<Seq<int>>) -> Seq<int>
    decreases hi,
{
    if hi <= lo {
        v
    } else {
        inv_layer(ifft_range(v, lo, (hi - 1) as nat, tw), (hi - 1) as nat, tw[hi - 1])
    }
}

/// The factor that layer `l` contributes at a position whose quotient by
/// `2^l` is `q`: the block's twiddle, negated on the odd half.
pub open spec fn factor(tw: Seq<Seq<int>>, l: int, q: int) -> int {
    if q % 2 == 0 {
        tw[l][q / 2]
    } else {
        -tw[l][q / 2]
    }
}

/// The multilinear form in the factors of layers `k .. k + m`, over the
/// coefficients at `off + j 2^k` for `j < 2^m`, at a position whose quotient
/// by `2^k` is `q`.
pub open spec fn partial_eval(
    c: Seq<int>,
    tw: Seq<Seq<int>>,
    k: nat,
    m: nat,
    q: int,
    off: int,
) -> int
    decreases m,
{
    if m == 0 {
        c[off]
    } else {
        let top = (k + m - 1) as nat;
        partial_eval(c, tw, k, (m - 1) as nat, q, off) + factor(
            tw,
            top as int,
            q / (pow2((m - 1) as nat) as int),
        ) * partial_eval(c, tw, k, (m - 1) as nat, q, off + pow2(top))
    }
}

/// What a transform of `2^f` coefficients `c` holds at position `i`.
pub open spec fn twiddle_eval(c: Seq<int>, tw: Seq<Seq<int>>, f: nat, i: int) -> int {
    fp(partial_eval(c, tw, 0, f, i, 0))
}

/// The two tables hold inverse twiddles of one another, layer by layer.
pub open spec fn inverse_tables(tw: Seq<Seq<int>>, itw: Seq<Seq<int>>, f: nat) -> bool {
    forall|l: int, h: int|
        0 <= l < f && 0 <= h < pow2((f - 1 - l) as nat) ==> fp(
            #[trigger] tw[l][h] * #[trigger] itw[l][h],
        ) == 1
}

/// Index facts about a butterfly pair in layer `l` of `2^f` positions.
pub proof fn lemma_pair_index(i: int, l: nat, f: nat)
    requires
        l < f,
        0 <= i < pow2(f),
    ensures
        ({
            let hf = pow2(l) as int;
            let q = i / hf;
            &&& hf > 0
            &&& 0 <= q < pow2((f - l) as nat)
            &&& 0 <= q / 2 < pow2((f - l - 1) as nat)
            &&& 0 <= i % hf < hf
            &&& (q % 2 == 0 ==> i + hf < pow2(f) && (i + hf) / hf == q + 1 && (i + hf) % hf == i
                % hf)
            &&& (q % 2 != 0 ==> i - hf >= 0 && (i - hf) / hf == q - 1 && (i - hf) % hf == i % hf)
        }),
{
    let hf = pow2(l) as int;
    let q = i / hf;
    let r = i % hf;
    let w = pow2((f - l) as nat) as int;
    lemma_pow2_sum(l, (f - l) as nat);
    lemma_pow2_step((f - l - 1) as nat);
    lemma_div_mod_split(i, hf);
    assert(q < w) by (nonlinear_arith)
        requires
            q * hf + r == i,
            r >= 0,
            i < hf * w,
            hf > 0,
    ;
    if q % 2 == 0 {
        assert(q + 1 <= w - 1);
        assert((q + 1) * hf + r < hf * w && i + hf == (q + 1) * hf + r) by (nonlinear_arith)
            requires
                q + 1 <= w - 1,
                0 <= r < hf,
                i == q * hf + r,
        ;
        lemma_div_mod_compose(q + 1, r, hf);
    } else {
        assert(i - hf == (q - 1) * hf + r && i - hf >= 0) by (nonlinear_arith)
            requires
                q >= 1,
                0 <= r < hf,
                i == q * hf + r,
        ;
        lemma_div_mod_compose(q - 1, r, hf);
    }
}

/// The multilinear form over layers `k .. k + m + 1` splits on its lowest
/// layer.
pub proof fn lemma_partial_eval_low(
    c: Seq<int>,
    tw: Seq<Seq<int>>,
    k: nat,
    m: nat,
    q: int,
    off: int,
)
    requires
        q >= 0,
    ensures
        partial_eval(c, tw, k, m + 1, q, off) == partial_eval(c, tw, k + 1, m, q / 2, off) + factor(
            tw,
            k as int,
            q,
        ) * partial_eval(c, tw, k + 1, m, q / 2, off + pow2(k)),
    decreases m,
{
    lemma2_to64();
    if m == 0 {
        assert(partial_eval(c, tw, k, 0, q, off) == c[off]);
        assert(partial_eval(c, tw, k, 0, q, off + pow2(k)) == c[off + pow2(k)]);
        assert(q / 1 == q);
    } else {
        let m1: nat = (m - 1) as nat;
        let top: nat = k + m;
        let ft = factor(tw, top as int, q / (pow2(m) as int));
        let fk = factor(tw, k as int, q);
        lemma_partial_eval_low(c, tw, k, m1, q, off);
        lemma_partial_eval_low(c, tw, k, m1, q, off + pow2(top));
        lemma_pow2_step(m1);
        lemma_pow2_pos(m1);
        lemma_div_denominator(q, 2, pow2(m1) as int);
        assert((q / 2) / (pow2(m1) as int) == q / (pow2(m) as int));
        let a = partial_eval(c, tw, k + 1, m1, q / 2, off);
        let b = partial_eval(c, tw, k + 1, m1, q / 2, off + pow2(k));
        let cc = partial_eval(c, tw, k + 1, m1, q / 2, off + pow2(top));
        let d = partial_eval(c, tw, k + 1, m1, q / 2, off + pow2(top) + pow2(k));
        assert(off + pow2(k) + pow2(top) == off + pow2(top) + pow2(k));
        assert(partial_eval(c, tw, k, m + 1, q, off) == (a + fk * b) + ft * (cc + fk * d));
        assert(partial_eval(c, tw, k + 1, m, q / 2, off) == a + ft * cc);
        assert(partial_eval(c, tw, k + 1, m, q / 2, off + pow2(k)) == b + ft * d);
        assert((a + fk * b) + ft * (cc + fk * d) == (a + ft * cc) + fk * (b + ft * d))
            by (nonlinear_arith);
    }
}

/// `a + t b` may be computed from reduced `a` and `b`.
pub proof fn lemma_fp_butterfly(a: int, t: int, b: int)
    ensures
        fp(fp(a) + t * fp(b)) == fp(a + t * b),
        fp(fp(a) - t * fp(b)) == fp(a + (-t) * b),
{
    lemma_fp_mul(t, b);
    lemma_fp_add_cong(fp(a), t * fp(b), a, t * b);
    assert((-t) * b == -(t * b)) by (nonlinear_arith);
}

/// The forward layers keep the length and the entries canonical.
pub proof fn lemma_fft_range_shape(v: Seq<int>, hi: nat, lo: nat, tw: Seq<Seq<int>>)
    requires
        is_fp_seq(v),
    ensures
        fft_range(v, hi, lo, tw).len() == v.len(),
        is_fp_seq(fft_range(v, hi, lo, tw)),
    decreases hi - lo,
{
    if hi > lo {
        lemma_fft_range_shape(v, hi, lo + 1, tw);
    }
}

/// The inverse layers keep the length and the entries canonical.
pub proof fn lemma_ifft_range_shape(v: Seq<int>, lo: nat, hi: nat, tw: Seq<Seq<int>>)
    requires
        is_fp_seq(v),
    ensures
        ifft_range(v, lo, hi, tw).len() == v.len(),
        is_fp_seq(ifft_range(v, lo, hi, tw)),
    decreases hi,
{
    if hi > lo {
        lemma_ifft_range_shape(v, lo, (hi - 1) as nat, tw);
    }
}

/// After the layers `f - 1` down to `k`, position `i` holds the multilinear
/// form in the factors of those layers.
#[verifier::rlimit(50)]
pub proof fn lemma_fft_range_eval(v: Seq<int>, tw: Seq<Seq<int>>, f: nat, k: nat, i: int)
    requires
        k <= f,
        v.len() == pow2(f),
        is_fp_seq(v),
        0 <= i < pow2(f),
    ensures
        fft_range(v, f, k, tw)[i] == fp(
            partial_eval(
                v,
                tw,
                k,
                (f - k) as nat,
                i / (pow2(k) as int),
                i % (pow2(k) as int),
            ),
        ),
    decreases f - k,
{
    if k >= f {
        lemma_pow2_pos(f);
        lemma_small_mod(i as nat, pow2(f));
        assert(fft_range(v, f, k, tw) == v);
        assert(is_fp(v[i]));
    } else {
        let s1 = fft_range(v, f, k + 1, tw);
        let hf = pow2(k) as int;
        let q = i / hf;
        let r = i % hf;
        let m: nat = (f - k - 1) as nat;
        let t = tw[k as int][q / 2];
        lemma_fft_range_shape(v, f, k + 1, tw);
        lemma_pair_index(i, k, f);
        lemma_div_mod_succ(i, k);
        lemma_partial_eval_low(v, tw, k, m, q, r);
        let a = partial_eval(v, tw, k + 1, m, q / 2, r);
        let b = partial_eval(v, tw, k + 1, m, q / 2, r + hf);
        assert(fft_range(v, f, k, tw)[i] == fwd_layer(s1, k, tw[k as int])[i]);
        if q % 2 == 0 {
            lemma_fft_range_eval(v, tw, f, k + 1, i);
            lemma_fft_range_eval(v, tw, f, k + 1, i + hf);
            lemma_div_mod_succ(i + hf, k);
            let p1 = pow2(k + 1) as int;
            assert((q % 2) * hf == 0) by (nonlinear_arith)
                requires
                    q % 2 == 0,
            ;
            assert(i / p1 == q / 2);
            assert(i % p1 == r);
            assert((i + hf) / hf == q + 1);
            assert((i + hf) / p1 == q / 2);
            assert(((q + 1) % 2) * hf == hf) by (nonlinear_arith)
                requires
                    (q + 1) % 2 == 1,
            ;
            assert((i + hf) % p1 == r + hf);
            assert(s1[i] == fp(a));
            assert(s1[i + hf] == fp(b));
            lemma_fp_butterfly(a, t, b);
        } else {
            lemma_fft_range_eval(v, tw, f, k + 1, i);
            lemma_fft_range_eval(v, tw, f, k + 1, i - hf);
            lemma_div_mod_succ(i - hf, k);
            let p1 = pow2(k + 1) as int;
            assert((q % 2) * hf == hf) by (nonlinear_arith)
                requires
                    q % 2 == 1,
            ;
            assert(i / p1 == q / 2);
            assert(i % p1 == r + hf);
            assert((i - hf) / hf == q - 1);
            assert((i - hf) / p1 == q / 2);
            assert(((q - 1) % 2) * hf == 0) by (nonlinear_arith)
                requires
                    (q - 1) % 2 == 0,
            ;
            assert((i - hf) % p1 == r);
            assert(s1[i - hf] == fp(a));
            assert(s1[i] == fp(b));
            lemma_fp_butterfly(a, t, b);
        }
    }
}

/// The forward transform of `2^f` coefficients holds, at each position, the
/// multilinear form in that position's signed twiddles.
pub proof fn lemma_fft_eval(v: Seq<int>, tw: Seq<Seq<int>>, f: nat, i: int)
    requires
        v.len() == pow2(f),
        is_fp_seq(v),
        0 <= i < pow2(f),
    ensures
        fft_range(v, f, 0, tw)[i] == twiddle_eval(v, tw, f, i),
{
    lemma2_to64();
    lemma_fft_range_eval(v, tw, f, 0, i);
}

/// The forward layers may be unrolled from the first one applied.
pub proof fn lemma_fft_range_first(v: Seq<int>, hi: nat, lo: nat, tw: Seq<Seq<int>>)
    requires
        lo < hi,
    ensures
        fft_range(v, hi, lo, tw) == fft_range(
            fwd_layer(v, (hi - 1) as nat, tw[hi - 1]),
            (hi - 1) as nat,
            lo,
            tw,
        ),
    decreases hi - lo,
{
    let v1 = fwd_layer(v, (hi - 1) as nat, tw[hi - 1]);
    if lo + 1 == hi {
        assert(fft_range(v, hi, lo + 1, tw) == v);
        assert(fft_range(v1, (hi - 1) as nat, lo, tw) == v1);
    } else {
        lemma_fft_range_first(v, hi, lo + 1, tw);
        assert(fft_range(v1, (hi - 1) as nat, lo, tw) == fwd_layer(
            fft_range(v1, (hi - 1) as nat, lo + 1, tw),
            lo,
            tw[lo as int],
        ));
    }
}

/// A forward layer commutes with scaling.
pub proof fn lemma_fwd_layer_scale(v: Seq<int>, l: nat, tl: Seq<int>, a: int, f: nat)
    requires
        v.len() == pow2(f),
        l < f,
    ensures
        fwd_layer(scale(v, a), l, tl) == scale(fwd_layer(v, l, tl), a),
{
    let hf = pow2(l) as int;
    assert forall|i: int| 0 <= i < v.len() implies fwd_at(scale(v, a), l, tl, i) == fp(
        a * fwd_at(v, l, tl, i),
    ) by {
        lemma_pair_index(i, l, f);
        let q = i / hf;
        let t = tl[q / 2];
        if q % 2 == 0 {
            let x = v[i];
            let y = v[i + hf];
            lemma_fp_butterfly(a * x, t, a * y);
            lemma_fp_mul(a, x + t * y);
            assert(a * x + t * (a * y) == a * (x + t * y)) by (nonlinear_arith);
        } else {
            let x = v[i - hf];
            let y = v[i];
            lemma_fp_butterfly(a * x, t, a * y);
            lemma_fp_mul(a, x - t * y);
            assert(a * x + (-t) * (a * y) == a * (x - t * y)) by (nonlinear_arith);
        }
    }
    assert(fwd_layer(scale(v, a), l, tl) =~= scale(fwd_layer(v, l, tl), a));
}

/// The forward layers commute with scaling.
pub proof fn lemma_fft_range_scale(
    v: Seq<int>,
    hi: nat,
    lo: nat,
    tw: Seq<Seq<int>>,
    a: int,
    f: nat,
)
    requires
        v.len() == pow2(f),
        is_fp_seq(v),
        hi <= f,
    ensures
        fft_range(scale(v, a), hi, lo, tw) == scale(fft_range(v, hi, lo, tw), a),
    decreases hi - lo,
{
    if hi > lo {
        lemma_fft_range_scale(v, hi, lo + 1, tw, a, f);
        lemma_fft_range_shape(v, hi, lo + 1, tw);
        lemma_fwd_layer_scale(fft_range(v, hi, lo + 1, tw), lo, tw[lo as int], a, f);
    }
}

/// Scaling twice is scaling by the product.
pub proof fn lemma_scale_scale(v: Seq<int>, a: int, b: int)
    ensures
        scale(scale(v, a), b) == scale(v, a * b),
{
    assert forall|i: int| 0 <= i < v.len() implies fp(b * fp(a * v[i])) == fp((a * b) * v[i]) by {
        lemma_fp_mul(b, a * v[i]);
        assert(b * (a * v[i]) == (a * b) * v[i]) by (nonlinear_arith);
    }
    assert(scale(scale(v, a), b) =~= scale(v, a * b));
}

/// Scaling by something congruent to one changes nothing.
pub proof fn lemma_scale_one(v: Seq<int>, a: int)
    requires
        is_fp_seq(v),
        fp(a) == 1,
    ensures
        scale(v, a) == v,
{
    assert forall|i: int| 0 <= i < v.len() implies fp(a * v[i]) == v[i] by {
        lemma_fp_mul(a, v[i]);
        assert(1 * v[i] == v[i]);
        assert(is_fp(v[i]));
    }
    assert(scale(v, a) =~= v);
}

/// An inverse layer followed by the forward layer with the inverse twiddles
/// doubles every entry.
#[verifier::rlimit(50)]
pub proof fn lemma_inv_then_fwd(v: Seq<int>, l: nat, tl: Seq<int>, itl: Seq<int>, f: nat)
    requires
        v.len() == pow2(f),
        l < f,
        forall|h: int| 0 <= h < pow2((f - 1 - l) as nat) ==> fp(#[trigger] tl[h] * itl[h]) == 1,
    ensures
        fwd_layer(inv_layer(v, l, itl), l, tl) == scale(v, 2),
{
    let w = inv_layer(v, l, itl);
    let hf = pow2(l) as int;
    assert forall|i: int| 0 <= i < v.len() implies fwd_at(w, l, tl, i) == fp(2 * v[i]) by {
        lemma_pair_index(i, l, f);
        let q = i / hf;
        let t = tl[q / 2];
        let it = itl[q / 2];
        assert(fp(t * it) == 1);
        if q % 2 == 0 {
            let j = i + hf;
            lemma_pair_index(j, l, f);
            let x = v[i] + v[j];
            let y = v[i] - v[j];
            assert(w[i] == fp(x));
            assert(w[j] == fp(y * it));
            lemma_fp_butterfly(x, t, y * it);
            assert(t * (y * it) == y * (t * it)) by (nonlinear_arith);
            lemma_fp_mul(y, t * it);
            assert(y * 1 == y);
            lemma_fp_add_cong(x, y * (t * it), x, y);
        } else {
            let j = i - hf;
            lemma_pair_index(j, l, f);
            let x = v[j] + v[i];
            let y = v[j] - v[i];
            assert(w[j] == fp(x));
            assert(w[i] == fp(y * it));
            lemma_fp_butterfly(x, t, y * it);
            assert((-t) * (y * it) == -(y * (t * it))) by (nonlinear_arith);
            lemma_fp_mul(y, t * it);
            assert(y * 1 == y);
            lemma_fp_add_cong(x, y * (t * it), x, y);
        }
    }
    assert(fwd_layer(w, l, tl) =~= scale(v, 2));
}

/// The forward layers `k - 1 .. 0` undo the inverse layers `0 .. k`, up to
/// the factor `2^k`.
pub proof fn lemma_fft_of_ifft(v: Seq<int>, tw: Seq<Seq<int>>, itw: Seq<Seq<int>>, f: nat, k: nat)
    requires
        v.len() == pow2(f),
        is_fp_seq(v),
        k <= f,
        inverse_tables(tw, itw, f),
    ensures
        fft_range(ifft_range(v, 0, k, itw), k, 0, tw) == scale(v, pow2(k) as int),
    decreases k,
{
    lemma2_to64();
    if k == 0 {
        lemma_scale_one(v, 1);
    } else {
        let k1: nat = (k - 1) as nat;
        let w = ifft_range(v, 0, k1, itw);
        let x = inv_layer(w, k1, itw[k1 as int]);
        lemma_ifft_range_shape(v, 0, k1, itw);
        assert(ifft_range(v, 0, k, itw) == x);
        lemma_fft_range_first(x, k, 0, tw);
        assert forall|h: int| 0 <= h < pow2((f - 1 - k1) as nat) implies fp(
            #[trigger] tw[k1 as int][h] * itw[k1 as int][h],
        ) == 1 by {}
        lemma_inv_then_fwd(w, k1, tw[k1 as int], itw[k1 as int], f);
        lemma_fft_range_scale(w, k1, 0, tw, 2, f);
        lemma_fft_of_ifft(v, tw, itw, f, k1);
        lemma_scale_scale(v, pow2(k1) as int, 2);
        lemma_pow2_step(k1);
        assert(pow2(k1) * 2 == pow2(k));
    }
}

/// An inverse layer commutes with scaling.
pub proof fn lemma_inv_layer_scale(v: Seq<int>, l: nat, tl: Seq<int>, a: int, f: nat)
    requires
        v.len() == pow2(f),
        l < f,
    ensures
        inv_layer(scale(v, a), l, tl) == scale(inv_layer(v, l, tl), a),
{
    let hf = pow2(l) as int;
    assert forall|i: int| 0 <= i < v.len() implies inv_at(scale(v, a), l, tl, i) == fp(
        a * inv_at(v, l, tl, i),
    ) by {
        lemma_pair_index(i, l, f);
        let q = i / hf;
        let t = tl[q / 2];
        if q % 2 == 0 {
            let x = v[i];
            let y = v[i + hf];
            lemma_fp_add(a * x, a * y);
            lemma_fp_mul(a, x + y);
            assert(a * x + a * y == a * (x + y)) by (nonlinear_arith);
        } else {
            let x = v[i - hf];
            let y = v[i];
            lemma_fp_add(a * x, a * y);
            lemma_fp_mul(fp(a * x) - fp(a * y), t);
            lemma_fp_mul(a * x - a * y, t);
            lemma_fp_mul(a, (x - y) * t);
            assert((a * x - a * y) * t == a * ((x - y) * t)) by (nonlinear_arith);
        }
    }
    assert(inv_layer(scale(v, a), l, tl) =~= scale(inv_layer(v, l, tl), a));
}

/// The inverse layers commute with scaling.
pub proof fn lemma_ifft_range_scale(
    v: Seq<int>,
    lo: nat,
    hi: nat,
    tw: Seq<Seq<int>>,
    a: int,
    f: nat,
)
    requires
        v.len() == pow2(f),
        is_fp_seq(v),
        hi <= f,
    ensures
        ifft_range(scale(v, a), lo, hi, tw) == scale(ifft_range(v, lo, hi, tw), a),
    decreases hi,
{
    if hi > lo {
        lemma_ifft_range_scale(v, lo, (hi - 1) as nat, tw, a, f);
        lemma_ifft_range_shape(v, lo, (hi - 1) as nat, tw);
        lemma_inv_layer_scale(ifft_range(v, lo, (hi - 1) as nat, tw), (hi - 1) as nat, tw[hi - 1], a, f);
    }
}

/// The inverse layers may be unrolled from the first one applied.
pub proof fn lemma_ifft_range_first(v: Seq<int>, lo: nat, hi: nat, tw: Seq<Seq<int>>)
    requires
        lo < hi,
    ensures
        ifft_range(v, lo, hi, tw) == ifft_range(inv_layer(v, lo, tw[lo as int]), lo + 1, hi, tw),
    decreases hi,
{
    let v1 = inv_layer(v, lo, tw[lo as int]);
    if lo + 1 == hi {
        assert(ifft_range(v, lo, lo, tw) == v);
        assert(ifft_range(v1, lo + 1, hi, tw) == v1);
    } else {
        lemma_ifft_range_first(v, lo, (hi - 1) as nat, tw);
        assert(ifft_range(v1, lo + 1, hi, tw) == inv_layer(
            ifft_range(v1, lo + 1, (hi - 1) as nat, tw),
            (hi - 1) as nat,
            tw[hi - 1],
        ));
    }
}

/// A forward layer followed by the inverse layer with the inverse twiddles
/// doubles every entry.
#[verifier::rlimit(50)]
pub proof fn lemma_fwd_then_inv(v: Seq<int>, l: nat, tl: Seq<int>, itl: Seq<int>, f: nat)
    requires
        v.len() == pow2(f),
        l < f,
        forall|h: int| 0 <= h < pow2((f - 1 - l) as nat) ==> fp(#[trigger] tl[h] * itl[h]) == 1,
    ensures
        inv_layer(fwd_layer(v, l, tl), l, itl) == scale(v, 2),
{
    let w = fwd_layer(v, l, tl);
    let hf = pow2(l) as int;
    assert forall|i: int| 0 <= i < v.len() implies inv_at(w, l, itl, i) == fp(2 * v[i]) by {
        lemma_pair_index(i, l, f);
        let q = i / hf;
        let t = tl[q / 2];
        let it = itl[q / 2];
        assert(fp(t * it) == 1);
        if q % 2 == 0 {
            let j = i + hf;
            lemma_pair_index(j, l, f);
            let a = v[i];
            let b = v[j];
            assert(w[i] == fp(a + t * b));
            assert(w[j] == fp(a - t * b));
            lemma_fp_add(a + t * b, a - t * b);
        } else {
            let j = i - hf;
            lemma_pair_index(j, l, f);
            let a = v[j];
            let b = v[i];
            assert(w[j] == fp(a + t * b));
            assert(w[i] == fp(a - t * b));
            lemma_fp_add(a + t * b, a - t * b);
            lemma_fp_mul(fp(a + t * b) - fp(a - t * b), it);
            lemma_fp_mul((a + t * b) - (a - t * b), it);
            assert(((a + t * b) - (a - t * b)) * it == (2 * b) * (t * it)) by (nonlinear_arith);
            lemma_fp_mul(2 * b, t * it);
            assert((2 * b) * 1 == 2 * b);
        }
    }
    assert(inv_layer(w, l, itl) =~= scale(v, 2));
}

/// The inverse layers `lo .. f` undo the forward layers `f - 1 .. lo`, up
/// to the factor `2^(f - lo)`.
pub proof fn lemma_ifft_of_fft(v: Seq<int>, tw: Seq<Seq<int>>, itw: Seq<Seq<int>>, f: nat, lo: nat)
    requires
        v.len() == pow2(f),
        is_fp_seq(v),
        lo <= f,
        inverse_tables(tw, itw, f),
    ensures
        ifft_range(fft_range(v, f, lo, tw), lo, f, itw) == scale(v, pow2((f - lo) as nat) as int),
    decreases f - lo,
{
    lemma2_to64();
    if lo == f {
        lemma_scale_one(v, 1);
    } else {
        let x = fft_range(v, f, lo + 1, tw);
        lemma_fft_range_shape(v, f, lo + 1, tw);
        let y = fwd_layer(x, lo, tw[lo as int]);
        assert(fft_range(v, f, lo, tw) == y);
        lemma_ifft_range_first(y, lo, f, itw);
        assert forall|h: int| 0 <= h < pow2((f - 1 - lo) as nat) implies fp(
            #[trigger] tw[lo as int][h] * itw[lo as int][h],
        ) == 1 by {}
        lemma_fwd_then_inv(x, lo, tw[lo as int], itw[lo as int], f);
        lemma_ifft_range_scale(x, lo + 1, f, itw, 2, f);
        lemma_ifft_of_fft(v, tw, itw, f, lo + 1);
        let k: nat = (f - lo - 1) as nat;
        lemma_scale_scale(v, pow2(k) as int, 2);
        lemma_pow2_step(k);
        assert(pow2(k) * 2 == pow2((f - lo) as nat));
    }
}

} // verus!
