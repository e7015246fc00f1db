//! Butterfly layers on columns held as vectors of sixteen lanes.
use crate::fft::model::{fwd_at, inv_at};
use crate::fields::m31::{add_mod, fp, lemma_fp_add, lemma_fp_mul, mul_mod, sub_mod, P};
use crate::utils::{
    lemma_div_known, lemma_div_mod_compose, lemma_div_mod_split, lemma_div_one, lemma_half_shift,
    lemma_pow2_step, lemma_pow2_sum, pow2_usize,
};
use vstd::arithmetic::div_mod::*;
use vstd::arithmetic::power2::*;
use vstd::prelude::*;

verus! {

/// The logarithm of the number of lanes of a vector.
pub const VECS_LOG_SIZE: u32 = 4;

/// Sixteen field elements that are loaded, combined and stored together.
pub type PackedBaseField = [u32; 16];

/// The column as one sequence of field elements: vector `i / 16`, lane
/// `i % 16`.
pub open spec fn flat(data: Seq<PackedBaseField>) -> Seq<int> {
    Seq::new(16 * data.len(), |i: int| data[i / 16][i % 16] as int)
}

/// Every lane of the vector is a canonical field element.
pub open spec fn vec_wf(v: PackedBaseField) -> bool {
    forall|j: int| 0 <= j < 16 ==> (#[trigger] v[j]) < P
}

/// Every lane of every vector is a canonical field element.
pub open spec fn lanes_wf(data: Seq<PackedBaseField>) -> bool {
    forall|u: int| 0 <= u < data.len() ==> vec_wf(#[trigger] data[u])
}

/// The twiddles `off .. off + count` of a layer stored doubled.
pub open spec fn layer_twiddles(tw: Seq<u32>, off: int, count: nat) -> Seq<int> {
    Seq::new(count, |h: int| (tw[off + h] / 2) as int)
}

/// The stored twiddles `off .. off + count` halve to canonical field
/// elements.
pub open spec fn twiddles_wf(tw: Seq<u32>, off: int, count: nat) -> bool {
    &&& 0 <= off
    &&& off + count <= tw.len()
    &&& forall|h: int| off <= h < off + count ==> (#[trigger] tw[h]) / 2 < P
}

/// The first output of a butterfly on `(a, b)` with twiddle `t`.
pub open spec fn pair_lo(a: int, b: int, t: int, inverse: bool) -> int {
    if inverse {
        fp(a + b)
    } else {
        fp(a + t * b)
    }
}

/// The second output of a butterfly on `(a, b)` with twiddle `t`.
pub open spec fn pair_hi(a: int, b: int, t: int, inverse: bool) -> int {
    if inverse {
        fp((a - b) * t)
    } else {
        fp(a - t * b)
    }
}

/// Entry `i` after the butterflies of layer `l`, forward or inverse.
pub open spec fn layer_at(v: Seq<int>, l: nat, tl: Seq<int>, i: int, inverse: bool) -> int {
    if inverse {
        inv_at(v, l, tl, i)
    } else {
        fwd_at(v, l, tl, i)
    }
}

/// One butterfly layer, forward or inverse.
pub open spec fn layer_spec(v: Seq<int>, l: nat, tl: Seq<int>, inverse: bool) -> Seq<int> {
    Seq::new(v.len(), |i: int| layer_at(v, l, tl, i, inverse))
}

/// The first output of a butterfly.
pub fn butterfly_lo(a: u32, b: u32, t: u32, inverse: bool) -> (r: u32)
    requires
        a < P,
        b < P,
        t < P,
    ensures
        r < P,
        r as int == pair_lo(a as int, b as int, t as int, inverse),
{
    if inverse {
        add_mod(a, b)
    } else {
        proof {
            lemma_fp_add(a as int, t * b);
        }
        add_mod(a, mul_mod(t, b))
    }
}

/// The second output of a butterfly.
pub fn butterfly_hi(a: u32, b: u32, t: u32, inverse: bool) -> (r: u32)
    requires
        a < P,
        b < P,
        t < P,
    ensures
        r < P,
        r as int == pair_hi(a as int, b as int, t as int, inverse),
{
    if inverse {
        proof {
            lemma_fp_mul(a - b, t as int);
        }
        mul_mod(sub_mod(a, b), t)
    } else {
        proof {
            lemma_fp_add(a as int, t * b);
        }
        sub_mod(a, mul_mod(t, b))
    }
}

/// Butterflies between the lanes of two vectors, all with one twiddle.
pub fn avx_butterfly(
    val0: PackedBaseField,
    val1: PackedBaseField,
    t: u32,
    inverse: bool,
) -> (r: (PackedBaseField, PackedBaseField))
    requires
        vec_wf(val0),
        vec_wf(val1),
        t < P,
    ensures
        vec_wf(r.0),
        vec_wf(r.1),
        forall|j: int|
            0 <= j < 16 ==> (#[trigger] r.0[j]) as int == pair_lo(
                val0[j] as int,
                val1[j] as int,
                t as int,
                inverse,
            ),
        forall|j: int|
            0 <= j < 16 ==> (#[trigger] r.1[j]) as int == pair_hi(
                val0[j] as int,
                val1[j] as int,
                t as int,
                inverse,
            ),
{
    let mut x: PackedBaseField = val0;
    let mut y: PackedBaseField = val1;
    let mut j: usize = 0;
    while j < 16
        invariant
            j <= 16,
            t < P,
            vec_wf(val0),
            vec_wf(val1),
            vec_wf(x),
            vec_wf(y),
            forall|k: int|
                0 <= k < j ==> (#[trigger] x[k]) as int == pair_lo(
                    val0[k] as int,
                    val1[k] as int,
                    t as int,
                    inverse,
                ),
            forall|k: int|
                0 <= k < j ==> (#[trigger] y[k]) as int == pair_hi(
                    val0[k] as int,
                    val1[k] as int,
                    t as int,
                    inverse,
                ),
        decreases 16 - j,
    {
        let a: u32 = val0[j];
        let b: u32 = val1[j];
        x[j] = butterfly_lo(a, b, t, inverse);
        y[j] = butterfly_hi(a, b, t, inverse);
        j = j + 1;
    }
    (x, y)
}

/// Lane `j` after the butterflies of layer `l < 4` within one vector whose
/// twiddles start at `base`.
pub open spec fn lane_at(
    val: PackedBaseField,
    l: nat,
    tw: Seq<u32>,
    base: int,
    j: int,
    inverse: bool,
) -> int {
    let hf = pow2(l) as int;
    let q = j / hf;
    let t = (tw[base + q / 2] / 2) as int;
    if q % 2 == 0 {
        pair_lo(val[j] as int, val[j + hf] as int, t, inverse)
    } else {
        pair_hi(val[j - hf] as int, val[j] as int, t, inverse)
    }
}

/// Index facts about lane `j` of vector `w` in a layer `l < 4`.
#[verifier::rlimit(50)]
pub proof fn lemma_vecwise_index(w: int, j: int, l: nat)
    requires
        l < 4,
        0 <= w,
        0 <= j < 16,
    ensures
        ({
            let hf = pow2(l) as int;
            let per = pow2((3 - l) as nat) as int;
            let q = j / hf;
            let i = 16 * w + j;
            &&& hf > 0
            &&& per > 0
            &&& 0 <= q / 2 < per
            &&& (i / hf) / 2 == per * w + q / 2
            &&& (i / hf) % 2 == q % 2
            &&& (q % 2 == 0 ==> j + hf < 16)
            &&& (q % 2 != 0 ==> j - hf >= 0)
        }),
{
    lemma2_to64();
    let hf = pow2(l) as int;
    let per = pow2((3 - l) as nat) as int;
    let q = j / hf;
    let i = 16 * w + j;
    if l == 0 {
        assert(hf == 1 && per == 8);
        lemma_div_one(j, hf);
        lemma_div_one(i, hf);
        assert(per * w == 8 * w) by (nonlinear_arith)
            requires
                per == 8,
        ;
        assert(q == j);
        assert(i / hf == 16 * w + q);
        lemma_half_shift(8 * w, q);
        assert((i / hf) / 2 == 8 * w + q / 2);
        assert((i / hf) % 2 == q % 2);
        assert(0 <= q / 2 < per);
        assert(q % 2 == 0 ==> j + hf < 16);
        assert(q % 2 != 0 ==> j - hf >= 0);
    } else if l == 1 {
        assert(hf == 2 && per == 4);
        lemma_div_known(j, hf, 2);
        lemma_div_known(i, hf, 2);
        assert(per * w == 4 * w) by (nonlinear_arith)
            requires
                per == 4,
        ;
        assert(q == j / 2);
        assert(i / hf == 8 * w + q);
        lemma_half_shift(4 * w, q);
        assert((i / hf) / 2 == 4 * w + q / 2);
        assert((i / hf) % 2 == q % 2);
        assert(0 <= q / 2 < per);
        assert(q % 2 == 0 ==> j + hf < 16);
        assert(q % 2 != 0 ==> j - hf >= 0);
    } else if l == 2 {
        assert(hf == 4 && per == 2);
        lemma_div_known(j, hf, 4);
        lemma_div_known(i, hf, 4);
        assert(per * w == 2 * w) by (nonlinear_arith)
            requires
                per == 2,
        ;
        assert(q == j / 4);
        assert(i / hf == 4 * w + q);
        lemma_half_shift(2 * w, q);
        assert((i / hf) / 2 == 2 * w + q / 2);
        assert((i / hf) % 2 == q % 2);
        assert(0 <= q / 2 < per);
        assert(q % 2 == 0 ==> j + hf < 16);
        assert(q % 2 != 0 ==> j - hf >= 0);
    } else {
        assert(hf == 8 && per == 1);
        lemma_div_known(j, hf, 8);
        lemma_div_known(i, hf, 8);
        assert(per * w == w) by (nonlinear_arith)
            requires
                per == 1,
        ;
        assert(q == j / 8);
        assert(i / hf == 2 * w + q);
        lemma_half_shift(1 * w, q);
        assert((i / hf) / 2 == 1 * w + q / 2);
        assert((i / hf) % 2 == q % 2);
        assert(0 <= q / 2 < per);
        assert(q % 2 == 0 ==> j + hf < 16);
        assert(q % 2 != 0 ==> j - hf >= 0);
    }
}

/// The butterflies of layer `l < 4`, which pair lanes of one vector.
pub fn vecwise_butterflies(
    val: PackedBaseField,
    l: u32,
    tw: &Vec<u32>,
    base: usize,
    inverse: bool,
) -> (r: PackedBaseField)
    requires
        l < 4,
        vec_wf(val),
        twiddles_wf(tw@, base as int, pow2((3 - l) as nat)),
    ensures
        vec_wf(r),
        forall|j: int|
            0 <= j < 16 ==> (#[trigger] r[j]) as int == lane_at(
                val,
                l as nat,
                tw@,
                base as int,
                j,
                inverse,
            ),
{
    let hf: usize = pow2_usize(l);
    let tlen: usize = tw.len();
    let mut out: PackedBaseField = val;
    let mut j: usize = 0;
    while j < 16
        invariant
            j <= 16,
            l < 4,
            hf == pow2(l as nat),
            vec_wf(val),
            vec_wf(out),
            tw.len() == tlen,
            twiddles_wf(tw@, base as int, pow2((3 - l) as nat)),
            forall|k: int|
                0 <= k < j ==> (#[trigger] out[k]) as int == lane_at(
                    val,
                    l as nat,
                    tw@,
                    base as int,
                    k,
                    inverse,
                ),
        decreases 16 - j,
    {
        proof {
            lemma_vecwise_index(0, j as int, l as nat);
        }
        let q: usize = j / hf;
        let t: u32 = tw[base + q / 2] / 2;
        if q % 2 == 0 {
            out[j] = butterfly_lo(val[j], val[j + hf], t, inverse);
        } else {
            out[j] = butterfly_hi(val[j - hf], val[j], t, inverse);
        }
        j = j + 1;
    }
    out
}

/// Flat positions and vector indices in a layer `l >= 4`.
pub proof fn lemma_lane_index(u: int, j: int, l: nat)
    requires
        l >= 4,
        0 <= u,
        0 <= j < 16,
    ensures
        pow2(l) == 16 * pow2((l - 4) as nat),
        (16 * u + j) / (pow2(l) as int) == u / (pow2((l - 4) as nat) as int),
        (16 * u + j) / 16 == u,
        (16 * u + j) % 16 == j,
{
    lemma2_to64();
    lemma_pow2_sum(4, (l - 4) as nat);
    let hwv = pow2((l - 4) as nat) as int;
    lemma_div_denominator(16 * u + j, 16, hwv);
}

/// The butterflies of layer `l >= 4`, which pair whole vectors, on a column
/// of `2^f` elements with the layer's twiddles at `off ..`.
#[verifier::rlimit(50)]
pub fn layer_across(
    values: &mut Vec<PackedBaseField>,
    l: u32,
    tw: &Vec<u32>,
    off: usize,
    f: u32,
    inverse: bool,
)
    requires
        4 <= l < f <= 30,
        old(values).len() * 16 == pow2(f as nat),
        lanes_wf(old(values)@),
        twiddles_wf(tw@, off as int, pow2((f - 1 - l) as nat)),
    ensures
        final(values).len() == old(values).len(),
        lanes_wf(final(values)@),
        flat(final(values)@) == layer_spec(
            flat(old(values)@),
            l as nat,
            layer_twiddles(tw@, off as int, pow2((f - 1 - l) as nat)),
            inverse,
        ),
{
    let hwv: usize = pow2_usize(l - 4);
    let blocks: usize = pow2_usize(f - 1 - l);
    let ghost d0 = values@;
    let ghost v0 = flat(d0);
    let ghost tl = layer_twiddles(tw@, off as int, pow2((f - 1 - l) as nat));
    let ghost n = values.len() as int;
    let tlen: usize = tw.len();
    proof {
        lemma2_to64();
        lemma_pow2_sum((l - 4) as nat, (f - 1 - l) as nat);
        lemma_pow2_step((f - 5) as nat);
        lemma_pow2_sum(4, (f - 4) as nat);
        assert(n == 2 * (hwv * blocks));
    }
    let mut h: usize = 0;
    while h < blocks
        invariant
            h <= blocks,
            4 <= l < f <= 30,
            hwv == pow2((l - 4) as nat),
            blocks == pow2((f - 1 - l) as nat),
            n == 2 * (hwv * blocks),
            hwv > 0,
            tw.len() == tlen,
            values.len() == n,
            d0.len() == n,
            v0 == flat(d0),
            lanes_wf(d0),
            lanes_wf(values@),
            tl == layer_twiddles(tw@, off as int, pow2((f - 1 - l) as nat)),
            twiddles_wf(tw@, off as int, pow2((f - 1 - l) as nat)),
            forall|u: int, j: int|
                0 <= u < n && 0 <= j < 16 ==> (#[trigger] values@[u][j]) as int == (if (u / (
                hwv as int)) / 2 < h {
                    layer_at(v0, l as nat, tl, 16 * u + j, inverse)
                } else {
                    d0[u][j] as int
                }),
        decreases blocks - h,
    {
        let t: u32 = tw[off + h] / 2;
        let mut k: usize = 0;
        while k < hwv
            invariant
                k <= hwv,
                h < blocks,
                4 <= l < f <= 30,
                hwv == pow2((l - 4) as nat),
                blocks == pow2((f - 1 - l) as nat),
                n == 2 * (hwv * blocks),
                hwv > 0,
                values.len() == n,
                d0.len() == n,
                v0 == flat(d0),
                lanes_wf(d0),
                lanes_wf(values@),
                t < P,
                t as int == tl[h as int],
                tl == layer_twiddles(tw@, off as int, pow2((f - 1 - l) as nat)),
                forall|u: int, j: int|
                    0 <= u < n && 0 <= j < 16 ==> (#[trigger] values@[u][j]) as int == (if (u / (
                    hwv as int)) / 2 < h || ((u / (hwv as int)) / 2 == h && u % (hwv as int) < k) {
                        layer_at(v0, l as nat, tl, 16 * u + j, inverse)
                    } else {
                        d0[u][j] as int
                    }),
            decreases hwv - k,
        {
            proof {
                assert(2 * h < n && 2 * h * hwv + k + hwv < n) by (nonlinear_arith)
                    requires
                        n == 2 * (hwv * blocks),
                        0 <= h < blocks,
                        0 <= k < hwv,
                ;
            }
            let i0: usize = 2 * h * hwv + k;
            let i1: usize = i0 + hwv;
            let ghost before = values@;
            let a: PackedBaseField = values[i0];
            let b: PackedBaseField = values[i1];
            let (x, y) = avx_butterfly(a, b, t, inverse);
            values[i0] = x;
            values[i1] = y;
            proof {
                let w = hwv as int;
                lemma_div_mod_compose(2 * h, k as int, w);
                lemma_div_mod_compose(2 * h + 1, k as int, w);
                assert(i1 == (2 * h + 1) * w + k) by (nonlinear_arith)
                    requires
                        i1 == 2 * h * w + k + w,
                ;
                assert(i0 == (2 * h) * w + k);
                assert forall|u: int, j: int| 0 <= u < n && 0 <= j < 16 implies (
                #[trigger] values@[u][j]) as int == (if (u / w) / 2 < h || ((u / w) / 2 == h && u
                    % w < k + 1) {
                    layer_at(v0, l as nat, tl, 16 * u + j, inverse)
                } else {
                    d0[u][j] as int
                }) by {
                    lemma_div_mod_split(u, w);
                    if u == i0 {
                        lemma_lane_index(u, j, l as nat);
                        lemma_lane_index(i1 as int, j, l as nat);
                        assert(before[i0 as int][j] == d0[i0 as int][j]);
                        assert(before[i1 as int][j] == d0[i1 as int][j]);
                        assert(v0[16 * u + j] == d0[u][j] as int);
                        assert(v0[16 * (i1 as int) + j] == d0[i1 as int][j] as int);
                    } else if u == i1 {
                        lemma_lane_index(u, j, l as nat);
                        lemma_lane_index(i0 as int, j, l as nat);
                        assert(before[i0 as int][j] == d0[i0 as int][j]);
                        assert(before[i1 as int][j] == d0[i1 as int][j]);
                        assert(v0[16 * u + j] == d0[u][j] as int);
                        assert(v0[16 * (i0 as int) + j] == d0[i0 as int][j] as int);
                    } else {
                        assert(values@[u] == before[u]);
                        if (u / w) / 2 == h && u % w == k {
                            assert(u / w == 2 * h || u / w == 2 * h + 1);
                            assert(false);
                        }
                    }
                }
                assert(lanes_wf(values@)) by {
                    assert forall|u: int| 0 <= u < values@.len() implies vec_wf(
                        #[trigger] values@[u],
                    ) by {
                        if u != i0 && u != i1 {
                            assert(values@[u] == before[u]);
                        }
                    }
                }
            }
            k = k + 1;
        }
        proof {
            let w = hwv as int;
            assert forall|u: int, j: int| 0 <= u < n && 0 <= j < 16 implies (
            #[trigger] values@[u][j]) as int == (if (u / w) / 2 < h + 1 {
                layer_at(v0, l as nat, tl, 16 * u + j, inverse)
            } else {
                d0[u][j] as int
            }) by {
                lemma_div_mod_split(u, w);
            }
        }
        h = h + 1;
    }
    proof {
        let w = hwv as int;
        let target = layer_spec(v0, l as nat, tl, inverse);
        assert forall|i: int| 0 <= i < 16 * n implies flat(values@)[i] == target[i] by {
            let u = i / 16;
            let j = i % 16;
            lemma_div_mod_split(u, w);
            assert((u / w) / 2 < blocks) by (nonlinear_arith)
                requires
                    u == (u / w) * w + u % w,
                    0 <= u % w,
                    u < 2 * (w * blocks),
                    w > 0,
            ;
            assert(values@[u][j] as int == layer_at(v0, l as nat, tl, 16 * u + j, inverse));
        }
        assert(flat(values@) =~= target);
    }
}

/// The butterflies of layer `l < 4`, within each vector, on a column of
/// `2^f` elements with the layer's twiddles at `off ..`.
#[verifier::rlimit(50)]
pub fn layer_vecwise(
    values: &mut Vec<PackedBaseField>,
    l: u32,
    tw: &Vec<u32>,
    off: usize,
    f: u32,
    inverse: bool,
)
    requires
        l < 4 <= f <= 30,
        old(values).len() * 16 == pow2(f as nat),
        lanes_wf(old(values)@),
        twiddles_wf(tw@, off as int, pow2((f - 1 - l) as nat)),
    ensures
        final(values).len() == old(values).len(),
        lanes_wf(final(values)@),
        flat(final(values)@) == layer_spec(
            flat(old(values)@),
            l as nat,
            layer_twiddles(tw@, off as int, pow2((f - 1 - l) as nat)),
            inverse,
        ),
{
    let per: usize = pow2_usize(3 - l);
    let n: usize = values.len();
    let ghost d0 = values@;
    let ghost v0 = flat(d0);
    let ghost count = pow2((f - 1 - l) as nat);
    let ghost tl = layer_twiddles(tw@, off as int, count);
    let tlen: usize = tw.len();
    proof {
        lemma2_to64();
        lemma_pow2_sum((3 - l) as nat, (f - 4) as nat);
        lemma_pow2_sum(4, (f - 4) as nat);
        assert(count == per * n);
    }
    let mut u: usize = 0;
    while u < n
        invariant
            u <= n,
            l < 4 <= f <= 30,
            per == pow2((3 - l) as nat),
            per > 0,
            tw.len() == tlen,
            count == per * n,
            count == pow2((f - 1 - l) as nat),
            values.len() == n,
            d0.len() == n,
            v0 == flat(d0),
            lanes_wf(d0),
            lanes_wf(values@),
            tl == layer_twiddles(tw@, off as int, count),
            twiddles_wf(tw@, off as int, count),
            forall|w: int, j: int|
                0 <= w < n && 0 <= j < 16 ==> (#[trigger] values@[w][j]) as int == (if w < u {
                    layer_at(v0, l as nat, tl, 16 * w + j, inverse)
                } else {
                    d0[w][j] as int
                }),
        decreases n - u,
    {
        proof {
            assert(0 <= per * u && per * u + per <= per * n) by (nonlinear_arith)
                requires
                    0 <= u < n,
                    per > 0,
            ;
        }
        let base: usize = off + per * u;
        let ghost before = values@;
        let val: PackedBaseField = values[u];
        let r: PackedBaseField = vecwise_butterflies(val, l, tw, base, inverse);
        values[u] = r;
        proof {
            assert forall|w: int, j: int| 0 <= w < n && 0 <= j < 16 implies (
            #[trigger] values@[w][j]) as int == (if w < u + 1 {
                layer_at(v0, l as nat, tl, 16 * w + j, inverse)
            } else {
                d0[w][j] as int
            }) by {
                if w == u {
                    let hf = pow2(l as nat) as int;
                    let q = j / hf;
                    assert(before[w] == d0[w]);
                    assert(r[j] as int == lane_at(val, l as nat, tw@, base as int, j, inverse));
                    let i = 16 * w + j;
                    lemma_vecwise_index(w, j, l as nat);
                    assert(per * u == per * w);
                    assert(tl[(i / hf) / 2] == (tw@[base + q / 2] / 2) as int);
                    if q % 2 == 0 {
                        assert(v0[i] == d0[w][j] as int);
                        assert(v0[i + hf] == d0[w][j + hf] as int);
                    } else {
                        assert(v0[i] == d0[w][j] as int);
                        assert(v0[i - hf] == d0[w][j - hf] as int);
                    }
                } else {
                    assert(values@[w] == before[w]);
                }
            }
            assert(lanes_wf(values@)) by {
                assert forall|w: int| 0 <= w < values@.len() implies vec_wf(
                    #[trigger] values@[w],
                ) by {
                    if w != u {
                        assert(values@[w] == before[w]);
                    }
                }
            }
        }
        u = u + 1;
    }
    proof {
        let target = layer_spec(v0, l as nat, tl, inverse);
        assert forall|i: int| 0 <= i < 16 * n implies flat(values@)[i] == target[i] by {
            let w = i / 16;
            let j = i % 16;
            assert(values@[w][j] as int == layer_at(v0, l as nat, tl, 16 * w + j, inverse));
        }
        assert(flat(values@) =~= target);
    }
}

} // verus!
