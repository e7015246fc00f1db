//! The twiddle tables of a circle domain, and what their entries are.
use crate::circle::{
    circle_order, double_x, lemma_point_at_double, lemma_point_at_half_turn, lemma_point_at_neg,
    lemma_point_at_nonzero, lemma_point_at_on_circle, lemma_point_at_periodic, on_circle, point_at,
    Pt,
};
use crate::circle::lemma_point_at_add;
use crate::domain::{CircleDomain, Coset};
use crate::fields::m31::{fp, is_fp, M31, P};
use crate::point::CirclePoint;
use crate::utils::{
    bit_rev, bit_reverse, lemma_bit_rev_bound, lemma_bit_rev_concat, lemma_bit_rev_involution,
    lemma_div_mod_split, lemma_pow2_step, lemma_pow2_sum, pow2_usize,
};
use vstd::arithmetic::div_mod::*;
use vstd::arithmetic::power2::*;
use vstd::prelude::*;

verus! {

/// The doubling map of the x coordinate, applied `k` times.
pub open spec fn dbl_iter(x: int, k: nat) -> int
    decreases k,
{
    if k == 0 {
        x
    } else {
        double_x(dbl_iter(x, (k - 1) as nat))
    }
}

/// The value that layer `l` of a transform assigns to a point: its y
/// coordinate for the first layer, then its x coordinate, then the x
/// coordinate doubled `l - 1` times.
pub open spec fn layer_factor(p: Pt, l: nat) -> int {
    if l == 0 {
        p.y
    } else {
        dbl_iter(p.x, (l - 1) as nat)
    }
}

/// The index of the point that gives twiddle `h` of layer `l`: point
/// `bit_rev(h)` of the half coset, doubled `l - 1` times.
pub open spec fn twiddle_index(d: CircleDomain, l: nat, h: int) -> int {
    let hl = d.half_coset.log_size as nat;
    let base = d.half_coset.index_at_spec(bit_rev(h as nat, (hl - l) as nat) as int);
    if l == 0 {
        base
    } else {
        pow2((l - 1) as nat) * base
    }
}

/// Twiddle `h` of layer `l` of the domain: a y coordinate in the first
/// layer and an x coordinate in the others.
pub open spec fn twiddle_spec(d: CircleDomain, l: nat, h: int) -> int {
    let p = point_at(twiddle_index(d, l, h));
    if l == 0 {
        p.y
    } else {
        p.x
    }
}

/// Doubling the x coordinate `k` times is multiplying the index by `2^k`.
pub proof fn lemma_dbl_iter(a: int, k: nat)
    ensures
        dbl_iter(point_at(a).x, k) == point_at(pow2(k) * a).x,
    decreases k,
{
    lemma2_to64();
    if k == 0 {
        assert(pow2(0) * a == a);
    } else {
        let k1: nat = (k - 1) as nat;
        lemma_dbl_iter(a, k1);
        lemma_pow2_step(k1);
        lemma_point_at_double(pow2(k1) * a);
        assert(2 * (pow2(k1) * a) == pow2(k) * a) by (nonlinear_arith)
            requires
                pow2(k) == 2 * pow2(k1),
        ;
    }
}

/// Every layer factor of a point of the circle is a canonical field
/// element.
pub proof fn lemma_layer_factor_fp(p: Pt, l: nat)
    requires
        on_circle(p),
    ensures
        is_fp(layer_factor(p, l)),
    decreases l,
{
    if l >= 2 {
        lemma_layer_factor_fp(p, (l - 1) as nat);
    }
}

/// The signed twiddle of a position is the layer factor of the domain point
/// at that position in bit-reversed order.
#[verifier::rlimit(50)]
pub proof fn lemma_twiddle_factor(d: CircleDomain, l: nat, i: int)
    requires
        d.wf(),
        l <= d.half_coset.log_size,
        0 <= i < pow2(d.log_size_spec()),
    ensures
        ({
            let q = i / (pow2(l) as int);
            let t = twiddle_spec(d, l, q / 2);
            let p = d.at_spec(bit_rev(i as nat, d.log_size_spec()) as int);
            &&& on_circle(p)
            &&& layer_factor(p, l) == fp(
                if q % 2 == 0 {
                    t
                } else {
                    -t
                },
            )
        }),
{
    let hl = d.half_coset.log_size as nat;
    let n = hl + 1;
    let a0 = d.half_coset.initial_index.0 as int;
    let st = pow2((31 - hl) as nat) as int;
    let i1 = i / 2;
    let b0 = i % 2;
    let jp = bit_rev(i1 as nat, hl) as int;
    let half = pow2(hl) as int;
    lemma2_to64();
    lemma_pow2_step(hl);
    assert(bit_rev(i as nat, n) == (i as nat % 2) * pow2(hl) + bit_rev((i as nat) / 2, hl));
    lemma_bit_rev_bound(i1 as nat, hl);
    let base = a0 + jp * st;
    let j = bit_rev(i as nat, n) as int;
    let p = d.at_spec(j);
    assert(b0 * half == (if b0 == 0 {
        0
    } else {
        half
    })) by (nonlinear_arith)
        requires
            b0 == 0 || b0 == 1,
    ;
    assert(d.index_at_spec(j) == (if b0 == 0 {
        base
    } else {
        -base
    }));
    lemma_point_at_neg(base);
    lemma_point_at_on_circle(base);
    lemma_point_at_on_circle(-base);
    let pb = point_at(base);
    if l == 0 {
        lemma_div_mod_split(i, 1);
        assert(i / 1 == i);
        assert(twiddle_index(d, 0, i1) == base);
    } else {
        let l1: nat = (l - 1) as nat;
        let w = pow2(l1) as int;
        let q = i / (pow2(l) as int);
        let h = q / 2;
        let s = q % 2;
        lemma_pow2_step(l1);
        lemma_pow2_pos(l1);
        assert(p.x == pb.x);
        lemma_dbl_iter(base, l1);
        lemma_div_denominator(i, 2, w);
        assert(pow2(l) as int == 2 * w);
        assert(i1 / w == q);
        let low = i1 % w;
        lemma_div_mod_split(i1, w);
        assert(i1 == q * w + low);
        lemma_bit_rev_concat(q as nat, low as nat, l1, hl);
        let m1: nat = (hl - l1) as nat;
        let m0: nat = (hl - l) as nat;
        assert(bit_rev(q as nat, m1) == (q as nat % 2) * pow2(m0) + bit_rev((q as nat) / 2, m0));
        let bl = bit_rev(low as nat, l1) as int;
        let rr = bit_rev(h as nat, m0) as int;
        assert(jp == bl * pow2(m1) + s * pow2(m0) + rr);
        lemma_pow2_sum(l1, m1);
        lemma_pow2_sum(l1 + m1, (31 - hl) as nat);
        lemma_pow2_sum(l1, m0);
        lemma_pow2_sum(l1 + m0, (31 - hl) as nat);
        let e1 = pow2(m1) as int;
        let e0 = pow2(m0) as int;
        assert(w * e1 * st == 2147483648) by (nonlinear_arith)
            requires
                pow2(l1 + m1) == w * e1,
                pow2(l1 + m1) * st == 2147483648,
        ;
        assert(w * e0 * st == 1073741824) by (nonlinear_arith)
            requires
                pow2(l1 + m0) == w * e0,
                pow2(l1 + m0) * st == 1073741824,
        ;
        let tidx = w * (a0 + rr * st);
        assert(twiddle_index(d, l, h) == tidx);
        assert(w * base == tidx + s * 1073741824 + bl * 2147483648) by (nonlinear_arith)
            requires
                base == a0 + jp * st,
                jp == bl * e1 + s * e0 + rr,
                tidx == w * (a0 + rr * st),
                w * e1 * st == 2147483648,
                w * e0 * st == 1073741824,
        ;
        lemma_point_at_periodic(tidx + s * 1073741824, bl);
        lemma_point_at_on_circle(tidx);
        if s == 1 {
            lemma_point_at_half_turn(tidx);
        }
    }
}

/// On a domain whose half coset avoids its mirror image, no twiddle is
/// zero.
#[verifier::rlimit(50)]
pub proof fn lemma_twiddle_nonzero(d: CircleDomain, l: nat, h: int)
    requires
        d.wf(),
        d.is_fft_domain(),
        1 <= d.half_coset.log_size,
        l <= d.half_coset.log_size,
    ensures
        twiddle_spec(d, l, h) != 0,
{
    let hl = d.half_coset.log_size as nat;
    let a0 = d.half_coset.initial_index.0 as int;
    let st = pow2((31 - hl) as nat) as int;
    let e = pow2((30 - hl) as nat) as int;
    let rr = bit_rev(h as nat, (hl - l) as nat) as int;
    let base = a0 + rr * st;
    lemma2_to64();
    lemma_pow2_step((30 - hl) as nat);
    assert(base == e * (2 * rr) + a0) by (nonlinear_arith)
        requires
            base == a0 + rr * st,
            st == 2 * e,
    ;
    lemma_mod_multiples_vanish(2 * rr, a0, e);
    assert(base % e != 0);
    let idx = twiddle_index(d, l, h);
    if idx % 536870912 == 0 {
        if l == 0 {
            let g = pow2((hl - 1) as nat) as int;
            lemma_pow2_sum((30 - hl) as nat, (hl - 1) as nat);
            assert(e * g == 536870912);
            lemma_mod_mod(base, e, g);
            assert(idx == base);
            assert(base % (e * g) == 0);
            assert(0int % e == 0);
            assert(false);
        } else {
            let l1: nat = (l - 1) as nat;
            let w = pow2(l1) as int;
            let c = pow2((29 - l1) as nat) as int;
            lemma_pow2_sum(l1, (29 - l1) as nat);
            assert(w * c == 536870912);
            assert(base >= 0) by (nonlinear_arith)
                requires
                    base == a0 + rr * st,
                    a0 >= 0,
                    rr >= 0,
                    st >= 0,
            ;
            lemma_truncate_middle(base, w, c);
            assert(idx == w * base);
            assert(w * (base % c) == 0);
            assert(base % c == 0) by (nonlinear_arith)
                requires
                    w * (base % c) == 0,
                    w > 0,
            ;
            let g = pow2((hl - l) as nat) as int;
            lemma_pow2_sum((30 - hl) as nat, (hl - l) as nat);
            assert(e * g == c);
            lemma_mod_mod(base, e, g);
            assert(base % (e * g) == 0);
            assert(0int % e == 0);
            assert(false);
        }
    }
    lemma_point_at_nonzero(idx);
}

/// What a stored entry says of the twiddle `t` it stands for: the entry is
/// twice a canonical field element, which is `t` in a forward table and the
/// inverse of `t` in an inverse table.
pub open spec fn entry_ok(entry: u32, t: int, inverse: bool) -> bool {
    &&& entry % 2 == 0
    &&& entry / 2 < P
    &&& if inverse {
        fp((entry / 2) * t) == 1
    } else {
        entry / 2 == t
    }
}

/// The table has one layer for each layer of a transform on the domain,
/// layer `l` with `2^(n - 1 - l)` entries, each standing for its twiddle.
pub open spec fn is_table(tw: Seq<Vec<u32>>, d: CircleDomain, inverse: bool) -> bool {
    let n = d.log_size_spec();
    &&& tw.len() == n
    &&& forall|l: int| 0 <= l < n ==> (#[trigger] tw[l]).len() == pow2((n - 1 - l) as nat)
    &&& forall|l: int, h: int|
        0 <= l < n && 0 <= h < pow2((n - 1 - l) as nat) ==> entry_ok(
            #[trigger] tw[l]@[h],
            twiddle_spec(d, l as nat, h),
            inverse,
        )
}

/// The forward twiddle table of the domain.
pub open spec fn is_twiddle_table(tw: Seq<Vec<u32>>, d: CircleDomain) -> bool {
    is_table(tw, d, false)
}

/// The inverse twiddle table of the domain.
pub open spec fn is_itwiddle_table(tw: Seq<Vec<u32>>, d: CircleDomain) -> bool {
    is_table(tw, d, true)
}

/// The coordinate of a point that a layer takes.
pub open spec fn coord(p: Pt, use_y: bool) -> int {
    if use_y {
        p.y
    } else {
        p.x
    }
}

/// The half coset of the domain doubled `l - 1` times holds the doubles of
/// its points.
pub proof fn lemma_doubled_coset(d: CircleDomain, c: Coset, l: nat, j: int)
    requires
        d.wf(),
        c.wf(),
        1 <= l <= d.half_coset.log_size,
        c.log_size == d.half_coset.log_size - (l - 1),
        c.initial_index.0 as int == (pow2((l - 1) as nat) * d.half_coset.initial_index.0)
            % circle_order(),
    ensures
        c.at_spec(j) == point_at(pow2((l - 1) as nat) * d.half_coset.index_at_spec(j)),
{
    let hl = d.half_coset.log_size as nat;
    let l1: nat = (l - 1) as nat;
    let w = pow2(l1) as int;
    let a0 = d.half_coset.initial_index.0 as int;
    let st = pow2((31 - hl) as nat) as int;
    lemma_pow2_sum(l1, (31 - hl) as nat);
    assert(c.step_spec() == w * st);
    let x = w * a0;
    lemma_fundamental_div_mod(x, circle_order());
    let k = x / circle_order();
    assert(w * (a0 + j * st) == c.index_at_spec(j) + k * circle_order()) by (nonlinear_arith)
        requires
            c.index_at_spec(j) == x % circle_order() + j * (w * st),
            x == w * a0,
            x == circle_order() * k + x % circle_order(),
    ;
    lemma_point_at_periodic(c.index_at_spec(j), k);
}

/// The chosen coordinate of the first `count` points of the coset, or its
/// inverse, each stored doubled.
#[verifier::rlimit(50)]
pub fn coset_layer(coset: &Coset, count: usize, use_y: bool, inverse: bool) -> (r: Vec<u32>)
    requires
        coset.wf(),
        inverse ==> forall|j: int| 0 <= j < count ==> coord(#[trigger] coset.at_spec(j), use_y) != 0,
    ensures
        r.len() == count,
        forall|j: int|
            0 <= j < count ==> entry_ok(#[trigger] r@[j], coord(coset.at_spec(j), use_y), inverse),
{
    let mut out: Vec<u32> = Vec::with_capacity(count);
    let mut p: CirclePoint<M31> = coset.initial;
    let mut j: usize = 0;
    proof {
        assert(0 * coset.step_spec() == 0);
        lemma_point_at_on_circle(coset.initial_index.0 as int);
    }
    while j < count
        invariant
            j <= count,
            coset.wf(),
            p.wf(),
            p.pt() == coset.at_spec(j as int),
            out.len() == j,
            inverse ==> forall|k: int|
                0 <= k < count ==> coord(#[trigger] coset.at_spec(k), use_y) != 0,
            forall|k: int|
                0 <= k < j ==> entry_ok(
                    #[trigger] out@[k],
                    coord(coset.at_spec(k), use_y),
                    inverse,
                ),
        decreases count - j,
    {
        let c: M31 = if use_y {
            p.y
        } else {
            p.x
        };
        proof {
            assert(c@ == coord(coset.at_spec(j as int), use_y));
        }
        let v: M31 = if inverse {
            c.inverse()
        } else {
            c
        };
        proof {
            assert(v@ * c@ == c@ * v@) by (nonlinear_arith);
        }
        out.push(v.0 * 2);
        proof {
            let idx = coset.index_at_spec(j as int);
            lemma_point_at_add(idx, coset.step_size.0 as int);
            lemma_point_at_add(idx, coset.step_spec());
            assert(point_at(coset.step_spec()) == point_at(coset.step_size.0 as int));
            assert((j + 1) * coset.step_spec() == j * coset.step_spec() + coset.step_spec())
                by (nonlinear_arith);
            lemma_point_at_on_circle(coset.step_size.0 as int);
        }
        p = p.add(coset.step);
        j = j + 1;
    }
    out
}

/// The twiddle table of the domain, forward or inverse.
#[verifier::rlimit(50)]
pub fn twiddle_table(domain: CircleDomain, inverse: bool) -> (res: Vec<Vec<u32>>)
    requires
        domain.wf(),
        domain.half_coset.log_size >= 1,
        inverse ==> domain.is_fft_domain(),
    ensures
        is_table(res@, domain, inverse),
{
    let hl: u32 = domain.half_coset.log_size;
    let ghost a0 = domain.half_coset.initial_index.0 as int;
    let mut res: Vec<Vec<u32>> = Vec::new();
    let half_size: usize = pow2_usize(hl);
    proof {
        lemma2_to64();
        if inverse {
            assert forall|j: int| 0 <= j < half_size implies coord(
                #[trigger] domain.half_coset.at_spec(j),
                true,
            ) != 0 by {
                let h = bit_rev(j as nat, hl as nat) as int;
                lemma_bit_rev_involution(j as nat, hl as nat);
                lemma_twiddle_nonzero(domain, 0, h);
            }
        }
    }
    let mut layer0: Vec<u32> = coset_layer(&domain.half_coset, half_size, true, inverse);
    let ghost pre0 = layer0@;
    bit_reverse(&mut layer0, hl);
    proof {
        assert forall|h: int| 0 <= h < half_size implies entry_ok(
            #[trigger] layer0@[h],
            twiddle_spec(domain, 0, h),
            inverse,
        ) by {
            lemma_bit_rev_bound(h as nat, hl as nat);
        }
    }
    res.push(layer0);
    let mut coset: Coset = domain.half_coset;
    let mut l: u32 = 1;
    proof {
        assert(pow2(0) * a0 == a0);
    }
    while l <= hl
        invariant
            1 <= l <= hl + 1,
            hl == domain.half_coset.log_size,
            a0 == domain.half_coset.initial_index.0 as int,
            domain.wf(),
            inverse ==> domain.is_fft_domain(),
            coset.wf(),
            l <= hl ==> coset.log_size == hl - (l - 1),
            l <= hl ==> coset.initial_index.0 as int == (pow2((l - 1) as nat) * a0) % circle_order(),
            res.len() == l,
            forall|k: int| 0 <= k < l ==> (#[trigger] res@[k]).len() == pow2((hl - k) as nat),
            forall|k: int, h: int|
                0 <= k < l && 0 <= h < pow2((hl - k) as nat) ==> entry_ok(
                    #[trigger] res@[k]@[h],
                    twiddle_spec(domain, k as nat, h),
                    inverse,
                ),
        decreases hl + 1 - l,
    {
        let count: usize = pow2_usize(hl - l);
        proof {
            if inverse {
                assert forall|j: int| 0 <= j < count implies coord(
                    #[trigger] coset.at_spec(j),
                    false,
                ) != 0 by {
                    let h = bit_rev(j as nat, (hl - l) as nat) as int;
                    lemma_bit_rev_involution(j as nat, (hl - l) as nat);
                    lemma_doubled_coset(domain, coset, l as nat, j);
                    lemma_twiddle_nonzero(domain, l as nat, h);
                }
            }
        }
        let mut layer: Vec<u32> = coset_layer(&coset, count, false, inverse);
        let ghost pre = layer@;
        bit_reverse(&mut layer, hl - l);
        proof {
            assert forall|h: int| 0 <= h < count implies entry_ok(
                #[trigger] layer@[h],
                twiddle_spec(domain, l as nat, h),
                inverse,
            ) by {
                lemma_bit_rev_bound(h as nat, (hl - l) as nat);
                let j = bit_rev(h as nat, (hl - l) as nat) as int;
                lemma_doubled_coset(domain, coset, l as nat, j);
                assert(entry_ok(pre[j], coord(coset.at_spec(j), false), inverse));
            }
        }
        let ghost before = res@;
        res.push(layer);
        proof {
            assert forall|k: int, h: int|
                0 <= k < l + 1 && 0 <= h < pow2((hl - k) as nat) implies entry_ok(
                #[trigger] res@[k]@[h],
                twiddle_spec(domain, k as nat, h),
                inverse,
            ) by {
                if k < l {
                    assert(res@[k] == before[k]);
                }
            }
            assert forall|k: int| 0 <= k < l + 1 implies (#[trigger] res@[k]).len() == pow2(
                (hl - k) as nat,
            ) by {
                if k < l {
                    assert(res@[k] == before[k]);
                }
            }
        }
        if l < hl {
            let ghost c0 = coset;
            coset = coset.double();
            proof {
                let l1: nat = (l - 1) as nat;
                lemma_pow2_step(l1);
                lemma_mul_mod_noop_right(2, pow2(l1) * a0, circle_order());
                assert(2 * (pow2(l1) * a0) == pow2(l as nat) * a0) by (nonlinear_arith)
                    requires
                        pow2(l as nat) == 2 * pow2(l1),
                ;
            }
        }
        l = l + 1;
    }
    res
}

} // verus!
