//! Multilinear forms over the bits of an index, and how the transposed
//! layout of the coefficients permutes their factors.
use crate::fft::transpose::{logical_layout, tr_index, transpose_spec};
use crate::fft::CACHED_FFT_LOG_SIZE;
use crate::utils::{
    lemma_div_mod_compose, lemma_div_mod_split, lemma_pow2_le, lemma_pow2_step, lemma_pow2_sum,
};
use vstd::arithmetic::div_mod::*;
use vstd::arithmetic::power2::*;
use vstd::prelude::*;

verus! {

/// The multilinear form over the positions `lo .. lo + m`: position `k`
/// contributes the factor `t(k)` together with a move by the stride `d(k)`.
pub open spec fn mlv(
    x: spec_fn(int) -> int,
    d: spec_fn(int) -> int,
    t: spec_fn(int) -> int,
    lo: int,
    m: nat,
    off: int,
) -> int
    decreases m,
{
    if m == 0 {
        x(off)
    } else {
        mlv(x, d, t, lo, (m - 1) as nat, off) + t(lo + m - 1) * mlv(
            x,
            d,
            t,
            lo,
            (m - 1) as nat,
            off + d(lo + m - 1),
        )
    }
}

/// The form only depends on the values of the base function.
pub proof fn lemma_mlv_base(
    x: spec_fn(int) -> int,
    y: spec_fn(int) -> int,
    d: spec_fn(int) -> int,
    t: spec_fn(int) -> int,
    lo: int,
    m: nat,
    off: int,
)
    requires
        forall|o: int| #[trigger] x(o) == y(o),
    ensures
        mlv(x, d, t, lo, m, off) == mlv(y, d, t, lo, m, off),
    decreases m,
{
    if m > 0 {
        lemma_mlv_base(x, y, d, t, lo, (m - 1) as nat, off);
        lemma_mlv_base(x, y, d, t, lo, (m - 1) as nat, off + d(lo + m - 1));
    }
}

/// The form only depends on the strides and factors of its positions.
pub proof fn lemma_mlv_positions(
    x: spec_fn(int) -> int,
    d1: spec_fn(int) -> int,
    t1: spec_fn(int) -> int,
    lo1: int,
    d2: spec_fn(int) -> int,
    t2: spec_fn(int) -> int,
    lo2: int,
    m: nat,
    off: int,
)
    requires
        forall|j: int| 0 <= j < m ==> #[trigger] d1(lo1 + j) == d2(lo2 + j),
        forall|j: int| 0 <= j < m ==> #[trigger] t1(lo1 + j) == t2(lo2 + j),
    ensures
        mlv(x, d1, t1, lo1, m, off) == mlv(x, d2, t2, lo2, m, off),
    decreases m,
{
    if m > 0 {
        let j = m - 1;
        assert(d1(lo1 + j) == d2(lo2 + j));
        assert(t1(lo1 + j) == t2(lo2 + j));
        lemma_mlv_positions(x, d1, t1, lo1, d2, t2, lo2, (m - 1) as nat, off);
        lemma_mlv_positions(x, d1, t1, lo1, d2, t2, lo2, (m - 1) as nat, off + d1(lo1 + j));
    }
}

/// The form of `h = x + k x(. + delta)` is the form of `x` plus `k` times
/// the form of `x` moved by `delta`.
pub proof fn lemma_mlv_shift(
    h: spec_fn(int) -> int,
    x: spec_fn(int) -> int,
    k: int,
    delta: int,
    d: spec_fn(int) -> int,
    t: spec_fn(int) -> int,
    lo: int,
    m: nat,
    off: int,
)
    requires
        forall|o: int| #[trigger] h(o) == x(o) + k * x(o + delta),
    ensures
        mlv(h, d, t, lo, m, off) == mlv(x, d, t, lo, m, off) + k * mlv(
            x,
            d,
            t,
            lo,
            m,
            off + delta,
        ),
    decreases m,
{
    if m > 0 {
        let m1: nat = (m - 1) as nat;
        let st = d(lo + m - 1);
        let f = t(lo + m - 1);
        lemma_mlv_shift(h, x, k, delta, d, t, lo, m1, off);
        lemma_mlv_shift(h, x, k, delta, d, t, lo, m1, off + st);
        let a = mlv(x, d, t, lo, m1, off);
        let b = mlv(x, d, t, lo, m1, off + delta);
        let c = mlv(x, d, t, lo, m1, off + st);
        let e = mlv(x, d, t, lo, m1, off + st + delta);
        assert(off + delta + st == off + st + delta);
        assert((a + k * b) + f * (c + k * e) == (a + f * c) + k * (b + f * e))
            by (nonlinear_arith);
    }
}

/// Two nested forms may be exchanged.
pub proof fn lemma_mlv_exchange(
    x: spec_fn(int) -> int,
    d1: spec_fn(int) -> int,
    t1: spec_fn(int) -> int,
    lo1: int,
    m1: nat,
    d2: spec_fn(int) -> int,
    t2: spec_fn(int) -> int,
    lo2: int,
    m2: nat,
    off: int,
)
    ensures
        mlv(|o: int| mlv(x, d1, t1, lo1, m1, o), d2, t2, lo2, m2, off) == mlv(
            |o: int| mlv(x, d2, t2, lo2, m2, o),
            d1,
            t1,
            lo1,
            m1,
            off,
        ),
    decreases m2,
{
    let inner1 = |o: int| mlv(x, d1, t1, lo1, m1, o);
    let inner2 = |o: int| mlv(x, d2, t2, lo2, m2, o);
    if m2 == 0 {
        assert forall|o: int| #[trigger] inner2(o) == x(o) by {}
        lemma_mlv_base(inner2, x, d1, t1, lo1, m1, off);
    } else {
        let m: nat = (m2 - 1) as nat;
        let st = d2(lo2 + m2 - 1);
        let f = t2(lo2 + m2 - 1);
        let prev = |o: int| mlv(x, d2, t2, lo2, m, o);
        lemma_mlv_exchange(x, d1, t1, lo1, m1, d2, t2, lo2, m, off);
        lemma_mlv_exchange(x, d1, t1, lo1, m1, d2, t2, lo2, m, off + st);
        assert forall|o: int| #[trigger] inner2(o) == prev(o) + f * prev(o + st) by {}
        lemma_mlv_shift(inner2, prev, f, st, d1, t1, lo1, m1, off);
    }
}

/// A form over `m1 + m2` positions is the form over the upper `m2` of the
/// forms over the lower `m1`.
pub proof fn lemma_mlv_split(
    x: spec_fn(int) -> int,
    d: spec_fn(int) -> int,
    t: spec_fn(int) -> int,
    lo: int,
    m1: nat,
    m2: nat,
    off: int,
)
    ensures
        mlv(x, d, t, lo, m1 + m2, off) == mlv(
            |o: int| mlv(x, d, t, lo, m1, o),
            d,
            t,
            lo + m1,
            m2,
            off,
        ),
    decreases m2,
{
    if m2 > 0 {
        let m: nat = (m2 - 1) as nat;
        lemma_mlv_split(x, d, t, lo, m1, m, off);
        lemma_mlv_split(x, d, t, lo, m1, m, off + d(lo + m1 + m2 - 1));
        assert((m1 + m2 - 1) as nat == m1 + m);
    }
}

/// The multilinear form of `2^m` coefficients starting at `off`: bit `b` of
/// the index of a coefficient contributes the factor `g(b)`.
pub open spec fn ml(c: Seq<int>, g: spec_fn(int) -> int, m: nat, off: int) -> int
    decreases m,
{
    if m == 0 {
        c[off]
    } else {
        ml(c, g, (m - 1) as nat, off) + g(m - 1) * ml(
            c,
            g,
            (m - 1) as nat,
            off + pow2((m - 1) as nat),
        )
    }
}

/// Where the transposed layout of `2^n` coefficients keeps bit `k` of the
/// index: above the cached size the two halves of the vector index are
/// exchanged. The map is its own inverse.
pub open spec fn swap_bit(n: nat, k: int) -> int {
    let n0 = (n - 4) / 2;
    let n1 = n - 4 - n0;
    if n <= CACHED_FFT_LOG_SIZE || k < 4 {
        k
    } else if k < 4 + n0 {
        k + n1
    } else if k < 4 + n1 {
        k
    } else {
        k - n1
    }
}

/// The stride of index bit `k`.
pub open spec fn bit_stride(k: int) -> int {
    pow2(k as nat) as int
}

/// The form of a sequence is the form of its index function over the bits.
pub proof fn lemma_ml_mlv(c: Seq<int>, g: spec_fn(int) -> int, m: nat, off: int)
    ensures
        ml(c, g, m, off) == mlv(|o: int| c[o], |k: int| bit_stride(k), g, 0, m, off),
    decreases m,
{
    if m > 0 {
        lemma_ml_mlv(c, g, (m - 1) as nat, off);
        lemma_ml_mlv(c, g, (m - 1) as nat, off + pow2((m - 1) as nat));
    }
}

/// Adding `w` to a multiple of `2 w` changes neither its quotient by a
/// multiple `big` of `2 w` nor the quotient of its remainder.
pub proof fn lemma_add_below(u: int, w: int, g: int, big: int)
    requires
        u >= 0,
        w > 0,
        g >= 1,
        big == 2 * w * g,
        u % (2 * w) == 0,
    ensures
        (u + w) / big == u / big,
        (u + w) % big == u % big + w,
        (u % big) % (2 * w) == 0,
{
    let q = u / big;
    let r = u % big;
    let z = u / (2 * w);
    assert(big > 0) by (nonlinear_arith)
        requires
            big == 2 * w * g,
            w > 0,
            g >= 1,
    ;
    lemma_div_mod_split(u, big);
    lemma_div_mod_split(u, 2 * w);
    let y = z - g * q;
    assert(r == y * (2 * w)) by (nonlinear_arith)
        requires
            u == q * big + r,
            u == z * (2 * w),
            big == 2 * w * g,
            y == z - g * q,
    ;
    lemma_mod_multiples_basic(y, 2 * w);
    assert(y <= g - 1) by (nonlinear_arith)
        requires
            r == y * (2 * w),
            r < 2 * w * g,
            w > 0,
    ;
    assert(r + w < big) by (nonlinear_arith)
        requires
            r == y * (2 * w),
            y <= g - 1,
            big == 2 * w * g,
            w > 0,
    ;
    assert(u + w == q * big + (r + w));
    lemma_div_mod_compose(q, r + w, big);
}

/// Adding a multiple of `big` moves the quotient and keeps the remainder.
pub proof fn lemma_add_above(u: int, g: int, big: int)
    requires
        big > 0,
    ensures
        (u + big * g) / big == u / big + g,
        (u + big * g) % big == u % big,
{
    let q = u / big;
    let r = u % big;
    lemma_div_mod_split(u, big);
    assert(u + big * g == (q + g) * big + r) by (nonlinear_arith)
        requires
            u == q * big + r,
    ;
    lemma_div_mod_compose(q + g, r, big);
}

/// The transposition of vector indices is additive on a single bit: setting
/// bit `j` of an index whose lower bits up to `j` are clear sets the bit at
/// the exchanged place.
#[verifier::rlimit(50)]
pub proof fn lemma_tr_index_bit(u: int, j: nat, lv: nat)
    requires
        j < lv,
        lv + 4 > CACHED_FFT_LOG_SIZE,
        0 <= u,
        u % (pow2(j + 1) as int) == 0,
    ensures
        tr_index(u + pow2(j), lv) == tr_index(u, lv) + pow2((swap_bit(lv + 4, j as int + 4) - 4) as nat),
        0 <= swap_bit(lv + 4, j as int + 4) - 4 < lv,
{
    let n0: nat = lv / 2;
    let n1: nat = (lv - n0) as nat;
    let s = pow2(n0) as int;
    let m = pow2(n1) as int;
    let w = pow2(j) as int;
    let a = u / m;
    let r = u % m;
    let b = r / s;
    let c = r % s;
    lemma2_to64();
    lemma_pow2_step(j);
    lemma_pow2_pos(n0);
    lemma_pow2_pos(n1);
    assert(swap_bit(lv + 4, j as int + 4) == (if j < n0 {
        j as int + 4 + n1
    } else if j < n1 {
        j as int + 4
    } else {
        j as int + 4 - n1
    }));
    if j < n0 {
        lemma_pow2_sum(j + 1, (n1 - j - 1) as nat);
        lemma_pow2_sum(j + 1, (n0 - j - 1) as nat);
        let g1 = pow2((n1 - j - 1) as nat) as int;
        let g0 = pow2((n0 - j - 1) as nat) as int;
        assert(m == 2 * w * g1) by (nonlinear_arith)
            requires
                m == pow2(j + 1) * g1,
                pow2(j + 1) == 2 * w,
        ;
        assert(s == 2 * w * g0) by (nonlinear_arith)
            requires
                s == pow2(j + 1) * g0,
                pow2(j + 1) == 2 * w,
        ;
        lemma_add_below(u, w, g1, m);
        lemma_add_below(r, w, g0, s);
        lemma_pow2_sum(j, n1);
        assert((c + w) * m + b * s + a == c * m + b * s + a + w * m) by (nonlinear_arith);
        assert(tr_index(u + w, lv) == (c + w) * m + b * s + a);
    } else if j < n1 {
        assert(j == n0);
        assert(m == 2 * s);
        assert(m == 2 * w * 1);
        lemma_add_below(u, w, 1, m);
        assert(r == 0);
        lemma_small_mod(0, s as nat);
        lemma_div_mod_compose(0, 0, s);
        lemma_div_mod_compose(1, 0, s);
        assert(b == 0 && c == 0);
        assert((u + w) % m == s);
        assert(s / s == 1 && s % s == 0);
        assert(tr_index(u + w, lv) == 0 * m + 1 * s + a);
        assert(tr_index(u, lv) == 0 * m + 0 * s + a);
    } else {
        lemma_pow2_sum(n1, (j - n1) as nat);
        let g = pow2((j - n1) as nat) as int;
        assert(w == m * g);
        lemma_add_above(u, g, m);
        assert(tr_index(u + w, lv) == c * m + b * s + (a + g));
    }
}

/// The flat index that the transposition moves to the flat index `x`.
pub open spec fn tau(x: int, n: nat) -> int {
    16 * tr_index(x / 16, (n - 4) as nat) + x % 16
}

/// The transposition of flat indices is additive on a single bit.
#[verifier::rlimit(50)]
pub proof fn lemma_tau_bit(x: int, k: nat, n: nat)
    requires
        n > CACHED_FFT_LOG_SIZE,
        k < n,
        0 <= x,
        x % (pow2(k + 1) as int) == 0,
    ensures
        tau(x + pow2(k), n) == tau(x, n) + bit_stride(swap_bit(n, k as int)),
{
    lemma2_to64();
    let w = pow2(k) as int;
    if k < 4 {
        if k == 0 {
            assert(w == 1 && x % 2 == 0);
        } else if k == 1 {
            assert(w == 2 && x % 4 == 0);
        } else if k == 2 {
            assert(w == 4 && x % 8 == 0);
        } else {
            assert(w == 8 && x % 16 == 0);
        }
        assert((x + w) / 16 == x / 16);
        assert((x + w) % 16 == x % 16 + w);
    } else {
        let j: nat = (k - 4) as nat;
        let g = pow2(j + 1) as int;
        lemma_pow2_sum(4, j + 1);
        lemma_pow2_sum(4, j);
        lemma_pow2_pos(j + 1);
        assert(pow2(k + 1) == 16 * g);
        lemma_mod_mod(x, 16, g);
        assert(x % 16 == 0);
        let u = x / 16;
        let z = x / (16 * g);
        lemma_div_mod_split(x, 16 * g);
        assert(x == (z * g) * 16 + 0) by (nonlinear_arith)
            requires
                x == z * (16 * g) + 0,
        ;
        lemma_div_mod_compose(z * g, 0, 16);
        lemma_mod_multiples_basic(z, g);
        assert(u % g == 0);
        assert(x + w == 16 * (u + pow2(j)));
        assert((x + w) / 16 == u + pow2(j));
        assert((x + w) % 16 == 0);
        lemma_tr_index_bit(u, j, (n - 4) as nat);
        let sb = swap_bit(n, k as int);
        lemma_pow2_sum(4, (sb - 4) as nat);
    }
}

/// The form of the transposed coefficients over the lowest `m` bits is the
/// form of the coefficients over the exchanged bits.
#[verifier::rlimit(50)]
pub proof fn lemma_mlv_transposed(
    c: Seq<int>,
    g: spec_fn(int) -> int,
    n: nat,
    m: nat,
    x: int,
)
    requires
        n > CACHED_FFT_LOG_SIZE,
        c.len() == pow2(n),
        m <= n,
        0 <= x < pow2(n),
        x % (pow2(m) as int) == 0,
    ensures
        0 <= tau(x, n) < pow2(n),
        mlv(|o: int| transpose_spec(c, n)[o], |k: int| bit_stride(k), g, 0, m, x) == mlv(
            |o: int| c[o],
            |k: int| bit_stride(swap_bit(n, k)),
            g,
            0,
            m,
            tau(x, n),
        ),
    decreases m,
{
    lemma2_to64();
    lemma_pow2_sum(4, (n - 4) as nat);
    crate::fft::transpose::lemma_tr_index(x / 16, (n - 4) as nat);
    if m > 0 {
        let m1: nat = (m - 1) as nat;
        let w = pow2(m1) as int;
        lemma_pow2_step(m1);
        lemma_pow2_pos(m1);
        lemma_pow2_sum(m, (n - m) as nat);
        let z = x / (pow2(m) as int);
        lemma_div_mod_split(x, pow2(m) as int);
        let big = pow2(n) as int;
        let gg = pow2((n - m) as nat) as int;
        assert(x + 2 * w <= big) by (nonlinear_arith)
            requires
                x == z * (2 * w),
                x < big,
                big == (2 * w) * gg,
                w > 0,
        ;
        assert(w * 2 == pow2(m));
        assert(x % (w * 2) == 0);
        lemma_mod_mod(x, w, 2);
        assert(x % w == 0);
        lemma_mod_multiples_vanish(1, x, w);
        assert((x + w) % w == 0);
        lemma_tau_bit(x, m1, n);
        lemma_mlv_transposed(c, g, n, m1, x);
        lemma_mlv_transposed(c, g, n, m1, x + w);
    }
}

/// Three nested forms may be taken in the opposite order.
pub proof fn lemma_mlv_swap3(
    w: spec_fn(int) -> int,
    d: spec_fn(int) -> int,
    t: spec_fn(int) -> int,
    lo_a: int,
    m_a: nat,
    lo_b: int,
    m_b: nat,
    lo_c: int,
    m_c: nat,
    off: int,
)
    ensures
        mlv(
            |o: int| mlv(|o2: int| mlv(w, d, t, lo_c, m_c, o2), d, t, lo_b, m_b, o),
            d,
            t,
            lo_a,
            m_a,
            off,
        ) == mlv(
            |o: int| mlv(|o2: int| mlv(w, d, t, lo_a, m_a, o2), d, t, lo_b, m_b, o),
            d,
            t,
            lo_c,
            m_c,
            off,
        ),
{
    let cf = |o2: int| mlv(w, d, t, lo_c, m_c, o2);
    let af = |o2: int| mlv(w, d, t, lo_a, m_a, o2);
    let ac = |o: int| mlv(cf, d, t, lo_a, m_a, o);
    let ca = |o: int| mlv(af, d, t, lo_c, m_c, o);
    lemma_mlv_exchange(cf, d, t, lo_b, m_b, d, t, lo_a, m_a, off);
    assert forall|o: int| #[trigger] ac(o) == ca(o) by {
        lemma_mlv_exchange(w, d, t, lo_c, m_c, d, t, lo_a, m_a, o);
    }
    lemma_mlv_base(ac, ca, d, t, lo_b, m_b, off);
    lemma_mlv_exchange(af, d, t, lo_c, m_c, d, t, lo_b, m_b, off);
}

/// The form only depends on the values of the factor function.
pub proof fn lemma_ml_factors(
    c: Seq<int>,
    g1: spec_fn(int) -> int,
    g2: spec_fn(int) -> int,
    m: nat,
    off: int,
)
    requires
        forall|b: int| 0 <= b < m ==> #[trigger] g1(b) == g2(b),
    ensures
        ml(c, g1, m, off) == ml(c, g2, m, off),
    decreases m,
{
    if m > 0 {
        assert(g1(m - 1) == g2(m - 1));
        lemma_ml_factors(c, g1, g2, (m - 1) as nat, off);
        lemma_ml_factors(c, g1, g2, (m - 1) as nat, off + pow2((m - 1) as nat));
    }
}

/// The form of the transposed coefficients is the form of the coefficients
/// with the factors of the exchanged bits.
#[verifier::rlimit(50)]
pub proof fn lemma_ml_transposed(c: Seq<int>, g: spec_fn(int) -> int, n: nat)
    requires
        n > CACHED_FFT_LOG_SIZE,
        c.len() == pow2(n),
    ensures
        ml(transpose_spec(c, n), g, n, 0) == ml(c, |b: int| g(swap_bit(n, b)), n, 0),
{
    let n0: nat = ((n - 4) / 2) as nat;
    let n1: nat = (n - 4 - n0) as nat;
    let e: nat = (n1 - n0) as nat;
    let p0: int = 4 + n0 as int;
    let p1: int = 4 + n1 as int;
    let cf = |o: int| c[o];
    let bs = |k: int| bit_stride(k);
    let ds = |k: int| bit_stride(swap_bit(n, k));
    let gs = |b: int| g(swap_bit(n, b));
    lemma2_to64();
    lemma_pow2_pos(n);
    // the transposed side, over the exchanged strides
    lemma_ml_mlv(transpose_spec(c, n), g, n, 0);
    lemma_small_mod(0, pow2(n));
    lemma_mlv_transposed(c, g, n, n, 0);
    lemma_tau_zero(n);
    let z1 = |o: int| mlv(cf, ds, g, 0, 4, o);
    let a1 = |o: int| mlv(z1, ds, g, 4, n0, o);
    let b1 = |o: int| mlv(a1, ds, g, p0, e, o);
    assert(n == (4 + (n0 + (e + n0))) as nat);
    lemma_mlv_split(cf, ds, g, 0, 4, n0 + (e + n0), 0);
    lemma_mlv_split(z1, ds, g, 4, n0, e + n0, 0);
    lemma_mlv_split(a1, ds, g, p0, e, n0, 0);
    let e1 = mlv(b1, ds, g, p1, n0, 0);
    assert(mlv(cf, ds, g, 0, n, 0) == e1);
    // the same blocks as positions of the untransposed side
    let z2 = |o: int| mlv(cf, bs, gs, 0, 4, o);
    let a2 = |o: int| mlv(z2, bs, gs, p1, n0, o);
    let b2 = |o: int| mlv(a2, bs, gs, p0, e, o);
    assert forall|o: int| #[trigger] z1(o) == z2(o) by {
        lemma_mlv_positions(cf, ds, g, 0, bs, gs, 0, 4, o);
    }
    assert forall|o: int| #[trigger] a1(o) == a2(o) by {
        lemma_mlv_base(z1, z2, ds, g, 4, n0, o);
        lemma_mlv_positions(z2, ds, g, 4, bs, gs, p1, n0, o);
    }
    assert forall|o: int| #[trigger] b1(o) == b2(o) by {
        lemma_mlv_base(a1, a2, ds, g, p0, e, o);
        lemma_mlv_positions(a2, ds, g, p0, bs, gs, p0, e, o);
    }
    lemma_mlv_base(b1, b2, ds, g, p1, n0, 0);
    lemma_mlv_positions(b2, ds, g, p1, bs, gs, 4, n0, 0);
    let e1b = mlv(b2, bs, gs, 4, n0, 0);
    assert(e1 == e1b);
    // the untransposed side
    lemma_ml_mlv(c, gs, n, 0);
    let c2 = |o: int| mlv(z2, bs, gs, 4, n0, o);
    let bc2 = |o: int| mlv(c2, bs, gs, p0, e, o);
    lemma_mlv_split(cf, bs, gs, 0, 4, n0 + (e + n0), 0);
    lemma_mlv_split(z2, bs, gs, 4, n0, e + n0, 0);
    lemma_mlv_split(c2, bs, gs, p0, e, n0, 0);
    let e2 = mlv(bc2, bs, gs, p1, n0, 0);
    assert(mlv(cf, bs, gs, 0, n, 0) == e2);
    lemma_mlv_swap3(z2, bs, gs, p1, n0, p0, e, 4, n0, 0);
    assert(e2 == e1b);
}

/// The flat index zero stays in place.
pub proof fn lemma_tau_zero(n: nat)
    requires
        n >= 4,
    ensures
        tau(0, n) == 0,
{
    let lv: nat = (n - 4) as nat;
    let half: nat = lv / 2;
    lemma_pow2_pos(half);
    lemma_pow2_pos((lv - half) as nat);
    let s = pow2(half) as int;
    let m = pow2((lv - half) as nat) as int;
    lemma_div_mod_compose(0, 0, m);
    lemma_div_mod_compose(0, 0, s);
    assert(0 * m + 0 == 0);
    assert(0 * s + 0 == 0);
    assert(tr_index(0, lv) == 0 * m + 0 * s + 0);
}

/// The form of the coefficients in the order of the layers is the form of
/// the coefficients as they are held, with the factors of the exchanged
/// bits.
pub proof fn lemma_ml_layout(c: Seq<int>, g: spec_fn(int) -> int, n: nat)
    requires
        n >= 4,
        c.len() == pow2(n),
    ensures
        ml(logical_layout(c, n), g, n, 0) == ml(c, |b: int| g(swap_bit(n, b)), n, 0),
{
    if n > CACHED_FFT_LOG_SIZE {
        lemma_ml_transposed(c, g, n);
    } else {
        lemma_ml_factors(c, g, |b: int| g(swap_bit(n, b)), n, 0);
    }
}

/// The sequence continued with zeros up to the given length.
pub open spec fn zero_pad(v: Seq<int>, len: nat) -> Seq<int> {
    Seq::new(
        len,
        |i: int|
            if i < v.len() {
                v[i]
            } else {
                0
            },
    )
}

/// The form only depends on the coefficients that it runs over.
pub proof fn lemma_ml_values(
    c1: Seq<int>,
    c2: Seq<int>,
    g: spec_fn(int) -> int,
    m: nat,
    off: int,
)
    requires
        forall|i: int| off <= i < off + pow2(m) ==> c1[i] == c2[i],
    ensures
        ml(c1, g, m, off) == ml(c2, g, m, off),
    decreases m,
{
    lemma2_to64();
    if m > 0 {
        lemma_pow2_step((m - 1) as nat);
        lemma_ml_values(c1, c2, g, (m - 1) as nat, off);
        lemma_ml_values(c1, c2, g, (m - 1) as nat, off + pow2((m - 1) as nat));
    }
}

/// The form of coefficients that are all zero is zero.
pub proof fn lemma_ml_zero(c: Seq<int>, g: spec_fn(int) -> int, m: nat, off: int)
    requires
        forall|i: int| off <= i < off + pow2(m) ==> c[i] == 0,
    ensures
        ml(c, g, m, off) == 0,
    decreases m,
{
    lemma2_to64();
    if m > 0 {
        lemma_pow2_step((m - 1) as nat);
        lemma_ml_zero(c, g, (m - 1) as nat, off);
        lemma_ml_zero(c, g, (m - 1) as nat, off + pow2((m - 1) as nat));
        assert(g(m - 1) * 0 == 0);
    }
}

/// Continuing the coefficients with zeros does not change the form.
pub proof fn lemma_ml_pad(v: Seq<int>, g: spec_fn(int) -> int, n: nat, m: nat)
    requires
        n <= m,
        v.len() == pow2(n),
    ensures
        ml(zero_pad(v, pow2(m)), g, m, 0) == ml(v, g, n, 0),
    decreases m - n,
{
    let p = zero_pad(v, pow2(m));
    if m == n {
        lemma_ml_values(p, v, g, n, 0);
    } else {
        let m1: nat = (m - 1) as nat;
        lemma_pow2_step(m1);
        lemma_pow2_le(n, m1);
        lemma_ml_zero(p, g, m1, pow2(m1) as int);
        lemma_ml_values(p, zero_pad(v, pow2(m1)), g, m1, 0);
        lemma_ml_pad(v, g, n, m1);
        assert(g(m - 1) * 0 == 0);
    }
}

} // verus!
