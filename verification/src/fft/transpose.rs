//! The transposition of the vectors of a large column.
use crate::fft::lanes::{flat, lanes_wf, vec_wf, PackedBaseField};
use crate::fft::model::{is_fp_seq, scale};
use crate::fft::CACHED_FFT_LOG_SIZE;
use crate::utils::{lemma_div_mod_compose, lemma_div_mod_split, lemma_pow2_sum, pow2_usize};
use vstd::arithmetic::power2::*;
use vstd::prelude::*;

verus! {

/// The index of `log_n_vecs` bits with its high and low halves exchanged:
/// `(a, b, c)` becomes `(c, b, a)`, where `a` and `c` have
/// `log_n_vecs / 2` bits each and `b` is the middle bit of an odd width.
pub open spec fn tr_index(u: int, log_n_vecs: nat) -> int {
    let half = log_n_vecs / 2;
    let s = pow2(half) as int;
    let m = pow2((log_n_vecs - half) as nat) as int;
    let a = u / m;
    let r = u % m;
    let b = r / s;
    let c = r % s;
    c * m + b * s + a
}

/// The column of `2^n` elements with its vectors transposed.
pub open spec fn transpose_spec(v: Seq<int>, n: nat) -> Seq<int> {
    Seq::new(v.len(), |i: int| v[16 * tr_index(i / 16, (n - 4) as nat) + i % 16])
}

/// The coefficients in the order of the layers: as they are held, up to the
/// cached size, and transposed above it.
pub open spec fn logical_layout(v: Seq<int>, n: nat) -> Seq<int> {
    if n > CACHED_FFT_LOG_SIZE {
        transpose_spec(v, n)
    } else {
        v
    }
}

/// The transposition permutes the indices below `2^log_n_vecs` and is its
/// own inverse.
#[verifier::rlimit(50)]
pub proof fn lemma_tr_index(u: int, log_n_vecs: nat)
    requires
        0 <= u < pow2(log_n_vecs),
    ensures
        0 <= tr_index(u, log_n_vecs) < pow2(log_n_vecs),
        tr_index(tr_index(u, log_n_vecs), log_n_vecs) == u,
{
    let half = log_n_vecs / 2;
    let s = pow2(half) as int;
    let m = pow2((log_n_vecs - half) as nat) as int;
    let e = pow2((log_n_vecs - half - half) as nat) as int;
    lemma2_to64();
    lemma_pow2_sum(half, (log_n_vecs - half) as nat);
    lemma_pow2_sum(half, (log_n_vecs - half - half) as nat);
    assert(m == s * e);
    assert(pow2(log_n_vecs) == s * m);
    let a = u / m;
    let r = u % m;
    let b = r / s;
    let c = r % s;
    lemma_div_mod_split(u, m);
    lemma_div_mod_split(r, s);
    assert(a < s) by (nonlinear_arith)
        requires
            u == a * m + r,
            0 <= r,
            u < s * m,
            m > 0,
    ;
    assert(b < e) by (nonlinear_arith)
        requires
            r == b * s + c,
            0 <= c,
            r < s * e,
            s > 0,
    ;
    let low = b * s + a;
    assert(0 <= low < m) by (nonlinear_arith)
        requires
            low == b * s + a,
            0 <= b < e,
            0 <= a < s,
            m == s * e,
    ;
    let t = c * m + low;
    assert(t == tr_index(u, log_n_vecs));
    assert(0 <= t < s * m) by (nonlinear_arith)
        requires
            0 <= c < s,
            0 <= low < m,
            t == c * m + low,
    ;
    lemma_div_mod_compose(c, low, m);
    lemma_div_mod_compose(b, a, s);
    assert(tr_index(t, log_n_vecs) == a * m + b * s + c);
}

/// Transposing twice gives the column back.
pub proof fn lemma_transpose_involution(v: Seq<int>, n: nat)
    requires
        n >= 4,
        v.len() == pow2(n),
    ensures
        transpose_spec(transpose_spec(v, n), n) == v,
        transpose_spec(v, n).len() == v.len(),
{
    lemma2_to64();
    lemma_pow2_sum(4, (n - 4) as nat);
    let t = transpose_spec(v, n);
    assert forall|i: int| 0 <= i < v.len() implies transpose_spec(t, n)[i] == v[i] by {
        let u = i / 16;
        lemma_tr_index(u, (n - 4) as nat);
        let u1 = tr_index(u, (n - 4) as nat);
        let k = 16 * u1 + i % 16;
        assert(k / 16 == u1 && k % 16 == i % 16);
        assert(transpose_spec(t, n)[i] == t[k]);
    }
    assert(transpose_spec(t, n) =~= v);
}

/// The layout change is its own inverse and keeps the entries.
pub proof fn lemma_logical_layout(v: Seq<int>, n: nat)
    requires
        n >= 4,
        v.len() == pow2(n),
    ensures
        logical_layout(logical_layout(v, n), n) == v,
        logical_layout(v, n).len() == v.len(),
        is_fp_seq(v) ==> is_fp_seq(logical_layout(v, n)),
        forall|a: int| scale(logical_layout(v, n), a) == logical_layout(scale(v, a), n),
{
    lemma_transpose_involution(v, n);
    if n > CACHED_FFT_LOG_SIZE {
        lemma2_to64();
        lemma_pow2_sum(4, (n - 4) as nat);
        let t = transpose_spec(v, n);
        if is_fp_seq(v) {
            assert forall|i: int| 0 <= i < t.len() implies crate::fields::m31::is_fp(
                #[trigger] t[i],
            ) by {
                lemma_tr_index(i / 16, (n - 4) as nat);
            }
        }
        assert forall|a: int| scale(t, a) == transpose_spec(scale(v, a), n) by {
            assert forall|i: int| 0 <= i < v.len() implies scale(t, a)[i] == transpose_spec(
                scale(v, a),
                n,
            )[i] by {
                lemma_tr_index(i / 16, (n - 4) as nat);
            }
            assert(scale(t, a) =~= transpose_spec(scale(v, a), n));
        }
    }
}

/// The vectors of a column in transposed order.
#[verifier::rlimit(50)]
pub fn transpose_vecs(values: &Vec<PackedBaseField>, log_n_vecs: u32) -> (r: Vec<PackedBaseField>)
    requires
        log_n_vecs <= 26,
        values.len() == pow2(log_n_vecs as nat),
        lanes_wf(values@),
    ensures
        r.len() == values.len(),
        lanes_wf(r@),
        forall|u: int| 0 <= u < r.len() ==> r@[u] == values@[tr_index(u, log_n_vecs as nat)],
        flat(r@) == transpose_spec(flat(values@), (log_n_vecs + 4) as nat),
{
    let half: u32 = log_n_vecs / 2;
    let s: usize = pow2_usize(half);
    let m: usize = pow2_usize(log_n_vecs - half);
    let n: usize = values.len();
    let mut out: Vec<PackedBaseField> = Vec::with_capacity(n);
    let mut u: usize = 0;
    while u < n
        invariant
            u <= n,
            n == values.len(),
            n == pow2(log_n_vecs as nat),
            half == log_n_vecs / 2,
            s == pow2(half as nat),
            m == pow2((log_n_vecs - half) as nat),
            s > 0,
            m > 0,
            out.len() == u,
            lanes_wf(values@),
            forall|w: int| 0 <= w < u ==> out@[w] == values@[tr_index(w, log_n_vecs as nat)],
        decreases n - u,
    {
        proof {
            lemma_tr_index(u as int, log_n_vecs as nat);
        }
        let a: usize = u / m;
        let r: usize = u % m;
        let b: usize = r / s;
        let c: usize = r % s;
        proof {
            assert(c * m + b * s + a == tr_index(u as int, log_n_vecs as nat));
            assert(0 <= c * m && 0 <= b * s) by (nonlinear_arith)
                requires
                    0 <= c,
                    0 <= b,
                    0 <= m,
                    0 <= s,
            ;
        }
        let j: usize = c * m + b * s + a;
        out.push(values[j]);
        u = u + 1;
    }
    proof {
        lemma2_to64();
        assert forall|w: int| 0 <= w < out@.len() implies vec_wf(#[trigger] out@[w]) by {
            lemma_tr_index(w, log_n_vecs as nat);
        }
        let target = transpose_spec(flat(values@), (log_n_vecs + 4) as nat);
        assert forall|i: int| 0 <= i < 16 * n implies flat(out@)[i] == target[i] by {
            let w = i / 16;
            lemma_tr_index(w, log_n_vecs as nat);
            let k = 16 * tr_index(w, log_n_vecs as nat) + i % 16;
            assert(k / 16 == tr_index(w, log_n_vecs as nat) && k % 16 == i % 16);
        }
        assert(flat(out@) =~= target);
    }
    out
}

} // verus!
