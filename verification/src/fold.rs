//! Folding a sequence of coefficients against a sequence of factors.
use crate::fft::layout::ml;
use crate::fields::ExtensionOf;
use crate::fields::m31::{fp, lemma_fp_add, lemma_fp_mul, M31, P};
use crate::utils::{lemma_pow2_step, pow2_usize};
use vstd::arithmetic::power2::*;
use vstd::prelude::*;

verus! {

/// The values of a slice of canonical representatives.
pub open spec fn u32_ints(s: Seq<u32>) -> Seq<int> {
    Seq::new(s.len(), |i: int| s[i] as int)
}

/// The multilinear form of `2^m` base field coefficients starting at
/// `off`, in factors of a field that extends the base field: bit `b` of the
/// index of a coefficient contributes the factor `g(b)`.
pub open spec fn ext_ml<E: ExtensionOf>(c: Seq<int>, g: spec_fn(int) -> E, m: nat, off: int) -> E
    decreases m,
{
    if m == 0 {
        E::from_base_spec(c[off])
    } else {
        ext_ml(c, g, (m - 1) as nat, off).add_spec(
            ext_ml(c, g, (m - 1) as nat, off + pow2((m - 1) as nat)).mul_spec(g(m - 1)),
        )
    }
}

/// The factor that bit `b` of the index of a value is folded with.
pub open spec fn ext_fold_factor<E: ExtensionOf>(factors: Seq<E>, b: int) -> E {
    factors[factors.len() - 1 - b]
}

/// The result of folding `2^n` base field values against `n` factors of a
/// field that extends the base field.
pub open spec fn ext_fold_spec<E: ExtensionOf>(values: Seq<int>, factors: Seq<E>) -> E {
    ext_ml(values, |b: int| ext_fold_factor(factors, b), factors.len(), 0)
}

/// The form only depends on the values of the factor function.
pub proof fn lemma_ext_ml_factors<E: ExtensionOf>(
    c: Seq<int>,
    g1: spec_fn(int) -> E,
    g2: spec_fn(int) -> E,
    m: nat,
    off: int,
)
    requires
        forall|b: int| 0 <= b < m ==> #[trigger] g1(b) == g2(b),
    ensures
        ext_ml(c, g1, m, off) == ext_ml(c, g2, m, off),
    decreases m,
{
    if m > 0 {
        assert(g1(m - 1) == g2(m - 1));
        lemma_ext_ml_factors(c, g1, g2, (m - 1) as nat, off);
        lemma_ext_ml_factors(c, g1, g2, (m - 1) as nat, off + pow2((m - 1) as nat));
    }
}

/// In the base field the form is the reduction of the form over the
/// integers.
pub proof fn lemma_ext_ml_base(c: Seq<int>, g: spec_fn(int) -> M31, m: nat, off: int)
    requires
        forall|i: int| 0 <= i < c.len() ==> 0 <= #[trigger] c[i] < P,
        0 <= off,
        off + pow2(m) <= c.len(),
        forall|b: int| 0 <= b < m ==> (#[trigger] g(b)).wf(),
    ensures
        ext_ml(c, g, m, off).wf(),
        ext_ml(c, g, m, off)@ == fp(ml(c, |b: int| g(b)@, m, off)),
    decreases m,
{
    let gi = |b: int| g(b)@;
    if m == 0 {
        lemma2_to64();
        assert(0 <= c[off] < P);
    } else {
        let m1: nat = (m - 1) as nat;
        lemma_pow2_step(m1);
        lemma_ext_ml_base(c, g, m1, off);
        lemma_ext_ml_base(c, g, m1, off + pow2(m1));
        let a = ml(c, gi, m1, off);
        let b = ml(c, gi, m1, off + pow2(m1));
        let f = g(m - 1);
        assert(f.wf());
        assert(gi(m - 1) == f@);
        lemma_fp_mul(b, f@);
        lemma_fp_add(a, b * f@);
        assert(b * f@ == f@ * b) by (nonlinear_arith);
        assert(ml(c, gi, m, off) == a + f@ * b);
    }
}

/// Folds the `2^(n - k)` values from `off` on against the factors from `k`
/// on.
fn fold_rec<E: ExtensionOf>(values: &[u32], factors: &[E], k: usize, off: usize) -> (r: E)
    requires
        factors.len() <= 31,
        values.len() == pow2(factors.len() as nat),
        forall|i: int| 0 <= i < values.len() ==> (#[trigger] values@[i]) < P,
        forall|i: int| 0 <= i < factors.len() ==> (#[trigger] factors@[i]).is_valid(),
        k <= factors.len(),
        off + pow2((factors.len() - k) as nat) <= values.len(),
    ensures
        r.is_valid(),
        r == ext_ml(
            u32_ints(values@),
            |b: int| ext_fold_factor(factors@, b),
            (factors.len() - k) as nat,
            off as int,
        ),
    decreases factors.len() - k,
{
    let n: usize = factors.len();
    let ghost v = u32_ints(values@);
    let ghost g = |b: int| ext_fold_factor(factors@, b);
    if k == n {
        proof {
            lemma2_to64();
            assert(ext_ml(v, g, 0, off as int) == E::from_base_spec(v[off as int]));
        }
        E::from_base(M31(values[off]))
    } else {
        let half: usize = pow2_usize((n - k - 1) as u32);
        proof {
            lemma_pow2_step((n - k - 1) as nat);
        }
        let lhs: E = fold_rec(values, factors, k + 1, off);
        let rhs: E = fold_rec(values, factors, k + 1, off + half);
        let f: E = factors[k];
        proof {
            let m: nat = (n - k) as nat;
            assert(g(m - 1) == f);
        }
        lhs.add(rhs.mul(f))
    }
}

/// Folds `2^n` base field values against `n` factors of a field that
/// extends the base field: the value is
/// `fold(first half, rest) + fold(second half, rest) * first factor`.
pub fn fold<E: ExtensionOf>(values: &[u32], folding_factors: &[E]) -> (r: E)
    requires
        folding_factors.len() <= 31,
        values.len() == pow2(folding_factors.len() as nat),
        forall|i: int| 0 <= i < values.len() ==> (#[trigger] values@[i]) < P,
        forall|i: int|
            0 <= i < folding_factors.len() ==> (#[trigger] folding_factors@[i]).is_valid(),
    ensures
        r.is_valid(),
        r == ext_fold_spec(u32_ints(values@), folding_factors@),
{
    fold_rec(values, folding_factors, 0, 0)
}

} // verus!
