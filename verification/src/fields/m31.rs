//! The prime field of order 2^31 - 1.
use vstd::arithmetic::div_mod::*;
use vstd::prelude::*;

verus! {

/// The field modulus, 2^31 - 1.
pub const P: u32 = 2147483647;

/// The canonical representative of `a` modulo the field modulus.
pub open spec fn fp(a: int) -> int {
    a % 2147483647
}

/// `a` is a canonical representative: `0 <= a < P`.
pub open spec fn is_fp(a: int) -> bool {
    0 <= a < 2147483647
}

/// Reduction commutes with multiplication.
pub proof fn lemma_fp_mul(a: int, b: int)
    ensures
        fp(fp(a) * b) == fp(a * b),
        fp(a * fp(b)) == fp(a * b),
        fp(fp(a) * fp(b)) == fp(a * b),
{
    lemma_mul_mod_noop_general(a, b, 2147483647);
}

/// Congruent factors give congruent products.
pub proof fn lemma_fp_mul_cong(a: int, b: int, c: int, d: int)
    requires
        fp(a) == fp(c),
        fp(b) == fp(d),
    ensures
        fp(a * b) == fp(c * d),
{
    lemma_fp_mul(a, b);
    lemma_fp_mul(c, d);
}

/// Reduction commutes with addition and subtraction.
pub proof fn lemma_fp_add(a: int, b: int)
    ensures
        fp(fp(a) + b) == fp(a + b),
        fp(a + fp(b)) == fp(a + b),
        fp(fp(a) + fp(b)) == fp(a + b),
        fp(fp(a) - b) == fp(a - b),
        fp(a - fp(b)) == fp(a - b),
        fp(fp(a) - fp(b)) == fp(a - b),
        fp(fp(a)) == fp(a),
{
    lemma_add_mod_noop(a, b, 2147483647);
    lemma_add_mod_noop_right(a, b, 2147483647);
    lemma_add_mod_noop_right(b, a, 2147483647);
    lemma_sub_mod_noop(a, b, 2147483647);
    lemma_sub_mod_noop_right(a, b, 2147483647);
    lemma_add_mod_noop_right(-b, a, 2147483647);
    lemma_mod_twice(a, 2147483647);
    assert(b + fp(a) == fp(a) + b);
    assert(-b + fp(a) == fp(a) - b);
    assert(-b + a == a - b);
}

/// Congruent terms give congruent sums and differences.
pub proof fn lemma_fp_add_cong(a: int, b: int, c: int, d: int)
    requires
        fp(a) == fp(c),
        fp(b) == fp(d),
    ensures
        fp(a + b) == fp(c + d),
        fp(a - b) == fp(c - d),
{
    lemma_add_mod_noop(a, b, 2147483647);
    lemma_add_mod_noop(c, d, 2147483647);
    lemma_sub_mod_noop(a, b, 2147483647);
    lemma_sub_mod_noop(c, d, 2147483647);
}

/// A multiple of the modulus may be dropped.
pub proof fn lemma_fp_multiple(k: int, b: int)
    ensures
        fp(2147483647 * k + b) == fp(b),
{
    lemma_mod_multiples_vanish(k, b, 2147483647);
}

#[verifier::rlimit(100)]
proof fn lemma_no_small_divisor(d: u32)
    by (bit_vector)
    requires
        2 <= d,
        d < 65536,
    ensures
        2147483647u32 % d != 0,
{
}

/// The modulus is prime: nothing between 2 and `P - 1` divides it.
pub proof fn lemma_modulus_is_prime(d: int)
    requires
        2 <= d < 2147483647,
    ensures
        2147483647int % d != 0,
{
    if d < 65536 {
        lemma_no_small_divisor(d as u32);
    } else if 2147483647int % d == 0 {
        let k: int = 2147483647int / d;
        lemma_fundamental_div_mod(2147483647, d);
        assert(2 <= k < 65536) by (nonlinear_arith)
            requires
                d * k == 2147483647,
                65536 <= d < 2147483647,
        ;
        lemma_no_small_divisor(k as u32);
        lemma_mod_multiples_basic(d, k);
        assert(false);
    }
}

/// The inverse of a nonzero field element: the canonical `r` with
/// `a r = 1`.
pub open spec fn inv_spec(a: int) -> int {
    choose|r: int| is_fp(r) && fp(a * r) == 1
}

/// Every nonzero field element has an inverse.
pub proof fn lemma_inverse_exists(a: int)
    requires
        0 < a < 2147483647,
    ensures
        is_fp(inv_spec(a)),
        fp(a * inv_spec(a)) == 1,
    decreases a,
{
    if a == 1 {
        assert(is_fp(1) && fp(1int * 1int) == 1);
    } else {
        lemma_modulus_is_prime(a);
        let q = 2147483647int / a;
        let rem = 2147483647int % a;
        lemma_fundamental_div_mod(2147483647, a);
        lemma_inverse_exists(rem);
        let r1 = inv_spec(rem);
        let r = fp(-q * r1);
        lemma_fp_mul(a, -q * r1);
        assert(a * (-q * r1) == 2147483647 * (-r1) + rem * r1) by (nonlinear_arith)
            requires
                2147483647 == a * q + rem,
        ;
        lemma_fp_multiple(-r1, rem * r1);
        assert(is_fp(r) && fp(a * r) == 1);
    }
}

/// The inverse of a field element is unique.
pub proof fn lemma_inverse_unique(a: int, r1: int, r2: int)
    requires
        is_fp(r1),
        is_fp(r2),
        fp(a * r1) == 1,
        fp(a * r2) == 1,
    ensures
        r1 == r2,
{
    // r1 = r1 (a r2) = (a r1) r2 = r2
    lemma_fp_mul(r1, a * r2);
    lemma_fp_mul(a * r1, r2);
    assert(r1 * (a * r2) == (a * r1) * r2) by (nonlinear_arith);
    assert(r1 * 1 == r1);
    assert(1 * r2 == r2);
}

/// Addition in the field.
pub fn add_mod(a: u32, b: u32) -> (r: u32)
    requires
        a < P,
        b < P,
    ensures
        r < P,
        r as int == fp(a + b),
{
    let s: u32 = a + b;
    if s >= P {
        s - P
    } else {
        s
    }
}

/// Subtraction in the field.
pub fn sub_mod(a: u32, b: u32) -> (r: u32)
    requires
        a < P,
        b < P,
    ensures
        r < P,
        r as int == fp(a - b),
{
    if a >= b {
        a - b
    } else {
        a + (P - b)
    }
}

/// Negation in the field.
pub fn neg_mod(a: u32) -> (r: u32)
    requires
        a < P,
    ensures
        r < P,
        r as int == fp(-a),
{
    if a == 0 {
        0
    } else {
        P - a
    }
}

/// Multiplication in the field.
pub fn mul_mod(a: u32, b: u32) -> (r: u32)
    requires
        a < P,
        b < P,
    ensures
        r < P,
        r as int == fp(a * b),
{
    assert(a * b <= 2147483646 * 2147483646) by (nonlinear_arith)
        requires
            a < 2147483647,
            b < 2147483647,
    ;
    let m: u64 = (a as u64) * (b as u64);
    (m % (P as u64)) as u32
}

/// The multiplicative inverse of a nonzero field element.
///
/// Repeatedly replaces `x` by `P mod x`, which is never zero because the
/// modulus is prime, while tracking a factor `acc` with `a * acc = x`.
pub fn inv_mod(a: u32) -> (r: u32)
    requires
        0 < a < P,
    ensures
        r < P,
        fp(a * r) == 1,
        r as int == inv_spec(a as int),
{
    proof {
        lemma_inverse_exists(a as int);
    }
    let mut x: u32 = a;
    let mut acc: u32 = 1;
    while x != 1
        invariant
            1 <= x < P,
            acc < P,
            fp(a * acc) == x as int,
        decreases x,
    {
        proof {
            lemma_modulus_is_prime(x as int);
        }
        let q: u32 = P / x;
        let rem: u32 = P % x;
        proof {
            lemma_fundamental_div_mod(2147483647, x as int);
            assert(q < 2147483647) by (nonlinear_arith)
                requires
                    2147483647 == x * q + rem,
                    x >= 2,
                    rem >= 0,
                    q >= 0,
            ;
        }
        let nq: u32 = neg_mod(q);
        let acc2: u32 = mul_mod(acc, nq);
        proof {
            // a * acc2 = a * acc * (-q) = x * (-q) = rem - P = rem
            lemma_fp_mul(a as int, acc * nq);
            assert(a * (acc * nq) == (a * acc) * nq) by (nonlinear_arith);
            lemma_fp_mul_cong(a * acc, nq as int, x as int, -q);
            assert(x * (-q) == rem - 2147483647) by (nonlinear_arith)
                requires
                    2147483647 == x * q + rem,
            ;
            lemma_fp_multiple(-1, rem as int);
        }
        acc = acc2;
        x = rem;
    }
    proof {
        lemma_inverse_unique(a as int, acc as int, inv_spec(a as int));
    }
    acc
}

/// An element of the field, held as its canonical representative.
#[derive(Clone, Copy, Debug, PartialEq, Eq, Structural)]
pub struct M31(pub u32);

/// The base field of the transform.
pub type BaseField = M31;

impl View for M31 {
    type V = int;

    open spec fn view(&self) -> int {
        self.0 as int
    }
}

impl M31 {
    /// The representative is canonical.
    pub open spec fn wf(self) -> bool {
        self.0 < P
    }

    /// Wraps a canonical representative.
    pub fn from_u32_unchecked(value: u32) -> (r: M31)
        requires
            value < P,
        ensures
            r.0 == value,
            r.wf(),
    {
        M31(value)
    }

    /// Reduces an arbitrary 32-bit value into the field.
    pub fn reduce(value: u32) -> (r: M31)
        ensures
            r@ == fp(value as int),
            r.wf(),
    {
        M31(value % P)
    }

    pub fn zero() -> (r: M31)
        ensures
            r.0 == 0,
            r.wf(),
    {
        M31(0)
    }

    pub fn one() -> (r: M31)
        ensures
            r.0 == 1,
            r.wf(),
    {
        M31(1)
    }

    /// Whether the element is zero.
    pub fn is_zero(self) -> (r: bool)
        ensures
            r == (self.0 == 0),
    {
        self.0 == 0
    }

    pub fn add(self, rhs: M31) -> (r: M31)
        requires
            self.wf(),
            rhs.wf(),
        ensures
            r.wf(),
            r@ == fp(self@ + rhs@),
    {
        M31(add_mod(self.0, rhs.0))
    }

    pub fn sub(self, rhs: M31) -> (r: M31)
        requires
            self.wf(),
            rhs.wf(),
        ensures
            r.wf(),
            r@ == fp(self@ - rhs@),
    {
        M31(sub_mod(self.0, rhs.0))
    }

    pub fn neg(self) -> (r: M31)
        requires
            self.wf(),
        ensures
            r.wf(),
            r@ == fp(-self@),
    {
        M31(neg_mod(self.0))
    }

    pub fn mul(self, rhs: M31) -> (r: M31)
        requires
            self.wf(),
            rhs.wf(),
        ensures
            r.wf(),
            r@ == fp(self@ * rhs@),
    {
        M31(mul_mod(self.0, rhs.0))
    }

    /// The square of the element.
    pub fn square(self) -> (r: M31)
        requires
            self.wf(),
        ensures
            r.wf(),
            r@ == fp(self@ * self@),
    {
        M31(mul_mod(self.0, self.0))
    }

    /// Twice the element.
    pub fn double(self) -> (r: M31)
        requires
            self.wf(),
        ensures
            r.wf(),
            r@ == fp(2 * self@),
    {
        M31(add_mod(self.0, self.0))
    }

    /// The multiplicative inverse; zero has none.
    pub fn inverse(self) -> (r: M31)
        requires
            self.wf(),
            self.0 != 0,
        ensures
            r.wf(),
            fp(self@ * r@) == 1,
            r@ == inv_spec(self@),
    {
        M31(inv_mod(self.0))
    }
}

} // verus!
