//! Powers of two, index arithmetic and bit reversal.
use vstd::arithmetic::div_mod::*;
use vstd::arithmetic::power2::*;
use vstd::bits::*;
use vstd::prelude::*;

verus! {

/// `pow2` doubles with each step and is positive.
pub proof fn lemma_pow2_step(k: nat)
    ensures
        pow2(k + 1) == 2 * pow2(k),
        pow2(k) > 0,
{
    lemma_pow2_unfold(k + 1);
    lemma_pow2_pos(k);
}

/// `pow2` is monotone.
pub proof fn lemma_pow2_le(a: nat, b: nat)
    requires
        a <= b,
    ensures
        pow2(a) <= pow2(b),
{
    if a < b {
        lemma_pow2_strictly_increases(a, b);
    }
}

/// `pow2(a + b)` as a product, with both factors positive.
pub proof fn lemma_pow2_sum(a: nat, b: nat)
    ensures
        pow2(a + b) == pow2(a) * pow2(b),
        pow2(a) > 0,
        pow2(b) > 0,
{
    lemma_pow2_adds(a, b);
    lemma_pow2_pos(a);
    lemma_pow2_pos(b);
}

/// Quotient and remainder of `q * d + r` for `0 <= r < d`.
pub proof fn lemma_div_mod_compose(q: int, r: int, d: int)
    requires
        d > 0,
        0 <= r < d,
    ensures
        (q * d + r) / d == q,
        (q * d + r) % d == r,
{
    lemma_fundamental_div_mod_converse(q * d + r, d, q, r);
}

/// Every integer is its quotient times the divisor plus its remainder.
pub proof fn lemma_div_mod_split(i: int, d: int)
    requires
        d > 0,
    ensures
        i == (i / d) * d + i % d,
        0 <= i % d < d,
        i >= 0 ==> i / d >= 0,
{
    lemma_fundamental_div_mod(i, d);
    assert(d * (i / d) == (i / d) * d) by (nonlinear_arith);
    if i >= 0 {
        lemma_div_pos_is_pos(i, d);
    }
}

/// Division by a divisor whose value is known.
pub proof fn lemma_div_known(x: int, d: int, c: int)
    requires
        d == c,
    ensures
        x / d == x / c,
        x % d == x % c,
{
}

/// Halving a sum whose first term is even.
pub proof fn lemma_half_shift(a: int, q: int)
    ensures
        (2 * a + q) / 2 == a + q / 2,
        (2 * a + q) % 2 == q % 2,
{
}

/// Division by one.
pub proof fn lemma_div_one(x: int, d: int)
    requires
        d == 1,
    ensures
        x / d == x,
        x % d == 0,
{
    assert(x == x * d + 0) by (nonlinear_arith)
        requires
            d == 1,
    ;
    lemma_fundamental_div_mod_converse(x, d, x, 0);
}

/// Dividing by the next power of two peels one more bit.
pub proof fn lemma_div_mod_succ(i: int, k: nat)
    requires
        i >= 0,
    ensures
        i / (pow2(k + 1) as int) == (i / (pow2(k) as int)) / 2,
        i % (pow2(k + 1) as int) == ((i / (pow2(k) as int)) % 2) * pow2(k) + i % (pow2(k) as int),
{
    lemma_pow2_step(k);
    lemma_div_denominator(i, pow2(k) as int, 2);
    lemma_mod_breakdown(i, pow2(k) as int, 2);
    assert(pow2(k) * 2 == 2 * pow2(k));
    assert(pow2(k) * ((i / (pow2(k) as int)) % 2) == ((i / (pow2(k) as int)) % 2) * pow2(k))
        by (nonlinear_arith);
}

/// `2^n` as a machine integer.
pub fn pow2_usize(n: u32) -> (r: usize)
    requires
        n <= 31,
    ensures
        r == pow2(n as nat),
        0 < r <= 0x8000_0000,
{
    proof {
        lemma2_to64();
        lemma_pow2_le(n as nat, 31);
        lemma_pow2_pos(n as nat);
        lemma_usize_shl_is_mul(1usize, n as usize);
    }
    1usize << (n as usize)
}

/// The `n`-bit number whose bits are those of `i` in the opposite order.
pub open spec fn bit_rev(i: nat, n: nat) -> nat
    decreases n,
{
    if n == 0 {
        0
    } else {
        (i % 2) * pow2((n - 1) as nat) + bit_rev(i / 2, (n - 1) as nat)
    }
}

/// A reversed index stays below `2^n`.
pub proof fn lemma_bit_rev_bound(i: nat, n: nat)
    ensures
        bit_rev(i, n) < pow2(n),
    decreases n,
{
    if n == 0 {
        lemma2_to64();
    } else {
        lemma_bit_rev_bound(i / 2, (n - 1) as nat);
        lemma_pow2_step((n - 1) as nat);
        assert((i % 2) * pow2((n - 1) as nat) <= pow2((n - 1) as nat)) by (nonlinear_arith)
            requires
                0 <= i % 2 <= 1,
        ;
    }
}

/// Reversal of a number given as a high part `a` and `k` low bits `b`:
/// the low bits, reversed, move to the top.
#[verifier::rlimit(50)]
pub proof fn lemma_bit_rev_concat(a: nat, b: nat, k: nat, n: nat)
    requires
        k <= n,
        b < pow2(k),
    ensures
        bit_rev(a * pow2(k) + b, n) == bit_rev(b, k) * pow2((n - k) as nat) + bit_rev(
            a,
            (n - k) as nat,
        ),
    decreases k,
{
    if k == 0 {
        lemma2_to64();
        assert(b == 0);
        assert(a * pow2(0) + b == a) by (nonlinear_arith)
            requires
                pow2(0) == 1,
                b == 0,
        ;
        assert(bit_rev(b, 0) * pow2((n - 0) as nat) == 0) by (nonlinear_arith)
            requires
                bit_rev(b, 0) == 0,
        ;
    } else {
        let k1: nat = (k - 1) as nat;
        let i: nat = a * pow2(k) + b;
        lemma_pow2_step(k1);
        // i = 2 * (a * 2^(k-1) + b / 2) + b % 2
        assert(a * pow2(k) == 2 * (a * pow2(k1))) by (nonlinear_arith)
            requires
                pow2(k) == 2 * pow2(k1),
        ;
        assert(i % 2 == b % 2 && i / 2 == a * pow2(k1) + b / 2);
        assert(b / 2 < pow2(k1));
        lemma_bit_rev_concat(a, b / 2, k1, (n - 1) as nat);
        lemma_pow2_sum(k1, (n - k) as nat);
        assert(((b % 2) * pow2(k1) + bit_rev(b / 2, k1)) * pow2((n - k) as nat) == (b % 2) * pow2(
            (n - 1) as nat,
        ) + bit_rev(b / 2, k1) * pow2((n - k) as nat)) by (nonlinear_arith)
            requires
                pow2((n - 1) as nat) == pow2(k1) * pow2((n - k) as nat),
        ;
    }
}

/// Reversing twice gives the index back.
pub proof fn lemma_bit_rev_involution(i: nat, n: nat)
    requires
        i < pow2(n),
    ensures
        bit_rev(bit_rev(i, n), n) == i,
    decreases n,
{
    if n > 0 {
        let n1: nat = (n - 1) as nat;
        lemma_pow2_step(n1);
        lemma2_to64();
        let s: nat = i % 2;
        let t: nat = bit_rev(i / 2, n1);
        lemma_bit_rev_bound(i / 2, n1);
        lemma_bit_rev_involution(i / 2, n1);
        lemma_bit_rev_concat(s, t, n1, n);
        assert((n - n1) as nat == 1);
        assert(bit_rev(s, 1) == s) by {
            assert(bit_rev(s / 2, 0) == 0);
            assert((s % 2) * pow2(0) == s) by (nonlinear_arith)
                requires
                    pow2(0) == 1,
                    s % 2 == s,
            ;
        }
        assert(bit_rev(t, n1) * pow2(1) == 2 * (i / 2)) by (nonlinear_arith)
            requires
                bit_rev(t, n1) == i / 2,
                pow2(1) == 2,
        ;
        assert(s * pow2(n1) + t == bit_rev(i, n));
        assert(bit_rev(bit_rev(i, n), n) == 2 * (i / 2) + s);
    } else {
        lemma2_to64();
    }
}

/// Reverses the low `log_size` bits of `i`.
pub fn bit_reverse_index(i: usize, log_size: u32) -> (r: usize)
    requires
        log_size <= 31,
        i < pow2(log_size as nat),
    ensures
        r == bit_rev(i as nat, log_size as nat),
        r < pow2(log_size as nat),
{
    let mut r: usize = 0;
    let mut x: usize = i;
    let mut k: u32 = 0;
    proof {
        lemma2_to64();
        assert(0 * pow2(log_size as nat) == 0);
    }
    while k < log_size
        invariant
            k <= log_size <= 31,
            r < pow2(k as nat),
            bit_rev(i as nat, log_size as nat) == r * pow2((log_size - k) as nat) + bit_rev(
                x as nat,
                (log_size - k) as nat,
            ),
        decreases log_size - k,
    {
        proof {
            let m: nat = (log_size - k - 1) as nat;
            lemma_pow2_step(m);
            lemma_pow2_step(k as nat);
            lemma_pow2_le((k + 1) as nat, 31);
            lemma2_to64();
            assert((2 * r + x % 2) * pow2(m) == r * pow2(m + 1) + (x % 2) * pow2(m))
                by (nonlinear_arith)
                requires
                    pow2(m + 1) == 2 * pow2(m),
            ;
        }
        r = 2 * r + x % 2;
        x = x / 2;
        k = k + 1;
    }
    proof {
        lemma2_to64();
        assert(r * pow2(0) == r) by (nonlinear_arith)
            requires
                pow2(0) == 1,
        ;
        lemma_bit_rev_bound(i as nat, log_size as nat);
    }
    r
}

/// Permutes `v`, of length `2^log_size`, into bit-reversed order, in place.
#[verifier::rlimit(50)]
pub fn bit_reverse<T: Copy>(v: &mut Vec<T>, log_size: u32)
    requires
        log_size <= 31,
        old(v).len() == pow2(log_size as nat),
    ensures
        final(v).len() == old(v).len(),
        forall|k: int|
            0 <= k < old(v).len() ==> final(v)@[k] == old(v)@[bit_rev(
                k as nat,
                log_size as nat,
            ) as int],
{
    let n: usize = v.len();
    let mut i: usize = 0;
    while i < n
        invariant
            i <= n,
            log_size <= 31,
            n == pow2(log_size as nat),
            v.len() == n,
            old(v).len() == n,
            forall|k: int|
                0 <= k < n ==> v@[k] == (if k < i || bit_rev(k as nat, log_size as nat) < i {
                    old(v)@[bit_rev(k as nat, log_size as nat) as int]
                } else {
                    old(v)@[k]
                }),
        decreases n - i,
    {
        let j: usize = bit_reverse_index(i, log_size);
        let ghost prev = v@;
        proof {
            lemma_bit_rev_involution(i as nat, log_size as nat);
        }
        if i < j {
            let a: T = v[i];
            let b: T = v[j];
            v[i] = b;
            v[j] = a;
        }
        proof {
            assert forall|k: int| 0 <= k < n implies v@[k] == (if k < i + 1 || bit_rev(
                k as nat,
                log_size as nat,
            ) < i + 1 {
                old(v)@[bit_rev(k as nat, log_size as nat) as int]
            } else {
                old(v)@[k]
            }) by {
                lemma_bit_rev_involution(k as nat, log_size as nat);
                lemma_bit_rev_bound(k as nat, log_size as nat);
                let rk: int = bit_rev(k as nat, log_size as nat) as int;
                assert(0 <= rk < n);
                assert(prev[rk] == (if rk < i || bit_rev(rk as nat, log_size as nat) < i {
                    old(v)@[bit_rev(rk as nat, log_size as nat) as int]
                } else {
                    old(v)@[rk]
                }));
            }
        }
        i = i + 1;
    }
    proof {
        assert forall|k: int| 0 <= k < old(v).len() implies v@[k] == old(v)@[bit_rev(
            k as nat,
            log_size as nat,
        ) as int] by {
            lemma_bit_rev_bound(k as nat, log_size as nat);
        }
    }
}

} // verus!
