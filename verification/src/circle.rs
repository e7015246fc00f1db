//! The circle group over the field: points, their indices, cosets and
//! domains.
use crate::fields::m31::{fp, is_fp, lemma_fp_add_cong, lemma_fp_mul, lemma_fp_multiple};
use crate::utils::{lemma_pow2_step, lemma_pow2_sum};
use vstd::arithmetic::div_mod::*;
use vstd::arithmetic::mul::*;
use vstd::arithmetic::power2::*;
use vstd::prelude::*;

verus! {

/// A point of the plane over the field, by its canonical coordinates.
pub struct Pt {
    pub x: int,
    pub y: int,
}

/// The point lies on the circle `x^2 + y^2 = 1`.
pub open spec fn on_circle(p: Pt) -> bool {
    is_fp(p.x) && is_fp(p.y) && fp(p.x * p.x + p.y * p.y) == 1
}

/// The group law: multiplication of `x + i y`.
pub open spec fn pt_add(p: Pt, q: Pt) -> Pt {
    Pt { x: fp(p.x * q.x - p.y * q.y), y: fp(p.x * q.y + p.y * q.x) }
}

/// The neutral element.
pub open spec fn pt_id() -> Pt {
    Pt { x: 1, y: 0 }
}

/// The inverse of a point of the circle: its mirror image in the x axis.
pub open spec fn pt_conj(p: Pt) -> Pt {
    Pt { x: p.x, y: fp(-p.y) }
}

/// The opposite point of the circle.
pub open spec fn pt_antipode(p: Pt) -> Pt {
    Pt { x: fp(-p.x), y: fp(-p.y) }
}

/// The double of a point.
pub open spec fn pt_double(p: Pt) -> Pt {
    pt_add(p, p)
}

/// The x coordinate of the double of a point of the circle with x
/// coordinate `x`.
pub open spec fn double_x(x: int) -> int {
    fp(2 * x * x - 1)
}

/// `k` times the point.
pub open spec fn pt_mul(k: nat, p: Pt) -> Pt
    decreases k,
{
    if k == 0 {
        pt_id()
    } else {
        pt_add(pt_mul((k - 1) as nat, p), p)
    }
}

/// The point doubled `k` times.
pub open spec fn rep_double(p: Pt, k: nat) -> Pt
    decreases k,
{
    if k == 0 {
        p
    } else {
        pt_double(rep_double(p, (k - 1) as nat))
    }
}

/// The generator of the circle group, of order `2^31`.
pub open spec fn circle_gen() -> Pt {
    Pt { x: 2, y: 1268011823 }
}

/// The order of the circle group, `2^31`.
pub open spec fn circle_order() -> int {
    2147483648
}

/// The point of the circle with the given index: that multiple of the
/// generator. Indices count modulo the group order.
pub open spec fn point_at(index: int) -> Pt {
    pt_mul((index % circle_order()) as nat, circle_gen())
}

/// The two polynomial identities behind associativity of the group law.
proof fn lemma_assoc_identity(x1: int, y1: int, x2: int, y2: int, x3: int, y3: int)
    ensures
        (x1 * x2 - y1 * y2) * x3 - (x1 * y2 + y1 * x2) * y3 == x1 * (x2 * x3 - y2 * y3) - y1 * (x2
            * y3 + y2 * x3),
        (x1 * x2 - y1 * y2) * y3 + (x1 * y2 + y1 * x2) * x3 == x1 * (x2 * y3 + y2 * x3) + y1 * (x2
            * x3 - y2 * y3),
{
    lemma_mul_is_distributive_sub_other_way(x3, x1 * x2, y1 * y2);
    lemma_mul_is_distributive_add_other_way(y3, x1 * y2, y1 * x2);
    lemma_mul_is_distributive_sub_other_way(y3, x1 * x2, y1 * y2);
    lemma_mul_is_distributive_add_other_way(x3, x1 * y2, y1 * x2);
    lemma_mul_is_distributive_sub(x1, x2 * x3, y2 * y3);
    lemma_mul_is_distributive_add(y1, x2 * y3, y2 * x3);
    lemma_mul_is_distributive_add(x1, x2 * y3, y2 * x3);
    lemma_mul_is_distributive_sub(y1, x2 * x3, y2 * y3);
    lemma_mul_is_associative(x1, x2, x3);
    lemma_mul_is_associative(y1, y2, x3);
    lemma_mul_is_associative(x1, y2, y3);
    lemma_mul_is_associative(y1, x2, y3);
    lemma_mul_is_associative(x1, x2, y3);
    lemma_mul_is_associative(y1, y2, y3);
    lemma_mul_is_associative(x1, y2, x3);
    lemma_mul_is_associative(y1, x2, x3);
}

/// `(a b)(c d) = (a c)(b d)`.
proof fn lemma_mul4(a: int, b: int, c: int, d: int)
    ensures
        (a * b) * (c * d) == (a * c) * (b * d),
{
    lemma_mul_is_associative(a * b, c, d);
    lemma_mul_is_associative(a, b, c);
    lemma_mul_is_commutative(b, c);
    lemma_mul_is_associative(a, c, b);
    lemma_mul_is_associative(a * c, b, d);
}

/// The norm is multiplicative.
proof fn lemma_norm_identity(x1: int, y1: int, x2: int, y2: int)
    ensures
        (x1 * x2 - y1 * y2) * (x1 * x2 - y1 * y2) + (x1 * y2 + y1 * x2) * (x1 * y2 + y1 * x2) == (x1
            * x1 + y1 * y1) * (x2 * x2 + y2 * y2),
{
    let a = x1 * x2;
    let b = y1 * y2;
    let c = x1 * y2;
    let d = y1 * x2;
    lemma_mul_is_distributive_sub_other_way(a - b, a, b);
    lemma_mul_is_distributive_sub(a, a, b);
    lemma_mul_is_distributive_sub(b, a, b);
    lemma_mul_is_distributive_add_other_way(c + d, c, d);
    lemma_mul_is_distributive_add(c, c, d);
    lemma_mul_is_distributive_add(d, c, d);
    lemma_mul_is_commutative(a, b);
    lemma_mul_is_commutative(c, d);
    lemma_mul4(x1, x2, y1, y2);
    lemma_mul4(x1, y2, y1, x2);
    lemma_mul_is_commutative(y2, x2);
    assert(a * b == c * d);
    lemma_mul4(x1, x2, x1, x2);
    lemma_mul4(y1, y2, y1, y2);
    lemma_mul4(x1, y2, x1, y2);
    lemma_mul4(y1, x2, y1, x2);
    let s1 = x1 * x1 + y1 * y1;
    lemma_mul_is_distributive_add(s1, x2 * x2, y2 * y2);
    lemma_mul_is_distributive_add_other_way(x2 * x2, x1 * x1, y1 * y1);
    lemma_mul_is_distributive_add_other_way(y2 * y2, x1 * x1, y1 * y1);
}

/// The group law is commutative.
pub proof fn lemma_pt_add_comm(p: Pt, q: Pt)
    ensures
        pt_add(p, q) == pt_add(q, p),
{
    assert(p.x * q.x - p.y * q.y == q.x * p.x - q.y * p.y) by (nonlinear_arith);
    assert(p.x * q.y + p.y * q.x == q.x * p.y + q.y * p.x) by (nonlinear_arith);
}

/// The group law is associative.
pub proof fn lemma_pt_add_assoc(p: Pt, q: Pt, r: Pt)
    ensures
        pt_add(pt_add(p, q), r) == pt_add(p, pt_add(q, r)),
{
    let a = p.x * q.x - p.y * q.y;
    let b = p.x * q.y + p.y * q.x;
    let c = q.x * r.x - q.y * r.y;
    let d = q.x * r.y + q.y * r.x;
    lemma_fp_mul(a, r.x);
    lemma_fp_mul(b, r.y);
    lemma_fp_mul(a, r.y);
    lemma_fp_mul(b, r.x);
    lemma_fp_mul(p.x, c);
    lemma_fp_mul(p.y, d);
    lemma_fp_mul(p.x, d);
    lemma_fp_mul(p.y, c);
    lemma_fp_add_cong(fp(a) * r.x, fp(b) * r.y, a * r.x, b * r.y);
    lemma_fp_add_cong(fp(a) * r.y, fp(b) * r.x, a * r.y, b * r.x);
    lemma_fp_add_cong(p.x * fp(c), p.y * fp(d), p.x * c, p.y * d);
    lemma_fp_add_cong(p.x * fp(d), p.y * fp(c), p.x * d, p.y * c);
    lemma_assoc_identity(p.x, p.y, q.x, q.y, r.x, r.y);
}

/// The point `(1, 0)` is neutral.
pub proof fn lemma_pt_add_id(p: Pt)
    requires
        is_fp(p.x),
        is_fp(p.y),
    ensures
        pt_add(p, pt_id()) == p,
        pt_add(pt_id(), p) == p,
{
    assert(p.x * 1 - p.y * 0 == p.x);
    assert(p.x * 0 + p.y * 1 == p.y);
    assert(1 * p.x - 0 * p.y == p.x);
    assert(1 * p.y + 0 * p.x == p.y);
}

/// The sum of two points of the circle lies on the circle.
pub proof fn lemma_pt_add_on_circle(p: Pt, q: Pt)
    requires
        on_circle(p),
        on_circle(q),
    ensures
        on_circle(pt_add(p, q)),
{
    let a = p.x * q.x - p.y * q.y;
    let b = p.x * q.y + p.y * q.x;
    lemma_fp_mul(a, a);
    lemma_fp_mul(b, b);
    lemma_fp_add_cong(fp(a) * fp(a), fp(b) * fp(b), a * a, b * b);
    lemma_norm_identity(p.x, p.y, q.x, q.y);
    lemma_fp_mul(p.x * p.x + p.y * p.y, q.x * q.x + q.y * q.y);
    assert(1int * 1int == 1);
}

/// The mirror image of a point of the circle is its inverse.
pub proof fn lemma_pt_conj(p: Pt)
    requires
        on_circle(p),
    ensures
        on_circle(pt_conj(p)),
        pt_add(p, pt_conj(p)) == pt_id(),
        pt_conj(pt_conj(p)) == p,
{
    let ny = fp(-p.y);
    lemma_fp_mul(-p.y, -p.y);
    assert((-p.y) * (-p.y) == p.y * p.y) by (nonlinear_arith);
    lemma_fp_add_cong(p.x * p.x, ny * ny, p.x * p.x, p.y * p.y);
    lemma_fp_mul(p.y, -p.y);
    lemma_fp_mul(p.x, -p.y);
    assert(p.y * (-p.y) == -(p.y * p.y)) by (nonlinear_arith);
    assert(p.x * (-p.y) + p.y * p.x == 0) by (nonlinear_arith);
    lemma_fp_add_cong(p.x * p.x, p.y * ny, p.x * p.x, p.y * (-p.y));
    lemma_fp_add_cong(p.x * ny, -(p.y * p.x), p.x * (-p.y), -(p.y * p.x));
}

/// The inverse of a point is unique.
pub proof fn lemma_pt_inverse_unique(p: Pt, q: Pt)
    requires
        on_circle(p),
        on_circle(q),
        pt_add(p, q) == pt_id(),
    ensures
        q == pt_conj(p),
{
    lemma_pt_conj(p);
    lemma_pt_add_assoc(pt_conj(p), p, q);
    lemma_pt_add_comm(pt_conj(p), p);
    lemma_pt_add_id(q);
    lemma_pt_add_id(pt_conj(p));
}

/// Doubling a point of the circle maps its x coordinate by `double_x`.
pub proof fn lemma_pt_double(p: Pt)
    requires
        on_circle(p),
    ensures
        pt_double(p).x == double_x(p.x),
        pt_double(p).y == fp(2 * p.x * p.y),
        on_circle(pt_double(p)),
{
    lemma_pt_add_on_circle(p, p);
    assert(p.x * p.x - p.y * p.y == 2 * p.x * p.x - 1 - (p.x * p.x + p.y * p.y - 1))
        by (nonlinear_arith);
    lemma_fp_add_cong(2 * p.x * p.x - 1, p.x * p.x + p.y * p.y - 1, 2 * p.x * p.x - 1, 0);
    assert(p.x * p.y + p.y * p.x == 2 * p.x * p.y) by (nonlinear_arith);
}

/// Adding the point `(-1, 0)` gives the antipode.
pub proof fn lemma_pt_add_half_turn(p: Pt)
    requires
        is_fp(p.x),
        is_fp(p.y),
    ensures
        pt_add(p, Pt { x: 2147483646, y: 0 }) == pt_antipode(p),
{
    assert(p.x * 2147483646 - p.y * 0 == 2147483647 * p.x + (-p.x));
    assert(p.x * 0 + p.y * 2147483646 == 2147483647 * p.y + (-p.y));
    lemma_fp_multiple(p.x, -p.x);
    lemma_fp_multiple(p.y, -p.y);
}

/// The multiples of a point of the circle lie on the circle.
pub proof fn lemma_pt_mul_on_circle(k: nat, p: Pt)
    requires
        on_circle(p),
    ensures
        on_circle(pt_mul(k, p)),
    decreases k,
{
    if k > 0 {
        lemma_pt_mul_on_circle((k - 1) as nat, p);
        lemma_pt_add_on_circle(pt_mul((k - 1) as nat, p), p);
    } else {
        assert(pt_mul(0, p) == pt_id());
        assert(1int * 1int + 0int * 0int == 1);
    }
}

/// Multiples add.
pub proof fn lemma_pt_mul_add(a: nat, b: nat, p: Pt)
    requires
        on_circle(p),
    ensures
        pt_mul(a + b, p) == pt_add(pt_mul(a, p), pt_mul(b, p)),
    decreases b,
{
    lemma_pt_mul_on_circle(a, p);
    if b == 0 {
        lemma_pt_add_id(pt_mul(a, p));
    } else {
        lemma_pt_mul_add(a, (b - 1) as nat, p);
        lemma_pt_add_assoc(pt_mul(a, p), pt_mul((b - 1) as nat, p), p);
        assert(pt_mul(a + b, p) == pt_add(pt_mul((a + b - 1) as nat, p), p));
    }
}

/// A multiple of a multiple is the multiple by the product.
pub proof fn lemma_pt_mul_mul(a: nat, b: nat, p: Pt)
    requires
        on_circle(p),
    ensures
        pt_mul(a * b, p) == pt_mul(a, pt_mul(b, p)),
    decreases a,
{
    if a == 0 {
        assert(a * b == 0);
    } else {
        lemma_pt_mul_mul((a - 1) as nat, b, p);
        assert(a * b == (a - 1) * b + b) by (nonlinear_arith);
        assert((a - 1) * b >= 0) by (nonlinear_arith)
            requires
                a >= 1,
                b >= 0,
        ;
        lemma_pt_mul_add(((a - 1) * b) as nat, b, p);
    }
}

/// Twice a point is its double.
pub proof fn lemma_pt_mul_two(p: Pt)
    requires
        on_circle(p),
    ensures
        pt_mul(2, p) == pt_double(p),
        pt_mul(1, p) == p,
{
    lemma_pt_add_id(p);
    assert(pt_mul(0, p) == pt_id());
    assert(pt_mul(1, p) == pt_add(pt_mul(0, p), p));
    assert(pt_mul(2, p) == pt_add(pt_mul(1, p), p));
}

/// Doubling `k` times multiplies by `2^k`.
pub proof fn lemma_rep_double(p: Pt, k: nat)
    requires
        on_circle(p),
    ensures
        rep_double(p, k) == pt_mul(pow2(k), p),
        on_circle(rep_double(p, k)),
    decreases k,
{
    lemma2_to64();
    if k == 0 {
        lemma_pt_mul_two(p);
    } else {
        let k1: nat = (k - 1) as nat;
        lemma_rep_double(p, k1);
        lemma_pow2_step(k1);
        lemma_pt_mul_add(pow2(k1), pow2(k1), p);
        lemma_pt_double(rep_double(p, k1));
    }
}

/// One concrete doubling, from the two coordinate computations.
proof fn lemma_double_step(p: Pt, k: nat, x: int, y: int, x2: int, y2: int)
    requires
        rep_double(p, k) == (Pt { x: x, y: y }),
        fp(x * x - y * y) == x2,
        fp(x * y + y * x) == y2,
    ensures
        rep_double(p, k + 1) == (Pt { x: x2, y: y2 }),
{
    assert(rep_double(p, k + 1) == pt_double(rep_double(p, k)));
}

proof fn lemma_gen_chain_0()
    ensures
        rep_double(circle_gen(), 8) == (Pt { x: 421007138, y: 256177860 }),
{
    assert(rep_double(circle_gen(), 0) == circle_gen());
    lemma_double_step(circle_gen(), 0, 2, 1268011823, 7, 777079998);
    lemma_double_step(circle_gen(), 1, 7, 777079998, 97, 141701737);
    lemma_double_step(circle_gen(), 2, 97, 141701737, 18817, 1720333214);
    lemma_double_step(circle_gen(), 3, 18817, 1720333214, 708158977, 683185920);
    lemma_double_step(circle_gen(), 4, 708158977, 683185920, 334835419, 1444967316);
    lemma_double_step(circle_gen(), 5, 334835419, 1444967316, 2042371533, 1362265296);
    lemma_double_step(circle_gen(), 6, 2042371533, 1362265296, 212706801, 1223819887);
    lemma_double_step(circle_gen(), 7, 212706801, 1223819887, 421007138, 256177860);
}

proof fn lemma_gen_chain_1()
    ensures
        rep_double(circle_gen(), 16) == (Pt { x: 1543902459, y: 1632329423 }),
{
    lemma_gen_chain_0();
    lemma_double_step(circle_gen(), 8, 421007138, 256177860, 6346213, 905523693);
    lemma_double_step(circle_gen(), 9, 6346213, 905523693, 1022251061, 788094511);
    lemma_double_step(circle_gen(), 10, 1022251061, 788094511, 1633461177, 574296567);
    lemma_double_step(circle_gen(), 11, 1633461177, 574296567, 595037635, 2111542451);
    lemma_double_step(circle_gen(), 12, 595037635, 2111542451, 1799120754, 343598868);
    lemma_double_step(circle_gen(), 13, 1799120754, 343598868, 438833264, 1327019128);
    lemma_double_step(circle_gen(), 14, 438833264, 1327019128, 1389168750, 838891026);
    lemma_double_step(circle_gen(), 15, 1389168750, 838891026, 1543902459, 1632329423);
}

proof fn lemma_gen_chain_2()
    ensures
        rep_double(circle_gen(), 24) == (Pt { x: 838195206, y: 1774253895 }),
{
    lemma_gen_chain_1();
    lemma_double_step(circle_gen(), 16, 1543902459, 1632329423, 1330239767, 1446369578);
    lemma_double_step(circle_gen(), 17, 1330239767, 1446369578, 1420207432, 2023238517);
    lemma_double_step(circle_gen(), 18, 1420207432, 2023238517, 2015554631, 1088093947);
    lemma_double_step(circle_gen(), 19, 2015554631, 1088093947, 996212859, 1140996376);
    lemma_double_step(circle_gen(), 20, 996212859, 1140996376, 1434706457, 1835793811);
    lemma_double_step(circle_gen(), 21, 1434706457, 1835793811, 13610297, 1064696601);
    lemma_double_step(circle_gen(), 22, 13610297, 1064696601, 785043271, 1260750973);
    lemma_double_step(circle_gen(), 23, 785043271, 1260750973, 838195206, 1774253895);
}

proof fn lemma_gen_chain_3()
    ensures
        rep_double(circle_gen(), 30) == (Pt { x: 2147483646, y: 0 }),
        rep_double(circle_gen(), 31) == (Pt { x: 1, y: 0 }),
{
    lemma_gen_chain_2();
    lemma_double_step(circle_gen(), 24, 838195206, 1774253895, 579625837, 1690787918);
    lemma_double_step(circle_gen(), 25, 579625837, 1690787918, 1179735656, 1241207368);
    lemma_double_step(circle_gen(), 26, 1179735656, 1241207368, 590768354, 978592373);
    lemma_double_step(circle_gen(), 27, 590768354, 978592373, 32768, 2147450879);
    lemma_double_step(circle_gen(), 28, 32768, 2147450879, 0, 2147483646);
    lemma_double_step(circle_gen(), 29, 0, 2147483646, 2147483646, 0);
    lemma_double_step(circle_gen(), 30, 2147483646, 0, 1, 0);
}

/// The generator lies on the circle; `2^30` times it is `(-1, 0)` and `2^31`
/// times it is the neutral element.
pub proof fn lemma_gen_order()
    ensures
        on_circle(circle_gen()),
        pt_mul(1073741824, circle_gen()) == (Pt { x: 2147483646, y: 0 }),
        pt_mul(2147483648, circle_gen()) == pt_id(),
{
    lemma2_to64();
    assert(fp(2int * 2int + 1268011823int * 1268011823int) == 1);
    lemma_gen_chain_3();
    lemma_rep_double(circle_gen(), 30);
    lemma_rep_double(circle_gen(), 31);
}

/// Every multiple of the neutral element is the neutral element.
pub proof fn lemma_pt_mul_id(k: nat)
    ensures
        pt_mul(k, pt_id()) == pt_id(),
    decreases k,
{
    if k > 0 {
        lemma_pt_mul_id((k - 1) as nat);
        lemma_pt_add_id(pt_id());
    }
}

/// Every indexed point lies on the circle.
pub proof fn lemma_point_at_on_circle(a: int)
    ensures
        on_circle(point_at(a)),
{
    lemma_gen_order();
    lemma_pt_mul_on_circle((a % circle_order()) as nat, circle_gen());
}

/// Indices add as the points do.
pub proof fn lemma_point_at_add(a: int, b: int)
    ensures
        point_at(a + b) == pt_add(point_at(a), point_at(b)),
{
    lemma_gen_order();
    let m = circle_order();
    let g = circle_gen();
    let ra = a % m;
    let rb = b % m;
    let rs = (a + b) % m;
    lemma_pt_mul_add(ra as nat, rb as nat, g);
    if ra + rb >= m {
        assert(ra + rb == rs + m);
        lemma_pt_mul_add(rs as nat, m as nat, g);
        lemma_pt_mul_on_circle(rs as nat, g);
        lemma_pt_add_id(pt_mul(rs as nat, g));
    } else {
        assert(ra + rb == rs);
    }
}

/// The index zero is the neutral element, and the index one the generator.
pub proof fn lemma_point_at_zero()
    ensures
        point_at(0) == pt_id(),
        point_at(1) == circle_gen(),
{
    lemma_gen_order();
    lemma_pt_mul_two(circle_gen());
}

/// The negated index is the mirrored point.
pub proof fn lemma_point_at_neg(a: int)
    ensures
        point_at(-a) == pt_conj(point_at(a)),
{
    lemma_point_at_add(a, -a);
    lemma_point_at_zero();
    lemma_point_at_on_circle(a);
    lemma_point_at_on_circle(-a);
    lemma_pt_inverse_unique(point_at(a), point_at(-a));
}

/// Half the group order further on lies the antipode.
pub proof fn lemma_point_at_half_turn(a: int)
    ensures
        point_at(a + 1073741824) == pt_antipode(point_at(a)),
{
    lemma_gen_order();
    lemma_point_at_add(a, 1073741824);
    lemma_point_at_on_circle(a);
    lemma_pt_add_half_turn(point_at(a));
}

/// Twice the index is the doubled point.
pub proof fn lemma_point_at_double(a: int)
    ensures
        point_at(2 * a) == pt_double(point_at(a)),
        point_at(2 * a).x == double_x(point_at(a).x),
{
    lemma_point_at_add(a, a);
    lemma_point_at_on_circle(a);
    lemma_pt_double(point_at(a));
}

/// A multiple of the group order may be dropped from an index.
pub proof fn lemma_point_at_periodic(a: int, k: int)
    ensures
        point_at(a + k * circle_order()) == point_at(a),
{
    lemma_mod_multiples_vanish(k, a, circle_order());
    assert(circle_order() * k + a == a + k * circle_order()) by (nonlinear_arith);
}

/// If `r` times the generator is the neutral element, every power of two up
/// to the group order divides `r`.
#[verifier::rlimit(50)]
proof fn lemma_order_step(r: nat, j: nat)
    requires
        pt_mul(r, circle_gen()) == pt_id(),
        j <= 31,
    ensures
        r % pow2(j) == 0,
    decreases j,
{
    lemma2_to64();
    if j > 0 {
        let j1: nat = (j - 1) as nat;
        lemma_order_step(r, j1);
        lemma_pow2_step(j1);
        lemma_pow2_pos(j1);
        let d = pow2(j1) as int;
        let b = (r as int) / d;
        lemma_fundamental_div_mod(r as int, d);
        assert(r == d * b);
        if b % 2 != 0 {
            let c = b / 2;
            let e = pow2((30 - j1) as nat);
            let g = circle_gen();
            lemma_gen_order();
            lemma_pow2_sum((30 - j1) as nat, j1);
            assert(e * d == 1073741824);
            // e r = 2^30 b = 2^31 c + 2^30
            assert(e * r == 2147483648 * c + 1073741824) by (nonlinear_arith)
                requires
                    r == d * b,
                    e * d == 1073741824,
                    b == 2 * c + 1,
            ;
            assert(c >= 0);
            lemma_pt_mul_mul(e, r, g);
            lemma_pt_mul_id(e);
            lemma_pt_mul_mul(c as nat, 2147483648, g);
            lemma_pt_mul_id(c as nat);
            assert(c * 2147483648 == 2147483648 * c);
            lemma_pt_mul_add((2147483648 * c) as nat, 1073741824, g);
            lemma_pt_add_id(pt_mul(1073741824, g));
            assert(false);
        }
        assert(r == (2 * d) * (b / 2)) by (nonlinear_arith)
            requires
                r == d * b,
                b % 2 == 0,
        ;
        lemma_mod_multiples_basic(b / 2, 2 * d);
        assert((b / 2) * (2 * d) == (2 * d) * (b / 2)) by (nonlinear_arith);
    }
}

/// The generator has order exactly `2^31`: only the indices divisible by it
/// give the neutral element.
pub proof fn lemma_point_at_id(a: int)
    requires
        point_at(a) == pt_id(),
    ensures
        a % circle_order() == 0,
{
    lemma2_to64();
    lemma_order_step((a % circle_order()) as nat, 31);
}

/// Away from the four points of the axes, both coordinates are nonzero.
#[verifier::rlimit(50)]
pub proof fn lemma_point_at_nonzero(a: int)
    requires
        a % 536870912 != 0,
    ensures
        point_at(a).x != 0,
        point_at(a).y != 0,
{
    let p = point_at(a);
    lemma_point_at_on_circle(a);
    lemma_point_at_double(a);
    lemma_point_at_on_circle(2 * a);
    lemma_point_at_double(2 * a);
    lemma_pt_double(p);
    lemma_pt_double(point_at(2 * a));
    if p.y == 0 {
        assert(p.x * p.x + 0 * 0 == p.x * p.x - 0 * 0);
        assert(2 * p.x * 0 == 0);
        assert(p.x * 0 + 0 * p.x == 0);
        assert(pt_double(p) == pt_id());
        lemma_point_at_id(2 * a);
        assert(false);
    }
    if p.x == 0 {
        let q = point_at(2 * a);
        assert(2 * 0 * p.y == 0);
        assert(q.y == 0);
        assert(q.x * q.x + 0 * 0 == q.x * q.x - 0 * 0);
        assert(q.x * 0 + 0 * q.x == 0);
        assert(pt_double(q) == pt_id());
        assert(2 * (2 * a) == 4 * a);
        lemma_point_at_id(4 * a);
        assert(false);
    }
}

} // verus!
