use circle_fft::column::BaseFieldVec;
use circle_fft::domain::CanonicCoset;
use circle_fft::fields::cm31::CM31;
use circle_fft::fields::m31::{M31, P};
use circle_fft::fields::qm31::{SecureField, QM31};
use circle_fft::fields::ExtensionOf;
use circle_fft::fold::fold;
use circle_fft::point::CirclePoint;
use circle_fft::poly::CirclePoly;

fn embed(b: M31) -> QM31 {
    QM31::from_base(b)
}

#[test]
fn complex_extension_exact_values() {
    let a = CM31::from_u32_unchecked(1, 2);
    let b = CM31::from_u32_unchecked(3, 4);
    assert_eq!(a.add(b), CM31::from_u32_unchecked(4, 6));
    assert_eq!(a.sub(b), CM31::from_u32_unchecked(P - 2, P - 2));
    // (1 + 2i)(3 + 4i) = -5 + 10i
    assert_eq!(a.mul(b), CM31::from_u32_unchecked(P - 5, 10));
    let i = CM31::from_u32_unchecked(0, 1);
    assert_eq!(i.mul(i), CM31::from_u32_unchecked(P - 1, 0));
    assert_eq!(CM31::one(), CM31::from_u32_unchecked(1, 0));
    assert_eq!(CM31::from_base(M31(9)), CM31::from_u32_unchecked(9, 0));
}

#[test]
fn quartic_extension_exact_values() {
    let u = QM31::from_u32_unchecked(0, 0, 1, 0);
    // u^2 = 2 + i
    assert_eq!(u.mul(u), QM31::from_u32_unchecked(2, 1, 0, 0));
    let a = QM31::from_u32_unchecked(1, 2, 3, 4);
    let b = QM31::from_u32_unchecked(4, 5, 6, 7);
    assert_eq!(a.add(b), QM31::from_u32_unchecked(5, 7, 9, 11));
    assert_eq!(b.sub(a), QM31::from_u32_unchecked(3, 3, 3, 3));
    // (1+2i)(4+5i) = -6 + 13i; (3+4i)(6+7i) = -10 + 45i; (2+i)(-10+45i) = -65 + 80i
    // (1+2i)(6+7i) = -8 + 19i; (3+4i)(4+5i) = -8 + 31i
    assert_eq!(a.mul(b), QM31::from_u32_unchecked(P - 71, 93, P - 16, 50));
    assert_eq!(a.mul(QM31::one()), a);
    assert_eq!(SecureField::from_base(M31(7)), QM31::from_u32_unchecked(7, 0, 0, 0));
    assert_eq!(a.mul(b), b.mul(a));
}

#[test]
fn fold_with_extension_factors() {
    // (1 + 2 b) + a (3 + 4 b) with a = u and b = i
    let a = QM31::from_u32_unchecked(0, 0, 1, 0);
    let b = QM31::from_u32_unchecked(0, 1, 0, 0);
    assert_eq!(fold(&[1, 2, 3, 4], &[a, b]), QM31::from_u32_unchecked(1, 2, 3, 4));
    assert_eq!(fold(&[6], &[] as &[QM31]), QM31::from_u32_unchecked(6, 0, 0, 0));
}

#[test]
fn point_evaluation_at_an_extension_point() {
    // 3 + 4 y + 7 x + 5 x y
    let mut coeffs = vec![M31(0); 16];
    coeffs[0] = M31(3);
    coeffs[1] = M31(4);
    coeffs[2] = M31(7);
    coeffs[3] = M31(5);
    let poly = CirclePoly::new(BaseFieldVec::from_vec(coeffs));
    let x = QM31::from_u32_unchecked(11, 12, 13, 14);
    let y = QM31::from_u32_unchecked(21, 22, 23, 24);
    let want = embed(M31(3))
        .add(embed(M31(4)).mul(y))
        .add(embed(M31(7)).mul(x))
        .add(embed(M31(5)).mul(x.mul(y)));
    assert_eq!(poly.eval_at_point(CirclePoint { x, y }), want);
}

#[test]
fn extension_evaluation_at_a_base_point_is_the_base_evaluation() {
    for log_size in [4u32, 7, 17] {
        let coeffs: Vec<M31> = (0..(1u32 << log_size))
            .map(|i| M31(i.wrapping_mul(2654435761) % P))
            .collect();
        let poly = CirclePoly::new(BaseFieldVec::from_vec(coeffs));
        let domain = CanonicCoset::new(log_size).circle_domain();
        for i in [0usize, 3, 9] {
            let p = domain.at(i);
            let q = CirclePoint { x: embed(p.x), y: embed(p.y) };
            assert_eq!(poly.eval_at_point(q), embed(poly.eval_at_point(p)));
        }
    }
}

#[test]
fn doubling_map_in_the_extension() {
    let x = QM31::from_u32_unchecked(0, 1, 0, 0);
    // 2 i^2 - 1 = -3
    assert_eq!(CirclePoint::double_x(x), QM31::from_u32_unchecked(P - 3, 0, 0, 0));
    assert_eq!(CirclePoint::double_x(M31(2)), M31(7));
}
