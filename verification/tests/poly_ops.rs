use circle_fft::column::BaseFieldVec;
use circle_fft::domain::{CanonicCoset, CircleDomain};
use circle_fft::fft::{CACHED_FFT_LOG_SIZE, MIN_FFT_LOG_SIZE};
use circle_fft::fields::m31::BaseField;
use circle_fft::backend::AVX512Backend;
use circle_fft::poly::{BitReversedOrder, CircleEvaluation, CirclePoly, NaturalOrder};

fn column(n: u32) -> BaseFieldVec {
    BaseFieldVec::from_vec((0..n).map(BaseField::from_u32_unchecked).collect())
}

#[test]
fn test_interpolate_and_eval() {
    for log_size in MIN_FFT_LOG_SIZE..(CACHED_FFT_LOG_SIZE + 4) {
        let domain = CanonicCoset::new(log_size).circle_domain();
        let evaluation =
            CircleEvaluation::<BitReversedOrder>::new(domain, column(1 << log_size));
        let poly = evaluation.clone().interpolate();
        let evaluation2 = poly.evaluate(domain);
        assert_eq!(evaluation.values, evaluation2.values);
    }
}

#[test]
fn test_eval_extension() {
    for log_size in MIN_FFT_LOG_SIZE..(CACHED_FFT_LOG_SIZE + 4) {
        let domain = CircleDomain::constraint_evaluation_domain(log_size);
        let domain_ext = CircleDomain::constraint_evaluation_domain(log_size + 3);
        let evaluation =
            CircleEvaluation::<BitReversedOrder>::new(domain, column(1 << log_size));
        let poly = evaluation.clone().interpolate();
        let evaluation2 = poly.evaluate(domain_ext);
        for i in 0..(1 << log_size) {
            assert_eq!(evaluation2.values.at(i), evaluation.values.at(i));
        }
    }
}

#[test]
fn test_eval_at_point() {
    for log_size in MIN_FFT_LOG_SIZE..(CACHED_FFT_LOG_SIZE + 4) {
        let domain = CanonicCoset::new(log_size).circle_domain();
        let evaluation = CircleEvaluation::<NaturalOrder>::new(domain, column(1 << log_size));
        let poly = evaluation.bit_reverse().interpolate();
        for i in [0, 1, 3, 1 << (log_size - 1), 1 << (log_size - 2)] {
            let p = domain.at(i);
            assert_eq!(
                poly.eval_at_point(p),
                BaseField::from_u32_unchecked(i as u32),
                "{}",
                format!("log_size = {log_size} i = {i}")
            );
        }
    }
}

#[test]
fn test_circle_poly_extend() {
    for log_size in MIN_FFT_LOG_SIZE..(CACHED_FFT_LOG_SIZE + 2) {
        let poly = CirclePoly::new(column(1 << log_size));
        let eval0 = poly.evaluate(CanonicCoset::new(log_size + 2).circle_domain());
        let eval1 = poly
            .extend(log_size + 2)
            .evaluate(CanonicCoset::new(log_size + 2).circle_domain());

        assert_eq!(eval0.values, eval1.values);
    }
}

#[test]
fn scenario_32_values_round_trip_and_point_seven() {
    let domain = CanonicCoset::new(5).circle_domain();
    let evaluation = CircleEvaluation::<BitReversedOrder>::new(domain, column(32));
    let poly = AVX512Backend::interpolate(evaluation.clone());
    assert_eq!(poly.log_size(), 5);
    let back = AVX512Backend::evaluate(&poly, domain);
    let got: Vec<u32> = back.values.to_vec().iter().map(|x| x.0).collect();
    let want: Vec<u32> = (0..32).collect();
    assert_eq!(got, want);

    let natural = CircleEvaluation::<NaturalOrder>::new(domain, column(32));
    let poly = natural.bit_reverse().interpolate();
    let p = domain.at(7);
    assert_eq!(
        AVX512Backend::eval_at_point(&poly, p),
        BaseField::from_u32_unchecked(7)
    );
}

#[test]
fn scenario_extension_from_5_to_8_keeps_first_32_values() {
    let domain = CircleDomain::constraint_evaluation_domain(5);
    let domain_ext = CircleDomain::constraint_evaluation_domain(8);
    let evaluation = CircleEvaluation::<BitReversedOrder>::new(domain, column(32));
    let poly = evaluation.clone().interpolate();
    let extended = poly.evaluate(domain_ext);
    assert_eq!(extended.values.len(), 256);
    for i in 0..32 {
        assert_eq!(extended.values.at(i).0, i as u32);
    }
}

#[test]
fn evaluation_agrees_with_point_evaluation_at_every_position() {
    for log_size in [4u32, 6, 17] {
        let poly = CirclePoly::new(column(1 << log_size));
        let domain = CanonicCoset::new(log_size + 1).circle_domain();
        let eval = poly.evaluate(domain).bit_reverse();
        let step = if log_size > 10 { 4099 } else { 1 };
        let mut i = 0;
        while i < (1usize << (log_size + 1)) {
            assert_eq!(poly.eval_at_point(domain.at(i)), eval.values.at(i));
            i += step;
        }
    }
}

#[test]
fn interpolation_of_evaluation_gives_the_coefficients_back() {
    for log_size in [4u32, 5, 9, 17] {
        let poly = CirclePoly::new(column(1 << log_size));
        let domain = CanonicCoset::new(log_size).circle_domain();
        let poly2 = poly.evaluate(domain).interpolate();
        assert_eq!(poly.coeffs, poly2.coeffs);
    }
}

#[test]
fn constant_polynomial_has_one_value() {
    let mut coeffs = vec![BaseField::from_u32_unchecked(0); 16];
    coeffs[0] = BaseField::from_u32_unchecked(5);
    let poly = CirclePoly::new(BaseFieldVec::from_vec(coeffs));
    let domain = CanonicCoset::new(6).circle_domain();
    let eval = poly.evaluate(domain);
    assert_eq!(eval.values.len(), 64);
    for i in 0..64 {
        assert_eq!(eval.values.at(i).0, 5);
    }
    assert_eq!(poly.eval_at_point(domain.at(11)).0, 5);
}

#[test]
fn first_two_coefficients_are_one_and_y() {
    // 3 + 4 y at the point (x, y)
    let mut coeffs = vec![BaseField::from_u32_unchecked(0); 16];
    coeffs[0] = BaseField::from_u32_unchecked(3);
    coeffs[1] = BaseField::from_u32_unchecked(4);
    let poly = CirclePoly::new(BaseFieldVec::from_vec(coeffs));
    let domain = CanonicCoset::new(4).circle_domain();
    for i in 0..16 {
        let p = domain.at(i);
        let want = BaseField::from_u32_unchecked(3).add(BaseField::from_u32_unchecked(4).mul(p.y));
        assert_eq!(poly.eval_at_point(p), want);
    }
    // 7 x at the point (x, y)
    let mut coeffs = vec![BaseField::from_u32_unchecked(0); 16];
    coeffs[2] = BaseField::from_u32_unchecked(7);
    let poly = CirclePoly::new(BaseFieldVec::from_vec(coeffs));
    let p = domain.at(5);
    assert_eq!(poly.eval_at_point(p), BaseField::from_u32_unchecked(7).mul(p.x));
}

#[test]
fn new_canonical_ordered_follows_the_coset() {
    let log_size = 5;
    let coset = CanonicCoset::new(log_size);
    let eval = AVX512Backend::new_canonical_ordered(coset, column(32));
    let natural = eval.clone().bit_reverse();
    let domain = coset.circle_domain();
    assert_eq!(natural.domain, domain);
    for j in 0..32usize {
        let k = if j < 16 { 2 * j } else { 31 - 2 * (j - 16) };
        assert_eq!(natural.values.at(j).0, k as u32);
        assert_eq!(domain.at(j), coset.coset().at(k));
    }
    // interpolating it gives a polynomial with value k at point k of the coset
    let poly = eval.interpolate();
    for k in [0usize, 1, 2, 17, 31] {
        assert_eq!(poly.eval_at_point(coset.coset().at(k)).0, k as u32);
    }
}

#[test]
fn extension_continues_the_coefficients_with_zeros() {
    let poly = CirclePoly::new(column(32));
    let extended = poly.extend(7);
    assert_eq!(extended.log_size(), 7);
    assert_eq!(extended.coeffs.len(), 128);
    for i in 0..128usize {
        let want = if i < 32 { i as u32 } else { 0 };
        assert_eq!(extended.coeffs.at(i).0, want);
    }
    // above the cached size the vectors of the coefficients are held transposed
    let poly = CirclePoly::new(column(1 << 15));
    let extended = poly.extend(17);
    let logical = circle_fft::fft::transpose::transpose_vecs(&extended.coeffs.data, 13);
    for u in 0..(1usize << 13) {
        for j in 0..16usize {
            let i = 16 * u + j;
            let want = if i < (1 << 15) { i as u32 } else { 0 };
            assert_eq!(logical[u][j], want);
        }
    }
    // and the extension has the same value at a point outside every domain in use
    let p = circle_fft::point::CirclePointIndex(12345).to_point();
    assert_eq!(extended.eval_at_point(p), poly.eval_at_point(p));
}
