use circle_fft::column::BaseFieldVec;
use circle_fft::domain::{CanonicCoset, CircleDomain, Coset};
use circle_fft::fft::ifft::{get_itwiddle_dbls, ifft};
use circle_fft::fft::rfft::{fft, get_twiddle_dbls};
use circle_fft::fft::transpose::transpose_vecs;
use circle_fft::fields::m31::{add_mod, inv_mod, mul_mod, neg_mod, sub_mod, M31, P};
use circle_fft::fold::fold;
use circle_fft::point::{m31_circle_gen, CirclePoint, CirclePointIndex};
use circle_fft::utils::{bit_reverse, bit_reverse_index, pow2_usize};

#[test]
fn field_arithmetic_exact_values() {
    assert_eq!(P, 2147483647);
    assert_eq!(add_mod(P - 1, 1), 0);
    assert_eq!(add_mod(P - 1, P - 1), P - 2);
    assert_eq!(sub_mod(0, 1), P - 1);
    assert_eq!(sub_mod(5, 3), 2);
    assert_eq!(neg_mod(0), 0);
    assert_eq!(neg_mod(1), P - 1);
    assert_eq!(mul_mod(P - 1, P - 1), 1);
    assert_eq!(mul_mod(1 << 16, 1 << 15), 1);
    assert_eq!(mul_mod(123456789, 987654321), ((123456789u64 * 987654321u64) % (P as u64)) as u32);
    assert_eq!(M31::reduce(P), M31(0));
    assert_eq!(M31::reduce(u32::MAX), M31(1));
    assert_eq!(M31(7).double(), M31(14));
    assert_eq!(M31(P - 1).square(), M31(1));
}

#[test]
fn inverse_times_element_is_one() {
    assert_eq!(inv_mod(1), 1);
    assert_eq!(inv_mod(2), 1 << 30);
    assert_eq!(inv_mod(P - 1), P - 1);
    for a in [3u32, 5, 19, 65536, 123456789, 2147483646, 1268011823] {
        assert_eq!(mul_mod(a, inv_mod(a)), 1);
        assert_eq!(M31(a).mul(M31(a).inverse()), M31::one());
    }
}

#[test]
fn bit_reversal_of_indices_and_vectors() {
    assert_eq!(bit_reverse_index(0, 0), 0);
    assert_eq!(bit_reverse_index(1, 1), 1);
    assert_eq!(bit_reverse_index(6, 3), 3);
    assert_eq!(bit_reverse_index(1, 4), 8);
    assert_eq!(bit_reverse_index(0b1011, 6), 0b110100);
    let mut v: Vec<u32> = (0..8).collect();
    bit_reverse(&mut v, 3);
    assert_eq!(v, vec![0, 4, 2, 6, 1, 5, 3, 7]);
    bit_reverse(&mut v, 3);
    assert_eq!(v, (0..8).collect::<Vec<u32>>());
    assert_eq!(pow2_usize(0), 1);
    assert_eq!(pow2_usize(31), 1 << 31);
}

#[test]
fn circle_group_exact_values() {
    let g = m31_circle_gen();
    assert_eq!(g, CirclePoint { x: M31(2), y: M31(1268011823) });
    assert_eq!(g.x.square().add(g.y.square()), M31::one());
    assert_eq!(g.double(), CirclePoint { x: M31(7), y: M31(777079998) });
    assert_eq!(CirclePoint::double_x(M31(2)), M31(7));
    assert_eq!(g.repeated_double(30), CirclePoint { x: M31(P - 1), y: M31(0) });
    assert_eq!(g.repeated_double(31), CirclePoint::zero());
    assert_eq!(g.mul(1 << 29), CirclePoint { x: M31(0), y: M31(P - 1) });
    assert_eq!(g.mul(3), g.double().add(g));
    assert_eq!(g.add(g.conjugate()), CirclePoint::zero());
    assert_eq!(g.antipode(), g.add(g.repeated_double(30)));
    assert_eq!(CirclePointIndex(5).to_point(), g.mul(5));
    assert_eq!(CirclePointIndex(0).to_point(), CirclePoint::zero());
}

#[test]
fn point_indices_count_modulo_the_group_order() {
    let a = CirclePointIndex((1 << 31) - 1);
    assert_eq!(a.add(CirclePointIndex(1)), CirclePointIndex(0));
    assert_eq!(CirclePointIndex(0).sub(CirclePointIndex(1)), a);
    assert_eq!(CirclePointIndex(1).neg(), a);
    assert_eq!(CirclePointIndex(0).neg(), CirclePointIndex(0));
    assert_eq!(CirclePointIndex(1 << 30).mul(2), CirclePointIndex(0));
    assert_eq!(CirclePointIndex(3).mul(5), CirclePointIndex(15));
    assert_eq!(CirclePointIndex(6).half(), CirclePointIndex(3));
    assert_eq!(CirclePointIndex((1 << 31) + 4).reduce(), CirclePointIndex(4));
    assert_eq!(CirclePointIndex::subgroup_gen(1), CirclePointIndex(1 << 30));
    assert_eq!(CirclePointIndex::subgroup_gen(31), CirclePointIndex(1));
    assert_eq!(CirclePointIndex::subgroup_gen(0), CirclePointIndex(0));
    assert_eq!(CirclePointIndex::generator(), CirclePointIndex(1));
    assert_eq!(CirclePointIndex::zero(), CirclePointIndex(0));
}

#[test]
fn cosets_and_domains() {
    let c = Coset::new(CirclePointIndex(3), 4);
    assert_eq!(c.size(), 16);
    assert_eq!(c.log_size(), 4);
    assert_eq!(c.step_size, CirclePointIndex(1 << 27));
    assert_eq!(c.index_at(2), CirclePointIndex(3 + (1 << 28)));
    assert_eq!(c.at(2), CirclePointIndex(3 + (1 << 28)).to_point());
    let d = c.double();
    assert_eq!(d.log_size, 3);
    assert_eq!(d.initial_index, CirclePointIndex(6));
    assert_eq!(d.at(1), c.at(1).double());
    assert_eq!(Coset::subgroup(2).at(1), CirclePointIndex(1 << 29).to_point());
    assert_eq!(Coset::odds(3).initial_index, CirclePointIndex(1 << 27));
    assert_eq!(Coset::half_odds(3).initial_index, CirclePointIndex(1 << 26));

    let canonic = CanonicCoset::new(4);
    assert_eq!(canonic.log_size(), 4);
    assert_eq!(canonic.size(), 16);
    let domain = canonic.circle_domain();
    assert_eq!(domain.log_size(), 4);
    assert_eq!(domain.size(), 16);
    assert_eq!(domain.half_coset.initial_index, CirclePointIndex(1 << 26));
    for i in 0..8 {
        assert_eq!(domain.at(i + 8), domain.at(i).conjugate());
        assert_eq!(domain.index_at(i + 8), domain.index_at(i).neg());
    }
    let ced = CircleDomain::constraint_evaluation_domain(5);
    assert_eq!(ced.at(0), m31_circle_gen());
    assert_eq!(ced.size(), 32);
}

#[test]
fn twiddle_tables_hold_doubled_coordinates_and_their_inverses() {
    let domain = CanonicCoset::new(5).circle_domain();
    let tw = get_twiddle_dbls(domain);
    let itw = get_itwiddle_dbls(domain);
    assert_eq!(tw.len(), 5);
    assert_eq!(itw.len(), 5);
    for l in 0..5 {
        assert_eq!(tw[l].len(), 1 << (4 - l));
        assert_eq!(itw[l].len(), 1 << (4 - l));
        for h in 0..tw[l].len() {
            assert_eq!(tw[l][h] % 2, 0);
            assert_eq!(mul_mod(tw[l][h] / 2, itw[l][h] / 2), 1);
        }
    }
    // layer 0: y of the half coset in bit-reversed order
    for h in 0..16 {
        let p = domain.half_coset.at(bit_reverse_index(h, 4));
        assert_eq!(tw[0][h], p.y.0 * 2);
    }
    // layer 1: x of the first half of the half coset in bit-reversed order
    for h in 0..8 {
        let p = domain.half_coset.at(bit_reverse_index(h, 3));
        assert_eq!(tw[1][h], p.x.0 * 2);
    }
    // layer 2: the doubled x coordinate
    for h in 0..4 {
        let p = domain.half_coset.at(bit_reverse_index(h, 2));
        assert_eq!(tw[2][h], CirclePoint::double_x(p.x).0 * 2);
    }
}

#[test]
fn fold_exact_value() {
    // (1 + 2 b) + a (3 + 4 b)
    let a = M31(10);
    let b = M31(100);
    assert_eq!(fold(&[1, 2, 3, 4], &[a, b]), M31(1 + 200 + 10 * (3 + 400)));
    assert_eq!(fold(&[9], &[] as &[M31]), M31(9));
    assert_eq!(fold(&[5, P - 1], &[M31(5)]), M31(0));
}

#[test]
fn column_keeps_the_order_of_its_elements() {
    let values: Vec<M31> = (0..48).map(|i| M31(1000 + i)).collect();
    let col = BaseFieldVec::from_vec(values.clone());
    assert_eq!(col.len(), 48);
    assert_eq!(col.data.len(), 3);
    assert_eq!(col.data[1][2], 1018);
    assert_eq!(col.at(33), M31(1033));
    assert_eq!(col.to_vec(), values);
}

#[test]
fn transposition_exchanges_the_halves_of_the_vector_index() {
    // three bits: (a, b, c) -> (c, b, a)
    let vecs: Vec<[u32; 16]> = (0..8).map(|u| [u; 16]).collect();
    let t = transpose_vecs(&vecs, 3);
    let got: Vec<u32> = t.iter().map(|v| v[0]).collect();
    assert_eq!(got, vec![0, 4, 2, 6, 1, 5, 3, 7]);
    // four bits: (a1 a0, c1 c0) -> (c1 c0, a1 a0)
    let vecs: Vec<[u32; 16]> = (0..16).map(|u| [u; 16]).collect();
    let t = transpose_vecs(&vecs, 4);
    let got: Vec<u32> = t.iter().map(|v| v[3]).collect();
    assert_eq!(got, vec![0, 4, 8, 12, 1, 5, 9, 13, 2, 6, 10, 14, 3, 7, 11, 15]);
    assert_eq!(transpose_vecs(&t, 4), vecs);
}

#[test]
fn forward_transform_undoes_inverse_transform_up_to_the_size() {
    for log_size in [4u32, 5, 8, 17] {
        let domain = CanonicCoset::new(log_size).circle_domain();
        let tw = get_twiddle_dbls(domain);
        let itw = get_itwiddle_dbls(domain);
        let n = 1usize << log_size;
        let start: Vec<[u32; 16]> = (0..n / 16)
            .map(|u| {
                let mut lane = [0u32; 16];
                for j in 0..16 {
                    lane[j] = ((u * 16 + j) as u32).wrapping_mul(2654435761) % P;
                }
                lane
            })
            .collect();
        let mut values = start.clone();
        ifft(&mut values, &itw, log_size);
        fft(&mut values, &tw, 0, log_size);
        for u in 0..n / 16 {
            for j in 0..16 {
                assert_eq!(values[u][j], mul_mod(start[u][j], n as u32));
            }
        }
    }
}
