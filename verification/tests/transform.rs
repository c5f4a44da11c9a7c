use lattice_ntt::field::{add_mod, pow_mod};
use lattice_ntt::ntt::{
    intt, mult_array, ntt, ntt_multiply, poly_intt, poly_ntt, rand_poly, Basis, LatticeParams,
    NttParams, Polynomial,
};

fn standard_params() -> NttParams {
    NttParams {
        modulus: LatticeParams::Prime.value(),
        generator: LatticeParams::Gen.value(),
        degree: LatticeParams::Degree.value() as usize,
        rank: LatticeParams::M.value() as usize,
        bound: LatticeParams::S.value() as usize,
    }
}

fn small_params(modulus: u64, generator: u64, degree: usize) -> NttParams {
    NttParams { modulus, generator, degree, rank: 2, bound: 5 }
}

#[test]
fn test_ntt() {
    let params = standard_params();
    let mut a = Polynomial::zero(&params);
    rand_poly(&mut a, LatticeParams::Prime.value() as usize, &params);
    let b = a.clone();

    poly_ntt(&mut a, &params);

    poly_intt(&mut a, &params);

    assert!(a == b, "Polynomials must be equal");
}

#[test]
fn round_trip_all_power_of_two_degrees() {
    // degrees 2, 4, ..., 256 with 100 random polynomials per size
    let p = 65537u64;
    let g = 282u64;
    let mut degree = 2usize;
    while degree <= 256 {
        let params = NttParams { modulus: p, generator: g, degree, rank: 1, bound: 10 };
        for _ in 0..100 {
            let mut a = Polynomial::zero(&params);
            rand_poly(&mut a, p as usize, &params);
            let b = a.clone();
            poly_ntt(&mut a, &params);
            poly_intt(&mut a, &params);
            assert_eq!(a.coeffs, b.coeffs);
            assert_eq!(a.basis, Basis::Coefficient);
        }
        degree *= 2;
    }
}

#[test]
fn round_trip_degree_one_is_trivial() {
    // a single-coefficient polynomial round-trips with zero butterfly stages
    let mut arr = vec![5u64];
    ntt(&mut arr, 4, 17);
    assert_eq!(arr, vec![5u64]);
    intt(&mut arr, 4, 17);
    assert_eq!(arr, vec![5u64]);
}

#[test]
fn known_vector_degree_four_modulus_seventeen() {
    // 4 is a primitive 4th root of unity modulo 17: 4^2 = 16, 4^4 = 1
    assert_eq!(pow_mod(4, 2, 17), 16);
    assert_eq!(pow_mod(4, 4, 17), 1);

    let mut arr = vec![1u64, 2, 3, 4];
    ntt(&mut arr, 4, 17);

    // reference evaluations of 1 + 2x + 3x^2 + 4x^3 at powers of the root
    let evals: Vec<u64> = (0..4u64)
        .map(|k| {
            let x = pow_mod(4, k, 17);
            (1 + 2 * x + 3 * x * x + 4 * x * x * x) % 17
        })
        .collect();
    assert_eq!(evals, vec![10, 7, 15, 6]);

    // the network emits the evaluations in bit-reversed index order
    assert_eq!(arr, vec![evals[0], evals[2], evals[1], evals[3]]);
    assert_eq!(arr, vec![10, 15, 7, 6]);

    intt(&mut arr, 4, 17);
    assert_eq!(arr, vec![1, 2, 3, 4]);
}

#[test]
fn transform_is_deterministic() {
    let params = standard_params();
    let mut a = Polynomial::zero(&params);
    rand_poly(&mut a, 65537, &params);
    let mut x = a.clone();
    let mut y = a.clone();
    poly_ntt(&mut x, &params);
    poly_ntt(&mut y, &params);
    assert_eq!(x.coeffs, y.coeffs);
    assert_eq!(x.basis, y.basis);
}

#[test]
fn transform_is_linear_known_values() {
    let p = 17u64;
    let g = 4u64;
    let a = vec![1u64, 2, 3, 4];
    let b = vec![5u64, 6, 7, 8];
    let sum: Vec<u64> = a.iter().zip(b.iter()).map(|(x, y)| add_mod(*x, *y, p)).collect();

    let mut na = a.clone();
    let mut nb = b.clone();
    let mut nsum = sum.clone();
    ntt(&mut na, g, p);
    ntt(&mut nb, g, p);
    ntt(&mut nsum, g, p);
    let pointwise: Vec<u64> = na.iter().zip(nb.iter()).map(|(x, y)| add_mod(*x, *y, p)).collect();
    assert_eq!(nsum, pointwise);
}

#[test]
fn transform_is_linear_random() {
    let p = 65537u64;
    let params = standard_params();
    for _ in 0..10 {
        let mut a = Polynomial::zero(&params);
        let mut b = Polynomial::zero(&params);
        rand_poly(&mut a, p as usize, &params);
        rand_poly(&mut b, p as usize, &params);
        let mut sum = Polynomial::new(
            a.coeffs.iter().zip(b.coeffs.iter()).map(|(x, y)| add_mod(*x, *y, p)).collect(),
            Basis::Coefficient,
        );
        let mut na = a.clone();
        let mut nb = b.clone();
        poly_ntt(&mut na, &params);
        poly_ntt(&mut nb, &params);
        poly_ntt(&mut sum, &params);
        let pointwise: Vec<u64> =
            na.coeffs.iter().zip(nb.coeffs.iter()).map(|(x, y)| add_mod(*x, *y, p)).collect();
        assert_eq!(sum.coeffs, pointwise);
    }
}

/// Naive O(N^2) cyclic convolution modulo `p`: the ring product in
/// Z_p[X]/(X^N - 1).
fn naive_cyclic_convolution(a: &[u64], b: &[u64], p: u64) -> Vec<u64> {
    let n = a.len();
    let mut c = vec![0u64; n];
    for i in 0..n {
        for j in 0..n {
            let k = (i + j) % n;
            c[k] = ((c[k] as u128 + a[i] as u128 * b[j] as u128) % p as u128) as u64;
        }
    }
    c
}

#[test]
fn multiplicativity_degree_two() {
    // 16 has multiplicative order 2 modulo 17
    let params = small_params(17, 16, 2);
    let mut a = Polynomial::new(vec![3, 5], Basis::Coefficient);
    let mut b = Polynomial::new(vec![7, 11], Basis::Coefficient);
    let expected = naive_cyclic_convolution(&a.coeffs, &b.coeffs, 17);
    let mut out = Polynomial::zero(&params);
    ntt_multiply(&mut a, &mut b, &mut out, &params);
    assert_eq!(out.coeffs, expected);
    assert_eq!(out.coeffs, vec![8, 0]);
}

#[test]
fn multiplicativity_degree_four() {
    // 4 has multiplicative order 4 modulo 17, so the pipeline realizes
    // multiplication modulo X^4 - 1
    let params = small_params(17, 4, 4);
    let mut a = Polynomial::new(vec![1, 2, 3, 4], Basis::Coefficient);
    let mut b = Polynomial::new(vec![5, 0, 1, 2], Basis::Coefficient);
    let expected = naive_cyclic_convolution(&a.coeffs, &b.coeffs, 17);
    let mut out = Polynomial::zero(&params);
    ntt_multiply(&mut a, &mut b, &mut out, &params);
    assert_eq!(out.coeffs, expected);
    assert_eq!(out.basis, Basis::Coefficient);
}

#[test]
fn multiplicativity_degree_eight() {
    // 2 has multiplicative order 8 modulo 17: 2^8 = 256 = 1 (mod 17)
    assert_eq!(pow_mod(2, 8, 17), 1);
    assert_ne!(pow_mod(2, 4, 17), 1);
    let params = small_params(17, 2, 8);
    let mut a = Polynomial::new(vec![3, 1, 4, 1, 5, 9, 2, 6], Basis::Coefficient);
    let mut b = Polynomial::new(vec![2, 7, 1, 8, 2, 8, 1, 8], Basis::Coefficient);
    let expected = naive_cyclic_convolution(&a.coeffs, &b.coeffs, 17);
    let mut out = Polynomial::zero(&params);
    ntt_multiply(&mut a, &mut b, &mut out, &params);
    assert_eq!(out.coeffs, expected);
}

#[test]
fn mult_array_elementwise() {
    let a = vec![3u64, 5, 16, 0];
    let b = vec![6u64, 7, 16, 9];
    let mut c = vec![0u64; 4];
    mult_array(&a, &b, &mut c, 17);
    assert_eq!(c, vec![1, 1, 1, 0]);
}

#[test]
fn lattice_params_values() {
    assert_eq!(LatticeParams::Prime.value(), 65537);
    assert_eq!(LatticeParams::Gen.value(), 282);
    assert_eq!(LatticeParams::Degree.value(), 256);
    assert_eq!(LatticeParams::K.value(), 24);
    assert_eq!(LatticeParams::M.value(), 4);
    assert_eq!(LatticeParams::S.value(), 127);
}

#[test]
fn basis_tag_flips_with_transforms() {
    let params = small_params(17, 4, 4);
    let mut a = Polynomial::new(vec![1, 2, 3, 4], Basis::Coefficient);
    poly_ntt(&mut a, &params);
    assert_eq!(a.basis, Basis::Evaluation);
    poly_intt(&mut a, &params);
    assert_eq!(a.basis, Basis::Coefficient);
}
