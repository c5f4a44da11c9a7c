use lattice_ntt::ntt::{rand_poly, rand_vec, Basis, NttParams, Polynomial};

fn sampling_params() -> NttParams {
    NttParams { modulus: 65537, generator: 282, degree: 128, rank: 4, bound: 10 }
}

#[test]
fn sampling_bound_and_uniformity() {
    // 10,000 draws with bound 10: every coefficient in [0, 10) and the
    // bin counts pass an integer chi-square goodness-of-fit check
    let params = sampling_params();
    let mut counts = [0u64; 10];
    let mut drawn = 0usize;
    while drawn < 10_000 {
        let mut a = Polynomial::zero(&params);
        rand_poly(&mut a, 10, &params);
        for &c in a.coeffs.iter() {
            if drawn == 10_000 {
                break;
            }
            assert!(c < 10, "coefficient {} out of bound", c);
            counts[c as usize] += 1;
            drawn += 1;
        }
    }
    let total: u64 = counts.iter().sum();
    assert_eq!(total, 10_000);
    // chi-square with 9 degrees of freedom; expected 1000 per bin
    let chi2: f64 = counts
        .iter()
        .map(|&c| {
            let d = c as f64 - 1000.0;
            d * d / 1000.0
        })
        .sum();
    assert!(chi2 < 50.0, "distribution far from uniform: chi2 = {}", chi2);
    // a degenerate sampler (all draws equal) would give chi2 = 90000
}

#[test]
fn rand_poly_reduces_into_field() {
    let params = NttParams { modulus: 17, generator: 4, degree: 64, rank: 1, bound: 100 };
    let mut a = Polynomial::zero(&params);
    rand_poly(&mut a, 100, &params);
    assert_eq!(a.basis, Basis::Coefficient);
    assert_eq!(a.coeffs.len(), 64);
    for &c in a.coeffs.iter() {
        assert!(c < 17);
    }
}

#[test]
fn rand_vec_fills_every_slot() {
    let params = sampling_params();
    let mut v: Vec<Polynomial> = (0..4).map(|_| Polynomial::zero(&params)).collect();
    rand_vec(&mut v, 127, &params);
    assert_eq!(v.len(), 4);
    for poly in v.iter() {
        assert_eq!(poly.basis, Basis::Coefficient);
        assert_eq!(poly.coeffs.len(), 128);
        for &c in poly.coeffs.iter() {
            assert!(c < 127);
        }
    }
}
