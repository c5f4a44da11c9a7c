use lattice_ntt::poly::{poly_reduce, Poly, N};
use lattice_ntt::reduce::{caddq, reduce32, Q};

#[test]
fn test() {
    let a: i32 = -7;
    println!("Output: {}", a >> 31);
}

#[test]
fn reduce32_congruent_and_in_range() {
    let samples: [i32; 9] = [
        0,
        1,
        -1,
        Q,
        -Q,
        123_456_789,
        -123_456_789,
        i32::MIN,
        i32::MAX - (1 << 22),
    ];
    for &a in samples.iter() {
        let r = reduce32(a);
        assert!(-Q < r && r < Q, "out of range for {}", a);
        let diff = (r as i64) - (a as i64);
        assert_eq!(diff.rem_euclid(Q as i64), 0, "not congruent for {}", a);
    }
}

#[test]
fn reduce32_known_values() {
    assert_eq!(reduce32(0), 0);
    assert_eq!(reduce32(Q), 0);
    assert_eq!(reduce32(-Q), 0);
    assert_eq!(reduce32(1), 1);
    assert_eq!(reduce32(Q + 5), 5);
}

#[test]
fn caddq_sign_boundaries() {
    assert_eq!(caddq(0), 0);
    assert_eq!(caddq(-1), Q - 1);
    assert_eq!(caddq(1), 1);
    assert_eq!(caddq(-Q + 1), 1);
    assert_eq!(caddq(Q - 1), Q - 1);
}

#[test]
fn caddq_canonicalizes_after_reduce32() {
    let samples: [i32; 6] = [0, -5, Q - 1, -Q + 1, 987_654_321, -987_654_321];
    for &a in samples.iter() {
        let c = caddq(reduce32(a));
        assert!(0 <= c && c < Q);
        let diff = (c as i64) - (a as i64);
        assert_eq!(diff.rem_euclid(Q as i64), 0);
    }
}

#[test]
fn poly_reduce_elementwise() {
    let mut coeffs: Vec<i32> = Vec::new();
    for i in 0..N {
        coeffs.push((i as i32) * 10_000_019 - 600_000_000);
    }
    let originals = coeffs.clone();
    let mut a = Poly { coeffs };
    poly_reduce(&mut a);
    for i in 0..N {
        let r = a.coeffs[i];
        assert!(-Q < r && r < Q);
        let diff = (r as i64) - (originals[i] as i64);
        assert_eq!(diff.rem_euclid(Q as i64), 0);
    }
}
