use lattice_ntt::field::{add_mod, div_mod, fe_new, inv_mod, mul_mod, pow_mod, sub_mod};

#[test]
fn add_sub_mul_known_values() {
    assert_eq!(add_mod(9, 12, 17), 4);
    assert_eq!(add_mod(0, 0, 17), 0);
    assert_eq!(sub_mod(3, 12, 17), 8);
    assert_eq!(sub_mod(12, 3, 17), 9);
    assert_eq!(mul_mod(5, 7, 17), 1);
    assert_eq!(mul_mod(65536, 65536, 65537), 1);
}

#[test]
fn fe_new_reduces() {
    assert_eq!(fe_new(65537, 65537), 0);
    assert_eq!(fe_new(65538, 65537), 1);
    assert_eq!(fe_new(16, 17), 16);
}

#[test]
fn pow_mod_known_values() {
    assert_eq!(pow_mod(3, 4, 17), 13);
    assert_eq!(pow_mod(2, 0, 17), 1);
    assert_eq!(pow_mod(0, 5, 17), 0);
    assert_eq!(pow_mod(282, 65536, 65537), 1);
}

#[test]
fn inverse_known_values() {
    assert_eq!(inv_mod(3, 17), Some(6));
    assert_eq!(inv_mod(1, 17), Some(1));
    assert_eq!(inv_mod(16, 17), Some(16));
    let gi = inv_mod(282, 65537).unwrap();
    assert_eq!(mul_mod(282, gi, 65537), 1);
}

#[test]
fn inverse_of_zero_is_absent() {
    assert_eq!(inv_mod(0, 17), None);
    assert_eq!(inv_mod(0, 65537), None);
}

#[test]
fn inverse_absent_without_coprimality() {
    assert_eq!(inv_mod(6, 9), None);
    assert_eq!(inv_mod(4, 12), None);
}

#[test]
fn division_known_values() {
    assert_eq!(div_mod(1, 3, 17), Some(6));
    assert_eq!(div_mod(10, 5, 17), Some(2));
    assert_eq!(div_mod(4, 0, 17), None);
}
