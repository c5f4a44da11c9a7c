//! Arithmetic in the field of integers modulo a prime `p`: addition,
//! subtraction, multiplication, exponentiation, inversion and division,
//! each with an exact contract over the mathematical model.

use vstd::prelude::*;
use vstd::arithmetic::div_mod::{
    lemma_fundamental_div_mod, lemma_mod_add_multiples_vanish, lemma_mod_bound,
    lemma_mod_self_0, lemma_mul_mod_noop_left, lemma_mul_mod_noop_right, lemma_small_mod,
    lemma_sub_mod_noop,
};

use vstd::arithmetic::mul::{
    lemma_mul_is_commutative, lemma_mul_is_distributive_sub, lemma_mul_upper_bound,
};
use vstd::arithmetic::power::{lemma_pow0, lemma_pow1, lemma_pow_adds, pow};

verus! {

/// `a + b` reduced to the least non-negative residue modulo `p`.
pub open spec fn addm(a: int, b: int, p: int) -> int {
    (a + b) % p
}

/// `a - b` reduced to the least non-negative residue modulo `p`.
pub open spec fn subm(a: int, b: int, p: int) -> int {
    (a - b) % p
}

/// `a * b` reduced to the least non-negative residue modulo `p`.
pub open spec fn mulm(a: int, b: int, p: int) -> int {
    (a * b) % p
}

/// `b` raised to the `e`-th power, reduced modulo `p`.
pub open spec fn powm(b: int, e: nat, p: int) -> int {
    pow(b, e) % p
}

/// Greatest common divisor, by the Euclidean recursion.
pub open spec fn gcd_spec(a: nat, b: nat) -> nat
    decreases b,
{
    if b == 0 {
        a
    } else {
        gcd_spec(b, a % b)
    }
}

/// `a` has a multiplicative inverse modulo `p`.
pub open spec fn has_inv(a: int, p: int) -> bool {
    exists|x: int| 0 <= x < p && mulm(a, x, p) == 1
}

/// The multiplicative inverse of `a` modulo `p` (meaningful when `has_inv(a, p)`).
pub open spec fn invm(a: int, p: int) -> int {
    choose|x: int| 0 <= x < p && mulm(a, x, p) == 1
}

/// The least non-negative residue of `x` modulo `p`.
pub fn fe_new(x: u64, p: u64) -> (r: u64)
    requires
        p >= 2,
    ensures
        r == x as int % p as int,
        r < p,
{
    x % p
}

/// Field addition.
pub fn add_mod(a: u64, b: u64, p: u64) -> (r: u64)
    requires
        p >= 2,
    ensures
        r == addm(a as int, b as int, p as int),
        r < p,
{
    let s: u128 = (a as u128 + b as u128) % (p as u128);
    proof {
        lemma_mod_bound(a as int + b as int, p as int);
    }
    s as u64
}

/// Field subtraction.
pub fn sub_mod(a: u64, b: u64, p: u64) -> (r: u64)
    requires
        p >= 2,
        a < p,
        b < p,
    ensures
        r == subm(a as int, b as int, p as int),
        r < p,
{
    let s: u128 = (a as u128 + p as u128 - b as u128) % (p as u128);
    proof {
        lemma_mod_add_multiples_vanish(a as int - b as int, p as int);
        lemma_mod_bound(a as int - b as int, p as int);
    }
    s as u64
}

/// Field multiplication.
pub fn mul_mod(a: u64, b: u64, p: u64) -> (r: u64)
    requires
        p >= 2,
    ensures
        r == mulm(a as int, b as int, p as int),
        r < p,
{
    proof {
        lemma_mul_upper_bound(a as int, u64::MAX as int, b as int, u64::MAX as int);
    }
    let s: u128 = (a as u128 * b as u128) % (p as u128);
    proof {
        lemma_mod_bound(a as int * b as int, p as int);
    }
    s as u64
}

/// Field exponentiation by an integer exponent.
pub fn pow_mod(b: u64, e: u64, p: u64) -> (r: u64)
    requires
        p >= 2,
    ensures
        r == powm(b as int, e as nat, p as int),
        r < p,
{
    let mut acc: u64 = 1;
    let mut k: u64 = 0;
    proof {
        lemma_pow0(b as int);
        lemma_small_mod(1nat, p as nat);
    }
    while k < e
        invariant
            p >= 2,
            k <= e,
            acc == powm(b as int, k as nat, p as int),
            acc < p,
        decreases e - k,
    {
        proof {
            lemma_mul_mod_noop_left(pow(b as int, k as nat), b as int, p as int);
            lemma_mul_is_commutative(pow(b as int, k as nat), b as int);
            lemma_pow_adds(b as int, k as nat, 1nat);
            lemma_pow1(b as int);
        }
        acc = mul_mod(acc, b, p);
        k = k + 1;
    }
    acc
}

/// `d` divides `n` over the integers.
pub open spec fn divides(d: int, n: int) -> bool {
    exists|k: int| n == #[trigger] (d * k)
}

/// The Euclidean gcd divides both of its arguments.
proof fn lemma_gcd_divides(a: nat, b: nat)
    ensures
        divides(gcd_spec(a, b) as int, a as int),
        divides(gcd_spec(a, b) as int, b as int),
    decreases b,
{
    if b == 0 {
        assert(a as int == gcd_spec(a, 0) as int * 1);
        assert(0int == gcd_spec(a, 0) as int * 0);
    } else {
        lemma_gcd_divides(b, a % b);
        let g = gcd_spec(b, a % b) as int;
        let k1 = choose|k: int| b as int == #[trigger] (g * k);
        let k2 = choose|k: int| (a % b) as int == #[trigger] (g * k);
        lemma_fundamental_div_mod(a as int, b as int);
        assert(a as int == b as int * (a as int / b as int) + (a as int % b as int));
        let q = a as int / b as int;
        assert(a as int == (g * k1) * q + g * k2);
        assert((g * k1) * q == g * (k1 * q)) by (nonlinear_arith);
        assert(g * (k1 * q) + g * k2 == g * (k1 * q + k2)) by (nonlinear_arith);
        assert(a as int == g * (k1 * q + k2));
    }
}

/// Congruence is preserved by one step of the extended Euclidean recursion.
proof fn lemma_egcd_step(a: int, x0: int, x1: int, q: int, r0: int, r1: int, p: int)
    requires
        p >= 2,
        (a * x0) % p == r0 % p,
        (a * x1) % p == r1 % p,
    ensures
        (a * subm(x0, mulm(q % p, x1, p), p)) % p == (r0 - q * r1) % p,
{
    let w = mulm(q % p, x1, p);
    let s = subm(x0, w, p);
    lemma_mul_mod_noop_right(a, x0 - w, p);
    lemma_mul_is_distributive_sub(a, x0, w);
    assert((a * s) % p == (a * x0 - a * w) % p);
    // (a * w) % p == (q * r1) % p
    lemma_mul_mod_noop_right(a, (q % p) * x1, p);
    assert(a * ((q % p) * x1) == (q % p) * (a * x1)) by (nonlinear_arith);
    lemma_mul_mod_noop_left(q, a * x1, p);
    lemma_mul_mod_noop_right(q, a * x1, p);
    lemma_mul_mod_noop_right(q, r1, p);
    assert((a * w) % p == (q * r1) % p);
    // move the congruences through the subtraction
    lemma_sub_mod_noop(a * x0, a * w, p);
    lemma_sub_mod_noop(r0, q * r1, p);
    assert((a * x0 - a * w) % p == (r0 - q * r1) % p);
}

/// A multiplicative inverse modulo `p` is unique; `invm` names it.
pub proof fn lemma_inv_unique(a: int, x: int, p: int)
    requires
        p >= 2,
        0 <= x < p,
        mulm(a, x, p) == 1,
    ensures
        has_inv(a, p),
        invm(a, p) == x,
{
    assert(has_inv(a, p));
    let y = invm(a, p);
    assert(0 <= y < p && mulm(a, y, p) == 1);
    lemma_small_mod(x as nat, p as nat);
    lemma_small_mod(y as nat, p as nat);
    lemma_small_mod(1nat, p as nat);
    // x == (x * (a * y)) % p == ((a * x) * y) % p == y
    lemma_mul_mod_noop_right(x, a * y, p);
    assert(x * ((a * y) % p) == x) by {
        assert((a * y) % p == 1);
    }
    assert(x % p == (x * (a * y)) % p);
    assert(x * (a * y) == (a * x) * y) by (nonlinear_arith);
    lemma_mul_mod_noop_left(a * x, y, p);
    assert(((a * x) % p) * y == y) by {
        assert((a * x) % p == 1);
    }
    assert(x % p == y % p);
}

/// Bezout's identity: the gcd is an integer combination of its arguments.
proof fn lemma_bezout(a: nat, b: nat)
    ensures
        exists|x: int, y: int|
            #![trigger a as int * x, b as int * y]
            gcd_spec(a, b) as int == a as int * x + b as int * y,
    decreases b,
{
    if b == 0 {
        assert(gcd_spec(a, 0nat) as int == a as int * 1int + b as int * 0int);
    } else {
        lemma_bezout(b, a % b);
        let (x1, y1) = choose|x: int, y: int|
            #![trigger b as int * x, (a % b) as int * y]
            gcd_spec(b, a % b) as int == b as int * x + (a % b) as int * y;
        lemma_fundamental_div_mod(a as int, b as int);
        let q = a as int / b as int;
        assert(gcd_spec(a, b) as int == a as int * y1 + b as int * (x1 - q * y1))
            by (nonlinear_arith)
            requires
                gcd_spec(a, b) == gcd_spec(b, a % b),
                gcd_spec(b, a % b) as int == b as int * x1 + (a % b) as int * y1,
                (a % b) as int == a as int - b as int * q,
        ;
    }
}

/// An argument coprime to the modulus has a multiplicative inverse.
pub proof fn lemma_gcd_one_inv(a: nat, p: nat)
    requires
        p >= 2,
        gcd_spec(p, a) == 1,
    ensures
        has_inv(a as int, p as int),
        0 <= invm(a as int, p as int) < p,
        mulm(a as int, invm(a as int, p as int), p as int) == 1,
{
    let ai = a as int;
    let pi = p as int;
    lemma_bezout(p, a);
    let (x, y) = choose|x: int, y: int|
        #![trigger pi * x, ai * y]
        gcd_spec(p, a) as int == pi * x + ai * y;
    let w = y % pi;
    lemma_mod_bound(y, pi);
    lemma_mul_mod_noop_right(ai, y, pi);
    assert(ai * y == pi * (-x) + 1) by (nonlinear_arith)
        requires
            1int == pi * x + ai * y,
    ;
    vstd::arithmetic::div_mod::lemma_mod_multiples_vanish(-x, 1int, pi);
    lemma_small_mod(1nat, p);
    assert(mulm(ai, w, pi) == 1);
    lemma_inv_unique(ai, w, pi);
}

/// Multiplicative inverse in the field, by the extended Euclidean algorithm.
/// Returns `None` exactly when `a` and the modulus are not coprime (in
/// particular, the additive identity has no inverse).
pub fn inv_mod(a: u64, p: u64) -> (r: Option<u64>)
    requires
        p >= 2,
        a < p,
    ensures
        r.is_some() <==> gcd_spec(p as nat, a as nat) == 1,
        r.is_some() ==> r.unwrap() < p && mulm(a as int, r.unwrap() as int, p as int) == 1,
        r.is_some() ==> has_inv(a as int, p as int),
        r.is_none() ==> !has_inv(a as int, p as int),
        a == 0 ==> r.is_none(),
{
    let mut r0: u64 = p;
    let mut r1: u64 = a;
    let mut x0: u64 = 0;
    let mut x1: u64 = 1;
    proof {
        lemma_mod_self_0(p as int);
        lemma_small_mod(a as nat, p as nat);
        lemma_small_mod(0nat, p as nat);
        assert(a as int * 0int == 0int) by (nonlinear_arith);
        assert(a as int * 1int == a as int) by (nonlinear_arith);
    }
    while r1 != 0
        invariant
            p >= 2,
            1 <= r0 <= p,
            r1 < r0,
            x0 < p,
            x1 < p,
            (a as int * x0 as int) % (p as int) == r0 as int % (p as int),
            (a as int * x1 as int) % (p as int) == r1 as int % (p as int),
            gcd_spec(r0 as nat, r1 as nat) == gcd_spec(p as nat, a as nat),
        decreases r1,
    {
        let q = r0 / r1;
        let r2 = r0 % r1;
        proof {
            lemma_fundamental_div_mod(r0 as int, r1 as int);
            lemma_mul_is_commutative(r1 as int, r0 as int / r1 as int);
            assert(q as int == r0 as int / r1 as int);
            assert(r2 as int == r0 as int % r1 as int);
            lemma_egcd_step(
                a as int,
                x0 as int,
                x1 as int,
                q as int,
                r0 as int,
                r1 as int,
                p as int,
            );
            assert(r0 as int - q as int * r1 as int == r2 as int);
        }
        let x2 = sub_mod(x0, mul_mod(fe_new(q, p), x1, p), p);
        r0 = r1;
        r1 = r2;
        x0 = x1;
        x1 = x2;
    }
    if r0 == 1 {
        proof {
            lemma_small_mod(1nat, p as nat);
            assert(mulm(a as int, x0 as int, p as int) == 1);
        }
        Some(x0)
    } else {
        proof {
            assert(gcd_spec(p as nat, a as nat) == r0 as nat);
            assert(r0 >= 2);
            lemma_gcd_divides(p as nat, a as nat);
            lemma_no_inv_when_gcd_large(a as int, p as int, r0 as int);
        }
        None
    }
}

/// When a common divisor greater than one exists, there is no inverse.
proof fn lemma_no_inv_when_gcd_large(a: int, p: int, g: int)
    requires
        p >= 2,
        0 <= a,
        g >= 2,
        divides(g, a),
        divides(g, p),
    ensures
        !has_inv(a, p),
{
    if has_inv(a, p) {
        let x = choose|x: int| 0 <= x < p && mulm(a, x, p) == 1;
        lemma_fundamental_div_mod(a * x, p);
        let k = a * x / p;
        assert(a * x == p * k + 1);
        let ka = choose|kk: int| a == #[trigger] (g * kk);
        let kp = choose|kk: int| p == #[trigger] (g * kk);
        assert(a * x == g * (ka * x)) by (nonlinear_arith)
            requires
                a == g * ka,
        ;
        assert(p * k == g * (kp * k)) by (nonlinear_arith)
            requires
                p == g * kp,
        ;
        assert(g * (ka * x) - g * (kp * k) == g * (ka * x - kp * k)) by (nonlinear_arith);
        let m = ka * x - kp * k;
        assert(g * m == 1);
        assert(false) by (nonlinear_arith)
            requires
                g >= 2,
                g * m == 1,
        ;
    }
}

/// Field division: `a` times the inverse of `b`. Returns `None` exactly when
/// `b` is not invertible modulo `p`.
pub fn div_mod(a: u64, b: u64, p: u64) -> (r: Option<u64>)
    requires
        p >= 2,
        a < p,
        b < p,
    ensures
        r.is_some() <==> gcd_spec(p as nat, b as nat) == 1,
        r.is_some() ==> r.unwrap() < p && r.unwrap() == mulm(
            a as int,
            invm(b as int, p as int),
            p as int,
        ),
        b == 0 ==> r.is_none(),
{
    match inv_mod(b, p) {
        Some(bi) => {
            proof {
                lemma_inv_unique(b as int, bi as int, p as int);
            }
            Some(mul_mod(a, bi, p))
        },
        None => None,
    }
}

} // verus!
