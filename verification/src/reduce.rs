//! Reduction primitives for a second, independent prime modulus `Q`,
//! used by the partially stubbed polynomial-reduction path. This modulus
//! is unrelated to the transform's field and must never be mixed with it.

use vstd::prelude::*;
use vstd::arithmetic::div_mod::{lemma_mod_add_multiples_vanish, lemma_mod_multiples_basic,
    lemma_mod_equivalence, lemma_small_mod};

verus! {

/// The reduction modulus.
pub const Q: i32 = 8380417;

/// One shift-and-multiply approximate reduction step: returns a value
/// congruent to `a` modulo `Q` lying strictly within `(-Q, Q)`. The result
/// is not guaranteed non-negative; `caddq` completes the canonicalization.
pub fn reduce32(a: i32) -> (r: i32)
    requires
        a <= i32::MAX - 0x40_0000,
    ensures
        r as int % Q as int == a as int % Q as int,
        -(Q as int) < (r as int) < (Q as int),
{
    proof {
        assert(1i32 << 22i32 == 0x40_0000) by (bit_vector);
    }
    let u = a + (1i32 << 22);
    let t = u >> 23;
    proof {
        assert(-256 <= t as int <= 255 && 0 <= u as int - t as int * 0x80_0000
            && u as int - t as int * 0x80_0000 < 0x80_0000) by (bit_vector)
            requires
                t == u >> 23i32,
        ;
        assert(u == a + 0x40_0000);
    }
    let r = a - t * Q;
    proof {
        lemma_mod_multiples_basic(-(t as int), Q as int);
        lemma_mod_equivalence(r as int, a as int, Q as int);
        assert((r as int - a as int) % (Q as int) == 0) by {
            assert(r as int - a as int == (Q as int) * (-(t as int)));
        }
    }
    r
}

/// Canonicalize a value from `(-Q, Q)` into `[0, Q)` by adding `Q`
/// exactly when the input is negative.
pub fn caddq(a: i32) -> (r: i32)
    requires
        -(Q as int) < (a as int) < (Q as int),
    ensures
        0 <= r < Q,
        r as int % Q as int == a as int % Q as int,
{
    let r = if a < 0 {
        a + Q
    } else {
        a
    };
    proof {
        lemma_mod_add_multiples_vanish(a as int, Q as int);
        lemma_small_mod(r as nat, Q as nat);
    }
    r
}

} // verus!
