//! Mathematical model of the decimation-in-frequency transform: a recursive
//! butterfly specification, an equivalent stage-by-stage form matched by the
//! iterative code, and the algebraic laws (exact round trip, linearity)
//! proved over the model.

use vstd::prelude::*;
use vstd::arithmetic::div_mod::{
    lemma_add_mod_noop, lemma_fundamental_div_mod, lemma_mod_bound, lemma_mod_multiples_basic,
    lemma_mod_multiples_vanish, lemma_mul_mod_noop, lemma_mul_mod_noop_left,
    lemma_mul_mod_noop_right, lemma_small_mod, lemma_sub_mod_noop,
};
use vstd::arithmetic::mul::{lemma_mul_inequality, lemma_mul_strict_inequality_converse};
use vstd::arithmetic::power::{
    lemma1_pow, lemma_pow0, lemma_pow1, lemma_pow_adds, lemma_pow_distributes, lemma_pow_mod_noop,
    lemma_pow_multiplies, pow,
};
use vstd::arithmetic::power2::{lemma_pow2_adds, lemma_pow2_unfold, pow2};
use crate::field::{addm, gcd_spec, invm, lemma_gcd_one_inv, mulm, powm, subm};

verus! {

/// The sequence of a `u64` vector's elements, as unbounded integers.
pub open spec fn to_ints(s: Seq<u64>) -> Seq<int> {
    s.map_values(|x: u64| x as int)
}

/// Every element is a canonical residue modulo `p`.
pub open spec fn bounded(s: Seq<int>, p: int) -> bool {
    forall|i: int| 0 <= i < s.len() ==> 0 <= #[trigger] s[i] < p
}

/// Elementwise sum modulo `p`.
pub open spec fn seq_addm(s: Seq<int>, t: Seq<int>, p: int) -> Seq<int> {
    Seq::new(s.len(), |i: int| addm(s[i], t[i], p))
}

/// Every element multiplied by `c` modulo `p`.
pub open spec fn scalem(s: Seq<int>, c: int, p: int) -> Seq<int> {
    Seq::new(s.len(), |i: int| mulm(s[i], c, p))
}

/// Elementwise product modulo `p`.
pub open spec fn pointwise_mulm(s: Seq<int>, t: Seq<int>, p: int) -> Seq<int> {
    Seq::new(s.len(), |i: int| mulm(s[i], t[i], p))
}

/// First halves of the forward butterflies: sums of the two half-arrays.
pub open spec fn butterfly_top(s: Seq<int>, p: int) -> Seq<int> {
    Seq::new((s.len() / 2) as nat, |i: int| addm(s[i], s[i + s.len() / 2], p))
}

/// Second halves of the forward butterflies: twiddled differences.
pub open spec fn butterfly_bot(s: Seq<int>, g: int, p: int) -> Seq<int> {
    Seq::new(
        (s.len() / 2) as nat,
        |i: int| mulm(powm(g, i as nat, p), subm(s[i], s[i + s.len() / 2], p), p),
    )
}

/// The forward decimation-in-frequency transform with root `g`: one layer
/// of butterflies, then the two halves transformed with the squared root.
/// Output is in the order this recursion naturally produces.
pub open spec fn ntt_spec(s: Seq<int>, g: int, p: int) -> Seq<int>
    decreases s.len(),
{
    if s.len() <= 1 {
        s
    } else {
        ntt_spec(butterfly_top(s, p), mulm(g, g, p), p) + ntt_spec(
            butterfly_bot(s, g, p),
            mulm(g, g, p),
            p,
        )
    }
}

/// The inverse recombination of two half-results `t` and `b` with root `gi`:
/// positions `j` and `j + len` receive `t[j] +- gi^j * b[j]`.
pub open spec fn intt_combine(t: Seq<int>, b: Seq<int>, gi: int, p: int) -> Seq<int> {
    Seq::new(
        (2 * t.len()) as nat,
        |j: int|
            if j < t.len() {
                addm(t[j], mulm(powm(gi, j as nat, p), b[j], p), p)
            } else {
                subm(
                    t[j - t.len()],
                    mulm(powm(gi, (j - t.len()) as nat, p), b[j - t.len()], p),
                    p,
                )
            },
    )
}

/// The unscaled inverse transform with inverted root `gi`: the two halves
/// inverted with the squared root, then one recombination layer. Composed
/// with the forward transform it multiplies every element by the length;
/// the executable inverse divides that factor out afterwards.
pub open spec fn intt_core(s: Seq<int>, gi: int, p: int) -> Seq<int>
    decreases s.len(),
{
    if s.len() <= 1 {
        s
    } else {
        let h = s.len() as int / 2;
        intt_combine(
            intt_core(s.subrange(0, h), mulm(gi, gi, p), p),
            intt_core(s.subrange(h, s.len() as int), mulm(gi, gi, p), p),
            gi,
            p,
        )
    }
}

/// One whole-array stage of forward butterflies at a given stride, with
/// stage root `g`: each block of `2 * stride` elements is combined pairwise.
pub open spec fn dif_stage(s: Seq<int>, stride: int, g: int, p: int) -> Seq<int> {
    Seq::new(
        s.len(),
        |j: int|
            {
                let r = j % (2 * stride);
                if r < stride {
                    addm(s[j], s[j + stride], p)
                } else {
                    mulm(powm(g, (r - stride) as nat, p), subm(s[j - stride], s[j], p), p)
                }
            },
    )
}

/// The remaining forward stages from a given stride down to 1, the stage
/// root squaring as the stride halves.
pub open spec fn ntt_stages(s: Seq<int>, stride: int, g: int, p: int) -> Seq<int>
    decreases stride,
{
    if stride <= 0 {
        s
    } else {
        ntt_stages(dif_stage(s, stride, g, p), stride / 2, mulm(g, g, p), p)
    }
}

/// One whole-array stage of inverse butterflies at a given stride, with
/// stage root `z`.
pub open spec fn istage(s: Seq<int>, stride: int, z: int, p: int) -> Seq<int> {
    Seq::new(
        s.len(),
        |j: int|
            {
                let r = j % (2 * stride);
                if r < stride {
                    addm(s[j], mulm(powm(z, r as nat, p), s[j + stride], p), p)
                } else {
                    subm(s[j - stride], mulm(powm(z, (r - stride) as nat, p), s[j], p), p)
                }
            },
    )
}

/// The first `k` inverse stages (strides 1, 2, ..., 2^(k-1)) of a transform
/// of length `2^nb` with inverted root `gi`: stage `j` uses stride `2^j`
/// and stage root `gi^(2^(nb-1-j))`.
pub open spec fn intt_stages(s: Seq<int>, k: nat, nb: nat, gi: int, p: int) -> Seq<int>
    decreases k,
{
    if k == 0 || k > nb {
        s
    } else {
        istage(
            intt_stages(s, (k - 1) as nat, nb, gi, p),
            pow2((k - 1) as nat) as int,
            powm(gi, pow2((nb - k) as nat), p),
            p,
        )
    }
}

/// Squaring a reduced power doubles the exponent.
pub proof fn lemma_powm_double(g: int, e: nat, p: int)
    requires
        p >= 1,
    ensures
        mulm(powm(g, e, p), powm(g, e, p), p) == powm(g, 2 * e, p),
{
    lemma_mul_mod_noop(pow(g, e), pow(g, e), p);
    lemma_pow_adds(g, e, e);
}

/// Reducing the base before exponentiating does not change a reduced power.
pub proof fn lemma_powm_base_mod(g: int, e: nat, p: int)
    requires
        p >= 1,
    ensures
        powm(g % p, e, p) == powm(g, e, p),
{
    lemma_pow_mod_noop(g, e, p);
}

/// Exponentiating a reduced square doubles the exponent.
pub proof fn lemma_powm_square_base(g: int, e: nat, p: int)
    requires
        p >= 1,
    ensures
        powm(mulm(g, g, p), e, p) == powm(g, 2 * e, p),
{
    lemma_pow_mod_noop(g * g, e, p);
    assert(g * g == pow(g, 2)) by {
        lemma_pow1(g);
        lemma_pow_adds(g, 1, 1);
    }
    lemma_pow_multiplies(g, 2, e);
}

/// Matching powers of an element and its inverse cancel.
pub proof fn lemma_pow_pair_one(g: int, gi: int, e: nat, p: int)
    requires
        p >= 2,
        mulm(g, gi, p) == 1,
    ensures
        (pow(g, e) * pow(gi, e)) % p == 1,
        mulm(powm(g, e, p), powm(gi, e, p), p) == 1,
{
    lemma_pow_distributes(g, gi, e);
    lemma_pow_mod_noop(g * gi, e, p);
    lemma1_pow(e);
    lemma_small_mod(1nat, p as nat);
    assert(pow(g * gi, e) % p == pow((g * gi) % p, e) % p);
    assert(pow(1, e) % p == 1);
    lemma_mul_mod_noop(pow(g, e), pow(gi, e), p);
}

/// The transform preserves length on power-of-two inputs.
pub proof fn lemma_ntt_spec_len(s: Seq<int>, g: int, p: int, nb: nat)
    requires
        s.len() == pow2(nb),
    ensures
        ntt_spec(s, g, p).len() == s.len(),
    decreases nb,
{
    vstd::arithmetic::power2::lemma_pow2_pos(nb);
    if s.len() <= 1 {
    } else {
        assert(nb > 0) by {
            if nb == 0 {
                vstd::arithmetic::power2::lemma2_to64();
            }
        }
        lemma_pow2_unfold(nb);
        assert(pow2(nb) == 2 * pow2((nb - 1) as nat));
        lemma_ntt_spec_len(butterfly_top(s, p), mulm(g, g, p), p, (nb - 1) as nat);
        lemma_ntt_spec_len(butterfly_bot(s, g, p), mulm(g, g, p), p, (nb - 1) as nat);
    }
}

/// The unscaled inverse preserves length on power-of-two inputs.
pub proof fn lemma_intt_core_len(s: Seq<int>, gi: int, p: int, nb: nat)
    requires
        s.len() == pow2(nb),
    ensures
        intt_core(s, gi, p).len() == s.len(),
    decreases nb,
{
    vstd::arithmetic::power2::lemma_pow2_pos(nb);
    if s.len() <= 1 {
    } else {
        assert(nb > 0) by {
            if nb == 0 {
                vstd::arithmetic::power2::lemma2_to64();
            }
        }
        lemma_pow2_unfold(nb);
        let h = s.len() as int / 2;
        lemma_intt_core_len(s.subrange(0, h), mulm(gi, gi, p), p, (nb - 1) as nat);
    }
}

/// Applied inverse stages preserve length.
pub proof fn lemma_intt_stages_len(s: Seq<int>, k: nat, nb: nat, gi: int, p: int)
    ensures
        intt_stages(s, k, nb, gi, p).len() == s.len(),
    decreases k,
{
    if k == 0 || k > nb {
    } else {
        lemma_intt_stages_len(s, (k - 1) as nat, nb, gi, p);
    }
}

/// Within an aligned block, an offset is its own remainder.
pub proof fn lemma_block_mod(start: int, off: int, step: int)
    requires
        step >= 1,
        start % step == 0,
        0 <= off < step,
    ensures
        (start + off) % step == off,
{
    lemma_fundamental_div_mod(start, step);
    lemma_mod_multiples_vanish(start / step, off, step);
    lemma_small_mod(off as nat, step as nat);
}

/// An aligned position strictly inside an aligned range leaves room
/// for one whole block.
pub proof fn lemma_block_fits(start: int, step: int, n: int)
    requires
        step >= 1,
        start % step == 0,
        n % step == 0,
        0 <= start < n,
    ensures
        start + step <= n,
{
    lemma_fundamental_div_mod(start, step);
    lemma_fundamental_div_mod(n, step);
    let q = start / step;
    let m = n / step;
    assert(step * q < step * m);
    assert(q * step < m * step) by (nonlinear_arith)
        requires
            step * q < step * m,
    ;
    lemma_mul_strict_inequality_converse(q, m, step);
    assert(q + 1 <= m);
    lemma_mul_inequality(q + 1, m, step);
    assert((q + 1) * step <= m * step);
    assert((q + 1) * step == step * q + step) by (nonlinear_arith);
    assert(m * step == step * m) by (nonlinear_arith);
}

/// A larger power of two is a multiple of a smaller one.
pub proof fn lemma_pow2_mod_zero(a: nat, b: nat)
    requires
        a <= b,
    ensures
        pow2(b) as int % pow2(a) as int == 0,
{
    lemma_pow2_adds(a, (b - a) as nat);
    vstd::arithmetic::power2::lemma_pow2_pos(a);
    vstd::arithmetic::power2::lemma_pow2_pos((b - a) as nat);
    lemma_mod_multiples_basic(pow2((b - a) as nat) as int, pow2(a) as int);
    assert(pow2(a) as int * pow2((b - a) as nat) as int == pow2((b - a) as nat) as int * pow2(
        a,
    ) as int) by (nonlinear_arith);
}

/// The block around an aligned-range position lies whole inside the range.
pub proof fn lemma_block_span(j: int, step: int, n: int)
    requires
        step >= 1,
        0 <= j < n,
        n % step == 0,
    ensures
        0 <= j - j % step,
        j - j % step + step <= n,
        j % step < step,
{
    lemma_mod_bound(j, step);
    lemma_fundamental_div_mod(j, step);
    let b = j / step;
    vstd::arithmetic::div_mod::lemma_div_pos_is_pos(j, step);
    assert(step * b >= 0) by (nonlinear_arith)
        requires
            step >= 1,
            b >= 0,
    ;
    assert(j - j % step == step * b);
    assert((step * b) % step == 0) by {
        lemma_mod_multiples_basic(b, step);
        assert(step * b == b * step) by (nonlinear_arith);
    }
    lemma_block_fits(step * b, step, n);
}

/// A whole-array forward stage splits over the two halves when the blocks
/// do not straddle the boundary.
pub proof fn lemma_dif_stage_concat(s1: Seq<int>, s2: Seq<int>, stride: int, g: int, p: int)
    requires
        stride >= 1,
        s1.len() == s2.len(),
        s1.len() as int % (2 * stride) == 0,
        2 * stride <= s1.len(),
    ensures
        dif_stage(s1 + s2, stride, g, p) == dif_stage(s1, stride, g, p) + dif_stage(
            s2,
            stride,
            g,
            p,
        ),
{
    let n1 = s1.len() as int;
    let step = 2 * stride;
    let lhs = dif_stage(s1 + s2, stride, g, p);
    let rhs = dif_stage(s1, stride, g, p) + dif_stage(s2, stride, g, p);
    assert forall|j: int| 0 <= j < 2 * n1 implies lhs[j] == rhs[j] by {
        if j < n1 {
            lemma_block_span(j, step, n1);
            let r = j % step;
            if r < stride {
                assert(j + stride < n1);
            } else {
                assert(0 <= j - stride);
            }
        } else {
            let j2 = j - n1;
            lemma_fundamental_div_mod(n1, step);
            lemma_mod_multiples_vanish(n1 / step, j2, step);
            assert(j % step == j2 % step);
            lemma_block_span(j2, step, n1);
            let r = j2 % step;
            if r < stride {
                assert(j2 + stride < n1);
                assert((s1 + s2)[j] == s2[j2]);
                assert((s1 + s2)[j + stride] == s2[j2 + stride]);
            } else {
                assert(0 <= j2 - stride);
                assert((s1 + s2)[j] == s2[j2]);
                assert((s1 + s2)[j - stride] == s2[j2 - stride]);
            }
        }
    }
    assert(lhs =~= rhs);
}

/// The remaining forward stages split over the two halves as long as every
/// remaining stride fits inside a half.
pub proof fn lemma_ntt_stages_concat(s1: Seq<int>, s2: Seq<int>, stride: int, g: int, p: int)
    requires
        stride >= 0,
        s1.len() == s2.len(),
        stride >= 1 ==> 2 * stride <= s1.len() && (exists|a: nat, b: nat|
            stride == pow2(a) && s1.len() == pow2(b)),
    ensures
        ntt_stages(s1 + s2, stride, g, p) == ntt_stages(s1, stride, g, p) + ntt_stages(
            s2,
            stride,
            g,
            p,
        ),
    decreases stride,
{
    if stride <= 0 {
    } else {
        let (a, b) = choose|a: nat, b: nat| stride == pow2(a) && s1.len() == pow2(b);
        assert(s1.len() as int % (2 * stride) == 0) by {
            assert(2 * stride == pow2(a + 1)) by {
                lemma_pow2_unfold((a + 1) as nat);
            }
            assert(a + 1 <= b) by {
                if b < a + 1 {
                    vstd::arithmetic::power2::lemma_pow2_strictly_increases(b, (a + 1) as nat);
                }
            }
            lemma_pow2_mod_zero((a + 1) as nat, b);
        }
        lemma_dif_stage_concat(s1, s2, stride, g, p);
        let d1 = dif_stage(s1, stride, g, p);
        let d2 = dif_stage(s2, stride, g, p);
        if stride >= 2 {
            assert(stride / 2 == pow2((a - 1) as nat) && 2 * (stride / 2) == stride) by {
                assert(a >= 1) by {
                    if a == 0 {
                        vstd::arithmetic::power2::lemma2_to64();
                    }
                }
                lemma_pow2_unfold(a);
            }
        }
        lemma_ntt_stages_concat(d1, d2, stride / 2, mulm(g, g, p), p);
    }
}

/// On a power-of-two input, running all stages from half the length down
/// to stride 1 computes the recursive transform.
pub proof fn lemma_ntt_stages_equiv(s: Seq<int>, g: int, p: int, nb: nat)
    requires
        s.len() == pow2(nb),
    ensures
        ntt_stages(s, s.len() as int / 2, g, p) == ntt_spec(s, g, p),
    decreases nb,
{
    vstd::arithmetic::power2::lemma_pow2_pos(nb);
    if s.len() <= 1 {
    } else {
        assert(nb > 0) by {
            if nb == 0 {
                vstd::arithmetic::power2::lemma2_to64();
            }
        }
        lemma_pow2_unfold(nb);
        let h = s.len() as int / 2;
        assert(h == pow2((nb - 1) as nat));
        let t = butterfly_top(s, p);
        let bt = butterfly_bot(s, g, p);
        let g2 = mulm(g, g, p);
        let d = dif_stage(s, h, g, p);
        assert forall|j: int| 0 <= j < s.len() implies d[j] == (t + bt)[j] by {
            lemma_small_mod(j as nat, (2 * h) as nat);
            assert(j % (2 * h) == j);
            if j < h {
                assert((t + bt)[j] == t[j]);
            } else {
                assert((t + bt)[j] == bt[j - h]);
            }
        }
        assert(d =~= t + bt);
        if h >= 2 {
            assert(h / 2 == pow2((nb - 2) as nat) && 2 * (h / 2) == h) by {
                assert(nb >= 2) by {
                    if nb == 1 {
                        vstd::arithmetic::power2::lemma2_to64();
                    }
                }
                lemma_pow2_unfold((nb - 1) as nat);
            }
        }
        lemma_ntt_stages_concat(t, bt, h / 2, g2, p);
        lemma_ntt_stages_equiv(t, g2, p, (nb - 1) as nat);
        lemma_ntt_stages_equiv(bt, g2, p, (nb - 1) as nat);
        assert(ntt_stages(s, h, g, p) == ntt_stages(d, h / 2, g2, p));
        assert(ntt_stages(s, h, g, p) == ntt_spec(t, g2, p) + ntt_spec(bt, g2, p));
    }
}

/// A whole-array inverse stage splits over the two halves when the blocks
/// do not straddle the boundary.
pub proof fn lemma_istage_concat(s1: Seq<int>, s2: Seq<int>, stride: int, z: int, p: int)
    requires
        stride >= 1,
        s1.len() == s2.len(),
        s1.len() as int % (2 * stride) == 0,
        2 * stride <= s1.len(),
    ensures
        istage(s1 + s2, stride, z, p) == istage(s1, stride, z, p) + istage(s2, stride, z, p),
{
    let n1 = s1.len() as int;
    let step = 2 * stride;
    let lhs = istage(s1 + s2, stride, z, p);
    let rhs = istage(s1, stride, z, p) + istage(s2, stride, z, p);
    assert forall|j: int| 0 <= j < 2 * n1 implies lhs[j] == rhs[j] by {
        if j < n1 {
            lemma_block_span(j, step, n1);
            let r = j % step;
            if r < stride {
                assert(j + stride < n1);
            } else {
                assert(0 <= j - stride);
            }
        } else {
            let j2 = j - n1;
            lemma_fundamental_div_mod(n1, step);
            lemma_mod_multiples_vanish(n1 / step, j2, step);
            assert(j % step == j2 % step);
            lemma_block_span(j2, step, n1);
            let r = j2 % step;
            if r < stride {
                assert(j2 + stride < n1);
                assert((s1 + s2)[j] == s2[j2]);
                assert((s1 + s2)[j + stride] == s2[j2 + stride]);
            } else {
                assert(0 <= j2 - stride);
                assert((s1 + s2)[j] == s2[j2]);
                assert((s1 + s2)[j - stride] == s2[j2 - stride]);
            }
        }
    }
    assert(lhs =~= rhs);
}

/// The first `k` inverse stages of a full transform act independently on
/// the two halves, as halves of one size smaller with the squared root.
pub proof fn lemma_intt_stages_split(s1: Seq<int>, s2: Seq<int>, k: nat, nb: nat, gi: int, p: int)
    requires
        p >= 1,
        nb >= 1,
        k <= nb - 1,
        s1.len() == pow2((nb - 1) as nat),
        s2.len() == pow2((nb - 1) as nat),
    ensures
        intt_stages(s1 + s2, k, nb, gi, p) == intt_stages(
            s1,
            k,
            (nb - 1) as nat,
            mulm(gi, gi, p),
            p,
        ) + intt_stages(s2, k, (nb - 1) as nat, mulm(gi, gi, p), p),
    decreases k,
{
    let gi2 = mulm(gi, gi, p);
    if k == 0 {
    } else {
        lemma_intt_stages_split(s1, s2, (k - 1) as nat, nb, gi, p);
        let x1 = intt_stages(s1, (k - 1) as nat, (nb - 1) as nat, gi2, p);
        let x2 = intt_stages(s2, (k - 1) as nat, (nb - 1) as nat, gi2, p);
        lemma_intt_stages_len(s1, (k - 1) as nat, (nb - 1) as nat, gi2, p);
        lemma_intt_stages_len(s2, (k - 1) as nat, (nb - 1) as nat, gi2, p);
        let stride = pow2((k - 1) as nat) as int;
        vstd::arithmetic::power2::lemma_pow2_pos((k - 1) as nat);
        assert(2 * stride == pow2(k) as int) by {
            lemma_pow2_unfold(k);
        }
        assert(pow2(k) <= pow2((nb - 1) as nat)) by {
            if k < nb - 1 {
                vstd::arithmetic::power2::lemma_pow2_strictly_increases(k, (nb - 1) as nat);
            }
        }
        lemma_pow2_mod_zero(k, (nb - 1) as nat);
        lemma_istage_concat(x1, x2, stride, powm(gi, pow2((nb - k) as nat), p), p);
        // the full-size stage root equals the half-size stage root
        assert(powm(gi, pow2((nb - k) as nat), p) == powm(gi2, pow2((nb - 1 - k) as nat), p)) by {
            lemma_powm_square_base(gi, pow2((nb - 1 - k) as nat), p);
            lemma_pow2_unfold((nb - k) as nat);
        }
    }
}

/// On a power-of-two input, running all inverse stages from stride 1 up
/// to half the length computes the recursive unscaled inverse.
pub proof fn lemma_intt_stages_equiv(s: Seq<int>, gi: int, p: int, nb: nat)
    requires
        p >= 1,
        s.len() == pow2(nb),
    ensures
        intt_stages(s, nb, nb, gi, p) == intt_core(s, gi, p),
    decreases nb,
{
    vstd::arithmetic::power2::lemma_pow2_pos(nb);
    if nb == 0 {
        vstd::arithmetic::power2::lemma2_to64();
        assert(s.len() == 1);
    } else {
        lemma_pow2_unfold(nb);
        let h = pow2((nb - 1) as nat) as int;
        let n = s.len() as int;
        assert(n == 2 * h);
        let s1 = s.subrange(0, h);
        let s2 = s.subrange(h, n);
        assert(s =~= s1 + s2);
        let gi2 = mulm(gi, gi, p);
        lemma_intt_stages_split(s1, s2, (nb - 1) as nat, nb, gi, p);
        lemma_intt_stages_equiv(s1, gi2, p, (nb - 1) as nat);
        lemma_intt_stages_equiv(s2, gi2, p, (nb - 1) as nat);
        let y1 = intt_core(s1, gi2, p);
        let y2 = intt_core(s2, gi2, p);
        lemma_intt_core_len(s1, gi2, p, (nb - 1) as nat);
        lemma_intt_core_len(s2, gi2, p, (nb - 1) as nat);
        assert(intt_stages(s, (nb - 1) as nat, nb, gi, p) == y1 + y2);
        // the last stage is the top-level recombination
        assert(intt_stages(s, nb, nb, gi, p) == istage(y1 + y2, h, powm(gi, pow2(0), p), p));
        vstd::arithmetic::power2::lemma2_to64();
        assert(powm(gi, 1, p) == gi % p) by {
            lemma_pow1(gi);
        }
        let lhs = istage(y1 + y2, h, gi % p, p);
        let rhs = intt_combine(y1, y2, gi, p);
        assert forall|j: int| 0 <= j < n implies lhs[j] == rhs[j] by {
            lemma_small_mod(j as nat, (2 * h) as nat);
            assert(j % (2 * h) == j);
            if j < h {
                assert((y1 + y2)[j] == y1[j]);
                assert((y1 + y2)[j + h] == y2[j]);
                lemma_powm_base_mod(gi, j as nat, p);
            } else {
                assert((y1 + y2)[j - h] == y1[j - h]);
                assert((y1 + y2)[j] == y2[j - h]);
                lemma_powm_base_mod(gi, (j - h) as nat, p);
            }
        }
        assert(lhs =~= rhs);
        assert(intt_core(s, gi, p) == intt_combine(y1, y2, gi, p));
    }
}

/// The product of the squares of an element and its inverse is one.
pub proof fn lemma_inv_square(g: int, gi: int, p: int)
    requires
        p >= 2,
        mulm(g, gi, p) == 1,
    ensures
        mulm(mulm(g, g, p), mulm(gi, gi, p), p) == 1,
{
    lemma_pow_pair_one(g, gi, 2, p);
    assert(g * g == pow(g, 2) && gi * gi == pow(gi, 2)) by {
        lemma_pow1(g);
        lemma_pow_adds(g, 1, 1);
        lemma_pow1(gi);
        lemma_pow_adds(gi, 1, 1);
    }
    lemma_mul_mod_noop(pow(g, 2), pow(gi, 2), p);
}

/// One forward butterfly followed by the matching inverse butterfly returns
/// each operand multiplied by `2 * h` (the twiddle factors cancel).
proof fn lemma_butterfly_cancel(a: int, b: int, g: int, gi: int, j: nat, h: int, p: int)
    requires
        p >= 2,
        mulm(g, gi, p) == 1,
    ensures
        addm(
            mulm(addm(a, b, p), h, p),
            mulm(powm(gi, j, p), mulm(mulm(powm(g, j, p), subm(a, b, p), p), h, p), p),
            p,
        ) == mulm(a, 2 * h, p),
        subm(
            mulm(addm(a, b, p), h, p),
            mulm(powm(gi, j, p), mulm(mulm(powm(g, j, p), subm(a, b, p), p), h, p), p),
            p,
        ) == mulm(b, 2 * h, p),
{
    let u = powm(gi, j, p);
    let v = powm(g, j, p);
    let e1 = mulm(addm(a, b, p), h, p);
    lemma_mul_mod_noop_left(a + b, h, p);
    assert(e1 == ((a + b) * h) % p);
    let inner = mulm(v, subm(a, b, p), p);
    lemma_mul_mod_noop_right(v, a - b, p);
    assert(inner == (v * (a - b)) % p);
    let mid = mulm(inner, h, p);
    lemma_mul_mod_noop_left(v * (a - b), h, p);
    assert(mid == ((v * (a - b)) * h) % p);
    let e2 = mulm(u, mid, p);
    lemma_mul_mod_noop_right(u, (v * (a - b)) * h, p);
    assert(e2 == (u * ((v * (a - b)) * h)) % p);
    assert(u * ((v * (a - b)) * h) == (u * v) * ((a - b) * h)) by (nonlinear_arith);
    lemma_pow_pair_one(g, gi, j, p);
    assert((u * v) % p == 1) by {
        assert(u * v == v * u) by (nonlinear_arith);
    }
    lemma_mul_mod_noop_left(u * v, (a - b) * h, p);
    assert(e2 == (1 * ((a - b) * h)) % p);
    assert(e2 == ((a - b) * h) % p);
    lemma_add_mod_noop((a + b) * h, (a - b) * h, p);
    assert((a + b) * h + (a - b) * h == a * (2 * h)) by (nonlinear_arith);
    lemma_sub_mod_noop((a + b) * h, (a - b) * h, p);
    assert((a + b) * h - (a - b) * h == b * (2 * h)) by (nonlinear_arith);
}

/// The unscaled inverse applied to the forward transform returns the input
/// with every element multiplied by the length.
proof fn lemma_round_trip_core(s: Seq<int>, g: int, gi: int, p: int, nb: nat)
    requires
        p >= 2,
        s.len() == pow2(nb),
        bounded(s, p),
        mulm(g, gi, p) == 1,
    ensures
        intt_core(ntt_spec(s, g, p), gi, p) == scalem(s, pow2(nb) as int, p),
    decreases nb,
{
    vstd::arithmetic::power2::lemma_pow2_pos(nb);
    if nb == 0 {
        vstd::arithmetic::power2::lemma2_to64();
        assert(s.len() == 1);
        assert forall|i: int| 0 <= i < s.len() implies scalem(s, 1int, p)[i] == s[i] by {
            assert(s[i] * 1 == s[i]) by (nonlinear_arith);
            lemma_small_mod(s[i] as nat, p as nat);
        }
        assert(scalem(s, 1int, p) =~= s);
    } else {
        lemma_pow2_unfold(nb);
        let h = pow2((nb - 1) as nat) as int;
        let n = s.len() as int;
        assert(n == 2 * h);
        let t = butterfly_top(s, p);
        let bt = butterfly_bot(s, g, p);
        let g2 = mulm(g, g, p);
        let gi2 = mulm(gi, gi, p);
        lemma_inv_square(g, gi, p);
        assert(bounded(t, p) && bounded(bt, p)) by {
            assert forall|i: int| 0 <= i < h implies 0 <= #[trigger] t[i] < p && 0 <= #[trigger] bt[i]
                < p by {
                lemma_mod_bound(s[i] + s[i + h], p);
                lemma_mod_bound(
                    powm(g, i as nat, p) * subm(s[i], s[i + h], p),
                    p,
                );
            }
        }
        let nt = ntt_spec(t, g2, p);
        let nbt = ntt_spec(bt, g2, p);
        lemma_ntt_spec_len(t, g2, p, (nb - 1) as nat);
        lemma_ntt_spec_len(bt, g2, p, (nb - 1) as nat);
        let w = nt + nbt;
        assert(ntt_spec(s, g, p) == w);
        assert(w.subrange(0, h) =~= nt);
        assert(w.subrange(h, 2 * h) =~= nbt);
        lemma_round_trip_core(t, g2, gi2, p, (nb - 1) as nat);
        lemma_round_trip_core(bt, g2, gi2, p, (nb - 1) as nat);
        let res = intt_combine(scalem(t, h, p), scalem(bt, h, p), gi, p);
        assert(intt_core(w, gi, p) == res);
        assert forall|j: int| 0 <= j < 2 * h implies res[j] == scalem(s, (2 * h) as int, p)[j] by {
            if j < h {
                lemma_butterfly_cancel(s[j], s[j + h], g, gi, j as nat, h, p);
            } else {
                let j2 = j - h;
                lemma_butterfly_cancel(s[j2], s[j2 + h], g, gi, j2 as nat, h, p);
            }
        }
        assert(res =~= scalem(s, (2 * h) as int, p));
    }
}

/// Round-trip law: for every power-of-two length, every coefficient vector
/// in canonical form, every invertible root `g` and the inverse `ninv` of
/// the length's residue, inverse-transforming the forward transform and
/// dividing by the length reproduces the input exactly.
pub proof fn lemma_ntt_round_trip(s: Seq<int>, g: int, gi: int, ninv: int, p: int, nb: nat)
    requires
        p >= 2,
        s.len() == pow2(nb),
        bounded(s, p),
        mulm(g, gi, p) == 1,
        mulm(pow2(nb) as int, ninv, p) == 1,
    ensures
        scalem(intt_core(ntt_spec(s, g, p), gi, p), ninv, p) == s,
{
    lemma_round_trip_core(s, g, gi, p, nb);
    let n = pow2(nb) as int;
    let scaled = scalem(s, n, p);
    assert forall|j: int| 0 <= j < s.len() implies scalem(scaled, ninv, p)[j] == s[j] by {
        assert(scaled[j] == (s[j] * n) % p);
        lemma_mul_mod_noop_left(s[j] * n, ninv, p);
        assert((s[j] * n) * ninv == s[j] * (n * ninv)) by (nonlinear_arith);
        lemma_mul_mod_noop_right(s[j], n * ninv, p);
        assert((n * ninv) % p == 1);
        assert(s[j] * 1 == s[j]) by (nonlinear_arith);
        lemma_small_mod(s[j] as nat, p as nat);
    }
    assert(scalem(scaled, ninv, p) =~= s);
}

/// Round-trip law in the form the executable transforms promise: under the
/// validity conditions of a parameter set (root and length-residue coprime
/// to the modulus), the inverse transform exactly undoes the forward
/// transform on every canonical input.
pub proof fn lemma_round_trip_params(s: Seq<int>, g: int, p: int, nb: nat)
    requires
        p >= 2,
        0 <= g < p,
        s.len() == pow2(nb),
        bounded(s, p),
        gcd_spec(p as nat, g as nat) == 1,
        gcd_spec(p as nat, pow2(nb) % (p as nat)) == 1,
    ensures
        scalem(
            intt_core(ntt_spec(s, g, p), invm(g, p), p),
            invm(s.len() as int % p, p),
            p,
        ) == s,
{
    lemma_gcd_one_inv(g as nat, p as nat);
    let gi = invm(g, p);
    let nred = pow2(nb) as int % p;
    lemma_mod_bound(pow2(nb) as int, p);
    lemma_gcd_one_inv((pow2(nb) % (p as nat)) as nat, p as nat);
    let ninv = invm(nred, p);
    assert(mulm(pow2(nb) as int, ninv, p) == 1) by {
        lemma_mul_mod_noop_left(pow2(nb) as int, ninv, p);
    }
    lemma_ntt_round_trip(s, g, gi, ninv, p, nb);
}

/// Multiplicativity of the pipeline at length two: forward-transforming two
/// coefficient vectors, multiplying pointwise, inverse-transforming and
/// dividing by the length yields exactly the cyclic ring product
/// `(a0*b0 + a1*b1, a0*b1 + a1*b0)` modulo `p`. (Larger lengths additionally
/// require the root to have exact multiplicative order equal to the length.)
pub proof fn lemma_pointwise_mul_len2(a: Seq<int>, b: Seq<int>, g: int, gi: int, ninv: int, p: int)
    requires
        p >= 2,
        a.len() == 2,
        b.len() == 2,
        bounded(a, p),
        bounded(b, p),
        mulm(2, ninv, p) == 1,
    ensures
        ({
            let r = scalem(
                intt_core(pointwise_mulm(ntt_spec(a, g, p), ntt_spec(b, g, p), p), gi, p),
                ninv,
                p,
            );
            r.len() == 2 && r[0] == (a[0] * b[0] + a[1] * b[1]) % p && r[1] == (a[0] * b[1] + a[1]
                * b[0]) % p
        }),
{
    lemma_pow0(g);
    lemma_pow0(gi);
    lemma_small_mod(1nat, p as nat);
    assert(powm(g, 0, p) == 1 && powm(gi, 0, p) == 1);
    let na = ntt_spec(a, g, p);
    let nb = ntt_spec(b, g, p);
    let a0 = a[0];
    let a1 = a[1];
    let b0 = b[0];
    let b1 = b[1];
    let g2 = mulm(g, g, p);
    // the length-two transform is one butterfly
    let ta = butterfly_top(a, p);
    let ba = butterfly_bot(a, g, p);
    assert(ta =~= seq![addm(a0, a1, p)]);
    assert(ba =~= seq![mulm(powm(g, 0, p), subm(a0, a1, p), p)]);
    assert(ntt_spec(ta, g2, p) == ta && ntt_spec(ba, g2, p) == ba);
    lemma_mod_bound(a0 - a1, p);
    lemma_small_mod(subm(a0, a1, p) as nat, p as nat);
    assert(mulm(1, subm(a0, a1, p), p) == subm(a0, a1, p));
    assert(na == ta + ba);
    assert(na =~= seq![addm(a0, a1, p), subm(a0, a1, p)]);
    let tb = butterfly_top(b, p);
    let bb = butterfly_bot(b, g, p);
    assert(tb =~= seq![addm(b0, b1, p)]);
    assert(bb =~= seq![mulm(powm(g, 0, p), subm(b0, b1, p), p)]);
    assert(ntt_spec(tb, g2, p) == tb && ntt_spec(bb, g2, p) == bb);
    lemma_mod_bound(b0 - b1, p);
    lemma_small_mod(subm(b0, b1, p) as nat, p as nat);
    assert(mulm(1, subm(b0, b1, p), p) == subm(b0, b1, p));
    assert(nb == tb + bb);
    assert(nb =~= seq![addm(b0, b1, p), subm(b0, b1, p)]);
    let w = pointwise_mulm(na, nb, p);
    // pointwise product of the two evaluation pairs
    let w0 = mulm(addm(a0, a1, p), addm(b0, b1, p), p);
    let w1 = mulm(subm(a0, a1, p), subm(b0, b1, p), p);
    assert(w =~= seq![w0, w1]);
    lemma_mul_mod_noop(a0 + a1, b0 + b1, p);
    assert(w0 == ((a0 + a1) * (b0 + b1)) % p);
    lemma_mul_mod_noop(a0 - a1, b0 - b1, p);
    assert(w1 == ((a0 - a1) * (b0 - b1)) % p);
    // the inverse recombination at length two
    let c = intt_core(w, gi, p);
    assert(w.subrange(0, 1) =~= seq![w0]);
    assert(w.subrange(1, 2) =~= seq![w1]);
    assert(intt_core(seq![w0], mulm(gi, gi, p), p) == seq![w0]);
    assert(intt_core(seq![w1], mulm(gi, gi, p), p) == seq![w1]);
    assert(c == intt_combine(seq![w0], seq![w1], gi, p));
    lemma_mod_bound((a0 - a1) * (b0 - b1), p);
    lemma_small_mod(w1 as nat, p as nat);
    assert(mulm(1, w1, p) == w1);
    assert(c =~= seq![addm(w0, w1, p), subm(w0, w1, p)]);
    lemma_add_mod_noop((a0 + a1) * (b0 + b1), (a0 - a1) * (b0 - b1), p);
    assert(addm(w0, w1, p) == ((a0 + a1) * (b0 + b1) + (a0 - a1) * (b0 - b1)) % p);
    lemma_sub_mod_noop((a0 + a1) * (b0 + b1), (a0 - a1) * (b0 - b1), p);
    assert(subm(w0, w1, p) == ((a0 + a1) * (b0 + b1) - (a0 - a1) * (b0 - b1)) % p);
    assert((a0 + a1) * (b0 + b1) + (a0 - a1) * (b0 - b1) == 2 * (a0 * b0 + a1 * b1))
        by (nonlinear_arith);
    assert((a0 + a1) * (b0 + b1) - (a0 - a1) * (b0 - b1) == 2 * (a0 * b1 + a1 * b0))
        by (nonlinear_arith);
    // dividing by the length removes the doubling
    let r = scalem(c, ninv, p);
    assert forall|x: int| true implies #[trigger] mulm((2 * x) % p, ninv, p) == x % p by {
        lemma_mul_mod_noop_left(2 * x, ninv, p);
        assert((2 * x) * ninv == x * (2 * ninv)) by (nonlinear_arith);
        lemma_mul_mod_noop_right(x, 2 * ninv, p);
    }
    assert(r[0] == mulm((2 * (a0 * b0 + a1 * b1)) % p, ninv, p));
    assert(r[1] == mulm((2 * (a0 * b1 + a1 * b0)) % p, ninv, p));
}

/// A twiddled difference distributes over an elementwise sum.
proof fn lemma_bot_linear(w: int, a1: int, b1: int, a2: int, b2: int, p: int)
    requires
        p >= 1,
    ensures
        mulm(w, subm(addm(a1, a2, p), addm(b1, b2, p), p), p) == addm(
            mulm(w, subm(a1, b1, p), p),
            mulm(w, subm(a2, b2, p), p),
            p,
        ),
{
    lemma_sub_mod_noop(a1 + a2, b1 + b2, p);
    assert(subm(addm(a1, a2, p), addm(b1, b2, p), p) == (a1 + a2 - (b1 + b2)) % p);
    lemma_mul_mod_noop_right(w, a1 + a2 - (b1 + b2), p);
    lemma_mul_mod_noop_right(w, a1 - b1, p);
    lemma_mul_mod_noop_right(w, a2 - b2, p);
    lemma_add_mod_noop(w * (a1 - b1), w * (a2 - b2), p);
    assert(w * (a1 + a2 - (b1 + b2)) == w * (a1 - b1) + w * (a2 - b2)) by (nonlinear_arith);
}

/// Linearity law: the transform of an elementwise sum is the elementwise
/// sum of the transforms, for every pair of equal power-of-two-length
/// vectors and every root.
pub proof fn lemma_ntt_linear(s: Seq<int>, t: Seq<int>, g: int, p: int, nb: nat)
    requires
        p >= 1,
        s.len() == pow2(nb),
        t.len() == pow2(nb),
    ensures
        ntt_spec(seq_addm(s, t, p), g, p) == seq_addm(ntt_spec(s, g, p), ntt_spec(t, g, p), p),
    decreases nb,
{
    vstd::arithmetic::power2::lemma_pow2_pos(nb);
    let u = seq_addm(s, t, p);
    if nb == 0 {
        vstd::arithmetic::power2::lemma2_to64();
        assert(s.len() == 1);
    } else {
        lemma_pow2_unfold(nb);
        let h = pow2((nb - 1) as nat) as int;
        let g2 = mulm(g, g, p);
        let ts = butterfly_top(s, p);
        let tt = butterfly_top(t, p);
        let bs = butterfly_bot(s, g, p);
        let bbt = butterfly_bot(t, g, p);
        assert(butterfly_top(u, p) =~= seq_addm(ts, tt, p)) by {
            assert forall|i: int| 0 <= i < h implies butterfly_top(u, p)[i] == seq_addm(
                ts,
                tt,
                p,
            )[i] by {
                lemma_add_mod_noop(s[i], t[i], p);
                lemma_add_mod_noop(s[i + h], t[i + h], p);
                lemma_add_mod_noop(s[i] + t[i], s[i + h] + t[i + h], p);
                lemma_add_mod_noop(s[i] + s[i + h], t[i] + t[i + h], p);
            }
        }
        assert(butterfly_bot(u, g, p) =~= seq_addm(bs, bbt, p)) by {
            assert forall|i: int| 0 <= i < h implies butterfly_bot(u, g, p)[i] == seq_addm(
                bs,
                bbt,
                p,
            )[i] by {
                lemma_bot_linear(powm(g, i as nat, p), s[i], s[i + h], t[i], t[i + h], p);
            }
        }
        lemma_ntt_linear(ts, tt, g2, p, (nb - 1) as nat);
        lemma_ntt_linear(bs, bbt, g2, p, (nb - 1) as nat);
        lemma_ntt_spec_len(ts, g2, p, (nb - 1) as nat);
        lemma_ntt_spec_len(tt, g2, p, (nb - 1) as nat);
        lemma_ntt_spec_len(bs, g2, p, (nb - 1) as nat);
        lemma_ntt_spec_len(bbt, g2, p, (nb - 1) as nat);
        let nts = ntt_spec(ts, g2, p);
        let ntt_ = ntt_spec(tt, g2, p);
        let nbs = ntt_spec(bs, g2, p);
        let nbbt = ntt_spec(bbt, g2, p);
        assert(seq_addm(nts + nbs, ntt_ + nbbt, p) =~= seq_addm(nts, ntt_, p) + seq_addm(
            nbs,
            nbbt,
            p,
        ));
        assert(ntt_spec(u, g, p) == ntt_spec(seq_addm(ts, tt, p), g2, p) + ntt_spec(
            seq_addm(bs, bbt, p),
            g2,
            p,
        ));
    }
}

} // verus!
