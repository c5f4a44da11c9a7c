//! The iterative Gentleman–Sande butterfly network: forward and inverse
//! number-theoretic transforms over the prime field, a representation-tagged
//! polynomial container, uniform bounded sampling, and pointwise
//! multiplication in the evaluation domain.

use vstd::prelude::*;
use vstd::pervasive::VecAdditionalExecFns;
use rand::Rng;
use vstd::arithmetic::power2::{
    lemma2_to64, lemma_pow2_pos, lemma_pow2_strictly_increases, lemma_pow2_unfold, pow2,
};
use vstd::arithmetic::power::{lemma_pow1, pow};
use vstd::arithmetic::div_mod::lemma_small_mod;
use crate::field::{add_mod, addm, fe_new, gcd_spec, inv_mod, invm, lemma_inv_unique, mul_mod, mulm, pow_mod, powm, sub_mod, subm};
use crate::model::{
    bounded, dif_stage, intt_core, intt_stages, istage, lemma_block_fits, lemma_block_mod,
    lemma_intt_stages_equiv, lemma_ntt_stages_equiv, lemma_pow2_mod_zero, lemma_powm_double,
    ntt_spec, ntt_stages, pointwise_mulm, scalem, to_ints,
};

verus! {

/// The base-two logarithm of a power-of-two value.
fn log2_of_pow2(n: usize) -> (nb: usize)
    requires
        exists|j: nat| n == pow2(j),
    ensures
        n == pow2(nb as nat),
        nb <= 64,
{
    let mut m: usize = n;
    let mut nb: usize = 0;
    proof {
        lemma2_to64();
        let j0 = choose|j: nat| n == pow2(j);
        lemma_pow2_pos(j0);
        assert(n as int == m as int * pow2(0nat));
    }
    while m > 1
        invariant
            m >= 1,
            nb <= 64,
            n as int == m as int * pow2(nb as nat),
            pow2(nb as nat) <= n as int,
            exists|j: nat| m == pow2(j),
        decreases m,
    {
        proof {
            let j = choose|j: nat| m == pow2(j);
            assert(j >= 1) by {
                if j == 0 {
                    lemma2_to64();
                }
            }
            lemma_pow2_unfold(j);
            assert(m / 2 == pow2((j - 1) as nat));
            lemma_pow2_unfold((nb + 1) as nat);
            lemma_pow2_pos((nb + 1) as nat);
            assert(m as int * pow2(nb as nat) == (m / 2) as int * pow2((nb + 1) as nat))
                by (nonlinear_arith)
                requires
                    m as int == 2 * ((m / 2) as int),
                    pow2((nb + 1) as nat) == 2 * pow2(nb as nat),
            ;
            assert(pow2((nb + 1) as nat) <= n as int) by (nonlinear_arith)
                requires
                    n as int == (m / 2) as int * pow2((nb + 1) as nat),
                    (m / 2) as int >= 1,
                    pow2((nb + 1) as nat) >= 1,
            ;
            assert(nb + 1 <= 64) by {
                if nb + 1 > 64 {
                    lemma2_to64();
                    vstd::arithmetic::power2::lemma2_to64_rest();
                    lemma_pow2_strictly_increases(64, (nb + 1) as nat);
                    assert(pow2((nb + 1) as nat) > pow2(64));
                }
            }
        }
        m = m / 2;
        nb = nb + 1;
    }
    proof {
        assert(n as int == pow2(nb as nat)) by (nonlinear_arith)
            requires
                n as int == m as int * pow2(nb as nat),
                m == 1,
        ;
    }
    nb
}

/// The table of stage roots `base^(2^i)` for `i` below `count`.
#[verifier::loop_isolation(false)]
fn root_powers(base: u64, count: usize, p: u64) -> (gens: Vec<u64>)
    requires
        p >= 2,
        base < p,
    ensures
        gens@.len() == count,
        forall|j: int|
            0 <= j < count ==> (#[trigger] gens@[j]) as int == powm(
                base as int,
                pow2(j as nat),
                p as int,
            ),
{
    let ghost pi = p as int;
    let ghost bi = base as int;
    let mut gens: Vec<u64> = Vec::new();
    let mut i: usize = 0;
    while i < count
        invariant
            p >= 2,
            base < p,
            i <= count,
            gens@.len() == i,
            forall|j: int|
                0 <= j < i ==> (#[trigger] gens@[j]) as int == powm(bi, pow2(j as nat), pi),
        decreases count - i,
    {
        let val = if i == 0 {
            proof {
                lemma2_to64();
                lemma_pow1(bi);
                lemma_small_mod(base as nat, p as nat);
            }
            base
        } else {
            let prev = gens[i - 1];
            proof {
                lemma_powm_double(bi, pow2((i - 1) as nat), pi);
                lemma_pow2_unfold(i as nat);
                vstd::arithmetic::div_mod::lemma_mod_bound(pow(bi, pow2((i - 1) as nat)), pi);
            }
            mul_mod(prev, prev, p)
        };
        gens.push(val);
        i += 1;
    }
    gens
}

/// In-place forward transform of a power-of-two-length array of canonical
/// residues, with root `gen`: the iterative butterfly network computes
/// exactly the recursive decimation-in-frequency specification.
#[verifier::loop_isolation(false)]
#[verifier::rlimit(100)]
pub fn ntt(arr: &mut Vec<u64>, gen: u64, p: u64)
    requires
        p >= 2,
        gen < p,
        exists|j: nat| old(arr).len() == pow2(j),
        bounded(to_ints(old(arr)@), p as int),
    ensures
        final(arr)@.len() == old(arr)@.len(),
        bounded(to_ints(final(arr)@), p as int),
        to_ints(final(arr)@) == ntt_spec(to_ints(old(arr)@), gen as int, p as int),
{
    let n = arr.len();
    let nbits = log2_of_pow2(n);
    let ghost s0 = to_ints(arr@);
    let ghost pi = p as int;
    let ghost gi = gen as int;

    let gens = root_powers(gen, nbits, p);

    proof {
        lemma_ntt_stages_equiv(s0, gi, pi, nbits as nat);
        lemma2_to64();
        lemma_pow1(gi);
        lemma_small_mod(gen as nat, p as nat);
        assert(powm(gi, pow2(0), pi) == gi);
        if n > 1 {
            assert(nbits >= 1) by {
                if nbits == 0 {
                    lemma2_to64();
                }
            }
            lemma_pow2_unfold(nbits as nat);
            lemma_pow2_pos((nbits - 1) as nat);
        } else {
            assert(nbits == 0) by {
                if nbits >= 1 {
                    lemma_pow2_unfold(nbits as nat);
                    lemma_pow2_pos((nbits - 1) as nat);
                }
            }
        }
    }
    let mut stride: usize = n / 2;
    let mut gen_ptr: usize = 0;
    while stride > 0
        invariant
            arr@.len() == n,
            bounded(to_ints(arr@), pi),
            stride == 0 ==> gen_ptr == nbits,
            stride > 0 ==> gen_ptr < nbits && stride as int == pow2((nbits - 1 - gen_ptr) as nat),
            ntt_stages(to_ints(arr@), stride as int, powm(gi, pow2(gen_ptr as nat), pi), pi)
                == ntt_spec(s0, gi, pi),
        decreases stride,
    {
        proof {
            let e = (nbits - 1 - gen_ptr) as nat;
            lemma_pow2_unfold((e + 1) as nat);
            assert(2 * stride as int == pow2((e + 1) as nat));
            if e + 1 < nbits {
                lemma_pow2_strictly_increases((e + 1) as nat, nbits as nat);
            }
            assert(2 * stride as int <= n as int);
            lemma_pow2_mod_zero((e + 1) as nat, nbits as nat);
        }
        let step = stride * 2;
        let zg = gens[gen_ptr];
        let ghost zgi = zg as int;
        let ghost astage = to_ints(arr@);
        proof {
            vstd::arithmetic::div_mod::lemma_mod_bound(
                pow(gi, pow2(gen_ptr as nat)),
                pi,
            );
        }
        let mut start: usize = 0;
        while start < n
            invariant
                start <= n,
                start as int % (step as int) == 0,
                arr@.len() == n,
                bounded(to_ints(arr@), pi),
                forall|j: int|
                    0 <= j < start ==> to_ints(arr@)[j] == dif_stage(
                        astage,
                        stride as int,
                        zgi,
                        pi,
                    )[j],
                forall|j: int| start <= j < n ==> to_ints(arr@)[j] == astage[j],
            decreases n - start,
        {
            proof {
                lemma_block_fits(start as int, step as int, n as int);
            }
            let mut k: usize = start;
            while k < start + stride
                invariant
                    start <= k <= start + stride,
                    start + step <= n,
                    arr@.len() == n,
                    bounded(to_ints(arr@), pi),
                    forall|j: int|
                        0 <= j < start ==> to_ints(arr@)[j] == dif_stage(
                            astage,
                            stride as int,
                            zgi,
                            pi,
                        )[j],
                    forall|j: int|
                        start <= j < k ==> #[trigger] to_ints(arr@)[j] == dif_stage(
                            astage,
                            stride as int,
                            zgi,
                            pi,
                        )[j] && to_ints(arr@)[j + stride] == dif_stage(
                            astage,
                            stride as int,
                            zgi,
                            pi,
                        )[j + stride],
                    forall|j: int|
                        k <= j < start + stride ==> #[trigger] to_ints(arr@)[j] == astage[j]
                            && to_ints(arr@)[j + stride] == astage[j + stride],
                    forall|j: int| start + step <= j < n ==> to_ints(arr@)[j] == astage[j],
                decreases start + stride - k,
            {
                let zp = pow_mod(zg, (k - start) as u64, p);
                let a_val = arr[k];
                let b_val = arr[k + stride];
                proof {
                    assert(a_val as int == to_ints(arr@)[k as int]);
                    assert(b_val as int == to_ints(arr@)[k as int + stride as int]);
                }
                let s1 = add_mod(a_val, b_val, p);
                let s2 = mul_mod(zp, sub_mod(a_val, b_val, p), p);
                let ghost before = to_ints(arr@);
                arr.set(k, s1);
                arr.set(k + stride, s2);
                proof {
                    assert forall|j: int|
                        0 <= j < n && j != k as int && j != k as int + stride as int
                        implies #[trigger] to_ints(arr@)[j] == before[j] by {}
                    assert forall|j: int| 0 <= j < n implies 0 <= #[trigger] to_ints(arr@)[j]
                        < pi by {
                        if j == k as int {
                        } else if j == k as int + stride as int {
                        } else {
                            assert(to_ints(arr@)[j] == before[j]);
                            assert(0 <= before[j] < pi);
                        }
                    }
                    let jj = k as int;
                    let off = jj - start;
                    lemma_block_mod(start as int, off, step as int);
                    lemma_block_mod(start as int, off + stride, step as int);
                    assert(dif_stage(astage, stride as int, zgi, pi)[jj] == addm(
                        astage[jj],
                        astage[jj + stride],
                        pi,
                    ));
                    assert(dif_stage(astage, stride as int, zgi, pi)[jj + stride] == mulm(
                        powm(zgi, off as nat, pi),
                        subm(astage[jj], astage[jj + stride], pi),
                        pi,
                    ));
                }
                k += 1;
            }
            proof {
                let d = dif_stage(astage, stride as int, zgi, pi);
                assert forall|j: int| 0 <= j < start + step implies to_ints(arr@)[j] == d[j] by {
                    if start <= j && j < start + stride {
                    } else if start + stride <= j && j < start + step {
                        assert(to_ints(arr@)[j - stride] == d[j - stride]);
                    }
                }
            }
            proof {
                vstd::arithmetic::div_mod::lemma_mod_add_multiples_vanish(
                    start as int,
                    step as int,
                );
            }
            start += step;
        }
        proof {
            let d = dif_stage(astage, stride as int, zgi, pi);
            assert(to_ints(arr@) =~= d);
            let zroot = powm(gi, pow2(gen_ptr as nat), pi);
            assert(ntt_stages(astage, stride as int, zroot, pi) == ntt_stages(
                d,
                stride as int / 2,
                mulm(zroot, zroot, pi),
                pi,
            ));
            lemma_powm_double(gi, pow2(gen_ptr as nat), pi);
            lemma_pow2_unfold((gen_ptr + 1) as nat);
            assert(mulm(zroot, zroot, pi) == powm(gi, pow2((gen_ptr + 1) as nat), pi));
            let e = (nbits - 1 - gen_ptr) as nat;
            if stride >= 2 {
                assert(e >= 1) by {
                    if e == 0 {
                        lemma2_to64();
                    }
                }
                lemma_pow2_unfold(e);
                assert(stride as int / 2 == pow2((e - 1) as nat));
            } else {
                assert(e == 0) by {
                    if e >= 1 {
                        lemma_pow2_unfold(e);
                        lemma_pow2_pos((e - 1) as nat);
                    }
                }
            }
        }
        stride = stride / 2;
        gen_ptr = gen_ptr + 1;
    }
}

/// In-place inverse transform of a power-of-two-length array of canonical
/// residues, with the same root `gen` as the forward transform: the
/// butterfly network runs with the inverted root and ascending strides,
/// then every element is divided by the field's image of the length.
/// `gen` and the length's residue must be invertible modulo `p`.
#[verifier::loop_isolation(false)]
#[verifier::rlimit(100)]
pub fn intt(arr: &mut Vec<u64>, gen: u64, p: u64)
    requires
        p >= 2,
        gen < p,
        exists|j: nat| old(arr).len() == pow2(j),
        bounded(to_ints(old(arr)@), p as int),
        gcd_spec(p as nat, gen as nat) == 1,
        gcd_spec(p as nat, (old(arr).len() as nat) % (p as nat)) == 1,
    ensures
        final(arr)@.len() == old(arr)@.len(),
        bounded(to_ints(final(arr)@), p as int),
        to_ints(final(arr)@) == scalem(
            intt_core(to_ints(old(arr)@), invm(gen as int, p as int), p as int),
            invm(old(arr)@.len() as int % (p as int), p as int),
            p as int,
        ),
{
    let n = arr.len();
    let nbits = log2_of_pow2(n);
    let ghost s0 = to_ints(arr@);
    let ghost pi = p as int;

    let gen_inv = inv_mod(gen, p).unwrap();
    proof {
        lemma_inv_unique(gen as int, gen_inv as int, pi);
    }
    let ghost giv = gen_inv as int;
    let gens = root_powers(gen_inv, nbits, p);

    proof {
        lemma_intt_stages_equiv(s0, giv, pi, nbits as nat);
        lemma2_to64();
        lemma_pow2_pos(nbits as nat);
    }
    let mut stride: usize = 1;
    let mut gen_ptr: usize = nbits;
    while stride < n
        invariant
            arr@.len() == n,
            bounded(to_ints(arr@), pi),
            gen_ptr <= nbits,
            stride as int == pow2((nbits - gen_ptr) as nat),
            stride <= n,
            to_ints(arr@) == intt_stages(s0, (nbits - gen_ptr) as nat, nbits as nat, giv, pi),
        decreases n - stride,
    {
        proof {
            assert(gen_ptr >= 1) by {
                if gen_ptr == 0 {
                    assert(stride as int == pow2(nbits as nat));
                }
            }
            let e = (nbits - gen_ptr) as nat;
            lemma_pow2_pos(e);
            lemma_pow2_unfold((e + 1) as nat);
            assert(2 * stride as int == pow2((e + 1) as nat));
            if e + 1 < nbits {
                lemma_pow2_strictly_increases((e + 1) as nat, nbits as nat);
            }
            assert(e + 1 <= nbits) by {
                if e + 1 > nbits {
                    lemma_pow2_strictly_increases(nbits as nat, (e + 1) as nat);
                }
            }
            assert(2 * stride as int <= n as int);
            lemma_pow2_mod_zero((e + 1) as nat, nbits as nat);
        }
        gen_ptr = gen_ptr - 1;
        let step = stride * 2;
        let zg = gens[gen_ptr];
        let ghost zgi = zg as int;
        let ghost astage = to_ints(arr@);
        proof {
            vstd::arithmetic::div_mod::lemma_mod_bound(pow(giv, pow2(gen_ptr as nat)), pi);
            lemma_small_mod(0nat, step as nat);
        }
        let mut start: usize = 0;
        while start < n
            invariant
                start <= n,
                start as int % (step as int) == 0,
                arr@.len() == n,
                bounded(to_ints(arr@), pi),
                forall|j: int|
                    0 <= j < start ==> to_ints(arr@)[j] == istage(
                        astage,
                        stride as int,
                        zgi,
                        pi,
                    )[j],
                forall|j: int| start <= j < n ==> to_ints(arr@)[j] == astage[j],
            decreases n - start,
        {
            proof {
                lemma_block_fits(start as int, step as int, n as int);
            }
            let mut k: usize = start;
            while k < start + stride
                invariant
                    start <= k <= start + stride,
                    start + step <= n,
                    arr@.len() == n,
                    bounded(to_ints(arr@), pi),
                    forall|j: int|
                        0 <= j < start ==> to_ints(arr@)[j] == istage(
                            astage,
                            stride as int,
                            zgi,
                            pi,
                        )[j],
                    forall|j: int|
                        start <= j < k ==> #[trigger] to_ints(arr@)[j] == istage(
                            astage,
                            stride as int,
                            zgi,
                            pi,
                        )[j] && to_ints(arr@)[j + stride] == istage(
                            astage,
                            stride as int,
                            zgi,
                            pi,
                        )[j + stride],
                    forall|j: int|
                        k <= j < start + stride ==> #[trigger] to_ints(arr@)[j] == astage[j]
                            && to_ints(arr@)[j + stride] == astage[j + stride],
                    forall|j: int| start + step <= j < n ==> to_ints(arr@)[j] == astage[j],
                decreases start + stride - k,
            {
                let zp = pow_mod(zg, (k - start) as u64, p);
                let a_val = arr[k];
                let b_val = arr[k + stride];
                proof {
                    assert(a_val as int == to_ints(arr@)[k as int]);
                    assert(b_val as int == to_ints(arr@)[k as int + stride as int]);
                }
                let zb = mul_mod(zp, b_val, p);
                let s1 = add_mod(a_val, zb, p);
                let s2 = sub_mod(a_val, zb, p);
                let ghost before = to_ints(arr@);
                arr.set(k, s1);
                arr.set(k + stride, s2);
                proof {
                    assert forall|j: int|
                        0 <= j < n && j != k as int && j != k as int + stride as int
                        implies #[trigger] to_ints(arr@)[j] == before[j] by {}
                    assert forall|j: int| 0 <= j < n implies 0 <= #[trigger] to_ints(arr@)[j]
                        < pi by {
                        if j == k as int {
                        } else if j == k as int + stride as int {
                        } else {
                            assert(to_ints(arr@)[j] == before[j]);
                            assert(0 <= before[j] < pi);
                        }
                    }
                    let jj = k as int;
                    let off = jj - start;
                    lemma_block_mod(start as int, off, step as int);
                    lemma_block_mod(start as int, off + stride, step as int);
                    assert(istage(astage, stride as int, zgi, pi)[jj] == addm(
                        astage[jj],
                        mulm(powm(zgi, off as nat, pi), astage[jj + stride], pi),
                        pi,
                    ));
                    assert(istage(astage, stride as int, zgi, pi)[jj + stride] == subm(
                        astage[jj],
                        mulm(powm(zgi, off as nat, pi), astage[jj + stride], pi),
                        pi,
                    ));
                }
                k += 1;
            }
            proof {
                let d = istage(astage, stride as int, zgi, pi);
                assert forall|j: int| 0 <= j < start + step implies to_ints(arr@)[j] == d[j] by {
                    if start <= j && j < start + stride {
                    } else if start + stride <= j && j < start + step {
                        assert(to_ints(arr@)[j - stride] == d[j - stride]);
                    }
                }
                vstd::arithmetic::div_mod::lemma_mod_add_multiples_vanish(
                    start as int,
                    step as int,
                );
            }
            start += step;
        }
        proof {
            let d = istage(astage, stride as int, zgi, pi);
            assert(to_ints(arr@) =~= d);
            let kk = (nbits - gen_ptr) as nat;
            assert(intt_stages(s0, kk, nbits as nat, giv, pi) == istage(
                intt_stages(s0, (kk - 1) as nat, nbits as nat, giv, pi),
                pow2((kk - 1) as nat) as int,
                powm(giv, pow2((nbits as nat - kk) as nat), pi),
                pi,
            ));
        }
        stride = stride * 2;
    }
    proof {
        assert((nbits - gen_ptr) as nat == nbits as nat) by {
            if gen_ptr >= 1 {
                lemma_pow2_strictly_increases((nbits - gen_ptr) as nat, nbits as nat);
            }
        }
        assert(to_ints(arr@) == intt_core(s0, giv, pi));
    }

    // divide every element by the field's image of the length
    let ghost core = to_ints(arr@);
    let scaler = fe_new(n as u64, p);
    let ninv = inv_mod(scaler, p).unwrap();
    proof {
        lemma_inv_unique(scaler as int, ninv as int, pi);
        assert(scaler as int == n as int % pi);
    }
    let ghost ninv_i = ninv as int;
    let mut idx: usize = 0;
    while idx < n
        invariant
            arr@.len() == n,
            bounded(to_ints(arr@), pi),
            idx <= n,
            forall|j: int|
                0 <= j < idx ==> to_ints(arr@)[j] == mulm(core[j], ninv_i, pi),
            forall|j: int| idx <= j < n ==> to_ints(arr@)[j] == core[j],
        decreases n - idx,
    {
        let v = mul_mod(arr[idx], ninv, p);
        let ghost before = to_ints(arr@);
        arr.set(idx, v);
        proof {
            assert forall|j: int| 0 <= j < n && j != idx as int implies #[trigger] to_ints(
                arr@,
            )[j] == before[j] by {}
            assert forall|j: int| 0 <= j < n implies 0 <= #[trigger] to_ints(arr@)[j] < pi by {
                if j != idx as int {
                    assert(to_ints(arr@)[j] == before[j]);
                    assert(0 <= before[j] < pi);
                }
            }
        }
        idx += 1;
    }
    proof {
        assert(to_ints(arr@) =~= scalem(core, ninv_i, pi));
    }
}

/// The fixed parameters of the lattice subsystem, as named constants.
#[derive(Clone, Copy, PartialEq, Eq, Structural, Debug)]
pub enum LatticeParams {
    /// The transform field's prime modulus.
    Prime,
    /// A generator used as the transform root.
    Gen,
    /// The polynomial degree (number of coefficients).
    Degree,
    /// Dimension parameter of the intended scheme.
    K,
    /// Module rank: the number of polynomials in a vector.
    M,
    /// The sampling bound for secret coefficients.
    S,
}

impl LatticeParams {
    /// The numeric value of this parameter.
    pub open spec fn spec_value(self) -> u64 {
        match self {
            LatticeParams::Prime => 65537,
            LatticeParams::Gen => 282,
            LatticeParams::Degree => 256,
            LatticeParams::K => 24,
            LatticeParams::M => 4,
            LatticeParams::S => 127,
        }
    }

    /// The numeric value of this parameter.
    pub fn value(&self) -> (r: u64)
        ensures
            r == self.spec_value(),
    {
        match self {
            LatticeParams::Prime => 65537,
            LatticeParams::Gen => 282,
            LatticeParams::Degree => 256,
            LatticeParams::K => 24,
            LatticeParams::M => 4,
            LatticeParams::S => 127,
        }
    }
}

/// An explicit parameter bundle: modulus, transform root, degree, module
/// rank and sampling bound, fixed at construction and never parsed from
/// runtime input.
pub struct NttParams {
    /// The field's prime modulus.
    pub modulus: u64,
    /// The transform root; must be invertible modulo the modulus.
    pub generator: u64,
    /// The number of coefficients; must be a power of two whose residue
    /// is invertible modulo the modulus.
    pub degree: usize,
    /// The number of polynomial slots in a vector.
    pub rank: usize,
    /// The exclusive upper bound for sampled coefficients.
    pub bound: usize,
}

impl NttParams {
    /// A valid parameter set: the modulus is a modulus, the generator is a
    /// canonical invertible residue, the degree is a power of two with an
    /// invertible image in the field, and rank and bound are positive.
    pub open spec fn wf(&self) -> bool {
        &&& self.modulus >= 2
        &&& self.generator < self.modulus
        &&& (exists|j: nat| self.degree == pow2(j))
        &&& gcd_spec(self.modulus as nat, self.generator as nat) == 1
        &&& gcd_spec(self.modulus as nat, (self.degree as nat) % (self.modulus as nat)) == 1
        &&& self.rank >= 1
        &&& self.bound >= 1
    }
}

/// Representation tag: the same storage holds either coefficients or
/// evaluations, and the two must never be conflated without a transform.
#[derive(Clone, Copy, PartialEq, Eq, Structural, Debug)]
pub enum Basis {
    /// Coefficient representation.
    Coefficient,
    /// Evaluation (transform-domain) representation, in the order the
    /// decimation-in-frequency network produces.
    Evaluation,
}

/// A fixed-degree polynomial over the transform field, tagged by its
/// current representation.
#[derive(Clone, Debug)]
pub struct Polynomial {
    /// The stored field elements, always canonical residues.
    pub coeffs: Vec<u64>,
    /// Which representation the storage currently holds.
    pub basis: Basis,
}

impl Polynomial {
    /// Well-formed against a parameter set: exactly `degree` coefficients,
    /// each a canonical residue.
    pub open spec fn wf(&self, params: &NttParams) -> bool {
        self.coeffs@.len() == params.degree && bounded(to_ints(self.coeffs@), params.modulus as int)
    }

    /// Wrap a coefficient vector with a representation tag.
    pub fn new(coeffs: Vec<u64>, basis: Basis) -> (r: Polynomial)
        ensures
            r.coeffs@ == coeffs@,
            r.basis == basis,
    {
        Polynomial { coeffs, basis }
    }

    /// The zero polynomial in coefficient representation.
    pub fn zero(params: &NttParams) -> (r: Polynomial)
        requires
            params.wf(),
        ensures
            r.wf(params),
            r.basis == Basis::Coefficient,
            forall|i: int| 0 <= i < params.degree ==> to_ints(r.coeffs@)[i] == 0,
    {
        let mut coeffs: Vec<u64> = Vec::new();
        let mut i: usize = 0;
        while i < params.degree
            invariant
                i <= params.degree,
                coeffs@.len() == i,
                forall|j: int| 0 <= j < i ==> #[trigger] coeffs@[j] == 0u64,
            decreases params.degree - i,
        {
            coeffs.push(0);
            i += 1;
        }
        Polynomial { coeffs, basis: Basis::Coefficient }
    }
}

impl PartialEq for Polynomial {
    /// Structural equality: same representation tag and same coefficients.
    fn eq(&self, other: &Polynomial) -> (r: bool) {
        if !(self.basis == other.basis) {
            return false;
        }
        if self.coeffs.len() != other.coeffs.len() {
            return false;
        }
        let mut i: usize = 0;
        while i < self.coeffs.len()
            invariant
                i <= self.coeffs@.len(),
                self.coeffs@.len() == other.coeffs@.len(),
                forall|j: int| 0 <= j < i ==> self.coeffs@[j] == other.coeffs@[j],
            decreases self.coeffs@.len() - i,
        {
            if self.coeffs[i] != other.coeffs[i] {
                return false;
            }
            i += 1;
        }
        proof {
            assert(self.coeffs@ =~= other.coeffs@);
        }
        true
    }
}

impl vstd::std_specs::cmp::PartialEqSpecImpl for Polynomial {
    open spec fn obeys_eq_spec() -> bool {
        true
    }

    open spec fn eq_spec(&self, other: &Polynomial) -> bool {
        self.basis == other.basis && self.coeffs@ == other.coeffs@
    }
}

/// Relies on rand::Rng::gen_range over rand::thread_rng: returns a value
/// drawn from `[0, upper)`. Nothing is assumed of the distribution; the
/// source is a general-purpose, non-cryptographic generator.
#[verifier::external_body]
fn rand_below(upper: usize) -> (r: usize)
    requires
        upper >= 1,
    ensures
        r < upper,
{
    let mut rng = rand::thread_rng();
    rng.gen_range(0..upper)
}

/// Fill a polynomial with independent draws from `[0, upper)`, reduced
/// into the field; the result is tagged as coefficients.
pub fn rand_poly(a: &mut Polynomial, upper: usize, params: &NttParams)
    requires
        params.wf(),
        old(a).wf(params),
        upper >= 1,
    ensures
        final(a).wf(params),
        final(a).basis == Basis::Coefficient,
        forall|i: int|
            0 <= i < params.degree ==> 0 <= #[trigger] to_ints(final(a).coeffs@)[i]
                < params.modulus && to_ints(final(a).coeffs@)[i] < upper,
{
    let d = params.degree;
    let p = params.modulus;
    let mut i: usize = 0;
    while i < d
        invariant
            params.wf(),
            a.coeffs@.len() == d,
            d == params.degree,
            p == params.modulus,
            upper >= 1,
            i <= d,
            bounded(to_ints(a.coeffs@), p as int),
            forall|j: int|
                0 <= j < i ==> 0 <= #[trigger] to_ints(a.coeffs@)[j] < p && to_ints(
                    a.coeffs@,
                )[j] < upper,
        decreases d - i,
    {
        let r = rand_below(upper);
        let v = fe_new(r as u64, p);
        proof {
            vstd::arithmetic::div_mod::lemma_mod_decreases(r as nat, p as nat);
        }
        let ghost before = to_ints(a.coeffs@);
        a.coeffs.set(i, v);
        proof {
            assert forall|j: int| 0 <= j < d && j != i as int implies #[trigger] to_ints(
                a.coeffs@,
            )[j] == before[j] by {}
        }
        i += 1;
    }
    a.basis = Basis::Coefficient;
}

/// Fill each of a vector's polynomial slots with fresh samples.
pub fn rand_vec(a: &mut Vec<Polynomial>, upper: usize, params: &NttParams)
    requires
        params.wf(),
        old(a)@.len() == params.rank,
        upper >= 1,
    ensures
        final(a)@.len() == params.rank,
        forall|k: int|
            0 <= k < params.rank ==> (#[trigger] final(a)@[k]).wf(params) && final(a)@[k].basis
                == Basis::Coefficient,
        forall|k: int, i: int|
            0 <= k < params.rank && 0 <= i < params.degree ==> 0 <= #[trigger] to_ints(
                final(a)@[k].coeffs@,
            )[i] < params.modulus && to_ints(final(a)@[k].coeffs@)[i] < upper,
{
    let m = params.rank;
    let mut k: usize = 0;
    while k < m
        invariant
            params.wf(),
            m == params.rank,
            upper >= 1,
            k <= m,
            a@.len() == m,
            forall|t: int|
                0 <= t < k ==> (#[trigger] a@[t]).wf(params) && a@[t].basis == Basis::Coefficient,
            forall|t: int, i: int|
                0 <= t < k && 0 <= i < params.degree ==> 0 <= #[trigger] to_ints(
                    a@[t].coeffs@,
                )[i] < params.modulus && to_ints(a@[t].coeffs@)[i] < upper,
        decreases m - k,
    {
        let mut fresh = Polynomial::zero(params);
        rand_poly(&mut fresh, upper, params);
        a.set(k, fresh);
        k += 1;
    }
}

/// Elementwise product of two equal-length arrays of canonical residues;
/// meaningful when both operands are in evaluation representation.
pub fn mult_array(a: &Vec<u64>, b: &Vec<u64>, c: &mut Vec<u64>, p: u64)
    requires
        p >= 2,
        a@.len() == b@.len(),
        old(c)@.len() == a@.len(),
    ensures
        final(c)@.len() == a@.len(),
        bounded(to_ints(final(c)@), p as int),
        to_ints(final(c)@) == pointwise_mulm(to_ints(a@), to_ints(b@), p as int),
{
    let d = a.len();
    let mut i: usize = 0;
    while i < d
        invariant
            p >= 2,
            a@.len() == d,
            b@.len() == d,
            c@.len() == d,
            i <= d,
            forall|j: int|
                0 <= j < i ==> #[trigger] to_ints(c@)[j] == mulm(
                    to_ints(a@)[j],
                    to_ints(b@)[j],
                    p as int,
                ) && 0 <= to_ints(c@)[j] < p,
        decreases d - i,
    {
        let v = mul_mod(a[i], b[i], p);
        let ghost before = to_ints(c@);
        c.set(i, v);
        proof {
            assert forall|j: int| 0 <= j < d && j != i as int implies #[trigger] to_ints(c@)[j]
                == before[j] by {}
        }
        i += 1;
    }
    proof {
        assert(to_ints(c@) =~= pointwise_mulm(to_ints(a@), to_ints(b@), p as int));
    }
}

/// Forward-transform a polynomial in place: coefficients in, evaluations out.
pub fn poly_ntt(a: &mut Polynomial, params: &NttParams)
    requires
        params.wf(),
        old(a).wf(params),
        old(a).basis == Basis::Coefficient,
    ensures
        final(a).wf(params),
        final(a).basis == Basis::Evaluation,
        to_ints(final(a).coeffs@) == ntt_spec(
            to_ints(old(a).coeffs@),
            params.generator as int,
            params.modulus as int,
        ),
{
    ntt(&mut a.coeffs, params.generator, params.modulus);
    a.basis = Basis::Evaluation;
}

/// Inverse-transform a polynomial in place: evaluations in, coefficients
/// out. Exactly inverts `poly_ntt` on every well-formed input.
pub fn poly_intt(a: &mut Polynomial, params: &NttParams)
    requires
        params.wf(),
        old(a).wf(params),
        old(a).basis == Basis::Evaluation,
    ensures
        final(a).wf(params),
        final(a).basis == Basis::Coefficient,
        to_ints(final(a).coeffs@) == scalem(
            intt_core(
                to_ints(old(a).coeffs@),
                invm(params.generator as int, params.modulus as int),
                params.modulus as int,
            ),
            invm(params.degree as int % (params.modulus as int), params.modulus as int),
            params.modulus as int,
        ),
{
    intt(&mut a.coeffs, params.generator, params.modulus);
    a.basis = Basis::Coefficient;
}

/// The assembled ring-multiplication pipeline: transform both operands in
/// place, multiply pointwise in the evaluation domain, and inverse-transform
/// the product back to coefficients.
pub fn ntt_multiply(a: &mut Polynomial, b: &mut Polynomial, out: &mut Polynomial, params: &NttParams)
    requires
        params.wf(),
        old(a).wf(params),
        old(b).wf(params),
        old(out).wf(params),
        old(a).basis == Basis::Coefficient,
        old(b).basis == Basis::Coefficient,
    ensures
        final(a).wf(params) && final(a).basis == Basis::Evaluation,
        final(b).wf(params) && final(b).basis == Basis::Evaluation,
        final(out).wf(params),
        final(out).basis == Basis::Coefficient,
        to_ints(final(out).coeffs@) == scalem(
            intt_core(
                pointwise_mulm(
                    ntt_spec(
                        to_ints(old(a).coeffs@),
                        params.generator as int,
                        params.modulus as int,
                    ),
                    ntt_spec(
                        to_ints(old(b).coeffs@),
                        params.generator as int,
                        params.modulus as int,
                    ),
                    params.modulus as int,
                ),
                invm(params.generator as int, params.modulus as int),
                params.modulus as int,
            ),
            invm(params.degree as int % (params.modulus as int), params.modulus as int),
            params.modulus as int,
        ),
{
    poly_ntt(a, params);
    poly_ntt(b, params);
    mult_array(&a.coeffs, &b.coeffs, &mut out.coeffs, params.modulus);
    intt(&mut out.coeffs, params.generator, params.modulus);
    out.basis = Basis::Coefficient;
}

} // verus!
