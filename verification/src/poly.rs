//! Fixed-degree polynomial over the reduction modulus `Q`, with an
//! elementwise approximate-reduction pass.

use vstd::prelude::*;
use crate::reduce::{reduce32, Q};

verus! {

/// Number of coefficients in a `Poly`.
pub const N: usize = 128;

/// A polynomial with `N` signed coefficients, reduced modulo `Q`
/// only as far as `reduce32` guarantees.
#[derive(Clone, Debug)]
pub struct Poly {
    pub coeffs: Vec<i32>,
}

impl Poly {
    /// The container always holds exactly `N` coefficients.
    pub open spec fn wf(&self) -> bool {
        self.coeffs@.len() == N
    }
}

/// Apply the approximate reduction to every coefficient in place: each
/// result is congruent to the input modulo `Q` and lies strictly
/// within `(-Q, Q)`.
pub fn poly_reduce(a: &mut Poly)
    requires
        old(a).wf(),
        forall|i: int| 0 <= i < N ==> old(a).coeffs@[i] <= i32::MAX - 0x40_0000,
    ensures
        final(a).wf(),
        forall|i: int|
            0 <= i < N ==> final(a).coeffs@[i] as int % Q as int == old(a).coeffs@[i] as int
                % Q as int,
        forall|i: int| 0 <= i < N ==> -(Q as int) < (#[trigger] final(a).coeffs@[i] as int) < (Q as int),
{
    let mut i: usize = 0;
    while i < N
        invariant
            a.wf(),
            i <= N,
            forall|j: int| i <= j < N ==> a.coeffs@[j] == old(a).coeffs@[j],
            forall|j: int| i <= j < N ==> a.coeffs@[j] <= i32::MAX - 0x40_0000,
            forall|j: int|
                0 <= j < i ==> a.coeffs@[j] as int % Q as int == old(a).coeffs@[j] as int
                    % Q as int,
            forall|j: int| 0 <= j < i ==> -(Q as int) < (#[trigger] a.coeffs@[j] as int) < (Q as int),
        decreases N - i,
    {
        let c = reduce32(a.coeffs[i]);
        a.coeffs.set(i, c);
        i = i + 1;
    }
}

} // verus!
