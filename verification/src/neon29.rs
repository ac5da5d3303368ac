//! Two-lane Montgomery multiplication over the 29-bit-limb domain.
//!
//! The rounds of two independent products are interleaved: lane 0 holds the first
//! element, lane 1 the second. Inputs and outputs are in the `2^261` Montgomery
//! domain and bounded by `2 * p`, with the same contract as
//! [`crate::lazy29::mont_mul_p`]; entering and leaving the domain is the caller's
//! business and only pays off when amortised over many operations.
use crate::lazy29;
use crate::lazy29::{Params, LIMBS};
use crate::limbs;
use crate::montgomery;
use vstd::arithmetic::mul::*;
use vstd::arithmetic::power2::*;
use vstd::prelude::*;

verus! {

/// Two independent Montgomery products, one per lane.
///
/// Same algorithm as the scalar 29-bit routine, so the results are identical
/// ([`law_lane_is_scalar`]).
#[inline(always)]
pub fn mont_mul2(
    pr: &Params,
    a: &[[u64; LIMBS]; 2],
    b: &[[u64; LIMBS]; 2],
) -> (out: [[u64; LIMBS]; 2])
    requires
        pr.wf(),
        forall|lane: int|
            0 <= lane < 2 ==> limbs::carried(#[trigger] a[lane]) && limbs::carried(b[lane])
                && limbs::value29(a[lane]) * limbs::value29(b[lane]) < pow2(261) * pr.modulus(),
    ensures
        forall|lane: int|
            0 <= lane < 2 ==> pr.lazy(#[trigger] out[lane]) && limbs::value29(out[lane])
                == montgomery::redc(
                limbs::value29(a[lane]) * limbs::value29(b[lane]),
                pr.modulus(),
            ) && pr.element(out[lane]) == (pr.element(a[lane]) * pr.element(b[lane]))
                % pr.modulus(),
{
    let a0: [u64; LIMBS] = a[0];
    let a1: [u64; LIMBS] = a[1];
    let b0: [u64; LIMBS] = b[0];
    let b1: [u64; LIMBS] = b[1];
    let mut t0: [u64; LIMBS] = [0u64; LIMBS];
    let mut t1: [u64; LIMBS] = [0u64; LIMBS];
    let ghost mut ms0: nat = 0;
    let ghost mut ms1: nat = 0;
    proof {
        limbs::lemma_value_zero(t0@, 29, 9);
        lemma2_to64();
        lemma_mul_basics(limbs::value29(b0) as int);
        lemma_mul_basics(limbs::value29(b1) as int);
        lemma_mul_basics(pr.modulus() as int);
    }
    for i in 0..LIMBS
        invariant
            pr.wf(),
            lazy29::after_rounds(*pr, a0, b0, t0, i as nat, ms0),
            lazy29::after_rounds(*pr, a1, b1, t1, i as nat, ms1),
    {
        let ghost told0 = t0;
        let ghost told1 = t1;
        let m0: u64 = lazy29::mont_round(pr, &mut t0, a0[i], &b0);
        let m1: u64 = lazy29::mont_round(pr, &mut t1, a1[i], &b1);
        proof {
            lazy29::lemma_round_total(*pr, a0, b0, told0, t0, i as nat, ms0, m0);
            lazy29::lemma_round_total(*pr, a1, b1, told1, t1, i as nat, ms1, m1);
            ms0 = ms0 + (m0 as nat) * pow2(29 * i as nat);
            ms1 = ms1 + (m1 as nat) * pow2(29 * i as nat);
        }
    }
    proof {
        lazy29::lemma_rounds_done(*pr, a0, b0, t0, ms0);
        lazy29::lemma_rounds_done(*pr, a1, b1, t1, ms1);
    }
    // One propagation pass per lane.
    lazy29::carry_pass(&mut t0);
    lazy29::carry_pass(&mut t1);
    [t0, t1]
}

/// A lane of [`mont_mul2`] and [`crate::lazy29::mont_mul_p`] on the same operands return the same
/// limbs: the common contract admits one result only.
pub proof fn law_lane_is_scalar(
    pr: Params,
    a: [u64; LIMBS],
    b: [u64; LIMBS],
    lane: [u64; LIMBS],
    scalar: [u64; LIMBS],
)
    requires
        pr.lazy(lane),
        limbs::value29(lane) == montgomery::redc(
            limbs::value29(a) * limbs::value29(b),
            pr.modulus(),
        ),
        pr.lazy(scalar),
        limbs::value29(scalar) == montgomery::redc(
            limbs::value29(a) * limbs::value29(b),
            pr.modulus(),
        ),
    ensures
        lane@ == scalar@,
{
    limbs::lemma_unique29(lane, scalar);
}

} // verus!
