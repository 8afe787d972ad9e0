//! The division step of Bernstein and Yang's constant-time inversion, as
//! mathematics: what one step does to `(d, f, g, v, r)`, and what many do.

use crate::field::{
    field_add, field_mul, field_neg, field_pow, field_sub, lemma_field_bounds, order,
};
use vstd::prelude::*;

verus! {

/// The five values that the inversion threads through its steps: the step
/// counter `d`, the two numbers `f` and `g` whose greatest common divisor is
/// sought, and the two field elements `v` and `r` that keep track of how `f`
/// and `g` came about.
pub struct DivstepState {
    pub d: int,
    pub f: int,
    pub g: int,
    pub v: nat,
    pub r: nat,
}

/// One division step.
///
/// Where `d` is positive and `g` is odd, `f` and `g` change places:
/// `g` becomes `(g - f) / 2`. Otherwise `g` becomes `(g + f) / 2` where it
/// is odd and `g / 2` where it is even. Each division is exact while `f` is
/// odd. `v` and `r` go the same way in the field, but `v` is doubled where
/// `g` is halved.
pub open spec fn divstep(s: DivstepState) -> DivstepState {
    if s.d > 0 && s.g % 2 == 1 {
        DivstepState {
            d: 1 - s.d,
            f: s.g,
            g: (s.g - s.f) / 2,
            v: field_add(s.r, s.r),
            r: field_sub(s.r, s.v),
        }
    } else if s.g % 2 == 1 {
        DivstepState {
            d: 1 + s.d,
            f: s.f,
            g: (s.g + s.f) / 2,
            v: field_add(s.v, s.v),
            r: field_add(s.r, s.v),
        }
    } else {
        DivstepState { d: 1 + s.d, f: s.f, g: s.g / 2, v: field_add(s.v, s.v), r: s.r }
    }
}

/// `k` division steps, one after the other.
pub open spec fn divsteps(s: DivstepState, k: nat) -> DivstepState
    decreases k,
{
    if k == 0 {
        s
    } else {
        divstep(divsteps(s, (k - 1) as nat))
    }
}

/// Where the inversion of `a` starts: `f` is the modulus, `g` is `a`.
pub open spec fn divstep_start(a: nat) -> DivstepState {
    DivstepState { d: 1, f: order() as int, g: a as int, v: 0, r: 1 }
}

/// How many division steps a modulus of `bits` bits takes.
pub open spec fn divstep_iterations(bits: nat) -> nat {
    (49 * bits + (if bits < 46 {
        80nat
    } else {
        57nat
    })) / 17
}

/// The factor that undoes the doublings of `v`: `((n - 1) / 2)` to the
/// power of the number of steps, which is that power of the inverse of 2.
pub open spec fn divstep_correction() -> nat {
    field_pow(((order() - 1) / 2) as nat, divstep_iterations(384))
}

/// What the inversion of `a` computes: all the steps, then `v` with the sign
/// of `f`, times the correction.
pub open spec fn invert_candidate(a: nat) -> nat {
    let end = divsteps(divstep_start(a), divstep_iterations(384));
    field_mul(
        if end.f < 0 {
            field_neg(end.v)
        } else {
            end.v
        },
        divstep_correction(),
    )
}

/// `f` is odd, and `f` and `g` lie within `bound` of zero.
pub open spec fn divstep_bounded(s: DivstepState, bound: int) -> bool {
    &&& s.f % 2 == 1
    &&& -bound <= s.f <= bound
    &&& -bound <= s.g <= bound
}

/// A step keeps `f` odd and `f` and `g` within their bound, and moves `d`
/// by at most one away from zero.
pub proof fn lemma_divstep_bounded(s: DivstepState, bound: int)
    requires
        divstep_bounded(s, bound),
    ensures
        divstep_bounded(divstep(s), bound),
        -1 - s.d <= divstep(s).d <= 1 + s.d || 1 + s.d <= divstep(s).d <= 1 - s.d,
        divstep(s).v < order(),
        s.r < order() ==> divstep(s).r < order(),
{
    lemma_field_bounds(s.r, s.v);
    lemma_field_bounds(s.r, s.r);
    lemma_field_bounds(s.v, s.v);
}

} // verus!
