//! Inversion in constant time, by division steps.

use crate::backend::{
    fe_divstep, fe_divstep_precomp, fe_msat, fe_mul, fe_opp, fe_selectznz, fe_set_one,
    DivstepLimbs,
};
use crate::ct::{choice_not, option_is_some, option_new, option_value};
use crate::divstep::{
    divstep_bounded, divstep_iterations, divstep_start, divsteps, invert_candidate,
    lemma_divstep_bounded,
};
use crate::field::{
    lemma_limbs_value_bound, lemma_order_bounds, limbs_value, radix, radix_inverse,
};
use crate::scalar::Scalar;
use elliptic_curve::subtle::CtOption;
use vstd::prelude::*;

verus! {

/// How many division steps a modulus of `bits` bits takes.
pub fn iterations(bits: usize) -> (count: usize)
    requires
        bits <= 0x10000,
    ensures
        count == divstep_iterations(bits as nat),
{
    (49 * bits + (if bits < 46 {
        80
    } else {
        57
    })) / 17
}

impl Scalar {
    /// The inverse of the scalar, as a constant-time option that is some
    /// exactly where the scalar is not zero.
    ///
    /// The same steps are taken whatever the scalar is: a fixed number of
    /// division steps, a choice between `v` and `-v` by the sign of `f` made
    /// without branching, and one multiplication by the correction. The
    /// contract says what these steps compute;
    /// `laws::lemma_invert_where_converged` says when that is the inverse.
    pub fn invert(&self) -> (r: CtOption<Scalar>)
        ensures
            option_is_some(r) == (self@ != 0),
            option_value(r)@ == invert_candidate(self@),
            option_value(r).is_reduced(),
    {
        let a = self.to_non_mont();
        let zero = [0u64; 6];
        let mut state = DivstepLimbs {
            d: 1,
            f: fe_msat(),
            g: [a[0], a[1], a[2], a[3], a[4], a[5], 0],
            v: zero,
            r: fe_set_one(),
        };
        let count = iterations(384);
        let mut i: usize = 0;
        proof {
            lemma_order_bounds();
            assert(zero@[0] == 0 && zero@[1] == 0 && zero@[2] == 0 && zero@[3] == 0 && zero@[4]
                == 0 && zero@[5] == 0);
            assert(limbs_value(zero@) == 0);
            assert(0nat * radix_inverse() == 0);
            assert(state.g@.subrange(0, 6) =~= a@);
            assert(state.model() == divstep_start(self@));
        }
        while i < count
            invariant
                i <= count,
                count == 1110,
                state.reduced(),
                state.model() == divsteps(divstep_start(self@), i as nat),
                divstep_bounded(state.model(), radix() as int),
                -1 - i <= state.model().d <= 1 + i,
            decreases count - i,
        {
            proof {
                lemma_divstep_bounded(state.model(), radix() as int);
            }
            state = fe_divstep(&state);
            i += 1;
        }
        let v_opp = fe_opp(&state.v);
        let sign = (state.f[6] >> 63) as u8;
        proof {
            let top = state.f[6];
            assert(top >> 63 == 0 || top >> 63 == 1) by (bit_vector);
            assert((top >> 63 == 1) <==> top >= 0x8000000000000000) by (bit_vector);
            lemma_limbs_value_bound(state.f@.subrange(0, 6));
        }
        let v = fe_selectznz(sign, &state.v, &v_opp);
        let precomp = fe_divstep_precomp();
        let inverse = Scalar { limbs: fe_mul(&v, &precomp) };
        proof {
            use_type_invariant(inverse);
        }
        option_new(inverse, choice_not(self.is_zero()))
    }

    /// The inverse of the scalar. It takes the same constant-time path as
    /// `invert`.
    pub fn invert_vartime(&self) -> (r: CtOption<Scalar>)
        ensures
            option_is_some(r) == (self@ != 0),
            option_value(r)@ == invert_candidate(self@),
            option_value(r).is_reduced(),
    {
        self.invert()
    }
}

} // verus!
