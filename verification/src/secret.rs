//! Wiping secrets from memory, taken from `zeroize`.

use crate::field::{lemma_order_bounds, limbs_value, radix_inverse};
use crate::scalar::Scalar;
use elliptic_curve::zeroize::Zeroize;
use vstd::prelude::*;

verus! {

/// `Zeroize::zeroize` on the limbs of a scalar: every limb is overwritten
/// with zero, by writes that the compiler may not take out.
#[verifier::external_body]
pub(crate) fn limbs_zeroize(scalar: &mut Scalar)
    ensures
        forall|i: int| 0 <= i < 6 ==> final(scalar).limbs@[i] == 0,
{
    scalar.limbs.zeroize();
}

impl Scalar {
    /// Overwrites the scalar with zero, so that a secret does not stay in
    /// memory after its use. What is left is the scalar zero.
    pub fn zeroize(&mut self)
        ensures
            final(self)@ == 0,
    {
        proof {
            lemma_order_bounds();
            assert(0nat * radix_inverse() == 0);
        }
        limbs_zeroize(self);
        proof {
            assert(limbs_value(self.limbs@) == 0);
        }
    }
}

} // verus!
