//! Comparisons, and conversions between scalars, small integers, 384-bit
//! integers and byte arrays.

use crate::backend::fe_to_montgomery;
use crate::bytes::{be_bytes_value, lemma_le_bytes_value_injective};
use crate::ct::{choice_from, choice_is_set, choice_not};
use crate::field::{
    field_add, field_mul, field_sub, lemma_limbs_suffix_whole, lemma_order_bounds,
    limbs_suffix_value, limbs_value, order,
};
use crate::scalar::{order_uint, Error, Scalar};
use crate::uint::{
    uint_conditional_select, uint_from_le_bytes, uint_sbb, uint_shr_vartime, uint_to_le_bytes,
    uint_value,
};
use core::ops::{AddAssign, MulAssign, Neg, SubAssign};
use elliptic_curve::bigint::U384;
use elliptic_curve::subtle::Choice;
use vstd::arithmetic::div_mod::{lemma_fundamental_div_mod_converse, lemma_small_mod};
use vstd::arithmetic::power2::lemma2_to64;
use vstd::prelude::*;
use vstd::std_specs::convert::{FromSpecImpl, TryFromSpecImpl};

verus! {

/// The canonical encoding of a scalar: 48 big-endian bytes.
pub type FieldBytes = [u8; 48];

/// Half the order of the group, rounded down, as a scalar.
pub fn frac_modulus_2() -> (half: Scalar)
    ensures
        half@ == order() / 2,
{
    let shifted = uint_shr_vartime(&order_uint(), 1);
    proof {
        lemma2_to64();
        lemma_order_bounds();
    }
    Scalar::from_le_bytes(&uint_to_le_bytes(&shifted)).unwrap()
}

impl Scalar {
    /// Whether the scalar is greater than another.
    ///
    /// The two are compared limb by limb from the most significant down, and
    /// the first limb that differs decides. This branches on the limbs: it
    /// does not run in constant time.
    pub fn ct_gt(&self, other: &Scalar) -> (c: Choice)
        ensures
            choice_is_set(c) == (self@ > other@),
    {
        let a = self.to_non_mont();
        let b = other.to_non_mont();
        let mut greater: u8 = 0;
        let mut decided = false;
        let mut i: usize = 6;
        proof {
            lemma_limbs_suffix_whole(a@);
            lemma_limbs_suffix_whole(b@);
        }
        while i > 0
            invariant
                i <= 6,
                greater <= 1,
                decided <==> limbs_suffix_value(a@, i as int) != limbs_suffix_value(b@, i as int),
                (greater == 1) <==> limbs_suffix_value(a@, i as int) > limbs_suffix_value(
                    b@,
                    i as int,
                ),
            decreases i,
        {
            i -= 1;
            if !decided {
                if a[i] > b[i] {
                    greater = 1;
                    decided = true;
                } else if a[i] < b[i] {
                    decided = true;
                }
            }
        }
        choice_from(greater)
    }

    /// Whether the scalar lies in the upper half of the field: above half the
    /// order, rounded down. Like `ct_gt`, this does not run in constant time.
    pub fn is_high(&self) -> (c: Choice)
        ensures
            choice_is_set(c) == (self@ > order() / 2),
    {
        self.ct_gt(&frac_modulus_2())
    }

    /// Whether the scalar, as a number below the order, is odd.
    pub fn is_odd(&self) -> (c: Choice)
        ensures
            choice_is_set(c) == (self@ % 2 == 1),
    {
        let a = self.to_non_mont();
        let low = a[0];
        let bit = (low & 1) as u8;
        proof {
            assert(low & 1 == low % 2) by (bit_vector);
            let rest = (a@[1] as int) * 0x8000000000000000int + (a@[2] as int)
                * 0x8000000000000000_0000000000000000int + (a@[3] as int)
                * 0x8000000000000000_0000000000000000_0000000000000000int + (a@[4] as int)
                * 0x8000000000000000_0000000000000000_0000000000000000_0000000000000000int + (
            a@[5] as int)
                * 0x8000000000000000_0000000000000000_0000000000000000_0000000000000000_0000000000000000int;
            assert(limbs_value(a@) == 2 * (rest + low / 2) + low % 2);
            lemma_fundamental_div_mod_converse(
                limbs_value(a@) as int,
                2,
                rest + low / 2,
                (low % 2) as int,
            );
        }
        choice_from(bit)
    }

    /// A generator of the multiplicative group of the field: 2.
    pub fn multiplicative_generator() -> (g: Scalar)
        ensures
            g@ == 2,
    {
        Scalar::from_u64(2)
    }

    /// The scalar that a small integer stands for: the integer goes into the
    /// lowest limb, and the limbs into the Montgomery domain.
    pub fn from_u64(n: u64) -> (r: Scalar)
        ensures
            r@ == n,
    {
        let limbs = [n, 0, 0, 0, 0, 0];
        proof {
            lemma_order_bounds();
            assert(limbs_value(limbs@) == n);
        }
        Scalar { limbs: fe_to_montgomery(&limbs) }
    }

    /// The primitive square root of one: `n - 1`.
    pub fn root_of_unity() -> (w: Scalar)
        ensures
            w@ == order() - 1,
    {
        proof {
            lemma_order_bounds();
            lemma_fundamental_div_mod_converse(-1, order() as int, -1, order() - 1);
        }
        Scalar::one().neg()
    }

    /// The scalar that a 384-bit integer below twice the order stands for:
    /// the integer itself, or the integer less the order.
    ///
    /// One subtraction is made, and its borrow chooses between the two
    /// without branching. This is no reduction of an arbitrary integer.
    pub fn from_uint_reduced(w: U384) -> (r: Scalar)
        requires
            uint_value(w) < 2 * order(),
        ensures
            r@ == uint_value(w) % order(),
    {
        let (difference, borrow) = uint_sbb(&w, &order_uint());
        let top = borrow >> 63;
        proof {
            assert(borrow == 0 ==> borrow >> 63 == 0) by (bit_vector);
            assert(borrow == 0xffffffffffffffff ==> borrow >> 63 == 1) by (bit_vector);
        }
        let underflow = choice_from(top as u8);
        let reduced = uint_conditional_select(&w, &difference, choice_not(underflow));
        proof {
            lemma_order_bounds();
            if uint_value(w) < order() {
                lemma_small_mod(uint_value(w), order());
            } else {
                lemma_fundamental_div_mod_converse(
                    uint_value(w) as int,
                    order() as int,
                    1,
                    uint_value(w) - order(),
                );
            }
        }
        Scalar::from_le_bytes(&uint_to_le_bytes(&reduced)).unwrap()
    }

    /// The scalar that a 384-bit integer stands for where it is below twice
    /// the order, and nothing where it is not.
    ///
    /// This tests what `from_uint_reduced` asks of its caller, by subtracting
    /// the order up to two times, and then calls it. The test branches on
    /// the integer.
    pub fn from_uint_reduced_checked(w: U384) -> (r: Option<Scalar>)
        ensures
            match r {
                Some(s) => uint_value(w) < 2 * order() && s@ == uint_value(w) % order(),
                None => uint_value(w) >= 2 * order(),
            },
    {
        let n = order_uint();
        let (once, borrow) = uint_sbb(&w, &n);
        proof {
            lemma_order_bounds();
        }
        if borrow != 0 {
            return Some(Scalar::from_uint_reduced(w));
        }
        let (_, borrow) = uint_sbb(&once, &n);
        if borrow != 0 {
            Some(Scalar::from_uint_reduced(w))
        } else {
            None
        }
    }

    /// The scalar as a 384-bit integer.
    pub fn to_uint(&self) -> (w: U384)
        ensures
            uint_value(w) == self@,
    {
        uint_from_le_bytes(self.to_le_bytes())
    }
}

impl FromSpecImpl<u64> for Scalar {
    open(crate) spec fn obeys_from_spec() -> bool {
        true
    }

    open(crate) spec fn from_spec(n: u64) -> Scalar {
        Scalar::of_value(n as nat)
    }
}

impl From<u64> for Scalar {
    fn from(n: u64) -> (r: Scalar)
        ensures
            r@ == n,
    {
        let r = Scalar::from_u64(n);
        proof {
            use_type_invariant(r);
            Scalar::lemma_of_value(r);
        }
        r
    }
}

impl TryFromSpecImpl<U384> for Scalar {
    open(crate) spec fn obeys_try_from_spec() -> bool {
        true
    }

    open(crate) spec fn try_from_spec(w: U384) -> Result<Scalar, Error> {
        if uint_value(w) < order() {
            Ok(Scalar::of_value(uint_value(w)))
        } else {
            Err(Error::NonCanonicalEncoding)
        }
    }
}

impl TryFrom<U384> for Scalar {
    type Error = Error;

    /// The scalar that a 384-bit integer stands for, where it is below the
    /// order.
    fn try_from(w: U384) -> (r: Result<Scalar, Error>)
        ensures
            match r {
                Ok(s) => uint_value(w) < order() && s@ == uint_value(w),
                Err(e) => uint_value(w) >= order() && e == Error::NonCanonicalEncoding,
            },
    {
        let r = Scalar::from_le_bytes(&uint_to_le_bytes(&w));
        proof {
            if let Ok(s) = r {
                use_type_invariant(s);
                Scalar::lemma_of_value(s);
            }
        }
        r
    }
}

impl FromSpecImpl<Scalar> for U384 {
    open(crate) spec fn obeys_from_spec() -> bool {
        false
    }

    open(crate) spec fn from_spec(scalar: Scalar) -> U384 {
        choose|w: U384| uint_value(w) == scalar@
    }
}

impl From<Scalar> for U384 {
    fn from(scalar: Scalar) -> (w: U384)
        ensures
            uint_value(w) == scalar@,
    {
        scalar.to_uint()
    }
}

impl FromSpecImpl<&Scalar> for U384 {
    open(crate) spec fn obeys_from_spec() -> bool {
        false
    }

    open(crate) spec fn from_spec(scalar: &Scalar) -> U384 {
        choose|w: U384| uint_value(w) == scalar@
    }
}

impl From<&Scalar> for U384 {
    fn from(scalar: &Scalar) -> (w: U384)
        ensures
            uint_value(w) == scalar@,
    {
        scalar.to_uint()
    }
}

/// The 48 bytes whose big-endian value is `v`.
pub open spec fn be_bytes_of(v: nat) -> FieldBytes {
    choose|bytes: FieldBytes| be_bytes_value(bytes@) == v
}

/// `be_bytes_of` gives back the bytes that the value was read from.
pub proof fn lemma_be_bytes_of(bytes: FieldBytes)
    ensures
        be_bytes_of(be_bytes_value(bytes@)) == bytes,
{
    let other = be_bytes_of(be_bytes_value(bytes@));
    lemma_le_bytes_value_injective(other@.reverse(), bytes@.reverse());
    assert(other@ =~= other@.reverse().reverse());
    assert(bytes@ =~= bytes@.reverse().reverse());
    assert(other =~= bytes);
}

impl FromSpecImpl<Scalar> for FieldBytes {
    open(crate) spec fn obeys_from_spec() -> bool {
        true
    }

    open(crate) spec fn from_spec(scalar: Scalar) -> FieldBytes {
        be_bytes_of(scalar@)
    }
}

impl From<Scalar> for FieldBytes {
    fn from(scalar: Scalar) -> (bytes: FieldBytes)
        ensures
            be_bytes_value(bytes@) == scalar@,
    {
        let bytes = scalar.to_repr();
        proof {
            lemma_be_bytes_of(bytes);
        }
        bytes
    }
}

impl FromSpecImpl<&Scalar> for FieldBytes {
    open(crate) spec fn obeys_from_spec() -> bool {
        true
    }

    open(crate) spec fn from_spec(scalar: &Scalar) -> FieldBytes {
        be_bytes_of(scalar@)
    }
}

impl From<&Scalar> for FieldBytes {
    fn from(scalar: &Scalar) -> (bytes: FieldBytes)
        ensures
            be_bytes_value(bytes@) == scalar@,
    {
        let bytes = scalar.to_repr();
        proof {
            lemma_be_bytes_of(bytes);
        }
        bytes
    }
}

impl AddAssign<Scalar> for Scalar {
    fn add_assign(&mut self, other: Scalar)
        ensures
            final(self)@ == field_add(old(self)@, other@),
    {
        *self = *self + other;
    }
}

impl AddAssign<&Scalar> for Scalar {
    fn add_assign(&mut self, other: &Scalar)
        ensures
            final(self)@ == field_add(old(self)@, other@),
    {
        *self = *self + other;
    }
}

impl SubAssign<Scalar> for Scalar {
    fn sub_assign(&mut self, other: Scalar)
        ensures
            final(self)@ == field_sub(old(self)@, other@),
    {
        *self = *self - other;
    }
}

impl SubAssign<&Scalar> for Scalar {
    fn sub_assign(&mut self, other: &Scalar)
        ensures
            final(self)@ == field_sub(old(self)@, other@),
    {
        *self = *self - other;
    }
}

impl MulAssign<Scalar> for Scalar {
    fn mul_assign(&mut self, other: Scalar)
        ensures
            final(self)@ == field_mul(old(self)@, other@),
    {
        *self = *self * other;
    }
}

impl MulAssign<&Scalar> for Scalar {
    fn mul_assign(&mut self, other: &Scalar)
        ensures
            final(self)@ == field_mul(old(self)@, other@),
    {
        *self = *self * other;
    }
}

} // verus!
