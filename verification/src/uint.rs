//! 384-bit unsigned integers, taken from `crypto-bigint`.
//!
//! `U384` is six 64-bit limbs; the library runs on 64-bit targets only.

use crate::bytes::le_bytes_value;
use crate::ct::choice_is_set;
use crate::field::{limbs_value, radix};
use elliptic_curve::bigint::{Encoding, Limb, UInt, U384};
use elliptic_curve::subtle::{Choice, ConditionallySelectable};
use vstd::arithmetic::power2::pow2;
use vstd::prelude::*;

verus! {

/// `crypto_bigint::UInt`, passed through as it is: the number that a
/// `U384` holds is known only by `uint_value`.
#[verifier::external_type_specification]
#[verifier::external_body]
pub struct ExUInt<const LIMBS: usize>(UInt<LIMBS>);

/// The number that a `U384` holds.
pub uninterp spec fn uint_value(u: U384) -> nat;

/// `UInt::from_words`: the integer with these words, least significant first.
#[verifier::external_body]
pub(crate) fn uint_from_words(words: [u64; 6]) -> (u: U384)
    ensures
        uint_value(u) == limbs_value(words@),
{
    U384::from_words(words)
}

/// `Encoding::from_le_bytes`: the integer with these little-endian bytes.
#[verifier::external_body]
pub(crate) fn uint_from_le_bytes(bytes: [u8; 48]) -> (u: U384)
    ensures
        uint_value(u) == le_bytes_value(bytes@),
{
    U384::from_le_bytes(bytes)
}

/// `Encoding::to_le_bytes`: the 48 little-endian bytes of the integer.
#[verifier::external_body]
pub(crate) fn uint_to_le_bytes(u: &U384) -> (bytes: [u8; 48])
    ensures
        le_bytes_value(bytes@) == uint_value(*u),
{
    u.to_le_bytes()
}

/// `UInt::sbb` with no borrow coming in: the difference modulo `2^384`, and a
/// word that is all ones where the subtraction borrowed and zero where it did
/// not.
#[verifier::external_body]
pub(crate) fn uint_sbb(a: &U384, b: &U384) -> (r: (U384, u64))
    ensures
        uint_value(*a) >= uint_value(*b) ==> uint_value(r.0) == uint_value(*a) - uint_value(*b)
            && r.1 == 0,
        uint_value(*a) < uint_value(*b) ==> uint_value(r.0) == uint_value(*a) + radix()
            - uint_value(*b) && r.1 == u64::MAX,
{
    let (diff, borrow) = a.sbb(b, Limb::ZERO);
    (diff, borrow.0)
}

/// `UInt::shr_vartime`: the integer shifted right by less than a word.
#[verifier::external_body]
pub(crate) fn uint_shr_vartime(u: &U384, shift: usize) -> (r: U384)
    requires
        shift < 64,
    ensures
        uint_value(r) == uint_value(*u) / pow2(shift as nat),
{
    u.shr_vartime(shift)
}

/// `ConditionallySelectable::conditional_select` on `U384`: the second
/// integer where the flag is set, the first where it is not.
#[verifier::external_body]
pub(crate) fn uint_conditional_select(a: &U384, b: &U384, choice: Choice) -> (r: U384)
    ensures
        uint_value(r) == (if choice_is_set(choice) {
            uint_value(*b)
        } else {
            uint_value(*a)
        }),
{
    U384::conditional_select(a, b, choice)
}

} // verus!
