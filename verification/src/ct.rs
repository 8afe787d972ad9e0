//! Constant-time flags and options, taken from `subtle`.
//!
//! A `Choice` is a bit that the compiler is kept from treating as a `bool`; a
//! `CtOption` is a value with such a bit beside it. Both are opaque here:
//! the two names below say what they hold, and the wrappers say what each
//! operation of `subtle` does to it.

use crate::scalar::Scalar;
use elliptic_curve::subtle::{Choice, ConstantTimeEq, CtOption};
use vstd::prelude::*;

verus! {

/// `subtle::Choice`, passed through as it is: what it holds is known only
/// by `choice_is_set`.
#[verifier::external_type_specification]
#[verifier::external_body]
pub struct ExChoice(Choice);

/// `subtle::CtOption`, passed through as it is: what it holds is known only
/// by `option_is_some` and `option_value`.
#[verifier::external_type_specification]
#[verifier::external_body]
#[verifier::reject_recursive_types(T)]
pub struct ExCtOption<T>(CtOption<T>);

/// Whether a `Choice` holds 1 rather than 0. `subtle` keeps every `Choice`
/// at one of the two.
pub uninterp spec fn choice_is_set(c: Choice) -> bool;

/// Whether a `CtOption` is some.
pub uninterp spec fn option_is_some(o: CtOption<Scalar>) -> bool;

/// The value that a `CtOption` carries, whether it is some or not.
pub uninterp spec fn option_value(o: CtOption<Scalar>) -> Scalar;

/// `Choice::from`: a flag that is set exactly when `bit` is 1.
#[verifier::external_body]
pub(crate) fn choice_from(bit: u8) -> (c: Choice)
    requires
        bit == 0 || bit == 1,
    ensures
        choice_is_set(c) == (bit == 1),
{
    Choice::from(bit)
}

/// `Choice::unwrap_u8`: 1 for a set flag, 0 for a clear one.
#[verifier::external_body]
pub(crate) fn choice_bit(c: Choice) -> (bit: u8)
    ensures
        bit == (if choice_is_set(c) {
            1u8
        } else {
            0u8
        }),
{
    c.unwrap_u8()
}

/// `!` on `Choice`: the opposite flag.
#[verifier::external_body]
pub(crate) fn choice_not(c: Choice) -> (r: Choice)
    ensures
        choice_is_set(r) == !choice_is_set(c),
{
    !c
}

/// `&` on `Choice`: set when both are.
#[verifier::external_body]
pub(crate) fn choice_and(a: Choice, b: Choice) -> (r: Choice)
    ensures
        choice_is_set(r) == (choice_is_set(a) && choice_is_set(b)),
{
    a & b
}

/// `ConstantTimeEq::ct_eq` on `u64`: set exactly when the two are equal.
#[verifier::external_body]
pub(crate) fn u64_ct_eq(a: u64, b: u64) -> (r: Choice)
    ensures
        choice_is_set(r) == (a == b),
{
    a.ct_eq(&b)
}

/// `CtOption::new`: keeps the value and the flag.
#[verifier::external_body]
pub(crate) fn option_new(value: Scalar, is_some: Choice) -> (o: CtOption<Scalar>)
    ensures
        option_value(o) == value,
        option_is_some(o) == choice_is_set(is_some),
{
    CtOption::new(value, is_some)
}

/// `Option::from` on a `CtOption`: the value where it is some, nothing where
/// it is not.
#[verifier::external_body]
pub(crate) fn option_reveal(o: CtOption<Scalar>) -> (r: Option<Scalar>)
    ensures
        r == (if option_is_some(o) {
            Some(option_value(o))
        } else {
            None
        }),
{
    Option::from(o)
}

} // verus!
