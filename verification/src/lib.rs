//! The scalar field of NIST P-384: the integers modulo the order `n` of the
//! curve's group.
//!
//! A [`Scalar`] is an element of that field. Its view is the element itself,
//! a number below `order()`, and every executable function carries a contract
//! over that number. Inside, a scalar is six limbs in the Montgomery domain;
//! the limb arithmetic comes from `fiat-crypto`, the constant-time flags from
//! `subtle` and the 384-bit integers from `crypto-bigint`, each behind
//! wrappers whose contracts are taken on trust.
//!
//! - `field`: the modulus, the arithmetic of the field as mathematics, and
//!   its laws.
//! - `bytes`: byte strings as numbers.
//! - `backend`, `ct`, `uint`, `secret`: what is taken from other crates.
//! - `scalar`: the type, its encodings and its arithmetic.
//! - `convert`: comparisons and conversions.
//! - `divstep`, `invert`: inversion by division steps.
//! - `sqrt`: square roots along an addition chain.
//! - `laws`: what holds of these functions taken together.
//!
//! Nothing secret is branched on or used as an index but where a function
//! says so. That is a property of how the code is written; no contract
//! states it.

pub mod backend;
pub mod bytes;
pub mod convert;
pub mod ct;
pub mod divstep;
pub mod field;
pub mod invert;
pub mod laws;
pub mod scalar;
pub mod secret;
pub mod sqrt;
pub mod uint;

pub use convert::{frac_modulus_2, FieldBytes};
pub use scalar::{Error, Scalar};
