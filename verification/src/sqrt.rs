//! Square roots, by one fixed exponentiation.
//!
//! The order `n` is 3 modulo 4, so a square `x` has the root `x^((n + 1) / 4)`.
//! That power is computed along an addition chain, which is held as data and
//! proved to reach the exponent.

use crate::ct::{option_is_some, option_new, option_value};
use crate::field::{
    field_mul, field_pow, lemma_field_pow_adds, lemma_field_pow_one, lemma_field_pow_pow, order,
};
use crate::scalar::Scalar;
use elliptic_curve::subtle::CtOption;
use vstd::arithmetic::power2::{lemma2_to64, lemma2_to64_rest, lemma_pow2_adds, pow2};
use vstd::prelude::*;

verus! {

/// The multiplicand of a step that only squares.
pub const SQUARE_ONLY: usize = usize::MAX;

/// The addition chain of the square root.
///
/// The chain starts at `x`, which is value 0. Step `k`, counted from 1,
/// makes value `k` from value `k - 1`: it squares it as many times as the
/// step's first number says, and multiplies the result by the earlier value
/// that the second number names. A second number that names no earlier value
/// stands for no multiplication; `SQUARE_ONLY` is written for it.
pub const SQRT_CHAIN: [(usize, usize); 57] = [
    (1, SQUARE_ONLY), (0, 0), (0, 1), (0, 1), (0, 1), (0, 1),
    (0, 1), (0, 1), (1, SQUARE_ONLY), (0, 0), (2, SQUARE_ONLY), (1, SQUARE_ONLY),
    (1, SQUARE_ONLY), (5, 13), (10, 14), (4, 12), (21, 15), (3, 11),
    (47, 17), (95, 19), (0, 8), (6, 4), (3, 2), (7, 7),
    (6, 7), (1, 0), (11, 10), (2, 0), (8, 7), (2, 2),
    (6, 6), (4, 4), (6, 10), (5, 6), (10, 7), (9, 7),
    (4, 6), (6, 5), (3, 0), (7, 6), (7, 3), (5, 4),
    (5, 8), (5, 6), (4, 6), (5, 4), (3, 2), (7, 2),
    (6, 6), (4, 3), (3, 2), (4, 2), (4, 2), (6, 3),
    (5, 3), (6, 6), (3, 3),
];

/// The power of `x` that value `k` of a chain is.
pub open spec fn chain_exponent(steps: Seq<(usize, usize)>, k: nat) -> nat
    decreases k,
{
    if k == 0 || k > steps.len() {
        1
    } else {
        let step = steps[k - 1];
        let squared = chain_exponent(steps, (k - 1) as nat) * pow2(step.0 as nat);
        if step.1 < k {
            squared + chain_exponent(steps, step.1 as nat)
        } else {
            squared
        }
    }
}

/// The exponent of the square root: `(n + 1) / 4`.
pub open spec fn sqrt_exponent() -> nat {
    (order() + 1) / 4
}

/// What one step of a chain does to the exponent.
proof fn lemma_chain_step(
    steps: Seq<(usize, usize)>,
    k: nat,
    before: nat,
    factor: nat,
    operand: nat,
)
    requires
        0 < k <= steps.len(),
        chain_exponent(steps, (k - 1) as nat) == before,
        pow2(steps[k - 1].0 as nat) == factor,
        operand == (if steps[k - 1].1 < k {
            chain_exponent(steps, steps[k - 1].1 as nat)
        } else {
            0
        }),
    ensures
        chain_exponent(steps, k) == before * factor + operand,
{
}

/// Where `2^e1` and `2^e2` are known, `2^(e1 + e2)` is their product.
proof fn lemma_pow2_of_sum(e1: nat, v1: nat, e2: nat, v2: nat)
    requires
        pow2(e1) == v1,
        pow2(e2) == v2,
    ensures
        pow2(e1 + e2) == v1 * v2,
{
    lemma_pow2_adds(e1, e2);
}

/// `2^95`, which the longest run of squarings of the chain needs.
proof fn lemma_pow2_95()
    ensures
        pow2(95) == 0x800000000000000000000000,
{
    lemma2_to64();
    lemma_pow2_of_sum(64, 0x10000000000000000, 31, 0x80000000);
}

/// The exponent that the chain has reached after 20 steps.
proof fn lemma_sqrt_chain_first()
    ensures
        chain_exponent(SQRT_CHAIN@, 20) == 0x3fffffffffffffffffffffffffffffffffffffffffffffff0nat,
{
    let c = SQRT_CHAIN@;
    lemma2_to64();
    lemma2_to64_rest();
    lemma_pow2_95();
    lemma_sqrt_chain_operands();
    lemma_chain_step(c, 14, 0x1f0nat, 0x20nat, 0x1f0nat);
    lemma_chain_step(c, 15, 0x3ff0nat, 0x400nat, 0x3ff0nat);
    lemma_chain_step(c, 16, 0xfffff0nat, 0x10nat, 0xf8nat);
    lemma_chain_step(c, 17, 0xffffff8nat, 0x200000nat, 0xfffff0nat);
    lemma_chain_step(c, 18, 0x1fffffffffff0nat, 0x8nat, 0x7cnat);
    lemma_chain_step(c, 19, 0xffffffffffffcnat, 0x800000000000nat, 0x1fffffffffff0nat);
    lemma_chain_step(c, 20, 0x7fffffffffffffffffffffff0nat, 0x800000000000000000000000nat, 0x7fffffffffffffffffffffff0nat);
}

/// The exponent that the chain has reached after 40 steps.
proof fn lemma_sqrt_chain_second()
    ensures
        chain_exponent(SQRT_CHAIN@, 40) == 0xffffffffffffffffffffffffffffffffffffffffffffffffc7634d81f4372ddf581a0db248bnat,
{
    let c = SQRT_CHAIN@;
    lemma2_to64();
    lemma_sqrt_chain_first();
    lemma_sqrt_chain_operands();
    lemma_chain_step(c, 21, 0x3fffffffffffffffffffffffffffffffffffffffffffffff0nat, 0x1nat, 0xfnat);
    lemma_chain_step(c, 22, 0x3ffffffffffffffffffffffffffffffffffffffffffffffffnat, 0x40nat, 0x7nat);
    lemma_chain_step(c, 23, 0xffffffffffffffffffffffffffffffffffffffffffffffffc7nat, 0x8nat, 0x3nat);
    lemma_chain_step(c, 24, 0x7fffffffffffffffffffffffffffffffffffffffffffffffe3bnat, 0x80nat, 0xdnat);
    lemma_chain_step(c, 25, 0x3ffffffffffffffffffffffffffffffffffffffffffffffff1d8dnat, 0x40nat, 0xdnat);
    lemma_chain_step(c, 26, 0xffffffffffffffffffffffffffffffffffffffffffffffffc7634dnat, 0x2nat, 0x1nat);
    lemma_chain_step(c, 27, 0x1ffffffffffffffffffffffffffffffffffffffffffffffff8ec69bnat, 0x800nat, 0x1fnat);
    lemma_chain_step(c, 28, 0xffffffffffffffffffffffffffffffffffffffffffffffffc7634d81fnat, 0x4nat, 0x1nat);
    lemma_chain_step(c, 29, 0x3ffffffffffffffffffffffffffffffffffffffffffffffff1d8d3607dnat, 0x100nat, 0xdnat);
    lemma_chain_step(c, 30, 0x3ffffffffffffffffffffffffffffffffffffffffffffffff1d8d3607d0dnat, 0x4nat, 0x3nat);
    lemma_chain_step(c, 31, 0xffffffffffffffffffffffffffffffffffffffffffffffffc7634d81f437nat, 0x40nat, 0xbnat);
    lemma_chain_step(c, 32, 0x3ffffffffffffffffffffffffffffffffffffffffffffffff1d8d3607d0dcbnat, 0x10nat, 0x7nat);
    lemma_chain_step(c, 33, 0x3ffffffffffffffffffffffffffffffffffffffffffffffff1d8d3607d0dcb7nat, 0x40nat, 0x1fnat);
    lemma_chain_step(c, 34, 0xffffffffffffffffffffffffffffffffffffffffffffffffc7634d81f4372ddfnat, 0x20nat, 0xbnat);
    lemma_chain_step(c, 35, 0x1ffffffffffffffffffffffffffffffffffffffffffffffff8ec69b03e86e5bbebnat, 0x400nat, 0xdnat);
    lemma_chain_step(c, 36, 0x7fffffffffffffffffffffffffffffffffffffffffffffffe3b1a6c0fa1b96efac0dnat, 0x200nat, 0xdnat);
    lemma_chain_step(c, 37, 0xffffffffffffffffffffffffffffffffffffffffffffffffc7634d81f4372ddf581a0dnat, 0x10nat, 0xbnat);
    lemma_chain_step(c, 38, 0xffffffffffffffffffffffffffffffffffffffffffffffffc7634d81f4372ddf581a0dbnat, 0x40nat, 0x9nat);
    lemma_chain_step(c, 39, 0x3ffffffffffffffffffffffffffffffffffffffffffffffff1d8d3607d0dcb77d606836c9nat, 0x8nat, 0x1nat);
    lemma_chain_step(c, 40, 0x1ffffffffffffffffffffffffffffffffffffffffffffffff8ec69b03e86e5bbeb0341b649nat, 0x80nat, 0xbnat);
}

/// The powers of `x` that the later steps multiply by.
proof fn lemma_sqrt_chain_operands()
    ensures
        chain_exponent(SQRT_CHAIN@, 0) == 0x1nat,
        chain_exponent(SQRT_CHAIN@, 1) == 0x2nat,
        chain_exponent(SQRT_CHAIN@, 2) == 0x3nat,
        chain_exponent(SQRT_CHAIN@, 3) == 0x5nat,
        chain_exponent(SQRT_CHAIN@, 4) == 0x7nat,
        chain_exponent(SQRT_CHAIN@, 5) == 0x9nat,
        chain_exponent(SQRT_CHAIN@, 6) == 0xbnat,
        chain_exponent(SQRT_CHAIN@, 7) == 0xdnat,
        chain_exponent(SQRT_CHAIN@, 8) == 0xfnat,
        chain_exponent(SQRT_CHAIN@, 9) == 0x1enat,
        chain_exponent(SQRT_CHAIN@, 10) == 0x1fnat,
        chain_exponent(SQRT_CHAIN@, 11) == 0x7cnat,
        chain_exponent(SQRT_CHAIN@, 12) == 0xf8nat,
        chain_exponent(SQRT_CHAIN@, 13) == 0x1f0nat,
{
    let c = SQRT_CHAIN@;
    lemma2_to64();
    lemma_chain_step(c, 1, 0x1nat, 0x2nat, 0x0nat);
    lemma_chain_step(c, 2, 0x2nat, 0x1nat, 0x1nat);
    lemma_chain_step(c, 3, 0x3nat, 0x1nat, 0x2nat);
    lemma_chain_step(c, 4, 0x5nat, 0x1nat, 0x2nat);
    lemma_chain_step(c, 5, 0x7nat, 0x1nat, 0x2nat);
    lemma_chain_step(c, 6, 0x9nat, 0x1nat, 0x2nat);
    lemma_chain_step(c, 7, 0xbnat, 0x1nat, 0x2nat);
    lemma_chain_step(c, 8, 0xdnat, 0x1nat, 0x2nat);
    lemma_chain_step(c, 9, 0xfnat, 0x2nat, 0x0nat);
    lemma_chain_step(c, 10, 0x1enat, 0x1nat, 0x1nat);
    lemma_chain_step(c, 11, 0x1fnat, 0x4nat, 0x0nat);
    lemma_chain_step(c, 12, 0x7cnat, 0x2nat, 0x0nat);
    lemma_chain_step(c, 13, 0xf8nat, 0x2nat, 0x0nat);
}

/// The addition chain of the square root ends at the exponent `(n + 1) / 4`.
pub proof fn lemma_sqrt_chain()
    ensures
        chain_exponent(SQRT_CHAIN@, 57) == sqrt_exponent(),
{
    let c = SQRT_CHAIN@;
    lemma2_to64();
    lemma_sqrt_chain_second();
    lemma_sqrt_chain_operands();
    lemma_chain_step(c, 41, 0xffffffffffffffffffffffffffffffffffffffffffffffffc7634d81f4372ddf581a0db248bnat, 0x80nat, 0x5nat);
    lemma_chain_step(c, 42, 0x7fffffffffffffffffffffffffffffffffffffffffffffffe3b1a6c0fa1b96efac0d06d924585nat, 0x20nat, 0x7nat);
    lemma_chain_step(c, 43, 0xffffffffffffffffffffffffffffffffffffffffffffffffc7634d81f4372ddf581a0db248b0a7nat, 0x20nat, 0xfnat);
    lemma_chain_step(c, 44, 0x1ffffffffffffffffffffffffffffffffffffffffffffffff8ec69b03e86e5bbeb0341b6491614efnat, 0x20nat, 0xbnat);
    lemma_chain_step(c, 45, 0x3ffffffffffffffffffffffffffffffffffffffffffffffff1d8d3607d0dcb77d606836c922c29debnat, 0x10nat, 0xbnat);
    lemma_chain_step(c, 46, 0x3ffffffffffffffffffffffffffffffffffffffffffffffff1d8d3607d0dcb77d606836c922c29debbnat, 0x20nat, 0x7nat);
    lemma_chain_step(c, 47, 0x7fffffffffffffffffffffffffffffffffffffffffffffffe3b1a6c0fa1b96efac0d06d9245853bd767nat, 0x8nat, 0x3nat);
    lemma_chain_step(c, 48, 0x3ffffffffffffffffffffffffffffffffffffffffffffffff1d8d3607d0dcb77d606836c922c29debb3bnat, 0x80nat, 0x3nat);
    lemma_chain_step(c, 49, 0x1ffffffffffffffffffffffffffffffffffffffffffffffff8ec69b03e86e5bbeb0341b6491614ef5d9d83nat, 0x40nat, 0xbnat);
    lemma_chain_step(c, 50, 0x7fffffffffffffffffffffffffffffffffffffffffffffffe3b1a6c0fa1b96efac0d06d9245853bd76760cbnat, 0x10nat, 0x5nat);
    lemma_chain_step(c, 51, 0x7fffffffffffffffffffffffffffffffffffffffffffffffe3b1a6c0fa1b96efac0d06d9245853bd76760cb5nat, 0x8nat, 0x3nat);
    lemma_chain_step(c, 52, 0x3ffffffffffffffffffffffffffffffffffffffffffffffff1d8d3607d0dcb77d606836c922c29debb3b065abnat, 0x10nat, 0x3nat);
    lemma_chain_step(c, 53, 0x3ffffffffffffffffffffffffffffffffffffffffffffffff1d8d3607d0dcb77d606836c922c29debb3b065ab3nat, 0x10nat, 0x3nat);
    lemma_chain_step(c, 54, 0x3ffffffffffffffffffffffffffffffffffffffffffffffff1d8d3607d0dcb77d606836c922c29debb3b065ab33nat, 0x40nat, 0x5nat);
    lemma_chain_step(c, 55, 0xffffffffffffffffffffffffffffffffffffffffffffffffc7634d81f4372ddf581a0db248b0a77aecec196accc5nat, 0x20nat, 0x5nat);
    lemma_chain_step(c, 56, 0x1ffffffffffffffffffffffffffffffffffffffffffffffff8ec69b03e86e5bbeb0341b6491614ef5d9d832d5998a5nat, 0x40nat, 0xbnat);
    lemma_chain_step(c, 57, 0x7fffffffffffffffffffffffffffffffffffffffffffffffe3b1a6c0fa1b96efac0d06d9245853bd76760cb5666294bnat, 0x8nat, 0x5nat);
    reveal(order);
}

impl Scalar {
    /// The power of the scalar that an addition chain describes.
    ///
    /// The same squarings and multiplications are made whatever the scalar
    /// is: the chain alone decides them.
    pub fn pow_chain<const N: usize>(&self, steps: &[(usize, usize); N]) -> (r: Scalar)
        ensures
            r@ == field_pow(self@, chain_exponent(steps@, N as nat)),
    {
        let mut values = [*self; N];
        let mut acc = *self;
        let mut k: usize = 0;
        proof {
            Scalar::lemma_value_bound(*self);
            lemma_field_pow_one(self@);
        }
        while k < N
            invariant
                k <= N,
                steps@.len() == N,
                self@ == field_pow(self@, 1),
                acc@ == field_pow(self@, chain_exponent(steps@, k as nat)),
                forall|j: int|
                    0 <= j < k ==> (#[trigger] values@[j])@ == field_pow(
                        self@,
                        chain_exponent(steps@, (j + 1) as nat),
                    ),
            decreases N - k,
        {
            let (squarings, operand) = steps[k];
            let squared = acc.sqn(squarings);
            let ghost before = chain_exponent(steps@, k as nat);
            proof {
                lemma_field_pow_pow(self@, before, pow2(squarings as nat));
            }
            let next = if operand > k {
                squared
            } else {
                let multiplicand = if operand == 0 {
                    *self
                } else {
                    values[operand - 1]
                };
                proof {
                    lemma_field_pow_adds(
                        self@,
                        before * pow2(squarings as nat),
                        chain_exponent(steps@, operand as nat),
                    );
                }
                squared * multiplicand
            };
            values[k] = next;
            acc = next;
            k += 1;
        }
        acc
    }

    /// The candidate for a square root of the scalar, as a constant-time
    /// option that is some exactly where the candidate is a root.
    ///
    /// The candidate is `self^((n + 1) / 4)`, whatever the scalar is; it is
    /// squared and held against the scalar, and the option is some exactly where
    /// the two agree. A scalar that is no square has no root, so its candidate
    /// fails.
    pub fn sqrt(&self) -> (r: CtOption<Scalar>)
        ensures
            option_value(r)@ == field_pow(self@, sqrt_exponent()),
            option_is_some(r) == (field_mul(option_value(r)@, option_value(r)@) == self@),
            option_value(r).is_reduced(),
    {
        proof {
            lemma_sqrt_chain();
        }
        let root = self.pow_chain(&SQRT_CHAIN);
        let valid = root.square().ct_eq(self);
        proof {
            use_type_invariant(root);
        }
        option_new(root, valid)
    }
}

} // verus!
