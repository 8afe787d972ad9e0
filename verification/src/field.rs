//! The mathematical model: the modulus, the arithmetic of the field, and how
//! limbs stand for numbers.

use vstd::arithmetic::div_mod::{
    lemma_add_mod_noop, lemma_add_mod_noop_right, lemma_fundamental_div_mod_converse,
    lemma_mod_bound, lemma_mul_mod_noop_general, lemma_small_mod,
};
use vstd::arithmetic::mul::{
    lemma_mul_is_associative, lemma_mul_is_commutative, lemma_mul_is_distributive_add,
    lemma_mul_nonnegative,
};
use vstd::arithmetic::power::{
    lemma_pow1, lemma_pow_adds, lemma_pow_mod_noop, lemma_pow_multiplies, pow,
};
use vstd::prelude::*;

verus! {

/// The order `n` of the P-384 group, a 384-bit prime.
#[verifier::opaque]
pub open spec fn order() -> nat {
    0xffffffffffffffffffffffffffffffffffffffffffffffffc7634d81f4372ddf581a0db248b0a77aecec196accc52973nat
}

/// The Montgomery radix `R = 2^384`.
pub open spec fn radix() -> nat {
    0x1000000000000000000000000000000000000000000000000000000000000000000000000000000000000000000000000nat
}

/// The inverse of `R` modulo `n`.
#[verifier::opaque]
pub open spec fn radix_inverse() -> nat {
    0x355ca87de39dbb1fa150206ce4f194ac78d4ba5866d61787e29f9fb70a9da219d26d4aeba664edb0610ae855f2c0d911nat
}

/// The inverse of `2^64` modulo `n`.
pub open spec fn word_inverse() -> nat {
    0x6ed46089e88fdc44ffffffffffffffffffffffffffffffffe77db430c45557887cd4735123d969cd0432fa0ca03b08afnat
}

/// The number that six 64-bit limbs stand for, least significant limb first.
pub open spec fn limbs_value(limbs: Seq<u64>) -> nat
    recommends
        limbs.len() == 6,
{
    (limbs[0] as nat) + (limbs[1] as nat) * 0x1_0000000000000000nat + (limbs[2] as nat)
        * 0x1_0000000000000000_0000000000000000nat + (limbs[3] as nat)
        * 0x1_0000000000000000_0000000000000000_0000000000000000nat + (limbs[4] as nat)
        * 0x1_0000000000000000_0000000000000000_0000000000000000_0000000000000000nat + (
    limbs[5] as nat)
        * 0x1_0000000000000000_0000000000000000_0000000000000000_0000000000000000_0000000000000000nat
}

/// The number that the limbs from position `from` on stand for.
pub open spec fn limbs_suffix_value(limbs: Seq<u64>, from: int) -> nat
    recommends
        limbs.len() == 6,
    decreases 6 - from,
{
    if 0 <= from < 6 {
        (limbs[from] as nat) + 0x1_0000000000000000nat * limbs_suffix_value(limbs, from + 1)
    } else {
        0
    }
}

/// All six limbs are the suffix from 0.
pub proof fn lemma_limbs_suffix_whole(limbs: Seq<u64>)
    ensures
        limbs_suffix_value(limbs, 0) == limbs_value(limbs),
        limbs_suffix_value(limbs, 6) == 0,
{
    reveal_with_fuel(limbs_suffix_value, 8);
}

/// The field element that a Montgomery-domain number `x` stands for: `x / R mod n`.
pub open spec fn mont_decode(x: nat) -> nat {
    (x * radix_inverse()) % order()
}

/// Addition in the field.
pub open spec fn field_add(a: nat, b: nat) -> nat {
    (a + b) % order()
}

/// Subtraction in the field.
pub open spec fn field_sub(a: nat, b: nat) -> nat {
    ((a - b) % (order() as int)) as nat
}

/// The additive inverse in the field.
pub open spec fn field_neg(a: nat) -> nat {
    ((-(a as int)) % (order() as int)) as nat
}

/// Multiplication in the field.
pub open spec fn field_mul(a: nat, b: nat) -> nat {
    (a * b) % order()
}

/// `a` raised to the power `e` in the field.
pub open spec fn field_pow(a: nat, e: nat) -> nat {
    (pow(a as int, e) % (order() as int)) as nat
}

/// The order lies between `2^383` and `2^384`, and is odd.
pub proof fn lemma_order_bounds()
    ensures
        radix() / 2 < order() < radix(),
        order() % 2 == 1,
{
    reveal(order);
}

/// `R * R^-1 = 1 (mod n)`.
pub proof fn lemma_radix_inverse()
    ensures
        (radix() * radix_inverse()) % order() == 1,
{
    reveal(order);
    reveal(radix_inverse);
}

/// The inverse of `2^64` modulo `n`, and its sixth power, which is the
/// inverse of `R`. The limb arithmetic states the factor that takes a number
/// out of the Montgomery domain in this second form.
pub proof fn lemma_radix_inverse_by_words()
    ensures
        (0x1_0000000000000000 * word_inverse()) % order() == 1,
        pow(word_inverse() as int, 6) % (order() as int) == radix_inverse(),
{
    reveal(order);
    reveal(radix_inverse);
    let w = word_inverse() as int;
    reveal_with_fuel(pow, 7);
    let w2 = w * w;
    let w3 = w2 * w;
    assert(pow(w, 6) == w3 * w3) by (nonlinear_arith)
        requires
            pow(w, 6) == w * (w * (w * (w * (w * (w * 1))))),
            w2 == w * w,
            w3 == w2 * w,
    ;
}

/// The Montgomery-domain number that stands for a field element: `v * R mod n`.
pub open spec fn mont_encode(v: nat) -> nat {
    (v * radix()) % order()
}

/// Encoding then decoding gives the field element back.
pub proof fn lemma_mont_encode_decodes(v: nat)
    requires
        v < order(),
    ensures
        mont_encode(v) < order(),
        mont_decode(mont_encode(v)) == v,
{
    lemma_order_bounds();
    let n = order() as int;
    let ri = radix_inverse() as int;
    let r = radix() as int;
    let vi = v as int;
    lemma_mod_bound(vi * r, n);
    lemma_mul_mod_noop_general(vi * r, ri, n);
    lemma_mul_is_associative(vi, r, ri);
    lemma_mul_mod_noop_general(vi, r * ri, n);
    lemma_radix_inverse();
    assert((vi * 1) % n == vi) by {
        lemma_small_mod(v, order());
    }
}

/// The six limbs of a number below `2^384`, least significant first.
pub open spec fn limbs_of(x: nat) -> Seq<u64> {
    let w = 0x1_0000000000000000nat;
    seq![
        (x % w) as u64,
        (x / w % w) as u64,
        (x / w / w % w) as u64,
        (x / w / w / w % w) as u64,
        (x / w / w / w / w % w) as u64,
        (x / w / w / w / w / w % w) as u64,
    ]
}

/// The limbs of a number stand for the number.
pub proof fn lemma_limbs_of(x: nat)
    requires
        x < radix(),
    ensures
        limbs_of(x).len() == 6,
        limbs_value(limbs_of(x)) == x,
{
    let w = 0x1_0000000000000000nat;
    let q1 = x / w;
    let q2 = q1 / w;
    let q3 = q2 / w;
    let q4 = q3 / w;
    let q5 = q4 / w;
    assert(x == x % w + w * q1);
    assert(q1 == q1 % w + w * q2);
    assert(q2 == q2 % w + w * q3);
    assert(q3 == q3 % w + w * q4);
    assert(q4 == q4 % w + w * q5);
    assert(q5 < w);
    assert(q5 == q5 % w);
}

/// A decoded Montgomery number is a field element.
pub proof fn lemma_mont_decode_bound(x: nat)
    ensures
        mont_decode(x) < order(),
{
    lemma_order_bounds();
}

/// The results of the field's operations are field elements.
pub proof fn lemma_field_bounds(a: nat, b: nat)
    ensures
        field_add(a, b) < order(),
        field_sub(a, b) < order(),
        field_mul(a, b) < order(),
        field_neg(a) < order(),
{
    lemma_order_bounds();
}

/// Multiplying a decoded number by `R` gives the number back.
pub proof fn lemma_mont_decode_inverts(x: nat)
    requires
        x < order(),
    ensures
        (mont_decode(x) * radix()) % order() == x,
{
    lemma_order_bounds();
    let n = order() as int;
    let ri = radix_inverse() as int;
    let r = radix() as int;
    let xi = x as int;
    lemma_mul_mod_noop_general(xi * ri, r, n);
    lemma_mul_is_associative(xi, ri, r);
    lemma_mul_mod_noop_general(xi, ri * r, n);
    lemma_mul_is_commutative(ri, r);
    lemma_radix_inverse();
    assert((ri * r) % n == 1);
    assert((xi * 1) % n == xi) by {
        lemma_small_mod(x, order());
    }
}

/// Reduced Montgomery numbers that decode to one element are one number.
pub proof fn lemma_mont_decode_injective(x: nat, y: nat)
    requires
        x < order(),
        y < order(),
        mont_decode(x) == mont_decode(y),
    ensures
        x == y,
{
    lemma_mont_decode_inverts(x);
    lemma_mont_decode_inverts(y);
}

proof fn lemma_digit_split(lo1: int, hi1: int, lo2: int, hi2: int)
    requires
        0 <= lo1 < 0x1_0000000000000000,
        0 <= lo2 < 0x1_0000000000000000,
        lo1 + 0x1_0000000000000000 * hi1 == lo2 + 0x1_0000000000000000 * hi2,
    ensures
        lo1 == lo2,
        hi1 == hi2,
{
    let b = 0x1_0000000000000000int;
    let x = lo1 + b * hi1;
    lemma_fundamental_div_mod_converse(x, b, hi1, lo1);
    lemma_fundamental_div_mod_converse(x, b, hi2, lo2);
}

/// Six limbs are determined by the number they stand for.
pub proof fn lemma_limbs_value_injective(a: Seq<u64>, b: Seq<u64>)
    requires
        a.len() == 6,
        b.len() == 6,
        limbs_value(a) == limbs_value(b),
    ensures
        a =~= b,
{
    let w = 0x1_0000000000000000int;
    let a4 = a[4] + w * a[5];
    let a3 = a[3] + w * a4;
    let a2 = a[2] + w * a3;
    let a1 = a[1] + w * a2;
    let b4 = b[4] + w * b[5];
    let b3 = b[3] + w * b4;
    let b2 = b[2] + w * b3;
    let b1 = b[1] + w * b2;
    assert(limbs_value(a) == a[0] + w * a1);
    assert(limbs_value(b) == b[0] + w * b1);
    lemma_digit_split(a[0] as int, a1, b[0] as int, b1);
    lemma_digit_split(a[1] as int, a2, b[1] as int, b2);
    lemma_digit_split(a[2] as int, a3, b[2] as int, b3);
    lemma_digit_split(a[3] as int, a4, b[3] as int, b4);
    lemma_digit_split(a[4] as int, a[5] as int, b[4] as int, b[5] as int);
}

/// Six limbs stand for a number below `R`.
pub proof fn lemma_limbs_value_bound(a: Seq<u64>)
    requires
        a.len() == 6,
    ensures
        limbs_value(a) < radix(),
{
}

/// The first power of a field element is the element.
pub proof fn lemma_field_pow_one(a: nat)
    requires
        a < order(),
    ensures
        field_pow(a, 1) == a,
{
    lemma_pow1(a as int);
    lemma_small_mod(a, order());
}

/// Squaring a power doubles the exponent.
pub proof fn lemma_field_pow_square(a: nat, e: nat)
    ensures
        field_mul(field_pow(a, e), field_pow(a, e)) == field_pow(a, 2 * e),
{
    lemma_field_pow_adds(a, e, e);
}

/// Multiplying powers adds the exponents.
pub proof fn lemma_field_pow_adds(a: nat, e1: nat, e2: nat)
    ensures
        field_mul(field_pow(a, e1), field_pow(a, e2)) == field_pow(a, e1 + e2),
{
    lemma_order_bounds();
    let n = order() as int;
    let ai = a as int;
    lemma_pow_adds(ai, e1, e2);
    lemma_pow_positive_or_zero(ai, e1);
    lemma_pow_positive_or_zero(ai, e2);
    lemma_pow_positive_or_zero(ai, e1 + e2);
    lemma_mod_bound(pow(ai, e1), n);
    lemma_mod_bound(pow(ai, e2), n);
    lemma_mod_bound(pow(ai, e1 + e2), n);
    lemma_mul_mod_noop_general(pow(ai, e1), pow(ai, e2), n);
}

/// A power of a power multiplies the exponents.
pub proof fn lemma_field_pow_pow(a: nat, e1: nat, e2: nat)
    ensures
        field_pow(field_pow(a, e1), e2) == field_pow(a, e1 * e2),
{
    lemma_order_bounds();
    let n = order() as int;
    let ai = a as int;
    lemma_pow_positive_or_zero(ai, e1);
    lemma_mod_bound(pow(ai, e1), n);
    lemma_pow_mod_noop(pow(ai, e1), e2, n);
    lemma_pow_multiplies(ai, e1, e2);
}

/// A power of a natural number is not negative.
pub proof fn lemma_pow_positive_or_zero(a: int, e: nat)
    requires
        a >= 0,
    ensures
        pow(a, e) >= 0,
    decreases e,
{
    reveal(pow);
    if e > 0 {
        lemma_pow_positive_or_zero(a, (e - 1) as nat);
        lemma_mul_nonnegative(a, pow(a, (e - 1) as nat));
    }
}

/// Addition in the field is commutative.
pub proof fn lemma_add_commutative(a: nat, b: nat)
    ensures
        field_add(a, b) == field_add(b, a),
{
}

/// Addition in the field is associative.
pub proof fn lemma_add_associative(a: nat, b: nat, c: nat)
    ensures
        field_add(field_add(a, b), c) == field_add(a, field_add(b, c)),
{
    lemma_order_bounds();
    let n = order() as int;
    let (ai, bi, ci) = (a as int, b as int, c as int);
    lemma_add_mod_noop_right(ci, ai + bi, n);
    lemma_add_mod_noop_right(ai, bi + ci, n);
    assert(ci + (ai + bi) == ai + (bi + ci));
}

/// An element and its negation add up to zero.
pub proof fn lemma_add_negation(a: nat)
    ensures
        field_add(a, field_neg(a)) == 0,
{
    lemma_order_bounds();
    let n = order() as int;
    let ai = a as int;
    lemma_mod_bound(-ai, n);
    lemma_add_mod_noop_right(ai, -ai, n);
    lemma_small_mod(0, order());
}

/// Subtracting is adding the negation.
pub proof fn lemma_sub_is_add_negation(a: nat, b: nat)
    ensures
        field_sub(a, b) == field_add(a, field_neg(b)),
{
    lemma_order_bounds();
    let n = order() as int;
    let (ai, bi) = (a as int, b as int);
    lemma_mod_bound(-bi, n);
    lemma_mod_bound(ai - bi, n);
    lemma_add_mod_noop_right(ai, -bi, n);
}

/// Multiplication in the field is commutative.
pub proof fn lemma_mul_commutative(a: nat, b: nat)
    ensures
        field_mul(a, b) == field_mul(b, a),
{
    lemma_mul_is_commutative(a as int, b as int);
}

/// Multiplication in the field is associative.
pub proof fn lemma_mul_associative(a: nat, b: nat, c: nat)
    ensures
        field_mul(field_mul(a, b), c) == field_mul(a, field_mul(b, c)),
{
    lemma_order_bounds();
    let n = order() as int;
    let (ai, bi, ci) = (a as int, b as int, c as int);
    lemma_mul_mod_noop_general(ai * bi, ci, n);
    lemma_mul_mod_noop_general(ai, bi * ci, n);
    lemma_mul_is_associative(ai, bi, ci);
}

/// One is the multiplicative identity.
pub proof fn lemma_mul_one(a: nat)
    requires
        a < order(),
    ensures
        field_mul(a, 1) == a,
        field_mul(1, a) == a,
{
    lemma_small_mod(a, order());
    lemma_mul_is_commutative(a as int, 1);
}

/// The product of two negations is the product of what they negate.
pub proof fn lemma_mul_negations(a: nat, b: nat)
    ensures
        field_mul(field_neg(a), field_neg(b)) == field_mul(a, b),
{
    lemma_order_bounds();
    let n = order() as int;
    let (ai, bi) = (a as int, b as int);
    lemma_mod_bound(-ai, n);
    lemma_mod_bound(-bi, n);
    lemma_mul_mod_noop_general(-ai, -bi, n);
    assert((-ai) * (-bi) == ai * bi) by (nonlinear_arith);
}

/// Multiplication distributes over addition.
pub proof fn lemma_mul_distributes(a: nat, b: nat, c: nat)
    ensures
        field_mul(a, field_add(b, c)) == field_add(field_mul(a, b), field_mul(a, c)),
{
    lemma_order_bounds();
    let n = order() as int;
    let (ai, bi, ci) = (a as int, b as int, c as int);
    lemma_mul_mod_noop_general(ai, bi + ci, n);
    lemma_mul_is_distributive_add(ai, bi, ci);
    lemma_add_mod_noop(ai * bi, ai * ci, n);
}

} // verus!
