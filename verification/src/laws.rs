//! What holds of the library's functions taken together.
//!
//! Each law is stated over the spec functions that the contracts of the
//! executable functions use, so it speaks of what those functions return.

use crate::bytes::{be_bytes_value, le_bytes_value, lemma_le_bytes_value_injective};
use crate::divstep::{
    divstep, divstep_bounded, divstep_correction, divstep_iterations, divstep_start, divsteps,
    invert_candidate, lemma_divstep_bounded, DivstepState,
};
use crate::field::{
    field_add, field_mul, field_neg, field_pow, lemma_add_associative, lemma_add_commutative,
    lemma_add_negation, lemma_field_bounds, lemma_field_pow_adds, lemma_field_pow_pow,
    lemma_mul_negations, lemma_mul_one, lemma_order_bounds, lemma_sub_is_add_negation, order,
    radix,
};
use crate::scalar::Scalar;
use crate::sqrt::sqrt_exponent;
use vstd::arithmetic::div_mod::{
    lemma_add_mod_noop, lemma_fundamental_div_mod_converse, lemma_mod_bound, lemma_mod_self_0,
    lemma_mul_mod_noop_left, lemma_mul_mod_noop_right, lemma_small_mod, lemma_sub_mod_noop,
};
use vstd::arithmetic::power::{
    lemma0_pow, lemma1_pow, lemma_pow_distributes, lemma_pow_mod_noop, lemma_pow_multiplies,
    lemma_square_is_pow2, pow,
};
use vstd::arithmetic::power2::{lemma2_to64, lemma_pow2, lemma_pow2_unfold, pow2};
use vstd::prelude::*;
use vstd::std_specs::ops::{AddSpec, MulSpec, NegSpec, SubSpec};

verus! {

/// Decoding then encoding gives the bytes back, little-endian: where 48
/// bytes stand for a number below the order, a scalar with that value
/// encodes to the same 48 bytes.
pub proof fn lemma_roundtrip_le(bytes: Seq<u8>, scalar: Scalar, encoded: Seq<u8>)
    requires
        bytes.len() == 48,
        encoded.len() == 48,
        le_bytes_value(bytes) < order(),
        scalar@ == le_bytes_value(bytes),
        le_bytes_value(encoded) == scalar@,
    ensures
        encoded == bytes,
{
    lemma_le_bytes_value_injective(encoded, bytes);
}

/// Decoding then encoding gives the bytes back, big-endian.
pub proof fn lemma_roundtrip_be(bytes: Seq<u8>, scalar: Scalar, encoded: Seq<u8>)
    requires
        bytes.len() == 48,
        encoded.len() == 48,
        be_bytes_value(bytes) < order(),
        scalar@ == be_bytes_value(bytes),
        be_bytes_value(encoded) == scalar@,
    ensures
        encoded == bytes,
{
    lemma_le_bytes_value_injective(encoded.reverse(), bytes.reverse());
    assert(encoded =~= encoded.reverse().reverse());
    assert(bytes =~= bytes.reverse().reverse());
}

/// Encoding then decoding gives the scalar back: a reduced scalar whose
/// value is that of another's encoding is that other scalar.
pub proof fn lemma_roundtrip_scalar(scalar: Scalar, encoded: Seq<u8>, decoded: Scalar)
    requires
        scalar.is_reduced(),
        decoded.is_reduced(),
        le_bytes_value(encoded) == scalar@,
        decoded@ == le_bytes_value(encoded),
    ensures
        decoded == scalar,
{
    Scalar::lemma_value_determines(decoded, scalar);
}

/// Addition of scalars is commutative.
pub proof fn lemma_scalar_add_commutative(a: Scalar, b: Scalar)
    ensures
        a.add_spec(b) == b.add_spec(a),
{
    lemma_add_commutative(a@, b@);
}

/// Addition of scalars is associative.
pub proof fn lemma_scalar_add_associative(a: Scalar, b: Scalar, c: Scalar)
    ensures
        a.add_spec(b).add_spec(c) == a.add_spec(b.add_spec(c)),
{
    lemma_field_bounds(a@, b@);
    lemma_field_bounds(b@, c@);
    Scalar::lemma_of_value_exists(field_add(a@, b@));
    Scalar::lemma_of_value_exists(field_add(b@, c@));
    lemma_add_associative(a@, b@, c@);
}

/// A scalar and its negation add up to zero.
pub proof fn lemma_scalar_add_negation(a: Scalar)
    ensures
        a.add_spec(a.neg_spec()) == Scalar::of_value(0),
{
    lemma_field_bounds(a@, a@);
    Scalar::lemma_of_value_exists(field_neg(a@));
    lemma_add_negation(a@);
}

/// Subtracting a scalar is adding its negation.
pub proof fn lemma_scalar_sub_is_add_negation(a: Scalar, b: Scalar)
    ensures
        a.sub_spec(b) == a.add_spec(b.neg_spec()),
{
    lemma_field_bounds(b@, b@);
    Scalar::lemma_of_value_exists(field_neg(b@));
    lemma_sub_is_add_negation(a@, b@);
}

/// The product of two negations is the product of what they negate.
pub proof fn lemma_scalar_mul_negations(a: Scalar, b: Scalar)
    ensures
        a.neg_spec().mul_spec(b.neg_spec()) == a.mul_spec(b),
{
    lemma_field_bounds(a@, b@);
    lemma_field_bounds(b@, a@);
    Scalar::lemma_of_value_exists(field_neg(a@));
    Scalar::lemma_of_value_exists(field_neg(b@));
    lemma_mul_negations(a@, b@);
}

/// A scalar times one is the scalar.
pub proof fn lemma_scalar_mul_one(a: Scalar)
    requires
        a.is_reduced(),
    ensures
        a.mul_spec(Scalar::of_value(1)) == a,
{
    lemma_order_bounds();
    Scalar::lemma_of_value_exists(1);
    Scalar::lemma_value_bound(a);
    lemma_mul_one(a@);
    Scalar::lemma_of_value(a);
}

/// `x` and `y` leave the same remainder modulo `m`.
pub open spec fn congruent(x: int, y: int, m: int) -> bool {
    x % m == y % m
}

proof fn lemma_congruent_scale(x: int, y: int, c: int, m: int)
    requires
        m > 0,
        congruent(x, y, m),
    ensures
        congruent(c * x, c * y, m),
{
    lemma_mul_mod_noop_right(c, x, m);
    lemma_mul_mod_noop_right(c, y, m);
}

proof fn lemma_congruent_add(x1: int, y1: int, x2: int, y2: int, m: int)
    requires
        m > 0,
        congruent(x1, y1, m),
        congruent(x2, y2, m),
    ensures
        congruent(x1 + x2, y1 + y2, m),
{
    lemma_add_mod_noop(x1, x2, m);
    lemma_add_mod_noop(y1, y2, m);
}

proof fn lemma_congruent_sub(x1: int, y1: int, x2: int, y2: int, m: int)
    requires
        m > 0,
        congruent(x1, y1, m),
        congruent(x2, y2, m),
    ensures
        congruent(x1 - x2, y1 - y2, m),
{
    lemma_sub_mod_noop(x1, x2, m);
    lemma_sub_mod_noop(y1, y2, m);
}

/// How `v` and `r` keep track of `f` and `g`: `v * a = p * f` and
/// `r * a = p * g` modulo the order, where `a` is the number being inverted
/// and `p` the power of two that the steps so far have divided by.
pub open spec fn divstep_tracks(s: DivstepState, a: int, p: int) -> bool {
    &&& congruent(s.v * a, p * s.f, order() as int)
    &&& congruent(s.r * a, p * s.g, order() as int)
}

/// One division step keeps `v` and `r` on track, with `p` doubled.
pub proof fn lemma_divstep_tracks(s: DivstepState, a: int, p: int)
    requires
        s.f % 2 == 1,
        divstep_tracks(s, a, p),
    ensures
        divstep_tracks(divstep(s), a, 2 * p),
{
    lemma_order_bounds();
    let n = order() as int;
    let t = divstep(s);
    let v = s.v as int;
    let r = s.r as int;
    let va = v * a;
    let ra = r * a;
    let (f, g) = (s.f, s.g);
    let (tf, tg) = (t.f, t.g);
    let tv = t.v as int;
    let tr = t.r as int;
    if s.d > 0 && g % 2 == 1 {
        assert(tv == (r + r) % n);
        lemma_mul_mod_noop_left(r + r, a, n);
        assert((r + r) * a == 2 * ra) by (nonlinear_arith)
            requires
                ra == r * a,
        ;
        lemma_congruent_scale(ra, p * g, 2, n);
        assert(2 * (p * g) == (2 * p) * tf) by (nonlinear_arith)
            requires
                tf == g,
        ;
        lemma_mod_bound(r - v, n);
        assert(tr == (r - v) % n);
        lemma_mul_mod_noop_left(r - v, a, n);
        assert((r - v) * a == ra - va) by (nonlinear_arith)
            requires
                ra == r * a,
                va == v * a,
        ;
        lemma_congruent_sub(ra, p * g, va, p * f, n);
        assert(g - f == 2 * tg);
        assert(p * g - p * f == (2 * p) * tg) by (nonlinear_arith)
            requires
                g - f == 2 * tg,
        ;
    } else {
        assert(tv == (v + v) % n);
        lemma_mul_mod_noop_left(v + v, a, n);
        assert((v + v) * a == 2 * va) by (nonlinear_arith)
            requires
                va == v * a,
        ;
        lemma_congruent_scale(va, p * f, 2, n);
        assert(2 * (p * f) == (2 * p) * tf) by (nonlinear_arith)
            requires
                tf == f,
        ;
        if g % 2 == 1 {
            assert(tr == (r + v) % n);
            lemma_mul_mod_noop_left(r + v, a, n);
            assert((r + v) * a == ra + va) by (nonlinear_arith)
                requires
                    ra == r * a,
                    va == v * a,
            ;
            lemma_congruent_add(ra, p * g, va, p * f, n);
            assert(g + f == 2 * tg);
            assert(p * g + p * f == (2 * p) * tg) by (nonlinear_arith)
                requires
                    g + f == 2 * tg,
            ;
        } else {
            assert(g == 2 * tg);
            assert(p * g == (2 * p) * tg) by (nonlinear_arith)
                requires
                    g == 2 * tg,
            ;
        }
    }
}

/// After any number of division steps from the start, `v` and `r` are on
/// track, `f` is odd, and `f` and `g` have not grown beyond `2^384`.
pub proof fn lemma_divsteps_track(a: nat, k: nat)
    requires
        a < order(),
    ensures
        divstep_tracks(divsteps(divstep_start(a), k), a as int, pow2(k) as int),
        divstep_bounded(divsteps(divstep_start(a), k), radix() as int),
    decreases k,
{
    lemma_order_bounds();
    let n = order() as int;
    if k == 0 {
        lemma2_to64();
        lemma_mod_self_0(n);
        lemma_small_mod(0, order());
        let start = divstep_start(a);
        let one = pow2(0) as int;
        assert(start.v * (a as int) == 0);
        assert(one * start.f == n) by (nonlinear_arith)
            requires
                one == 1,
                start.f == n,
        ;
        assert(start.r * (a as int) == one * start.g) by (nonlinear_arith)
            requires
                one == 1,
                start.r == 1,
                start.g == a as int,
        ;
    } else {
        let before = divsteps(divstep_start(a), (k - 1) as nat);
        lemma_divsteps_track(a, (k - 1) as nat);
        lemma_divstep_tracks(before, a as int, pow2((k - 1) as nat) as int);
        lemma_divstep_bounded(before, radix() as int);
        lemma_pow2_unfold(k);
    }
}

/// The correction undoes the doublings: `2^1110 * correction = 1`.
pub proof fn lemma_divstep_correction()
    ensures
        divstep_iterations(384) == 1110,
        congruent((pow2(1110) * divstep_correction()) as int, 1, order() as int),
{
    lemma_order_bounds();
    let n = order() as int;
    let h = (n - 1) / 2;
    let e = 1110nat;
    let p = pow(2, e);
    lemma_pow2(e);
    lemma_mod_bound(pow(h, e), n);
    lemma_mul_mod_noop_right(p, pow(h, e), n);
    lemma_pow_distributes(2, h, e);
    assert(2 * h == n - 1);
    lemma_fundamental_div_mod_converse(-1, n, -1, n - 1);
    lemma_pow_mod_noop(-1, e, n);
    lemma_pow_multiplies(-1, 2, 555);
    lemma_square_is_pow2(-1);
    assert(pow(-1, 2) == 1);
    lemma1_pow(555);
    assert(pow(-1, e) == 1);
    lemma_small_mod(1, order());
}

/// The inverse law, as far as it is proved: where the division steps of a
/// scalar `a` end with `f` at 1 or -1, what `invert` returns times `a` is
/// one.
///
/// That they end so for every `a` but zero is Bernstein and Yang's theorem
/// on the number of steps; it is not proved here.
pub proof fn lemma_invert_where_converged(a: nat)
    requires
        a < order(),
        ({
            let end = divsteps(divstep_start(a), divstep_iterations(384));
            end.f == 1 || end.f == -1
        }),
    ensures
        field_mul(a, invert_candidate(a)) == 1,
{
    lemma_order_bounds();
    lemma_divstep_correction();
    let n = order() as int;
    let k = divstep_iterations(384);
    let end = divsteps(divstep_start(a), k);
    lemma_divsteps_track(a, k);
    let p = pow2(k) as int;
    let ai = a as int;
    let v = end.v as int;
    let w: nat = if end.f < 0 {
        field_neg(end.v)
    } else {
        end.v
    };
    let wi = w as int;
    let c = divstep_correction() as int;
    if end.f < 0 {
        lemma_mod_bound(-v, n);
        lemma_mul_mod_noop_left(-v, ai, n);
        lemma_congruent_scale(v * ai, p * end.f, -1, n);
        assert((-v) * ai == -1 * (v * ai)) by (nonlinear_arith);
        assert(-1 * (p * end.f) == p) by (nonlinear_arith)
            requires
                end.f == -1,
        ;
    } else {
        assert(p * end.f == p) by (nonlinear_arith)
            requires
                end.f == 1,
        ;
    }
    assert(congruent(wi * ai, p, n));
    lemma_mod_bound(wi * c, n);
    let candidate = invert_candidate(a) as int;
    assert(candidate == (wi * c) % n);
    assert(field_mul(a, invert_candidate(a)) == (ai * candidate) % n);
    assert((ai * candidate) % n == (ai * (wi * c)) % n) by {
        lemma_mul_mod_noop_right(ai, wi * c, n);
    }
    assert(ai * (wi * c) == (wi * ai) * c) by (nonlinear_arith);
    assert(((wi * ai) * c) % n == (p * c) % n) by {
        lemma_mul_mod_noop_left(wi * ai, c, n);
        lemma_mul_mod_noop_left(p, c, n);
    }
    assert((p * c) % n == 1) by {
        lemma_small_mod(1, order());
    }
}

/// The square root law, as far as it is proved: where `y` is zero or meets
/// Fermat's congruence `y^(n - 1) = 1`, the candidate that `sqrt` computes
/// for `y * y` squares to `y * y`, so `sqrt` returns it as some.
///
/// The congruence holds of every `y` but zero because the order is prime;
/// that is not proved here.
pub proof fn lemma_sqrt_of_square(y: nat)
    requires
        y < order(),
        y == 0 || field_pow(y, (order() - 1) as nat) == 1,
    ensures
        ({
            let x = field_mul(y, y);
            let root = field_pow(x, sqrt_exponent());
            field_mul(root, root) == x
        }),
{
    lemma_order_bounds();
    let n = order();
    let e = sqrt_exponent();
    let x = field_mul(y, y);
    assert(4 * e == n + 1) by {
        reveal(order);
    }
    lemma_field_bounds(y, y);
    if y == 0 {
        assert(0nat * 0nat == 0);
        lemma_small_mod(0, n);
        lemma0_pow(e);
        lemma_small_mod(0, n);
    } else {
        lemma_square_is_pow2(y as int);
        assert(x == field_pow(y, 2));
        lemma_field_pow_pow(y, 2, e);
        lemma_field_pow_adds(y, 2 * e, 2 * e);
        lemma_field_pow_adds(y, (n - 1) as nat, 2);
        lemma_mul_one(x);
    }
}

} // verus!
