use fiat_crypto::p384_scalar_64::{
    fiat_p384_scalar_divstep, fiat_p384_scalar_divstep_precomp, fiat_p384_scalar_from_montgomery,
    fiat_p384_scalar_msat, fiat_p384_scalar_set_one,
};
use p384_scalar::invert::iterations;
use p384_scalar::{frac_modulus_2, Scalar};

/// A number in 448-bit two's complement, least significant limb first.
type Wide = [u64; 7];

fn wide_add(a: &Wide, b: &Wide) -> Wide {
    let mut out = [0u64; 7];
    let mut carry = 0u128;
    for i in 0..7 {
        let sum = a[i] as u128 + b[i] as u128 + carry;
        out[i] = sum as u64;
        carry = sum >> 64;
    }
    out
}

fn wide_neg(a: &Wide) -> Wide {
    let mut flipped = [0u64; 7];
    for i in 0..7 {
        flipped[i] = !a[i];
    }
    wide_add(&flipped, &[1, 0, 0, 0, 0, 0, 0])
}

fn wide_sub(a: &Wide, b: &Wide) -> Wide {
    wide_add(a, &wide_neg(b))
}

/// Half, rounded down: the sign bit stays.
fn wide_half(a: &Wide) -> Wide {
    let mut out = [0u64; 7];
    for i in 0..7 {
        let above = if i < 6 { a[i + 1] << 63 } else { a[6] & (1 << 63) };
        out[i] = (a[i] >> 1) | above;
    }
    out
}

fn wide_is_odd(a: &Wide) -> bool {
    a[0] & 1 == 1
}

/// The state of an inversion as numbers: `f` and `g` as wide integers, `v`
/// and `r` as scalars.
#[derive(Clone, Copy, Debug, PartialEq)]
struct State {
    d: i64,
    f: Wide,
    g: Wide,
    v: Scalar,
    r: Scalar,
}

/// One division step, as the mathematics has it.
fn step(s: &State) -> State {
    if s.d > 0 && wide_is_odd(&s.g) {
        State {
            d: 1 - s.d,
            f: s.g,
            g: wide_half(&wide_sub(&s.g, &s.f)),
            v: s.r + s.r,
            r: s.r - s.v,
        }
    } else if wide_is_odd(&s.g) {
        State {
            d: 1 + s.d,
            f: s.f,
            g: wide_half(&wide_add(&s.g, &s.f)),
            v: s.v + s.v,
            r: s.r + s.v,
        }
    } else {
        State { d: 1 + s.d, f: s.f, g: wide_half(&s.g), v: s.v + s.v, r: s.r }
    }
}

fn out_of_montgomery(limbs: &[u64; 6]) -> [u64; 6] {
    let mut out = [0u64; 6];
    fiat_p384_scalar_from_montgomery(&mut out, limbs);
    out
}

fn modulus() -> Wide {
    let mut f = [0u64; 7];
    fiat_p384_scalar_msat(&mut f);
    f
}

/// Runs the generated division step and the mathematical one side by side
/// from the start of the inversion of `a`, and returns where they end.
fn run_both(a: Scalar) -> State {
    let limbs = a.to_le_bits();
    let mut one = [0u64; 6];
    fiat_p384_scalar_set_one(&mut one);
    let mut d = 1u64;
    let mut f = modulus();
    let mut g = [limbs[0], limbs[1], limbs[2], limbs[3], limbs[4], limbs[5], 0];
    let mut v = [0u64; 6];
    let mut r = one;
    let mut model = State { d: 1, f, g, v: Scalar::zero(), r: Scalar::one() };
    for _ in 0..iterations(384) {
        let (mut d2, mut f2, mut g2, mut v2, mut r2) = (0u64, [0u64; 7], [0u64; 7], [0u64; 6], [0u64; 6]);
        fiat_p384_scalar_divstep(&mut d2, &mut f2, &mut g2, &mut v2, &mut r2, d, &f, &g, &v, &r);
        d = d2;
        f = f2;
        g = g2;
        v = v2;
        r = r2;
        model = step(&model);
        assert_eq!(d as i64, model.d);
        assert_eq!(f, model.f);
        assert_eq!(g, model.g);
        assert_eq!(out_of_montgomery(&v), model.v.to_le_bits());
        assert_eq!(out_of_montgomery(&r), model.r.to_le_bits());
    }
    model
}

fn samples() -> Vec<Scalar> {
    let mut out = vec![Scalar::one(), Scalar::from(2u64), Scalar::from(3u64), -Scalar::one(), frac_modulus_2()];
    let mut x = Scalar::from(0x0123_4567_89ab_cdefu64);
    for _ in 0..8 {
        x = x * x + Scalar::from(11u64);
        out.push(x);
    }
    out
}

#[test]
fn division_steps_follow_the_mathematics() {
    for a in samples() {
        run_both(a);
    }
    run_both(Scalar::zero());
}

#[test]
fn division_steps_end_at_a_unit() {
    let one: Wide = [1, 0, 0, 0, 0, 0, 0];
    for a in samples() {
        let end = run_both(a);
        assert_eq!(end.g, [0u64; 7]);
        assert!(end.f == one || end.f == wide_neg(&one));
        let v = if end.f == one { end.v } else { -end.v };
        assert_eq!(v * correction(), a.invert().unwrap());
    }
    let end = run_both(Scalar::zero());
    assert_eq!(end.g, [0u64; 7]);
    assert_eq!(end.f, modulus());
}

/// `((n - 1) / 2)^1110`, by 1110 multiplications.
fn correction() -> Scalar {
    let half = frac_modulus_2();
    let mut power = Scalar::one();
    for _ in 0..1110 {
        power = power * half;
    }
    power
}

#[test]
fn correction_is_the_documented_power() {
    let mut precomp = [0u64; 6];
    fiat_p384_scalar_divstep_precomp(&mut precomp);
    assert_eq!(out_of_montgomery(&precomp), correction().to_le_bits());
    // It undoes 1110 doublings.
    let mut doubled = correction();
    for _ in 0..1110 {
        doubled = doubled.double();
    }
    assert_eq!(doubled, Scalar::one());
}

#[test]
fn modulus_limbs() {
    let m = modulus();
    assert_eq!(m[6], 0);
    assert_eq!(&m[..6], &Scalar::char_le_bits()[..]);
    let mut one = [0u64; 6];
    fiat_p384_scalar_set_one(&mut one);
    assert_eq!(out_of_montgomery(&one), [1, 0, 0, 0, 0, 0]);
}
