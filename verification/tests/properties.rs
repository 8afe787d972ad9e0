use elliptic_curve::bigint::{Encoding, U384};
use elliptic_curve::subtle::Choice;
use p384_scalar::bytes::swap48;
use p384_scalar::invert::iterations;
use p384_scalar::scalar::order_uint;
use p384_scalar::sqrt::{SQRT_CHAIN, SQUARE_ONLY};
use p384_scalar::{frac_modulus_2, Error, FieldBytes, Scalar};

const ORDER_HEX: &str = "ffffffffffffffffffffffffffffffffffffffffffffffffc7634d81f4372ddf581a0db248b0a77aecec196accc52973";

fn order_be() -> FieldBytes {
    U384::from_be_hex(ORDER_HEX).to_be_bytes()
}

fn small(n: u64) -> Scalar {
    Scalar::from(n)
}

fn be_of(n: u64) -> FieldBytes {
    let mut bytes = [0u8; 48];
    bytes[40..].copy_from_slice(&n.to_be_bytes());
    bytes
}

/// A handful of scalars spread over the field.
fn samples() -> Vec<Scalar> {
    let mut out = vec![Scalar::zero(), Scalar::one(), small(2), small(3), small(0xffff_ffff_ffff_ffff)];
    let mut x = small(0x1234_5678_9abc_def1);
    for _ in 0..6 {
        x = x * x + small(7);
        out.push(x);
        out.push(-x);
    }
    out.push(-Scalar::one());
    out.push(frac_modulus_2());
    out
}

#[test]
fn encode_42_big_endian() {
    let bytes = be_of(42);
    assert_eq!(&bytes[..40], &[0u8; 40][..]);
    assert_eq!(&bytes[40..], &[0, 0, 0, 0, 0, 0, 0, 42][..]);
    let scalar = Scalar::from_be_bytes(&bytes).unwrap();
    assert_eq!(scalar, small(42));
    assert_eq!(scalar.to_be_bytes(), bytes);
    assert_eq!(scalar.to_bytes(), bytes);
    assert_eq!(scalar.to_repr(), bytes);
}

#[test]
fn one_two_three() {
    let one = small(1);
    let two = small(2);
    let three = small(3);
    assert_eq!(two * three, one + one + one + one + one + one);
    assert_eq!((-two) * (-three), two * three);
}

#[test]
fn roundtrip_of_canonical_bytes() {
    for s in samples() {
        let be = s.to_be_bytes();
        let le = s.to_le_bytes();
        assert_eq!(Scalar::from_be_bytes(&be).unwrap().to_be_bytes(), be);
        assert_eq!(Scalar::from_le_bytes(&le).unwrap().to_le_bytes(), le);
        assert_eq!(Scalar::from_be_bytes(&be).unwrap(), s);
        assert_eq!(Scalar::from_le_bytes(&le).unwrap(), s);
        assert_eq!(swap48(&be), le);
    }
    let mut below = order_be();
    below[47] -= 1;
    assert_eq!(Scalar::from_be_bytes(&below).unwrap().to_be_bytes(), below);
    assert_eq!(Scalar::from_be_bytes(&below).unwrap(), -Scalar::one());
}

#[test]
fn little_endian_bytes_of_small_numbers() {
    let mut expected = [0u8; 48];
    expected[0] = 1;
    assert_eq!(Scalar::one().to_le_bytes(), expected);
    expected[0] = 0x02;
    expected[1] = 0x01;
    assert_eq!(small(0x0102).to_le_bytes(), expected);
    assert_eq!(Scalar::zero().to_le_bytes(), [0u8; 48]);
    assert_eq!(Scalar::default(), Scalar::zero());
}

#[test]
fn rejects_the_order_and_above() {
    let n = order_be();
    assert_eq!(Scalar::from_be_bytes(&n), Err(Error::NonCanonicalEncoding));
    assert_eq!(Scalar::from_le_bytes(&swap48(&n)), Err(Error::NonCanonicalEncoding));
    let mut above = n;
    above[47] += 1;
    assert_eq!(Scalar::from_be_bytes(&above), Err(Error::NonCanonicalEncoding));
    let mut high = n;
    high[0] = 0xff;
    high[24] = 0xff;
    assert_eq!(Scalar::from_be_bytes(&high), Err(Error::NonCanonicalEncoding));
    assert_eq!(Scalar::from_be_bytes(&[0xff; 48]), Err(Error::NonCanonicalEncoding));
    assert_eq!(Scalar::from_le_bytes(&[0xff; 48]), Err(Error::NonCanonicalEncoding));
    assert!(bool::from(Scalar::from_repr(n).is_none()));
    assert!(bool::from(Scalar::from_repr([0xff; 48]).is_none()));
    assert!(Scalar::from_random_bytes(n).is_none());
    assert!(Scalar::try_from(U384::from_be_hex(ORDER_HEX)).is_err());
    assert_eq!(Scalar::try_from(U384::MAX), Err(Error::NonCanonicalEncoding));
}

#[test]
fn a_lower_byte_above_does_not_hide_a_higher_byte_below() {
    // Less than the order in byte 24, greater in every byte after it.
    let mut bytes = order_be();
    bytes[24] -= 1;
    for b in bytes[25..].iter_mut() {
        *b = 0xff;
    }
    let s = Scalar::from_be_bytes(&bytes).unwrap();
    assert_eq!(s.to_be_bytes(), bytes);
    // Greater in byte 24, less in every byte after it.
    let mut bytes = order_be();
    bytes[24] += 1;
    for b in bytes[25..].iter_mut() {
        *b = 0;
    }
    assert_eq!(Scalar::from_be_bytes(&bytes), Err(Error::NonCanonicalEncoding));
}

#[test]
fn inverse_law() {
    for a in samples() {
        let inv = a.invert();
        if a == Scalar::zero() {
            assert!(bool::from(inv.is_none()));
            assert!(bool::from(a.invert_vartime().is_none()));
        } else {
            assert!(bool::from(inv.is_some()));
            assert_eq!(a * inv.unwrap(), Scalar::one());
            assert_eq!(a.invert_vartime().unwrap(), inv.unwrap());
        }
    }
    assert_eq!(small(2).invert().unwrap() * small(2), Scalar::one());
    assert_eq!(Scalar::one().invert().unwrap(), Scalar::one());
    assert_eq!((-Scalar::one()).invert().unwrap(), -Scalar::one());
}

#[test]
fn inverse_of_two_is_half_the_order_plus_one() {
    // 2 * ((n + 1) / 2) = n + 1 = 1
    let half_up = frac_modulus_2() + Scalar::one();
    assert_eq!(small(2).invert().unwrap(), half_up);
}

#[test]
fn iteration_count() {
    assert_eq!(iterations(384), 1110);
    assert_eq!(iterations(45), 134);
    assert_eq!(iterations(46), 135);
    assert_eq!(iterations(256), 741);
}

#[test]
fn sqrt_law() {
    for a in samples() {
        let x = a.square();
        let root = x.sqrt();
        assert!(bool::from(root.is_some()));
        let y = root.unwrap();
        assert_eq!(y.square(), x);
        assert!(y == a || y == -a);
    }
    for n in [1u64, 2, 3, 4, 5, 6, 7, 8] {
        let n2 = small(n * n);
        let root = n2.sqrt().unwrap();
        assert!(root == small(n) || root == -small(n));
    }
}

#[test]
fn sqrt_of_a_non_residue_is_none() {
    // The order is 3 modulo 4, so -1 is no square, and neither is -x^2.
    assert!(bool::from((-Scalar::one()).sqrt().is_none()));
    for a in samples() {
        if a != Scalar::zero() {
            assert!(bool::from((-a.square()).sqrt().is_none()));
        }
    }
    assert!(bool::from(Scalar::zero().sqrt().is_some()));
    assert_eq!(Scalar::zero().sqrt().unwrap(), Scalar::zero());
}

#[test]
fn chains() {
    let x = small(3);
    // x^2, then (x^2)^2 * x = x^5
    assert_eq!(x.pow_chain(&[(1, SQUARE_ONLY), (1, 0)]), small(243));
    // x^2, x^3 = x^2 * x, x^12 * x^2 = x^14
    assert_eq!(x.pow_chain(&[(1, SQUARE_ONLY), (0, 0), (2, 1)]), small(4782969));
    assert_eq!(x.pow_chain(&[]), x);
    // An operand that names no earlier value stands for no multiplication.
    assert_eq!(x.pow_chain(&[(1, 1)]), small(9));
    assert_eq!(x.pow_chain(&[(1, 7), (1, 2)]), small(81));
    assert_eq!(x.sqn(0), x);
    assert_eq!(x.sqn(2), small(81));
    assert_eq!(small(2).sqn(5), small(1 << 32));
    assert_eq!(SQRT_CHAIN.len(), 57);
    assert_eq!(small(4).pow_chain(&SQRT_CHAIN).square(), small(4));
}

#[test]
fn sqrt_chain_reaches_the_exponent() {
    // Follow the chain on exponents, as 384-bit integers with wrapping
    // arithmetic (nothing wraps), and hold the end against (n + 1) / 4.
    let mut exps: Vec<U384> = vec![U384::ONE];
    for &(squarings, operand) in SQRT_CHAIN.iter() {
        let mut e = *exps.last().unwrap();
        for _ in 0..squarings {
            e = e.wrapping_add(&e);
        }
        if operand != SQUARE_ONLY {
            e = e.wrapping_add(&exps[operand]);
        }
        exps.push(e);
    }
    let n = U384::from_be_hex(ORDER_HEX);
    let target = n.wrapping_add(&U384::ONE).shr_vartime(2);
    assert_eq!(*exps.last().unwrap(), target);
}

#[test]
fn group_laws() {
    let all = samples();
    for &a in &all {
        assert_eq!(a + (-a), Scalar::zero());
        assert_eq!(a.double(), a + a);
        assert_eq!(a + Scalar::zero(), a);
        assert_eq!(a * Scalar::one(), a);
        assert_eq!(a.square(), a * a);
        for &b in &all {
            assert_eq!(a + b, b + a);
            assert_eq!(a - b, a + (-b));
            assert_eq!((-a) * (-b), a * b);
            assert_eq!(a * b, b * a);
            for &c in &all[..6] {
                assert_eq!((a + b) + c, a + (b + c));
                assert_eq!(a * (b + c), a * b + a * c);
            }
        }
    }
}

#[test]
fn exact_arithmetic() {
    assert_eq!(small(5).double(), small(10));
    assert_eq!(small(7).square(), small(49));
    assert_eq!(small(1_000_000_007) * small(998_244_353), small(1_000_000_007 * 998_244_353));
    assert_eq!(small(10) - small(3), small(7));
    assert_eq!(small(3) - small(10), -small(7));
    assert_eq!(small(3) + &small(4), small(7));
    assert_eq!(small(3) * &small(4), small(12));
    assert_eq!(small(9) - &small(4), small(5));
    assert_ne!(-Scalar::one(), Scalar::one());
    assert_eq!(Scalar::from(1u64), Scalar::one());
    assert_eq!(Scalar::from_u64(1), Scalar::one());
    assert_eq!(Scalar::multiplicative_generator(), small(2));
    assert_eq!(Scalar::root_of_unity(), -Scalar::one());
    assert_eq!(Scalar::root_of_unity().square(), Scalar::one());
    let mut x = small(6);
    x += small(1);
    assert_eq!(x, small(7));
    x += &small(1);
    assert_eq!(x, small(8));
    x -= small(3);
    assert_eq!(x, small(5));
    x -= &small(1);
    assert_eq!(x, small(4));
    x *= small(5);
    assert_eq!(x, small(20));
    x *= &small(2);
    assert_eq!(x, small(40));
}

#[test]
fn equality_and_selection() {
    let a = small(5);
    let b = small(6);
    assert!(bool::from(a.ct_eq(&a)));
    assert!(!bool::from(a.ct_eq(&b)));
    // Two scalars that differ by 2^320 alone.
    let mut bytes = be_of(5);
    bytes[7] = 1;
    let c = Scalar::from_be_bytes(&bytes).unwrap();
    assert!(!bool::from(a.ct_eq(&c)));
    assert!(!bool::from(c.ct_eq(&a)));
    assert!(bool::from(Scalar::zero().is_zero()));
    assert!(!bool::from(c.is_zero()));
    assert!(!bool::from(Scalar::one().is_zero()));
    assert_eq!(Scalar::conditional_select(&a, &b, Choice::from(0)), a);
    assert_eq!(Scalar::conditional_select(&a, &b, Choice::from(1)), b);
}

#[test]
fn half_of_the_order() {
    let half = frac_modulus_2();
    // n = 2 * (n / 2) + 1
    assert_eq!(half + half + Scalar::one(), Scalar::zero());
    let expected = U384::from_be_hex(ORDER_HEX).shr_vartime(1);
    assert_eq!(half.to_be_bytes(), expected.to_be_bytes());
    assert!(!bool::from(half.is_high()));
    assert!(bool::from((half + Scalar::one()).is_high()));
    assert!(!bool::from(Scalar::zero().is_high()));
    assert!(!bool::from(Scalar::one().is_high()));
    assert!(bool::from((-Scalar::one()).is_high()));
    assert!(!bool::from((half - Scalar::one()).is_high()));
}

#[test]
fn greater_than() {
    let a = small(5);
    let b = small(6);
    assert!(bool::from(b.ct_gt(&a)));
    assert!(!bool::from(a.ct_gt(&b)));
    assert!(!bool::from(a.ct_gt(&a)));
    // Greater in a high limb, smaller in a low one.
    let mut bytes = be_of(1);
    bytes[7] = 1;
    let high = Scalar::from_be_bytes(&bytes).unwrap();
    let low = small(0xffff_ffff_ffff_ffff);
    assert!(bool::from(high.ct_gt(&low)));
    assert!(!bool::from(low.ct_gt(&high)));
    assert!(bool::from((-Scalar::one()).ct_gt(&Scalar::one())));
}

#[test]
fn parity() {
    assert!(bool::from(Scalar::one().is_odd()));
    assert!(!bool::from(small(2).is_odd()));
    assert!(!bool::from(Scalar::zero().is_odd()));
    // n - 1 is even.
    assert!(!bool::from((-Scalar::one()).is_odd()));
    assert!(bool::from(small(0x1_0000_0001).is_odd()));
}

#[test]
fn integers() {
    let n = U384::from_be_hex(ORDER_HEX);
    assert_eq!(order_uint(), n);
    assert_eq!(Scalar::try_from(U384::from_u64(7)), Ok(small(7)));
    assert_eq!(Scalar::try_from(n.wrapping_sub(&U384::ONE)), Ok(-Scalar::one()));
    assert_eq!(U384::from(small(7)), U384::from_u64(7));
    assert_eq!(U384::from(&small(7)), U384::from_u64(7));
    assert_eq!(small(7).to_uint(), U384::from_u64(7));
    assert_eq!((-Scalar::one()).to_uint(), n.wrapping_sub(&U384::ONE));
    for s in samples() {
        assert_eq!(Scalar::try_from(s.to_uint()), Ok(s));
    }
    assert_eq!(Scalar::char_le_bits(), n.to_words());
    assert_eq!(small(7).to_le_bits(), [7, 0, 0, 0, 0, 0]);
    assert_eq!(FieldBytes::from(small(7)), be_of(7));
    assert_eq!(FieldBytes::from(&small(7)), be_of(7));
}

#[test]
fn reduction_of_an_integer_below_twice_the_order() {
    let n = U384::from_be_hex(ORDER_HEX);
    assert_eq!(Scalar::from_uint_reduced(U384::from_u64(5)), small(5));
    assert_eq!(Scalar::from_uint_reduced(U384::ZERO), Scalar::zero());
    assert_eq!(Scalar::from_uint_reduced(n), Scalar::zero());
    assert_eq!(Scalar::from_uint_reduced(n.wrapping_add(&U384::from_u64(5))), small(5));
    assert_eq!(Scalar::from_uint_reduced(n.wrapping_sub(&U384::ONE)), -Scalar::one());
    // 2^384 - 1 is below 2n.
    assert_eq!(
        Scalar::from_uint_reduced(U384::MAX),
        Scalar::try_from(U384::MAX.wrapping_sub(&n)).unwrap()
    );
}

#[test]
fn checked_reduction() {
    let n = U384::from_be_hex(ORDER_HEX);
    assert_eq!(Scalar::from_uint_reduced_checked(U384::from_u64(5)), Some(small(5)));
    assert_eq!(Scalar::from_uint_reduced_checked(n), Some(Scalar::zero()));
    assert_eq!(
        Scalar::from_uint_reduced_checked(n.wrapping_add(&U384::from_u64(5))),
        Some(small(5))
    );
    assert_eq!(
        Scalar::from_uint_reduced_checked(n.wrapping_sub(&U384::ONE)),
        Some(-Scalar::one())
    );
    // 2n is above 2^384, so every 384-bit integer is below it.
    assert_eq!(
        Scalar::from_uint_reduced_checked(U384::MAX),
        Some(Scalar::from_uint_reduced(U384::MAX))
    );
}

#[test]
fn random_bytes() {
    assert_eq!(Scalar::from_random_bytes(be_of(9)), Some(small(9)));
    assert_eq!(Scalar::from_random_bytes([0xff; 48]), None);
    let mut below = order_be();
    below[47] -= 1;
    assert_eq!(Scalar::from_random_bytes(below), Some(-Scalar::one()));
}

#[test]
fn byte_order_is_reversed() {
    let mut x = [0u8; 48];
    for (i, b) in x.iter_mut().enumerate() {
        *b = i as u8;
    }
    let y = swap48(&x);
    for i in 0..48 {
        assert_eq!(y[i], 47 - i as u8);
    }
    assert_eq!(swap48(&y), x);
}

#[test]
fn zeroize_leaves_zero() {
    let mut secret = small(0xdead_beef) * small(0xfeed_f00d);
    assert_ne!(secret, Scalar::zero());
    secret.zeroize();
    assert_eq!(secret, Scalar::zero());
    assert_eq!(secret.to_le_bits(), [0u64; 6]);
}
