use p384_scalar::{FieldBytes, Scalar};

#[test]
fn from_to_bytes_roundtrip() {
    let k: u64 = 42;
    let mut bytes: FieldBytes = [0u8; 48];
    bytes[40..].copy_from_slice(k.to_le_bytes().as_ref());

    let scalar = Scalar::from_repr(bytes).unwrap();
    assert_eq!(bytes, scalar.to_be_bytes());
}

/// Basic tests that multiplication works.
#[test]
fn multiply() {
    let one = Scalar::one();
    let two = one + one;
    let three = two + one;
    let six = three + three;
    assert_eq!(six, two * three);

    let minus_two = -two;
    let minus_three = -three;
    assert_eq!(two, -minus_two);

    assert_eq!(minus_three * minus_two, minus_two * minus_three);
    assert_eq!(six, minus_two * minus_three);
}

/// Basic tests that scalar inversion works.
#[test]
fn invert() {
    let one = Scalar::one();
    let three = one + one + one;
    let inv_three = three.invert().unwrap();
    assert_eq!(three * inv_three, one);

    let minus_three = -three;
    let inv_minus_three = minus_three.invert().unwrap();
    assert_eq!(inv_minus_three, -inv_three);
    assert_eq!(three * inv_minus_three, -one);
}

/// Basic tests that sqrt works.
#[test]
fn sqrt() {
    for &n in &[1u64, 4, 9, 16, 25, 36, 49, 64] {
        let scalar = Scalar::from(n);
        let sqrt = scalar.sqrt().unwrap();
        assert_eq!(sqrt.square(), scalar);
    }
}
