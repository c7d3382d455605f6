use aes_grinder::field::{FieldError, Number, DEFAULT_POLY};

#[test]
fn invert_three_in_aes_field() {
    let a = Number::new(3, DEFAULT_POLY);
    let b = a.invert().unwrap();
    assert_eq!(b.value, 246);
    assert_eq!(a.multiply(b).value, 1);
}

#[test]
fn invert_zero_fails() {
    let z = Number::new(0, DEFAULT_POLY);
    assert_eq!(z.invert().unwrap_err(), FieldError::NotInvertible);
}

#[test]
fn field_arithmetic_sanity_for_every_nonzero_value() {
    for v in 1..=255u8 {
        let x = Number::new(v, DEFAULT_POLY);
        let inv = x.invert().unwrap();
        assert_eq!(inv.invert().unwrap().value, v);
        assert_eq!(x.multiply(inv).value, 1);
        assert_eq!(x.add(x).value, 0);
    }
}

#[test]
fn multiply_known_products() {
    let a = Number::new(0x57, DEFAULT_POLY);
    let b = Number::new(0x83, DEFAULT_POLY);
    assert_eq!(a.multiply(b).value, 0xc1);
    assert_eq!(a.multiply(Number::new(0x13, DEFAULT_POLY)).value, 0xfe);
    assert_eq!(a.multiply(Number::new(1, DEFAULT_POLY)).value, 0x57);
    assert_eq!(a.multiply(Number::new(0, DEFAULT_POLY)).value, 0);
}

#[test]
fn add_is_xor() {
    let a = Number::new(0x57, DEFAULT_POLY);
    let b = Number::new(0x83, DEFAULT_POLY);
    assert_eq!(a.add(b).value, 0xd4);
}

#[test]
fn number_from_byte_uses_default_field() {
    let n: Number = 7u8.into();
    assert_eq!(n.poly, DEFAULT_POLY);
    assert_eq!(n.get_value(), 7);
}
