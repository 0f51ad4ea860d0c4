use spacesuit::scalar::Scalar;

/// The group order minus one, least significant byte first.
const ORDER_MINUS_ONE: [u8; 32] = [
    0xec, 0xd3, 0xf5, 0x5c, 0x1a, 0x63, 0x12, 0x58, 0xd6, 0x9c, 0xf7, 0xa2, 0xde, 0xf9, 0xde, 0x14,
    0, 0, 0, 0, 0, 0, 0, 0, 0, 0, 0, 0, 0, 0, 0, 0x10,
];

fn bytes_of(x: u64) -> [u8; 32] {
    let mut bytes = [0u8; 32];
    bytes[..8].copy_from_slice(&x.to_le_bytes());
    bytes
}

#[test]
fn scalar_from_u64_is_little_endian() {
    assert_eq!(Scalar::from_u64(5).bytes, bytes_of(5));
    assert_eq!(Scalar::from_u64(0x0102_0304_0506_0708).bytes, bytes_of(0x0102_0304_0506_0708));
    assert_eq!(Scalar::from_u64(u64::MAX).bytes, bytes_of(u64::MAX));
    assert_eq!(Scalar::zero().bytes, [0u8; 32]);
    assert_eq!(Scalar::one().bytes, bytes_of(1));
}

#[test]
fn scalar_mul_is_the_product() {
    assert_eq!(Scalar::from_u64(3).mul(&Scalar::from_u64(4)), Scalar::from_u64(12));
    assert_eq!(Scalar::from_u64(7).mul(&Scalar::one()), Scalar::from_u64(7));
    assert_eq!(Scalar::from_u64(7).mul(&Scalar::zero()), Scalar::zero());
    let big = Scalar::from_u64(1 << 63);
    let mut expected = [0u8; 32];
    expected[15] = 0x40;
    assert_eq!(big.mul(&big).bytes, expected);
}

#[test]
fn scalar_mul_wraps_at_the_order() {
    let minus_one = Scalar { bytes: ORDER_MINUS_ONE };
    assert_eq!(minus_one.mul(&minus_one), Scalar::one());
    assert_eq!(minus_one.mul(&Scalar::from_u64(2)).neg(), Scalar::from_u64(2));
}

#[test]
fn scalar_neg_is_the_additive_inverse() {
    assert_eq!(Scalar::one().neg().bytes, ORDER_MINUS_ONE);
    assert_eq!(Scalar::zero().neg(), Scalar::zero());
    assert_eq!(Scalar::from_u64(42).neg().neg(), Scalar::from_u64(42));
    assert_ne!(Scalar::from_u64(42).neg(), Scalar::from_u64(42));
}

#[test]
fn scalar_equals_compares_field_elements() {
    assert!(Scalar::from_u64(666).equals(&Scalar::from_u64(666)));
    assert!(!Scalar::from_u64(666).equals(&Scalar::from_u64(888)));
    let mut order = ORDER_MINUS_ONE;
    order[0] += 1;
    assert!(Scalar { bytes: order }.equals(&Scalar::zero()));
    assert!(!Scalar { bytes: order }.equals(&Scalar::one()));
}

#[test]
fn scalar_unreduced_bytes_stand_for_their_remainder() {
    let mut order_plus_two = ORDER_MINUS_ONE;
    order_plus_two[0] += 3;
    let two = Scalar { bytes: order_plus_two };
    assert_eq!(two.mul(&Scalar::from_u64(5)), Scalar::from_u64(10));
    assert_eq!(two.neg(), Scalar::from_u64(2).neg());
}

#[test]
fn scalar_random_is_reduced_and_fresh() {
    let a = Scalar::random();
    let b = Scalar::random();
    assert_ne!(a, b);
    assert!(a.bytes[31] <= 0x10);
    assert_eq!(a.mul(&Scalar::one()), a);
}
