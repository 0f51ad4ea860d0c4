use spacesuit::scalar::Scalar;
use spacesuit::value::AllocatedValue;
use spacesuit::value::SignedInteger;
use spacesuit::value::Value;
use spacesuit::circuit::Variable;

#[test]
fn signed_integer_zero() {
    assert_eq!(SignedInteger::zero(), SignedInteger::Zero);
    assert_eq!(SignedInteger::zero().to_u64(), Some(0));
    assert_eq!(SignedInteger::zero().to_i128(), 0);
}

#[test]
fn signed_integer_to_u64() {
    assert_eq!(SignedInteger::Positive(7).to_u64(), Some(7));
    assert_eq!(SignedInteger::Positive(u64::MAX).to_u64(), Some(u64::MAX));
    assert_eq!(SignedInteger::Negative(7).to_u64(), None);
    assert_eq!(SignedInteger::Negative(u64::MAX).to_u64(), None);
    assert_eq!(SignedInteger::Positive(0).to_u64(), Some(0));
    assert_eq!(SignedInteger::Negative(0).to_u64(), None);
}

#[test]
fn signed_integer_to_i128() {
    assert_eq!(SignedInteger::Positive(7).to_i128(), 7);
    assert_eq!(SignedInteger::Negative(7).to_i128(), -7);
    assert_eq!(SignedInteger::Positive(u64::MAX).to_i128(), 18446744073709551615);
    assert_eq!(SignedInteger::Negative(u64::MAX).to_i128(), -18446744073709551615);
}

#[test]
fn signed_integer_from_i128_unchecked() {
    assert_eq!(SignedInteger::from_i128_unchecked(0), SignedInteger::Zero);
    assert_eq!(SignedInteger::from_i128_unchecked(5), SignedInteger::Positive(5));
    assert_eq!(SignedInteger::from_i128_unchecked(-5), SignedInteger::Negative(5));
    assert_eq!(
        SignedInteger::from_i128_unchecked(18446744073709551615),
        SignedInteger::Positive(u64::MAX)
    );
    assert_eq!(
        SignedInteger::from_i128_unchecked(-18446744073709551615),
        SignedInteger::Negative(u64::MAX)
    );
}

#[test]
fn signed_integer_from_i128_unchecked_cuts_to_64_bits() {
    let bound: i128 = 1 << 64;
    assert_eq!(SignedInteger::from_i128_unchecked(bound), SignedInteger::Zero);
    assert_eq!(SignedInteger::from_i128_unchecked(bound + 5), SignedInteger::Positive(5));
    assert_eq!(SignedInteger::from_i128_unchecked(-bound - 5), SignedInteger::Negative(5));
    assert_eq!(SignedInteger::from_i128_unchecked(i128::MAX), SignedInteger::Positive(u64::MAX));
    assert_eq!(SignedInteger::from_i128_unchecked(i128::MIN + 1), SignedInteger::Negative(u64::MAX));
    assert_eq!(SignedInteger::from_i128_unchecked(i128::MIN), SignedInteger::Zero);
}

#[test]
fn signed_integer_from_u64() {
    assert_eq!(SignedInteger::from(0u64), SignedInteger::Zero);
    assert_eq!(SignedInteger::from(9u64), SignedInteger::Positive(9));
    assert_eq!(SignedInteger::from(u64::MAX), SignedInteger::Positive(u64::MAX));
}

#[test]
fn signed_integer_add() {
    let p = SignedInteger::Positive;
    let n = SignedInteger::Negative;
    assert_eq!(p(1) + p(2), p(3));
    assert_eq!(p(1) + n(3), n(2));
    assert_eq!(n(1) + n(2), n(3));
    assert_eq!(p(5) + n(5), SignedInteger::Zero);
    assert_eq!(SignedInteger::Zero + n(5), n(5));
    assert_eq!(p(u64::MAX) + n(u64::MAX), SignedInteger::Zero);
    assert_eq!(p(u64::MAX) + n(1), p(u64::MAX - 1));
}

#[test]
fn signed_integer_add_cuts_the_sum_to_64_bits() {
    let p = SignedInteger::Positive;
    let n = SignedInteger::Negative;
    assert_eq!(p(u64::MAX) + p(1), SignedInteger::Zero);
    assert_eq!(p(u64::MAX) + p(u64::MAX), p(u64::MAX - 1));
    assert_eq!(n(u64::MAX) + n(3), n(2));
}

#[test]
fn signed_integer_neg() {
    assert_eq!(-SignedInteger::Positive(4), SignedInteger::Negative(4));
    assert_eq!(-SignedInteger::Negative(4), SignedInteger::Positive(4));
    assert_eq!(-SignedInteger::Zero, SignedInteger::Zero);
}

#[test]
fn signed_integer_conditional_select() {
    let a = SignedInteger::Positive(4);
    let b = SignedInteger::Negative(9);
    assert_eq!(SignedInteger::conditional_select(&a, &b, false), a);
    assert_eq!(SignedInteger::conditional_select(&a, &b, true), b);
    assert_eq!(
        SignedInteger::conditional_select(&SignedInteger::Positive(0), &b, false),
        SignedInteger::Zero
    );
    assert_eq!(
        SignedInteger::conditional_select(&a, &SignedInteger::Negative(u64::MAX), true),
        SignedInteger::Negative(u64::MAX)
    );
}

#[test]
fn signed_integer_to_scalar() {
    assert_eq!(SignedInteger::Positive(12).to_scalar(), Scalar::from_u64(12));
    assert_eq!(SignedInteger::Negative(12).to_scalar(), Scalar::from_u64(12).neg());
    assert_eq!(SignedInteger::Zero.to_scalar(), Scalar::zero());
    assert_eq!(SignedInteger::Negative(0).to_scalar(), Scalar::zero());
    assert_eq!(SignedInteger::Negative(1).to_scalar().bytes[31], 0x10);
}

#[test]
fn value_zero_is_all_zero_bytes() {
    assert_eq!(Value::zero().q, SignedInteger::Zero);
    assert_eq!(Value::zero().f.bytes, [0u8; 32]);
}

#[test]
fn value_zero() {
    let zero = Value::zero();
    assert_eq!(zero.q, SignedInteger::Zero);
    assert_eq!(zero.f, Scalar::zero());
}

#[test]
fn allocated_value_quantity() {
    let value = Value { q: SignedInteger::Positive(3), f: Scalar::from_u64(666) };
    let allocated = AllocatedValue {
        q: Variable::MultiplierLeft(2),
        f: Variable::MultiplierRight(2),
        assignment: Some(value),
    };
    let quantity = allocated.quantity();
    assert_eq!(quantity.variable, Variable::MultiplierLeft(2));
    assert_eq!(quantity.assignment, Some(SignedInteger::Positive(3)));
    let unassigned = AllocatedValue { assignment: None, ..allocated };
    assert_eq!(unassigned.quantity().variable, Variable::MultiplierLeft(2));
    assert_eq!(unassigned.quantity().assignment, None);
}
