use bulletproofs::BulletproofGens;
use bulletproofs::PedersenGens;
use spacesuit::gadgets::padded_shuffle::fill_cs;
use spacesuit::r1cs::ConstraintSystem;
use spacesuit::circuit::Error;
use spacesuit::scalar::Scalar;
use spacesuit::value::ProverCommittable;
use spacesuit::value::SignedInteger;
use spacesuit::value::Value;
use spacesuit::value::VerifierCommittable;

fn yuan(q: u64) -> Value {
    Value { q: SignedInteger::from(q), f: Scalar::from_u64(888) }
}

fn peso(q: u64) -> Value {
    Value { q: SignedInteger::from(q), f: Scalar::from_u64(666) }
}

fn zero() -> Value {
    Value::zero()
}

fn padded_shuffle_helper(input: Vec<Value>, output: Vec<Value>) -> Result<(), Error> {
    let pc_gens = PedersenGens::default();
    let bp_gens = BulletproofGens::new(128, 1);

    let (proof, input_com, output_com) = {
        let mut prover = ConstraintSystem::new_prover(&pc_gens, "PaddedShuffleTest");
        let (input_com, input_vals) = input.commit(&mut prover);
        let (output_com, output_vals) = output.commit(&mut prover);
        assert!(fill_cs(&mut prover, input_vals, output_vals).is_ok());
        let proof = prover.prove(&bp_gens)?;
        (proof, input_com, output_com)
    };

    let mut verifier = ConstraintSystem::new_verifier("PaddedShuffleTest");
    let input_vals = input_com.commit(&mut verifier);
    let output_vals = output_com.commit(&mut verifier);
    assert!(fill_cs(&mut verifier, input_vals, output_vals).is_ok());
    verifier.verify(&proof, &pc_gens, &bp_gens)
}

#[test]
fn padded_shuffle() {
    assert!(padded_shuffle_helper(vec![zero(), zero()], vec![zero()]).is_ok());
}

#[test]
fn padded_shuffle_only_padding() {
    assert!(padded_shuffle_helper(vec![], vec![zero()]).is_ok());
    assert!(padded_shuffle_helper(vec![zero()], vec![]).is_ok());
    assert!(padded_shuffle_helper(vec![], vec![]).is_ok());
}

#[test]
fn padded_shuffle_with_interspersed_zeros() {
    assert!(padded_shuffle_helper(vec![peso(1), zero()], vec![peso(1)]).is_ok());
    assert!(padded_shuffle_helper(vec![peso(1)], vec![zero(), peso(1)]).is_ok());
    assert!(padded_shuffle_helper(vec![peso(1), yuan(4), zero()], vec![peso(1), yuan(4)]).is_ok());
    assert!(padded_shuffle_helper(vec![peso(1), zero(), yuan(4)], vec![yuan(4), peso(1)]).is_ok());
    assert!(padded_shuffle_helper(
        vec![peso(1), yuan(4)],
        vec![zero(), yuan(4), zero(), peso(1)]
    )
    .is_ok());
    assert!(padded_shuffle_helper(
        vec![yuan(4), zero(), zero(), yuan(4)],
        vec![zero(), yuan(4), yuan(4)]
    )
    .is_ok());
}

#[test]
fn padded_shuffle_of_equal_lengths() {
    assert!(padded_shuffle_helper(vec![yuan(1), yuan(4), peso(8)], vec![peso(8), yuan(1), yuan(4)]).is_ok());
    assert_eq!(
        padded_shuffle_helper(vec![peso(1), yuan(4)], vec![yuan(4), peso(2)]),
        Err(Error::VerificationError)
    );
}

#[test]
fn padded_shuffle_rejects_surplus_that_is_not_zero() {
    assert_eq!(
        padded_shuffle_helper(vec![yuan(1), yuan(4), peso(8)], vec![yuan(1), yuan(4), peso(8), peso(1)]),
        Err(Error::VerificationError)
    );
    let only_quantity = Value { q: SignedInteger::from(1u64), f: Scalar::zero() };
    assert_eq!(
        padded_shuffle_helper(vec![yuan(1)], vec![yuan(1), only_quantity]),
        Err(Error::VerificationError)
    );
    let only_flavor = Value { q: SignedInteger::zero(), f: Scalar::from_u64(7) };
    assert_eq!(
        padded_shuffle_helper(vec![yuan(1), only_flavor], vec![yuan(1)]),
        Err(Error::VerificationError)
    );
}
