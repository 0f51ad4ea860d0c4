use bulletproofs::BulletproofGens;
use bulletproofs::PedersenGens;
use spacesuit::gadgets::two_shuffle::prove;
use spacesuit::gadgets::two_shuffle::prover_for;
use spacesuit::gadgets::two_shuffle::verifier_for;
use spacesuit::gadgets::two_shuffle::verify;
use spacesuit::circuit::Error;
use spacesuit::scalar::Scalar;

fn two_shuffle_helper(a: u64, b: u64, c: u64, d: u64) -> Result<(), Error> {
    let (proof, a_com, b_com, c_com, d_com) = prove(
        Scalar::from_u64(a),
        Scalar::from_u64(b),
        Scalar::from_u64(c),
        Scalar::from_u64(d),
    )?;
    verify(proof, a_com, b_com, c_com, d_com)
}

#[test]
fn two_shuffle() {
    assert!(two_shuffle_helper(3, 6, 3, 6).is_ok());
    assert!(two_shuffle_helper(3, 6, 6, 3).is_ok());
    assert!(two_shuffle_helper(6, 6, 6, 6).is_ok());
    assert!(two_shuffle_helper(3, 3, 6, 3).is_err());
}

#[test]
fn two_shuffle_rejects_with_verification_error() {
    assert_eq!(two_shuffle_helper(1, 2, 2, 2), Err(Error::VerificationError));
}

#[test]
fn two_shuffle_systems_hold_four_commitments_and_one_deferred_gadget() {
    let pc_gens = PedersenGens::default();
    let three = Scalar::from_u64(3);
    let six = Scalar::from_u64(6);
    let (prover, a_com, b_com, c_com, d_com) = prover_for(&pc_gens, &three, &six, &six, &three).unwrap();
    assert_eq!((prover.multipliers(), prover.constraints(), prover.deferred()), (0, 0, 1));
    let verifier = verifier_for(&a_com, &b_com, &c_com, &d_com).unwrap();
    assert_eq!((verifier.multipliers(), verifier.constraints(), verifier.deferred()), (0, 0, 1));
    let bp_gens = BulletproofGens::new(128, 1);
    let proof = prover.prove(&bp_gens).unwrap();
    assert_eq!(verifier.verify(&proof, &pc_gens, &bp_gens), Ok(()));
}

#[test]
fn two_shuffle_proof_is_bound_to_the_order_of_commitments() {
    let pc_gens = PedersenGens::default();
    let bp_gens = BulletproofGens::new(128, 1);
    let three = Scalar::from_u64(3);
    let six = Scalar::from_u64(6);
    let (prover, a_com, b_com, c_com, _) = prover_for(&pc_gens, &three, &six, &six, &three).unwrap();
    let proof = prover.prove(&bp_gens).unwrap();
    let verifier = verifier_for(&a_com, &b_com, &c_com, &b_com).unwrap();
    assert_eq!(verifier.verify(&proof, &pc_gens, &bp_gens), Err(Error::VerificationError));
}

#[test]
fn two_shuffle_without_generators_for_a_party() {
    let pc_gens = PedersenGens::default();
    let bp_gens = BulletproofGens::new(128, 0);
    let one = Scalar::from_u64(1);
    let (prover, a_com, b_com, c_com, d_com) = prover_for(&pc_gens, &one, &one, &one, &one).unwrap();
    assert_eq!(prover.prove(&bp_gens).err(), Some(Error::InvalidGeneratorsLength));
    let (prover, _, _, _, _) = prover_for(&pc_gens, &one, &one, &one, &one).unwrap();
    let proof = prover.prove(&BulletproofGens::new(128, 1)).unwrap();
    let verifier = verifier_for(&a_com, &b_com, &c_com, &d_com).unwrap();
    assert_eq!(verifier.verify(&proof, &pc_gens, &bp_gens), Err(Error::InvalidGeneratorsLength));
}

#[test]
fn two_shuffle_proof_comes_back_whatever_the_scalars() {
    let one = Scalar::from_u64(1);
    let two = Scalar::from_u64(2);
    let largest = one.neg();
    assert!(prove(one, two, two, one).is_ok());
    assert!(prove(one, two, two, two).is_ok());
    assert!(prove(largest, one, Scalar::zero(), two).is_ok());
    let (proof, a_com, b_com, c_com, d_com) = prove(one, two, one, one).unwrap();
    assert_eq!(verify(proof, a_com, b_com, c_com, d_com), Err(Error::VerificationError));
    let (proof, a_com, b_com, _, d_com) = prove(one, two, two, one).unwrap();
    assert_eq!(verify(proof, a_com, b_com, a_com, d_com), Err(Error::VerificationError));
}
