use bulletproofs::BulletproofGens;
use bulletproofs::PedersenGens;
use spacesuit::gadgets::range_proof::range_proof;
use spacesuit::r1cs::ConstraintSystem;
use spacesuit::circuit::Error;
use spacesuit::circuit::Variable;
use spacesuit::scalar::Scalar;
use spacesuit::value::AllocatedQuantity;
use spacesuit::value::SignedInteger;

fn range_proof_helper(q: SignedInteger, n: usize) -> Result<(), Error> {
    let pc_gens = PedersenGens::default();
    let bp_gens = BulletproofGens::new(64, 1);
    let mut prover = ConstraintSystem::new_prover(&pc_gens, "RangeProofTest");
    let (commitment, variable) = prover.commit(&q.to_scalar(), &Scalar::random()).unwrap();
    range_proof(&mut prover, AllocatedQuantity { variable, assignment: Some(q) }, n)?;
    let proof = prover.prove(&bp_gens)?;
    let mut verifier = ConstraintSystem::new_verifier("RangeProofTest");
    let variable = verifier.commit_point(&commitment).unwrap();
    range_proof(&mut verifier, AllocatedQuantity { variable, assignment: None }, n)?;
    verifier.verify(&proof, &pc_gens, &bp_gens)
}

#[test]
fn range_proof_accepts_what_fits() {
    assert_eq!(range_proof_helper(SignedInteger::from(0u64), 64), Ok(()));
    assert_eq!(range_proof_helper(SignedInteger::from(1u64), 64), Ok(()));
    assert_eq!(range_proof_helper(SignedInteger::from(u64::MAX), 64), Ok(()));
    assert_eq!(range_proof_helper(SignedInteger::from(255u64), 8), Ok(()));
    assert_eq!(range_proof_helper(SignedInteger::from(0b1011u64), 4), Ok(()));
    assert_eq!(range_proof_helper(SignedInteger::Positive(0), 1), Ok(()));
}

#[test]
fn range_proof_rejects_what_is_too_large() {
    assert_eq!(range_proof_helper(SignedInteger::from(256u64), 8), Err(Error::VerificationError));
    assert_eq!(range_proof_helper(SignedInteger::from(2u64), 1), Err(Error::VerificationError));
    assert_eq!(
        range_proof_helper(SignedInteger::from(u64::MAX), 63),
        Err(Error::VerificationError)
    );
}

#[test]
fn range_proof_rejects_what_is_negative() {
    assert_eq!(range_proof_helper(SignedInteger::Negative(1), 64), Err(Error::VerificationError));
    assert_eq!(
        range_proof_helper(SignedInteger::Negative(u64::MAX), 64),
        Err(Error::VerificationError)
    );
}

#[test]
fn range_proof_rejects_a_quantity_beyond_64_bits() {
    // The committed quantity is 2^64, of which the prover knows only the low 64 bits.
    let pc_gens = PedersenGens::default();
    let bp_gens = BulletproofGens::new(64, 1);
    let mut prover = ConstraintSystem::new_prover(&pc_gens, "RangeProofTest");
    let two_to_32 = Scalar::from_u64(1 << 32);
    let two_to_64 = two_to_32.mul(&two_to_32);
    let (commitment, variable) = prover.commit(&two_to_64, &Scalar::random()).unwrap();
    let assignment = Some(SignedInteger::from_i128_unchecked(1 << 64));
    assert_eq!(range_proof(&mut prover, AllocatedQuantity { variable, assignment }, 64), Ok(()));
    let proof = prover.prove(&bp_gens).unwrap();
    let mut verifier = ConstraintSystem::new_verifier("RangeProofTest");
    let variable = verifier.commit_point(&commitment).unwrap();
    range_proof(&mut verifier, AllocatedQuantity { variable, assignment: None }, 64).unwrap();
    assert_eq!(verifier.verify(&proof, &pc_gens, &bp_gens), Err(Error::VerificationError));
}

#[test]
fn range_proof_of_no_bits_admits_only_zero() {
    assert_eq!(range_proof_helper(SignedInteger::Zero, 0), Ok(()));
    assert_eq!(range_proof_helper(SignedInteger::from(1u64), 0), Err(Error::VerificationError));
}

#[test]
fn range_proof_counts() {
    let mut verifier = ConstraintSystem::new_verifier("RangeProofTest");
    let variable = verifier.commit_point(&[0u8; 32]).unwrap();
    range_proof(&mut verifier, AllocatedQuantity { variable, assignment: None }, 64).unwrap();
    assert_eq!((verifier.multipliers(), verifier.constraints(), verifier.deferred()), (64, 129, 0));
    range_proof(&mut verifier, AllocatedQuantity { variable, assignment: None }, 5).unwrap();
    assert_eq!((verifier.multipliers(), verifier.constraints(), verifier.deferred()), (69, 140, 0));
    range_proof(&mut verifier, AllocatedQuantity { variable, assignment: None }, 0).unwrap();
    assert_eq!((verifier.multipliers(), verifier.constraints(), verifier.deferred()), (69, 141, 0));
}

#[test]
fn range_proof_errors() {
    let pc_gens = PedersenGens::default();
    let mut prover = ConstraintSystem::new_prover(&pc_gens, "RangeProofTest");
    let (_, variable) = prover.commit(&Scalar::from_u64(3), &Scalar::random()).unwrap();
    let known = AllocatedQuantity { variable, assignment: Some(SignedInteger::from(3u64)) };
    let unknown = AllocatedQuantity { variable, assignment: None };
    assert_eq!(range_proof(&mut prover, known, 65), Err(Error::GadgetError));
    assert_eq!(range_proof(&mut prover, unknown, 65), Err(Error::GadgetError));
    assert_eq!(range_proof(&mut prover, unknown, 64), Err(Error::MissingAssignment));
    assert_eq!(range_proof(&mut prover, unknown, 0), Ok(()));
    assert_eq!((prover.multipliers(), prover.constraints()), (0, 1));
    assert_eq!(range_proof(&mut prover, known, 64), Ok(()));
    assert_eq!(known.variable, Variable::Committed(0));
}
