use bulletproofs::BulletproofGens;
use bulletproofs::PedersenGens;
use spacesuit::r1cs::ConstraintSystem;
use spacesuit::circuit::Error;
use spacesuit::circuit::Variable;
use spacesuit::gadgets::two_shuffle::prover_for;
use spacesuit::gadgets::two_shuffle::verifier_for;
use spacesuit::scalar::Scalar;
use spacesuit::value::AllocatedValue;
use spacesuit::value::CommittedValue;
use spacesuit::value::ProverCommittable;
use spacesuit::value::SignedInteger;
use spacesuit::value::Value;
use spacesuit::value::VerifierCommittable;

fn peso(q: u64) -> Value {
    Value { q: SignedInteger::from(q), f: Scalar::from_u64(666) }
}

#[test]
fn new_systems_are_empty() {
    let pc_gens = PedersenGens::default();
    let prover = ConstraintSystem::new_prover(&pc_gens, "Empty");
    assert!(prover.is_prover());
    assert_eq!((prover.multipliers(), prover.constraints(), prover.deferred()), (0, 0, 0));
    let verifier = ConstraintSystem::new_verifier("Empty");
    assert!(!verifier.is_prover());
    assert_eq!((verifier.multipliers(), verifier.constraints(), verifier.deferred()), (0, 0, 0));
}

#[test]
fn commit_numbers_the_inputs() {
    let pc_gens = PedersenGens::default();
    let mut prover = ConstraintSystem::new_prover(&pc_gens, "Commit");
    let blinding = Scalar::from_u64(11);
    let (first, a) = prover.commit(&Scalar::from_u64(5), &blinding).unwrap();
    let (second, b) = prover.commit(&Scalar::from_u64(5), &blinding).unwrap();
    let (third, c) = prover.commit(&Scalar::from_u64(6), &blinding).unwrap();
    let (fourth, d) = prover.commit(&Scalar::from_u64(5), &Scalar::from_u64(12)).unwrap();
    assert_eq!(a, Variable::Committed(0));
    assert_eq!(b, Variable::Committed(1));
    assert_eq!(c, Variable::Committed(2));
    assert_eq!(d, Variable::Committed(3));
    assert_eq!(first, second);
    assert_ne!(first, third);
    assert_ne!(first, fourth);
    assert_eq!(prover.multipliers(), 0);
    assert_eq!(prover.commit_point(&first), None);

    let mut verifier = ConstraintSystem::new_verifier("Commit");
    assert_eq!(verifier.commit_point(&first), Some(Variable::Committed(0)));
    assert_eq!(verifier.commit_point(&third), Some(Variable::Committed(1)));
    assert_eq!(verifier.commit(&Scalar::from_u64(5), &blinding), None);
}

#[test]
fn commit_to_zero_without_blinding_is_the_identity() {
    let pc_gens = PedersenGens::default();
    let mut prover = ConstraintSystem::new_prover(&pc_gens, "Commit");
    let (commitment, _) = prover.commit(&Scalar::zero(), &Scalar::zero()).unwrap();
    assert_eq!(commitment, [0u8; 32]);
}

#[test]
fn allocate_multiplier_numbers_the_wires() {
    let pc_gens = PedersenGens::default();
    let mut prover = ConstraintSystem::new_prover(&pc_gens, "Allocate");
    let pair = Some((Scalar::from_u64(2), Scalar::from_u64(3)));
    assert_eq!(
        prover.allocate_multiplier(pair),
        Ok((
            Variable::MultiplierLeft(0),
            Variable::MultiplierRight(0),
            Variable::MultiplierOutput(0)
        ))
    );
    assert_eq!(
        prover.allocate_multiplier(pair),
        Ok((
            Variable::MultiplierLeft(1),
            Variable::MultiplierRight(1),
            Variable::MultiplierOutput(1)
        ))
    );
    assert_eq!(prover.multipliers(), 2);
    assert_eq!(prover.allocate_multiplier(None), Err(Error::MissingAssignment));
    assert_eq!(prover.multipliers(), 2);

    let mut verifier = ConstraintSystem::new_verifier("Allocate");
    assert_eq!(
        verifier.allocate_multiplier(None),
        Ok((
            Variable::MultiplierLeft(0),
            Variable::MultiplierRight(0),
            Variable::MultiplierOutput(0)
        ))
    );
    assert_eq!(
        verifier.allocate_multiplier(pair),
        Ok((
            Variable::MultiplierLeft(1),
            Variable::MultiplierRight(1),
            Variable::MultiplierOutput(1)
        ))
    );
    assert_eq!(verifier.multipliers(), 2);
}

#[test]
fn constrain_adds_one_constraint() {
    let pc_gens = PedersenGens::default();
    let mut prover = ConstraintSystem::new_prover(&pc_gens, "Constrain");
    let (_, a) = prover.commit(&Scalar::from_u64(5), &Scalar::from_u64(1)).unwrap();
    prover.constrain(&vec![(a, Scalar::one()), (Variable::One, Scalar::from_u64(5).neg())]);
    assert_eq!((prover.multipliers(), prover.constraints(), prover.deferred()), (0, 1, 0));
    prover.constrain(&vec![]);
    assert_eq!(prover.constraints(), 2);
}

fn constant_helper(committed: u64, claimed: u64) -> Result<(), Error> {
    let pc_gens = PedersenGens::default();
    let bp_gens = BulletproofGens::new(1, 1);
    let mut prover = ConstraintSystem::new_prover(&pc_gens, "Constant");
    let (commitment, a) = prover.commit(&Scalar::from_u64(committed), &Scalar::random()).unwrap();
    prover.constrain(&vec![(a, Scalar::one()), (Variable::One, Scalar::from_u64(claimed).neg())]);
    let proof = prover.prove(&bp_gens)?;
    let mut verifier = ConstraintSystem::new_verifier("Constant");
    let a = verifier.commit_point(&commitment).unwrap();
    verifier.constrain(&vec![(a, Scalar::one()), (Variable::One, Scalar::from_u64(claimed).neg())]);
    verifier.verify(&proof, &pc_gens, &bp_gens)
}

#[test]
fn a_linear_constraint_is_enforced() {
    assert_eq!(constant_helper(5, 5), Ok(()));
    assert_eq!(constant_helper(5, 6), Err(Error::VerificationError));
    assert_eq!(constant_helper(0, 0), Ok(()));
}

fn product_helper(a: u64, b: u64, product: u64) -> Result<(), Error> {
    let pc_gens = PedersenGens::default();
    let bp_gens = BulletproofGens::new(1, 1);
    let mut prover = ConstraintSystem::new_prover(&pc_gens, "Product");
    let pair = Some((Scalar::from_u64(a), Scalar::from_u64(b)));
    let (_, _, out) = prover.allocate_multiplier(pair)?;
    prover.constrain(&vec![(out, Scalar::one()), (Variable::One, Scalar::from_u64(product).neg())]);
    let proof = prover.prove(&bp_gens)?;
    let mut verifier = ConstraintSystem::new_verifier("Product");
    let (_, _, out) = verifier.allocate_multiplier(None)?;
    verifier.constrain(&vec![(out, Scalar::one()), (Variable::One, Scalar::from_u64(product).neg())]);
    verifier.verify(&proof, &pc_gens, &bp_gens)
}

#[test]
fn a_multiplier_multiplies() {
    assert_eq!(product_helper(3, 4, 12), Ok(()));
    assert_eq!(product_helper(3, 4, 13), Err(Error::VerificationError));
    assert_eq!(product_helper(0, 4, 0), Ok(()));
}

#[test]
fn the_transcript_label_binds_the_proof() {
    let pc_gens = PedersenGens::default();
    let bp_gens = BulletproofGens::new(1, 1);
    let mut prover = ConstraintSystem::new_prover(&pc_gens, "One label");
    let (commitment, a) = prover.commit(&Scalar::from_u64(5), &Scalar::random()).unwrap();
    prover.constrain(&vec![(a, Scalar::one()), (Variable::One, Scalar::from_u64(5).neg())]);
    let proof = prover.prove(&bp_gens).unwrap();
    let mut verifier = ConstraintSystem::new_verifier("Another label");
    let a = verifier.commit_point(&commitment).unwrap();
    verifier.constrain(&vec![(a, Scalar::one()), (Variable::One, Scalar::from_u64(5).neg())]);
    assert_eq!(verifier.verify(&proof, &pc_gens, &bp_gens), Err(Error::VerificationError));
}

#[test]
fn only_a_prover_proves_and_only_a_verifier_verifies() {
    let pc_gens = PedersenGens::default();
    let bp_gens = BulletproofGens::new(1, 1);
    let verifier = ConstraintSystem::new_verifier("Roles");
    assert_eq!(verifier.prove(&bp_gens).err(), Some(Error::MissingAssignment));
    let prover = ConstraintSystem::new_prover(&pc_gens, "Roles");
    let proof = prover.prove(&bp_gens).unwrap();
    let prover = ConstraintSystem::new_prover(&pc_gens, "Roles");
    assert_eq!(prover.verify(&proof, &pc_gens, &bp_gens), Err(Error::MissingAssignment));
    let verifier = ConstraintSystem::new_verifier("Roles");
    assert_eq!(verifier.verify(&proof, &pc_gens, &bp_gens), Ok(()));
}

#[test]
fn too_few_generators_are_reported() {
    let pc_gens = PedersenGens::default();
    let mut prover = ConstraintSystem::new_prover(&pc_gens, "Generators");
    let pair = Some((Scalar::from_u64(2), Scalar::from_u64(3)));
    prover.allocate_multiplier(pair).unwrap();
    prover.allocate_multiplier(pair).unwrap();
    prover.allocate_multiplier(pair).unwrap();
    assert_eq!(
        prover.prove(&BulletproofGens::new(3, 1)).err(),
        Some(Error::InvalidGeneratorsLength)
    );
}

#[test]
fn value_allocate() {
    let pc_gens = PedersenGens::default();
    let mut prover = ConstraintSystem::new_prover(&pc_gens, "Value");
    let first = peso(3).allocate(&mut prover).unwrap();
    let second = peso(4).allocate(&mut prover).unwrap();
    assert_eq!(first.q, Variable::MultiplierLeft(0));
    assert_eq!(first.f, Variable::MultiplierRight(0));
    assert_eq!(first.assignment, Some(peso(3)));
    assert_eq!(second.q, Variable::MultiplierLeft(1));
    assert_eq!(second.f, Variable::MultiplierRight(1));
    assert_eq!(second.assignment, Some(peso(4)));
    assert_eq!((prover.multipliers(), prover.constraints()), (2, 0));
}

#[test]
fn value_allocate_unassigned() {
    let pc_gens = PedersenGens::default();
    let mut prover = ConstraintSystem::new_prover(&pc_gens, "Value");
    assert_eq!(Value::allocate_unassigned(&mut prover).err(), Some(Error::MissingAssignment));
    assert_eq!(prover.multipliers(), 0);
    let mut verifier = ConstraintSystem::new_verifier("Value");
    let allocated = Value::allocate_unassigned(&mut verifier).unwrap();
    assert_eq!(allocated.q, Variable::MultiplierLeft(0));
    assert_eq!(allocated.f, Variable::MultiplierRight(0));
    assert_eq!(allocated.assignment, None);
    assert_eq!(verifier.multipliers(), 1);
}

#[test]
fn allocated_value_reallocate() {
    let pc_gens = PedersenGens::default();
    let mut prover = ConstraintSystem::new_prover(&pc_gens, "Value");
    let known = AllocatedValue {
        q: Variable::Committed(0),
        f: Variable::Committed(1),
        assignment: Some(peso(3)),
    };
    let unknown = AllocatedValue { assignment: None, ..known };
    let again = known.reallocate(&mut prover).unwrap();
    assert_eq!(again.q, Variable::MultiplierLeft(0));
    assert_eq!(again.f, Variable::MultiplierRight(0));
    assert_eq!(again.assignment, Some(peso(3)));
    assert_eq!(unknown.reallocate(&mut prover).err(), Some(Error::MissingAssignment));
    let mut verifier = ConstraintSystem::new_verifier("Value");
    let again = unknown.reallocate(&mut verifier).unwrap();
    assert_eq!(again.q, Variable::MultiplierLeft(0));
    assert_eq!(again.assignment, None);
    let again = known.reallocate(&mut verifier).unwrap();
    assert_eq!(again.q, Variable::MultiplierLeft(1));
    assert_eq!(again.assignment, Some(peso(3)));
}

#[test]
fn committable_values() {
    let pc_gens = PedersenGens::default();
    let mut prover = ConstraintSystem::new_prover(&pc_gens, "Committable");
    let (commitment, allocated) = peso(3).commit(&mut prover);
    assert_eq!(allocated.q, Variable::Committed(0));
    assert_eq!(allocated.f, Variable::Committed(1));
    assert_eq!(allocated.assignment, Some(peso(3)));
    let (commitments, variables) = vec![peso(1), peso(2)].commit(&mut prover);
    assert_eq!(commitments.len(), 2);
    assert_eq!(variables.len(), 2);
    assert_eq!(variables[0].q, Variable::Committed(2));
    assert_eq!(variables[0].f, Variable::Committed(3));
    assert_eq!(variables[1].q, Variable::Committed(4));
    assert_eq!(variables[1].f, Variable::Committed(5));
    assert_eq!(variables[1].assignment, Some(peso(2)));
    assert_ne!(commitments[0].q, commitments[1].q);

    let mut verifier = ConstraintSystem::new_verifier("Committable");
    let allocated = commitment.commit(&mut verifier);
    assert_eq!(allocated.q, Variable::Committed(0));
    assert_eq!(allocated.f, Variable::Committed(1));
    assert_eq!(allocated.assignment, None);
    let variables = commitments.commit(&mut verifier);
    assert_eq!(variables.len(), 2);
    assert_eq!(variables[1].q, Variable::Committed(4));
    assert_eq!(variables[1].f, Variable::Committed(5));
    let nothing: Vec<CommittedValue> = vec![];
    assert_eq!(nothing.commit(&mut verifier).len(), 0);
}

#[test]
fn generators_for_no_party_are_refused() {
    let pc_gens = PedersenGens::default();
    let bp_gens = BulletproofGens::new(8, 0);
    let prover = ConstraintSystem::new_prover(&pc_gens, "Generators");
    assert_eq!(prover.prove(&bp_gens).err(), Some(Error::InvalidGeneratorsLength));
    let prover = ConstraintSystem::new_prover(&pc_gens, "Generators");
    let proof = prover.prove(&BulletproofGens::new(8, 1)).unwrap();
    let verifier = ConstraintSystem::new_verifier("Generators");
    assert_eq!(verifier.verify(&proof, &pc_gens, &bp_gens), Err(Error::InvalidGeneratorsLength));
}

#[test]
fn generators_must_serve_the_padded_system() {
    let pc_gens = PedersenGens::default();
    // An empty system is padded to one multiplier.
    let prover = ConstraintSystem::new_prover(&pc_gens, "Padding");
    assert_eq!(prover.prove(&BulletproofGens::new(0, 1)).err(), Some(Error::InvalidGeneratorsLength));
    let prover = ConstraintSystem::new_prover(&pc_gens, "Padding");
    let proof = prover.prove(&BulletproofGens::new(1, 1)).unwrap();
    let verifier = ConstraintSystem::new_verifier("Padding");
    assert_eq!(
        verifier.verify(&proof, &pc_gens, &BulletproofGens::new(0, 1)),
        Err(Error::InvalidGeneratorsLength)
    );
    let verifier = ConstraintSystem::new_verifier("Padding");
    assert_eq!(verifier.verify(&proof, &pc_gens, &BulletproofGens::new(1, 1)), Ok(()));
    // Three multipliers are padded to four.
    let pair = Some((Scalar::from_u64(2), Scalar::from_u64(3)));
    let mut prover = ConstraintSystem::new_prover(&pc_gens, "Padding");
    let mut verifier = ConstraintSystem::new_verifier("Padding");
    for _ in 0..3 {
        prover.allocate_multiplier(pair).unwrap();
        verifier.allocate_multiplier(None).unwrap();
    }
    let proof = prover.prove(&BulletproofGens::new(4, 1)).unwrap();
    assert_eq!(verifier.verify(&proof, &pc_gens, &BulletproofGens::new(4, 1)), Ok(()));
}

#[test]
fn deferred_multipliers_count_toward_the_generators() {
    let pc_gens = PedersenGens::default();
    let three = Scalar::from_u64(3);
    let six = Scalar::from_u64(6);
    // The two-shuffle has no multiplier in the first phase and two in the second.
    let (prover, _, _, _, _) = prover_for(&pc_gens, &three, &six, &six, &three).unwrap();
    assert_eq!(prover.multipliers(), 0);
    assert_eq!(prover.prove(&BulletproofGens::new(1, 1)).err(), Some(Error::InvalidGeneratorsLength));
    let (prover, a_com, b_com, c_com, d_com) = prover_for(&pc_gens, &three, &six, &six, &three).unwrap();
    let proof = prover.prove(&BulletproofGens::new(2, 1)).unwrap();
    let verifier = verifier_for(&a_com, &b_com, &c_com, &d_com).unwrap();
    assert_eq!(
        verifier.verify(&proof, &pc_gens, &BulletproofGens::new(1, 1)),
        Err(Error::InvalidGeneratorsLength)
    );
    let verifier = verifier_for(&a_com, &b_com, &c_com, &d_com).unwrap();
    assert_eq!(verifier.verify(&proof, &pc_gens, &BulletproofGens::new(2, 1)), Ok(()));
}

#[test]
fn a_proof_comes_back_whatever_was_assigned() {
    let pc_gens = PedersenGens::default();
    let bp_gens = BulletproofGens::new(4, 1);
    let mut prover = ConstraintSystem::new_prover(&pc_gens, "Unmet");
    let mut verifier = ConstraintSystem::new_verifier("Unmet");
    // The constraint `left == 7` does not hold of the value 2.
    let (left, _, _) = prover.allocate_multiplier(Some((Scalar::from_u64(2), Scalar::from_u64(3)))).unwrap();
    verifier.allocate_multiplier(None).unwrap();
    let terms = vec![(left, Scalar::one()), (Variable::One, Scalar::from_u64(7).neg())];
    prover.constrain(&terms);
    verifier.constrain(&terms);
    let proof = prover.prove(&bp_gens).unwrap();
    assert_eq!(verifier.verify(&proof, &pc_gens, &bp_gens), Err(Error::VerificationError));
}
