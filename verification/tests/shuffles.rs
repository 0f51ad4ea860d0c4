use bulletproofs::BulletproofGens;
use bulletproofs::PedersenGens;
use spacesuit::gadgets::scalar_shuffle;
use spacesuit::gadgets::two_shuffle::two_shuffle;
use spacesuit::gadgets::value_shuffle;
use spacesuit::r1cs::ConstraintSystem;
use spacesuit::circuit::Error;
use spacesuit::circuit::Variable;
use spacesuit::scalar::Scalar;
use spacesuit::value::ProverCommittable;
use spacesuit::value::SignedInteger;
use spacesuit::value::Value;
use spacesuit::value::VerifierCommittable;

fn scalar_shuffle_helper(input: Vec<u64>, output: Vec<u64>, capacity: usize) -> Result<(), Error> {
    let pc_gens = PedersenGens::default();
    let bp_gens = BulletproofGens::new(capacity, 1);
    let mut prover = ConstraintSystem::new_prover(&pc_gens, "ScalarShuffleTest");
    let mut commitments = Vec::new();
    let mut x = Vec::new();
    let mut y = Vec::new();
    for v in input.iter() {
        let (commitment, variable) = prover.commit(&Scalar::from_u64(*v), &Scalar::random()).unwrap();
        commitments.push(commitment);
        x.push(variable);
    }
    for v in output.iter() {
        let (commitment, variable) = prover.commit(&Scalar::from_u64(*v), &Scalar::random()).unwrap();
        commitments.push(commitment);
        y.push(variable);
    }
    scalar_shuffle::fill_cs(&mut prover, x, y)?;
    let proof = prover.prove(&bp_gens)?;

    let mut verifier = ConstraintSystem::new_verifier("ScalarShuffleTest");
    let variables: Vec<Variable> =
        commitments.iter().map(|c| verifier.commit_point(c).unwrap()).collect();
    let (x, y) = variables.split_at(input.len());
    scalar_shuffle::fill_cs(&mut verifier, x.to_vec(), y.to_vec())?;
    verifier.verify(&proof, &pc_gens, &bp_gens)
}

#[test]
fn scalar_shuffle_accepts_reorderings() {
    assert_eq!(scalar_shuffle_helper(vec![], vec![], 1), Ok(()));
    assert_eq!(scalar_shuffle_helper(vec![3], vec![3], 1), Ok(()));
    assert_eq!(scalar_shuffle_helper(vec![3, 6], vec![6, 3], 2), Ok(()));
    assert_eq!(scalar_shuffle_helper(vec![3, 6, 10], vec![10, 3, 6], 4), Ok(()));
    assert_eq!(scalar_shuffle_helper(vec![3, 6, 6, 10], vec![6, 10, 3, 6], 8), Ok(()));
    assert_eq!(scalar_shuffle_helper(vec![1, 2, 3, 4, 5], vec![5, 4, 3, 2, 1], 8), Ok(()));
}

#[test]
fn scalar_shuffle_rejects_other_lists() {
    assert_eq!(scalar_shuffle_helper(vec![3], vec![6], 1), Err(Error::VerificationError));
    assert_eq!(scalar_shuffle_helper(vec![3, 6], vec![3, 3], 2), Err(Error::VerificationError));
    assert_eq!(
        scalar_shuffle_helper(vec![3, 6, 10], vec![10, 3, 7], 4),
        Err(Error::VerificationError)
    );
    assert_eq!(
        scalar_shuffle_helper(vec![3, 6, 6, 10], vec![3, 10, 3, 6], 8),
        Err(Error::VerificationError)
    );
}

#[test]
fn scalar_shuffle_refuses_different_lengths() {
    assert_eq!(scalar_shuffle_helper(vec![3, 6], vec![3], 8), Err(Error::GadgetError));
    assert_eq!(scalar_shuffle_helper(vec![], vec![3], 8), Err(Error::GadgetError));
}

#[test]
fn scalar_shuffle_uses_two_chains_of_multipliers() {
    // k values take 2 (k - 1) multipliers, which the generators must cover once the number
    // is rounded up to a power of two.
    assert_eq!(scalar_shuffle_helper(vec![3, 6], vec![6, 3], 1), Err(Error::InvalidGeneratorsLength));
    assert_eq!(
        scalar_shuffle_helper(vec![3, 6, 10], vec![10, 3, 6], 3),
        Err(Error::InvalidGeneratorsLength)
    );
    assert_eq!(
        scalar_shuffle_helper(vec![1, 2, 3, 4, 5], vec![5, 4, 3, 2, 1], 7),
        Err(Error::InvalidGeneratorsLength)
    );
    assert_eq!(
        scalar_shuffle_helper(vec![1, 2, 3, 4, 5, 6], vec![6, 5, 4, 3, 2, 1], 8),
        Err(Error::InvalidGeneratorsLength)
    );
    assert_eq!(scalar_shuffle_helper(vec![1, 2, 3, 4, 5, 6], vec![6, 5, 4, 3, 2, 1], 16), Ok(()));
}

#[test]
fn scalar_shuffle_counts() {
    let mut verifier = ConstraintSystem::new_verifier("ScalarShuffleTest");
    let a = verifier.commit_point(&[0u8; 32]).unwrap();
    scalar_shuffle::fill_cs(&mut verifier, vec![], vec![]).unwrap();
    assert_eq!((verifier.multipliers(), verifier.constraints(), verifier.deferred()), (0, 0, 0));
    scalar_shuffle::fill_cs(&mut verifier, vec![a], vec![a]).unwrap();
    assert_eq!((verifier.multipliers(), verifier.constraints(), verifier.deferred()), (0, 1, 0));
    scalar_shuffle::fill_cs(&mut verifier, vec![a, a, a], vec![a, a, a]).unwrap();
    assert_eq!((verifier.multipliers(), verifier.constraints(), verifier.deferred()), (0, 1, 1));
    two_shuffle(&mut verifier, a, a, a, a).unwrap();
    assert_eq!((verifier.multipliers(), verifier.constraints(), verifier.deferred()), (0, 1, 2));
}

fn value(q: u64, f: u64) -> Value {
    Value { q: SignedInteger::from(q), f: Scalar::from_u64(f) }
}

fn value_shuffle_helper(input: Vec<Value>, output: Vec<Value>) -> Result<(), Error> {
    let pc_gens = PedersenGens::default();
    let bp_gens = BulletproofGens::new(16, 1);
    let mut prover = ConstraintSystem::new_prover(&pc_gens, "ValueShuffleTest");
    let (input_com, input_vals) = input.commit(&mut prover);
    let (output_com, output_vals) = output.commit(&mut prover);
    value_shuffle::fill_cs(&mut prover, input_vals, output_vals)?;
    let proof = prover.prove(&bp_gens)?;
    let mut verifier = ConstraintSystem::new_verifier("ValueShuffleTest");
    let input_vals = input_com.commit(&mut verifier);
    let output_vals = output_com.commit(&mut verifier);
    value_shuffle::fill_cs(&mut verifier, input_vals, output_vals)?;
    verifier.verify(&proof, &pc_gens, &bp_gens)
}

#[test]
fn value_shuffle_accepts_reorderings() {
    assert_eq!(value_shuffle_helper(vec![], vec![]), Ok(()));
    assert_eq!(value_shuffle_helper(vec![value(1, 666)], vec![value(1, 666)]), Ok(()));
    assert_eq!(
        value_shuffle_helper(vec![value(1, 666), value(4, 888)], vec![value(4, 888), value(1, 666)]),
        Ok(())
    );
    assert_eq!(
        value_shuffle_helper(
            vec![value(1, 666), value(4, 888), value(1, 666), value(0, 0)],
            vec![value(0, 0), value(1, 666), value(1, 666), value(4, 888)]
        ),
        Ok(())
    );
}

#[test]
fn value_shuffle_rejects_other_lists() {
    assert_eq!(
        value_shuffle_helper(vec![value(1, 666)], vec![value(2, 666)]),
        Err(Error::VerificationError)
    );
    assert_eq!(
        value_shuffle_helper(vec![value(1, 666)], vec![value(1, 888)]),
        Err(Error::VerificationError)
    );
    // The quantities and the flavors are each a reordering, but the values are not.
    assert_eq!(
        value_shuffle_helper(vec![value(1, 666), value(4, 888)], vec![value(4, 666), value(1, 888)]),
        Err(Error::VerificationError)
    );
    assert_eq!(
        value_shuffle_helper(
            vec![value(1, 666), value(4, 888), value(7, 666)],
            vec![value(4, 888), value(1, 666), value(6, 666)]
        ),
        Err(Error::VerificationError)
    );
}

#[test]
fn value_shuffle_refuses_different_lengths() {
    assert_eq!(
        value_shuffle_helper(vec![value(1, 666), value(0, 0)], vec![value(1, 666)]),
        Err(Error::GadgetError)
    );
}

#[test]
fn value_shuffle_counts() {
    let mut verifier = ConstraintSystem::new_verifier("ValueShuffleTest");
    let a = Value::allocate_unassigned(&mut verifier).unwrap();
    value_shuffle::fill_cs(&mut verifier, vec![], vec![]).unwrap();
    assert_eq!((verifier.multipliers(), verifier.constraints(), verifier.deferred()), (1, 0, 0));
    value_shuffle::fill_cs(&mut verifier, vec![a], vec![a]).unwrap();
    assert_eq!((verifier.multipliers(), verifier.constraints(), verifier.deferred()), (1, 2, 0));
    value_shuffle::fill_cs(&mut verifier, vec![a, a], vec![a, a]).unwrap();
    assert_eq!((verifier.multipliers(), verifier.constraints(), verifier.deferred()), (1, 2, 1));
}
