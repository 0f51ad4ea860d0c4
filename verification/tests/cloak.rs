use bulletproofs::BulletproofGens;
use bulletproofs::PedersenGens;
use curve25519_dalek_ng::scalar::Scalar as FieldElement;
use spacesuit::cloak::cloak;
use spacesuit::r1cs::ConstraintSystem;
use spacesuit::circuit::Error;
use spacesuit::circuit::Variable;
use spacesuit::scalar::Scalar;
use spacesuit::spacesuit::prove;
use spacesuit::spacesuit::prover_for;
use spacesuit::spacesuit::prover_with;
use spacesuit::spacesuit::verifier_for;
use spacesuit::spacesuit::verify;
use spacesuit::value::CommittedValue;
use spacesuit::value::ProverCommittable;
use spacesuit::value::SignedInteger;
use spacesuit::value::Value;
use spacesuit::value::VerifierCommittable;

fn yuan(q: u64) -> Value {
    Value { q: SignedInteger::from(q), f: Scalar::from_u64(888) }
}

fn peso(q: u64) -> Value {
    Value { q: SignedInteger::from(q), f: Scalar::from_u64(666) }
}

fn cloak_helper(inputs: Vec<Value>, outputs: Vec<Value>) -> Result<(), Error> {
    let pc_gens = PedersenGens::default();
    let bp_gens = BulletproofGens::new(1024, 1);
    let (proof, in_com, out_com) = prove(&bp_gens, &pc_gens, &inputs, &outputs)?;
    verify(&bp_gens, &pc_gens, &proof, &in_com, &out_com)
}

#[test]
fn cloak_identity() {
    assert!(cloak_helper(vec![peso(1), yuan(4)], vec![peso(1), yuan(4)]).is_ok());
}

#[test]
fn cloak_merge_within_flavor() {
    assert!(cloak_helper(vec![peso(1), peso(2), yuan(4)], vec![peso(3), yuan(4)]).is_ok());
}

#[test]
fn cloak_split_within_flavor() {
    assert!(cloak_helper(vec![peso(3), yuan(4)], vec![peso(1), peso(2), yuan(4)]).is_ok());
}

#[test]
fn cloak_quantity_mismatch() {
    assert_eq!(
        cloak_helper(vec![peso(1), yuan(4)], vec![yuan(4), peso(2)]),
        Err(Error::VerificationError)
    );
}

#[test]
fn cloak_of_nothing() {
    assert_eq!(cloak_helper(vec![], vec![]), Ok(()));
}

#[test]
fn cloak_merges_and_splits_at_once() {
    assert_eq!(
        cloak_helper(
            vec![peso(1), yuan(7), peso(2), yuan(1)],
            vec![yuan(5), peso(3), yuan(3)]
        ),
        Ok(())
    );
    assert_eq!(cloak_helper(vec![peso(5)], vec![peso(1), peso(1), peso(3)]), Ok(()));
    assert_eq!(cloak_helper(vec![peso(u64::MAX)], vec![peso(u64::MAX - 1), peso(1)]), Ok(()));
}

#[test]
fn cloak_rejects_a_changed_flavor() {
    assert_eq!(
        cloak_helper(vec![peso(1), yuan(4)], vec![peso(1), peso(4)]),
        Err(Error::VerificationError)
    );
    assert_eq!(cloak_helper(vec![peso(1)], vec![yuan(1)]), Err(Error::VerificationError));
}

#[test]
fn cloak_rejects_quantities_made_or_lost() {
    assert_eq!(cloak_helper(vec![peso(1)], vec![peso(2)]), Err(Error::VerificationError));
    assert_eq!(cloak_helper(vec![peso(2)], vec![peso(1)]), Err(Error::VerificationError));
    assert_eq!(cloak_helper(vec![], vec![peso(1)]), Err(Error::VerificationError));
    assert_eq!(cloak_helper(vec![peso(1)], vec![]), Err(Error::VerificationError));
    assert_eq!(
        cloak_helper(vec![peso(3), yuan(4)], vec![peso(4), yuan(3)]),
        Err(Error::VerificationError)
    );
}

#[test]
fn cloak_rejects_a_negative_output() {
    let negative = Value { q: SignedInteger::Negative(1), f: Scalar::from_u64(666) };
    assert_eq!(cloak_helper(vec![peso(1)], vec![peso(2), negative]), Err(Error::VerificationError));
}

#[test]
fn cloak_counts() {
    let commitment = CommittedValue { q: [0u8; 32], f: [0u8; 32] };
    let mut verifier = ConstraintSystem::new_verifier("CloakTest");
    let inputs = vec![commitment; 3].commit(&mut verifier);
    let outputs = vec![commitment; 2].commit(&mut verifier);
    assert_eq!(cloak(&mut verifier, inputs, outputs), Ok(()));
    // merge 3 + 2 * 2, split 2 + 2 * 1, one padding value, 2 * 64 bits
    assert_eq!(verifier.multipliers(), 7 + 4 + 1 + 128);
    // two for the padding value, and 2 * 64 + 1 for each range proof
    assert_eq!(verifier.constraints(), 2 + 2 * 129);
    // three mixes and three shuffles
    assert_eq!(verifier.deferred(), 6);
}

#[test]
fn prove_and_verify_hand_on_the_commitments() {
    let pc_gens = PedersenGens::default();
    let bp_gens = BulletproofGens::new(256, 1);
    let (proof, in_com, out_com) =
        prove(&bp_gens, &pc_gens, &vec![peso(3)], &vec![peso(1), peso(2)]).unwrap();
    assert_eq!((in_com.len(), out_com.len()), (1, 2));
    assert_eq!(verify(&bp_gens, &pc_gens, &proof, &in_com, &out_com), Ok(()));
    // the same proof does not fit other commitments
    let swapped = vec![out_com[1], out_com[0]];
    assert_eq!(
        verify(&bp_gens, &pc_gens, &proof, &in_com, &swapped),
        Err(Error::VerificationError)
    );
    assert_eq!(
        verify(&bp_gens, &pc_gens, &proof, &out_com, &in_com),
        Err(Error::VerificationError)
    );
}

#[test]
fn prove_needs_enough_generators() {
    let pc_gens = PedersenGens::default();
    let bp_gens = BulletproofGens::new(64, 1);
    assert_eq!(
        prove(&bp_gens, &pc_gens, &vec![peso(3)], &vec![peso(3)]).err(),
        Some(Error::InvalidGeneratorsLength)
    );
}

#[test]
fn cloak_rejects_a_flavor_that_comes_or_goes_without_quantity() {
    // Every flavor has the same total among inputs and outputs, but one flavor occurs on one
    // side only.
    assert_eq!(cloak_helper(vec![peso(0)], vec![]), Err(Error::VerificationError));
    assert_eq!(cloak_helper(vec![yuan(2)], vec![yuan(2), peso(0)]), Err(Error::VerificationError));
    assert_eq!(cloak_helper(vec![yuan(2), peso(0)], vec![peso(0), yuan(2)]), Ok(()));
}

#[test]
fn prover_and_verifier_build_the_same_system() {
    let pc_gens = PedersenGens::default();
    let bp_gens = BulletproofGens::new(256, 1);
    let inputs = vec![peso(1), peso(2), yuan(4)];
    let outputs = vec![peso(3), yuan(4)];
    let (prover, in_com, out_com) = prover_for(&pc_gens, &inputs, &outputs).ok().unwrap();
    let verifier = verifier_for(&in_com, &out_com).ok().unwrap();
    assert_eq!((in_com.len(), out_com.len()), (3, 2));
    assert_eq!(prover.multipliers(), 7 + 4 + 1 + 128);
    assert_eq!(prover.multipliers(), verifier.multipliers());
    assert_eq!(prover.constraints(), verifier.constraints());
    assert_eq!(prover.deferred(), verifier.deferred());
    let proof = prover.prove(&bp_gens).unwrap();
    assert_eq!(verifier.verify(&proof, &pc_gens, &bp_gens), Ok(()));
}

fn blinded(value: &Value, q_blinding: u64, f_blinding: u64) -> CommittedValue {
    let pc_gens = PedersenGens::default();
    let q = FieldElement::from_bytes_mod_order(value.q.to_scalar().bytes);
    let f = FieldElement::from_bytes_mod_order(value.f.bytes);
    CommittedValue {
        q: pc_gens.commit(q, FieldElement::from(q_blinding)).compress().to_bytes(),
        f: pc_gens.commit(f, FieldElement::from(f_blinding)).compress().to_bytes(),
    }
}

#[test]
fn prover_with_commits_under_the_given_blinding_factors() {
    let pc_gens = PedersenGens::default();
    let bp_gens = BulletproofGens::new(256, 1);
    let inputs = vec![peso(3), yuan(4)];
    let outputs = vec![yuan(4), peso(1), peso(2)];
    let blindings: Vec<(Scalar, Scalar)> =
        (0..5u64).map(|i| (Scalar::from_u64(10 + 2 * i), Scalar::from_u64(11 + 2 * i))).collect();
    let (prover, in_com, out_com) = prover_with(&pc_gens, &inputs, &outputs, &blindings).unwrap();
    assert_eq!(in_com, vec![blinded(&inputs[0], 10, 11), blinded(&inputs[1], 12, 13)]);
    assert_eq!(
        out_com,
        vec![blinded(&outputs[0], 14, 15), blinded(&outputs[1], 16, 17), blinded(&outputs[2], 18, 19)]
    );
    let proof = prover.prove(&bp_gens).unwrap();
    assert_eq!(verify(&bp_gens, &pc_gens, &proof, &in_com, &out_com), Ok(()));
    // quantity and flavor of a value are not to be exchanged
    let exchanged = vec![CommittedValue { q: in_com[0].f, f: in_com[0].q }, in_com[1]];
    assert_eq!(
        verify(&bp_gens, &pc_gens, &proof, &exchanged, &out_com),
        Err(Error::VerificationError)
    );
}

#[test]
fn prover_with_needs_one_pair_of_blinding_factors_for_each_value() {
    let pc_gens = PedersenGens::default();
    let pair = (Scalar::from_u64(1), Scalar::from_u64(2));
    let inputs = vec![peso(3)];
    let outputs = vec![peso(1), peso(2)];
    assert_eq!(
        prover_with(&pc_gens, &inputs, &outputs, &vec![pair, pair]).err(),
        Some(Error::GadgetError)
    );
    assert_eq!(
        prover_with(&pc_gens, &inputs, &outputs, &vec![pair, pair, pair, pair]).err(),
        Some(Error::GadgetError)
    );
    assert!(prover_with(&pc_gens, &inputs, &outputs, &vec![pair, pair, pair]).is_ok());
    assert!(prover_with(&pc_gens, &vec![], &vec![], &vec![]).is_ok());
}

#[test]
fn commit_blinded_hands_back_the_commitments_of_the_value() {
    let pc_gens = PedersenGens::default();
    let mut prover = ConstraintSystem::new_prover(&pc_gens, "Blinded");
    let value = Value { q: SignedInteger::Negative(5), f: Scalar::from_u64(666) };
    let (commitment, variable) =
        value.commit_blinded(&mut prover, &Scalar::from_u64(7), &Scalar::from_u64(8));
    assert_eq!(commitment, blinded(&value, 7, 8));
    assert_ne!(commitment, blinded(&value, 8, 7));
    assert_ne!(commitment.q, [0u8; 32]);
    assert_eq!(variable.q, Variable::Committed(0));
    assert_eq!(variable.f, Variable::Committed(1));
    assert_eq!(variable.assignment, Some(value));
    let (again, next) =
        peso(5).commit_blinded(&mut prover, &Scalar::from_u64(7), &Scalar::from_u64(8));
    assert_ne!(again.q, commitment.q);
    assert_eq!(again.f, commitment.f);
    assert_eq!((next.q, next.f), (Variable::Committed(2), Variable::Committed(3)));
}

#[test]
fn cloak_leaves_the_merge_behind_where_an_output_is_unknown() {
    let pc_gens = PedersenGens::default();
    let mut prover = ConstraintSystem::new_prover(&pc_gens, "Unknown");
    let (_, inputs) = vec![peso(1), peso(2)].commit(&mut prover);
    let (_, mut outputs) = vec![peso(3)].commit(&mut prover);
    outputs[0].assignment = None;
    assert_eq!(cloak(&mut prover, inputs, outputs), Err(Error::MissingAssignment));
    // the merge of two inputs: two wires for the grouped inputs and one cell
    assert_eq!((prover.multipliers(), prover.constraints(), prover.deferred()), (4, 0, 1));
    let mut prover = ConstraintSystem::new_prover(&pc_gens, "Unknown");
    let (_, mut inputs) = vec![peso(1), peso(2)].commit(&mut prover);
    let (_, outputs) = vec![peso(3)].commit(&mut prover);
    inputs[1].assignment = None;
    assert_eq!(cloak(&mut prover, inputs, outputs), Err(Error::MissingAssignment));
    assert_eq!((prover.multipliers(), prover.constraints(), prover.deferred()), (0, 0, 0));
}
