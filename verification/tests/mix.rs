use bulletproofs::BulletproofGens;
use bulletproofs::PedersenGens;
use spacesuit::gadgets::k_mix;
use spacesuit::gadgets::merge;
use spacesuit::gadgets::mix;
use spacesuit::gadgets::split;
use spacesuit::r1cs::ConstraintSystem;
use spacesuit::circuit::Error;
use spacesuit::circuit::Variable;
use spacesuit::scalar::Scalar;
use spacesuit::value::AllocatedValue;
use spacesuit::value::ProverCommittable;
use spacesuit::value::SignedInteger;
use spacesuit::value::Value;
use spacesuit::value::VerifierCommittable;

fn value(q: u64, f: u64) -> Value {
    Value { q: SignedInteger::from(q), f: Scalar::from_u64(f) }
}

fn yuan(q: u64) -> Value {
    value(q, 888)
}

fn peso(q: u64) -> Value {
    value(q, 666)
}

fn zero() -> Value {
    Value::zero()
}

fn mix_helper(a: Value, b: Value, c: Value, d: Value) -> Result<(), Error> {
    let pc_gens = PedersenGens::default();
    let bp_gens = BulletproofGens::new(1, 1);
    let mut prover = ConstraintSystem::new_prover(&pc_gens, "MixTest");
    let (commitments, v) = vec![a, b, c, d].commit(&mut prover);
    mix::fill_cs(&mut prover, v[0], v[1], v[2], v[3])?;
    let proof = prover.prove(&bp_gens)?;
    let mut verifier = ConstraintSystem::new_verifier("MixTest");
    let v = commitments.commit(&mut verifier);
    mix::fill_cs(&mut verifier, v[0], v[1], v[2], v[3])?;
    verifier.verify(&proof, &pc_gens, &bp_gens)
}

#[test]
fn mix_accepts_values_passed_on() {
    assert_eq!(mix_helper(peso(6), yuan(1), peso(6), yuan(1)), Ok(()));
    assert_eq!(mix_helper(peso(6), peso(1), peso(6), peso(1)), Ok(()));
    assert_eq!(mix_helper(zero(), zero(), zero(), zero()), Ok(()));
}

#[test]
fn mix_accepts_values_merged() {
    assert_eq!(mix_helper(peso(6), peso(1), zero(), peso(7)), Ok(()));
    assert_eq!(mix_helper(peso(0), peso(0), zero(), peso(0)), Ok(()));
    assert_eq!(mix_helper(yuan(u64::MAX - 1), yuan(1), zero(), yuan(u64::MAX)), Ok(()));
}

#[test]
fn mix_rejects_everything_else() {
    let rejected = Err(Error::VerificationError);
    // merged across flavors
    assert_eq!(mix_helper(peso(6), yuan(1), zero(), peso(7)), rejected);
    assert_eq!(mix_helper(peso(6), yuan(1), zero(), yuan(7)), rejected);
    // merged with the wrong total
    assert_eq!(mix_helper(peso(6), peso(1), zero(), peso(8)), rejected);
    // merged into the first place
    assert_eq!(mix_helper(peso(6), peso(1), peso(7), zero()), rejected);
    // merged, but what is left behind is not zero in flavor, or in quantity
    assert_eq!(mix_helper(peso(6), peso(1), peso(0), peso(7)), rejected);
    assert_eq!(mix_helper(peso(6), peso(1), value(1, 0), peso(6)), rejected);
    // swapped
    assert_eq!(mix_helper(peso(6), yuan(1), yuan(1), peso(6)), rejected);
    // passed on with a change
    assert_eq!(mix_helper(peso(6), yuan(1), peso(6), yuan(2)), rejected);
    assert_eq!(mix_helper(peso(6), yuan(1), peso(5), yuan(2)), rejected);
}

#[test]
fn mix_values_passes_or_merges() {
    let same = k_mix::mix_values(Some(peso(6)), Some(peso(1)));
    assert_eq!(same, (Some(zero()), Some(peso(7))));
    let other = k_mix::mix_values(Some(peso(6)), Some(yuan(1)));
    assert_eq!(other, (Some(peso(6)), Some(yuan(1))));
    let zeros = k_mix::mix_values(Some(zero()), Some(zero()));
    assert_eq!(zeros, (Some(zero()), Some(zero())));
    assert_eq!(k_mix::mix_values(None, Some(yuan(1))), (None, None));
    assert_eq!(k_mix::mix_values(Some(yuan(1)), None), (None, None));
    let negative = Value { q: SignedInteger::Negative(4), f: Scalar::from_u64(666) };
    assert_eq!(k_mix::mix_values(Some(peso(6)), Some(negative)), (Some(zero()), Some(peso(2))));
    assert_eq!(
        k_mix::mix_values(Some(negative), Some(peso(1))),
        (Some(zero()), Some(Value { q: SignedInteger::Negative(3), f: Scalar::from_u64(666) }))
    );
}

fn assignments(values: &[AllocatedValue]) -> Vec<Value> {
    values.iter().map(|v| v.assignment.unwrap()).collect()
}

#[test]
fn k_mix_totals_each_run() {
    let pc_gens = PedersenGens::default();
    let mut prover = ConstraintSystem::new_prover(&pc_gens, "KMixTest");
    let input = vec![peso(1), peso(2), yuan(4), yuan(8), yuan(16), peso(32)];
    let (_, inputs) = input.commit(&mut prover);
    let outputs = k_mix::fill_cs(&mut prover, &inputs).unwrap();
    assert_eq!(
        assignments(&outputs),
        vec![zero(), peso(3), zero(), zero(), yuan(28), peso(32)]
    );
    assert_eq!((prover.multipliers(), prover.constraints(), prover.deferred()), (10, 0, 5));
    assert_eq!(outputs[0].q, Variable::MultiplierLeft(0));
    assert_eq!(outputs[0].f, Variable::MultiplierRight(0));
    assert_eq!(outputs[1].q, Variable::MultiplierLeft(2));
    assert_eq!(outputs[4].q, Variable::MultiplierLeft(8));
    assert_eq!(outputs[5].q, Variable::MultiplierLeft(9));
    assert_eq!(outputs[5].f, Variable::MultiplierRight(9));
}

#[test]
fn k_mix_of_few_values() {
    let pc_gens = PedersenGens::default();
    let mut prover = ConstraintSystem::new_prover(&pc_gens, "KMixTest");
    assert_eq!(k_mix::fill_cs(&mut prover, &vec![]).unwrap().len(), 0);
    let (_, inputs) = vec![peso(1)].commit(&mut prover);
    let outputs = k_mix::fill_cs(&mut prover, &inputs).unwrap();
    assert_eq!(assignments(&outputs), vec![peso(1)]);
    assert_eq!(outputs[0].q, Variable::Committed(0));
    assert_eq!(outputs[0].f, Variable::Committed(1));
    assert_eq!((prover.multipliers(), prover.constraints(), prover.deferred()), (0, 0, 0));
}

#[test]
fn k_mix_needs_every_value_of_a_prover() {
    let pc_gens = PedersenGens::default();
    let mut prover = ConstraintSystem::new_prover(&pc_gens, "KMixTest");
    let (_, mut inputs) = vec![peso(1), peso(2), yuan(4)].commit(&mut prover);
    inputs[2].assignment = None;
    assert_eq!(k_mix::fill_cs(&mut prover, &inputs).err(), Some(Error::MissingAssignment));
    // the cell over the first two values was completed before the unknown value was met
    assert_eq!((prover.multipliers(), prover.constraints(), prover.deferred()), (2, 0, 1));
    let mut verifier = ConstraintSystem::new_verifier("KMixTest");
    let a = Value::allocate_unassigned(&mut verifier).unwrap();
    let outputs = k_mix::fill_cs(&mut verifier, &vec![a, a, a]).unwrap();
    assert_eq!(outputs.len(), 3);
    assert!(outputs.iter().all(|v| v.assignment.is_none()));
    assert_eq!((verifier.multipliers(), verifier.constraints(), verifier.deferred()), (5, 0, 2));
}

#[test]
fn order_by_flavor_groups() {
    let ordered = merge::order_by_flavor(&vec![peso(1), yuan(2), peso(3), yuan(4), peso(5)]);
    assert_eq!(ordered, vec![peso(1), peso(3), peso(5), yuan(4), yuan(2)]);
    let ordered = merge::order_by_flavor(&vec![peso(1), yuan(2), value(9, 7), yuan(4)]);
    assert_eq!(ordered, vec![peso(1), yuan(2), yuan(4), value(9, 7)]);
    assert_eq!(merge::order_by_flavor(&vec![]), vec![]);
    assert_eq!(merge::order_by_flavor(&vec![peso(1)]), vec![peso(1)]);
    assert_eq!(merge::order_by_flavor(&vec![peso(1), peso(2)]), vec![peso(1), peso(2)]);
}

#[test]
fn merge_totals_each_flavor() {
    let pc_gens = PedersenGens::default();
    let mut prover = ConstraintSystem::new_prover(&pc_gens, "MergeTest");
    let (_, inputs) = vec![peso(1), yuan(2), peso(3), yuan(4), peso(5)].commit(&mut prover);
    let (merge_in, merge_out) = merge::fill_cs(&mut prover, &inputs).unwrap();
    assert_eq!(assignments(&merge_in), vec![peso(1), peso(3), peso(5), yuan(4), yuan(2)]);
    assert_eq!(assignments(&merge_out), vec![zero(), zero(), peso(9), zero(), yuan(6)]);
    assert_eq!((prover.multipliers(), prover.constraints(), prover.deferred()), (13, 0, 4));
    assert_eq!(merge_in[0].q, Variable::MultiplierLeft(0));
    assert_eq!(merge_in[4].q, Variable::MultiplierLeft(4));
    assert_eq!(merge_out[0].q, Variable::MultiplierLeft(5));
    assert_eq!(merge_out[4].q, Variable::MultiplierLeft(12));
}

#[test]
fn split_mirrors_merge() {
    let pc_gens = PedersenGens::default();
    let mut prover = ConstraintSystem::new_prover(&pc_gens, "SplitTest");
    let (_, outputs) = vec![peso(1), yuan(2), peso(3)].commit(&mut prover);
    let (split_out, split_in) = split::fill_cs(&mut prover, &outputs).unwrap();
    assert_eq!(assignments(&split_out), vec![yuan(2), peso(1), peso(3)]);
    assert_eq!(assignments(&split_in), vec![yuan(2), peso(4), zero()]);
    assert_eq!((prover.multipliers(), prover.constraints(), prover.deferred()), (7, 0, 2));
    assert_eq!(split_out[2].q, Variable::MultiplierLeft(0));
    assert_eq!(split_out[0].q, Variable::MultiplierLeft(2));
    assert_eq!(split_in[2].q, Variable::MultiplierLeft(3));
    assert_eq!(split_in[0].q, Variable::MultiplierLeft(6));
}

#[test]
fn merge_and_split_need_every_value_of_a_prover() {
    let pc_gens = PedersenGens::default();
    let mut prover = ConstraintSystem::new_prover(&pc_gens, "MergeTest");
    let (_, mut inputs) = vec![peso(1)].commit(&mut prover);
    inputs[0].assignment = None;
    assert_eq!(merge::fill_cs(&mut prover, &inputs).err(), Some(Error::MissingAssignment));
    assert_eq!(split::fill_cs(&mut prover, &inputs).err(), Some(Error::MissingAssignment));
    assert_eq!(prover.multipliers(), 0);
    assert!(merge::fill_cs(&mut prover, &vec![]).is_ok());
    let mut verifier = ConstraintSystem::new_verifier("MergeTest");
    let (merge_in, merge_out) = merge::fill_cs(&mut verifier, &inputs).unwrap();
    assert_eq!((merge_in.len(), merge_out.len()), (1, 1));
    assert_eq!(merge_in[0].q, Variable::MultiplierLeft(0));
    assert_eq!(merge_out[0].q, Variable::MultiplierLeft(0));
    assert_eq!(verifier.multipliers(), 1);
}

#[test]
fn k_mix_stops_at_the_first_unknown_value() {
    let pc_gens = PedersenGens::default();
    for (unknown, cells) in [(0, 0), (1, 0), (2, 1), (3, 2), (4, 3)] {
        let mut prover = ConstraintSystem::new_prover(&pc_gens, "KMixTest");
        let (_, mut inputs) =
            vec![peso(1), peso(2), yuan(4), yuan(5), peso(6)].commit(&mut prover);
        inputs[unknown].assignment = None;
        assert_eq!(k_mix::fill_cs(&mut prover, &inputs).err(), Some(Error::MissingAssignment));
        assert_eq!(
            (prover.multipliers(), prover.constraints(), prover.deferred()),
            (2 * cells, 0, cells)
        );
    }
}
