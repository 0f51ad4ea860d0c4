use bulletproofs::BulletproofGens;
use bulletproofs::PedersenGens;
use rand::seq::SliceRandom;
use rand::Rng;
use spacesuit::circuit::Error;
use spacesuit::scalar::Scalar;
use spacesuit::spacesuit::prove;
use spacesuit::spacesuit::verify;
use spacesuit::value::SignedInteger;
use spacesuit::value::Value;

const FLAVORS: [u64; 3] = [666, 888, 7];

fn value(q: u64, f: u64) -> Value {
    Value { q: SignedInteger::from(q), f: Scalar::from_u64(f) }
}

/// Splits a total into as many parts as the flavor is to have values.
fn parts(rng: &mut impl Rng, total: u64, count: usize) -> Vec<u64> {
    let mut left = total;
    let mut result = Vec::new();
    for _ in 1..count {
        let part = rng.gen_range(0..=left);
        result.push(part);
        left -= part;
    }
    result.push(left);
    result
}

/// A transaction whose outputs rearrange its inputs: every flavor that occurs has the same
/// total on both sides, in as many parts as chance would have it.
fn rearrangement(rng: &mut impl Rng, most: usize) -> (Vec<Value>, Vec<Value>) {
    let mut inputs = Vec::new();
    let mut outputs = Vec::new();
    for f in FLAVORS.iter() {
        if rng.gen_bool(0.3) {
            continue;
        }
        let total: u64 = rng.gen_range(0..1_000_000);
        let count = rng.gen_range(1..=most);
        for q in parts(rng, total, count) {
            inputs.push(value(q, *f));
        }
        let count = rng.gen_range(1..=most);
        for q in parts(rng, total, count) {
            outputs.push(value(q, *f));
        }
    }
    inputs.shuffle(rng);
    outputs.shuffle(rng);
    (inputs, outputs)
}

fn cloak_helper(inputs: &Vec<Value>, outputs: &Vec<Value>) -> Result<(), Error> {
    let pc_gens = PedersenGens::default();
    let bp_gens = BulletproofGens::new(1024, 1);
    let (proof, in_com, out_com) = prove(&bp_gens, &pc_gens, inputs, outputs)?;
    verify(&bp_gens, &pc_gens, &proof, &in_com, &out_com)
}

#[test]
fn rearrangements_are_accepted() {
    let mut rng = rand::thread_rng();
    for _ in 0..2 {
        let (inputs, outputs) = rearrangement(&mut rng, 2);
        assert_eq!(cloak_helper(&inputs, &outputs), Ok(()), "{:?} to {:?}", inputs, outputs);
    }
}

#[test]
fn larger_rearrangements_are_accepted() {
    let mut rng = rand::thread_rng();
    let (inputs, outputs) = rearrangement(&mut rng, 3);
    assert_eq!(cloak_helper(&inputs, &outputs), Ok(()), "{:?} to {:?}", inputs, outputs);
}

#[test]
fn a_changed_quantity_is_rejected() {
    let mut rng = rand::thread_rng();
    for _ in 0..2 {
        let (inputs, mut outputs) = rearrangement(&mut rng, 2);
        if outputs.is_empty() {
            outputs.push(value(1, 666));
        } else {
            let i = rng.gen_range(0..outputs.len());
            let q = outputs[i].q.to_u64().unwrap();
            outputs[i].q = SignedInteger::from(q + 1);
        }
        assert_eq!(
            cloak_helper(&inputs, &outputs),
            Err(Error::VerificationError),
            "{:?} to {:?}",
            inputs,
            outputs
        );
    }
}

#[test]
fn a_changed_flavor_is_rejected() {
    let mut rng = rand::thread_rng();
    for _ in 0..2 {
        let (inputs, mut outputs) = rearrangement(&mut rng, 2);
        if outputs.is_empty() {
            outputs.push(value(0, 5));
        } else {
            let i = rng.gen_range(0..outputs.len());
            outputs[i].f = Scalar::from_u64(5);
        }
        assert_eq!(
            cloak_helper(&inputs, &outputs),
            Err(Error::VerificationError),
            "{:?} to {:?}",
            inputs,
            outputs
        );
    }
}

#[test]
fn a_negated_value_is_rejected() {
    // The totals still agree, but one output is negative.
    let inputs = vec![value(5, 666)];
    let negative = Value { q: SignedInteger::Negative(2), f: Scalar::from_u64(666) };
    let outputs = vec![value(7, 666), negative];
    assert_eq!(cloak_helper(&inputs, &outputs), Err(Error::VerificationError));
}

#[test]
fn a_quantity_beyond_64_bits_is_rejected() {
    // Two inputs of one flavor whose total does not fit 64 bits cannot be merged into one
    // output: the prover's total is cut down, and no output of 64 bits has the true total.
    let inputs = vec![value(u64::MAX, 666), value(2, 666)];
    let outputs = vec![value(1, 666)];
    assert_eq!(cloak_helper(&inputs, &outputs), Err(Error::VerificationError));
    // Even outputs that keep them apart fail: merged on the way, the total is cut down.
    let outputs = vec![value(2, 666), value(u64::MAX, 666)];
    assert_eq!(cloak_helper(&inputs, &outputs), Err(Error::VerificationError));
}
