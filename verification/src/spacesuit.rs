use bulletproofs::BulletproofGens;
use bulletproofs::PedersenGens;
use bulletproofs::r1cs::R1CSProof;
use crate::circuit::Circuit;
use crate::circuit::Error;
use crate::circuit::padded_size;
use crate::cloak::balanced;
use crate::cloak::cloak;
use crate::cloak::cloak_circuit;
use crate::cloak::cloak_gadgets;
use crate::cloak::lemma_cloak_circuit;
use crate::gadgets::k_mix::all_known;
use crate::gadgets::merge::value_views;
use crate::gadgets::randomized::completes;
use crate::gadgets::randomized::final_multipliers;
use crate::r1cs::ConstraintSystem;
use crate::r1cs::capacity_of;
use crate::r1cs::circuit_of;
use crate::r1cs::committed_to;
use crate::r1cs::parties_of;
use crate::r1cs::proving_failure;
use crate::r1cs::verifying_failure;
use crate::scalar::Scalar;
use crate::value::CommittedValue;
use crate::value::Value;
use crate::value::VerifierCommittable;
use crate::value::blinding_values;
use crate::value::commit_all_blinded;
use crate::value::commitment_bytes;
use crate::value::committed_values;
use crate::value::committed_wires;
use crate::value::known_views;
use crate::value::lemma_blinding_values_concat;
use crate::value::lemma_blinding_values_len;
use crate::value::lemma_all_carried_extends;
use crate::value::wires_of;
use vstd::prelude::*;

verus! {

/// The most inputs, and the most outputs, that a transaction may have, so that the counters
/// of its constraint system cannot overflow.
pub open spec fn most_values() -> nat {
    (usize::MAX / 256) as nat
}

/// The system of a transaction with `m` inputs and `n` outputs over the given commitments,
/// made over a transcript of its own label: the inputs and then the outputs are committed
/// to, quantity before flavor, and then the transaction is added. Prover and verifier build
/// the same system.
pub open spec fn transaction(proving: bool, m: nat, n: nat, commitments: Seq<Seq<u8>>) -> Circuit {
    cloak_circuit(
        Circuit {
            committed: 2 * m + 2 * n,
            commitments,
            ..Circuit::empty(proving, "TransactionTest"@)
        },
        committed_wires(0, m),
        committed_wires(2 * m, n),
    )
}

/// The system of a transaction but for its commitments. Whether a proof comes of a
/// transaction depends on this much alone.
pub open spec fn transaction_shape(proving: bool, m: nat, n: nat) -> Circuit {
    transaction(proving, m, n, Seq::empty())
}

/// The commitments of a transaction do not bear on its multipliers, nor on the gadgets that
/// it puts off: a transaction has those of its shape.
pub proof fn lemma_transaction_shape(proving: bool, m: nat, n: nat, commitments: Seq<Seq<u8>>)
    requires
        m <= most_values(),
        n <= most_values(),
    ensures
        transaction(proving, m, n, commitments).proving == proving,
        transaction_shape(proving, m, n).proving == proving,
        transaction(proving, m, n, commitments).multipliers == transaction_shape(
            proving,
            m,
            n,
        ).multipliers,
        transaction(proving, m, n, commitments).deferred == transaction_shape(
            proving,
            m,
            n,
        ).deferred,
        transaction(proving, m, n, commitments).commitments == commitments,
{
    let x = committed_wires(0, m);
    let y = committed_wires(2 * m, n);
    let full = Circuit {
        committed: 2 * m + 2 * n,
        commitments,
        ..Circuit::empty(proving, "TransactionTest"@)
    };
    let bare = Circuit {
        committed: 2 * m + 2 * n,
        ..Circuit::empty(proving, "TransactionTest"@)
    };
    lemma_cloak_circuit(full, x, y);
    lemma_cloak_circuit(bare, x, y);
    assert(cloak_gadgets(full, x, y) == cloak_gadgets(bare, x, y));
}

/// What stands in the way of a proof of a transaction with `m` inputs and `n` outputs, if
/// anything does: too many values give `GadgetError`, generators made for no party
/// `InvalidGeneratorsLength`, and for the rest see `proving_failure`.
pub open spec fn prove_failure(m: nat, n: nat, parties: nat, capacity: nat) -> Option<Error> {
    if m > most_values() || n > most_values() {
        Some(Error::GadgetError)
    } else if parties == 0 {
        Some(Error::InvalidGeneratorsLength)
    } else {
        proving_failure(transaction_shape(true, m, n), capacity)
    }
}

/// Whether `e` can be the error with which a proof of a transaction with `m` inputs and `n`
/// outputs is refused: too many values give `GadgetError`, generators made for no party
/// `InvalidGeneratorsLength`, and for the rest see `verifying_failure`.
pub open spec fn verify_failure(m: nat, n: nat, parties: nat, capacity: nat, e: Error) -> bool {
    if m > most_values() || n > most_values() {
        e == Error::GadgetError
    } else if parties == 0 {
        e == Error::InvalidGeneratorsLength
    } else {
        verifying_failure(transaction_shape(false, m, n), capacity, e)
    }
}

/// Builds the prover's system of a transaction: commits to the inputs and then to the
/// outputs, to value `i` of the two lists taken together under the pair of blinding factors
/// `blindings[i]`, its first for the quantity and its second for the flavor, and adds the
/// transaction. Hands back the system and the commitments to inputs and outputs.
///
/// More than `usize::MAX / 256` inputs or outputs are refused with `GadgetError`, and so are
/// blinding factors that are not one pair for each value. The prover is on course if inputs
/// and outputs balance: it has assigned values that meet every constraint of the first
/// phase, and every gadget that it has put off is ready.
pub fn prover_with<'a>(
    pc_gens: &'a PedersenGens,
    inputs: &Vec<Value>,
    outputs: &Vec<Value>,
    blindings: &Vec<(Scalar, Scalar)>,
) -> (r: Result<(ConstraintSystem<'a>, Vec<CommittedValue>, Vec<CommittedValue>), Error>)
    ensures
        r is Err == (inputs.len() > most_values() || outputs.len() > most_values()
            || blindings.len() != inputs.len() + outputs.len()),
        r matches Err(e) ==> e == Error::GadgetError,
        r matches Ok(p) ==> {
            &&& p.0@ == transaction(
                true,
                inputs.len() as nat,
                outputs.len() as nat,
                commitment_bytes(p.1@) + commitment_bytes(p.2@),
            )
            &&& p.0@.wf()
            &&& p.1.len() == inputs.len()
            &&& p.2.len() == outputs.len()
            &&& committed_to(
                commitment_bytes(p.1@) + commitment_bytes(p.2@),
                committed_values(inputs@) + committed_values(outputs@),
                blinding_values(blindings@),
            )
            &&& balanced(value_views(inputs@), value_views(outputs@)) ==> p.0.met()
        },
{
    if inputs.len() > usize::MAX / 256 || outputs.len() > usize::MAX / 256 {
        return Err(Error::GadgetError);
    }
    if blindings.len() != inputs.len() + outputs.len() {
        return Err(Error::GadgetError);
    }
    let mut prover = ConstraintSystem::new_prover(pc_gens, "TransactionTest");
    let (in_com, in_vars) = commit_all_blinded(inputs, &mut prover, blindings, 0);
    let ghost middle = prover@;
    let ghost w1 = prover.assigned();
    let (out_com, out_vars) = commit_all_blinded(outputs, &mut prover, blindings, inputs.len());
    proof {
        assert(all_known(in_vars@));
        assert(all_known(out_vars@));
        assert(known_views(in_vars@) =~= value_views(inputs@));
        assert(known_views(out_vars@) =~= value_views(outputs@));
        assert(middle.has_pairs(wires_of(in_vars@)));
        lemma_all_carried_extends(in_vars@, w1, prover.assigned(), middle);
        assert(prover@.commitments =~= commitment_bytes(in_com@) + commitment_bytes(out_com@));
        assert(prover.assigned().committed =~= committed_values(inputs@) + committed_values(
            outputs@,
        ));
        assert(circuit_of(&prover).proving);
        lemma_blinding_values_concat(
            blindings@.subrange(0, inputs.len() as int),
            blindings@.subrange(inputs.len() as int, inputs.len() + outputs.len()),
        );
        assert(blindings@.subrange(0, inputs.len() as int) + blindings@.subrange(
            inputs.len() as int,
            inputs.len() + outputs.len(),
        ) =~= blindings@);
        assert(prover.assigned().blindings =~= blinding_values(blindings@));
        assert(committed_to(
            commitment_bytes(in_com@) + commitment_bytes(out_com@),
            committed_values(inputs@) + committed_values(outputs@),
            blinding_values(blindings@),
        ));
    }
    match cloak(&mut prover, in_vars, out_vars) {
        Ok(()) => Ok((prover, in_com, out_com)),
        Err(e) => Err(e),
    }
}

/// Builds the prover's system of a transaction as `prover_with` does, under fresh random
/// blinding factors.
///
/// More than `usize::MAX / 256` inputs or outputs are refused with `GadgetError`. The prover
/// is on course if inputs and outputs balance.
pub fn prover_for<'a>(
    pc_gens: &'a PedersenGens,
    inputs: &Vec<Value>,
    outputs: &Vec<Value>,
) -> (r: Result<(ConstraintSystem<'a>, Vec<CommittedValue>, Vec<CommittedValue>), Error>)
    ensures
        r is Err == (inputs.len() > most_values() || outputs.len() > most_values()),
        r matches Err(e) ==> e == Error::GadgetError,
        r matches Ok(p) ==> {
            &&& p.0@ == transaction(
                true,
                inputs.len() as nat,
                outputs.len() as nat,
                commitment_bytes(p.1@) + commitment_bytes(p.2@),
            )
            &&& p.0@.wf()
            &&& p.1.len() == inputs.len()
            &&& p.2.len() == outputs.len()
            &&& exists|factors: Seq<nat>|
                factors.len() == 2 * (inputs.len() + outputs.len()) && #[trigger] committed_to(
                    commitment_bytes(p.1@) + commitment_bytes(p.2@),
                    committed_values(inputs@) + committed_values(outputs@),
                    factors,
                )
            &&& balanced(value_views(inputs@), value_views(outputs@)) ==> p.0.met()
        },
{
    if inputs.len() > usize::MAX / 256 || outputs.len() > usize::MAX / 256 {
        return Err(Error::GadgetError);
    }
    let count = inputs.len() + outputs.len();
    let mut blindings: Vec<(Scalar, Scalar)> = Vec::new();
    let mut i: usize = 0;
    while i < count
        invariant
            i <= count,
            blindings.len() == i,
        decreases count - i,
    {
        blindings.push((Scalar::random(), Scalar::random()));
        i = i + 1;
    }
    proof {
        lemma_blinding_values_len(blindings@);
    }
    prover_with(pc_gens, inputs, outputs, &blindings)
}

/// Builds the verifier's system of a transaction: takes the commitments to inputs and
/// outputs as external inputs and adds the transaction.
///
/// More than `usize::MAX / 256` inputs or outputs are refused with `GadgetError`.
pub fn verifier_for<'a>(
    in_com: &Vec<CommittedValue>,
    out_com: &Vec<CommittedValue>,
) -> (r: Result<ConstraintSystem<'a>, Error>)
    ensures
        r is Err == (in_com.len() > most_values() || out_com.len() > most_values()),
        r matches Err(e) ==> e == Error::GadgetError,
        r matches Ok(cs) ==> cs@ == transaction(
            false,
            in_com.len() as nat,
            out_com.len() as nat,
            commitment_bytes(in_com@) + commitment_bytes(out_com@),
        ) && cs@.wf(),
{
    if in_com.len() > usize::MAX / 256 || out_com.len() > usize::MAX / 256 {
        return Err(Error::GadgetError);
    }
    let mut verifier = ConstraintSystem::new_verifier("TransactionTest");
    let in_vars = in_com.commit(&mut verifier);
    let out_vars = out_com.commit(&mut verifier);
    proof {
        assert(verifier@.commitments =~= commitment_bytes(in_com@) + commitment_bytes(out_com@));
    }
    match cloak(&mut verifier, in_vars, out_vars) {
        Ok(()) => Ok(verifier),
        Err(e) => Err(e),
    }
}

/// Commits to the inputs and outputs under fresh random blinding factors and proves that
/// the outputs rearrange the inputs flavor by flavor, with every output quantity in
/// `[0, 2^64)`. Hands back the proof and the commitments to inputs and outputs, which are
/// those that the prover's system made for the inputs and then the outputs, value by value,
/// quantity before flavor.
///
/// More than `usize::MAX / 256` inputs or outputs are refused with `GadgetError`, and
/// generators made for no party with `InvalidGeneratorsLength`. Otherwise a proof comes back
/// whenever the generators suffice, whatever the values are; one for values that are no such
/// rearrangement does not verify.
pub fn prove(
    bp_gens: &BulletproofGens,
    pc_gens: &PedersenGens,
    inputs: &Vec<Value>,
    outputs: &Vec<Value>,
) -> (r: Result<(R1CSProof, Vec<CommittedValue>, Vec<CommittedValue>), Error>)
    ensures
        r is Ok == prove_failure(
            inputs.len() as nat,
            outputs.len() as nat,
            parties_of(bp_gens),
            capacity_of(bp_gens),
        ) is None,
        r matches Err(e) ==> prove_failure(
            inputs.len() as nat,
            outputs.len() as nat,
            parties_of(bp_gens),
            capacity_of(bp_gens),
        ) == Some(e),
        r matches Ok(p) ==> p.1.len() == inputs.len() && p.2.len() == outputs.len(),
        r matches Ok(p) ==> exists|factors: Seq<nat>|
            factors.len() == 2 * (inputs.len() + outputs.len()) && #[trigger] committed_to(
                commitment_bytes(p.1@) + commitment_bytes(p.2@),
                committed_values(inputs@) + committed_values(outputs@),
                factors,
            ),
{
    let (prover, in_com, out_com) = prover_for(pc_gens, inputs, outputs)?;
    let ghost factors = choose|factors: Seq<nat>|
        factors.len() == 2 * (inputs.len() + outputs.len()) && #[trigger] committed_to(
            commitment_bytes(in_com@) + commitment_bytes(out_com@),
            committed_values(inputs@) + committed_values(outputs@),
            factors,
        );
    assert(factors.len() == 2 * (inputs.len() + outputs.len()));
    assert(committed_to(
        commitment_bytes(in_com@) + commitment_bytes(out_com@),
        committed_values(inputs@) + committed_values(outputs@),
        factors,
    ));
    proof {
        lemma_transaction_shape(
            true,
            inputs.len() as nat,
            outputs.len() as nat,
            commitment_bytes(in_com@) + commitment_bytes(out_com@),
        );
    }
    let proof = prover.prove(bp_gens)?;
    Ok((proof, in_com, out_com))
}

/// Checks a proof that the values committed to in `out_com` rearrange those committed to in
/// `in_com` flavor by flavor, with every output quantity in `[0, 2^64)`.
///
/// More than `usize::MAX / 256` inputs or outputs are refused with `GadgetError`, and
/// generators made for no party with `InvalidGeneratorsLength`. Whether the proof holds is
/// for the proof system to say; one that it refuses is refused with `VerificationError`.
pub fn verify(
    bp_gens: &BulletproofGens,
    pc_gens: &PedersenGens,
    proof: &R1CSProof,
    in_com: &Vec<CommittedValue>,
    out_com: &Vec<CommittedValue>,
) -> (r: Result<(), Error>)
    ensures
        r is Ok ==> in_com.len() <= most_values() && out_com.len() <= most_values() && parties_of(
            bp_gens,
        ) >= 1,
        r is Ok ==> completes(transaction_shape(false, in_com.len() as nat, out_com.len() as nat))
            && padded_size(
            final_multipliers(transaction_shape(false, in_com.len() as nat, out_com.len() as nat)),
        ) <= capacity_of(bp_gens),
        r matches Err(e) ==> verify_failure(
            in_com.len() as nat,
            out_com.len() as nat,
            parties_of(bp_gens),
            capacity_of(bp_gens),
            e,
        ),
{
    let verifier = verifier_for(in_com, out_com)?;
    proof {
        lemma_transaction_shape(
            false,
            in_com.len() as nat,
            out_com.len() as nat,
            commitment_bytes(in_com@) + commitment_bytes(out_com@),
        );
    }
    verifier.verify(proof, pc_gens, bp_gens)
}

} // verus!
