use bulletproofs::BulletproofGens;
use bulletproofs::PedersenGens;
use bulletproofs::r1cs::ConstraintSystem as OutsideSystem;
use bulletproofs::r1cs::LinearCombination;
use bulletproofs::r1cs::Prover;
use bulletproofs::r1cs::R1CSError;
use bulletproofs::r1cs::R1CSProof;
use bulletproofs::r1cs::RandomizableConstraintSystem;
use bulletproofs::r1cs::RandomizedConstraintSystem as OutsideRandomizedSystem;
use bulletproofs::r1cs::Variable as Wire;
use bulletproofs::r1cs::Verifier;
use crate::circuit::Circuit;
use crate::circuit::Error;
use crate::circuit::Term;
use crate::circuit::Variable;
use crate::circuit::lemma_multiplied_wf;
use crate::circuit::lemma_wf_grows;
use crate::circuit::padded_size;
use crate::gadgets::randomized::RandomizedGadget;
use crate::gadgets::randomized::completes;
use crate::gadgets::randomized::final_multipliers;
use crate::gadgets::randomized::lemma_on_course_grows;
use crate::gadgets::randomized::lemma_on_course_postponed;
use crate::gadgets::randomized::on_course;
use crate::gadgets::randomized::randomize;
use crate::gadgets::randomized::ready;
use crate::scalar::Scalar;
use crate::scalar::le_value;
use crate::scalar::lemma_order;
use crate::semantics::Witness;
use crate::semantics::lemma_meets_allocated;
use crate::semantics::lemma_meets_committed;
use crate::semantics::lemma_meets_constrained;
use crate::semantics::lemma_meets_multiplied;
use curve25519_dalek_ng::ristretto::CompressedRistretto;
use curve25519_dalek_ng::scalar::Scalar as FieldElement;
use merlin::Transcript;
use vstd::arithmetic::div_mod::lemma_mod_bound;
use vstd::prelude::*;

verus! {

/// The linear combination of the bulletproofs crate: a list of terms.
#[verifier::external_type_specification]
#[verifier::external_body]
pub struct ExLinearCombination(LinearCombination);

/// The proof of the bulletproofs crate that a constraint system can be met.
#[verifier::external_type_specification]
#[verifier::external_body]
pub struct ExR1CSProof(R1CSProof);

/// The generators of the bulletproofs crate for the wires of a constraint system.
#[verifier::external_type_specification]
#[verifier::external_body]
pub struct ExBulletproofGens(BulletproofGens);

/// The generators of the bulletproofs crate for Pedersen commitments.
#[verifier::external_type_specification]
#[verifier::external_body]
pub struct ExPedersenGens(PedersenGens);

/// The transcript of merlin that a proof is bound to.
#[verifier::external_type_specification]
#[verifier::external_body]
pub struct ExTranscript(Transcript);

/// The terms that a linear combination of the bulletproofs crate holds, in order.
pub uninterp spec fn terms_of(lc: &LinearCombination) -> Seq<Term>;

/// Calls `LinearCombination::default`. Claimed: the result has no terms.
#[verifier::external_body]
pub(crate) fn lc_empty() -> (r: LinearCombination)
    ensures
        terms_of(&r) == Seq::<Term>::empty(),
{
    LinearCombination::default()
}

/// Calls the product of a variable and a scalar and the sum of two linear combinations.
/// Claimed: the result holds the terms of `lc` followed by the term `(v, s)`.
#[verifier::external_body]
pub(crate) fn lc_plus(lc: LinearCombination, v: Variable, s: &Scalar) -> (r: LinearCombination)
    ensures
        terms_of(&r) == terms_of(&lc).push((v, s@)),
{
    let v = match v {
        Variable::Committed(i) => Wire::Committed(i),
        Variable::MultiplierLeft(i) => Wire::MultiplierLeft(i),
        Variable::MultiplierRight(i) => Wire::MultiplierRight(i),
        Variable::MultiplierOutput(i) => Wire::MultiplierOutput(i),
        Variable::One => Wire::One(),
    };
    lc + v * FieldElement::from_bytes_mod_order(s.bytes)
}

/// A constraint system of the bulletproofs crate in its first phase: a prover's or a verifier's.
#[verifier::external_body]
pub struct ConstraintSystem<'a> {
    /// `Ok` holds a prover's system, `Err` a verifier's.
    backend: Result<Prover<'a, Transcript>, Verifier<Transcript>>,
}

/// A constraint system of the bulletproofs crate in its second phase, when challenges can be
/// drawn. The crate hands one out only while it runs a deferred gadget.
#[verifier::external_body]
pub struct RandomizedConstraintSystem<'a> {
    inner: &'a mut dyn OutsideRandomizedSystem,
}

/// What a first-phase constraint system holds.
pub uninterp spec fn circuit_of(cs: &ConstraintSystem) -> Circuit;

/// What a second-phase constraint system holds.
pub uninterp spec fn randomized_circuit_of(cs: &RandomizedConstraintSystem) -> Circuit;

/// The values that a prover's first-phase system has assigned to its wires. A verifier's
/// system assigns none.
pub uninterp spec fn assigned_of(cs: &ConstraintSystem) -> Witness;

/// The values that a prover's second-phase system has assigned to its wires.
pub uninterp spec fn randomized_assigned_of(cs: &RandomizedConstraintSystem) -> Witness;

/// The labels under which challenges were drawn from a second-phase system so far, in the
/// order in which they were drawn.
pub uninterp spec fn drawn_of(cs: &RandomizedConstraintSystem) -> Seq<Seq<char>>;

/// The values of an assignment that may be absent.
pub open spec fn assignment_values(assignment: Option<(Scalar, Scalar)>) -> Option<(nat, nat)> {
    match assignment {
        Some(a) => Some((a.0@, a.1@)),
        None => None,
    }
}

/// The commitments are those of the values under the blinding factors: some prover's system
/// holds exactly these commitments and has committed, wire by wire in the same order, to
/// exactly these values under exactly these blinding factors.
pub open spec fn committed_to(
    commitments: Seq<Seq<u8>>,
    values: Seq<nat>,
    blindings: Seq<nat>,
) -> bool {
    exists|cs: ConstraintSystem|
        circuit_of(&cs).proving && #[trigger] circuit_of(&cs).commitments == commitments
            && assigned_of(&cs).committed == values && assigned_of(&cs).blindings == blindings
}

impl<'a> View for ConstraintSystem<'a> {
    type V = Circuit;

    open spec fn view(&self) -> Circuit {
        circuit_of(self)
    }
}

impl<'a> View for RandomizedConstraintSystem<'a> {
    type V = Circuit;

    open spec fn view(&self) -> Circuit {
        randomized_circuit_of(self)
    }
}

/// The label that a transcript was made with.
pub uninterp spec fn label_of(transcript: &Transcript) -> Seq<char>;

/// Calls `Transcript::new` of merlin with the label's bytes. Claimed: the transcript is made
/// with this label.
#[verifier::external_body]
pub(crate) fn transcript_new(label: &'static str) -> (r: Transcript)
    ensures
        label_of(&r) == label@,
{
    Transcript::new(label.as_bytes())
}

/// Calls `PedersenGens::default`.
#[verifier::external_body]
pub(crate) fn pedersen_gens() -> PedersenGens {
    PedersenGens::default()
}

/// The number of parties that the generators were made for.
pub uninterp spec fn parties_of(gens: &BulletproofGens) -> nat;

/// The number of generators that each party has: the largest padded system that the
/// generators serve.
pub uninterp spec fn capacity_of(gens: &BulletproofGens) -> nat;

/// Calls `BulletproofGens::new` for one party. Claimed: the generators are made for one
/// party and have the capacity asked for.
#[verifier::external_body]
pub(crate) fn bulletproof_gens(capacity: usize) -> (r: BulletproofGens)
    ensures
        parties_of(&r) == 1,
        capacity_of(&r) == capacity,
{
    BulletproofGens::new(capacity, 1)
}

/// Reads the field `party_capacity` of the generators.
#[verifier::external_body]
pub(crate) fn gens_parties(gens: &BulletproofGens) -> (r: usize)
    ensures
        r == parties_of(gens),
{
    gens.party_capacity
}

/// Calls `Prover::new`. Claimed: the new system is a prover's over the given transcript and
/// is empty, and no value is assigned yet.
#[verifier::external_body]
pub(crate) fn prover_new<'a>(
    pc_gens: &'a PedersenGens,
    transcript: Transcript,
) -> (r: ConstraintSystem<'a>)
    ensures
        circuit_of(&r) == Circuit::empty(true, label_of(&transcript)),
        assigned_of(&r) == Witness::nothing(),
{
    ConstraintSystem { backend: Ok(Prover::new(pc_gens, transcript)) }
}

/// Calls `Verifier::new`. Claimed: the new system is a verifier's over the given transcript
/// and is empty, and no value is assigned.
#[verifier::external_body]
pub(crate) fn verifier_new<'a>(transcript: Transcript) -> (r: ConstraintSystem<'a>)
    ensures
        circuit_of(&r) == Circuit::empty(false, label_of(&transcript)),
        assigned_of(&r) == Witness::nothing(),
{
    ConstraintSystem { backend: Err(Verifier::new(transcript)) }
}

/// Tells a prover's system from a verifier's.
#[verifier::external_body]
pub(crate) fn cs_is_prover(cs: &ConstraintSystem) -> (r: bool)
    ensures
        r == circuit_of(cs).proving,
{
    cs.backend.is_ok()
}

/// Calls `Prover::commit`. Claimed: the prover's system gains one committed input: the
/// commitment to `v` under the blinding factor `blinding`, whose 32 bytes are returned
/// beside its wire, which is assigned `v`; the prover keeps the blinding factor.
#[verifier::external_body]
pub(crate) fn prover_commit(
    cs: &mut ConstraintSystem,
    v: &Scalar,
    blinding: &Scalar,
) -> (r: ([u8; 32], Variable))
    requires
        circuit_of(old(cs)).proving,
        circuit_of(old(cs)).committed < usize::MAX,
    ensures
        r.1 == Variable::Committed(circuit_of(old(cs)).committed as usize),
        circuit_of(final(cs)) == circuit_of(old(cs)).with_commitment(r.0@),
        assigned_of(final(cs)) == assigned_of(old(cs)).with_committed(v@, blinding@),
{
    let v = FieldElement::from_bytes_mod_order(v.bytes);
    let blinding = FieldElement::from_bytes_mod_order(blinding.bytes);
    let back = |w| match w {
        Wire::Committed(i) => Variable::Committed(i),
        Wire::MultiplierLeft(i) => Variable::MultiplierLeft(i),
        Wire::MultiplierRight(i) => Variable::MultiplierRight(i),
        Wire::MultiplierOutput(i) => Variable::MultiplierOutput(i),
        Wire::One() => Variable::One,
    };
    let (c, w) = cs.backend.as_mut().ok().unwrap().commit(v, blinding);
    (c.0, back(w))
}

/// Calls `Verifier::commit` with the commitment's 32 bytes. Claimed: the verifier's system
/// gains this commitment as one more committed input, whose wire is returned. No value is
/// assigned.
#[verifier::external_body]
pub(crate) fn verifier_commit(cs: &mut ConstraintSystem, commitment: &[u8; 32]) -> (r: Variable)
    requires
        !circuit_of(old(cs)).proving,
        circuit_of(old(cs)).committed < usize::MAX,
    ensures
        r == Variable::Committed(circuit_of(old(cs)).committed as usize),
        circuit_of(final(cs)) == circuit_of(old(cs)).with_commitment(commitment@),
        assigned_of(final(cs)) == assigned_of(old(cs)),
{
    let back = |w| match w {
        Wire::Committed(i) => Variable::Committed(i),
        Wire::MultiplierLeft(i) => Variable::MultiplierLeft(i),
        Wire::MultiplierRight(i) => Variable::MultiplierRight(i),
        Wire::MultiplierOutput(i) => Variable::MultiplierOutput(i),
        Wire::One() => Variable::One,
    };
    back(cs.backend.as_mut().err().unwrap().commit(CompressedRistretto(*commitment)))
}

/// Calls `ConstraintSystem::allocate_multiplier` of the bulletproofs crate.
/// Claimed: a prover without an assignment refuses with `MissingAssignment` and changes
/// nothing; otherwise the system gains one multiplier, whose three wires are returned, and a
/// prover assigns the two given values to its inputs and their product to its output.
#[verifier::external_body]
pub(crate) fn cs_allocate_multiplier(
    cs: &mut ConstraintSystem,
    assignment: Option<(Scalar, Scalar)>,
) -> (r: Result<(Variable, Variable, Variable), Error>)
    requires
        circuit_of(old(cs)).multipliers < usize::MAX,
    ensures
        r is Err == (circuit_of(old(cs)).proving && assignment is None),
        r matches Err(e) ==> e == Error::MissingAssignment && circuit_of(final(cs)) == circuit_of(
            old(cs),
        ),
        r matches Ok(m) ==> m == circuit_of(old(cs)).next_multiplier() && circuit_of(final(cs))
            == circuit_of(old(cs)).allocated(),
        r is Ok ==> assigned_of(final(cs)) == assigned_of(old(cs)).allocating(
            circuit_of(old(cs)).proving,
            assignment_values(assignment),
        ),
        r is Err ==> assigned_of(final(cs)) == assigned_of(old(cs)),
{
    let a = assignment.map(
        |(l, r)| (FieldElement::from_bytes_mod_order(l.bytes), FieldElement::from_bytes_mod_order(r.bytes)),
    );
    let r = match cs.backend.as_mut() {
        Ok(p) => p.allocate_multiplier(a),
        Err(v) => v.allocate_multiplier(a),
    };
    let back = |w| match w {
        Wire::Committed(i) => Variable::Committed(i),
        Wire::MultiplierLeft(i) => Variable::MultiplierLeft(i),
        Wire::MultiplierRight(i) => Variable::MultiplierRight(i),
        Wire::MultiplierOutput(i) => Variable::MultiplierOutput(i),
        Wire::One() => Variable::One,
    };
    r.map(|(l, r, o)| (back(l), back(r), back(o))).map_err(|_| Error::MissingAssignment)
}

/// Calls `ConstraintSystem::constrain` of the bulletproofs crate.
/// Claimed: the system gains the linear combination as its last constraint, and no value is
/// assigned.
#[verifier::external_body]
pub(crate) fn cs_constrain(cs: &mut ConstraintSystem, lc: LinearCombination)
    requires
        circuit_of(old(cs)).has_terms(terms_of(&lc)),
    ensures
        circuit_of(final(cs)) == circuit_of(old(cs)).constrained(terms_of(&lc)),
        assigned_of(final(cs)) == assigned_of(old(cs)),
{
    match cs.backend.as_mut() {
        Ok(p) => p.constrain(lc),
        Err(v) => v.constrain(lc),
    }
}

/// Calls `ConstraintSystem::metrics` of the bulletproofs crate. Claimed: it counts the
/// multipliers, the linear constraints of the first phase, and the gadgets put off to the
/// second phase.
#[verifier::external_body]
pub(crate) fn cs_metrics(cs: &ConstraintSystem) -> (r: (usize, usize, usize))
    ensures
        r.0 == circuit_of(cs).multipliers,
        r.1 == circuit_of(cs).constraints.len(),
        r.2 == circuit_of(cs).deferred.len(),
{
    let metrics = match cs.backend.as_ref() {
        Ok(p) => p.metrics(),
        Err(v) => v.metrics(),
    };
    (metrics.multipliers, metrics.phase_one_constraints, metrics.phase_two_constraints)
}

/// Calls `specify_randomized_constraints` of the bulletproofs crate with a closure that runs
/// the gadget on the second-phase system. Claimed: the call cannot fail, the system gains
/// the gadget as the last of those put off, and no value is assigned. The wires that the
/// gadget names exist now and a system never loses a wire, so they exist when the closure
/// runs.
#[verifier::external_body]
pub(crate) fn cs_specify_randomized_constraints(cs: &mut ConstraintSystem, gadget: RandomizedGadget)
    requires
        circuit_of(old(cs)).has_gadget(gadget@),
    ensures
        circuit_of(final(cs)) == circuit_of(old(cs)).postponed(gadget@),
        assigned_of(final(cs)) == assigned_of(old(cs)),
{
    let full = |_| R1CSError::GadgetError { description: String::from("constraint system is full") };
    let _ = match cs.backend.as_mut() {
        Ok(p) => p.specify_randomized_constraints(
            move |c| randomize(&mut RandomizedConstraintSystem { inner: c }, gadget).map_err(full),
        ),
        Err(v) => v.specify_randomized_constraints(
            move |c| randomize(&mut RandomizedConstraintSystem { inner: c }, gadget).map_err(full),
        ),
    };
}

/// The error of the bulletproofs crate for constraint systems.
#[verifier::external_type_specification]
#[verifier::external_body]
pub struct ExR1CSError(R1CSError);

/// Why no proof comes of a system and generators of the given capacity, if none does.
/// Only a prover's system yields a proof. The generators must serve the multipliers of the
/// first phase, then every deferred gadget must find room, and then the generators must
/// serve the padded system.
pub open spec fn proving_failure(c: Circuit, capacity: nat) -> Option<Error> {
    if !c.proving {
        Some(Error::MissingAssignment)
    } else if capacity < c.multipliers {
        Some(Error::InvalidGeneratorsLength)
    } else if !completes(c) {
        Some(Error::GadgetError)
    } else if capacity < padded_size(final_multipliers(c)) {
        Some(Error::InvalidGeneratorsLength)
    } else {
        None
    }
}

/// Whether `e` can be the error with which a system and generators of the given capacity
/// refuse a proof. Only a verifier's system accepts one. A proof that does not hold, or is
/// malformed, is refused with `VerificationError`; a deferred gadget that finds no room
/// gives `GadgetError`, and generators that do not serve the padded system
/// `InvalidGeneratorsLength`.
pub open spec fn verifying_failure(c: Circuit, capacity: nat, e: Error) -> bool {
    if c.proving {
        e == Error::MissingAssignment
    } else {
        ||| e == Error::VerificationError
        ||| !completes(c) && e == Error::GadgetError
        ||| completes(c) && capacity < padded_size(final_multipliers(c)) && e
            == Error::InvalidGeneratorsLength
    }
}

/// Calls `Prover::prove`, which takes the generators of the first party and, before it
/// proves, runs every gadget put off on the second-phase system. Claimed: a proof comes
/// back unless the generators are too few or a deferred gadget finds no room, and the error
/// says which; of the proof nothing is claimed, since it is blinded at random.
#[verifier::external_body]
pub(crate) fn cs_prove(cs: ConstraintSystem, bp_gens: &BulletproofGens) -> (r: Result<R1CSProof, Error>)
    requires
        circuit_of(&cs).wf(),
        circuit_of(&cs).proving,
        parties_of(bp_gens) >= 1,
    ensures
        r is Ok == proving_failure(circuit_of(&cs), capacity_of(bp_gens)) is None,
        r matches Err(e) ==> proving_failure(circuit_of(&cs), capacity_of(bp_gens)) == Some(e),
{
    let back = |e| match e {
        R1CSError::InvalidGeneratorsLength => Error::InvalidGeneratorsLength,
        R1CSError::FormatError => Error::FormatError,
        R1CSError::VerificationError => Error::VerificationError,
        R1CSError::MissingAssignment => Error::MissingAssignment,
        R1CSError::GadgetError { .. } => Error::GadgetError,
    };
    cs.backend.ok().unwrap().prove(bp_gens).map_err(back)
}

/// Calls `Verifier::verify`, which takes the generators of the first party and, before it
/// verifies, runs every gadget put off on the second-phase system. Claimed: the system
/// accepts only where every deferred gadget finds room and the generators serve the padded
/// system; the error says what stood in the way. Whether the proof holds is the outside
/// crate's verdict.
#[verifier::external_body]
pub(crate) fn cs_verify(
    cs: ConstraintSystem,
    proof: &R1CSProof,
    pc_gens: &PedersenGens,
    bp_gens: &BulletproofGens,
) -> (r: Result<(), Error>)
    requires
        circuit_of(&cs).wf(),
        !circuit_of(&cs).proving,
        parties_of(bp_gens) >= 1,
    ensures
        r is Ok ==> completes(circuit_of(&cs)) && padded_size(
            final_multipliers(circuit_of(&cs)),
        ) <= capacity_of(bp_gens),
        r matches Err(e) ==> verifying_failure(circuit_of(&cs), capacity_of(bp_gens), e),
{
    let back = |e| match e {
        R1CSError::InvalidGeneratorsLength => Error::InvalidGeneratorsLength,
        R1CSError::FormatError => Error::FormatError,
        R1CSError::VerificationError => Error::VerificationError,
        R1CSError::MissingAssignment => Error::MissingAssignment,
        R1CSError::GadgetError { .. } => Error::GadgetError,
    };
    cs.backend.err().unwrap().verify(proof, pc_gens, bp_gens).map_err(back)
}

/// Calls `ConstraintSystem::multiply` of the bulletproofs crate.
/// Claimed: the system gains one multiplier, whose three wires are returned, and two
/// constraints that bind its inputs to `left` and `right`; a prover assigns the values of
/// `left` and `right` to the inputs and their product to the output. No challenge is drawn.
#[verifier::external_body]
pub(crate) fn rcs_multiply(
    cs: &mut RandomizedConstraintSystem,
    left: LinearCombination,
    right: LinearCombination,
) -> (r: (Variable, Variable, Variable))
    requires
        randomized_circuit_of(old(cs)).multipliers < usize::MAX,
        randomized_circuit_of(old(cs)).has_terms(terms_of(&left)),
        randomized_circuit_of(old(cs)).has_terms(terms_of(&right)),
    ensures
        r == randomized_circuit_of(old(cs)).next_multiplier(),
        randomized_circuit_of(final(cs)) == randomized_circuit_of(old(cs)).multiplied(
            terms_of(&left),
            terms_of(&right),
        ),
        randomized_assigned_of(final(cs)) == randomized_assigned_of(old(cs)).multiplying(
            randomized_circuit_of(old(cs)).proving,
            terms_of(&left),
            terms_of(&right),
        ),
        drawn_of(final(cs)) == drawn_of(old(cs)),
{
    let back = |w| match w {
        Wire::Committed(i) => Variable::Committed(i),
        Wire::MultiplierLeft(i) => Variable::MultiplierLeft(i),
        Wire::MultiplierRight(i) => Variable::MultiplierRight(i),
        Wire::MultiplierOutput(i) => Variable::MultiplierOutput(i),
        Wire::One() => Variable::One,
    };
    let (l, r, o) = cs.inner.multiply(left, right);
    (back(l), back(r), back(o))
}

/// Calls `ConstraintSystem::constrain` of the bulletproofs crate.
/// Claimed: the system gains the linear combination as its last constraint, and no value is
/// assigned.
#[verifier::external_body]
pub(crate) fn rcs_constrain(cs: &mut RandomizedConstraintSystem, lc: LinearCombination)
    requires
        randomized_circuit_of(old(cs)).has_terms(terms_of(&lc)),
    ensures
        randomized_circuit_of(final(cs)) == randomized_circuit_of(old(cs)).constrained(
            terms_of(&lc),
        ),
        randomized_assigned_of(final(cs)) == randomized_assigned_of(old(cs)),
        drawn_of(final(cs)) == drawn_of(old(cs)),
{
    cs.inner.constrain(lc)
}

/// Calls `ConstraintSystem::metrics` of the bulletproofs crate and keeps the number of multipliers.
#[verifier::external_body]
pub(crate) fn rcs_multipliers(cs: &RandomizedConstraintSystem) -> (r: usize)
    ensures
        r == randomized_circuit_of(cs).multipliers,
{
    cs.inner.metrics().multipliers
}

/// Calls `RandomizedConstraintSystem::challenge_scalar` of the bulletproofs crate with the
/// label's bytes. Claimed: one challenge is drawn under this label, the system holds what it
/// held and assigns what it assigned, and the challenge is reduced; its value depends on
/// everything committed so far and is not described.
#[verifier::external_body]
pub(crate) fn rcs_challenge_scalar(
    cs: &mut RandomizedConstraintSystem,
    label: &'static str,
) -> (r: Scalar)
    ensures
        r.is_canonical(),
        randomized_circuit_of(final(cs)) == randomized_circuit_of(old(cs)),
        randomized_assigned_of(final(cs)) == randomized_assigned_of(old(cs)),
        drawn_of(final(cs)) == drawn_of(old(cs)).push(label@),
{
    Scalar { bytes: cs.inner.challenge_scalar(label.as_bytes()).to_bytes() }
}

/// The terms as the constraint system sees them: each coefficient as a field element.
pub open spec fn term_values(terms: Seq<(Variable, Scalar)>) -> Seq<Term> {
    Seq::new(terms.len(), |i: int| (terms[i].0, terms[i].1@))
}

/// Builds the outside crate's linear combination from a list of terms.
pub(crate) fn linear_combination(terms: &Vec<(Variable, Scalar)>) -> (r: LinearCombination)
    ensures
        terms_of(&r) == term_values(terms@),
{
    let mut lc = lc_empty();
    let mut i: usize = 0;
    while i < terms.len()
        invariant
            i <= terms.len(),
            terms_of(&lc) == term_values(terms@.take(i as int)),
        decreases terms.len() - i,
    {
        let t = &terms[i];
        lc = lc_plus(lc, t.0, &t.1);
        assert(term_values(terms@.take(i as int + 1)) =~= term_values(terms@.take(i as int)).push(
            (terms@[i as int].0, terms@[i as int].1@),
        ));
        i = i + 1;
    }
    assert(terms@.take(terms.len() as int) == terms@);
    lc
}

impl<'a> ConstraintSystem<'a> {
    /// The values that a prover's system has assigned to its wires.
    pub open spec fn assigned(&self) -> Witness {
        assigned_of(self)
    }

    /// A prover is on course: it has assigned a value to every wire, the values meet
    /// everything that the system demands so far, and every gadget put off is ready to be met
    /// in the second phase. Of a verifier, which assigns nothing, this asks nothing.
    pub open spec fn met(&self) -> bool {
        self@.proving ==> on_course(self.assigned(), self@)
    }

    /// An empty system for a prover, over a fresh transcript with the given label.
    pub fn new_prover(pc_gens: &'a PedersenGens, label: &'static str) -> (r: ConstraintSystem<'a>)
        ensures
            r@ == Circuit::empty(true, label@),
            r@.wf(),
            r.assigned() == Witness::nothing(),
            r.met(),
    {
        prover_new(pc_gens, transcript_new(label))
    }

    /// An empty system for a verifier, over a fresh transcript with the given label.
    pub fn new_verifier(label: &'static str) -> (r: ConstraintSystem<'a>)
        ensures
            r@ == Circuit::empty(false, label@),
            r@.wf(),
            r.met(),
    {
        verifier_new(transcript_new(label))
    }

    /// Whether the system is a prover's.
    pub fn is_prover(&self) -> (r: bool)
        ensures
            r == self@.proving,
    {
        cs_is_prover(self)
    }

    /// The number of multipliers.
    pub fn multipliers(&self) -> (r: usize)
        ensures
            r == self@.multipliers,
    {
        cs_metrics(self).0
    }

    /// The number of linear constraints added so far.
    pub fn constraints(&self) -> (r: usize)
        ensures
            r == self@.constraints.len(),
    {
        cs_metrics(self).1
    }

    /// The number of gadgets put off to the second phase.
    pub fn deferred(&self) -> (r: usize)
        ensures
            r == self@.deferred.len(),
    {
        cs_metrics(self).2
    }

    /// Commits to `v` under the blinding factor `blinding` and makes the commitment an
    /// external input of the system. Only a prover can do this; a verifier gets `None`.
    pub fn commit(&mut self, v: &Scalar, blinding: &Scalar) -> (r: Option<([u8; 32], Variable)>)
        requires
            old(self)@.wf(),
            old(self)@.committed < usize::MAX,
        ensures
            final(self)@.wf(),
            r is Some == old(self)@.proving,
            r matches Some(c) ==> c.1 == Variable::Committed(old(self)@.committed as usize)
                && final(self)@ == old(self)@.with_commitment(c.0@) && final(self)@.has(c.1),
            r is Some ==> final(self).assigned() == old(self).assigned().with_committed(
                v@,
                blinding@,
            ),
            r is None ==> final(self)@ == old(self)@,
            r is None ==> final(self).assigned() == old(self).assigned(),
            final(self).assigned().extends(old(self).assigned()),
            old(self).met() ==> final(self).met(),
    {
        if !cs_is_prover(self) {
            return None;
        }
        let r = Some(prover_commit(self, v, blinding));
        proof {
            if r is Some {
                lemma_wf_grows(old(self)@, self@);
                if old(self).met() {
                    lemma_order();
                    lemma_mod_bound(
                        le_value(v.bytes@) as int,
                        crate::scalar::order() as int,
                    );
                    lemma_meets_committed(
                        old(self).assigned(),
                        old(self)@,
                        v@,
                        blinding@,
                        r->Some_0.0@,
                    );
                    lemma_on_course_grows(old(self).assigned(), self.assigned(), old(self)@, self@);
                }
            }
        }
        r
    }

    /// Makes a commitment, given as a compressed point, an external input of the system.
    /// Only a verifier can do this; a prover gets `None`.
    pub fn commit_point(&mut self, commitment: &[u8; 32]) -> (r: Option<Variable>)
        requires
            old(self)@.wf(),
            old(self)@.committed < usize::MAX,
        ensures
            final(self)@.wf(),
            r is Some == !old(self)@.proving,
            r matches Some(c) ==> c == Variable::Committed(old(self)@.committed as usize)
                && final(self)@ == old(self)@.with_commitment(commitment@) && final(self)@.has(c),
            r is None ==> final(self)@ == old(self)@,
            final(self).assigned() == old(self).assigned(),
            old(self).met() ==> final(self).met(),
    {
        if cs_is_prover(self) {
            return None;
        }
        let r = Some(verifier_commit(self, commitment));
        proof {
            if r is Some {
                lemma_wf_grows(old(self)@, self@);
            }
        }
        r
    }

    /// Proves that the constraints can be met. Generators made for no party at all are
    /// refused with `InvalidGeneratorsLength`. Otherwise a proof comes back, whatever values
    /// the prover has assigned, unless the system is a verifier's, the generators are too
    /// few for it, or a deferred gadget finds no room.
    pub fn prove(self, bp_gens: &BulletproofGens) -> (r: Result<R1CSProof, Error>)
        requires
            self@.wf(),
        ensures
            r is Ok ==> self@.proving && parties_of(bp_gens) >= 1,
            parties_of(bp_gens) == 0 ==> r is Err && r->Err_0 == Error::InvalidGeneratorsLength,
            parties_of(bp_gens) >= 1 ==> r is Ok == proving_failure(self@, capacity_of(bp_gens)) is None,
            parties_of(bp_gens) >= 1 ==> (r matches Err(e) ==> proving_failure(
                self@,
                capacity_of(bp_gens),
            ) == Some(e)),
    {
        if gens_parties(bp_gens) == 0 {
            return Err(Error::InvalidGeneratorsLength);
        }
        if !cs_is_prover(&self) {
            return Err(Error::MissingAssignment);
        }
        cs_prove(self, bp_gens)
    }

    /// Checks a proof against the constraints. Generators made for no party at all are
    /// refused with `InvalidGeneratorsLength`. Only a verifier's system accepts a proof, and
    /// only where every deferred gadget finds room and the generators suffice; a proof that
    /// does not hold is refused with `VerificationError`.
    pub fn verify(
        self,
        proof: &R1CSProof,
        pc_gens: &PedersenGens,
        bp_gens: &BulletproofGens,
    ) -> (r: Result<(), Error>)
        requires
            self@.wf(),
        ensures
            r is Ok ==> !self@.proving && parties_of(bp_gens) >= 1,
            r is Ok ==> completes(self@) && padded_size(final_multipliers(self@)) <= capacity_of(
                bp_gens,
            ),
            parties_of(bp_gens) == 0 ==> r is Err && r->Err_0 == Error::InvalidGeneratorsLength,
            parties_of(bp_gens) >= 1 ==> (r matches Err(e) ==> verifying_failure(
                self@,
                capacity_of(bp_gens),
                e,
            )),
    {
        if gens_parties(bp_gens) == 0 {
            return Err(Error::InvalidGeneratorsLength);
        }
        if cs_is_prover(&self) {
            return Err(Error::MissingAssignment);
        }
        cs_verify(self, proof, pc_gens, bp_gens)
    }
}

impl<'a> ConstraintSystem<'a> {
    /// Allocates a multiplier with the given inputs, if there are any, and hands back
    /// its left, right and output wires. A prover needs the inputs.
    pub fn allocate_multiplier(
        &mut self,
        assignment: Option<(Scalar, Scalar)>,
    ) -> (r: Result<(Variable, Variable, Variable), Error>)
        requires
            old(self)@.wf(),
            old(self)@.room(1),
        ensures
            final(self)@.wf(),
            r is Err == (old(self)@.proving && assignment is None),
            r matches Err(e) ==> e == Error::MissingAssignment && final(self)@ == old(self)@,
            r matches Ok(m) ==> m == old(self)@.next_multiplier()
                && final(self)@ == old(self)@.allocated()
                && final(self)@.has(m.0)
                && final(self)@.has(m.1)
                && final(self)@.has(m.2),
            r is Ok ==> final(self).assigned() == old(self).assigned().allocating(
                old(self)@.proving,
                assignment_values(assignment),
            ),
            r is Err ==> final(self).assigned() == old(self).assigned(),
            final(self).assigned().extends(old(self).assigned()),
            old(self).met() ==> final(self).met(),
    {
        let r = cs_allocate_multiplier(self, assignment);
        proof {
            lemma_wf_grows(old(self)@, self@);
            if r is Ok && old(self)@.proving && old(self).met() {
                let a = assignment->0;
                lemma_order();
                lemma_mod_bound(
                    le_value(a.0.bytes@) as int,
                    crate::scalar::order() as int,
                );
                lemma_mod_bound(
                    le_value(a.1.bytes@) as int,
                    crate::scalar::order() as int,
                );
                lemma_meets_allocated(old(self).assigned(), old(self)@, a.0@, a.1@);
                lemma_on_course_grows(old(self).assigned(), self.assigned(), old(self)@, self@);
            }
            if r is Ok && !old(self)@.proving {
                assert(final(self).met());
            }
        }
        r
    }

    /// Demands that the linear combination be zero.
    pub fn constrain(&mut self, terms: &Vec<(Variable, Scalar)>)
        requires
            old(self)@.wf(),
            old(self)@.has_terms(term_values(terms@)),
        ensures
            final(self)@.wf(),
            final(self)@ == old(self)@.constrained(term_values(terms@)),
            final(self).assigned() == old(self).assigned(),
            old(self).met() && (old(self)@.proving ==> old(self).assigned().eval(
                term_values(terms@),
            ) == 0) ==> final(self).met(),
    {
        cs_constrain(self, linear_combination(terms));
        proof {
            lemma_wf_grows(old(self)@, self@);
            if old(self)@.proving && old(self).met() && old(self).assigned().eval(
                term_values(terms@),
            ) == 0 {
                lemma_meets_constrained(old(self).assigned(), old(self)@, term_values(terms@));
                lemma_on_course_grows(old(self).assigned(), self.assigned(), old(self)@, self@);
            }
        }
    }

    /// Puts a gadget off to the second phase, when its challenges can be drawn.
    pub fn specify_randomized_constraints(&mut self, gadget: RandomizedGadget)
        requires
            old(self)@.wf(),
            old(self)@.has_gadget(gadget@),
        ensures
            final(self)@.wf(),
            final(self)@ == old(self)@.postponed(gadget@),
            final(self).assigned() == old(self).assigned(),
            old(self).met() && (old(self)@.proving ==> ready(old(self).assigned(), gadget@))
                ==> final(self).met(),
    {
        cs_specify_randomized_constraints(self, gadget);
        proof {
            lemma_wf_grows(old(self)@, self@);
            if old(self)@.proving && old(self).met() && ready(old(self).assigned(), gadget@) {
                lemma_on_course_postponed(old(self).assigned(), old(self)@, gadget@);
            }
        }
    }
}

impl<'a> RandomizedConstraintSystem<'a> {
    /// The values that a prover's system has assigned to its wires.
    pub open spec fn assigned(&self) -> Witness {
        randomized_assigned_of(self)
    }

    /// A prover has assigned a value to every wire, and the values meet everything that the
    /// system demands so far. Of a verifier, which assigns nothing, this asks nothing.
    pub open spec fn met(&self) -> bool {
        self@.proving ==> self.assigned().meets(self@)
    }

    /// The labels under which challenges were drawn so far, in order.
    pub open spec fn drawn(&self) -> Seq<Seq<char>> {
        drawn_of(self)
    }

    /// The number of multipliers.
    pub fn multipliers(&self) -> (r: usize)
        ensures
            r == self@.multipliers,
    {
        rcs_multipliers(self)
    }

    /// Draws a challenge under the given label, bound to everything committed so far.
    pub fn challenge_scalar(&mut self, label: &'static str) -> (r: Scalar)
        ensures
            r.is_canonical(),
            final(self)@ == old(self)@,
            final(self).assigned() == old(self).assigned(),
            final(self).drawn() == old(self).drawn().push(label@),
    {
        rcs_challenge_scalar(self, label)
    }

    /// Allocates a multiplier whose inputs are bound to the two linear combinations,
    /// and hands back its left, right and output wires.
    pub fn multiply(
        &mut self,
        left: &Vec<(Variable, Scalar)>,
        right: &Vec<(Variable, Scalar)>,
    ) -> (r: (Variable, Variable, Variable))
        requires
            old(self)@.room(1),
            old(self)@.has_terms(term_values(left@)),
            old(self)@.has_terms(term_values(right@)),
        ensures
            final(self).drawn() == old(self).drawn(),
            r == old(self)@.next_multiplier(),
            final(self)@ == old(self)@.multiplied(term_values(left@), term_values(right@)),
            old(self)@.wf() ==> final(self)@.wf(),
            final(self)@.has(r.0) && final(self)@.has(r.1) && final(self)@.has(r.2),
            final(self).assigned() == old(self).assigned().multiplying(
                old(self)@.proving,
                term_values(left@),
                term_values(right@),
            ),
            final(self).assigned().extends(old(self).assigned()),
            old(self)@.wf() && old(self).met() ==> final(self).met(),
    {
        let r = rcs_multiply(self, linear_combination(left), linear_combination(right));
        proof {
            lemma_multiplied_wf(old(self)@, term_values(left@), term_values(right@));
            if old(self)@.wf() && old(self)@.proving && old(self).met() {
                lemma_meets_multiplied(
                    old(self).assigned(),
                    old(self)@,
                    term_values(left@),
                    term_values(right@),
                );
            }
        }
        r
    }

    /// Demands that the linear combination be zero.
    pub fn constrain(&mut self, terms: &Vec<(Variable, Scalar)>)
        requires
            old(self)@.has_terms(term_values(terms@)),
        ensures
            final(self).drawn() == old(self).drawn(),
            final(self)@ == old(self)@.constrained(term_values(terms@)),
            old(self)@.wf() ==> final(self)@.wf(),
            final(self).assigned() == old(self).assigned(),
            old(self).met() && (old(self)@.proving ==> old(self).assigned().eval(
                term_values(terms@),
            ) == 0) ==> final(self).met(),
    {
        rcs_constrain(self, linear_combination(terms));
        proof {
            if old(self)@.wf() {
                lemma_wf_grows(old(self)@, self@);
            }
            if old(self)@.proving && old(self).met() && old(self).assigned().eval(
                term_values(terms@),
            ) == 0 {
                lemma_meets_constrained(old(self).assigned(), old(self)@, term_values(terms@));
            }
        }
    }
}

} // verus!
