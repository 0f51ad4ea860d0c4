use bulletproofs::PedersenGens;
use bulletproofs::r1cs::R1CSProof;
use crate::circuit::Circuit;
use crate::circuit::Deferred;
use crate::circuit::Error;
use crate::circuit::Variable;
use crate::circuit::doubled_up_to;
use crate::circuit::padded_size;
use crate::field::field_sub;
use crate::field::lemma_field_congruent;
use crate::field::lemma_field_mul;
use crate::field::lemma_field_mul_of;
use crate::field::lemma_field_of;
use crate::field::lemma_field_of_reduce;
use crate::gadgets::randomized::RandomizedGadget;
use crate::gadgets::randomized::completes;
use crate::gadgets::randomized::deferred_multipliers;
use crate::gadgets::randomized::final_multipliers;
use crate::gadgets::randomized::multipliers_of;
use crate::gadgets::randomized::ready;
use crate::gadgets::range_proof::no_zero_divisors;
use crate::r1cs::ConstraintSystem;
use crate::r1cs::RandomizedConstraintSystem;
use crate::r1cs::assigned_of;
use crate::r1cs::bulletproof_gens;
use crate::r1cs::circuit_of;
use crate::r1cs::committed_to;
use crate::r1cs::pedersen_gens;
use crate::r1cs::term_values;
use crate::scalar::Scalar;
use crate::scalar::field_mul;
use crate::scalar::field_neg;
use crate::scalar::field_of;
use crate::scalar::lemma_order;
use crate::scalar::order;
use crate::semantics::Witness;
use crate::semantics::lemma_covered;
use crate::semantics::lemma_eval_difference;
use crate::semantics::lemma_eval_minus;
use crate::semantics::lemma_extends;
use crate::semantics::lemma_extends_trans;
use crate::semantics::lemma_satisfies_constrained;
use crate::semantics::lemma_satisfies_multiplied;
use crate::semantics::multiplier_holds;
use vstd::prelude::*;

verus! {

/// The linear combination `v - z`.
pub open spec fn minus(v: Variable, z: nat) -> Seq<(Variable, nat)> {
    seq![(v, 1nat), (Variable::One, field_neg(z))]
}

/// The linear combination `u - v`.
pub open spec fn difference(u: Variable, v: Variable) -> Seq<(Variable, nat)> {
    seq![(u, 1nat), (v, field_neg(1))]
}

/// What the two-shuffle adds for the challenge `z`: the products `(a - z)(b - z)` and
/// `(c - z)(d - z)`, and the demand that their outputs be equal.
pub open spec fn two_shuffle_circuit(
    s: Circuit,
    z: nat,
    a: Variable,
    b: Variable,
    c: Variable,
    d: Variable,
) -> Circuit {
    let s1 = s.multiplied(minus(a, z), minus(b, z));
    let s2 = s1.multiplied(minus(c, z), minus(d, z));
    s2.constrained(difference(s.next_multiplier().2, s1.next_multiplier().2))
}

/// Builds the terms of `v - z` from `-z`.
pub(crate) fn minus_terms(v: Variable, neg_z: &Scalar) -> (r: Vec<(Variable, Scalar)>)
    ensures
        term_values(r@) == seq![(v, 1nat), (Variable::One, neg_z@)],
{
    let mut r: Vec<(Variable, Scalar)> = Vec::new();
    r.push((v, Scalar::one()));
    r.push((Variable::One, *neg_z));
    assert(term_values(r@) =~= seq![(v, 1nat), (Variable::One, neg_z@)]);
    r
}

/// Builds the terms of `u - v`.
pub(crate) fn difference_terms(u: Variable, v: Variable) -> (r: Vec<(Variable, Scalar)>)
    ensures
        term_values(r@) == difference(u, v),
{
    let mut r: Vec<(Variable, Scalar)> = Vec::new();
    r.push((u, Scalar::one()));
    r.push((v, Scalar::one().neg()));
    assert(term_values(r@) =~= difference(u, v));
    r
}

/// Demands that the wires `c, d` carry the values of the wires `a, b` in some order.
/// The constraints need a challenge, so the gadget is put off to the second phase.
pub fn two_shuffle(
    cs: &mut ConstraintSystem,
    a: Variable,
    b: Variable,
    c: Variable,
    d: Variable,
) -> (r: Result<(), Error>)
    requires
        old(cs)@.wf(),
        old(cs)@.has(a),
        old(cs)@.has(b),
        old(cs)@.has(c),
        old(cs)@.has(d),
    ensures
        r is Ok,
        final(cs)@ == old(cs)@.postponed(Deferred::TwoShuffle(a, b, c, d)),
        final(cs)@.wf(),
        final(cs).assigned() == old(cs).assigned(),
        old(cs).met() && (old(cs)@.proving ==> ready(
            old(cs).assigned(),
            Deferred::TwoShuffle(a, b, c, d),
        )) ==> final(cs).met(),
{
    cs.specify_randomized_constraints(RandomizedGadget::TwoShuffle(a, b, c, d));
    Ok(())
}

/// The second phase of the two-shuffle, for the challenge `z`.
pub fn two_shuffle_with(
    cs: &mut RandomizedConstraintSystem,
    z: &Scalar,
    a: Variable,
    b: Variable,
    c: Variable,
    d: Variable,
)
    requires
        old(cs)@.room(2),
        old(cs)@.has(a),
        old(cs)@.has(b),
        old(cs)@.has(c),
        old(cs)@.has(d),
    ensures
        final(cs).drawn() == old(cs).drawn(),
        final(cs)@ == two_shuffle_circuit(old(cs)@, z@, a, b, c, d),
        old(cs)@.wf() ==> final(cs)@.wf(),
        final(cs).assigned().extends(old(cs).assigned()),
        old(cs)@.wf() && old(cs).met() && (old(cs)@.proving ==> ready(
            old(cs).assigned(),
            Deferred::TwoShuffle(a, b, c, d),
        )) ==> final(cs).met(),
{
    let ghost w0 = cs.assigned();
    let ghost start = cs@;
    let neg_z = z.neg();
    let (_, _, input_mul) = cs.multiply(&minus_terms(a, &neg_z), &minus_terms(b, &neg_z));
    let ghost w1 = cs.assigned();
    let ghost middle = cs@;
    let (_, _, output_mul) = cs.multiply(&minus_terms(c, &neg_z), &minus_terms(d, &neg_z));
    proof {
        lemma_extends_trans(w0, w1, cs.assigned());
        if start.wf() && start.proving && old(cs).met() && ready(
            w0,
            Deferred::TwoShuffle(a, b, c, d),
        ) {
            let w2 = cs.assigned();
            lemma_eval_minus(w0, a, z@);
            lemma_eval_minus(w0, b, z@);
            lemma_eval_minus(w1, c, z@);
            lemma_eval_minus(w1, d, z@);
            lemma_extends(w0, w1, start, Seq::empty());
            lemma_extends(w1, w2, middle, Seq::empty());
            lemma_two_shuffle_complete(w0.value(a), w0.value(b), w0.value(c), w0.value(d), z@);
            assert(w0.output.len() == start.multipliers);
            assert(w1.output.len() == middle.multipliers);
            assert(w2.value(input_mul) == w2.value(output_mul));
            lemma_covered(w2, cs@, input_mul);
            lemma_covered(w2, cs@, output_mul);
            lemma_eval_difference(w2, input_mul, output_mul);
        }
    }
    cs.constrain(&difference_terms(input_mul, output_mul));
}

/// The system of the two-shuffle over four commitments, made over a transcript of its own
/// label: the commitments to `a, b, c, d` are its four external inputs, in this order, and
/// the gadget over their wires is put off. Prover and verifier build the same system.
pub open spec fn committed_shuffle(proving: bool, commitments: Seq<Seq<u8>>) -> Circuit {
    Circuit { committed: 4, commitments, ..Circuit::empty(proving, "ShuffleTest"@) }.postponed(
        Deferred::TwoShuffle(
            Variable::Committed(0),
            Variable::Committed(1),
            Variable::Committed(2),
            Variable::Committed(3),
        ),
    )
}

/// Builds the prover's system of the two-shuffle: commits to the four scalars under fresh
/// random blinding factors and adds the gadget. Hands back the system and the four
/// commitments.
///
/// The prover is on course if `c, d` are `a, b` in some order.
pub fn prover_for<'a>(
    pc_gens: &'a PedersenGens,
    a: &Scalar,
    b: &Scalar,
    c: &Scalar,
    d: &Scalar,
) -> (r: Result<(ConstraintSystem<'a>, [u8; 32], [u8; 32], [u8; 32], [u8; 32]), Error>)
    ensures
        r is Ok,
        r matches Ok(p) ==> p.0@ == committed_shuffle(true, seq![p.1@, p.2@, p.3@, p.4@])
            && p.0@.wf(),
        r matches Ok(p) ==> p.0.assigned().committed == seq![a@, b@, c@, d@],
        r matches Ok(p) ==> p.0.assigned().blindings.len() == 4,
        r matches Ok(p) ==> ((c@ == a@ && d@ == b@) || (c@ == b@ && d@ == a@) ==> p.0.met()),
{
    let mut prover = ConstraintSystem::new_prover(pc_gens, "ShuffleTest");
    let a_pair = prover.commit(a, &Scalar::random());
    let b_pair = prover.commit(b, &Scalar::random());
    let c_pair = prover.commit(c, &Scalar::random());
    let d_pair = prover.commit(d, &Scalar::random());
    match (a_pair, b_pair, c_pair, d_pair) {
        (Some((a_com, a_var)), Some((b_com, b_var)), Some((c_com, c_var)), Some((d_com, d_var))) => {
            proof {
                let w = prover.assigned();
                assert(w.committed =~= seq![a@, b@, c@, d@]);
                assert(w.blindings.len() == 4);
                assert(prover@.commitments =~= seq![a_com@, b_com@, c_com@, d_com@]);
                assert(w.value(a_var) == a@);
                assert(w.value(b_var) == b@);
                assert(w.value(c_var) == c@);
                assert(w.value(d_var) == d@);
            }
            two_shuffle(&mut prover, a_var, b_var, c_var, d_var)?;
            Ok((prover, a_com, b_com, c_com, d_com))
        },
        _ => Err(Error::MissingAssignment),
    }
}

/// Builds the verifier's system of the two-shuffle: takes the four commitments as external
/// inputs and adds the gadget.
pub fn verifier_for<'a>(
    a_com: &[u8; 32],
    b_com: &[u8; 32],
    c_com: &[u8; 32],
    d_com: &[u8; 32],
) -> (r: Result<ConstraintSystem<'a>, Error>)
    ensures
        r is Ok,
        r matches Ok(cs) ==> cs@ == committed_shuffle(false, seq![a_com@, b_com@, c_com@, d_com@])
            && cs@.wf(),
{
    let mut verifier = ConstraintSystem::new_verifier("ShuffleTest");
    let a_var = verifier.commit_point(a_com);
    let b_var = verifier.commit_point(b_com);
    let c_var = verifier.commit_point(c_com);
    let d_var = verifier.commit_point(d_com);
    match (a_var, b_var, c_var, d_var) {
        (Some(a_var), Some(b_var), Some(c_var), Some(d_var)) => {
            proof {
                assert(verifier@.commitments =~= seq![a_com@, b_com@, c_com@, d_com@]);
            }
            two_shuffle(&mut verifier, a_var, b_var, c_var, d_var)?;
            Ok(verifier)
        },
        _ => Err(Error::MissingAssignment),
    }
}

/// The system of the two-shuffle over four commitments has two multipliers once its
/// deferred gadget has run, and is padded to two.
pub proof fn lemma_committed_shuffle_size(proving: bool, commitments: Seq<Seq<u8>>)
    ensures
        committed_shuffle(proving, commitments).proving == proving,
        committed_shuffle(proving, commitments).multipliers == 0,
        final_multipliers(committed_shuffle(proving, commitments)) == 2,
        completes(committed_shuffle(proving, commitments)),
        padded_size(final_multipliers(committed_shuffle(proving, commitments))) == 2,
{
    let c = committed_shuffle(proving, commitments);
    assert(c.deferred.len() == 1);
    assert(deferred_multipliers(c.deferred, 1) == deferred_multipliers(c.deferred, 0)
        + multipliers_of(c.deferred[0]));
    assert(deferred_multipliers(c.deferred, 0) == 0);
    assert(doubled_up_to(1, 2) == doubled_up_to(2, 2));
}

/// Commits to the four scalars under fresh random blinding factors and proves that `{c, d}`
/// is a reordering of `{a, b}`. Hands back the proof and the four commitments.
///
/// A proof comes back whatever the scalars are; one for scalars that are no reordering does
/// not verify. The four commitments are those that the prover's system made for `a, b, c, d`,
/// in this order, each under a blinding factor of its own draw.
pub fn prove(a: Scalar, b: Scalar, c: Scalar, d: Scalar) -> (r: Result<
    (R1CSProof, [u8; 32], [u8; 32], [u8; 32], [u8; 32]),
    Error,
>)
    ensures
        r is Ok,
        r matches Ok(p) ==> exists|blindings: Seq<nat>|
            #[trigger] blindings.len() == 4 && committed_to(
                seq![p.1@, p.2@, p.3@, p.4@],
                seq![a@, b@, c@, d@],
                blindings,
            ),
{
    let pc_gens = pedersen_gens();
    let bp_gens = bulletproof_gens(128);
    let (prover, a_com, b_com, c_com, d_com) = prover_for(&pc_gens, &a, &b, &c, &d)?;
    proof {
        lemma_committed_shuffle_size(true, seq![a_com@, b_com@, c_com@, d_com@]);
        assert(circuit_of(&prover).commitments == seq![a_com@, b_com@, c_com@, d_com@]);
        assert(committed_to(
            seq![a_com@, b_com@, c_com@, d_com@],
            seq![a@, b@, c@, d@],
            assigned_of(&prover).blindings,
        ));
        assert(assigned_of(&prover).blindings.len() == 4);
    }
    let proof = prover.prove(&bp_gens)?;
    Ok((proof, a_com, b_com, c_com, d_com))
}

/// Checks a proof that the scalars committed to in `c_com, d_com` are those committed to in
/// `a_com, b_com` in some order.
///
/// Whether the proof holds is for the proof system to say; one that it refuses is refused
/// with `VerificationError`, and there is no other error.
pub fn verify(
    proof: R1CSProof,
    a_com: [u8; 32],
    b_com: [u8; 32],
    c_com: [u8; 32],
    d_com: [u8; 32],
) -> (r: Result<(), Error>)
    ensures
        r matches Err(e) ==> e == Error::VerificationError,
{
    let pc_gens = pedersen_gens();
    let bp_gens = bulletproof_gens(128);
    let verifier = verifier_for(&a_com, &b_com, &c_com, &d_com)?;
    proof {
        lemma_committed_shuffle_size(false, seq![a_com@, b_com@, c_com@, d_com@]);
    }
    verifier.verify(&proof, &pc_gens, &bp_gens)
}

/// What the two-shuffle demands of the values `a, b, c, d` for the challenge `z`:
/// `(a - z)(b - z) = (c - z)(d - z)` in the field.
pub open spec fn products_agree(a: nat, b: nat, c: nat, d: nat, z: nat) -> bool {
    field_mul(field_sub(a, z), field_sub(b, z)) == field_mul(field_sub(c, z), field_sub(d, z))
}

/// Over the integers, `(a - z)(b - z) - (c - z)(d - z) = (ab - cd) - (a + b - c - d) z`: the
/// squares of `z` cancel.
pub proof fn lemma_difference_of_products(a: int, b: int, c: int, d: int, z: int)
    ensures
        (a - z) * (b - z) - (c - z) * (d - z) == (a * b - c * d) - (a + b - c - d) * z,
{
    assert((a - z) * (b - z) == a * b - (a + b) * z + z * z) by (nonlinear_arith);
    assert((c - z) * (d - z) == c * d - (c + d) * z + z * z) by (nonlinear_arith);
    assert((a + b - c - d) * z == (a + b) * z - (c + d) * z) by (nonlinear_arith);
}

/// In a field without zero divisors a two-shuffle of values that are no reordering holds for
/// one challenge at most: if it holds for two challenges that differ, then `c, d` are `a, b`
/// in some order. So values that are no reordering pass for at most one of the challenges
/// that can be drawn.
pub proof fn lemma_two_shuffle_sound(a: nat, b: nat, c: nat, d: nat, y: nat, z: nat)
    requires
        no_zero_divisors(),
        a < order(),
        b < order(),
        c < order(),
        d < order(),
        y < order(),
        z < order(),
        y != z,
        products_agree(a, b, c, d, y),
        products_agree(a, b, c, d, z),
    ensures
        (c == a && d == b) || (c == b && d == a),
{
    let s = a + b - c - d;
    let e = a * b - c * d;
    let at_y = (a - y) * (b - y) - (c - y) * (d - y);
    let at_z = (a - z) * (b - z) - (c - z) * (d - z);
    lemma_order();
    lemma_field_of(0);
    // both challenges are roots of the difference of the two products
    lemma_field_mul_of(a - y, b - y);
    lemma_field_mul_of(c - y, d - y);
    lemma_field_congruent((a - y) * (b - y), (c - y) * (d - y));
    lemma_field_mul_of(a - z, b - z);
    lemma_field_mul_of(c - z, d - z);
    lemma_field_congruent((a - z) * (b - z), (c - z) * (d - z));
    assert(field_of(at_y) == 0 && field_of(at_z) == 0);
    // so the sums agree
    lemma_difference_of_products(a as int, b as int, c as int, d as int, y as int);
    lemma_difference_of_products(a as int, b as int, c as int, d as int, z as int);
    assert(at_y == e - s * y);
    assert(at_z == e - s * z);
    assert(s * (z - y) == s * z - s * y) by (nonlinear_arith);
    lemma_field_congruent(at_y, at_z);
    lemma_field_mul_of(s, z - y);
    lemma_field_of(s);
    lemma_field_of(z - y);
    lemma_field_congruent(z as int, y as int);
    lemma_field_of(z as int);
    lemma_field_of(y as int);
    assert(field_of(z - y) != 0);
    assert(field_of(s) == 0);
    // and the products agree
    lemma_field_of_reduce(s, z as int);
    assert(0 * (z as int) == 0);
    assert(field_of(s * z) == 0);
    lemma_field_of_reduce(at_z, s * z);
    lemma_field_of_reduce(0, s * z);
    assert(field_of(e) == 0);
    // so `a` is a root of `(x - c)(x - d)`
    assert((a - c) * (a - d) == a * a - (c + d) * a + c * d) by (nonlinear_arith);
    assert(a * s == a * a + a * b - (c + d) * a) by (nonlinear_arith)
        requires
            s == a + b - c - d,
    ;
    assert((a - c) * (a - d) == a * s - e);
    lemma_field_of_reduce(a as int, s);
    assert((a as int) * 0 == 0);
    assert(field_of(a * s) == 0);
    lemma_field_congruent(a * s, e);
    lemma_field_mul_of(a - c, a - d);
    lemma_field_of(a - c);
    lemma_field_of(a - d);
    assert(field_of(a - c) == 0 || field_of(a - d) == 0);
    lemma_field_of(a as int);
    lemma_field_of(b as int);
    lemma_field_of(c as int);
    lemma_field_of(d as int);
    if field_of(a - c) == 0 {
        lemma_field_congruent(a as int, c as int);
        assert(a == c);
        assert(s == b - d);
        lemma_field_congruent(b as int, d as int);
    } else {
        lemma_field_congruent(a as int, d as int);
        assert(a == d);
        assert(s == b - c);
        lemma_field_congruent(b as int, c as int);
    }
}

/// What the two-shuffle demands for the challenge `z`: a witness meets the extended system
/// exactly when it meets the system before, the two new multipliers compute
/// `(a - z)(b - z)` and `(c - z)(d - z)`, and the two products are equal.
pub proof fn lemma_two_shuffle_demands(
    w: Witness,
    s: Circuit,
    z: nat,
    a: Variable,
    b: Variable,
    c: Variable,
    d: Variable,
)
    requires
        s.room(2),
    ensures
        w.satisfies(two_shuffle_circuit(s, z, a, b, c, d)) == {
            let n = s.multipliers as int;
            &&& w.satisfies(s)
            &&& multiplier_holds(w, s.multipliers)
            &&& multiplier_holds(w, s.multipliers + 1)
            &&& w.left[n] == field_sub(w.value(a), z)
            &&& w.right[n] == field_sub(w.value(b), z)
            &&& w.left[n + 1] == field_sub(w.value(c), z)
            &&& w.right[n + 1] == field_sub(w.value(d), z)
            &&& w.output[n] == w.output[n + 1]
        },
        w.satisfies(two_shuffle_circuit(s, z, a, b, c, d)) ==> field_mul(
            field_sub(w.value(a), z),
            field_sub(w.value(b), z),
        ) == field_mul(field_sub(w.value(c), z), field_sub(w.value(d), z)),
{
    let n = s.multipliers as int;
    let s1 = s.multiplied(minus(a, z), minus(b, z));
    let s2 = s1.multiplied(minus(c, z), minus(d, z));
    let last = difference(s.next_multiplier().2, s1.next_multiplier().2);
    lemma_satisfies_constrained(w, s2, last);
    lemma_satisfies_multiplied(w, s1, minus(c, z), minus(d, z));
    lemma_satisfies_multiplied(w, s, minus(a, z), minus(b, z));
    lemma_eval_minus(w, a, z);
    lemma_eval_minus(w, b, z);
    lemma_eval_minus(w, c, z);
    lemma_eval_minus(w, d, z);
    if multiplier_holds(w, s.multipliers) && multiplier_holds(w, s.multipliers + 1) {
        lemma_eval_difference(w, s.next_multiplier().2, s1.next_multiplier().2);
    }
}

/// Whatever the challenge, the products that the two-shuffle compares are equal when
/// `c, d` carry the values of `a, b` in either order.
pub proof fn lemma_two_shuffle_complete(a: nat, b: nat, c: nat, d: nat, z: nat)
    requires
        (c == a && d == b) || (c == b && d == a),
    ensures
        field_mul(field_sub(a, z), field_sub(b, z)) == field_mul(field_sub(c, z), field_sub(d, z)),
{
    lemma_field_mul(field_sub(a, z), field_sub(b, z), 0);
}

} // verus!
