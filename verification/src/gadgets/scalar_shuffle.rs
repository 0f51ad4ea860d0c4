use crate::circuit::Circuit;
use crate::circuit::Deferred;
use crate::circuit::Error;
use crate::circuit::Term;
use crate::circuit::Variable;
use crate::field::field_sub;
use crate::field::lemma_product_mapped;
use crate::field::lemma_product_permutation;
use crate::field::product_by;
use crate::gadgets::product::equal_products;
use crate::gadgets::product::factor_values;
use crate::gadgets::product::lemma_shuffled_demands;
use crate::gadgets::product::shuffled;
use crate::gadgets::randomized::RandomizedGadget;
use crate::gadgets::randomized::ready;
use crate::gadgets::two_shuffle::difference;
use crate::gadgets::two_shuffle::difference_terms;
use crate::gadgets::two_shuffle::minus;
use crate::gadgets::two_shuffle::minus_terms;
use crate::r1cs::ConstraintSystem;
use crate::r1cs::RandomizedConstraintSystem;
use crate::r1cs::term_values;
use crate::scalar::Scalar;
use crate::semantics::Witness;
use crate::semantics::lemma_covered;
use crate::semantics::lemma_eval_difference;
use crate::semantics::lemma_eval_minus;
use crate::semantics::lemma_single_reordered;
use crate::semantics::values_on;
use crate::soundness::shifted_product;
use vstd::prelude::*;

verus! {

/// The factors `x[i] - z` of the polynomial whose roots are the wires `x`.
pub open spec fn scalar_factors(x: Seq<Variable>, z: nat) -> Seq<Seq<Term>> {
    Seq::new(x.len(), |i: int| minus(x[i], z))
}

/// What the shuffle of scalars adds in the first phase: nothing for no wires, the demand
/// `y[0] - x[0] = 0` for one wire on each side, and else a gadget put off to the second phase.
pub open spec fn scalar_shuffle_circuit(c: Circuit, x: Seq<Variable>, y: Seq<Variable>) -> Circuit {
    if x.len() == 0 {
        c
    } else if x.len() == 1 {
        c.constrained(difference(y[0], x[0]))
    } else {
        c.postponed(Deferred::ScalarShuffle(x, y))
    }
}

/// What the shuffle of two or more scalars adds in the second phase, for the challenge `z`:
/// the demand that the products of `x[i] - z` and of `y[i] - z` be equal.
pub open spec fn scalar_shuffle_randomized(
    c: Circuit,
    z: nat,
    x: Seq<Variable>,
    y: Seq<Variable>,
) -> Circuit {
    shuffled(c, scalar_factors(x, z), scalar_factors(y, z))
}

/// Demands that the wires `y` carry the values of the wires `x` in some order.
/// Lists of different lengths are refused with `GadgetError`.
pub fn fill_cs(cs: &mut ConstraintSystem, x: Vec<Variable>, y: Vec<Variable>) -> (r: Result<(), Error>)
    requires
        old(cs)@.wf(),
        old(cs)@.has_wires(x@),
        old(cs)@.has_wires(y@),
    ensures
        final(cs)@.wf(),
        r is Err == (x.len() != y.len()),
        r matches Err(e) ==> e == Error::GadgetError && final(cs)@ == old(cs)@,
        r is Ok ==> final(cs)@ == scalar_shuffle_circuit(old(cs)@, x@, y@),
        final(cs).assigned() == old(cs).assigned(),
        r is Ok && old(cs).met() && (old(cs)@.proving ==> ready(
            old(cs).assigned(),
            Deferred::ScalarShuffle(x@, y@),
        )) ==> final(cs).met(),
{
    let k = x.len();
    if k != y.len() {
        return Err(Error::GadgetError);
    }
    if k == 0 {
        return Ok(());
    }
    if k == 1 {
        assert(old(cs)@.has(x@[0]) && old(cs)@.has(y@[0]));
        proof {
            let w = cs.assigned();
            if cs@.proving && cs.met() && ready(
                w,
                Deferred::ScalarShuffle(x@, y@),
            ) {
                lemma_single_reordered(values_on(w, y@), values_on(w, x@));
                lemma_covered(w, cs@, x@[0]);
                lemma_covered(w, cs@, y@[0]);
                lemma_eval_difference(w, y@[0], x@[0]);
            }
        }
        cs.constrain(&difference_terms(y[0], x[0]));
        return Ok(());
    }
    cs.specify_randomized_constraints(RandomizedGadget::ScalarShuffle(x, y));
    Ok(())
}

/// Builds the factors `x[i] - z` from `-z`.
fn factors(x: &Vec<Variable>, neg_z: &Scalar) -> (r: Vec<Vec<(Variable, Scalar)>>)
    ensures
        r.len() == x.len(),
        factor_values(r@) == Seq::new(
            x.len() as nat,
            |i: int| seq![(x@[i], 1nat), (Variable::One, neg_z@)],
        ),
{
    let mut r: Vec<Vec<(Variable, Scalar)>> = Vec::new();
    let mut i: usize = 0;
    while i < x.len()
        invariant
            i <= x.len(),
            r.len() == i,
            forall|j: int|
                0 <= j < i ==> term_values(#[trigger] r@[j]@) == seq![
                    (x@[j], 1nat),
                    (Variable::One, neg_z@),
                ],
        decreases x.len() - i,
    {
        r.push(minus_terms(x[i], neg_z));
        i = i + 1;
    }
    assert(factor_values(r@) =~= Seq::new(
        x.len() as nat,
        |i: int| seq![(x@[i], 1nat), (Variable::One, neg_z@)],
    ));
    r
}

/// The second phase of the shuffle of two or more scalars, for the challenge `z`.
pub fn fill_randomized_cs(
    cs: &mut RandomizedConstraintSystem,
    z: &Scalar,
    x: &Vec<Variable>,
    y: &Vec<Variable>,
)
    requires
        x.len() == y.len(),
        x.len() >= 2,
        old(cs)@.room((2 * x.len() - 2) as nat),
        old(cs)@.has_wires(x@),
        old(cs)@.has_wires(y@),
    ensures
        final(cs).drawn() == old(cs).drawn(),
        final(cs)@ == scalar_shuffle_randomized(old(cs)@, z@, x@, y@),
        final(cs)@.multipliers == old(cs)@.multipliers + 2 * x.len() - 2,
        old(cs)@.wf() ==> final(cs)@.wf(),
        final(cs).assigned().extends(old(cs).assigned()),
        old(cs)@.wf() && old(cs).met() && (old(cs)@.proving ==> ready(
            old(cs).assigned(),
            Deferred::ScalarShuffle(x@, y@),
        )) ==> final(cs).met(),
{
    let neg_z = z.neg();
    let fx = factors(x, &neg_z);
    let fy = factors(y, &neg_z);
    proof {
        let w = cs.assigned();
        if cs@.proving && ready(w, Deferred::ScalarShuffle(x@, y@)) {
            assert forall|i: int| 0 <= i < x.len() implies w.eval(
                #[trigger] scalar_factors(x@, z@)[i],
            ) == field_sub(values_on(w, x@)[i], z@) by {
                lemma_eval_minus(w, x@[i], z@);
            }
            assert forall|i: int| 0 <= i < y.len() implies w.eval(
                #[trigger] scalar_factors(y@, z@)[i],
            ) == field_sub(values_on(w, y@)[i], z@) by {
                lemma_eval_minus(w, y@[i], z@);
            }
            lemma_product_mapped(
                scalar_factors(x@, z@),
                values_on(w, x@),
                |t: Seq<Term>| w.eval(t),
                |v: nat| field_sub(v, z@),
            );
            lemma_product_mapped(
                scalar_factors(y@, z@),
                values_on(w, y@),
                |t: Seq<Term>| w.eval(t),
                |v: nat| field_sub(v, z@),
            );
            lemma_scalar_shuffle_complete(values_on(w, x@), values_on(w, y@), z@);
        }
        assert(factor_values(fx@) =~= scalar_factors(x@, z@));
        assert(factor_values(fy@) =~= scalar_factors(y@, z@));
        assert forall|i: int| 0 <= i < x.len() implies old(cs)@.has_terms(
            #[trigger] scalar_factors(x@, z@)[i],
        ) by {
            assert(old(cs)@.has(x@[i]));
        }
        assert forall|i: int| 0 <= i < y.len() implies old(cs)@.has_terms(
            #[trigger] scalar_factors(y@, z@)[i],
        ) by {
            assert(old(cs)@.has(y@[i]));
        }
    }
    equal_products(cs, &fx, &fy);
}

/// What the shuffle of two or more scalars demands for the challenge `z`: a witness that
/// meets the extended system meets the system before, and the product of `v - z` over the
/// values `v` on the wires `x` equals that over the values on the wires `y`.
pub proof fn lemma_scalar_shuffle_demands(
    w: Witness,
    c: Circuit,
    z: nat,
    x: Seq<Variable>,
    y: Seq<Variable>,
)
    requires
        x.len() == y.len(),
        x.len() >= 2,
        c.room((2 * x.len() - 2) as nat),
        w.satisfies(scalar_shuffle_randomized(c, z, x, y)),
    ensures
        w.satisfies(c),
        product_by(values_on(w, x), |v: nat| field_sub(v, z)) == product_by(
            values_on(w, y),
            |v: nat| field_sub(v, z),
        ),
        shifted_product(values_on(w, x), z) == shifted_product(values_on(w, y), z),
{
    let fx = scalar_factors(x, z);
    let fy = scalar_factors(y, z);
    lemma_shuffled_demands(w, c, fx, fy);
    assert forall|i: int| 0 <= i < x.len() implies w.eval(#[trigger] fx[i]) == field_sub(
        values_on(w, x)[i],
        z,
    ) by {
        lemma_eval_minus(w, x[i], z);
    }
    assert forall|i: int| 0 <= i < y.len() implies w.eval(#[trigger] fy[i]) == field_sub(
        values_on(w, y)[i],
        z,
    ) by {
        lemma_eval_minus(w, y[i], z);
    }
    lemma_product_mapped(fx, values_on(w, x), |t: Seq<Term>| w.eval(t), |v: nat| field_sub(v, z));
    lemma_product_mapped(fy, values_on(w, y), |t: Seq<Term>| w.eval(t), |v: nat| field_sub(v, z));
}

/// Whatever the challenge, the products that the shuffle of scalars compares are equal when
/// one list of values is a reordering of the other.
pub proof fn lemma_scalar_shuffle_complete(x: Seq<nat>, y: Seq<nat>, z: nat)
    requires
        x.to_multiset() == y.to_multiset(),
    ensures
        product_by(x, |v: nat| field_sub(v, z)) == product_by(y, |v: nat| field_sub(v, z)),
{
    lemma_product_permutation(x, y, |v: nat| field_sub(v, z));
}

} // verus!
