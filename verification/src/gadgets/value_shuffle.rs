use crate::circuit::Circuit;
use crate::circuit::Deferred;
use crate::circuit::Error;
use crate::circuit::Term;
use crate::circuit::Variable;
use crate::field::lemma_product_mapped;
use crate::field::lemma_product_permutation;
use crate::field::product_by;
use crate::gadgets::product::equal_products;
use crate::gadgets::product::factor_values;
use crate::gadgets::product::lemma_shuffled_demands;
use crate::gadgets::product::shuffled;
use crate::gadgets::randomized::RandomizedGadget;
use crate::gadgets::randomized::ready;
use crate::gadgets::two_shuffle::difference;
use crate::gadgets::two_shuffle::difference_terms;
use crate::r1cs::ConstraintSystem;
use crate::r1cs::RandomizedConstraintSystem;
use crate::r1cs::term_values;
use crate::scalar::Scalar;
use crate::scalar::field_neg;
use crate::scalar::order;
use crate::semantics::Witness;
use crate::semantics::blend;
use crate::semantics::lemma_covered;
use crate::semantics::lemma_eval_combined;
use crate::semantics::lemma_eval_difference;
use crate::semantics::lemma_satisfies_constrained;
use crate::semantics::lemma_satisfies_postponed;
use crate::semantics::lemma_single_reordered;
use crate::semantics::pairs_on;
use crate::soundness::blended_product;
use crate::value::AllocatedValue;
use crate::value::wire_pairs;
use crate::value::wires_of;
use vstd::prelude::*;

verus! {

/// The linear combination `q + w * f - z` of the wires of a value.
pub open spec fn combined(v: (Variable, Variable), w: nat, z: nat) -> Seq<Term> {
    seq![(v.0, 1nat), (v.1, w), (Variable::One, field_neg(z))]
}

/// The factors `q[i] + w * f[i] - z` for the values `x`.
pub open spec fn value_factors(x: Seq<(Variable, Variable)>, w: nat, z: nat) -> Seq<Seq<Term>> {
    Seq::new(x.len(), |i: int| combined(x[i], w, z))
}

/// What the shuffle of values adds in the first phase: nothing for no values, the demands
/// `y[0].q - x[0].q = 0` and `y[0].f - x[0].f = 0` for one value on each side, and else a
/// gadget put off to the second phase.
pub open spec fn value_shuffle_circuit(
    c: Circuit,
    x: Seq<(Variable, Variable)>,
    y: Seq<(Variable, Variable)>,
) -> Circuit {
    if x.len() == 0 {
        c
    } else if x.len() == 1 {
        c.constrained(difference(y[0].0, x[0].0)).constrained(difference(y[0].1, x[0].1))
    } else {
        c.postponed(Deferred::ValueShuffle(x, y))
    }
}

/// What the shuffle of two or more values adds in the second phase, for the challenges `w`
/// and `z`: the demand that the products of `q + w * f - z` over either side be equal.
pub open spec fn value_shuffle_randomized(
    c: Circuit,
    w: nat,
    z: nat,
    x: Seq<(Variable, Variable)>,
    y: Seq<(Variable, Variable)>,
) -> Circuit {
    shuffled(c, value_factors(x, w, z), value_factors(y, w, z))
}

/// Demands that the values `y` be the values `x` in some order. Lists of different lengths
/// are refused with `GadgetError`.
pub fn fill_cs(
    cs: &mut ConstraintSystem,
    x: Vec<AllocatedValue>,
    y: Vec<AllocatedValue>,
) -> (r: Result<(), Error>)
    requires
        old(cs)@.wf(),
        old(cs)@.has_pairs(wires_of(x@)),
        old(cs)@.has_pairs(wires_of(y@)),
    ensures
        final(cs)@.wf(),
        r is Err == (x.len() != y.len()),
        r matches Err(e) ==> e == Error::GadgetError && final(cs)@ == old(cs)@,
        r is Ok ==> final(cs)@ == value_shuffle_circuit(old(cs)@, wires_of(x@), wires_of(y@)),
        final(cs).assigned() == old(cs).assigned(),
        r is Ok && old(cs).met() && (old(cs)@.proving ==> ready(
            old(cs).assigned(),
            Deferred::ValueShuffle(wires_of(x@), wires_of(y@)),
        )) ==> final(cs).met(),
{
    let k = x.len();
    if k != y.len() {
        return Err(Error::GadgetError);
    }
    if k == 0 {
        return Ok(());
    }
    if k == 1 {
        assert(old(cs)@.has(wires_of(x@)[0].0) && old(cs)@.has(wires_of(x@)[0].1));
        assert(old(cs)@.has(wires_of(y@)[0].0) && old(cs)@.has(wires_of(y@)[0].1));
        proof {
            let w = cs.assigned();
            if cs@.proving && cs.met() && ready(
                w,
                Deferred::ValueShuffle(wires_of(x@), wires_of(y@)),
            ) {
                lemma_single_reordered(
                    pairs_on(w, wires_of(y@)),
                    pairs_on(w, wires_of(x@)),
                );
                let yq = wires_of(y@)[0].0;
                let xq = wires_of(x@)[0].0;
                let yf = wires_of(y@)[0].1;
                let xf = wires_of(x@)[0].1;
                assert(w.value(yq) == w.value(xq) && w.value(yf) == w.value(xf));
                lemma_covered(w, cs@, xq);
                lemma_covered(w, cs@, yq);
                lemma_covered(w, cs@, xf);
                lemma_covered(w, cs@, yf);
                lemma_eval_difference(w, yq, xq);
                lemma_eval_difference(w, yf, xf);
            }
        }
        cs.constrain(&difference_terms(y[0].q, x[0].q));
        cs.constrain(&difference_terms(y[0].f, x[0].f));
        return Ok(());
    }
    let x_wires = wire_pairs(&x);
    let y_wires = wire_pairs(&y);
    cs.specify_randomized_constraints(RandomizedGadget::ValueShuffle(x_wires, y_wires));
    Ok(())
}

/// Builds the terms of `q + w * f - z` from `w` and `-z`.
fn combined_terms(v: (Variable, Variable), w: &Scalar, neg_z: &Scalar) -> (r: Vec<(Variable, Scalar)>)
    ensures
        term_values(r@) == seq![(v.0, 1nat), (v.1, w@), (Variable::One, neg_z@)],
{
    let mut r: Vec<(Variable, Scalar)> = Vec::new();
    r.push((v.0, Scalar::one()));
    r.push((v.1, *w));
    r.push((Variable::One, *neg_z));
    assert(term_values(r@) =~= seq![(v.0, 1nat), (v.1, w@), (Variable::One, neg_z@)]);
    r
}

/// Builds the factors `q[i] + w * f[i] - z` from `w` and `-z`.
fn factors(x: &Vec<(Variable, Variable)>, w: &Scalar, neg_z: &Scalar) -> (r: Vec<Vec<(Variable, Scalar)>>)
    ensures
        r.len() == x.len(),
        factor_values(r@) == Seq::new(
            x.len() as nat,
            |i: int| seq![(x@[i].0, 1nat), (x@[i].1, w@), (Variable::One, neg_z@)],
        ),
{
    let mut r: Vec<Vec<(Variable, Scalar)>> = Vec::new();
    let mut i: usize = 0;
    while i < x.len()
        invariant
            i <= x.len(),
            r.len() == i,
            forall|j: int|
                0 <= j < i ==> term_values(#[trigger] r@[j]@) == seq![
                    (x@[j].0, 1nat),
                    (x@[j].1, w@),
                    (Variable::One, neg_z@),
                ],
        decreases x.len() - i,
    {
        r.push(combined_terms(x[i], w, neg_z));
        i = i + 1;
    }
    assert(factor_values(r@) =~= Seq::new(
        x.len() as nat,
        |i: int| seq![(x@[i].0, 1nat), (x@[i].1, w@), (Variable::One, neg_z@)],
    ));
    r
}

/// The second phase of the shuffle of two or more values, for the challenges `w` and `z`.
pub fn fill_randomized_cs(
    cs: &mut RandomizedConstraintSystem,
    w: &Scalar,
    z: &Scalar,
    x: &Vec<(Variable, Variable)>,
    y: &Vec<(Variable, Variable)>,
)
    requires
        x.len() == y.len(),
        x.len() >= 2,
        old(cs)@.room((2 * x.len() - 2) as nat),
        old(cs)@.has_pairs(x@),
        old(cs)@.has_pairs(y@),
    ensures
        final(cs).drawn() == old(cs).drawn(),
        final(cs)@ == value_shuffle_randomized(old(cs)@, w@, z@, x@, y@),
        final(cs)@.multipliers == old(cs)@.multipliers + 2 * x.len() - 2,
        old(cs)@.wf() ==> final(cs)@.wf(),
        final(cs).assigned().extends(old(cs).assigned()),
        old(cs)@.wf() && old(cs).met() && (old(cs)@.proving ==> ready(
            old(cs).assigned(),
            Deferred::ValueShuffle(x@, y@),
        )) ==> final(cs).met(),
{
    let neg_z = z.neg();
    let fx = factors(x, w, &neg_z);
    let fy = factors(y, w, &neg_z);
    proof {
        let a = cs.assigned();
        if cs@.proving && ready(a, Deferred::ValueShuffle(x@, y@)) {
            assert forall|i: int| 0 <= i < x.len() implies a.eval(
                #[trigger] value_factors(x@, w@, z@)[i],
            ) == blend(pairs_on(a, x@)[i], w@, z@) by {
                lemma_eval_combined(a, x@[i], w@, z@);
            }
            assert forall|i: int| 0 <= i < y.len() implies a.eval(
                #[trigger] value_factors(y@, w@, z@)[i],
            ) == blend(pairs_on(a, y@)[i], w@, z@) by {
                lemma_eval_combined(a, y@[i], w@, z@);
            }
            lemma_product_mapped(
                value_factors(x@, w@, z@),
                pairs_on(a, x@),
                |t: Seq<Term>| a.eval(t),
                |v: (nat, nat)| blend(v, w@, z@),
            );
            lemma_product_mapped(
                value_factors(y@, w@, z@),
                pairs_on(a, y@),
                |t: Seq<Term>| a.eval(t),
                |v: (nat, nat)| blend(v, w@, z@),
            );
            lemma_value_shuffle_complete(pairs_on(a, x@), pairs_on(a, y@), w@, z@);
        }
        assert(factor_values(fx@) =~= value_factors(x@, w@, z@));
        assert(factor_values(fy@) =~= value_factors(y@, w@, z@));
        assert forall|i: int| 0 <= i < x.len() implies old(cs)@.has_terms(
            #[trigger] value_factors(x@, w@, z@)[i],
        ) by {
            assert(old(cs)@.has(x@[i].0) && old(cs)@.has(x@[i].1));
        }
        assert forall|i: int| 0 <= i < y.len() implies old(cs)@.has_terms(
            #[trigger] value_factors(y@, w@, z@)[i],
        ) by {
            assert(old(cs)@.has(y@[i].0) && old(cs)@.has(y@[i].1));
        }
    }
    equal_products(cs, &fx, &fy);
}

/// What the shuffle of two or more values demands for the challenges `c` and `z`: a
/// witness that meets the extended system meets the system before, and the product of
/// `q + c * f - z` over the values `(q, f)` on the wires `x` equals that over the values on
/// the wires `y`.
pub proof fn lemma_value_shuffle_demands(
    w: Witness,
    s: Circuit,
    c: nat,
    z: nat,
    x: Seq<(Variable, Variable)>,
    y: Seq<(Variable, Variable)>,
)
    requires
        x.len() == y.len(),
        x.len() >= 2,
        s.room((2 * x.len() - 2) as nat),
        w.satisfies(value_shuffle_randomized(s, c, z, x, y)),
    ensures
        w.satisfies(s),
        product_by(pairs_on(w, x), |v: (nat, nat)| blend(v, c, z)) == product_by(
            pairs_on(w, y),
            |v: (nat, nat)| blend(v, c, z),
        ),
        blended_product(pairs_on(w, x), c, z) == blended_product(pairs_on(w, y), c, z),
{
    let fx = value_factors(x, c, z);
    let fy = value_factors(y, c, z);
    lemma_shuffled_demands(w, s, fx, fy);
    assert forall|i: int| 0 <= i < x.len() implies w.eval(#[trigger] fx[i]) == blend(
        pairs_on(w, x)[i],
        c,
        z,
    ) by {
        lemma_eval_combined(w, x[i], c, z);
    }
    assert forall|i: int| 0 <= i < y.len() implies w.eval(#[trigger] fy[i]) == blend(
        pairs_on(w, y)[i],
        c,
        z,
    ) by {
        lemma_eval_combined(w, y[i], c, z);
    }
    lemma_product_mapped(
        fx,
        pairs_on(w, x),
        |t: Seq<Term>| w.eval(t),
        |v: (nat, nat)| blend(v, c, z),
    );
    lemma_product_mapped(
        fy,
        pairs_on(w, y),
        |t: Seq<Term>| w.eval(t),
        |v: (nat, nat)| blend(v, c, z),
    );
}

/// Whatever the challenges, the products that the shuffle of values compares are equal when
/// one list of (quantity, flavor) values is a reordering of the other.
pub proof fn lemma_value_shuffle_complete(x: Seq<(nat, nat)>, y: Seq<(nat, nat)>, c: nat, z: nat)
    requires
        x.to_multiset() == y.to_multiset(),
    ensures
        product_by(x, |v: (nat, nat)| blend(v, c, z)) == product_by(
            y,
            |v: (nat, nat)| blend(v, c, z),
        ),
{
    lemma_product_permutation(x, y, |v: (nat, nat)| blend(v, c, z));
}

/// What the shuffle of values demands in the first phase: nothing of no values and nothing
/// yet of two or more; of one value on each side, that the two be equal in quantity and in
/// flavor.
pub proof fn lemma_value_shuffle_first_phase(
    w: Witness,
    s: Circuit,
    x: Seq<(Variable, Variable)>,
    y: Seq<(Variable, Variable)>,
)
    requires
        x.len() == y.len(),
        x.len() == 1 ==> w.value(x[0].0) < order() && w.value(x[0].1) < order() && w.value(y[0].0)
            < order() && w.value(y[0].1) < order(),
    ensures
        w.satisfies(value_shuffle_circuit(s, x, y)) == (w.satisfies(s) && (x.len() == 1
            ==> w.value(y[0].0) == w.value(x[0].0) && w.value(y[0].1) == w.value(x[0].1))),
{
    if x.len() == 1 {
        let s1 = s.constrained(difference(y[0].0, x[0].0));
        lemma_satisfies_constrained(w, s1, difference(y[0].1, x[0].1));
        lemma_satisfies_constrained(w, s, difference(y[0].0, x[0].0));
        lemma_eval_difference(w, y[0].0, x[0].0);
        lemma_eval_difference(w, y[0].1, x[0].1);
    } else if x.len() >= 2 {
        lemma_satisfies_postponed(w, s, Deferred::ValueShuffle(x, y));
    }
}

/// The gadget that the shuffle of values puts off to the second phase, if any.
pub open spec fn value_shuffle_gadgets(
    x: Seq<(Variable, Variable)>,
    y: Seq<(Variable, Variable)>,
) -> Seq<Deferred> {
    if x.len() >= 2 {
        seq![Deferred::ValueShuffle(x, y)]
    } else {
        Seq::empty()
    }
}

/// The shuffle of values adds no multiplier in the first phase, and puts off one gadget if
/// there are two or more values.
pub proof fn lemma_value_shuffle_circuit(
    s: Circuit,
    x: Seq<(Variable, Variable)>,
    y: Seq<(Variable, Variable)>,
)
    ensures
        value_shuffle_circuit(s, x, y).multipliers == s.multipliers,
        value_shuffle_circuit(s, x, y).committed == s.committed,
        value_shuffle_circuit(s, x, y).commitments == s.commitments,
        value_shuffle_circuit(s, x, y).proving == s.proving,
        value_shuffle_circuit(s, x, y).deferred == s.deferred + value_shuffle_gadgets(x, y),
{
    assert(value_shuffle_circuit(s, x, y).deferred =~= s.deferred + value_shuffle_gadgets(x, y));
}

} // verus!
