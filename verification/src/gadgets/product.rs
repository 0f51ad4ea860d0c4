use crate::circuit::Circuit;
use crate::circuit::Term;
use crate::circuit::Variable;
use crate::circuit::lemma_has_grows;
use crate::field::lemma_field_mul;
use crate::field::lemma_field_of;
use crate::field::lemma_product_mapped;
use crate::field::product_by;
use crate::gadgets::two_shuffle::difference;
use crate::gadgets::two_shuffle::difference_terms;
use crate::r1cs::RandomizedConstraintSystem;
use crate::r1cs::term_values;
use crate::scalar::Scalar;
use crate::scalar::field_mul;
use crate::semantics::Witness;
use crate::semantics::lemma_covered;
use crate::semantics::lemma_eval_difference;
use crate::semantics::lemma_eval_wire;
use crate::semantics::lemma_extends;
use crate::semantics::lemma_extends_trans;
use crate::semantics::lemma_satisfies_constrained;
use crate::semantics::lemma_satisfies_multiplied;
use crate::semantics::multiplier_holds;
use vstd::prelude::*;

verus! {

/// The linear combination that is a single wire.
pub open spec fn wire(v: Variable) -> Seq<Term> {
    seq![(v, 1nat)]
}

/// The system after the first `n` multipliers of the chain that multiplies the factors up:
/// the first takes the first two factors, each later one the output before it and the next
/// factor.
pub open spec fn chained(c: Circuit, factors: Seq<Seq<Term>>, n: nat) -> Circuit
    decreases n,
{
    if n == 0 {
        c
    } else if n == 1 {
        c.multiplied(factors[0], factors[1])
    } else {
        let p = chained(c, factors, (n - 1) as nat);
        p.multiplied(
            wire(Variable::MultiplierOutput((p.multipliers - 1) as usize)),
            factors[n as int],
        )
    }
}

/// The factors as the constraint system sees them.
pub open spec fn factor_values(factors: Seq<Vec<(Variable, Scalar)>>) -> Seq<Seq<Term>> {
    Seq::new(factors.len(), |i: int| term_values(factors[i]@))
}

/// Every factor is over wires of the system.
pub open spec fn has_factors(c: Circuit, factors: Seq<Seq<Term>>) -> bool {
    forall|i: int| 0 <= i < factors.len() ==> c.has_terms(#[trigger] factors[i])
}

/// A chain adds one multiplier and two constraints per step and nothing else.
pub proof fn lemma_chained(c: Circuit, factors: Seq<Seq<Term>>, n: nat)
    ensures
        chained(c, factors, n).multipliers == c.multipliers + n,
        chained(c, factors, n).committed == c.committed,
        chained(c, factors, n).commitments == c.commitments,
        chained(c, factors, n).proving == c.proving,
        chained(c, factors, n).deferred == c.deferred,
        chained(c, factors, n).constraints.len() == c.constraints.len() + 2 * n,
        chained(c, factors, n).constraints.take(c.constraints.len() as int) == c.constraints,
    decreases n,
{
    if n == 0 {
        assert(c.constraints.take(c.constraints.len() as int) =~= c.constraints);
    } else if n == 1 {
        assert(chained(c, factors, n).constraints.take(c.constraints.len() as int)
            =~= c.constraints);
    } else {
        lemma_chained(c, factors, (n - 1) as nat);
        let p = chained(c, factors, (n - 1) as nat);
        assert(chained(c, factors, n).constraints.take(c.constraints.len() as int)
            =~= p.constraints.take(c.constraints.len() as int));
    }
}

/// Factors over the wires of a system are over the wires of any system that has grown from it.
pub proof fn lemma_has_factors_grows(c: Circuit, d: Circuit, factors: Seq<Seq<Term>>)
    requires
        c.within(d),
        has_factors(c, factors),
    ensures
        has_factors(d, factors),
{
    assert forall|i: int| 0 <= i < factors.len() implies d.has_terms(#[trigger] factors[i]) by {
        let t = factors[i];
        assert(c.has_terms(t));
        assert forall|j: int| 0 <= j < t.len() implies d.has(#[trigger] t[j].0) by {
            lemma_has_grows(c, d, t[j].0);
        }
    }
}

/// Builds the single term `v`.
pub(crate) fn wire_terms(v: Variable) -> (r: Vec<(Variable, Scalar)>)
    ensures
        term_values(r@) == wire(v),
{
    let mut r: Vec<(Variable, Scalar)> = Vec::new();
    r.push((v, Scalar::one()));
    assert(term_values(r@) =~= wire(v));
    r
}

/// Multiplies the factors up with a chain of multipliers and hands back the wire that
/// carries the product.
pub fn product(
    cs: &mut RandomizedConstraintSystem,
    factors: &Vec<Vec<(Variable, Scalar)>>,
) -> (out: Variable)
    requires
        factors.len() >= 2,
        old(cs)@.room((factors.len() - 1) as nat),
        has_factors(old(cs)@, factor_values(factors@)),
    ensures
        final(cs).drawn() == old(cs).drawn(),
        final(cs)@ == chained(old(cs)@, factor_values(factors@), (factors.len() - 1) as nat),
        out == Variable::MultiplierOutput((old(cs)@.multipliers + factors.len() - 2) as usize),
        final(cs)@.has(out),
        old(cs)@.wf() ==> final(cs)@.wf(),
        final(cs).assigned().extends(old(cs).assigned()),
        old(cs)@.wf() && old(cs).met() ==> final(cs).met(),
        old(cs)@.wf() && old(cs).met() && old(cs)@.proving ==> final(cs).assigned().value(out)
            == product_by(factor_values(factors@), |t: Seq<Term>| old(cs).assigned().eval(t)),
{
    let ghost start = cs@;
    let ghost fv = factor_values(factors@);
    let ghost w0 = cs.assigned();
    let ghost ok = start.wf() && cs.met() && start.proving;
    let ghost f = |t: Seq<Term>| w0.eval(t);
    assert(start.has_terms(fv[0]) && start.has_terms(fv[1]));
    let (_, _, first) = cs.multiply(&factors[0], &factors[1]);
    let mut acc = first;
    let mut i: usize = 2;
    proof {
        if ok {
            let two = fv.take(2);
            assert(two.drop_last() =~= fv.take(1));
            assert(fv.take(1).drop_last() =~= Seq::<Seq<Term>>::empty());
            assert(two.last() == fv[1] && fv.take(1).last() == fv[0]);
            assert(product_by(fv.take(1).drop_last(), f) == 1);
            assert(product_by(fv.take(1), f) == field_mul(1, w0.eval(fv[0])));
            assert(product_by(two, f) == field_mul(product_by(fv.take(1), f), w0.eval(fv[1])));
            lemma_field_mul(w0.eval(fv[0]), 1, 1);
            lemma_field_of(w0.sum(fv[0]));
            lemma_field_of(w0.eval(fv[0]) as int);
            assert(w0.output.len() == start.multipliers);
            assert(fv[0] == term_values(factors@[0]@));
            assert(fv[1] == term_values(factors@[1]@));
            let w = cs.assigned();
            assert(w == w0.with_multiplier(w0.eval(fv[0]), w0.eval(fv[1])));
            assert(w.value(first) == w.output[start.multipliers as int]);
            assert(w.output[start.multipliers as int] == field_mul(
                w0.eval(fv[0]),
                w0.eval(fv[1]),
            ));
        }
    }
    while i < factors.len()
        invariant
            cs.drawn() == old(cs).drawn(),
            2 <= i <= factors.len(),
            fv == factor_values(factors@),
            start.room((factors.len() - 1) as nat),
            has_factors(start, fv),
            cs@ == chained(start, fv, (i - 1) as nat),
            acc == Variable::MultiplierOutput((start.multipliers + i - 2) as usize),
            start.wf() ==> cs@.wf(),
            f == (|t: Seq<Term>| w0.eval(t)),
            cs.assigned().extends(w0),
            ok ==> start.wf() && start.proving && w0.aligned(start),
            start.wf() && !start.proving && old(cs).met() ==> cs.met(),
            ok ==> cs.met(),
            ok ==> cs.assigned().value(acc) == product_by(fv.take(i as int), f),
        decreases factors.len() - i,
    {
        proof {
            lemma_chained(start, fv, (i - 1) as nat);
            lemma_has_factors_grows(start, cs@, fv);
            assert(cs@.has_terms(fv[i as int]));
        }
        let prev = wire_terms(acc);
        let ghost w_before = cs.assigned();
        let ghost before = cs@;
        let (_, _, o) = cs.multiply(&prev, &factors[i]);
        proof {
            lemma_extends_trans(w0, w_before, cs.assigned());
            if ok {
                let next = fv.take(i as int + 1);
                assert(next.drop_last() =~= fv.take(i as int));
                assert(next.last() == fv[i as int]);
                lemma_covered(w_before, before, acc);
                lemma_eval_wire(w_before, acc);
                lemma_field_of(w_before.value(acc) as int);
                assert(start.has_terms(fv[i as int]));
                lemma_extends(w0, w_before, start, fv[i as int]);
                assert(w_before.output.len() == before.multipliers);
            }
        }
        acc = o;
        i = i + 1;
    }
    proof {
        lemma_chained(start, fv, (factors.len() - 1) as nat);
        assert(fv.take(factors.len() as int) =~= fv);
    }
    acc
}

/// What a shuffle adds in the second phase: a chain for the product of the factors of one
/// side, a chain for those of the other, and the demand that the two products be equal.
pub open spec fn shuffled(c: Circuit, x: Seq<Seq<Term>>, y: Seq<Seq<Term>>) -> Circuit {
    let cx = chained(c, x, (x.len() - 1) as nat);
    let cy = chained(cx, y, (y.len() - 1) as nat);
    cy.constrained(
        difference(
            Variable::MultiplierOutput((cx.multipliers - 1) as usize),
            Variable::MultiplierOutput((cy.multipliers - 1) as usize),
        ),
    )
}

/// Adds the two chains of a shuffle and the demand that their products be equal.
pub fn equal_products(
    cs: &mut RandomizedConstraintSystem,
    x: &Vec<Vec<(Variable, Scalar)>>,
    y: &Vec<Vec<(Variable, Scalar)>>,
)
    requires
        x.len() >= 2,
        y.len() >= 2,
        old(cs)@.room((x.len() + y.len() - 2) as nat),
        has_factors(old(cs)@, factor_values(x@)),
        has_factors(old(cs)@, factor_values(y@)),
    ensures
        final(cs).drawn() == old(cs).drawn(),
        final(cs)@ == shuffled(old(cs)@, factor_values(x@), factor_values(y@)),
        final(cs)@.multipliers == old(cs)@.multipliers + x.len() + y.len() - 2,
        old(cs)@.wf() ==> final(cs)@.wf(),
        final(cs).assigned().extends(old(cs).assigned()),
        old(cs)@.wf() && old(cs).met() && (old(cs)@.proving ==> product_by(
            factor_values(x@),
            |t: Seq<Term>| old(cs).assigned().eval(t),
        ) == product_by(factor_values(y@), |t: Seq<Term>| old(cs).assigned().eval(t)))
            ==> final(cs).met(),
{
    let ghost start = cs@;
    let ghost w0 = cs.assigned();
    let ghost fx = factor_values(x@);
    let ghost fy = factor_values(y@);
    let ghost ok = start.wf() && cs.met() && start.proving && product_by(
        fx,
        |t: Seq<Term>| w0.eval(t),
    ) == product_by(fy, |t: Seq<Term>| w0.eval(t));
    let x_out = product(cs, x);
    proof {
        lemma_chained(start, fx, (x.len() - 1) as nat);
        lemma_has_factors_grows(start, cs@, fy);
    }
    let ghost middle = cs@;
    let ghost w1 = cs.assigned();
    let y_out = product(cs, y);
    proof {
        lemma_chained(middle, fy, (y.len() - 1) as nat);
        lemma_has_grows(middle, cs@, x_out);
        lemma_extends_trans(w0, w1, cs.assigned());
        if ok {
            let w2 = cs.assigned();
            // the second chain multiplies up the same values as it would have at the start
            assert forall|i: int| 0 <= i < fy.len() implies w1.eval(#[trigger] fy[i]) == w0.eval(
                fy[i],
            ) by {
                assert(start.has_terms(fy[i]));
                lemma_extends(w0, w1, start, fy[i]);
            }
            lemma_product_mapped(fy, fy, |t: Seq<Term>| w1.eval(t), |t: Seq<Term>| w0.eval(t));
            // the first product is still where it was
            lemma_extends(w1, w2, middle, Seq::empty());
            assert(w2.value(x_out) == w2.value(y_out));
            lemma_covered(w2, cs@, x_out);
            lemma_covered(w2, cs@, y_out);
            lemma_eval_difference(w2, x_out, y_out);
        }
    }
    cs.constrain(&difference_terms(x_out, y_out));
}

/// What a chain demands: a witness that meets the system after `n` steps of the chain meets
/// the system before, and the output of the last multiplier carries the product of the values
/// of the first `n + 1` factors.
pub proof fn lemma_chained_demands(w: Witness, c: Circuit, factors: Seq<Seq<Term>>, n: nat)
    requires
        c.room(n),
        n >= 1,
        n < factors.len(),
        w.satisfies(chained(c, factors, n)),
    ensures
        w.satisfies(c),
        multiplier_holds(w, (c.multipliers + n - 1) as nat),
        w.output[c.multipliers + n - 1] == product_by(
            factors.take(n as int + 1),
            |t: Seq<Term>| w.eval(t),
        ),
    decreases n,
{
    let f = |t: Seq<Term>| w.eval(t);
    let head = factors.take(n as int + 1);
    assert(head.drop_last() =~= factors.take(n as int));
    assert(head.last() == factors[n as int]);
    if n == 1 {
        lemma_satisfies_multiplied(w, c, factors[0], factors[1]);
        let one = factors.take(1);
        assert(one.drop_last() =~= Seq::<Seq<Term>>::empty());
        assert(one.last() == factors[0]);
        assert(product_by(one.drop_last(), f) == 1);
        assert(product_by(one, f) == field_mul(1, w.eval(factors[0])));
        lemma_field_mul(w.eval(factors[0]), 1, 1);
        lemma_field_of(w.sum(factors[0]));
        lemma_field_of(w.eval(factors[0]) as int);
    } else {
        let p = chained(c, factors, (n - 1) as nat);
        lemma_chained(c, factors, (n - 1) as nat);
        let prev = Variable::MultiplierOutput((p.multipliers - 1) as usize);
        lemma_satisfies_multiplied(w, p, wire(prev), factors[n as int]);
        lemma_chained_demands(w, c, factors, (n - 1) as nat);
        lemma_eval_wire(w, prev);
        lemma_field_of(w.value(prev) as int);
    }
}

/// What a shuffle demands in the second phase: a witness that meets the extended system
/// meets the system before, and the products of the values of the factors of either side
/// are equal.
pub proof fn lemma_shuffled_demands(w: Witness, c: Circuit, x: Seq<Seq<Term>>, y: Seq<Seq<Term>>)
    requires
        x.len() >= 2,
        y.len() >= 2,
        c.room((x.len() + y.len() - 2) as nat),
        w.satisfies(shuffled(c, x, y)),
    ensures
        w.satisfies(c),
        product_by(x, |t: Seq<Term>| w.eval(t)) == product_by(y, |t: Seq<Term>| w.eval(t)),
{
    let cx = chained(c, x, (x.len() - 1) as nat);
    let cy = chained(cx, y, (y.len() - 1) as nat);
    lemma_chained(c, x, (x.len() - 1) as nat);
    lemma_chained(cx, y, (y.len() - 1) as nat);
    let x_out = Variable::MultiplierOutput((cx.multipliers - 1) as usize);
    let y_out = Variable::MultiplierOutput((cy.multipliers - 1) as usize);
    lemma_satisfies_constrained(w, cy, difference(x_out, y_out));
    lemma_chained_demands(w, cx, y, (y.len() - 1) as nat);
    lemma_chained_demands(w, c, x, (x.len() - 1) as nat);
    lemma_eval_difference(w, x_out, y_out);
    assert(x.take(x.len() as int) =~= x);
    assert(y.take(y.len() as int) =~= y);
}

} // verus!
