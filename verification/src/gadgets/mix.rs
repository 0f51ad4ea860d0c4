use crate::circuit::Circuit;
use crate::circuit::Deferred;
use crate::circuit::Error;
use crate::circuit::Term;
use crate::circuit::Variable;
use crate::field::lemma_field_mul;
use crate::field::lemma_field_of;
use crate::gadgets::product::wire;
use crate::gadgets::product::wire_terms;
use crate::gadgets::randomized::RandomizedGadget;
use crate::gadgets::randomized::ready;
use crate::r1cs::ConstraintSystem;
use crate::r1cs::RandomizedConstraintSystem;
use crate::r1cs::term_values;
use crate::scalar::Scalar;
use crate::scalar::field_add;
use crate::scalar::field_mul;
use crate::scalar::field_neg;
use crate::scalar::field_of;
use crate::scalar::lemma_order;
use crate::scalar::order;
use crate::semantics::Witness;
use crate::semantics::lemma_eval_wire;
use crate::semantics::lemma_neg_coefficient;
use crate::semantics::lemma_satisfies_constrained;
use crate::semantics::lemma_satisfies_multiplied;
use crate::semantics::lemma_sum_push;
use crate::value::AllocatedValue;
use vstd::arithmetic::div_mod::lemma_fundamental_div_mod;
use vstd::arithmetic::div_mod::lemma_mod_multiples_vanish;
use vstd::prelude::*;

verus! {

/// The combination that is zero when `a, b` are passed on as `c, d`:
/// `(a.q - c.q) + (a.f - c.f) w + (b.q - d.q) w^2 + (b.f - d.f) w^3`.
pub open spec fn pass_terms(
    w: nat,
    a: (Variable, Variable),
    b: (Variable, Variable),
    c: (Variable, Variable),
    d: (Variable, Variable),
) -> Seq<Term> {
    let w2 = field_mul(w, w);
    let w3 = field_mul(w2, w);
    seq![
        (a.0, 1nat),
        (c.0, field_neg(1)),
        (a.1, w),
        (c.1, field_neg(w)),
        (b.0, w2),
        (d.0, field_neg(w2)),
        (b.1, w3),
        (d.1, field_neg(w3)),
    ]
}

/// The combination that is zero when `a, b` are merged into `d` and `c` is zero:
/// `c.q + (a.f - b.f) w + (d.q - a.q - b.q) w^2 + (d.f - a.f) w^3 + c.f w^4`.
pub open spec fn merge_terms(
    w: nat,
    a: (Variable, Variable),
    b: (Variable, Variable),
    c: (Variable, Variable),
    d: (Variable, Variable),
) -> Seq<Term> {
    let w2 = field_mul(w, w);
    let w3 = field_mul(w2, w);
    let w4 = field_mul(w3, w);
    seq![
        (c.0, 1nat),
        (a.1, w),
        (b.1, field_neg(w)),
        (d.0, w2),
        (a.0, field_neg(w2)),
        (b.0, field_neg(w2)),
        (d.1, w3),
        (a.1, field_neg(w3)),
        (c.1, w4),
    ]
}

/// What a mix adds in the second phase, for the challenge `w`: one multiplier whose inputs are
/// the two combinations above, and the demand that its output be zero.
pub open spec fn mix_circuit(
    s: Circuit,
    w: nat,
    a: (Variable, Variable),
    b: (Variable, Variable),
    c: (Variable, Variable),
    d: (Variable, Variable),
) -> Circuit {
    s.multiplied(pass_terms(w, a, b, c, d), merge_terms(w, a, b, c, d)).constrained(
        wire(s.next_multiplier().2),
    )
}

/// Demands that the values `a, b` either be passed on as `c, d`, or have the same flavor and
/// be merged into `d` while `c` is zero. The constraints need a challenge, so the gadget is
/// put off to the second phase.
pub fn fill_cs(
    cs: &mut ConstraintSystem,
    a: AllocatedValue,
    b: AllocatedValue,
    c: AllocatedValue,
    d: AllocatedValue,
) -> (r: Result<(), Error>)
    requires
        old(cs)@.wf(),
        old(cs)@.has(a.q) && old(cs)@.has(a.f),
        old(cs)@.has(b.q) && old(cs)@.has(b.f),
        old(cs)@.has(c.q) && old(cs)@.has(c.f),
        old(cs)@.has(d.q) && old(cs)@.has(d.f),
    ensures
        r is Ok,
        final(cs)@ == old(cs)@.postponed(Deferred::Mix(a.wires(), b.wires(), c.wires(), d.wires())),
        final(cs)@.wf(),
        final(cs).assigned() == old(cs).assigned(),
        old(cs).met() && (old(cs)@.proving ==> ready(
            old(cs).assigned(),
            Deferred::Mix(a.wires(), b.wires(), c.wires(), d.wires()),
        )) ==> final(cs).met(),
{
    cs.specify_randomized_constraints(
        RandomizedGadget::Mix((a.q, a.f), (b.q, b.f), (c.q, c.f), (d.q, d.f)),
    );
    Ok(())
}

/// The second phase of a mix, for the challenge `w`.
pub fn fill_randomized_cs(
    cs: &mut RandomizedConstraintSystem,
    w: &Scalar,
    a: (Variable, Variable),
    b: (Variable, Variable),
    c: (Variable, Variable),
    d: (Variable, Variable),
)
    requires
        old(cs)@.room(1),
        old(cs)@.has(a.0) && old(cs)@.has(a.1),
        old(cs)@.has(b.0) && old(cs)@.has(b.1),
        old(cs)@.has(c.0) && old(cs)@.has(c.1),
        old(cs)@.has(d.0) && old(cs)@.has(d.1),
    ensures
        final(cs).drawn() == old(cs).drawn(),
        final(cs)@ == mix_circuit(old(cs)@, w@, a, b, c, d),
        old(cs)@.wf() ==> final(cs)@.wf(),
        final(cs).assigned().extends(old(cs).assigned()),
        old(cs)@.wf() && old(cs).met() && (old(cs)@.proving ==> ready(
            old(cs).assigned(),
            Deferred::Mix(a, b, c, d),
        )) ==> final(cs).met(),
{
    let ghost w0 = cs.assigned();
    let ghost start = cs@;
    let one = Scalar::one();
    let w1 = *w;
    let w2 = w1.mul(&w1);
    let w3 = w2.mul(&w1);
    let w4 = w3.mul(&w1);
    let mut left: Vec<(Variable, Scalar)> = Vec::new();
    left.push((a.0, one));
    left.push((c.0, one.neg()));
    left.push((a.1, w1));
    left.push((c.1, w1.neg()));
    left.push((b.0, w2));
    left.push((d.0, w2.neg()));
    left.push((b.1, w3));
    left.push((d.1, w3.neg()));
    let mut right: Vec<(Variable, Scalar)> = Vec::new();
    right.push((c.0, one));
    right.push((a.1, w1));
    right.push((b.1, w1.neg()));
    right.push((d.0, w2));
    right.push((a.0, w2.neg()));
    right.push((b.0, w2.neg()));
    right.push((d.1, w3));
    right.push((a.1, w3.neg()));
    right.push((c.1, w4));
    assert(term_values(left@) =~= pass_terms(w@, a, b, c, d));
    assert(term_values(right@) =~= merge_terms(w@, a, b, c, d));
    let (_, _, out) = cs.multiply(&left, &right);
    proof {
        if start.wf() && start.proving && old(cs).met() && ready(
            w0,
            Deferred::Mix(a, b, c, d),
        ) {
            let x = cs.assigned();
            lemma_eval_pass(w0, w@, a, b, c, d);
            lemma_eval_merge(w0, w@, a, b, c, d);
            lemma_mix_complete(w@, pair_on(w0, a), pair_on(w0, b), pair_on(w0, c), pair_on(w0, d));
            assert(w0.output.len() == start.multipliers);
            assert(x.value(out) == 0);
            lemma_eval_wire(x, out);
            lemma_field_of(0);
        }
    }
    cs.constrain(&wire_terms(out));
}

/// The values `a, b` are passed on as `c, d`.
pub open spec fn passes(a: (nat, nat), b: (nat, nat), c: (nat, nat), d: (nat, nat)) -> bool {
    c == a && d == b
}

/// The values `a, b` have the same flavor and are merged into `d`, and `c` is zero.
pub open spec fn merges(a: (nat, nat), b: (nat, nat), c: (nat, nat), d: (nat, nat)) -> bool {
    a.1 == b.1 && c == (0nat, 0nat) && d == (field_add(a.0, b.0), a.1)
}

/// The field element that is zero when `a, b` are passed on as `c, d`.
pub open spec fn pass_value(
    w: nat,
    a: (nat, nat),
    b: (nat, nat),
    c: (nat, nat),
    d: (nat, nat),
) -> nat {
    let w2 = field_mul(w, w);
    let w3 = field_mul(w2, w);
    field_of((a.0 - c.0) + w * (a.1 - c.1) + w2 * (b.0 - d.0) + w3 * (b.1 - d.1))
}

/// The field element that is zero when `a, b` are merged into `d` and `c` is zero.
pub open spec fn merge_value(
    w: nat,
    a: (nat, nat),
    b: (nat, nat),
    c: (nat, nat),
    d: (nat, nat),
) -> nat {
    let w2 = field_mul(w, w);
    let w3 = field_mul(w2, w);
    let w4 = field_mul(w3, w);
    field_of(c.0 + w * (a.1 - b.1) + w2 * (d.0 - a.0 - b.0) + w3 * (d.1 - a.1) + w4 * c.1)
}

/// The values on the two wires of a value.
pub open spec fn pair_on(w: Witness, v: (Variable, Variable)) -> (nat, nat) {
    (w.value(v.0), w.value(v.1))
}

/// The value of the first linear combination of a mix.
pub proof fn lemma_eval_pass(
    x: Witness,
    w: nat,
    a: (Variable, Variable),
    b: (Variable, Variable),
    c: (Variable, Variable),
    d: (Variable, Variable),
)
    ensures
        x.eval(pass_terms(w, a, b, c, d)) == pass_value(
            w,
            pair_on(x, a),
            pair_on(x, b),
            pair_on(x, c),
            pair_on(x, d),
        ),
{
    let w2 = field_mul(w, w);
    let w3 = field_mul(w2, w);
    let aq = x.value(a.0) as int;
    let af = x.value(a.1) as int;
    let bq = x.value(b.0) as int;
    let bf = x.value(b.1) as int;
    let cq = x.value(c.0) as int;
    let cf = x.value(c.1) as int;
    let dq = x.value(d.0) as int;
    let df = x.value(d.1) as int;
    let t0 = Seq::<Term>::empty();
    let t1 = t0.push((a.0, 1nat));
    let t2 = t1.push((c.0, field_neg(1)));
    let t3 = t2.push((a.1, w));
    let t4 = t3.push((c.1, field_neg(w)));
    let t5 = t4.push((b.0, w2));
    let t6 = t5.push((d.0, field_neg(w2)));
    let t7 = t6.push((b.1, w3));
    let t8 = t7.push((d.1, field_neg(w3)));
    assert(pass_terms(w, a, b, c, d) =~= t8);
    assert(x.sum(t0) == 0);
    lemma_sum_push(x, t0, (a.0, 1nat));
    lemma_sum_push(x, t1, (c.0, field_neg(1)));
    lemma_sum_push(x, t2, (a.1, w));
    lemma_sum_push(x, t3, (c.1, field_neg(w)));
    lemma_sum_push(x, t4, (b.0, w2));
    lemma_sum_push(x, t5, (d.0, field_neg(w2)));
    lemma_sum_push(x, t6, (b.1, w3));
    lemma_sum_push(x, t7, (d.1, field_neg(w3)));
    let n1 = field_neg(1) * cq;
    let nw = field_neg(w) * cf;
    let nw2 = field_neg(w2) * dq;
    let nw3 = field_neg(w3) * df;
    let total = x.sum(t8);
    assert(total == aq + n1 + w * af + nw + w2 * bq + nw2 + w3 * bf + nw3);
    let s1 = aq + w * af + nw + w2 * bq + nw2 + w3 * bf + nw3;
    lemma_neg_coefficient(s1, 1, cq);
    let s2 = aq - 1 * cq + w * af + w2 * bq + nw2 + w3 * bf + nw3;
    lemma_neg_coefficient(s2, w, cf);
    let s3 = aq - 1 * cq + w * af - w * cf + w2 * bq + w3 * bf + nw3;
    lemma_neg_coefficient(s3, w2, dq);
    let s4 = aq - 1 * cq + w * af - w * cf + w2 * bq - w2 * dq + w3 * bf;
    lemma_neg_coefficient(s4, w3, df);
    assert(w * af - w * cf == w * (af - cf)) by (nonlinear_arith);
    assert(w2 * bq - w2 * dq == w2 * (bq - dq)) by (nonlinear_arith);
    assert(w3 * bf - w3 * df == w3 * (bf - df)) by (nonlinear_arith);
}

/// The value of the second linear combination of a mix.
pub proof fn lemma_eval_merge(
    x: Witness,
    w: nat,
    a: (Variable, Variable),
    b: (Variable, Variable),
    c: (Variable, Variable),
    d: (Variable, Variable),
)
    ensures
        x.eval(merge_terms(w, a, b, c, d)) == merge_value(
            w,
            pair_on(x, a),
            pair_on(x, b),
            pair_on(x, c),
            pair_on(x, d),
        ),
{
    let w2 = field_mul(w, w);
    let w3 = field_mul(w2, w);
    let w4 = field_mul(w3, w);
    let aq = x.value(a.0) as int;
    let af = x.value(a.1) as int;
    let bq = x.value(b.0) as int;
    let bf = x.value(b.1) as int;
    let cq = x.value(c.0) as int;
    let cf = x.value(c.1) as int;
    let dq = x.value(d.0) as int;
    let df = x.value(d.1) as int;
    let t0 = Seq::<Term>::empty();
    let t1 = t0.push((c.0, 1nat));
    let t2 = t1.push((a.1, w));
    let t3 = t2.push((b.1, field_neg(w)));
    let t4 = t3.push((d.0, w2));
    let t5 = t4.push((a.0, field_neg(w2)));
    let t6 = t5.push((b.0, field_neg(w2)));
    let t7 = t6.push((d.1, w3));
    let t8 = t7.push((a.1, field_neg(w3)));
    let t9 = t8.push((c.1, w4));
    assert(merge_terms(w, a, b, c, d) =~= t9);
    assert(x.sum(t0) == 0);
    lemma_sum_push(x, t0, (c.0, 1nat));
    lemma_sum_push(x, t1, (a.1, w));
    lemma_sum_push(x, t2, (b.1, field_neg(w)));
    lemma_sum_push(x, t3, (d.0, w2));
    lemma_sum_push(x, t4, (a.0, field_neg(w2)));
    lemma_sum_push(x, t5, (b.0, field_neg(w2)));
    lemma_sum_push(x, t6, (d.1, w3));
    lemma_sum_push(x, t7, (a.1, field_neg(w3)));
    lemma_sum_push(x, t8, (c.1, w4));
    let nw = field_neg(w) * bf;
    let nw2a = field_neg(w2) * aq;
    let nw2b = field_neg(w2) * bq;
    let nw3 = field_neg(w3) * af;
    let total = x.sum(t9);
    assert(total == cq + w * af + nw + w2 * dq + nw2a + nw2b + w3 * df + nw3 + w4 * cf);
    let s1 = cq + w * af + w2 * dq + nw2a + nw2b + w3 * df + nw3 + w4 * cf;
    lemma_neg_coefficient(s1, w, bf);
    let s2 = cq + w * af - w * bf + w2 * dq + nw2b + w3 * df + nw3 + w4 * cf;
    lemma_neg_coefficient(s2, w2, aq);
    let s3 = cq + w * af - w * bf + w2 * dq - w2 * aq + w3 * df + nw3 + w4 * cf;
    lemma_neg_coefficient(s3, w2, bq);
    let s4 = cq + w * af - w * bf + w2 * dq - w2 * aq - w2 * bq + w3 * df + w4 * cf;
    lemma_neg_coefficient(s4, w3, af);
    assert(w * af - w * bf == w * (af - bf)) by (nonlinear_arith);
    assert(w2 * dq - w2 * aq - w2 * bq == w2 * (dq - aq - bq)) by (nonlinear_arith);
    assert(w3 * df - w3 * af == w3 * (df - af)) by (nonlinear_arith);
}

/// What a mix demands for the challenge `w`: a witness that meets the extended system meets
/// the system before, and the product of the two field elements above, taken of the values
/// on the wires, is zero.
pub proof fn lemma_mix_demands(
    x: Witness,
    s: Circuit,
    w: nat,
    a: (Variable, Variable),
    b: (Variable, Variable),
    c: (Variable, Variable),
    d: (Variable, Variable),
)
    requires
        s.room(1),
        x.satisfies(mix_circuit(s, w, a, b, c, d)),
    ensures
        x.satisfies(s),
        field_mul(
            pass_value(w, pair_on(x, a), pair_on(x, b), pair_on(x, c), pair_on(x, d)),
            merge_value(w, pair_on(x, a), pair_on(x, b), pair_on(x, c), pair_on(x, d)),
        ) == 0,
{
    let s1 = s.multiplied(pass_terms(w, a, b, c, d), merge_terms(w, a, b, c, d));
    lemma_satisfies_constrained(x, s1, wire(s.next_multiplier().2));
    lemma_satisfies_multiplied(x, s, pass_terms(w, a, b, c, d), merge_terms(w, a, b, c, d));
    lemma_eval_wire(x, s.next_multiplier().2);
    lemma_field_of(x.value(s.next_multiplier().2) as int);
    lemma_eval_pass(x, w, a, b, c, d);
    lemma_eval_merge(x, w, a, b, c, d);
}

/// Whatever the challenge, the product that a mix demands to be zero is zero when the values
/// are passed on or merged.
pub proof fn lemma_mix_complete(
    w: nat,
    a: (nat, nat),
    b: (nat, nat),
    c: (nat, nat),
    d: (nat, nat),
)
    requires
        passes(a, b, c, d) || merges(a, b, c, d),
    ensures
        field_mul(pass_value(w, a, b, c, d), merge_value(w, a, b, c, d)) == 0,
{
    let w2 = field_mul(w, w);
    let w3 = field_mul(w2, w);
    let w4 = field_mul(w3, w);
    if passes(a, b, c, d) {
        assert(w * (a.1 - c.1) == 0) by (nonlinear_arith)
            requires
                a.1 == c.1,
        ;
        assert(w2 * (b.0 - d.0) == 0) by (nonlinear_arith)
            requires
                b.0 == d.0,
        ;
        assert(w3 * (b.1 - d.1) == 0) by (nonlinear_arith)
            requires
                b.1 == d.1,
        ;
        lemma_field_of(0);
        assert(pass_value(w, a, b, c, d) == 0);
        lemma_field_mul(merge_value(w, a, b, c, d), 0, 0);
    } else {
        let m = order() as int;
        let sum = (a.0 + b.0) as int;
        let q = sum / m;
        lemma_order();
        lemma_fundamental_div_mod(sum, m);
        assert(d.0 - a.0 - b.0 == -(m * q));
        assert(w * (a.1 - b.1) == 0) by (nonlinear_arith)
            requires
                a.1 == b.1,
        ;
        assert(w3 * (d.1 - a.1) == 0) by (nonlinear_arith)
            requires
                d.1 == a.1,
        ;
        assert(w4 * c.1 == 0) by (nonlinear_arith)
            requires
                c.1 == 0,
        ;
        assert(w2 * (d.0 - a.0 - b.0) == m * (-(w2 * q))) by (nonlinear_arith)
            requires
                d.0 - a.0 - b.0 == -(m * q),
        ;
        lemma_mod_multiples_vanish(-(w2 * q), 0, m);
        lemma_field_of(0);
        assert(merge_value(w, a, b, c, d) == 0);
        lemma_field_mul(pass_value(w, a, b, c, d), 0, 0);
    }
}

} // verus!
