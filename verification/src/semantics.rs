use crate::circuit::Circuit;
use crate::circuit::Term;
use crate::circuit::Variable;
use crate::field::field_sub;
use crate::field::lemma_field_of;
use crate::field::lemma_field_of_reduce;
use crate::field::lemma_field_ops;
use crate::gadgets::two_shuffle::difference;
use crate::gadgets::two_shuffle::minus;
use crate::gadgets::value_shuffle::combined;
use crate::scalar::field_mul;
use crate::scalar::field_neg;
use crate::scalar::field_of;
use crate::scalar::lemma_order;
use crate::scalar::order;
use vstd::arithmetic::div_mod::lemma_mod_multiples_vanish;
use vstd::arithmetic::div_mod::lemma_small_mod;
use vstd::prelude::*;

verus! {

/// A field element for every wire of a constraint system.
pub ghost struct Witness {
    /// The values of the committed inputs.
    pub committed: Seq<nat>,
    /// The blinding factors under which the committed inputs were committed to, input by
    /// input.
    pub blindings: Seq<nat>,
    /// The values of the left inputs of the multipliers.
    pub left: Seq<nat>,
    /// The values of the right inputs of the multipliers.
    pub right: Seq<nat>,
    /// The values of the outputs of the multipliers.
    pub output: Seq<nat>,
}

impl Witness {
    /// No value at all: the witness of a system without wires.
    pub open spec fn nothing() -> Witness {
        Witness {
            committed: Seq::empty(),
            blindings: Seq::empty(),
            left: Seq::empty(),
            right: Seq::empty(),
            output: Seq::empty(),
        }
    }

    /// The same witness with one more committed input: the value `v`, committed to under
    /// the blinding factor `blinding`.
    pub open spec fn with_committed(self, v: nat, blinding: nat) -> Witness {
        Witness {
            committed: self.committed.push(v),
            blindings: self.blindings.push(blinding),
            ..self
        }
    }

    /// The same witness with more committed inputs: the values `values`, committed to, one
    /// by one, under the blinding factors `blindings`.
    pub open spec fn committing(self, values: Seq<nat>, blindings: Seq<nat>) -> Witness {
        Witness {
            committed: self.committed + values,
            blindings: self.blindings + blindings,
            ..self
        }
    }

    /// The same witness with one more multiplier, whose output is the product of its inputs.
    pub open spec fn with_multiplier(self, l: nat, r: nat) -> Witness {
        Witness {
            left: self.left.push(l),
            right: self.right.push(r),
            output: self.output.push(field_mul(l, r)),
            ..self
        }
    }

    /// The witness has grown from `old`: it gives the same value to every wire that `old`
    /// gives a value to.
    pub open spec fn extends(self, old: Witness) -> bool {
        &&& old.committed.is_prefix_of(self.committed)
        &&& old.left.is_prefix_of(self.left)
        &&& old.right.is_prefix_of(self.right)
        &&& old.output.is_prefix_of(self.output)
    }

    /// The witness has a value for every wire of the system and for no other.
    pub open spec fn aligned(self, c: Circuit) -> bool {
        &&& self.committed.len() == c.committed
        &&& self.left.len() == c.multipliers
        &&& self.right.len() == c.multipliers
        &&& self.output.len() == c.multipliers
    }

    /// The witness is that of the system and meets everything that the system demands so far.
    pub open spec fn meets(self, c: Circuit) -> bool {
        self.aligned(c) && self.satisfies(c)
    }

    /// The value on a wire.
    pub open spec fn value(self, v: Variable) -> nat {
        match v {
            Variable::Committed(i) => self.committed[i as int],
            Variable::MultiplierLeft(i) => self.left[i as int],
            Variable::MultiplierRight(i) => self.right[i as int],
            Variable::MultiplierOutput(i) => self.output[i as int],
            Variable::One => 1,
        }
    }

    /// The witness has a reduced value for every wire of the system.
    pub open spec fn covers(self, c: Circuit) -> bool {
        &&& c.committed <= self.committed.len()
        &&& c.multipliers <= self.left.len()
        &&& c.multipliers <= self.right.len()
        &&& c.multipliers <= self.output.len()
        &&& forall|i: int| 0 <= i < c.committed ==> #[trigger] self.committed[i] < order()
        &&& forall|i: int| 0 <= i < c.multipliers ==> #[trigger] self.left[i] < order()
        &&& forall|i: int| 0 <= i < c.multipliers ==> #[trigger] self.right[i] < order()
        &&& forall|i: int| 0 <= i < c.multipliers ==> #[trigger] self.output[i] < order()
    }

    /// The sum of coefficient times value over the terms, as an integer.
    pub open spec fn sum(self, terms: Seq<Term>) -> int
        decreases terms.len(),
    {
        if terms.len() == 0 {
            0
        } else {
            self.sum(terms.drop_last()) + terms.last().1 * self.value(terms.last().0)
        }
    }

    /// The value of a linear combination in the field.
    pub open spec fn eval(self, terms: Seq<Term>) -> nat {
        field_of(self.sum(terms))
    }

    /// Every multiplier's output is the product of its inputs.
    pub open spec fn multiplies(self, c: Circuit) -> bool {
        forall|i: int|
            0 <= i < c.multipliers ==> #[trigger] self.output[i] == field_mul(
                self.left[i],
                self.right[i],
            )
    }

    /// Every linear constraint is zero.
    pub open spec fn vanishes(self, c: Circuit) -> bool {
        forall|j: int| 0 <= j < c.constraints.len() ==> self.eval(#[trigger] c.constraints[j]) == 0
    }

    /// The witness meets everything that the system demands so far. The gadgets put off to
    /// the second phase demand nothing before they have run.
    pub open spec fn satisfies(self, c: Circuit) -> bool {
        self.covers(c) && self.multiplies(c) && self.vanishes(c)
    }
}

/// One more term adds coefficient times value to the sum.
pub proof fn lemma_sum_push(w: Witness, terms: Seq<Term>, t: Term)
    ensures
        w.sum(terms.push(t)) == w.sum(terms) + t.1 * w.value(t.0),
{
    assert(terms.push(t).drop_last() =~= terms);
}

/// A system with one more constraint is met when the system is met and the constraint is
/// zero.
pub proof fn lemma_satisfies_constrained(w: Witness, c: Circuit, terms: Seq<Term>)
    ensures
        w.satisfies(c.constrained(terms)) == (w.satisfies(c) && w.eval(terms) == 0),
{
    let d = c.constrained(terms);
    if w.satisfies(d) {
        assert forall|j: int| 0 <= j < c.constraints.len() implies w.eval(
            #[trigger] c.constraints[j],
        ) == 0 by {
            assert(d.constraints[j] == c.constraints[j]);
        }
        assert(d.constraints[c.constraints.len() as int] == terms);
    }
    if w.satisfies(c) && w.eval(terms) == 0 {
        assert forall|j: int| 0 <= j < d.constraints.len() implies w.eval(
            #[trigger] d.constraints[j],
        ) == 0 by {
            if j < c.constraints.len() {
                assert(d.constraints[j] == c.constraints[j]);
            }
        }
    }
}

/// The values on the wires of multiplier `n` are reduced and its output is the product of
/// its inputs.
pub open spec fn multiplier_holds(w: Witness, n: nat) -> bool {
    &&& n < w.left.len() && n < w.right.len() && n < w.output.len()
    &&& w.left[n as int] < order() && w.right[n as int] < order() && w.output[n as int] < order()
    &&& w.output[n as int] == field_mul(w.left[n as int], w.right[n as int])
}

/// A system with one more multiplier is met when the system is met and the new multiplier
/// holds.
pub proof fn lemma_satisfies_allocated(w: Witness, c: Circuit)
    ensures
        w.satisfies(c.allocated()) == (w.satisfies(c) && multiplier_holds(w, c.multipliers)),
{
    let d = c.allocated();
    let n = c.multipliers as int;
    if w.satisfies(d) {
        assert(w.left[n] < order() && w.right[n] < order() && w.output[n] < order());
        assert(w.output[n] == field_mul(w.left[n], w.right[n]));
        assert(d.constraints == c.constraints);
        assert(w.vanishes(c));
    }
    if w.satisfies(c) && multiplier_holds(w, c.multipliers) {
        assert(d.constraints == c.constraints);
        assert(w.vanishes(d));
    }
}

/// A deferred gadget demands nothing in the first phase.
pub proof fn lemma_satisfies_postponed(w: Witness, c: Circuit, g: crate::circuit::Deferred)
    ensures
        w.satisfies(c.postponed(g)) == w.satisfies(c),
{
    let d = c.postponed(g);
    assert(d.constraints == c.constraints);
    if w.satisfies(d) {
        assert(w.vanishes(c));
    }
    if w.satisfies(c) {
        assert(w.vanishes(d));
    }
}

/// The constraint `terms - v = 0` says that the wire `v` carries the value of `terms`.
pub proof fn lemma_bound(w: Witness, terms: Seq<Term>, v: Variable)
    requires
        w.value(v) < order(),
    ensures
        (w.eval(terms.push((v, field_neg(1)))) == 0) == (w.value(v) == w.eval(terms)),
{
    let m = order() as int;
    lemma_order();
    let s = w.sum(terms);
    let x = w.value(v) as int;
    lemma_sum_push(w, terms, (v, field_neg(1)));
    lemma_field_ops(1, 1);
    lemma_field_of(-1);
    assert(field_neg(1) == m - 1) by {
        lemma_small_mod((m - 1) as nat, m as nat);
    }
    assert(s + (m - 1) * x == (s - x) + m * x) by (nonlinear_arith);
    lemma_mod_multiples_vanish(x, s - x, m);
    assert(field_of(s + (m - 1) * x) == field_of(s - x));
    lemma_field_of(s);
    lemma_field_of(x);
    lemma_field_of_reduce(s, x);
    if field_of(s - x) == 0 {
        assert(field_of(s) == x) by {
            lemma_field_of_reduce(s - x, x);
            assert(field_of((s - x) + x) == field_of(field_of(s - x) + x));
            assert(field_of(0 + x) == x);
        }
    }
    if field_of(s) == x {
        assert(field_of(s - x) == 0) by {
            assert(field_of(s - x) == field_of(field_of(s) - x));
            lemma_field_of(0);
        }
    }
}

/// A system with one more multiplier whose inputs are bound to `left` and `right` is met when
/// the system is met, the new multiplier holds, and its inputs carry the values of `left`
/// and `right`.
pub proof fn lemma_satisfies_multiplied(w: Witness, c: Circuit, left: Seq<Term>, right: Seq<Term>)
    requires
        c.room(1),
    ensures
        w.satisfies(c.multiplied(left, right)) == (w.satisfies(c) && multiplier_holds(
            w,
            c.multipliers,
        ) && w.left[c.multipliers as int] == w.eval(left) && w.right[c.multipliers as int]
            == w.eval(right)),
{
    let a = c.allocated();
    let l = left.push((c.next_multiplier().0, field_neg(1)));
    let r = right.push((c.next_multiplier().1, field_neg(1)));
    assert(c.multiplied(left, right) == a.constrained(l).constrained(r));
    lemma_satisfies_constrained(w, a.constrained(l), r);
    lemma_satisfies_constrained(w, a, l);
    lemma_satisfies_allocated(w, c);
    if multiplier_holds(w, c.multipliers) {
        lemma_bound(w, left, c.next_multiplier().0);
        lemma_bound(w, right, c.next_multiplier().1);
    }
}

/// The value of the linear combination `v - z`.
pub proof fn lemma_eval_minus(w: Witness, v: Variable, z: nat)
    ensures
        w.eval(minus(v, z)) == field_sub(w.value(v), z),
{
    let terms = minus(v, z);
    let empty = Seq::<Term>::empty();
    let one = empty.push((v, 1nat));
    assert(terms =~= one.push((Variable::One, field_neg(z))));
    lemma_sum_push(w, one, (Variable::One, field_neg(z)));
    lemma_sum_push(w, empty, (v, 1nat));
    assert(w.sum(empty) == 0);
    let x = w.value(v) as int;
    assert(w.sum(one) == x);
    assert(w.value(Variable::One) == 1);
    assert(field_neg(z) * w.value(Variable::One) == field_neg(z)) by (nonlinear_arith)
        requires
            w.value(Variable::One) == 1,
    ;
    assert(w.sum(one.push((Variable::One, field_neg(z)))) == x + field_neg(z));
    assert(w.sum(terms) == x + field_neg(z));
    lemma_field_ops(z, 0);
    assert(field_neg(z) == field_of(-(z as int)));
    lemma_field_of_reduce(x, -(z as int));
    assert(field_of(x + field_of(-(z as int))) == field_of(x + (-(z as int))));
}

/// The value of the linear combination `u - v`; it is zero exactly when both wires carry
/// the same value.
pub proof fn lemma_eval_difference(w: Witness, u: Variable, v: Variable)
    requires
        w.value(u) < order(),
        w.value(v) < order(),
    ensures
        w.eval(difference(u, v)) == field_sub(w.value(u), w.value(v)),
        (w.eval(difference(u, v)) == 0) == (w.value(u) == w.value(v)),
{
    let empty = Seq::<Term>::empty();
    let terms = difference(u, v);
    assert(terms =~= empty.push((u, 1nat)).push((v, field_neg(1))));
    lemma_sum_push(w, empty, (u, 1nat));
    assert(w.sum(empty) == 0);
    assert(w.sum(empty.push((u, 1nat))) == w.value(u));
    lemma_bound(w, empty.push((u, 1nat)), v);
    lemma_field_of(w.value(u) as int);
    let m = order() as int;
    lemma_order();
    let x = w.value(v) as int;
    let s = w.value(u) as int;
    lemma_sum_push(w, empty.push((u, 1nat)), (v, field_neg(1)));
    assert(field_neg(1) == m - 1) by {
        lemma_small_mod((m - 1) as nat, m as nat);
    }
    assert(s + (m - 1) * x == (s - x) + m * x) by (nonlinear_arith);
    lemma_mod_multiples_vanish(x, s - x, m);
}

/// The value of the linear combination that is a single wire.
pub proof fn lemma_eval_wire(w: Witness, v: Variable)
    ensures
        w.eval(crate::gadgets::product::wire(v)) == field_of(w.value(v) as int),
{
    let empty = Seq::<Term>::empty();
    assert(crate::gadgets::product::wire(v) =~= empty.push((v, 1nat)));
    lemma_sum_push(w, empty, (v, 1nat));
    assert(w.sum(empty) == 0);
}

/// The values on a list of wires.
pub open spec fn values_on(w: Witness, wires: Seq<Variable>) -> Seq<nat> {
    Seq::new(wires.len(), |i: int| w.value(wires[i]))
}

/// The (quantity, flavor) values on a list of pairs of wires.
pub open spec fn pairs_on(w: Witness, wires: Seq<(Variable, Variable)>) -> Seq<(nat, nat)> {
    Seq::new(wires.len(), |i: int| (w.value(wires[i].0), w.value(wires[i].1)))
}

/// The field element `q + w * f - z` that a shuffle of values makes of a value and its
/// two challenges.
pub open spec fn blend(v: (nat, nat), w: nat, z: nat) -> nat {
    field_of(v.0 + w * v.1 - z)
}

/// The value of the linear combination `q + w * f - z`.
pub proof fn lemma_eval_combined(w: Witness, v: (Variable, Variable), c: nat, z: nat)
    ensures
        w.eval(combined(v, c, z)) == blend(
            (w.value(v.0), w.value(v.1)),
            c,
            z,
        ),
{
    let terms = combined(v, c, z);
    let empty = Seq::<Term>::empty();
    let one = empty.push((v.0, 1nat));
    let two = one.push((v.1, c));
    assert(terms =~= two.push((Variable::One, field_neg(z))));
    lemma_sum_push(w, two, (Variable::One, field_neg(z)));
    lemma_sum_push(w, one, (v.1, c));
    lemma_sum_push(w, empty, (v.0, 1nat));
    assert(w.sum(empty) == 0);
    let q = w.value(v.0) as int;
    let f = w.value(v.1) as int;
    assert(w.sum(one) == q);
    assert(w.sum(two) == q + c * f);
    assert(w.value(Variable::One) == 1);
    assert(field_neg(z) * w.value(Variable::One) == field_neg(z)) by (nonlinear_arith)
        requires
            w.value(Variable::One) == 1,
    ;
    assert(w.sum(two.push((Variable::One, field_neg(z)))) == q + c * f + field_neg(z));
    lemma_field_ops(z, 0);
    lemma_field_of_reduce(q + c * f, -(z as int));
}

/// A term with the coefficient `-k` takes `k` times the value away, in the field.
pub proof fn lemma_neg_coefficient(s: int, k: nat, x: int)
    ensures
        field_of(s + field_neg(k) * x) == field_of(s - k * x),
{
    lemma_field_ops(k, 0);
    lemma_field_of_reduce(-(k as int), x);
    lemma_field_of_reduce(s, field_neg(k) * x);
    lemma_field_of_reduce(s, (-(k as int)) * x);
    assert((-(k as int)) * x == -(k * x)) by (nonlinear_arith);
}

/// The `n` multipliers from `first` on hold.
pub open spec fn multipliers_hold(w: Witness, first: nat, n: nat) -> bool {
    forall|i: nat| i < n ==> multiplier_holds(w, #[trigger] (first + i))
}

/// A system with `k` more multipliers is met when the system is met and the new multipliers
/// hold.
pub proof fn lemma_satisfies_allocated_many(w: Witness, c: Circuit, k: nat)
    ensures
        w.satisfies(c.allocated_many(k)) == (w.satisfies(c) && multipliers_hold(
            w,
            c.multipliers,
            k,
        )),
    decreases k,
{
    if k == 0 {
        assert(c.allocated_many(0) == c);
    } else {
        let before = c.allocated_many((k - 1) as nat);
        assert(c.allocated_many(k) == before.allocated());
        lemma_satisfies_allocated(w, before);
        lemma_satisfies_allocated_many(w, c, (k - 1) as nat);
        if w.satisfies(c) && multipliers_hold(w, c.multipliers, k) {
            assert(multiplier_holds(w, c.multipliers + (k - 1) as nat));
            assert forall|i: nat| i < k - 1 implies multiplier_holds(
                w,
                #[trigger] (c.multipliers + i),
            ) by {
                assert(i < k);
            }
        }
        if w.satisfies(before) && multiplier_holds(w, before.multipliers) {
            assert forall|i: nat| i < k implies multiplier_holds(w, #[trigger] (c.multipliers + i)) by {
                if i < k - 1 {
                    assert(multipliers_hold(w, c.multipliers, (k - 1) as nat));
                } else {
                    assert(c.multipliers + i == before.multipliers);
                }
            }
        }
    }
}

/// A witness that covers a system has a reduced value on every wire of the system.
pub proof fn lemma_covered(w: Witness, c: Circuit, v: Variable)
    requires
        w.covers(c),
        c.has(v),
    ensures
        w.value(v) < order(),
{
    lemma_order();
}

/// A witness that covers a system covers every system that it has grown from.
pub proof fn lemma_covers_within(w: Witness, small: Circuit, big: Circuit)
    requires
        small.within(big),
        w.covers(big),
    ensures
        w.covers(small),
{
}

/// A witness that has grown gives the same value to every wire of the system it has grown
/// from, and the same value to every linear combination over these wires.
pub proof fn lemma_extends(old: Witness, new: Witness, c: Circuit, terms: Seq<Term>)
    requires
        old.aligned(c),
        new.extends(old),
        c.committed <= usize::MAX,
        c.multipliers <= usize::MAX,
    ensures
        forall|v: Variable| c.has(v) ==> new.value(v) == old.value(v),
        c.has_terms(terms) ==> new.sum(terms) == old.sum(terms),
    decreases terms.len(),
{
    assert forall|v: Variable| c.has(v) implies new.value(v) == old.value(v) by {
        match v {
            Variable::Committed(i) => {
                assert(new.committed[i as int] == old.committed[i as int]);
            },
            Variable::MultiplierLeft(i) => {
                assert(new.left[i as int] == old.left[i as int]);
            },
            Variable::MultiplierRight(i) => {
                assert(new.right[i as int] == old.right[i as int]);
            },
            Variable::MultiplierOutput(i) => {
                assert(new.output[i as int] == old.output[i as int]);
            },
            Variable::One => {},
        }
    }
    if c.has_terms(terms) && terms.len() > 0 {
        assert(c.has(terms[terms.len() - 1].0));
        assert forall|i: int| 0 <= i < terms.drop_last().len() implies c.has(
            #[trigger] terms.drop_last()[i].0,
        ) by {
            assert(c.has(terms[i].0));
        }
        lemma_extends(old, new, c, terms.drop_last());
    }
}

/// A witness that has grown still meets the constraints and multipliers of the system it
/// has grown from.
pub proof fn lemma_extends_satisfies(old: Witness, new: Witness, c: Circuit)
    requires
        c.wf(),
        old.meets(c),
        new.extends(old),
    ensures
        new.satisfies(c),
{
    assert forall|i: int| 0 <= i < c.committed implies #[trigger] new.committed[i] < order() by {
        assert(new.committed[i] == old.committed[i]);
    }
    assert forall|i: int| 0 <= i < c.multipliers implies #[trigger] new.left[i] < order() by {
        assert(new.left[i] == old.left[i]);
    }
    assert forall|i: int| 0 <= i < c.multipliers implies #[trigger] new.right[i] < order() by {
        assert(new.right[i] == old.right[i]);
    }
    assert forall|i: int| 0 <= i < c.multipliers implies #[trigger] new.output[i] < order() by {
        assert(new.output[i] == old.output[i]);
    }
    assert forall|i: int| 0 <= i < c.multipliers implies #[trigger] new.output[i] == field_mul(
        new.left[i],
        new.right[i],
    ) by {
        assert(new.left[i] == old.left[i]);
        assert(new.right[i] == old.right[i]);
        assert(new.output[i] == old.output[i]);
    }
    assert forall|j: int| 0 <= j < c.constraints.len() implies new.eval(
        #[trigger] c.constraints[j],
    ) == 0 by {
        lemma_extends(old, new, c, c.constraints[j]);
        assert(old.eval(c.constraints[j]) == 0);
    }
}

/// A witness that meets a system and gets the values of a new multiplier meets the system
/// with that multiplier.
pub proof fn lemma_meets_allocated(w: Witness, c: Circuit, l: nat, r: nat)
    requires
        c.wf(),
        w.meets(c),
        l < order(),
        r < order(),
    ensures
        w.with_multiplier(l, r).meets(c.allocated()),
        w.with_multiplier(l, r).extends(w),
{
    let new = w.with_multiplier(l, r);
    lemma_extends_satisfies(w, new, c);
    lemma_satisfies_allocated(new, c);
    lemma_field_ops(l, r);
}

/// A witness that meets a system and gets the value of a new committed input meets the
/// system with that input.
pub proof fn lemma_meets_committed(
    w: Witness,
    c: Circuit,
    v: nat,
    blinding: nat,
    commitment: Seq<u8>,
)
    requires
        c.wf(),
        w.meets(c),
        v < order(),
    ensures
        w.with_committed(v, blinding).meets(c.with_commitment(commitment)),
        w.with_committed(v, blinding).extends(w),
{
    let new = w.with_committed(v, blinding);
    let d = c.with_commitment(commitment);
    lemma_extends_satisfies(w, new, c);
    assert(d.constraints == c.constraints);
    assert(new.vanishes(d));
    assert forall|i: int| 0 <= i < d.committed implies #[trigger] new.committed[i] < order() by {
        if i < c.committed {
            assert(new.committed[i] == w.committed[i]);
        }
    }
}

/// A witness that meets a system and gets, for a new multiplier, the values of the two
/// linear combinations that its inputs are bound to meets the system with that multiplier.
pub proof fn lemma_meets_multiplied(w: Witness, c: Circuit, left: Seq<Term>, right: Seq<Term>)
    requires
        c.wf(),
        c.room(1),
        c.has_terms(left),
        c.has_terms(right),
        w.meets(c),
    ensures
        w.with_multiplier(w.eval(left), w.eval(right)).meets(c.multiplied(left, right)),
        w.with_multiplier(w.eval(left), w.eval(right)).extends(w),
{
    let new = w.with_multiplier(w.eval(left), w.eval(right));
    lemma_field_of(w.sum(left));
    lemma_field_of(w.sum(right));
    lemma_meets_allocated(w, c, w.eval(left), w.eval(right));
    lemma_extends(w, new, c, left);
    lemma_extends(w, new, c, right);
    lemma_satisfies_multiplied(new, c, left, right);
    lemma_satisfies_allocated(new, c);
}

/// A witness that meets a system for which a linear combination is zero meets the system
/// with the constraint that it be zero.
pub proof fn lemma_meets_constrained(w: Witness, c: Circuit, terms: Seq<Term>)
    requires
        w.meets(c),
        w.eval(terms) == 0,
    ensures
        w.meets(c.constrained(terms)),
{
    lemma_satisfies_constrained(w, c, terms);
}

/// Two lists of one member each that are reorderings of each other have the same member.
pub proof fn lemma_single_reordered<A>(s: Seq<A>, t: Seq<A>)
    requires
        s.len() == 1,
        t.len() == 1,
        s.to_multiset() == t.to_multiset(),
    ensures
        s[0] == t[0],
{
    s.to_multiset_ensures();
    t.to_multiset_ensures();
    assert(s.contains(s[0]));
    assert(s.to_multiset().count(s[0]) > 0);
    assert(t.to_multiset().count(s[0]) > 0);
    assert(t.contains(s[0]));
}

/// A witness that has grown from a witness that has grown has grown from the first.
pub proof fn lemma_extends_trans(first: Witness, second: Witness, third: Witness)
    requires
        second.extends(first),
        third.extends(second),
    ensures
        third.extends(first),
{
}

impl Witness {
    /// The witness after a multiplier was allocated: a prover's gains the values of the new
    /// multiplier, a verifier's stays without values.
    pub open spec fn allocating(self, proving: bool, assignment: Option<(nat, nat)>) -> Witness {
        match assignment {
            Some(a) => if proving {
                self.with_multiplier(a.0, a.1)
            } else {
                self
            },
            None => self,
        }
    }

    /// The witness after a multiplier was bound to two linear combinations: a prover's gains
    /// the values of the two combinations as the inputs of the new multiplier, a verifier's
    /// stays without values.
    pub open spec fn multiplying(self, proving: bool, left: Seq<Term>, right: Seq<Term>) -> Witness {
        if proving {
            self.with_multiplier(self.eval(left), self.eval(right))
        } else {
            self
        }
    }
}

} // verus!
