use crate::circuit::Circuit;
use crate::circuit::Deferred;
use crate::circuit::Error;
use crate::circuit::Variable;
use crate::circuit::lemma_has_grows;
use crate::field::lemma_field_of;
use crate::field::lemma_field_of_reduce;
use crate::field::lemma_field_ops;
use crate::gadgets::mix::merges;
use crate::gadgets::mix::pair_on;
use crate::gadgets::mix::passes;
use crate::gadgets::randomized::ready;
use crate::r1cs::ConstraintSystem;
use crate::scalar::Scalar;
use crate::scalar::field_of;
use crate::semantics::Witness;
use crate::semantics::lemma_extends_trans;
use crate::semantics::lemma_satisfies_allocated;
use crate::semantics::lemma_satisfies_postponed;
use crate::semantics::multiplier_holds;
use crate::semantics::multipliers_hold;
use crate::value::AllocatedValue;
use crate::value::SignedInteger;
use crate::value::Value;
use crate::value::all_carried_by;
use crate::value::known_views;
use crate::value::lemma_carried_extends;
use crate::value::lemma_narrowed;
use crate::value::narrowed;
use crate::value::quantity_bound;
use crate::value::view_of;
use crate::value::views_of;
use crate::value::wires_of;
use vstd::arithmetic::div_mod::lemma_small_mod;
use vstd::prelude::*;

verus! {

/// What a mix makes of two values, each given as (quantity, flavor): values of the same
/// flavor are merged into the second place and leave zero in the first; others pass.
pub open spec fn mixed(a: (int, nat), b: (int, nat)) -> ((int, nat), (int, nat)) {
    if a.1 == b.1 {
        ((0int, 0nat), (narrowed(a.0 + b.0), a.1))
    } else {
        (a, b)
    }
}

/// The same where a value may be unknown: the result is known only where both are.
pub open spec fn mixed_known(a: Option<(int, nat)>, b: Option<(int, nat)>) -> (
    Option<(int, nat)>,
    Option<(int, nat)>,
) {
    if a is Some && b is Some {
        (Some(mixed(a->0, b->0).0), Some(mixed(a->0, b->0).1))
    } else {
        (None, None)
    }
}

/// The value that the chain of mixes carries on after cell `i`; before the first cell it is
/// the first input.
pub open spec fn carried(values: Seq<Option<(int, nat)>>, i: nat) -> Option<(int, nat)>
    decreases i,
{
    if i == 0 {
        values[0]
    } else {
        mixed_known(carried(values, (i - 1) as nat), values[i as int]).1
    }
}

/// The value that cell `i + 1` of the chain leaves behind as output `i`.
pub open spec fn left_behind(values: Seq<Option<(int, nat)>>, i: nat) -> Option<(int, nat)> {
    mixed_known(carried(values, i), values[i as int + 1]).0
}

/// The values that come out of the chain of mixes: what each cell leaves behind, and at the
/// end what the last cell carries on.
pub open spec fn k_mix_values(values: Seq<Option<(int, nat)>>) -> Seq<Option<(int, nat)>> {
    Seq::new(
        values.len(),
        |i: int|
            if i + 1 < values.len() {
                left_behind(values, i as nat)
            } else {
                carried(values, i as nat)
            },
    )
}

/// The wires of the value that is carried on after cell `i`, where the chain starts in a
/// system with `first` multipliers: each cell allocates the value it leaves behind and then
/// the value it carries on.
pub open spec fn carried_wires(first: nat, inputs: Seq<(Variable, Variable)>, i: nat) -> (
    Variable,
    Variable,
) {
    if i == 0 {
        inputs[0]
    } else {
        (
            Variable::MultiplierLeft((first + 2 * i - 1) as usize),
            Variable::MultiplierRight((first + 2 * i - 1) as usize),
        )
    }
}

/// The wires of the value that cell `i + 1` leaves behind.
pub open spec fn left_behind_wires(first: nat, i: nat) -> (Variable, Variable) {
    (
        Variable::MultiplierLeft((first + 2 * i) as usize),
        Variable::MultiplierRight((first + 2 * i) as usize),
    )
}

/// The wires that come out of the chain of mixes.
pub open spec fn k_mix_wires(first: nat, inputs: Seq<(Variable, Variable)>) -> Seq<
    (Variable, Variable),
> {
    Seq::new(
        inputs.len(),
        |i: int|
            if i + 1 < inputs.len() {
                left_behind_wires(first, i as nat)
            } else {
                carried_wires(first, inputs, i as nat)
            },
    )
}

/// What one cell adds: a multiplier for the value left behind, one for the value carried on,
/// and a mix of the four values, put off to the second phase.
pub open spec fn cell_circuit(c: Circuit, a: (Variable, Variable), b: (Variable, Variable)) -> Circuit {
    c.allocated().allocated().postponed(
        Deferred::Mix(a, b, c.next_wires(), c.allocated().next_wires()),
    )
}

/// What the first `cells` cells of the chain add to a system.
pub open spec fn k_mix_circuit(c: Circuit, inputs: Seq<(Variable, Variable)>, cells: nat) -> Circuit
    decreases cells,
{
    if cells == 0 {
        c
    } else {
        cell_circuit(
            k_mix_circuit(c, inputs, (cells - 1) as nat),
            carried_wires(c.multipliers, inputs, (cells - 1) as nat),
            inputs[cells as int],
        )
    }
}

/// The number of cells in a chain over `k` values.
pub open spec fn cells(k: nat) -> nat {
    if k == 0 {
        0
    } else {
        (k - 1) as nat
    }
}

/// Every one of the values is known.
pub open spec fn all_known(values: Seq<AllocatedValue>) -> bool {
    forall|i: int| 0 <= i < values.len() ==> (#[trigger] values[i]).assignment is Some
}

/// The cells add two multipliers and one deferred gadget each, and no constraint.
pub proof fn lemma_k_mix_circuit(c: Circuit, inputs: Seq<(Variable, Variable)>, cells: nat)
    ensures
        k_mix_circuit(c, inputs, cells).multipliers == c.multipliers + 2 * cells,
        k_mix_circuit(c, inputs, cells).committed == c.committed,
        k_mix_circuit(c, inputs, cells).commitments == c.commitments,
        k_mix_circuit(c, inputs, cells).proving == c.proving,
        k_mix_circuit(c, inputs, cells).constraints == c.constraints,
        k_mix_circuit(c, inputs, cells).deferred.len() == c.deferred.len() + cells,
    decreases cells,
{
    if cells > 0 {
        lemma_k_mix_circuit(c, inputs, (cells - 1) as nat);
    }
}

/// Mixes two values where both are known.
pub fn mix_values(a: Option<Value>, b: Option<Value>) -> (r: (Option<Value>, Option<Value>))
    ensures
        (view_of(r.0), view_of(r.1)) == mixed_known(view_of(a), view_of(b)),
{
    match (a, b) {
        (Some(a), Some(b)) => {
            let same = a.f.equals(&b.f);
            let sum = a.q + b.q;
            proof {
                lemma_narrowed(a.q.as_int() + b.q.as_int());
            }
            let left_q = SignedInteger::conditional_select(&a.q, &SignedInteger::zero(), same);
            let carried_q = SignedInteger::conditional_select(&b.q, &sum, same);
            let left_f = if same {
                Scalar::zero()
            } else {
                a.f
            };
            let carried_f = if same {
                a.f
            } else {
                b.f
            };
            (Some(Value { q: left_q, f: left_f }), Some(Value { q: carried_q, f: carried_f }))
        },
        _ => (None, None),
    }
}

/// Allocates wires for a value, or unassigned wires where the value is unknown.
pub fn allocate_known(
    cs: &mut ConstraintSystem,
    value: Option<Value>,
) -> (r: Result<AllocatedValue, Error>)
    requires
        old(cs)@.wf(),
        old(cs)@.room(1),
    ensures
        final(cs)@.wf(),
        r is Err == (old(cs)@.proving && value is None),
        r matches Err(e) ==> e == Error::MissingAssignment && final(cs)@ == old(cs)@,
        r matches Ok(a) ==> a.wires() == old(cs)@.next_wires() && a.assignment == value
            && final(cs)@ == old(cs)@.allocated(),
        final(cs).assigned().extends(old(cs).assigned()),
        old(cs).met() ==> final(cs).met(),
        old(cs).met() ==> (r matches Ok(a) ==> a.carried(final(cs))),
{
    match value {
        Some(value) => value.allocate(cs),
        None => Value::allocate_unassigned(cs),
    }
}

/// The values are known, and the witness has them on their wires; no sum within a run of
/// equal flavors is cut down.
pub open spec fn mixable(values: Seq<AllocatedValue>, w: Witness) -> bool {
    all_known(values) && all_carried_by(values, w) && fits(known_views(values))
}

/// A value that is on its wires has its quantity, taken into the field, and its flavor there.
pub proof fn lemma_carried_pair(a: AllocatedValue, w: Witness)
    requires
        a.assignment is Some,
        a.carried_by(w),
    ensures
        pair_on(w, a.wires()) == in_field(a.assignment->0@),
{
}

/// The number of values at the head of the list that are known.
pub open spec fn leading_known(values: Seq<AllocatedValue>) -> nat
    decreases values.len(),
{
    if values.len() == 0 || values[0].assignment is None {
        0
    } else {
        1 + leading_known(values.drop_first())
    }
}

/// The number of cells that a prover completes before it comes upon a value that it does
/// not know: a cell needs the two values at the head, and each further cell one more.
pub open spec fn cells_before_unknown(values: Seq<AllocatedValue>) -> nat {
    if leading_known(values) <= 1 {
        0
    } else {
        (leading_known(values) - 1) as nat
    }
}

/// Where the first `i` values are known and the next is not, `i` values are known at the head.
pub proof fn lemma_leading_known(values: Seq<AllocatedValue>, i: int)
    requires
        0 <= i < values.len(),
        forall|j: int| 0 <= j < i ==> (#[trigger] values[j]).assignment is Some,
        values[i].assignment is None,
    ensures
        leading_known(values) == i,
    decreases i,
{
    if i > 0 {
        let rest = values.drop_first();
        assert forall|j: int| 0 <= j < i - 1 implies (#[trigger] rest[j]).assignment is Some by {
            assert(rest[j] == values[j + 1]);
        }
        assert(rest[i - 1] == values[i]);
        lemma_leading_known(rest, i - 1);
    }
}

/// Chains `k - 1` mixes over `k` values: each cell takes what the cell before carried on (the
/// first cell: the first value) and the next value, leaves one value behind and carries one
/// on. Hands back the `k` values that come out: those left behind, then the one carried on
/// at the end. For fewer than two values nothing is added and they come out as they are.
///
/// A prover must know every value; if it does not, it gets `MissingAssignment`, and its
/// system holds the cells that it completed before it came upon the first value that it does
/// not know. A prover that is on course and has the values on their wires stays on course and
/// has on their wires the values that come out, as long as no sum within a run of equal
/// flavors is cut down.
pub fn fill_cs(
    cs: &mut ConstraintSystem,
    inputs: &Vec<AllocatedValue>,
) -> (r: Result<Vec<AllocatedValue>, Error>)
    requires
        old(cs)@.wf(),
        old(cs)@.has_pairs(wires_of(inputs@)),
        old(cs)@.room(2 * cells(inputs.len() as nat)),
    ensures
        final(cs)@.wf(),
        r is Err == (old(cs)@.proving && inputs.len() >= 2 && !all_known(inputs@)),
        r matches Err(e) ==> e == Error::MissingAssignment,
        r is Err ==> final(cs)@ == k_mix_circuit(
            old(cs)@,
            wires_of(inputs@),
            cells_before_unknown(inputs@),
        ),
        r matches Ok(outputs) ==> {
            &&& final(cs)@ == k_mix_circuit(
                old(cs)@,
                wires_of(inputs@),
                cells(inputs.len() as nat),
            )
            &&& wires_of(outputs@) == k_mix_wires(old(cs)@.multipliers, wires_of(inputs@))
            &&& views_of(outputs@) == k_mix_values(views_of(inputs@))
            &&& final(cs)@.has_pairs(wires_of(outputs@))
        },
        final(cs).assigned().extends(old(cs).assigned()),
        r is Ok && old(cs).met() && (old(cs)@.proving ==> mixable(inputs@, old(cs).assigned()))
            ==> final(cs).met(),
        r matches Ok(outputs) ==> (old(cs).met() && old(cs)@.proving && mixable(
            inputs@,
            old(cs).assigned(),
        ) ==> all_carried_by(outputs@, final(cs).assigned())),
{
    let k = inputs.len();
    let mut outputs: Vec<AllocatedValue> = Vec::new();
    let ghost start = cs@;
    let ghost wires = wires_of(inputs@);
    let ghost values = views_of(inputs@);
    let ghost w0 = cs.assigned();
    let ghost ok = cs.met() && start.proving && mixable(inputs@, w0);
    let ghost known_values = known_views(inputs@);
    if k == 0 {
        assert(wires_of(outputs@) =~= k_mix_wires(start.multipliers, wires));
        assert(views_of(outputs@) =~= k_mix_values(values));
        return Ok(outputs);
    }
    let mut acc = inputs[0];
    assert(start.has(wires[0].0) && start.has(wires[0].1));
    assert(acc.wires() == wires[0]);
    proof {
        if ok {
            assert(values =~= known(known_values)) by {
                assert forall|j: int| 0 <= j < k implies values[j] == known(known_values)[j] by {
                    assert(inputs@[j].assignment is Some);
                }
            }
        }
    }
    let mut i: usize = 1;
    while i < k
        invariant
            1 <= i <= k,
            k == inputs.len(),
            start == old(cs)@,
            wires == wires_of(inputs@),
            values == views_of(inputs@),
            known_values == known_views(inputs@),
            w0 == old(cs).assigned(),
            ok == (old(cs).met() && start.proving && mixable(inputs@, w0)),
            ok ==> values == known(known_values),
            start.wf(),
            start.has_pairs(wires),
            start.room(2 * cells(k as nat)),
            cs@.wf(),
            cs@ == k_mix_circuit(start, wires, (i - 1) as nat),
            acc.wires() == carried_wires(start.multipliers, wires, (i - 1) as nat),
            view_of(acc.assignment) == carried(values, (i - 1) as nat),
            cs@.has(acc.q) && cs@.has(acc.f),
            outputs.len() == i - 1,
            forall|j: int|
                0 <= j < i - 1 ==> (#[trigger] outputs@[j]).wires() == left_behind_wires(
                    start.multipliers,
                    j as nat,
                ) && view_of(outputs@[j].assignment) == left_behind(values, j as nat),
            forall|j: int| 0 <= j < i - 1 ==> cs@.has((#[trigger] outputs@[j]).q) && cs@.has(outputs@[j].f),
            start.proving && i >= 2 ==> forall|j: int|
                0 <= j < i ==> (#[trigger] inputs@[j]).assignment is Some,
            start.proving && i >= 2 ==> acc.assignment is Some,
            i == 1 ==> acc == inputs@[0],
            cs.assigned().extends(w0),
            old(cs).met() && !start.proving ==> cs.met(),
            ok ==> cs.met(),
            ok ==> acc.carried_by(cs.assigned()),
            ok ==> all_carried_by(outputs@, cs.assigned()),
        decreases k - i,
    {
        proof {
            lemma_k_mix_circuit(start, wires, (i - 1) as nat);
        }
        let ghost before = cs@;
        let ghost w_head = cs.assigned();
        let b = inputs[i];
        assert(start.has(wires[i as int].0) && start.has(wires[i as int].1));
        assert(b.wires() == wires[i as int]);
        assert(values[i as int] == view_of(b.assignment));
        assert(values[0] == view_of(inputs@[0].assignment));
        let (left_value, carried_value) = mix_values(acc.assignment, b.assignment);
        let left = match allocate_known(cs, left_value) {
            Ok(left) => left,
            Err(e) => {
                assert(b.assignment is None || acc.assignment is None);
                assert(!all_known(inputs@)) by {
                    if b.assignment is None {
                        assert(inputs@[i as int].assignment is None);
                    } else {
                        assert(i == 1);
                        assert(inputs@[0].assignment is None);
                    }
                }
                assert(cells_before_unknown(inputs@) == i - 1) by {
                    if inputs@[0].assignment is None {
                        lemma_leading_known(inputs@, 0);
                    } else {
                        assert(inputs@[i as int].assignment is None);
                        lemma_leading_known(inputs@, i as int);
                    }
                }
                return Err(e);
            },
        };
        let ghost w_mid = cs.assigned();
        let carried_on = match allocate_known(cs, carried_value) {
            Ok(carried_on) => carried_on,
            Err(e) => {
                return Err(e);
            },
        };
        proof {
            lemma_has_grows(before, cs@, acc.q);
            lemma_has_grows(before, cs@, acc.f);
            lemma_has_grows(start, cs@, b.q);
            lemma_has_grows(start, cs@, b.f);
            lemma_has_grows(before.allocated(), cs@, left.q);
            lemma_has_grows(before.allocated(), cs@, left.f);
            let w = cs.assigned();
            lemma_extends_trans(w_head, w_mid, w);
            lemma_extends_trans(w0, w_head, w);
            if ok {
                // every value of the cell is on its wires
                lemma_carried_extends(acc, w_head, w, before);
                lemma_carried_extends(b, w0, w, start);
                lemma_carried_extends(left, w_mid, w, before.allocated());
                assert forall|j: int| 0 <= j < i - 1 implies (#[trigger] outputs@[j]).carried_by(
                    w,
                ) by {
                    lemma_carried_extends(outputs@[j], w_head, w, before);
                }
                lemma_carried_pair(acc, w);
                lemma_carried_pair(b, w);
                lemma_carried_pair(left, w);
                lemma_carried_pair(carried_on, w);
                // known values are passed on or merged
                let a_view = acc.assignment->0@;
                let b_view = b.assignment->0@;
                lemma_carried(known_values, (i - 1) as nat);
                assert(known(known_values)[i as int] == Some(known_values[i as int]));
                assert(a_view == (run_total(known_values, i - 1), known_values[i - 1].1));
                assert(b_view == known_values[i as int]);
                lemma_mixed_is_passed_or_merged(a_view, b_view);
                assert(ready(
                    w,
                    Deferred::Mix(acc.wires(), b.wires(), left.wires(), carried_on.wires()),
                ));
            }
        }
        let _ = crate::gadgets::mix::fill_cs(cs, acc, b, left, carried_on);
        proof {
            assert forall|j: int| 0 <= j < i - 1 implies cs@.has((#[trigger] outputs@[j]).q)
                && cs@.has(outputs@[j].f) by {
                lemma_has_grows(before, cs@, outputs@[j].q);
                lemma_has_grows(before, cs@, outputs@[j].f);
            }
            assert forall|j: int| 0 <= j < i + 1 && start.proving implies (
            #[trigger] inputs@[j]).assignment is Some by {
                if i == 1 {
                    assert(acc == inputs@[0]);
                }
            }
        }
        outputs.push(left);
        acc = carried_on;
        i = i + 1;
    }
    proof {
        lemma_k_mix_circuit(start, wires, (k - 1) as nat);
    }
    outputs.push(acc);
    proof {
        assert(wires_of(outputs@) =~= k_mix_wires(start.multipliers, wires));
        assert(views_of(outputs@) =~= k_mix_values(values));
        if start.proving && k >= 2 {
            assert(all_known(inputs@));
        }
        if k == 1 {
            assert(outputs@[0] == inputs@[0]);
        }
    }
    Ok(outputs)
}

/// A value with its quantity taken into the field.
pub open spec fn in_field(v: (int, nat)) -> (nat, nat) {
    (field_of(v.0), v.1)
}

/// What a mix makes of two values is, in the field, either the two values passed on or the
/// two values merged, provided that the sum of two quantities of one flavor stays below 2^64
/// in absolute value.
pub proof fn lemma_mixed_is_passed_or_merged(a: (int, nat), b: (int, nat))
    requires
        a.1 == b.1 ==> -quantity_bound() < a.0 + b.0 < quantity_bound(),
    ensures
        passes(in_field(a), in_field(b), in_field(mixed(a, b).0), in_field(mixed(a, b).1))
            || merges(in_field(a), in_field(b), in_field(mixed(a, b).0), in_field(mixed(a, b).1)),
{
    if a.1 == b.1 {
        let sum = a.0 + b.0;
        assert(narrowed(sum) == sum) by {
            if sum >= 0 {
                lemma_small_mod(sum as nat, quantity_bound() as nat);
            } else {
                lemma_small_mod((-sum) as nat, quantity_bound() as nat);
            }
        }
        lemma_field_of(0);
        lemma_field_of_reduce(a.0, b.0);
        lemma_field_of_reduce(field_of(a.0) as int, b.0);
        lemma_field_ops(field_of(a.0), field_of(b.0));
    }
}

/// The values with every one of them known.
pub open spec fn known(values: Seq<(int, nat)>) -> Seq<Option<(int, nat)>> {
    Seq::new(values.len(), |i: int| Some(values[i]))
}

/// The total of the quantities from the start of the run of equal flavors that position `i`
/// belongs to, up to position `i`. Each partial sum is narrowed to 64 bits.
pub open spec fn run_total(values: Seq<(int, nat)>, i: int) -> int
    decreases i,
{
    if i <= 0 {
        values[0].0
    } else if values[i - 1].1 == values[i].1 {
        narrowed(run_total(values, i - 1) + values[i].0)
    } else {
        values[i].0
    }
}

/// No sum within a run of equal flavors leaves the range of a signed quantity, so that no
/// total is cut down.
pub open spec fn fits(values: Seq<(int, nat)>) -> bool {
    forall|i: int|
        0 < i < values.len() && values[i - 1].1 == values[i].1 ==> -quantity_bound() < #[trigger] run_total(
            values,
            i - 1,
        ) + values[i].0 < quantity_bound()
}

/// What the chain of mixes carries on after cell `i` is the total of the run so far, in the
/// flavor of position `i`.
pub proof fn lemma_carried(values: Seq<(int, nat)>, i: nat)
    requires
        i < values.len(),
    ensures
        carried(known(values), i) == Some((run_total(values, i as int), values[i as int].1)),
    decreases i,
{
    if i > 0 {
        lemma_carried(values, (i - 1) as nat);
        assert(known(values)[i as int] == Some(values[i as int]));
    } else {
        assert(known(values)[0] == Some(values[0]));
    }
}

/// Of each run of equal flavors that stand together, the chain of mixes lets the last value
/// come out with the total of the run, and all the others come out zero.
pub proof fn lemma_k_mix_values(values: Seq<(int, nat)>, i: int)
    requires
        0 <= i < values.len(),
    ensures
        k_mix_values(known(values))[i] == (if i + 1 < values.len() && values[i].1 == values[i
            + 1].1 {
            Some((0int, 0nat))
        } else {
            Some((run_total(values, i), values[i].1))
        }),
{
    lemma_carried(values, i as nat);
    if i + 1 < values.len() {
        assert(known(values)[i + 1] == Some(values[i + 1]));
    }
}

/// The mix that cell `i + 1` of a chain puts off to the second phase, where the chain starts
/// in a system with `first` multipliers.
pub open spec fn cell_gadget(first: nat, inputs: Seq<(Variable, Variable)>, i: nat) -> Deferred {
    Deferred::Mix(
        carried_wires(first, inputs, i),
        inputs[i as int + 1],
        left_behind_wires(first, i),
        carried_wires(first, inputs, i + 1),
    )
}

/// The mixes that the first `cells` cells of a chain put off to the second phase.
pub open spec fn k_mix_gadgets(first: nat, inputs: Seq<(Variable, Variable)>, cells: nat) -> Seq<
    Deferred,
> {
    Seq::new(cells, |i: int| cell_gadget(first, inputs, i as nat))
}

/// The mixes of a chain are put off to the second phase, one for each cell.
pub proof fn lemma_k_mix_deferred(c: Circuit, inputs: Seq<(Variable, Variable)>, cells: nat)
    requires
        c.room(2 * cells),
    ensures
        k_mix_circuit(c, inputs, cells).deferred == c.deferred + k_mix_gadgets(
            c.multipliers,
            inputs,
            cells,
        ),
    decreases cells,
{
    if cells == 0 {
        assert(c.deferred + k_mix_gadgets(c.multipliers, inputs, 0) =~= c.deferred);
    } else {
        let before = k_mix_circuit(c, inputs, (cells - 1) as nat);
        lemma_k_mix_circuit(c, inputs, (cells - 1) as nat);
        lemma_k_mix_deferred(c, inputs, (cells - 1) as nat);
        let gadget = Deferred::Mix(
            carried_wires(c.multipliers, inputs, (cells - 1) as nat),
            inputs[cells as int],
            before.next_wires(),
            before.allocated().next_wires(),
        );
        assert(gadget == cell_gadget(c.multipliers, inputs, (cells - 1) as nat));
        assert(k_mix_circuit(c, inputs, cells).deferred =~= c.deferred + k_mix_gadgets(
            c.multipliers,
            inputs,
            cells,
        ));
    }
}

/// What a chain of mixes demands in the first phase: only that its new multipliers hold.
pub proof fn lemma_k_mix_demands(
    w: Witness,
    c: Circuit,
    inputs: Seq<(Variable, Variable)>,
    cells: nat,
)
    requires
        c.room(2 * cells),
    ensures
        w.satisfies(k_mix_circuit(c, inputs, cells)) == (w.satisfies(c) && multipliers_hold(
            w,
            c.multipliers,
            2 * cells,
        )),
    decreases cells,
{
    if cells > 0 {
        let before = k_mix_circuit(c, inputs, (cells - 1) as nat);
        lemma_k_mix_circuit(c, inputs, (cells - 1) as nat);
        lemma_k_mix_demands(w, c, inputs, (cells - 1) as nat);
        let gadget = Deferred::Mix(
            carried_wires(c.multipliers, inputs, (cells - 1) as nat),
            inputs[cells as int],
            before.next_wires(),
            before.allocated().next_wires(),
        );
        lemma_satisfies_postponed(w, before.allocated().allocated(), gadget);
        lemma_satisfies_allocated(w, before.allocated());
        lemma_satisfies_allocated(w, before);
        let n = c.multipliers;
        if w.satisfies(c) && multipliers_hold(w, n, 2 * cells) {
            assert(multiplier_holds(w, n + (2 * cells - 2) as nat));
            assert(multiplier_holds(w, n + (2 * cells - 1) as nat));
            assert forall|i: nat| i < 2 * (cells - 1) implies multiplier_holds(w, #[trigger] (n + i)) by {
                assert(i < 2 * cells);
            }
        }
        if w.satisfies(before) && multiplier_holds(w, before.multipliers) && multiplier_holds(
            w,
            before.multipliers + 1,
        ) {
            assert forall|i: nat| i < 2 * cells implies multiplier_holds(w, #[trigger] (n + i)) by {
                if i < 2 * (cells - 1) {
                    assert(multipliers_hold(w, n, (2 * (cells - 1)) as nat));
                } else if i == 2 * cells - 2 {
                    assert(n + i == before.multipliers);
                } else {
                    assert(n + i == before.multipliers + 1);
                }
            }
        }
    }
}

} // verus!
