use crate::circuit::Circuit;
use crate::circuit::Error;
use crate::circuit::Variable;
use crate::circuit::fresh_wires;
use crate::circuit::lemma_has_grows;
use crate::field::lemma_field_of;
use crate::field::product_by;
use crate::gadgets::product::wire;
use crate::gadgets::product::wire_terms;
use crate::gadgets::range_proof::no_zero_divisors;
use crate::gadgets::value_shuffle::lemma_value_shuffle_complete;
use crate::gadgets::value_shuffle::value_shuffle_circuit;
use crate::polynomial::distinct_elements;
use crate::r1cs::ConstraintSystem;
use crate::scalar::lemma_order;
use crate::scalar::order;
use crate::semantics::Witness;
use crate::semantics::blend;
use crate::semantics::lemma_eval_wire;
use crate::semantics::lemma_extends;
use crate::semantics::lemma_satisfies_allocated;
use crate::semantics::lemma_satisfies_constrained;
use crate::semantics::multiplier_holds;
use crate::semantics::pairs_on;
use crate::soundness::blended_product;
use crate::soundness::lemma_value_shuffle_sound;
use crate::soundness::reduced_pairs;
use crate::value::AllocatedValue;
use crate::value::Value;
use crate::value::wires_of;
use vstd::prelude::*;

verus! {

/// What one padding value adds: a multiplier whose two inputs are its quantity and flavor,
/// with the demands that both be zero.
pub open spec fn pad_circuit(c: Circuit) -> Circuit {
    let m = c.next_multiplier();
    c.allocated().constrained(wire(m.0)).constrained(wire(m.1))
}

/// What `p` padding values add.
pub open spec fn pads_circuit(c: Circuit, p: nat) -> Circuit
    decreases p,
{
    if p == 0 {
        c
    } else {
        pad_circuit(pads_circuit(c, (p - 1) as nat))
    }
}

/// The number of padding values for lists of lengths `m` and `n`.
pub open spec fn pad_count(m: nat, n: nat) -> nat {
    if m >= n {
        (m - n) as nat
    } else {
        (n - m) as nat
    }
}

/// The list `x` once the shorter of the two lists has been padded.
pub open spec fn padded(
    x: Seq<(Variable, Variable)>,
    other: nat,
    first: nat,
) -> Seq<(Variable, Variable)> {
    if x.len() < other {
        x + fresh_wires(first, (other - x.len()) as nat)
    } else {
        x
    }
}

/// What the padded shuffle adds: the padding values, then the shuffle of the two lists of
/// which the shorter has been padded.
pub open spec fn padded_shuffle_circuit(
    c: Circuit,
    x: Seq<(Variable, Variable)>,
    y: Seq<(Variable, Variable)>,
) -> Circuit {
    value_shuffle_circuit(
        pads_circuit(c, pad_count(x.len(), y.len())),
        padded(x, y.len(), c.multipliers),
        padded(y, x.len(), c.multipliers),
    )
}

/// The padding values add multipliers and constraints and nothing else.
pub proof fn lemma_pads_circuit(c: Circuit, p: nat)
    ensures
        pads_circuit(c, p).multipliers == c.multipliers + p,
        pads_circuit(c, p).committed == c.committed,
        pads_circuit(c, p).commitments == c.commitments,
        pads_circuit(c, p).proving == c.proving,
        pads_circuit(c, p).deferred == c.deferred,
        pads_circuit(c, p).constraints.len() == c.constraints.len() + 2 * p,
    decreases p,
{
    if p > 0 {
        lemma_pads_circuit(c, (p - 1) as nat);
    }
}

/// The witness after `p` more multipliers for padding values, with zero on both inputs.
pub open spec fn pads_assigned(w: Witness, p: nat) -> Witness
    decreases p,
{
    if p == 0 {
        w
    } else {
        pads_assigned(w, (p - 1) as nat).with_multiplier(0, 0)
    }
}

/// What the witness of the padding values looks like: it has grown by `p` multipliers whose
/// inputs are zero.
pub proof fn lemma_pads_assigned(w: Witness, p: nat)
    ensures
        pads_assigned(w, p).extends(w),
        pads_assigned(w, p).committed == w.committed,
        pads_assigned(w, p).left.len() == w.left.len() + p,
        pads_assigned(w, p).right.len() == w.right.len() + p,
        pads_assigned(w, p).output.len() == w.output.len() + p,
        forall|i: nat|
            i < p ==> #[trigger] pads_assigned(w, p).left[w.left.len() as int + i] == 0
                && pads_assigned(w, p).right[w.right.len() as int + i] == 0,
    decreases p,
{
    if p > 0 {
        let before = pads_assigned(w, (p - 1) as nat);
        lemma_pads_assigned(w, (p - 1) as nat);
        let after = pads_assigned(w, p);
        assert forall|i: nat| i < p implies #[trigger] after.left[w.left.len() as int + i] == 0
            && after.right[w.right.len() as int + i] == 0 by {
            if i < p - 1 {
                assert(before.left[w.left.len() as int + i] == 0);
            }
        }
    }
}

/// The number of zero values that the first of two lists of the given lengths is padded with.
pub open spec fn pads(own: nat, other: nat) -> nat {
    if own < other {
        (other - own) as nat
    } else {
        0
    }
}

/// The values on two lists of wires are reorderings of each other once the shorter list has
/// been made up with zero values.
pub open spec fn reordered_up_to_zeros(
    w: Witness,
    x: Seq<(Variable, Variable)>,
    y: Seq<(Variable, Variable)>,
) -> bool {
    (pairs_on(w, x) + zeros(pads(x.len(), y.len()))).to_multiset() == (pairs_on(w, y) + zeros(
        pads(y.len(), x.len()),
    )).to_multiset()
}

/// Demands that the values `y` be the values `x` in some order, where the longer list may
/// hold as many more values as it likes so long as the surplus is zero in quantity and flavor:
/// the shorter list is padded with wires that are constrained to zero.
pub fn fill_cs(
    cs: &mut ConstraintSystem,
    x: Vec<AllocatedValue>,
    y: Vec<AllocatedValue>,
) -> (r: Result<(), Error>)
    requires
        old(cs)@.wf(),
        old(cs)@.has_pairs(wires_of(x@)),
        old(cs)@.has_pairs(wires_of(y@)),
        old(cs)@.room(pad_count(x.len() as nat, y.len() as nat)),
    ensures
        final(cs)@.wf(),
        r is Ok,
        final(cs)@ == padded_shuffle_circuit(old(cs)@, wires_of(x@), wires_of(y@)),
        final(cs).assigned() == (if old(cs)@.proving {
            pads_assigned(old(cs).assigned(), pad_count(x.len() as nat, y.len() as nat))
        } else {
            old(cs).assigned()
        }),
        final(cs).assigned().extends(old(cs).assigned()),
        old(cs).met() && (old(cs)@.proving ==> reordered_up_to_zeros(
            old(cs).assigned(),
            wires_of(x@),
            wires_of(y@),
        )) ==> final(cs).met(),
{
    let mut x = x;
    let mut y = y;
    let ghost start = cs@;
    let ghost w0 = cs.assigned();
    let ghost was_met = cs.met();
    let ghost x0 = x@;
    let ghost y0 = y@;
    let m = x.len();
    let n = y.len();
    let count = if m >= n {
        m - n
    } else {
        n - m
    };
    let mut pad_values: Vec<AllocatedValue> = Vec::new();
    let mut i: usize = 0;
    while i < count
        invariant
            i <= count,
            count == pad_count(m as nat, n as nat),
            start.wf(),
            start.room(count as nat),
            cs@.wf(),
            cs@ == pads_circuit(start, i as nat),
            pad_values.len() == i,
            wires_of(pad_values@) == fresh_wires(start.multipliers, i as nat),
            cs.assigned() == (if start.proving {
                pads_assigned(w0, i as nat)
            } else {
                w0
            }),
            was_met ==> cs.met(),
        decreases count - i,
    {
        proof {
            lemma_pads_circuit(start, i as nat);
            lemma_order();
            lemma_field_of(0);
        }
        let ghost before = cs@;
        let ghost w_before = cs.assigned();
        let pad = match Value::zero().allocate(cs) {
            Ok(pad) => pad,
            Err(e) => {
                return Err(e);
            },
        };
        proof {
            assert(pad.wires() == before.next_wires());
            assert(cs@.has(pad.q) && cs@.has(pad.f));
            if start.proving && was_met {
                let w = cs.assigned();
                assert(w == w_before.with_multiplier(0, 0));
                assert(w_before.left.len() == before.multipliers);
                assert(w.value(pad.q) == 0 && w.value(pad.f) == 0);
                lemma_eval_wire(w, pad.q);
                lemma_eval_wire(w, pad.f);
            }
        }
        cs.constrain(&wire_terms(pad.q));
        cs.constrain(&wire_terms(pad.f));
        let ghost old_pads = pad_values@;
        pad_values.push(pad);
        assert(wires_of(pad_values@) =~= fresh_wires(start.multipliers, (i + 1) as nat)) by {
            assert forall|j: int| 0 <= j < i + 1 implies wires_of(pad_values@)[j] == fresh_wires(
                start.multipliers,
                (i + 1) as nat,
            )[j] by {
                if j < i {
                    assert(wires_of(pad_values@)[j] == wires_of(old_pads)[j]);
                    assert(wires_of(old_pads)[j] == fresh_wires(start.multipliers, i as nat)[j]);
                } else {
                    assert(pad.wires() == before.next_wires());
                }
            }
        }
        i = i + 1;
    }
    if m > n {
        y.append(&mut pad_values);
    } else if m < n {
        x.append(&mut pad_values);
    }
    proof {
        lemma_pads_circuit(start, count as nat);
        assert(wires_of(x@) =~= padded(wires_of(x0), n as nat, start.multipliers));
        assert(wires_of(y@) =~= padded(wires_of(y0), m as nat, start.multipliers));
        assert forall|j: int| 0 <= j < x.len() implies cs@.has((#[trigger] wires_of(x@)[j]).0)
            && cs@.has(wires_of(x@)[j].1) by {
            if j < m {
                lemma_has_grows(start, cs@, wires_of(x0)[j].0);
                lemma_has_grows(start, cs@, wires_of(x0)[j].1);
            }
        }
        assert forall|j: int| 0 <= j < y.len() implies cs@.has((#[trigger] wires_of(y@)[j]).0)
            && cs@.has(wires_of(y@)[j].1) by {
            if j < n {
                lemma_has_grows(start, cs@, wires_of(y0)[j].0);
                lemma_has_grows(start, cs@, wires_of(y0)[j].1);
            }
        }
        lemma_pads_assigned(w0, count as nat);
        if start.proving && was_met && reordered_up_to_zeros(w0, wires_of(x0), wires_of(y0)) {
            let w = cs.assigned();
            lemma_extends(w0, w, start, Seq::empty());
            assert(w0.left.len() == start.multipliers);
            assert(pairs_on(w, wires_of(x@)) =~= pairs_on(w0, wires_of(x0)) + zeros(
                pads(m as nat, n as nat),
            )) by {
                assert forall|j: int| 0 <= j < x.len() implies pairs_on(w, wires_of(x@))[j] == (
                pairs_on(w0, wires_of(x0)) + zeros(pads(m as nat, n as nat)))[j] by {
                    if j < m {
                        assert(start.has(wires_of(x0)[j].0) && start.has(wires_of(x0)[j].1));
                    } else {
                        assert(w.left[w0.left.len() as int + (j - m) as nat] == 0);
                    }
                }
            }
            assert(pairs_on(w, wires_of(y@)) =~= pairs_on(w0, wires_of(y0)) + zeros(
                pads(n as nat, m as nat),
            )) by {
                assert forall|j: int| 0 <= j < y.len() implies pairs_on(w, wires_of(y@))[j] == (
                pairs_on(w0, wires_of(y0)) + zeros(pads(n as nat, m as nat)))[j] by {
                    if j < n {
                        assert(start.has(wires_of(y0)[j].0) && start.has(wires_of(y0)[j].1));
                    } else {
                        assert(w.left[w0.left.len() as int + (j - n) as nat] == 0);
                    }
                }
            }
        }
    }
    crate::gadgets::value_shuffle::fill_cs(cs, x, y)
}

/// Multiplier `j` holds a padding value: both its inputs are zero.
pub open spec fn pad_holds(w: Witness, j: nat) -> bool {
    multiplier_holds(w, j) && w.left[j as int] == 0 && w.right[j as int] == 0
}

/// What one padding value demands: a witness meets the extended system exactly when it meets
/// the system before and the new multiplier holds a padding value.
pub proof fn lemma_pad_demands(w: Witness, c: Circuit)
    requires
        c.room(1),
    ensures
        w.satisfies(pad_circuit(c)) == (w.satisfies(c) && pad_holds(w, c.multipliers)),
{
    let m = c.next_multiplier();
    let c1 = c.allocated();
    let c2 = c1.constrained(wire(m.0));
    lemma_satisfies_constrained(w, c2, wire(m.1));
    lemma_satisfies_constrained(w, c1, wire(m.0));
    lemma_satisfies_allocated(w, c);
    lemma_eval_wire(w, m.0);
    lemma_eval_wire(w, m.1);
    if multiplier_holds(w, c.multipliers) {
        lemma_field_of(w.value(m.0) as int);
        lemma_field_of(w.value(m.1) as int);
    }
}

/// What `p` padding values demand: a witness meets the extended system exactly when it meets
/// the system before and every new multiplier holds a padding value.
pub proof fn lemma_pads_demands(w: Witness, c: Circuit, p: nat)
    requires
        c.room(p),
    ensures
        w.satisfies(pads_circuit(c, p)) == (w.satisfies(c) && forall|i: nat|
            i < p ==> pad_holds(w, #[trigger] (c.multipliers + i))),
    decreases p,
{
    if p > 0 {
        let before = pads_circuit(c, (p - 1) as nat);
        lemma_pads_circuit(c, (p - 1) as nat);
        lemma_pads_demands(w, c, (p - 1) as nat);
        lemma_pad_demands(w, before);
        if w.satisfies(c) && (forall|i: nat| i < p ==> pad_holds(w, #[trigger] (c.multipliers + i))) {
            assert(pad_holds(w, c.multipliers + (p - 1) as nat));
            assert forall|i: nat| i < p - 1 implies pad_holds(w, #[trigger] (c.multipliers + i)) by {
                assert(i < p);
            }
        }
        if w.satisfies(before) && pad_holds(w, before.multipliers) {
            assert forall|i: nat| i < p implies pad_holds(w, #[trigger] (c.multipliers + i)) by {
                if i < p - 1 {
                } else {
                    assert(c.multipliers + i == before.multipliers);
                }
            }
        }
    }
}

/// `k` values that are zero in quantity and in flavor.
pub open spec fn zeros(k: nat) -> Seq<(nat, nat)> {
    Seq::new(k, |i: int| (0nat, 0nat))
}

/// Padding is neutral: whatever the challenges, the products that the padded shuffle compares
/// are equal when the longer list is a reordering of the shorter list and as many zero values
/// as it takes to make up the difference.
pub proof fn lemma_padded_shuffle_complete(
    x: Seq<(nat, nat)>,
    y: Seq<(nat, nat)>,
    c: nat,
    z: nat,
)
    requires
        x.len() <= y.len(),
        y.to_multiset() == (x + zeros((y.len() - x.len()) as nat)).to_multiset(),
    ensures
        product_by(x + zeros((y.len() - x.len()) as nat), |v: (nat, nat)| blend(v, c, z))
            == product_by(y, |v: (nat, nat)| blend(v, c, z)),
{
    lemma_value_shuffle_complete(x + zeros((y.len() - x.len()) as nat), y, c, z);
}

/// Zero values added at the end change the count of no other value.
pub proof fn lemma_zeros_count(values: Seq<(nat, nat)>, k: nat, v: (nat, nat))
    requires
        v != (0nat, 0nat),
    ensures
        (values + zeros(k)).to_multiset().count(v) == values.to_multiset().count(v),
    decreases k,
{
    broadcast use vstd::multiset::group_multiset_axioms;

    if k == 0 {
        assert(values + zeros(0) =~= values);
    } else {
        let before = values + zeros((k - 1) as nat);
        assert(values + zeros(k) =~= before.push((0nat, 0nat)));
        before.to_multiset_ensures();
        lemma_zeros_count(values, (k - 1) as nat, v);
    }
}

/// Padding lets nothing in: in a field without zero divisors, where the padded shuffle
/// passes for more weights than the longer list has values, each with more challenges than
/// that, the two lists are reorderings of each other once the shorter has been made up with
/// zero values. So every value that is not zero in quantity and flavor occurs as often in
/// the one list as in the other, and a surplus that is not zero passes only if one of few
/// weights or one of few challenges is drawn.
pub proof fn lemma_padded_shuffle_sound(
    x: Seq<(nat, nat)>,
    y: Seq<(nat, nat)>,
    weights: Seq<nat>,
    challenges: Seq<Seq<nat>>,
)
    requires
        no_zero_divisors(),
        x.len() + 1 < order(),
        y.len() + 1 < order(),
        reduced_pairs(x),
        reduced_pairs(y),
        weights.len() > x.len(),
        weights.len() > y.len(),
        distinct_elements(weights),
        challenges.len() == weights.len(),
        forall|i: int|
            0 <= i < weights.len() ==> (#[trigger] challenges[i]).len() > x.len()
                && challenges[i].len() > y.len() && distinct_elements(challenges[i]),
        forall|i: int, t: int|
            0 <= i < weights.len() && 0 <= t < challenges[i].len() ==> blended_product(
                x + zeros(pads(x.len(), y.len())),
                weights[i],
                #[trigger] challenges[i][t],
            ) == blended_product(
                y + zeros(pads(y.len(), x.len())),
                weights[i],
                challenges[i][t],
            ),
    ensures
        (x + zeros(pads(x.len(), y.len()))).to_multiset() == (y + zeros(
            pads(y.len(), x.len()),
        )).to_multiset(),
        forall|v: (nat, nat)|
            v != (0nat, 0nat) ==> x.to_multiset().count(v) == #[trigger] y.to_multiset().count(v),
{
    let px = x + zeros(pads(x.len(), y.len()));
    let py = y + zeros(pads(y.len(), x.len()));
    lemma_order();
    assert(reduced_pairs(px)) by {
        assert forall|i: int| 0 <= i < px.len() implies (#[trigger] px[i]).0 < order() && px[i].1
            < order() by {
            if i < x.len() {
                assert(px[i] == x[i]);
            }
        }
    }
    assert(reduced_pairs(py)) by {
        assert forall|i: int| 0 <= i < py.len() implies (#[trigger] py[i]).0 < order() && py[i].1
            < order() by {
            if i < y.len() {
                assert(py[i] == y[i]);
            }
        }
    }
    lemma_value_shuffle_sound(px, py, weights, challenges);
    assert forall|v: (nat, nat)| v != (0nat, 0nat) implies x.to_multiset().count(v)
        == #[trigger] y.to_multiset().count(v) by {
        lemma_zeros_count(x, pads(x.len(), y.len()), v);
        lemma_zeros_count(y, pads(y.len(), x.len()), v);
    }
}

} // verus!
