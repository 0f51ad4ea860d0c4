use crate::circuit::Circuit;
use crate::circuit::Deferred;
use crate::circuit::Error;
use crate::circuit::Variable;
use crate::circuit::fresh_wires;
use crate::circuit::lemma_has_fresh_wires;
use crate::circuit::lemma_has_grows;
use crate::circuit::lemma_has_pairs_grows;
use crate::circuit::lemma_has_pairs_more;
use crate::conservation::in_field_all;
use crate::conservation::in_runs;
use crate::conservation::lemma_light_fits;
use crate::conservation::lemma_light_reordered;
use crate::conservation::lemma_mixed_out;
use crate::conservation::lemma_rearrangement_passes;
use crate::conservation::lemma_reordered;
use crate::conservation::light;
use crate::conservation::mixed_out;
use crate::conservation::present;
use crate::conservation::total;
use crate::conservation::zero_values;
use crate::field::lemma_field_of;
use crate::gadgets::k_mix::all_known;
use crate::gadgets::k_mix::in_field;
use crate::gadgets::k_mix::k_mix_values;
use crate::gadgets::k_mix::known;
use crate::gadgets::merge::fill_cs;
use crate::gadgets::merge::lemma_has_merge_outputs;
use crate::gadgets::merge::lemma_map_permutation;
use crate::gadgets::merge::lemma_merge_circuit;
use crate::gadgets::merge::lemma_merge_deferred;
use crate::gadgets::merge::lemma_merge_demands;
use crate::gadgets::merge::merge_circuit;
use crate::gadgets::merge::merge_gadgets;
use crate::gadgets::merge::merge_multipliers;
use crate::gadgets::merge::merge_outputs;
use crate::gadgets::padded_shuffle::lemma_pads_circuit;
use crate::gadgets::padded_shuffle::lemma_pads_demands;
use crate::gadgets::padded_shuffle::pad_count;
use crate::gadgets::padded_shuffle::pad_holds;
use crate::gadgets::padded_shuffle::padded;
use crate::gadgets::padded_shuffle::padded_shuffle_circuit;
use crate::gadgets::padded_shuffle::pads;
use crate::gadgets::padded_shuffle::pads_circuit;
use crate::gadgets::padded_shuffle::reordered_up_to_zeros;
use crate::gadgets::padded_shuffle::zeros;
use crate::gadgets::randomized::completed;
use crate::gadgets::randomized::deferred_multipliers;
use crate::gadgets::randomized::demanded;
use crate::gadgets::randomized::lemma_completed_demands;
use crate::gadgets::randomized::ready;
use crate::gadgets::range_proof::bits_hold;
use crate::gadgets::range_proof::bits_sum;
use crate::gadgets::range_proof::lemma_bit_is_binary;
use crate::gadgets::range_proof::lemma_bits_circuit;
use crate::gadgets::range_proof::lemma_bits_sum_bound;
use crate::gadgets::range_proof::lemma_range_proof_demands;
use crate::gadgets::range_proof::no_zero_divisors;
use crate::gadgets::range_proof::range_proof;
use crate::gadgets::range_proof::range_proof_circuit;
use crate::gadgets::value_shuffle::lemma_value_shuffle_circuit;
use crate::gadgets::value_shuffle::lemma_value_shuffle_first_phase;
use crate::gadgets::value_shuffle::value_shuffle_circuit;
use crate::gadgets::value_shuffle::value_shuffle_gadgets;
use crate::r1cs::ConstraintSystem;
use crate::scalar::field_of;
use crate::scalar::lemma_order;
use crate::scalar::order;
use crate::semantics::Witness;
use crate::semantics::lemma_covered;
use crate::semantics::lemma_covers_within;
use crate::semantics::lemma_extends_trans;
use crate::semantics::pairs_on;
use crate::value::AllocatedValue;
use crate::value::all_carried_by;
use crate::value::known_views;
use crate::value::lemma_all_carried_extends;
use crate::value::quantity_bound;
use crate::value::views_of;
use crate::value::wires_of;
use vstd::arithmetic::power2::lemma2_to64;
use vstd::arithmetic::power2::pow2;
use vstd::prelude::*;

verus! {

/// What the range proofs of the first `n` quantities add, 64 bits each.
pub open spec fn ranges_circuit(c: Circuit, y: Seq<(Variable, Variable)>, n: nat) -> Circuit
    decreases n,
{
    if n == 0 {
        c
    } else {
        range_proof_circuit(ranges_circuit(c, y, (n - 1) as nat), y[n - 1].0, 64)
    }
}

/// The system after the merge of the inputs and the split of the outputs.
pub open spec fn cloak_mixed(c: Circuit, m: nat, n: nat) -> Circuit {
    merge_circuit(merge_circuit(c, m), n)
}

/// The inputs in grouped order, as the merge allocates them.
pub open spec fn merge_in_wires(c: Circuit, m: nat) -> Seq<(Variable, Variable)> {
    fresh_wires(c.multipliers, m)
}

/// What comes out of the merge.
pub open spec fn merge_out_wires(c: Circuit, m: nat) -> Seq<(Variable, Variable)> {
    merge_outputs(c.multipliers, m)
}

/// The outputs in grouped order, as the split allocates them.
pub open spec fn split_out_wires(c: Circuit, m: nat, n: nat) -> Seq<(Variable, Variable)> {
    fresh_wires(c.multipliers + merge_multipliers(m), n).reverse()
}

/// What goes into the split.
pub open spec fn split_in_wires(c: Circuit, m: nat, n: nat) -> Seq<(Variable, Variable)> {
    merge_outputs(c.multipliers + merge_multipliers(m), n).reverse()
}

/// The system after the shuffle that ties the inputs to the merge.
pub open spec fn cloak_first(
    c: Circuit,
    x: Seq<(Variable, Variable)>,
    y: Seq<(Variable, Variable)>,
) -> Circuit {
    value_shuffle_circuit(cloak_mixed(c, x.len(), y.len()), x, merge_in_wires(c, x.len()))
}

/// The system after the padded shuffle that ties the merge to the split.
pub open spec fn cloak_second(
    c: Circuit,
    x: Seq<(Variable, Variable)>,
    y: Seq<(Variable, Variable)>,
) -> Circuit {
    padded_shuffle_circuit(
        cloak_first(c, x, y),
        merge_out_wires(c, x.len()),
        split_in_wires(c, x.len(), y.len()),
    )
}

/// The system after the shuffle that ties the split to the outputs.
pub open spec fn cloak_third(
    c: Circuit,
    x: Seq<(Variable, Variable)>,
    y: Seq<(Variable, Variable)>,
) -> Circuit {
    value_shuffle_circuit(cloak_second(c, x, y), split_out_wires(c, x.len(), y.len()), y)
}

/// What the whole transaction adds to a system: the merge of the inputs, the split of the
/// outputs, the three shuffles that tie them together, and a range proof for each output.
pub open spec fn cloak_circuit(
    c: Circuit,
    x: Seq<(Variable, Variable)>,
    y: Seq<(Variable, Variable)>,
) -> Circuit {
    ranges_circuit(cloak_third(c, x, y), y, y.len())
}

/// The number of multipliers that the transaction allocates in the first phase, for `m`
/// inputs and `n` outputs.
pub open spec fn cloak_multipliers(m: nat, n: nat) -> nat {
    merge_multipliers(m) + merge_multipliers(n) + pad_count(m, n) + 64 * n
}

/// The range proofs add multipliers and constraints and nothing else.
pub proof fn lemma_ranges_circuit(c: Circuit, y: Seq<(Variable, Variable)>, n: nat)
    ensures
        ranges_circuit(c, y, n).multipliers == c.multipliers + 64 * n,
        ranges_circuit(c, y, n).committed == c.committed,
        ranges_circuit(c, y, n).commitments == c.commitments,
        ranges_circuit(c, y, n).proving == c.proving,
        ranges_circuit(c, y, n).deferred == c.deferred,
    decreases n,
{
    if n > 0 {
        lemma_ranges_circuit(c, y, (n - 1) as nat);
        lemma_bits_circuit(ranges_circuit(c, y, (n - 1) as nat), 64);
    }
}

/// A prover is set for a transaction: it has the inputs and outputs on their wires, and they
/// balance.
pub open spec fn set_for(
    inputs: Seq<AllocatedValue>,
    outputs: Seq<AllocatedValue>,
    w: Witness,
) -> bool {
    &&& all_carried_by(inputs, w)
    &&& all_carried_by(outputs, w)
    &&& balanced(known_views(inputs), known_views(outputs))
}

/// Demands that the outputs be a rearrangement of the inputs in which quantities are moved
/// only between values of one flavor, and that every output quantity lie in `[0, 2^64)`.
///
/// The inputs are merged by flavor, the outputs are split by flavor, and three shuffles tie
/// the inputs to the merge, the merge to the split (up to padding with zero values) and the
/// split to the outputs.
///
/// A verifier gets wires without values. A prover must know every input and every output;
/// if it does not, it gets `MissingAssignment`: where an input is unknown its system is left
/// as it was, and where only an output is unknown its system holds the merge of the inputs
/// and nothing more. A prover that is on course and set for the
/// transaction stays on course: it assigns values that meet every constraint of the first
/// phase, and every gadget that it puts off is ready.
pub fn cloak(
    cs: &mut ConstraintSystem,
    inputs: Vec<AllocatedValue>,
    outputs: Vec<AllocatedValue>,
) -> (r: Result<(), Error>)
    requires
        old(cs)@.wf(),
        old(cs)@.has_pairs(wires_of(inputs@)),
        old(cs)@.has_pairs(wires_of(outputs@)),
        old(cs)@.room(cloak_multipliers(inputs.len() as nat, outputs.len() as nat)),
    ensures
        final(cs)@.wf(),
        r is Err == (old(cs)@.proving && ((inputs.len() >= 1 && !all_known(inputs@)) || (
        outputs.len() >= 1 && !all_known(outputs@)))),
        r matches Err(e) ==> e == Error::MissingAssignment,
        r is Err ==> final(cs)@ == (if inputs.len() >= 1 && !all_known(inputs@) {
            old(cs)@
        } else {
            merge_circuit(old(cs)@, inputs.len() as nat)
        }),
        r is Ok ==> final(cs)@ == cloak_circuit(old(cs)@, wires_of(inputs@), wires_of(outputs@)),
        r is Ok && old(cs).met() && (old(cs)@.proving ==> set_for(
            inputs@,
            outputs@,
            old(cs).assigned(),
        )) ==> final(cs).met(),
{
    let ghost start = cs@;
    let ghost x = wires_of(inputs@);
    let ghost y = wires_of(outputs@);
    let ghost w0 = cs.assigned();
    let ghost ok = cs.met() && start.proving && set_for(inputs@, outputs@, w0);
    let ghost easy = cs.met() && !start.proving;
    let ghost iv = known_views(inputs@);
    let ghost ov = known_views(outputs@);
    let m = inputs.len();
    let n = outputs.len();
    proof {
        lemma_merge_circuit(start, m as nat);
        lemma_merge_circuit(merge_circuit(start, m as nat), n as nat);
    }
    let (merge_in, merge_out) = match fill_cs(cs, &inputs) {
        Ok(pair) => pair,
        Err(e) => {
            return Err(e);
        },
    };
    let ghost merged = cs@;
    let ghost w1 = cs.assigned();
    let (split_out, split_in) = match crate::gadgets::split::fill_cs(cs, &outputs) {
        Ok(pair) => pair,
        Err(e) => {
            return Err(e);
        },
    };
    let ghost split = cs@;
    let ghost w2 = cs.assigned();
    proof {
        lemma_has_pairs_grows(start, split, x);
        lemma_has_pairs_grows(start, split, y);
        lemma_has_pairs_grows(merged, split, wires_of(merge_in@));
        lemma_has_pairs_grows(merged, split, wires_of(merge_out@));
        lemma_extends_trans(w0, w1, w2);
        if ok {
            assert(all_known(inputs@) && all_known(outputs@));
            lemma_all_carried_extends(inputs@, w0, w2, start);
            lemma_all_carried_extends(outputs@, w0, w2, start);
            lemma_all_carried_extends(merge_in@, w1, w2, merged);
            lemma_all_carried_extends(merge_out@, w1, w2, merged);
            lemma_shuffle_ready(inputs@, merge_in@, w2);
        }
    }
    match crate::gadgets::value_shuffle::fill_cs(cs, inputs, merge_in) {
        Ok(()) => {},
        Err(e) => {
            return Err(e);
        },
    }
    let ghost first = cs@;
    proof {
        lemma_value_shuffle_circuit(split, x, fresh_wires(start.multipliers, m as nat));
        lemma_has_pairs_grows(split, first, wires_of(merge_out@));
        lemma_has_pairs_grows(split, first, wires_of(split_in@));
        lemma_has_pairs_grows(split, first, wires_of(split_out@));
        lemma_has_pairs_grows(start, first, y);
        assert(wires_of(merge_out@).len() == merge_outputs(start.multipliers, m as nat).len());
        assert(wires_of(split_in@).len() == merge_outputs(merged.multipliers, n as nat).len());
        assert(merge_out.len() == m && split_in.len() == n);
        assert(pad_count(merge_out.len() as nat, split_in.len() as nat) == pad_count(
            m as nat,
            n as nat,
        ));
        if ok {
            assert(wires_of(split_out@).len() == n && wires_of(merge_in@).len() == m);
            assert(split_out.len() == n && merge_in.len() == m);
            lemma_middle_ready(iv, ov, merge_in@, merge_out@, split_out@, split_in@, w2);
        }
    }
    let ghost split_out_values = split_out@;
    match crate::gadgets::padded_shuffle::fill_cs(cs, merge_out, split_in) {
        Ok(()) => {},
        Err(e) => {
            return Err(e);
        },
    }
    let ghost second = cs@;
    let ghost w3 = cs.assigned();
    proof {
        lemma_pads_circuit(first, pad_count(m as nat, n as nat));
        lemma_value_shuffle_circuit(
            pads_circuit(first, pad_count(m as nat, n as nat)),
            padded(
                merge_outputs(start.multipliers, m as nat),
                n as nat,
                first.multipliers,
            ),
            padded(
                merge_outputs(merged.multipliers, n as nat).reverse(),
                m as nat,
                first.multipliers,
            ),
        );
        lemma_has_pairs_grows(split, second, wires_of(split_out@));
        lemma_has_pairs_grows(start, second, y);
        lemma_extends_trans(w0, w2, w3);
        if ok {
            lemma_all_carried_extends(split_out_values, w2, w3, first);
            lemma_all_carried_extends(outputs@, w2, w3, first);
            lemma_shuffle_ready(split_out_values, outputs@, w3);
        }
    }
    match crate::gadgets::value_shuffle::fill_cs(cs, split_out, copy_of(&outputs)) {
        Ok(()) => {},
        Err(e) => {
            return Err(e);
        },
    }
    let ghost third = cs@;
    proof {
        lemma_value_shuffle_circuit(
            second,
            fresh_wires(merged.multipliers, n as nat).reverse(),
            y,
        );
    }
    let mut i: usize = 0;
    while i < n
        invariant
            i <= n,
            n == outputs.len(),
            y == wires_of(outputs@),
            ov == known_views(outputs@),
            start == old(cs)@,
            start.has_pairs(y),
            start.proving ==> all_known(outputs@),
            third.wf(),
            third.proving == start.proving,
            start.within(third),
            third.room(64 * n as nat),
            cs@.wf(),
            cs@ == ranges_circuit(third, y, i as nat),
            easy ==> !start.proving,
            easy ==> cs.met(),
            ok ==> start.proving,
            ok ==> cs.met(),
            ok ==> all_carried_by(outputs@, cs.assigned()),
            ok ==> forall|j: int| 0 <= j < n ==> 0 <= (#[trigger] ov[j]).0 < quantity_bound(),
        decreases n - i,
    {
        let ghost before = cs@;
        let ghost w_before = cs.assigned();
        proof {
            lemma_ranges_circuit(third, y, i as nat);
            assert(start.has(y[i as int].0));
            lemma_has_grows(start, cs@, y[i as int].0);
            assert(outputs@[i as int].wires() == y[i as int]);
            lemma_has_pairs_grows(start, before, y);
            if ok {
                lemma2_to64();
                assert(outputs@[i as int].assignment is Some);
                assert(outputs@[i as int].carried_by(w_before));
                assert(0 <= ov[i as int].0 < quantity_bound());
            }
        }
        match range_proof(cs, outputs[i].quantity(), 64) {
            Ok(()) => {},
            Err(e) => {
                proof {
                    if start.proving {
                        assert(outputs@[i as int].assignment is Some);
                    }
                    assert(false);
                }
                return Err(e);
            },
        }
        proof {
            if ok {
                lemma_all_carried_extends(outputs@, w_before, cs.assigned(), before);
            }
        }
        i = i + 1;
    }
    Ok(())
}

/// Copies the allocated values.
fn copy_of(values: &Vec<AllocatedValue>) -> (r: Vec<AllocatedValue>)
    ensures
        r@ == values@,
{
    let mut r: Vec<AllocatedValue> = Vec::new();
    let mut i: usize = 0;
    while i < values.len()
        invariant
            i <= values.len(),
            r@ == values@.take(i as int),
        decreases values.len() - i,
    {
        r.push(values[i]);
        assert(values@.take(i as int + 1) =~= values@.take(i as int).push(values@[i as int]));
        i = i + 1;
    }
    assert(values@.take(values.len() as int) == values@);
    r
}

/// What the range proofs of the first `n` quantities demand: a witness that meets the
/// extended system meets the system before, and each quantity is, in the field, the number
/// that the right inputs of its 64 multipliers spell.
pub proof fn lemma_ranges_demands(w: Witness, c: Circuit, y: Seq<(Variable, Variable)>, n: nat)
    requires
        c.room(64 * n),
        n <= y.len(),
        forall|i: int| 0 <= i < n ==> w.value(#[trigger] y[i].0) < order(),
        w.satisfies(ranges_circuit(c, y, n)),
    ensures
        w.satisfies(c),
        forall|i: nat|
            i < n ==> bits_hold(w, #[trigger] (c.multipliers + 64 * i), 64) && w.value(
                y[i as int].0,
            ) == field_of(bits_sum(w, c.multipliers + 64 * i, 64)),
    decreases n,
{
    if n > 0 {
        let before = ranges_circuit(c, y, (n - 1) as nat);
        lemma_ranges_circuit(c, y, (n - 1) as nat);
        assert(w.value(y[n - 1].0) < order());
        lemma_range_proof_demands(w, before, y[n - 1].0, 64);
        lemma_ranges_demands(w, c, y, (n - 1) as nat);
        assert forall|i: nat| i < n implies bits_hold(w, #[trigger] (c.multipliers + 64 * i), 64)
            && w.value(y[i as int].0) == field_of(bits_sum(w, c.multipliers + 64 * i, 64)) by {
            if i == n - 1 {
                assert(c.multipliers + 64 * i == before.multipliers);
            }
        }
    }
}

/// The gadgets that a transaction puts off to the second phase: the mixes of the merge, the
/// mixes of the split, and the three shuffles.
pub open spec fn cloak_gadgets(
    c: Circuit,
    x: Seq<(Variable, Variable)>,
    y: Seq<(Variable, Variable)>,
) -> Seq<Deferred> {
    let m = x.len();
    let n = y.len();
    let pads_from = c.multipliers + merge_multipliers(m) + merge_multipliers(n);
    merge_gadgets(c.multipliers, m) + merge_gadgets(c.multipliers + merge_multipliers(m), n)
        + value_shuffle_gadgets(x, merge_in_wires(c, m)) + value_shuffle_gadgets(
        padded(merge_out_wires(c, m), n, pads_from),
        padded(split_in_wires(c, m, n), m, pads_from),
    ) + value_shuffle_gadgets(split_out_wires(c, m, n), y)
}

/// The merge and the split add their multipliers and their mixes and no constraint.
pub proof fn lemma_cloak_mixed(w: Witness, c: Circuit, m: nat, n: nat)
    requires
        c.room(merge_multipliers(m) + merge_multipliers(n)),
    ensures
        cloak_mixed(c, m, n).multipliers == c.multipliers + merge_multipliers(m)
            + merge_multipliers(n),
        cloak_mixed(c, m, n).committed == c.committed,
        cloak_mixed(c, m, n).commitments == c.commitments,
        cloak_mixed(c, m, n).deferred == c.deferred + merge_gadgets(c.multipliers, m)
            + merge_gadgets(c.multipliers + merge_multipliers(m), n),
        w.satisfies(cloak_mixed(c, m, n)) ==> w.satisfies(c),
{
    let merged = merge_circuit(c, m);
    lemma_merge_circuit(c, m);
    lemma_merge_circuit(merged, n);
    lemma_merge_deferred(merged, n);
    lemma_merge_deferred(c, m);
    lemma_merge_demands(w, merged, n);
    lemma_merge_demands(w, c, m);
}

/// The first shuffle adds no multiplier, and one gadget if there are two or more inputs.
pub proof fn lemma_cloak_first(
    w: Witness,
    c: Circuit,
    x: Seq<(Variable, Variable)>,
    y: Seq<(Variable, Variable)>,
)
    requires
        x.len() == 1 ==> w.value(x[0].0) < order() && w.value(x[0].1) < order() && w.value(
            merge_in_wires(c, 1)[0].0,
        ) < order() && w.value(merge_in_wires(c, 1)[0].1) < order(),
    ensures
        cloak_first(c, x, y).multipliers == cloak_mixed(c, x.len(), y.len()).multipliers,
        cloak_first(c, x, y).committed == cloak_mixed(c, x.len(), y.len()).committed,
        cloak_first(c, x, y).commitments == cloak_mixed(c, x.len(), y.len()).commitments,
        cloak_first(c, x, y).deferred == cloak_mixed(c, x.len(), y.len()).deferred
            + value_shuffle_gadgets(x, merge_in_wires(c, x.len())),
        w.satisfies(cloak_first(c, x, y)) ==> w.satisfies(cloak_mixed(c, x.len(), y.len())),
{
    let mixed = cloak_mixed(c, x.len(), y.len());
    lemma_value_shuffle_circuit(mixed, x, merge_in_wires(c, x.len()));
    lemma_value_shuffle_first_phase(w, mixed, x, merge_in_wires(c, x.len()));
}

/// The padded shuffle adds the padding values, which it demands to be zero, and one gadget
/// if the longer list has two or more values.
pub proof fn lemma_cloak_second(
    w: Witness,
    c: Circuit,
    x: Seq<(Variable, Variable)>,
    y: Seq<(Variable, Variable)>,
)
    requires
        cloak_first(c, x, y).room(pad_count(x.len(), y.len())),
        w.covers(cloak_second(c, x, y)),
        cloak_second(c, x, y).has_pairs(
            padded(merge_out_wires(c, x.len()), y.len(), cloak_first(c, x, y).multipliers),
        ),
        cloak_second(c, x, y).has_pairs(
            padded(
                split_in_wires(c, x.len(), y.len()),
                x.len(),
                cloak_first(c, x, y).multipliers,
            ),
        ),
    ensures
        cloak_second(c, x, y).multipliers == cloak_first(c, x, y).multipliers + pad_count(
            x.len(),
            y.len(),
        ),
        cloak_second(c, x, y).committed == cloak_first(c, x, y).committed,
        cloak_second(c, x, y).commitments == cloak_first(c, x, y).commitments,
        cloak_second(c, x, y).deferred == cloak_first(c, x, y).deferred + value_shuffle_gadgets(
            padded(merge_out_wires(c, x.len()), y.len(), cloak_first(c, x, y).multipliers),
            padded(
                split_in_wires(c, x.len(), y.len()),
                x.len(),
                cloak_first(c, x, y).multipliers,
            ),
        ),
        w.satisfies(cloak_second(c, x, y)) ==> w.satisfies(cloak_first(c, x, y)) && forall|i: nat|
            i < pad_count(x.len(), y.len()) ==> pad_holds(
                w,
                #[trigger] (cloak_first(c, x, y).multipliers + i),
            ),
{
    let first = cloak_first(c, x, y);
    let merge_out = merge_out_wires(c, x.len());
    let split_in = split_in_wires(c, x.len(), y.len());
    assert(merge_out.len() == x.len() && split_in.len() == y.len());
    let count = pad_count(x.len(), y.len());
    let pads = pads_circuit(first, count);
    let padded_out = padded(merge_out, y.len(), first.multipliers);
    let padded_in = padded(split_in, x.len(), first.multipliers);
    lemma_pads_circuit(first, count);
    lemma_value_shuffle_circuit(pads, padded_out, padded_in);
    assert(padded_out.len() == padded_in.len());
    if padded_out.len() == 1 {
        let second = cloak_second(c, x, y);
        lemma_covered(w, second, padded_out[0].0);
        lemma_covered(w, second, padded_out[0].1);
        lemma_covered(w, second, padded_in[0].0);
        lemma_covered(w, second, padded_in[0].1);
    }
    lemma_value_shuffle_first_phase(w, pads, padded_out, padded_in);
    lemma_pads_demands(w, first, count);
}

/// The third shuffle adds no multiplier, and one gadget if there are two or more outputs.
pub proof fn lemma_cloak_third(
    w: Witness,
    c: Circuit,
    x: Seq<(Variable, Variable)>,
    y: Seq<(Variable, Variable)>,
)
    requires
        y.len() == 1 ==> w.value(y[0].0) < order() && w.value(y[0].1) < order() && w.value(
            split_out_wires(c, x.len(), 1)[0].0,
        ) < order() && w.value(split_out_wires(c, x.len(), 1)[0].1) < order(),
    ensures
        cloak_third(c, x, y).multipliers == cloak_second(c, x, y).multipliers,
        cloak_third(c, x, y).committed == cloak_second(c, x, y).committed,
        cloak_third(c, x, y).commitments == cloak_second(c, x, y).commitments,
        cloak_third(c, x, y).deferred == cloak_second(c, x, y).deferred + value_shuffle_gadgets(
            split_out_wires(c, x.len(), y.len()),
            y,
        ),
        w.satisfies(cloak_third(c, x, y)) ==> w.satisfies(cloak_second(c, x, y)),
{
    let second = cloak_second(c, x, y);
    lemma_value_shuffle_circuit(second, split_out_wires(c, x.len(), y.len()), y);
    lemma_value_shuffle_first_phase(w, second, split_out_wires(c, x.len(), y.len()), y);
}

/// The counters of a transaction: it adds the multipliers of the merge, the split, the
/// padding values and the range proofs, no committed input, and the gadgets above.
pub proof fn lemma_cloak_circuit(
    c: Circuit,
    x: Seq<(Variable, Variable)>,
    y: Seq<(Variable, Variable)>,
)
    requires
        c.room(cloak_multipliers(x.len(), y.len())),
    ensures
        cloak_first(c, x, y).multipliers == c.multipliers + merge_multipliers(x.len())
            + merge_multipliers(y.len()),
        cloak_third(c, x, y).multipliers == cloak_first(c, x, y).multipliers + pad_count(
            x.len(),
            y.len(),
        ),
        cloak_circuit(c, x, y).multipliers == c.multipliers + cloak_multipliers(x.len(), y.len()),
        cloak_circuit(c, x, y).committed == c.committed,
        cloak_circuit(c, x, y).commitments == c.commitments,
        cloak_circuit(c, x, y).proving == c.proving,
        cloak_circuit(c, x, y).deferred == c.deferred + cloak_gadgets(c, x, y),
{
    let m = x.len();
    let n = y.len();
    let merged = merge_circuit(c, m);
    lemma_merge_circuit(c, m);
    lemma_merge_circuit(merged, n);
    lemma_merge_deferred(merged, n);
    lemma_merge_deferred(c, m);
    let mixed = cloak_mixed(c, m, n);
    lemma_value_shuffle_circuit(mixed, x, merge_in_wires(c, m));
    let first = cloak_first(c, x, y);
    let merge_out = merge_out_wires(c, m);
    let split_in = split_in_wires(c, m, n);
    assert(merge_out.len() == m && split_in.len() == n);
    let count = pad_count(m, n);
    lemma_pads_circuit(first, count);
    lemma_value_shuffle_circuit(
        pads_circuit(first, count),
        padded(merge_out, n, first.multipliers),
        padded(split_in, m, first.multipliers),
    );
    let second = cloak_second(c, x, y);
    lemma_value_shuffle_circuit(second, split_out_wires(c, m, n), y);
    lemma_ranges_circuit(cloak_third(c, x, y), y, n);
    assert(cloak_circuit(c, x, y).deferred =~= c.deferred + cloak_gadgets(c, x, y));
}

/// What a transaction demands in the first phase: a witness that meets the extended system
/// meets the system before; its padding values are zero; and each output quantity is, in
/// the field, the number that the right inputs of its 64 multipliers spell.
pub proof fn lemma_cloak_demands(
    w: Witness,
    c: Circuit,
    x: Seq<(Variable, Variable)>,
    y: Seq<(Variable, Variable)>,
)
    requires
        c.wf(),
        c.has_pairs(x),
        c.has_pairs(y),
        c.room(cloak_multipliers(x.len(), y.len())),
        w.satisfies(cloak_circuit(c, x, y)),
    ensures
        w.satisfies(c),
        forall|i: nat|
            i < pad_count(x.len(), y.len()) ==> pad_holds(
                w,
                #[trigger] (cloak_first(c, x, y).multipliers + i),
            ),
        forall|i: nat|
            i < y.len() ==> bits_hold(w, #[trigger] (cloak_third(c, x, y).multipliers + 64 * i), 64)
                && w.value(y[i as int].0) == field_of(
                bits_sum(w, cloak_third(c, x, y).multipliers + 64 * i, 64),
            ),
{
    let m = x.len();
    let n = y.len();
    let first = cloak_first(c, x, y);
    let second = cloak_second(c, x, y);
    let third = cloak_third(c, x, y);
    let last = cloak_circuit(c, x, y);
    lemma_cloak_circuit(c, x, y);
    lemma_ranges_circuit(third, y, n);
    assert(last.committed == third.committed);
    // the wires that are named have reduced values
    assert(w.covers(last));
    assert(c.within(last));
    lemma_has_pairs_grows(c, last, x);
    lemma_has_pairs_grows(c, last, y);
    assert forall|i: int| 0 <= i < n implies w.value(#[trigger] y[i].0) < order() by {
        lemma_covered(w, last, y[i].0);
    }
    lemma_ranges_demands(w, third, y, n);
    // the third shuffle
    lemma_has_fresh_wires(last, c.multipliers + merge_multipliers(m), n);
    lemma_has_pairs_more(
        last,
        fresh_wires(c.multipliers + merge_multipliers(m), n),
        Seq::empty(),
    );
    if n == 1 {
        lemma_covered(w, last, y[0].0);
        lemma_covered(w, last, y[0].1);
        lemma_covered(w, last, split_out_wires(c, m, 1)[0].0);
        lemma_covered(w, last, split_out_wires(c, m, 1)[0].1);
    }
    lemma_cloak_third(w, c, x, y);
    // the padded shuffle
    lemma_covers_within(w, second, last);
    lemma_cloak_padded_wires(c, x, y);
    lemma_cloak_second(w, c, x, y);
    // the first shuffle
    lemma_has_fresh_wires(last, c.multipliers, m);
    if m == 1 {
        lemma_covered(w, last, x[0].0);
        lemma_covered(w, last, x[0].1);
        lemma_covered(w, last, merge_in_wires(c, 1)[0].0);
        lemma_covered(w, last, merge_in_wires(c, 1)[0].1);
    }
    lemma_cloak_first(w, c, x, y);
    lemma_cloak_mixed(w, c, m, n);
}

/// The system after the padded shuffle has the wires that the padded shuffle ties together.
pub proof fn lemma_cloak_padded_wires(
    c: Circuit,
    x: Seq<(Variable, Variable)>,
    y: Seq<(Variable, Variable)>,
)
    requires
        c.room(cloak_multipliers(x.len(), y.len())),
    ensures
        cloak_first(c, x, y).room(pad_count(x.len(), y.len())),
        cloak_second(c, x, y).has_pairs(
            padded(merge_out_wires(c, x.len()), y.len(), cloak_first(c, x, y).multipliers),
        ),
        cloak_second(c, x, y).has_pairs(
            padded(
                split_in_wires(c, x.len(), y.len()),
                x.len(),
                cloak_first(c, x, y).multipliers,
            ),
        ),
{
    let m = x.len();
    let n = y.len();
    let first = cloak_first(c, x, y);
    let second = cloak_second(c, x, y);
    lemma_cloak_circuit(c, x, y);
    lemma_value_shuffle_circuit(second, split_out_wires(c, m, n), y);
    let count = pad_count(m, n);
    let merge_out = merge_out_wires(c, m);
    let split_in = split_in_wires(c, m, n);
    assert(merge_out.len() == m && split_in.len() == n);
    lemma_has_merge_outputs(second, c.multipliers, m);
    lemma_has_merge_outputs(second, c.multipliers + merge_multipliers(m), n);
    lemma_has_pairs_more(
        second,
        merge_outputs(c.multipliers + merge_multipliers(m), n),
        Seq::empty(),
    );
    lemma_has_fresh_wires(second, first.multipliers, count);
    if m < n {
        lemma_has_pairs_more(second, merge_out, fresh_wires(first.multipliers, (n - m) as nat));
    }
    if n < m {
        lemma_has_pairs_more(second, split_in, fresh_wires(first.multipliers, (m - n) as nat));
    }
}

/// Outputs are in range: in a field without zero divisors, a witness that meets the system
/// of a transaction has a quantity below `2^64` on the quantity wire of every output.
pub proof fn lemma_cloak_outputs_in_range(
    w: Witness,
    c: Circuit,
    x: Seq<(Variable, Variable)>,
    y: Seq<(Variable, Variable)>,
)
    requires
        no_zero_divisors(),
        c.wf(),
        c.has_pairs(x),
        c.has_pairs(y),
        c.room(cloak_multipliers(x.len(), y.len())),
        w.satisfies(cloak_circuit(c, x, y)),
    ensures
        forall|i: int| 0 <= i < y.len() ==> w.value(#[trigger] y[i].0) < pow2(64),
{
    lemma_cloak_demands(w, c, x, y);
    let from = cloak_third(c, x, y).multipliers;
    assert forall|i: int| 0 <= i < y.len() implies w.value(#[trigger] y[i].0) < pow2(64) by {
        let first = from + 64 * (i as nat);
        assert(bits_hold(w, first, 64));
        assert forall|j: nat| j < 64 implies w.right[#[trigger] (first + j) as int] <= 1 by {
            lemma_bit_is_binary(w, first + j);
        }
        lemma_bits_sum_bound(w, first, 64);
        lemma2_to64();
        lemma_order();
        lemma_field_of(bits_sum(w, first, 64));
    }
}

/// What a transaction demands in all: a witness that meets the system of a transaction
/// after its second phase meets the system of the first phase, and the values on the wires
/// of every gadget put off are as that gadget demands for its challenges.
pub proof fn lemma_transaction_demands(
    w: Witness,
    c: Circuit,
    x: Seq<(Variable, Variable)>,
    y: Seq<(Variable, Variable)>,
    challenges: Seq<(nat, nat)>,
)
    requires
        cloak_circuit(c, x, y).wf(),
        cloak_circuit(c, x, y).room(
            deferred_multipliers(
                cloak_circuit(c, x, y).deferred,
                cloak_circuit(c, x, y).deferred.len(),
            ),
        ),
        c.room(cloak_multipliers(x.len(), y.len())),
        w.satisfies(
            completed(cloak_circuit(c, x, y), challenges, cloak_circuit(c, x, y).deferred.len()),
        ),
    ensures
        w.satisfies(cloak_circuit(c, x, y)),
        forall|i: int|
            0 <= i < cloak_gadgets(c, x, y).len() ==> demanded(
                w,
                #[trigger] cloak_gadgets(c, x, y)[i],
                challenges[c.deferred.len() + i].0,
                challenges[c.deferred.len() + i].1,
            ),
{
    let last = cloak_circuit(c, x, y);
    lemma_cloak_circuit(c, x, y);
    lemma_completed_demands(w, last, challenges, last.deferred.len());
    assert forall|i: int| 0 <= i < cloak_gadgets(c, x, y).len() implies demanded(
        w,
        #[trigger] cloak_gadgets(c, x, y)[i],
        challenges[c.deferred.len() + i].0,
        challenges[c.deferred.len() + i].1,
    ) by {
        assert(last.deferred[c.deferred.len() + i] == cloak_gadgets(c, x, y)[i]);
    }
}

/// Known values that are on their wires are there as (quantity, flavor) in the field.
pub proof fn lemma_carried_pairs(values: Seq<AllocatedValue>, w: Witness)
    requires
        all_known(values),
        all_carried_by(values, w),
    ensures
        pairs_on(w, wires_of(values)) == in_field_all(known_views(values)),
{
    assert forall|i: int| 0 <= i < values.len() implies pairs_on(w, wires_of(values))[i]
        == in_field_all(known_views(values))[i] by {
        assert(values[i].assignment is Some);
        assert(values[i].carried_by(w));
    }
    assert(pairs_on(w, wires_of(values)) =~= in_field_all(known_views(values)));
}

/// A shuffle of known values that are on their wires is ready when one list of values is a
/// reordering of the other.
pub proof fn lemma_shuffle_ready(x: Seq<AllocatedValue>, y: Seq<AllocatedValue>, w: Witness)
    requires
        all_known(x),
        all_known(y),
        all_carried_by(x, w),
        all_carried_by(y, w),
        known_views(x).to_multiset() == known_views(y).to_multiset(),
    ensures
        ready(w, Deferred::ValueShuffle(wires_of(x), wires_of(y))),
{
    lemma_carried_pairs(x, w);
    lemma_carried_pairs(y, w);
    lemma_map_permutation(known_views(x), known_views(y), |v: (int, nat)| in_field(v));
}

/// The inputs and outputs balance: every flavor occurs among both or among neither and has
/// the same total among both, no flavor is heavy, and every output quantity is in
/// `[0, 2^64)`.
pub open spec fn balanced(inputs: Seq<(int, nat)>, outputs: Seq<(int, nat)>) -> bool {
    &&& light(inputs)
    &&& light(outputs)
    &&& forall|f: nat| present(inputs, f) == present(outputs, f)
    &&& forall|f: nat| total(inputs, f) == total(outputs, f)
    &&& forall|i: int| 0 <= i < outputs.len() ==> 0 <= (#[trigger] outputs[i]).0 < quantity_bound()
}

/// What comes out of the merge of balanced inputs is, up to zero values, what goes into the
/// split of the outputs: the padded shuffle between them is ready.
pub proof fn lemma_middle_ready(
    inputs: Seq<(int, nat)>,
    outputs: Seq<(int, nat)>,
    merge_in: Seq<AllocatedValue>,
    merge_out: Seq<AllocatedValue>,
    split_out: Seq<AllocatedValue>,
    split_in: Seq<AllocatedValue>,
    w: Witness,
)
    requires
        balanced(inputs, outputs),
        all_known(merge_in),
        all_known(split_out),
        merge_out.len() == merge_in.len(),
        split_in.len() == split_out.len(),
        known_views(merge_in).to_multiset() == inputs.to_multiset(),
        known_views(split_out).to_multiset() == outputs.to_multiset(),
        in_runs(known_views(merge_in)),
        in_runs(known_views(split_out.reverse())),
        views_of(merge_out) == k_mix_values(views_of(merge_in)),
        views_of(split_in.reverse()) == k_mix_values(views_of(split_out.reverse())),
        all_carried_by(merge_out, w),
        all_carried_by(split_in, w),
    ensures
        reordered_up_to_zeros(w, wires_of(merge_out), wires_of(split_in)),
{
    let mi = known_views(merge_in);
    let so = known_views(split_out);
    let sb = known_views(split_out.reverse());
    let m = merge_in.len();
    let n = split_out.len();
    assert(sb =~= so.reverse());
    so.lemma_reverse_to_multiset();
    mi.to_multiset_ensures();
    inputs.to_multiset_ensures();
    so.to_multiset_ensures();
    outputs.to_multiset_ensures();
    // the grouped lists inherit what holds of inputs and outputs
    lemma_light_reordered(inputs, mi);
    lemma_light_reordered(outputs, so);
    lemma_light_reordered(so, sb);
    lemma_light_fits(mi);
    lemma_light_fits(sb);
    lemma_reordered(mi, inputs);
    lemma_reordered(so, outputs);
    lemma_reordered(sb, so);
    lemma_rearrangement_passes(mi, sb, pads(m as nat, n as nat), pads(n as nat, m as nat));
    // what comes out of the chains is known
    assert(views_of(merge_in) =~= known(mi)) by {
        assert forall|i: int| 0 <= i < m implies views_of(merge_in)[i] == known(mi)[i] by {
            assert(merge_in[i].assignment is Some);
        }
    }
    assert(views_of(split_out.reverse()) =~= known(sb)) by {
        assert forall|i: int| 0 <= i < n implies views_of(split_out.reverse())[i] == known(sb)[i] by {
            assert(split_out[n - 1 - i].assignment is Some);
        }
    }
    lemma_mixed_out(mi);
    lemma_mixed_out(sb);
    assert(all_known(merge_out)) by {
        assert forall|i: int| 0 <= i < m implies (#[trigger] merge_out[i]).assignment is Some by {
            assert(views_of(merge_out)[i] == known(mixed_out(mi))[i]);
        }
    }
    assert(all_known(split_in)) by {
        assert forall|i: int| 0 <= i < n implies (#[trigger] split_in[i]).assignment is Some by {
            assert(views_of(split_in.reverse())[n - 1 - i] == known(mixed_out(sb))[n - 1 - i]);
            assert(split_in.reverse()[n - 1 - i] == split_in[i]);
        }
    }
    assert(known_views(merge_out) =~= mixed_out(mi)) by {
        assert forall|i: int| 0 <= i < m implies known_views(merge_out)[i] == mixed_out(mi)[i] by {
            assert(views_of(merge_out)[i] == known(mixed_out(mi))[i]);
        }
    }
    assert(known_views(split_in) =~= mixed_out(sb).reverse()) by {
        assert forall|i: int| 0 <= i < n implies known_views(split_in)[i] == mixed_out(
            sb,
        ).reverse()[i] by {
            assert(views_of(split_in.reverse())[n - 1 - i] == known(mixed_out(sb))[n - 1 - i]);
            assert(split_in.reverse()[n - 1 - i] == split_in[i]);
        }
    }
    lemma_carried_pairs(merge_out, w);
    lemma_carried_pairs(split_in, w);
    let a = pads(m as nat, n as nat);
    let b = pads(n as nat, m as nat);
    let into = |v: (int, nat)| in_field(v);
    lemma_map_permutation(mixed_out(mi) + zero_values(a), mixed_out(sb).reverse() + zero_values(b), into);
    lemma_field_of(0);
    assert(in_field_all(mixed_out(mi) + zero_values(a)) =~= in_field_all(mixed_out(mi)) + zeros(a));
    assert(in_field_all(mixed_out(sb).reverse() + zero_values(b)) =~= in_field_all(
        mixed_out(sb).reverse(),
    ) + zeros(b));
    assert(wires_of(merge_out).len() == m && wires_of(split_in).len() == n);
}

} // verus!
