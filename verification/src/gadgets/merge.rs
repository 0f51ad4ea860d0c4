use crate::circuit::Circuit;
use crate::circuit::Deferred;
use crate::circuit::Error;
use crate::circuit::Variable;
use crate::circuit::fresh_wires;
use crate::circuit::lemma_has_pairs_grows;
use crate::conservation::lemma_light_fits;
use crate::conservation::lemma_light_reordered;
use crate::conservation::light;
use crate::gadgets::k_mix::all_known;
use crate::gadgets::k_mix::allocate_known;
use crate::gadgets::k_mix::cells;
use crate::gadgets::k_mix::k_mix_circuit;
use crate::gadgets::k_mix::k_mix_gadgets;
use crate::gadgets::k_mix::k_mix_values;
use crate::gadgets::k_mix::k_mix_wires;
use crate::gadgets::k_mix::lemma_k_mix_circuit;
use crate::gadgets::k_mix::lemma_k_mix_deferred;
use crate::gadgets::k_mix::lemma_k_mix_demands;
use crate::gadgets::k_mix::mixable;
use crate::r1cs::ConstraintSystem;
use crate::semantics::Witness;
use crate::semantics::lemma_extends_trans;
use crate::semantics::lemma_satisfies_allocated_many;
use crate::semantics::multiplier_holds;
use crate::semantics::multipliers_hold;
use crate::value::AllocatedValue;
use crate::value::Value;
use crate::value::all_carried_by;
use crate::value::known_views;
use crate::value::lemma_carried_extends;
use crate::value::views_of;
use crate::value::wires_of;
use vstd::prelude::*;
use vstd::seq_lib::to_multiset_update;

verus! {

/// The flavors of the values.
pub open spec fn flavors(values: Seq<Value>) -> Seq<nat> {
    Seq::new(values.len(), |i: int| values[i].f@)
}

/// Position `p` is followed by its own flavor if that flavor comes anywhere later.
pub open spec fn followed(flavors: Seq<nat>, p: int) -> bool {
    (exists|q: int| p < q < flavors.len() && flavors[q] == flavors[p]) ==> p + 1 < flavors.len()
        && flavors[p + 1] == flavors[p]
}

/// Equal flavors stand together: each of the first `n` positions is followed by its own
/// flavor if that flavor comes anywhere later.
pub open spec fn grouped_up_to(flavors: Seq<nat>, n: int) -> bool {
    forall|p: int| 0 <= p < n ==> followed(flavors, p)
}

/// Equal flavors stand together everywhere.
pub open spec fn grouped(flavors: Seq<nat>) -> bool {
    grouped_up_to(flavors, flavors.len() as int)
}

/// Where equal flavors stand together, two positions of one flavor have only that flavor
/// between them.
pub proof fn lemma_grouped_runs(f: Seq<nat>, p: int, r: int, q: int)
    requires
        grouped(f),
        0 <= p <= r <= q < f.len(),
        f[p] == f[q],
    ensures
        f[r] == f[p],
    decreases r - p,
{
    if p < r {
        assert(followed(f, p));
        lemma_grouped_runs(f, p + 1, r, q);
    }
}

/// Copies the values.
fn copy_of(values: &Vec<Value>) -> (r: Vec<Value>)
    ensures
        r@ == values@,
{
    let mut r: Vec<Value> = Vec::new();
    let mut i: usize = 0;
    while i < values.len()
        invariant
            i <= values.len(),
            r@ == values@.take(i as int),
        decreases values.len() - i,
    {
        r.push(values[i]);
        assert(values@.take(i as int + 1) =~= values@.take(i as int).push(values@[i as int]));
        i = i + 1;
    }
    assert(values@.take(values.len() as int) == values@);
    r
}

/// Reorders the values so that equal flavors stand together: going from left to right, takes
/// each value and, where its flavor comes again later, moves the nearest such value next to it.
pub fn order_by_flavor(values: &Vec<Value>) -> (r: Vec<Value>)
    ensures
        r.len() == values.len(),
        r@.to_multiset() == values@.to_multiset(),
        grouped(flavors(r@)),
{
    let mut out = copy_of(values);
    let k = out.len();
    let mut i: usize = 0;
    while i < k
        invariant
            i <= k,
            k == out.len(),
            k == values.len(),
            out@.to_multiset() == values@.to_multiset(),
            grouped_up_to(flavors(out@), i as int),
        decreases k - i,
    {
        let ghost before = out@;
        let mut j: usize = i + 1;
        let mut found = false;
        while j < k && !found
            invariant
                i < j <= k,
                k == out.len(),
                !found ==> out@ == before,
                !found ==> forall|q: int| i < q < j ==> flavors(before)[q] != flavors(before)[i as int],
                found ==> followed(flavors(out@), i as int),
                found ==> out@.to_multiset() == before.to_multiset(),
                found ==> forall|p: int| 0 <= p <= i ==> out@[p] == before[p],
                found ==> exists|a: int, b: int|
                    i < a <= b < k && out@ == before.update(a, before[b]).update(b, before[a]),
            decreases k - j + (if found { 0int } else { 1int }),
        {
            if out[j].f.equals(&out[i].f) {
                let first = out[i + 1];
                let second = out[j];
                out.set(i + 1, second);
                out.set(j, first);
                proof {
                    let middle = before.update(i as int + 1, second);
                    to_multiset_update(before, i as int + 1, second);
                    to_multiset_update(middle, j as int, first);
                    before.to_multiset_ensures();
                    assert(before[i as int + 1] == first && before.contains(first));
                    assert(before[j as int] == second && before.contains(second));
                    assert(middle[j as int] == second);
                    assert(out@ == middle.update(j as int, first));
                    assert(out@.to_multiset() =~= before.to_multiset());
                    assert(flavors(out@)[i as int + 1] == flavors(out@)[i as int]);
                    assert(out@ == before.update(i as int + 1, before[j as int]).update(
                        j as int,
                        before[i as int + 1],
                    ));
                }
                found = true;
            } else {
                j = j + 1;
            }
        }
        proof {
            let f = flavors(out@);
            let g = flavors(before);
            if !found {
                assert(followed(f, i as int));
            } else {
                let (a, b) = choose|a: int, b: int|
                    i < a <= b < k && out@ == before.update(a, before[b]).update(b, before[a]);
                assert forall|p: int| 0 <= p < i implies followed(f, p) by {
                    assert(followed(g, p));
                    assert(f[p] == g[p]);
                    assert(f[p + 1] == g[p + 1]);
                    if exists|q: int| p < q < f.len() && f[q] == f[p] {
                        let q = choose|q: int| p < q < f.len() && f[q] == f[p];
                        let q0 = if q == a {
                            b
                        } else if q == b {
                            a
                        } else {
                            q
                        };
                        assert(g[q0] == f[q]);
                        assert(p < q0 < g.len() && g[q0] == g[p]);
                    }
                }
            }
            assert forall|p: int| 0 <= p < i + 1 implies followed(f, p) by {
                if p < i && !found {
                    assert(followed(g, p));
                }
            }
        }
        i = i + 1;
    }
    out
}

/// Reordering what is mapped is mapping what is reordered: lists that are reorderings of
/// each other still are when the same function is applied to every member.
pub proof fn lemma_map_permutation<A, B>(s: Seq<A>, t: Seq<A>, f: spec_fn(A) -> B)
    requires
        s.to_multiset() == t.to_multiset(),
    ensures
        s.map_values(f).to_multiset() == t.map_values(f).to_multiset(),
    decreases s.len(),
{
    s.to_multiset_ensures();
    t.to_multiset_ensures();
    if s.len() == 0 {
        assert(t.len() == 0);
        assert(s.map_values(f) =~= t.map_values(f));
    } else {
        let x = s.last();
        assert(s[s.len() - 1] == x && s.contains(x));
        assert(s.to_multiset().count(x) > 0);
        assert(t.to_multiset().count(x) > 0);
        assert(t.contains(x));
        let j = choose|j: int| 0 <= j < t.len() && t[j] == x;
        assert(s.remove(s.len() - 1) =~= s.drop_last());
        assert(s.drop_last().to_multiset() =~= t.remove(j).to_multiset());
        lemma_map_permutation(s.drop_last(), t.remove(j), f);
        let sm = s.map_values(f);
        let tm = t.map_values(f);
        assert(sm.remove(s.len() - 1) =~= s.drop_last().map_values(f));
        assert(tm.remove(j) =~= t.remove(j).map_values(f));
        sm.to_multiset_ensures();
        tm.to_multiset_ensures();
        assert(sm[s.len() - 1] == f(x) && tm[j] == f(x));
        assert(sm.contains(f(x)) && tm.contains(f(x)));
        assert(sm.to_multiset() =~= sm.remove(s.len() - 1).to_multiset().insert(f(x)));
        assert(tm.to_multiset() =~= tm.remove(j).to_multiset().insert(f(x)));
    }
}

/// The flavors of values given as (quantity, flavor).
pub open spec fn flavors_of(values: Seq<(int, nat)>) -> Seq<nat> {
    Seq::new(values.len(), |i: int| values[i].1)
}

/// The values as (quantity, flavor).
pub open spec fn value_views(values: Seq<Value>) -> Seq<(int, nat)> {
    values.map_values(|v: Value| v@)
}

/// The values of allocated values that are all known.
pub open spec fn known_values(values: Seq<AllocatedValue>) -> Seq<Value> {
    Seq::new(values.len(), |i: int| values[i].assignment->0)
}

/// None of the values is known.
pub open spec fn none_known(values: Seq<AllocatedValue>) -> bool {
    forall|i: int| 0 <= i < values.len() ==> (#[trigger] values[i]).assignment is None
}

/// What a merge of `k` values adds: `k` multipliers for the values in grouped order, then
/// the chain of mixes over them.
pub open spec fn merge_circuit(c: Circuit, k: nat) -> Circuit {
    k_mix_circuit(c.allocated_many(k), fresh_wires(c.multipliers, k), cells(k))
}

/// The wires that come out of a merge of `k` values that starts at multiplier `first`.
pub open spec fn merge_outputs(first: nat, k: nat) -> Seq<(Variable, Variable)> {
    k_mix_wires(first + k, fresh_wires(first, k))
}

/// The number of multipliers that a merge of `k` values allocates in the first phase.
pub open spec fn merge_multipliers(k: nat) -> nat {
    k + 2 * cells(k)
}

/// A merge adds multipliers and deferred gadgets and nothing else.
pub proof fn lemma_merge_circuit(c: Circuit, k: nat)
    ensures
        merge_circuit(c, k).multipliers == c.multipliers + merge_multipliers(k),
        merge_circuit(c, k).committed == c.committed,
        merge_circuit(c, k).commitments == c.commitments,
        merge_circuit(c, k).proving == c.proving,
        merge_circuit(c, k).constraints == c.constraints,
        merge_circuit(c, k).deferred.len() == c.deferred.len() + cells(k),
{
    lemma_k_mix_circuit(c.allocated_many(k), fresh_wires(c.multipliers, k), cells(k));
}

/// The values of the allocated values, if every one is known.
fn values_if_known(inputs: &Vec<AllocatedValue>) -> (r: Option<Vec<Value>>)
    ensures
        r is Some == all_known(inputs@),
        r matches Some(values) ==> values@ == known_values(inputs@),
{
    let mut values: Vec<Value> = Vec::new();
    let mut i: usize = 0;
    while i < inputs.len()
        invariant
            i <= inputs.len(),
            values@ == known_values(inputs@.take(i as int)),
            all_known(inputs@.take(i as int)),
        decreases inputs.len() - i,
    {
        match inputs[i].assignment {
            Some(value) => {
                values.push(value);
            },
            None => {
                assert(inputs@[i as int].assignment is None);
                return None;
            },
        }
        assert(known_values(inputs@.take(i as int + 1)) =~= known_values(
            inputs@.take(i as int),
        ).push(inputs@[i as int].assignment->0));
        assert forall|j: int| 0 <= j < i + 1 implies (#[trigger] inputs@.take(
            i as int + 1,
        )[j]).assignment is Some by {
            if j < i {
                assert(inputs@.take(i as int)[j].assignment is Some);
            }
        }
        i = i + 1;
    }
    assert(inputs@.take(inputs.len() as int) == inputs@);
    Some(values)
}

/// Allocates fresh wires for the values in an order in which equal flavors stand together,
/// and chains mixes over them, so that of each flavor one value comes out with the total and
/// the others come out zero. Hands back the reordered values and those that come out.
///
/// A verifier gets wires without values. A prover must know every value; if it does not, it
/// gets `MissingAssignment` and its system is left as it was.
pub fn fill_cs(
    cs: &mut ConstraintSystem,
    inputs: &Vec<AllocatedValue>,
) -> (r: Result<(Vec<AllocatedValue>, Vec<AllocatedValue>), Error>)
    requires
        old(cs)@.wf(),
        old(cs)@.room(merge_multipliers(inputs.len() as nat)),
    ensures
        final(cs)@.wf(),
        r is Err == (old(cs)@.proving && inputs.len() >= 1 && !all_known(inputs@)),
        r matches Err(e) ==> e == Error::MissingAssignment && final(cs)@ == old(cs)@,
        r matches Ok(pair) ==> {
            &&& final(cs)@ == merge_circuit(old(cs)@, inputs.len() as nat)
            &&& wires_of(pair.0@) == fresh_wires(old(cs)@.multipliers, inputs.len() as nat)
            &&& wires_of(pair.1@) == merge_outputs(old(cs)@.multipliers, inputs.len() as nat)
            &&& final(cs)@.has_pairs(wires_of(pair.0@))
            &&& final(cs)@.has_pairs(wires_of(pair.1@))
            &&& views_of(pair.1@) == k_mix_values(views_of(pair.0@))
            &&& all_known(inputs@) ==> all_known(pair.0@) && known_views(pair.0@).to_multiset()
                == known_views(inputs@).to_multiset() && grouped(flavors_of(known_views(pair.0@)))
            &&& !all_known(inputs@) ==> none_known(pair.0@)
        },
        final(cs).assigned().extends(old(cs).assigned()),
        r is Ok && old(cs).met() && (old(cs)@.proving ==> light(known_views(inputs@)))
            ==> final(cs).met(),
        r matches Ok(pair) ==> (old(cs).met() && old(cs)@.proving && light(known_views(inputs@))
            ==> all_carried_by(pair.0@, final(cs).assigned()) && all_carried_by(
            pair.1@,
            final(cs).assigned(),
        )),
{
    let k = inputs.len();
    let ghost start = cs@;
    let ghost w0 = cs.assigned();
    let ghost was_met = cs.met();
    let known = values_if_known(inputs);
    let ordered: Option<Vec<Value>> = match known {
        Some(values) => Some(order_by_flavor(&values)),
        None => None,
    };
    let mut merge_in: Vec<AllocatedValue> = Vec::new();
    let mut i: usize = 0;
    while i < k
        invariant
            i <= k,
            k == inputs.len(),
            start == old(cs)@,
            start.wf(),
            start.room(merge_multipliers(k as nat)),
            cs@.wf(),
            cs@ == start.allocated_many(i as nat),
            merge_in.len() == i,
            wires_of(merge_in@) == fresh_wires(start.multipliers, i as nat),
            ordered is Some == all_known(inputs@),
            ordered matches Some(values) ==> values.len() == k && forall|j: int|
                0 <= j < i ==> (#[trigger] merge_in@[j]).assignment == Some(values@[j]),
            ordered is None ==> none_known(merge_in@),
            i > 0 ==> !(start.proving && ordered is None),
            w0 == old(cs).assigned(),
            was_met == old(cs).met(),
            cs.assigned().extends(w0),
            was_met ==> cs.met(),
            was_met && start.proving ==> all_carried_by(merge_in@, cs.assigned()),
        decreases k - i,
    {
        let value = match &ordered {
            Some(values) => Some(values[i]),
            None => None,
        };
        let ghost before = cs@;
        let ghost w_before = cs.assigned();
        let ghost old_in = merge_in@;
        let allocated = match allocate_known(cs, value) {
            Ok(allocated) => allocated,
            Err(e) => {
                assert(i == 0);
                proof {
                    lemma_extends_trans(w0, w_before, cs.assigned());
                }
                return Err(e);
            },
        };
        merge_in.push(allocated);
        proof {
            lemma_extends_trans(w0, w_before, cs.assigned());
            if was_met && start.proving {
                assert forall|j: int| 0 <= j < i + 1 implies (#[trigger] merge_in@[j]).carried_by(
                    cs.assigned(),
                ) by {
                    if j < i {
                        assert(merge_in@[j] == old_in[j]);
                        assert(old_in[j].wires() == wires_of(old_in)[j]);
                        assert(wires_of(old_in)[j] == fresh_wires(start.multipliers, i as nat)[j]);
                        lemma_carried_extends(old_in[j], w_before, cs.assigned(), before);
                    }
                }
            }
            assert(cs@ =~= start.allocated_many((i + 1) as nat));
            assert(wires_of(merge_in@) =~= fresh_wires(start.multipliers, (i + 1) as nat)) by {
                assert forall|j: int| 0 <= j < i + 1 implies wires_of(merge_in@)[j] == fresh_wires(
                    start.multipliers,
                    (i + 1) as nat,
                )[j] by {
                    if j < i {
                        assert(wires_of(merge_in@)[j] == wires_of(old_in)[j]);
                        assert(wires_of(old_in)[j] == fresh_wires(start.multipliers, i as nat)[j]);
                    } else {
                        assert(allocated.wires() == before.next_wires());
                    }
                }
            }
            if ordered is None {
                assert forall|j: int| 0 <= j < i + 1 implies (
                #[trigger] merge_in@[j]).assignment is None by {
                    if j < i {
                        assert(old_in[j].assignment is None);
                    }
                }
            }
        }
        i = i + 1;
    }
    let ghost mixed_from = cs@;
    let ghost w_mixed = cs.assigned();
    proof {
        assert(cs@.has_pairs(wires_of(merge_in@)));
        if all_known(inputs@) {
            let values = ordered->0;
            assert forall|j: int| 0 <= j < k implies (#[trigger] merge_in@[j]).assignment is Some by {
                assert(merge_in@[j].assignment == Some(values@[j]));
            }
            assert(all_known(merge_in@));
            assert(known_values(merge_in@) =~= values@);
            lemma_map_permutation(values@, known_values(inputs@), |v: Value| v@);
            assert(known_views(merge_in@) =~= value_views(values@));
            assert(known_views(inputs@) =~= value_views(known_values(inputs@)));
            assert(flavors_of(known_views(merge_in@)) =~= flavors(values@));
            if was_met && start.proving && light(known_views(inputs@)) {
                lemma_light_reordered(known_views(inputs@), known_views(merge_in@));
                lemma_light_fits(known_views(merge_in@));
                assert(mixable(merge_in@, cs.assigned()));
            }
        }
    }
    let merge_out = match crate::gadgets::k_mix::fill_cs(cs, &merge_in) {
        Ok(merge_out) => merge_out,
        Err(e) => {
            proof {
                if ordered is Some {
                    let values = ordered->0;
                    assert forall|j: int| 0 <= j < k implies (
                    #[trigger] merge_in@[j]).assignment is Some by {
                        assert(merge_in@[j].assignment == Some(values@[j]));
                    }
                    assert(all_known(merge_in@));
                }
                assert(false);
            }
            return Err(e);
        },
    };
    proof {
        lemma_merge_circuit(start, k as nat);
        lemma_has_pairs_grows(start.allocated_many(k as nat), cs@, wires_of(merge_in@));
        lemma_extends_trans(w0, w_mixed, cs.assigned());
        if was_met && start.proving && light(known_views(inputs@)) {
            assert forall|j: int| 0 <= j < k implies (#[trigger] merge_in@[j]).carried_by(
                cs.assigned(),
            ) by {
                assert(merge_in@[j].wires() == wires_of(merge_in@)[j]);
                lemma_carried_extends(merge_in@[j], w_mixed, cs.assigned(), mixed_from);
            }
        }
    }
    Ok((merge_in, merge_out))
}

/// The mixes that a merge of `k` values puts off to the second phase, where the merge starts
/// in a system with `first` multipliers.
pub open spec fn merge_gadgets(first: nat, k: nat) -> Seq<Deferred> {
    k_mix_gadgets(first + k, fresh_wires(first, k), cells(k))
}

/// The mixes of a merge are put off to the second phase.
pub proof fn lemma_merge_deferred(c: Circuit, k: nat)
    requires
        c.room(merge_multipliers(k)),
    ensures
        merge_circuit(c, k).deferred == c.deferred + merge_gadgets(c.multipliers, k),
{
    lemma_k_mix_deferred(c.allocated_many(k), fresh_wires(c.multipliers, k), cells(k));
}

/// What a merge demands in the first phase: only that its new multipliers hold.
pub proof fn lemma_merge_demands(w: Witness, c: Circuit, k: nat)
    requires
        c.room(merge_multipliers(k)),
    ensures
        w.satisfies(merge_circuit(c, k)) == (w.satisfies(c) && multipliers_hold(
            w,
            c.multipliers,
            merge_multipliers(k),
        )),
{
    let grown = c.allocated_many(k);
    lemma_k_mix_demands(w, grown, fresh_wires(c.multipliers, k), cells(k));
    lemma_satisfies_allocated_many(w, c, k);
    let n = c.multipliers;
    if w.satisfies(c) && multipliers_hold(w, n, merge_multipliers(k)) {
        assert forall|i: nat| i < k implies multiplier_holds(
            w,
            #[trigger] (n + i),
        ) by {
            assert(i < merge_multipliers(k));
        }
        assert forall|i: nat| i < 2 * cells(k) implies multiplier_holds(
            w,
            #[trigger] (grown.multipliers + i),
        ) by {
            assert(grown.multipliers + i == n + (k + i));
            assert(k + i < merge_multipliers(k));
            assert(multiplier_holds(w, n + (k + i)));
        }
    }
    if w.satisfies(c) && multipliers_hold(w, n, k) && multipliers_hold(
        w,
        grown.multipliers,
        2 * cells(k),
    ) {
        assert forall|i: nat| i < merge_multipliers(k) implies multiplier_holds(
            w,
            #[trigger] (n + i),
        ) by {
            if i >= k {
                assert(n + i == grown.multipliers + (i - k) as nat);
                assert(multiplier_holds(w, grown.multipliers + (i - k) as nat));
            }
        }
    }
}

/// A system has the wires that come out of a merge whose multipliers it has.
pub proof fn lemma_has_merge_outputs(c: Circuit, first: nat, k: nat)
    requires
        first + merge_multipliers(k) <= c.multipliers,
        c.multipliers <= usize::MAX,
    ensures
        c.has_pairs(merge_outputs(first, k)),
{
    let out = merge_outputs(first, k);
    assert forall|i: int| 0 <= i < out.len() implies c.has((#[trigger] out[i]).0) && c.has(
        out[i].1,
    ) by {
        if i + 1 < k {
        } else if i > 0 {
        } else {
            assert(out[i] == fresh_wires(first, k)[0]);
        }
    }
}

} // verus!
