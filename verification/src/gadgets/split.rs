use crate::circuit::Error;
use crate::circuit::fresh_wires;
use crate::conservation::lemma_light_reordered;
use crate::conservation::light;
use crate::gadgets::k_mix::all_known;
use crate::gadgets::k_mix::k_mix_values;
use crate::gadgets::merge::flavors_of;
use crate::gadgets::merge::grouped;
use crate::gadgets::merge::merge_circuit;
use crate::gadgets::merge::merge_multipliers;
use crate::gadgets::merge::merge_outputs;
use crate::gadgets::merge::none_known;
use crate::r1cs::ConstraintSystem;
use crate::value::AllocatedValue;
use crate::value::all_carried_by;
use crate::value::known_views;
use crate::value::views_of;
use crate::value::wires_of;
use vstd::prelude::*;

verus! {

/// The values in the opposite order.
pub fn reversed(values: &Vec<AllocatedValue>) -> (r: Vec<AllocatedValue>)
    ensures
        r@ == values@.reverse(),
{
    let mut r: Vec<AllocatedValue> = Vec::new();
    let k = values.len();
    let mut i: usize = 0;
    while i < k
        invariant
            i <= k,
            k == values.len(),
            r.len() == i,
            forall|j: int| 0 <= j < i ==> r@[j] == values@[k - 1 - j],
        decreases k - i,
    {
        r.push(values[k - 1 - i]);
        i = i + 1;
    }
    assert(r@ =~= values@.reverse());
    r
}

/// The mirror image of a merge: the values are taken from right to left, reordered so that
/// equal flavors stand together, and mixed; what comes out is handed back from right to left
/// again. Read from left to right, one value of each flavor goes in with the total and is
/// split up over the values of that flavor.
///
/// Hands back the reordered values and, second, the values that go in. A prover must know
/// every value; if it does not, it gets `MissingAssignment` and its system is left as it was.
pub fn fill_cs(
    cs: &mut ConstraintSystem,
    outputs: &Vec<AllocatedValue>,
) -> (r: Result<(Vec<AllocatedValue>, Vec<AllocatedValue>), Error>)
    requires
        old(cs)@.wf(),
        old(cs)@.room(merge_multipliers(outputs.len() as nat)),
    ensures
        final(cs)@.wf(),
        r is Err == (old(cs)@.proving && outputs.len() >= 1 && !all_known(outputs@)),
        r matches Err(e) ==> e == Error::MissingAssignment && final(cs)@ == old(cs)@,
        r matches Ok(pair) ==> {
            &&& final(cs)@ == merge_circuit(old(cs)@, outputs.len() as nat)
            &&& wires_of(pair.0@) == fresh_wires(
                old(cs)@.multipliers,
                outputs.len() as nat,
            ).reverse()
            &&& wires_of(pair.1@) == merge_outputs(
                old(cs)@.multipliers,
                outputs.len() as nat,
            ).reverse()
            &&& final(cs)@.has_pairs(wires_of(pair.0@))
            &&& final(cs)@.has_pairs(wires_of(pair.1@))
            &&& views_of(pair.1@.reverse()) == k_mix_values(views_of(pair.0@.reverse()))
            &&& all_known(outputs@) ==> all_known(pair.0@) && known_views(pair.0@).to_multiset()
                == known_views(outputs@).to_multiset() && grouped(
                flavors_of(known_views(pair.0@.reverse())),
            )
            &&& !all_known(outputs@) ==> none_known(pair.0@)
        },
        final(cs).assigned().extends(old(cs).assigned()),
        r is Ok && old(cs).met() && (old(cs)@.proving ==> light(known_views(outputs@)))
            ==> final(cs).met(),
        r matches Ok(pair) ==> (old(cs).met() && old(cs)@.proving && light(known_views(outputs@))
            ==> all_carried_by(pair.0@, final(cs).assigned()) && all_carried_by(
            pair.1@,
            final(cs).assigned(),
        )),
{
    let backwards = reversed(outputs);
    proof {
        assert(known_views(backwards@) =~= known_views(outputs@).reverse());
        known_views(outputs@).lemma_reverse_to_multiset();
        if light(known_views(outputs@)) {
            lemma_light_reordered(known_views(outputs@), known_views(backwards@));
        }
    }
    proof {
        assert(all_known(backwards@) == all_known(outputs@)) by {
            if all_known(outputs@) {
                assert forall|i: int| 0 <= i < backwards.len() implies (
                #[trigger] backwards@[i]).assignment is Some by {
                    assert(outputs@[outputs.len() - 1 - i].assignment is Some);
                }
            }
            if all_known(backwards@) {
                assert forall|i: int| 0 <= i < outputs.len() implies (
                #[trigger] outputs@[i]).assignment is Some by {
                    assert(backwards@[outputs.len() - 1 - i].assignment is Some);
                }
            }
        }
    }
    let (merge_in, merge_out) = match crate::gadgets::merge::fill_cs(cs, &backwards) {
        Ok(pair) => pair,
        Err(e) => {
            return Err(e);
        },
    };
    let split_out = reversed(&merge_in);
    let split_in = reversed(&merge_out);
    proof {
        let k = outputs.len() as nat;
        assert(wires_of(merge_in@).len() == k && wires_of(merge_out@).len() == k);
        assert(merge_in.len() == k && merge_out.len() == k);
        if old(cs).met() && old(cs)@.proving && light(known_views(outputs@)) {
            assert(all_carried_by(merge_in@, cs.assigned()));
            assert(all_carried_by(merge_out@, cs.assigned()));
            assert forall|i: int| 0 <= i < k implies (#[trigger] split_out@[i]).carried_by(
                cs.assigned(),
            ) by {
                assert(merge_in@[k - 1 - i].carried_by(cs.assigned()));
            }
            assert forall|i: int| 0 <= i < k implies (#[trigger] split_in@[i]).carried_by(
                cs.assigned(),
            ) by {
                assert(merge_out@[k - 1 - i].carried_by(cs.assigned()));
            }
        }
        assert(wires_of(split_out@) =~= wires_of(merge_in@).reverse());
        assert(wires_of(split_in@) =~= wires_of(merge_out@).reverse());
        assert(split_out@.reverse() =~= merge_in@);
        assert(split_in@.reverse() =~= merge_out@);
        assert forall|i: int| 0 <= i < k implies cs@.has((#[trigger] wires_of(split_out@)[i]).0)
            && cs@.has(wires_of(split_out@)[i].1) by {
            assert(wires_of(split_out@)[i] == wires_of(merge_in@)[k - 1 - i]);
        }
        assert forall|i: int| 0 <= i < k implies cs@.has((#[trigger] wires_of(split_in@)[i]).0)
            && cs@.has(wires_of(split_in@)[i].1) by {
            assert(wires_of(split_in@)[i] == wires_of(merge_out@)[k - 1 - i]);
        }
        if all_known(outputs@) {
            assert forall|i: int| 0 <= i < k implies (#[trigger] split_out@[i]).assignment is Some by {
                assert(merge_in@[k - 1 - i].assignment is Some);
            }
            assert(known_views(split_out@) =~= known_views(merge_in@).reverse());
            assert(known_views(backwards@) =~= known_views(outputs@).reverse());
            known_views(merge_in@).lemma_reverse_to_multiset();
            known_views(outputs@).lemma_reverse_to_multiset();
        } else {
            assert forall|i: int| 0 <= i < k implies (#[trigger] split_out@[i]).assignment is None by {
                assert(merge_in@[k - 1 - i].assignment is None);
            }
        }
    }
    Ok((split_out, split_in))
}

} // verus!
