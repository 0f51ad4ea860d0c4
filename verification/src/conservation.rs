use crate::field::lemma_field_of;
use crate::field::lemma_field_of_reduce;
use crate::field::lemma_field_ops;
use crate::field::product_by;
use crate::gadgets::k_mix::fits;
use crate::gadgets::k_mix::in_field;
use crate::gadgets::k_mix::k_mix_values;
use crate::gadgets::k_mix::known;
use crate::gadgets::k_mix::lemma_k_mix_values;
use crate::gadgets::k_mix::run_total;
use crate::gadgets::merge::flavors_of;
use crate::gadgets::merge::followed;
use crate::gadgets::merge::grouped;
use crate::gadgets::merge::lemma_grouped_runs;
use crate::gadgets::merge::lemma_map_permutation;
use crate::gadgets::mix::merges;
use crate::gadgets::mix::passes;
use crate::gadgets::padded_shuffle::pads;
use crate::gadgets::padded_shuffle::zeros;
use crate::gadgets::value_shuffle::lemma_value_shuffle_complete;
use crate::scalar::field_of;
use crate::semantics::blend;
use crate::value::lemma_narrowed;
use crate::value::narrowed;
use crate::value::quantity_bound;
use vstd::arithmetic::div_mod::lemma_small_mod;
use vstd::multiset::Multiset;
use vstd::prelude::*;

verus! {

/// The total of the quantities of one flavor among the values.
pub open spec fn total(values: Seq<(int, nat)>, flavor: nat) -> int
    decreases values.len(),
{
    if values.len() == 0 {
        0
    } else {
        total(values.drop_last(), flavor) + (if values.last().1 == flavor {
            values.last().0
        } else {
            0
        })
    }
}

/// Taking a value out takes its quantity out of the total of its flavor.
pub proof fn lemma_total_remove(values: Seq<(int, nat)>, flavor: nat, j: int)
    requires
        0 <= j < values.len(),
    ensures
        total(values, flavor) == total(values.remove(j), flavor) + (if values[j].1 == flavor {
            values[j].0
        } else {
            0
        }),
    decreases values.len(),
{
    if j == values.len() - 1 {
        assert(values.remove(j) =~= values.drop_last());
    } else {
        let front = values.drop_last();
        lemma_total_remove(front, flavor, j);
        assert(values.remove(j).drop_last() =~= front.remove(j));
        assert(values.remove(j).last() == values.last());
    }
}

/// The total of a flavor does not depend on the order of the values.
pub proof fn lemma_total_permutation(s: Seq<(int, nat)>, t: Seq<(int, nat)>, flavor: nat)
    requires
        s.to_multiset() == t.to_multiset(),
    ensures
        total(s, flavor) == total(t, flavor),
    decreases s.len(),
{
    s.to_multiset_ensures();
    t.to_multiset_ensures();
    if s.len() == 0 {
        assert(t.len() == 0);
    } else {
        let x = s.last();
        assert(s[s.len() - 1] == x && s.contains(x));
        assert(s.to_multiset().count(x) > 0);
        assert(t.to_multiset().count(x) > 0);
        assert(t.contains(x));
        let j = choose|j: int| 0 <= j < t.len() && t[j] == x;
        assert(s.remove(s.len() - 1) =~= s.drop_last());
        assert(s.drop_last().to_multiset() =~= t.remove(j).to_multiset());
        lemma_total_permutation(s.drop_last(), t.remove(j), flavor);
        lemma_total_remove(t, flavor, j);
    }
}

/// `k` values that are zero in quantity and in flavor.
pub open spec fn zero_values(k: nat) -> Seq<(int, nat)> {
    Seq::new(k, |i: int| (0int, 0nat))
}

/// Zero values add nothing to any total.
pub proof fn lemma_total_padded(values: Seq<(int, nat)>, k: nat, flavor: nat)
    ensures
        total(values + zero_values(k), flavor) == total(values, flavor),
    decreases k,
{
    if k == 0 {
        assert(values + zero_values(0) =~= values);
    } else {
        let padded = values + zero_values(k);
        assert(padded.drop_last() =~= values + zero_values((k - 1) as nat));
        assert(padded.last() == (0int, 0nat));
        lemma_total_padded(values, (k - 1) as nat, flavor);
    }
}

/// The values that come out of the chain of mixes over known values: of each run of equal
/// flavors that stand together, the last value has the total of the run and the others are
/// zero.
pub open spec fn mixed_out(values: Seq<(int, nat)>) -> Seq<(int, nat)> {
    Seq::new(
        values.len(),
        |i: int|
            if i + 1 < values.len() && values[i].1 == values[i + 1].1 {
                (0int, 0nat)
            } else {
                (run_total(values, i), values[i].1)
            },
    )
}

/// The chain of mixes over known values lets known values come out, those above.
pub proof fn lemma_mixed_out(values: Seq<(int, nat)>)
    ensures
        k_mix_values(known(values)) == known(mixed_out(values)),
{
    assert forall|i: int| 0 <= i < values.len() implies k_mix_values(known(values))[i] == known(
        mixed_out(values),
    )[i] by {
        lemma_k_mix_values(values, i);
    }
    assert(k_mix_values(known(values)) =~= known(mixed_out(values)));
}

/// The total of a run up to a position depends only on the values up to that position.
pub proof fn lemma_run_total_prefix(values: Seq<(int, nat)>, n: int, i: int)
    requires
        0 <= i < n <= values.len(),
    ensures
        run_total(values.take(n), i) == run_total(values, i),
    decreases i,
{
    if i > 0 {
        lemma_run_total_prefix(values, n, i - 1);
    }
}

/// The chain of mixes conserves the total of every flavor, as long as no sum is cut down.
pub proof fn lemma_mix_conserves(values: Seq<(int, nat)>, flavor: nat)
    requires
        fits(values),
    ensures
        total(mixed_out(values), flavor) == total(values, flavor),
    decreases values.len(),
{
    let k = values.len() as int;
    let contribution = |v: (int, nat)| if v.1 == flavor { v.0 } else { 0 };
    if k == 0 {
        assert(mixed_out(values).len() == 0);
    } else if k == 1 {
        assert(mixed_out(values).drop_last() =~= Seq::<(int, nat)>::empty());
        assert(values.drop_last() =~= Seq::<(int, nat)>::empty());
        assert(total(values.drop_last(), flavor) == 0);
        assert(total(mixed_out(values).drop_last(), flavor) == 0);
        assert(mixed_out(values).last() == values.last());
    } else if k >= 2 {
        let front = values.drop_last();
        assert(front =~= values.take(k - 1));
        assert(fits(front)) by {
            assert forall|i: int|
                0 < i < front.len() && front[i - 1].1 == front[i].1 implies -quantity_bound()
                < #[trigger] run_total(front, i - 1) + front[i].0 < quantity_bound() by {
                lemma_run_total_prefix(values, k - 1, i - 1);
                assert(values[i - 1].1 == values[i].1);
                assert(-quantity_bound() < run_total(values, i - 1) + values[i].0
                    < quantity_bound());
            }
        }
        lemma_mix_conserves(front, flavor);
        let out = mixed_out(values);
        let before = mixed_out(front);
        // all but the last two places come out the same
        assert(out.drop_last().drop_last() =~= before.drop_last()) by {
            assert forall|i: int| 0 <= i < k - 2 implies out[i] == before[i] by {
                lemma_run_total_prefix(values, k - 1, i);
            }
        }
        lemma_run_total_prefix(values, k - 1, k - 2);
        assert(before.last() == (run_total(values, k - 2), values[k - 2].1));
        assert(out.drop_last().last() == out[k - 2]);
        assert(out.last() == (run_total(values, k - 1), values[k - 1].1));
        assert(total(out, flavor) == total(out.drop_last(), flavor) + contribution(out.last()));
        assert(total(out.drop_last(), flavor) == total(out.drop_last().drop_last(), flavor)
            + contribution(out[k - 2]));
        assert(total(before, flavor) == total(before.drop_last(), flavor) + contribution(
            before.last(),
        ));
        assert(total(values, flavor) == total(front, flavor) + contribution(values.last()));
        if values[k - 2].1 == values[k - 1].1 {
            let sum = run_total(values, k - 2) + values[k - 1].0;
            assert(-quantity_bound() < sum < quantity_bound());
            assert(narrowed(sum) == sum) by {
                if sum >= 0 {
                    lemma_small_mod(sum as nat, quantity_bound() as nat);
                } else {
                    lemma_small_mod(
                        (-sum) as nat,
                        quantity_bound() as nat,
                    );
                }
            }
        }
    }
}

/// The total of a flavor is the same read from right to left.
pub proof fn lemma_total_reverse(values: Seq<(int, nat)>, flavor: nat)
    ensures
        total(values.reverse(), flavor) == total(values, flavor),
{
    values.lemma_reverse_to_multiset();
    lemma_total_permutation(values.reverse(), values, flavor);
}

/// The values that go into the split of known outputs that stand in grouped order: the
/// mirror image of what comes out of a merge.
pub open spec fn split_in(split_out: Seq<(int, nat)>) -> Seq<(int, nat)> {
    mixed_out(split_out.reverse()).reverse()
}

/// Conservation: where the values that come out of the merge of the inputs are, up to zero
/// values, those that go into the split of the outputs, every flavor has the same total
/// among the outputs as among the inputs. Here `merge_in` and `split_out` are the inputs and
/// the outputs in any order, and no sum within a run of equal flavors is cut down.
pub proof fn lemma_conservation(
    inputs: Seq<(int, nat)>,
    outputs: Seq<(int, nat)>,
    merge_in: Seq<(int, nat)>,
    split_out: Seq<(int, nat)>,
    pads_left: nat,
    pads_right: nat,
    flavor: nat,
)
    requires
        merge_in.to_multiset() == inputs.to_multiset(),
        split_out.to_multiset() == outputs.to_multiset(),
        fits(merge_in),
        fits(split_out.reverse()),
        (mixed_out(merge_in) + zero_values(pads_left)).to_multiset() == (split_in(split_out)
            + zero_values(pads_right)).to_multiset(),
    ensures
        total(inputs, flavor) == total(outputs, flavor),
{
    lemma_total_permutation(merge_in, inputs, flavor);
    lemma_mix_conserves(merge_in, flavor);
    lemma_total_padded(mixed_out(merge_in), pads_left, flavor);
    lemma_total_permutation(
        mixed_out(merge_in) + zero_values(pads_left),
        split_in(split_out) + zero_values(pads_right),
        flavor,
    );
    lemma_total_padded(split_in(split_out), pads_right, flavor);
    lemma_total_reverse(mixed_out(split_out.reverse()), flavor);
    lemma_mix_conserves(split_out.reverse(), flavor);
    lemma_total_reverse(split_out, flavor);
    lemma_total_permutation(split_out, outputs, flavor);
}

/// The flavor occurs among the values.
pub open spec fn present(values: Seq<(int, nat)>, flavor: nat) -> bool {
    exists|i: int| 0 <= i < values.len() && values[i].1 == flavor
}

/// Equal flavors stand together.
pub open spec fn in_runs(values: Seq<(int, nat)>) -> bool {
    grouped(flavors_of(values))
}

/// Where equal flavors stand together, a position whose flavor comes again later is followed
/// by its own flavor.
pub proof fn lemma_followed(values: Seq<(int, nat)>, p: int, q: int)
    requires
        in_runs(values),
        0 <= p < q < values.len(),
        values[q].1 == values[p].1,
    ensures
        values[p + 1].1 == values[p].1,
{
    let f = flavors_of(values);
    assert(f[q] == f[p]);
    assert(followed(f, p));
    assert(f[p + 1] == values[p + 1].1);
}

/// Where equal flavors stand together, two positions of one flavor have only that flavor
/// between them.
pub proof fn lemma_in_runs(values: Seq<(int, nat)>, p: int, r: int, q: int)
    requires
        in_runs(values),
        0 <= p <= r <= q < values.len(),
        values[p].1 == values[q].1,
    ensures
        values[r].1 == values[p].1,
{
    let f = flavors_of(values);
    assert(f[p] == f[q]);
    lemma_grouped_runs(f, p, r, q);
    assert(f[r] == values[r].1);
}

/// A flavor that does not occur has the total zero.
pub proof fn lemma_total_absent(values: Seq<(int, nat)>, flavor: nat)
    requires
        !present(values, flavor),
    ensures
        total(values, flavor) == 0,
    decreases values.len(),
{
    if values.len() > 0 {
        assert(values[values.len() - 1].1 != flavor);
        assert forall|i: int| 0 <= i < values.drop_last().len() implies values.drop_last()[i].1
            != flavor by {
            assert(values[i].1 != flavor);
        }
        lemma_total_absent(values.drop_last(), flavor);
    }
}

/// The values from position `n` on add nothing to the total of a flavor that does not occur
/// among them.
pub proof fn lemma_total_prefix(values: Seq<(int, nat)>, flavor: nat, n: int)
    requires
        0 <= n <= values.len(),
        forall|i: int| n <= i < values.len() ==> values[i].1 != flavor,
    ensures
        total(values, flavor) == total(values.take(n), flavor),
    decreases values.len() - n,
{
    if n == values.len() {
        assert(values.take(n) =~= values);
    } else {
        let front = values.drop_last();
        assert(values[values.len() - 1].1 != flavor);
        assert(front.take(n) =~= values.take(n));
        lemma_total_prefix(front, flavor, n);
    }
}

/// Where equal flavors stand together and no sum is cut down, the total of a run up to a
/// position is the total of that position's flavor among the values up to it.
pub proof fn lemma_run_total_is_total(values: Seq<(int, nat)>, i: int)
    requires
        in_runs(values),
        fits(values),
        0 <= i < values.len(),
    ensures
        run_total(values, i) == total(values.take(i + 1), values[i].1),
    decreases i,
{
    let flavor = values[i].1;
    let upto = values.take(i + 1);
    assert(upto.drop_last() =~= values.take(i));
    assert(upto.last() == values[i]);
    if i > 0 && values[i - 1].1 == flavor {
        lemma_run_total_is_total(values, i - 1);
        let sum = run_total(values, i - 1) + values[i].0;
        assert(-quantity_bound() < sum < quantity_bound());
        lemma_narrowed(sum);
    } else {
        assert(!present(values.take(i), flavor)) by {
            if present(values.take(i), flavor) {
                let p = choose|p: int| 0 <= p < values.take(i).len() && values.take(i)[p].1 == flavor;
                assert(values[p].1 == flavor);
                lemma_in_runs(values, p, i - 1, i);
            }
        }
        lemma_total_absent(values.take(i), flavor);
    }
}

/// Position `i` is the last of its run.
pub open spec fn ends_run(values: Seq<(int, nat)>, i: int) -> bool {
    0 <= i < values.len() && (i + 1 < values.len() ==> values[i].1 != values[i + 1].1)
}

/// Where equal flavors stand together and no sum is cut down, the last value of a run comes
/// out of the chain of mixes with the total of its flavor.
pub proof fn lemma_run_end(values: Seq<(int, nat)>, i: int)
    requires
        in_runs(values),
        fits(values),
        ends_run(values, i),
    ensures
        mixed_out(values)[i] == (total(values, values[i].1), values[i].1),
        forall|j: int| ends_run(values, j) && values[j].1 == values[i].1 ==> j == i,
{
    let flavor = values[i].1;
    lemma_run_total_is_total(values, i);
    assert forall|j: int| i + 1 <= j < values.len() implies values[j].1 != flavor by {
        if values[j].1 == flavor {
            lemma_followed(values, i, j);
        }
    }
    lemma_total_prefix(values, flavor, i + 1);
    assert forall|j: int| ends_run(values, j) && values[j].1 == flavor implies j == i by {
        if j < i {
            lemma_followed(values, j, i);
        } else if j > i {
            lemma_followed(values, i, j);
        }
    }
}

/// A flavor that occurs has a last occurrence.
pub proof fn lemma_last_occurrence(values: Seq<(int, nat)>, flavor: nat) -> (e: int)
    requires
        present(values, flavor),
    ensures
        0 <= e < values.len(),
        values[e].1 == flavor,
        forall|j: int| e < j < values.len() ==> values[j].1 != flavor,
    decreases values.len(),
{
    let k = values.len() as int;
    let p = choose|p: int| 0 <= p < values.len() && values[p].1 == flavor;
    if values[k - 1].1 == flavor {
        k - 1
    } else {
        let front = values.drop_last();
        assert(front[p].1 == flavor);
        let e = lemma_last_occurrence(front, flavor);
        assert(values[e] == front[e]);
        assert forall|j: int| e < j < values.len() implies values[j].1 != flavor by {
            if j < k - 1 {
                assert(values[j] == front[j]);
            }
        }
        e
    }
}

/// A value that stands at no position does not occur; a value that stands at one position
/// only occurs once.
pub proof fn lemma_count<A>(s: Seq<A>, v: A)
    ensures
        (forall|i: int| 0 <= i < s.len() ==> s[i] != v) ==> s.to_multiset().count(v) == 0,
        forall|i: int|
            0 <= i < s.len() && s[i] == v && (forall|j: int| 0 <= j < s.len() && j != i ==> s[j] != v)
                ==> s.to_multiset().count(v) == 1,
{
    s.to_multiset_ensures();
    if forall|i: int| 0 <= i < s.len() ==> s[i] != v {
        assert(!s.contains(v));
    }
    assert forall|i: int|
        0 <= i < s.len() && s[i] == v && (forall|j: int|
            0 <= j < s.len() && j != i ==> s[j] != v) implies s.to_multiset().count(v) == 1 by {
        let rest = s.remove(i);
        rest.to_multiset_ensures();
        assert forall|j: int| 0 <= j < rest.len() implies rest[j] != v by {
            if j < i {
                assert(rest[j] == s[j]);
            } else {
                assert(rest[j] == s[j + 1]);
            }
        }
        assert(!rest.contains(v));
        assert(rest.to_multiset().count(v) == 0);
        assert(rest.to_multiset() =~= s.to_multiset().remove(v));
        assert(s.contains(v));
        assert(s.to_multiset().count(v) > 0);
    }
}

/// Where equal flavors stand together and no sum is cut down, a value other than zero comes
/// out of the chain of mixes once if it is a flavor that occurs with its total, and else
/// not at all.
pub proof fn lemma_mixed_out_count(values: Seq<(int, nat)>, v: (int, nat))
    requires
        in_runs(values),
        fits(values),
        v != (0int, 0nat),
    ensures
        mixed_out(values).to_multiset().count(v) == (if present(values, v.1) && total(values, v.1)
            == v.0 {
            1nat
        } else {
            0nat
        }),
{
    let out = mixed_out(values);
    lemma_count(out, v);
    if exists|i: int| 0 <= i < out.len() && out[i] == v {
        let i = choose|i: int| 0 <= i < out.len() && out[i] == v;
        assert(ends_run(values, i));
        lemma_run_end(values, i);
        assert(values[i].1 == v.1);
        assert(present(values, v.1));
        assert forall|j: int| 0 <= j < out.len() && j != i implies out[j] != v by {
            if out[j] == v {
                assert(ends_run(values, j));
                assert(values[j].1 == v.1);
            }
        }
    } else {
        if present(values, v.1) && total(values, v.1) == v.0 {
            let e = lemma_last_occurrence(values, v.1);
            assert(ends_run(values, e));
            lemma_run_end(values, e);
            assert(out[e] == v);
        }
    }
}

/// A multiset that holds one value only has as many members as it has of that value.
pub proof fn lemma_single_valued<A>(m: Multiset<A>, z: A)
    requires
        forall|v: A| v != z ==> m.count(v) == 0,
    ensures
        m.len() == m.count(z),
    decreases m.len(),
{
    broadcast use vstd::multiset::group_multiset_axioms;

    if m.len() == 0 {
    } else {
        let x = m.choose();
        assert(m.count(x) > 0);
        assert(x == z);
        let rest = m.remove(z);
        assert forall|v: A| v != z implies rest.count(v) == 0 by {
            assert(m.count(v) == 0);
        }
        lemma_single_valued(rest, z);
    }
}

/// Two multisets of the same size that hold every value but one equally often are equal.
pub proof fn lemma_same_but_one<A>(a: Multiset<A>, b: Multiset<A>, z: A)
    requires
        a.len() == b.len(),
        forall|v: A| v != z ==> a.count(v) == b.count(v),
    ensures
        a == b,
{
    broadcast use vstd::multiset::group_multiset_axioms;

    let other = |v: A| v != z;
    let same = |v: A| v == z;
    let a_other = a.filter(other);
    let b_other = b.filter(other);
    let a_same = a.filter(same);
    let b_same = b.filter(same);
    assert(a =~= a_other.add(a_same));
    assert(b =~= b_other.add(b_same));
    assert(a_other =~= b_other);
    lemma_single_valued(a_same, z);
    lemma_single_valued(b_same, z);
    assert(a_same.count(z) == a.count(z));
    assert(b_same.count(z) == b.count(z));
    assert(a =~= b);
}

/// Zero values added at the end change the count of no other value.
pub proof fn lemma_padded_count(values: Seq<(int, nat)>, k: nat, v: (int, nat))
    requires
        v != (0int, 0nat),
    ensures
        (values + zero_values(k)).to_multiset().count(v) == values.to_multiset().count(v),
    decreases k,
{
    broadcast use vstd::multiset::group_multiset_axioms;

    if k == 0 {
        assert(values + zero_values(0) =~= values);
    } else {
        let before = values + zero_values((k - 1) as nat);
        assert(values + zero_values(k) =~= before.push((0int, 0nat)));
        before.to_multiset_ensures();
        lemma_padded_count(values, (k - 1) as nat, v);
    }
}

/// Conservation suffices: where inputs and outputs stand in runs of equal flavors, the same
/// flavors occur among both and every flavor has the same total among both, the values that
/// come out of the merge of the inputs are, up to zero values, those that go into the split
/// of the outputs. Here `merge_in` is the inputs in grouped order, `split_back` the outputs
/// in grouped order read from right to left, and no sum within a run is cut down.
pub proof fn lemma_rearrangement_passes(
    merge_in: Seq<(int, nat)>,
    split_back: Seq<(int, nat)>,
    pads_left: nat,
    pads_right: nat,
)
    requires
        in_runs(merge_in),
        in_runs(split_back),
        fits(merge_in),
        fits(split_back),
        merge_in.len() + pads_left == split_back.len() + pads_right,
        forall|f: nat| present(merge_in, f) == present(split_back, f),
        forall|f: nat| total(merge_in, f) == total(split_back, f),
    ensures
        (mixed_out(merge_in) + zero_values(pads_left)).to_multiset() == (mixed_out(
            split_back,
        ).reverse() + zero_values(pads_right)).to_multiset(),
{
    let left = mixed_out(merge_in) + zero_values(pads_left);
    let right = mixed_out(split_back).reverse() + zero_values(pads_right);
    left.to_multiset_ensures();
    right.to_multiset_ensures();
    mixed_out(split_back).lemma_reverse_to_multiset();
    assert forall|v: (int, nat)| v != (0int, 0nat) implies left.to_multiset().count(v)
        == right.to_multiset().count(v) by {
        lemma_padded_count(mixed_out(merge_in), pads_left, v);
        lemma_padded_count(mixed_out(split_back).reverse(), pads_right, v);
        lemma_mixed_out_count(merge_in, v);
        lemma_mixed_out_count(split_back, v);
    }
    lemma_same_but_one(left.to_multiset(), right.to_multiset(), (0int, 0nat));
}

/// The values with their quantities taken into the field.
pub open spec fn in_field_all(values: Seq<(int, nat)>) -> Seq<(nat, nat)> {
    values.map_values(|v: (int, nat)| in_field(v))
}

/// Lists that are reorderings of each other have the same flavors and the same totals.
pub proof fn lemma_reordered(s: Seq<(int, nat)>, t: Seq<(int, nat)>)
    requires
        s.to_multiset() == t.to_multiset(),
    ensures
        forall|f: nat| present(s, f) == present(t, f),
        forall|f: nat| total(s, f) == total(t, f),
{
    s.to_multiset_ensures();
    t.to_multiset_ensures();
    assert forall|f: nat| present(s, f) == present(t, f) by {
        if present(s, f) {
            let i = choose|i: int| 0 <= i < s.len() && s[i].1 == f;
            assert(s.contains(s[i]));
            assert(s.to_multiset().count(s[i]) > 0);
            assert(t.to_multiset().count(s[i]) > 0);
            assert(t.contains(s[i]));
        }
        if present(t, f) {
            let i = choose|i: int| 0 <= i < t.len() && t[i].1 == f;
            assert(t.contains(t[i]));
            assert(t.to_multiset().count(t[i]) > 0);
            assert(s.to_multiset().count(t[i]) > 0);
            assert(s.contains(t[i]));
        }
    }
    assert forall|f: nat| total(s, f) == total(t, f) by {
        lemma_total_permutation(s, t, f);
    }
}

/// A rearrangement that conserves passes all three shuffles, whatever the challenges: where
/// the same flavors occur among inputs and outputs and every flavor has the same total among
/// both, the products that the shuffles compare are equal. Here `merge_in` is the inputs and
/// `split_out` the outputs, each reordered so that equal flavors stand together, and no sum
/// within a run is cut down.
pub proof fn lemma_rearrangement_complete(
    inputs: Seq<(int, nat)>,
    outputs: Seq<(int, nat)>,
    merge_in: Seq<(int, nat)>,
    split_out: Seq<(int, nat)>,
    c: nat,
    z: nat,
)
    requires
        merge_in.to_multiset() == inputs.to_multiset(),
        split_out.to_multiset() == outputs.to_multiset(),
        in_runs(merge_in),
        in_runs(split_out.reverse()),
        fits(merge_in),
        fits(split_out.reverse()),
        forall|f: nat| present(inputs, f) == present(outputs, f),
        forall|f: nat| total(inputs, f) == total(outputs, f),
    ensures
        product_by(in_field_all(inputs), |v: (nat, nat)| blend(v, c, z)) == product_by(
            in_field_all(merge_in),
            |v: (nat, nat)| blend(v, c, z),
        ),
        product_by(
            in_field_all(
                mixed_out(merge_in) + zero_values(pads(inputs.len(), outputs.len())),
            ),
            |v: (nat, nat)| blend(v, c, z),
        ) == product_by(
            in_field_all(split_in(split_out) + zero_values(pads(outputs.len(), inputs.len()))),
            |v: (nat, nat)| blend(v, c, z),
        ),
        product_by(in_field_all(split_out), |v: (nat, nat)| blend(v, c, z)) == product_by(
            in_field_all(outputs),
            |v: (nat, nat)| blend(v, c, z),
        ),
{
    let into = |v: (int, nat)| in_field(v);
    merge_in.to_multiset_ensures();
    inputs.to_multiset_ensures();
    split_out.to_multiset_ensures();
    outputs.to_multiset_ensures();
    lemma_map_permutation(inputs, merge_in, into);
    lemma_value_shuffle_complete(in_field_all(inputs), in_field_all(merge_in), c, z);
    lemma_map_permutation(split_out, outputs, into);
    lemma_value_shuffle_complete(in_field_all(split_out), in_field_all(outputs), c, z);
    let back = split_out.reverse();
    split_out.lemma_reverse_to_multiset();
    lemma_reordered(merge_in, inputs);
    lemma_reordered(back, split_out);
    lemma_reordered(split_out, outputs);
    lemma_rearrangement_passes(
        merge_in,
        back,
        pads(inputs.len(), outputs.len()),
        pads(outputs.len(), inputs.len()),
    );
    lemma_map_permutation(
        mixed_out(merge_in) + zero_values(pads(inputs.len(), outputs.len())),
        split_in(split_out) + zero_values(pads(outputs.len(), inputs.len())),
        into,
    );
    lemma_value_shuffle_complete(
        in_field_all(mixed_out(merge_in) + zero_values(pads(inputs.len(), outputs.len()))),
        in_field_all(split_in(split_out) + zero_values(pads(outputs.len(), inputs.len()))),
        c,
        z,
    );
}

/// Field elements read as quantities.
pub open spec fn as_quantities(values: Seq<(nat, nat)>) -> Seq<(int, nat)> {
    values.map_values(|v: (nat, nat)| (v.0 as int, v.1))
}

/// The total of the quantities of one flavor among values in the field, in the field.
pub open spec fn field_total(values: Seq<(nat, nat)>, flavor: nat) -> nat {
    field_of(total(as_quantities(values), flavor))
}

/// What a value adds to the total of a flavor.
pub open spec fn share(v: (nat, nat), flavor: nat) -> int {
    if v.1 == flavor {
        v.0 as int
    } else {
        0
    }
}

/// A mix conserves: values passed on or merged add to the total of every flavor what they
/// added before.
pub proof fn lemma_mix_relation_conserves(
    a: (nat, nat),
    b: (nat, nat),
    c: (nat, nat),
    d: (nat, nat),
    flavor: nat,
)
    requires
        passes(a, b, c, d) || merges(a, b, c, d),
    ensures
        field_of(share(c, flavor) + share(d, flavor)) == field_of(
            share(a, flavor) + share(b, flavor),
        ),
{
    if !passes(a, b, c, d) {
        lemma_field_ops(a.0, b.0);
        lemma_field_of((a.0 + b.0) as int);
    }
}

/// The cells of a chain of mixes hold: cell `i + 1` takes `carried[i]` and `inputs[i + 1]`,
/// leaves `left[i]` behind and carries `carried[i + 1]` on, and these four values are passed
/// on or merged. The chain starts with the first input.
pub open spec fn cells_hold(
    inputs: Seq<(nat, nat)>,
    carried: Seq<(nat, nat)>,
    left: Seq<(nat, nat)>,
) -> bool {
    &&& inputs.len() >= 1
    &&& carried.len() == inputs.len()
    &&& left.len() + 1 == inputs.len()
    &&& carried[0] == inputs[0]
    &&& forall|i: int|
        0 <= i < left.len() ==> passes(carried[i], inputs[i + 1], #[trigger] left[i], carried[i + 1])
            || merges(carried[i], inputs[i + 1], left[i], carried[i + 1])
}

/// What has been left behind by the first `n` cells and what is carried on after them have
/// the totals of the first `n + 1` inputs.
pub proof fn lemma_cells_conserve(
    inputs: Seq<(nat, nat)>,
    carried: Seq<(nat, nat)>,
    left: Seq<(nat, nat)>,
    n: int,
    flavor: nat,
)
    requires
        cells_hold(inputs, carried, left),
        0 <= n < inputs.len(),
    ensures
        field_of(total(as_quantities(left.take(n)), flavor) + share(carried[n], flavor))
            == field_of(total(as_quantities(inputs.take(n + 1)), flavor)),
    decreases n,
{
    let ins = as_quantities(inputs.take(n + 1));
    assert(ins.drop_last() =~= as_quantities(inputs.take(n)));
    assert(ins.last() == (inputs[n].0 as int, inputs[n].1));
    if n == 0 {
        assert(as_quantities(left.take(0)).len() == 0);
        assert(total(ins.drop_last(), flavor) == 0);
    } else {
        lemma_cells_conserve(inputs, carried, left, n - 1, flavor);
        let outs = as_quantities(left.take(n));
        assert(outs.drop_last() =~= as_quantities(left.take(n - 1)));
        assert(outs.last() == (left[n - 1].0 as int, left[n - 1].1));
        let settled = total(as_quantities(left.take(n - 1)), flavor);
        let before = total(as_quantities(inputs.take(n)), flavor);
        assert(passes(carried[n - 1], inputs[n], left[n - 1], carried[n]) || merges(
            carried[n - 1],
            inputs[n],
            left[n - 1],
            carried[n],
        ));
        lemma_mix_relation_conserves(carried[n - 1], inputs[n], left[n - 1], carried[n], flavor);
        let new = share(left[n - 1], flavor) + share(carried[n], flavor);
        let old = share(carried[n - 1], flavor) + share(inputs[n], flavor);
        lemma_field_of_reduce(settled, new);
        lemma_field_of_reduce(settled, old);
        assert(field_of(settled + new) == field_of(settled + old));
        lemma_field_of_reduce(settled + share(carried[n - 1], flavor), share(inputs[n], flavor));
        lemma_field_of_reduce(before, share(inputs[n], flavor));
    }
}

/// The values `outputs` can come out of a chain of mixes over the values `inputs`.
pub open spec fn mixes_to(inputs: Seq<(nat, nat)>, outputs: Seq<(nat, nat)>) -> bool {
    if inputs.len() == 0 {
        outputs.len() == 0
    } else {
        exists|carried: Seq<(nat, nat)>, left: Seq<(nat, nat)>|
            cells_hold(inputs, carried, left) && outputs == left.push(carried.last())
    }
}

/// A chain of mixes whose cells hold conserves the total of every flavor, in the field.
pub proof fn lemma_mixes_conserve(inputs: Seq<(nat, nat)>, outputs: Seq<(nat, nat)>, flavor: nat)
    requires
        mixes_to(inputs, outputs),
    ensures
        field_total(outputs, flavor) == field_total(inputs, flavor),
{
    if inputs.len() == 0 {
        assert(as_quantities(inputs) =~= as_quantities(outputs));
    } else {
        let (carried, left) = choose|carried: Seq<(nat, nat)>, left: Seq<(nat, nat)>|
            cells_hold(inputs, carried, left) && outputs == left.push(carried.last());
        let n = inputs.len() - 1;
        lemma_cells_conserve(inputs, carried, left, n, flavor);
        assert(left.take(n) =~= left);
        assert(inputs.take(n + 1) =~= inputs);
        let outs = as_quantities(outputs);
        assert(outs.drop_last() =~= as_quantities(left));
        assert(outs.last() == (carried[n].0 as int, carried[n].1));
    }
}

/// The total of a flavor in the field does not depend on the order of the values, and zero
/// values add nothing to it.
pub proof fn lemma_field_total(s: Seq<(nat, nat)>, t: Seq<(nat, nat)>, k: nat, flavor: nat)
    ensures
        s.to_multiset() == t.to_multiset() ==> field_total(s, flavor) == field_total(t, flavor),
        field_total(s + zeros(k), flavor) == field_total(s, flavor),
        field_total(s.reverse(), flavor) == field_total(s, flavor),
{
    if s.to_multiset() == t.to_multiset() {
        lemma_map_permutation(s, t, |v: (nat, nat)| (v.0 as int, v.1));
        lemma_total_permutation(as_quantities(s), as_quantities(t), flavor);
    }
    assert(as_quantities(s + zeros(k)) =~= as_quantities(s) + zero_values(k));
    lemma_total_padded(as_quantities(s), k, flavor);
    assert(as_quantities(s.reverse()) =~= as_quantities(s).reverse());
    lemma_total_reverse(as_quantities(s), flavor);
}

/// Conservation is demanded: a witness whose values are related as the gadgets of a
/// transaction demand has the same total of every flavor, in the field, among the outputs as
/// among the inputs. The relations are: `merge_in` is a reordering of the inputs `x`;
/// `merge_out` comes out of a chain of mixes over `merge_in`; `merge_out` and `split_in` are
/// reorderings of each other up to zero values; `split_in` read from right to left comes out
/// of a chain of mixes over `split_out` read from right to left; and `split_out` is a
/// reordering of the outputs `y`.
pub proof fn lemma_conservation_demanded(
    x: Seq<(nat, nat)>,
    merge_in: Seq<(nat, nat)>,
    merge_out: Seq<(nat, nat)>,
    split_in: Seq<(nat, nat)>,
    split_out: Seq<(nat, nat)>,
    y: Seq<(nat, nat)>,
    pads_left: nat,
    pads_right: nat,
    flavor: nat,
)
    requires
        merge_in.to_multiset() == x.to_multiset(),
        mixes_to(merge_in, merge_out),
        (merge_out + zeros(pads_left)).to_multiset() == (split_in + zeros(pads_right)).to_multiset(),
        mixes_to(split_out.reverse(), split_in.reverse()),
        split_out.to_multiset() == y.to_multiset(),
    ensures
        field_total(x, flavor) == field_total(y, flavor),
{
    lemma_field_total(merge_in, x, 0, flavor);
    lemma_mixes_conserve(merge_in, merge_out, flavor);
    lemma_field_total(merge_out, merge_out, pads_left, flavor);
    lemma_field_total(merge_out + zeros(pads_left), split_in + zeros(pads_right), 0, flavor);
    lemma_field_total(split_in, split_in, pads_right, flavor);
    lemma_field_total(split_in, split_in, 0, flavor);
    lemma_mixes_conserve(split_out.reverse(), split_in.reverse(), flavor);
    lemma_field_total(split_out, y, 0, flavor);
}

/// The values with the absolute values of their quantities.
pub open spec fn magnitudes(values: Seq<(int, nat)>) -> Seq<(int, nat)> {
    values.map_values(|v: (int, nat)| (if v.0 >= 0 { v.0 } else { -v.0 }, v.1))
}

/// No flavor is heavy: the quantities of each flavor add up to less than 2^64 even when
/// their signs are ignored, so that no sum of quantities of one flavor is ever cut down.
pub open spec fn light(values: Seq<(int, nat)>) -> bool {
    forall|f: nat| #[trigger] total(magnitudes(values), f) < quantity_bound()
}

/// The total of the absolute values of a flavor among the first values is not negative and
/// is at most the total among all the values.
pub proof fn lemma_magnitudes_prefix(values: Seq<(int, nat)>, n: int, flavor: nat)
    requires
        0 <= n <= values.len(),
    ensures
        0 <= total(magnitudes(values.take(n)), flavor) <= total(magnitudes(values), flavor),
    decreases values.len() - n,
{
    if n == values.len() {
        assert(values.take(n) =~= values);
        lemma_magnitudes_nonnegative(values, flavor);
    } else {
        let all = magnitudes(values);
        assert(all.drop_last() =~= magnitudes(values.drop_last()));
        assert(values.drop_last().take(n) =~= values.take(n));
        lemma_magnitudes_prefix(values.drop_last(), n, flavor);
    }
}

/// The total of absolute values is not negative.
pub proof fn lemma_magnitudes_nonnegative(values: Seq<(int, nat)>, flavor: nat)
    ensures
        0 <= total(magnitudes(values), flavor),
    decreases values.len(),
{
    if values.len() > 0 {
        assert(magnitudes(values).drop_last() =~= magnitudes(values.drop_last()));
        lemma_magnitudes_nonnegative(values.drop_last(), flavor);
    }
}

/// The total of a run up to a position is, in absolute value, at most the total of the
/// absolute values of that position's flavor among the values up to it; so where no flavor
/// is heavy, no sum within a run is cut down.
pub proof fn lemma_light_run(values: Seq<(int, nat)>, i: int)
    requires
        light(values),
        0 <= i < values.len(),
    ensures
        -total(magnitudes(values.take(i + 1)), values[i].1) <= run_total(values, i) <= total(
            magnitudes(values.take(i + 1)),
            values[i].1,
        ),
        i > 0 && values[i - 1].1 == values[i].1 ==> -quantity_bound() < run_total(values, i - 1)
            + values[i].0 < quantity_bound(),
    decreases i,
{
    let flavor = values[i].1;
    let upto = magnitudes(values.take(i + 1));
    assert(upto.drop_last() =~= magnitudes(values.take(i)));
    assert(total(magnitudes(values), flavor) < quantity_bound());
    lemma_magnitudes_prefix(values, i + 1, flavor);
    lemma_magnitudes_prefix(values, i, flavor);
    if i > 0 && values[i - 1].1 == flavor {
        lemma_light_run(values, i - 1);
        lemma_narrowed(run_total(values, i - 1) + values[i].0);
    }
}

/// Where no flavor is heavy, no sum within a run of equal flavors is cut down.
pub proof fn lemma_light_fits(values: Seq<(int, nat)>)
    requires
        light(values),
    ensures
        fits(values),
{
    assert forall|i: int|
        0 < i < values.len() && values[i - 1].1 == values[i].1 implies -quantity_bound()
        < #[trigger] run_total(values, i - 1) + values[i].0 < quantity_bound() by {
        lemma_light_run(values, i);
    }
}

/// Lists that are reorderings of each other are light together.
pub proof fn lemma_light_reordered(s: Seq<(int, nat)>, t: Seq<(int, nat)>)
    requires
        s.to_multiset() == t.to_multiset(),
        light(s),
    ensures
        light(t),
{
    let magnitude = |v: (int, nat)| (if v.0 >= 0 { v.0 } else { -v.0 }, v.1);
    lemma_map_permutation(s, t, magnitude);
    assert forall|f: nat| #[trigger] total(magnitudes(t), f) < quantity_bound() by {
        lemma_total_permutation(magnitudes(s), magnitudes(t), f);
        assert(total(magnitudes(s), f) < quantity_bound());
    }
}

} // verus!
