use crate::conservation::cells_hold;
use crate::conservation::field_total;
use crate::conservation::lemma_conservation_demanded;
use crate::conservation::mixes_to;
use crate::field::field_sub;
use crate::field::lemma_field_congruent;
use crate::field::lemma_field_mul;
use crate::field::lemma_field_mul_of;
use crate::field::lemma_field_of;
use crate::field::lemma_field_of_reduce;
use crate::field::lemma_field_ops;
use crate::field::lemma_product_mapped;
use crate::field::lemma_product_remove;
use crate::field::product_by;
use crate::gadgets::mix::merge_value;
use crate::gadgets::mix::merges;
use crate::gadgets::mix::pass_value;
use crate::gadgets::mix::passes;
use crate::gadgets::padded_shuffle::pads;
use crate::gadgets::padded_shuffle::zeros;
use crate::gadgets::range_proof::no_zero_divisors;
use crate::polynomial::distinct_elements;
use crate::polynomial::eval;
use crate::polynomial::int_product;
use crate::polynomial::lemma_cancel;
use crate::polynomial::lemma_eval_push;
use crate::polynomial::lemma_minus;
use crate::polynomial::lemma_root_bound;
use crate::polynomial::lemma_root_polynomial;
use crate::polynomial::lemma_roots_vanish;
use crate::polynomial::minus;
use crate::polynomial::root_polynomial;
use crate::scalar::field_mul;
use crate::scalar::field_of;
use crate::scalar::lemma_order;
use crate::scalar::order;
use crate::semantics::blend;
use vstd::prelude::*;
use vstd::set_lib::lemma_int_range;
use vstd::set_lib::lemma_len_subset;
use vstd::set_lib::set_int_range;

verus! {

/// The product of `v - z` over the members `v` of `x`, in the field: what one side of a
/// shuffle of scalars multiplies up to for the challenge `z`.
pub open spec fn shifted_product(x: Seq<nat>, z: nat) -> nat {
    product_by(x, |v: nat| field_sub(v, z))
}

/// Every member is below the group order.
pub open spec fn reduced(x: Seq<nat>) -> bool {
    forall|i: int| 0 <= i < x.len() ==> #[trigger] x[i] < order()
}

/// The product in the field is the field element of the product over the integers.
pub proof fn lemma_shifted_product(x: Seq<nat>, z: nat)
    ensures
        shifted_product(x, z) == field_of(int_product(x, z as int)),
        shifted_product(x, z) < order(),
        x.len() > 0 ==> shifted_product(x, z) == field_mul(
            shifted_product(x.drop_last(), z),
            field_sub(x.last(), z),
        ),
    decreases x.len(),
{
    lemma_order();
    lemma_field_of(1);
    if x.len() > 0 {
        lemma_shifted_product(x.drop_last(), z);
        lemma_field_mul_of(int_product(x.drop_last(), z as int), x.last() - z);
        lemma_field_ops(shifted_product(x.drop_last(), z), field_sub(x.last(), z));
    }
}

/// Any member's factor can be taken out of the product.
pub proof fn lemma_shifted_remove(x: Seq<nat>, z: nat, j: int)
    requires
        0 <= j < x.len(),
    ensures
        shifted_product(x, z) == field_mul(shifted_product(x.remove(j), z), field_sub(x[j], z)),
{
    lemma_product_remove(x, |v: nat| field_sub(v, z), j);
}

/// Two lists of equal length whose products agree for more challenges than they have members
/// have products that agree for every challenge.
pub proof fn lemma_agree_everywhere(x: Seq<nat>, y: Seq<nat>, points: Seq<nat>, z: nat)
    requires
        no_zero_divisors(),
        x.len() == y.len(),
        points.len() > x.len(),
        distinct_elements(points),
        forall|i: int|
            0 <= i < points.len() ==> shifted_product(x, #[trigger] points[i]) == shifted_product(
                y,
                points[i],
            ),
    ensures
        shifted_product(x, z) == shifted_product(y, z),
{
    let d = minus(root_polynomial(x), root_polynomial(y));
    lemma_root_polynomial(x, 0);
    lemma_root_polynomial(y, 0);
    assert forall|i: int| 0 <= i < points.len() implies field_of(
        eval(d, #[trigger] points[i] as int),
    ) == 0 by {
        let p = points[i];
        lemma_root_polynomial(x, p as int);
        lemma_root_polynomial(y, p as int);
        lemma_minus(root_polynomial(x), root_polynomial(y), p as int);
        lemma_shifted_product(x, p);
        lemma_shifted_product(y, p);
        lemma_field_congruent(int_product(x, p as int), int_product(y, p as int));
    }
    lemma_root_bound(d, points, z as int);
    lemma_root_polynomial(x, z as int);
    lemma_root_polynomial(y, z as int);
    lemma_minus(root_polynomial(x), root_polynomial(y), z as int);
    lemma_shifted_product(x, z);
    lemma_shifted_product(y, z);
    lemma_field_congruent(int_product(x, z as int), int_product(y, z as int));
}

/// In a field without zero divisors a product that is zero has a factor that is zero: the
/// challenge is a member of the list.
pub proof fn lemma_zero_factor(x: Seq<nat>, z: nat) -> (j: int)
    requires
        no_zero_divisors(),
        reduced(x),
        z < order(),
        shifted_product(x, z) == 0,
    ensures
        0 <= j < x.len(),
        x[j] == z,
    decreases x.len(),
{
    lemma_shifted_product(x, z);
    if x.len() == 0 {
        0
    } else {
        let before = shifted_product(x.drop_last(), z);
        let factor = field_sub(x.last(), z);
        lemma_shifted_product(x.drop_last(), z);
        lemma_field_ops(x.last(), z);
        if factor == 0 {
            assert(x[x.len() - 1] < order());
            lemma_field_congruent(x.last() as int, z as int);
            lemma_field_of(x.last() as int);
            lemma_field_of(z as int);
            x.len() - 1
        } else {
            assert(before == 0);
            assert(reduced(x.drop_last())) by {
                assert forall|i: int| 0 <= i < x.drop_last().len() implies #[trigger] x.drop_last()[i]
                    < order() by {
                    assert(x.drop_last()[i] == x[i]);
                }
            }
            let j = lemma_zero_factor(x.drop_last(), z);
            assert(x.drop_last()[j] == x[j]);
            j
        }
    }
}

/// In a field without zero divisors a factor that is not zero can be cancelled.
pub proof fn lemma_cancel_factor(u: nat, v: nat, s: nat)
    requires
        no_zero_divisors(),
        u < order(),
        v < order(),
        s < order(),
        s != 0,
        field_mul(u, s) == field_mul(v, s),
    ensures
        u == v,
{
    lemma_field_ops(u, s);
    lemma_field_ops(v, s);
    lemma_field_congruent((u * s) as int, (v * s) as int);
    assert(u * s - v * s == s * (u - v)) by (nonlinear_arith);
    lemma_field_of(s as int);
    lemma_cancel(s as int, u - v);
    lemma_field_congruent(u as int, v as int);
    lemma_field_of(u as int);
    lemma_field_of(v as int);
}

/// In a field without zero divisors two lists of equal length whose products agree for every
/// challenge are reorderings of each other.
pub proof fn lemma_roots_determine(x: Seq<nat>, y: Seq<nat>)
    requires
        no_zero_divisors(),
        x.len() == y.len(),
        x.len() + 1 < order(),
        reduced(x),
        reduced(y),
        forall|z: nat| z < order() ==> #[trigger] shifted_product(x, z) == shifted_product(y, z),
    ensures
        x.to_multiset() == y.to_multiset(),
    decreases x.len(),
{
    if x.len() == 0 {
        assert(x =~= y);
    } else {
        let k = x.len();
        let a = x.last();
        let head = x.drop_last();
        assert(x[k - 1] < order());
        // the last member of `x` is a root on the side of `x`, so it is one on the side of `y`
        lemma_shifted_product(x, a);
        lemma_field_of(0);
        lemma_field_mul(shifted_product(head, a), 0, 0);
        assert(shifted_product(x, a) == 0);
        assert(shifted_product(y, a) == 0);
        let j = lemma_zero_factor(y, a);
        let rest = y.remove(j);
        assert(reduced(head)) by {
            assert forall|i: int| 0 <= i < head.len() implies #[trigger] head[i] < order() by {
                assert(head[i] == x[i]);
            }
        }
        assert(reduced(rest)) by {
            assert forall|i: int| 0 <= i < rest.len() implies #[trigger] rest[i] < order() by {
                if i < j {
                    assert(rest[i] == y[i]);
                } else {
                    assert(rest[i] == y[i + 1]);
                }
            }
        }
        // without that member the products agree for every other challenge
        assert forall|z: nat| z < order() && z != a implies shifted_product(head, z)
            == shifted_product(rest, z) by {
            lemma_shifted_product(x, z);
            lemma_shifted_remove(y, z, j);
            lemma_shifted_product(head, z);
            lemma_shifted_product(rest, z);
            lemma_field_ops(a, z);
            lemma_field_congruent(a as int, z as int);
            lemma_field_of(a as int);
            lemma_field_of(z as int);
            assert(shifted_product(x, z) == shifted_product(y, z));
            lemma_cancel_factor(shifted_product(head, z), shifted_product(rest, z), field_sub(a, z));
        }
        // which are enough for them to agree for every challenge
        let points = Seq::new(
            k,
            |i: int|
                if i < a {
                    i as nat
                } else {
                    (i + 1) as nat
                },
        );
        assert(distinct_elements(points));
        assert forall|i: int| 0 <= i < points.len() implies shifted_product(
            head,
            #[trigger] points[i],
        ) == shifted_product(rest, points[i]) by {
            assert(points[i] != a && points[i] < order());
        }
        assert forall|z: nat| z < order() implies #[trigger] shifted_product(head, z)
            == shifted_product(rest, z) by {
            lemma_agree_everywhere(head, rest, points, z);
        }
        lemma_roots_determine(head, rest);
        x.to_multiset_ensures();
        y.to_multiset_ensures();
        head.to_multiset_ensures();
        assert(head.push(a) =~= x);
        assert(y.contains(a)) by {
            assert(y[j] == a);
        }
        assert(y.to_multiset().count(a) > 0);
        assert(x.to_multiset() =~= head.to_multiset().insert(a));
        assert(rest.to_multiset() =~= y.to_multiset().remove(a));
        assert(y.to_multiset() =~= y.to_multiset().remove(a).insert(a));
    }
}

/// In a field without zero divisors a shuffle of scalars that are no reordering holds for
/// as many challenges as there are scalars on a side, at most: if the two products agree
/// for more challenges than that, then `y` is a reordering of `x`. So lists of `k` scalars
/// that are no reordering pass for at most `k` of the challenges that can be drawn.
pub proof fn lemma_scalar_shuffle_sound(x: Seq<nat>, y: Seq<nat>, challenges: Seq<nat>)
    requires
        no_zero_divisors(),
        x.len() == y.len(),
        x.len() + 1 < order(),
        reduced(x),
        reduced(y),
        challenges.len() > x.len(),
        distinct_elements(challenges),
        forall|i: int|
            0 <= i < challenges.len() ==> shifted_product(x, #[trigger] challenges[i])
                == shifted_product(y, challenges[i]),
    ensures
        x.to_multiset() == y.to_multiset(),
{
    assert forall|z: nat| z < order() implies #[trigger] shifted_product(x, z) == shifted_product(
        y,
        z,
    ) by {
        lemma_agree_everywhere(x, y, challenges, z);
    }
    lemma_roots_determine(x, y);
}

/// Among more numbers than there are holes `0, ..., k - 1` for them, two are in one hole.
pub proof fn lemma_pigeonhole(holes: Seq<int>, k: nat) -> (pair: (int, int))
    requires
        holes.len() > k,
        forall|i: int| 0 <= i < holes.len() ==> 0 <= #[trigger] holes[i] < k,
    ensures
        0 <= pair.0 < holes.len(),
        0 <= pair.1 < holes.len(),
        pair.0 != pair.1,
        holes[pair.0] == holes[pair.1],
{
    if holes.no_duplicates() {
        holes.unique_seq_to_set();
        lemma_int_range(0, k as int);
        assert(holes.to_set().subset_of(set_int_range(0, k as int))) by {
            assert forall|a: int| holes.to_set().contains(a) implies set_int_range(
                0,
                k as int,
            ).contains(a) by {
                let i = choose|i: int| 0 <= i < holes.len() && holes[i] == a;
                assert(0 <= holes[i] < k);
            }
        }
        lemma_len_subset(holes.to_set(), set_int_range(0, k as int));
        assert(false);
    }
    choose|i: int, j: int|
        0 <= i < holes.len() && 0 <= j < holes.len() && i != j && holes[i] == holes[j]
}

/// The field element `q + w * f` that a shuffle of values makes of a value for the weight
/// `w`.
pub open spec fn weighted(v: (nat, nat), w: nat) -> nat {
    field_of((v.0 + w * v.1) as int)
}

/// What a shuffle of values makes of a list of values for the weight `w`.
pub open spec fn weighted_values(x: Seq<(nat, nat)>, w: nat) -> Seq<nat> {
    Seq::new(x.len(), |i: int| weighted(x[i], w))
}

/// Quantity and flavor of every value are below the group order.
pub open spec fn reduced_pairs(x: Seq<(nat, nat)>) -> bool {
    forall|i: int| 0 <= i < x.len() ==> (#[trigger] x[i]).0 < order() && x[i].1 < order()
}

/// The product of `q + w * f - z` over the values `(q, f)` of `x`, in the field: what one
/// side of a shuffle of values multiplies up to for the weight `w` and the challenge `z`.
pub open spec fn blended_product(x: Seq<(nat, nat)>, w: nat, z: nat) -> nat {
    product_by(x, |v: (nat, nat)| blend(v, w, z))
}

/// A shuffle of values is the shuffle of scalars of what the weight makes of the values.
pub proof fn lemma_blended_product(x: Seq<(nat, nat)>, w: nat, z: nat)
    ensures
        blended_product(x, w, z) == shifted_product(weighted_values(x, w), z),
{
    let scalars = weighted_values(x, w);
    assert forall|i: int| 0 <= i < x.len() implies field_sub(#[trigger] scalars[i], z) == blend(
        x[i],
        w,
        z,
    ) by {
        lemma_field_of_reduce((x[i].0 + w * x[i].1) as int, z as int);
    }
    lemma_product_mapped(
        scalars,
        x,
        |v: nat| field_sub(v, z),
        |v: (nat, nat)| blend(v, w, z),
    );
}

/// In a field without zero divisors two values that two different weights make the same
/// scalars of are the same value.
pub proof fn lemma_weights_determine(u: (nat, nat), v: (nat, nat), w1: nat, w2: nat)
    requires
        no_zero_divisors(),
        u.0 < order(),
        u.1 < order(),
        v.0 < order(),
        v.1 < order(),
        w1 < order(),
        w2 < order(),
        w1 != w2,
        weighted(u, w1) == weighted(v, w1),
        weighted(u, w2) == weighted(v, w2),
    ensures
        u == v,
{
    let a1 = (u.0 + w1 * u.1) as int;
    let b1 = (v.0 + w1 * v.1) as int;
    let a2 = (u.0 + w2 * u.1) as int;
    let b2 = (v.0 + w2 * v.1) as int;
    lemma_field_of(0);
    lemma_field_congruent(a1, b1);
    lemma_field_congruent(a2, b2);
    lemma_field_congruent(a1 - b1, a2 - b2);
    assert((a1 - b1) - (a2 - b2) == (w1 - w2) * (u.1 - v.1)) by (nonlinear_arith)
        requires
            a1 == u.0 + w1 * u.1,
            b1 == v.0 + w1 * v.1,
            a2 == u.0 + w2 * u.1,
            b2 == v.0 + w2 * v.1,
    ;
    lemma_field_congruent(w1 as int, w2 as int);
    lemma_field_of(w1 as int);
    lemma_field_of(w2 as int);
    lemma_cancel(w1 - w2, u.1 - v.1);
    lemma_field_congruent(u.1 as int, v.1 as int);
    lemma_field_of(u.1 as int);
    lemma_field_of(v.1 as int);
    assert(u.1 == v.1);
    assert(a1 - b1 == u.0 - v.0);
    lemma_field_congruent(u.0 as int, v.0 as int);
    lemma_field_of(u.0 as int);
    lemma_field_of(v.0 as int);
}

/// In a field without zero divisors two lists of values of which more weights than they
/// have members make reorderings of scalars are reorderings of each other.
pub proof fn lemma_weighted_determine(x: Seq<(nat, nat)>, y: Seq<(nat, nat)>, weights: Seq<nat>)
    requires
        no_zero_divisors(),
        x.len() == y.len(),
        weights.len() > x.len(),
        distinct_elements(weights),
        reduced_pairs(x),
        reduced_pairs(y),
        forall|i: int|
            0 <= i < weights.len() ==> weighted_values(x, #[trigger] weights[i]).to_multiset()
                == weighted_values(y, weights[i]).to_multiset(),
    ensures
        x.to_multiset() == y.to_multiset(),
    decreases x.len(),
{
    if x.len() == 0 {
        assert(x =~= y);
    } else {
        let k = x.len();
        let last = x.last();
        let head = x.drop_last();
        // for every weight some value of `y` is made the scalar that the last of `x` is
        let holes = Seq::new(
            weights.len(),
            |i: int|
                choose|j: int|
                    0 <= j < k && weighted(y[j], weights[i]) == weighted(last, weights[i]),
        );
        assert forall|i: int| 0 <= i < weights.len() implies 0 <= #[trigger] holes[i] < k
            && weighted(y[holes[i]], weights[i]) == weighted(last, weights[i]) by {
            let w = weights[i];
            let xs = weighted_values(x, w);
            let ys = weighted_values(y, w);
            xs.to_multiset_ensures();
            ys.to_multiset_ensures();
            assert(xs[k - 1] == weighted(last, w));
            assert(xs.contains(weighted(last, w)));
            assert(xs.to_multiset().count(weighted(last, w)) > 0);
            assert(weighted_values(x, weights[i]).to_multiset() == weighted_values(
                y,
                weights[i],
            ).to_multiset());
            assert(ys.to_multiset().count(weighted(last, w)) > 0);
            assert(ys.contains(weighted(last, w)));
            let j = choose|j: int| 0 <= j < ys.len() && ys[j] == weighted(last, w);
            assert(0 <= j < k && weighted(y[j], w) == weighted(last, w));
        }
        // and for two of the weights it is the same value of `y`, which is then that of `x`
        let pair = lemma_pigeonhole(holes, k);
        let j = holes[pair.0];
        assert(holes[pair.1] == j);
        assert(weights[pair.0] != weights[pair.1]) by {
            if pair.0 < pair.1 {
                assert(weights[pair.0] != weights[pair.1]);
            } else {
                assert(weights[pair.1] != weights[pair.0]);
            }
        }
        assert(x[k - 1] == last);
        lemma_weights_determine(last, y[j], weights[pair.0], weights[pair.1]);
        assert(y[j] == last);
        let rest = y.remove(j);
        assert(reduced_pairs(head)) by {
            assert forall|i: int| 0 <= i < head.len() implies (#[trigger] head[i]).0 < order()
                && head[i].1 < order() by {
                assert(head[i] == x[i]);
            }
        }
        assert(reduced_pairs(rest)) by {
            assert forall|i: int| 0 <= i < rest.len() implies (#[trigger] rest[i]).0 < order()
                && rest[i].1 < order() by {
                if i < j {
                    assert(rest[i] == y[i]);
                } else {
                    assert(rest[i] == y[i + 1]);
                }
            }
        }
        assert forall|i: int| 0 <= i < weights.len() implies weighted_values(
            head,
            #[trigger] weights[i],
        ).to_multiset() == weighted_values(rest, weights[i]).to_multiset() by {
            let w = weights[i];
            let xs = weighted_values(x, w);
            let ys = weighted_values(y, w);
            xs.to_multiset_ensures();
            ys.to_multiset_ensures();
            assert(weighted_values(head, w) =~= xs.remove(k - 1));
            assert(weighted_values(rest, w) =~= ys.remove(j));
            assert(xs[k - 1] == ys[j]);
        }
        lemma_weighted_determine(head, rest, weights);
        x.to_multiset_ensures();
        y.to_multiset_ensures();
        head.to_multiset_ensures();
        assert(head.push(last) =~= x);
        assert(y.contains(last));
        assert(y.to_multiset().count(last) > 0);
        assert(x.to_multiset() =~= head.to_multiset().insert(last));
        assert(rest.to_multiset() =~= y.to_multiset().remove(last));
        assert(y.to_multiset() =~= y.to_multiset().remove(last).insert(last));
    }
}

/// In a field without zero divisors a shuffle of `k` values that are no reordering passes
/// for few pairs of challenges: where more than `k` weights each have more than `k`
/// challenges for which the two products agree, `y` is a reordering of `x`. So values that
/// are no reordering pass only if one of at most `k` weights or, after it, one of at most `k`
/// challenges is drawn.
pub proof fn lemma_value_shuffle_sound(
    x: Seq<(nat, nat)>,
    y: Seq<(nat, nat)>,
    weights: Seq<nat>,
    challenges: Seq<Seq<nat>>,
)
    requires
        no_zero_divisors(),
        x.len() == y.len(),
        x.len() + 1 < order(),
        reduced_pairs(x),
        reduced_pairs(y),
        weights.len() > x.len(),
        distinct_elements(weights),
        challenges.len() == weights.len(),
        forall|i: int|
            0 <= i < weights.len() ==> (#[trigger] challenges[i]).len() > x.len()
                && distinct_elements(challenges[i]),
        forall|i: int, t: int|
            0 <= i < weights.len() && 0 <= t < challenges[i].len() ==> blended_product(
                x,
                weights[i],
                #[trigger] challenges[i][t],
            ) == blended_product(y, weights[i], challenges[i][t]),
    ensures
        x.to_multiset() == y.to_multiset(),
{
    assert forall|i: int| 0 <= i < weights.len() implies weighted_values(
        x,
        #[trigger] weights[i],
    ).to_multiset() == weighted_values(y, weights[i]).to_multiset() by {
        let w = weights[i];
        let xs = weighted_values(x, w);
        let ys = weighted_values(y, w);
        let points = challenges[i];
        assert(reduced(xs) && reduced(ys)) by {
            assert forall|n: int| 0 <= n < xs.len() implies #[trigger] xs[n] < order() by {
                lemma_field_of((x[n].0 + w * x[n].1) as int);
            }
            assert forall|n: int| 0 <= n < ys.len() implies #[trigger] ys[n] < order() by {
                lemma_field_of((y[n].0 + w * y[n].1) as int);
            }
        }
        assert forall|t: int| 0 <= t < points.len() implies shifted_product(
            xs,
            #[trigger] points[t],
        ) == shifted_product(ys, points[t]) by {
            lemma_blended_product(x, w, points[t]);
            lemma_blended_product(y, w, points[t]);
            assert(blended_product(x, weights[i], challenges[i][t]) == blended_product(
                y,
                weights[i],
                challenges[i][t],
            ));
        }
        lemma_scalar_shuffle_sound(xs, ys, points);
    }
    lemma_weighted_determine(x, y, weights);
}

/// Replacing a summand by one that stands for the same field element changes nothing.
pub proof fn lemma_swap_summand(s: int, t: int, u: int)
    requires
        field_of(t) == field_of(u),
    ensures
        field_of(s + t) == field_of(s + u),
{
    lemma_field_of_reduce(s, t);
    lemma_field_of_reduce(s, u);
}

/// The powers of a challenge that a mix works with, reduced as they are, stand for the
/// powers over the integers.
pub proof fn lemma_power_terms(w: nat, p2: int, p3: int, p4: int)
    ensures
        field_of(field_mul(w, w) * p2) == field_of((w * w) * p2),
        field_of(field_mul(field_mul(w, w), w) * p3) == field_of(((w * w) * w) * p3),
        field_of(field_mul(field_mul(field_mul(w, w), w), w) * p4) == field_of(
            (((w * w) * w) * w) * p4,
        ),
{
    let w2 = field_mul(w, w);
    let w3 = field_mul(w2, w);
    let w4 = field_mul(w3, w);
    lemma_field_ops(w, w);
    lemma_field_ops(w2, w);
    lemma_field_ops(w3, w);
    lemma_field_of_reduce((w * w) as int, w as int);
    assert(field_of(w3 as int) == w3) by {
        lemma_field_of(w3 as int);
    }
    assert(w3 == field_of(((w * w) * w) as int));
    lemma_field_of_reduce(((w * w) * w) as int, w as int);
    assert(w4 == field_of((((w * w) * w) * w) as int));
    lemma_field_of_reduce((w * w) as int, p2);
    lemma_field_of_reduce(((w * w) * w) as int, p3);
    lemma_field_of_reduce((((w * w) * w) * w) as int, p4);
}

/// The polynomial in the challenge that a mix evaluates to tell whether values are passed
/// on: its coefficients, highest power first.
pub open spec fn pass_polynomial(
    a: (nat, nat),
    b: (nat, nat),
    c: (nat, nat),
    d: (nat, nat),
) -> Seq<int> {
    Seq::<int>::empty().push(b.1 - d.1).push(b.0 - d.0).push(a.1 - c.1).push(a.0 - c.0)
}

/// The polynomial in the challenge that a mix evaluates to tell whether values are merged:
/// its coefficients, highest power first.
pub open spec fn merge_polynomial(
    a: (nat, nat),
    b: (nat, nat),
    c: (nat, nat),
    d: (nat, nat),
) -> Seq<int> {
    Seq::<int>::empty().push(c.1 as int).push(d.1 - a.1).push(d.0 - a.0 - b.0).push(
        a.1 - b.1,
    ).push(c.0 as int)
}

/// What a mix evaluates for the challenge `w` is the value of its first polynomial at `w`.
pub proof fn lemma_pass_polynomial(
    w: nat,
    a: (nat, nat),
    b: (nat, nat),
    c: (nat, nat),
    d: (nat, nat),
)
    ensures
        pass_value(w, a, b, c, d) == field_of(eval(pass_polynomial(a, b, c, d), w as int)),
{
    let p3 = b.1 - d.1;
    let p2 = b.0 - d.0;
    let p1 = a.1 - c.1;
    let p0 = a.0 - c.0;
    let z = w as int;
    let e = Seq::<int>::empty();
    lemma_eval_push(e, p3, z);
    lemma_eval_push(e.push(p3), p2, z);
    lemma_eval_push(e.push(p3).push(p2), p1, z);
    lemma_eval_push(e.push(p3).push(p2).push(p1), p0, z);
    assert(eval(e, z) == 0);
    assert(0 * z == 0);
    let s1 = p3 * z + p2;
    let s2 = s1 * z + p1;
    assert(eval(pass_polynomial(a, b, c, d), z) == s2 * z + p0);
    assert(s1 * z == (z * z) * p3 + z * p2) by (nonlinear_arith)
        requires
            s1 == p3 * z + p2,
    ;
    assert(s2 * z == ((z * z) * z) * p3 + (z * z) * p2 + z * p1) by (nonlinear_arith)
        requires
            s2 == s1 * z + p1,
            s1 * z == (z * z) * p3 + z * p2,
    ;
    let w2 = field_mul(w, w);
    let w3 = field_mul(w2, w);
    lemma_power_terms(w, p2, p3, 0);
    lemma_swap_summand(p0 + w * p1 + w2 * p2, w3 * p3, ((w * w) * w) * p3);
    lemma_swap_summand(p0 + w * p1 + ((w * w) * w) * p3, w2 * p2, (w * w) * p2);
}

/// What a mix evaluates for the challenge `w` is the value of its second polynomial at `w`.
pub proof fn lemma_merge_polynomial(
    w: nat,
    a: (nat, nat),
    b: (nat, nat),
    c: (nat, nat),
    d: (nat, nat),
)
    ensures
        merge_value(w, a, b, c, d) == field_of(eval(merge_polynomial(a, b, c, d), w as int)),
{
    let p4 = c.1 as int;
    let p3 = d.1 - a.1;
    let p2 = d.0 - a.0 - b.0;
    let p1 = a.1 - b.1;
    let p0 = c.0 as int;
    let z = w as int;
    let e = Seq::<int>::empty();
    lemma_eval_push(e, p4, z);
    lemma_eval_push(e.push(p4), p3, z);
    lemma_eval_push(e.push(p4).push(p3), p2, z);
    lemma_eval_push(e.push(p4).push(p3).push(p2), p1, z);
    lemma_eval_push(e.push(p4).push(p3).push(p2).push(p1), p0, z);
    assert(eval(e, z) == 0);
    assert(0 * z == 0);
    let s1 = p4 * z + p3;
    let s2 = s1 * z + p2;
    let s3 = s2 * z + p1;
    assert(eval(merge_polynomial(a, b, c, d), z) == s3 * z + p0);
    assert(s1 * z == (z * z) * p4 + z * p3) by (nonlinear_arith)
        requires
            s1 == p4 * z + p3,
    ;
    assert(s2 * z == ((z * z) * z) * p4 + (z * z) * p3 + z * p2) by (nonlinear_arith)
        requires
            s2 == s1 * z + p2,
            s1 * z == (z * z) * p4 + z * p3,
    ;
    assert(s3 * z == (((z * z) * z) * z) * p4 + ((z * z) * z) * p3 + (z * z) * p2 + z * p1)
        by (nonlinear_arith)
        requires
            s3 == s2 * z + p1,
            s2 * z == ((z * z) * z) * p4 + (z * z) * p3 + z * p2,
    ;
    let w2 = field_mul(w, w);
    let w3 = field_mul(w2, w);
    let w4 = field_mul(w3, w);
    lemma_power_terms(w, p2, p3, p4);
    lemma_swap_summand(p0 + w * p1 + w2 * p2 + w3 * p3, w4 * p4, (((w * w) * w) * w) * p4);
    lemma_swap_summand(
        p0 + w * p1 + w2 * p2 + (((w * w) * w) * w) * p4,
        w3 * p3,
        ((w * w) * w) * p3,
    );
    lemma_swap_summand(
        p0 + w * p1 + ((w * w) * w) * p3 + (((w * w) * w) * w) * p4,
        w2 * p2,
        (w * w) * p2,
    );
}

/// In a field without zero divisors a mix holds for a challenge only where one of its two
/// polynomials vanishes.
pub proof fn lemma_mix_factor(w: nat, a: (nat, nat), b: (nat, nat), c: (nat, nat), d: (nat, nat))
    requires
        no_zero_divisors(),
        field_mul(pass_value(w, a, b, c, d), merge_value(w, a, b, c, d)) == 0,
    ensures
        pass_value(w, a, b, c, d) == 0 || merge_value(w, a, b, c, d) == 0,
{
    lemma_pass_polynomial(w, a, b, c, d);
    lemma_merge_polynomial(w, a, b, c, d);
    lemma_field_of(eval(pass_polynomial(a, b, c, d), w as int));
    lemma_field_of(eval(merge_polynomial(a, b, c, d), w as int));
}

/// In a field without zero divisors the first polynomial of a mix vanishes for four
/// challenges only where the values are passed on.
pub proof fn lemma_pass_sound(
    a: (nat, nat),
    b: (nat, nat),
    c: (nat, nat),
    d: (nat, nat),
    challenges: Seq<nat>,
)
    requires
        no_zero_divisors(),
        reduced_pairs(seq![a, b, c, d]),
        challenges.len() >= 4,
        distinct_elements(challenges),
        forall|i: int|
            0 <= i < challenges.len() ==> pass_value(#[trigger] challenges[i], a, b, c, d) == 0,
    ensures
        passes(a, b, c, d),
{
    let p = pass_polynomial(a, b, c, d);
    let values = seq![a, b, c, d];
    assert(values[0] == a && values[1] == b && values[2] == c && values[3] == d);
    lemma_order();
    assert forall|i: int| 0 <= i < challenges.len() implies field_of(
        eval(p, #[trigger] challenges[i] as int),
    ) == 0 by {
        lemma_pass_polynomial(challenges[i], a, b, c, d);
    }
    lemma_roots_vanish(p, challenges);
    assert(field_of(p[0]) == 0 && field_of(p[1]) == 0 && field_of(p[2]) == 0 && field_of(p[3])
        == 0);
    lemma_same_element(b.1, d.1);
    lemma_same_element(b.0, d.0);
    lemma_same_element(a.1, c.1);
    lemma_same_element(a.0, c.0);
}

/// Two numbers below the group order whose difference stands for zero are the same.
pub proof fn lemma_same_element(u: nat, v: nat)
    requires
        u < order(),
        v < order(),
        field_of(u - v) == 0,
    ensures
        u == v,
{
    lemma_field_congruent(u as int, v as int);
    lemma_field_of(u as int);
    lemma_field_of(v as int);
}

/// In a field without zero divisors the second polynomial of a mix vanishes for five
/// challenges only where the values are merged.
pub proof fn lemma_merge_sound(
    a: (nat, nat),
    b: (nat, nat),
    c: (nat, nat),
    d: (nat, nat),
    challenges: Seq<nat>,
)
    requires
        no_zero_divisors(),
        reduced_pairs(seq![a, b, c, d]),
        challenges.len() >= 5,
        distinct_elements(challenges),
        forall|i: int|
            0 <= i < challenges.len() ==> merge_value(#[trigger] challenges[i], a, b, c, d) == 0,
    ensures
        merges(a, b, c, d),
{
    let p = merge_polynomial(a, b, c, d);
    let values = seq![a, b, c, d];
    assert(values[0] == a && values[1] == b && values[2] == c && values[3] == d);
    lemma_order();
    assert forall|i: int| 0 <= i < challenges.len() implies field_of(
        eval(p, #[trigger] challenges[i] as int),
    ) == 0 by {
        lemma_merge_polynomial(challenges[i], a, b, c, d);
    }
    lemma_roots_vanish(p, challenges);
    assert(field_of(p[0]) == 0 && field_of(p[1]) == 0 && field_of(p[2]) == 0 && field_of(p[3])
        == 0 && field_of(p[4]) == 0);
    lemma_field_of(c.1 as int);
    lemma_field_of(c.0 as int);
    lemma_same_element(d.1, a.1);
    lemma_same_element(a.1, b.1);
    lemma_field_congruent(d.0 as int, (a.0 + b.0) as int);
    lemma_field_of(d.0 as int);
    lemma_field_ops(a.0, b.0);
}

/// The mix of the four values holds for the challenge `w`.
pub open spec fn mix_holds(w: nat, a: (nat, nat), b: (nat, nat), c: (nat, nat), d: (nat, nat)) -> bool {
    field_mul(pass_value(w, a, b, c, d), merge_value(w, a, b, c, d)) == 0
}

/// Sorts the challenges for which a mix holds into those for which its first polynomial
/// vanishes and those for which its second does.
pub proof fn lemma_split_challenges(
    points: Seq<nat>,
    a: (nat, nat),
    b: (nat, nat),
    c: (nat, nat),
    d: (nat, nat),
) -> (r: (Seq<nat>, Seq<nat>))
    requires
        no_zero_divisors(),
        distinct_elements(points),
        forall|i: int| 0 <= i < points.len() ==> mix_holds(#[trigger] points[i], a, b, c, d),
    ensures
        distinct_elements(r.0),
        distinct_elements(r.1),
        r.0.len() + r.1.len() == points.len(),
        forall|i: int| 0 <= i < r.0.len() ==> pass_value(#[trigger] r.0[i], a, b, c, d) == 0,
        forall|i: int| 0 <= i < r.1.len() ==> merge_value(#[trigger] r.1[i], a, b, c, d) == 0,
        forall|i: int| 0 <= i < r.0.len() ==> points.contains(#[trigger] r.0[i]),
        forall|i: int| 0 <= i < r.1.len() ==> points.contains(#[trigger] r.1[i]),
    decreases points.len(),
{
    if points.len() == 0 {
        (Seq::empty(), Seq::empty())
    } else {
        let head = points.drop_last();
        let last = points.last();
        let n = head.len() as int;
        assert(points[n] == last);
        assert(distinct_elements(head)) by {
            assert forall|i: int| 0 <= i < head.len() implies #[trigger] head[i] < order() by {
                assert(head[i] == points[i]);
            }
            assert forall|i: int, j: int| 0 <= i < j < head.len() implies head[i] != head[j] by {
                assert(head[i] == points[i] && head[j] == points[j]);
            }
        }
        assert forall|i: int| 0 <= i < head.len() implies mix_holds(
            #[trigger] head[i],
            a,
            b,
            c,
            d,
        ) by {
            assert(head[i] == points[i]);
        }
        let before = lemma_split_challenges(head, a, b, c, d);
        assert(mix_holds(points[n], a, b, c, d));
        lemma_mix_factor(last, a, b, c, d);
        // what was sorted before is among the earlier challenges, and the last differs from those
        assert forall|v: nat| head.contains(v) implies points.contains(v) && v != last by {
            let j = choose|j: int| 0 <= j < head.len() && head[j] == v;
            assert(points[j] == v);
            assert(points[j] != points[n]);
        }
        if pass_value(last, a, b, c, d) == 0 {
            let first = before.0.push(last);
            assert(distinct_elements(first)) by {
                assert forall|i: int| 0 <= i < first.len() implies #[trigger] first[i] < order() by {
                    if i < before.0.len() {
                        assert(first[i] == before.0[i]);
                    }
                }
                assert forall|i: int, j: int| 0 <= i < j < first.len() implies first[i]
                    != first[j] by {
                    assert(first[i] == before.0[i]);
                    assert(head.contains(before.0[i]));
                    if j < before.0.len() {
                        assert(first[j] == before.0[j]);
                    }
                }
            }
            assert forall|i: int| 0 <= i < first.len() implies pass_value(
                #[trigger] first[i],
                a,
                b,
                c,
                d,
            ) == 0 && points.contains(first[i]) by {
                if i < before.0.len() {
                    assert(first[i] == before.0[i]);
                    assert(head.contains(before.0[i]));
                }
            }
            assert forall|i: int| 0 <= i < before.1.len() implies points.contains(
                #[trigger] before.1[i],
            ) by {
                assert(head.contains(before.1[i]));
            }
            (first, before.1)
        } else {
            let second = before.1.push(last);
            assert(distinct_elements(second)) by {
                assert forall|i: int| 0 <= i < second.len() implies #[trigger] second[i]
                    < order() by {
                    if i < before.1.len() {
                        assert(second[i] == before.1[i]);
                    }
                }
                assert forall|i: int, j: int| 0 <= i < j < second.len() implies second[i]
                    != second[j] by {
                    assert(second[i] == before.1[i]);
                    assert(head.contains(before.1[i]));
                    if j < before.1.len() {
                        assert(second[j] == before.1[j]);
                    }
                }
            }
            assert forall|i: int| 0 <= i < second.len() implies merge_value(
                #[trigger] second[i],
                a,
                b,
                c,
                d,
            ) == 0 && points.contains(second[i]) by {
                if i < before.1.len() {
                    assert(second[i] == before.1[i]);
                    assert(head.contains(before.1[i]));
                }
            }
            assert forall|i: int| 0 <= i < before.0.len() implies points.contains(
                #[trigger] before.0[i],
            ) by {
                assert(head.contains(before.0[i]));
            }
            (before.0, second)
        }
    }
}

/// In a field without zero divisors a mix of values that are neither passed on nor merged
/// holds for seven challenges at most: if it holds for eight challenges that differ, the
/// values are passed on or merged.
pub proof fn lemma_mix_sound(
    a: (nat, nat),
    b: (nat, nat),
    c: (nat, nat),
    d: (nat, nat),
    challenges: Seq<nat>,
)
    requires
        no_zero_divisors(),
        reduced_pairs(seq![a, b, c, d]),
        challenges.len() >= 8,
        distinct_elements(challenges),
        forall|i: int| 0 <= i < challenges.len() ==> mix_holds(#[trigger] challenges[i], a, b, c, d),
    ensures
        passes(a, b, c, d) || merges(a, b, c, d),
{
    let split = lemma_split_challenges(challenges, a, b, c, d);
    if split.0.len() >= 4 {
        lemma_pass_sound(a, b, c, d, split.0);
    } else {
        lemma_merge_sound(a, b, c, d, split.1);
    }
}

/// The shuffle of the values `x` and `y` passes for the given weights and challenges: there
/// are more weights than values on a side, each with more challenges than that, all
/// different, and for each of them the two products agree.
pub open spec fn passes_for(
    x: Seq<(nat, nat)>,
    y: Seq<(nat, nat)>,
    weights: Seq<nat>,
    challenges: Seq<Seq<nat>>,
) -> bool {
    &&& weights.len() > x.len()
    &&& distinct_elements(weights)
    &&& challenges.len() == weights.len()
    &&& forall|i: int|
        0 <= i < weights.len() ==> (#[trigger] challenges[i]).len() > x.len() && distinct_elements(
            challenges[i],
        )
    &&& forall|i: int, t: int|
        0 <= i < weights.len() && 0 <= t < challenges[i].len() ==> blended_product(
            x,
            weights[i],
            #[trigger] challenges[i][t],
        ) == blended_product(y, weights[i], challenges[i][t])
}

/// The shuffle of the values `x` and `y` passes too often for values that are no
/// reordering.
pub open spec fn shuffle_passes_often(x: Seq<(nat, nat)>, y: Seq<(nat, nat)>) -> bool {
    exists|weights: Seq<nat>, challenges: Seq<Seq<nat>>| passes_for(x, y, weights, challenges)
}

/// The mix of the four values holds too often for values that are neither passed on nor
/// merged: for eight challenges that differ.
pub open spec fn mix_holds_often(a: (nat, nat), b: (nat, nat), c: (nat, nat), d: (nat, nat)) -> bool {
    exists|challenges: Seq<nat>|
        challenges.len() >= 8 && distinct_elements(challenges) && forall|i: int|
            0 <= i < challenges.len() ==> mix_holds(#[trigger] challenges[i], a, b, c, d)
}

/// The cells of a chain of mixes hold often: cell `i + 1` takes `carried[i]` and
/// `inputs[i + 1]`, leaves `left[i]` behind and carries `carried[i + 1]` on, and the mix of
/// these four values holds often. The chain starts with the first input.
pub open spec fn cells_hold_often(
    inputs: Seq<(nat, nat)>,
    carried: Seq<(nat, nat)>,
    left: Seq<(nat, nat)>,
) -> bool {
    &&& inputs.len() >= 1
    &&& carried.len() == inputs.len()
    &&& left.len() + 1 == inputs.len()
    &&& carried[0] == inputs[0]
    &&& reduced_pairs(carried)
    &&& reduced_pairs(left)
    &&& forall|i: int|
        0 <= i < left.len() ==> mix_holds_often(
            carried[i],
            inputs[i + 1],
            #[trigger] left[i],
            carried[i + 1],
        )
}

/// The values `outputs` are on the wires that come out of a chain of mixes over the values
/// `inputs`, and every mix of the chain holds often.
pub open spec fn mixes_often_to(inputs: Seq<(nat, nat)>, outputs: Seq<(nat, nat)>) -> bool {
    if inputs.len() == 0 {
        outputs.len() == 0
    } else {
        exists|carried: Seq<(nat, nat)>, left: Seq<(nat, nat)>|
            cells_hold_often(inputs, carried, left) && outputs == left.push(carried.last())
    }
}

/// In a field without zero divisors a chain of mixes that hold often passes values on or
/// merges them, cell by cell.
pub proof fn lemma_mixes_sound(inputs: Seq<(nat, nat)>, outputs: Seq<(nat, nat)>)
    requires
        no_zero_divisors(),
        reduced_pairs(inputs),
        mixes_often_to(inputs, outputs),
    ensures
        mixes_to(inputs, outputs),
{
    if inputs.len() > 0 {
        let (carried, left) = choose|carried: Seq<(nat, nat)>, left: Seq<(nat, nat)>|
            cells_hold_often(inputs, carried, left) && outputs == left.push(carried.last());
        assert forall|i: int| 0 <= i < left.len() implies passes(
            carried[i],
            inputs[i + 1],
            #[trigger] left[i],
            carried[i + 1],
        ) || merges(carried[i], inputs[i + 1], left[i], carried[i + 1]) by {
            let a = carried[i];
            let b = inputs[i + 1];
            let c = left[i];
            let d = carried[i + 1];
            assert(mix_holds_often(a, b, c, d));
            let challenges = choose|challenges: Seq<nat>|
                challenges.len() >= 8 && distinct_elements(challenges) && forall|i: int|
                    0 <= i < challenges.len() ==> mix_holds(#[trigger] challenges[i], a, b, c, d);
            let four = seq![a, b, c, d];
            assert(reduced_pairs(four)) by {
                assert forall|n: int| 0 <= n < four.len() implies (#[trigger] four[n]).0 < order()
                    && four[n].1 < order() by {
                    if n == 0 {
                        assert(four[n] == carried[i]);
                    } else if n == 1 {
                        assert(four[n] == inputs[i + 1]);
                    } else if n == 2 {
                        assert(four[n] == left[i]);
                    } else {
                        assert(four[n] == carried[i + 1]);
                    }
                }
            }
            lemma_mix_sound(a, b, c, d, challenges);
        }
        assert(cells_hold(inputs, carried, left));
    }
}

/// Conservation is enforced: in a field without zero divisors, where every gadget of a
/// transaction passes too often for values that it is meant to refuse, the outputs have the
/// same total of every flavor, in the field, as the inputs. The values are: the inputs `x`;
/// `merge_in` and `merge_out`, what goes into the merge and what comes out of it; `split_in`
/// and `split_out`, what goes into the split and what comes out of it; and the outputs `y`.
/// So a transaction whose totals differ passes only if, for one of its gadgets, one of few
/// challenges is drawn.
pub proof fn lemma_transaction_sound(
    x: Seq<(nat, nat)>,
    merge_in: Seq<(nat, nat)>,
    merge_out: Seq<(nat, nat)>,
    split_in: Seq<(nat, nat)>,
    split_out: Seq<(nat, nat)>,
    y: Seq<(nat, nat)>,
    flavor: nat,
)
    requires
        no_zero_divisors(),
        reduced_pairs(x),
        reduced_pairs(merge_in),
        reduced_pairs(merge_out),
        reduced_pairs(split_in),
        reduced_pairs(split_out),
        reduced_pairs(y),
        x.len() == merge_in.len(),
        split_out.len() == y.len(),
        x.len() + 1 < order(),
        y.len() + 1 < order(),
        merge_out.len() + 1 < order(),
        split_in.len() + 1 < order(),
        shuffle_passes_often(x, merge_in),
        mixes_often_to(merge_in, merge_out),
        shuffle_passes_often(
            merge_out + zeros(pads(merge_out.len(), split_in.len())),
            split_in + zeros(pads(split_in.len(), merge_out.len())),
        ),
        mixes_often_to(split_out.reverse(), split_in.reverse()),
        shuffle_passes_often(split_out, y),
    ensures
        field_total(x, flavor) == field_total(y, flavor),
{
    lemma_order();
    let first = choose|weights: Seq<nat>, challenges: Seq<Seq<nat>>|
        passes_for(x, merge_in, weights, challenges);
    lemma_value_shuffle_sound(x, merge_in, first.0, first.1);
    lemma_mixes_sound(merge_in, merge_out);
    let left = merge_out + zeros(pads(merge_out.len(), split_in.len()));
    let right = split_in + zeros(pads(split_in.len(), merge_out.len()));
    let second = choose|weights: Seq<nat>, challenges: Seq<Seq<nat>>|
        passes_for(left, right, weights, challenges);
    assert(reduced_pairs(left)) by {
        assert forall|i: int| 0 <= i < left.len() implies (#[trigger] left[i]).0 < order()
            && left[i].1 < order() by {
            if i < merge_out.len() {
                assert(left[i] == merge_out[i]);
            }
        }
    }
    assert(reduced_pairs(right)) by {
        assert forall|i: int| 0 <= i < right.len() implies (#[trigger] right[i]).0 < order()
            && right[i].1 < order() by {
            if i < split_in.len() {
                assert(right[i] == split_in[i]);
            }
        }
    }
    lemma_value_shuffle_sound(left, right, second.0, second.1);
    assert(reduced_pairs(split_out.reverse())) by {
        assert forall|i: int| 0 <= i < split_out.reverse().len() implies (
        #[trigger] split_out.reverse()[i]).0 < order() && split_out.reverse()[i].1 < order() by {
            assert(split_out.reverse()[i] == split_out[split_out.len() - 1 - i]);
        }
    }
    lemma_mixes_sound(split_out.reverse(), split_in.reverse());
    let third = choose|weights: Seq<nat>, challenges: Seq<Seq<nat>>|
        passes_for(split_out, y, weights, challenges);
    lemma_value_shuffle_sound(split_out, y, third.0, third.1);
    lemma_conservation_demanded(
        x,
        merge_in,
        merge_out,
        split_in,
        split_out,
        y,
        pads(merge_out.len(), split_in.len()),
        pads(split_in.len(), merge_out.len()),
        flavor,
    );
}

} // verus!
