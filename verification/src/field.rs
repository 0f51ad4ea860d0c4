use crate::scalar::field_add;
use crate::scalar::field_mul;
use crate::scalar::field_neg;
use crate::scalar::field_of;
use crate::scalar::lemma_order;
use crate::scalar::order;
use vstd::arithmetic::div_mod::lemma_add_mod_noop;
use vstd::arithmetic::div_mod::lemma_mod_bound;
use vstd::arithmetic::div_mod::lemma_mod_multiples_vanish;
use vstd::arithmetic::div_mod::lemma_mod_twice;
use vstd::arithmetic::div_mod::lemma_mul_mod_noop_general;
use vstd::arithmetic::div_mod::lemma_small_mod;
use vstd::arithmetic::div_mod::lemma_sub_mod_noop;
use vstd::prelude::*;

verus! {

/// Difference of two field elements.
pub open spec fn field_sub(a: nat, b: nat) -> nat {
    field_of(a - b)
}

/// The field element of an integer is below the group order, and an integer below the group
/// order that is not negative is its own field element.
pub proof fn lemma_field_of(x: int)
    ensures
        field_of(x) < order(),
        field_of(x) == x % (order() as int),
        0 <= x < order() ==> field_of(x) == x,
        field_of(field_of(x) as int) == field_of(x),
{
    let m = order() as int;
    lemma_order();
    lemma_mod_bound(x, m);
    lemma_mod_twice(x, m);
    if 0 <= x < m {
        lemma_small_mod(x as nat, m as nat);
    }
}

/// The field operations are those of the integers, reduced.
pub proof fn lemma_field_ops(a: nat, b: nat)
    ensures
        field_mul(a, b) == field_of((a * b) as int),
        field_add(a, b) == field_of((a + b) as int),
        field_neg(a) == field_of(-(a as int)),
        field_mul(a, b) < order(),
        field_add(a, b) < order(),
        field_neg(a) < order(),
        field_sub(a, b) < order(),
{
    let m = order() as int;
    lemma_order();
    lemma_mod_bound((a * b) as int, m);
    lemma_mod_bound((a + b) as int, m);
    lemma_mod_bound(a - b, m);
    lemma_mod_bound(m - a, m);
    lemma_mod_multiples_vanish(1, -(a as int), m);
}

/// Reducing a summand or a factor first changes nothing.
pub proof fn lemma_field_of_reduce(x: int, y: int)
    ensures
        field_of(field_of(x) + y) == field_of(x + y),
        field_of(x + field_of(y)) == field_of(x + y),
        field_of(field_of(x) - y) == field_of(x - y),
        field_of(x - field_of(y)) == field_of(x - y),
        field_of(field_of(x) * y) == field_of(x * y),
        field_of(x * field_of(y)) == field_of(x * y),
{
    let m = order() as int;
    lemma_order();
    lemma_field_of(x);
    lemma_field_of(y);
    lemma_add_mod_noop(x, y, m);
    lemma_add_mod_noop(x % m, y, m);
    lemma_add_mod_noop(x, y % m, m);
    lemma_sub_mod_noop(x, y, m);
    lemma_sub_mod_noop(x % m, y, m);
    lemma_sub_mod_noop(x, y % m, m);
    lemma_mod_twice(x, m);
    lemma_mod_twice(y, m);
    lemma_mul_mod_noop_general(x, y, m);
}

/// Two integers have the same field element exactly when their difference has the field
/// element zero.
pub proof fn lemma_field_congruent(x: int, y: int)
    ensures
        (field_of(x) == field_of(y)) == (field_of(x - y) == 0),
{
    lemma_order();
    lemma_field_of(0);
    lemma_field_of_reduce(x, y);
    lemma_field_of_reduce(field_of(x) as int, y);
    lemma_field_of_reduce(x - y, y);
    lemma_field_of(x);
    lemma_field_of(y);
    if field_of(x) == field_of(y) {
        assert(field_of(x - y) == field_of(field_of(x) - field_of(y)));
    }
    if field_of(x - y) == 0 {
        assert(field_of(x) == field_of((x - y) + y));
        assert(field_of((x - y) + y) == field_of(field_of(x - y) + y));
    }
}

/// The product in the field of the field elements of two integers is the field element of
/// their product.
pub proof fn lemma_field_mul_of(x: int, y: int)
    ensures
        field_mul(field_of(x), field_of(y)) == field_of(x * y),
{
    lemma_field_ops(field_of(x), field_of(y));
    lemma_field_of_reduce(x, field_of(y) as int);
    lemma_field_of_reduce(x, y);
}

/// Multiplication in the field is commutative and associative, and 1 is neutral on what is
/// reduced.
pub proof fn lemma_field_mul(a: nat, b: nat, c: nat)
    ensures
        field_mul(a, b) == field_mul(b, a),
        field_mul(field_mul(a, b), c) == field_mul(a, field_mul(b, c)),
        field_mul(field_mul(a, b), c) == field_mul(field_mul(a, c), b),
        field_mul(1, a) == field_of(a as int),
        field_mul(a, 1) == field_of(a as int),
        field_mul(0, a) == 0,
        field_mul(a, 0) == 0,
{
    let m = order() as int;
    lemma_order();
    assert(a * b == b * a) by (nonlinear_arith);
    assert((a * b) * c == a * (b * c)) by (nonlinear_arith);
    assert((a * b) * c == (a * c) * b) by (nonlinear_arith);
    assert(1 * a == a && a * 1 == a && 0 * a == 0 && a * 0 == 0) by (nonlinear_arith);
    lemma_mul_mod_noop_general((a * b) as int, c as int, m);
    lemma_mul_mod_noop_general(a as int, (b * c) as int, m);
    lemma_mul_mod_noop_general((a * c) as int, b as int, m);
    lemma_small_mod(0, m as nat);
}

/// The product in the field of what `f` makes of the members of `s`.
pub open spec fn product_by<A>(s: Seq<A>, f: spec_fn(A) -> nat) -> nat
    decreases s.len(),
{
    if s.len() == 0 {
        1
    } else {
        field_mul(product_by(s.drop_last(), f), f(s.last()))
    }
}

/// Any member of a product can be taken out and multiplied in at the end.
pub proof fn lemma_product_remove<A>(s: Seq<A>, f: spec_fn(A) -> nat, j: int)
    requires
        0 <= j < s.len(),
    ensures
        product_by(s, f) == field_mul(product_by(s.remove(j), f), f(s[j])),
    decreases s.len(),
{
    if j == s.len() - 1 {
        assert(s.remove(j) =~= s.drop_last());
    } else {
        let front = s.drop_last();
        lemma_product_remove(front, f, j);
        assert(s.remove(j).drop_last() =~= front.remove(j));
        assert(s.remove(j).last() == s.last());
        lemma_field_mul(product_by(front.remove(j), f), f(s[j]), f(s.last()));
    }
}

/// The product does not depend on the order of the members.
pub proof fn lemma_product_permutation<A>(s: Seq<A>, t: Seq<A>, f: spec_fn(A) -> nat)
    requires
        s.to_multiset() == t.to_multiset(),
    ensures
        product_by(s, f) == product_by(t, f),
    decreases s.len(),
{
    s.to_multiset_ensures();
    t.to_multiset_ensures();
    if s.len() == 0 {
        assert(t.len() == 0);
    } else {
        let x = s.last();
        assert(s[s.len() - 1] == x && s.contains(x));
        assert(s.to_multiset().count(x) > 0);
        assert(t.to_multiset().count(x) > 0);
        assert(t.contains(x));
        let j = choose|j: int| 0 <= j < t.len() && t[j] == x;
        assert(s.remove(s.len() - 1) =~= s.drop_last());
        assert(s.drop_last().to_multiset() =~= t.remove(j).to_multiset());
        lemma_product_permutation(s.drop_last(), t.remove(j), f);
        lemma_product_remove(t, f, j);
    }
}

/// Two products are equal when they are equal member by member.
pub proof fn lemma_product_mapped<A, B>(
    s: Seq<A>,
    t: Seq<B>,
    f: spec_fn(A) -> nat,
    g: spec_fn(B) -> nat,
)
    requires
        s.len() == t.len(),
        forall|i: int| 0 <= i < s.len() ==> f(#[trigger] s[i]) == g(t[i]),
    ensures
        product_by(s, f) == product_by(t, g),
    decreases s.len(),
{
    if s.len() > 0 {
        assert(f(s[s.len() - 1]) == g(t[s.len() - 1]));
        assert forall|i: int| 0 <= i < s.drop_last().len() implies f(#[trigger] s.drop_last()[i])
            == g(t.drop_last()[i]) by {
            assert(f(s[i]) == g(t[i]));
        }
        lemma_product_mapped(s.drop_last(), t.drop_last(), f, g);
    }
}

} // verus!
