use crate::field::lemma_field_congruent;
use crate::field::lemma_field_mul_of;
use crate::field::lemma_field_of;
use crate::field::lemma_field_of_reduce;
use crate::gadgets::range_proof::no_zero_divisors;
use crate::scalar::field_of;
use crate::scalar::lemma_order;
use crate::scalar::order;
use vstd::prelude::*;

verus! {

/// The value at `z` of the polynomial with the integer coefficients `c`, highest power first.
pub open spec fn eval(c: Seq<int>, z: int) -> int
    decreases c.len(),
{
    if c.len() == 0 {
        0
    } else {
        eval(c.drop_last(), z) * z + c.last()
    }
}

/// The quotient of the polynomial `c` by `z - r`: its coefficients are the values at `r` of
/// the leading parts of `c`.
pub open spec fn quotient(c: Seq<int>, r: int) -> Seq<int> {
    if c.len() == 0 {
        Seq::empty()
    } else {
        Seq::new((c.len() - 1) as nat, |i: int| eval(c.take(i + 1), r))
    }
}

/// Division with remainder by `z - r`: the remainder is the value at `r`.
pub proof fn lemma_divide(c: Seq<int>, r: int, z: int)
    requires
        c.len() >= 1,
    ensures
        eval(c, z) == (z - r) * eval(quotient(c, r), z) + eval(c, r),
    decreases c.len(),
{
    let n = c.len() as int;
    let head = c.drop_last();
    let q = quotient(c, r);
    if n == 1 {
        assert(q =~= Seq::<int>::empty());
        assert(eval(head, z) == 0 && eval(head, r) == 0);
        assert(eval(q, z) == 0);
        assert((z - r) * 0 == 0);
    } else {
        lemma_divide(head, r, z);
        let before = quotient(head, r);
        assert(q.drop_last() =~= before) by {
            assert forall|i: int| 0 <= i < n - 2 implies q.drop_last()[i] == before[i] by {
                assert(c.take(i + 1) =~= head.take(i + 1));
            }
        }
        assert(c.take(n - 1) =~= head);
        assert(q.last() == eval(head, r));
        let a = eval(before, z);
        let b = eval(head, r);
        let t = c.last();
        assert(eval(q, z) == a * z + b);
        assert(eval(head, z) == (z - r) * a + b);
        assert(((z - r) * a + b) * z + t == (z - r) * (a * z + b) + (b * r + t))
            by (nonlinear_arith);
    }
}

/// Where `a` and `b` stand for zero in the field, so does `x * a + b`.
pub proof fn lemma_zero_combination(x: int, a: int, b: int)
    requires
        field_of(a) == 0,
        field_of(b) == 0,
    ensures
        field_of(x * a + b) == 0,
{
    lemma_field_of(0);
    lemma_field_of_reduce(x, a);
    assert(x * 0 == 0);
    lemma_field_of_reduce(x * a, b);
    lemma_field_of_reduce(0, b);
}

/// In a field without zero divisors a factor that does not stand for zero can be cancelled
/// from a product that does.
pub proof fn lemma_cancel(s: int, t: int)
    requires
        no_zero_divisors(),
        field_of(s) != 0,
        field_of(s * t) == 0,
    ensures
        field_of(t) == 0,
{
    lemma_field_mul_of(s, t);
    lemma_field_of(s);
    lemma_field_of(t);
}

/// The numbers are below the group order and differ from each other.
pub open spec fn distinct_elements(points: Seq<nat>) -> bool {
    &&& forall|i: int| 0 <= i < points.len() ==> #[trigger] points[i] < order()
    &&& forall|i: int, j: int| 0 <= i < j < points.len() ==> points[i] != points[j]
}

/// In a field without zero divisors a polynomial with as many roots as coefficients
/// vanishes everywhere: one of degree `d` that does not has at most `d` roots.
pub proof fn lemma_root_bound(c: Seq<int>, roots: Seq<nat>, z: int)
    requires
        no_zero_divisors(),
        roots.len() >= c.len(),
        distinct_elements(roots),
        forall|i: int| 0 <= i < roots.len() ==> field_of(eval(c, #[trigger] roots[i] as int)) == 0,
    ensures
        field_of(eval(c, z)) == 0,
    decreases c.len(),
{
    lemma_field_of(0);
    if c.len() > 0 {
        let r = roots.last();
        let q = quotient(c, r as int);
        let rest = roots.drop_last();
        assert(field_of(eval(c, roots[roots.len() - 1] as int)) == 0);
        assert forall|i: int| 0 <= i < rest.len() implies field_of(
            eval(q, #[trigger] rest[i] as int),
        ) == 0 by {
            let p = rest[i];
            assert(p == roots[i] && p != r && p < order() && r < order());
            assert(field_of(eval(c, roots[i] as int)) == 0);
            lemma_divide(c, r as int, p as int);
            lemma_field_congruent(eval(c, p as int), eval(c, r as int));
            lemma_field_congruent(p as int, r as int);
            lemma_field_of(p as int);
            lemma_field_of(r as int);
            lemma_cancel(p - r, eval(q, p as int));
        }
        assert(distinct_elements(rest)) by {
            assert forall|i: int| 0 <= i < rest.len() implies #[trigger] rest[i] < order() by {
                assert(rest[i] == roots[i]);
            }
            assert forall|i: int, j: int| 0 <= i < j < rest.len() implies rest[i] != rest[j] by {
                assert(rest[i] == roots[i] && rest[j] == roots[j]);
            }
        }
        lemma_root_bound(q, rest, z);
        lemma_divide(c, r as int, z);
        lemma_zero_combination(z - r, eval(q, z), eval(c, r as int));
    }
}

/// The coefficients of the product of the polynomial `c` and `a - z`.
pub open spec fn times_linear(c: Seq<int>, a: int) -> Seq<int>
    decreases c.len(),
{
    if c.len() == 0 {
        seq![0int]
    } else {
        let m = times_linear(c.drop_last(), a);
        m.drop_last().push(m.last() - c.last()).push(a * c.last())
    }
}

/// `times_linear` multiplies by `a - z` and adds one coefficient.
pub proof fn lemma_times_linear(c: Seq<int>, a: int, z: int)
    ensures
        times_linear(c, a).len() == c.len() + 1,
        eval(times_linear(c, a), z) == (a - z) * eval(c, z),
    decreases c.len(),
{
    if c.len() == 0 {
        let p = seq![0int];
        assert(p.drop_last() =~= Seq::<int>::empty());
        assert(eval(p.drop_last(), z) == 0);
        assert(eval(p, z) == 0 * z + 0);
        assert((a - z) * 0 == 0);
    } else {
        let head = c.drop_last();
        let t = c.last();
        let m = times_linear(head, a);
        lemma_times_linear(head, a, z);
        let lowered = m.drop_last().push(m.last() - t);
        assert(lowered.drop_last() =~= m.drop_last());
        assert(lowered.last() == m.last() - t);
        assert(eval(lowered, z) == eval(m, z) - t);
        let p = lowered.push(a * t);
        assert(p.drop_last() =~= lowered);
        assert(p.last() == a * t);
        let e = eval(head, z);
        assert(eval(p, z) == ((a - z) * e - t) * z + a * t);
        assert(((a - z) * e - t) * z + a * t == (a - z) * (e * z + t)) by (nonlinear_arith);
    }
}

/// The coefficients of the polynomial `(x[0] - z)(x[1] - z)...`, whose roots are the
/// members of `x`.
pub open spec fn root_polynomial(x: Seq<nat>) -> Seq<int>
    decreases x.len(),
{
    if x.len() == 0 {
        seq![1int]
    } else {
        times_linear(root_polynomial(x.drop_last()), x.last() as int)
    }
}

/// The product `(x[0] - z)(x[1] - z)...` over the integers.
pub open spec fn int_product(x: Seq<nat>, z: int) -> int
    decreases x.len(),
{
    if x.len() == 0 {
        1
    } else {
        int_product(x.drop_last(), z) * (x.last() - z)
    }
}

/// The polynomial of the roots `x` has one coefficient more than roots, and its value at `z`
/// is the product of the `x[i] - z`.
pub proof fn lemma_root_polynomial(x: Seq<nat>, z: int)
    ensures
        root_polynomial(x).len() == x.len() + 1,
        eval(root_polynomial(x), z) == int_product(x, z),
    decreases x.len(),
{
    if x.len() == 0 {
        let p = seq![1int];
        assert(p.drop_last() =~= Seq::<int>::empty());
        assert(eval(p.drop_last(), z) == 0);
        assert(eval(p, z) == 0 * z + 1);
    } else {
        lemma_root_polynomial(x.drop_last(), z);
        lemma_times_linear(root_polynomial(x.drop_last()), x.last() as int, z);
        let e = int_product(x.drop_last(), z);
        let f = x.last() - z;
        assert(f * e == e * f) by (nonlinear_arith);
    }
}

/// The difference of two polynomials with equally many coefficients.
pub open spec fn minus(c: Seq<int>, d: Seq<int>) -> Seq<int> {
    Seq::new(c.len(), |i: int| c[i] - d[i])
}

/// The value of the difference is the difference of the values.
pub proof fn lemma_minus(c: Seq<int>, d: Seq<int>, z: int)
    requires
        c.len() == d.len(),
    ensures
        eval(minus(c, d), z) == eval(c, z) - eval(d, z),
    decreases c.len(),
{
    if c.len() > 0 {
        lemma_minus(c.drop_last(), d.drop_last(), z);
        assert(minus(c, d).drop_last() =~= minus(c.drop_last(), d.drop_last()));
        let a = eval(c.drop_last(), z);
        let b = eval(d.drop_last(), z);
        assert((a - b) * z == a * z - b * z) by (nonlinear_arith);
    }
}

/// One more coefficient at the end: the value is multiplied by `z` and the coefficient added.
pub proof fn lemma_eval_push(c: Seq<int>, v: int, z: int)
    ensures
        eval(c.push(v), z) == eval(c, z) * z + v,
{
    assert(c.push(v).drop_last() =~= c);
}

/// In a field without zero divisors a polynomial with fewer coefficients than the field has
/// elements that vanishes everywhere has no coefficient that does not stand for zero.
pub proof fn lemma_coefficients_vanish(c: Seq<int>)
    requires
        no_zero_divisors(),
        c.len() < order(),
        forall|z: nat| z < order() ==> field_of(#[trigger] eval(c, z as int)) == 0,
    ensures
        forall|i: int| 0 <= i < c.len() ==> field_of(#[trigger] c[i]) == 0,
    decreases c.len(),
{
    lemma_order();
    lemma_field_of(0);
    if c.len() > 0 {
        let head = c.drop_last();
        let t = c.last();
        // the value at zero is the last coefficient
        assert(eval(c, 0) == eval(head, 0) * 0 + t);
        assert(field_of(eval(c, 0nat as int)) == 0);
        assert(field_of(t) == 0);
        // so the rest vanishes wherever `z` is not zero
        let points = Seq::new(head.len(), |i: int| (i + 1) as nat);
        assert(distinct_elements(points));
        assert forall|i: int| 0 <= i < points.len() implies field_of(
            eval(head, #[trigger] points[i] as int),
        ) == 0 by {
            let z = points[i];
            assert(field_of(eval(c, z as int)) == 0);
            assert(eval(c, z as int) == eval(head, z as int) * z + t);
            lemma_field_congruent(eval(c, z as int), t);
            assert(eval(c, z as int) - t == z * eval(head, z as int)) by (nonlinear_arith)
                requires
                    eval(c, z as int) == eval(head, z as int) * z + t,
            ;
            lemma_field_of(z as int);
            lemma_cancel(z as int, eval(head, z as int));
        }
        assert forall|z: nat| z < order() implies field_of(#[trigger] eval(head, z as int))
            == 0 by {
            lemma_root_bound(head, points, z as int);
        }
        lemma_coefficients_vanish(head);
        assert forall|i: int| 0 <= i < c.len() implies field_of(#[trigger] c[i]) == 0 by {
            if i < c.len() - 1 {
                assert(c[i] == head[i]);
            }
        }
    }
}

/// A polynomial with fewer coefficients than the field has elements and with as many roots
/// as coefficients has no coefficient that does not stand for zero.
pub proof fn lemma_roots_vanish(c: Seq<int>, roots: Seq<nat>)
    requires
        no_zero_divisors(),
        c.len() < order(),
        roots.len() >= c.len(),
        distinct_elements(roots),
        forall|i: int| 0 <= i < roots.len() ==> field_of(eval(c, #[trigger] roots[i] as int)) == 0,
    ensures
        forall|i: int| 0 <= i < c.len() ==> field_of(#[trigger] c[i]) == 0,
{
    assert forall|z: nat| z < order() implies field_of(#[trigger] eval(c, z as int)) == 0 by {
        lemma_root_bound(c, roots, z as int);
    }
    lemma_coefficients_vanish(c);
}

} // verus!
