use crate::circuit::Circuit;
use crate::circuit::Error;
use crate::circuit::Term;
use crate::circuit::Variable;
use crate::circuit::lemma_has_grows;
use crate::field::lemma_field_mul;
use crate::field::lemma_field_of;
use crate::field::lemma_field_of_reduce;
use crate::field::lemma_field_ops;
use crate::gadgets::product::wire;
use crate::gadgets::product::wire_terms;
use crate::gadgets::randomized::lemma_on_course_grows;
use crate::r1cs::ConstraintSystem;
use crate::r1cs::term_values;
use crate::scalar::Scalar;
use crate::scalar::field_add;
use crate::scalar::field_mul;
use crate::scalar::field_neg;
use crate::scalar::field_of;
use crate::scalar::lemma_order;
use crate::scalar::order;
use crate::semantics::Witness;
use crate::semantics::lemma_bound;
use crate::semantics::lemma_eval_wire;
use crate::semantics::lemma_extends;
use crate::semantics::lemma_extends_satisfies;
use crate::semantics::lemma_neg_coefficient;
use crate::semantics::lemma_satisfies_allocated;
use crate::semantics::lemma_satisfies_constrained;
use crate::semantics::lemma_sum_push;
use crate::semantics::multiplier_holds;
use crate::value::AllocatedQuantity;
use crate::value::SignedInteger;
use vstd::arithmetic::div_mod::lemma_div_denominator;
use vstd::arithmetic::div_mod::lemma_mod_breakdown;
use vstd::arithmetic::div_mod::lemma_small_mod;
use vstd::arithmetic::power2::lemma2_to64;
use vstd::arithmetic::power2::lemma_pow2_pos;
use vstd::arithmetic::power2::lemma_pow2_strictly_increases;
use vstd::arithmetic::power2::lemma_pow2_unfold;
use vstd::arithmetic::power2::pow2;
use vstd::prelude::*;

verus! {

/// The linear combination `a + b - 1`, zero when `a = 1 - b`.
pub open spec fn complement(a: Variable, b: Variable) -> Seq<Term> {
    seq![(a, 1nat), (b, 1nat), (Variable::One, field_neg(1))]
}

/// What one bit adds: a multiplier `a * b = o` with the demands `o = 0` and `a + b - 1 = 0`,
/// so that `b` is 0 or 1.
pub open spec fn bit_circuit(c: Circuit) -> Circuit {
    let m = c.next_multiplier();
    c.allocated().constrained(wire(m.2)).constrained(complement(m.0, m.1))
}

/// What `n` bits add.
pub open spec fn bits_circuit(c: Circuit, n: nat) -> Circuit
    decreases n,
{
    if n == 0 {
        c
    } else {
        bit_circuit(bits_circuit(c, (n - 1) as nat))
    }
}

/// The linear combination `-v + b[0] + 2 b[1] + .. + 2^(n-1) b[n-1]`, where `b[i]` is the
/// right wire of multiplier `first + i`.
pub open spec fn weighted_bits(v: Variable, first: nat, n: nat) -> Seq<Term> {
    Seq::new(
        n + 1,
        |i: int|
            if i == 0 {
                (v, field_neg(1))
            } else {
                (Variable::MultiplierRight((first + i - 1) as usize), pow2((i - 1) as nat))
            },
    )
}

/// What the range proof adds: `n` bits and the demand that they spell the quantity.
pub open spec fn range_proof_circuit(c: Circuit, v: Variable, n: nat) -> Circuit {
    bits_circuit(c, n).constrained(weighted_bits(v, c.multipliers, n))
}

/// Bit `i` of a number.
pub open spec fn bit(q: nat, i: nat) -> nat {
    (q / pow2(i)) % 2
}

/// The bits add multipliers and constraints and nothing else.
pub proof fn lemma_bits_circuit(c: Circuit, n: nat)
    ensures
        bits_circuit(c, n).multipliers == c.multipliers + n,
        bits_circuit(c, n).committed == c.committed,
        bits_circuit(c, n).commitments == c.commitments,
        bits_circuit(c, n).proving == c.proving,
        bits_circuit(c, n).deferred == c.deferred,
        bits_circuit(c, n).constraints.len() == c.constraints.len() + 2 * n,
    decreases n,
{
    if n > 0 {
        lemma_bits_circuit(c, (n - 1) as nat);
    }
}

/// The number whose bits a prover assigns: the quantity itself, or zero in place of a
/// negative quantity, for which no bits exist.
pub open spec fn witness_number(q: Option<SignedInteger>) -> nat {
    match q {
        Some(q) => if q.as_int() >= 0 {
            q.as_int() as nat
        } else {
            0
        },
        None => 0,
    }
}

/// The witness after `n` more multipliers, of which multiplier `i` has bit `i` of `q` on
/// its right input and the complement of that bit on its left input.
pub open spec fn bits_assigned(w: Witness, q: nat, n: nat) -> Witness
    decreases n,
{
    if n == 0 {
        w
    } else {
        bits_assigned(w, q, (n - 1) as nat).with_multiplier(
            (1 - bit(q, (n - 1) as nat)) as nat,
            bit(q, (n - 1) as nat),
        )
    }
}

/// The quantity is known, is not negative and is below `2^n`.
pub open spec fn in_range(q: Option<SignedInteger>, n: nat) -> bool {
    q matches Some(q) && 0 <= q.as_int() < pow2(n)
}

/// The witness has the quantity that is kept as the assignment on the wire.
pub open spec fn quantity_carried_by(v: AllocatedQuantity, w: Witness) -> bool {
    match v.assignment {
        Some(q) => w.value(v.variable) == field_of(q.as_int()),
        None => true,
    }
}

/// What the witness of the bits looks like: it has grown by `n` multipliers, whose right
/// inputs are the bits of `q`, whose left inputs are their complements and whose outputs
/// are zero.
pub proof fn lemma_bits_assigned(w: Witness, q: nat, n: nat)
    ensures
        bits_assigned(w, q, n).extends(w),
        bits_assigned(w, q, n).committed == w.committed,
        bits_assigned(w, q, n).left.len() == w.left.len() + n,
        bits_assigned(w, q, n).right.len() == w.right.len() + n,
        bits_assigned(w, q, n).output.len() == w.output.len() + n,
        forall|i: nat|
            i < n ==> {
                &&& #[trigger] bits_assigned(w, q, n).right[w.right.len() as int + i] == bit(q, i)
                &&& bits_assigned(w, q, n).left[w.left.len() as int + i] == 1 - bit(q, i)
                &&& bits_assigned(w, q, n).output[w.output.len() as int + i] == 0
            },
    decreases n,
{
    if n > 0 {
        let before = bits_assigned(w, q, (n - 1) as nat);
        lemma_bits_assigned(w, q, (n - 1) as nat);
        let b = bit(q, (n - 1) as nat);
        let after = bits_assigned(w, q, n);
        lemma_order();
        lemma_field_mul((1 - b) as nat, b, 0);
        lemma_small_mod(0, order());
        assert(((1 - b) as nat) * b == 0) by (nonlinear_arith)
            requires
                b == 0 || b == 1,
        ;
        assert forall|i: nat| i < n implies {
            &&& #[trigger] after.right[w.right.len() as int + i] == bit(q, i)
            &&& after.left[w.left.len() as int + i] == 1 - bit(q, i)
            &&& after.output[w.output.len() as int + i] == 0
        } by {
            if i < n - 1 {
                assert(before.right[w.right.len() as int + i] == bit(q, i));
            }
        }
    }
}

/// Demands that the quantity lie in `[0, 2^n)`: allocates `n` wires that are 0 or 1 and
/// demands that they be the bits of the quantity.
///
/// More than 64 bits are refused with `GadgetError`. A prover that does not know the quantity
/// gets `MissingAssignment` at the first bit. A prover whose quantity is negative assigns the
/// bits of zero: the constraints are then not met, and its proof will not verify. A prover
/// whose quantity is in range and on the wire assigns bits that meet the constraints.
pub fn range_proof(
    cs: &mut ConstraintSystem,
    v: AllocatedQuantity,
    n: usize,
) -> (r: Result<(), Error>)
    requires
        old(cs)@.wf(),
        old(cs)@.has(v.variable),
        old(cs)@.room(n as nat),
    ensures
        final(cs)@.wf(),
        r is Err == (n > 64 || (n > 0 && old(cs)@.proving && v.assignment is None)),
        r matches Err(e) ==> final(cs)@ == old(cs)@ && e == (if n > 64 {
            Error::GadgetError
        } else {
            Error::MissingAssignment
        }),
        r is Ok ==> final(cs)@ == range_proof_circuit(old(cs)@, v.variable, n as nat),
        r is Ok ==> final(cs).assigned() == (if old(cs)@.proving {
            bits_assigned(old(cs).assigned(), witness_number(v.assignment), n as nat)
        } else {
            old(cs).assigned()
        }),
        r is Err ==> final(cs).assigned() == old(cs).assigned(),
        final(cs).assigned().extends(old(cs).assigned()),
        r is Ok && old(cs).met() && (old(cs)@.proving ==> in_range(v.assignment, n as nat)
            && quantity_carried_by(v, old(cs).assigned())) ==> final(cs).met(),
{
    if n > 64 {
        return Err(Error::GadgetError);
    }
    let ghost start = cs@;
    let ghost w0 = cs.assigned();
    let ghost q0 = witness_number(v.assignment);
    let mut terms: Vec<(Variable, Scalar)> = Vec::new();
    terms.push((v.variable, Scalar::one().neg()));
    assert(term_values(terms@) =~= weighted_bits(v.variable, start.multipliers, 0));
    let mut rest: u64 = match v.assignment {
        Some(q) => match q.to_u64() {
            Some(q) => q,
            None => 0,
        },
        None => 0,
    };
    let mut exp: u64 = 1;
    let mut i: usize = 0;
    proof {
        lemma2_to64();
        assert(rest == q0);
    }
    while i < n
        invariant
            i <= n <= 64,
            start == old(cs)@,
            w0 == old(cs).assigned(),
            q0 == witness_number(v.assignment),
            rest == q0 / pow2(i as nat),
            cs.assigned() == (if start.proving {
                bits_assigned(w0, q0, i as nat)
            } else {
                w0
            }),
            start.wf(),
            start.has(v.variable),
            start.room(n as nat),
            cs@.wf(),
            cs@ == bits_circuit(start, i as nat),
            term_values(terms@) == weighted_bits(v.variable, start.multipliers, i as nat),
            i < 64 ==> exp == pow2(i as nat),
            i > 0 ==> !(start.proving && v.assignment is None),
        decreases n - i,
    {
        proof {
            lemma_bits_circuit(start, i as nat);
        }
        let b: u64 = rest % 2;
        proof {
            lemma_pow2_pos(i as nat);
            lemma_pow2_unfold((i + 1) as nat);
            lemma_div_denominator(q0 as int, pow2(i as nat) as int, 2);
            assert(b == bit(q0, i as nat));
        }
        rest = rest / 2;
        let assignment = match v.assignment {
            Some(_) => Some((Scalar::from_u64(1 - b), Scalar::from_u64(b))),
            None => None,
        };
        let ghost before = cs@;
        let (a_var, b_var, o_var) = match cs.allocate_multiplier(assignment) {
            Ok(m) => m,
            Err(e) => {
                assert(i == 0);
                return Err(e);
            },
        };
        cs.constrain(&wire_terms(o_var));
        proof {
            lemma_has_grows(before.allocated(), cs@, a_var);
            lemma_has_grows(before.allocated(), cs@, b_var);
        }
        let mut both: Vec<(Variable, Scalar)> = Vec::new();
        both.push((a_var, Scalar::one()));
        both.push((b_var, Scalar::one()));
        both.push((Variable::One, Scalar::one().neg()));
        assert(term_values(both@) =~= complement(a_var, b_var));
        cs.constrain(&both);
        let ghost old_terms = term_values(terms@);
        terms.push((b_var, Scalar::from_u64(exp)));
        assert(term_values(terms@) =~= weighted_bits(
            v.variable,
            start.multipliers,
            (i + 1) as nat,
        )) by {
            assert(term_values(terms@) =~= old_terms.push((b_var, pow2(i as nat))));
        }
        if i + 1 < 64 {
            proof {
                lemma2_to64();
                lemma_pow2_unfold((i + 1) as nat);
                lemma_pow2_strictly_increases((i + 1) as nat, 64);
            }
            exp = exp * 2;
        }
        i = i + 1;
    }
    proof {
        lemma_bits_circuit(start, n as nat);
        let t = weighted_bits(v.variable, start.multipliers, n as nat);
        assert forall|j: int| 0 <= j < t.len() implies cs@.has(#[trigger] t[j].0) by {
            if j == 0 {
                lemma_has_grows(start, cs@, v.variable);
            }
        }
    }
    cs.constrain(&terms);
    proof {
        lemma_bits_assigned(w0, q0, n as nat);
        if old(cs).met() && start.proving && in_range(v.assignment, n as nat)
            && quantity_carried_by(v, w0) {
            let w = cs.assigned();
            lemma_extends_satisfies(w0, w, start);
            lemma_extends(w0, w, start, Seq::empty());
            lemma_order();
            lemma2_to64();
            if n < 64 {
                lemma_pow2_strictly_increases(n as nat, 64);
            }
            lemma_field_of(q0 as int);
            assert(w.value(v.variable) == q0);
            assert forall|i: nat| i < n implies {
                let j = #[trigger] (start.multipliers + i) as int;
                &&& j < w.left.len() && j < w.right.len() && j < w.output.len()
                &&& w.right[j] == bit(q0, i)
                &&& w.left[j] == 1 - bit(q0, i)
                &&& w.output[j] == 0
            } by {
                assert(w.right[w0.right.len() as int + i] == bit(q0, i));
            }
            lemma_range_proof_complete(w, start, v.variable, n as nat, q0);
            lemma_bits_circuit(start, n as nat);
            lemma_on_course_grows(w0, w, start, cs@);
        }
    }
    Ok(())
}

/// Multiplier `j` holds a bit: its output is zero and its inputs add up to one.
pub open spec fn bit_holds(w: Witness, j: nat) -> bool {
    &&& multiplier_holds(w, j)
    &&& w.output[j as int] == 0
    &&& field_add(w.left[j as int], w.right[j as int]) == 1
}

/// The `n` multipliers from `first` on hold bits.
pub open spec fn bits_hold(w: Witness, first: nat, n: nat) -> bool {
    forall|i: nat| i < n ==> bit_holds(w, #[trigger] (first + i))
}

/// The number that the right inputs of the `n` multipliers from `first` on spell, the first
/// being the least significant.
pub open spec fn bits_sum(w: Witness, first: nat, n: nat) -> int
    decreases n,
{
    if n == 0 {
        0
    } else {
        bits_sum(w, first, (n - 1) as nat) + pow2((n - 1) as nat) * w.right[first + n - 1]
    }
}

/// The value of the linear combination `a + b - 1`.
pub proof fn lemma_eval_complement(w: Witness, a: Variable, b: Variable)
    requires
        w.value(a) < order(),
        w.value(b) < order(),
    ensures
        (w.eval(complement(a, b)) == 0) == (field_add(w.value(a), w.value(b)) == 1),
{
    let empty = Seq::<Term>::empty();
    let one = empty.push((a, 1nat));
    let two = one.push((b, 1nat));
    assert(complement(a, b) =~= two.push((Variable::One, field_neg(1))));
    lemma_sum_push(w, empty, (a, 1nat));
    lemma_sum_push(w, one, (b, 1nat));
    assert(w.sum(empty) == 0);
    assert(w.sum(one) == w.sum(empty) + 1nat * w.value(a));
    assert(1nat * w.value(a) == w.value(a)) by (nonlinear_arith);
    assert(1nat * w.value(b) == w.value(b)) by (nonlinear_arith);
    assert(w.sum(one) == w.value(a));
    assert(w.sum(two) == w.value(a) + w.value(b));
    lemma_order();
    lemma_bound(w, two, Variable::One);
    lemma_field_ops(w.value(a), w.value(b));
}

/// What one bit demands: a witness meets the extended system exactly when it meets the system
/// before and the new multiplier holds a bit.
pub proof fn lemma_bit_demands(w: Witness, c: Circuit)
    requires
        c.room(1),
    ensures
        w.satisfies(bit_circuit(c)) == (w.satisfies(c) && bit_holds(w, c.multipliers)),
{
    let m = c.next_multiplier();
    let c1 = c.allocated();
    let c2 = c1.constrained(wire(m.2));
    lemma_satisfies_constrained(w, c2, complement(m.0, m.1));
    lemma_satisfies_constrained(w, c1, wire(m.2));
    lemma_satisfies_allocated(w, c);
    lemma_eval_wire(w, m.2);
    if multiplier_holds(w, c.multipliers) {
        lemma_field_of(w.value(m.2) as int);
        lemma_eval_complement(w, m.0, m.1);
    }
}

/// What `n` bits demand: a witness meets the extended system exactly when it meets the system
/// before and the new multipliers hold bits.
pub proof fn lemma_bits_demands(w: Witness, c: Circuit, n: nat)
    requires
        c.room(n),
    ensures
        w.satisfies(bits_circuit(c, n)) == (w.satisfies(c) && bits_hold(w, c.multipliers, n)),
    decreases n,
{
    if n > 0 {
        let p = bits_circuit(c, (n - 1) as nat);
        lemma_bits_circuit(c, (n - 1) as nat);
        lemma_bits_demands(w, c, (n - 1) as nat);
        lemma_bit_demands(w, p);
        if w.satisfies(c) && bits_hold(w, c.multipliers, n) {
            assert(bit_holds(w, c.multipliers + (n - 1) as nat));
            assert forall|i: nat| i < n - 1 implies bit_holds(w, #[trigger] (c.multipliers + i)) by {
                assert(i < n);
            }
        }
        if w.satisfies(p) && bit_holds(w, p.multipliers) {
            assert forall|i: nat| i < n implies bit_holds(w, #[trigger] (c.multipliers + i)) by {
                if i < n - 1 {
                    assert(bits_hold(w, c.multipliers, (n - 1) as nat));
                }
            }
        }
    }
}

/// The sum of the terms of the last constraint of a range proof.
pub proof fn lemma_sum_weighted_bits(w: Witness, v: Variable, first: nat, n: nat)
    requires
        first + n <= usize::MAX,
    ensures
        w.sum(weighted_bits(v, first, n)) == field_neg(1) * w.value(v) + bits_sum(w, first, n),
    decreases n,
{
    if n == 0 {
        let empty = Seq::<Term>::empty();
        assert(weighted_bits(v, first, 0) =~= empty.push((v, field_neg(1))));
        lemma_sum_push(w, empty, (v, field_neg(1)));
        assert(w.sum(empty) == 0);
    } else {
        let front = weighted_bits(v, first, (n - 1) as nat);
        let last = (Variable::MultiplierRight((first + n - 1) as usize), pow2((n - 1) as nat));
        assert(weighted_bits(v, first, n) =~= front.push(last));
        lemma_sum_push(w, front, last);
        lemma_sum_weighted_bits(w, v, first, (n - 1) as nat);
    }
}

/// What the range proof demands: a witness meets the extended system exactly when it meets
/// the system before, the new multipliers hold bits, and the quantity is, in the field, the
/// number that their right inputs spell.
pub proof fn lemma_range_proof_demands(w: Witness, c: Circuit, v: Variable, n: nat)
    requires
        c.room(n),
        w.value(v) < order(),
    ensures
        w.satisfies(range_proof_circuit(c, v, n)) == (w.satisfies(c) && bits_hold(
            w,
            c.multipliers,
            n,
        ) && w.value(v) == field_of(bits_sum(w, c.multipliers, n))),
{
    let terms = weighted_bits(v, c.multipliers, n);
    lemma_satisfies_constrained(w, bits_circuit(c, n), terms);
    lemma_bits_demands(w, c, n);
    lemma_sum_weighted_bits(w, v, c.multipliers, n);
    let b = bits_sum(w, c.multipliers, n);
    let x = w.value(v) as int;
    assert(field_neg(1) * x + b == b + field_neg(1) * x);
    lemma_neg_coefficient(b, 1, x);
    lemma_field_of(b);
    lemma_field_of(x);
    lemma_field_of_reduce(b, x);
    if field_of(b - x) == 0 {
        lemma_field_of_reduce(b - x, x);
        assert(field_of((b - x) + x) == field_of(field_of(b - x) + x));
    }
    if field_of(b) == x {
        lemma_field_of(0);
    }
}

/// The field has no zero divisors. This holds because the group order is a prime; that it is
/// one is taken from the literature.
pub open spec fn no_zero_divisors() -> bool {
    forall|a: nat, b: nat|
        a < order() && b < order() && #[trigger] field_mul(a, b) == 0 ==> a == 0 || b == 0
}

/// In a field without zero divisors, a multiplier that holds a bit has 0 or 1 on its right
/// input.
pub proof fn lemma_bit_is_binary(w: Witness, j: nat)
    requires
        no_zero_divisors(),
        bit_holds(w, j),
    ensures
        w.right[j as int] == 0 || w.right[j as int] == 1,
{
    let a = w.left[j as int];
    let b = w.right[j as int];
    lemma_order();
    assert(field_mul(a, b) == 0);
    if a == 0 {
        lemma_small_mod(b, order());
    }
}

/// Bits spell a number below `2^n`.
pub proof fn lemma_bits_sum_bound(w: Witness, first: nat, n: nat)
    requires
        forall|i: nat| i < n ==> w.right[#[trigger] (first + i) as int] <= 1,
    ensures
        0 <= bits_sum(w, first, n) < pow2(n),
    decreases n,
{
    lemma_pow2_pos(n);
    if n > 0 {
        lemma_bits_sum_bound(w, first, (n - 1) as nat);
        lemma_pow2_unfold(n);
        let b = w.right[first + n - 1];
        assert(w.right[(first + (n - 1) as nat) as int] <= 1);
        assert(pow2((n - 1) as nat) * b <= pow2((n - 1) as nat)) by (nonlinear_arith)
            requires
                b <= 1,
        ;
        assert(pow2((n - 1) as nat) * b >= 0) by (nonlinear_arith);
    }
}

/// In a field without zero divisors, a witness that meets a range proof of at most 64 bits
/// has a quantity below `2^n` on the wire.
pub proof fn lemma_range_proof_sound(w: Witness, c: Circuit, v: Variable, n: nat)
    requires
        no_zero_divisors(),
        n <= 64,
        c.room(n),
        w.value(v) < order(),
        w.satisfies(range_proof_circuit(c, v, n)),
    ensures
        w.satisfies(c),
        w.value(v) < pow2(n),
{
    lemma_range_proof_demands(w, c, v, n);
    assert forall|i: nat| i < n implies w.right[#[trigger] (c.multipliers + i) as int] <= 1 by {
        assert(bit_holds(w, c.multipliers + i));
        lemma_bit_is_binary(w, c.multipliers + i);
    }
    lemma_bits_sum_bound(w, c.multipliers, n);
    lemma2_to64();
    lemma_order();
    if n < 64 {
        lemma_pow2_strictly_increases(n, 64);
    }
    lemma_field_of(bits_sum(w, c.multipliers, n));
}

/// The bits of a number below `2^n` spell it.
pub proof fn lemma_bits_spell(w: Witness, first: nat, n: nat, q: nat)
    requires
        forall|i: nat| i < n ==> w.right[#[trigger] (first + i) as int] == bit(q, i),
    ensures
        bits_sum(w, first, n) == q % pow2(n),
    decreases n,
{
    lemma_pow2_pos(n);
    if n == 0 {
        lemma2_to64();
    } else {
        lemma_bits_spell(w, first, (n - 1) as nat, q);
        lemma_pow2_unfold(n);
        lemma_pow2_pos((n - 1) as nat);
        assert(w.right[(first + (n - 1) as nat) as int] == bit(q, (n - 1) as nat));
        lemma_mod_breakdown(q as int, pow2((n - 1) as nat) as int, 2);
        assert(pow2((n - 1) as nat) * 2 == pow2(n));
    }
}

/// A quantity below `2^n`, with `n` at most 64, passes the range proof: a witness that meets
/// the system before, carries the quantity on the wire and, on the new multipliers, the bits
/// of the quantity beside their complements, meets the extended system.
pub proof fn lemma_range_proof_complete(w: Witness, c: Circuit, v: Variable, n: nat, q: nat)
    requires
        n <= 64,
        c.room(n),
        q < pow2(n),
        w.value(v) == q,
        w.satisfies(c),
        forall|i: nat|
            i < n ==> {
                let j = #[trigger] (c.multipliers + i) as int;
                &&& j < w.left.len() && j < w.right.len() && j < w.output.len()
                &&& w.right[j] == bit(q, i)
                &&& w.left[j] == 1 - bit(q, i)
                &&& w.output[j] == 0
            },
    ensures
        w.satisfies(range_proof_circuit(c, v, n)),
{
    lemma_order();
    lemma2_to64();
    if n < 64 {
        lemma_pow2_strictly_increases(n, 64);
    }
    assert forall|i: nat| i < n implies bit_holds(w, #[trigger] (c.multipliers + i)) by {
        let j = (c.multipliers + i) as int;
        let b = bit(q, i);
        assert(b == 0 || b == 1);
        assert(w.right[j] == b && w.left[j] == 1 - b && w.output[j] == 0);
        lemma_field_mul(w.left[j], w.right[j], 0);
        lemma_small_mod(1, order());
        lemma_small_mod(0, order());
        assert(w.left[j] * w.right[j] == 0) by (nonlinear_arith)
            requires
                w.left[j] == 0 || w.right[j] == 0,
        ;
    }
    assert forall|i: nat| i < n implies w.right[#[trigger] (c.multipliers + i) as int] == bit(
        q,
        i,
    ) by {}
    lemma_bits_spell(w, c.multipliers, n, q);
    lemma_small_mod(q, pow2(n));
    lemma_field_of(q as int);
    lemma_range_proof_demands(w, c, v, n);
}

} // verus!
