use crate::scalar::field_neg;
use vstd::prelude::*;

verus! {

/// A wire of a constraint system.
#[derive(Copy, Clone, Debug, PartialEq, Eq, Structural)]
pub enum Variable {
    /// An external input given by a commitment.
    Committed(usize),
    /// The left input of a multiplier.
    MultiplierLeft(usize),
    /// The right input of a multiplier.
    MultiplierRight(usize),
    /// The output of a multiplier.
    MultiplierOutput(usize),
    /// The constant 1.
    One,
}

/// Why building, proving or verifying a constraint system failed.
#[derive(Copy, Clone, Debug, PartialEq, Eq, Structural)]
pub enum Error {
    /// The generators are too few for the number of multipliers.
    InvalidGeneratorsLength,
    /// The proof encoding is malformed.
    FormatError,
    /// The proof does not verify.
    VerificationError,
    /// A prover was asked to allocate a wire without a value for it.
    MissingAssignment,
    /// A gadget received inconsistent input, or the system is full.
    GadgetError,
}

/// The most multipliers that a constraint system may have.
pub open spec fn most_multipliers() -> nat {
    (usize::MAX / 2) as nat
}

/// The first of `p, 2p, 4p, ...` that is at least `n`.
pub open spec fn doubled_up_to(p: nat, n: nat) -> nat
    decreases
        if p < n {
            n - p
        } else {
            0
        },
{
    if p == 0 || p >= n {
        p
    } else {
        doubled_up_to(2 * p, n)
    }
}

/// The size to which a system of `n` multipliers is padded for a proof: the least power of
/// two that is at least `n`, and 1 for an empty system.
pub open spec fn padded_size(n: nat) -> nat {
    doubled_up_to(1, n)
}

/// One term of a linear combination: a wire and its coefficient in the field.
pub type Term = (Variable, nat);

/// A gadget whose constraints need challenges and are therefore added in the second phase.
pub ghost enum Deferred {
    /// `{c, d}` is a reordering of `{a, b}`.
    TwoShuffle(Variable, Variable, Variable, Variable),
    /// The second list of wires is a reordering of the first.
    ScalarShuffle(Seq<Variable>, Seq<Variable>),
    /// The second list of (quantity, flavor) wires is a reordering of the first.
    ValueShuffle(Seq<(Variable, Variable)>, Seq<(Variable, Variable)>),
    /// Values `a, b` are either passed on as `c, d` or merged into `d`.
    Mix((Variable, Variable), (Variable, Variable), (Variable, Variable), (Variable, Variable)),
}

/// What a constraint system holds.
pub ghost struct Circuit {
    /// Whether the system belongs to a prover, which needs a value for every wire.
    pub proving: bool,
    /// The label of the transcript that the system was made over. A proof made over one
    /// label is refused over another.
    pub label: Seq<char>,
    /// The number of committed external inputs.
    pub committed: nat,
    /// The commitments that were made external inputs, each as the 32 bytes of a compressed
    /// point, in the order of their wires.
    pub commitments: Seq<Seq<u8>>,
    /// The number of multipliers.
    pub multipliers: nat,
    /// The linear constraints, each a list of terms whose sum must be zero.
    pub constraints: Seq<Seq<Term>>,
    /// The gadgets waiting for the second phase, in the order they were registered.
    pub deferred: Seq<Deferred>,
}

impl Circuit {
    /// A system over a fresh transcript with the given label, to which nothing was added
    /// yet.
    pub open spec fn empty(proving: bool, label: Seq<char>) -> Circuit {
        Circuit {
            proving,
            label,
            committed: 0,
            commitments: Seq::empty(),
            multipliers: 0,
            constraints: Seq::empty(),
            deferred: Seq::empty(),
        }
    }

    /// The wire exists in this system.
    pub open spec fn has(self, v: Variable) -> bool {
        match v {
            Variable::Committed(i) => i < self.committed,
            Variable::MultiplierLeft(i) => i < self.multipliers,
            Variable::MultiplierRight(i) => i < self.multipliers,
            Variable::MultiplierOutput(i) => i < self.multipliers,
            Variable::One => true,
        }
    }

    /// Every wire of the linear combination exists in this system.
    pub open spec fn has_terms(self, terms: Seq<Term>) -> bool {
        forall|i: int| 0 <= i < terms.len() ==> self.has(#[trigger] terms[i].0)
    }

    /// Every wire of the list exists in this system.
    pub open spec fn has_wires(self, wires: Seq<Variable>) -> bool {
        forall|i: int| 0 <= i < wires.len() ==> self.has(#[trigger] wires[i])
    }

    /// Every wire of the list of pairs exists in this system.
    pub open spec fn has_pairs(self, pairs: Seq<(Variable, Variable)>) -> bool {
        forall|i: int|
            0 <= i < pairs.len() ==> self.has((#[trigger] pairs[i]).0) && self.has(pairs[i].1)
    }

    /// Every wire that the deferred gadget names exists in this system.
    pub open spec fn has_gadget(self, g: Deferred) -> bool {
        match g {
            Deferred::TwoShuffle(a, b, c, d) => self.has(a) && self.has(b) && self.has(c)
                && self.has(d),
            Deferred::ScalarShuffle(x, y) => x.len() == y.len() && self.has_wires(x)
                && self.has_wires(y),
            Deferred::ValueShuffle(x, y) => x.len() == y.len() && self.has_pairs(x)
                && self.has_pairs(y),
            Deferred::Mix(a, b, c, d) => self.has(a.0) && self.has(a.1) && self.has(b.0)
                && self.has(b.1) && self.has(c.0) && self.has(c.1) && self.has(d.0) && self.has(
                d.1,
            ),
        }
    }

    /// The system names no wire that it lacks, and its counters fit the machine: the number
    /// of multipliers can still be rounded up to a power of two.
    pub open spec fn wf(self) -> bool {
        &&& self.committed <= usize::MAX
        &&& self.multipliers <= most_multipliers()
        &&& forall|i: int|
            0 <= i < self.constraints.len() ==> self.has_terms(#[trigger] self.constraints[i])
        &&& forall|i: int| 0 <= i < self.deferred.len() ==> self.has_gadget(#[trigger] self.deferred[i])
    }

    /// The same system after one more linear constraint.
    pub open spec fn constrained(self, terms: Seq<Term>) -> Circuit {
        Circuit { constraints: self.constraints.push(terms), ..self }
    }

    /// The same system after a multiplier was allocated without constraints.
    pub open spec fn allocated(self) -> Circuit {
        Circuit { multipliers: self.multipliers + 1, ..self }
    }

    /// The wires of the multiplier that the next allocation makes.
    pub open spec fn next_multiplier(self) -> (Variable, Variable, Variable) {
        (
            Variable::MultiplierLeft(self.multipliers as usize),
            Variable::MultiplierRight(self.multipliers as usize),
            Variable::MultiplierOutput(self.multipliers as usize),
        )
    }

    /// The two input wires of the multiplier that the next allocation makes.
    pub open spec fn next_wires(self) -> (Variable, Variable) {
        (self.next_multiplier().0, self.next_multiplier().1)
    }

    /// The same system after a multiplier whose inputs are bound to `left` and `right`:
    /// one more multiplier and two more constraints, `left - l = 0` and `right - r = 0`.
    pub open spec fn multiplied(self, left: Seq<Term>, right: Seq<Term>) -> Circuit {
        Circuit {
            multipliers: self.multipliers + 1,
            constraints: self.constraints.push(left.push((self.next_multiplier().0, field_neg(1)))).push(
                right.push((self.next_multiplier().1, field_neg(1))),
            ),
            ..self
        }
    }

    /// The same system after `k` multipliers were allocated without constraints.
    pub open spec fn allocated_many(self, k: nat) -> Circuit {
        Circuit { multipliers: self.multipliers + k, ..self }
    }

    /// The same system after one more gadget was put off to the second phase.
    pub open spec fn postponed(self, g: Deferred) -> Circuit {
        Circuit { deferred: self.deferred.push(g), ..self }
    }

    /// The same system after the commitment `c` was made its next external input.
    pub open spec fn with_commitment(self, c: Seq<u8>) -> Circuit {
        Circuit { committed: self.committed + 1, commitments: self.commitments.push(c), ..self }
    }

    /// `other` has every wire of `self`.
    pub open spec fn within(self, other: Circuit) -> bool {
        self.committed <= other.committed && self.multipliers <= other.multipliers
    }

    /// The system has room for `n` more multipliers.
    pub open spec fn room(self, n: nat) -> bool {
        self.multipliers + n <= most_multipliers()
    }
}

/// A wire stays when a system grows.
pub proof fn lemma_has_grows(c: Circuit, d: Circuit, v: Variable)
    requires
        c.within(d),
        c.has(v),
    ensures
        d.has(v),
{
}

/// The wires of a deferred gadget stay when a system grows.
pub proof fn lemma_has_gadget_grows(c: Circuit, d: Circuit, g: Deferred)
    requires
        c.within(d),
        c.has_gadget(g),
    ensures
        d.has_gadget(g),
{
    match g {
        Deferred::TwoShuffle(..) => {},
        Deferred::ScalarShuffle(x, y) => {
            assert forall|i: int| 0 <= i < x.len() implies d.has(#[trigger] x[i]) by {
                lemma_has_grows(c, d, x[i]);
            }
            assert forall|i: int| 0 <= i < y.len() implies d.has(#[trigger] y[i]) by {
                lemma_has_grows(c, d, y[i]);
            }
        },
        Deferred::ValueShuffle(x, y) => {
            assert forall|i: int| 0 <= i < x.len() implies d.has((#[trigger] x[i]).0) && d.has(
                x[i].1,
            ) by {
                lemma_has_grows(c, d, x[i].0);
                lemma_has_grows(c, d, x[i].1);
            }
            assert forall|i: int| 0 <= i < y.len() implies d.has((#[trigger] y[i]).0) && d.has(
                y[i].1,
            ) by {
                lemma_has_grows(c, d, y[i].0);
                lemma_has_grows(c, d, y[i].1);
            }
        },
        Deferred::Mix(..) => {},
    }
}

/// A system that names only its own wires still does so after it has gained wires, provided
/// that what it gained in constraints and deferred gadgets names only wires that it has.
pub proof fn lemma_wf_grows(c: Circuit, d: Circuit)
    requires
        c.wf(),
        c.within(d),
        d.committed <= usize::MAX,
        d.multipliers <= most_multipliers(),
        c.constraints.len() <= d.constraints.len(),
        c.deferred.len() <= d.deferred.len(),
        forall|i: int| 0 <= i < c.constraints.len() ==> d.constraints[i] == c.constraints[i],
        forall|i: int| 0 <= i < c.deferred.len() ==> d.deferred[i] == c.deferred[i],
        forall|i: int|
            c.constraints.len() <= i < d.constraints.len() ==> d.has_terms(
                #[trigger] d.constraints[i],
            ),
        forall|i: int|
            c.deferred.len() <= i < d.deferred.len() ==> d.has_gadget(#[trigger] d.deferred[i]),
    ensures
        d.wf(),
{
    assert forall|i: int| 0 <= i < d.constraints.len() implies d.has_terms(
        #[trigger] d.constraints[i],
    ) by {
        if i < c.constraints.len() {
            let t = c.constraints[i];
            assert(c.has_terms(t));
            assert forall|j: int| 0 <= j < t.len() implies d.has(#[trigger] t[j].0) by {
                lemma_has_grows(c, d, t[j].0);
            }
        }
    }
    assert forall|i: int| 0 <= i < d.deferred.len() implies d.has_gadget(
        #[trigger] d.deferred[i],
    ) by {
        if i < c.deferred.len() {
            lemma_has_gadget_grows(c, d, c.deferred[i]);
        }
    }
}

/// A system that names only its own wires still does so after a multiplier was added whose inputs
/// are bound to linear combinations over its wires.
pub proof fn lemma_multiplied_wf(c: Circuit, left: Seq<Term>, right: Seq<Term>)
    requires
        c.room(1),
        c.has_terms(left),
        c.has_terms(right),
    ensures
        c.multiplied(left, right).has_terms(left.push((c.next_multiplier().0, field_neg(1)))),
        c.multiplied(left, right).has_terms(right.push((c.next_multiplier().1, field_neg(1)))),
        c.wf() ==> c.multiplied(left, right).wf(),
{
    let d = c.multiplied(left, right);
    let l = left.push((c.next_multiplier().0, field_neg(1)));
    let r = right.push((c.next_multiplier().1, field_neg(1)));
    assert forall|j: int| 0 <= j < l.len() implies d.has(#[trigger] l[j].0) by {
        if j < left.len() {
            lemma_has_grows(c, d, left[j].0);
        }
    }
    assert forall|j: int| 0 <= j < r.len() implies d.has(#[trigger] r[j].0) by {
        if j < right.len() {
            lemma_has_grows(c, d, right[j].0);
        }
    }
    if c.wf() {
        lemma_wf_grows(c, d);
    }
}

/// The input wires of `k` multipliers allocated one after the other from multiplier `first` on.
pub open spec fn fresh_wires(first: nat, k: nat) -> Seq<(Variable, Variable)> {
    Seq::new(
        k,
        |i: int|
            (
                Variable::MultiplierLeft((first + i) as usize),
                Variable::MultiplierRight((first + i) as usize),
            ),
    )
}

/// Pairs of wires stay when a system grows.
pub proof fn lemma_has_pairs_grows(c: Circuit, d: Circuit, pairs: Seq<(Variable, Variable)>)
    requires
        c.within(d),
        c.has_pairs(pairs),
    ensures
        d.has_pairs(pairs),
{
    assert forall|i: int| 0 <= i < pairs.len() implies d.has((#[trigger] pairs[i]).0) && d.has(
        pairs[i].1,
    ) by {
        lemma_has_grows(c, d, pairs[i].0);
        lemma_has_grows(c, d, pairs[i].1);
    }
}

/// A system has the fresh wires of the multipliers that it has.
pub proof fn lemma_has_fresh_wires(c: Circuit, first: nat, k: nat)
    requires
        first + k <= c.multipliers,
        c.multipliers <= usize::MAX,
    ensures
        c.has_pairs(fresh_wires(first, k)),
{
}

/// A system that has the wires of a list has them in the opposite order and with more wires
/// of its own added at the end.
pub proof fn lemma_has_pairs_more(
    c: Circuit,
    pairs: Seq<(Variable, Variable)>,
    more: Seq<(Variable, Variable)>,
)
    requires
        c.has_pairs(pairs),
        c.has_pairs(more),
    ensures
        c.has_pairs(pairs.reverse()),
        c.has_pairs(pairs + more),
{
    assert forall|i: int| 0 <= i < pairs.len() implies c.has((#[trigger] pairs.reverse()[i]).0)
        && c.has(pairs.reverse()[i].1) by {
        assert(pairs.reverse()[i] == pairs[pairs.len() - 1 - i]);
    }
    assert forall|i: int| 0 <= i < (pairs + more).len() implies c.has(
        (#[trigger] (pairs + more)[i]).0,
    ) && c.has((pairs + more)[i].1) by {
        if i < pairs.len() {
            assert((pairs + more)[i] == pairs[i]);
        } else {
            assert((pairs + more)[i] == more[i - pairs.len()]);
        }
    }
}

} // verus!
