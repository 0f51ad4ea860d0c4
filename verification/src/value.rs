use crate::circuit::Circuit;
use crate::circuit::Error;
use crate::circuit::Variable;
use crate::r1cs::ConstraintSystem;
use crate::scalar::Scalar;
use crate::scalar::field_of;
use crate::scalar::lemma_order;
use crate::scalar::order;
use crate::semantics::Witness;
use crate::semantics::lemma_extends;
use subtle::Choice;
use subtle::ConditionallyNegatable;
use subtle::ConditionallySelectable;
use vstd::arithmetic::div_mod::lemma_mod_bound;
use vstd::arithmetic::div_mod::lemma_mod_multiples_vanish;
use vstd::arithmetic::div_mod::lemma_small_mod;
use vstd::prelude::*;
use vstd::std_specs::convert::FromSpecImpl;

verus! {

/// A signed quantity whose absolute value is below 2^64.
#[derive(Copy, Clone, Debug, PartialEq, Eq, Structural)]
pub enum SignedInteger {
    Positive(u64),
    Negative(u64),
    Zero,
}

/// A quantity of some flavor, known in the clear.
#[derive(Copy, Clone, Debug, PartialEq, Eq)]
pub struct Value {
    /// The quantity.
    pub q: SignedInteger,
    /// The flavor.
    pub f: Scalar,
}

/// Pedersen commitments to the quantity and the flavor of a value, as compressed points.
#[derive(Copy, Clone, Debug, PartialEq, Eq)]
pub struct CommittedValue {
    pub q: [u8; 32],
    pub f: [u8; 32],
}

/// The two wires of a value in a constraint system; the prover also keeps the value.
#[derive(Copy, Clone, Debug)]
pub struct AllocatedValue {
    /// The wire of the quantity.
    pub q: Variable,
    /// The wire of the flavor.
    pub f: Variable,
    /// The value on the wires, where it is known.
    pub assignment: Option<Value>,
}

/// The wire of a quantity; the prover also keeps the quantity.
#[derive(Copy, Clone, Debug)]
pub struct AllocatedQuantity {
    pub variable: Variable,
    pub assignment: Option<SignedInteger>,
}

/// 2^64, the bound on the absolute value of a signed quantity.
pub open spec fn quantity_bound() -> int {
    0x1_0000_0000_0000_0000
}

/// What is left of a 128-bit integer when its absolute value is cut down to 64 bits.
pub open spec fn narrowed(x: int) -> int {
    if x >= 0 {
        x % quantity_bound()
    } else {
        -((-x) % quantity_bound())
    }
}

/// Calls `i128::conditional_select` of subtle. Claimed: the result is `b` where `choice`
/// holds and `a` where it does not.
#[verifier::external_body]
fn select_i128(a: i128, b: i128, choice: bool) -> (r: i128)
    ensures
        r == if choice { b } else { a },
{
    i128::conditional_select(&a, &b, Choice::from(u8::from(choice)))
}

/// Calls `conditional_negate` of subtle on a 128-bit integer. Claimed: the result is `-x`
/// where `choice` holds and `x` where it does not. The least integer has no negation.
#[verifier::external_body]
fn negate_i128(x: i128, choice: bool) -> (r: i128)
    requires
        x > i128::MIN,
    ensures
        r == if choice { -x } else { x as int },
{
    let mut r = x;
    r.conditional_negate(Choice::from(u8::from(choice)));
    r
}

impl SignedInteger {
    /// The integer that this value stands for.
    pub open spec fn as_int(self) -> int {
        match self {
            SignedInteger::Positive(x) => x as int,
            SignedInteger::Negative(x) => -(x as int),
            SignedInteger::Zero => 0,
        }
    }

    /// Zero is written as `Zero` and in no other way.
    pub open spec fn is_normal(self) -> bool {
        match self {
            SignedInteger::Positive(x) => x != 0,
            SignedInteger::Negative(x) => x != 0,
            SignedInteger::Zero => true,
        }
    }

    /// The normal form of an integer whose absolute value is below 2^64.
    pub open spec fn of_int(x: int) -> SignedInteger {
        if x == 0 {
            SignedInteger::Zero
        } else if x > 0 {
            SignedInteger::Positive(x as u64)
        } else {
            SignedInteger::Negative((-x) as u64)
        }
    }

    pub fn zero() -> (r: Self)
        ensures
            r == SignedInteger::Zero,
            r.as_int() == 0,
    {
        SignedInteger::Zero
    }

    /// The quantity as an unsigned number. A quantity with a negative sign has none, whatever
    /// its magnitude.
    pub fn to_u64(&self) -> (r: Option<u64>)
        ensures
            r == match *self {
                SignedInteger::Positive(x) => Some(x),
                SignedInteger::Negative(_) => None::<u64>,
                SignedInteger::Zero => Some(0u64),
            },
            r matches Some(x) ==> x == self.as_int(),
            self.as_int() < 0 ==> r is None,
    {
        match self {
            SignedInteger::Positive(x) => Some(*x),
            SignedInteger::Negative(_) => None,
            SignedInteger::Zero => Some(0),
        }
    }

    pub fn to_i128(&self) -> (r: i128)
        ensures
            r == self.as_int(),
            -quantity_bound() < r < quantity_bound(),
    {
        match self {
            SignedInteger::Positive(x) => *x as i128,
            SignedInteger::Negative(x) => -(*x as i128),
            SignedInteger::Zero => 0,
        }
    }

    /// Narrows a 128-bit integer: the sign is kept and the absolute value is cut down to its
    /// low 64 bits, without any check.
    pub fn from_i128_unchecked(x: i128) -> (r: Self)
        ensures
            r.as_int() == narrowed(x as int),
            r == SignedInteger::of_int(narrowed(x as int)),
            r.is_normal(),
            -quantity_bound() < x < quantity_bound() ==> r.as_int() == x,
    {
        if x == i128::MIN {
            assert(narrowed(x as int) == 0) by {
                assert(0x8000_0000_0000_0000_0000_0000_0000_0000int % 0x1_0000_0000_0000_0000int
                    == 0) by (nonlinear_arith);
            }
            return SignedInteger::Zero;
        }
        let negative = x < 0;
        let abs = negate_i128(x, negative);
        let magnitude = #[verifier::truncate]
        (abs as u64);
        assert(magnitude == abs as int % quantity_bound()) by (bit_vector)
            requires
                abs >= 0,
                magnitude == abs as u64,
        ;
        assert(-quantity_bound() < x < quantity_bound() ==> abs as int % quantity_bound() == abs);
        if magnitude == 0 {
            SignedInteger::Zero
        } else if negative {
            SignedInteger::Negative(magnitude)
        } else {
            SignedInteger::Positive(magnitude)
        }
    }

    /// `b` where `choice` holds and `a` where it does not, in normal form. The choice itself
    /// is made on the 128-bit integers, in constant time; turning the operands into such
    /// integers and the chosen one back into sign and magnitude branches on their signs and
    /// on whether the magnitude is zero.
    pub fn conditional_select(a: &Self, b: &Self, choice: bool) -> (r: Self)
        ensures
            r.as_int() == if choice { b.as_int() } else { a.as_int() },
            r.is_normal(),
    {
        let val = select_i128(a.to_i128(), b.to_i128(), choice);
        SignedInteger::from_i128_unchecked(val)
    }

    /// The quantity as a field element: the number itself where it is not negative, the
    /// field's negation of its absolute value where it is.
    pub fn to_scalar(&self) -> (r: Scalar)
        ensures
            r.is_canonical(),
            r@ == field_of(self.as_int()),
    {
        match self {
            SignedInteger::Positive(x) => {
                let r = Scalar::from_u64(*x);
                assert(r@ == field_of(*x as int)) by {
                    lemma_order();
                    lemma_small_mod(*x as nat, order());
                }
                r
            },
            SignedInteger::Negative(x) => {
                let r = Scalar::from_u64(*x).neg();
                assert(r@ == field_of(-(*x as int))) by {
                    lemma_order();
                    let m = order() as int;
                    lemma_mod_multiples_vanish(1, -(*x as int), m);
                }
                r
            },
            SignedInteger::Zero => {
                proof {
                    lemma_order();
                    lemma_small_mod(0, order());
                }
                Scalar::zero()
            },
        }
    }
}

impl core::ops::Add for SignedInteger {
    type Output = SignedInteger;

    /// The sum, with its absolute value cut down to 64 bits.
    fn add(self, rhs: SignedInteger) -> (r: SignedInteger) {
        let sum = self.to_i128() + rhs.to_i128();
        SignedInteger::from_i128_unchecked(sum)
    }
}

impl vstd::std_specs::ops::AddSpecImpl for SignedInteger {
    open spec fn obeys_add_spec() -> bool {
        true
    }

    open spec fn add_req(self, rhs: SignedInteger) -> bool {
        true
    }

    open spec fn add_spec(self, rhs: SignedInteger) -> SignedInteger {
        SignedInteger::of_int(narrowed(self.as_int() + rhs.as_int()))
    }
}

impl core::ops::Neg for SignedInteger {
    type Output = SignedInteger;

    /// The quantity with the opposite sign.
    fn neg(self) -> (r: SignedInteger) {
        match self {
            SignedInteger::Positive(x) => SignedInteger::Negative(x),
            SignedInteger::Negative(x) => SignedInteger::Positive(x),
            SignedInteger::Zero => SignedInteger::Zero,
        }
    }
}

impl vstd::std_specs::ops::NegSpecImpl for SignedInteger {
    open spec fn obeys_neg_spec() -> bool {
        true
    }

    open spec fn neg_req(self) -> bool {
        true
    }

    open spec fn neg_spec(self) -> SignedInteger {
        match self {
            SignedInteger::Positive(x) => SignedInteger::Negative(x),
            SignedInteger::Negative(x) => SignedInteger::Positive(x),
            SignedInteger::Zero => SignedInteger::Zero,
        }
    }
}

/// The narrowed sum of two quantities is their sum where that is below 2^64 in absolute
/// value, and is below 2^64 in absolute value in any case.
pub proof fn lemma_narrowed(x: int)
    ensures
        -quantity_bound() < narrowed(x) < quantity_bound(),
        -quantity_bound() < x < quantity_bound() ==> narrowed(x) == x,
        SignedInteger::of_int(narrowed(x)).as_int() == narrowed(x),
{
    if x >= 0 {
        lemma_mod_bound(x, quantity_bound());
        if x < quantity_bound() {
            lemma_small_mod(x as nat, quantity_bound() as nat);
        }
    } else {
        lemma_mod_bound(-x, quantity_bound());
        if -x < quantity_bound() {
            lemma_small_mod((-x) as nat, quantity_bound() as nat);
        }
    }
}

impl From<u64> for SignedInteger {
    fn from(u: u64) -> (r: SignedInteger)
        ensures
            r.as_int() == u,
            r.is_normal(),
    {
        if u == 0 {
            SignedInteger::Zero
        } else {
            SignedInteger::Positive(u)
        }
    }
}

impl FromSpecImpl<u64> for SignedInteger {
    open spec fn obeys_from_spec() -> bool {
        true
    }

    open spec fn from_spec(u: u64) -> SignedInteger {
        SignedInteger::of_int(u as int)
    }
}

impl View for Value {
    type V = (int, nat);

    /// The quantity as an integer and the flavor as a field element.
    open spec fn view(&self) -> (int, nat) {
        (self.q.as_int(), self.f@)
    }
}

/// The view of an assignment that may be absent.
pub open spec fn view_of(assignment: Option<Value>) -> Option<(int, nat)> {
    match assignment {
        Some(v) => Some(v@),
        None => None,
    }
}

impl Value {
    /// Whether the value is zero in quantity and in flavor.
    pub open spec fn is_zero(self) -> bool {
        self.q.as_int() == 0 && self.f@ == 0
    }

    /// A zero quantity with a zero flavor.
    pub fn zero() -> (r: Value)
        ensures
            r.q == SignedInteger::Zero,
            r.f@ == 0,
            r.f.is_canonical(),
            r.is_zero(),
    {
        Value { q: SignedInteger::zero(), f: Scalar::zero() }
    }

    /// Allocates one multiplier whose inputs carry the quantity and the flavor, and hands back
    /// its two input wires with the value as their assignment.
    pub fn allocate(&self, cs: &mut ConstraintSystem) -> (r: Result<AllocatedValue, Error>)
        requires
            old(cs)@.wf(),
            old(cs)@.room(1),
        ensures
            final(cs)@.wf(),
            final(cs)@ == old(cs)@.allocated(),
            r matches Ok(a) && a.wires() == old(cs)@.next_wires() && a.assignment == Some(*self),
            final(cs).assigned() == old(cs).assigned().allocating(
                old(cs)@.proving,
                Some((field_of(self.q.as_int()), self.f@)),
            ),
            final(cs).assigned().extends(old(cs).assigned()),
            old(cs).met() ==> final(cs).met(),
            old(cs).met() ==> (r matches Ok(a) && a.carried(final(cs))),
    {
        let q = self.q.to_scalar();
        match cs.allocate_multiplier(Some((q, self.f))) {
            Ok((q_var, f_var, _)) => Ok(
                AllocatedValue { q: q_var, f: f_var, assignment: Some(*self) },
            ),
            Err(e) => Err(e),
        }
    }

    /// Allocates one multiplier and hands back its two input wires without an assignment.
    /// A prover cannot do this: it gets `MissingAssignment`, and its system is left as it was.
    pub fn allocate_unassigned(cs: &mut ConstraintSystem) -> (r: Result<AllocatedValue, Error>)
        requires
            old(cs)@.wf(),
            old(cs)@.room(1),
        ensures
            final(cs)@.wf(),
            r is Err == old(cs)@.proving,
            r matches Err(e) ==> e == Error::MissingAssignment && final(cs)@ == old(cs)@,
            r matches Ok(a) ==> a.wires() == old(cs)@.next_wires() && a.assignment.is_none()
                && final(cs)@ == old(cs)@.allocated(),
            final(cs).assigned() == old(cs).assigned(),
            old(cs).met() ==> final(cs).met(),
    {
        match cs.allocate_multiplier(None) {
            Ok((q_var, f_var, _)) => Ok(AllocatedValue { q: q_var, f: f_var, assignment: None }),
            Err(e) => Err(e),
        }
    }
}

impl AllocatedValue {
    /// The witness has the value that is kept as the assignment on the two wires.
    pub open spec fn carried_by(self, w: Witness) -> bool {
        match self.assignment {
            Some(v) => w.value(self.q) == field_of(v.q.as_int()) && w.value(self.f) == v.f@,
            None => true,
        }
    }

    /// A prover's system has the value that is kept as the assignment on the two wires.
    pub open spec fn carried(self, cs: &ConstraintSystem) -> bool {
        cs@.proving ==> self.carried_by(cs.assigned())
    }

    /// The two wires as a pair.
    pub open spec fn wires(self) -> (Variable, Variable) {
        (self.q, self.f)
    }

    /// The wire of the quantity with its assignment.
    pub fn quantity(&self) -> (r: AllocatedQuantity)
        ensures
            r.variable == self.q,
            r.assignment == match self.assignment {
                Some(v) => Some(v.q),
                None => None::<SignedInteger>,
            },
    {
        AllocatedQuantity {
            variable: self.q,
            assignment: match self.assignment {
                Some(v) => Some(v.q),
                None => None,
            },
        }
    }

    /// Allocates fresh wires for the same assignment: with the value where there is one,
    /// unassigned where there is none.
    pub fn reallocate(&self, cs: &mut ConstraintSystem) -> (r: Result<AllocatedValue, Error>)
        requires
            old(cs)@.wf(),
            old(cs)@.room(1),
        ensures
            final(cs)@.wf(),
            r is Err == (old(cs)@.proving && self.assignment.is_none()),
            r matches Err(e) ==> e == Error::MissingAssignment && final(cs)@ == old(cs)@,
            r matches Ok(a) ==> a.wires() == old(cs)@.next_wires() && a.assignment
                == self.assignment && final(cs)@ == old(cs)@.allocated(),
            final(cs).assigned().extends(old(cs).assigned()),
            old(cs).met() ==> final(cs).met(),
            old(cs).met() ==> (r matches Ok(a) ==> a.carried(final(cs))),
    {
        match self.assignment {
            Some(value) => value.allocate(cs),
            None => Value::allocate_unassigned(cs),
        }
    }
}

/// The wires of each allocated value, as (quantity, flavor) pairs.
pub open spec fn wires_of(values: Seq<AllocatedValue>) -> Seq<(Variable, Variable)> {
    Seq::new(values.len(), |i: int| values[i].wires())
}

/// The views of the assignments of the allocated values.
pub open spec fn views_of(values: Seq<AllocatedValue>) -> Seq<Option<(int, nat)>> {
    Seq::new(values.len(), |i: int| view_of(values[i].assignment))
}

/// The values of allocated values that are all known, as (quantity, flavor).
pub open spec fn known_views(values: Seq<AllocatedValue>) -> Seq<(int, nat)> {
    Seq::new(values.len(), |i: int| values[i].assignment->0@)
}

/// The witness has every value that is kept as an assignment on its wires.
pub open spec fn all_carried_by(values: Seq<AllocatedValue>, w: Witness) -> bool {
    forall|i: int| 0 <= i < values.len() ==> (#[trigger] values[i]).carried_by(w)
}

/// Collects the wires of each allocated value.
pub fn wire_pairs(values: &Vec<AllocatedValue>) -> (r: Vec<(Variable, Variable)>)
    ensures
        r@ == wires_of(values@),
{
    let mut r: Vec<(Variable, Variable)> = Vec::new();
    let mut i: usize = 0;
    while i < values.len()
        invariant
            i <= values.len(),
            r@ == wires_of(values@.take(i as int)),
        decreases values.len() - i,
    {
        r.push((values[i].q, values[i].f));
        assert(wires_of(values@.take(i as int + 1)) =~= wires_of(values@.take(i as int)).push(
            values@[i as int].wires(),
        ));
        i = i + 1;
    }
    assert(values@.take(values.len() as int) == values@);
    r
}

/// The wires of `k` values committed one after the other, quantity before flavor, in a system
/// that had `first` committed inputs.
pub open spec fn committed_wires(first: nat, k: nat) -> Seq<(Variable, Variable)> {
    Seq::new(
        k,
        |i: int|
            (
                Variable::Committed((first + 2 * i) as usize),
                Variable::Committed((first + 2 * i + 1) as usize),
            ),
    )
}

/// The commitments of a list of values in the order in which a system takes them: for each
/// value the commitment to its quantity and then the one to its flavor.
pub open spec fn commitment_bytes(values: Seq<CommittedValue>) -> Seq<Seq<u8>>
    decreases values.len(),
{
    if values.len() == 0 {
        Seq::empty()
    } else {
        commitment_bytes(values.drop_last()).push(values.last().q@).push(values.last().f@)
    }
}

/// What a prover commits to for a list of values, in order: for each value its quantity and
/// then its flavor, as field elements.
pub open spec fn committed_values(values: Seq<Value>) -> Seq<nat>
    decreases values.len(),
{
    if values.len() == 0 {
        Seq::empty()
    } else {
        committed_values(values.drop_last()).push(field_of(values.last().q.as_int())).push(
            values.last().f@,
        )
    }
}

/// The blinding factors of a list of pairs in the order in which a prover uses them: of each
/// pair the first, for a quantity, and then the second, for a flavor.
pub open spec fn blinding_values(pairs: Seq<(Scalar, Scalar)>) -> Seq<nat>
    decreases pairs.len(),
{
    if pairs.len() == 0 {
        Seq::empty()
    } else {
        blinding_values(pairs.drop_last()).push(pairs.last().0@).push(pairs.last().1@)
    }
}

/// One more pair adds its two blinding factors at the end.
pub proof fn lemma_blinding_values_push(pairs: Seq<(Scalar, Scalar)>, pair: (Scalar, Scalar))
    ensures
        blinding_values(pairs.push(pair)) == blinding_values(pairs).push(pair.0@).push(pair.1@),
{
    assert(pairs.push(pair).drop_last() =~= pairs);
}

/// The blinding factors of two lists of pairs one after the other are those of the first
/// list and then those of the second.
pub proof fn lemma_blinding_values_concat(a: Seq<(Scalar, Scalar)>, b: Seq<(Scalar, Scalar)>)
    ensures
        blinding_values(a + b) == blinding_values(a) + blinding_values(b),
    decreases b.len(),
{
    if b.len() == 0 {
        assert(a + b =~= a);
        assert(blinding_values(a) + blinding_values(b) =~= blinding_values(a));
    } else {
        lemma_blinding_values_concat(a, b.drop_last());
        assert((a + b).drop_last() =~= a + b.drop_last());
        assert((a + b).last() == b.last());
        assert(blinding_values(a + b) =~= blinding_values(a) + blinding_values(b));
    }
}

/// Every pair has two blinding factors.
pub proof fn lemma_blinding_values_len(pairs: Seq<(Scalar, Scalar)>)
    ensures
        blinding_values(pairs).len() == 2 * pairs.len(),
    decreases pairs.len(),
{
    if pairs.len() > 0 {
        lemma_blinding_values_len(pairs.drop_last());
    }
}

/// One more value adds its two commitments at the end.
pub proof fn lemma_commitment_bytes_push(values: Seq<CommittedValue>, v: CommittedValue)
    ensures
        commitment_bytes(values.push(v)) == commitment_bytes(values).push(v.q@).push(v.f@),
{
    assert(values.push(v).drop_last() =~= values);
}

/// Every value has two commitments.
pub proof fn lemma_commitment_bytes_len(values: Seq<CommittedValue>)
    ensures
        commitment_bytes(values).len() == 2 * values.len(),
    decreases values.len(),
{
    if values.len() > 0 {
        lemma_commitment_bytes_len(values.drop_last());
    }
}

/// One more value adds its quantity and its flavor at the end.
pub proof fn lemma_committed_values_push(values: Seq<Value>, v: Value)
    ensures
        committed_values(values.push(v)) == committed_values(values).push(
            field_of(v.q.as_int()),
        ).push(v.f@),
{
    assert(values.push(v).drop_last() =~= values);
}

/// What a prover can commit to: it makes the commitments external inputs of its system and
/// keeps what it committed to as the assignment of their wires.
pub trait ProverCommittable {
    type Output;

    /// The number of commitments made.
    spec fn commitments(&self) -> nat;

    /// The commitments that come back, in the order in which they were made.
    spec fn made(&self, output: Self::Output) -> Seq<Seq<u8>>;

    /// The field elements committed to, in the same order.
    spec fn values(&self) -> Seq<nat>;

    /// What comes back when the system had `first` committed inputs before.
    spec fn committed_as(&self, first: nat, output: Self::Output) -> bool;

    /// The witness has what was committed to on the wires that come back.
    spec fn carried_by(&self, w: Witness, output: Self::Output) -> bool;

    /// Commits under fresh random blinding factors, one for each commitment, which the
    /// prover keeps.
    fn commit(&self, prover: &mut ConstraintSystem) -> (r: Self::Output)
        requires
            old(prover)@.wf(),
            old(prover)@.proving,
            old(prover)@.committed + self.commitments() <= usize::MAX,
        ensures
            final(prover)@.wf(),
            final(prover)@ == (Circuit {
                committed: old(prover)@.committed + self.commitments(),
                commitments: old(prover)@.commitments + self.made(r),
                ..old(prover)@
            }),
            self.made(r).len() == self.commitments(),
            self.committed_as(old(prover)@.committed, r),
            exists|blindings: Seq<nat>|
                blindings.len() == self.commitments() && final(prover).assigned()
                    == #[trigger] old(prover).assigned().committing(self.values(), blindings),
            final(prover).assigned().extends(old(prover).assigned()),
            old(prover).met() ==> final(prover).met(),
            old(prover).met() ==> self.carried_by(final(prover).assigned(), r),
    ;
}

impl ProverCommittable for Value {
    type Output = (CommittedValue, AllocatedValue);

    open spec fn commitments(&self) -> nat {
        2
    }

    open spec fn committed_as(&self, first: nat, output: Self::Output) -> bool {
        output.1.q == Variable::Committed(first as usize) && output.1.f == Variable::Committed(
            (first + 1) as usize,
        ) && output.1.assignment == Some(*self)
    }

    open spec fn carried_by(&self, w: Witness, output: Self::Output) -> bool {
        output.1.carried_by(w)
    }

    open spec fn made(&self, output: Self::Output) -> Seq<Seq<u8>> {
        seq![output.0.q@, output.0.f@]
    }

    open spec fn values(&self) -> Seq<nat> {
        seq![field_of(self.q.as_int()), self.f@]
    }

    fn commit(&self, prover: &mut ConstraintSystem) -> (r: Self::Output) {
        let q_blinding = Scalar::random();
        let f_blinding = Scalar::random();
        let r = self.commit_blinded(prover, &q_blinding, &f_blinding);
        proof {
            let blindings = seq![q_blinding@, f_blinding@];
            assert(prover.assigned() == old(prover).assigned().committing(self.values(), blindings));
        }
        r
    }
}

impl Value {
    /// Commits to the quantity under the blinding factor `q_blinding` and then to the flavor
    /// under `f_blinding`, makes the two commitments external inputs of the prover's system,
    /// and hands them back beside their wires, which are assigned the value. The prover keeps
    /// the two blinding factors beside the value.
    pub fn commit_blinded(
        &self,
        prover: &mut ConstraintSystem,
        q_blinding: &Scalar,
        f_blinding: &Scalar,
    ) -> (r: (CommittedValue, AllocatedValue))
        requires
            old(prover)@.wf(),
            old(prover)@.proving,
            old(prover)@.committed + 2 <= usize::MAX,
        ensures
            final(prover)@.wf(),
            final(prover)@ == old(prover)@.with_commitment(r.0.q@).with_commitment(r.0.f@),
            final(prover)@ == (Circuit {
                committed: old(prover)@.committed + 2,
                commitments: old(prover)@.commitments + seq![r.0.q@, r.0.f@],
                ..old(prover)@
            }),
            r.1.q == Variable::Committed(old(prover)@.committed as usize),
            r.1.f == Variable::Committed((old(prover)@.committed + 1) as usize),
            r.1.assignment == Some(*self),
            final(prover).assigned() == old(prover).assigned().with_committed(
                field_of(self.q.as_int()),
                q_blinding@,
            ).with_committed(self.f@, f_blinding@),
            final(prover).assigned() == old(prover).assigned().committing(
                seq![field_of(self.q.as_int()), self.f@],
                seq![q_blinding@, f_blinding@],
            ),
            final(prover).assigned().extends(old(prover).assigned()),
            old(prover).met() ==> final(prover).met(),
            old(prover).met() ==> r.1.carried_by(final(prover).assigned()),
    {
        let q = self.q.to_scalar();
        let q_pair = prover.commit(&q, q_blinding);
        let ghost middle = prover.assigned();
        let ghost between = prover@;
        let f_pair = prover.commit(&self.f, f_blinding);
        proof {
            if old(prover).met() {
                lemma_extends(middle, prover.assigned(), between, Seq::empty());
            }
        }
        match (q_pair, f_pair) {
            (Some((q_commit, q_var)), Some((f_commit, f_var))) => {
                proof {
                    assert(old(prover)@.commitments.push(q_commit@).push(f_commit@)
                        =~= old(prover)@.commitments + seq![q_commit@, f_commit@]);
                    assert(old(prover).assigned().committed.push(field_of(self.q.as_int())).push(
                        self.f@,
                    ) =~= old(prover).assigned().committed + seq![
                        field_of(self.q.as_int()),
                        self.f@,
                    ]);
                    assert(old(prover).assigned().blindings.push(q_blinding@).push(f_blinding@)
                        =~= old(prover).assigned().blindings + seq![q_blinding@, f_blinding@]);
                }
                (
                    CommittedValue { q: q_commit, f: f_commit },
                    AllocatedValue { q: q_var, f: f_var, assignment: Some(*self) },
                )
            },
            _ => {
                assert(false);
                (
                    CommittedValue { q: [0u8; 32], f: [0u8; 32] },
                    AllocatedValue { q: Variable::One, f: Variable::One, assignment: None },
                )
            },
        }
    }
}

impl ProverCommittable for Vec<Value> {
    type Output = (Vec<CommittedValue>, Vec<AllocatedValue>);

    open spec fn commitments(&self) -> nat {
        2 * self.len() as nat
    }

    open spec fn committed_as(&self, first: nat, output: Self::Output) -> bool {
        &&& output.0.len() == self.len()
        &&& output.1.len() == self.len()
        &&& wires_of(output.1@) == committed_wires(first, self.len() as nat)
        &&& forall|i: int|
            0 <= i < self.len() ==> (#[trigger] output.1@[i]).assignment == Some(self@[i])
    }

    open spec fn carried_by(&self, w: Witness, output: Self::Output) -> bool {
        forall|i: int| 0 <= i < output.1.len() ==> (#[trigger] output.1@[i]).carried_by(w)
    }

    open spec fn made(&self, output: Self::Output) -> Seq<Seq<u8>> {
        commitment_bytes(output.0@)
    }

    open spec fn values(&self) -> Seq<nat> {
        committed_values(self@)
    }

    fn commit(&self, prover: &mut ConstraintSystem) -> (r: Self::Output) {
        let mut blindings: Vec<(Scalar, Scalar)> = Vec::new();
        let mut i: usize = 0;
        while i < self.len()
            invariant
                i <= self.len(),
                blindings.len() == i,
            decreases self.len() - i,
        {
            blindings.push((Scalar::random(), Scalar::random()));
            i = i + 1;
        }
        let r = commit_all_blinded(self, prover, &blindings, 0);
        proof {
            lemma_blinding_values_len(blindings@.subrange(0, self.len() as int));
        }
        r
    }
}

/// Commits to the values one after the other, to value `i` under the pair of blinding
/// factors `blindings[from + i]`: its first for the quantity, its second for the flavor. The
/// prover keeps the blinding factors beside the values.
pub fn commit_all_blinded(
    values: &Vec<Value>,
    prover: &mut ConstraintSystem,
    blindings: &Vec<(Scalar, Scalar)>,
    from: usize,
) -> (r: (Vec<CommittedValue>, Vec<AllocatedValue>))
    requires
        old(prover)@.wf(),
        old(prover)@.proving,
        old(prover)@.committed + values.commitments() <= usize::MAX,
        from + values.len() <= blindings.len(),
    ensures
        final(prover)@.wf(),
        final(prover)@ == (Circuit {
            committed: old(prover)@.committed + values.commitments(),
            commitments: old(prover)@.commitments + values.made(r),
            ..old(prover)@
        }),
        values.made(r).len() == values.commitments(),
        values.committed_as(old(prover)@.committed, r),
        final(prover).assigned() == old(prover).assigned().committing(
            values.values(),
            blinding_values(blindings@.subrange(from as int, from + values.len())),
        ),
        final(prover).assigned().extends(old(prover).assigned()),
        old(prover).met() ==> final(prover).met(),
        old(prover).met() ==> values.carried_by(final(prover).assigned(), r),
{
    let mut commitments: Vec<CommittedValue> = Vec::new();
    let mut variables: Vec<AllocatedValue> = Vec::new();
    let ghost start = prover@;
    let ghost was_met = prover.met();
    let ghost first = prover.assigned();
    let mut i: usize = 0;
    proof {
        assert(start.commitments + commitment_bytes(commitments@) =~= start.commitments);
        assert(first.committed + committed_values(values@.take(0)) =~= first.committed);
        assert(first.blindings + blinding_values(blindings@.subrange(from as int, from + 0))
            =~= first.blindings);
    }
    while i < values.len()
        invariant
            i <= values.len(),
            start.wf(),
            start.proving,
            start.committed + 2 * values.len() <= usize::MAX,
            from + values.len() <= blindings.len(),
            prover@.wf(),
            prover@ == (Circuit {
                committed: (start.committed + 2 * i) as nat,
                commitments: start.commitments + commitment_bytes(commitments@),
                ..start
            }),
            prover.assigned() == first.committing(
                committed_values(values@.take(i as int)),
                blinding_values(blindings@.subrange(from as int, from + i)),
            ),
            commitments.len() == i,
            variables.len() == i,
            wires_of(variables@) == committed_wires(start.committed, i as nat),
            forall|j: int| 0 <= j < i ==> (#[trigger] variables@[j]).assignment == Some(values@[j]),
            prover.assigned().extends(first),
            was_met ==> prover.met(),
            was_met ==> forall|j: int|
                0 <= j < i ==> (#[trigger] variables@[j]).carried_by(prover.assigned()),
        decreases values.len() - i,
    {
        let ghost before = variables@;
        let ghost assigned_before = prover.assigned();
        let ghost circuit_before = prover@;
        let ghost made_before = commitments@;
        let (commitment, variable) = values[i].commit_blinded(
            prover,
            &blindings[from + i].0,
            &blindings[from + i].1,
        );
        commitments.push(commitment);
        variables.push(variable);
        proof {
            lemma_commitment_bytes_push(made_before, commitment);
            assert((start.commitments + commitment_bytes(made_before)) + seq![
                commitment.q@,
                commitment.f@,
            ] =~= start.commitments + commitment_bytes(commitments@));
            lemma_committed_values_push(values@.take(i as int), values@[i as int]);
            lemma_blinding_values_push(
                blindings@.subrange(from as int, from + i),
                blindings@[from + i],
            );
            assert(blindings@.subrange(from as int, from + i).push(blindings@[from + i])
                =~= blindings@.subrange(from as int, from + i + 1));
            assert((first.blindings + blinding_values(blindings@.subrange(from as int, from + i)))
                + seq![blindings@[from + i].0@, blindings@[from + i].1@] =~= first.blindings
                + blinding_values(blindings@.subrange(from as int, from + i + 1)));
            assert(values@.take(i as int).push(values@[i as int]) =~= values@.take(i as int + 1));
            assert((first.committed + committed_values(values@.take(i as int))) + seq![
                field_of(values@[i as int].q.as_int()),
                values@[i as int].f@,
            ] =~= first.committed + committed_values(values@.take(i as int + 1)));
            if was_met {
                assert forall|j: int| 0 <= j < i + 1 implies (
                #[trigger] variables@[j]).carried_by(prover.assigned()) by {
                    if j < i {
                        assert(variables@[j] == before[j]);
                        assert(wires_of(before)[j] == committed_wires(
                            start.committed,
                            i as nat,
                        )[j]);
                        assert(before[j].wires() == wires_of(before)[j]);
                        lemma_carried_extends(
                            before[j],
                            assigned_before,
                            prover.assigned(),
                            circuit_before,
                        );
                    }
                }
            }
            assert forall|j: int| 0 <= j < i + 1 implies wires_of(variables@)[j]
                == committed_wires(start.committed, (i + 1) as nat)[j] by {
                if j < i {
                    assert(wires_of(variables@)[j] == wires_of(before)[j]);
                    assert(wires_of(before)[j] == committed_wires(start.committed, i as nat)[j]);
                }
            }
            assert(wires_of(variables@) =~= committed_wires(start.committed, (i + 1) as nat));
        }
        i = i + 1;
    }
    proof {
        assert(values@.take(values.len() as int) =~= values@);
        lemma_commitment_bytes_len(commitments@);
    }
    (commitments, variables)
}

/// What a verifier can take as commitments: it makes them external inputs of its system.
pub trait VerifierCommittable {
    type Output;

    /// The number of commitments taken.
    spec fn commitments(&self) -> nat;

    /// The commitments taken, in the order in which the system takes them.
    spec fn taken(&self) -> Seq<Seq<u8>>;

    /// What comes back when the system had `first` committed inputs before.
    spec fn committed_as(&self, first: nat, output: Self::Output) -> bool;

    /// Takes the commitments as external inputs.
    fn commit(&self, verifier: &mut ConstraintSystem) -> (r: Self::Output)
        requires
            old(verifier)@.wf(),
            !old(verifier)@.proving,
            old(verifier)@.committed + self.commitments() <= usize::MAX,
        ensures
            final(verifier)@.wf(),
            final(verifier)@ == (Circuit {
                committed: old(verifier)@.committed + self.commitments(),
                commitments: old(verifier)@.commitments + self.taken(),
                ..old(verifier)@
            }),
            self.taken().len() == self.commitments(),
            self.committed_as(old(verifier)@.committed, r),
            final(verifier).assigned() == old(verifier).assigned(),
    ;
}

impl VerifierCommittable for CommittedValue {
    type Output = AllocatedValue;

    open spec fn commitments(&self) -> nat {
        2
    }

    open spec fn committed_as(&self, first: nat, output: Self::Output) -> bool {
        output.q == Variable::Committed(first as usize) && output.f == Variable::Committed(
            (first + 1) as usize,
        ) && output.assignment.is_none()
    }

    open spec fn taken(&self) -> Seq<Seq<u8>> {
        seq![self.q@, self.f@]
    }

    fn commit(&self, verifier: &mut ConstraintSystem) -> (r: Self::Output) {
        let q_var = verifier.commit_point(&self.q);
        let f_var = verifier.commit_point(&self.f);
        proof {
            assert(old(verifier)@.commitments.push(self.q@).push(self.f@) =~= old(
                verifier,
            )@.commitments + seq![self.q@, self.f@]);
        }
        match (q_var, f_var) {
            (Some(q_var), Some(f_var)) => AllocatedValue { q: q_var, f: f_var, assignment: None },
            _ => {
                assert(false);
                AllocatedValue { q: Variable::One, f: Variable::One, assignment: None }
            },
        }
    }
}

impl VerifierCommittable for Vec<CommittedValue> {
    type Output = Vec<AllocatedValue>;

    open spec fn commitments(&self) -> nat {
        2 * self.len() as nat
    }

    open spec fn committed_as(&self, first: nat, output: Self::Output) -> bool {
        &&& output.len() == self.len()
        &&& wires_of(output@) == committed_wires(first, self.len() as nat)
        &&& forall|i: int| 0 <= i < self.len() ==> (#[trigger] output@[i]).assignment.is_none()
    }

    open spec fn taken(&self) -> Seq<Seq<u8>> {
        commitment_bytes(self@)
    }

    fn commit(&self, verifier: &mut ConstraintSystem) -> (r: Self::Output) {
        let mut variables: Vec<AllocatedValue> = Vec::new();
        let ghost start = verifier@;
        let mut i: usize = 0;
        proof {
            assert(start.commitments + commitment_bytes(self@.take(0)) =~= start.commitments);
        }
        while i < self.len()
            invariant
                i <= self.len(),
                start.wf(),
                !start.proving,
                start.committed + 2 * self.len() <= usize::MAX,
                verifier.assigned() == old(verifier).assigned(),
                verifier@.wf(),
                verifier@ == (Circuit {
                    committed: (start.committed + 2 * i) as nat,
                    commitments: start.commitments + commitment_bytes(self@.take(i as int)),
                    ..start
                }),
                variables.len() == i,
                wires_of(variables@) == committed_wires(start.committed, i as nat),
                forall|j: int| 0 <= j < i ==> (#[trigger] variables@[j]).assignment.is_none(),
            decreases self.len() - i,
        {
            let ghost before = variables@;
            let variable = self[i].commit(verifier);
            variables.push(variable);
            proof {
                lemma_commitment_bytes_push(self@.take(i as int), self@[i as int]);
                assert(self@.take(i as int).push(self@[i as int]) =~= self@.take(i as int + 1));
                assert((start.commitments + commitment_bytes(self@.take(i as int))) + seq![
                    self@[i as int].q@,
                    self@[i as int].f@,
                ] =~= start.commitments + commitment_bytes(self@.take(i as int + 1)));
                assert forall|j: int| 0 <= j < i + 1 implies wires_of(variables@)[j]
                    == committed_wires(start.committed, (i + 1) as nat)[j] by {
                    if j < i {
                        assert(wires_of(variables@)[j] == wires_of(before)[j]);
                        assert(wires_of(before)[j] == committed_wires(start.committed, i as nat)[j]);
                    }
                }
                assert(wires_of(variables@) =~= committed_wires(start.committed, (i + 1) as nat));
            }
            i = i + 1;
        }
        proof {
            assert(self@.take(self.len() as int) =~= self@);
            lemma_commitment_bytes_len(self@);
        }
        variables
    }
}

/// A value that is on its wires stays there when the witness grows.
pub proof fn lemma_carried_extends(a: AllocatedValue, old: Witness, new: Witness, c: Circuit)
    requires
        c.wf(),
        c.has(a.q),
        c.has(a.f),
        old.aligned(c),
        new.extends(old),
        a.carried_by(old),
    ensures
        a.carried_by(new),
{
    lemma_extends(old, new, c, Seq::empty());
}

/// Values that are on their wires stay there when the witness grows.
pub proof fn lemma_all_carried_extends(
    values: Seq<AllocatedValue>,
    old: Witness,
    new: Witness,
    c: Circuit,
)
    requires
        c.wf(),
        c.has_pairs(wires_of(values)),
        old.aligned(c),
        new.extends(old),
        all_carried_by(values, old),
    ensures
        all_carried_by(values, new),
{
    assert forall|i: int| 0 <= i < values.len() implies (#[trigger] values[i]).carried_by(new) by {
        assert(values[i].wires() == wires_of(values)[i]);
        lemma_carried_extends(values[i], old, new, c);
    }
}

} // verus!
