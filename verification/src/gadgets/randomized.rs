use crate::circuit::Circuit;
use crate::circuit::Deferred;
use crate::circuit::Error;
use crate::circuit::Variable;
use crate::circuit::lemma_has_gadget_grows;
use crate::circuit::most_multipliers;
use crate::field::field_sub;
use crate::field::product_by;
use crate::gadgets::mix::fill_randomized_cs;
use crate::gadgets::mix::lemma_mix_demands;
use crate::gadgets::mix::merge_value;
use crate::gadgets::mix::merges;
use crate::gadgets::mix::mix_circuit;
use crate::gadgets::mix::pair_on;
use crate::gadgets::mix::pass_value;
use crate::gadgets::mix::passes;
use crate::gadgets::product::chained;
use crate::gadgets::product::lemma_chained;
use crate::gadgets::scalar_shuffle::lemma_scalar_shuffle_demands;
use crate::gadgets::scalar_shuffle::scalar_factors;
use crate::gadgets::scalar_shuffle::scalar_shuffle_randomized;
use crate::gadgets::two_shuffle::lemma_two_shuffle_demands;
use crate::gadgets::two_shuffle::two_shuffle_circuit;
use crate::gadgets::two_shuffle::two_shuffle_with;
use crate::gadgets::value_shuffle::lemma_value_shuffle_demands;
use crate::gadgets::value_shuffle::value_factors;
use crate::gadgets::value_shuffle::value_shuffle_randomized;
use crate::r1cs::RandomizedConstraintSystem;
use crate::scalar::field_mul;
use crate::scalar::lemma_order;
use crate::scalar::order;
use crate::semantics::Witness;
use crate::semantics::blend;
use crate::semantics::lemma_extends;
use crate::semantics::lemma_satisfies_postponed;
use crate::semantics::pairs_on;
use crate::semantics::values_on;
use vstd::prelude::*;

verus! {

/// A gadget that was put off to the second phase, with the wires it is about.
#[derive(Debug)]
pub enum RandomizedGadget {
    /// `{c, d}` is a reordering of `{a, b}`.
    TwoShuffle(Variable, Variable, Variable, Variable),
    /// The wires `y` carry the values of the wires `x` in some order.
    ScalarShuffle(Vec<Variable>, Vec<Variable>),
    /// The (quantity, flavor) wires `y` carry the values of the wires `x` in some order.
    ValueShuffle(Vec<(Variable, Variable)>, Vec<(Variable, Variable)>),
    /// The values `a, b` are passed on as `c, d`, or merged into `d` while `c` is zero.
    Mix((Variable, Variable), (Variable, Variable), (Variable, Variable), (Variable, Variable)),
}

impl View for RandomizedGadget {
    type V = Deferred;

    open spec fn view(&self) -> Deferred {
        match *self {
            RandomizedGadget::TwoShuffle(a, b, c, d) => Deferred::TwoShuffle(a, b, c, d),
            RandomizedGadget::ScalarShuffle(x, y) => Deferred::ScalarShuffle(x@, y@),
            RandomizedGadget::ValueShuffle(x, y) => Deferred::ValueShuffle(x@, y@),
            RandomizedGadget::Mix(a, b, c, d) => Deferred::Mix(a, b, c, d),
        }
    }
}

/// The number of multipliers that a deferred gadget adds in the second phase.
pub open spec fn multipliers_of(g: Deferred) -> nat {
    match g {
        Deferred::TwoShuffle(..) => 2,
        Deferred::ScalarShuffle(x, y) => if x.len() >= 2 {
            (x.len() + y.len() - 2) as nat
        } else {
            0
        },
        Deferred::ValueShuffle(x, y) => if x.len() >= 2 {
            (x.len() + y.len() - 2) as nat
        } else {
            0
        },
        Deferred::Mix(..) => 1,
    }
}

/// The labels under which a deferred gadget draws its challenges, in the order in which it
/// draws them. Each kind of gadget has a label of its own; the shuffle of values draws a
/// second challenge as a shuffle of scalars does. A shuffle of fewer than two items draws
/// none.
pub open spec fn labels_of(g: Deferred) -> Seq<Seq<char>> {
    match g {
        Deferred::TwoShuffle(..) => seq!["shuffle challenge"@],
        Deferred::ScalarShuffle(x, y) => if x.len() >= 2 {
            seq!["k-scalar shuffle challenge"@]
        } else {
            Seq::empty()
        },
        Deferred::ValueShuffle(x, y) => if x.len() >= 2 {
            seq!["k-value shuffle challenge"@, "k-scalar shuffle challenge"@]
        } else {
            Seq::empty()
        },
        Deferred::Mix(..) => seq!["mix challenge"@],
    }
}

/// No two kinds of gadget draw their first challenge under the same label.
pub proof fn lemma_labels_differ()
    ensures
        "shuffle challenge"@ != "k-scalar shuffle challenge"@,
        "shuffle challenge"@ != "k-value shuffle challenge"@,
        "shuffle challenge"@ != "mix challenge"@,
        "k-scalar shuffle challenge"@ != "k-value shuffle challenge"@,
        "k-scalar shuffle challenge"@ != "mix challenge"@,
        "k-value shuffle challenge"@ != "mix challenge"@,
{
    reveal_strlit("shuffle challenge");
    reveal_strlit("k-scalar shuffle challenge");
    reveal_strlit("k-value shuffle challenge");
    reveal_strlit("mix challenge");
    assert("shuffle challenge"@.len() == 17);
    assert("k-scalar shuffle challenge"@.len() == 26);
    assert("k-value shuffle challenge"@.len() == 25);
    assert("mix challenge"@.len() == 13);
}

/// The system after a deferred gadget has run with the given challenges.
pub open spec fn randomized(c: Circuit, g: Deferred, w: nat, z: nat) -> Circuit {
    match g {
        Deferred::TwoShuffle(a, b, c2, d) => two_shuffle_circuit(c, z, a, b, c2, d),
        Deferred::ScalarShuffle(x, y) => if x.len() >= 2 {
            scalar_shuffle_randomized(c, z, x, y)
        } else {
            c
        },
        Deferred::ValueShuffle(x, y) => if x.len() >= 2 {
            value_shuffle_randomized(c, w, z, x, y)
        } else {
            c
        },
        Deferred::Mix(a, b, c2, d) => mix_circuit(c, w, a, b, c2, d),
    }
}

/// Runs a deferred gadget: draws its challenges and adds its constraints. Where the system
/// has no room for the gadget's multipliers, nothing is added and `GadgetError` comes back.
/// A prover whose witness meets the system keeps a witness that meets the system if the
/// gadget is ready, whatever the challenges turn out to be.
pub fn randomize(
    cs: &mut RandomizedConstraintSystem,
    gadget: RandomizedGadget,
) -> (r: Result<(), Error>)
    requires
        old(cs)@.has_gadget(gadget@),
    ensures
        r is Err == !old(cs)@.room(multipliers_of(gadget@)),
        r matches Err(e) ==> e == Error::GadgetError && final(cs)@ == old(cs)@,
        r is Err ==> final(cs).drawn() == old(cs).drawn(),
        r is Ok ==> final(cs).drawn() == old(cs).drawn() + labels_of(gadget@),
        r is Ok ==> exists|w: nat, z: nat|
            w < order() && z < order() && final(cs)@ == randomized(old(cs)@, gadget@, w, z),
        old(cs)@.wf() ==> final(cs)@.wf(),
        final(cs).assigned().extends(old(cs).assigned()),
        r is Ok && old(cs)@.wf() && old(cs).met() && (old(cs)@.proving ==> ready(
            old(cs).assigned(),
            gadget@,
        )) ==> final(cs).met(),
{
    let multipliers = cs.multipliers();
    if multipliers > usize::MAX / 2 {
        return Err(Error::GadgetError);
    }
    let room = usize::MAX / 2 - multipliers;
    proof {
        lemma_order();
    }
    match gadget {
        RandomizedGadget::TwoShuffle(a, b, c, d) => {
            if room < 2 {
                return Err(Error::GadgetError);
            }
            let z = cs.challenge_scalar("shuffle challenge");
            two_shuffle_with(cs, &z, a, b, c, d);
            assert(final(cs)@ == randomized(old(cs)@, gadget@, 0, z@));
            assert(cs.drawn() =~= old(cs).drawn() + labels_of(gadget@));
            Ok(())
        },
        RandomizedGadget::ScalarShuffle(x, y) => {
            if x.len() < 2 {
                assert(cs@ == randomized(old(cs)@, gadget@, 0, 0));
                assert(cs.drawn() =~= old(cs).drawn() + labels_of(gadget@));
                return Ok(());
            }
            if x.len() - 1 > room / 2 {
                return Err(Error::GadgetError);
            }
            let z = cs.challenge_scalar("k-scalar shuffle challenge");
            crate::gadgets::scalar_shuffle::fill_randomized_cs(cs, &z, &x, &y);
            assert(final(cs)@ == randomized(old(cs)@, gadget@, 0, z@));
            assert(cs.drawn() =~= old(cs).drawn() + labels_of(gadget@));
            Ok(())
        },
        RandomizedGadget::ValueShuffle(x, y) => {
            if x.len() < 2 {
                assert(cs@ == randomized(old(cs)@, gadget@, 0, 0));
                assert(cs.drawn() =~= old(cs).drawn() + labels_of(gadget@));
                return Ok(());
            }
            if x.len() - 1 > room / 2 {
                return Err(Error::GadgetError);
            }
            let w = cs.challenge_scalar("k-value shuffle challenge");
            let z = cs.challenge_scalar("k-scalar shuffle challenge");
            crate::gadgets::value_shuffle::fill_randomized_cs(cs, &w, &z, &x, &y);
            assert(final(cs)@ == randomized(old(cs)@, gadget@, w@, z@));
            assert(cs.drawn() =~= old(cs).drawn() + labels_of(gadget@));
            Ok(())
        },
        RandomizedGadget::Mix(a, b, c, d) => {
            if room < 1 {
                return Err(Error::GadgetError);
            }
            let w = cs.challenge_scalar("mix challenge");
            fill_randomized_cs(cs, &w, a, b, c, d);
            assert(final(cs)@ == randomized(old(cs)@, gadget@, w@, 0));
            assert(cs.drawn() =~= old(cs).drawn() + labels_of(gadget@));
            Ok(())
        },
    }
}

/// What a deferred gadget demands of the values on its wires, for the challenges `c` and `z`.
pub open spec fn demanded(w: Witness, g: Deferred, c: nat, z: nat) -> bool {
    match g {
        Deferred::TwoShuffle(a, b, c2, d) => field_mul(
            field_sub(w.value(a), z),
            field_sub(w.value(b), z),
        ) == field_mul(field_sub(w.value(c2), z), field_sub(w.value(d), z)),
        Deferred::ScalarShuffle(x, y) => x.len() >= 2 ==> product_by(
            values_on(w, x),
            |v: nat| field_sub(v, z),
        ) == product_by(values_on(w, y), |v: nat| field_sub(v, z)),
        Deferred::ValueShuffle(x, y) => x.len() >= 2 ==> product_by(
            pairs_on(w, x),
            |v: (nat, nat)| blend(v, c, z),
        ) == product_by(pairs_on(w, y), |v: (nat, nat)| blend(v, c, z)),
        Deferred::Mix(a, b, c2, d) => field_mul(
            pass_value(c, pair_on(w, a), pair_on(w, b), pair_on(w, c2), pair_on(w, d)),
            merge_value(c, pair_on(w, a), pair_on(w, b), pair_on(w, c2), pair_on(w, d)),
        ) == 0,
    }
}

/// A deferred gadget adds its multipliers and leaves the rest of the counters alone.
pub proof fn lemma_randomized(s: Circuit, g: Deferred, c: nat, z: nat)
    requires
        s.has_gadget(g),
    ensures
        randomized(s, g, c, z).multipliers == s.multipliers + multipliers_of(g),
        randomized(s, g, c, z).committed == s.committed,
        randomized(s, g, c, z).commitments == s.commitments,
        randomized(s, g, c, z).deferred == s.deferred,
        randomized(s, g, c, z).proving == s.proving,
{
    match g {
        Deferred::TwoShuffle(..) => {},
        Deferred::ScalarShuffle(x, y) => {
            if x.len() >= 2 {
                let fx = scalar_factors(x, z);
                let fy = scalar_factors(y, z);
                lemma_chained(s, fx, (x.len() - 1) as nat);
                lemma_chained(
                    chained(s, fx, (x.len() - 1) as nat),
                    fy,
                    (y.len() - 1) as nat,
                );
            }
        },
        Deferred::ValueShuffle(x, y) => {
            if x.len() >= 2 {
                let fx = value_factors(x, c, z);
                let fy = value_factors(y, c, z);
                lemma_chained(s, fx, (x.len() - 1) as nat);
                lemma_chained(
                    chained(s, fx, (x.len() - 1) as nat),
                    fy,
                    (y.len() - 1) as nat,
                );
            }
        },
        Deferred::Mix(..) => {},
    }
}

/// A witness that meets the system after a deferred gadget has run meets the system before,
/// and the values on the wires of the gadget are as the gadget demands.
pub proof fn lemma_randomized_demands(w: Witness, s: Circuit, g: Deferred, c: nat, z: nat)
    requires
        s.has_gadget(g),
        s.room(multipliers_of(g)),
        w.satisfies(randomized(s, g, c, z)),
    ensures
        w.satisfies(s),
        demanded(w, g, c, z),
{
    match g {
        Deferred::TwoShuffle(a, b, c2, d) => {
            lemma_two_shuffle_demands(w, s, z, a, b, c2, d);
        },
        Deferred::ScalarShuffle(x, y) => {
            if x.len() >= 2 {
                lemma_scalar_shuffle_demands(w, s, z, x, y);
            }
        },
        Deferred::ValueShuffle(x, y) => {
            if x.len() >= 2 {
                lemma_value_shuffle_demands(w, s, c, z, x, y);
            }
        },
        Deferred::Mix(a, b, c2, d) => {
            lemma_mix_demands(w, s, c, a, b, c2, d);
        },
    }
}

/// The number of multipliers that the first `n` of the deferred gadgets add.
pub open spec fn deferred_multipliers(gadgets: Seq<Deferred>, n: nat) -> nat
    decreases n,
{
    if n == 0 {
        0
    } else {
        deferred_multipliers(gadgets, (n - 1) as nat) + multipliers_of(gadgets[n - 1])
    }
}

/// The number of multipliers that a system has once all its deferred gadgets have run.
pub open spec fn final_multipliers(c: Circuit) -> nat {
    c.multipliers + deferred_multipliers(c.deferred, c.deferred.len())
}

/// Every deferred gadget finds room for its multipliers when its turn comes: the system
/// stays within the most multipliers that it may have.
pub open spec fn completes(c: Circuit) -> bool {
    final_multipliers(c) <= most_multipliers()
}

/// The system after the first `n` of its deferred gadgets have run in the order in which
/// they were registered, gadget `i` with the pair of challenges `challenges[i]`.
pub open spec fn completed(s: Circuit, challenges: Seq<(nat, nat)>, n: nat) -> Circuit
    decreases n,
{
    if n == 0 {
        s
    } else {
        randomized(
            completed(s, challenges, (n - 1) as nat),
            s.deferred[n - 1],
            challenges[n - 1].0,
            challenges[n - 1].1,
        )
    }
}

/// The second phase adds the multipliers of the gadgets that have run and leaves the rest of
/// the counters alone.
pub proof fn lemma_completed(s: Circuit, challenges: Seq<(nat, nat)>, n: nat)
    requires
        s.wf(),
        n <= s.deferred.len(),
    ensures
        completed(s, challenges, n).multipliers == s.multipliers + deferred_multipliers(
            s.deferred,
            n,
        ),
        completed(s, challenges, n).committed == s.committed,
        completed(s, challenges, n).commitments == s.commitments,
        completed(s, challenges, n).deferred == s.deferred,
        completed(s, challenges, n).proving == s.proving,
        s.within(completed(s, challenges, n)),
    decreases n,
{
    if n > 0 {
        lemma_completed(s, challenges, (n - 1) as nat);
        let before = completed(s, challenges, (n - 1) as nat);
        let g = s.deferred[n - 1];
        assert(s.has_gadget(g));
        lemma_has_gadget_grows(s, before, g);
        lemma_randomized(before, g, challenges[n - 1].0, challenges[n - 1].1);
    }
}

/// Everything deferred is demanded: a witness that meets the system after the first `n` of
/// its deferred gadgets have run meets the system of the first phase, and the values on the
/// wires of each of these gadgets are as the gadget demands for its challenges.
pub proof fn lemma_completed_demands(w: Witness, s: Circuit, challenges: Seq<(nat, nat)>, n: nat)
    requires
        s.wf(),
        n <= s.deferred.len(),
        s.room(deferred_multipliers(s.deferred, n)),
        w.satisfies(completed(s, challenges, n)),
    ensures
        w.satisfies(s),
        forall|i: int|
            0 <= i < n ==> demanded(
                w,
                #[trigger] s.deferred[i],
                challenges[i].0,
                challenges[i].1,
            ),
    decreases n,
{
    if n > 0 {
        let before = completed(s, challenges, (n - 1) as nat);
        let g = s.deferred[n - 1];
        lemma_completed(s, challenges, (n - 1) as nat);
        assert(s.has_gadget(g));
        lemma_has_gadget_grows(s, before, g);
        lemma_randomized_demands(w, before, g, challenges[n - 1].0, challenges[n - 1].1);
        lemma_completed_demands(w, s, challenges, (n - 1) as nat);
    }
}

/// The values on the wires of a deferred gadget are related as the gadget is meant to show:
/// the values of a shuffle are reorderings of each other, and the values of a mix are passed
/// on or merged. A gadget that is ready will be met in the second phase whatever its
/// challenges are.
pub open spec fn ready(w: Witness, g: Deferred) -> bool {
    match g {
        Deferred::TwoShuffle(a, b, c, d) => (w.value(c) == w.value(a) && w.value(d) == w.value(b))
            || (w.value(c) == w.value(b) && w.value(d) == w.value(a)),
        Deferred::ScalarShuffle(x, y) => values_on(w, x).to_multiset() == values_on(
            w,
            y,
        ).to_multiset(),
        Deferred::ValueShuffle(x, y) => pairs_on(w, x).to_multiset() == pairs_on(
            w,
            y,
        ).to_multiset(),
        Deferred::Mix(a, b, c, d) => passes(pair_on(w, a), pair_on(w, b), pair_on(w, c), pair_on(w, d))
            || merges(pair_on(w, a), pair_on(w, b), pair_on(w, c), pair_on(w, d)),
    }
}

/// A prover is on course: its witness is that of the system, meets everything that the
/// system demands so far, and every gadget put off is ready.
pub open spec fn on_course(w: Witness, c: Circuit) -> bool {
    w.meets(c) && forall|i: int| 0 <= i < c.deferred.len() ==> ready(w, #[trigger] c.deferred[i])
}

/// A gadget that is ready stays ready when the witness grows.
pub proof fn lemma_ready_extends(old: Witness, new: Witness, c: Circuit, g: Deferred)
    requires
        old.aligned(c),
        new.extends(old),
        c.committed <= usize::MAX,
        c.multipliers <= usize::MAX,
        c.has_gadget(g),
        ready(old, g),
    ensures
        ready(new, g),
{
    lemma_extends(old, new, c, Seq::empty());
    match g {
        Deferred::TwoShuffle(..) => {},
        Deferred::ScalarShuffle(x, y) => {
            assert(values_on(new, x) =~= values_on(old, x)) by {
                assert forall|i: int| 0 <= i < x.len() implies values_on(new, x)[i] == values_on(
                    old,
                    x,
                )[i] by {
                    assert(c.has(x[i]));
                }
            }
            assert(values_on(new, y) =~= values_on(old, y)) by {
                assert forall|i: int| 0 <= i < y.len() implies values_on(new, y)[i] == values_on(
                    old,
                    y,
                )[i] by {
                    assert(c.has(y[i]));
                }
            }
        },
        Deferred::ValueShuffle(x, y) => {
            assert(pairs_on(new, x) =~= pairs_on(old, x)) by {
                assert forall|i: int| 0 <= i < x.len() implies pairs_on(new, x)[i] == pairs_on(
                    old,
                    x,
                )[i] by {
                    assert(c.has(x[i].0) && c.has(x[i].1));
                }
            }
            assert(pairs_on(new, y) =~= pairs_on(old, y)) by {
                assert forall|i: int| 0 <= i < y.len() implies pairs_on(new, y)[i] == pairs_on(
                    old,
                    y,
                )[i] by {
                    assert(c.has(y[i].0) && c.has(y[i].1));
                }
            }
        },
        Deferred::Mix(..) => {},
    }
}

/// A prover that is on course stays on course when its witness grows so as to meet a system
/// that has grown and has put off nothing more.
pub proof fn lemma_on_course_grows(old: Witness, new: Witness, c: Circuit, d: Circuit)
    requires
        c.wf(),
        on_course(old, c),
        new.extends(old),
        new.meets(d),
        d.deferred == c.deferred,
    ensures
        on_course(new, d),
{
    assert forall|i: int| 0 <= i < d.deferred.len() implies ready(new, #[trigger] d.deferred[i]) by {
        assert(c.has_gadget(c.deferred[i]));
        assert(ready(old, c.deferred[i]));
        lemma_ready_extends(old, new, c, c.deferred[i]);
    }
}

/// A prover that is on course stays on course when a gadget that is ready is put off.
pub proof fn lemma_on_course_postponed(w: Witness, c: Circuit, g: Deferred)
    requires
        on_course(w, c),
        ready(w, g),
    ensures
        on_course(w, c.postponed(g)),
{
    lemma_satisfies_postponed(w, c, g);
    let d = c.postponed(g);
    assert forall|i: int| 0 <= i < d.deferred.len() implies ready(w, #[trigger] d.deferred[i]) by {
        if i < c.deferred.len() {
            assert(d.deferred[i] == c.deferred[i]);
        }
    }
}

} // verus!
