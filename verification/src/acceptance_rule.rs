//! Acceptance rules deciding whether a candidate solution replaces the
//! current one.
use vstd::prelude::*;
use crate::random::{Random, RandomState};

verus! {

/// Decides whether a candidate objective value replaces the current one.
pub trait AcceptanceRule {
    /// State in which the rule can decide.
    spec fn ready(&self) -> bool;

    /// Whether `accepts` states the rule's decisions (a rule whose decision
    /// is not stated here keeps the default, and nothing is claimed of it).
    open spec fn decision_stated(&self) -> bool {
        false
    }

    /// The rule's decision on the candidate value `new_value` against the
    /// current value `old_value`, with the generator in state `seed`
    /// (meaningful when `decision_stated`).
    open spec fn accepts(&self, old_value: int, new_value: int, seed: RandomState) -> bool {
        false
    }

    /// Whether the candidate (`new_value`) is accepted over the current
    /// solution (`old_value`).
    fn accept(&mut self, old_value: i32, new_value: i32, random: &mut Random) -> (r: bool)
        requires
            old(self).ready(),
        ensures
            final(self).ready(),
            old(self).decision_stated() ==> r == old(self).accepts(old_value as int, new_value as int, old(random).spec_state()),
    ;
}

/// Accepts strict improvements only.
#[derive(Debug, Clone, Copy, Default)]
pub struct HillClimbing;

impl AcceptanceRule for HillClimbing {
    open spec fn ready(&self) -> bool {
        true
    }

    open spec fn decision_stated(&self) -> bool {
        true
    }

    open spec fn accepts(&self, old_value: int, new_value: int, seed: RandomState) -> bool {
        new_value < old_value
    }

    fn accept(&mut self, old_value: i32, new_value: i32, random: &mut Random) -> (r: bool)
        ensures
            r == (new_value < old_value),
            final(random).spec_state() == old(random).spec_state(),
    {
        new_value < old_value
    }
}

/// Accepts improvements and equal values.
#[derive(Debug, Clone, Copy, Default)]
pub struct HillClimbingWithEqual;

impl AcceptanceRule for HillClimbingWithEqual {
    open spec fn ready(&self) -> bool {
        true
    }

    open spec fn decision_stated(&self) -> bool {
        true
    }

    open spec fn accepts(&self, old_value: int, new_value: int, seed: RandomState) -> bool {
        new_value <= old_value
    }

    fn accept(&mut self, old_value: i32, new_value: i32, random: &mut Random) -> (r: bool)
        ensures
            r == (new_value <= old_value),
            final(random).spec_state() == old(random).spec_state(),
    {
        new_value <= old_value
    }
}

/// Late acceptance hill climbing: keeps a circular history of objective
/// values and accepts a candidate that is no worse than the current value
/// or better than the history entry at the current position.
#[derive(Debug, Clone)]
pub struct LateAcceptanceHillClimbing {
    length: usize,
    position: usize,
    values: Vec<i32>,
}

impl LateAcceptanceHillClimbing {
    /// History length.
    pub closed spec fn spec_length(&self) -> nat {
        self.length as nat
    }

    /// Current position in the history.
    pub closed spec fn spec_position(&self) -> nat {
        self.position as nat
    }

    /// The history.
    pub closed spec fn spec_values(&self) -> Seq<i32> {
        self.values@
    }

    /// Creates a rule with a history of `length` entries, all `i32::MAX`.
    pub fn new(length: usize) -> (r: Self)
        ensures
            r.spec_length() == length,
            r.spec_position() == 0,
            r.spec_values() == Seq::new(length as nat, |i: int| i32::MAX),
    {
        let values = vec![i32::MAX; length];
        let r = LateAcceptanceHillClimbing { length, position: 0, values };
        assert(r.spec_values() =~= Seq::new(length as nat, |i: int| i32::MAX));
        r
    }
}

impl AcceptanceRule for LateAcceptanceHillClimbing {
    open spec fn ready(&self) -> bool {
        &&& self.spec_length() > 0
        &&& self.spec_values().len() == self.spec_length()
        &&& self.spec_position() < self.spec_length()
    }

    open spec fn decision_stated(&self) -> bool {
        true
    }

    open spec fn accepts(&self, old_value: int, new_value: int, seed: RandomState) -> bool {
        new_value <= old_value || new_value < self.spec_values()[self.spec_position() as int]
    }

    fn accept(&mut self, old_value: i32, new_value: i32, random: &mut Random) -> (r: bool)
        ensures
            lahc_step(*old(self), *final(self), old_value, new_value),
            ({
                let v = old(self).spec_values()[old(self).spec_position() as int];
                let accepted = new_value <= old_value || new_value < v;
                let current = if accepted { new_value } else { old_value };
                &&& r == accepted
                &&& final(self).spec_values() == if current < v {
                    old(self).spec_values().update(old(self).spec_position() as int, current)
                } else {
                    old(self).spec_values()
                }
                &&& final(self).spec_position() == (old(self).spec_position() + 1) % old(self).spec_length()
                &&& final(self).spec_length() == old(self).spec_length()
            }),
            final(random).spec_state() == old(random).spec_state(),
    {
        let mut accepted = false;
        let mut current_value = old_value;
        let v = self.values[self.position];
        if new_value <= old_value || new_value < v {
            current_value = new_value;
            accepted = true;
        }
        if current_value < v {
            self.values.set(self.position, current_value);
        }
        self.position = (self.position + 1) % self.length;
        accepted
    }
}

/// `b` is `a` after deciding on `new_value` against `old_value`: the
/// history entry at the position keeps the lower of itself and the value
/// that stays current, and the position moves on by one, around the
/// history.
pub open spec fn lahc_step(a: LateAcceptanceHillClimbing, b: LateAcceptanceHillClimbing, old_value: i32, new_value: i32) -> bool {
    let v = a.spec_values()[a.spec_position() as int];
    let accepted = new_value <= old_value || new_value < v;
    let current = if accepted {
        new_value
    } else {
        old_value
    };
    &&& b.spec_values() == if current < v {
        a.spec_values().update(a.spec_position() as int, current)
    } else {
        a.spec_values()
    }
    &&& b.spec_position() == (a.spec_position() + 1) % a.spec_length()
    &&& b.spec_length() == a.spec_length()
}

/// Over any run of decisions (each state `states[k + 1]` is `states[k]`
/// after deciding on `news[k]` against `olds[k]`), no history entry ever
/// grows, the history keeps its length, and the position advances by the
/// number of decisions, around the history.
pub proof fn lemma_lahc_run(states: Seq<LateAcceptanceHillClimbing>, olds: Seq<i32>, news: Seq<i32>)
    requires
        states.len() >= 1,
        olds.len() == states.len() - 1,
        news.len() == states.len() - 1,
        states[0].ready(),
        forall|k: int| 0 <= k < states.len() - 1 ==> #[trigger] lahc_step(states[k], states[k + 1], olds[k], news[k]),
    ensures
        states.last().ready(),
        states.last().spec_length() == states[0].spec_length(),
        forall|i: int| 0 <= i < states[0].spec_length() ==> #[trigger] states.last().spec_values()[i] <= states[0].spec_values()[i],
        states.last().spec_position() == (states[0].spec_position() + states.len() - 1) % (states[0].spec_length() as int),
    decreases states.len(),
{
    if states.len() > 1 {
        let n = states.len() - 1;
        let prev = states.drop_last();
        assert forall|k: int| 0 <= k < prev.len() - 1 implies #[trigger] lahc_step(prev[k], prev[k + 1], olds.drop_last()[k], news.drop_last()[k]) by {
            assert(lahc_step(states[k], states[k + 1], olds[k], news[k]));
        }
        lemma_lahc_run(prev, olds.drop_last(), news.drop_last());
        let a = states[n - 1];
        let b = states[n];
        assert(lahc_step(states[n - 1], states[(n - 1) + 1], olds[n - 1], news[n - 1]));
        assert(states[(n - 1) + 1] == b);
        assert(a == prev.last());
        let len = states[0].spec_length() as int;
        let p0 = states[0].spec_position() as int;
        assert(((p0 + n - 1) % len + 1) % len == (p0 + n) % len) by {
            vstd::arithmetic::div_mod::lemma_add_mod_noop(p0 + n - 1, 1, len);
            if len > 1 {
                vstd::arithmetic::div_mod::lemma_small_mod(1, len as nat);
            }
        }
        assert forall|i: int| 0 <= i < len implies #[trigger] b.spec_values()[i] <= states[0].spec_values()[i] by {
            assert(a.spec_values()[i] <= states[0].spec_values()[i]);
        }
    } else {
        vstd::arithmetic::div_mod::lemma_small_mod(states[0].spec_position(), states[0].spec_length());
    }
}

} // verus!
