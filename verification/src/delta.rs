//! Best-value accumulator with random tie-breaking.
use vstd::prelude::*;
use crate::random::{Random, RandomState, next_int_spec};

verus! {

/// Integer value types a [`Delta`] can hold, compared by their integer value.
pub trait DeltaValue: Copy + Sized {
    /// Integer value.
    spec fn as_int(self) -> int;

    /// Whether `self` is smaller than `other`.
    fn less_than(&self, other: &Self) -> (r: bool)
        ensures
            r == (self.as_int() < other.as_int()),
    ;

    /// Whether `self` equals `other`.
    fn same_value(&self, other: &Self) -> (r: bool)
        ensures
            r == (self.as_int() == other.as_int()),
    ;

    /// The value zero.
    fn zero() -> (r: Self)
        ensures
            r.as_int() == 0,
    ;

    /// Values with the same integer are the same.
    proof fn lemma_as_int_injective(a: Self, b: Self)
        ensures
            a.as_int() == b.as_int() ==> a == b,
    ;
}

impl DeltaValue for i32 {
    open spec fn as_int(self) -> int {
        self as int
    }

    fn less_than(&self, other: &Self) -> (r: bool) {
        *self < *other
    }

    fn same_value(&self, other: &Self) -> (r: bool) {
        *self == *other
    }

    fn zero() -> (r: Self) {
        0
    }

    proof fn lemma_as_int_injective(a: Self, b: Self) {
    }
}

impl DeltaValue for i64 {
    open spec fn as_int(self) -> int {
        self as int
    }

    fn less_than(&self, other: &Self) -> (r: bool) {
        *self < *other
    }

    fn same_value(&self, other: &Self) -> (r: bool) {
        *self == *other
    }

    fn zero() -> (r: Self) {
        0
    }

    proof fn lemma_as_int_injective(a: Self, b: Self) {
    }
}

/// Counter after adding `k` ties to `c`; it stops at `i32::MAX`.
pub open spec fn bumped(c: int, k: int) -> int {
    if c + k > i32::MAX {
        i32::MAX as int
    } else {
        c + k
    }
}

/// The best value seen so far and how many times it was seen
/// (`counter == -1`: nothing recorded yet).
#[derive(Debug, Clone, Copy)]
pub struct Delta<T> {
    /// Best value.
    pub value: T,
    /// Number of ties at the best value, or -1.
    pub counter: i32,
}

impl<T: DeltaValue> Default for Delta<T> {
    fn default() -> (r: Self)
        ensures
            r.value.as_int() == 0,
            r.counter == -1,
    {
        Delta { value: T::zero(), counter: -1 }
    }
}

impl<T: DeltaValue> Delta<T> {
    /// The counter is -1 (empty) or counts at least one tie.
    pub open spec fn wf(&self) -> bool {
        self.counter == -1 || self.counter >= 1
    }

    /// Creates a delta with the given value and counter.
    pub fn new(value: T, counter: i32) -> (r: Self)
        ensures
            r.value == value,
            r.counter == counter,
    {
        Delta { value, counter }
    }

    /// Offers `new_value`. A strictly smaller value replaces the current one
    /// (counter 1, returns true). An equal value after a first record is a
    /// tie: the counter grows by one and the new value is chosen with
    /// probability 1/counter (reservoir sampling). Otherwise nothing changes.
    pub fn update(&mut self, new_value: T, random: &mut Random) -> (r: bool)
        requires
            old(self).wf(),
        ensures
            final(self).wf(),
            new_value.as_int() < old(self).value.as_int() ==> {
                &&& final(self).value == new_value
                &&& final(self).counter == 1
                &&& r
                &&& final(random).spec_state() == old(random).spec_state()
            },
            new_value.as_int() == old(self).value.as_int() && old(self).counter != -1 ==> {
                let c = bumped(old(self).counter as int, 1);
                let d = next_int_spec(old(random).spec_state(), 1, c);
                &&& final(self).value == old(self).value
                &&& final(self).counter == c
                &&& r == (d.0 == 1)
                &&& final(random).spec_state() == d.1
            },
            !(new_value.as_int() < old(self).value.as_int()) && !(new_value.as_int()
                == old(self).value.as_int() && old(self).counter != -1) ==> {
                &&& *final(self) == *old(self)
                &&& !r
                &&& final(random).spec_state() == old(random).spec_state()
            },
    {
        if new_value.less_than(&self.value) {
            self.value = new_value;
            self.counter = 1;
            true
        } else if new_value.same_value(&self.value) && self.counter != -1 {
            if self.counter < i32::MAX {
                self.counter = self.counter + 1;
            }
            random.next_int(1, self.counter) == 1
        } else {
            false
        }
    }

    /// Merges the best value of another accumulator. A strictly smaller
    /// value is taken over with its counter (returns true). On a tie after a
    /// first record the counters add up and the other side is chosen with
    /// probability `delta.counter / counter`. Otherwise nothing changes.
    pub fn update_from(&mut self, delta: &Delta<T>, random: &mut Random) -> (r: bool)
        requires
            old(self).wf(),
            delta.wf(),
            delta.value.as_int() == old(self).value.as_int() && old(self).counter != -1
                ==> delta.counter >= 1,
        ensures
            final(self).wf(),
            delta.value.as_int() < old(self).value.as_int() ==> {
                &&& final(self).value == delta.value
                &&& final(self).counter == delta.counter
                &&& r
                &&& final(random).spec_state() == old(random).spec_state()
            },
            delta.value.as_int() == old(self).value.as_int() && old(self).counter != -1 ==> {
                let c = bumped(old(self).counter as int, delta.counter as int);
                let d = next_int_spec(old(random).spec_state(), 1, c);
                &&& final(self).value == old(self).value
                &&& final(self).counter == c
                &&& r == (d.0 <= delta.counter)
                &&& final(random).spec_state() == d.1
            },
            !(delta.value.as_int() < old(self).value.as_int()) && !(delta.value.as_int()
                == old(self).value.as_int() && old(self).counter != -1) ==> {
                &&& *final(self) == *old(self)
                &&& !r
                &&& final(random).spec_state() == old(random).spec_state()
            },
    {
        if delta.value.less_than(&self.value) {
            self.value = delta.value;
            self.counter = delta.counter;
            true
        } else if delta.value.same_value(&self.value) && self.counter != -1 {
            if self.counter <= i32::MAX - delta.counter {
                self.counter = self.counter + delta.counter;
            } else {
                self.counter = i32::MAX;
            }
            random.next_int(1, self.counter) <= delta.counter
        } else {
            false
        }
    }
}

} // verus!
