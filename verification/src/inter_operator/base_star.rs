//! The cheapest insertion positions of every customer in every route, used
//! by the node exchanges with free reinsertion.
use vstd::prelude::*;
use crate::delta::Delta;
use crate::instance::{Instance, Node, MAX_DISTANCE};
use crate::random::{Random, RandomState, next_int_spec};
use crate::route_context::RouteContext;
use crate::solution::{AlkaidSolution, MAX_SLOTS, NodeData, succ_of, cust_of, walk};
use super::cross::cut_at;

verus! {

/// An insertion position with its cost and tie counter.
#[derive(Debug, Clone, Copy)]
pub struct Insertion {
    /// Cost and number of ties (`counter == -1`: empty).
    pub delta: Delta<i32>,
    /// Slot after which to insert.
    pub predecessor: Node,
    /// Slot before which to insert.
    pub successor: Node,
}

/// Both slots of the position are in `0 .. len`.
pub open spec fn slots_in(e: Insertion, len: int) -> bool {
    0 <= e.predecessor < len && 0 <= e.successor < len
}

/// Rows `b` are rows `a` with row `dest` (added if missing, the rows
/// between added empty) taking row `src`, which is left empty.
pub open spec fn rows_moved(a: Seq<Vec<BestInsertion<3>>>, b: Seq<Vec<BestInsertion<3>>>, dest: int, src: int) -> bool {
    &&& b.len() == if dest < a.len() {
        a.len() as int
    } else {
        dest + 1
    }
    &&& b[dest] == a[src]
    &&& src != dest ==> b[src]@.len() == 0
    &&& forall|r: int| 0 <= r < a.len() && r != src && r != dest ==> #[trigger] b[r] == a[r]
    &&& forall|r: int| a.len() <= r < b.len() && r != dest ==> (#[trigger] b[r])@.len() == 0
}

/// The slots met walking from `node` along the successors, up to the
/// depot or for at most `fuel` steps.
pub open spec fn walk_slots(d: Seq<NodeData>, node: int, fuel: nat) -> Seq<Node>
    decreases fuel,
{
    if fuel == 0 || node == 0 {
        Seq::empty()
    } else {
        seq![node as Node] + walk_slots(d, succ_of(d, node), (fuel - 1) as nat)
    }
}

/// An empty position.
pub open spec fn empty_insertion() -> Insertion {
    Insertion { delta: Delta { value: i32::MAX, counter: -1i32 }, predecessor: 0, successor: 0 }
}

/// Largest tie counter kept by the position lists.
pub open spec fn counter_bound() -> int {
    40000
}

/// A recorded position: slots below `n`, a bounded cost, a tie counter in
/// range; or an empty one.
pub open spec fn insertion_ok(e: Insertion, n: int) -> bool {
    &&& 0 <= e.predecessor < n
    &&& 0 <= e.successor < n
    &&& e.delta.counter == -1 || 1 <= e.delta.counter <= counter_bound()
    &&& e.delta.counter >= 1 ==> -3 * MAX_DISTANCE <= e.delta.value <= 3 * MAX_DISTANCE
}

/// `items` with the entries from `i` on moved one place down (the last
/// one dropped).
pub open spec fn shifted(items: Seq<Insertion>, i: int) -> Seq<Insertion> {
    Seq::new(items.len(), |k: int| if k <= i { items[k] } else { items[k - 1] })
}

/// The positions and the generator state after offering the position
/// (`delta`, `p`, `s`) to the entries from `i` on: it takes the first
/// empty entry, or goes before the first costlier one; a tie with a
/// recorded entry raises that entry's counter and, if a draw in
/// `1 ..= counter` gives 1, the new position takes that entry's place with
/// the raised counter (the others moving one place down), else the next
/// entries are tried.
pub open spec fn offer(items: Seq<Insertion>, i: int, delta: i32, p: Node, s: Node, st: RandomState) -> (Seq<Insertion>, RandomState)
    decreases items.len() - i,
{
    if i < 0 || i >= items.len() {
        (items, st)
    } else {
        let cur = items[i];
        let fresh = Insertion { delta: Delta { value: delta, counter: 1 }, predecessor: p, successor: s };
        let raised = Delta { value: cur.delta.value, counter: (cur.delta.counter + 1) as i32 };
        if cur.delta.value == i32::MAX {
            (items.update(i, fresh), st)
        } else if delta < cur.delta.value {
            (shifted(items, i).update(i, fresh), st)
        } else if delta == cur.delta.value && cur.delta.counter != -1 {
            let (x, st2) = next_int_spec(st, 1, cur.delta.counter + 1);
            if x == 1 {
                (shifted(items, i).update(i, Insertion { delta: raised, predecessor: p, successor: s }), st2)
            } else {
                offer(items.update(i, Insertion { delta: raised, ..cur }), i + 1, delta, p, s, st2)
            }
        } else {
            offer(items, i + 1, delta, p, s, st)
        }
    }
}

/// Costs ascend along `items`, and an entry is empty (no tie counter)
/// exactly when its cost is `i32::MAX`.
pub open spec fn sorted_insertions(items: Seq<Insertion>) -> bool {
    &&& forall|i: int, j: int| 0 <= i < j < items.len() ==> (#[trigger] items[i]).delta.value <= (#[trigger] items[j]).delta.value
    &&& forall|i: int| 0 <= i < items.len() ==> ((#[trigger] items[i]).delta.counter == -1 <==> items[i].delta.value == i32::MAX)
}

/// Offering a position keeps the entries sorted, when the entries before
/// `i` cost no more than it.
pub proof fn lemma_offer_sorted(items: Seq<Insertion>, i: int, delta: i32, p: Node, s: Node, st: RandomState)
    requires
        sorted_insertions(items),
        0 <= i,
        delta < i32::MAX,
        forall|k: int| i <= k < items.len() ==> (#[trigger] items[k]).delta.counter < i32::MAX,
        forall|k: int| 0 <= k < items.len() ==> (#[trigger] items[k]).delta.counter == -1 || items[k].delta.counter >= 1,
        forall|k: int| 0 <= k < i && k < items.len() ==> (#[trigger] items[k]).delta.value <= delta,
    ensures
        sorted_insertions(offer(items, i, delta, p, s, st).0),
    decreases items.len() - i,
{
    if i < items.len() {
        let cur = items[i];
        let fresh = Insertion { delta: Delta { value: delta, counter: 1 }, predecessor: p, successor: s };
        let raised = Delta { value: cur.delta.value, counter: (cur.delta.counter + 1) as i32 };
        if cur.delta.value == i32::MAX {
            let out = items.update(i, fresh);
            assert forall|a: int, b: int| 0 <= a < b < out.len() implies (#[trigger] out[a]).delta.value <= (#[trigger] out[b]).delta.value by {
                if b > i {
                    assert(items[i].delta.value <= items[b].delta.value);
                }
            }
        } else if delta < cur.delta.value {
            let out = shifted(items, i).update(i, fresh);
            assert forall|a: int, b: int| 0 <= a < b < out.len() implies (#[trigger] out[a]).delta.value <= (#[trigger] out[b]).delta.value by {
                if b > i {
                    assert(items[i].delta.value <= items[b - 1].delta.value);
                    if a > i {
                        assert(items[a - 1].delta.value <= items[b - 1].delta.value);
                    } else if a < i {
                        assert(items[a].delta.value <= delta);
                    }
                }
            }
        } else if delta == cur.delta.value && cur.delta.counter != -1 {
            let (x, st2) = next_int_spec(st, 1, cur.delta.counter + 1);
            if x == 1 {
                let out = shifted(items, i).update(i, Insertion { delta: raised, predecessor: p, successor: s });
                assert forall|a: int, b: int| 0 <= a < b < out.len() implies (#[trigger] out[a]).delta.value <= (#[trigger] out[b]).delta.value by {
                    if b > i {
                        assert(items[i].delta.value <= items[b - 1].delta.value);
                        if a > i {
                            assert(items[a - 1].delta.value <= items[b - 1].delta.value);
                        } else if a < i {
                            assert(items[a].delta.value <= items[i].delta.value);
                        }
                    }
                }
            } else {
                let next = items.update(i, Insertion { delta: raised, ..cur });
                assert forall|a: int, b: int| 0 <= a < b < next.len() implies (#[trigger] next[a]).delta.value <= (#[trigger] next[b]).delta.value by {
                    assert(items[a].delta.value <= items[b].delta.value);
                }
                assert(sorted_insertions(next));
                lemma_offer_sorted(next, i + 1, delta, p, s, st2);
            }
        } else {
            lemma_offer_sorted(items, i + 1, delta, p, s, st);
        }
    }
}

/// Every recorded entry of `items` (one with a tie counter) has a cost
/// and slots that satisfy `pr`.
pub open spec fn entries_ok(items: Seq<Insertion>, pr: spec_fn(i32, Node, Node) -> bool) -> bool {
    forall|k: int|
        0 <= k < items.len() && (#[trigger] items[k]).delta.counter != -1 ==> pr(items[k].delta.value, items[k].predecessor, items[k].successor)
}

/// Offering a position that satisfies `pr` keeps every recorded entry
/// satisfying `pr`.
pub proof fn lemma_offer_entries(
    items: Seq<Insertion>,
    i: int,
    delta: i32,
    p: Node,
    s: Node,
    st: RandomState,
    pr: spec_fn(i32, Node, Node) -> bool,
)
    requires
        entries_ok(items, pr),
        pr(delta, p, s),
    ensures
        entries_ok(offer(items, i, delta, p, s, st).0, pr),
    decreases items.len() - i,
{
    if 0 <= i < items.len() {
        let cur = items[i];
        let fresh = Insertion { delta: Delta { value: delta, counter: 1 }, predecessor: p, successor: s };
        let raised = Delta { value: cur.delta.value, counter: (cur.delta.counter + 1) as i32 };
        if cur.delta.value == i32::MAX {
            let out = items.update(i, fresh);
            assert forall|k: int| 0 <= k < out.len() && (#[trigger] out[k]).delta.counter != -1 implies pr(out[k].delta.value, out[k].predecessor, out[k].successor) by {
                if k != i {
                    assert(out[k] == items[k]);
                }
            }
        } else if delta < cur.delta.value {
            let out = shifted(items, i).update(i, fresh);
            assert forall|k: int| 0 <= k < out.len() && (#[trigger] out[k]).delta.counter != -1 implies pr(out[k].delta.value, out[k].predecessor, out[k].successor) by {
                if k < i {
                    assert(out[k] == items[k]);
                } else if k > i {
                    assert(out[k] == items[k - 1]);
                }
            }
        } else if delta == cur.delta.value && cur.delta.counter != -1 {
            let (x, st2) = next_int_spec(st, 1, cur.delta.counter + 1);
            assert(pr(cur.delta.value, cur.predecessor, cur.successor));
            if x == 1 {
                let out = shifted(items, i).update(i, Insertion { delta: raised, predecessor: p, successor: s });
                assert forall|k: int| 0 <= k < out.len() && (#[trigger] out[k]).delta.counter != -1 implies pr(out[k].delta.value, out[k].predecessor, out[k].successor) by {
                    if k < i {
                        assert(out[k] == items[k]);
                    } else if k > i {
                        assert(out[k] == items[k - 1]);
                    }
                }
            } else {
                let next = items.update(i, Insertion { delta: raised, ..cur });
                assert forall|k: int| 0 <= k < next.len() && (#[trigger] next[k]).delta.counter != -1 implies pr(next[k].delta.value, next[k].predecessor, next[k].successor) by {
                    if k != i {
                        assert(next[k] == items[k]);
                    }
                }
                lemma_offer_entries(next, i + 1, delta, p, s, st2, pr);
            }
        } else {
            lemma_offer_entries(items, i + 1, delta, p, s, st, pr);
        }
    }
}

/// Cost and slots of inserting customer `c` at a place of the route that
/// starts at `head`: between the `t`-th cut (the depot first) and the
/// `t`-th slot of the walk, for some `t`.
pub open spec fn position_cost(sol: &AlkaidSolution, inst: &Instance, head: int, c: int) -> spec_fn(i32, Node, Node) -> bool {
    |v: i32, p: Node, s: Node|
        exists|t: int|
            #![trigger walk(sol.nodes(), head, t as nat)]
            0 <= t && cut_at(sol.nodes(), head, t) == p && walk(sol.nodes(), head, t as nat) == s && v == inst.dist(
                cust_of(sol.nodes(), p as int),
                c,
            ) + inst.dist(cust_of(sol.nodes(), s as int), c) - inst.dist(cust_of(sol.nodes(), p as int), cust_of(sol.nodes(), s as int))
}

/// The position lists of a route, as `preprocess` computes them: for each
/// customer, costs ascend, and every recorded position is a place of the
/// route from `head` with its exact insertion cost.
pub open spec fn row_computed(row: Seq<BestInsertion<3>>, sol: &AlkaidSolution, inst: &Instance, head: int) -> bool {
    forall|c: int|
        0 <= c < row.len() ==> sorted_insertions((#[trigger] row[c]).items()) && entries_ok(
            row[c].items(),
            position_cost(sol, inst, head, c),
        )
}

/// The `N` cheapest insertion positions seen, cheapest first.
#[derive(Debug, Clone)]
pub struct BestInsertion<const N: usize> {
    insertions: Vec<Insertion>,
}

impl<const N: usize> BestInsertion<N> {
    /// The positions.
    pub closed spec fn items(&self) -> Seq<Insertion> {
        self.insertions@
    }

    /// `N` positions, each fine for a pool of `n` slots.
    pub open spec fn ok(&self, n: int) -> bool {
        &&& self.items().len() == N
        &&& forall|k: int| 0 <= k < N ==> insertion_ok(#[trigger] self.items()[k], n)
    }

    /// `N` empty positions.
    pub fn new() -> (r: Self)
        ensures
            r.items().len() == N,
            forall|k: int| 0 <= k < N ==> #[trigger] r.items()[k] == empty_insertion(),
            sorted_insertions(r.items()),
    {
        let mut insertions: Vec<Insertion> = Vec::new();
        let mut k: usize = 0;
        while k < N
            invariant
                k <= N,
                insertions@.len() == k,
                forall|j: int| 0 <= j < k ==> #[trigger] insertions@[j] == empty_insertion(),
            decreases N - k,
        {
            insertions.push(Insertion { delta: Delta::new(i32::MAX, -1), predecessor: 0, successor: 0 });
            k = k + 1;
        }
        BestInsertion { insertions }
    }

    /// Empties every position (their slots stay).
    pub fn reset(&mut self)
        ensures
            final(self).items().len() == old(self).items().len(),
            forall|k: int|
                0 <= k < old(self).items().len() ==> #[trigger] final(self).items()[k] == (Insertion {
                    delta: Delta { value: i32::MAX, counter: -1i32 },
                    ..old(self).items()[k]
                }),
    {
        let mut k: usize = 0;
        while k < self.insertions.len()
            invariant
                k <= self.insertions@.len(),
                self.insertions@.len() == old(self).insertions@.len(),
                forall|j: int|
                    0 <= j < k ==> #[trigger] self.insertions@[j] == (Insertion {
                        delta: Delta { value: i32::MAX, counter: -1i32 },
                        ..old(self).insertions@[j]
                    }),
                forall|j: int| k <= j < self.insertions@.len() ==> #[trigger] self.insertions@[j] == old(self).insertions@[j],
            decreases self.insertions@.len() - k,
        {
            let e = self.insertions[k];
            self.insertions.set(k, Insertion { delta: Delta::new(i32::MAX, -1), ..e });
            k = k + 1;
        }
    }

    /// Moves the positions `i .. N - 1` one place down (the last one is
    /// dropped).
    fn shift_down(&mut self, i: usize)
        requires
            old(self).items().len() == N,
            i < N,
        ensures
            final(self).items().len() == N,
            forall|k: int| 0 <= k <= i ==> #[trigger] final(self).items()[k] == old(self).items()[k],
            forall|k: int| i < k < N ==> #[trigger] final(self).items()[k] == old(self).items()[k - 1],
    {
        let mut j = N - 1;
        while j > i
            invariant
                self.insertions@.len() == N,
                i <= j < N,
                forall|k: int| 0 <= k <= j ==> #[trigger] self.insertions@[k] == old(self).insertions@[k],
                forall|k: int| j < k < N ==> #[trigger] self.insertions@[k] == old(self).insertions@[k - 1],
            decreases j,
        {
            let e = self.insertions[j - 1];
            self.insertions.set(j, e);
            j = j - 1;
        }
    }

    /// Offers the position between `predecessor` and `successor` at cost
    /// `delta`. It takes the first empty position, or goes before the
    /// first costlier one; on a tie with a recorded position, that
    /// position's tie counter grows and the new position replaces it with
    /// probability `1 / counter` (the others move one place down), else the
    /// next positions are tried.
    pub fn add(&mut self, delta: i32, predecessor: Node, successor: Node, random: &mut Random, Ghost(n): Ghost<int>, Ghost(bound): Ghost<int>)
        requires
            old(self).ok(n),
            0 <= predecessor < n,
            0 <= successor < n,
            -3 * MAX_DISTANCE <= delta <= 3 * MAX_DISTANCE,
            forall|k: int| 0 <= k < N ==> (#[trigger] old(self).items()[k]).delta.counter <= bound,
            0 <= bound < counter_bound(),
        ensures
            final(self).ok(n),
            forall|k: int| 0 <= k < N ==> (#[trigger] final(self).items()[k]).delta.counter <= bound + 1,
            (final(self).items(), final(random).spec_state()) == offer(
                old(self).items(),
                0,
                delta,
                predecessor,
                successor,
                old(random).spec_state(),
            ),
            sorted_insertions(old(self).items()) ==> sorted_insertions(final(self).items()),
    {
        proof {
            if sorted_insertions(self.items()) {
                assert forall|k: int| 0 <= k < self.items().len() implies (#[trigger] self.items()[k]).delta.counter == -1
                    || self.items()[k].delta.counter >= 1 by {
                    assert(insertion_ok(self.items()[k], n));
                }
                lemma_offer_sorted(self.items(), 0, delta, predecessor, successor, random.spec_state());
            }
        }
        let mut i: usize = 0;
        while i < N
            invariant
                offer(self.items(), i as int, delta, predecessor, successor, random.spec_state()) == offer(
                    old(self).items(),
                    0,
                    delta,
                    predecessor,
                    successor,
                    old(random).spec_state(),
                ),
                sorted_insertions(old(self).items()) ==> sorted_insertions(
                    offer(old(self).items(), 0, delta, predecessor, successor, old(random).spec_state()).0,
                ),
                self.ok(n),
                0 <= predecessor < n,
                0 <= successor < n,
                -3 * MAX_DISTANCE <= delta <= 3 * MAX_DISTANCE,
                0 <= bound < counter_bound(),
                forall|k: int| 0 <= k < N ==> (#[trigger] self.items()[k]).delta.counter <= bound + 1,
                forall|k: int| i <= k < N ==> (#[trigger] self.items()[k]).delta.counter <= bound,
                i <= N,
            decreases N - i,
        {
            let cur = self.insertions[i];
            let ghost items0 = self.items();
            let ghost st0 = random.spec_state();
            assert(insertion_ok(self.items()[i as int], n));
            if cur.delta.value == i32::MAX {
                self.insertions.set(i, Insertion { delta: Delta::new(delta, 1), predecessor, successor });
                return;
            } else if delta < cur.delta.value {
                self.shift_down(i);
                self.insertions.set(i, Insertion { delta: Delta::new(delta, 1), predecessor, successor });
                assert(self.items() =~= shifted(items0, i as int).update(
                    i as int,
                    Insertion { delta: Delta { value: delta, counter: 1 }, predecessor, successor },
                ));
                return;
            } else if delta == cur.delta.value && cur.delta.counter != -1 {
                if random.next_int(1, cur.delta.counter + 1) == 1 {
                    self.shift_down(i);
                    let e = self.insertions[i];
                    let c = e.delta.counter + 1;
                    self.insertions.set(i, Insertion { delta: Delta::new(e.delta.value, c), predecessor, successor });
                    assert(self.items() =~= shifted(items0, i as int).update(
                        i as int,
                        Insertion { delta: Delta { value: cur.delta.value, counter: c }, predecessor, successor },
                    ));
                    return;
                } else {
                    let e = self.insertions[i];
                    let c = e.delta.counter + 1;
                    self.insertions.set(i, Insertion { delta: Delta::new(e.delta.value, c), ..e });
                }
            }
            i = i + 1;
        }
    }

    /// Whether every position's slots are below `len`.
    pub fn slots_below(&self, len: usize) -> (r: bool)
        ensures
            r == forall|k: int| 0 <= k < self.items().len() ==> slots_in(#[trigger] self.items()[k], len as int),
    {
        let mut k: usize = 0;
        while k < self.insertions.len()
            invariant
                k <= self.items().len(),
                forall|j: int| 0 <= j < k ==> slots_in(#[trigger] self.items()[j], len as int),
            decreases self.items().len() - k,
        {
            let e = self.insertions[k];
            if e.predecessor < 0 || e.successor < 0 || e.predecessor as usize >= len || e.successor as usize >= len {
                assert(!slots_in(self.items()[k as int], len as int));
                return false;
            }
            k = k + 1;
        }
        true
    }

    /// A copy.
    pub fn duplicate(&self) -> (r: Self)
        ensures
            r.items() == self.items(),
    {
        let mut insertions: Vec<Insertion> = Vec::new();
        let mut k: usize = 0;
        while k < self.insertions.len()
            invariant
                k <= self.items().len(),
                insertions@ == self.items().take(k as int),
            decreases self.items().len() - k,
        {
            insertions.push(self.insertions[k]);
            k = k + 1;
            assert(insertions@ =~= self.items().take(k as int));
        }
        assert(insertions@ =~= self.items());
        BestInsertion { insertions }
    }

    /// The first position.
    pub fn find_best(&self) -> (r: Insertion)
        requires
            self.items().len() == N,
            N > 0,
        ensures
            r == self.items()[0],
    {
        self.insertions[0]
    }

    /// The first recorded position that does not touch `node_index`.
    pub fn find_best_without_node(&self, node_index: Node) -> (r: Option<Insertion>)
        ensures
            r == first_avoiding(self.items(), node_index, 0),
            r is None ==> forall|k: int|
                0 <= k < self.items().len() ==> !avoids(#[trigger] self.items()[k], node_index),
            r matches Some(e) ==> exists|k: int|
                0 <= k < self.items().len() && self.items()[k] == e && avoids(e, node_index) && forall|j: int|
                    0 <= j < k ==> !avoids(#[trigger] self.items()[j], node_index),
    {
        let mut k: usize = 0;
        while k < self.insertions.len()
            invariant
                k <= self.items().len(),
                forall|j: int| 0 <= j < k ==> !avoids(#[trigger] self.items()[j], node_index),
                first_avoiding(self.items(), node_index, k as int) == first_avoiding(self.items(), node_index, 0),
            decreases self.items().len() - k,
        {
            let e = self.insertions[k];
            if e.delta.counter > 0 && e.predecessor != node_index && e.successor != node_index {
                return Some(e);
            }
            k = k + 1;
        }
        None
    }
}

/// `e` is a recorded position that does not touch `node_index`.
pub open spec fn avoids(e: Insertion, node_index: Node) -> bool {
    e.delta.counter > 0 && e.predecessor != node_index && e.successor != node_index
}

/// The first entry of `items` from `k` on that is a recorded position not
/// touching `node_index`.
pub open spec fn first_avoiding(items: Seq<Insertion>, node_index: Node, k: int) -> Option<Insertion>
    decreases items.len() - k,
{
    if k < 0 || k >= items.len() {
        None
    } else if avoids(items[k], node_index) {
        Some(items[k])
    } else {
        first_avoiding(items, node_index, k + 1)
    }
}


/// Every tie counter of `b` is at most `m`.
pub open spec fn counters_at_most(b: BestInsertion<3>, m: int) -> bool {
    forall|j: int| 0 <= j < 3 ==> (#[trigger] b.items()[j]).delta.counter <= m
}

/// The position lists of a route: none yet, or one per node of the
/// instance, each fine for a pool of `n` slots.
pub open spec fn row_ok(row: Seq<BestInsertion<3>>, n: int, num_customers: int) -> bool {
    row.len() == 0 || (row.len() == num_customers && forall|c: int| 0 <= c < num_customers ==> (#[trigger] row[c]).ok(n))
}

/// Cheapest insertion positions of every customer in every route,
/// computed on demand and kept while the route does not change.
#[derive(Debug)]
pub struct StarCaches {
    caches: Vec<Vec<BestInsertion<3>>>,
    routes: Vec<Vec<Node>>,
}

impl StarCaches {
    /// Position lists of each route.
    pub closed spec fn rows(&self) -> Seq<Vec<BestInsertion<3>>> {
        self.caches@
    }

    /// Slots of each route when last saved.
    pub closed spec fn saved(&self) -> Seq<Vec<Node>> {
        self.routes@
    }

    /// Every route's lists are fine for a pool of `n` slots and an
    /// instance of `num_customers` nodes.
    pub open spec fn ok(&self, n: int, num_customers: int) -> bool {
        forall|r: int| 0 <= r < self.rows().len() ==> row_ok((#[trigger] self.rows()[r])@, n, num_customers)
    }

    /// No lists yet.
    pub fn new() -> (r: Self)
        ensures
            r.rows().len() == 0,
            r.saved().len() == 0,
    {
        StarCaches { caches: Vec::new(), routes: Vec::new() }
    }

    /// Computes the position lists of route `route` if it has none: for
    /// every position of the route (walked from its head to the depot, or
    /// for as many steps as there are slots) and every customer, the cost
    /// of inserting the customer there.
    pub fn preprocess(
        &mut self,
        instance: &Instance,
        solution: &AlkaidSolution,
        context: &RouteContext,
        route: Node,
        random: &mut Random,
    )
        requires
            instance.wf(),
            solution.valid_for(instance),
            context.fits(solution),
            0 <= route < context.routes().len(),
            old(self).ok(solution.nodes().len() as int, instance.num_customers as int),
        ensures
            final(self).ok(solution.nodes().len() as int, instance.num_customers as int),
            final(self).rows().len() > route,
            final(self).rows().len() >= old(self).rows().len(),
            final(self).rows()[route as int]@.len() == instance.num_customers,
            forall|r: int|
                0 <= r < old(self).rows().len() && r != route ==> #[trigger] final(self).rows()[r] == old(self).rows()[r],
            route < old(self).rows().len() && old(self).rows()[route as int]@.len() > 0 ==> final(self).rows()[route as int]
                == old(self).rows()[route as int],
            !(route < old(self).rows().len() && old(self).rows()[route as int]@.len() > 0) ==> row_computed(
                final(self).rows()[route as int]@,
                solution,
                instance,
                context.head_of(route as int),
            ),
            final(self).saved() == old(self).saved(),
    {
        let ghost ns = solution.nodes().len() as int;
        let ghost head = context.head_of(route as int);
        let ghost nc = instance.num_customers as int;
        while self.caches.len() <= (route as usize)
            invariant
                0 <= route,
                self.ok(ns, nc),
                self.caches@.len() >= old(self).caches@.len(),
                forall|r: int| 0 <= r < old(self).rows().len() ==> #[trigger] self.rows()[r] == old(self).rows()[r],
                forall|r: int| old(self).rows().len() <= r < self.rows().len() ==> (#[trigger] self.rows()[r])@.len() == 0,
                self.routes@ == old(self).routes@,
            decreases route + 1 - self.caches@.len(),
        {
            let ghost c0 = self.rows();
            self.caches.push(Vec::new());
            proof {
                assert forall|r: int| 0 <= r < self.rows().len() implies row_ok((#[trigger] self.rows()[r])@, ns, nc) by {
                    if r < c0.len() {
                        assert(self.rows()[r] == c0[r]);
                        assert(row_ok(c0[r]@, ns, nc));
                    } else {
                        assert(self.rows()[r]@.len() == 0);
                    }
                }
                assert forall|r: int| 0 <= r < old(self).rows().len() implies #[trigger] self.rows()[r] == old(self).rows()[r] by {
                    assert(self.rows()[r] == c0[r]);
                }
                assert forall|r: int| old(self).rows().len() <= r < self.rows().len() implies (#[trigger] self.rows()[r])@.len() == 0 by {
                    if r < c0.len() {
                        assert(self.rows()[r] == c0[r]);
                    }
                }
            }
        }
        if self.caches[route as usize].len() > 0 {
            assert(row_ok(self.rows()[route as int]@, ns, nc));
            return;
        }
        let n = instance.num_customers;
        let mut row: Vec<BestInsertion<3>> = Vec::new();
        let mut c: Node = 0;
        while c < n
            invariant
                0 <= c <= n,
                row@.len() == c,
                forall|k: int| 0 <= k < c ==> (#[trigger] row@[k]).ok(ns),
                forall|k: int| 0 <= k < c ==> counters_at_most(#[trigger] row@[k], 0),
                ns >= 1,
                forall|k: int| 0 <= k < c ==> #[trigger] row@[k].items() == Seq::new(3, |j: int| empty_insertion()),
            decreases n - c,
        {
            let b = BestInsertion::<3>::new();
            assert(b.items() =~= Seq::new(3, |j: int| empty_insertion()));
            let ghost r0 = row@;
            row.push(b);
            proof {
                assert forall|k: int| 0 <= k < c + 1 implies #[trigger] row@[k].items() == Seq::new(3, |j: int| empty_insertion()) by {
                    if k < c {
                        assert(row@[k] == r0[k]);
                    }
                }
            }
            c = c + 1;
        }
        proof {
            assert forall|k: int| 0 <= k < n implies sorted_insertions((#[trigger] row@[k]).items()) && entries_ok(
                row@[k].items(),
                position_cost(solution, instance, head, k),
            ) by {
                assert(row@[k].items() == Seq::new(3, |j: int| empty_insertion()));
            }
        }
        let len = solution.node_data_len();
        let mut predecessor: Node = 0;
        let mut successor = context.head(route);
        let mut steps: usize = 0;
        loop
            invariant_except_break
                steps < len,
                predecessor as int == cut_at(solution.nodes(), head, steps as int),
                successor as int == walk(solution.nodes(), head, steps as nat),
            invariant
                instance.wf(),
                solution.valid_for(instance),
                ns == solution.nodes().len(),
                nc == instance.num_customers,
                n == instance.num_customers,
                len == ns,
                len <= MAX_SLOTS,
                steps <= len,
                solution.is_slot(predecessor as int),
                solution.is_slot(successor as int),
                row@.len() == n,
                forall|k: int| 0 <= k < n ==> (#[trigger] row@[k]).ok(ns),
                forall|k: int| 0 <= k < n ==> counters_at_most(#[trigger] row@[k], steps as int),
                head == context.head_of(route as int),
                row_computed(row@, solution, instance, head),
            decreases len - steps,
        {
            let pc = solution.customer(predecessor);
            let sc = solution.customer(successor);
            let distance = instance.distance(pc, sc);
            let mut customer: Node = 1;
            while customer < n
                invariant
                    instance.wf(),
                    solution.valid_for(instance),
                    ns == solution.nodes().len(),
                    n == instance.num_customers,
                    1 <= customer <= n,
                    solution.is_slot(predecessor as int),
                    solution.is_slot(successor as int),
                    instance.is_node(pc as int),
                    instance.is_node(sc as int),
                    distance == instance.dist(pc as int, sc as int),
                    steps < len,
                    len <= MAX_SLOTS,
                    row@.len() == n,
                    forall|k: int| 0 <= k < n ==> (#[trigger] row@[k]).ok(ns),
                    forall|k: int| 0 <= k < customer ==> counters_at_most(#[trigger] row@[k], steps + 1),
                    forall|k: int| customer <= k < n ==> counters_at_most(#[trigger] row@[k], steps as int),
                    predecessor as int == cut_at(solution.nodes(), head, steps as int),
                    successor as int == walk(solution.nodes(), head, steps as nat),
                    pc == solution.nodes()[predecessor as int].customer,
                    sc == solution.nodes()[successor as int].customer,
                    row_computed(row@, solution, instance, head),
                decreases n - customer,
            {
                let delta = instance.distance(pc, customer) + instance.distance(sc, customer) - distance;
                let mut b = row[customer as usize].duplicate();
                assert(b.ok(ns));
                let ghost items0 = b.items();
                let ghost st0 = random.spec_state();
                b.add(delta, predecessor, successor, random, Ghost(ns), Ghost(steps as int));
                let ghost r0 = row@;
                row.set(customer as usize, b);
                proof {
                    let pr = position_cost(solution, instance, head, customer as int);
                    assert(pr(delta, predecessor, successor)) by {
                        let t = steps as int;
                        let dd = solution.nodes();
                        assert(walk(dd, head, t as nat) == successor as int);
                        assert(cut_at(dd, head, t) == predecessor as int);
                        assert(cust_of(dd, predecessor as int) == pc);
                        assert(cust_of(dd, successor as int) == sc);
                        assert(delta == instance.dist(cust_of(dd, predecessor as int), customer as int) + instance.dist(
                            cust_of(dd, successor as int),
                            customer as int,
                        ) - instance.dist(cust_of(dd, predecessor as int), cust_of(dd, successor as int)));
                        assert(0 <= t && cut_at(dd, head, t) == predecessor && walk(dd, head, t as nat) == successor && delta
                            == instance.dist(cust_of(dd, predecessor as int), customer as int) + instance.dist(
                            cust_of(dd, successor as int),
                            customer as int,
                        ) - instance.dist(cust_of(dd, predecessor as int), cust_of(dd, successor as int)));
                    }
                    assert(sorted_insertions(items0) && entries_ok(items0, pr));
                    lemma_offer_entries(items0, 0, delta, predecessor, successor, st0, pr);
                    assert(b.items() == offer(items0, 0, delta, predecessor, successor, st0).0);
                    assert forall|k: int| 0 <= k < row@.len() implies sorted_insertions((#[trigger] row@[k]).items()) && entries_ok(
                        row@[k].items(),
                        position_cost(solution, instance, head, k),
                    ) by {
                        if k != customer {
                            assert(row@[k] == r0[k]);
                        }
                    }
                    assert forall|k: int| 0 <= k < n implies (#[trigger] row@[k]).ok(ns) by {
                        if k != customer {
                            assert(row@[k] == r0[k]);
                        }
                    }
                    assert forall|k: int| 0 <= k < customer + 1 implies counters_at_most(#[trigger] row@[k], steps + 1) by {
                        if k != customer {
                            assert(row@[k] == r0[k]);
                        }
                    }
                    assert forall|k: int| customer + 1 <= k < n implies counters_at_most(#[trigger] row@[k], steps as int) by {
                        assert(row@[k] == r0[k]);
                    }
                }
                customer = customer + 1;
            }
            steps = steps + 1;
            if successor == 0 || steps >= len {
                break;
            }
            predecessor = successor;
            successor = solution.successor(successor);
            assert(successor as int == walk(solution.nodes(), head, steps as nat));
        }
        let ghost c1 = self.rows();
        self.caches.set(route as usize, row);
        proof {
            assert forall|r: int| 0 <= r < self.rows().len() implies row_ok((#[trigger] self.rows()[r])@, ns, nc) by {
                if r != route {
                    assert(self.rows()[r] == c1[r]);
                    assert(row_ok(c1[r]@, ns, nc));
                }
            }
            assert forall|r: int| 0 <= r < old(self).rows().len() && r != route implies #[trigger] self.rows()[r] == old(self).rows()[r] by {
                assert(self.rows()[r] == c1[r]);
            }
        }
    }

    /// Position lists of `customer` in route `route_index`.
    pub fn get(&self, route_index: Node, customer: Node) -> (r: &BestInsertion<3>)
        requires
            0 <= route_index < self.rows().len(),
            0 <= customer < self.rows()[route_index as int]@.len(),
        ensures
            *r == self.rows()[route_index as int]@[customer as int],
    {
        let row = &self.caches[route_index as usize];
        &row[customer as usize]
    }
}


/// Whether every position of a route's lists has its slots below `len`.
fn row_fits(row: &Vec<BestInsertion<3>>, len: usize) -> (r: bool)
    ensures
        r == forall|c: int, k: int|
            0 <= c < row@.len() && 0 <= k < row@[c].items().len() ==> slots_in(#[trigger] row@[c].items()[k], len as int),
{
    let mut c: usize = 0;
    while c < row.len()
        invariant
            c <= row@.len(),
            forall|a: int, k: int|
                0 <= a < c && 0 <= k < row@[a].items().len() ==> slots_in(#[trigger] row@[a].items()[k], len as int),
        decreases row@.len() - c,
    {
        if !row[c].slots_below(len) {
            let ghost k = choose|k: int| 0 <= k < row@[c as int].items().len() && !slots_in(row@[c as int].items()[k], len as int);
            assert(!slots_in(row@[c as int].items()[k], len as int));
            return false;
        }
        c = c + 1;
    }
    true
}

impl StarCaches {
    /// Keeps the lists of the routes that are as last saved (and whose
    /// positions are slots of `solution`), drops the others, and holds one
    /// entry per route of `context`.
    pub fn reset(&mut self, solution: &AlkaidSolution, context: &RouteContext, Ghost(m): Ghost<int>, Ghost(nc): Ghost<int>)
        requires
            solution.wf(),
            context.fits(solution),
            old(self).ok(m, nc),
        ensures
            final(self).ok(solution.nodes().len() as int, nc),
            final(self).rows().len() == context.routes().len(),
            final(self).saved() == old(self).saved(),
    {
        let n = context.num_routes() as usize;
        let ghost ns = solution.nodes().len() as int;
        while self.caches.len() > n
            invariant
                self.ok(m, nc),
                self.routes@ == old(self).routes@,
            decreases self.caches@.len(),
        {
            let ghost c0 = self.rows();
            self.caches.pop();
            proof {
                assert forall|r: int| 0 <= r < self.rows().len() implies row_ok((#[trigger] self.rows()[r])@, m, nc) by {
                    assert(self.rows()[r] == c0[r]);
                    assert(row_ok(c0[r]@, m, nc));
                }
            }
        }
        while self.caches.len() < n
            invariant
                self.ok(m, nc),
                self.caches@.len() <= n,
                self.routes@ == old(self).routes@,
            decreases n - self.caches@.len(),
        {
            let ghost c0 = self.rows();
            self.caches.push(Vec::new());
            proof {
                assert forall|r: int| 0 <= r < self.rows().len() implies row_ok((#[trigger] self.rows()[r])@, m, nc) by {
                    if r < c0.len() {
                        assert(self.rows()[r] == c0[r]);
                        assert(row_ok(c0[r]@, m, nc));
                    }
                }
            }
        }
        let len = solution.node_data_len();
        let count = if self.caches.len() < self.routes.len() { self.caches.len() } else { self.routes.len() };
        let mut route_index: usize = 0;
        while route_index < count
            invariant
                solution.wf(),
                context.fits(solution),
                n == context.routes().len(),
                len == ns,
                ns == solution.nodes().len(),
                self.caches@.len() == n,
                count <= n,
                count <= self.routes@.len(),
                self.routes@ == old(self).routes@,
                route_index <= count,
                forall|r: int| 0 <= r < route_index ==> row_ok((#[trigger] self.rows()[r])@, ns, nc),
                forall|r: int| route_index <= r < n ==> row_ok((#[trigger] self.rows()[r])@, m, nc),
            decreases count - route_index,
        {
            let mut same_route = true;
            let mut head = context.head(route_index as Node);
            let saved = &self.routes[route_index];
            let mut k: usize = 0;
            while k < saved.len()
                invariant
                    solution.wf(),
                    solution.is_slot(head as int),
                    k <= saved@.len(),
                decreases saved@.len() - k,
            {
                if head != saved[k] {
                    same_route = false;
                    break;
                }
                head = solution.successor(head);
                k = k + 1;
            }
            if head != 0 {
                same_route = false;
            }
            if same_route && !row_fits(&self.caches[route_index], len) {
                same_route = false;
            }
            let ghost c0 = self.rows();
            if !same_route {
                self.caches.set(route_index, Vec::new());
            }
            proof {
                assert forall|r: int| 0 <= r < route_index + 1 implies row_ok((#[trigger] self.rows()[r])@, ns, nc) by {
                    if r < route_index {
                        assert(self.rows()[r] == c0[r]);
                    } else if same_route {
                        assert(self.rows()[r] == c0[r]);
                        assert(row_ok(c0[r]@, m, nc));
                        let row = c0[r]@;
                        if row.len() > 0 {
                            assert forall|c: int| 0 <= c < nc implies (#[trigger] row[c]).ok(ns) by {
                                assert(row[c].ok(m));
                                assert forall|j: int| 0 <= j < 3 implies insertion_ok(#[trigger] row[c].items()[j], ns) by {
                                    assert(insertion_ok(row[c].items()[j], m));
                                    assert(row[c].items()[j].predecessor < len);
                                }
                            }
                        }
                    }
                }
                assert forall|r: int| route_index + 1 <= r < n implies row_ok((#[trigger] self.rows()[r])@, m, nc) by {
                    assert(self.rows()[r] == c0[r]);
                }
            }
            route_index = route_index + 1;
        }
        while route_index < n
            invariant
                n == context.routes().len(),
                len == ns,
                self.caches@.len() == n,
                count <= route_index <= n,
                forall|r: int| 0 <= r < route_index ==> row_ok((#[trigger] self.rows()[r])@, ns, nc),
                forall|r: int| route_index <= r < n ==> row_ok((#[trigger] self.rows()[r])@, m, nc),
                self.routes@ == old(self).routes@,
            decreases n - route_index,
        {
            let fits = row_fits(&self.caches[route_index], len);
            let ghost c0 = self.rows();
            if !fits {
                self.caches.set(route_index, Vec::new());
            }
            proof {
                assert forall|r: int| 0 <= r < route_index + 1 implies row_ok((#[trigger] self.rows()[r])@, ns, nc) by {
                    if r < route_index {
                        assert(self.rows()[r] == c0[r]);
                    } else if fits {
                        assert(self.rows()[r] == c0[r]);
                        assert(row_ok(c0[r]@, m, nc));
                        let row = c0[r]@;
                        if row.len() > 0 {
                            assert forall|c: int| 0 <= c < nc implies (#[trigger] row[c]).ok(ns) by {
                                assert(row[c].ok(m));
                                assert forall|j: int| 0 <= j < 3 implies insertion_ok(#[trigger] row[c].items()[j], ns) by {
                                    assert(insertion_ok(row[c].items()[j], m));
                                    assert(row[c].items()[j].predecessor < len);
                                }
                            }
                        }
                    }
                }
                assert forall|r: int| route_index + 1 <= r < n implies row_ok((#[trigger] self.rows()[r])@, m, nc) by {
                    assert(self.rows()[r] == c0[r]);
                }
            }
            route_index = route_index + 1;
        }
    }
}


impl StarCaches {
    /// Makes room for route `route_index`.
    pub fn add_route(&mut self, route_index: Node, Ghost(m): Ghost<int>, Ghost(nc): Ghost<int>)
        requires
            0 <= route_index,
            old(self).ok(m, nc),
        ensures
            final(self).ok(m, nc),
            final(self).rows().len() == if route_index < old(self).rows().len() {
                old(self).rows().len() as int
            } else {
                route_index + 1
            },
            forall|r: int| 0 <= r < old(self).rows().len() ==> #[trigger] final(self).rows()[r] == old(self).rows()[r],
            forall|r: int|
                old(self).rows().len() <= r < final(self).rows().len() ==> (#[trigger] final(self).rows()[r])@.len() == 0,
            final(self).saved() == old(self).saved(),
    {
        while self.caches.len() <= (route_index as usize)
            invariant
                0 <= route_index,
                self.ok(m, nc),
                self.caches@.len() >= old(self).caches@.len(),
                self.caches@.len() <= if route_index < old(self).rows().len() {
                    old(self).rows().len() as int
                } else {
                    route_index + 1
                },
                forall|r: int| 0 <= r < old(self).rows().len() ==> #[trigger] self.rows()[r] == old(self).rows()[r],
                forall|r: int|
                    old(self).rows().len() <= r < self.rows().len() ==> (#[trigger] self.rows()[r])@.len() == 0,
                self.routes@ == old(self).routes@,
            decreases route_index + 1 - self.caches@.len(),
        {
            let ghost c0 = self.rows();
            self.caches.push(Vec::new());
            proof {
                assert forall|r: int| 0 <= r < self.rows().len() implies row_ok((#[trigger] self.rows()[r])@, m, nc) by {
                    if r < c0.len() {
                        assert(self.rows()[r] == c0[r]);
                        assert(row_ok(c0[r]@, m, nc));
                    }
                }
                assert forall|r: int| 0 <= r < old(self).rows().len() implies #[trigger] self.rows()[r] == old(self).rows()[r] by {
                    assert(self.rows()[r] == c0[r]);
                }
                assert forall|r: int| old(self).rows().len() <= r < self.rows().len() implies (#[trigger] self.rows()[r])@.len() == 0 by {
                    if r < c0.len() {
                        assert(self.rows()[r] == c0[r]);
                    }
                }
            }
        }
    }

    /// Drops the lists of route `route_index`.
    pub fn remove_route(&mut self, route_index: Node, Ghost(m): Ghost<int>, Ghost(nc): Ghost<int>)
        requires
            0 <= route_index,
            old(self).ok(m, nc),
        ensures
            final(self).ok(m, nc),
            final(self).rows().len() == old(self).rows().len(),
            forall|r: int| 0 <= r < old(self).rows().len() && r != route_index ==> #[trigger] final(self).rows()[r] == old(self).rows()[r],
            route_index < old(self).rows().len() ==> final(self).rows()[route_index as int]@.len() == 0,
            final(self).saved() == old(self).saved(),
    {
        if (route_index as usize) < self.caches.len() {
            let ghost c0 = self.rows();
            self.caches.set(route_index as usize, Vec::new());
            proof {
                assert forall|r: int| 0 <= r < self.rows().len() implies row_ok((#[trigger] self.rows()[r])@, m, nc) by {
                    if r != route_index {
                        assert(self.rows()[r] == c0[r]);
                        assert(row_ok(c0[r]@, m, nc));
                    }
                }
                assert forall|r: int| 0 <= r < old(self).rows().len() && r != route_index implies #[trigger] self.rows()[r] == old(self).rows()[r] by {
                    assert(self.rows()[r] == c0[r]);
                }
            }
        }
    }

    /// Route `dest_route_index` takes the lists of route
    /// `src_route_index`, which is left with none.
    pub fn move_route(&mut self, dest_route_index: Node, src_route_index: Node, Ghost(m): Ghost<int>, Ghost(nc): Ghost<int>)
        requires
            0 <= dest_route_index,
            0 <= src_route_index < old(self).rows().len(),
            old(self).ok(m, nc),
        ensures
            final(self).ok(m, nc),
            rows_moved(old(self).rows(), final(self).rows(), dest_route_index as int, src_route_index as int),
            final(self).saved() == old(self).saved(),
    {
        self.add_route(dest_route_index, Ghost(m), Ghost(nc));
        let ghost c0 = self.rows();
        let row = self.caches.remove(src_route_index as usize);
        self.caches.insert(src_route_index as usize, Vec::new());
        self.caches.set(dest_route_index as usize, row);
        proof {
            assert(row_ok(c0[src_route_index as int]@, m, nc));
            assert forall|r: int| 0 <= r < self.rows().len() implies row_ok((#[trigger] self.rows()[r])@, m, nc) by {
                if r != dest_route_index && r != src_route_index {
                    assert(self.rows()[r] == c0[r]);
                    assert(row_ok(c0[r]@, m, nc));
                }
            }
            assert forall|r: int|
                0 <= r < self.rows().len() && r != src_route_index && r != dest_route_index implies #[trigger] self.rows()[r] == c0[r] by {
            }
        }
    }

    /// Records the slots of every route of `context` (walked from its head
    /// to the depot, or for as many steps as there are slots).
    pub fn save(&mut self, solution: &AlkaidSolution, context: &RouteContext)
        requires
            solution.wf(),
            context.fits(solution),
        ensures
            final(self).rows() == old(self).rows(),
            final(self).saved().len() == context.routes().len(),
            forall|r: int|
                0 <= r < context.routes().len() ==> (#[trigger] final(self).saved()[r])@ == walk_slots(
                    solution.nodes(),
                    context.routes()[r].head as int,
                    solution.nodes().len(),
                ),
    {
        let n = context.num_routes() as usize;
        while self.routes.len() > n
            invariant
                self.caches@ == old(self).caches@,
            decreases self.routes@.len(),
        {
            self.routes.pop();
        }
        while self.routes.len() < n
            invariant
                self.caches@ == old(self).caches@,
                self.routes@.len() <= n,
            decreases n - self.routes@.len(),
        {
            self.routes.push(Vec::new());
        }
        let len = solution.node_data_len();
        let mut route_index: usize = 0;
        while route_index < n
            invariant
                solution.wf(),
                context.fits(solution),
                n == context.routes().len(),
                len == solution.nodes().len(),
                self.caches@ == old(self).caches@,
                self.routes@.len() == n,
                route_index <= n,
                forall|r: int|
                    0 <= r < route_index ==> (#[trigger] self.routes@[r])@ == walk_slots(
                        solution.nodes(),
                        context.routes()[r].head as int,
                        len as nat,
                    ),
            decreases n - route_index,
        {
            let mut route: Vec<Node> = Vec::new();
            let mut node = context.head(route_index as Node);
            let ghost head = node as int;
            while node != 0 && route.len() < len
                invariant
                    solution.wf(),
                    solution.is_slot(node as int),
                    route@.len() <= len,
                    len == solution.nodes().len(),
                    route@ + walk_slots(solution.nodes(), node as int, (len - route@.len()) as nat) == walk_slots(
                        solution.nodes(),
                        head,
                        len as nat,
                    ),
                decreases len - route@.len(),
            {
                let ghost r0 = route@;
                let ghost f = (len - route@.len()) as nat;
                let next = solution.successor(node);
                assert(walk_slots(solution.nodes(), node as int, f) == seq![node] + walk_slots(
                    solution.nodes(),
                    next as int,
                    (f - 1) as nat,
                ));
                route.push(node);
                node = next;
                assert(route@ + walk_slots(solution.nodes(), node as int, (len - route@.len()) as nat) =~= r0 + (seq![
                    route@.last()] + walk_slots(solution.nodes(), node as int, (f - 1) as nat)));
            }
            assert(route@ + walk_slots(solution.nodes(), node as int, (len - route@.len()) as nat) =~= route@);
            let ghost s0 = self.routes@;
            self.routes.set(route_index, route);
            assert forall|r: int| 0 <= r < route_index + 1 implies (#[trigger] self.routes@[r])@ == walk_slots(
                solution.nodes(),
                context.routes()[r].head as int,
                len as nat,
            ) by {
                if r < route_index {
                    assert(self.routes@[r] == s0[r]);
                }
            }
            route_index = route_index + 1;
        }
    }
}


/// The lists stay fine when the pool of slots grows.
pub proof fn lemma_star_ok_grow(c: &StarCaches, len: int, len2: int, nc: int)
    requires
        c.ok(len, nc),
        len <= len2,
    ensures
        c.ok(len2, nc),
{
    assert forall|r: int| 0 <= r < c.rows().len() implies row_ok((#[trigger] c.rows()[r])@, len2, nc) by {
        let row = c.rows()[r]@;
        assert(row_ok(row, len, nc));
        if row.len() > 0 {
            assert forall|k: int| 0 <= k < nc implies (#[trigger] row[k]).ok(len2) by {
                assert(row[k].ok(len));
                assert forall|j: int| 0 <= j < 3 implies insertion_ok(#[trigger] row[k].items()[j], len2) by {
                    assert(insertion_ok(row[k].items()[j], len));
                }
            }
        }
    }
}

} // verus!
