//! Insertion positions with their costs, best insertion in a route, and the
//! fleet lower bound.
use vstd::prelude::*;
use crate::delta::{Delta, DeltaValue, bumped};
use crate::instance::{Instance, Node};
use crate::random::{Random, next_int_spec};
use crate::route_context::RouteContext;
use crate::solution::{AlkaidSolution, walk, is_route, route_length};

verus! {

/// An insertion position (between `predecessor` and `successor` of route
/// `route_index`) with its cost.
#[derive(Debug, Clone, Copy)]
pub struct InsertionWithCost<T> {
    /// Slot after which to insert.
    pub predecessor: Node,
    /// Slot before which to insert.
    pub successor: Node,
    /// Route of the insertion.
    pub route_index: Node,
    /// Cost of the insertion.
    pub cost: Delta<T>,
}

impl<T: DeltaValue> Default for InsertionWithCost<T> {
    fn default() -> (r: Self)
        ensures
            r.predecessor == 0,
            r.successor == 0,
            r.route_index == 0,
            r.cost.value.as_int() == 0,
            r.cost.counter == -1,
    {
        InsertionWithCost { predecessor: 0, successor: 0, route_index: 0, cost: Delta::default() }
    }
}

impl<T: DeltaValue> InsertionWithCost<T> {
    /// Takes over `insertion` when its cost wins `Delta::update_from`.
    pub fn update(&mut self, insertion: &InsertionWithCost<T>, random: &mut Random) -> (r: bool)
        requires
            old(self).cost.wf(),
            insertion.cost.wf(),
            insertion.cost.value.as_int() == old(self).cost.value.as_int() && old(self).cost.counter != -1
                ==> insertion.cost.counter >= 1,
        ensures
            final(self).cost.wf(),
            r ==> final(self).predecessor == insertion.predecessor && final(self).successor
                == insertion.successor && final(self).route_index == insertion.route_index,
            !r ==> final(self).predecessor == old(self).predecessor && final(self).successor
                == old(self).successor && final(self).route_index == old(self).route_index,
            insertion.cost.value.as_int() < old(self).cost.value.as_int() ==> r
                && final(self).cost == insertion.cost,
            insertion.cost.value.as_int() > old(self).cost.value.as_int() ==> !r
                && final(self).cost == old(self).cost,
            final(self).cost.value.as_int() <= old(self).cost.value.as_int(),
            insertion.cost.value.as_int() < old(self).cost.value.as_int() ==> final(random).spec_state() == old(
                random,
            ).spec_state(),
            insertion.cost.value.as_int() == old(self).cost.value.as_int() && old(self).cost.counter != -1 ==> {
                let c = bumped(old(self).cost.counter as int, insertion.cost.counter as int);
                let d = next_int_spec(old(random).spec_state(), 1, c);
                &&& final(self).cost.value == old(self).cost.value
                &&& final(self).cost.counter == c
                &&& r == (d.0 <= insertion.cost.counter)
                &&& final(random).spec_state() == d.1
            },
            !(insertion.cost.value.as_int() < old(self).cost.value.as_int()) && !(insertion.cost.value.as_int()
                == old(self).cost.value.as_int() && old(self).cost.counter != -1) ==> {
                &&& !r
                &&& *final(self) == *old(self)
                &&& final(random).spec_state() == old(random).spec_state()
            },
    {
        if self.cost.update_from(&insertion.cost, random) {
            self.predecessor = insertion.predecessor;
            self.successor = insertion.successor;
            self.route_index = insertion.route_index;
            true
        } else {
            false
        }
    }
}

/// Sum of the demands of nodes `1..k`.
pub open spec fn demand_upto(inst: &Instance, k: int) -> int
    decreases k,
{
    if k <= 1 {
        0
    } else {
        demand_upto(inst, k - 1) + inst.demand_of(k - 1)
    }
}

/// Total demand of the customers.
pub open spec fn total_demand(inst: &Instance) -> int {
    demand_upto(inst, inst.num_customers as int)
}

/// Lower bound on the number of vehicles: total demand divided by the
/// capacity, rounded up.
pub open spec fn fleet_lower_bound(inst: &Instance) -> int {
    (total_demand(inst) + inst.capacity - 1) / (inst.capacity as int)
}

proof fn lemma_demand_upto_mono(inst: &Instance, a: int, b: int)
    requires
        inst.wf(),
        a <= b <= inst.num_customers,
    ensures
        0 <= demand_upto(inst, a) <= demand_upto(inst, b),
    decreases b - a,
{
    if a < b {
        lemma_demand_upto_mono(inst, a, b - 1);
        if b > 1 {
            assert(0 <= inst.demand_of(b - 1));
        }
    } else {
        lemma_demand_nonneg(inst, a);
    }
}

proof fn lemma_demand_nonneg(inst: &Instance, a: int)
    requires
        inst.wf(),
        a <= inst.num_customers,
    ensures
        0 <= demand_upto(inst, a),
    decreases a,
{
    if a > 1 {
        lemma_demand_nonneg(inst, a - 1);
        assert(0 <= inst.demand_of(a - 1));
    }
}

/// Lower bound on the number of vehicles (truncated to a `Node`).
pub fn calc_fleet_lower_bound(instance: &Instance) -> (r: Node)
    requires
        instance.wf(),
        total_demand(instance) + instance.capacity <= i32::MAX,
    ensures
        r == #[verifier::truncate] (fleet_lower_bound(instance) as Node),
{
    let n = instance.num_customers;
    let mut sum: i32 = 0;
    let mut i: Node = 1;
    while i < n
        invariant
            instance.wf(),
            n == instance.num_customers,
            1 <= i <= n,
            sum == demand_upto(instance, i as int),
            total_demand(instance) + instance.capacity <= i32::MAX,
        decreases n - i,
    {
        proof {
            lemma_demand_upto_mono(instance, i + 1, n as int);
        }
        sum = sum + instance.demand(i);
        i = i + 1;
    }
    proof {
        lemma_demand_nonneg(instance, n as int);
    }
    let q = (sum + instance.capacity - 1) / instance.capacity;
    #[verifier::truncate]
    (q as Node)
}

/// Slot positions where `customer` can be inserted in the route starting
/// at `head`: before the head (predecessor 0), or after any slot `x` of the
/// route (between `x` and its successor).
pub open spec fn insertion_position(sol: &AlkaidSolution, head: int, p: int, s: int) -> bool {
    ||| (p == 0 && s == head)
    ||| exists|k: nat|
        #![trigger walk(sol.nodes(), head, k)]
        k < sol.nodes().len() && walk(sol.nodes(), head, k) == p && p != 0 && s == sol.nodes()[p].successor
            && forall|j: nat| j <= k ==> #[trigger] walk(sol.nodes(), head, j) != 0
}

/// Best position to insert `customer` in route `route_index`, by the cost
/// `func(predecessor, successor, customer)`; ties are broken at random.
/// The route is walked to the depot, or for as many steps as there are
/// slots.
pub fn calc_best_insertion<T: DeltaValue, F: Fn(Node, Node, Node) -> T>(
    solution: &AlkaidSolution,
    func: F,
    context: &RouteContext,
    route_index: Node,
    customer: Node,
    random: &mut Random,
) -> (r: InsertionWithCost<T>)
    requires
        solution.wf(),
        context.fits(solution),
        0 <= route_index < context.routes().len(),
        forall|p: Node, s: Node|
            solution.is_slot(p as int) && solution.is_slot(s as int) ==> call_requires(func, (p, s, customer)),
    ensures
        r.route_index == route_index,
        r.cost.counter >= 1,
        solution.is_slot(r.predecessor as int),
        solution.is_slot(r.successor as int),
        call_ensures(func, (r.predecessor, r.successor, customer), r.cost.value),
        insertion_position(solution, context.head_of(route_index as int), r.predecessor as int, r.successor as int),
        ({
            let d = solution.nodes();
            let h = context.head_of(route_index as int);
            is_route(d, h) ==> {
                &&& exists|v: T| #[trigger] call_ensures(func, (0 as Node, h as Node, customer), v) && r.cost.value.as_int() <= v.as_int()
                &&& forall|k: nat|
                    k < route_length(d, h) ==> exists|v: T|
                        #[trigger] call_ensures(func, (#[trigger] walk(d, h, k) as Node, d[walk(d, h, k)].successor, customer), v)
                            && r.cost.value.as_int() <= v.as_int()
            }
        }),
{
    let head = context.head(route_index);
    let head_cost = func(0, head, customer);
    let mut best = InsertionWithCost { predecessor: 0, successor: head, route_index, cost: Delta::new(head_cost, 1) };
    let ghost d = solution.nodes();
    let ghost h = head as int;
    let ghost good = is_route(d, h);
    let ghost n = route_length(d, h);
    let mut node_index = head;
    let len = solution.node_data_len();
    let mut steps: usize = 0;
    while node_index != 0 && steps < len
        invariant
            solution.wf(),
            d == solution.nodes(),
            len == d.len(),
            h == head,
            solution.is_slot(head as int),
            solution.is_slot(node_index as int),
            node_index == walk(d, h, steps as nat),
            steps <= len,
            best.route_index == route_index,
            best.cost.counter >= 1,
            solution.is_slot(best.predecessor as int),
            solution.is_slot(best.successor as int),
            call_ensures(func, (best.predecessor, best.successor, customer), best.cost.value),
            insertion_position(solution, h, best.predecessor as int, best.successor as int),
            forall|p: Node, s: Node|
                solution.is_slot(p as int) && solution.is_slot(s as int) ==> call_requires(func, (p, s, customer)),
            exists|v: T| #[trigger] call_ensures(func, (0 as Node, h as Node, customer), v) && best.cost.value.as_int() <= v.as_int(),
            forall|k: nat|
                k < steps ==> exists|v: T|
                    #[trigger] call_ensures(func, (#[trigger] walk(d, h, k) as Node, d[walk(d, h, k)].successor, customer), v)
                        && best.cost.value.as_int() <= v.as_int(),
            forall|k: nat| k < steps ==> walk(d, h, k) != 0,
            good ==> route_len_is_at(d, h, n),
        decreases len - steps,
    {
        let successor = solution.successor(node_index);
        let cost = func(node_index, successor, customer);
        let ghost old_best = best;
        if best.cost.update(cost, random) {
            best.predecessor = node_index;
            best.successor = successor;
            proof {
                T::lemma_as_int_injective(best.cost.value, cost);
            }
        }
        proof {
            assert(old_best.cost.value.as_int() >= best.cost.value.as_int());
            assert(insertion_position(solution, h, node_index as int, successor as int)) by {
                assert(walk(d, h, steps as nat) == node_index);
                assert(forall|j: nat| j <= steps ==> #[trigger] walk(d, h, j) != 0);
            }
            assert forall|k: nat| k < steps + 1 implies exists|v: T|
                #[trigger] call_ensures(func, (#[trigger] walk(d, h, k) as Node, d[walk(d, h, k)].successor, customer), v)
                    && best.cost.value.as_int() <= v.as_int() by {
                if k == steps {
                    assert(call_ensures(func, (walk(d, h, k) as Node, d[walk(d, h, k)].successor, customer), cost));
                }
            }
        }
        node_index = successor;
        steps = steps + 1;
    }
    proof {
        if good {
            assert(route_len_is_at(d, h, n));
            if node_index != 0 {
                assert(walk(d, h, n) == 0);
            }
            assert(steps >= n) by {
                if steps < n {
                    assert(walk(d, h, steps as nat) != 0);
                }
            }
        }
    }
    best
}

/// `head` starts a route of exactly `n < d.len()` slots.
pub open spec fn route_len_is_at(d: Seq<crate::solution::NodeData>, head: int, n: nat) -> bool {
    n < d.len() && crate::solution::route_len_is(d, head, n)
}

} // verus!
