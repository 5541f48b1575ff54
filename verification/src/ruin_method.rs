//! Choice of the customers removed before reinsertion, and route walks
//! used by string removal.
use vstd::prelude::*;
use crate::instance::{Instance, Node};
use crate::intra_operator::back_walk;
use crate::random::{Random, next_int_spec, shuffle_spec};
use crate::route_context::RouteContext;
use crate::solution::{AlkaidSolution, walk, is_route, route_length, route_seq, pred_of};

verus! {

/// A strategy that picks customers to remove.
pub trait RuinMethod {
    /// The strategy is set up to pick customers.
    spec fn ruin_ok(&self) -> bool;

    /// Customers to remove and reinsert; each is a customer of the
    /// instance (not the depot).
    fn ruin(
        &mut self,
        instance: &Instance,
        solution: &AlkaidSolution,
        context: &RouteContext,
        random: &mut Random,
    ) -> (r: Vec<Node>)
        requires
            instance.wf(),
            old(self).ruin_ok(),
        ensures
            final(self).ruin_ok(),
            forall|k: int| 0 <= k < r@.len() ==> 1 <= #[trigger] r@[k] < instance.num_customers,
    ;
}

/// Customers `1..n`, in order.
pub open spec fn customer_range(n: int) -> Seq<Node> {
    Seq::new((if n > 1 { n - 1 } else { 0 }) as nat, |i: int| (i + 1) as Node)
}

/// Removes a random number of random customers: the number is drawn from
/// the given sizes, the customers from a shuffle of all of them.
#[derive(Debug, Clone)]
pub struct RandomRuin {
    num_perturb_customers: Vec<i32>,
}

impl RandomRuin {
    /// Possible numbers of customers to remove.
    pub closed spec fn sizes(&self) -> Seq<i32> {
        self.num_perturb_customers@
    }

    /// A ruin method drawing its size among `num_perturb_customers`.
    pub fn new(num_perturb_customers: Vec<i32>) -> (r: Self)
        ensures
            r.sizes() == num_perturb_customers@,
    {
        RandomRuin { num_perturb_customers }
    }
}

/// Customers picked by a random ruin from state `s`: the size is drawn
/// first, then all customers are shuffled and the first `size` kept (all
/// of them when the size is negative or too large).
pub open spec fn random_ruin_spec(s: crate::random::RandomState, sizes: Seq<i32>, n: int) -> (Seq<Node>, crate::random::RandomState) {
    let d = next_int_spec(s, 0, sizes.len() - 1);
    let num = sizes[d.0] as int;
    let all = customer_range(n);
    let sh = shuffle_spec(d.1, all, all.len() - 1);
    (if 0 <= num < sh.0.len() { sh.0.take(num) } else { sh.0 }, sh.1)
}

impl RuinMethod for RandomRuin {
    open spec fn ruin_ok(&self) -> bool {
        1 <= self.sizes().len() <= i32::MAX
    }

    fn ruin(
        &mut self,
        instance: &Instance,
        solution: &AlkaidSolution,
        context: &RouteContext,
        random: &mut Random,
    ) -> (r: Vec<Node>)
        ensures
            final(self).sizes() == old(self).sizes(),
            (r@, final(random).spec_state()) == random_ruin_spec(
                old(random).spec_state(),
                old(self).sizes(),
                instance.num_customers as int,
            ),
    {
        let position = random.next_int(0, self.num_perturb_customers.len() as i32 - 1) as usize;
        let num_perturb = self.num_perturb_customers[position];
        let n = instance.num_customers;
        let mut customers: Vec<Node> = Vec::new();
        let mut c: Node = 1;
        while c < n
            invariant
                1 <= c <= n,
                n >= 1,
                customers@ == customer_range(c as int),
            decreases n - c,
        {
            customers.push(c);
            c = c + 1;
            assert(customers@ =~= customer_range(c as int));
        }
        assert(customers@ =~= customer_range(n as int));
        let ghost all = customers@;
        random.shuffle(&mut customers);
        proof {
            assert forall|k: int| 0 <= k < all.len() implies 1 <= #[trigger] all[k] < n by {}
            vstd::seq_lib::to_multiset_contains(all, all[0]);
        }
        if num_perturb >= 0 && (num_perturb as usize) < customers.len() {
            customers.truncate(num_perturb as usize);
        }
        proof {
            let res = customers@;
            assert forall|k: int| 0 <= k < res.len() implies 1 <= #[trigger] res[k] < instance.num_customers by {
                let full = shuffle_spec(
                    next_int_spec(old(random).spec_state(), 0, self.sizes().len() - 1).1,
                    all,
                    all.len() - 1,
                ).0;
                assert(res[k] == full[k]);
                assert(full.to_multiset() == all.to_multiset());
                vstd::seq_lib::to_multiset_contains(full, full[k]);
                vstd::seq_lib::to_multiset_contains(all, full[k]);
                assert(full.contains(full[k]));
                let q = choose|q: int| 0 <= q < all.len() && all[q] == full[k];
            }
        }
        customers
    }
}

/// Head of the route of `node_index` (following predecessors back from
/// it) and the position of `node_index` in that route. The walk stops at a
/// slot whose predecessor is the depot, or after as many steps as there
/// are slots.
pub fn get_route_head(solution: &AlkaidSolution, node_index: Node) -> (r: (Node, i32))
    requires
        solution.wf(),
        solution.is_slot(node_index as int),
    ensures
        solution.is_slot(r.0 as int),
        0 <= r.1 <= solution.nodes().len(),
        r.0 == back_walk(solution.nodes(), node_index as int, r.1 as nat),
        r.1 < solution.nodes().len() ==> pred_of(solution.nodes(), r.0 as int) == 0,
        forall|k: nat| k < r.1 ==> pred_of(solution.nodes(), #[trigger] back_walk(solution.nodes(), node_index as int, k)) != 0,
{
    let len = solution.node_data_len();
    let mut position: i32 = 0;
    let mut current = node_index;
    while (position as usize) < len
        invariant
            solution.wf(),
            len == solution.nodes().len(),
            len <= 32768,
            solution.is_slot(current as int),
            0 <= position <= len,
            current == back_walk(solution.nodes(), node_index as int, position as nat),
            forall|k: nat| k < position ==> pred_of(solution.nodes(), #[trigger] back_walk(solution.nodes(), node_index as int, k)) != 0,
        decreases len - position,
    {
        let predecessor = solution.predecessor(current);
        if predecessor == 0 {
            return (current, position);
        }
        current = predecessor;
        position = position + 1;
    }
    (current, position)
}

/// Slots of the route starting at `head`, in order (at most as many as
/// there are slots).
pub fn get_route(solution: &AlkaidSolution, head: Node) -> (r: Vec<Node>)
    requires
        solution.wf(),
        solution.is_slot(head as int),
    ensures
        r@.len() < solution.nodes().len() || !is_route(solution.nodes(), head as int),
        forall|k: int| 0 <= k < r@.len() ==> #[trigger] r@[k] == walk(solution.nodes(), head as int, k as nat),
        is_route(solution.nodes(), head as int) ==> r@ == route_seq(solution.nodes(), head as int),
{
    let ghost d = solution.nodes();
    let len = solution.node_data_len();
    let mut route: Vec<Node> = Vec::new();
    let mut current = head;
    while current != 0 && route.len() < len
        invariant
            solution.wf(),
            d == solution.nodes(),
            len == d.len(),
            solution.is_slot(current as int),
            route@.len() <= len,
            current == walk(d, head as int, route@.len() as nat),
            forall|k: int| 0 <= k < route@.len() ==> #[trigger] route@[k] == walk(d, head as int, k as nat),
            forall|k: nat| k < route@.len() ==> #[trigger] walk(d, head as int, k) != 0,
        decreases len - route@.len(),
    {
        route.push(current);
        current = solution.successor(current);
    }
    proof {
        if is_route(d, head as int) {
            let n = route_length(d, head as int);
            assert(crate::solution::route_len_is(d, head as int, n));
            if route@.len() < n {
                assert(walk(d, head as int, route@.len() as nat) != 0);
                assert(current == 0);
            } else if route@.len() > n {
                assert(walk(d, head as int, n) == 0);
                assert(route@[n as int] == walk(d, head as int, n));
            }
            assert(route@.len() == n);
            assert(route@ =~= route_seq(d, head as int));
        }
    }
    route
}

} // verus!
