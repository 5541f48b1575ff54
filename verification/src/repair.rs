//! Repair of a route: merges the visits of a route to the same customer.
use vstd::prelude::*;
use std::collections::HashMap;
use crate::chain::{chain, sol_chain, lemma_chain_frame, lemma_sol_chain_route, loads_ok, cust_load, chain_load, distinct_customers, first_of, lemma_merge_step, lemma_swap_remove_keeps, same_links, link_at};
use crate::instance::{Instance, Node};
use crate::inter_operator::{loads_nonneg, delivered, lemma_delivered_set_load, lemma_delivered_remove, lemma_delivered_same};
use crate::route_context::RouteContext;
use crate::solution::{AlkaidSolution, NodeData, cust_of, load_of, linked, is_route, route_seq, route_length, route_len_is, walk, pred_of};

verus! {

broadcast use vstd::std_specs::hash::group_hash_axioms;

/// No two neighbouring slots of `r` serve the same customer.
pub open spec fn adjacent_distinct(d: Seq<NodeData>, r: Seq<Node>) -> bool {
    forall|a: int| 0 <= a < r.len() - 1 ==> cust_of(d, #[trigger] r[a] as int) != cust_of(d, r[a + 1] as int)
}

/// Cost change of taking slot `node_index` out of its position.
fn calc_removal_delta(instance: &Instance, solution: &AlkaidSolution, node_index: Node) -> (r: i32)
    requires
        instance.wf(),
        solution.valid_for(instance),
        solution.is_slot(node_index as int),
    ensures
        r == solution.removal_cost(instance, node_index as int),
{
    let predecessor = solution.predecessor(node_index);
    let successor = solution.successor(node_index);
    instance.distance(solution.customer(predecessor), solution.customer(successor)) - instance.distance(
        solution.customer(predecessor),
        solution.customer(node_index),
    ) - instance.distance(solution.customer(node_index), solution.customer(successor))
}

/// Of two visits `earlier` and `later` of one customer, the one to keep
/// and the one to remove: the visit removed is one whose removal lowers
/// the cost at least as much as removing the other would (so the route
/// after the merge costs no more than after removing the other visit);
/// on a tie the earlier visit is kept.
pub fn visit_to_keep(instance: &Instance, solution: &AlkaidSolution, earlier: Node, later: Node) -> (r: (Node, Node))
    requires
        instance.wf(),
        solution.valid_for(instance),
        solution.is_slot(earlier as int),
        solution.is_slot(later as int),
    ensures
        (r.0 == earlier && r.1 == later) || (r.0 == later && r.1 == earlier),
        solution.removal_cost(instance, r.1 as int) <= solution.removal_cost(instance, r.0 as int),
        solution.removal_cost(instance, earlier as int) == solution.removal_cost(instance, later as int) ==> r.0
            == earlier,
{
    let last_node_index = earlier;
    let node_index = later;
    if calc_removal_delta(instance, solution, last_node_index) < calc_removal_delta(instance, solution, node_index) {
        (node_index, last_node_index)
    } else {
        (last_node_index, node_index)
    }
}

/// Merges the load of `remove_node` into `keep` and removes `remove_node`
/// from the solution; `remove_node` is `r[j]` and `keep` is `r[i]`.
fn merge_into(solution: &mut AlkaidSolution, keep: Node, remove_node: Node, Ghost(r): Ghost<Seq<Node>>, Ghost(i): Ghost<int>, Ghost(j): Ghost<int>)
    requires
        old(solution).wf(),
        sol_chain(old(solution), r),
        loads_ok(old(solution).nodes(), r),
        0 <= i < r.len(),
        0 <= j < r.len(),
        i != j,
        r[i] == keep,
        r[j] == remove_node,
        cust_of(old(solution).nodes(), keep as int) == cust_of(old(solution).nodes(), remove_node as int),
    ensures
        final(solution).wf(),
        sol_chain(final(solution), r.remove(j)),
        loads_ok(final(solution).nodes(), r.remove(j)),
        forall|c: int| #[trigger] cust_load(final(solution).nodes(), r.remove(j), c) == cust_load(old(solution).nodes(), r, c),
        chain_load(final(solution).nodes(), r.remove(j)) == chain_load(old(solution).nodes(), r),
        forall|k: int| 0 <= k < r.remove(j).len() ==> cust_of(final(solution).nodes(), #[trigger] r.remove(j)[k] as int)
            == cust_of(old(solution).nodes(), r.remove(j)[k] as int),
        final(solution).nodes().len() == old(solution).nodes().len(),
        forall|n: int| 0 <= n < old(solution).nodes().len() ==> (#[trigger] final(solution).nodes()[n]).customer == old(solution).nodes()[n].customer,
        final(solution).nodes()[0].successor == if j == 0 && r.len() > 1 { r[1] } else if j == 0 { 0 } else { old(solution).nodes()[0].successor },
        loads_nonneg(old(solution)) ==> loads_nonneg(final(solution)),
        forall|c: int| #[trigger] delivered(final(solution), c) == delivered(old(solution), c),
{
    let ghost d = solution.nodes();
    proof {
        crate::chain::lemma_seq_sum_two(crate::chain::load_vals(d, r), i, j);
        assert(chain(d, r));
    }
    let combined = solution.load(keep) + solution.load(remove_node);
    proof {
        assert(0 <= load_of(d, r[i] as int) && 0 <= load_of(d, r[j] as int));
    }
    let ghost s0 = *solution;
    solution.set_load(keep, combined);
    let ghost s1 = *solution;
    proof {
        assert(s0.used().contains(r[i]));
        lemma_delivered_set_load(&s0, &s1, keep, combined);
    }
    let ghost d1 = solution.nodes();
    proof {
        if loads_nonneg(old(solution)) {
            assert forall|n: int| 0 <= n < d1.len() implies 0 <= (#[trigger] d1[n]).load by {
                if n != keep as int {
                    assert(d1[n] == d[n]);
                }
            }
        }
    }
    let ghost u1 = solution.used();
    proof {
        assert(u1.contains(remove_node));
    }
    solution.remove(remove_node);
    proof {
        assert(s1.used().contains(r[j]));
        lemma_delivered_remove(&s1, solution, remove_node);
        let d2 = solution.nodes();
        if loads_nonneg(old(solution)) {
            assert forall|n: int| 0 <= n < d2.len() implies 0 <= (#[trigger] d2[n]).load by {
                assert(0 <= d1[n].load);
            }
        }
        assert(same_links(linked(d1, d1[remove_node as int].predecessor, d1[remove_node as int].successor), d2));
        lemma_merge_step(d, d1, d2, r, i, j);
        let r2 = r.remove(j);
        assert forall|k: int| 0 <= k < r2.len() implies solution.used().contains(#[trigger] r2[k]) by {
            let k0 = if k < j { k } else { k + 1 };
            assert(r2[k] == r[k0]);
            assert(r[k0] != r[j]);
            let pos = d1[remove_node as int].index_in_used_nodes as int;
            assert(u1[pos] == remove_node);
            lemma_swap_remove_keeps(u1, pos, r2[k]);
        }
        if j == 0 {
            assert(d[remove_node as int].predecessor == 0);
            if r.len() > 1 {
                assert(crate::chain::link_at(d, r, 0));
            }
        } else {
            assert(crate::chain::link_at(d, r, j - 1));
        }
    }
}

/// Merges neighbouring slots of route `route_index` that serve the same
/// customer.
fn merge_adjacent_same_customers(
    instance: &Instance,
    route_index: Node,
    solution: &mut AlkaidSolution,
    context: &RouteContext,
    Ghost(r0): Ghost<Seq<Node>>,
) -> (res: Ghost<Seq<Node>>)
    requires
        old(solution).wf(),
        context.fits(old(solution)),
        0 <= route_index < context.routes().len(),
        sol_chain(old(solution), r0),
        r0.len() > 0,
        first_of(r0) == context.head_of(route_index as int),
        loads_ok(old(solution).nodes(), r0),
    ensures
        final(solution).wf(),
        sol_chain(final(solution), res@),
        res@.len() > 0,
        res@.len() <= r0.len(),
        first_of(res@) == first_of(r0),
        loads_ok(final(solution).nodes(), res@),
        adjacent_distinct(final(solution).nodes(), res@),
        forall|c: int| #[trigger] cust_load(final(solution).nodes(), res@, c) == cust_load(old(solution).nodes(), r0, c),
        chain_load(final(solution).nodes(), res@) == chain_load(old(solution).nodes(), r0),
        final(solution).nodes().len() == old(solution).nodes().len(),
        forall|n: int| 0 <= n < old(solution).nodes().len() ==> (#[trigger] final(solution).nodes()[n]).customer == old(solution).nodes()[n].customer,
        final(solution).nodes()[0].successor == old(solution).nodes()[0].successor,
        loads_nonneg(old(solution)) ==> loads_nonneg(final(solution)),
        forall|c: int| #[trigger] delivered(final(solution), c) == delivered(old(solution), c),
{
    let ghost mut r = r0;
    let ghost mut i: int = 0;
    let mut node_index = context.head(route_index);
    loop
        invariant
            solution.wf(),
            sol_chain(solution, r),
            loads_ok(solution.nodes(), r),
            0 <= i < r.len(),
            r.len() <= r0.len(),
            r[0] == r0[0],
            node_index == r[i],
            adjacent_distinct(solution.nodes(), r.subrange(0, i + 1)),
            forall|c: int| #[trigger] cust_load(solution.nodes(), r, c) == cust_load(old(solution).nodes(), r0, c),
            chain_load(solution.nodes(), r) == chain_load(old(solution).nodes(), r0),
            solution.nodes().len() == old(solution).nodes().len(),
            forall|n: int| 0 <= n < old(solution).nodes().len() ==> (#[trigger] solution.nodes()[n]).customer == old(solution).nodes()[n].customer,
            solution.nodes()[0].successor == old(solution).nodes()[0].successor,
            loads_nonneg(old(solution)) ==> loads_nonneg(solution),
            forall|c: int| #[trigger] delivered(solution, c) == delivered(old(solution), c),
        ensures
            solution.wf(),
            sol_chain(solution, r),
            loads_ok(solution.nodes(), r),
            r.len() > 0,
            r.len() <= r0.len(),
            r[0] == r0[0],
            adjacent_distinct(solution.nodes(), r),
            forall|c: int| #[trigger] cust_load(solution.nodes(), r, c) == cust_load(old(solution).nodes(), r0, c),
            chain_load(solution.nodes(), r) == chain_load(old(solution).nodes(), r0),
            solution.nodes().len() == old(solution).nodes().len(),
            forall|n: int| 0 <= n < old(solution).nodes().len() ==> (#[trigger] solution.nodes()[n]).customer == old(solution).nodes()[n].customer,
            solution.nodes()[0].successor == old(solution).nodes()[0].successor,
            loads_nonneg(old(solution)) ==> loads_nonneg(solution),
            forall|c: int| #[trigger] delivered(solution, c) == delivered(old(solution), c),
        decreases r.len() - i,
    {
        proof {
            assert(0 < r[i] < solution.nodes().len());
        }
        let successor = solution.successor(node_index);
        proof {
            if i < r.len() - 1 {
                assert(crate::chain::link_at(solution.nodes(), r, i));
            }
        }
        if successor == 0 {
            proof {
                assert(r.subrange(0, i + 1) =~= r);
            }
            break;
        }
        if solution.customer(node_index) == solution.customer(successor) {
            let ghost dprev = solution.nodes();
            merge_into(solution, node_index, successor, Ghost(r), Ghost(i), Ghost(i + 1));
            proof {
                let r2 = r.remove(i + 1);
                assert(r2.subrange(0, i + 1) =~= r.subrange(0, i + 1));
                assert forall|a: int| 0 <= a < r2.subrange(0, i + 1).len() - 1 implies cust_of(solution.nodes(), #[trigger] r2.subrange(0, i + 1)[a] as int)
                    != cust_of(solution.nodes(), r2.subrange(0, i + 1)[a + 1] as int) by {
                    assert(r2.subrange(0, i + 1)[a] == r.subrange(0, i + 1)[a]);
                    assert(cust_of(dprev, r.subrange(0, i + 1)[a] as int) != cust_of(dprev, r.subrange(0, i + 1)[a + 1] as int));
                }
                r = r2;
            }
        } else {
            proof {
                let s2 = r.subrange(0, i + 2);
                assert forall|a: int| 0 <= a < s2.len() - 1 implies cust_of(solution.nodes(), #[trigger] s2[a] as int) != cust_of(solution.nodes(), s2[a + 1] as int) by {
                    if a < i {
                        assert(s2[a] == r.subrange(0, i + 1)[a]);
                        assert(s2[a + 1] == r.subrange(0, i + 1)[a + 1]);
                    }
                }
                i = i + 1;
            }
            node_index = successor;
        }
    }
    Ghost(r)
}

/// The route starting at `head` is a chain of used slots with
/// non-negative loads whose total fits an `i32`.
pub open spec fn repairable(sol: &AlkaidSolution, head: int) -> bool {
    &&& is_route(sol.nodes(), head)
    &&& sol_chain(sol, route_seq(sol.nodes(), head))
    &&& loads_ok(sol.nodes(), route_seq(sol.nodes(), head))
}

/// Walking a repairable route from `head`: when `rs` holds the first
/// slots of the walk and the next one, `node`, is not the depot, then
/// `node` is the next slot of the route, a fresh slot in use linked back to
/// the last one, whose non-negative load still fits the total.
proof fn lemma_repairable_walk(sol: &AlkaidSolution, head: int, rs: Seq<Node>, node: Node)
    requires
        sol.wf(),
        repairable(sol, head),
        forall|i: int| 0 <= i < rs.len() ==> #[trigger] rs[i] as int == walk(sol.nodes(), head, i as nat),
        forall|i: int| 0 <= i < rs.len() ==> #[trigger] rs[i] != 0,
        node as int == walk(sol.nodes(), head, rs.len()),
        node != 0,
    ensures
        !rs.contains(node),
        sol.used().contains(node),
        pred_of(sol.nodes(), node as int) == if rs.len() == 0 {
            0
        } else {
            rs.last() as int
        },
        0 <= load_of(sol.nodes(), node as int),
        chain_load(sol.nodes(), rs) + load_of(sol.nodes(), node as int) <= i32::MAX,
        rs.len() + 1 < sol.nodes().len(),
{
    let d = sol.nodes();
    let s = route_seq(d, head);
    let k: int = rs.len() as int;
    let n = route_length(d, head);
    assert(route_len_is(d, head, n));
    assert(k < n) by {
        if n <= k {
            if n == k {
                assert(walk(d, head, k as nat) == 0);
            } else {
                assert(rs[n as int] as int == walk(d, head, n));
            }
        }
    }
    crate::solution::lemma_walk_stop(d, head, n);
    assert(s[k] == node);
    assert forall|i: int| 0 <= i < k implies #[trigger] s[i] == rs[i] by {}
    assert(rs =~= s.take(k));
    if rs.contains(node) {
        let i = choose|i: int| 0 <= i < rs.len() && rs[i] == node;
        assert(s[i] == s[k]);
    }
    assert(sol.used().contains(s[k]));
    if k > 0 {
        assert(link_at(d, s, k - 1));
    }
    assert(0 <= load_of(d, s[k] as int));
    let lv = crate::chain::load_vals(d, s);
    assert(crate::chain::load_vals(d, s.take(k + 1)) =~= lv.take(k + 1));
    assert(crate::chain::load_vals(d, s.take(k + 1)).drop_last() =~= crate::chain::load_vals(d, rs));
    crate::split_reinsertion::lemma_seq_sum_prefix_bound(lv, k + 1);
}

/// Whether the route from `head` is a chain of distinct slots in use,
/// linked both ways from the depot back to the depot, whose loads are
/// non-negative with a total that fits an `i32`: what merging visits
/// needs.
pub fn is_repairable(solution: &AlkaidSolution, head: Node) -> (r: bool)
    requires
        solution.wf(),
        solution.is_slot(head as int),
        head != 0,
    ensures
        r == repairable(solution, head as int),
{
    let ghost d = solution.nodes();
    let len = solution.node_data_len();
    let mut seen: Vec<bool> = Vec::new();
    let mut k: usize = 0;
    while k < len
        invariant
            k <= len,
            seen@.len() == k,
            forall|x: int| 0 <= x < k ==> !(#[trigger] seen@[x]),
        decreases len - k,
    {
        seen.push(false);
        k = k + 1;
    }
    let ghost mut rs: Seq<Node> = Seq::empty();
    let mut node = head;
    let mut prev: Node = 0;
    let mut total: i64 = 0;
    let mut steps: usize = 0;
    while node != 0 && steps + 1 < len
        invariant
            solution.wf(),
            d == solution.nodes(),
            len == d.len(),
            seen@.len() == len,
            solution.is_slot(node as int),
            steps == rs.len(),
            steps + 1 <= len,
            rs.no_duplicates(),
            forall|i: int| 0 <= i < rs.len() ==> 0 < #[trigger] rs[i] < d.len(),
            forall|i: int| 0 <= i < rs.len() - 1 ==> #[trigger] crate::chain::link_at(d, rs, i),
            rs.len() > 0 ==> rs[0] == head && crate::solution::pred_of(d, rs[0] as int) == 0,
            rs.len() > 0 ==> prev == rs.last() && node == crate::solution::succ_of(d, rs.last() as int),
            rs.len() == 0 ==> prev == 0 && node == head,
            forall|x: int| 0 <= x < len ==> (#[trigger] seen@[x] <==> rs.contains(x as Node)),
            forall|i: int| 0 <= i < rs.len() ==> solution.used().contains(#[trigger] rs[i]),
            forall|i: int| 0 <= i < rs.len() ==> 0 <= #[trigger] load_of(d, rs[i] as int),
            total == chain_load(d, rs),
            total <= i32::MAX,
            forall|i: int| 0 <= i < rs.len() ==> #[trigger] rs[i] as int == walk(d, head as int, i as nat),
            node as int == walk(d, head as int, rs.len()),
        decreases len - steps,
    {
        proof {
            if repairable(solution, head as int) {
                lemma_repairable_walk(solution, head as int, rs, node);
            }
        }
        if seen[node as usize] {
            return false;
        }
        if !solution.is_used(node) {
            return false;
        }
        if solution.predecessor(node) != prev {
            return false;
        }
        let load = solution.load(node);
        if load < 0 {
            return false;
        }
        if total + load as i64 > i32::MAX as i64 {
            return false;
        }
        let ghost rs0 = rs;
        proof {
            rs = rs.push(node);
            assert(crate::chain::load_vals(d, rs).drop_last() =~= crate::chain::load_vals(d, rs0));
            assert forall|i: int| 0 <= i < rs.len() - 1 implies #[trigger] crate::chain::link_at(d, rs, i) by {
                if i < rs0.len() - 1 {
                    assert(crate::chain::link_at(d, rs0, i));
                }
            }
            assert(rs.no_duplicates()) by {
                assert(!rs0.contains(node));
            }
        }
        total = total + load as i64;
        seen.set(node as usize, true);
        proof {
            assert forall|x: int| 0 <= x < len implies (#[trigger] seen@[x] <==> rs.contains(x as Node)) by {
                if x == node as int {
                    assert(rs[rs.len() - 1] == node);
                } else {
                    if rs.contains(x as Node) {
                        let i = choose|i: int| 0 <= i < rs.len() && rs[i] == x as Node;
                        assert(i < rs0.len());
                        assert(rs0.contains(x as Node));
                    }
                    if rs0.contains(x as Node) {
                        let i = choose|i: int| 0 <= i < rs0.len() && rs0[i] == x as Node;
                        assert(rs[i] == x as Node);
                    }
                }
            }
        }
        prev = node;
        node = solution.successor(node);
        steps = steps + 1;
        assert(node as int == walk(d, head as int, rs.len()));
    }
    if node != 0 {
        proof {
            if repairable(solution, head as int) {
                lemma_repairable_walk(solution, head as int, rs, node);
            }
        }
        return false;
    }
    proof {
        assert(rs.len() > 0);
        assert(chain(d, rs));
        assert(crate::chain::first_of(rs) == head);
        crate::chain::lemma_chain_route(d, rs);
        assert(sol_chain(solution, rs));
        assert(loads_ok(d, rs));
    }
    true
}

/// Walking a chain from its first slot, the first `k` loads add up to
/// the total load of its first `k` slots.
proof fn lemma_chain_walk_load(d: Seq<NodeData>, r: Seq<Node>, k: nat)
    requires
        chain(d, r),
        k <= r.len(),
    ensures
        crate::solution::walk_load(d, first_of(r), k) == chain_load(d, r.take(k as int)),
    decreases k,
{
    if k == 0 {
        assert(crate::chain::load_vals(d, r.take(0)) =~= Seq::<int>::empty());
    } else {
        lemma_chain_walk_load(d, r, (k - 1) as nat);
        crate::chain::lemma_chain_walk(d, r, (k - 1) as nat);
        assert(crate::chain::load_vals(d, r.take(k as int)).drop_last() =~= crate::chain::load_vals(d, r.take(k - 1)));
    }
}

/// `sol` and `ctx` are what merging the visits of route `route_index` of
/// `sol0` and `ctx0` gives: nothing changes for an empty route; otherwise
/// the route becomes a repairable chain that visits each customer once, no
/// longer than before, with every customer's load on it and the total kept;
/// the other routes keep their bookkeeping, and every customer keeps what
/// it is delivered.
pub open spec fn repair_done(sol0: AlkaidSolution, ctx0: RouteContext, route_index: int, sol: AlkaidSolution, ctx: RouteContext) -> bool {
    let d = sol0.nodes();
    let h = ctx0.head_of(route_index);
    let r0 = route_seq(d, h);
    let d2 = sol.nodes();
    let h2 = ctx.head_of(route_index);
    &&& ctx.routes().len() == ctx0.routes().len()
    &&& forall|q: int| 0 <= q < ctx0.routes().len() && q != route_index ==> #[trigger] ctx.routes()[q] == ctx0.routes()[q]
    &&& h == 0 ==> sol == sol0 && ctx == ctx0
    &&& loads_nonneg(&sol0) ==> loads_nonneg(&sol)
    &&& forall|c: int| #[trigger] delivered(&sol, c) == delivered(&sol0, c)
    &&& d2.len() == d.len()
    &&& h != 0 ==> {
        &&& h2 != 0
        &&& repairable(&sol, h2)
        &&& distinct_customers(d2, route_seq(d2, h2))
        &&& forall|c: int| #[trigger] cust_load(d2, route_seq(d2, h2), c) == cust_load(d, r0, c)
        &&& chain_load(d2, route_seq(d2, h2)) == chain_load(d, r0)
        &&& route_seq(d2, h2).len() <= r0.len()
        &&& ctx.routes()[route_index].tail == route_seq(d2, h2).last()
        &&& ctx.routes()[route_index].load == chain_load(d2, route_seq(d2, h2))
    }
}

/// Merges all visits of route `route_index` to the same customer into one
/// slot. First neighbouring visits are merged; then, walking the route,
/// each customer keeps the visit whose removal saves less (the earlier
/// one on ties) and receives the loads of the others. The route's
/// bookkeeping is refreshed.
#[verifier::rlimit(60)]
pub fn repair(instance: &Instance, route_index: Node, solution: &mut AlkaidSolution, context: &mut RouteContext)
    requires
        instance.wf(),
        old(solution).valid_for(instance),
        old(context).fits(old(solution)),
        0 <= route_index < old(context).routes().len(),
        old(context).head_of(route_index as int) != 0 ==> repairable(old(solution), old(context).head_of(route_index as int)),
    ensures
        final(solution).valid_for(instance),
        final(context).fits(final(solution)),
        final(context).routes().len() == old(context).routes().len(),
        forall|q: int|
            0 <= q < old(context).routes().len() && q != route_index ==> #[trigger] final(context).routes()[q]
                == old(context).routes()[q],
        old(context).head_of(route_index as int) == 0 ==> *final(solution) == *old(solution) && *final(context) == *old(context),
        loads_nonneg(old(solution)) ==> loads_nonneg(final(solution)),
        forall|c: int| #[trigger] delivered(final(solution), c) == delivered(old(solution), c),
        final(solution).nodes().len() == old(solution).nodes().len(),
        old(context).pre_loads().len() >= old(solution).nodes().len() ==> final(context).pre_loads().len()
            >= final(solution).nodes().len(),
        ({
            let d = old(solution).nodes();
            let r0 = route_seq(d, old(context).head_of(route_index as int));
            let d2 = final(solution).nodes();
            let h2 = final(context).head_of(route_index as int);
            old(context).head_of(route_index as int) != 0 ==> {
                &&& h2 != 0
                &&& repairable(final(solution), h2)
                &&& distinct_customers(d2, route_seq(d2, h2))
                &&& forall|c: int| #[trigger] cust_load(d2, route_seq(d2, h2), c) == cust_load(d, r0, c)
                &&& chain_load(d2, route_seq(d2, h2)) == chain_load(d, r0)
                &&& route_seq(d2, h2).len() <= r0.len()
                &&& final(context).routes()[route_index as int].tail == route_seq(d2, h2).last()
                &&& final(context).routes()[route_index as int].load == chain_load(d2, route_seq(d2, h2))
            }
        }),
        repair_done(*old(solution), *old(context), route_index as int, *final(solution), *final(context)),
{
    let head0 = context.head(route_index);
    if head0 == 0 {
        return;
    }
    let ghost d0 = solution.nodes();
    let ghost r0 = route_seq(d0, head0 as int);
    proof {
        assert(r0.len() > 0) by {
            assert(crate::solution::route_len_is(d0, head0 as int, crate::solution::route_length(d0, head0 as int)));
            if r0.len() == 0 {
                assert(crate::solution::walk(d0, head0 as int, 0) == head0);
            }
        }
        assert(r0[0] == head0) by {
            assert(crate::solution::walk(d0, head0 as int, 0) == head0);
        }
    }
    let Ghost(r1) = merge_adjacent_same_customers(instance, route_index, solution, context, Ghost(r0));
    let mut node_index = context.head(route_index);
    let ghost dm = solution.nodes();
    let ghost sm = *solution;
    solution.set_successor(0, node_index);
    proof {
        lemma_chain_frame(dm, solution.nodes(), r1);
        lemma_delivered_same(&sm, solution);
    }
    let ghost mut r = r1;
    let ghost mut i: int = 0;
    let mut customer_node_map: HashMap<Node, Node> = HashMap::new();
    while node_index != 0
        invariant
            instance.wf(),
            solution.valid_for(instance),
            sol_chain(solution, r),
            loads_ok(solution.nodes(), r),
            0 <= i <= r.len(),
            r.len() <= r0.len(),
            r.len() > 0,
            node_index == if i < r.len() { r[i] as int } else { 0 },
            solution.nodes()[0].successor == first_of(r),
            forall|c: int| #[trigger] cust_load(solution.nodes(), r, c) == cust_load(d0, r0, c),
            chain_load(solution.nodes(), r) == chain_load(d0, r0),
            distinct_customers(solution.nodes(), r.subrange(0, i)),
            forall|c: Node| customer_node_map@.contains_key(c) <==> exists|k: int| 0 <= k < i && #[trigger] cust_of(solution.nodes(), r[k] as int) == c,
            forall|k: int| 0 <= k < i ==> #[trigger] customer_node_map@[cust_of(solution.nodes(), r[k] as int) as Node] == r[k],
            forall|k: int| 0 <= k < r.len() ==> cust_of(solution.nodes(), #[trigger] r[k] as int) == cust_of(d0, r[k] as int),
            solution.nodes().len() == d0.len(),
            forall|n: int| 0 <= n < d0.len() ==> (#[trigger] solution.nodes()[n]).customer == d0[n].customer,
            loads_nonneg(old(solution)) ==> loads_nonneg(solution),
            forall|c: int| #[trigger] delivered(solution, c) == delivered(old(solution), c),
        decreases r.len() - i,
    {
        proof {
            assert(0 < r[i] < solution.nodes().len());
            if i < r.len() - 1 {
                assert(crate::chain::link_at(solution.nodes(), r, i));
            }
        }
        let successor = solution.successor(node_index);
        let customer = solution.customer(node_index);
        let ghost dcur = solution.nodes();
        match customer_node_map.get(&customer) {
            Some(last_ref) => {
                let last_node_index = *last_ref;
                let ghost k = choose|k: int| 0 <= k < i && #[trigger] cust_of(dcur, r[k] as int) == customer;
                proof {
                    assert(customer_node_map@[cust_of(dcur, r[k] as int) as Node] == r[k]);
                    assert(last_node_index == r[k]);
                    assert(0 < r[k] < dcur.len());
                }
                let (kept, removed) = visit_to_keep(instance, solution, last_node_index, node_index);
                if kept == node_index {
                    customer_node_map.insert(customer, kept);
                    merge_into(solution, kept, removed, Ghost(r), Ghost(i), Ghost(k));
                    proof {
                        let r2 = r.remove(k);
                        let d2 = solution.nodes();
                        assert(r2.subrange(0, i) =~= r.subrange(0, k) + r.subrange(k + 1, i + 1));
                        assert forall|a: int| 0 <= a < r2.len() implies cust_of(d2, #[trigger] r2[a] as int) == cust_of(dcur, r2[a] as int) by {
                        }
                        assert forall|c: Node| customer_node_map@.contains_key(c) <==> exists|m: int| 0 <= m < i && #[trigger] cust_of(d2, r2[m] as int) == c by {
                            if customer_node_map@.contains_key(c) {
                                if c == customer {
                                    assert(r2[i - 1] == r[i]);
                                    assert(cust_of(d2, r2[i - 1] as int) == c);
                                } else {
                                    let m0 = choose|m0: int| 0 <= m0 < i && #[trigger] cust_of(dcur, r[m0] as int) == c;
                                    assert(m0 != k);
                                    let m = if m0 < k { m0 } else { m0 - 1 };
                                    assert(r2[m] == r[m0]);
                                    assert(cust_of(d2, r2[m] as int) == c);
                                }
                            }
                            if exists|m: int| 0 <= m < i && #[trigger] cust_of(d2, r2[m] as int) == c {
                                let m = choose|m: int| 0 <= m < i && #[trigger] cust_of(d2, r2[m] as int) == c;
                                let m0 = if m < k { m } else { m + 1 };
                                assert(r2[m] == r[m0]);
                                if m0 < i {
                                    assert(cust_of(dcur, r[m0] as int) == c);
                                }
                            }
                        }
                        assert forall|m: int| 0 <= m < i implies #[trigger] customer_node_map@[cust_of(d2, r2[m] as int) as Node] == r2[m] by {
                            let m0 = if m < k { m } else { m + 1 };
                            assert(r2[m] == r[m0]);
                            if m0 < i {
                                assert(cust_of(dcur, r[m0] as int) != customer) by {
                                    assert(distinct_customers(dcur, r.subrange(0, i)));
                                    assert(r.subrange(0, i)[m0] == r[m0]);
                                    assert(r.subrange(0, i)[k] == r[k]);
                                }
                            }
                        }
                        assert(distinct_customers(d2, r2.subrange(0, i))) by {
                            assert forall|a: int, b: int| 0 <= a < i && 0 <= b < i && a != b implies cust_of(d2, #[trigger] r2.subrange(0, i)[a] as int)
                                != cust_of(d2, #[trigger] r2.subrange(0, i)[b] as int) by {
                                let a0 = if a < k { a } else { a + 1 };
                                let b0 = if b < k { b } else { b + 1 };
                                assert(r2.subrange(0, i)[a] == r[a0]);
                                assert(r2.subrange(0, i)[b] == r[b0]);
                                assert(r.subrange(0, i)[k] == r[k]);
                                if a0 < i && b0 < i {
                                    assert(r.subrange(0, i)[a0] == r[a0]);
                                    assert(r.subrange(0, i)[b0] == r[b0]);
                                } else if a0 < i {
                                    assert(r.subrange(0, i)[a0] == r[a0]);
                                } else if b0 < i {
                                    assert(r.subrange(0, i)[b0] == r[b0]);
                                }
                            }
                        }
                        assert forall|a: int| 0 <= a < r2.len() implies cust_of(d2, #[trigger] r2[a] as int) == cust_of(d0, r2[a] as int) by {
                            let a0 = if a < k { a } else { a + 1 };
                            assert(r2[a] == r[a0]);
                        }
                        if i < r.len() - 1 {
                            assert(successor == r[i + 1]);
                            assert(r2[i] == r[i + 1]);
                        }
                        r = r2;
                    }
                } else {
                    merge_into(solution, kept, removed, Ghost(r), Ghost(k), Ghost(i));
                    proof {
                        let r2 = r.remove(i);
                        let d2 = solution.nodes();
                        assert(r2.subrange(0, i) =~= r.subrange(0, i));
                        assert forall|a: int| 0 <= a < r2.len() implies cust_of(d2, #[trigger] r2[a] as int) == cust_of(d0, r2[a] as int) by {
                            let a0 = if a < i { a } else { a + 1 };
                            assert(r2[a] == r[a0]);
                        }
                        assert forall|c: Node| customer_node_map@.contains_key(c) <==> exists|m: int| 0 <= m < i && #[trigger] cust_of(d2, r2[m] as int) == c by {
                            if customer_node_map@.contains_key(c) {
                                let m0 = choose|m0: int| 0 <= m0 < i && #[trigger] cust_of(dcur, r[m0] as int) == c;
                                assert(r2[m0] == r[m0]);
                            }
                            if exists|m: int| 0 <= m < i && #[trigger] cust_of(d2, r2[m] as int) == c {
                                let m = choose|m: int| 0 <= m < i && #[trigger] cust_of(d2, r2[m] as int) == c;
                                assert(r2[m] == r[m]);
                                assert(cust_of(dcur, r[m] as int) == c);
                            }
                        }
                        assert forall|m: int| 0 <= m < i implies #[trigger] customer_node_map@[cust_of(d2, r2[m] as int) as Node] == r2[m] by {
                            assert(r2[m] == r[m]);
                        }
                        assert forall|a: int, b: int| 0 <= a < i && 0 <= b < i && a != b implies cust_of(d2, #[trigger] r2.subrange(0, i)[a] as int)
                            != cust_of(d2, #[trigger] r2.subrange(0, i)[b] as int) by {
                            assert(r2.subrange(0, i)[a] == r.subrange(0, i)[a]);
                            assert(r2.subrange(0, i)[b] == r.subrange(0, i)[b]);
                        }
                        if i < r.len() - 1 {
                            assert(r2[i] == r[i + 1]);
                        }
                        r = r2;
                    }
                }
            },
            None => {
                customer_node_map.insert(customer, node_index);
                proof {
                    let d2 = solution.nodes();
                    assert(!exists|k: int| 0 <= k < i && #[trigger] cust_of(d2, r[k] as int) == customer);
                    assert(cust_of(d2, r[i] as int) == customer);
                    assert forall|c: Node| customer_node_map@.contains_key(c) <==> exists|m: int| 0 <= m < i + 1 && #[trigger] cust_of(d2, r[m] as int) == c by {
                        if c == customer {
                            assert(cust_of(d2, r[i] as int) == c);
                        }
                    }
                    assert forall|m: int| 0 <= m < i + 1 implies #[trigger] customer_node_map@[cust_of(d2, r[m] as int) as Node] == r[m] by {
                        if m < i {
                            assert(cust_of(d2, r[m] as int) != customer);
                        }
                    }
                    assert forall|a: int, b: int| 0 <= a < i + 1 && 0 <= b < i + 1 && a != b implies cust_of(d2, #[trigger] r.subrange(0, i + 1)[a] as int)
                        != cust_of(d2, #[trigger] r.subrange(0, i + 1)[b] as int) by {
                        assert(r.subrange(0, i + 1)[a] == r[a]);
                        assert(r.subrange(0, i + 1)[b] == r[b]);
                        if a < i && b < i {
                            assert(r.subrange(0, i)[a] == r[a]);
                            assert(r.subrange(0, i)[b] == r[b]);
                        }
                    }
                    if i < r.len() - 1 {
                        assert(successor == r[i + 1]);
                    }
                    i = i + 1;
                }
            },
        }
        node_index = successor;
    }
    proof {
        assert(i == r.len());
        assert(r.subrange(0, i) =~= r);
    }
    let new_head = solution.successor(0);
    context.set_head(route_index, new_head);
    let ghost ctx1 = *context;
    context.update_route_context(solution, route_index, 0);
    proof {
        lemma_sol_chain_route(solution, r);
        let d2 = solution.nodes();
        assert(r.len() > 0) by {
            if r.len() == 0 {
                assert(i == 0);
            }
        }
        assert(first_of(r) == new_head) by {
            crate::chain::lemma_chain_walk(d2, r, 0);
        }
        let lv = crate::chain::load_vals(d2, r);
        assert forall|k: nat| k <= r.len() implies crate::route_context::fits_i32(0 + #[trigger] crate::solution::walk_load(d2, new_head as int, k)) by {
            lemma_chain_walk_load(d2, r, k);
            assert(lv.take(k as int) =~= crate::chain::load_vals(d2, r.take(k as int)));
            crate::split_reinsertion::lemma_seq_sum_prefix_bound(lv, k as int);
        }
        lemma_chain_walk_load(d2, r, r.len());
        assert(r.take(r.len() as int) =~= r);
        crate::chain::lemma_chain_walk(d2, r, (r.len() - 1) as nat);
        assert forall|q: int| 0 <= q < context.routes().len() implies solution.is_slot((#[trigger] context.routes()[q]).head as int)
            && solution.is_slot(context.routes()[q].tail as int) by {
            if q != route_index {
                assert(context.routes()[q] == ctx1.routes()[q]);
            }
        }
        assert(r.len() > 0) by {
            if r.len() == 0 {
                assert(i == 0);
            }
        }
    }
}

} // verus!
