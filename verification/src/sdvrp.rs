//! The split delivery variant: construction, repair, removal and split
//! reinsertion of customers, objective and fleet bound.
use vstd::prelude::*;
use crate::construction::{construct, pieces};
use crate::instance::{Instance, Node};
use crate::random::Random;
use crate::repair::{repair, repairable};
use crate::route_context::RouteContext;
use crate::solution::{AlkaidSolution, NodeData, linked, succ_of, pred_of, cust_of, route_seq};
use crate::chain::{cust_load, cust_loads, chain_load, distinct_customers, chain, sol_chain, first_of, link_at, drop_served, same_links, lemma_chain_remove, lemma_chain_links_frame, lemma_swap_remove_keeps, lemma_distinct_subseq_len, lemma_sol_chain_route, lemma_drop_served_none, lemma_drop_served_append, lemma_drop_served_more, lemma_drop_served_excludes};
use crate::inter_operator::{delivered, loads_nonneg};
use crate::split_reinsertion::{split_reinsertion, added_slots, loads_of};
use crate::utils::{calc_fleet_lower_bound, fleet_lower_bound, total_demand};

verus! {

/// Route `r` of `ctx` is the chain `rs[r]` of used slots of `sol`, starting
/// at its head, and no two routes share a slot.
pub open spec fn routes_are(sol: &AlkaidSolution, ctx: &RouteContext, rs: Seq<Seq<Node>>) -> bool {
    &&& rs.len() == ctx.routes().len()
    &&& forall|r: int| 0 <= r < rs.len() ==> sol_chain(sol, #[trigger] rs[r])
    &&& forall|r: int| 0 <= r < rs.len() ==> ctx.head_of(r) == first_of(#[trigger] rs[r])
    &&& forall|r1: int, r2: int, a: int, b: int|
        0 <= r1 < rs.len() && 0 <= r2 < rs.len() && r1 != r2 && 0 <= a < rs[r1].len() && 0 <= b < rs[r2].len() ==> #[trigger] rs[r1][a]
            != #[trigger] rs[r2][b]
}

/// The routes `rs` without the slots serving any of `cs` (by `d`).
pub open spec fn routes_without(d: Seq<NodeData>, rs: Seq<Seq<Node>>, cs: Seq<Node>) -> Seq<Seq<Node>> {
    Seq::new(rs.len(), |r: int| drop_served(d, rs[r], cs))
}

/// `s2` is `s1` after `remove(x)`.
pub open spec fn removed_from(s1: &AlkaidSolution, s2: &AlkaidSolution, x: Node) -> bool {
    let d = s1.nodes();
    let n = x as int;
    let d1 = linked(d, d[n].predecessor, d[n].successor);
    let i = d[n].index_in_used_nodes as int;
    let last = s1.used().last();
    &&& s2.nodes() == d1.update(last as int, NodeData { index_in_used_nodes: i as usize, ..d1[last as int] })
    &&& s2.used() == s1.used().update(i, last).drop_last()
}

/// Routes given as chains of used slots are determined by their heads.
proof fn lemma_routes_unique(sol: &AlkaidSolution, ctx: &RouteContext, rs: Seq<Seq<Node>>, qs: Seq<Seq<Node>>)
    requires
        sol.wf(),
        routes_are(sol, ctx, rs),
        routes_are(sol, ctx, qs),
    ensures
        rs == qs,
{
    assert forall|r: int| 0 <= r < rs.len() implies rs[r] == qs[r] by {
        lemma_sol_chain_route(sol, rs[r]);
        lemma_sol_chain_route(sol, qs[r]);
    }
    assert(rs =~= qs);
}

/// Removing slot `c[pos]` of a chain of used slots leaves the chain
/// without it.
proof fn lemma_remove_in_chain(s1: &AlkaidSolution, s2: &AlkaidSolution, c: Seq<Node>, pos: int)
    requires
        s1.wf(),
        sol_chain(s1, c),
        0 <= pos < c.len(),
        removed_from(s1, s2, c[pos]),
    ensures
        sol_chain(s2, c.remove(pos)),
{
    let x = c[pos];
    let d = s1.nodes();
    let d1 = linked(d, d[x as int].predecessor, d[x as int].successor);
    assert(same_links(d1, s2.nodes()));
    lemma_chain_remove(d, s2.nodes(), c, pos);
    let u = s1.used();
    let i = d[x as int].index_in_used_nodes as int;
    assert(u.contains(x));
    let kx = choose|k: int| 0 <= k < u.len() && u[k] == x;
    assert(d[u[kx] as int].index_in_used_nodes == kx);
    assert forall|t: int| 0 <= t < c.remove(pos).len() implies s2.used().contains(#[trigger] c.remove(pos)[t]) by {
        let t0 = if t < pos { t } else { t + 1 };
        assert(c.remove(pos)[t] == c[t0]);
        assert(c[t0] != x);
        assert(u.contains(c[t0]));
        lemma_swap_remove_keeps(u, i, c[t0]);
    }
}

/// Removing a slot next to none of the slots of a chain of used slots
/// keeps that chain.
proof fn lemma_remove_apart(s1: &AlkaidSolution, s2: &AlkaidSolution, q: Seq<Node>, x: Node)
    requires
        s1.wf(),
        sol_chain(s1, q),
        s1.used().contains(x),
        removed_from(s1, s2, x),
        forall|k: int|
            0 <= k < q.len() ==> #[trigger] q[k] != x && q[k] != s1.nodes()[x as int].predecessor && q[k]
                != s1.nodes()[x as int].successor,
    ensures
        sol_chain(s2, q),
{
    let d = s1.nodes();
    let u = s1.used();
    let i = d[x as int].index_in_used_nodes as int;
    assert forall|k: int| 0 <= k < q.len() implies (#[trigger] s2.nodes()[q[k] as int]).successor == d[q[k] as int].successor
        && s2.nodes()[q[k] as int].predecessor == d[q[k] as int].predecessor by {}
    lemma_chain_links_frame(d, s2.nodes(), q);
    let kx = choose|k: int| 0 <= k < u.len() && u[k] == x;
    assert(d[u[kx] as int].index_in_used_nodes == kx);
    assert forall|t: int| 0 <= t < q.len() implies s2.used().contains(#[trigger] q[t]) by {
        lemma_swap_remove_keeps(u, i, q[t]);
    }
}

/// How many of the first entries of `customers` are `c` and have their
/// mark set in `done`.
pub open spec fn done_count(customers: Seq<Node>, done: Seq<bool>, c: int) -> int
    decreases customers.len(),
{
    if customers.len() == 0 || done.len() == 0 {
        0
    } else {
        done_count(customers.drop_last(), done.drop_last(), c) + if customers.last() == c && done.last() {
            1int
        } else {
            0int
        }
    }
}

/// `after` delivers to each customer what `before` did, plus its demand
/// once for each entry of `customers` that is marked in `done`.
pub open spec fn delivered_by_marks(
    before: &AlkaidSolution,
    after: &AlkaidSolution,
    inst: &Instance,
    customers: Seq<Node>,
    done: Seq<bool>,
) -> bool {
    &&& done.len() == customers.len()
    &&& forall|c: int| #[trigger] delivered(after, c) == delivered(before, c) + inst.demand_of(c) * done_count(customers, done, c)
}

/// Appending slots that all serve `customer` adds their loads to what
/// `customer` receives and nothing to anyone else, when the slots in use
/// before keep their customers and loads.
pub proof fn lemma_delivered_appended(a: &AlkaidSolution, b: &AlkaidSolution, customer: Node)
    requires
        a.wf(),
        b.used().len() >= a.used().len(),
        b.used().take(a.used().len() as int) == a.used(),
        forall|k: int|
            0 <= k < a.used().len() ==> {
                let x = #[trigger] a.used()[k] as int;
                &&& b.nodes()[x].customer == a.nodes()[x].customer
                &&& b.nodes()[x].load == a.nodes()[x].load
            },
        b.wf(),
        forall|k: int| 0 <= k < added_slots(a, b).len() ==> cust_of(b.nodes(), #[trigger] added_slots(a, b)[k] as int) == customer,
    ensures
        forall|c: int|
            #[trigger] delivered(b, c) == delivered(a, c) + if c == customer {
                loads_of(b.nodes(), added_slots(a, b))
            } else {
                0
            },
{
    let u = a.used();
    let s = added_slots(a, b);
    let bd = b.nodes();
    assert(b.used() =~= u + s);
    assert forall|c: int| #[trigger] delivered(b, c) == delivered(a, c) + if c == customer {
        loads_of(bd, s)
    } else {
        0
    } by {
        assert(cust_loads(bd, u + s, c) =~= cust_loads(bd, u, c) + cust_loads(bd, s, c));
        crate::chain::lemma_seq_sum_append(cust_loads(bd, u, c), cust_loads(bd, s, c));
        assert(cust_loads(bd, u, c) =~= cust_loads(a.nodes(), u, c)) by {
            assert forall|i: int| 0 <= i < u.len() implies cust_loads(bd, u, c)[i] == cust_loads(a.nodes(), u, c)[i] by {
                assert(u[i] < a.nodes().len());
                assert(b.used()[i] == u[i]);
                assert(u[i] < bd.len());
            }
        }
        lemma_cust_load_of_one(bd, s, customer, c);
    }
}

/// Slots that all serve `customer` deliver their loads to `customer` and
/// nothing to anyone else.
proof fn lemma_cust_load_of_one(d: Seq<NodeData>, s: Seq<Node>, customer: Node, c: int)
    requires
        forall|k: int| 0 <= k < s.len() ==> cust_of(d, #[trigger] s[k] as int) == customer,
    ensures
        cust_load(d, s, c) == if c == customer {
            loads_of(d, s)
        } else {
            0
        },
    decreases s.len(),
{
    if s.len() > 0 {
        let t = s.drop_last();
        assert forall|k: int| 0 <= k < t.len() implies cust_of(d, #[trigger] t[k] as int) == customer by {
            assert(t[k] == s[k]);
        }
        lemma_cust_load_of_one(d, t, customer, c);
        assert(cust_loads(d, s, c).drop_last() =~= cust_loads(d, t, c));
        assert(cust_of(d, s[s.len() - 1] as int) == customer);
    } else {
        assert(cust_loads(d, s, c) =~= Seq::<int>::empty());
    }
}

/// Removing a used slot from a solution with consistent links keeps the
/// links consistent; the other used slots stay used, and only the links of
/// its two neighbours change.
pub proof fn lemma_remove_links(sol: AlkaidSolution, sol2: AlkaidSolution, x: Node)
    requires
        sol.wf(),
        sol.links_ok(),
        sol.used().contains(x),
        sol2.wf(),
        ({
            let d = sol.nodes();
            let n = x as int;
            let d1 = linked(d, d[n].predecessor, d[n].successor);
            let i = d[n].index_in_used_nodes as int;
            let last = sol.used().last();
            &&& sol2.nodes() == d1.update(last as int, NodeData { index_in_used_nodes: i as usize, ..d1[last as int] })
            &&& sol2.used() == sol.used().update(i, last).drop_last()
        }),
        sol2.unused() == sol.unused().push(x),
    ensures
        sol2.links_ok(),
        forall|y: Node| #[trigger] sol2.used().contains(y) <==> sol.used().contains(y) && y != x,
        sol2.nodes().len() == sol.nodes().len(),
        forall|n: int|
            0 <= n < sol.nodes().len() ==> (#[trigger] sol2.nodes()[n]).customer == sol.nodes()[n].customer
                && sol2.nodes()[n].load == sol.nodes()[n].load,
        forall|n: int|
            0 <= n < sol.nodes().len() && n != sol.nodes()[x as int].predecessor && n != sol.nodes()[x as int].successor
                ==> #[trigger] succ_of(sol2.nodes(), n) == succ_of(sol.nodes(), n) && pred_of(sol2.nodes(), n) == pred_of(
                sol.nodes(),
                n,
            ),
        pred_of(sol2.nodes(), sol.nodes()[x as int].successor as int) == sol.nodes()[x as int].predecessor,
        succ_of(sol2.nodes(), sol.nodes()[x as int].predecessor as int) == sol.nodes()[x as int].successor,
        sol.nodes()[x as int].successor != 0 ==> sol.used().contains(sol.nodes()[x as int].successor),
        sol.nodes()[x as int].predecessor != 0 ==> sol.used().contains(sol.nodes()[x as int].predecessor),
{
    let d = sol.nodes();
    let d2 = sol2.nodes();
    let u = sol.used();
    let u2 = sol2.used();
    let p = d[x as int].predecessor as int;
    let s = d[x as int].successor as int;
    let i = d[x as int].index_in_used_nodes as int;
    assert(u.contains(x));
    let kx = choose|k: int| 0 <= k < u.len() && u[k] == x;
    assert(d[u[kx] as int].index_in_used_nodes == kx);
    assert(i == kx);
    assert forall|y: Node| #[trigger] u2.contains(y) <==> u.contains(y) && y != x by {
        if u2.contains(y) {
            let k = choose|k: int| 0 <= k < u2.len() && u2[k] == y;
            if k == i {
                assert(u[u.len() - 1] == y);
            } else {
                assert(u[k] == y);
            }
            assert(sol2.unused()[sol2.unused().len() - 1] == x);
            assert(!u2.contains(sol2.unused()[sol2.unused().len() - 1]));
        }
        if u.contains(y) && y != x {
            crate::chain::lemma_swap_remove_keeps(u, i, y);
        }
    }
    assert(u.contains(x));
    if s != 0 {
        assert(u.contains(s as Node) && pred_of(d, s) == x);
        if s == x as int {
            assert(p == x as int);
        }
    }
    if p != 0 {
        assert(u.contains(p as Node) && succ_of(d, p) == x);
    }
    assert forall|y: Node| #[trigger] u2.contains(y) implies {
        &&& succ_of(d2, y as int) != 0 ==> u2.contains(succ_of(d2, y as int) as Node) && pred_of(d2, succ_of(d2, y as int)) == y
        &&& pred_of(d2, y as int) != 0 ==> u2.contains(pred_of(d2, y as int) as Node) && succ_of(d2, pred_of(d2, y as int)) == y
    } by {
        assert(u.contains(y));
        assert(1 <= y < d.len()) by {
            let k = choose|k: int| 0 <= k < u.len() && u[k] == y;
        }
        let t = succ_of(d, y as int);
        if y as int == p {
            assert(succ_of(d2, y as int) == s);
        } else {
            assert(succ_of(d2, y as int) == t);
            if t != 0 {
                assert(u.contains(t as Node));
                assert(pred_of(d, t) == y);
                assert(t != x as int);
                if t == s {
                    assert(pred_of(d, s) == x);
                }
            }
        }
        let q = pred_of(d, y as int);
        if y as int == s {
            assert(pred_of(d2, y as int) == p);
        } else {
            assert(pred_of(d2, y as int) == q);
            if q != 0 {
                assert(u.contains(q as Node));
                assert(succ_of(d, q) == y);
                assert(q != x as int);
                if q == p {
                    assert(succ_of(d, p) == x);
                }
            }
        }
    }
}


/// The split delivery vehicle routing problem.
#[derive(Debug, Clone, Copy)]
pub struct Sdvrp;

impl Sdvrp {
    /// The instance itself.
    pub fn base_instance(instance: &Instance) -> (r: &Instance)
        ensures
            r == instance,
    {
        instance
    }

    /// Initial solution by the randomized insertion construction.
    pub fn construct(instance: &Instance, random: &mut Random) -> (r: AlkaidSolution)
        requires
            instance.wf(),
            total_demand(instance) + instance.capacity <= i32::MAX,
            pieces(instance).len() < i16::MAX,
        ensures
            r.valid_for(instance),
            r.served().to_multiset() == pieces(instance).to_multiset(),
            forall|k: int|
                0 <= k < r.used().len() ==> 0 < #[trigger] r.nodes()[r.used()[k] as int].load <= instance.capacity,
    {
        construct(instance, random)
    }

    /// Merges repeated visits of route `route_index` to one customer.
    pub fn repair(instance: &Instance, route_index: Node, solution: &mut AlkaidSolution, context: &mut RouteContext)
        requires
            instance.wf(),
            old(solution).valid_for(instance),
            old(context).fits(old(solution)),
            0 <= route_index < old(context).routes().len(),
            old(context).head_of(route_index as int) != 0 ==> repairable(
                old(solution),
                old(context).head_of(route_index as int),
            ),
        ensures
            final(solution).valid_for(instance),
            final(context).fits(final(solution)),
            final(context).routes().len() == old(context).routes().len(),
            forall|q: int|
                0 <= q < old(context).routes().len() && q != route_index ==> #[trigger] final(context).routes()[q]
                    == old(context).routes()[q],
            old(context).head_of(route_index as int) == 0 ==> *final(solution) == *old(solution) && *final(context)
                == *old(context),
            loads_nonneg(old(solution)) ==> loads_nonneg(final(solution)),
            forall|c: int| #[trigger] delivered(final(solution), c) == delivered(old(solution), c),
            final(solution).nodes().len() == old(solution).nodes().len(),
            old(context).pre_loads().len() >= old(solution).nodes().len() ==> final(context).pre_loads().len()
                >= final(solution).nodes().len(),
            ({
                let d = old(solution).nodes();
                let r0 = route_seq(d, old(context).head_of(route_index as int));
                let d2 = final(solution).nodes();
                let h2 = final(context).head_of(route_index as int);
                old(context).head_of(route_index as int) != 0 ==> {
                    &&& h2 != 0
                    &&& repairable(final(solution), h2)
                    &&& distinct_customers(d2, route_seq(d2, h2))
                    &&& forall|c: int| #[trigger] cust_load(d2, route_seq(d2, h2), c) == cust_load(d, r0, c)
                    &&& chain_load(d2, route_seq(d2, h2)) == chain_load(d, r0)
                    &&& route_seq(d2, h2).len() <= r0.len()
                    &&& final(context).routes()[route_index as int].tail == route_seq(d2, h2).last()
                    &&& final(context).routes()[route_index as int].load == chain_load(d2, route_seq(d2, h2))
                }
            }),
    {
        repair(instance, route_index, solution, context);
    }

    /// Removes, route by route, every used slot that serves one of
    /// `customers`, and refreshes the bookkeeping of the route. Each route
    /// is walked from its head to the depot (or for as many steps as there
    /// are slots, or until a slot not in use).
    pub fn remove_customers(
        instance: &Instance,
        customers: &[Node],
        solution: &mut AlkaidSolution,
        context: &mut RouteContext,
    )
        requires
            instance.wf(),
            old(solution).valid_for(instance),
            old(context).fits(old(solution)),
        ensures
            final(solution).valid_for(instance),
            final(context).fits(final(solution)),
            final(context).routes().len() == old(context).routes().len(),
            final(solution).nodes().len() == old(solution).nodes().len(),
            forall|y: Node| #[trigger] final(solution).used().contains(y) ==> old(solution).used().contains(y),
            forall|y: Node|
                old(solution).used().contains(y) && !#[trigger] final(solution).used().contains(y) ==> customers@.contains(
                    old(solution).nodes()[y as int].customer,
                ),
            forall|n: int|
                0 <= n < old(solution).nodes().len() ==> (#[trigger] final(solution).nodes()[n]).customer
                    == old(solution).nodes()[n].customer && final(solution).nodes()[n].load == old(solution).nodes()[n].load,
            forall|rs: Seq<Seq<Node>>|
                #[trigger] routes_are(old(solution), old(context), rs) ==> routes_are(
                    final(solution),
                    final(context),
                    routes_without(old(solution).nodes(), rs, customers@),
                ),
            forall|rs: Seq<Seq<Node>>, r: int, t: int|
                routes_are(old(solution), old(context), rs) && 0 <= r < rs.len() && 0 <= t < routes_without(
                    old(solution).nodes(),
                    rs,
                    customers@,
                )[r].len() ==> !customers@.contains(
                    final(solution).nodes()[#[trigger] routes_without(old(solution).nodes(), rs, customers@)[r][t] as int].customer,
                ),
    {
        let ghost sol0 = *solution;
        let ghost ctx0 = *context;
        let ghost d0 = sol0.nodes();
        let ghost valid = exists|rs: Seq<Seq<Node>>| routes_are(&sol0, &ctx0, rs);
        let ghost rs0 = choose|rs: Seq<Seq<Node>>| routes_are(&sol0, &ctx0, rs);
        let ghost mut cur: Seq<Seq<Node>> = rs0;
        proof {
            if valid {
                assert forall|q: int| 0 <= q < rs0.len() implies #[trigger] routes_without(d0, rs0, customers@.take(0))[q] == rs0[q] by {
                    assert(customers@.take(0) =~= Seq::<Node>::empty());
                    lemma_drop_served_none(d0, rs0[q]);
                }
                assert(cur =~= routes_without(d0, rs0, customers@.take(0)));
            }
        }
        let mut k: usize = 0;
        while k < customers.len()
            invariant
                instance.wf(),
                solution.valid_for(instance),
                context.fits(solution),
                context.routes().len() == old(context).routes().len(),
                solution.nodes().len() == sol0.nodes().len(),
                sol0 == *old(solution),
                ctx0 == *old(context),
                d0 == sol0.nodes(),
                0 <= k <= customers@.len(),
                forall|y: Node| #[trigger] solution.used().contains(y) ==> sol0.used().contains(y),
                forall|y: Node|
                    sol0.used().contains(y) && !#[trigger] solution.used().contains(y) ==> customers@.contains(
                        sol0.nodes()[y as int].customer,
                    ),
                forall|n: int|
                    0 <= n < sol0.nodes().len() ==> (#[trigger] solution.nodes()[n]).customer == sol0.nodes()[n].customer
                        && solution.nodes()[n].load == sol0.nodes()[n].load,
                valid ==> routes_are(&sol0, &ctx0, rs0),
                valid ==> routes_are(&*solution, &*context, cur),
                valid ==> cur == routes_without(d0, rs0, customers@.take(k as int)),
            decreases customers.len() - k,
        {
            let customer = customers[k];
            let n = context.num_routes();
            let mut route_index: Node = 0;
            while route_index < n
                invariant
                    instance.wf(),
                    solution.valid_for(instance),
                    context.fits(solution),
                    n == context.routes().len(),
                    context.routes().len() == old(context).routes().len(),
                    0 <= route_index <= n,
                    solution.nodes().len() == sol0.nodes().len(),
                    k < customers@.len(),
                    customer == customers@[k as int],
                    d0 == sol0.nodes(),
                    forall|y: Node| #[trigger] solution.used().contains(y) ==> sol0.used().contains(y),
                    forall|y: Node|
                        sol0.used().contains(y) && !#[trigger] solution.used().contains(y) ==> customers@.contains(
                            sol0.nodes()[y as int].customer,
                        ),
                    forall|n: int|
                        0 <= n < sol0.nodes().len() ==> (#[trigger] solution.nodes()[n]).customer == sol0.nodes()[n].customer
                            && solution.nodes()[n].load == sol0.nodes()[n].load,
                    valid ==> routes_are(&*solution, &*context, cur),
                    valid ==> cur.len() == rs0.len(),
                    valid ==> forall|q: int|
                        0 <= q < cur.len() ==> #[trigger] cur[q] == drop_served(
                            d0,
                            rs0[q],
                            if q < route_index { customers@.take(k + 1) } else { customers@.take(k as int) },
                        ),
                decreases n - route_index,
            {
                let mut node_index = context.head(route_index);
                let len = solution.node_data_len();
                let mut steps: usize = 0;
                let ghost c0 = cur[route_index as int];
                let ghost cur_start = cur;
                let ghost mut j: int = 0;
                proof {
                    if valid {
                        assert(sol_chain(&*solution, c0));
                        assert(solution.used().no_duplicates()) by {
                            assert forall|a: int, b: int|
                                0 <= a < solution.used().len() && 0 <= b < solution.used().len() && a != b implies solution.used()[a]
                                != solution.used()[b] by {
                                assert(solution.nodes()[solution.used()[a] as int].index_in_used_nodes == a);
                                assert(solution.nodes()[solution.used()[b] as int].index_in_used_nodes == b);
                            }
                        }
                        lemma_distinct_subseq_len(c0, solution.used());
                        assert(drop_served(d0, c0.take(0), seq![customer]) + c0.skip(0) =~= c0) by {
                            assert(c0.take(0) =~= Seq::<Node>::empty());
                        }
                        if c0.len() > 0 {
                            assert(c0[0] == first_of(c0));
                        }
                    }
                }
                while node_index != 0 && steps < len && solution.is_used(node_index)
                    invariant
                        instance.wf(),
                        solution.valid_for(instance),
                        context.fits(solution),
                        n == context.routes().len(),
                        0 <= route_index < n,
                        len == solution.nodes().len(),
                        solution.nodes().len() == sol0.nodes().len(),
                        solution.is_slot(node_index as int),
                        steps <= len,
                        k < customers@.len(),
                        customer == customers@[k as int],
                        d0 == sol0.nodes(),
                        forall|y: Node| #[trigger] solution.used().contains(y) ==> sol0.used().contains(y),
                        forall|y: Node|
                            sol0.used().contains(y) && !#[trigger] solution.used().contains(y) ==> customers@.contains(
                                sol0.nodes()[y as int].customer,
                            ),
                        forall|n: int|
                            0 <= n < sol0.nodes().len() ==> (#[trigger] solution.nodes()[n]).customer
                                == sol0.nodes()[n].customer && solution.nodes()[n].load == sol0.nodes()[n].load,
                        valid ==> routes_are(&*solution, &*context, cur),
                        valid ==> cur.len() == cur_start.len(),
                        valid ==> forall|q: int| 0 <= q < cur.len() && q != route_index ==> #[trigger] cur[q] == cur_start[q],
                        valid ==> cur_start[route_index as int] == c0,
                        valid ==> 0 <= j <= c0.len() && c0.len() < len && steps == j,
                        valid ==> node_index == if j < c0.len() { c0[j] } else { 0 },
                        valid ==> cur[route_index as int] == drop_served(d0, c0.take(j), seq![customer]) + c0.skip(j),
                    decreases len - steps,
                {
                    let ghost c = cur[route_index as int];
                    let ghost dd = drop_served(d0, c0.take(j), seq![customer]);
                    let ghost pos = dd.len() as int;
                    proof {
                        if valid {
                            assert(j < c0.len());
                            assert(c[pos] == c0[j]);
                            assert(sol_chain(&*solution, c));
                            if pos + 1 < c.len() {
                                assert(link_at(solution.nodes(), c, pos));
                            } else {
                                assert(c.last() == c[pos]);
                            }
                            if pos > 0 {
                                assert(link_at(solution.nodes(), c, pos - 1));
                            } else {
                                assert(c[0] == first_of(c));
                            }
                            assert(c0.skip(j) =~= seq![c0[j]] + c0.skip(j + 1));
                            assert(c0.take(j + 1) =~= c0.take(j) + seq![c0[j]]);
                            lemma_drop_served_append(d0, c0.take(j), seq![c0[j]], seq![customer]);
                            let one = seq![c0[j]];
                            assert(one.drop_last() =~= Seq::<Node>::empty());
                            assert(seq![customer].contains(customer)) by {
                                assert(seq![customer][0] == customer);
                            }
                            assert(drop_served(d0, one.drop_last(), seq![customer]) =~= Seq::<Node>::empty());
                            if d0[c0[j] as int].customer != customer {
                                assert(!seq![customer].contains(d0[c0[j] as int].customer));
                                assert(drop_served(d0, one, seq![customer]) =~= one);
                                assert(drop_served(d0, c0.take(j + 1), seq![customer]) =~= dd + one);
                                assert(c =~= dd + one + c0.skip(j + 1));
                            } else {
                                assert(drop_served(d0, one, seq![customer]) =~= Seq::<Node>::empty());
                                assert(drop_served(d0, c0.take(j + 1), seq![customer]) =~= dd);
                            }
                        }
                    }
                    let successor = solution.successor(node_index);
                    if solution.customer(node_index) == customer {
                        let predecessor = solution.predecessor(node_index);
                        let ghost s1 = *solution;
                        let ghost cx = *context;
                        solution.remove(node_index);
                        proof {
                            let x = node_index;
                            assert(customers@[k as int] == customer);
                            assert forall|y: Node| #[trigger] solution.used().contains(y) implies s1.used().contains(y) by {
                                let u2 = solution.used();
                                let k2 = choose|j: int| 0 <= j < u2.len() && u2[j] == y;
                                let i = s1.nodes()[x as int].index_in_used_nodes as int;
                                if k2 == i {
                                    assert(s1.used()[s1.used().len() - 1] == y);
                                } else {
                                    assert(s1.used()[k2] == y);
                                }
                            }
                            assert forall|y: Node|
                                sol0.used().contains(y) && !#[trigger] solution.used().contains(y) implies customers@.contains(
                                sol0.nodes()[y as int].customer,
                            ) by {
                                if s1.used().contains(y) {
                                    if y != x {
                                        let i = s1.nodes()[x as int].index_in_used_nodes as int;
                                        let kx = choose|j: int| 0 <= j < s1.used().len() && s1.used()[j] == x;
                                        assert(s1.nodes()[s1.used()[kx] as int].index_in_used_nodes == kx);
                                        crate::chain::lemma_swap_remove_keeps(s1.used(), i, y);
                                    } else {
                                        assert(sol0.nodes()[y as int].customer == s1.nodes()[y as int].customer);
                                    }
                                }
                            }
                            assert forall|n: int| 0 <= n < solution.nodes().len() implies instance.is_node(
                                (#[trigger] solution.nodes()[n]).customer as int,
                            ) by {
                                assert(s1.nodes()[n].customer == solution.nodes()[n].customer);
                            }
                        }
                        if predecessor == 0 {
                            context.set_head(route_index, successor);
                        }
                        context.update_route_context(solution, route_index, predecessor);
                        proof {
                            if valid {
                                let x = node_index;
                                assert(removed_from(&s1, &*solution, x));
                                lemma_remove_in_chain(&s1, &*solution, c, pos);
                                let cur2 = cur.update(route_index as int, c.remove(pos));
                                assert forall|q: int| 0 <= q < cur2.len() implies sol_chain(&*solution, #[trigger] cur2[q]) by {
                                    if q != route_index {
                                        assert(cur2[q] == cur[q]);
                                        assert forall|t: int| 0 <= t < cur[q].len() implies #[trigger] cur[q][t] != x && cur[q][t]
                                            != s1.nodes()[x as int].predecessor && cur[q][t] != s1.nodes()[x as int].successor by {
                                            assert(cur[q][t] != c[pos]);
                                            assert(cur[q][t] > 0);
                                            if pos > 0 {
                                                assert(cur[q][t] != c[pos - 1]);
                                            }
                                            if pos + 1 < c.len() {
                                                assert(cur[q][t] != c[pos + 1]);
                                            }
                                        }
                                        assert(s1.used().contains(x));
                                        lemma_remove_apart(&s1, &*solution, cur[q], x);
                                    }
                                }
                                assert forall|q: int| 0 <= q < cur2.len() implies context.head_of(q) == first_of(#[trigger] cur2[q]) by {
                                    if q == route_index {
                                        if pos == 0 {
                                            if c.len() > 1 {
                                                assert(c.remove(0)[0] == c[1]);
                                            }
                                        } else {
                                            assert(c.remove(pos)[0] == c[0]);
                                        }
                                    } else {
                                        assert(cur2[q] == cur[q]);
                                    }
                                }
                                assert forall|r1: int, r2: int, a: int, b: int|
                                    0 <= r1 < cur2.len() && 0 <= r2 < cur2.len() && r1 != r2 && 0 <= a < cur2[r1].len() && 0 <= b
                                        < cur2[r2].len() implies #[trigger] cur2[r1][a] != #[trigger] cur2[r2][b] by {
                                    let a0 = if r1 == route_index && a >= pos { a + 1 } else { a };
                                    let b0 = if r2 == route_index && b >= pos { b + 1 } else { b };
                                    assert(cur2[r1][a] == cur[r1][a0]);
                                    assert(cur2[r2][b] == cur[r2][b0]);
                                }
                                assert(c.remove(pos) =~= dd + c0.skip(j + 1));
                                cur = cur2;
                            }
                        }
                    }
                    proof {
                        if valid {
                            j = j + 1;
                        }
                    }
                    node_index = successor;
                    steps = steps + 1;
                }
                proof {
                    if valid {
                        if j < c0.len() {
                            let c = cur[route_index as int];
                            let pos = drop_served(d0, c0.take(j), seq![customer]).len() as int;
                            assert(c[pos] == c0[j]);
                            assert(sol_chain(&*solution, c));
                        }
                        assert(c0.take(j) =~= c0);
                        assert(c0.skip(j) =~= Seq::<Node>::empty());
                        assert(cur[route_index as int] =~= drop_served(d0, c0, seq![customer]));
                        lemma_drop_served_more(d0, rs0[route_index as int], customers@.take(k as int), customer);
                        assert(customers@.take(k as int).push(customer) =~= customers@.take(k + 1));
                        assert forall|q: int| 0 <= q < cur.len() implies #[trigger] cur[q] == drop_served(
                            d0,
                            rs0[q],
                            if q < route_index + 1 { customers@.take(k + 1) } else { customers@.take(k as int) },
                        ) by {
                            if q != route_index {
                                assert(cur[q] == cur_start[q]);
                            }
                        }
                    }
                }
                route_index = route_index + 1;
            }
            proof {
                if valid {
                    assert(cur =~= routes_without(d0, rs0, customers@.take(k + 1)));
                }
            }
            k = k + 1;
        }
        proof {
            if valid {
                assert(customers@.take(customers@.len() as int) =~= customers@);
            }
            assert forall|rs: Seq<Seq<Node>>| #[trigger] routes_are(&sol0, &ctx0, rs) implies routes_are(
                &*solution,
                &*context,
                routes_without(d0, rs, customers@),
            ) by {
                lemma_routes_unique(&sol0, &ctx0, rs, rs0);
            }
            assert forall|rs: Seq<Seq<Node>>, r: int, t: int|
                routes_are(&sol0, &ctx0, rs) && 0 <= r < rs.len() && 0 <= t < routes_without(d0, rs, customers@)[r].len() implies !customers@.contains(
                solution.nodes()[#[trigger] routes_without(d0, rs, customers@)[r][t] as int].customer,
            ) by {
                lemma_drop_served_excludes(d0, rs[r], customers@);
                let y = routes_without(d0, rs, customers@)[r][t];
                assert(rs[r].contains(y));
                assert(sol_chain(&sol0, rs[r]));
                let m = choose|m: int| 0 <= m < rs[r].len() && rs[r][m] == y;
                assert(0 < rs[r][m] < d0.len());
                assert(solution.nodes()[y as int].customer == d0[y as int].customer);
            }
        }
    }

    /// Reinserts the whole demand of each of `customers` in turn by split
    /// reinsertion (skip threshold `blink_threshold` out of 2^24).
    pub fn reinsert_customers(
        instance: &Instance,
        customers: &[Node],
        blink_threshold: u32,
        solution: &mut AlkaidSolution,
        context: &mut RouteContext,
        random: &mut Random,
    )
        requires
            instance.wf(),
            old(solution).valid_for(instance),
            old(context).fits(old(solution)),
            forall|k: int| 0 <= k < customers@.len() ==> instance.is_node(#[trigger] customers@[k] as int),
            old(solution).room() >= customers@.len() * old(context).routes().len(),
        ensures
            final(solution).valid_for(instance),
            final(context).fits(final(solution)),
            final(context).routes().len() == old(context).routes().len(),
            final(solution).used().len() >= old(solution).used().len(),
            final(solution).used().take(old(solution).used().len() as int) == old(solution).used(),
            forall|k: int|
                0 <= k < old(solution).used().len() ==> {
                    let x = #[trigger] old(solution).used()[k] as int;
                    &&& final(solution).nodes()[x].customer == old(solution).nodes()[x].customer
                    &&& final(solution).nodes()[x].load == old(solution).nodes()[x].load
                },
            exists|done: Seq<bool>| #[trigger] delivered_by_marks(old(solution), final(solution), instance, customers@, done),
    {
        let ghost n = context.routes().len();
        let ghost mut done: Seq<bool> = Seq::empty();
        let mut k: usize = 0;
        while k < customers.len()
            invariant
                instance.wf(),
                solution.valid_for(instance),
                context.fits(solution),
                context.routes().len() == n,
                n == old(context).routes().len(),
                forall|j: int| 0 <= j < customers@.len() ==> instance.is_node(#[trigger] customers@[j] as int),
                0 <= k <= customers@.len(),
                solution.room() >= (customers@.len() - k) * n,
                solution.used().len() >= old(solution).used().len(),
                solution.used().take(old(solution).used().len() as int) == old(solution).used(),
                forall|j: int|
                    0 <= j < old(solution).used().len() ==> {
                        let x = #[trigger] old(solution).used()[j] as int;
                        &&& solution.nodes()[x].customer == old(solution).nodes()[x].customer
                        &&& solution.nodes()[x].load == old(solution).nodes()[x].load
                    },
                done.len() == k,
                forall|c: int|
                    #[trigger] delivered(solution, c) == delivered(old(solution), c) + instance.demand_of(c) * done_count(
                        customers@.take(k as int),
                        done,
                        c,
                    ),
            decreases customers.len() - k,
        {
            let customer = customers[k];
            assert(instance.is_node(customers@[k as int] as int));
            proof {
                assert((customers@.len() - k) * n >= n) by (nonlinear_arith)
                    requires
                        customers@.len() - k >= 1,
                        n >= 0,
                ;
            }
            let ghost s1 = *solution;
            let demand = instance.demand(customer);
            split_reinsertion(instance, customer, demand, blink_threshold, solution, context, random);
            proof {
                let a = crate::split_reinsertion::added_slots(&s1, solution);
                assert(solution.used() =~= s1.used() + a) by {
                    assert(solution.used() =~= solution.used().take(s1.used().len() as int) + solution.used().skip(
                        s1.used().len() as int,
                    ));
                }
                assert(solution.room() >= (customers@.len() - (k + 1)) * n) by {
                    assert((customers@.len() - k) * n - n == (customers@.len() - (k + 1)) * n) by (nonlinear_arith);
                }
                assert(solution.used().take(old(solution).used().len() as int) =~= old(solution).used()) by {
                    assert forall|j: int| 0 <= j < old(solution).used().len() implies solution.used()[j]
                        == old(solution).used()[j] by {
                        assert(s1.used()[j] == old(solution).used()[j]);
                        assert(solution.used()[j] == s1.used()[j]);
                    }
                }
                assert forall|j: int| 0 <= j < old(solution).used().len() implies {
                    let x = #[trigger] old(solution).used()[j] as int;
                    &&& solution.nodes()[x].customer == old(solution).nodes()[x].customer
                    &&& solution.nodes()[x].load == old(solution).nodes()[x].load
                } by {
                    assert(s1.used()[j] == old(solution).used()[j]);
                }
                assert forall|q: int| 0 <= q < a.len() implies cust_of(solution.nodes(), #[trigger] a[q] as int) == customer by {
                    assert(solution.used()[s1.used().len() + q] == a[q]);
                    assert(a[q] < solution.nodes().len());
                }
                lemma_delivered_appended(&s1, solution, customer);
                let flag = loads_of(solution.nodes(), a) != 0;
                let done2 = done.push(flag);
                assert(customers@.take(k + 1).drop_last() =~= customers@.take(k as int));
                assert(done2.drop_last() =~= done);
                assert forall|c: int| #[trigger] delivered(solution, c) == delivered(old(solution), c) + instance.demand_of(c)
                    * done_count(customers@.take(k + 1), done2, c) by {
                    let x = done_count(customers@.take(k as int), done, c);
                    assert(done_count(customers@.take(k + 1), done2, c) == x + if customer == c && flag {
                        1int
                    } else {
                        0int
                    });
                    if c == customer && flag {
                        assert(instance.demand_of(c) * (x + 1) == instance.demand_of(c) * x + instance.demand_of(c)) by (nonlinear_arith);
                    }
                }
                done = done2;
            }
            k = k + 1;
        }
        proof {
            assert(customers@.take(k as int) =~= customers@);
            assert(delivered_by_marks(old(solution), solution, instance, customers@, done));
        }
    }

    /// Total travel cost.
    pub fn calc_objective(instance: &Instance, solution: &AlkaidSolution) -> (r: i32)
        requires
            instance.wf(),
            solution.valid_for(instance),
            i32::MIN <= solution.objective(instance) <= i32::MAX,
        ensures
            r == solution.objective(instance),
    {
        solution.calc_objective(instance)
    }

    /// Lower bound on the number of vehicles.
    pub fn calc_fleet_lower_bound(instance: &Instance) -> (r: Node)
        requires
            instance.wf(),
            total_demand(instance) + instance.capacity <= i32::MAX,
        ensures
            r == #[verifier::truncate] (fleet_lower_bound(instance) as Node),
    {
        calc_fleet_lower_bound(instance)
    }
}

} // verus!
