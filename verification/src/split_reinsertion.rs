//! Reinsertion of a customer's demand, split over several routes when no
//! single route has room for all of it.
use vstd::prelude::*;
use crate::delta::Delta;
use crate::instance::{Instance, Node};
use crate::random::Random;
use crate::route_context::RouteContext;
use crate::chain::{seq_sum, lemma_seq_sum_update, lemma_seq_sum_append, lemma_seq_sum_nonneg};
use crate::solution::{AlkaidSolution, NodeData, load_of, lemma_insert_frame};
use crate::utils::insertion_position;
use crate::utils::{calc_best_insertion, InsertionWithCost};

verus! {

/// A candidate insertion of part of the demand into one route, with the
/// room left in that route.
#[derive(Debug, Clone, Copy)]
pub struct SplitReinsertionMove {
    /// Best insertion position in the route and its cost.
    pub insertion: InsertionWithCost<i32>,
    /// Part of the demand the route can take.
    pub residual: i32,
}

/// `a` is strictly cheaper per unit of load than `b`.
pub open spec fn cheaper(a: SplitReinsertionMove, b: SplitReinsertionMove) -> bool {
    (a.insertion.cost.value as int) * (b.residual as int) < (b.insertion.cost.value as int) * (a.residual as int)
}

fn is_cheaper(a: &SplitReinsertionMove, b: &SplitReinsertionMove) -> (r: bool)
    ensures
        r == cheaper(*a, *b),
{
    let ca = a.insertion.cost.value as i64;
    let cb = b.insertion.cost.value as i64;
    let ra = a.residual as i64;
    let rb = b.residual as i64;
    assert(-0x4000_0000_0000_0000 <= ca * rb <= 0x4000_0000_0000_0000) by (nonlinear_arith)
        requires
            -0x8000_0000 <= ca <= 0x7fff_ffff,
            -0x8000_0000 <= rb <= 0x7fff_ffff,
    ;
    assert(-0x4000_0000_0000_0000 <= cb * ra <= 0x4000_0000_0000_0000) by (nonlinear_arith)
        requires
            -0x8000_0000 <= cb <= 0x7fff_ffff,
            -0x8000_0000 <= ra <= 0x7fff_ffff,
    ;
    ca * rb < cb * ra
}

/// The move after position `k` is not cheaper than the one at `k`.
pub open spec fn in_order(s: Seq<SplitReinsertionMove>, k: int) -> bool {
    !cheaper(s[k + 1], s[k])
}

/// Stable sort of the moves by cost per unit of load (insertion sort).
fn sort_moves(moves: &mut Vec<SplitReinsertionMove>)
    ensures
        final(moves)@.to_multiset() == old(moves)@.to_multiset(),
        seq_sum(residuals(final(moves)@)) == seq_sum(residuals(old(moves)@)),
        final(moves)@.len() == old(moves)@.len(),
        forall|k: int| 0 <= k < final(moves)@.len() - 1 ==> #[trigger] in_order(final(moves)@, k),
{
    let n = moves.len();
    let mut i: usize = 1;
    if n == 0 {
        return;
    }
    while i < n
        invariant
            moves.len() == n,
            1 <= i <= n,
            moves@.to_multiset() == old(moves)@.to_multiset(),
            seq_sum(residuals(moves@)) == seq_sum(residuals(old(moves)@)),
            forall|k: int| 0 <= k < i - 1 ==> #[trigger] in_order(moves@, k),
        decreases n - i,
    {
        let mut j = i;
        while j > 0 && is_cheaper(&moves[j], &moves[j - 1])
            invariant
                moves.len() == n,
                0 <= j <= i < n,
                moves@.to_multiset() == old(moves)@.to_multiset(),
                seq_sum(residuals(moves@)) == seq_sum(residuals(old(moves)@)),
                forall|k: int| 0 <= k < i && k != j - 1 && k != j ==> #[trigger] in_order(moves@, k),
                j < i ==> in_order(moves@, j as int),
                j < i && j > 0 ==> !cheaper(moves@[j as int + 1], moves@[j as int - 1]),
            decreases j,
        {
            let a = moves[j - 1];
            let b = moves[j];
            let ghost before = moves@;
            moves.set(j - 1, b);
            moves.set(j, a);
            proof {
                assert(moves@ == before.update(j as int, before[j - 1]).update(j - 1, before[j as int]));
                crate::random::lemma_swap_multiset(before, j as int, j - 1);
                assert(before.update(j as int, before[j - 1]).update(j - 1, before[j as int])
                    == before.update(j - 1, before[j as int]).update(j as int, before[j - 1]));
                let rs = residuals(before);
                assert(residuals(moves@) =~= rs.update(j - 1, rs[j as int]).update(j as int, rs[j - 1]));
                lemma_seq_sum_update(rs, j - 1, rs[j as int]);
                lemma_seq_sum_update(rs.update(j - 1, rs[j as int]), j as int, rs[j - 1]);
                assert(cheaper(b, a));
                assert(!cheaper(a, b)) by (nonlinear_arith)
                    requires
                        (b.insertion.cost.value as int) * (a.residual as int) < (a.insertion.cost.value as int) * (b.residual as int),
                ;
                let m = moves@;
                assert forall|k: int| 0 <= k < i && k != j - 2 && k != j - 1 implies #[trigger] in_order(m, k) by {
                    if k == j {
                        assert(m[k + 1] == before[k + 1]);
                        assert(m[k] == a);
                    } else if k < j - 2 || k > j {
                        assert(in_order(before, k));
                        assert(m[k] == before[k]);
                        assert(m[k + 1] == before[k + 1]);
                    }
                }
                if j >= 2 {
                    assert(in_order(before, j - 2));
                }
            }
            j = j - 1;
        }
        i = i + 1;
    }
}

/// Total room for `demand` over the routes `0..k`: each route with load
/// below capacity takes up to its remaining capacity.
pub open spec fn room_upto(ctx: &RouteContext, capacity: int, demand: int, k: int) -> int
    decreases k,
{
    if k <= 0 {
        0
    } else {
        room_upto(ctx, capacity, demand, k - 1) + residual_of(ctx, capacity, demand, k - 1)
    }
}

/// Part of `demand` that route `r` can take (0 when it is full).
pub open spec fn residual_of(ctx: &RouteContext, capacity: int, demand: int, r: int) -> int {
    let res = if demand < capacity - ctx.routes()[r].load { demand } else { capacity - ctx.routes()[r].load };
    if res > 0 {
        res
    } else {
        0
    }
}

/// Sum of the loads of slots `s`.
pub open spec fn loads_of(d: Seq<NodeData>, s: Seq<Node>) -> int
    decreases s.len(),
{
    if s.len() == 0 {
        0
    } else {
        loads_of(d, s.drop_last()) + load_of(d, s.last() as int)
    }
}


/// Residuals of `moves`, in order.
pub open spec fn residuals(moves: Seq<SplitReinsertionMove>) -> Seq<int> {
    moves.map_values(|m: SplitReinsertionMove| m.residual as int)
}

/// `m` is the move computed for its route: the route has room for part of
/// `demand`, `m.residual` is that part, and the insertion position is the
/// cheapest one of the route.
pub open spec fn move_ok(
    sol: &AlkaidSolution,
    inst: &Instance,
    ctx: &RouteContext,
    customer: Node,
    demand: i32,
    m: SplitReinsertionMove,
) -> bool {
    let r = m.insertion.route_index as int;
    let p = m.insertion.predecessor as int;
    let s = m.insertion.successor as int;
    &&& 0 <= r < ctx.routes().len()
    &&& m.residual as int == residual_of(ctx, inst.capacity as int, demand as int, r)
    &&& 0 < m.residual <= demand
    &&& sol.is_slot(p)
    &&& sol.is_slot(s)
    &&& insertion_position(sol, ctx.head_of(r), p, s)
    &&& m.insertion.cost.value as int == sol.insertion_cost(inst, customer as int, p, s)
}

/// One move per route with room for part of `demand`, in route order, and
/// the total room over all routes.
fn collect_moves(
    instance: &Instance,
    customer: Node,
    demand: i32,
    solution: &AlkaidSolution,
    context: &RouteContext,
    random: &mut Random,
) -> (r: (Vec<SplitReinsertionMove>, i64))
    requires
        instance.wf(),
        solution.valid_for(instance),
        context.fits(solution),
        instance.is_node(customer as int),
    ensures
        r.1 as int == room_upto(context, instance.capacity as int, demand as int, context.routes().len() as int),
        seq_sum(residuals(r.0@)) == r.1 as int,
        r.0.len() <= context.routes().len(),
        forall|k: int| 0 <= k < r.0.len() ==> move_ok(solution, instance, context, customer, demand, #[trigger] r.0@[k]),
        covers_routes(r.0@, context, instance.capacity as int, demand as int),
{
    let func = |predecessor: Node, successor: Node, c: Node| -> (v: i32)
        requires
            instance.wf(),
            solution.valid_for(instance),
            instance.is_node(c as int),
            solution.is_slot(predecessor as int),
            solution.is_slot(successor as int),
        ensures
            v as int == solution.insertion_cost(instance, c as int, predecessor as int, successor as int),
        { solution.insertion_delta(instance, c, predecessor, successor) };
    assert forall|p: Node, s: Node|
        solution.is_slot(p as int) && solution.is_slot(s as int) implies call_requires(func, (p, s, customer)) by {}
    assert(forall|p: Node, s: Node, c: Node, v: i32| call_ensures(func, (p, s, c), v) ==> v as int == solution.insertion_cost(instance, c as int, p as int, s as int));
    let ghost cap = instance.capacity as int;
    let ghost dem = demand as int;
    let mut moves: Vec<SplitReinsertionMove> = Vec::new();
    let mut sum_residual: i64 = 0;
    let n = context.num_routes();
    let mut route_index: Node = 0;
    while route_index < n
        invariant
            instance.wf(),
            solution.valid_for(instance),
            context.fits(solution),
            instance.is_node(customer as int),
            n == context.routes().len(),
            0 <= route_index <= n,
            cap == instance.capacity,
            dem == demand,
            forall|p: Node, s: Node|
                solution.is_slot(p as int) && solution.is_slot(s as int) ==> call_requires(func, (p, s, customer)),
            forall|p: Node, s: Node, c: Node, v: i32|
                call_ensures(func, (p, s, c), v) ==> v as int == solution.insertion_cost(instance, c as int, p as int, s as int),
            sum_residual as int == room_upto(context, cap, dem, route_index as int),
            0 <= sum_residual <= route_index as int * 2147483647,
            seq_sum(residuals(moves@)) == sum_residual as int,
            moves.len() <= route_index,
            forall|k: int| 0 <= k < moves.len() ==> move_ok(solution, instance, context, customer, demand, #[trigger] moves@[k]),
            forall|r: int|
                0 <= r < route_index && residual_of(context, cap, dem, r) > 0 ==> exists|k: int|
                    0 <= k < moves@.len() && #[trigger] moves@[k].insertion.route_index == r,
        decreases n - route_index,
    {
        let room: i64 = instance.capacity as i64 - context.load(route_index) as i64;
        if room > 0 && demand > 0 {
            let residual: i32 = if (demand as i64) < room { demand } else { room as i32 };
            assert(residual as int == residual_of(context, cap, dem, route_index as int));
            let insertion = calc_best_insertion(solution, func, context, route_index, customer, random);
            let mv = SplitReinsertionMove { insertion, residual };
            let ghost before = moves@;
            moves.push(mv);
            sum_residual = sum_residual + residual as i64;
            proof {
                assert(residuals(moves@) =~= residuals(before).push(residual as int));
                assert(residuals(moves@).drop_last() =~= residuals(before));
                assert(call_ensures(func, (insertion.predecessor, insertion.successor, customer), insertion.cost.value));
                assert(insertion.cost.value as int == solution.insertion_cost(instance, customer as int, insertion.predecessor as int, insertion.successor as int));
                assert(insertion_position(solution, context.head_of(route_index as int), insertion.predecessor as int, insertion.successor as int));
                assert(mv.residual as int == residual_of(context, instance.capacity as int, demand as int, mv.insertion.route_index as int));
                assert(0 < mv.residual <= demand);
                assert(0 <= mv.insertion.route_index < context.routes().len());
                assert(move_ok(solution, instance, context, customer, demand, mv));
                assert forall|r: int|
                    0 <= r < route_index + 1 && residual_of(context, cap, dem, r) > 0 implies exists|k: int|
                        0 <= k < moves@.len() && #[trigger] moves@[k].insertion.route_index == r by {
                    if r == route_index {
                        assert(moves@[moves@.len() - 1].insertion.route_index == r);
                    } else {
                        let k = choose|k: int| 0 <= k < before.len() && #[trigger] before[k].insertion.route_index == r;
                        assert(moves@[k] == before[k]);
                    }
                }
            }
        } else {
            assert(residual_of(context, cap, dem, route_index as int) == 0);
        }
        route_index = route_index + 1;
    }
    (moves, sum_residual)
}

/// A prefix of a sequence of non-negative numbers sums to between 0 and the
/// whole sum.
pub proof fn lemma_seq_sum_prefix_bound(s: Seq<int>, j: int)
    requires
        0 <= j <= s.len(),
        forall|k: int| 0 <= k < s.len() ==> 0 <= #[trigger] s[k],
    ensures
        0 <= seq_sum(s.take(j)) <= seq_sum(s),
{
    assert(s =~= s.take(j) + s.skip(j));
    lemma_seq_sum_append(s.take(j), s.skip(j));
    lemma_seq_sum_nonneg(s.take(j));
    lemma_seq_sum_nonneg(s.skip(j));
}

/// Loads of the slots `s` agree in `d1` and `d2` when each of them does.
proof fn lemma_loads_frame(d1: Seq<NodeData>, d2: Seq<NodeData>, s: Seq<Node>)
    requires
        forall|k: int| 0 <= k < s.len() ==> load_of(d1, #[trigger] s[k] as int) == load_of(d2, s[k] as int),
    ensures
        loads_of(d1, s) == loads_of(d2, s),
    decreases s.len(),
{
    if s.len() > 0 {
        lemma_loads_frame(d1, d2, s.drop_last());
    }
}

/// Every route of `ctx` with room for part of `demand` has a move in `ms`.
pub open spec fn covers_routes(ms: Seq<SplitReinsertionMove>, ctx: &RouteContext, capacity: int, demand: int) -> bool {
    forall|r: int|
        0 <= r < ctx.routes().len() && residual_of(ctx, capacity, demand, r) > 0 ==> exists|k: int|
            0 <= k < ms.len() && #[trigger] ms[k].insertion.route_index == r
}

/// Load of the `q`-th part: what move `ms[q]` takes of the demand still
/// left after the parts before it.
pub open spec fn part_load(d: Seq<NodeData>, added: Seq<Node>, ms: Seq<SplitReinsertionMove>, demand: int, q: int) -> int {
    let left = demand - loads_of(d, added.take(q));
    if left < ms[q].residual {
        left
    } else {
        ms[q].residual as int
    }
}

/// Cheapest per unit first: the demand of `customer` went, part by part,
/// to the candidate moves `ms` (one for every route with room, each at a
/// cheapest position of its route) taken in order of non-decreasing cost
/// per unit of load, each part as large as its route's room and the
/// demand left allow; `sol` is `sol0` with those parts added.
pub open spec fn taken_cheapest_first(
    sol0: &AlkaidSolution,
    inst: &Instance,
    ctx0: &RouteContext,
    customer: Node,
    demand: i32,
    ms: Seq<SplitReinsertionMove>,
    sol: &AlkaidSolution,
) -> bool {
    let added = added_slots(sol0, sol);
    &&& forall|k: int| 0 <= k < ms.len() ==> move_ok(sol0, inst, ctx0, customer, demand, #[trigger] ms[k])
    &&& covers_routes(ms, ctx0, inst.capacity as int, demand as int)
    &&& forall|k: int| 0 <= k < ms.len() - 1 ==> #[trigger] in_order(ms, k)
    &&& added.len() <= ms.len()
    &&& forall|q: int|
        0 <= q < added.len() ==> load_of(sol.nodes(), #[trigger] added[q] as int) == part_load(
            sol.nodes(),
            added,
            ms,
            demand as int,
            q,
        )
}

/// Not being cheaper per unit (with positive residuals) is transitive.
proof fn lemma_not_cheaper_trans(a: SplitReinsertionMove, b: SplitReinsertionMove, c: SplitReinsertionMove)
    requires
        a.residual > 0,
        b.residual > 0,
        c.residual > 0,
        !cheaper(b, a),
        !cheaper(c, b),
    ensures
        !cheaper(c, a),
{
    let ca = a.insertion.cost.value as int;
    let cb = b.insertion.cost.value as int;
    let cc = c.insertion.cost.value as int;
    let ra = a.residual as int;
    let rb = b.residual as int;
    let rc = c.residual as int;
    assert(cc * ra >= ca * rc) by (nonlinear_arith)
        requires
            ra > 0,
            rb > 0,
            rc > 0,
            cb * ra >= ca * rb,
            cc * rb >= cb * rc,
    {
        assert(cb * ra * rc >= ca * rb * rc);
        assert(cc * rb * ra >= cb * rc * ra);
        assert(cc * ra * rb >= ca * rc * rb);
    }
}

/// In moves ordered by non-decreasing cost per unit (adjacent pairs in
/// order, positive residuals), no later move is strictly cheaper per unit
/// than an earlier one.
pub proof fn lemma_ordered_moves(ms: Seq<SplitReinsertionMove>, a: int, b: int)
    requires
        forall|k: int| 0 <= k < ms.len() - 1 ==> #[trigger] in_order(ms, k),
        forall|k: int| 0 <= k < ms.len() ==> (#[trigger] ms[k]).residual > 0,
        0 <= a <= b < ms.len(),
    ensures
        !cheaper(ms[b], ms[a]),
    decreases b - a,
{
    if a == b {
        assert(!cheaper(ms[a], ms[a])) by (nonlinear_arith);
    } else {
        lemma_ordered_moves(ms, a, b - 1);
        assert(in_order(ms, b - 1));
        lemma_not_cheaper_trans(ms[a], ms[b - 1], ms[b]);
    }
}

/// Cheapest per unit first: after a reinsertion taken in that order, no
/// route with room that received no part is strictly cheaper per unit of
/// load than a route that received one.
pub proof fn lemma_no_cheaper_route_left_out(
    sol0: &AlkaidSolution,
    inst: &Instance,
    ctx0: &RouteContext,
    customer: Node,
    demand: i32,
    ms: Seq<SplitReinsertionMove>,
    sol: &AlkaidSolution,
    q: int,
    k: int,
)
    requires
        taken_cheapest_first(sol0, inst, ctx0, customer, demand, ms, sol),
        0 <= q < added_slots(sol0, sol).len() <= k < ms.len(),
    ensures
        !cheaper(ms[k], ms[q]),
{
    assert forall|t: int| 0 <= t < ms.len() implies (#[trigger] ms[t]).residual > 0 by {
        assert(move_ok(sol0, inst, ctx0, customer, demand, ms[t]));
    }
    lemma_ordered_moves(ms, q, k);
}

/// Slots taken by a reinsertion: those appended to the used slots.
pub open spec fn added_slots(before: &AlkaidSolution, after: &AlkaidSolution) -> Seq<Node> {
    after.used().skip(before.used().len() as int)
}

/// Reinserts `demand` units of `customer`, split over the routes when no
/// single route has room for all of it.
///
/// Every route with room takes part in a candidate move at its cheapest
/// insertion position; the moves are tried from the cheapest per unit of
/// load. While the remaining candidates still have room for the remaining
/// demand, a move is skipped when the next 24-bit random draw is below
/// `blink_threshold` (a skip rate of `blink_threshold / 2^24`). When all
/// routes together have less room than `demand`, nothing changes.
pub fn split_reinsertion(
    instance: &Instance,
    customer: Node,
    demand: i32,
    blink_threshold: u32,
    solution: &mut AlkaidSolution,
    context: &mut RouteContext,
    random: &mut Random,
)
    requires
        instance.wf(),
        old(solution).valid_for(instance),
        old(context).fits(old(solution)),
        instance.is_node(customer as int),
        old(solution).room() >= old(context).routes().len(),
    ensures
        final(solution).valid_for(instance),
        final(context).fits(final(solution)),
        final(context).routes().len() == old(context).routes().len(),
        room_upto(old(context), instance.capacity as int, demand as int, old(context).routes().len() as int)
            < demand || demand <= 0 ==> *final(solution) == *old(solution) && *final(context) == *old(context),
        final(solution).used().len() >= old(solution).used().len(),
        final(solution).used().take(old(solution).used().len() as int) == old(solution).used(),
        added_slots(old(solution), final(solution)).len() <= old(context).routes().len(),
        final(solution).room() == old(solution).room() - added_slots(old(solution), final(solution)).len(),
        forall|k: int|
            0 <= k < old(solution).used().len() ==> {
                let x = #[trigger] old(solution).used()[k] as int;
                &&& final(solution).nodes()[x].customer == old(solution).nodes()[x].customer
                &&& final(solution).nodes()[x].load == old(solution).nodes()[x].load
            },
        forall|k: int|
            0 <= k < added_slots(old(solution), final(solution)).len() ==> {
                let x = #[trigger] added_slots(old(solution), final(solution))[k] as int;
                &&& final(solution).nodes()[x].customer == customer
                &&& final(solution).nodes()[x].load > 0
            },
        room_upto(old(context), instance.capacity as int, demand as int, old(context).routes().len() as int)
            >= demand ==> loads_of(final(solution).nodes(), added_slots(old(solution), final(solution))) == if demand
            > 0 {
            demand as int
        } else {
            0
        },
        blink_threshold == 0 && demand > 0 && room_upto(
            old(context),
            instance.capacity as int,
            demand as int,
            old(context).routes().len() as int,
        ) >= demand ==> exists|ms: Seq<SplitReinsertionMove>|
            #[trigger] taken_cheapest_first(old(solution), instance, old(context), customer, demand, ms, final(solution)),
{
    let ghost sol0 = *solution;
    let ghost ctx0 = *context;
    if demand <= 0 {
        assert(added_slots(&sol0, solution) =~= Seq::<Node>::empty());
        return;
    }
    let (mut moves, total) = collect_moves(instance, customer, demand, solution, context, random);
    if total < demand as i64 {
        assert(added_slots(&sol0, solution) =~= Seq::<Node>::empty());
        return;
    }
    let ghost unsorted = moves@;
    sort_moves(&mut moves);
    proof {
        assert forall|k: int| 0 <= k < moves@.len() implies move_ok(&sol0, instance, &ctx0, customer, demand, #[trigger] moves@[k]) by {
            vstd::seq_lib::to_multiset_contains(moves@, moves@[k]);
            vstd::seq_lib::to_multiset_contains(unsorted, moves@[k]);
            assert(moves@.contains(moves@[k]));
            let t = choose|t: int| 0 <= t < unsorted.len() && unsorted[t] == moves@[k];
            assert(move_ok(&sol0, instance, &ctx0, customer, demand, unsorted[t]));
        }
        assert forall|r: int|
            0 <= r < ctx0.routes().len() && residual_of(&ctx0, instance.capacity as int, demand as int, r) > 0 implies exists|k: int|
                0 <= k < moves@.len() && #[trigger] moves@[k].insertion.route_index == r by {
            let t = choose|t: int| 0 <= t < unsorted.len() && #[trigger] unsorted[t].insertion.route_index == r;
            vstd::seq_lib::to_multiset_contains(unsorted, unsorted[t]);
            assert(unsorted.contains(unsorted[t]));
            vstd::seq_lib::to_multiset_contains(moves@, unsorted[t]);
            let k = choose|k: int| 0 <= k < moves@.len() && moves@[k] == unsorted[t];
            assert(moves@[k].insertion.route_index == r);
        }
        assert(covers_routes(moves@, &ctx0, instance.capacity as int, demand as int));
    }
    let ghost ms = moves@;
    let ghost n_routes = ctx0.routes().len();
    let mut sum_residual: i64 = total;
    let mut remaining: i32 = demand;
    let mut i: usize = 0;
    let ghost mut added: Seq<Node> = Seq::empty();
    while i < moves.len() && remaining > 0
        invariant
            instance.wf(),
            instance.is_node(customer as int),
            moves@ == ms,
            ms.len() <= n_routes,
            n_routes == ctx0.routes().len(),
            0 <= i <= ms.len(),
            forall|k: int| 0 <= k < ms.len() ==> move_ok(&sol0, instance, &ctx0, customer, demand, #[trigger] ms[k]),
            sum_residual as int == seq_sum(residuals(ms)) - seq_sum(residuals(ms.take(i as int))),
            0 <= remaining <= demand,
            remaining as int <= sum_residual,
            solution.valid_for(instance),
            context.fits(solution),
            context.routes().len() == n_routes,
            solution.nodes().len() >= sol0.nodes().len(),
            solution.room() + added.len() == sol0.room(),
            sol0.room() >= n_routes,
            added.len() <= i,
            solution.used() == sol0.used() + added,
            forall|k: int|
                0 <= k < added.len() ==> 0 <= #[trigger] added[k] < solution.nodes().len() && solution.nodes()[added[k] as int].customer
                    == customer && solution.nodes()[added[k] as int].load > 0,
            forall|k: int|
                0 <= k < sol0.used().len() ==> solution.nodes()[#[trigger] sol0.used()[k] as int].customer
                    == sol0.nodes()[sol0.used()[k] as int].customer && solution.nodes()[sol0.used()[k] as int].load
                    == sol0.nodes()[sol0.used()[k] as int].load,
            loads_of(solution.nodes(), added) + remaining == demand,
            covers_routes(ms, &ctx0, instance.capacity as int, demand as int),
            forall|k: int| 0 <= k < ms.len() - 1 ==> #[trigger] in_order(ms, k),
            blink_threshold == 0 ==> added.len() == i,
            blink_threshold == 0 ==> forall|q: int|
                0 <= q < added.len() ==> load_of(solution.nodes(), #[trigger] added[q] as int) == part_load(
                    solution.nodes(),
                    added,
                    ms,
                    demand as int,
                    q,
                ),
        decreases ms.len() - i,
    {
        let mv = moves[i];
        assert(move_ok(&sol0, instance, &ctx0, customer, demand, mv));
        proof {
            assert(ms.take(i + 1).drop_last() =~= ms.take(i as int));
            assert(residuals(ms.take(i + 1)).drop_last() =~= residuals(ms.take(i as int)));
            assert(residuals(ms.take(i + 1)).last() == mv.residual);
            assert(residuals(ms.take(i + 1)) =~= residuals(ms).take(i + 1));
            assert forall|k: int| 0 <= k < residuals(ms).len() implies 0 <= #[trigger] residuals(ms)[k] by {
                assert(move_ok(&sol0, instance, &ctx0, customer, demand, ms[k]));
            }
            lemma_seq_sum_prefix_bound(residuals(ms), i as int + 1);
        }
        sum_residual = sum_residual - mv.residual as i64;
        let mut skip = false;
        if sum_residual >= remaining as i64 {
            let bits = random.next_float_bits();
            skip = bits < blink_threshold;
        }
        if !skip {
            let load = if remaining < mv.residual { remaining } else { mv.residual };
            let ghost sol1 = *solution;
            let ghost t = solution.next_slot();
            proof {
                lemma_insert_frame(sol1, customer, load, mv.insertion.predecessor, mv.insertion.successor);
            }
            let node_index = solution.insert(customer, load, mv.insertion.predecessor, mv.insertion.successor);
            if mv.insertion.predecessor == 0 {
                context.set_head(mv.insertion.route_index, node_index);
            }
            proof {
                assert(context.fits(solution));
            }
            context.update_route_context(solution, mv.insertion.route_index, mv.insertion.predecessor);
            proof {
                let d1 = sol1.nodes();
                let d2 = solution.nodes();
                assert forall|k: int| 0 <= k < added.len() implies load_of(d1, #[trigger] added[k] as int) == load_of(d2, added[k] as int) by {
                    assert(sol1.used()[sol0.used().len() + k] == added[k]);
                    assert(sol1.used().contains(added[k]));
                }
                lemma_loads_frame(d1, d2, added);
                let added2 = added.push(node_index);
                assert(added2.drop_last() =~= added);
                if blink_threshold == 0 {
                    assert(load_of(d2, node_index as int) == load);
                    assert forall|q: int| 0 <= q < added2.len() implies load_of(d2, #[trigger] added2[q] as int) == part_load(
                        d2,
                        added2,
                        ms,
                        demand as int,
                        q,
                    ) by {
                        assert(added2.take(q) =~= added.take(q));
                        assert forall|t: int| 0 <= t < added.take(q).len() implies load_of(d1, #[trigger] added.take(q)[t] as int)
                            == load_of(d2, added.take(q)[t] as int) by {
                            assert(added.take(q)[t] == added[t]);
                        }
                        lemma_loads_frame(d1, d2, added.take(q));
                        if q < added.len() {
                            assert(added2[q] == added[q]);
                        } else {
                            assert(added.take(q) =~= added);
                        }
                    }
                }
                added = added2;
                assert(solution.used() =~= sol0.used() + added);
                assert forall|k: int| 0 <= k < sol0.used().len() implies solution.nodes()[#[trigger] sol0.used()[k] as int].customer
                    == sol0.nodes()[sol0.used()[k] as int].customer && solution.nodes()[sol0.used()[k] as int].load
                    == sol0.nodes()[sol0.used()[k] as int].load by {
                    assert(sol1.used()[k] == sol0.used()[k]);
                    assert(sol1.used().contains(sol0.used()[k]));
                }
            }
            remaining = remaining - load;
        }
        i = i + 1;
    }
    proof {
        if remaining > 0 {
            assert(i == ms.len());
            assert(ms.take(i as int) =~= ms);
        }
        assert(solution.used().take(sol0.used().len() as int) =~= sol0.used());
        assert(added_slots(&sol0, solution) =~= added);
        if blink_threshold == 0 {
            assert(taken_cheapest_first(&sol0, instance, &ctx0, customer, demand, ms, solution));
        }
    }
}

} // verus!
