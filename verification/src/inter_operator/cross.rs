//! Exchange of the tails of two routes, straight or reversed.
use vstd::prelude::*;
use crate::delta::Delta;
use crate::instance::{Instance, Node};
use crate::intra_operator::edge;
use crate::random::Random;
use crate::route_context::{RouteContext, RouteData, with_head, load_through};
use crate::solution::{AlkaidSolution, NodeData, linked, with_succ, succ_of, walk, is_route, route_length, route_len_is};
use super::base_cache::BaseCache;
use super::swap::{edge_cost, segment_linked};
use super::{same_content, cross_slots_below, cross_cache_fits, CacheMap, InterOperator};

verus! {

/// A tail exchange: after `left_x` in route `route_x` and after `left_y`
/// in route `route_y` (0: from the start); `reversed` joins the head of
/// each route to the reversed head of the other.
#[derive(Debug, Clone, Copy)]
pub struct CrossMove {
    /// Whether the exchange is reversed.
    pub reversed: bool,
    /// First route.
    pub route_x: Node,
    /// Second route.
    pub route_y: Node,
    /// Last slot kept at the start of the first route (0: none).
    pub left_x: Node,
    /// Last slot kept at the start of the second route (0: none).
    pub left_y: Node,
}

impl Default for CrossMove {
    fn default() -> (r: Self)
        ensures
            !r.reversed && r.route_x == 0 && r.route_y == 0 && r.left_x == 0 && r.left_y == 0,
    {
        CrossMove { reversed: false, route_x: 0, route_y: 0, left_x: 0, left_y: 0 }
    }
}

/// The slots of `m` are below `n`.
pub open spec fn cross_slots(m: CrossMove, n: int) -> bool {
    0 <= m.left_x < n && 0 <= m.left_y < n
}

/// Slot after `left` in the route starting at `head` (`head` itself when
/// `left` is the depot).
pub open spec fn after(d: Seq<NodeData>, head: int, left: int) -> int {
    if left != 0 {
        succ_of(d, left)
    } else {
        head
    }
}

/// Cost change of the tail exchange after `lx` in the route from `hx`
/// and after `ly` in the route from `hy`.
pub open spec fn cross_cost(d: Seq<NodeData>, inst: &Instance, hx: int, hy: int, lx: int, ly: int, reversed: bool) -> int {
    let sx = after(d, hx, lx);
    let sy = after(d, hy, ly);
    let base = -edge(d, inst, lx, sx) - edge(d, inst, ly, sy);
    if reversed {
        base + edge(d, inst, lx, ly) + edge(d, inst, sx, sy)
    } else {
        base + edge(d, inst, lx, sy) + edge(d, inst, sx, ly)
    }
}

/// Cost change of a tail exchange.
pub open spec fn cross_delta(d: Seq<NodeData>, inst: &Instance, ctx: &RouteContext, m: CrossMove) -> int {
    cross_cost(
        d,
        inst,
        ctx.head_of(m.route_x as int),
        ctx.head_of(m.route_y as int),
        m.left_x as int,
        m.left_y as int,
        m.reversed,
    )
}

/// The `i`-th place where a route from `head` can be cut: the depot
/// first, then its slots in order.
pub open spec fn cut_at(d: Seq<NodeData>, head: int, i: int) -> int {
    if i <= 0 {
        0
    } else {
        walk(d, head, (i - 1) as nat)
    }
}

/// The tail exchange after `lx` in route `rx` and after `ly` in route
/// `ry` keeps both routes within capacity, by the recorded loads.
pub open spec fn cross_fits(d: Seq<NodeData>, ctx: &RouteContext, cap: int, rx: int, ry: int, lx: int, ly: int, reversed: bool) -> bool {
    let px = load_through(ctx.pre_loads(), d, lx);
    let sx = ctx.routes()[rx].load - px;
    let py = load_through(ctx.pre_loads(), d, ly);
    let sy = ctx.routes()[ry].load - py;
    if reversed {
        px + py <= cap && sx + sy <= cap
    } else {
        px + sy <= cap && sx + py <= cap
    }
}

/// Both tail exchanges at the `i`-th cut of route `rx` and the `j`-th cut
/// of route `ry` cost at least `v` when they fit.
pub open spec fn cross_bound_at(d: Seq<NodeData>, inst: &Instance, ctx: &RouteContext, rx: int, ry: int, v: int, i: int, j: int) -> bool {
    let hx = ctx.head_of(rx);
    let hy = ctx.head_of(ry);
    let lx = cut_at(d, hx, i);
    let ly = cut_at(d, hy, j);
    &&& cross_fits(d, ctx, inst.capacity as int, rx, ry, lx, ly, false) ==> v <= cross_cost(d, inst, hx, hy, lx, ly, false)
    &&& cross_fits(d, ctx, inst.capacity as int, rx, ry, lx, ly, true) ==> v <= cross_cost(d, inst, hx, hy, lx, ly, true)
}

/// Every fitting tail exchange between routes `rx` and `ry` (when both
/// are routes) costs at least `v`.
pub open spec fn cross_all_bounded(d: Seq<NodeData>, inst: &Instance, ctx: &RouteContext, rx: int, ry: int, v: int) -> bool {
    let hx = ctx.head_of(rx);
    let hy = ctx.head_of(ry);
    is_route(d, hx) && is_route(d, hy) ==> forall|i: int, j: int|
        0 <= i <= route_length(d, hx) && 0 <= j <= route_length(d, hy) ==> #[trigger] cross_bound_at(
            d,
            inst,
            ctx,
            rx,
            ry,
            v,
            i,
            j,
        )
}

/// A lower value is still a bound.
pub proof fn lemma_cross_bounded_mono(d: Seq<NodeData>, inst: &Instance, ctx: &RouteContext, rx: int, ry: int, v: int, w: int)
    requires
        cross_all_bounded(d, inst, ctx, rx, ry, v),
        w <= v,
    ensures
        cross_all_bounded(d, inst, ctx, rx, ry, w),
{
    let hx = ctx.head_of(rx);
    let hy = ctx.head_of(ry);
    if is_route(d, hx) && is_route(d, hy) {
        assert forall|i: int, j: int| 0 <= i <= route_length(d, hx) && 0 <= j <= route_length(d, hy) implies #[trigger] cross_bound_at(
            d,
            inst,
            ctx,
            rx,
            ry,
            w,
            i,
            j,
        ) by {
            assert(cross_bound_at(d, inst, ctx, rx, ry, v, i, j));
        }
    }
}

/// The pair of routes `(a, b)` comes before the pair `(x, y)` in the
/// order of evaluation.
pub open spec fn pair_done(a: int, b: int, x: int, y: int) -> bool {
    a < x || (a == x && b < y)
}

/// A cache entry whose move uses slots of `sol` and, once set, whose
/// delta is the move's cost change for routes `route_x` and `route_y` and
/// whose move keeps both routes within capacity by the recorded loads.
pub open spec fn cross_cache_ok(
    c: BaseCache<CrossMove>,
    sol: &AlkaidSolution,
    inst: &Instance,
    ctx: &RouteContext,
    route_x: Node,
    route_y: Node,
) -> bool {
    &&& c.delta.wf()
    &&& cross_slots(c.mv, sol.nodes().len() as int)
    &&& c.delta.counter != -1 ==> c.mv.route_x == route_x && c.mv.route_y == route_y && c.delta.value == cross_delta(
        sol.nodes(),
        inst,
        ctx,
        c.mv,
    )
    &&& c.delta.counter != -1 ==> cross_fits(
        sol.nodes(),
        ctx,
        inst.capacity as int,
        c.mv.route_x as int,
        c.mv.route_y as int,
        c.mv.left_x as int,
        c.mv.left_y as int,
        c.mv.reversed,
    )
}

/// The slots after applying `mv` to the slots `d` with route records
/// `routes`.
pub open spec fn cross_applied(d: Seq<NodeData>, routes: Seq<RouteData>, mv: CrossMove) -> Seq<NodeData> {
    let rx = mv.route_x as int;
    let ry = mv.route_y as int;
    let right_x = after(d, routes[rx].head as int, mv.left_x as int) as Node;
    let right_y = after(d, routes[ry].head as int, mv.left_y as int) as Node;
    if !mv.reversed {
        linked(linked(d, mv.left_x, right_y), mv.left_y, right_x)
    } else {
        let d1 = if right_x != 0 {
            segment_linked(d, right_x, routes[rx].tail, 0, right_y, 1)
        } else {
            linked(d, 0, right_y)
        };
        let r1 = cross_first_routes(d, routes, mv);
        let d2 = with_succ(d1, 0, r1[rx].head);
        if mv.left_y != 0 {
            segment_linked(d2, routes[ry].head, mv.left_y, mv.left_x, 0, 1)
        } else {
            linked(d2, mv.left_x, 0)
        }
    }
}

/// The route records after the first step of a reversed exchange: route
/// `route_y` starts with the reversed tail of route `route_x`.
pub open spec fn cross_first_routes(d: Seq<NodeData>, routes: Seq<RouteData>, mv: CrossMove) -> Seq<RouteData> {
    let rx = mv.route_x as int;
    let ry = mv.route_y as int;
    let right_x = after(d, routes[rx].head as int, mv.left_x as int) as Node;
    let right_y = after(d, routes[ry].head as int, mv.left_y as int) as Node;
    with_head(
        routes,
        ry,
        if right_x != 0 {
            routes[rx].tail
        } else {
            right_y
        },
    )
}

/// The route records after applying `mv` to the slots `d` with route
/// records `routes`.
pub open spec fn cross_routes(d: Seq<NodeData>, routes: Seq<RouteData>, mv: CrossMove) -> Seq<RouteData> {
    let rx = mv.route_x as int;
    let ry = mv.route_y as int;
    let right_x = after(d, routes[rx].head as int, mv.left_x as int) as Node;
    let right_y = after(d, routes[ry].head as int, mv.left_y as int) as Node;
    if !mv.reversed {
        let r1 = if mv.left_x == 0 {
            with_head(routes, rx, right_y)
        } else {
            routes
        };
        if mv.left_y == 0 {
            with_head(r1, ry, right_x)
        } else {
            r1
        }
    } else {
        with_head(cross_first_routes(d, routes, mv), rx, succ_of(cross_applied(d, routes, mv), 0) as Node)
    }
}

/// Tail exchange between two routes.
#[derive(Debug, Clone, Copy, Default)]
pub struct Cross;

impl Cross {
    /// Applies a tail exchange.
    fn do_cross(mv: &CrossMove, solution: &mut AlkaidSolution, context: &mut RouteContext)
        requires
            old(solution).wf(),
            old(context).fits(old(solution)),
            cross_slots(*mv, old(solution).nodes().len() as int),
            0 <= mv.route_x < old(context).routes().len(),
            0 <= mv.route_y < old(context).routes().len(),
        ensures
            final(solution).wf(),
            same_content(old(solution), final(solution)),
            final(context).fits(final(solution)),
            final(context).routes().len() == old(context).routes().len(),
            final(context).pre_loads() == old(context).pre_loads(),
            final(solution).nodes() == cross_applied(old(solution).nodes(), old(context).routes(), *mv),
            final(context).routes() == cross_routes(old(solution).nodes(), old(context).routes(), *mv),
    {
        let right_x = if mv.left_x != 0 { solution.successor(mv.left_x) } else { context.head(mv.route_x) };
        let right_y = if mv.left_y != 0 { solution.successor(mv.left_y) } else { context.head(mv.route_y) };
        if !mv.reversed {
            solution.link(mv.left_x, right_y);
            solution.link(mv.left_y, right_x);
            if mv.left_x == 0 {
                context.set_head(mv.route_x, right_y);
            }
            if mv.left_y == 0 {
                context.set_head(mv.route_y, right_x);
            }
        } else {
            let head_y = context.head(mv.route_y);
            if right_x != 0 {
                let tail_x = context.tail(mv.route_x);
                solution.reversed_link(right_x, tail_x, 0, right_y);
                context.set_head(mv.route_y, tail_x);
            } else {
                solution.link(0, right_y);
                context.set_head(mv.route_y, right_y);
            }
            let head_x = context.head(mv.route_x);
            solution.set_successor(0, head_x);
            if mv.left_y != 0 {
                solution.reversed_link(head_y, mv.left_y, mv.left_x, 0);
            } else {
                solution.link(mv.left_x, 0);
            }
            let new_head = solution.successor(0);
            context.set_head(mv.route_x, new_head);
        }
    }

    /// Evaluates every tail exchange between routes `route_x` and
    /// `route_y` that keeps both within capacity, and keeps the cheapest in
    /// `cache`. Routes are walked to the depot, or for as many steps as
    /// there are slots.
    fn cross_inner(
        instance: &Instance,
        solution: &AlkaidSolution,
        context: &RouteContext,
        route_x: Node,
        route_y: Node,
        cache: &mut BaseCache<CrossMove>,
        random: &mut Random,
    )
        requires
            instance.wf(),
            solution.valid_for(instance),
            context.fits(solution),
            context.pre_loads().len() >= solution.nodes().len(),
            0 <= route_x < context.routes().len(),
            0 <= route_y < context.routes().len(),
            cross_cache_ok(*old(cache), solution, instance, context, route_x, route_y),
        ensures
            cross_cache_ok(*final(cache), solution, instance, context, route_x, route_y),
            final(cache).invalidated == old(cache).invalidated,
            final(cache).delta.value <= old(cache).delta.value,
            final(cache).delta.counter == -1 ==> final(cache).delta.value == old(cache).delta.value,
            cross_all_bounded(solution.nodes(), instance, context, route_x as int, route_y as int, final(cache).delta.value as int),
    {
        let len = solution.node_data_len();
        let cap = instance.capacity as i64;
        let ghost d = solution.nodes();
        let ghost hx = context.head_of(route_x as int);
        let ghost hy = context.head_of(route_y as int);
        let ghost rx = route_x as int;
        let ghost ry = route_y as int;
        let mut left_x: Node = 0;
        let mut steps_x: usize = 0;
        loop
            invariant_except_break
                steps_x < len,
                steps_x >= 1 ==> left_x != 0,
            invariant
                instance.wf(),
                solution.valid_for(instance),
                context.fits(solution),
                context.pre_loads().len() >= solution.nodes().len(),
                d == solution.nodes(),
                len == d.len(),
                cap == instance.capacity,
                hx == context.head_of(route_x as int),
                hy == context.head_of(route_y as int),
                rx == route_x,
                ry == route_y,
                0 <= route_x < context.routes().len(),
                0 <= route_y < context.routes().len(),
                solution.is_slot(left_x as int),
                left_x as int == cut_at(d, hx, steps_x as int),
                steps_x <= len,
                cross_cache_ok(*cache, solution, instance, context, route_x, route_y),
                cache.invalidated == old(cache).invalidated,
                cache.delta.value <= old(cache).delta.value,
                cache.delta.counter == -1 ==> cache.delta.value == old(cache).delta.value,
                is_route(d, hy) ==> forall|i: int, j: int|
                    0 <= i < steps_x && 0 <= j <= route_length(d, hy) ==> #[trigger] cross_bound_at(
                        d,
                        instance,
                        context,
                        rx,
                        ry,
                        cache.delta.value as int,
                        i,
                        j,
                    ),
            ensures
                cross_cache_ok(*cache, solution, instance, context, route_x, route_y),
                cache.invalidated == old(cache).invalidated,
                cache.delta.value <= old(cache).delta.value,
                cache.delta.counter == -1 ==> cache.delta.value == old(cache).delta.value,
                cross_all_bounded(d, instance, context, rx, ry, cache.delta.value as int),
            decreases len - steps_x,
        {
            let successor_x = if left_x != 0 { solution.successor(left_x) } else { context.head(route_x) };
            proof {
                assert(successor_x as int == cut_at(d, hx, steps_x + 1));
            }
            let ghost vx = cache.delta.value;
            let mut left_y: Node = 0;
            let mut steps_y: usize = 0;
            loop
                invariant_except_break
                    steps_y < len,
                    steps_y >= 1 ==> left_y != 0,
                invariant
                    instance.wf(),
                    solution.valid_for(instance),
                    context.fits(solution),
                    context.pre_loads().len() >= solution.nodes().len(),
                    d == solution.nodes(),
                    len == d.len(),
                    cap == instance.capacity,
                    hx == context.head_of(route_x as int),
                    hy == context.head_of(route_y as int),
                    rx == route_x,
                    ry == route_y,
                    0 <= route_x < context.routes().len(),
                    0 <= route_y < context.routes().len(),
                    solution.is_slot(left_x as int),
                    left_x as int == cut_at(d, hx, steps_x as int),
                    solution.is_slot(successor_x as int),
                    successor_x == after(d, context.head_of(route_x as int), left_x as int),
                    solution.is_slot(left_y as int),
                    left_y as int == cut_at(d, hy, steps_y as int),
                    steps_y <= len,
                    cross_cache_ok(*cache, solution, instance, context, route_x, route_y),
                    cache.invalidated == old(cache).invalidated,
                    cache.delta.value <= vx,
                    vx <= old(cache).delta.value,
                    cache.delta.counter == -1 ==> cache.delta.value == old(cache).delta.value,
                    forall|j: int| 0 <= j < steps_y ==> #[trigger] cross_bound_at(
                        d,
                        instance,
                        context,
                        rx,
                        ry,
                        cache.delta.value as int,
                        steps_x as int,
                        j,
                    ),
                ensures
                    cross_cache_ok(*cache, solution, instance, context, route_x, route_y),
                    cache.invalidated == old(cache).invalidated,
                    cache.delta.value <= vx,
                    cache.delta.counter == -1 ==> cache.delta.value == old(cache).delta.value,
                    is_route(d, hy) ==> forall|j: int| 0 <= j <= route_length(d, hy) ==> #[trigger] cross_bound_at(
                        d,
                        instance,
                        context,
                        rx,
                        ry,
                        cache.delta.value as int,
                        steps_x as int,
                        j,
                    ),
                decreases len - steps_y,
            {
                let successor_y = if left_y != 0 { solution.successor(left_y) } else { context.head(route_y) };
                proof {
                    assert(successor_y as int == cut_at(d, hy, steps_y + 1));
                }
                let ghost v0 = cache.delta.value;
                let predecessor_load_x = if left_x != 0 {
                    context.pre_load(left_x) as i64 + solution.load(left_x) as i64
                } else {
                    0
                };
                let successor_load_x = context.load(route_x) as i64 - predecessor_load_x;
                let predecessor_load_y = if left_y != 0 {
                    context.pre_load(left_y) as i64 + solution.load(left_y) as i64
                } else {
                    0
                };
                let successor_load_y = context.load(route_y) as i64 - predecessor_load_y;
                let base = -edge_cost(instance, solution, left_x, successor_x) - edge_cost(
                    instance,
                    solution,
                    left_y,
                    successor_y,
                );
                if predecessor_load_x + successor_load_y <= cap && successor_load_x + predecessor_load_y <= cap {
                    let delta = base + edge_cost(instance, solution, left_x, successor_y) + edge_cost(
                        instance,
                        solution,
                        successor_x,
                        left_y,
                    );
                    if cache.delta.update(delta, random) {
                        cache.mv = CrossMove { reversed: false, route_x, route_y, left_x, left_y };
                    }
                }
                let ghost v1 = cache.delta.value;
                if predecessor_load_x + predecessor_load_y <= cap && successor_load_x + successor_load_y <= cap {
                    let delta = base + edge_cost(instance, solution, left_x, left_y) + edge_cost(
                        instance,
                        solution,
                        successor_x,
                        successor_y,
                    );
                    if cache.delta.update(delta, random) {
                        cache.mv = CrossMove { reversed: true, route_x, route_y, left_x, left_y };
                    }
                }
                proof {
                    assert(cross_bound_at(d, instance, context, rx, ry, cache.delta.value as int, steps_x as int, steps_y as int));
                    assert forall|j: int| 0 <= j < steps_y + 1 implies #[trigger] cross_bound_at(
                        d,
                        instance,
                        context,
                        rx,
                        ry,
                        cache.delta.value as int,
                        steps_x as int,
                        j,
                    ) by {
                        if j < steps_y {
                            assert(cross_bound_at(d, instance, context, rx, ry, v0 as int, steps_x as int, j));
                        }
                    }
                }
                left_y = successor_y;
                steps_y = steps_y + 1;
                if left_y == 0 || steps_y >= len {
                    proof {
                        if is_route(d, hy) {
                            let n = route_length(d, hy);
                            assert(route_len_is(d, hy, n));
                            if left_y == 0 {
                                assert(walk(d, hy, (steps_y - 1) as nat) == 0);
                                assert(steps_y - 1 >= n);
                            }
                        }
                    }
                    break;
                }
            }
            proof {
                assert forall|i: int, j: int|
                    0 <= i < steps_x + 1 && 0 <= j <= route_length(d, hy) && is_route(d, hy) implies #[trigger] cross_bound_at(
                    d,
                    instance,
                    context,
                    rx,
                    ry,
                    cache.delta.value as int,
                    i,
                    j,
                ) by {
                    if i < steps_x {
                        assert(cross_bound_at(d, instance, context, rx, ry, vx as int, i, j));
                    }
                }
            }
            left_x = successor_x;
            steps_x = steps_x + 1;
            if left_x == 0 || steps_x >= len {
                proof {
                    if is_route(d, hx) && is_route(d, hy) {
                        let n = route_length(d, hx);
                        assert(route_len_is(d, hx, n));
                        if left_x == 0 {
                            assert(walk(d, hx, (steps_x - 1) as nat) == 0);
                            assert(steps_x - 1 >= n);
                        }
                    }
                }
                break;
            }
        }
    }
}

/// `d2` is `d` after the tail exchange `mv`, which keeps both its routes
/// within capacity by the recorded loads and lowers the cost; `routes`
/// names its two routes.
pub open spec fn cross_applied_best(d: Seq<NodeData>, inst: &Instance, ctx: &RouteContext, mv: CrossMove, d2: Seq<NodeData>, routes: Seq<Node>) -> bool {
    &&& cross_delta(d, inst, ctx, mv) < 0
    &&& cross_fits(d, ctx, inst.capacity as int, mv.route_x as int, mv.route_y as int, mv.left_x as int, mv.left_y as int, mv.reversed)
    &&& d2 == cross_applied(d, ctx.routes(), mv)
    &&& routes == seq![mv.route_x, mv.route_y]
}

impl InterOperator for Cross {
    fn apply(
        &self,
        instance: &Instance,
        solution: &mut AlkaidSolution,
        context: &mut RouteContext,
        random: &mut Random,
        cache_map: &mut CacheMap,
    ) -> (r: Vec<Node>)
        ensures
            same_content(old(solution), final(solution)),
            old(cache_map).all_caches_fresh(old(context).routes().len() as int) && r@.len() == 0 ==> forall|x: int, y: int|
                0 <= x < y < old(context).routes().len() ==> #[trigger] cross_all_bounded(
                    old(solution).nodes(),
                    instance,
                    old(context),
                    x,
                    y,
                    0,
                ),
            old(cache_map).all_caches_fresh(old(context).routes().len() as int) && r@.len() != 0 ==> exists|mv: CrossMove|
                #[trigger] cross_applied_best(old(solution).nodes(), instance, old(context), mv, final(solution).nodes(), r@),
            r@.len() != 0 ==> exists|mv: CrossMove|
                final(solution).nodes() == #[trigger] cross_applied(old(solution).nodes(), old(context).routes(), mv)
                    && r@ == seq![mv.route_x, mv.route_y],
    {
        let ghost nc = instance.num_customers as int;
        let ghost fresh0 = cache_map.all_caches_fresh(context.routes().len() as int);
        let ghost d = solution.nodes();
        let mut caches = cache_map.take_cross(solution, context, Ghost(nc));
        let ghost num_slots = solution.nodes().len() as int;
        let mut best_move = CrossMove::default();
        let mut best_delta: Delta<i32> = Delta::new(0, -1);
        let n = context.num_routes();
        let mut route_x: Node = 0;
        while route_x < n
            invariant
                instance.wf(),
                solution.valid_for(instance),
                context.fits(solution),
                context.pre_loads().len() >= solution.nodes().len(),
                n == context.routes().len(),
                num_slots == solution.nodes().len(),
                0 <= route_x <= n,
                cross_cache_fits(caches, n as int, num_slots),
                best_delta.wf(),
                best_delta.counter == -1 ==> best_delta.value == 0,
                best_delta.counter != -1 ==> cross_slots(best_move, num_slots) && 0 <= best_move.route_x < n && 0
                    <= best_move.route_y < n && best_move.route_x != best_move.route_y,
                *solution == *old(solution),
                *context == *old(context),
                d == solution.nodes(),
                best_delta.value <= 0,
                fresh0 ==> (best_delta.counter != -1 ==> best_delta.value == cross_delta(d, instance, context, best_move) && cross_fits(
                    d,
                    context,
                    instance.capacity as int,
                    best_move.route_x as int,
                    best_move.route_y as int,
                    best_move.left_x as int,
                    best_move.left_y as int,
                    best_move.reversed,
                )),
                fresh0 ==> forall|a: int, b: int|
                    0 <= a < n && 0 <= b < n && a != b ==> caches.index_of(a) != caches.index_of(b),
                fresh0 ==> forall|a: int, b: int|
                    0 <= a < b < n && !pair_done(a, b, route_x as int, (route_x + 1) as int) ==> #[trigger] caches.entry(
                        caches.index_of(a),
                        caches.index_of(b),
                    ).invalidated,
                fresh0 ==> forall|a: int, b: int|
                    0 <= a < b < n && pair_done(a, b, route_x as int, (route_x + 1) as int) ==> #[trigger] cross_all_bounded(
                        d,
                        instance,
                        context,
                        a,
                        b,
                        best_delta.value as int,
                    ),
            decreases n - route_x,
        {
            let mut route_y: Node = route_x + 1;
            while route_y < n
                invariant
                    instance.wf(),
                    solution.valid_for(instance),
                    context.fits(solution),
                    context.pre_loads().len() >= solution.nodes().len(),
                    n == context.routes().len(),
                    num_slots == solution.nodes().len(),
                    0 <= route_x < n,
                    0 <= route_y <= n,
                    route_x < route_y,
                    cross_cache_fits(caches, n as int, num_slots),
                    best_delta.wf(),
                    best_delta.counter == -1 ==> best_delta.value == 0,
                    best_delta.counter != -1 ==> cross_slots(best_move, num_slots) && 0 <= best_move.route_x < n && 0
                        <= best_move.route_y < n && best_move.route_x != best_move.route_y,
                    *solution == *old(solution),
                    *context == *old(context),
                    d == solution.nodes(),
                    best_delta.value <= 0,
                    fresh0 ==> (best_delta.counter != -1 ==> best_delta.value == cross_delta(d, instance, context, best_move) && cross_fits(
                        d,
                        context,
                        instance.capacity as int,
                        best_move.route_x as int,
                        best_move.route_y as int,
                        best_move.left_x as int,
                        best_move.left_y as int,
                        best_move.reversed,
                    )),
                    fresh0 ==> forall|a: int, b: int|
                        0 <= a < n && 0 <= b < n && a != b ==> caches.index_of(a) != caches.index_of(b),
                    fresh0 ==> forall|a: int, b: int|
                        0 <= a < b < n && !pair_done(a, b, route_x as int, route_y as int) ==> #[trigger] caches.entry(
                            caches.index_of(a),
                            caches.index_of(b),
                        ).invalidated,
                    fresh0 ==> forall|a: int, b: int|
                        0 <= a < b < n && pair_done(a, b, route_x as int, route_y as int) ==> #[trigger] cross_all_bounded(
                            d,
                            instance,
                            context,
                            a,
                            b,
                            best_delta.value as int,
                        ),
                decreases n - route_y,
            {
                let ghost c0 = caches;
                let ghost b0 = best_delta.value;
                let ghost bm0 = best_move;
                let ghost bd0 = best_delta;
                let mut cache = caches.get(route_x, route_y);
                assert(cross_slots_below(num_slots)(cache.mv));
                if !cache.try_reuse() {
                    Self::cross_inner(instance, solution, context, route_x, route_y, &mut cache, random);
                } else {
                    cache.mv.route_x = route_x;
                    cache.mv.route_y = route_y;
                }
                caches.set(route_x, route_y, cache);
                assert(cross_slots_below(num_slots)(cache.mv));
                if cache.delta.counter != -1 && best_delta.update_from(&cache.delta, random) {
                    best_move = cache.mv;
                }
                proof {
                    if fresh0 {
                        assert(c0.entry(c0.index_of(route_x as int), c0.index_of(route_y as int)).invalidated);
                        if best_delta.counter != -1 && !(best_move == bm0 && bd0.counter != -1 && best_delta.value == bd0.value) {
                            assert(cache.delta.counter != -1);
                            assert(best_move == cache.mv);
                            assert(best_delta.value == cache.delta.value);
                        }
                        assert(cross_all_bounded(d, instance, context, route_x as int, route_y as int, cache.delta.value as int));
                        assert(best_delta.value <= cache.delta.value);
                        lemma_cross_bounded_mono(
                            d,
                            instance,
                            context,
                            route_x as int,
                            route_y as int,
                            cache.delta.value as int,
                            best_delta.value as int,
                        );
                        assert forall|a: int, b: int|
                            0 <= a < b < n && pair_done(a, b, route_x as int, (route_y + 1) as int) implies #[trigger] cross_all_bounded(
                            d,
                            instance,
                            context,
                            a,
                            b,
                            best_delta.value as int,
                        ) by {
                            if pair_done(a, b, route_x as int, route_y as int) {
                                lemma_cross_bounded_mono(d, instance, context, a, b, b0 as int, best_delta.value as int);
                            }
                        }
                        assert forall|a: int, b: int|
                            0 <= a < b < n && !pair_done(a, b, route_x as int, (route_y + 1) as int) implies #[trigger] caches.entry(
                            caches.index_of(a),
                            caches.index_of(b),
                        ).invalidated by {
                            assert(caches.index_of(a) == c0.index_of(a));
                            assert(caches.index_of(b) == c0.index_of(b));
                            assert(c0.entry(c0.index_of(a), c0.index_of(b)).invalidated);
                            assert(c0.index_of(a) != c0.index_of(route_x as int) || c0.index_of(b) != c0.index_of(route_y as int));
                        }
                    }
                }
                route_y = route_y + 1;
            }
            route_x = route_x + 1;
        }
        cache_map.put_cross(caches, Ghost(n as int), Ghost(num_slots), Ghost(nc));
        if best_delta.value < 0 {
            let ghost s0 = *solution;
            Self::do_cross(&best_move, solution, context);
            proof {
                if fresh0 {
                    assert(cross_applied_best(s0.nodes(), instance, old(context), best_move, solution.nodes(), seq![best_move.route_x, best_move.route_y]));
                }
                super::lemma_same_content_valid(&s0, solution, instance);
                super::lemma_delivered_same(&s0, solution);
                assert forall|q: int| 0 <= q < solution.nodes().len() implies 0 <= (#[trigger] solution.nodes()[q]).load by {
                    assert(solution.nodes()[q].load == s0.nodes()[q].load);
                }
            }
            let mut routes: Vec<Node> = Vec::new();
            routes.push(best_move.route_x);
            routes.push(best_move.route_y);
            proof {
                assert(routes@ =~= seq![best_move.route_x, best_move.route_y]);
                assert(solution.nodes() == cross_applied(s0.nodes(), old(context).routes(), best_move));
                if fresh0 {
                    assert(cross_applied_best(old(solution).nodes(), instance, old(context), best_move, solution.nodes(), routes@));
                }
            }
            routes
        } else {
            Vec::new()
        }
    }
}

} // verus!
