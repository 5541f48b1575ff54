//! Split exchange of two slots of different routes: the slot with the
//! larger load keeps the difference and its customer gets a new slot in
//! the other route.
use vstd::prelude::*;
use crate::delta::Delta;
use crate::instance::{Instance, Node};
use crate::random::Random;
use crate::route_context::RouteContext;
use crate::route_context::on_route;
use crate::solution::{AlkaidSolution, pred_of, succ_of, load_of, walk, is_route, route_length, lemma_walk_stop};
use super::base_cache::BaseCache;
use super::swap_star::{NodePairMove, pair_slots};
use super::{
    sound, delivered, lemma_delivered_set_load, relink, set_start, insert_slot, lemma_fits_longer, calc_delta, insertion_delta_of, pair_slots_below,
    pair_cache_fits, routes_in_use, CacheMap, InterOperator,
};
use super::cross::pair_done;

verus! {

/// A cache entry of routes `route_a` and `route_b`: its move uses slots
/// below `len` and, once set, goes between the two routes in one of the
/// two directions.
pub open spec fn split_cache_ok(c: BaseCache<NodePairMove>, len: int, route_a: Node, route_b: Node) -> bool {
    &&& c.delta.wf()
    &&& pair_slots(c.mv, len)
    &&& c.delta.counter != -1 ==> (c.mv.route_x == route_a && c.mv.route_y == route_b) || (c.mv.route_x == route_b
        && c.mv.route_y == route_a)
}

/// Cost change of the split exchange where slot `u` keeps the difference
/// of the two loads, slot `w` goes next to `u` on its cheaper side, and a
/// new slot for the customer of `u` takes the place of `w`.
pub open spec fn split_cost(sol: &AlkaidSolution, inst: &Instance, u: int, w: int) -> int {
    let d = sol.nodes();
    let pw = pred_of(d, w);
    let sw = succ_of(d, w);
    let base = -insertion_delta_of(sol, inst, w, pw, sw) + insertion_delta_of(sol, inst, u, pw, sw);
    let before = insertion_delta_of(sol, inst, w, pred_of(d, u), u);
    let after = insertion_delta_of(sol, inst, w, u, succ_of(d, u));
    base + if before <= after {
        before
    } else {
        after
    }
}

/// The split exchange of the `i`-th slot of route `rx` and the `j`-th slot
/// of route `ry`, where the one with the larger load keeps the difference,
/// costs at least `v`.
pub open spec fn split_bound_at(sol: &AlkaidSolution, inst: &Instance, ctx: &RouteContext, rx: int, ry: int, v: int, i: int, j: int) -> bool {
    let d = sol.nodes();
    let u = walk(d, ctx.head_of(rx), i as nat);
    let w = walk(d, ctx.head_of(ry), j as nat);
    &&& load_of(d, u) > load_of(d, w) ==> v <= split_cost(sol, inst, u, w)
    &&& load_of(d, w) > load_of(d, u) ==> v <= split_cost(sol, inst, w, u)
}

/// Every split exchange of a slot of route `rx` with a slot of route `ry`
/// of a different load (when both are routes) costs at least `v`.
pub open spec fn split_all_bounded(sol: &AlkaidSolution, inst: &Instance, ctx: &RouteContext, rx: int, ry: int, v: int) -> bool {
    let d = sol.nodes();
    let hx = ctx.head_of(rx);
    let hy = ctx.head_of(ry);
    is_route(d, hx) && is_route(d, hy) ==> forall|i: int, j: int|
        0 <= i < route_length(d, hx) && 0 <= j < route_length(d, hy) ==> #[trigger] split_bound_at(sol, inst, ctx, rx, ry, v, i, j)
}

/// A lower value is still a bound.
pub proof fn lemma_split_bounded_mono(sol: &AlkaidSolution, inst: &Instance, ctx: &RouteContext, rx: int, ry: int, v: int, w: int)
    requires
        split_all_bounded(sol, inst, ctx, rx, ry, v),
        w <= v,
    ensures
        split_all_bounded(sol, inst, ctx, rx, ry, w),
{
    let d = sol.nodes();
    let hx = ctx.head_of(rx);
    let hy = ctx.head_of(ry);
    if is_route(d, hx) && is_route(d, hy) {
        assert forall|i: int, j: int|
            0 <= i < route_length(d, hx) && 0 <= j < route_length(d, hy) implies #[trigger] split_bound_at(
            sol,
            inst,
            ctx,
            rx,
            ry,
            w,
            i,
            j,
        ) by {
            assert(split_bound_at(sol, inst, ctx, rx, ry, v, i, j));
        }
    }
}

/// A split exchange that can be applied to `sol`: its slots differ, the
/// slot that stays lies on its route and keeps the (non-negative)
/// difference of their loads.
pub open spec fn split_move_ok(sol: &AlkaidSolution, ctx: &RouteContext, mv: NodePairMove) -> bool {
    let d = sol.nodes();
    let h = ctx.head_of(mv.route_x as int);
    &&& 0 <= mv.route_x < ctx.routes().len()
    &&& mv.node_x != mv.node_y
    &&& 0 <= mv.split_load
    &&& mv.split_load == load_of(d, mv.node_x as int) - load_of(d, mv.node_y as int)
    &&& is_route(d, h) ==> on_route(d, h, mv.node_x as int)
}

/// `sol2` is `sol` after the split exchange `mv`, and `routes` lists its
/// two routes: `node_x` (a used slot, other than `node_y`) keeps the
/// difference of their loads, a new slot serves the customer of `node_x`
/// with the load of `node_y`, and no other slot changes customer or load.
pub open spec fn split_exchanged(sol: &AlkaidSolution, mv: NodePairMove, sol2: &AlkaidSolution, routes: Seq<Node>) -> bool {
    let d = sol.nodes();
    let d2 = sol2.nodes();
    let t = sol.next_slot() as int;
    &&& sol.used().contains(mv.node_x)
    &&& mv.node_x != mv.node_y
    &&& 0 <= mv.split_load == load_of(d, mv.node_x as int) - load_of(d, mv.node_y as int)
    &&& sol2.used() == sol.used().push(sol.next_slot())
    &&& d2[t].customer == d[mv.node_x as int].customer
    &&& d2[t].load == d[mv.node_y as int].load
    &&& d2[mv.node_x as int].load == mv.split_load
    &&& forall|n: int|
        0 <= n < d.len() && n != mv.node_x && n != t ==> (#[trigger] d2[n]).customer == d[n].customer && d2[n].load
            == d[n].load
    &&& routes == seq![mv.route_x, mv.route_y]
}

/// Applies a split node exchange: `node_x` keeps `split_load`, `node_y`
/// moves between `predecessor_x` and `successor_x` of route `route_x`, and
/// a new slot for the customer of `node_x` with the load of `node_y`
/// goes between `predecessor_y` and `successor_y` of route `route_y`.
pub(crate) fn do_split_exchange(instance: &Instance, mv: &NodePairMove, solution: &mut AlkaidSolution, context: &mut RouteContext)
    requires
        instance.wf(),
        sound(old(solution), instance),
        old(context).fits(old(solution)),
        pair_slots(*mv, old(solution).nodes().len() as int),
        0 <= mv.route_x < old(context).routes().len(),
        0 <= mv.route_y < old(context).routes().len(),
        old(solution).room() > 0,
        0 <= mv.split_load,
        old(solution).used().contains(mv.node_x),
        mv.node_x != mv.node_y,
        mv.split_load == old(solution).nodes()[mv.node_x as int].load - old(solution).nodes()[mv.node_y as int].load,
    ensures
        forall|c: int| #[trigger] delivered(final(solution), c) == delivered(old(solution), c),
        sound(final(solution), instance),
        final(solution).nodes().len() >= old(solution).nodes().len(),
        final(context).fits(final(solution)),
        final(context).routes().len() == old(context).routes().len(),
        final(context).pre_loads() == old(context).pre_loads(),
        final(solution).used() == old(solution).used().push(old(solution).next_slot()),
        final(solution).nodes()[old(solution).next_slot() as int].customer == old(solution).nodes()[mv.node_x as int].customer,
        final(solution).nodes()[old(solution).next_slot() as int].load == old(solution).nodes()[mv.node_y as int].load,
        final(solution).nodes()[mv.node_x as int].load == mv.split_load,
        forall|n: int|
            0 <= n < old(solution).nodes().len() && n != mv.node_x && n != old(solution).next_slot() ==> (
            #[trigger] final(solution).nodes()[n]).customer == old(solution).nodes()[n].customer && final(solution).nodes()[n].load
                == old(solution).nodes()[n].load,
        forall|r: int|
            0 <= r < old(context).routes().len() && r != mv.route_x && r != mv.route_y ==> #[trigger] final(context).routes()[r]
                == old(context).routes()[r],
{
    let ghost s0 = *solution;
    let predecessor_y = solution.predecessor(mv.node_y);
    let successor_y = solution.successor(mv.node_y);
    set_start(instance, solution, context.head(mv.route_x));
    let ghost s1 = *solution;
    solution.set_load(mv.node_x, mv.split_load);
    proof {
        lemma_delivered_set_load(&s1, solution, mv.node_x, mv.split_load);
        assert forall|n: int| 0 <= n < solution.nodes().len() implies instance.is_node(
            (#[trigger] solution.nodes()[n]).customer as int,
        ) && 0 <= solution.nodes()[n].load by {
            assert(instance.is_node(s1.nodes()[n].customer as int));
            assert(0 <= s1.nodes()[n].load);
        }
    }
    relink(instance, solution, mv.predecessor_x, mv.node_y);
    relink(instance, solution, mv.node_y, mv.successor_x);
    context.set_head(mv.route_x, solution.successor(0));
    set_start(instance, solution, context.head(mv.route_y));
    relink(instance, solution, predecessor_y, successor_y);
    let customer_x = solution.customer(mv.node_x);
    let load_y = solution.load(mv.node_y);
    insert_slot(instance, solution, customer_x, load_y, mv.predecessor_y, mv.successor_y);
    proof {
        lemma_fits_longer(context, &s0, solution);
    }
    context.set_head(mv.route_y, solution.successor(0));
}

/// Split exchange of two slots of different routes.
#[derive(Debug, Clone, Copy, Default)]
pub struct SdSwapOneOne;

impl SdSwapOneOne {
    /// Offers the split exchange where `node_x` (of route `route_x`) keeps
    /// `split_load`, `node_y` goes next to `node_x` on its cheaper side, and
    /// the new slot takes the place of `node_y`.
    fn sd_swap_one_one_inner_eval(
        instance: &Instance,
        solution: &AlkaidSolution,
        swapped: bool,
        route_x: Node,
        route_y: Node,
        node_x: Node,
        node_y: Node,
        split_load: i32,
        cache: &mut BaseCache<NodePairMove>,
        random: &mut Random,
        Ghost(route_a): Ghost<Node>,
        Ghost(route_b): Ghost<Node>,
    )
        requires
            instance.wf(),
            solution.valid_for(instance),
            solution.is_slot(node_x as int),
            solution.is_slot(node_y as int),
            (route_x == route_a && route_y == route_b) || (route_x == route_b && route_y == route_a),
            split_cache_ok(*old(cache), solution.nodes().len() as int, route_a, route_b),
        ensures
            split_cache_ok(*final(cache), solution.nodes().len() as int, route_a, route_b),
            final(cache).invalidated == old(cache).invalidated,
            final(cache).delta.value <= old(cache).delta.value,
            final(cache).delta.counter == -1 ==> final(cache).delta.value == old(cache).delta.value && old(cache).delta.counter
                == -1,
            (final(cache).mv == old(cache).mv && (final(cache).delta.counter != -1 ==> old(cache).delta.counter != -1)) || (
            final(cache).mv.node_x == node_x && final(cache).mv.node_y == node_y && final(cache).mv.split_load == split_load
                && final(cache).mv.route_x == route_x),
            ({
                let d = solution.nodes();
                let px = pred_of(d, node_x as int);
                let sx = succ_of(d, node_x as int);
                let py = pred_of(d, node_y as int);
                let sy = succ_of(d, node_y as int);
                let base = -insertion_delta_of(solution, instance, node_y as int, py, sy) + insertion_delta_of(
                    solution,
                    instance,
                    node_x as int,
                    py,
                    sy,
                );
                &&& final(cache).delta.value <= base + insertion_delta_of(solution, instance, node_y as int, px, node_x as int)
                &&& final(cache).delta.value <= base + insertion_delta_of(solution, instance, node_y as int, node_x as int, sx)
            }),
    {
        let predecessor_x = solution.predecessor(node_x);
        let successor_x = solution.successor(node_x);
        let predecessor_y = solution.predecessor(node_y);
        let successor_y = solution.successor(node_y);
        let delta = -calc_delta(instance, solution, node_y, predecessor_y, successor_y);
        let delta_x = calc_delta(instance, solution, node_x, predecessor_y, successor_y);
        let before = calc_delta(instance, solution, node_y, predecessor_x, node_x);
        let after = calc_delta(instance, solution, node_y, node_x, successor_x);
        let (predecessor, successor, delta_y) = if before <= after {
            (predecessor_x, node_x, before)
        } else {
            (node_x, successor_x, after)
        };
        let total_delta = delta + delta_x + delta_y;
        if cache.delta.update(total_delta, random) {
            cache.mv = NodePairMove {
                swapped,
                route_x,
                route_y,
                node_x,
                predecessor_x: predecessor,
                successor_x: successor,
                node_y,
                predecessor_y,
                successor_y,
                split_load,
            };
        }
    }

    /// Evaluates, for every slot of route `route_x` and every slot of route
    /// `route_y` with a different load, the split exchange where the slot
    /// with the larger load keeps the difference, and keeps the cheapest
    /// in `cache`. Routes are walked to the depot, or for as many steps as
    /// there are slots.
    fn sd_swap_one_one_inner(
        instance: &Instance,
        solution: &AlkaidSolution,
        context: &RouteContext,
        route_x: Node,
        route_y: Node,
        cache: &mut BaseCache<NodePairMove>,
        random: &mut Random,
    )
        requires
            instance.wf(),
            sound(solution, instance),
            context.fits(solution),
            0 <= route_x < context.routes().len(),
            0 <= route_y < context.routes().len(),
            split_cache_ok(*old(cache), solution.nodes().len() as int, route_x, route_y),
        ensures
            split_cache_ok(*final(cache), solution.nodes().len() as int, route_x, route_y),
            final(cache).invalidated == old(cache).invalidated,
            final(cache).delta.value <= old(cache).delta.value,
            final(cache).delta.counter == -1 ==> final(cache).delta.value == old(cache).delta.value && old(cache).delta.counter
                == -1,
            final(cache).delta.counter != -1 && old(cache).delta.counter == -1 ==> split_move_ok(solution, context, final(cache).mv),
            split_all_bounded(solution, instance, context, route_x as int, route_y as int, final(cache).delta.value as int),
    {
        let len = solution.node_data_len();
        let ghost ns = len as int;
        let ghost d = solution.nodes();
        let ghost hx = context.head_of(route_x as int);
        let ghost hy = context.head_of(route_y as int);
        let ghost rx = route_x as int;
        let ghost ry = route_y as int;
        let mut node_x = context.head(route_x);
        let mut steps_x: usize = 0;
        while node_x != 0 && steps_x < len
            invariant
                instance.wf(),
                sound(solution, instance),
                context.fits(solution),
                len == solution.nodes().len(),
                ns == len,
                d == solution.nodes(),
                hx == context.head_of(route_x as int),
                hy == context.head_of(route_y as int),
                rx == route_x,
                ry == route_y,
                0 <= route_x < context.routes().len(),
                0 <= route_y < context.routes().len(),
                solution.is_slot(node_x as int),
                node_x as int == walk(d, hx, steps_x as nat),
                is_route(d, hx) ==> steps_x <= route_length(d, hx),
                steps_x <= len,
                split_cache_ok(*cache, ns, route_x, route_y),
                cache.invalidated == old(cache).invalidated,
                cache.delta.value <= old(cache).delta.value,
                cache.delta.counter == -1 ==> cache.delta.value == old(cache).delta.value && old(cache).delta.counter == -1,
                cache.delta.counter != -1 && old(cache).delta.counter == -1 ==> split_move_ok(solution, context, cache.mv),
                is_route(d, hy) ==> forall|i: int, j: int|
                    0 <= i < steps_x && 0 <= j < route_length(d, hy) ==> #[trigger] split_bound_at(
                        solution,
                        instance,
                        context,
                        rx,
                        ry,
                        cache.delta.value as int,
                        i,
                        j,
                    ),
            decreases len - steps_x,
        {
            let ghost vx = cache.delta.value;
            let load_x = solution.load(node_x);
            assert(0 <= load_x);
            proof {
                if is_route(d, hx) {
                    lemma_walk_stop(d, hx, steps_x as nat);
                    assert(on_route(d, hx, node_x as int));
                }
            }
            let mut node_y = context.head(route_y);
            let mut steps_y: usize = 0;
            while node_y != 0 && steps_y < len
                invariant
                    instance.wf(),
                    sound(solution, instance),
                    context.fits(solution),
                    len == solution.nodes().len(),
                    ns == len,
                    d == solution.nodes(),
                    hx == context.head_of(route_x as int),
                    hy == context.head_of(route_y as int),
                    rx == route_x,
                    ry == route_y,
                    0 <= route_x < context.routes().len(),
                    0 <= route_y < context.routes().len(),
                    solution.is_slot(node_x as int),
                    solution.is_slot(node_y as int),
                    node_x as int == walk(d, hx, steps_x as nat),
                    node_x != 0,
                    is_route(d, hx) ==> on_route(d, hx, node_x as int),
                    node_y as int == walk(d, hy, steps_y as nat),
                    is_route(d, hy) ==> steps_y <= route_length(d, hy),
                    load_x == solution.nodes()[node_x as int].load,
                    0 <= load_x,
                    steps_y <= len,
                    split_cache_ok(*cache, ns, route_x, route_y),
                    cache.invalidated == old(cache).invalidated,
                    cache.delta.value <= vx,
                    vx <= old(cache).delta.value,
                    cache.delta.counter == -1 ==> cache.delta.value == old(cache).delta.value && old(cache).delta.counter
                        == -1,
                    cache.delta.counter != -1 && old(cache).delta.counter == -1 ==> split_move_ok(solution, context, cache.mv),
                    forall|j: int| 0 <= j < steps_y ==> #[trigger] split_bound_at(
                        solution,
                        instance,
                        context,
                        rx,
                        ry,
                        cache.delta.value as int,
                        steps_x as int,
                        j,
                    ),
                decreases len - steps_y,
            {
                let ghost v0 = cache.delta.value;
                let ghost c0 = *cache;
                let load_y = solution.load(node_y);
                assert(0 <= load_y);
                proof {
                    if is_route(d, hy) {
                        lemma_walk_stop(d, hy, steps_y as nat);
                        assert(on_route(d, hy, node_y as int));
                    }
                }
                if load_x > load_y {
                    Self::sd_swap_one_one_inner_eval(
                        instance,
                        solution,
                        false,
                        route_x,
                        route_y,
                        node_x,
                        node_y,
                        load_x - load_y,
                        cache,
                        random,
                        Ghost(route_x),
                        Ghost(route_y),
                    );
                } else if load_y > load_x {
                    Self::sd_swap_one_one_inner_eval(
                        instance,
                        solution,
                        true,
                        route_y,
                        route_x,
                        node_y,
                        node_x,
                        load_y - load_x,
                        cache,
                        random,
                        Ghost(route_x),
                        Ghost(route_y),
                    );
                }
                proof {
                    assert(split_bound_at(solution, instance, context, rx, ry, cache.delta.value as int, steps_x as int, steps_y as int));
                    assert forall|j: int| 0 <= j < steps_y + 1 implies #[trigger] split_bound_at(
                        solution,
                        instance,
                        context,
                        rx,
                        ry,
                        cache.delta.value as int,
                        steps_x as int,
                        j,
                    ) by {
                        if j < steps_y {
                            assert(split_bound_at(solution, instance, context, rx, ry, v0 as int, steps_x as int, j));
                        }
                    }
                }
                node_y = solution.successor(node_y);
                steps_y = steps_y + 1;
            }
            proof {
                if is_route(d, hy) {
                    lemma_walk_stop(d, hy, steps_y as nat);
                }
                assert forall|i: int, j: int|
                    0 <= i < steps_x + 1 && 0 <= j < route_length(d, hy) && is_route(d, hy) implies #[trigger] split_bound_at(
                    solution,
                    instance,
                    context,
                    rx,
                    ry,
                    cache.delta.value as int,
                    i,
                    j,
                ) by {
                    if i < steps_x {
                        assert(split_bound_at(solution, instance, context, rx, ry, vx as int, i, j));
                    }
                }
            }
            node_x = solution.successor(node_x);
            steps_x = steps_x + 1;
        }
        proof {
            if is_route(d, hx) {
                lemma_walk_stop(d, hx, steps_x as nat);
            }
        }
    }
}

impl InterOperator for SdSwapOneOne {
    fn apply(
        &self,
        instance: &Instance,
        solution: &mut AlkaidSolution,
        context: &mut RouteContext,
        random: &mut Random,
        cache_map: &mut CacheMap,
    ) -> (r: Vec<Node>)
        ensures
            old(solution).room() > 0 && old(cache_map).all_caches_fresh(old(context).routes().len() as int) && routes_in_use(
                old(solution),
                old(context),
            ) && r@.len() == 0 ==> forall|x: int, y: int|
                0 <= x < y < old(context).routes().len() ==> #[trigger] split_all_bounded(old(solution), instance, old(context), x, y, 0),
            r@.len() != 0 ==> exists|mv: NodePairMove| #[trigger] split_exchanged(old(solution), mv, final(solution), r@),
            r@.len() != 0 && old(cache_map).all_caches_fresh(old(context).routes().len() as int) ==> exists|mv: NodePairMove|
                #[trigger] split_exchanged(old(solution), mv, final(solution), r@) && split_move_ok(old(solution), old(context), mv),
    {
        if solution.room_left() == 0 {
            return Vec::new();
        }
        let ghost nc = instance.num_customers as int;
        let ghost fresh0 = cache_map.all_caches_fresh(context.routes().len() as int);
        let mut caches = cache_map.take_sd_one_one(solution, context, Ghost(nc));
        let ghost num_slots = solution.nodes().len() as int;
        let mut best_move = NodePairMove::default();
        let mut best_delta: Delta<i32> = Delta::new(0, -1);
        let n = context.num_routes();
        let mut route_x: Node = 0;
        while route_x < n
            invariant
                instance.wf(),
                sound(solution, instance),
                context.fits(solution),
                n == context.routes().len(),
                num_slots == solution.nodes().len(),
                0 <= route_x <= n,
                pair_cache_fits(caches, n as int, num_slots),
                best_delta.wf(),
                best_delta.counter == -1 ==> best_delta.value == 0,
                best_delta.counter != -1 ==> pair_slots(best_move, num_slots) && 0 <= best_move.route_x < n && 0
                    <= best_move.route_y < n && best_move.route_x != best_move.route_y,
                *solution == *old(solution),
                *context == *old(context),
                best_delta.value <= 0,
                fresh0 ==> (best_delta.counter != -1 ==> split_move_ok(solution, context, best_move)),
                fresh0 ==> forall|a: int, b: int|
                    0 <= a < n && 0 <= b < n && a != b ==> caches.index_of(a) != caches.index_of(b),
                fresh0 ==> forall|a: int, b: int|
                    0 <= a < b < n && !pair_done(a, b, route_x as int, (route_x + 1) as int) ==> #[trigger] caches.entry(
                        caches.index_of(a),
                        caches.index_of(b),
                    ).invalidated,
                fresh0 ==> forall|a: int, b: int|
                    0 <= a < b < n && pair_done(a, b, route_x as int, (route_x + 1) as int) ==> #[trigger] split_all_bounded(
                        solution,
                        instance,
                        context,
                        a,
                        b,
                        best_delta.value as int,
                    ),
            decreases n - route_x,
        {
            let mut route_y: Node = route_x + 1;
            while route_y < n
                invariant
                    instance.wf(),
                    sound(solution, instance),
                    context.fits(solution),
                    n == context.routes().len(),
                    num_slots == solution.nodes().len(),
                    0 <= route_x < n,
                    0 <= route_y <= n,
                    route_x < route_y,
                    pair_cache_fits(caches, n as int, num_slots),
                    best_delta.wf(),
                    best_delta.counter == -1 ==> best_delta.value == 0,
                    best_delta.counter != -1 ==> pair_slots(best_move, num_slots) && 0 <= best_move.route_x < n && 0
                        <= best_move.route_y < n && best_move.route_x != best_move.route_y,
                    *solution == *old(solution),
                    *context == *old(context),
                    best_delta.value <= 0,
                    fresh0 ==> (best_delta.counter != -1 ==> split_move_ok(solution, context, best_move)),
                    fresh0 ==> forall|a: int, b: int|
                        0 <= a < n && 0 <= b < n && a != b ==> caches.index_of(a) != caches.index_of(b),
                    fresh0 ==> forall|a: int, b: int|
                        0 <= a < b < n && !pair_done(a, b, route_x as int, route_y as int) ==> #[trigger] caches.entry(
                            caches.index_of(a),
                            caches.index_of(b),
                        ).invalidated,
                    fresh0 ==> forall|a: int, b: int|
                        0 <= a < b < n && pair_done(a, b, route_x as int, route_y as int) ==> #[trigger] split_all_bounded(
                            solution,
                            instance,
                            context,
                            a,
                            b,
                            best_delta.value as int,
                        ),
                decreases n - route_y,
            {
                let ghost c0 = caches;
                let ghost b0 = best_delta.value;
                let mut cache = caches.get(route_x, route_y);
                assert(pair_slots_below(num_slots)(cache.mv));
                if !cache.try_reuse() {
                    Self::sd_swap_one_one_inner(instance, solution, context, route_x, route_y, &mut cache, random);
                } else if !cache.mv.swapped {
                    cache.mv.route_x = route_x;
                    cache.mv.route_y = route_y;
                } else {
                    cache.mv.route_x = route_y;
                    cache.mv.route_y = route_x;
                }
                caches.set(route_x, route_y, cache);
                assert(pair_slots_below(num_slots)(cache.mv));
                if cache.delta.counter != -1 && best_delta.update_from(&cache.delta, random) {
                    best_move = cache.mv;
                }
                proof {
                    if fresh0 {
                        assert(c0.entry(c0.index_of(route_x as int), c0.index_of(route_y as int)).invalidated);
                        assert(split_all_bounded(solution, instance, context, route_x as int, route_y as int, cache.delta.value as int));
                        assert(best_delta.value <= cache.delta.value);
                        lemma_split_bounded_mono(
                            solution,
                            instance,
                            context,
                            route_x as int,
                            route_y as int,
                            cache.delta.value as int,
                            best_delta.value as int,
                        );
                        assert forall|a: int, b: int|
                            0 <= a < b < n && pair_done(a, b, route_x as int, (route_y + 1) as int) implies #[trigger] split_all_bounded(
                            solution,
                            instance,
                            context,
                            a,
                            b,
                            best_delta.value as int,
                        ) by {
                            if pair_done(a, b, route_x as int, route_y as int) {
                                lemma_split_bounded_mono(solution, instance, context, a, b, b0 as int, best_delta.value as int);
                            }
                        }
                        assert forall|a: int, b: int|
                            0 <= a < b < n && !pair_done(a, b, route_x as int, (route_y + 1) as int) implies #[trigger] caches.entry(
                            caches.index_of(a),
                            caches.index_of(b),
                        ).invalidated by {
                            assert(caches.index_of(a) == c0.index_of(a));
                            assert(caches.index_of(b) == c0.index_of(b));
                            assert(c0.entry(c0.index_of(a), c0.index_of(b)).invalidated);
                            assert(c0.index_of(a) != c0.index_of(route_x as int) || c0.index_of(b) != c0.index_of(route_y as int));
                        }
                    }
                }
                route_y = route_y + 1;
            }
            route_x = route_x + 1;
        }
        cache_map.put_sd_one_one(caches, Ghost(n as int), Ghost(num_slots), Ghost(nc));
        if best_delta.value < 0 {
            proof {
                if fresh0 && routes_in_use(solution, context) {
                    let h = context.head_of(best_move.route_x as int);
                    assert(is_route(solution.nodes(), h));
                    let k = choose|k: nat| k < route_length(solution.nodes(), h) && walk(solution.nodes(), h, k) == best_move.node_x;
                    assert(solution.used().contains(walk(solution.nodes(), h, k) as Node));
                }
            }
            if best_move.split_load < 0 || best_move.node_x == best_move.node_y || !solution.is_used(best_move.node_x)
                || best_move.split_load != solution.load(best_move.node_x) - solution.load(best_move.node_y) {
                return Vec::new();
            }
            let ghost s0 = *solution;
            do_split_exchange(instance, &best_move, solution, context);
            context.cover_slots(solution);
            proof {
                cache_map.lemma_fits_grow(n as int, num_slots, solution.nodes().len() as int, nc);
            }
            let mut routes: Vec<Node> = Vec::new();
            routes.push(best_move.route_x);
            routes.push(best_move.route_y);
            proof {
                assert(routes@ =~= seq![best_move.route_x, best_move.route_y]);
                assert(split_exchanged(&s0, best_move, solution, routes@));
            }
            routes
        } else {
            Vec::new()
        }
    }
}

} // verus!
