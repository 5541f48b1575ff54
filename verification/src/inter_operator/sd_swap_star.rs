//! Split exchange of two slots of different routes, with each arriving
//! customer put at its cheapest position.
use vstd::prelude::*;
use crate::delta::Delta;
use crate::instance::{Instance, Node};
use crate::random::Random;
use crate::route_context::RouteContext;
use crate::solution::AlkaidSolution;
use super::base_cache::BaseCache;
use super::base_star::{StarCaches, Insertion, walk_slots};
use super::sd_swap_one_one::{split_cache_ok, do_split_exchange, split_exchanged};
use super::swap_star::{NodePairMove, pair_slots, improve_with, improved};
use super::{sound, calc_delta, insertion_delta_of, pair_slots_below, pair_cache_fits, CacheMap, InterOperator};
use super::cross::pair_done;

verus! {

/// The cheapest recorded position in route `route_x` for the customer of
/// `node_y`.
pub open spec fn arrival_y(sol: &AlkaidSolution, star: StarCaches, route_x: Node, node_y: Node) -> Insertion {
    star.rows()[route_x as int]@[sol.nodes()[node_y as int].customer as int].items()[0]
}

/// Where the new slot for the customer of `node_x` goes in route
/// `route_y`, with its cost: the place of `node_y`, or a cheaper recorded
/// position of that customer in route `route_y` not touching `node_y`.
pub open spec fn arrival_x(
    sol: &AlkaidSolution,
    inst: &Instance,
    star: StarCaches,
    route_y: Node,
    node_x: Node,
    node_y: Node,
) -> (i32, Node, Node) {
    let d = sol.nodes();
    let py = d[node_y as int].predecessor;
    let sy = d[node_y as int].successor;
    improved(
        star.rows()[route_y as int]@[d[node_x as int].customer as int].items(),
        node_y,
        insertion_delta_of(sol, inst, node_x as int, py as int, sy as int) as i32,
        py,
        sy,
    )
}

/// Cost change of the split exchange offered for `node_x` and `node_y`:
/// `node_y` leaves its route, the new slot takes its place (or a cheaper
/// recorded one) and `node_y` goes to its cheapest recorded position in
/// route `route_x`.
pub open spec fn offer_total(
    sol: &AlkaidSolution,
    inst: &Instance,
    star: StarCaches,
    route_x: Node,
    route_y: Node,
    node_x: Node,
    node_y: Node,
) -> int {
    let d = sol.nodes();
    -insertion_delta_of(sol, inst, node_y as int, d[node_y as int].predecessor as int, d[node_y as int].successor as int)
        + arrival_x(sol, inst, star, route_y, node_x, node_y).0 + arrival_y(sol, star, route_x, node_y).delta.value
}

/// `mv` exchanges a slot of walk `wx` (route `route_x`) and a slot of walk
/// `wy` (route `route_y`), the one with the larger load, which keeps the
/// difference, being its `node_x`.
pub open spec fn walk_move(sol: &AlkaidSolution, mv: NodePairMove, wx: Seq<Node>, wy: Seq<Node>, route_x: Node, route_y: Node) -> bool {
    let d = sol.nodes();
    &&& (mv.route_x == route_x && mv.route_y == route_y && wx.contains(mv.node_x) && wy.contains(mv.node_y)) || (mv.route_x
        == route_y && mv.route_y == route_x && wy.contains(mv.node_x) && wx.contains(mv.node_y))
    &&& d[mv.node_x as int].load > d[mv.node_y as int].load
    &&& mv.split_load == d[mv.node_x as int].load - d[mv.node_y as int].load
}

/// The move offered for `node_x` and `node_y`: `node_x` keeps
/// `split_load`, `node_y` goes to its cheapest recorded position in route
/// `route_x`, and the new slot to the place given by `arrival_x`.
pub open spec fn offered_move(
    sol: &AlkaidSolution,
    inst: &Instance,
    star: StarCaches,
    swapped: bool,
    route_x: Node,
    route_y: Node,
    node_x: Node,
    node_y: Node,
    split_load: i32,
) -> NodePairMove {
    let ins_y = arrival_y(sol, star, route_x, node_y);
    let ax = arrival_x(sol, inst, star, route_y, node_x, node_y);
    NodePairMove {
        swapped,
        route_x,
        route_y,
        node_x,
        predecessor_y: ax.1,
        successor_y: ax.2,
        node_y,
        predecessor_x: ins_y.predecessor,
        successor_x: ins_y.successor,
        split_load,
    }
}

/// The split exchange offered for slot `a` of route `route_x` and slot
/// `b` of route `route_y` costs at least `v`, or none is offered: the slot
/// with the larger load keeps the difference, and none is offered for
/// equal loads or when the other slot's customer has no recorded position
/// in the first slot's route.
pub open spec fn offer_at_least(
    v: int,
    sol: &AlkaidSolution,
    inst: &Instance,
    star: StarCaches,
    route_x: Node,
    route_y: Node,
    a: Node,
    b: Node,
) -> bool {
    let la = sol.nodes()[a as int].load;
    let lb = sol.nodes()[b as int].load;
    &&& la > lb && arrival_y(sol, star, route_x, b).delta.counter != -1 ==> v <= offer_total(
        sol,
        inst,
        star,
        route_x,
        route_y,
        a,
        b,
    )
    &&& lb > la && arrival_y(sol, star, route_y, a).delta.counter != -1 ==> v <= offer_total(
        sol,
        inst,
        star,
        route_y,
        route_x,
        b,
        a,
    )
}

/// Every slot met walking each route of `ctx` from its head (to the depot,
/// or for as many steps as there are slots) is in use.
pub open spec fn walks_in_use(sol: &AlkaidSolution, ctx: &RouteContext) -> bool {
    forall|r: int, i: int|
        0 <= r < ctx.routes().len() && 0 <= i < walk_slots(sol.nodes(), ctx.head_of(r), sol.nodes().len()).len()
            ==> sol.used().contains(#[trigger] walk_slots(sol.nodes(), ctx.head_of(r), sol.nodes().len())[i])
}

/// Every split exchange offered between the slots of routes `a` and `b`
/// of `ctx`, with the positions recorded in `star`, costs at least `v`.
pub open spec fn star_pair_bounded(
    sol: &AlkaidSolution,
    inst: &Instance,
    ctx: &RouteContext,
    star: StarCaches,
    a: int,
    b: int,
    v: int,
) -> bool {
    let d = sol.nodes();
    let wx = walk_slots(d, ctx.head_of(a), d.len());
    let wy = walk_slots(d, ctx.head_of(b), d.len());
    forall|i: int, j: int|
        0 <= i < wx.len() && 0 <= j < wy.len() ==> offer_at_least(
            v,
            sol,
            inst,
            star,
            a as Node,
            b as Node,
            #[trigger] wx[i],
            #[trigger] wy[j],
        )
}

/// Every pair of routes `a < b` below `n` scanned before pair (`x`, `y`)
/// has its offers bounded by `v` with the positions of `star`, and the
/// position lists of both routes computed.
pub open spec fn pairs_bounded(
    sol: &AlkaidSolution,
    inst: &Instance,
    ctx: &RouteContext,
    star: StarCaches,
    n: int,
    x: int,
    y: int,
    v: int,
    nc: int,
) -> bool {
    forall|a: int, b: int|
        0 <= a < b < n && pair_done(a, b, x, y) ==> #[trigger] star_pair_bounded(sol, inst, ctx, star, a, b, v) && a
            < star.rows().len() && b < star.rows().len() && star.rows()[a]@.len() == nc && star.rows()[b]@.len() == nc
}

/// The checks before applying `mv` pass: `node_x` is in use, differs from
/// `node_y`, and keeps the non-negative difference of their loads.
pub open spec fn star_move_ok(sol: &AlkaidSolution, mv: NodePairMove) -> bool {
    let d = sol.nodes();
    &&& sol.used().contains(mv.node_x)
    &&& mv.node_x != mv.node_y
    &&& 0 <= mv.split_load
    &&& mv.split_load == d[mv.node_x as int].load - d[mv.node_y as int].load
}

/// A move between the walks of two routes whose slots are in use passes
/// the checks.
pub proof fn lemma_walk_move_ok(sol: &AlkaidSolution, ctx: &RouteContext, mv: NodePairMove, a: int, b: int)
    requires
        walks_in_use(sol, ctx),
        0 <= a < ctx.routes().len(),
        0 <= b < ctx.routes().len(),
        walk_move(
            sol,
            mv,
            walk_slots(sol.nodes(), ctx.head_of(a), sol.nodes().len()),
            walk_slots(sol.nodes(), ctx.head_of(b), sol.nodes().len()),
            a as Node,
            b as Node,
        ),
    ensures
        star_move_ok(sol, mv),
{
    let d = sol.nodes();
    let wx = walk_slots(d, ctx.head_of(a), d.len());
    let wy = walk_slots(d, ctx.head_of(b), d.len());
    if wx.contains(mv.node_x) {
        let i = choose|i: int| 0 <= i < wx.len() && wx[i] == mv.node_x;
        assert(sol.used().contains(walk_slots(d, ctx.head_of(a), d.len())[i]));
    } else {
        let i = choose|i: int| 0 <= i < wy.len() && wy[i] == mv.node_x;
        assert(sol.used().contains(walk_slots(d, ctx.head_of(b), d.len())[i]));
    }
}

/// A lower bound stays a bound when lowered, and only the rows of the two
/// routes in `star` matter.
pub proof fn lemma_star_pair_bounded_mono(
    sol: &AlkaidSolution,
    inst: &Instance,
    ctx: &RouteContext,
    star: StarCaches,
    star2: StarCaches,
    a: int,
    b: int,
    v: int,
    w: int,
)
    requires
        star_pair_bounded(sol, inst, ctx, star, a, b, v),
        w <= v,
        0 <= a <= i16::MAX,
        0 <= b <= i16::MAX,
        star2.rows()[a] == star.rows()[a],
        star2.rows()[b] == star.rows()[b],
    ensures
        star_pair_bounded(sol, inst, ctx, star2, a, b, w),
{
    let d = sol.nodes();
    let wx = walk_slots(d, ctx.head_of(a), d.len());
    let wy = walk_slots(d, ctx.head_of(b), d.len());
    assert forall|i: int, j: int| 0 <= i < wx.len() && 0 <= j < wy.len() implies offer_at_least(
        w,
        sol,
        inst,
        star2,
        a as Node,
        b as Node,
        #[trigger] wx[i],
        #[trigger] wy[j],
    ) by {
        assert(offer_at_least(v, sol, inst, star, a as Node, b as Node, wx[i], wy[j]));
    }
}

/// Split exchange of two slots of different routes, with each arriving
/// customer put at its cheapest recorded position.
#[derive(Debug, Clone, Copy, Default)]
pub struct SdSwapStar;

impl SdSwapStar {
    /// Offers the split exchange where `node_x` (of route `route_x`) keeps
    /// `split_load`, `node_y` goes to the cheapest recorded position of its
    /// customer in route `route_x`, and the new slot for the customer of
    /// `node_x` goes to the place of `node_y` or to a cheaper recorded
    /// position of that customer in route `route_y` that does not touch
    /// `node_y`. Nothing is offered when route `route_x` has no recorded
    /// position for the customer of `node_y`.
    fn sd_swap_star_inner_single(
        instance: &Instance,
        solution: &AlkaidSolution,
        swapped: bool,
        route_x: Node,
        route_y: Node,
        node_x: Node,
        node_y: Node,
        split_load: i32,
        cache: &mut BaseCache<NodePairMove>,
        star_caches: &StarCaches,
        random: &mut Random,
        Ghost(route_a): Ghost<Node>,
        Ghost(route_b): Ghost<Node>,
    )
        requires
            instance.wf(),
            solution.valid_for(instance),
            solution.is_slot(node_x as int),
            solution.is_slot(node_y as int),
            star_caches.ok(solution.nodes().len() as int, instance.num_customers as int),
            0 <= route_x < star_caches.rows().len(),
            0 <= route_y < star_caches.rows().len(),
            star_caches.rows()[route_x as int]@.len() == instance.num_customers,
            star_caches.rows()[route_y as int]@.len() == instance.num_customers,
            (route_x == route_a && route_y == route_b) || (route_x == route_b && route_y == route_a),
            split_cache_ok(*old(cache), solution.nodes().len() as int, route_a, route_b),
        ensures
            split_cache_ok(*final(cache), solution.nodes().len() as int, route_a, route_b),
            final(cache).invalidated == old(cache).invalidated,
            final(cache).delta.value <= old(cache).delta.value,
            ({
                let ins_y = arrival_y(solution, *star_caches, route_x, node_y);
                let ax = arrival_x(solution, instance, *star_caches, route_y, node_x, node_y);
                let total = offer_total(solution, instance, *star_caches, route_x, route_y, node_x, node_y);
                &&& ins_y.delta.counter == -1 ==> *final(cache) == *old(cache) && final(random).spec_state() == old(
                    random,
                ).spec_state()
                &&& ins_y.delta.counter != -1 ==> final(cache).delta.value <= total
                &&& ins_y.delta.counter != -1 && total < old(cache).delta.value ==> final(cache).delta.value == total
                    && final(cache).mv == offered_move(solution, instance, *star_caches, swapped, route_x, route_y, node_x, node_y, split_load)
                &&& final(cache).mv == old(cache).mv || final(cache).mv == offered_move(
                    solution,
                    instance,
                    *star_caches,
                    swapped,
                    route_x,
                    route_y,
                    node_x,
                    node_y,
                    split_load,
                )
                &&& final(cache).delta.counter == -1 ==> *final(cache) == *old(cache)
                &&& old(cache).delta.counter == -1 && final(cache).delta.counter != -1 ==> final(cache).mv == offered_move(
                    solution,
                    instance,
                    *star_caches,
                    swapped,
                    route_x,
                    route_y,
                    node_x,
                    node_y,
                    split_load,
                )
            }),
    {
        let ghost ns = solution.nodes().len() as int;
        let customer_x = solution.customer(node_x);
        let customer_y = solution.customer(node_y);
        let insertion_x = star_caches.get(route_y, customer_x);
        let insertion_y = star_caches.get(route_x, customer_y);
        assert(insertion_x.ok(ns));
        assert(insertion_y.ok(ns));
        let predecessor_y0 = solution.predecessor(node_y);
        let successor_y0 = solution.successor(node_y);
        let delta = -calc_delta(instance, solution, node_y, predecessor_y0, successor_y0);
        let delta_x0 = calc_delta(instance, solution, node_x, predecessor_y0, successor_y0);
        let (delta_x, predecessor_y, successor_y) = improve_with(
            insertion_x,
            node_y,
            delta_x0,
            predecessor_y0,
            successor_y0,
            Ghost(ns),
        );
        let best_insertion_y = insertion_y.find_best();
        if best_insertion_y.delta.counter == -1 {
            return;
        }
        let total_delta = delta + delta_x + best_insertion_y.delta.value;
        if cache.delta.update(total_delta, random) {
            cache.mv = NodePairMove {
                swapped,
                route_x,
                route_y,
                node_x,
                predecessor_y,
                successor_y,
                node_y,
                predecessor_x: best_insertion_y.predecessor,
                successor_x: best_insertion_y.successor,
                split_load,
            };
        }
    }

    /// Evaluates, for every slot of route `route_x` and every slot of route
    /// `route_y` with a different load, the split exchange where the slot
    /// with the larger load keeps the difference, and keeps the cheapest
    /// in `cache`. Routes are walked to the depot, or for as many steps as
    /// there are slots.
    fn sd_swap_star_inner(
        instance: &Instance,
        solution: &AlkaidSolution,
        context: &RouteContext,
        route_x: Node,
        route_y: Node,
        cache: &mut BaseCache<NodePairMove>,
        star_caches: &StarCaches,
        random: &mut Random,
    )
        requires
            instance.wf(),
            sound(solution, instance),
            context.fits(solution),
            0 <= route_x < context.routes().len(),
            0 <= route_y < context.routes().len(),
            star_caches.ok(solution.nodes().len() as int, instance.num_customers as int),
            route_x < star_caches.rows().len(),
            route_y < star_caches.rows().len(),
            star_caches.rows()[route_x as int]@.len() == instance.num_customers,
            star_caches.rows()[route_y as int]@.len() == instance.num_customers,
            split_cache_ok(*old(cache), solution.nodes().len() as int, route_x, route_y),
        ensures
            split_cache_ok(*final(cache), solution.nodes().len() as int, route_x, route_y),
            final(cache).invalidated == old(cache).invalidated,
            final(cache).delta.value <= old(cache).delta.value,
            ({
                let d = solution.nodes();
                let wx = walk_slots(d, context.head_of(route_x as int), d.len());
                let wy = walk_slots(d, context.head_of(route_y as int), d.len());
                &&& forall|i: int, j: int|
                    0 <= i < wx.len() && 0 <= j < wy.len() ==> offer_at_least(
                        final(cache).delta.value as int,
                        solution,
                        instance,
                        *star_caches,
                        route_x,
                        route_y,
                        #[trigger] wx[i],
                        #[trigger] wy[j],
                    )
                &&& old(cache).delta.counter == -1 && final(cache).delta.counter != -1 ==> walk_move(
                    solution,
                    final(cache).mv,
                    wx,
                    wy,
                    route_x,
                    route_y,
                )
                &&& final(cache).delta.counter == -1 ==> final(cache).delta == old(cache).delta
            }),
    {
        let len = solution.node_data_len();
        let ghost ns = len as int;
        let ghost d = solution.nodes();
        let ghost wx = walk_slots(d, context.head_of(route_x as int), d.len());
        let ghost wy = walk_slots(d, context.head_of(route_y as int), d.len());
        let mut node_x = context.head(route_x);
        let mut steps_x: usize = 0;
        while node_x != 0 && steps_x < len
            invariant
                instance.wf(),
                sound(solution, instance),
                context.fits(solution),
                len == solution.nodes().len(),
                ns == len,
                0 <= route_x < context.routes().len(),
                0 <= route_y < context.routes().len(),
                star_caches.ok(ns, instance.num_customers as int),
                route_x < star_caches.rows().len(),
                route_y < star_caches.rows().len(),
                star_caches.rows()[route_x as int]@.len() == instance.num_customers,
                star_caches.rows()[route_y as int]@.len() == instance.num_customers,
                solution.is_slot(node_x as int),
                steps_x <= len,
                split_cache_ok(*cache, ns, route_x, route_y),
                cache.invalidated == old(cache).invalidated,
                cache.delta.value <= old(cache).delta.value,
                old(cache).delta.counter == -1 && cache.delta.counter != -1 ==> walk_move(solution, cache.mv, wx, wy, route_x, route_y),
                cache.delta.counter == -1 ==> cache.delta == old(cache).delta,
                d == solution.nodes(),
                wx == walk_slots(d, context.head_of(route_x as int), d.len()),
                wy == walk_slots(d, context.head_of(route_y as int), d.len()),
                steps_x <= wx.len(),
                walk_slots(d, node_x as int, (len - steps_x) as nat) == wx.skip(steps_x as int),
                forall|i: int, j: int|
                    0 <= i < steps_x && 0 <= j < wy.len() ==> offer_at_least(
                        cache.delta.value as int,
                        solution,
                        instance,
                        *star_caches,
                        route_x,
                        route_y,
                        #[trigger] wx[i],
                        #[trigger] wy[j],
                    ),
            decreases len - steps_x,
        {
            let load_x = solution.load(node_x);
            assert(0 <= load_x);
            let mut node_y = context.head(route_y);
            let mut steps_y: usize = 0;
            proof {
                assert(wx.skip(steps_x as int) =~= seq![node_x] + walk_slots(d, crate::solution::succ_of(d, node_x as int), (len - steps_x - 1) as nat));
                assert(wx.skip(steps_x as int)[0] == wx[steps_x as int]);
                assert(wx[steps_x as int] == node_x);
                assert(wy.skip(0) =~= wy);
            }
            while node_y != 0 && steps_y < len
                invariant
                    instance.wf(),
                    sound(solution, instance),
                    len == solution.nodes().len(),
                    ns == len,
                    0 <= route_x < context.routes().len(),
                    0 <= route_y < context.routes().len(),
                    star_caches.ok(ns, instance.num_customers as int),
                    route_x < star_caches.rows().len(),
                    route_y < star_caches.rows().len(),
                    star_caches.rows()[route_x as int]@.len() == instance.num_customers,
                    star_caches.rows()[route_y as int]@.len() == instance.num_customers,
                    solution.is_slot(node_x as int),
                    solution.is_slot(node_y as int),
                    load_x == solution.nodes()[node_x as int].load,
                    0 <= load_x,
                    steps_y <= len,
                    split_cache_ok(*cache, ns, route_x, route_y),
                    cache.invalidated == old(cache).invalidated,
                    cache.delta.value <= old(cache).delta.value,
                    old(cache).delta.counter == -1 && cache.delta.counter != -1 ==> walk_move(solution, cache.mv, wx, wy, route_x, route_y),
                    cache.delta.counter == -1 ==> cache.delta == old(cache).delta,
                    d == solution.nodes(),
                    wy == walk_slots(d, context.head_of(route_y as int), d.len()),
                    steps_x < wx.len(),
                    wx[steps_x as int] == node_x,
                    steps_y <= wy.len(),
                    walk_slots(d, node_y as int, (len - steps_y) as nat) == wy.skip(steps_y as int),
                    forall|i: int, j: int|
                        0 <= i < steps_x && 0 <= j < wy.len() ==> offer_at_least(
                            cache.delta.value as int,
                            solution,
                            instance,
                            *star_caches,
                            route_x,
                            route_y,
                            #[trigger] wx[i],
                            #[trigger] wy[j],
                        ),
                    forall|j: int|
                        0 <= j < steps_y ==> offer_at_least(
                            cache.delta.value as int,
                            solution,
                            instance,
                            *star_caches,
                            route_x,
                            route_y,
                            node_x,
                            #[trigger] wy[j],
                        ),
                decreases len - steps_y,
            {
                let load_y = solution.load(node_y);
                assert(0 <= load_y);
                let ghost v0 = cache.delta.value;
                let ghost c0 = *cache;
                proof {
                    assert(wy.skip(steps_y as int) =~= seq![node_y] + walk_slots(d, crate::solution::succ_of(d, node_y as int), (len - steps_y - 1) as nat));
                    assert(wy.skip(steps_y as int)[0] == wy[steps_y as int]);
                    assert(wy[steps_y as int] == node_y);
                }
                if load_x > load_y {
                    Self::sd_swap_star_inner_single(
                        instance,
                        solution,
                        false,
                        route_x,
                        route_y,
                        node_x,
                        node_y,
                        load_x - load_y,
                        cache,
                        star_caches,
                        random,
                        Ghost(route_x),
                        Ghost(route_y),
                    );
                } else if load_y > load_x {
                    Self::sd_swap_star_inner_single(
                        instance,
                        solution,
                        true,
                        route_y,
                        route_x,
                        node_y,
                        node_x,
                        load_y - load_x,
                        cache,
                        star_caches,
                        random,
                        Ghost(route_x),
                        Ghost(route_y),
                    );
                }
                proof {
                    assert(wx.contains(node_x));
                    assert(wy.contains(node_y));
                    assert(old(cache).delta.counter == -1 && cache.delta.counter != -1 ==> walk_move(solution, cache.mv, wx, wy, route_x, route_y));
                    assert(offer_at_least(cache.delta.value as int, solution, instance, *star_caches, route_x, route_y, node_x, node_y));
                    assert forall|i: int, j: int|
                        0 <= i < steps_x && 0 <= j < wy.len() implies offer_at_least(
                            cache.delta.value as int,
                            solution,
                            instance,
                            *star_caches,
                            route_x,
                            route_y,
                            #[trigger] wx[i],
                            #[trigger] wy[j],
                        ) by {
                        assert(offer_at_least(v0 as int, solution, instance, *star_caches, route_x, route_y, wx[i], wy[j]));
                    }
                    assert forall|j: int|
                        0 <= j < steps_y + 1 implies offer_at_least(
                            cache.delta.value as int,
                            solution,
                            instance,
                            *star_caches,
                            route_x,
                            route_y,
                            node_x,
                            #[trigger] wy[j],
                        ) by {
                        if j < steps_y {
                            assert(offer_at_least(v0 as int, solution, instance, *star_caches, route_x, route_y, node_x, wy[j]));
                        }
                    }
                }
                node_y = solution.successor(node_y);
                steps_y = steps_y + 1;
                proof {
                    assert(wy.skip(steps_y as int) =~= wy.skip(steps_y - 1).drop_first());
                }
            }
            proof {
                assert(wy.skip(steps_y as int).len() == 0);
                assert forall|i: int, j: int|
                    0 <= i < steps_x + 1 && 0 <= j < wy.len() implies offer_at_least(
                        cache.delta.value as int,
                        solution,
                        instance,
                        *star_caches,
                        route_x,
                        route_y,
                        #[trigger] wx[i],
                        #[trigger] wy[j],
                    ) by {
                    if i == steps_x {
                        assert(offer_at_least(cache.delta.value as int, solution, instance, *star_caches, route_x, route_y, node_x, wy[j]));
                    }
                }
            }
            node_x = solution.successor(node_x);
            steps_x = steps_x + 1;
            proof {
                assert(wx.skip(steps_x as int) =~= wx.skip(steps_x - 1).drop_first());
            }
        }
        proof {
            assert(wx.skip(steps_x as int).len() == 0);
        }
    }
}

impl InterOperator for SdSwapStar {
    #[verifier::spinoff_prover]
    #[verifier::rlimit(90)]
    fn apply(
        &self,
        instance: &Instance,
        solution: &mut AlkaidSolution,
        context: &mut RouteContext,
        random: &mut Random,
        cache_map: &mut CacheMap,
    ) -> (r: Vec<Node>)
        ensures
            old(solution).room() > 0 && old(cache_map).all_caches_fresh(old(context).routes().len() as int) && walks_in_use(
                old(solution),
                old(context),
            ) && instance.num_customers > 0 && r@.len() == 0 ==> forall|a: int, b: int|
                0 <= a < b < old(context).routes().len() ==> #[trigger] star_pair_bounded(
                    old(solution),
                    instance,
                    old(context),
                    final(cache_map).star(),
                    a,
                    b,
                    0,
                ),
            r@.len() != 0 ==> exists|mv: NodePairMove| #[trigger] split_exchanged(old(solution), mv, final(solution), r@),
    {
        if solution.room_left() == 0 {
            return Vec::new();
        }
        let ghost nc = instance.num_customers as int;
        let ghost fresh0 = cache_map.all_caches_fresh(context.routes().len() as int) && walks_in_use(solution, context) && nc
            > 0;
        let mut caches = cache_map.take_sd_swap_star(solution, context, Ghost(nc));
        let ghost num_slots = solution.nodes().len() as int;
        let n = context.num_routes();
        let mut star_caches = cache_map.take_star(Ghost(n as int), Ghost(num_slots), Ghost(nc));
        let ghost rows0 = star_caches.rows().len();
        let mut best_move = NodePairMove::default();
        let mut best_delta: Delta<i32> = Delta::new(0, -1);
        let mut route_x: Node = 0;
        while route_x < n
            invariant
                instance.wf(),
                sound(solution, instance),
                context.fits(solution),
                n == context.routes().len(),
                nc == instance.num_customers,
                num_slots == solution.nodes().len(),
                0 <= route_x <= n,
                pair_cache_fits(caches, n as int, num_slots),
                star_caches.ok(num_slots, nc),
                star_caches.rows().len() >= rows0,
                best_delta.wf(),
                best_delta.counter == -1 ==> best_delta.value == 0,
                best_delta.counter != -1 ==> pair_slots(best_move, num_slots) && 0 <= best_move.route_x < n && 0
                    <= best_move.route_y < n && best_move.route_x != best_move.route_y,
                *solution == *old(solution),
                *context == *old(context),
                best_delta.value <= 0,
                fresh0 ==> nc > 0 && walks_in_use(solution, context),
                fresh0 ==> (best_delta.counter != -1 ==> star_move_ok(solution, best_move)),
                fresh0 ==> forall|a: int, b: int|
                    0 <= a < n && 0 <= b < n && a != b ==> caches.index_of(a) != caches.index_of(b),
                fresh0 ==> forall|a: int, b: int|
                    0 <= a < b < n && !pair_done(a, b, route_x as int, (route_x + 1) as int) ==> #[trigger] caches.entry(
                        caches.index_of(a),
                        caches.index_of(b),
                    ).invalidated,
                fresh0 ==> pairs_bounded(solution, instance, context, star_caches, n as int, route_x as int, (route_x + 1) as int, best_delta.value as int, nc),
            decreases n - route_x,
        {
            let mut route_y: Node = route_x + 1;
            while route_y < n
                invariant
                    instance.wf(),
                    sound(solution, instance),
                    context.fits(solution),
                    n == context.routes().len(),
                    nc == instance.num_customers,
                    num_slots == solution.nodes().len(),
                    0 <= route_x < n,
                    0 <= route_y <= n,
                    route_x < route_y,
                    pair_cache_fits(caches, n as int, num_slots),
                    star_caches.ok(num_slots, nc),
                    star_caches.rows().len() >= rows0,
                    best_delta.wf(),
                    best_delta.counter == -1 ==> best_delta.value == 0,
                    best_delta.counter != -1 ==> pair_slots(best_move, num_slots) && 0 <= best_move.route_x < n && 0
                        <= best_move.route_y < n && best_move.route_x != best_move.route_y,
                    *solution == *old(solution),
                    *context == *old(context),
                    best_delta.value <= 0,
                    fresh0 ==> nc > 0 && walks_in_use(solution, context),
                    fresh0 ==> (best_delta.counter != -1 ==> star_move_ok(solution, best_move)),
                    fresh0 ==> forall|a: int, b: int|
                        0 <= a < n && 0 <= b < n && a != b ==> caches.index_of(a) != caches.index_of(b),
                    fresh0 ==> forall|a: int, b: int|
                        0 <= a < b < n && !pair_done(a, b, route_x as int, route_y as int) ==> #[trigger] caches.entry(
                            caches.index_of(a),
                            caches.index_of(b),
                        ).invalidated,
                    fresh0 ==> pairs_bounded(solution, instance, context, star_caches, n as int, route_x as int, route_y as int, best_delta.value as int, nc),
                decreases n - route_y,
            {
                let ghost c0 = caches;
                let ghost b0 = best_delta.value;
                let ghost s0 = star_caches;
                let mut cache = caches.get(route_x, route_y);
                assert(pair_slots_below(num_slots)(cache.mv));
                let ghost e0 = cache;
                if !cache.try_reuse() {
                    star_caches.preprocess(instance, solution, context, route_x, random);
                    star_caches.preprocess(instance, solution, context, route_y, random);
                    let ghost e1 = cache;
                    Self::sd_swap_star_inner(instance, solution, context, route_x, route_y, &mut cache, &star_caches, random);
                    proof {
                        assert(e1.delta.counter == -1 && e1.delta.value == 0);
                        assert(cache.delta.value <= 0);
                        assert(route_x < star_caches.rows().len() && star_caches.rows()[route_x as int]@.len() == nc);
                        assert(route_y < star_caches.rows().len() && star_caches.rows()[route_y as int]@.len() == nc);
                    }
                } else if !cache.mv.swapped {
                    cache.mv.route_x = route_x;
                    cache.mv.route_y = route_y;
                } else {
                    cache.mv.route_x = route_y;
                    cache.mv.route_y = route_x;
                }
                caches.set(route_x, route_y, cache);
                assert(pair_slots_below(num_slots)(cache.mv));
                if cache.delta.counter != -1 && best_delta.update_from(&cache.delta, random) {
                    best_move = cache.mv;
                }
                proof {
                    if fresh0 {
                        assert(c0.entry(c0.index_of(route_x as int), c0.index_of(route_y as int)).invalidated);
                        assert(e0.invalidated);
                        assert(star_pair_bounded(solution, instance, context, star_caches, route_x as int, route_y as int, cache.delta.value as int));
                        assert(best_delta.value <= cache.delta.value);
                        lemma_star_pair_bounded_mono(
                            solution,
                            instance,
                            context,
                            star_caches,
                            star_caches,
                            route_x as int,
                            route_y as int,
                            cache.delta.value as int,
                            best_delta.value as int,
                        );
                        assert forall|a: int, b: int|
                            0 <= a < b < n && pair_done(a, b, route_x as int, (route_y + 1) as int) implies #[trigger] star_pair_bounded(
                            solution,
                            instance,
                            context,
                            star_caches,
                            a,
                            b,
                            best_delta.value as int,
                        ) && a < star_caches.rows().len() && b < star_caches.rows().len() && star_caches.rows()[a]@.len() == nc
                            && star_caches.rows()[b]@.len() == nc by {
                            if pair_done(a, b, route_x as int, route_y as int) {
                                assert(star_pair_bounded(solution, instance, context, s0, a, b, b0 as int));
                                assert(s0.rows()[a]@.len() == nc && s0.rows()[b]@.len() == nc);
                                assert(star_caches.rows()[a] == s0.rows()[a]);
                                assert(star_caches.rows()[b] == s0.rows()[b]);
                                lemma_star_pair_bounded_mono(solution, instance, context, s0, star_caches, a, b, b0 as int, best_delta.value as int);
                            } else {
                                assert(a == route_x && b == route_y);
                                assert(route_x < star_caches.rows().len() && star_caches.rows()[route_x as int]@.len() == nc);
                                assert(route_y < star_caches.rows().len() && star_caches.rows()[route_y as int]@.len() == nc);
                            }
                        }
                        assert(pairs_bounded(solution, instance, context, star_caches, n as int, route_x as int, (route_y + 1) as int, best_delta.value as int, nc));
                        assert forall|a: int, b: int|
                            0 <= a < b < n && !pair_done(a, b, route_x as int, (route_y + 1) as int) implies #[trigger] caches.entry(
                            caches.index_of(a),
                            caches.index_of(b),
                        ).invalidated by {
                            assert(caches.index_of(a) == c0.index_of(a));
                            assert(caches.index_of(b) == c0.index_of(b));
                            assert(c0.entry(c0.index_of(a), c0.index_of(b)).invalidated);
                            assert(c0.index_of(a) != c0.index_of(route_x as int) || c0.index_of(b) != c0.index_of(route_y as int));
                        }
                        if best_delta.counter != -1 && best_move == cache.mv && cache.delta.counter != -1 {
                            lemma_walk_move_ok(solution, context, cache.mv, route_x as int, route_y as int);
                        }
                    }
                }
                route_y = route_y + 1;
            }
            proof {
                if fresh0 {
                    assert forall|a: int, b: int|
                        0 <= a < b < n && pair_done(a, b, (route_x + 1) as int, (route_x + 2) as int) implies #[trigger] star_pair_bounded(
                        solution,
                        instance,
                        context,
                        star_caches,
                        a,
                        b,
                        best_delta.value as int,
                    ) && a < star_caches.rows().len() && b < star_caches.rows().len() && star_caches.rows()[a]@.len() == nc
                        && star_caches.rows()[b]@.len() == nc by {
                        assert(pair_done(a, b, route_x as int, route_y as int));
                    }
                }
            }
            route_x = route_x + 1;
        }
        cache_map.put_sd_swap_star(caches, Ghost(n as int), Ghost(num_slots), Ghost(nc));
        cache_map.put_star(star_caches, Ghost(n as int), Ghost(num_slots), Ghost(nc));
        proof {
            if fresh0 {
                assert forall|a: int, b: int| 0 <= a < b < n implies #[trigger] star_pair_bounded(
                    solution,
                    instance,
                    context,
                    star_caches,
                    a,
                    b,
                    best_delta.value as int,
                ) by {
                    assert(pair_done(a, b, n as int, (n + 1) as int));
                }
                if best_delta.value >= 0 {
                    assert forall|a: int, b: int| 0 <= a < b < n implies #[trigger] star_pair_bounded(
                        solution,
                        instance,
                        context,
                        star_caches,
                        a,
                        b,
                        0,
                    ) by {
                        lemma_star_pair_bounded_mono(solution, instance, context, star_caches, star_caches, a, b, best_delta.value as int, 0);
                    }
                }
            }
        }
        if best_delta.value < 0 {
            if best_move.split_load < 0 || best_move.node_x == best_move.node_y || !solution.is_used(best_move.node_x)
                || best_move.split_load != solution.load(best_move.node_x) - solution.load(best_move.node_y) {
                return Vec::new();
            }
            let ghost s0 = *solution;
            do_split_exchange(instance, &best_move, solution, context);
            context.cover_slots(solution);
            proof {
                cache_map.lemma_fits_grow(n as int, num_slots, solution.nodes().len() as int, nc);
            }
            let mut routes: Vec<Node> = Vec::new();
            routes.push(best_move.route_x);
            routes.push(best_move.route_y);
            proof {
                assert(routes@ =~= seq![best_move.route_x, best_move.route_y]);
                assert(split_exchanged(&s0, best_move, solution, routes@));
            }
            routes
        } else {
            Vec::new()
        }
    }
}

} // verus!
