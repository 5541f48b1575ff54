//! Exchange of two slots of different routes, each reinserted at its
//! cheapest position in the other route.
use vstd::prelude::*;
use crate::delta::Delta;
use crate::instance::{Instance, Node, MAX_DISTANCE};
use crate::random::Random;
use crate::route_context::{RouteContext, RouteData, with_head};
use crate::solution::{AlkaidSolution, NodeData, linked, with_succ, pred_of, succ_of, load_of, walk, is_route, route_length, lemma_walk_stop};
use super::base_cache::BaseCache;
use super::base_star::{StarCaches, insertion_ok, avoids, first_avoiding, Insertion};
use super::{same_content, calc_delta, insertion_delta_of, pair_slots_below, pair_cache_fits, loads_nonneg, CacheMap, InterOperator};
use super::cross::pair_done;

verus! {

/// A move of two slots between two routes: `node_x` leaves route
/// `route_x` and goes between `predecessor_y` and `successor_y` in route
/// `route_y`, and `node_y` goes between `predecessor_x` and `successor_x`
/// in route `route_x` (for split moves, `split_load` is what stays).
#[derive(Debug, Clone, Copy)]
pub struct NodePairMove {
    /// The roles of the two routes were swapped when evaluated.
    pub swapped: bool,
    /// Route of `node_x`.
    pub route_x: Node,
    /// Route of `node_y`.
    pub route_y: Node,
    /// Slot leaving route `route_x`.
    pub node_x: Node,
    /// Slot after which `node_y` goes in route `route_x`.
    pub predecessor_x: Node,
    /// Slot before which `node_y` goes in route `route_x`.
    pub successor_x: Node,
    /// Slot leaving route `route_y`.
    pub node_y: Node,
    /// Slot after which `node_x` goes in route `route_y`.
    pub predecessor_y: Node,
    /// Slot before which `node_x` goes in route `route_y`.
    pub successor_y: Node,
    /// Load kept by a split slot.
    pub split_load: i32,
}

impl Default for NodePairMove {
    fn default() -> (r: Self)
        ensures
            !r.swapped && r.route_x == 0 && r.route_y == 0 && r.node_x == 0 && r.predecessor_x == 0 && r.successor_x == 0
                && r.node_y == 0 && r.predecessor_y == 0 && r.successor_y == 0 && r.split_load == 0,
    {
        NodePairMove {
            swapped: false,
            route_x: 0,
            route_y: 0,
            node_x: 0,
            predecessor_x: 0,
            successor_x: 0,
            node_y: 0,
            predecessor_y: 0,
            successor_y: 0,
            split_load: 0,
        }
    }
}

/// The slots of `m` are below `n`.
pub open spec fn pair_slots(m: NodePairMove, n: int) -> bool {
    &&& 0 <= m.node_x < n
    &&& 0 <= m.predecessor_x < n
    &&& 0 <= m.successor_x < n
    &&& 0 <= m.node_y < n
    &&& 0 <= m.predecessor_y < n
    &&& 0 <= m.successor_y < n
}

/// A cache entry whose move uses slots of `sol` and, once set, belongs to
/// routes `route_x` and `route_y`.
pub open spec fn pair_cache_ok(c: BaseCache<NodePairMove>, sol: &AlkaidSolution, route_x: Node, route_y: Node) -> bool {
    &&& c.delta.wf()
    &&& pair_slots(c.mv, sol.nodes().len() as int)
    &&& c.delta.counter != -1 ==> c.mv.route_x == route_x && c.mv.route_y == route_y
}

/// Cost change of exchanging slots `u` and `w` in place: each takes the
/// position of the other.
pub open spec fn in_place_cost(sol: &AlkaidSolution, inst: &Instance, u: int, w: int) -> int {
    let d = sol.nodes();
    -insertion_delta_of(sol, inst, u, pred_of(d, u), succ_of(d, u)) - insertion_delta_of(sol, inst, w, pred_of(d, w), succ_of(d, w))
        + insertion_delta_of(sol, inst, u, pred_of(d, w), succ_of(d, w)) + insertion_delta_of(
        sol,
        inst,
        w,
        pred_of(d, u),
        succ_of(d, u),
    )
}

/// Exchanging the `i`-th slot of route `rx` with the `j`-th slot of route
/// `ry` in place costs at least `v` when it keeps both routes within
/// capacity, by the recorded route loads.
pub open spec fn star_bound_at(sol: &AlkaidSolution, inst: &Instance, ctx: &RouteContext, rx: int, ry: int, v: int, i: int, j: int) -> bool {
    let d = sol.nodes();
    let u = walk(d, ctx.head_of(rx), i as nat);
    let w = walk(d, ctx.head_of(ry), j as nat);
    let cap = inst.capacity as int;
    ctx.routes()[ry].load + load_of(d, u) - load_of(d, w) <= cap && ctx.routes()[rx].load - load_of(d, u) + load_of(d, w)
        <= cap ==> v <= in_place_cost(sol, inst, u, w)
}

/// Where slot `u` goes in the route of slot `w`, with its cost: the place
/// of `w`, or a cheaper recorded position of the customer of `u` in route
/// `ry` (by `star`) that does not touch `w`.
pub open spec fn star_arrival(sol: &AlkaidSolution, inst: &Instance, star: StarCaches, ry: Node, u: Node, w: Node) -> (i32, Node, Node) {
    let d = sol.nodes();
    let pw = d[w as int].predecessor;
    let sw = d[w as int].successor;
    improved(star.rows()[ry as int]@[d[u as int].customer as int].items(), w, insertion_delta_of(sol, inst, u as int, pw as int, sw as int) as i32, pw, sw)
}

/// Cost change of the exchange offered for slot `u` of route `rx` and
/// slot `w` of route `ry`: both leave their routes and each goes where
/// `star_arrival` puts it.
pub open spec fn star_exchange_cost(sol: &AlkaidSolution, inst: &Instance, star: StarCaches, rx: Node, ry: Node, u: Node, w: Node) -> int {
    let d = sol.nodes();
    -insertion_delta_of(sol, inst, u as int, d[u as int].predecessor as int, d[u as int].successor as int)
        - insertion_delta_of(sol, inst, w as int, d[w as int].predecessor as int, d[w as int].successor as int)
        + star_arrival(sol, inst, star, ry, u, w).0 + star_arrival(sol, inst, star, rx, w, u).0
}

/// The move offered for slot `u` of route `rx` and slot `w` of route `ry`.
pub open spec fn star_exchange_move(sol: &AlkaidSolution, inst: &Instance, star: StarCaches, rx: Node, ry: Node, u: Node, w: Node) -> NodePairMove {
    let ax = star_arrival(sol, inst, star, ry, u, w);
    let ay = star_arrival(sol, inst, star, rx, w, u);
    NodePairMove {
        swapped: false,
        route_x: rx,
        route_y: ry,
        node_x: u,
        predecessor_x: ay.1,
        successor_x: ay.2,
        node_y: w,
        predecessor_y: ax.1,
        successor_y: ax.2,
        split_load: 0,
    }
}

/// The cache holds the exchange offered for the `i`-th slot of route `rx`
/// and the `j`-th slot of route `ry`, with its cost, and that exchange
/// keeps both routes within capacity by the recorded route loads.
pub open spec fn star_recorded_at(
    sol: &AlkaidSolution,
    inst: &Instance,
    ctx: &RouteContext,
    star: StarCaches,
    c: BaseCache<NodePairMove>,
    rx: Node,
    ry: Node,
    i: int,
    j: int,
) -> bool {
    let d = sol.nodes();
    let u = walk(d, ctx.head_of(rx as int), i as nat);
    let w = walk(d, ctx.head_of(ry as int), j as nat);
    let cap = inst.capacity as int;
    &&& 0 <= i
    &&& 0 <= j
    &&& c.mv == star_exchange_move(sol, inst, star, rx, ry, u as Node, w as Node)
    &&& c.delta.value == star_exchange_cost(sol, inst, star, rx, ry, u as Node, w as Node)
    &&& ctx.routes()[ry as int].load + load_of(d, u) - load_of(d, w) <= cap
    &&& ctx.routes()[rx as int].load - load_of(d, u) + load_of(d, w) <= cap
}

/// The cache holds a fitting exchange offered between routes `rx` and
/// `ry`, with its cost.
pub open spec fn star_recorded(sol: &AlkaidSolution, inst: &Instance, ctx: &RouteContext, star: StarCaches, c: BaseCache<NodePairMove>, rx: Node, ry: Node) -> bool {
    exists|i: int, j: int| #[trigger] star_recorded_at(sol, inst, ctx, star, c, rx, ry, i, j)
}

/// `mv`, at cost `v`, is a fitting exchange offered between its two routes
/// by some recorded state of the insertion caches.
pub open spec fn star_offer(sol: &AlkaidSolution, inst: &Instance, ctx: &RouteContext, mv: NodePairMove, v: int) -> bool {
    exists|star: StarCaches, c: BaseCache<NodePairMove>|
        #[trigger] star_recorded(sol, inst, ctx, star, c, mv.route_x, mv.route_y) && c.mv == mv && c.delta.value == v
}

/// An offered exchange `mv` that lowers the objective by `-v` was applied
/// to the slots of `sol` giving `d2`, and `routes` lists its two routes.
pub open spec fn star_applied_best(
    sol: &AlkaidSolution,
    inst: &Instance,
    ctx: &RouteContext,
    mv: NodePairMove,
    v: int,
    d2: Seq<NodeData>,
    routes: Seq<Node>,
) -> bool {
    &&& v < 0
    &&& star_offer(sol, inst, ctx, mv, v)
    &&& d2 == swap_star_applied(sol.nodes(), ctx.routes(), mv)
    &&& routes == seq![mv.route_x, mv.route_y]
}

/// Every fitting in-place exchange of a slot of route `rx` with a slot of
/// route `ry` (when both are routes) costs at least `v`.
pub open spec fn star_all_bounded(sol: &AlkaidSolution, inst: &Instance, ctx: &RouteContext, rx: int, ry: int, v: int) -> bool {
    let d = sol.nodes();
    let hx = ctx.head_of(rx);
    let hy = ctx.head_of(ry);
    is_route(d, hx) && is_route(d, hy) ==> forall|i: int, j: int|
        0 <= i < route_length(d, hx) && 0 <= j < route_length(d, hy) ==> #[trigger] star_bound_at(sol, inst, ctx, rx, ry, v, i, j)
}

/// A lower value is still a bound.
pub proof fn lemma_star_bounded_mono(sol: &AlkaidSolution, inst: &Instance, ctx: &RouteContext, rx: int, ry: int, v: int, w: int)
    requires
        star_all_bounded(sol, inst, ctx, rx, ry, v),
        w <= v,
    ensures
        star_all_bounded(sol, inst, ctx, rx, ry, w),
{
    let d = sol.nodes();
    let hx = ctx.head_of(rx);
    let hy = ctx.head_of(ry);
    if is_route(d, hx) && is_route(d, hy) {
        assert forall|i: int, j: int|
            0 <= i < route_length(d, hx) && 0 <= j < route_length(d, hy) implies #[trigger] star_bound_at(
            sol,
            inst,
            ctx,
            rx,
            ry,
            w,
            i,
            j,
        ) by {
            assert(star_bound_at(sol, inst, ctx, rx, ry, v, i, j));
        }
    }
}

/// The position `(p, s)` of cost `delta`, or the first recorded position
/// of `items` that does not touch `node_index` when that one is cheaper.
pub open spec fn improved(items: Seq<Insertion>, node_index: Node, delta: i32, p: Node, s: Node) -> (i32, Node, Node) {
    match first_avoiding(items, node_index, 0) {
        Some(e) => if e.delta.value < delta {
            (e.delta.value, e.predecessor, e.successor)
        } else {
            (delta, p, s)
        },
        None => (delta, p, s),
    }
}

/// The cheapest recorded position of `best` that does not touch
/// `node_index`, when cheaper than `delta`, replaces the position
/// `(p, s)` of cost `delta`.
pub fn improve_with(
    best: &super::base_star::BestInsertion<3>,
    node_index: Node,
    delta: i32,
    p: Node,
    s: Node,
    Ghost(len): Ghost<int>,
) -> (r: (i32, Node, Node))
    requires
        best.ok(len),
        -3 * MAX_DISTANCE <= delta <= 3 * MAX_DISTANCE,
        0 <= p < len,
        0 <= s < len,
    ensures
        -3 * MAX_DISTANCE <= r.0 <= delta,
        0 <= r.1 < len,
        0 <= r.2 < len,
        r == improved(best.items(), node_index, delta, p, s),
{
    match best.find_best_without_node(node_index) {
        Some(e) => {
            proof {
                let k = choose|k: int| 0 <= k < best.items().len() && best.items()[k] == e && avoids(e, node_index);
                assert(insertion_ok(best.items()[k], len));
            }
            if e.delta.value < delta {
                (e.delta.value, e.predecessor, e.successor)
            } else {
                (delta, p, s)
            }
        },
        None => (delta, p, s),
    }
}

/// The slots after closing the gap between `p` and `s` in the route that
/// starts at `head`, then linking `node` between `np` and `ns`.
pub open spec fn node_moved(d: Seq<NodeData>, head: Node, p: Node, s: Node, node: Node, np: Node, ns: Node) -> Seq<NodeData> {
    linked(linked(linked(with_succ(d, 0, head), p, s), np, node), node, ns)
}

/// The slots after the first half of `mv`: `node_x` leaves route
/// `route_x` and `node_y` takes its recorded place there.
pub open spec fn swap_star_half(d: Seq<NodeData>, routes: Seq<RouteData>, mv: NodePairMove) -> Seq<NodeData> {
    node_moved(
        d,
        routes[mv.route_x as int].head,
        pred_of(d, mv.node_x as int) as Node,
        succ_of(d, mv.node_x as int) as Node,
        mv.node_y,
        mv.predecessor_x,
        mv.successor_x,
    )
}

/// The slots after applying `mv` to the slots `d` with route records
/// `routes`: `node_y` moves into route `route_x`, then `node_x` into route
/// `route_y`.
pub open spec fn swap_star_applied(d: Seq<NodeData>, routes: Seq<RouteData>, mv: NodePairMove) -> Seq<NodeData> {
    let d1 = swap_star_half(d, routes, mv);
    let r1 = with_head(routes, mv.route_x as int, succ_of(d1, 0) as Node);
    node_moved(
        d1,
        r1[mv.route_y as int].head,
        pred_of(d, mv.node_y as int) as Node,
        succ_of(d, mv.node_y as int) as Node,
        mv.node_x,
        mv.predecessor_y,
        mv.successor_y,
    )
}

/// The route records after applying `mv`.
pub open spec fn swap_star_routes(d: Seq<NodeData>, routes: Seq<RouteData>, mv: NodePairMove) -> Seq<RouteData> {
    let r1 = with_head(routes, mv.route_x as int, succ_of(swap_star_half(d, routes, mv), 0) as Node);
    with_head(r1, mv.route_y as int, succ_of(swap_star_applied(d, routes, mv), 0) as Node)
}

/// Exchange of two slots of different routes, each reinserted at its
/// cheapest position in the other route.
#[derive(Debug, Clone, Copy, Default)]
pub struct SwapStar;

impl SwapStar {
    /// Applies a move.
    fn do_swap_star(mv: &NodePairMove, solution: &mut AlkaidSolution, context: &mut RouteContext)
        requires
            old(solution).wf(),
            old(context).fits(old(solution)),
            pair_slots(*mv, old(solution).nodes().len() as int),
            0 <= mv.route_x < old(context).routes().len(),
            0 <= mv.route_y < old(context).routes().len(),
        ensures
            final(solution).wf(),
            same_content(old(solution), final(solution)),
            final(context).fits(final(solution)),
            final(context).routes().len() == old(context).routes().len(),
            final(context).pre_loads() == old(context).pre_loads(),
            final(solution).nodes() == swap_star_applied(old(solution).nodes(), old(context).routes(), *mv),
            final(context).routes() == swap_star_routes(old(solution).nodes(), old(context).routes(), *mv),
    {
        let ghost d = solution.nodes();
        let ghost routes = context.routes();
        let predecessor_x = solution.predecessor(mv.node_x);
        let successor_x = solution.successor(mv.node_x);
        let predecessor_y = solution.predecessor(mv.node_y);
        let successor_y = solution.successor(mv.node_y);
        assert(predecessor_x == pred_of(d, mv.node_x as int) as Node);
        assert(successor_x == succ_of(d, mv.node_x as int) as Node);
        assert(predecessor_y == pred_of(d, mv.node_y as int) as Node);
        assert(successor_y == succ_of(d, mv.node_y as int) as Node);
        let head_x = context.head(mv.route_x);
        solution.set_successor(0, head_x);
        solution.link(predecessor_x, successor_x);
        solution.link(mv.predecessor_x, mv.node_y);
        solution.link(mv.node_y, mv.successor_x);
        let new_head_x = solution.successor(0);
        context.set_head(mv.route_x, new_head_x);
        assert(solution.nodes() == swap_star_half(d, routes, *mv));
        let head_y = context.head(mv.route_y);
        solution.set_successor(0, head_y);
        solution.link(predecessor_y, successor_y);
        solution.link(mv.predecessor_y, mv.node_x);
        solution.link(mv.node_x, mv.successor_y);
        let new_head_y = solution.successor(0);
        context.set_head(mv.route_y, new_head_y);
    }

    /// Evaluates, for every slot of route `route_x` and every slot of route
    /// `route_y` whose exchange keeps both routes within capacity, the
    /// exchange with each slot reinserted at its cheapest position in the
    /// other route, and keeps the cheapest in `cache`. Routes are walked
    /// to the depot, or for as many steps as there are slots.
    fn swap_star_inner(
        instance: &Instance,
        solution: &AlkaidSolution,
        context: &RouteContext,
        route_x: Node,
        route_y: Node,
        cache: &mut BaseCache<NodePairMove>,
        star_caches: &StarCaches,
        random: &mut Random,
    )
        requires
            instance.wf(),
            solution.valid_for(instance),
            context.fits(solution),
            0 <= route_x < context.routes().len(),
            0 <= route_y < context.routes().len(),
            star_caches.ok(solution.nodes().len() as int, instance.num_customers as int),
            route_x < star_caches.rows().len(),
            route_y < star_caches.rows().len(),
            star_caches.rows()[route_x as int]@.len() == instance.num_customers,
            star_caches.rows()[route_y as int]@.len() == instance.num_customers,
            pair_cache_ok(*old(cache), solution, route_x, route_y),
        ensures
            pair_cache_ok(*final(cache), solution, route_x, route_y),
            final(cache).invalidated == old(cache).invalidated,
            final(cache).delta.value <= old(cache).delta.value,
            final(cache).delta.counter == -1 ==> final(cache).delta.value == old(cache).delta.value && old(cache).delta.counter
                == -1,
            star_all_bounded(solution, instance, context, route_x as int, route_y as int, final(cache).delta.value as int),
            old(cache).delta.counter == -1 && final(cache).delta.counter != -1 ==> star_recorded(
                solution,
                instance,
                context,
                *star_caches,
                *final(cache),
                route_x,
                route_y,
            ),
    {
        let len = solution.node_data_len();
        let ghost ns = len as int;
        let ghost d = solution.nodes();
        let ghost hx = context.head_of(route_x as int);
        let ghost hy = context.head_of(route_y as int);
        let ghost rx = route_x as int;
        let ghost ry = route_y as int;
        let cap = instance.capacity as i64;
        let mut node_x = context.head(route_x);
        let mut steps_x: usize = 0;
        while node_x != 0 && steps_x < len
            invariant
                instance.wf(),
                solution.valid_for(instance),
                context.fits(solution),
                len == solution.nodes().len(),
                ns == len,
                d == solution.nodes(),
                hx == context.head_of(route_x as int),
                hy == context.head_of(route_y as int),
                rx == route_x,
                ry == route_y,
                cap == instance.capacity,
                0 <= route_x < context.routes().len(),
                0 <= route_y < context.routes().len(),
                star_caches.ok(ns, instance.num_customers as int),
                route_x < star_caches.rows().len(),
                route_y < star_caches.rows().len(),
                star_caches.rows()[route_x as int]@.len() == instance.num_customers,
                star_caches.rows()[route_y as int]@.len() == instance.num_customers,
                solution.is_slot(node_x as int),
                node_x as int == walk(d, hx, steps_x as nat),
                is_route(d, hx) ==> steps_x <= route_length(d, hx),
                steps_x <= len,
                pair_cache_ok(*cache, solution, route_x, route_y),
                cache.invalidated == old(cache).invalidated,
                cache.delta.value <= old(cache).delta.value,
                cache.delta.counter == -1 ==> cache.delta.value == old(cache).delta.value && old(cache).delta.counter == -1,
                old(cache).delta.counter == -1 && cache.delta.counter != -1 ==> star_recorded(solution, instance, context, *star_caches, *cache, route_x, route_y),
                is_route(d, hy) ==> forall|i: int, j: int|
                    0 <= i < steps_x && 0 <= j < route_length(d, hy) ==> #[trigger] star_bound_at(
                        solution,
                        instance,
                        context,
                        rx,
                        ry,
                        cache.delta.value as int,
                        i,
                        j,
                    ),
            decreases len - steps_x,
        {
            let ghost vx = cache.delta.value;
            let customer_x = solution.customer(node_x);
            let insertion_x = star_caches.get(route_y, customer_x);
            assert(insertion_x.ok(ns));
            let load_x = solution.load(node_x) as i64;
            let load_y_lower = -cap + context.load(route_y) as i64 + load_x;
            let load_y_upper = cap - context.load(route_x) as i64 + load_x;
            let mut node_y = context.head(route_y);
            let mut steps_y: usize = 0;
            while node_y != 0 && steps_y < len
                invariant
                    instance.wf(),
                    solution.valid_for(instance),
                    context.fits(solution),
                    len == solution.nodes().len(),
                    ns == len,
                    d == solution.nodes(),
                    hx == context.head_of(route_x as int),
                    hy == context.head_of(route_y as int),
                    rx == route_x,
                    ry == route_y,
                    cap == instance.capacity,
                    star_caches.ok(ns, instance.num_customers as int),
                    0 <= route_x < context.routes().len(),
                    0 <= route_y < context.routes().len(),
                    route_x < star_caches.rows().len(),
                    star_caches.rows()[route_x as int]@.len() == instance.num_customers,
                    insertion_x.ok(ns),
                    route_y < star_caches.rows().len(),
                    star_caches.rows()[route_y as int]@.len() == instance.num_customers,
                    *insertion_x == star_caches.rows()[route_y as int]@[solution.nodes()[node_x as int].customer as int],
                    solution.is_slot(node_x as int),
                    node_x as int == walk(d, hx, steps_x as nat),
                    load_x == load_of(d, node_x as int),
                    load_y_lower == -cap + context.routes()[route_y as int].load + load_x,
                    load_y_upper == cap - context.routes()[route_x as int].load + load_x,
                    solution.is_slot(node_y as int),
                    node_y as int == walk(d, hy, steps_y as nat),
                    is_route(d, hy) ==> steps_y <= route_length(d, hy),
                    steps_y <= len,
                    pair_cache_ok(*cache, solution, route_x, route_y),
                    cache.invalidated == old(cache).invalidated,
                    cache.delta.value <= vx,
                    vx <= old(cache).delta.value,
                    cache.delta.counter == -1 ==> cache.delta.value == old(cache).delta.value && old(cache).delta.counter
                        == -1,
                    old(cache).delta.counter == -1 && cache.delta.counter != -1 ==> star_recorded(solution, instance, context, *star_caches, *cache, route_x, route_y),
                    forall|j: int| 0 <= j < steps_y ==> #[trigger] star_bound_at(
                        solution,
                        instance,
                        context,
                        rx,
                        ry,
                        cache.delta.value as int,
                        steps_x as int,
                        j,
                    ),
                decreases len - steps_y,
            {
                let ghost v0 = cache.delta.value;
                let load_y = solution.load(node_y) as i64;
                if load_y >= load_y_lower && load_y <= load_y_upper {
                    let customer_y = solution.customer(node_y);
                    let insertion_y = star_caches.get(route_x, customer_y);
                    assert(insertion_y.ok(ns));
                    let predecessor_x_orig = solution.predecessor(node_x);
                    let successor_x_orig = solution.successor(node_x);
                    let predecessor_y_orig = solution.predecessor(node_y);
                    let successor_y_orig = solution.successor(node_y);
                    let delta = -calc_delta(instance, solution, node_x, predecessor_x_orig, successor_x_orig) - calc_delta(
                        instance,
                        solution,
                        node_y,
                        predecessor_y_orig,
                        successor_y_orig,
                    );
                    let delta_x0 = calc_delta(instance, solution, node_x, predecessor_y_orig, successor_y_orig);
                    let (delta_x, predecessor_y, successor_y) = improve_with(
                        insertion_x,
                        node_y,
                        delta_x0,
                        predecessor_y_orig,
                        successor_y_orig,
                        Ghost(ns),
                    );
                    let delta_y0 = calc_delta(instance, solution, node_y, predecessor_x_orig, successor_x_orig);
                    let (delta_y, predecessor_x, successor_x) = improve_with(
                        insertion_y,
                        node_x,
                        delta_y0,
                        predecessor_x_orig,
                        successor_x_orig,
                        Ghost(ns),
                    );
                    let total_delta = delta + delta_x + delta_y;
                    assert(total_delta <= in_place_cost(solution, instance, node_x as int, node_y as int));
                    let ghost c0 = *cache;
                    proof {
                        let dd = solution.nodes();
                        assert(insertion_x == star_caches.rows()[route_y as int]@[dd[node_x as int].customer as int]);
                        assert(insertion_y == star_caches.rows()[route_x as int]@[dd[node_y as int].customer as int]);
                        assert(insertion_delta_of(solution, instance, node_x as int, predecessor_y_orig as int, successor_y_orig as int) as i32 == delta_x0);
                        assert(insertion_delta_of(solution, instance, node_y as int, predecessor_x_orig as int, successor_x_orig as int) as i32 == delta_y0);
                        assert(star_arrival(solution, instance, *star_caches, route_y, node_x, node_y) == (delta_x, predecessor_y, successor_y));
                        assert(star_arrival(solution, instance, *star_caches, route_x, node_y, node_x) == (delta_y, predecessor_x, successor_x));
                        assert(total_delta == star_exchange_cost(solution, instance, *star_caches, route_x, route_y, node_x, node_y));
                    }
                    if cache.delta.update(total_delta, random) {
                        cache.mv = NodePairMove {
                            swapped: false,
                            route_x,
                            route_y,
                            node_x,
                            predecessor_x,
                            successor_x,
                            node_y,
                            predecessor_y,
                            successor_y,
                            split_load: 0,
                        };
                        proof {
                            assert(star_recorded_at(solution, instance, context, *star_caches, *cache, route_x, route_y, steps_x as int, steps_y as int));
                        }
                    } else {
                        proof {
                            if old(cache).delta.counter == -1 && cache.delta.counter != -1 {
                                assert(c0.delta.counter != -1);
                                let (a, b) = choose|a: int, b: int| #[trigger] star_recorded_at(solution, instance, context, *star_caches, c0, route_x, route_y, a, b);
                                assert(star_recorded_at(solution, instance, context, *star_caches, *cache, route_x, route_y, a, b));
                            }
                        }
                    }
                }
                proof {
                    assert(star_bound_at(solution, instance, context, rx, ry, cache.delta.value as int, steps_x as int, steps_y as int));
                    assert forall|j: int| 0 <= j < steps_y + 1 implies #[trigger] star_bound_at(
                        solution,
                        instance,
                        context,
                        rx,
                        ry,
                        cache.delta.value as int,
                        steps_x as int,
                        j,
                    ) by {
                        if j < steps_y {
                            assert(star_bound_at(solution, instance, context, rx, ry, v0 as int, steps_x as int, j));
                        }
                    }
                    if is_route(d, hy) {
                        lemma_walk_stop(d, hy, steps_y as nat);
                    }
                }
                node_y = solution.successor(node_y);
                steps_y = steps_y + 1;
            }
            proof {
                if is_route(d, hy) {
                    lemma_walk_stop(d, hy, steps_y as nat);
                }
                assert forall|i: int, j: int|
                    0 <= i < steps_x + 1 && 0 <= j < route_length(d, hy) && is_route(d, hy) implies #[trigger] star_bound_at(
                    solution,
                    instance,
                    context,
                    rx,
                    ry,
                    cache.delta.value as int,
                    i,
                    j,
                ) by {
                    if i < steps_x {
                        assert(star_bound_at(solution, instance, context, rx, ry, vx as int, i, j));
                    }
                }
                if is_route(d, hx) {
                    lemma_walk_stop(d, hx, steps_x as nat);
                }
            }
            node_x = solution.successor(node_x);
            steps_x = steps_x + 1;
        }
        proof {
            if is_route(d, hx) {
                lemma_walk_stop(d, hx, steps_x as nat);
            }
        }
    }
}

impl InterOperator for SwapStar {
    fn apply(
        &self,
        instance: &Instance,
        solution: &mut AlkaidSolution,
        context: &mut RouteContext,
        random: &mut Random,
        cache_map: &mut CacheMap,
    ) -> (r: Vec<Node>)
        ensures
            same_content(old(solution), final(solution)),
            old(cache_map).all_caches_fresh(old(context).routes().len() as int) && r@.len() == 0 ==> forall|x: int, y: int|
                0 <= x < y < old(context).routes().len() ==> #[trigger] star_all_bounded(old(solution), instance, old(context), x, y, 0),
            old(cache_map).all_caches_fresh(old(context).routes().len() as int) && r@.len() != 0 ==> exists|mv: NodePairMove, v: int|
                #[trigger] star_applied_best(old(solution), instance, old(context), mv, v, final(solution).nodes(), r@),
            r@.len() != 0 ==> exists|mv: NodePairMove|
                final(solution).nodes() == #[trigger] swap_star_applied(old(solution).nodes(), old(context).routes(), mv)
                    && r@ == seq![mv.route_x, mv.route_y],
    {
        let ghost nc = instance.num_customers as int;
        let ghost fresh0 = cache_map.all_caches_fresh(context.routes().len() as int);
        let mut caches = cache_map.take_swap_star(solution, context, Ghost(nc));
        let ghost num_slots = solution.nodes().len() as int;
        let n = context.num_routes();
        let mut star_caches = cache_map.take_star(Ghost(n as int), Ghost(num_slots), Ghost(nc));
        let ghost rows0 = star_caches.rows().len();
        let mut best_move = NodePairMove::default();
        let mut best_delta: Delta<i32> = Delta::new(0, -1);
        let mut route_x: Node = 0;
        while route_x < n
            invariant
                instance.wf(),
                solution.valid_for(instance),
                context.fits(solution),
                n == context.routes().len(),
                nc == instance.num_customers,
                num_slots == solution.nodes().len(),
                0 <= route_x <= n,
                pair_cache_fits(caches, n as int, num_slots),
                star_caches.ok(num_slots, nc),
                star_caches.rows().len() >= rows0,
                best_delta.wf(),
                best_delta.counter == -1 ==> best_delta.value == 0,
                best_delta.counter != -1 ==> pair_slots(best_move, num_slots) && 0 <= best_move.route_x < n && 0
                    <= best_move.route_y < n && best_move.route_x != best_move.route_y,
                *solution == *old(solution),
                *context == *old(context),
                best_delta.value <= 0,
                fresh0 ==> (best_delta.counter != -1 ==> star_offer(solution, instance, context, best_move, best_delta.value as int)),
                fresh0 ==> forall|a: int, b: int|
                    0 <= a < n && 0 <= b < n && a != b ==> caches.index_of(a) != caches.index_of(b),
                fresh0 ==> forall|a: int, b: int|
                    0 <= a < b < n && !pair_done(a, b, route_x as int, (route_x + 1) as int) ==> #[trigger] caches.entry(
                        caches.index_of(a),
                        caches.index_of(b),
                    ).invalidated,
                fresh0 ==> forall|a: int, b: int|
                    0 <= a < b < n && pair_done(a, b, route_x as int, (route_x + 1) as int) ==> #[trigger] star_all_bounded(
                        solution,
                        instance,
                        context,
                        a,
                        b,
                        best_delta.value as int,
                    ),
            decreases n - route_x,
        {
            let mut route_y: Node = route_x + 1;
            while route_y < n
                invariant
                    instance.wf(),
                    solution.valid_for(instance),
                    context.fits(solution),
                    n == context.routes().len(),
                    nc == instance.num_customers,
                    num_slots == solution.nodes().len(),
                    0 <= route_x < n,
                    0 <= route_y <= n,
                    route_x < route_y,
                    pair_cache_fits(caches, n as int, num_slots),
                    star_caches.ok(num_slots, nc),
                    star_caches.rows().len() >= rows0,
                    best_delta.wf(),
                    best_delta.counter == -1 ==> best_delta.value == 0,
                    best_delta.counter != -1 ==> pair_slots(best_move, num_slots) && 0 <= best_move.route_x < n && 0
                        <= best_move.route_y < n && best_move.route_x != best_move.route_y,
                    *solution == *old(solution),
                    *context == *old(context),
                    best_delta.value <= 0,
                    fresh0 ==> (best_delta.counter != -1 ==> star_offer(solution, instance, context, best_move, best_delta.value as int)),
                    fresh0 ==> forall|a: int, b: int|
                        0 <= a < n && 0 <= b < n && a != b ==> caches.index_of(a) != caches.index_of(b),
                    fresh0 ==> forall|a: int, b: int|
                        0 <= a < b < n && !pair_done(a, b, route_x as int, route_y as int) ==> #[trigger] caches.entry(
                            caches.index_of(a),
                            caches.index_of(b),
                        ).invalidated,
                    fresh0 ==> forall|a: int, b: int|
                        0 <= a < b < n && pair_done(a, b, route_x as int, route_y as int) ==> #[trigger] star_all_bounded(
                            solution,
                            instance,
                            context,
                            a,
                            b,
                            best_delta.value as int,
                        ),
                decreases n - route_y,
            {
                let ghost c0 = caches;
                let ghost b0 = best_delta.value;
                let ghost bm0 = best_move;
                let ghost bd0 = best_delta;
                let mut cache = caches.get(route_x, route_y);
                assert(pair_slots_below(num_slots)(cache.mv));
                if !cache.try_reuse() {
                    star_caches.preprocess(instance, solution, context, route_x, random);
                    star_caches.preprocess(instance, solution, context, route_y, random);
                    Self::swap_star_inner(instance, solution, context, route_x, route_y, &mut cache, &star_caches, random);
                    proof {
                        if cache.delta.counter != -1 {
                            assert(cache.mv.route_x == route_x && cache.mv.route_y == route_y);
                            assert(star_offer(solution, instance, context, cache.mv, cache.delta.value as int));
                        }
                    }
                } else {
                    cache.mv.route_x = route_x;
                    cache.mv.route_y = route_y;
                }
                caches.set(route_x, route_y, cache);
                assert(pair_slots_below(num_slots)(cache.mv));
                if cache.delta.counter != -1 && best_delta.update_from(&cache.delta, random) {
                    best_move = cache.mv;
                }
                proof {
                    if fresh0 {
                        assert(c0.entry(c0.index_of(route_x as int), c0.index_of(route_y as int)).invalidated);
                        if best_delta.counter != -1 && !(best_move == bm0 && bd0.counter != -1 && best_delta.value == bd0.value) {
                            assert(cache.delta.counter != -1);
                            assert(best_move == cache.mv);
                            assert(best_delta.value == cache.delta.value);
                        }
                        assert(star_all_bounded(solution, instance, context, route_x as int, route_y as int, cache.delta.value as int));
                        assert(best_delta.value <= cache.delta.value);
                        lemma_star_bounded_mono(
                            solution,
                            instance,
                            context,
                            route_x as int,
                            route_y as int,
                            cache.delta.value as int,
                            best_delta.value as int,
                        );
                        assert forall|a: int, b: int|
                            0 <= a < b < n && pair_done(a, b, route_x as int, (route_y + 1) as int) implies #[trigger] star_all_bounded(
                            solution,
                            instance,
                            context,
                            a,
                            b,
                            best_delta.value as int,
                        ) by {
                            if pair_done(a, b, route_x as int, route_y as int) {
                                lemma_star_bounded_mono(solution, instance, context, a, b, b0 as int, best_delta.value as int);
                            }
                        }
                        assert forall|a: int, b: int|
                            0 <= a < b < n && !pair_done(a, b, route_x as int, (route_y + 1) as int) implies #[trigger] caches.entry(
                            caches.index_of(a),
                            caches.index_of(b),
                        ).invalidated by {
                            assert(caches.index_of(a) == c0.index_of(a));
                            assert(caches.index_of(b) == c0.index_of(b));
                            assert(c0.entry(c0.index_of(a), c0.index_of(b)).invalidated);
                            assert(c0.index_of(a) != c0.index_of(route_x as int) || c0.index_of(b) != c0.index_of(route_y as int));
                        }
                    }
                }
                route_y = route_y + 1;
            }
            route_x = route_x + 1;
        }
        cache_map.put_swap_star(caches, Ghost(n as int), Ghost(num_slots), Ghost(nc));
        cache_map.put_star(star_caches, Ghost(n as int), Ghost(num_slots), Ghost(nc));
        if best_delta.value < 0 {
            let ghost s0 = *solution;
            Self::do_swap_star(&best_move, solution, context);
            proof {
                super::lemma_same_content_valid(&s0, solution, instance);
                super::lemma_delivered_same(&s0, solution);
                assert forall|q: int| 0 <= q < solution.nodes().len() implies 0 <= (#[trigger] solution.nodes()[q]).load by {
                    assert(solution.nodes()[q].load == s0.nodes()[q].load);
                }
            }
            let mut routes: Vec<Node> = Vec::new();
            routes.push(best_move.route_x);
            routes.push(best_move.route_y);
            proof {
                assert(routes@ =~= seq![best_move.route_x, best_move.route_y]);
                assert(solution.nodes() == swap_star_applied(s0.nodes(), old(context).routes(), best_move));
                if fresh0 {
                    assert(star_applied_best(&s0, instance, old(context), best_move, best_delta.value as int, solution.nodes(), routes@));
                }
            }
            routes
        } else {
            Vec::new()
        }
    }
}

} // verus!
