//! Exchange of a segment of `NUM_X` slots of one route with a segment of
//! `NUM_Y` slots of another (`NUM_Y == 0`: the segment is moved), each
//! segment possibly reversed.
use vstd::prelude::*;
use crate::instance::{Instance, Node, MAX_DISTANCE};
use crate::intra_operator::edge;
use crate::random::Random;
use crate::route_context::{RouteContext, RouteData, with_head};
use crate::solution::{AlkaidSolution, NodeData, linked, reverse_links, pred_of, succ_of, walk, walk_load, load_of, is_route, route_length, lemma_walk_stop, MAX_SLOTS};
use super::cross::{cut_at, pair_done};
use super::base_cache::BaseCache;
use crate::delta::Delta;
use super::{same_content, swap_slots_below, swap_cache_fits, CacheMap, InterOperator};

verus! {

/// A segment exchange (or a segment move when `direction_y == -1`, with
/// `left_y` and `right_y` the slots the segment goes between).
#[derive(Debug, Clone, Copy)]
pub struct SwapMove {
    /// Route of the first segment.
    pub route_x: Node,
    /// Route of the second segment (or of the destination).
    pub route_y: Node,
    /// The first segment is reversed (1) or not (0).
    pub direction_x: i32,
    /// The second segment is reversed (1) or not (0); -1 for a move.
    pub direction_y: i32,
    /// First slot of the first segment.
    pub left_x: Node,
    /// First slot of the second segment, or the slot before the destination.
    pub left_y: Node,
    /// Last slot of the first segment.
    pub right_x: Node,
    /// Last slot of the second segment, or the slot after the destination.
    pub right_y: Node,
}

impl Default for SwapMove {
    fn default() -> (r: Self)
        ensures
            r.route_x == 0 && r.route_y == 0 && r.direction_x == 0 && r.direction_y == 0,
            r.left_x == 0 && r.left_y == 0 && r.right_x == 0 && r.right_y == 0,
    {
        SwapMove { route_x: 0, route_y: 0, direction_x: 0, direction_y: 0, left_x: 0, left_y: 0, right_x: 0, right_y: 0 }
    }
}

/// The slots of `m` are below `n`.
pub open spec fn swap_slots(m: SwapMove, n: int) -> bool {
    &&& 0 <= m.left_x < n
    &&& 0 <= m.right_x < n
    &&& 0 <= m.left_y < n
    &&& 0 <= m.right_y < n
}

/// Cost of cutting the segment `lx ..= rx` out (and, for a move, of
/// closing the gap).
pub open spec fn swap_base(d: Seq<NodeData>, inst: &Instance, lx: int, rx: int, shift: bool) -> int {
    let b = -edge(d, inst, lx, pred_of(d, lx)) - edge(d, inst, rx, succ_of(d, rx));
    if shift {
        b + edge(d, inst, pred_of(d, lx), succ_of(d, rx))
    } else {
        b
    }
}

/// Cost of putting the segment `l ..= r` between `p` and `s`, in its
/// cheaper direction.
pub open spec fn shift_value(d: Seq<NodeData>, inst: &Instance, l: int, r: int, p: int, s: int) -> int {
    let d1 = edge(d, inst, l, p) + edge(d, inst, r, s);
    let d2 = edge(d, inst, l, s) + edge(d, inst, r, p);
    (if d1 >= d2 {
        d2
    } else {
        d1
    }) - edge(d, inst, p, s)
}

/// Cost of exchanging the segments `lx ..= rx` and `ly ..= ry` (each in
/// its cheaper direction), beyond cutting out the first one.
pub open spec fn swap_value(d: Seq<NodeData>, inst: &Instance, lx: int, rx: int, ly: int, ry: int) -> int {
    let px = pred_of(d, lx);
    let sx = succ_of(d, rx);
    let py = pred_of(d, ly);
    let sy = succ_of(d, ry);
    let d1 = edge(d, inst, lx, py) + edge(d, inst, rx, sy);
    let d2 = edge(d, inst, lx, sy) + edge(d, inst, rx, py);
    let d3 = edge(d, inst, ly, px) + edge(d, inst, ry, sx);
    let d4 = edge(d, inst, ly, sx) + edge(d, inst, ry, px);
    (if d1 >= d2 {
        d2
    } else {
        d1
    }) + (if d3 >= d4 {
        d4
    } else {
        d3
    }) - edge(d, inst, ly, py) - edge(d, inst, ry, sy)
}

/// Cost change of a move.
pub open spec fn swap_move_delta(d: Seq<NodeData>, inst: &Instance, m: SwapMove) -> int {
    if m.direction_y == -1 {
        swap_base(d, inst, m.left_x as int, m.right_x as int, true) + shift_value(
            d,
            inst,
            m.left_x as int,
            m.right_x as int,
            m.left_y as int,
            m.right_y as int,
        )
    } else {
        swap_base(d, inst, m.left_x as int, m.right_x as int, false) + swap_value(
            d,
            inst,
            m.left_x as int,
            m.right_x as int,
            m.left_y as int,
            m.right_y as int,
        )
    }
}

/// A cache entry whose move uses slots of `sol` and, once set, whose
/// delta is the move's cost change.
pub open spec fn swap_cache_ok(c: BaseCache<SwapMove>, sol: &AlkaidSolution, inst: &Instance) -> bool {
    &&& c.delta.wf()
    &&& swap_slots(c.mv, sol.nodes().len() as int)
    &&& c.delta.counter != -1 ==> c.delta.value == swap_move_delta(sol.nodes(), inst, c.mv)
}

/// Number of slots in a segment of an operator that takes `n` of them
/// (at least one).
pub open spec fn width(n: int) -> int {
    if n <= 0 {
        1
    } else {
        n
    }
}

/// Load of the `w` slots that start at the `i`-th slot of the route from
/// `head`.
pub open spec fn window_load(d: Seq<NodeData>, head: int, i: int, w: int) -> int {
    walk_load(d, head, (i + w) as nat) - walk_load(d, head, i as nat)
}

/// The move of the `wx` slots from the `i`-th slot of route `rx` (or their
/// exchange with the `wy` slots from the `j`-th slot of route `ry`; with
/// `wy == 0`, their move between the `j`-th cut of route `ry` and the slot
/// after it) costs at least `v` when it keeps both routes within capacity,
/// by the recorded route loads.
pub open spec fn swap_bound_at(
    d: Seq<NodeData>,
    inst: &Instance,
    ctx: &RouteContext,
    rx: int,
    ry: int,
    wx: int,
    wy: int,
    v: int,
    i: int,
    j: int,
) -> bool {
    let hx = ctx.head_of(rx);
    let hy = ctx.head_of(ry);
    let cap = inst.capacity as int;
    let lx = walk(d, hx, i as nat);
    let rx_end = walk(d, hx, (i + wx - 1) as nat);
    let load_x = window_load(d, hx, i, wx);
    if wy == 0 {
        ctx.routes()[ry].load + load_x <= cap ==> v <= swap_base(d, inst, lx, rx_end, true) + shift_value(
            d,
            inst,
            lx,
            rx_end,
            cut_at(d, hy, j),
            walk(d, hy, j as nat),
        )
    } else {
        let ly = walk(d, hy, j as nat);
        let ry_end = walk(d, hy, (j + wy - 1) as nat);
        let load_y = window_load(d, hy, j, wy);
        ctx.routes()[ry].load + load_x - load_y <= cap && ctx.routes()[rx].load - load_x + load_y <= cap ==> v
            <= swap_base(d, inst, lx, rx_end, false) + swap_value(d, inst, lx, rx_end, ly, ry_end)
    }
}

/// The `i`-th segment of `wx` slots of route `rx` moved to route `ry`
/// (`wy == 0`), or exchanged with the `j`-th segment of `wy` slots of
/// route `ry`, keeps both routes within capacity, by the recorded route
/// loads.
pub open spec fn segments_fit(d: Seq<NodeData>, inst: &Instance, ctx: &RouteContext, rx: int, ry: int, wx: int, wy: int, i: int, j: int) -> bool {
    let cap = inst.capacity as int;
    let load_x = window_load(d, ctx.head_of(rx), i, wx);
    if wy == 0 {
        ctx.routes()[ry].load + load_x <= cap
    } else {
        let load_y = window_load(d, ctx.head_of(ry), j, wy);
        ctx.routes()[ry].load + load_x - load_y <= cap && ctx.routes()[rx].load - load_x + load_y <= cap
    }
}

/// `mv` takes the `i`-th segment of `wx` slots of its route `route_x`
/// and, for an exchange, the `j`-th segment of `wy` slots of its route
/// `route_y`, and they fit.
pub open spec fn swap_move_at(d: Seq<NodeData>, inst: &Instance, ctx: &RouteContext, mv: SwapMove, wx: int, wy: int, i: int, j: int) -> bool {
    let hx = ctx.head_of(mv.route_x as int);
    let hy = ctx.head_of(mv.route_y as int);
    &&& 0 <= i
    &&& 0 <= j
    &&& mv.left_x as int == walk(d, hx, i as nat)
    &&& mv.right_x as int == walk(d, hx, (i + wx - 1) as nat)
    &&& wy > 0 ==> mv.left_y as int == walk(d, hy, j as nat) && mv.right_y as int == walk(d, hy, (j + wy - 1) as nat)
    &&& segments_fit(d, inst, ctx, mv.route_x as int, mv.route_y as int, wx, wy, i, j)
}

/// `mv` is a move of segments of its two routes that keeps both within
/// capacity.
pub open spec fn swap_move_fits(d: Seq<NodeData>, inst: &Instance, ctx: &RouteContext, mv: SwapMove, wx: int, wy: int) -> bool {
    exists|i: int, j: int| #[trigger] swap_move_at(d, inst, ctx, mv, wx, wy, i, j)
}

/// Positions `j` of route `ry` against which a segment is tried: every cut
/// for a move (`wy == 0`), every segment start otherwise.
pub open spec fn swap_y_range(d: Seq<NodeData>, hy: int, wy: int, j: int) -> bool {
    if wy == 0 {
        0 <= j <= route_length(d, hy)
    } else {
        0 <= j && j + wy <= route_length(d, hy)
    }
}

/// Every fitting segment move or exchange between routes `rx` and `ry`
/// (when both are routes) costs at least `v`.
pub open spec fn swap_all_bounded(
    d: Seq<NodeData>,
    inst: &Instance,
    ctx: &RouteContext,
    rx: int,
    ry: int,
    wx: int,
    wy: int,
    v: int,
) -> bool {
    let hx = ctx.head_of(rx);
    let hy = ctx.head_of(ry);
    is_route(d, hx) && is_route(d, hy) ==> forall|i: int, j: int|
        0 <= i && i + wx <= route_length(d, hx) && swap_y_range(d, hy, wy, j) ==> #[trigger] swap_bound_at(
            d,
            inst,
            ctx,
            rx,
            ry,
            wx,
            wy,
            v,
            i,
            j,
        )
}

/// A lower value is still a bound.
pub proof fn lemma_swap_bounded_mono(
    d: Seq<NodeData>,
    inst: &Instance,
    ctx: &RouteContext,
    rx: int,
    ry: int,
    wx: int,
    wy: int,
    v: int,
    w: int,
)
    requires
        swap_all_bounded(d, inst, ctx, rx, ry, wx, wy, v),
        w <= v,
    ensures
        swap_all_bounded(d, inst, ctx, rx, ry, wx, wy, w),
{
    let hx = ctx.head_of(rx);
    let hy = ctx.head_of(ry);
    if is_route(d, hx) && is_route(d, hy) {
        assert forall|i: int, j: int|
            0 <= i && i + wx <= route_length(d, hx) && swap_y_range(d, hy, wy, j) implies #[trigger] swap_bound_at(
            d,
            inst,
            ctx,
            rx,
            ry,
            wx,
            wy,
            w,
            i,
            j,
        ) by {
            assert(swap_bound_at(d, inst, ctx, rx, ry, wx, wy, v, i, j));
        }
    }
}

/// Sliding a window one slot on: it loses its first slot and gains the
/// one after its last.
proof fn lemma_window_slide(d: Seq<NodeData>, head: int, i: int, w: int)
    requires
        0 <= i,
        1 <= w,
    ensures
        window_load(d, head, i + 1, w) == window_load(d, head, i, w) - load_of(d, walk(d, head, i as nat)) + load_of(
            d,
            walk(d, head, (i + w) as nat),
        ),
        walk(d, head, (i + w) as nat) == succ_of(d, walk(d, head, (i + w - 1) as nat)),
        walk(d, head, (i + 1) as nat) == succ_of(d, walk(d, head, i as nat)),
{
    assert(walk_load(d, head, (i + w + 1) as nat) == walk_load(d, head, (i + w) as nat) + load_of(
        d,
        walk(d, head, (i + w) as nat),
    ));
    assert(walk_load(d, head, (i + 1) as nat) == walk_load(d, head, i as nat) + load_of(d, walk(d, head, i as nat)));
}

/// The slots after inserting the segment `left ..= right` between `p` and
/// `s`, reversed when `direction` is not 0.
pub open spec fn segment_linked(d: Seq<NodeData>, left: Node, right: Node, p: Node, s: Node, direction: i32) -> Seq<NodeData> {
    if direction != 0 {
        linked(reverse_links(d, right as int, left, p, (d.len() - 1) as nat), left, s)
    } else {
        linked(linked(d, p, left), right, s)
    }
}

/// First slot of the segment `left ..= right` once inserted.
pub open spec fn segment_first(left: Node, right: Node, direction: i32) -> Node {
    if direction != 0 {
        right
    } else {
        left
    }
}

/// Route records after inserting a segment whose first slot is `first`
/// after `p` in route `r`.
pub open spec fn segment_heads(routes: Seq<RouteData>, r: int, p: Node, first: Node) -> Seq<RouteData> {
    if p == 0 {
        with_head(routes, r, first)
    } else {
        routes
    }
}

/// The slots after applying `mv` to `d`.
pub open spec fn swap_applied(d: Seq<NodeData>, mv: SwapMove) -> Seq<NodeData> {
    if mv.direction_y == -1 {
        let p = pred_of(d, mv.left_x as int) as Node;
        let s = succ_of(d, mv.right_x as int) as Node;
        segment_linked(linked(d, p, s), mv.left_x, mv.right_x, mv.left_y, mv.right_y, mv.direction_x)
    } else {
        let px = pred_of(d, mv.left_x as int) as Node;
        let sx = succ_of(d, mv.right_x as int) as Node;
        let py = pred_of(d, mv.left_y as int) as Node;
        let sy = succ_of(d, mv.right_y as int) as Node;
        segment_linked(
            segment_linked(d, mv.left_x, mv.right_x, py, sy, mv.direction_x),
            mv.left_y,
            mv.right_y,
            px,
            sx,
            mv.direction_y,
        )
    }
}

/// The route records after applying `mv` to the slots `d`.
pub open spec fn swap_routes(routes: Seq<RouteData>, d: Seq<NodeData>, mv: SwapMove) -> Seq<RouteData> {
    if mv.direction_y == -1 {
        let p = pred_of(d, mv.left_x as int) as Node;
        let s = succ_of(d, mv.right_x as int) as Node;
        segment_heads(
            segment_heads(routes, mv.route_x as int, p, s),
            mv.route_y as int,
            mv.left_y,
            segment_first(mv.left_x, mv.right_x, mv.direction_x),
        )
    } else {
        let px = pred_of(d, mv.left_x as int) as Node;
        let py = pred_of(d, mv.left_y as int) as Node;
        segment_heads(
            segment_heads(routes, mv.route_y as int, py, segment_first(mv.left_x, mv.right_x, mv.direction_x)),
            mv.route_x as int,
            px,
            segment_first(mv.left_y, mv.right_y, mv.direction_y),
        )
    }
}

/// Travel cost between the customers of two slots.
pub(crate) fn edge_cost(instance: &Instance, solution: &AlkaidSolution, p: Node, s: Node) -> (r: i32)
    requires
        instance.wf(),
        solution.valid_for(instance),
        solution.is_slot(p as int),
        solution.is_slot(s as int),
    ensures
        r == edge(solution.nodes(), instance, p as int, s as int),
        -MAX_DISTANCE <= r <= MAX_DISTANCE,
{
    let cp = solution.customer(p);
    let cs = solution.customer(s);
    instance.distance(cp, cs)
}

/// Segment exchange of `NUM_X` slots against `NUM_Y` slots between two
/// routes.
#[derive(Debug, Clone, Copy)]
pub struct Swap<const NUM_X: usize, const NUM_Y: usize>;

impl<const NUM_X: usize, const NUM_Y: usize> Default for Swap<NUM_X, NUM_Y> {
    fn default() -> (r: Self) {
        Swap
    }
}

impl<const NUM_X: usize, const NUM_Y: usize> Swap<NUM_X, NUM_Y> {
    /// Puts the segment `left ..= right` between `predecessor` and
    /// `successor` (reversed when `direction != 0`), updating the head of
    /// route `route_index` when it goes first.
    fn segment_insertion(
        solution: &mut AlkaidSolution,
        context: &mut RouteContext,
        left: Node,
        right: Node,
        predecessor: Node,
        successor: Node,
        route_index: Node,
        direction: i32,
    )
        requires
            old(solution).wf(),
            old(context).fits(old(solution)),
            old(solution).is_slot(left as int),
            old(solution).is_slot(right as int),
            old(solution).is_slot(predecessor as int),
            old(solution).is_slot(successor as int),
            0 <= route_index < old(context).routes().len(),
        ensures
            final(solution).wf(),
            same_content(old(solution), final(solution)),
            final(context).fits(final(solution)),
            final(context).routes().len() == old(context).routes().len(),
            final(context).pre_loads() == old(context).pre_loads(),
            final(solution).nodes() == segment_linked(old(solution).nodes(), left, right, predecessor, successor, direction),
            final(context).routes() == segment_heads(
                old(context).routes(),
                route_index as int,
                predecessor,
                segment_first(left, right, direction),
            ),
    {
        if direction != 0 {
            solution.reversed_link(left, right, predecessor, successor);
        } else {
            solution.link(predecessor, left);
            solution.link(right, successor);
        }
        if predecessor == 0 {
            context.set_head(route_index, if direction != 0 { right } else { left });
        }
    }

    /// Applies a move.
    fn do_swap(mv: &SwapMove, solution: &mut AlkaidSolution, context: &mut RouteContext)
        requires
            old(solution).wf(),
            old(context).fits(old(solution)),
            swap_slots(*mv, old(solution).nodes().len() as int),
            0 <= mv.route_x < old(context).routes().len(),
            0 <= mv.route_y < old(context).routes().len(),
        ensures
            final(solution).wf(),
            same_content(old(solution), final(solution)),
            final(context).fits(final(solution)),
            final(context).routes().len() == old(context).routes().len(),
            final(context).pre_loads() == old(context).pre_loads(),
            final(solution).nodes() == swap_applied(old(solution).nodes(), *mv),
            final(context).routes() == swap_routes(old(context).routes(), old(solution).nodes(), *mv),
    {
        if mv.direction_y == -1 {
            let predecessor = solution.predecessor(mv.left_x);
            let successor = solution.successor(mv.right_x);
            solution.link(predecessor, successor);
            if predecessor == 0 {
                context.set_head(mv.route_x, successor);
            }
            Self::segment_insertion(
                solution,
                context,
                mv.left_x,
                mv.right_x,
                mv.left_y,
                mv.right_y,
                mv.route_y,
                mv.direction_x,
            );
        } else {
            let predecessor_x = solution.predecessor(mv.left_x);
            let successor_x = solution.successor(mv.right_x);
            let predecessor_y = solution.predecessor(mv.left_y);
            let successor_y = solution.successor(mv.right_y);
            Self::segment_insertion(
                solution,
                context,
                mv.left_x,
                mv.right_x,
                predecessor_y,
                successor_y,
                mv.route_y,
                mv.direction_x,
            );
            Self::segment_insertion(
                solution,
                context,
                mv.left_y,
                mv.right_y,
                predecessor_x,
                successor_x,
                mv.route_x,
                mv.direction_y,
            );
        }
    }

    /// Offers moving the segment `left ..= right` between `predecessor` and
    /// `successor` of route `route_y`; `base_x` is the cost of cutting it
    /// out.
    fn update_shift(
        instance: &Instance,
        solution: &AlkaidSolution,
        route_x: Node,
        route_y: Node,
        left: Node,
        right: Node,
        predecessor: Node,
        successor: Node,
        base_x: i32,
        cache: &mut BaseCache<SwapMove>,
        random: &mut Random,
    )
        requires
            instance.wf(),
            solution.valid_for(instance),
            solution.is_slot(left as int),
            solution.is_slot(right as int),
            solution.is_slot(predecessor as int),
            solution.is_slot(successor as int),
            base_x == swap_base(solution.nodes(), instance, left as int, right as int, true),
            -3 * MAX_DISTANCE <= base_x <= 3 * MAX_DISTANCE,
            swap_cache_ok(*old(cache), solution, instance),
            old(cache).delta.counter != -1 ==> old(cache).mv.route_x == route_x && old(cache).mv.route_y == route_y,
        ensures
            swap_cache_ok(*final(cache), solution, instance),
            final(cache).invalidated == old(cache).invalidated,
            final(cache).delta.value <= old(cache).delta.value,
            final(cache).delta.counter == -1 ==> final(cache).delta.value == old(cache).delta.value && old(cache).delta.counter == -1,
            final(cache).delta.counter != -1 ==> final(cache).mv.route_x == route_x && final(cache).mv.route_y == route_y,
            final(cache).delta.value <= base_x + shift_value(
                solution.nodes(),
                instance,
                left as int,
                right as int,
                predecessor as int,
                successor as int,
            ),
            final(cache).mv == old(cache).mv || (final(cache).mv.route_x == route_x && final(cache).mv.route_y == route_y
                && final(cache).mv.left_x == left && final(cache).mv.right_x == right),
            final(cache).delta.counter != -1 && old(cache).delta.counter == -1 ==> final(cache).mv.left_x == left
                && final(cache).mv.right_x == right,
    {
        let d1 = edge_cost(instance, solution, left, predecessor) + edge_cost(instance, solution, right, successor);
        let d2 = edge_cost(instance, solution, left, successor) + edge_cost(instance, solution, right, predecessor);
        let direction: i32 = if d1 >= d2 { 1 } else { 0 };
        let delta = base_x + (if direction != 0 { d2 } else { d1 }) - edge_cost(instance, solution, predecessor, successor);
        if cache.delta.update(delta, random) {
            cache.mv = SwapMove {
                route_x,
                route_y,
                direction_x: direction,
                direction_y: -1,
                left_x: left,
                left_y: predecessor,
                right_x: right,
                right_y: successor,
            };
        }
    }

    /// Offers exchanging the segments `left_x ..= right_x` and
    /// `left_y ..= right_y`; `base_x` is the cost of cutting out the first.
    fn update_swap(
        instance: &Instance,
        solution: &AlkaidSolution,
        route_x: Node,
        route_y: Node,
        left_x: Node,
        right_x: Node,
        left_y: Node,
        right_y: Node,
        base_x: i32,
        cache: &mut BaseCache<SwapMove>,
        random: &mut Random,
    )
        requires
            instance.wf(),
            solution.valid_for(instance),
            solution.is_slot(left_x as int),
            solution.is_slot(right_x as int),
            solution.is_slot(left_y as int),
            solution.is_slot(right_y as int),
            base_x == swap_base(solution.nodes(), instance, left_x as int, right_x as int, false),
            -3 * MAX_DISTANCE <= base_x <= 3 * MAX_DISTANCE,
            swap_cache_ok(*old(cache), solution, instance),
            old(cache).delta.counter != -1 ==> old(cache).mv.route_x == route_x && old(cache).mv.route_y == route_y,
        ensures
            swap_cache_ok(*final(cache), solution, instance),
            final(cache).invalidated == old(cache).invalidated,
            final(cache).delta.value <= old(cache).delta.value,
            final(cache).delta.counter == -1 ==> final(cache).delta.value == old(cache).delta.value && old(cache).delta.counter == -1,
            final(cache).delta.counter != -1 ==> final(cache).mv.route_x == route_x && final(cache).mv.route_y == route_y,
            final(cache).delta.value <= base_x + swap_value(
                solution.nodes(),
                instance,
                left_x as int,
                right_x as int,
                left_y as int,
                right_y as int,
            ),
            final(cache).mv == old(cache).mv || (final(cache).mv.route_x == route_x && final(cache).mv.route_y == route_y
                && final(cache).mv.left_x == left_x && final(cache).mv.right_x == right_x && final(cache).mv.left_y == left_y
                && final(cache).mv.right_y == right_y),
            final(cache).delta.counter != -1 && old(cache).delta.counter == -1 ==> final(cache).mv.left_x == left_x
                && final(cache).mv.right_x == right_x && final(cache).mv.left_y == left_y && final(cache).mv.right_y == right_y,
    {
        let px = solution.predecessor(left_x);
        let sx = solution.successor(right_x);
        let py = solution.predecessor(left_y);
        let sy = solution.successor(right_y);
        let d1 = edge_cost(instance, solution, left_x, py) + edge_cost(instance, solution, right_x, sy);
        let d2 = edge_cost(instance, solution, left_x, sy) + edge_cost(instance, solution, right_x, py);
        let d3 = edge_cost(instance, solution, left_y, px) + edge_cost(instance, solution, right_y, sx);
        let d4 = edge_cost(instance, solution, left_y, sx) + edge_cost(instance, solution, right_y, px);
        let direction_x: i32 = if d1 >= d2 { 1 } else { 0 };
        let direction_y: i32 = if d3 >= d4 { 1 } else { 0 };
        let delta = base_x + (if direction_x != 0 { d2 } else { d1 }) + (if direction_y != 0 { d4 } else { d3 })
            - edge_cost(instance, solution, left_y, py) - edge_cost(instance, solution, right_y, sy);
        if cache.delta.update(delta, random) {
            cache.mv = SwapMove { route_x, route_y, direction_x, direction_y, left_x, left_y, right_x, right_y };
        }
    }
}


impl<const NUM_X: usize, const NUM_Y: usize> Swap<NUM_X, NUM_Y> {
    /// Offers moving the segment `left_x ..= right_x`, the `i`-th segment
    /// of route `route_x`, to every position of route `route_y`; `base_x` is
    /// the cost of cutting it out. The route is walked to the depot, or for
    /// as many steps as there are slots.
    fn shift_row(
        instance: &Instance,
        solution: &AlkaidSolution,
        context: &RouteContext,
        route_x: Node,
        route_y: Node,
        left_x: Node,
        right_x: Node,
        base_x: i32,
        cache: &mut BaseCache<SwapMove>,
        random: &mut Random,
        Ghost(i): Ghost<int>,
    )
        requires
            instance.wf(),
            solution.valid_for(instance),
            context.fits(solution),
            0 <= route_x < context.routes().len(),
            0 <= route_y < context.routes().len(),
            NUM_Y == 0,
            0 <= i,
            solution.is_slot(left_x as int),
            solution.is_slot(right_x as int),
            left_x == walk(solution.nodes(), context.head_of(route_x as int), i as nat),
            right_x == walk(solution.nodes(), context.head_of(route_x as int), (i + width(NUM_X as int) - 1) as nat),
            base_x == swap_base(solution.nodes(), instance, left_x as int, right_x as int, true),
            -3 * MAX_DISTANCE <= base_x <= 3 * MAX_DISTANCE,
            swap_cache_ok(*old(cache), solution, instance),
            old(cache).delta.counter != -1 ==> old(cache).mv.route_x == route_x && old(cache).mv.route_y == route_y,
            segments_fit(solution.nodes(), instance, context, route_x as int, route_y as int, width(NUM_X as int), 0, i, 0),
            old(cache).delta.counter != -1 ==> swap_move_fits(solution.nodes(), instance, context, old(cache).mv, width(NUM_X as int), 0),
        ensures
            final(cache).delta.counter != -1 ==> swap_move_fits(solution.nodes(), instance, context, final(cache).mv, width(NUM_X as int), 0),
            swap_cache_ok(*final(cache), solution, instance),
            final(cache).invalidated == old(cache).invalidated,
            final(cache).delta.value <= old(cache).delta.value,
            final(cache).delta.counter == -1 ==> final(cache).delta.value == old(cache).delta.value && old(cache).delta.counter == -1,
            final(cache).delta.counter != -1 ==> final(cache).mv.route_x == route_x && final(cache).mv.route_y == route_y,
            is_route(solution.nodes(), context.head_of(route_y as int)) ==> forall|j: int|
                swap_y_range(solution.nodes(), context.head_of(route_y as int), 0, j) ==> #[trigger] swap_bound_at(
                    solution.nodes(),
                    instance,
                    context,
                    route_x as int,
                    route_y as int,
                    width(NUM_X as int),
                    0,
                    final(cache).delta.value as int,
                    i,
                    j,
                ),
    {
        let ghost d = solution.nodes();
        let ghost hy = context.head_of(route_y as int);
        let ghost wx = width(NUM_X as int);
        let len = solution.node_data_len();
        let mut predecessor: Node = 0;
        let mut successor = context.head(route_y);
        let mut fuel: usize = 0;
        loop
            invariant
                instance.wf(),
                solution.valid_for(instance),
                context.fits(solution),
                d == solution.nodes(),
                hy == context.head_of(route_y as int),
                wx == width(NUM_X as int),
                0 <= route_x < context.routes().len(),
                0 <= route_y < context.routes().len(),
                NUM_Y == 0,
                0 <= i,
                solution.is_slot(left_x as int),
                solution.is_slot(right_x as int),
                left_x == walk(d, context.head_of(route_x as int), i as nat),
                right_x == walk(d, context.head_of(route_x as int), (i + wx - 1) as nat),
                solution.is_slot(predecessor as int),
                solution.is_slot(successor as int),
                predecessor as int == cut_at(d, hy, fuel as int),
                successor as int == walk(d, hy, fuel as nat),
                is_route(d, hy) ==> fuel <= route_length(d, hy),
                len == d.len(),
                fuel <= len,
                base_x == swap_base(d, instance, left_x as int, right_x as int, true),
                -3 * MAX_DISTANCE <= base_x <= 3 * MAX_DISTANCE,
                swap_cache_ok(*cache, solution, instance),
                cache.invalidated == old(cache).invalidated,
                cache.delta.value <= old(cache).delta.value,
                cache.delta.counter == -1 ==> cache.delta.value == old(cache).delta.value && old(cache).delta.counter == -1,
                cache.delta.counter != -1 ==> cache.mv.route_x == route_x && cache.mv.route_y == route_y,
                cache.delta.counter != -1 ==> swap_move_fits(d, instance, context, cache.mv, wx, 0),
                segments_fit(d, instance, context, route_x as int, route_y as int, wx, 0, i, 0),
                forall|j: int| 0 <= j < fuel ==> #[trigger] swap_bound_at(
                    d,
                    instance,
                    context,
                    route_x as int,
                    route_y as int,
                    wx,
                    0,
                    cache.delta.value as int,
                    i,
                    j,
                ),
            ensures
                swap_cache_ok(*cache, solution, instance),
                cache.invalidated == old(cache).invalidated,
                cache.delta.value <= old(cache).delta.value,
                cache.delta.counter == -1 ==> cache.delta.value == old(cache).delta.value && old(cache).delta.counter == -1,
                cache.delta.counter != -1 ==> cache.mv.route_x == route_x && cache.mv.route_y == route_y,
                cache.delta.counter != -1 ==> swap_move_fits(d, instance, context, cache.mv, wx, 0),
                segments_fit(d, instance, context, route_x as int, route_y as int, wx, 0, i, 0),
                is_route(d, hy) ==> forall|j: int| swap_y_range(d, hy, 0, j) ==> #[trigger] swap_bound_at(
                    d,
                    instance,
                    context,
                    route_x as int,
                    route_y as int,
                    wx,
                    0,
                    cache.delta.value as int,
                    i,
                    j,
                ),
            decreases len - fuel,
        {
            let ghost v0 = cache.delta.value;
            let ghost c0 = *cache;
            Self::update_shift(
                instance,
                solution,
                route_x,
                route_y,
                left_x,
                right_x,
                predecessor,
                successor,
                base_x,
                cache,
                random,
            );
            proof {
                if cache.delta.counter != -1 && !(cache.mv == c0.mv && c0.delta.counter != -1) {
                    assert(swap_move_at(d, instance, context, cache.mv, wx, 0, i, 0));
                }
                assert(swap_bound_at(d, instance, context, route_x as int, route_y as int, wx, 0, cache.delta.value as int, i, fuel as int));
                assert forall|j: int| 0 <= j < fuel + 1 implies #[trigger] swap_bound_at(
                    d,
                    instance,
                    context,
                    route_x as int,
                    route_y as int,
                    wx,
                    0,
                    cache.delta.value as int,
                    i,
                    j,
                ) by {
                    if j < fuel {
                        assert(swap_bound_at(d, instance, context, route_x as int, route_y as int, wx, 0, v0 as int, i, j));
                    }
                }
            }
            if successor == 0 || fuel + 1 >= len {
                proof {
                    if is_route(d, hy) {
                        lemma_walk_stop(d, hy, fuel as nat);
                    }
                }
                break;
            }
            proof {
                if is_route(d, hy) {
                    lemma_walk_stop(d, hy, fuel as nat);
                }
            }
            predecessor = successor;
            successor = solution.successor(successor);
            fuel = fuel + 1;
        }
    }

    /// Offers exchanging the segment `left_x ..= right_x`, the `i`-th
    /// segment of route `route_x`, with every segment of route `route_y`
    /// whose load lies within `lower ..= upper`; `base_x` is the cost of
    /// cutting out the first. The route is walked to the depot, or for as
    /// many steps as there are slots.
    fn exchange_row(
        instance: &Instance,
        solution: &AlkaidSolution,
        context: &RouteContext,
        route_x: Node,
        route_y: Node,
        left_x: Node,
        right_x: Node,
        base_x: i32,
        lower: i64,
        upper: i64,
        cache: &mut BaseCache<SwapMove>,
        random: &mut Random,
        Ghost(i): Ghost<int>,
    )
        requires
            instance.wf(),
            solution.valid_for(instance),
            context.fits(solution),
            0 <= route_x < context.routes().len(),
            0 <= route_y < context.routes().len(),
            1 <= NUM_Y <= MAX_SLOTS,
            0 <= i,
            solution.is_slot(left_x as int),
            solution.is_slot(right_x as int),
            left_x == walk(solution.nodes(), context.head_of(route_x as int), i as nat),
            right_x == walk(solution.nodes(), context.head_of(route_x as int), (i + width(NUM_X as int) - 1) as nat),
            lower == -instance.capacity + context.routes()[route_y as int].load + window_load(
                solution.nodes(),
                context.head_of(route_x as int),
                i,
                width(NUM_X as int),
            ),
            upper == instance.capacity - context.routes()[route_x as int].load + window_load(
                solution.nodes(),
                context.head_of(route_x as int),
                i,
                width(NUM_X as int),
            ),
            base_x == swap_base(solution.nodes(), instance, left_x as int, right_x as int, false),
            -3 * MAX_DISTANCE <= base_x <= 3 * MAX_DISTANCE,
            swap_cache_ok(*old(cache), solution, instance),
            old(cache).delta.counter != -1 ==> old(cache).mv.route_x == route_x && old(cache).mv.route_y == route_y,
            old(cache).delta.counter != -1 ==> swap_move_fits(solution.nodes(), instance, context, old(cache).mv, width(NUM_X as int), NUM_Y as int),
        ensures
            final(cache).delta.counter != -1 ==> swap_move_fits(solution.nodes(), instance, context, final(cache).mv, width(NUM_X as int), NUM_Y as int),
            swap_cache_ok(*final(cache), solution, instance),
            final(cache).invalidated == old(cache).invalidated,
            final(cache).delta.value <= old(cache).delta.value,
            final(cache).delta.counter == -1 ==> final(cache).delta.value == old(cache).delta.value && old(cache).delta.counter == -1,
            final(cache).delta.counter != -1 ==> final(cache).mv.route_x == route_x && final(cache).mv.route_y == route_y,
            is_route(solution.nodes(), context.head_of(route_y as int)) ==> forall|j: int|
                swap_y_range(solution.nodes(), context.head_of(route_y as int), NUM_Y as int, j) ==> #[trigger] swap_bound_at(
                    solution.nodes(),
                    instance,
                    context,
                    route_x as int,
                    route_y as int,
                    width(NUM_X as int),
                    NUM_Y as int,
                    final(cache).delta.value as int,
                    i,
                    j,
                ),
    {
        let ghost d = solution.nodes();
        let ghost hy = context.head_of(route_y as int);
        let ghost wx = width(NUM_X as int);
        let ghost wy = NUM_Y as int;
        let len = solution.node_data_len();
        let mut left_y = context.head(route_y);
        let mut load_y: i64 = solution.load(left_y) as i64;
        let mut right_y = left_y;
        let mut j: usize = 1;
        proof {
            assert(walk_load(d, hy, 1nat) == walk_load(d, hy, 0nat) + load_of(d, walk(d, hy, 0nat)));
        }
        while j < NUM_Y && right_y != 0
            invariant
                solution.valid_for(instance),
                d == solution.nodes(),
                solution.is_slot(left_y as int),
                solution.is_slot(right_y as int),
                left_y as int == hy,
                right_y as int == walk(d, hy, (j - 1) as nat),
                right_y != 0 ==> load_y == walk_load(d, hy, j as nat),
                is_route(d, hy) ==> j - 1 <= route_length(d, hy),
                1 <= j <= NUM_Y,
                NUM_Y <= MAX_SLOTS,
                -(j as int) * 0x8000_0000 <= load_y <= (j as int) * 0x8000_0000,
            decreases NUM_Y - j,
        {
            proof {
                if is_route(d, hy) {
                    lemma_walk_stop(d, hy, (j - 1) as nat);
                }
                assert(walk(d, hy, j as nat) == succ_of(d, walk(d, hy, (j - 1) as nat)));
                assert(walk_load(d, hy, (j + 1) as nat) == walk_load(d, hy, j as nat) + load_of(d, walk(d, hy, j as nat)));
            }
            right_y = solution.successor(right_y);
            if right_y != 0 {
                load_y = load_y + solution.load(right_y) as i64;
            }
            j = j + 1;
        }
        if right_y == 0 {
            proof {
                if is_route(d, hy) {
                    lemma_walk_stop(d, hy, (j - 1) as nat);
                }
            }
            return;
        }
        assert(j == NUM_Y);
        let mut steps_y: usize = 0;
        while right_y != 0 && steps_y < len
            invariant
                instance.wf(),
                solution.valid_for(instance),
                context.fits(solution),
                d == solution.nodes(),
                hy == context.head_of(route_y as int),
                wx == width(NUM_X as int),
                wy == NUM_Y,
                0 <= route_x < context.routes().len(),
                0 <= route_y < context.routes().len(),
                1 <= NUM_Y <= MAX_SLOTS,
                0 <= i,
                solution.is_slot(left_x as int),
                solution.is_slot(right_x as int),
                left_x == walk(d, context.head_of(route_x as int), i as nat),
                right_x == walk(d, context.head_of(route_x as int), (i + wx - 1) as nat),
                lower == -instance.capacity + context.routes()[route_y as int].load + window_load(
                    d,
                    context.head_of(route_x as int),
                    i,
                    wx,
                ),
                upper == instance.capacity - context.routes()[route_x as int].load + window_load(
                    d,
                    context.head_of(route_x as int),
                    i,
                    wx,
                ),
                solution.is_slot(left_y as int),
                solution.is_slot(right_y as int),
                left_y as int == walk(d, hy, steps_y as nat),
                right_y as int == walk(d, hy, (steps_y + wy - 1) as nat),
                right_y != 0 ==> load_y == window_load(d, hy, steps_y as int, wy),
                is_route(d, hy) ==> steps_y + wy - 1 <= route_length(d, hy),
                len == d.len(),
                steps_y <= len,
                -(NUM_Y + 2 * steps_y + 1) * 0x8000_0000 <= load_y <= (NUM_Y + 2 * steps_y + 1) * 0x8000_0000,
                base_x == swap_base(d, instance, left_x as int, right_x as int, false),
                -3 * MAX_DISTANCE <= base_x <= 3 * MAX_DISTANCE,
                swap_cache_ok(*cache, solution, instance),
                cache.invalidated == old(cache).invalidated,
                cache.delta.value <= old(cache).delta.value,
                cache.delta.counter == -1 ==> cache.delta.value == old(cache).delta.value && old(cache).delta.counter == -1,
                cache.delta.counter != -1 ==> cache.mv.route_x == route_x && cache.mv.route_y == route_y,
                cache.delta.counter != -1 ==> swap_move_fits(d, instance, context, cache.mv, wx, wy),
                forall|jj: int| 0 <= jj < steps_y ==> #[trigger] swap_bound_at(
                    d,
                    instance,
                    context,
                    route_x as int,
                    route_y as int,
                    wx,
                    wy,
                    cache.delta.value as int,
                    i,
                    jj,
                ),
            decreases len - steps_y,
        {
            let ghost v0 = cache.delta.value;
            let ghost c0 = *cache;
            if load_y >= lower && load_y <= upper {
                Self::update_swap(
                    instance,
                    solution,
                    route_x,
                    route_y,
                    left_x,
                    right_x,
                    left_y,
                    right_y,
                    base_x,
                    cache,
                    random,
                );
            }
            proof {
                if cache.delta.counter != -1 && !(cache.mv == c0.mv && c0.delta.counter != -1) {
                    assert(swap_move_at(d, instance, context, cache.mv, wx, wy, i, steps_y as int));
                }
                assert(swap_bound_at(d, instance, context, route_x as int, route_y as int, wx, wy, cache.delta.value as int, i, steps_y as int));
                assert forall|jj: int| 0 <= jj < steps_y + 1 implies #[trigger] swap_bound_at(
                    d,
                    instance,
                    context,
                    route_x as int,
                    route_y as int,
                    wx,
                    wy,
                    cache.delta.value as int,
                    i,
                    jj,
                ) by {
                    if jj < steps_y {
                        assert(swap_bound_at(d, instance, context, route_x as int, route_y as int, wx, wy, v0 as int, i, jj));
                    }
                }
                lemma_window_slide(d, hy, steps_y as int, wy);
                if is_route(d, hy) {
                    lemma_walk_stop(d, hy, (steps_y + wy - 1) as nat);
                }
            }
            load_y = load_y - solution.load(left_y) as i64;
            left_y = solution.successor(left_y);
            right_y = solution.successor(right_y);
            if right_y != 0 {
                load_y = load_y + solution.load(right_y) as i64;
            }
            steps_y = steps_y + 1;
        }
        proof {
            if is_route(d, hy) {
                lemma_walk_stop(d, hy, (steps_y + wy - 1) as nat);
            }
        }
    }

    /// Evaluates every segment of `NUM_X` slots of route `route_x` against
    /// every segment of `NUM_Y` slots of route `route_y` (or every position
    /// of route `route_y` when `NUM_Y == 0`) that keeps both routes within
    /// capacity, and keeps the cheapest in `cache`. Routes are walked to
    /// the depot, or for as many steps as there are slots.
    fn swap_inner(
        instance: &Instance,
        solution: &AlkaidSolution,
        context: &RouteContext,
        route_x: Node,
        route_y: Node,
        cache: &mut BaseCache<SwapMove>,
        random: &mut Random,
    )
        requires
            instance.wf(),
            solution.valid_for(instance),
            context.fits(solution),
            0 <= route_x < context.routes().len(),
            0 <= route_y < context.routes().len(),
            NUM_X <= MAX_SLOTS,
            NUM_Y <= MAX_SLOTS,
            swap_cache_ok(*old(cache), solution, instance),
            old(cache).delta.counter != -1 ==> old(cache).mv.route_x == route_x && old(cache).mv.route_y == route_y,
            old(cache).delta.counter != -1 ==> swap_move_fits(solution.nodes(), instance, context, old(cache).mv, width(NUM_X as int), NUM_Y as int),
        ensures
            final(cache).delta.counter != -1 ==> swap_move_fits(solution.nodes(), instance, context, final(cache).mv, width(NUM_X as int), NUM_Y as int),
            swap_cache_ok(*final(cache), solution, instance),
            final(cache).invalidated == old(cache).invalidated,
            final(cache).delta.value <= old(cache).delta.value,
            final(cache).delta.counter == -1 ==> final(cache).delta.value == old(cache).delta.value && old(cache).delta.counter == -1,
            final(cache).delta.counter != -1 ==> final(cache).mv.route_x == route_x && final(cache).mv.route_y == route_y,
            swap_all_bounded(
                solution.nodes(),
                instance,
                context,
                route_x as int,
                route_y as int,
                width(NUM_X as int),
                NUM_Y as int,
                final(cache).delta.value as int,
            ),
    {
        let ghost d = solution.nodes();
        let ghost hx = context.head_of(route_x as int);
        let ghost hy = context.head_of(route_y as int);
        let ghost wx = width(NUM_X as int);
        let ghost wy = NUM_Y as int;
        let len = solution.node_data_len();
        let cap = instance.capacity as i64;
        let mut left_x = context.head(route_x);
        let mut load_x: i64 = solution.load(left_x) as i64;
        let mut right_x = left_x;
        let mut k: usize = 1;
        proof {
            assert(walk_load(d, hx, 1nat) == walk_load(d, hx, 0nat) + load_of(d, walk(d, hx, 0nat)));
        }
        while k < NUM_X
            invariant
                instance.wf(),
                solution.valid_for(instance),
                d == solution.nodes(),
                hx == context.head_of(route_x as int),
                hy == context.head_of(route_y as int),
                wx == width(NUM_X as int),
                wy == NUM_Y,
                solution.is_slot(left_x as int),
                solution.is_slot(right_x as int),
                left_x as int == hx,
                right_x as int == walk(d, hx, (k - 1) as nat),
                right_x != 0 ==> load_x == walk_load(d, hx, k as nat),
                is_route(d, hx) ==> k - 1 <= route_length(d, hx),
                1 <= k,
                k <= wx,
                NUM_X <= MAX_SLOTS,
                -(k as int) * 0x8000_0000 <= load_x <= (k as int) * 0x8000_0000,
                swap_cache_ok(*cache, solution, instance),
                cache.delta.counter != -1 ==> swap_move_fits(d, instance, context, cache.mv, wx, wy),
                cache.invalidated == old(cache).invalidated,
                cache.delta.value <= old(cache).delta.value,
                cache.delta.counter == -1 ==> cache.delta.value == old(cache).delta.value && old(cache).delta.counter == -1,
                cache.delta.counter != -1 ==> cache.mv.route_x == route_x && cache.mv.route_y == route_y,
            decreases NUM_X - k,
        {
            if right_x == 0 {
                proof {
                    if is_route(d, hx) {
                        lemma_walk_stop(d, hx, (k - 1) as nat);
                    }
                }
                return;
            }
            proof {
                if is_route(d, hx) {
                    lemma_walk_stop(d, hx, (k - 1) as nat);
                }
                assert(walk(d, hx, k as nat) == succ_of(d, walk(d, hx, (k - 1) as nat)));
                assert(walk_load(d, hx, (k + 1) as nat) == walk_load(d, hx, k as nat) + load_of(d, walk(d, hx, k as nat)));
            }
            right_x = solution.successor(right_x);
            if right_x != 0 {
                load_x = load_x + solution.load(right_x) as i64;
            }
            k = k + 1;
        }
        assert(k == wx);
        assert(-(NUM_X + 1) * 0x8000_0000 <= load_x <= (NUM_X + 1) * 0x8000_0000);
        let mut steps: usize = 0;
        while right_x != 0 && steps < len
            invariant
                instance.wf(),
                solution.valid_for(instance),
                context.fits(solution),
                d == solution.nodes(),
                hx == context.head_of(route_x as int),
                hy == context.head_of(route_y as int),
                wx == width(NUM_X as int),
                wy == NUM_Y,
                cap == instance.capacity,
                len == d.len(),
                0 <= route_x < context.routes().len(),
                0 <= route_y < context.routes().len(),
                solution.is_slot(left_x as int),
                solution.is_slot(right_x as int),
                left_x as int == walk(d, hx, steps as nat),
                right_x as int == walk(d, hx, (steps + wx - 1) as nat),
                right_x != 0 ==> load_x == window_load(d, hx, steps as int, wx),
                is_route(d, hx) ==> steps + wx - 1 <= route_length(d, hx),
                NUM_X <= MAX_SLOTS,
                NUM_Y <= MAX_SLOTS,
                steps <= len,
                -(NUM_X + 2 * steps + 1) * 0x8000_0000 <= load_x <= (NUM_X + 2 * steps + 1) * 0x8000_0000,
                swap_cache_ok(*cache, solution, instance),
                cache.delta.counter != -1 ==> swap_move_fits(d, instance, context, cache.mv, wx, wy),
                cache.invalidated == old(cache).invalidated,
                cache.delta.value <= old(cache).delta.value,
                cache.delta.counter == -1 ==> cache.delta.value == old(cache).delta.value && old(cache).delta.counter == -1,
                cache.delta.counter != -1 ==> cache.mv.route_x == route_x && cache.mv.route_y == route_y,
                is_route(d, hy) ==> forall|i: int, j: int|
                    0 <= i < steps && swap_y_range(d, hy, wy, j) ==> #[trigger] swap_bound_at(
                        d,
                        instance,
                        context,
                        route_x as int,
                        route_y as int,
                        wx,
                        wy,
                        cache.delta.value as int,
                        i,
                        j,
                    ),
            decreases len - steps,
        {
            let ghost v0 = cache.delta.value;
            let px = solution.predecessor(left_x);
            let sx = solution.successor(right_x);
            let mut base_x = -edge_cost(instance, solution, left_x, px) - edge_cost(instance, solution, right_x, sx);
            if NUM_Y == 0 {
                base_x = base_x + edge_cost(instance, solution, px, sx);
            }
            let load_y_lower = -cap + context.load(route_y) as i64 + load_x;
            if NUM_Y == 0 {
                if load_y_lower <= 0 {
                    Self::shift_row(
                        instance,
                        solution,
                        context,
                        route_x,
                        route_y,
                        left_x,
                        right_x,
                        base_x,
                        cache,
                        random,
                        Ghost(steps as int),
                    );
                }
            } else {
                let load_y_upper = cap - context.load(route_x) as i64 + load_x;
                Self::exchange_row(
                    instance,
                    solution,
                    context,
                    route_x,
                    route_y,
                    left_x,
                    right_x,
                    base_x,
                    load_y_lower,
                    load_y_upper,
                    cache,
                    random,
                    Ghost(steps as int),
                );
            }
            proof {
                assert forall|i: int, j: int|
                    0 <= i < steps + 1 && swap_y_range(d, hy, wy, j) && is_route(d, hy) implies #[trigger] swap_bound_at(
                    d,
                    instance,
                    context,
                    route_x as int,
                    route_y as int,
                    wx,
                    wy,
                    cache.delta.value as int,
                    i,
                    j,
                ) by {
                    if i < steps {
                        assert(swap_bound_at(d, instance, context, route_x as int, route_y as int, wx, wy, v0 as int, i, j));
                    }
                }
                lemma_window_slide(d, hx, steps as int, wx);
                if is_route(d, hx) {
                    lemma_walk_stop(d, hx, (steps + wx - 1) as nat);
                }
            }
            load_x = load_x - solution.load(left_x) as i64;
            left_x = solution.successor(left_x);
            right_x = solution.successor(right_x);
            if right_x != 0 {
                load_x = load_x + solution.load(right_x) as i64;
            }
            steps = steps + 1;
        }
        proof {
            if is_route(d, hx) {
                lemma_walk_stop(d, hx, (steps + wx - 1) as nat);
            }
        }
    }
}


/// `mv`, a fitting move of `wx` slots against `wy` that lowers the
/// objective, was applied to the slots `d` giving `d2`, and `routes` lists
/// its two routes.
pub open spec fn swap_applied_best(
    d: Seq<NodeData>,
    inst: &Instance,
    ctx: &RouteContext,
    mv: SwapMove,
    wx: int,
    wy: int,
    d2: Seq<NodeData>,
    routes: Seq<Node>,
) -> bool {
    &&& swap_move_delta(d, inst, mv) < 0
    &&& swap_move_fits(d, inst, ctx, mv, wx, wy)
    &&& d2 == swap_applied(d, mv)
    &&& routes == seq![mv.route_x, mv.route_y]
}

/// Route pairs `(x, y)` that the operator moving `num_x` slots against
/// `num_y` evaluates: distinct routes, in increasing order when both
/// segments have the same length.
pub open spec fn swap_pair(num_x: int, num_y: int, x: int, y: int) -> bool {
    x != y && (num_x == num_y ==> x < y)
}

impl<const NUM_X: usize, const NUM_Y: usize> InterOperator for Swap<NUM_X, NUM_Y> {
    fn apply(
        &self,
        instance: &Instance,
        solution: &mut AlkaidSolution,
        context: &mut RouteContext,
        random: &mut Random,
        cache_map: &mut CacheMap,
    ) -> (r: Vec<Node>)
        ensures
            same_content(old(solution), final(solution)),
            NUM_X <= MAX_SLOTS && NUM_Y <= MAX_SLOTS && old(cache_map).all_caches_fresh(old(context).routes().len() as int)
                && r@.len() == 0 ==> forall|x: int, y: int|
                0 <= x < old(context).routes().len() && 0 <= y < old(context).routes().len() && swap_pair(
                    NUM_X as int,
                    NUM_Y as int,
                    x,
                    y,
                ) ==> #[trigger] swap_all_bounded(
                    old(solution).nodes(),
                    instance,
                    old(context),
                    x,
                    y,
                    width(NUM_X as int),
                    NUM_Y as int,
                    0,
                ),
            NUM_X <= MAX_SLOTS && NUM_Y <= MAX_SLOTS && old(cache_map).all_caches_fresh(old(context).routes().len() as int)
                && r@.len() != 0 ==> exists|mv: SwapMove|
                #[trigger] swap_applied_best(
                    old(solution).nodes(),
                    instance,
                    old(context),
                    mv,
                    width(NUM_X as int),
                    NUM_Y as int,
                    final(solution).nodes(),
                    r@,
                ),
            r@.len() != 0 ==> exists|mv: SwapMove|
                final(solution).nodes() == #[trigger] swap_applied(old(solution).nodes(), mv) && r@ == seq![mv.route_x, mv.route_y],
    {
        if NUM_X > MAX_SLOTS || NUM_Y > MAX_SLOTS {
            return Vec::new();
        }
        let ghost nc = instance.num_customers as int;
        let ghost fresh0 = cache_map.all_caches_fresh(context.routes().len() as int);
        let ghost d = solution.nodes();
        let ghost wx = width(NUM_X as int);
        let ghost wy = NUM_Y as int;
        let mut caches = cache_map.take_swap(NUM_X, NUM_Y, solution, context, Ghost(nc));
        let ghost num_slots = solution.nodes().len() as int;
        let mut best_move = SwapMove::default();
        let mut best_delta: Delta<i32> = Delta::new(0, -1);
        let n = context.num_routes();
        let mut route_x: Node = 0;
        while route_x < n
            invariant
                instance.wf(),
                solution.valid_for(instance),
                context.fits(solution),
                n == context.routes().len(),
                num_slots == solution.nodes().len(),
                NUM_X <= MAX_SLOTS,
                NUM_Y <= MAX_SLOTS,
                0 <= route_x <= n,
                swap_cache_fits(caches, n as int, num_slots),
                best_delta.wf(),
                best_delta.counter == -1 ==> best_delta.value == 0,
                best_delta.counter != -1 ==> swap_slots(best_move, num_slots) && 0 <= best_move.route_x < n && 0
                    <= best_move.route_y < n && best_move.route_x != best_move.route_y,
                *solution == *old(solution),
                *context == *old(context),
                d == solution.nodes(),
                wx == width(NUM_X as int),
                wy == NUM_Y,
                best_delta.value <= 0,
                fresh0 ==> (best_delta.counter != -1 ==> best_delta.value == swap_move_delta(d, instance, best_move)
                    && swap_move_fits(d, instance, context, best_move, wx, wy)),
                fresh0 ==> forall|a: int, b: int|
                    0 <= a < n && 0 <= b < n && a != b ==> caches.index_of(a) != caches.index_of(b),
                fresh0 ==> forall|a: int, b: int|
                    0 <= a < n && 0 <= b < n && !pair_done(a, b, route_x as int, 0) ==> #[trigger] caches.entry(
                        caches.index_of(a),
                        caches.index_of(b),
                    ).invalidated,
                fresh0 ==> forall|a: int, b: int|
                    0 <= a < n && 0 <= b < n && swap_pair(NUM_X as int, NUM_Y as int, a, b) && pair_done(a, b, route_x as int, 0)
                        ==> #[trigger] swap_all_bounded(d, instance, context, a, b, wx, wy, best_delta.value as int),
            decreases n - route_x,
        {
            let start_y: Node = if NUM_X != NUM_Y { 0 } else { route_x + 1 };
            let mut route_y: Node = start_y;
            while route_y < n
                invariant
                    instance.wf(),
                    solution.valid_for(instance),
                    context.fits(solution),
                    n == context.routes().len(),
                    num_slots == solution.nodes().len(),
                    NUM_X <= MAX_SLOTS,
                    NUM_Y <= MAX_SLOTS,
                    0 <= route_x < n,
                    0 <= route_y <= n,
                    NUM_X == NUM_Y ==> route_x < route_y,
                    swap_cache_fits(caches, n as int, num_slots),
                    best_delta.wf(),
                    best_delta.counter == -1 ==> best_delta.value == 0,
                    best_delta.counter != -1 ==> swap_slots(best_move, num_slots) && 0 <= best_move.route_x < n && 0
                        <= best_move.route_y < n && best_move.route_x != best_move.route_y,
                    *solution == *old(solution),
                    *context == *old(context),
                    d == solution.nodes(),
                    wx == width(NUM_X as int),
                    wy == NUM_Y,
                    best_delta.value <= 0,
                    fresh0 ==> (best_delta.counter != -1 ==> best_delta.value == swap_move_delta(d, instance, best_move)
                        && swap_move_fits(d, instance, context, best_move, wx, wy)),
                    fresh0 ==> forall|a: int, b: int|
                        0 <= a < n && 0 <= b < n && a != b ==> caches.index_of(a) != caches.index_of(b),
                    fresh0 ==> forall|a: int, b: int|
                        0 <= a < n && 0 <= b < n && !pair_done(a, b, route_x as int, route_y as int) ==> #[trigger] caches.entry(
                            caches.index_of(a),
                            caches.index_of(b),
                        ).invalidated,
                    fresh0 ==> forall|a: int, b: int|
                        0 <= a < n && 0 <= b < n && swap_pair(NUM_X as int, NUM_Y as int, a, b) && pair_done(
                            a,
                            b,
                            route_x as int,
                            route_y as int,
                        ) ==> #[trigger] swap_all_bounded(d, instance, context, a, b, wx, wy, best_delta.value as int),
                decreases n - route_y,
            {
                if !(NUM_X != NUM_Y && route_x == route_y) {
                    let ghost c0 = caches;
                    let ghost b0 = best_delta.value;
                    let ghost bm0 = best_move;
                    let ghost bd0 = best_delta;
                    let mut cache = caches.get(route_x, route_y);
                    assert(swap_slots_below(num_slots)(cache.mv));
                    if !cache.try_reuse() {
                        Self::swap_inner(instance, solution, context, route_x, route_y, &mut cache, random);
                    } else {
                        cache.mv.route_x = route_x;
                        cache.mv.route_y = route_y;
                    }
                    caches.set(route_x, route_y, cache);
                    assert(swap_slots_below(num_slots)(cache.mv));
                    if cache.delta.counter != -1 && best_delta.update_from(&cache.delta, random) {
                        best_move = cache.mv;
                    }
                    proof {
                        if fresh0 {
                            assert(c0.entry(c0.index_of(route_x as int), c0.index_of(route_y as int)).invalidated);
                            if best_delta.counter != -1 && !(best_move == bm0 && bd0.counter != -1 && best_delta.value == bd0.value) {
                                assert(cache.delta.counter != -1);
                                assert(best_move == cache.mv);
                                assert(best_delta.value == cache.delta.value);
                            }
                            assert(swap_all_bounded(d, instance, context, route_x as int, route_y as int, wx, wy, cache.delta.value as int));
                            assert(best_delta.value <= cache.delta.value);
                            lemma_swap_bounded_mono(
                                d,
                                instance,
                                context,
                                route_x as int,
                                route_y as int,
                                wx,
                                wy,
                                cache.delta.value as int,
                                best_delta.value as int,
                            );
                            assert forall|a: int, b: int|
                                0 <= a < n && 0 <= b < n && swap_pair(NUM_X as int, NUM_Y as int, a, b) && pair_done(
                                    a,
                                    b,
                                    route_x as int,
                                    (route_y + 1) as int,
                                ) implies #[trigger] swap_all_bounded(d, instance, context, a, b, wx, wy, best_delta.value as int) by {
                                if pair_done(a, b, route_x as int, route_y as int) {
                                    lemma_swap_bounded_mono(d, instance, context, a, b, wx, wy, b0 as int, best_delta.value as int);
                                }
                            }
                            assert forall|a: int, b: int|
                                0 <= a < n && 0 <= b < n && !pair_done(a, b, route_x as int, (route_y + 1) as int) implies #[trigger] caches.entry(
                                caches.index_of(a),
                                caches.index_of(b),
                            ).invalidated by {
                                assert(caches.index_of(a) == c0.index_of(a));
                                assert(caches.index_of(b) == c0.index_of(b));
                                assert(c0.entry(c0.index_of(a), c0.index_of(b)).invalidated);
                                assert(c0.index_of(a) != c0.index_of(route_x as int) || c0.index_of(b) != c0.index_of(route_y as int));
                            }
                        }
                    }
                }
                route_y = route_y + 1;
            }
            route_x = route_x + 1;
        }
        cache_map.put_swap(NUM_X, NUM_Y, caches, Ghost(n as int), Ghost(num_slots), Ghost(nc));
        if best_delta.value < 0 {
            let ghost s0 = *solution;
            Self::do_swap(&best_move, solution, context);
            proof {
                super::lemma_same_content_valid(&s0, solution, instance);
                super::lemma_delivered_same(&s0, solution);
                assert forall|q: int| 0 <= q < solution.nodes().len() implies 0 <= (#[trigger] solution.nodes()[q]).load by {
                    assert(solution.nodes()[q].load == s0.nodes()[q].load);
                }
            }
            let mut routes: Vec<Node> = Vec::new();
            routes.push(best_move.route_x);
            routes.push(best_move.route_y);
            proof {
                assert(routes@ =~= seq![best_move.route_x, best_move.route_y]);
                assert(solution.nodes() == swap_applied(s0.nodes(), best_move));
                if fresh0 {
                    assert(swap_applied_best(s0.nodes(), instance, old(context), best_move, wx, wy, solution.nodes(), routes@));
                }
            }
            routes
        } else {
            Vec::new()
        }
    }
}

} // verus!
