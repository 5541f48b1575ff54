//! Split exchange of two consecutive slots of one route against one slot
//! of another route.
use vstd::prelude::*;
use crate::delta::Delta;
use crate::instance::{Instance, Node, MAX_DISTANCE};
use crate::intra_operator::edge;
use crate::random::Random;
use crate::route_context::RouteContext;
use crate::route_context::on_route;
use crate::solution::{AlkaidSolution, NodeData, pred_of, succ_of, load_of, walk, is_route, route_length, route_len_is, lemma_walk_stop};
use super::base_cache::BaseCache;
use super::swap::edge_cost;
use super::{
    sound, delivered, relink, set_start, split_off, lemma_fits_longer, two_one_slots_below, two_one_cache_fits, routes_in_use,
    routes_nonempty, CacheMap, InterOperator,
};
use super::cross::pair_done;

verus! {

/// A split exchange of the consecutive slots `node_i`, `node_j` of route
/// `route_ij` (between `predecessor_ij` and `successor_ij`) against slot
/// `node_k` of route `route_k`. With `move_type` 0, a new slot for the
/// customer of `node_j` with `split_load` stays in route `route_ij`; with
/// `move_type` 1, a new slot for the customer of `node_k` with
/// `split_load` stays in route `route_k`.
#[derive(Debug, Clone, Copy)]
pub struct SdSwapTwoOneMove {
    /// Which slot is split: 0 for `node_j`, 1 for `node_k`.
    pub move_type: i32,
    /// Route of `node_i` and `node_j`.
    pub route_ij: Node,
    /// Route of `node_k`.
    pub route_k: Node,
    /// Slot before the pair.
    pub predecessor_ij: Node,
    /// Slot after the pair.
    pub successor_ij: Node,
    /// First slot of the pair, as evaluated.
    pub node_i: Node,
    /// Second slot of the pair, as evaluated.
    pub node_j: Node,
    /// Slot of the other route.
    pub node_k: Node,
    /// Load of the new slot.
    pub split_load: i32,
    /// The pair goes in its own order (`node_i` first).
    pub direction_ij: bool,
    /// Type 0: the new slot comes before `node_k`; type 1: the new slot
    /// comes after the pair.
    pub direction_ijk: bool,
}

/// Slot split by `mv`: `node_j` for type 0, `node_k` otherwise.
pub open spec fn split_slot(mv: SdSwapTwoOneMove) -> Node {
    if mv.move_type == 0 {
        mv.node_j
    } else {
        mv.node_k
    }
}

/// `sol2` is `sol` after the move `mv`, and `routes` lists its two routes:
/// the split slot (a used slot) gives `split_load` of its load to a new
/// slot of its customer, and no other slot changes customer or load.
pub open spec fn two_one_applied(sol: &AlkaidSolution, mv: SdSwapTwoOneMove, sol2: &AlkaidSolution, routes: Seq<Node>) -> bool {
    let d = sol.nodes();
    let d2 = sol2.nodes();
    let t = sol.next_slot() as int;
    let x = split_slot(mv) as int;
    &&& sol.used().contains(split_slot(mv))
    &&& 0 <= mv.split_load <= d[x].load
    &&& sol2.used() == sol.used().push(sol.next_slot())
    &&& d2[t].customer == d[x].customer
    &&& d2[t].load == mv.split_load
    &&& d2[x].load == d[x].load - mv.split_load
    &&& forall|n: int|
        0 <= n < d.len() && n != x && n != t ==> (#[trigger] d2[n]).customer == d[n].customer && d2[n].load == d[n].load
    &&& routes == seq![mv.route_ij, mv.route_k]
}

impl Default for SdSwapTwoOneMove {
    fn default() -> (r: Self)
        ensures
            r.move_type == 0 && r.route_ij == 0 && r.route_k == 0 && r.predecessor_ij == 0 && r.successor_ij == 0
                && r.node_i == 0 && r.node_j == 0 && r.node_k == 0 && r.split_load == 0 && !r.direction_ij
                && !r.direction_ijk,
    {
        SdSwapTwoOneMove {
            move_type: 0,
            route_ij: 0,
            route_k: 0,
            predecessor_ij: 0,
            successor_ij: 0,
            node_i: 0,
            node_j: 0,
            node_k: 0,
            split_load: 0,
            direction_ij: false,
            direction_ijk: false,
        }
    }
}

/// The slots of `m` are below `n`.
pub open spec fn two_one_slots(m: SdSwapTwoOneMove, n: int) -> bool {
    &&& 0 <= m.predecessor_ij < n
    &&& 0 <= m.successor_ij < n
    &&& 0 <= m.node_i < n
    &&& 0 <= m.node_j < n
    &&& 0 <= m.node_k < n
}

/// A cache entry whose move uses slots below `len` and, once set, belongs
/// to routes `route_ij` and `route_k`.
pub open spec fn two_one_cache_ok(c: BaseCache<SdSwapTwoOneMove>, len: int, route_ij: Node, route_k: Node) -> bool {
    &&& c.delta.wf()
    &&& two_one_slots(c.mv, len)
    &&& c.delta.counter != -1 ==> c.mv.route_ij == route_ij && c.mv.route_k == route_k
}

/// Smaller of two integers.
pub open spec fn min2(a: int, b: int) -> int {
    if a <= b {
        a
    } else {
        b
    }
}

/// Cost of the best type-0 placements for the slots `i`, `j` (split) and
/// `k` with the pair's gap `p_ij`, `s_ij`.
pub open spec fn type0_cost(d: Seq<NodeData>, inst: &Instance, i: int, j: int, k: int, p_ij: int, s_ij: int) -> int {
    let pk = pred_of(d, k);
    let sk = succ_of(d, k);
    edge(d, inst, j, k) + min2(
        edge(d, inst, pk, i) + edge(d, inst, j, sk),
        edge(d, inst, pk, j) + edge(d, inst, i, sk),
    ) + min2(edge(d, inst, p_ij, j) + edge(d, inst, k, s_ij), edge(d, inst, p_ij, k) + edge(d, inst, j, s_ij))
}

/// Cost of putting the pair `before`, `after` and the new slot of `k`'s
/// customer in the gap of `k` (`new_last`: the new slot comes last).
pub open spec fn type1_gap_cost(d: Seq<NodeData>, inst: &Instance, before: int, after: int, k: int, new_last: bool) -> int {
    let pk = pred_of(d, k);
    let sk = succ_of(d, k);
    if new_last {
        edge(d, inst, pk, before) + edge(d, inst, after, k) + edge(d, inst, k, sk)
    } else {
        edge(d, inst, pk, k) + edge(d, inst, k, before) + edge(d, inst, after, sk)
    }
}

/// Cost of the best type-1 placements.
pub open spec fn type1_cost(d: Seq<NodeData>, inst: &Instance, i: int, j: int, k: int, p_ij: int, s_ij: int) -> int {
    edge(d, inst, p_ij, k) + edge(d, inst, k, s_ij) + min2(
        min2(type1_gap_cost(d, inst, i, j, k, true), type1_gap_cost(d, inst, i, j, k, false)),
        min2(type1_gap_cost(d, inst, j, i, k, true), type1_gap_cost(d, inst, j, i, k, false)),
    )
}

/// The moves of this operator for the pair of the `a`-th and `a + 1`-th
/// slots of route `rij` and the `b`-th slot of route `rk` cost at least
/// `v`: the pair's slot with the smaller load than the single slot is split
/// when the pair carries more, the single slot is split when it carries
/// more.
pub open spec fn two_one_bound_at(sol: &AlkaidSolution, inst: &Instance, ctx: &RouteContext, rij: int, rk: int, v: int, a: int, b: int) -> bool {
    let d = sol.nodes();
    let hij = ctx.head_of(rij);
    let i = walk(d, hij, a as nat);
    let j = walk(d, hij, (a + 1) as nat);
    let k = walk(d, ctx.head_of(rk), b as nat);
    let li = load_of(d, i);
    let lj = load_of(d, j);
    let lk = load_of(d, k);
    let p = pred_of(d, i);
    let s = succ_of(d, j);
    let base = -edge(d, inst, p, i) - edge(d, inst, j, s) - edge(d, inst, pred_of(d, k), k) - edge(d, inst, k, succ_of(d, k));
    &&& li + lj > lk && li < lk ==> v <= base + type0_cost(d, inst, i, j, k, p, s)
    &&& li + lj > lk && lj < lk ==> v <= base + type0_cost(d, inst, j, i, k, p, s)
    &&& lk > li + lj ==> v <= base + type1_cost(d, inst, i, j, k, p, s)
}

/// Every move of this operator between routes `rij` and `rk` (when both
/// are routes) costs at least `v`.
pub open spec fn two_one_all_bounded(sol: &AlkaidSolution, inst: &Instance, ctx: &RouteContext, rij: int, rk: int, v: int) -> bool {
    let d = sol.nodes();
    let hij = ctx.head_of(rij);
    let hk = ctx.head_of(rk);
    is_route(d, hij) && is_route(d, hk) ==> forall|a: int, b: int|
        0 <= a && a + 1 < route_length(d, hij) && 0 <= b < route_length(d, hk) ==> #[trigger] two_one_bound_at(
            sol,
            inst,
            ctx,
            rij,
            rk,
            v,
            a,
            b,
        )
}

/// A lower value is still a bound.
pub proof fn lemma_two_one_bounded_mono(sol: &AlkaidSolution, inst: &Instance, ctx: &RouteContext, rij: int, rk: int, v: int, w: int)
    requires
        two_one_all_bounded(sol, inst, ctx, rij, rk, v),
        w <= v,
    ensures
        two_one_all_bounded(sol, inst, ctx, rij, rk, w),
{
    let d = sol.nodes();
    let hij = ctx.head_of(rij);
    let hk = ctx.head_of(rk);
    if is_route(d, hij) && is_route(d, hk) {
        assert forall|a: int, b: int|
            0 <= a && a + 1 < route_length(d, hij) && 0 <= b < route_length(d, hk) implies #[trigger] two_one_bound_at(
            sol,
            inst,
            ctx,
            rij,
            rk,
            w,
            a,
            b,
        ) by {
            assert(two_one_bound_at(sol, inst, ctx, rij, rk, v, a, b));
        }
    }
}

/// A move of this operator that can be applied to `sol`: the split slot
/// lies on its route and its new share is within its load.
pub open spec fn two_one_move_ok(sol: &AlkaidSolution, ctx: &RouteContext, mv: SdSwapTwoOneMove) -> bool {
    let d = sol.nodes();
    let split = if mv.move_type == 0 {
        mv.node_j
    } else {
        mv.node_k
    };
    let r = if mv.move_type == 0 {
        mv.route_ij
    } else {
        mv.route_k
    };
    &&& 0 <= mv.route_ij < ctx.routes().len()
    &&& 0 <= mv.route_k < ctx.routes().len()
    &&& 0 <= mv.split_load <= load_of(d, split as int)
    &&& is_route(d, ctx.head_of(r as int)) ==> on_route(d, ctx.head_of(r as int), split as int)
}

/// Split exchange of two consecutive slots of one route against one slot
/// of another route.
#[derive(Debug, Clone, Copy, Default)]
pub struct SdSwapTwoOne;

impl SdSwapTwoOne {
    /// Applies a move: the pair leaves route `route_ij` and the single slot
    /// leaves route `route_k`; then the split slot's new share stays in its
    /// old route beside the slot that arrives.
    fn do_sd_swap_two_one(instance: &Instance, mv: &SdSwapTwoOneMove, solution: &mut AlkaidSolution, context: &mut RouteContext)
        requires
            instance.wf(),
            sound(old(solution), instance),
            old(context).fits(old(solution)),
            two_one_slots(*mv, old(solution).nodes().len() as int),
            0 <= mv.route_ij < old(context).routes().len(),
            0 <= mv.route_k < old(context).routes().len(),
            old(solution).room() > 0,
            mv.move_type == 0 ==> 0 <= mv.split_load <= old(solution).nodes()[mv.node_j as int].load,
            mv.move_type != 0 ==> 0 <= mv.split_load <= old(solution).nodes()[mv.node_k as int].load,
            mv.move_type == 0 ==> old(solution).used().contains(mv.node_j),
            mv.move_type != 0 ==> old(solution).used().contains(mv.node_k),
        ensures
            forall|c: int| #[trigger] delivered(final(solution), c) == delivered(old(solution), c),
            sound(final(solution), instance),
            final(solution).nodes().len() >= old(solution).nodes().len(),
            final(context).fits(final(solution)),
            final(context).routes().len() == old(context).routes().len(),
            final(context).pre_loads() == old(context).pre_loads(),
            forall|r: int|
                0 <= r < old(context).routes().len() ==> (#[trigger] final(context).routes()[r]).load == old(context).routes()[r].load
                    && final(context).routes()[r].tail == old(context).routes()[r].tail,
            ({
                let split = if mv.move_type == 0 {
                    mv.node_j
                } else {
                    mv.node_k
                };
                let t = old(solution).next_slot() as int;
                &&& final(solution).used() == old(solution).used().push(old(solution).next_slot())
                &&& final(solution).nodes()[t].customer == old(solution).nodes()[split as int].customer
                &&& final(solution).nodes()[t].load == mv.split_load
                &&& final(solution).nodes()[split as int].load == old(solution).nodes()[split as int].load - mv.split_load
                &&& forall|n: int|
                    0 <= n < old(solution).nodes().len() && n != split && n != t ==> (
                    #[trigger] final(solution).nodes()[n]).customer == old(solution).nodes()[n].customer
                        && final(solution).nodes()[n].load == old(solution).nodes()[n].load
            }),
            forall|r: int|
                0 <= r < old(context).routes().len() && r != mv.route_ij && r != mv.route_k
                    ==> #[trigger] final(context).routes()[r] == old(context).routes()[r],
    {
        let ghost s0 = *solution;
        let predecessor_k = solution.predecessor(mv.node_k);
        let successor_k = solution.successor(mv.node_k);
        set_start(instance, solution, context.head(mv.route_ij));
        relink(instance, solution, mv.predecessor_ij, mv.successor_ij);
        context.set_head(mv.route_ij, solution.successor(0));
        set_start(instance, solution, context.head(mv.route_k));
        relink(instance, solution, predecessor_k, successor_k);
        context.set_head(mv.route_k, solution.successor(0));
        let ghost s1 = *solution;
        if mv.move_type == 0 {
            Self::rejoin_split_pair(instance, mv, predecessor_k, successor_k, solution, context, Ghost(s0));
        } else {
            Self::rejoin_split_single(instance, mv, predecessor_k, successor_k, solution, context, Ghost(s0));
        }
    }

    /// Splits `node_j` and puts the pair and the single slot back: the
    /// single slot and the new share of `node_j` fill the pair's gap, the
    /// pair fills the single slot's gap.
    fn rejoin_split_pair(
        instance: &Instance,
        mv: &SdSwapTwoOneMove,
        predecessor_k: Node,
        successor_k: Node,
        solution: &mut AlkaidSolution,
        context: &mut RouteContext,
        Ghost(s0): Ghost<AlkaidSolution>,
    )
        requires
            instance.wf(),
            sound(old(solution), instance),
            old(context).fits(old(solution)),
            two_one_slots(*mv, old(solution).nodes().len() as int),
            old(solution).is_slot(predecessor_k as int),
            old(solution).is_slot(successor_k as int),
            0 <= mv.route_ij < old(context).routes().len(),
            0 <= mv.route_k < old(context).routes().len(),
            old(solution).room() > 0,
            s0.nodes().len() <= old(solution).nodes().len(),
            old(solution).used() == s0.used(),
            old(solution).unused() == s0.unused(),
            forall|n: int|
                0 <= n < s0.nodes().len() ==> (#[trigger] old(solution).nodes()[n]).customer == s0.nodes()[n].customer
                    && old(solution).nodes()[n].load == s0.nodes()[n].load,
            0 <= mv.split_load <= old(solution).nodes()[mv.node_j as int].load,
            old(solution).used().contains(mv.node_j),
        ensures
            forall|c: int| #[trigger] delivered(final(solution), c) == delivered(old(solution), c),
            sound(final(solution), instance),
            final(solution).nodes().len() >= old(solution).nodes().len(),
            final(context).fits(final(solution)),
            final(context).routes().len() == old(context).routes().len(),
            final(context).pre_loads() == old(context).pre_loads(),
            forall|r: int|
                0 <= r < old(context).routes().len() ==> (#[trigger] final(context).routes()[r]).load == old(context).routes()[r].load
                    && final(context).routes()[r].tail == old(context).routes()[r].tail,
            ({
                let t = old(solution).next_slot() as int;
                &&& final(solution).used() == old(solution).used().push(old(solution).next_slot())
                &&& final(solution).nodes()[t].customer == old(solution).nodes()[mv.node_j as int].customer
                &&& final(solution).nodes()[t].load == mv.split_load
                &&& final(solution).nodes()[mv.node_j as int].load == old(solution).nodes()[mv.node_j as int].load - mv.split_load
                &&& forall|n: int|
                    0 <= n < old(solution).nodes().len() && n != mv.node_j && n != t ==> (
                    #[trigger] final(solution).nodes()[n]).customer == old(solution).nodes()[n].customer
                        && final(solution).nodes()[n].load == old(solution).nodes()[n].load
            }),
            forall|r: int|
                0 <= r < old(context).routes().len() && r != mv.route_ij && r != mv.route_k
                    ==> #[trigger] final(context).routes()[r] == old(context).routes()[r],
    {
        let ghost s_in = *solution;
        let new_node_j = split_off(instance, solution, mv.node_j, mv.split_load);
        proof {
            lemma_fits_longer(context, &s_in, solution);
        }
        set_start(instance, solution, context.head(mv.route_ij));
        if mv.direction_ijk {
            relink(instance, solution, mv.predecessor_ij, new_node_j);
            relink(instance, solution, new_node_j, mv.node_k);
            relink(instance, solution, mv.node_k, mv.successor_ij);
        } else {
            relink(instance, solution, mv.predecessor_ij, mv.node_k);
            relink(instance, solution, mv.node_k, new_node_j);
            relink(instance, solution, new_node_j, mv.successor_ij);
        }
        context.set_head(mv.route_ij, solution.successor(0));
        set_start(instance, solution, context.head(mv.route_k));
        if mv.direction_ij {
            relink(instance, solution, predecessor_k, mv.node_i);
            relink(instance, solution, mv.node_i, mv.node_j);
            relink(instance, solution, mv.node_j, successor_k);
        } else {
            relink(instance, solution, predecessor_k, mv.node_j);
            relink(instance, solution, mv.node_j, mv.node_i);
            relink(instance, solution, mv.node_i, successor_k);
        }
        context.set_head(mv.route_k, solution.successor(0));
    }

    /// Splits `node_k` and puts the pair and the single slot back: the
    /// single slot fills the pair's gap, the pair and the new share of
    /// `node_k` fill the single slot's gap.
    fn rejoin_split_single(
        instance: &Instance,
        mv: &SdSwapTwoOneMove,
        predecessor_k: Node,
        successor_k: Node,
        solution: &mut AlkaidSolution,
        context: &mut RouteContext,
        Ghost(s0): Ghost<AlkaidSolution>,
    )
        requires
            instance.wf(),
            sound(old(solution), instance),
            old(context).fits(old(solution)),
            two_one_slots(*mv, old(solution).nodes().len() as int),
            old(solution).is_slot(predecessor_k as int),
            old(solution).is_slot(successor_k as int),
            0 <= mv.route_ij < old(context).routes().len(),
            0 <= mv.route_k < old(context).routes().len(),
            old(solution).room() > 0,
            s0.nodes().len() <= old(solution).nodes().len(),
            old(solution).used() == s0.used(),
            old(solution).unused() == s0.unused(),
            forall|n: int|
                0 <= n < s0.nodes().len() ==> (#[trigger] old(solution).nodes()[n]).customer == s0.nodes()[n].customer
                    && old(solution).nodes()[n].load == s0.nodes()[n].load,
            0 <= mv.split_load <= old(solution).nodes()[mv.node_k as int].load,
            old(solution).used().contains(mv.node_k),
        ensures
            forall|c: int| #[trigger] delivered(final(solution), c) == delivered(old(solution), c),
            sound(final(solution), instance),
            final(solution).nodes().len() >= old(solution).nodes().len(),
            final(context).fits(final(solution)),
            final(context).routes().len() == old(context).routes().len(),
            final(context).pre_loads() == old(context).pre_loads(),
            forall|r: int|
                0 <= r < old(context).routes().len() ==> (#[trigger] final(context).routes()[r]).load == old(context).routes()[r].load
                    && final(context).routes()[r].tail == old(context).routes()[r].tail,
            ({
                let t = old(solution).next_slot() as int;
                &&& final(solution).used() == old(solution).used().push(old(solution).next_slot())
                &&& final(solution).nodes()[t].customer == old(solution).nodes()[mv.node_k as int].customer
                &&& final(solution).nodes()[t].load == mv.split_load
                &&& final(solution).nodes()[mv.node_k as int].load == old(solution).nodes()[mv.node_k as int].load - mv.split_load
                &&& forall|n: int|
                    0 <= n < old(solution).nodes().len() && n != mv.node_k && n != t ==> (
                    #[trigger] final(solution).nodes()[n]).customer == old(solution).nodes()[n].customer
                        && final(solution).nodes()[n].load == old(solution).nodes()[n].load
            }),
            forall|r: int|
                0 <= r < old(context).routes().len() && r != mv.route_ij && r != mv.route_k
                    ==> #[trigger] final(context).routes()[r] == old(context).routes()[r],
    {
        let ghost s_in = *solution;
        let new_node_k = split_off(instance, solution, mv.node_k, mv.split_load);
        proof {
            lemma_fits_longer(context, &s_in, solution);
        }
        set_start(instance, solution, context.head(mv.route_ij));
        relink(instance, solution, mv.predecessor_ij, mv.node_k);
        relink(instance, solution, mv.node_k, mv.successor_ij);
        context.set_head(mv.route_ij, solution.successor(0));
        set_start(instance, solution, context.head(mv.route_k));
        let (before_ij, after_ij) = if mv.direction_ij {
            (mv.node_i, mv.node_j)
        } else {
            (mv.node_j, mv.node_i)
        };
        relink(instance, solution, predecessor_k, before_ij);
        relink(instance, solution, before_ij, after_ij);
        relink(instance, solution, after_ij, successor_k);
        if mv.direction_ijk {
            relink(instance, solution, after_ij, new_node_k);
            relink(instance, solution, new_node_k, successor_k);
        } else {
            relink(instance, solution, predecessor_k, new_node_k);
            relink(instance, solution, new_node_k, before_ij);
        }
        context.set_head(mv.route_k, solution.successor(0));
    }

    /// Offers the type-0 move that splits `node_j` (its pair partner is
    /// `node_i`) against `node_k`; `base_delta` is the cost of cutting out
    /// the pair and `node_k`.
    fn sd_swap_two_one0(
        instance: &Instance,
        solution: &AlkaidSolution,
        route_ij: Node,
        route_k: Node,
        node_i: Node,
        node_j: Node,
        node_k: Node,
        predecessor_ij: Node,
        successor_ij: Node,
        split_load: i32,
        base_delta: i32,
        cache: &mut BaseCache<SdSwapTwoOneMove>,
        random: &mut Random,
    )
        requires
            instance.wf(),
            solution.valid_for(instance),
            solution.is_slot(node_i as int),
            solution.is_slot(node_j as int),
            solution.is_slot(node_k as int),
            solution.is_slot(predecessor_ij as int),
            solution.is_slot(successor_ij as int),
            -4 * MAX_DISTANCE <= base_delta <= 4 * MAX_DISTANCE,
            two_one_cache_ok(*old(cache), solution.nodes().len() as int, route_ij, route_k),
        ensures
            two_one_cache_ok(*final(cache), solution.nodes().len() as int, route_ij, route_k),
            final(cache).invalidated == old(cache).invalidated,
            final(cache).delta.value <= old(cache).delta.value,
            final(cache).delta.counter == -1 ==> final(cache).delta.value == old(cache).delta.value && old(cache).delta.counter
                == -1,
            (final(cache).mv == old(cache).mv && (final(cache).delta.counter != -1 ==> old(cache).delta.counter != -1)) || (
            final(cache).mv.move_type == 0 && final(cache).mv.node_j == node_j && final(cache).mv.split_load == split_load
                && final(cache).mv.route_ij == route_ij && final(cache).mv.route_k == route_k),
            final(cache).delta.value <= base_delta + type0_cost(
                solution.nodes(),
                instance,
                node_i as int,
                node_j as int,
                node_k as int,
                predecessor_ij as int,
                successor_ij as int,
            ),
    {
        let predecessor_k = solution.predecessor(node_k);
        let successor_k = solution.successor(node_k);
        let delta_ij = edge_cost(instance, solution, predecessor_k, node_i) + edge_cost(instance, solution, node_j, successor_k);
        let delta_ji = edge_cost(instance, solution, predecessor_k, node_j) + edge_cost(instance, solution, node_i, successor_k);
        let delta_jk = edge_cost(instance, solution, predecessor_ij, node_j) + edge_cost(instance, solution, node_k, successor_ij);
        let delta_kj = edge_cost(instance, solution, predecessor_ij, node_k) + edge_cost(instance, solution, node_j, successor_ij);
        let mut best_delta_ij = delta_ij;
        let mut direction_ij = true;
        if delta_ij > delta_ji {
            best_delta_ij = delta_ji;
            direction_ij = false;
        }
        let mut best_delta_jk = delta_jk;
        let mut direction_jk = true;
        if delta_jk > delta_kj {
            best_delta_jk = delta_kj;
            direction_jk = false;
        }
        let delta = base_delta + edge_cost(instance, solution, node_j, node_k) + best_delta_ij + best_delta_jk;
        if cache.delta.update(delta, random) {
            cache.mv = SdSwapTwoOneMove {
                move_type: 0,
                route_ij,
                route_k,
                predecessor_ij,
                successor_ij,
                node_i,
                node_j,
                node_k,
                split_load,
                direction_ij,
                direction_ijk: direction_jk,
            };
        }
    }

    /// Offers the type-1 moves that split `node_k` against the pair
    /// `node_i`, `node_j`, in both orders of the pair and with the new slot
    /// first or last.
    fn sd_swap_two_one1(
        instance: &Instance,
        solution: &AlkaidSolution,
        route_ij: Node,
        route_k: Node,
        node_i: Node,
        node_j: Node,
        node_k: Node,
        predecessor_ij: Node,
        successor_ij: Node,
        split_load: i32,
        base_delta: i32,
        cache: &mut BaseCache<SdSwapTwoOneMove>,
        random: &mut Random,
    )
        requires
            instance.wf(),
            solution.valid_for(instance),
            solution.is_slot(node_i as int),
            solution.is_slot(node_j as int),
            solution.is_slot(node_k as int),
            solution.is_slot(predecessor_ij as int),
            solution.is_slot(successor_ij as int),
            -4 * MAX_DISTANCE <= base_delta <= 4 * MAX_DISTANCE,
            two_one_cache_ok(*old(cache), solution.nodes().len() as int, route_ij, route_k),
        ensures
            two_one_cache_ok(*final(cache), solution.nodes().len() as int, route_ij, route_k),
            final(cache).invalidated == old(cache).invalidated,
            final(cache).delta.value <= old(cache).delta.value,
            final(cache).delta.counter == -1 ==> final(cache).delta.value == old(cache).delta.value && old(cache).delta.counter
                == -1,
            (final(cache).mv == old(cache).mv && (final(cache).delta.counter != -1 ==> old(cache).delta.counter != -1)) || (
            final(cache).mv.move_type == 1 && final(cache).mv.node_k == node_k && final(cache).mv.split_load == split_load
                && final(cache).mv.route_ij == route_ij && final(cache).mv.route_k == route_k),
            final(cache).delta.value <= base_delta + type1_cost(
                solution.nodes(),
                instance,
                node_i as int,
                node_j as int,
                node_k as int,
                predecessor_ij as int,
                successor_ij as int,
            ),
    {
        let ghost d = solution.nodes();
        let predecessor_k = solution.predecessor(node_k);
        let successor_k = solution.successor(node_k);
        let base_delta = base_delta + edge_cost(instance, solution, predecessor_ij, node_k) + edge_cost(
            instance,
            solution,
            node_k,
            successor_ij,
        );
        let ghost base = base_delta as int;
        let mut a: usize = 0;
        while a < 2
            invariant
                instance.wf(),
                solution.valid_for(instance),
                d == solution.nodes(),
                solution.is_slot(node_i as int),
                solution.is_slot(node_j as int),
                solution.is_slot(node_k as int),
                predecessor_k == pred_of(d, node_k as int),
                successor_k == succ_of(d, node_k as int),
                solution.is_slot(predecessor_k as int),
                solution.is_slot(successor_k as int),
                solution.is_slot(predecessor_ij as int),
                solution.is_slot(successor_ij as int),
                base == base_delta,
                -6 * MAX_DISTANCE <= base_delta <= 6 * MAX_DISTANCE,
                two_one_cache_ok(*cache, solution.nodes().len() as int, route_ij, route_k),
                cache.invalidated == old(cache).invalidated,
                cache.delta.value <= old(cache).delta.value,
                cache.delta.counter == -1 ==> cache.delta.value == old(cache).delta.value && old(cache).delta.counter == -1,
                (cache.mv == old(cache).mv && (cache.delta.counter != -1 ==> old(cache).delta.counter != -1)) || (cache.mv.move_type
                    == 1 && cache.mv.node_k == node_k && cache.mv.split_load == split_load && cache.mv.route_ij == route_ij
                    && cache.mv.route_k == route_k),
                0 <= a <= 2,
                a >= 1 ==> cache.delta.value <= base + min2(
                    type1_gap_cost(d, instance, node_i as int, node_j as int, node_k as int, true),
                    type1_gap_cost(d, instance, node_i as int, node_j as int, node_k as int, false),
                ),
                a >= 2 ==> cache.delta.value <= base + min2(
                    type1_gap_cost(d, instance, node_j as int, node_i as int, node_k as int, true),
                    type1_gap_cost(d, instance, node_j as int, node_i as int, node_k as int, false),
                ),
            decreases 2 - a,
        {
            let direction_ij = a == 0;
            let (before_ij, after_ij) = if direction_ij {
                (node_i, node_j)
            } else {
                (node_j, node_i)
            };
            let ghost v0 = cache.delta.value;
            let mut b: usize = 0;
            while b < 2
                invariant
                    instance.wf(),
                    solution.valid_for(instance),
                    d == solution.nodes(),
                    solution.is_slot(node_i as int),
                    solution.is_slot(node_j as int),
                    solution.is_slot(predecessor_ij as int),
                    solution.is_slot(successor_ij as int),
                    cache.delta.value <= v0,
                    solution.is_slot(before_ij as int),
                    solution.is_slot(after_ij as int),
                    solution.is_slot(node_k as int),
                    predecessor_k == pred_of(d, node_k as int),
                    successor_k == succ_of(d, node_k as int),
                    solution.is_slot(predecessor_k as int),
                    solution.is_slot(successor_k as int),
                    base == base_delta,
                    -6 * MAX_DISTANCE <= base_delta <= 6 * MAX_DISTANCE,
                    two_one_cache_ok(*cache, solution.nodes().len() as int, route_ij, route_k),
                    cache.invalidated == old(cache).invalidated,
                    cache.delta.value <= old(cache).delta.value,
                    cache.delta.counter == -1 ==> cache.delta.value == old(cache).delta.value && old(cache).delta.counter == -1,
                    (cache.mv == old(cache).mv && (cache.delta.counter != -1 ==> old(cache).delta.counter != -1)) || (cache.mv.move_type
                        == 1 && cache.mv.node_k == node_k && cache.mv.split_load == split_load && cache.mv.route_ij == route_ij
                        && cache.mv.route_k == route_k),
                    0 <= b <= 2,
                    b >= 1 ==> cache.delta.value <= base + type1_gap_cost(d, instance, before_ij as int, after_ij as int, node_k as int, true),
                    b >= 2 ==> cache.delta.value <= base + type1_gap_cost(d, instance, before_ij as int, after_ij as int, node_k as int, false),
                decreases 2 - b,
            {
                let direction_ijk = b == 0;
                let delta_ijk = if direction_ijk {
                    edge_cost(instance, solution, predecessor_k, before_ij) + edge_cost(instance, solution, after_ij, node_k)
                        + edge_cost(instance, solution, node_k, successor_k)
                } else {
                    edge_cost(instance, solution, predecessor_k, node_k) + edge_cost(instance, solution, node_k, before_ij)
                        + edge_cost(instance, solution, after_ij, successor_k)
                };
                let delta = base_delta + delta_ijk;
                if cache.delta.update(delta, random) {
                    cache.mv = SdSwapTwoOneMove {
                        move_type: 1,
                        route_ij,
                        route_k,
                        predecessor_ij,
                        successor_ij,
                        node_i,
                        node_j,
                        node_k,
                        split_load,
                        direction_ij,
                        direction_ijk,
                    };
                }
                b = b + 1;
            }
            a = a + 1;
        }
    }

    /// Evaluates, for every pair of consecutive slots of route `route_ij`
    /// and every slot of route `route_k` whose loads differ, the split
    /// exchanges of this operator, and keeps the cheapest in `cache`.
    /// Routes are walked to the depot, or for as many steps as there are
    /// slots.
    fn sd_swap_two_one_inner(
        instance: &Instance,
        solution: &AlkaidSolution,
        context: &RouteContext,
        route_ij: Node,
        route_k: Node,
        cache: &mut BaseCache<SdSwapTwoOneMove>,
        random: &mut Random,
    )
        requires
            instance.wf(),
            sound(solution, instance),
            context.fits(solution),
            0 <= route_ij < context.routes().len(),
            0 <= route_k < context.routes().len(),
            two_one_cache_ok(*old(cache), solution.nodes().len() as int, route_ij, route_k),
        ensures
            two_one_cache_ok(*final(cache), solution.nodes().len() as int, route_ij, route_k),
            final(cache).invalidated == old(cache).invalidated,
            final(cache).delta.value <= old(cache).delta.value,
            final(cache).delta.counter == -1 ==> final(cache).delta.value == old(cache).delta.value && old(cache).delta.counter
                == -1,
            final(cache).delta.counter != -1 && old(cache).delta.counter == -1 && context.head_of(route_ij as int) != 0
                ==> two_one_move_ok(solution, context, final(cache).mv),
            two_one_all_bounded(solution, instance, context, route_ij as int, route_k as int, final(cache).delta.value as int),
    {
        let len = solution.node_data_len();
        let ghost ns = len as int;
        let ghost d = solution.nodes();
        let ghost hij = context.head_of(route_ij as int);
        let ghost hk = context.head_of(route_k as int);
        let ghost rij = route_ij as int;
        let ghost rk = route_k as int;
        let mut node_i = context.head(route_ij);
        let mut node_j = solution.successor(node_i);
        let mut steps_ij: usize = 0;
        proof {
            if is_route(d, hij) && hij != 0 {
                lemma_walk_stop(d, hij, 0);
            }
        }
        while node_j != 0 && steps_ij < len
            invariant
                instance.wf(),
                sound(solution, instance),
                context.fits(solution),
                len == solution.nodes().len(),
                ns == len,
                d == solution.nodes(),
                hij == context.head_of(route_ij as int),
                hk == context.head_of(route_k as int),
                rij == route_ij,
                rk == route_k,
                0 <= route_ij < context.routes().len(),
                0 <= route_k < context.routes().len(),
                solution.is_slot(node_i as int),
                solution.is_slot(node_j as int),
                node_i as int == walk(d, hij, steps_ij as nat),
                node_j as int == walk(d, hij, (steps_ij + 1) as nat),
                is_route(d, hij) && hij != 0 ==> steps_ij + 1 <= route_length(d, hij),
                steps_ij <= len,
                two_one_cache_ok(*cache, ns, route_ij, route_k),
                cache.invalidated == old(cache).invalidated,
                cache.delta.value <= old(cache).delta.value,
                cache.delta.counter == -1 ==> cache.delta.value == old(cache).delta.value && old(cache).delta.counter == -1,
                cache.delta.counter != -1 && old(cache).delta.counter == -1 && hij != 0 ==> two_one_move_ok(
                    solution,
                    context,
                    cache.mv,
                ),
                is_route(d, hij) && is_route(d, hk) && hij != 0 ==> forall|a: int, b: int|
                    0 <= a < steps_ij && 0 <= b < route_length(d, hk) ==> #[trigger] two_one_bound_at(
                        solution,
                        instance,
                        context,
                        rij,
                        rk,
                        cache.delta.value as int,
                        a,
                        b,
                    ),
            decreases len - steps_ij,
        {
            let ghost vx = cache.delta.value;
            let load_i = solution.load(node_i) as i64;
            let load_j = solution.load(node_j) as i64;
            assert(0 <= load_i && 0 <= load_j);
            proof {
                if is_route(d, hij) && hij != 0 {
                    lemma_walk_stop(d, hij, (steps_ij + 1) as nat);
                    assert(on_route(d, hij, node_j as int));
                    assert(on_route(d, hij, node_i as int));
                }
            }
            let mut node_k = context.head(route_k);
            let mut steps_k: usize = 0;
            while node_k != 0 && steps_k < len
                invariant
                    instance.wf(),
                    sound(solution, instance),
                    context.fits(solution),
                    len == solution.nodes().len(),
                    ns == len,
                    d == solution.nodes(),
                    hij == context.head_of(route_ij as int),
                    hk == context.head_of(route_k as int),
                    rij == route_ij,
                    rk == route_k,
                    0 <= route_ij < context.routes().len(),
                    0 <= route_k < context.routes().len(),
                    solution.is_slot(node_i as int),
                    solution.is_slot(node_j as int),
                    solution.is_slot(node_k as int),
                    node_i as int == walk(d, hij, steps_ij as nat),
                    node_j as int == walk(d, hij, (steps_ij + 1) as nat),
                    is_route(d, hij) && hij != 0 ==> on_route(d, hij, node_i as int) && on_route(d, hij, node_j as int),
                    node_k as int == walk(d, hk, steps_k as nat),
                    is_route(d, hk) ==> steps_k <= route_length(d, hk),
                    load_i == solution.nodes()[node_i as int].load,
                    load_j == solution.nodes()[node_j as int].load,
                    0 <= load_i <= i32::MAX,
                    0 <= load_j <= i32::MAX,
                    steps_k <= len,
                    two_one_cache_ok(*cache, ns, route_ij, route_k),
                    cache.invalidated == old(cache).invalidated,
                    cache.delta.value <= vx,
                    vx <= old(cache).delta.value,
                    cache.delta.counter == -1 ==> cache.delta.value == old(cache).delta.value && old(cache).delta.counter
                        == -1,
                    cache.delta.counter != -1 && old(cache).delta.counter == -1 && hij != 0 ==> two_one_move_ok(
                        solution,
                        context,
                        cache.mv,
                    ),
                    forall|b: int| 0 <= b < steps_k ==> #[trigger] two_one_bound_at(
                        solution,
                        instance,
                        context,
                        rij,
                        rk,
                        cache.delta.value as int,
                        steps_ij as int,
                        b,
                    ),
                decreases len - steps_k,
            {
                let ghost v0 = cache.delta.value;
                let load_k = solution.load(node_k) as i64;
                assert(0 <= load_k);
                proof {
                    if is_route(d, hk) {
                        lemma_walk_stop(d, hk, steps_k as nat);
                        assert(on_route(d, hk, node_k as int));
                    }
                }
                let predecessor_ij = solution.predecessor(node_i);
                let successor_ij = solution.successor(node_j);
                let predecessor_k = solution.predecessor(node_k);
                let successor_k = solution.successor(node_k);
                let base_delta = -edge_cost(instance, solution, predecessor_ij, node_i) - edge_cost(
                    instance,
                    solution,
                    node_j,
                    successor_ij,
                ) - edge_cost(instance, solution, predecessor_k, node_k) - edge_cost(instance, solution, node_k, successor_k);
                if load_i + load_j > load_k {
                    let split_load = (load_i + load_j - load_k) as i32;
                    if load_i < load_k {
                        Self::sd_swap_two_one0(
                            instance,
                            solution,
                            route_ij,
                            route_k,
                            node_i,
                            node_j,
                            node_k,
                            predecessor_ij,
                            successor_ij,
                            split_load,
                            base_delta,
                            cache,
                            random,
                        );
                    }
                    if load_j < load_k {
                        Self::sd_swap_two_one0(
                            instance,
                            solution,
                            route_ij,
                            route_k,
                            node_j,
                            node_i,
                            node_k,
                            predecessor_ij,
                            successor_ij,
                            split_load,
                            base_delta,
                            cache,
                            random,
                        );
                    }
                } else if load_k > load_i + load_j {
                    Self::sd_swap_two_one1(
                        instance,
                        solution,
                        route_ij,
                        route_k,
                        node_i,
                        node_j,
                        node_k,
                        predecessor_ij,
                        successor_ij,
                        (load_k - load_i - load_j) as i32,
                        base_delta,
                        cache,
                        random,
                    );
                }
                proof {
                    assert(two_one_bound_at(solution, instance, context, rij, rk, cache.delta.value as int, steps_ij as int, steps_k as int));
                    assert forall|b: int| 0 <= b < steps_k + 1 implies #[trigger] two_one_bound_at(
                        solution,
                        instance,
                        context,
                        rij,
                        rk,
                        cache.delta.value as int,
                        steps_ij as int,
                        b,
                    ) by {
                        if b < steps_k {
                            assert(two_one_bound_at(solution, instance, context, rij, rk, v0 as int, steps_ij as int, b));
                        }
                    }
                }
                node_k = solution.successor(node_k);
                steps_k = steps_k + 1;
            }
            proof {
                if is_route(d, hk) {
                    lemma_walk_stop(d, hk, steps_k as nat);
                }
                assert forall|a: int, b: int|
                    0 <= a < steps_ij + 1 && 0 <= b < route_length(d, hk) && is_route(d, hij) && is_route(d, hk) && hij != 0 implies #[trigger] two_one_bound_at(
                    solution,
                    instance,
                    context,
                    rij,
                    rk,
                    cache.delta.value as int,
                    a,
                    b,
                ) by {
                    if a < steps_ij {
                        assert(two_one_bound_at(solution, instance, context, rij, rk, vx as int, a, b));
                    }
                }
                if is_route(d, hij) && hij != 0 {
                    lemma_walk_stop(d, hij, (steps_ij + 1) as nat);
                }
            }
            node_i = node_j;
            node_j = solution.successor(node_j);
            steps_ij = steps_ij + 1;
        }
        proof {
            if is_route(d, hij) && hij != 0 {
                lemma_walk_stop(d, hij, (steps_ij + 1) as nat);
            }
            if is_route(d, hij) && hij == 0 {
                assert(route_len_is(d, 0, 0));
                crate::solution::lemma_route_length(d, 0, 0);
            }
        }
    }
}

impl InterOperator for SdSwapTwoOne {
    fn apply(
        &self,
        instance: &Instance,
        solution: &mut AlkaidSolution,
        context: &mut RouteContext,
        random: &mut Random,
        cache_map: &mut CacheMap,
    ) -> (r: Vec<Node>)
        ensures
            old(solution).room() > 0 && old(cache_map).all_caches_fresh(old(context).routes().len() as int) && routes_in_use(
                old(solution),
                old(context),
            ) && routes_nonempty(old(context)) && r@.len() == 0 ==> forall|x: int, y: int|
                0 <= x < old(context).routes().len() && 0 <= y < old(context).routes().len() && x != y ==> #[trigger] two_one_all_bounded(
                    old(solution),
                    instance,
                    old(context),
                    x,
                    y,
                    0,
                ),
            r@.len() != 0 ==> exists|mv: SdSwapTwoOneMove| #[trigger] two_one_applied(old(solution), mv, final(solution), r@),
    {
        if solution.room_left() == 0 {
            return Vec::new();
        }
        let ghost nc = instance.num_customers as int;
        let ghost fresh0 = cache_map.all_caches_fresh(context.routes().len() as int);
        let mut caches = cache_map.take_sd_two_one(solution, context, Ghost(nc));
        let ghost num_slots = solution.nodes().len() as int;
        let mut best_move = SdSwapTwoOneMove::default();
        let mut best_delta: Delta<i32> = Delta::new(0, -1);
        let n = context.num_routes();
        let mut route_ij: Node = 0;
        while route_ij < n
            invariant
                instance.wf(),
                sound(solution, instance),
                context.fits(solution),
                n == context.routes().len(),
                num_slots == solution.nodes().len(),
                0 <= route_ij <= n,
                two_one_cache_fits(caches, n as int, num_slots),
                best_delta.wf(),
                best_delta.counter == -1 ==> best_delta.value == 0,
                best_delta.counter != -1 ==> two_one_slots(best_move, num_slots) && 0 <= best_move.route_ij < n
                    && 0 <= best_move.route_k < n && best_move.route_ij != best_move.route_k,
                *solution == *old(solution),
                *context == *old(context),
                best_delta.value <= 0,
                fresh0 && routes_nonempty(context) ==> (best_delta.counter != -1 ==> two_one_move_ok(solution, context, best_move)),
                fresh0 ==> forall|a: int, b: int|
                    0 <= a < n && 0 <= b < n && a != b ==> caches.index_of(a) != caches.index_of(b),
                fresh0 ==> forall|a: int, b: int|
                    0 <= a < n && 0 <= b < n && !pair_done(a, b, route_ij as int, 0) ==> #[trigger] caches.entry(
                        caches.index_of(a),
                        caches.index_of(b),
                    ).invalidated,
                fresh0 ==> forall|a: int, b: int|
                    0 <= a < n && 0 <= b < n && a != b && pair_done(a, b, route_ij as int, 0) ==> #[trigger] two_one_all_bounded(
                        solution,
                        instance,
                        context,
                        a,
                        b,
                        best_delta.value as int,
                    ),
            decreases n - route_ij,
        {
            let mut route_k: Node = 0;
            while route_k < n
                invariant
                    instance.wf(),
                    sound(solution, instance),
                    context.fits(solution),
                    n == context.routes().len(),
                    num_slots == solution.nodes().len(),
                    0 <= route_ij < n,
                    0 <= route_k <= n,
                    two_one_cache_fits(caches, n as int, num_slots),
                    best_delta.wf(),
                    best_delta.counter == -1 ==> best_delta.value == 0,
                    best_delta.counter != -1 ==> two_one_slots(best_move, num_slots) && 0 <= best_move.route_ij < n
                        && 0 <= best_move.route_k < n && best_move.route_ij != best_move.route_k,
                    *solution == *old(solution),
                    *context == *old(context),
                    best_delta.value <= 0,
                    fresh0 && routes_nonempty(context) ==> (best_delta.counter != -1 ==> two_one_move_ok(solution, context, best_move)),
                    fresh0 ==> forall|a: int, b: int|
                        0 <= a < n && 0 <= b < n && a != b ==> caches.index_of(a) != caches.index_of(b),
                    fresh0 ==> forall|a: int, b: int|
                        0 <= a < n && 0 <= b < n && !pair_done(a, b, route_ij as int, route_k as int) ==> #[trigger] caches.entry(
                            caches.index_of(a),
                            caches.index_of(b),
                        ).invalidated,
                    fresh0 ==> forall|a: int, b: int|
                        0 <= a < n && 0 <= b < n && a != b && pair_done(a, b, route_ij as int, route_k as int) ==> #[trigger] two_one_all_bounded(
                            solution,
                            instance,
                            context,
                            a,
                            b,
                            best_delta.value as int,
                        ),
                decreases n - route_k,
            {
                if route_ij != route_k {
                    let ghost c0 = caches;
                    let ghost b0 = best_delta.value;
                    let mut cache = caches.get(route_ij, route_k);
                    assert(two_one_slots_below(num_slots)(cache.mv));
                    if !cache.try_reuse() {
                        Self::sd_swap_two_one_inner(instance, solution, context, route_ij, route_k, &mut cache, random);
                    } else {
                        cache.mv.route_ij = route_ij;
                        cache.mv.route_k = route_k;
                    }
                    caches.set(route_ij, route_k, cache);
                    assert(two_one_slots_below(num_slots)(cache.mv));
                    if cache.delta.counter != -1 && best_delta.update_from(&cache.delta, random) {
                        best_move = cache.mv;
                    }
                    proof {
                        if fresh0 {
                            assert(c0.entry(c0.index_of(route_ij as int), c0.index_of(route_k as int)).invalidated);
                            assert(two_one_all_bounded(solution, instance, context, route_ij as int, route_k as int, cache.delta.value as int));
                            assert(best_delta.value <= cache.delta.value);
                            lemma_two_one_bounded_mono(
                                solution,
                                instance,
                                context,
                                route_ij as int,
                                route_k as int,
                                cache.delta.value as int,
                                best_delta.value as int,
                            );
                            assert forall|a: int, b: int|
                                0 <= a < n && 0 <= b < n && a != b && pair_done(a, b, route_ij as int, (route_k + 1) as int) implies #[trigger] two_one_all_bounded(
                                solution,
                                instance,
                                context,
                                a,
                                b,
                                best_delta.value as int,
                            ) by {
                                if pair_done(a, b, route_ij as int, route_k as int) {
                                    lemma_two_one_bounded_mono(solution, instance, context, a, b, b0 as int, best_delta.value as int);
                                }
                            }
                            assert forall|a: int, b: int|
                                0 <= a < n && 0 <= b < n && !pair_done(a, b, route_ij as int, (route_k + 1) as int) implies #[trigger] caches.entry(
                                caches.index_of(a),
                                caches.index_of(b),
                            ).invalidated by {
                                assert(caches.index_of(a) == c0.index_of(a));
                                assert(caches.index_of(b) == c0.index_of(b));
                                assert(c0.entry(c0.index_of(a), c0.index_of(b)).invalidated);
                                assert(c0.index_of(a) != c0.index_of(route_ij as int) || c0.index_of(b) != c0.index_of(route_k as int));
                            }
                        }
                    }
                }
                route_k = route_k + 1;
            }
            route_ij = route_ij + 1;
        }
        cache_map.put_sd_two_one(caches, Ghost(n as int), Ghost(num_slots), Ghost(nc));
        if best_delta.value < 0 {
            let split_node = if best_move.move_type == 0 {
                best_move.node_j
            } else {
                best_move.node_k
            };
            proof {
                if fresh0 && routes_in_use(solution, context) && routes_nonempty(context) {
                    let r0 = if best_move.move_type == 0 {
                        best_move.route_ij
                    } else {
                        best_move.route_k
                    };
                    let h = context.head_of(r0 as int);
                    assert(is_route(solution.nodes(), h));
                    let k = choose|k: nat| k < route_length(solution.nodes(), h) && walk(solution.nodes(), h, k) == split_node;
                    assert(solution.used().contains(walk(solution.nodes(), h, k) as Node));
                }
            }
            if best_move.split_load < 0 || best_move.split_load > solution.load(split_node) || !solution.is_used(split_node) {
                return Vec::new();
            }
            let ghost s0 = *solution;
            Self::do_sd_swap_two_one(instance, &best_move, solution, context);
            context.cover_slots(solution);
            proof {
                cache_map.lemma_fits_grow(n as int, num_slots, solution.nodes().len() as int, nc);
            }
            let mut routes: Vec<Node> = Vec::new();
            routes.push(best_move.route_ij);
            routes.push(best_move.route_k);
            proof {
                assert(routes@ =~= seq![best_move.route_ij, best_move.route_k]);
                assert(two_one_applied(&s0, best_move, solution, routes@));
            }
            routes
        } else {
            Vec::new()
        }
    }
}

} // verus!
