//! Local-search moves inside one route.
use vstd::prelude::*;
use crate::delta::Delta;
use crate::instance::{Instance, Node};
use crate::random::Random;
use crate::route_context::RouteContext;
use crate::solution::{AlkaidSolution, NodeData, cust_of, pred_of, succ_of, linked, walk, is_route, route_length};

verus! {

/// A move that may improve one route.
pub trait IntraOperator {
    /// Searches route `route_index` for an improving move and applies the
    /// best one found; returns whether a move was applied.
    fn apply(
        &self,
        instance: &Instance,
        route_index: Node,
        solution: &mut AlkaidSolution,
        context: &mut RouteContext,
        random: &mut Random,
    ) -> (r: bool)
        requires
            instance.wf(),
            old(solution).valid_for(instance),
            old(context).fits(old(solution)),
            0 <= route_index < old(context).routes().len(),
        ensures
            final(solution).valid_for(instance),
            final(context).fits(final(solution)),
            final(context).routes().len() == old(context).routes().len(),
            final(solution).used() == old(solution).used(),
            final(solution).unused() == old(solution).unused(),
            final(solution).nodes().len() == old(solution).nodes().len(),
            forall|n: int|
                0 <= n < old(solution).nodes().len() ==> (#[trigger] final(solution).nodes()[n]).load == old(
                    solution,
                ).nodes()[n].load && final(solution).nodes()[n].customer == old(solution).nodes()[n].customer,
            old(context).pre_loads().len() >= old(solution).nodes().len() ==> final(context).pre_loads().len()
                >= final(solution).nodes().len(),
            !r ==> final(solution).nodes() == old(solution).nodes() && *final(context) == *old(context),
    ;
}

/// Travel cost of the edge between the customers of slots `p` and `s`.
pub open spec fn edge(d: Seq<NodeData>, inst: &Instance, p: int, s: int) -> int {
    inst.dist(cust_of(d, p), cust_of(d, s))
}

/// Cost change of exchanging the positions of slots `a` and `b`.
pub open spec fn exchange_cost(d: Seq<NodeData>, inst: &Instance, a: int, b: int) -> int {
    let pa = pred_of(d, a);
    let sa = succ_of(d, a);
    let pb = pred_of(d, b);
    let sb = succ_of(d, b);
    edge(d, inst, pa, b) + edge(d, inst, b, sa) + edge(d, inst, pb, a) + edge(d, inst, a, sb) - edge(d, inst, pa, a)
        - edge(d, inst, a, sa) - edge(d, inst, pb, b) - edge(d, inst, b, sb)
}

/// Slots after exchanging the positions of `a` and `b`.
pub open spec fn exchanged(d: Seq<NodeData>, a: Node, b: Node) -> Seq<NodeData> {
    let pa = d[a as int].predecessor;
    let sa = d[a as int].successor;
    let pb = d[b as int].predecessor;
    let sb = d[b as int].successor;
    linked(linked(linked(linked(d, pa, b), b, sa), pb, a), a, sb)
}

/// Slots `a` and `b` are the `i`-th and `j`-th slots of the route from `h`,
/// with at least one slot between them.
pub open spec fn exchange_pair(d: Seq<NodeData>, h: int, a: int, b: int) -> bool {
    exists|i: nat, j: nat|
        i + 2 <= j < route_length(d, h) && #[trigger] walk(d, h, i) == a && #[trigger] walk(d, h, j) == b
}

/// Swaps the positions of two non-adjacent slots of a route.
#[derive(Debug, Clone, Copy, Default)]
pub struct Exchange;

/// A candidate exchange.
#[derive(Debug, Clone, Copy)]
pub struct ExchangeMove {
    /// Earlier slot.
    pub node_a: Node,
    /// Later slot.
    pub node_b: Node,
}

impl Exchange {
    /// Offers the exchange of `node_a` and `node_b` to the best move.
    fn evaluate_inner(
        instance: &Instance,
        solution: &AlkaidSolution,
        node_a: Node,
        node_b: Node,
        best_move: &mut Option<ExchangeMove>,
        best_delta: &mut Delta<i32>,
        random: &mut Random,
    )
        requires
            instance.wf(),
            solution.valid_for(instance),
            solution.is_slot(node_a as int),
            solution.is_slot(node_b as int),
            old(best_delta).wf(),
        ensures
            final(best_delta).wf(),
            ({
                let c = exchange_cost(solution.nodes(), instance, node_a as int, node_b as int);
                &&& c < old(best_delta).value ==> final(best_delta).value == c && *final(best_move) == Some(
                    ExchangeMove { node_a, node_b },
                )
                &&& c >= old(best_delta).value ==> final(best_delta).value == old(best_delta).value
                &&& *final(best_move) == *old(best_move) || (*final(best_move) == Some(
                    ExchangeMove { node_a, node_b },
                ) && final(best_delta).value == c)
            }),
    {
        let predecessor_a = solution.predecessor(node_a);
        let successor_a = solution.successor(node_a);
        let predecessor_b = solution.predecessor(node_b);
        let successor_b = solution.successor(node_b);
        let ca = solution.customer(node_a);
        let cb = solution.customer(node_b);
        let cpa = solution.customer(predecessor_a);
        let csa = solution.customer(successor_a);
        let cpb = solution.customer(predecessor_b);
        let csb = solution.customer(successor_b);
        let delta = instance.distance(cpa, cb) + instance.distance(cb, csa) + instance.distance(cpb, ca)
            + instance.distance(ca, csb) - instance.distance(cpa, ca) - instance.distance(ca, csa)
            - instance.distance(cpb, cb) - instance.distance(cb, csb);
        if best_delta.update(delta, random) {
            *best_move = Some(ExchangeMove { node_a, node_b });
        }
    }

    /// Applies an exchange and refreshes the route's bookkeeping.
    fn do_exchange(mv: &ExchangeMove, route_index: Node, solution: &mut AlkaidSolution, context: &mut RouteContext)
        requires
            old(solution).wf(),
            old(solution).is_slot(mv.node_a as int),
            old(solution).is_slot(mv.node_b as int),
            old(context).fits(old(solution)),
            0 <= route_index < old(context).routes().len(),
        ensures
            final(solution).wf(),
            final(solution).nodes() == exchanged(old(solution).nodes(), mv.node_a, mv.node_b),
            final(solution).used() == old(solution).used(),
            final(solution).unused() == old(solution).unused(),
            final(solution).nodes().len() == old(solution).nodes().len(),
            forall|n: int|
                0 <= n < old(solution).nodes().len() ==> (#[trigger] final(solution).nodes()[n]).load == old(
                    solution,
                ).nodes()[n].load && final(solution).nodes()[n].customer == old(solution).nodes()[n].customer,
            final(context).pre_loads().len() >= final(solution).nodes().len(),
            final(context).fits(final(solution)),
            final(context).routes().len() == old(context).routes().len(),
            final(context).routes()[route_index as int].head == if old(solution).nodes()[mv.node_a as int].predecessor == 0 {
                mv.node_b
            } else {
                old(context).routes()[route_index as int].head
            },
            forall|q: int|
                0 <= q < old(context).routes().len() && q != route_index ==> #[trigger] final(context).routes()[q]
                    == old(context).routes()[q],
    {
        let predecessor_a = solution.predecessor(mv.node_a);
        let successor_a = solution.successor(mv.node_a);
        let predecessor_b = solution.predecessor(mv.node_b);
        let successor_b = solution.successor(mv.node_b);
        solution.link(predecessor_a, mv.node_b);
        solution.link(mv.node_b, successor_a);
        solution.link(predecessor_b, mv.node_a);
        solution.link(mv.node_a, successor_b);
        if predecessor_a == 0 {
            context.set_head(route_index, mv.node_b);
        }
        let ghost ctx1 = *context;
        context.update_route_context(solution, route_index, predecessor_a);
        proof {
            assert forall|r: int| 0 <= r < context.routes().len() implies solution.is_slot((#[trigger] context.routes()[r]).head as int)
                && solution.is_slot(context.routes()[r].tail as int) by {
                if r != route_index {
                    assert(context.routes()[r] == ctx1.routes()[r]);
                }
            }
        }
    }
}

/// Every exchange of the route from `h` with index pairs below `(ia, ·)` or
/// `(ia, < jb)` costs at least `v`.
pub open spec fn exchange_bounded(d: Seq<NodeData>, inst: &Instance, h: int, v: int, ia: nat, jb: nat, n: nat) -> bool {
    forall|i: nat, j: nat|
        i + 2 <= j < n && (i < ia || (i == ia && j < jb)) ==> v <= exchange_cost(
            d,
            inst,
            #[trigger] walk(d, h, i),
            #[trigger] walk(d, h, j),
        )
}

impl IntraOperator for Exchange {
    fn apply(
        &self,
        instance: &Instance,
        route_index: Node,
        solution: &mut AlkaidSolution,
        context: &mut RouteContext,
        random: &mut Random,
    ) -> (r: bool)
        ensures
            ({
                let d = old(solution).nodes();
                let h = old(context).head_of(route_index as int);
                let n = route_length(d, h);
                &&& r ==> exists|a: Node, b: Node|
                    #![trigger exchanged(d, a, b)]
                    old(solution).is_slot(a as int) && old(solution).is_slot(b as int)
                        && final(solution).nodes() == exchanged(d, a, b)
                        && exchange_cost(d, instance, a as int, b as int) < 0
                        && (is_route(d, h) ==> exchange_pair(d, h, a as int, b as int)
                            && exchange_bounded(d, instance, h, exchange_cost(d, instance, a as int, b as int), n, 0, n))
                &&& is_route(d, h) && (exists|i: nat, j: nat|
                    i + 2 <= j < n && exchange_cost(d, instance, #[trigger] walk(d, h, i), #[trigger] walk(d, h, j)) < 0) ==> r
            }),
    {
        let ghost d = solution.nodes();
        let ghost h = context.head_of(route_index as int);
        let ghost n = route_length(d, h);
        let ghost good = is_route(d, h);
        let mut best_move: Option<ExchangeMove> = None;
        let mut best_delta: Delta<i32> = Delta::default();
        let head = context.head(route_index);
        let len = solution.node_data_len();
        let mut node_a = head;
        let mut ia: usize = 0;
        while node_a != 0 && ia < len
            invariant
                instance.wf(),
                solution.valid_for(instance),
                d == solution.nodes(),
                len == d.len(),
                h == head,
                solution.is_slot(head as int),
                solution.is_slot(node_a as int),
                node_a == walk(d, h, ia as nat),
                ia <= len,
                forall|k: nat| k < ia ==> walk(d, h, k) != 0,
                best_delta.wf(),
                best_delta.value <= 0,
                best_move.is_none() ==> best_delta.value == 0,
                best_move matches Some(mv) ==> solution.is_slot(mv.node_a as int) && solution.is_slot(mv.node_b as int)
                    && exchange_cost(d, instance, mv.node_a as int, mv.node_b as int) == best_delta.value
                    && (good ==> exchange_pair(d, h, mv.node_a as int, mv.node_b as int)),
                good ==> n < len && crate::solution::route_len_is(d, h, n),
                good ==> ia <= n,
                good ==> exchange_bounded(d, instance, h, best_delta.value as int, ia as nat, 0, n),
            decreases len - ia,
        {
            proof {
                if good {
                    if ia == n {
                        assert(walk(d, h, n) == 0);
                    }
                }
            }
            let mut node_b = solution.successor(node_a);
            assert(walk(d, h, (ia + 1) as nat) == node_b);
            if node_b != 0 {
                node_b = solution.successor(node_b);
                let mut jb: usize = ia + 2;
                assert(walk(d, h, jb as nat) == node_b);
                while node_b != 0 && jb < len + 2
                    invariant
                        instance.wf(),
                        solution.valid_for(instance),
                        d == solution.nodes(),
                        len == d.len(),
                        h == head,
                        solution.is_slot(node_a as int),
                        solution.is_slot(node_b as int),
                        node_a == walk(d, h, ia as nat),
                        node_b == walk(d, h, jb as nat),
                        ia + 2 <= jb <= len + 2,
                        ia < len,
                        node_a != 0,
                        forall|k: nat| ia < k < jb ==> walk(d, h, k) != 0,
                        best_delta.wf(),
                        best_delta.value <= 0,
                        best_move.is_none() ==> best_delta.value == 0,
                        best_move matches Some(mv) ==> solution.is_slot(mv.node_a as int) && solution.is_slot(mv.node_b as int)
                            && exchange_cost(d, instance, mv.node_a as int, mv.node_b as int) == best_delta.value
                            && (good ==> exchange_pair(d, h, mv.node_a as int, mv.node_b as int)),
                        good ==> n < len && crate::solution::route_len_is(d, h, n),
                        good ==> ia < n,
                        good ==> jb <= n,
                        good ==> exchange_bounded(d, instance, h, best_delta.value as int, ia as nat, jb as nat, n),
                    decreases len + 2 - jb,
                {
                    proof {
                        if good {
                            if jb == n {
                                assert(walk(d, h, n) == 0);
                            }
                        }
                    }
                    let ghost old_value = best_delta.value;
                    Self::evaluate_inner(instance, solution, node_a, node_b, &mut best_move, &mut best_delta, random);
                    proof {
                        if good {
                            assert(exchange_pair(d, h, node_a as int, node_b as int)) by {
                                assert(walk(d, h, ia as nat) == node_a && walk(d, h, jb as nat) == node_b);
                            }
                            assert forall|i: nat, j: nat|
                                i + 2 <= j < n && (i < ia || (i == ia && j < jb + 1)) implies best_delta.value <= exchange_cost(
                                    d, instance, #[trigger] walk(d, h, i), #[trigger] walk(d, h, j)) by {
                                if i == ia && j == jb {
                                } else {
                                    assert(old_value <= exchange_cost(d, instance, walk(d, h, i), walk(d, h, j)));
                                }
                            }
                        }
                    }
                    node_b = solution.successor(node_b);
                    jb = jb + 1;
                }
                proof {
                    if good {
                        if node_b != 0 {
                            assert(walk(d, h, n) == 0);
                            assert(jb > n);
                        }
                        assert(jb >= n) by {
                            if jb < n {
                                assert(walk(d, h, jb as nat) != 0);
                            }
                        }
                        assert(exchange_bounded(d, instance, h, best_delta.value as int, (ia + 1) as nat, 0, n));
                    }
                }
            } else {
                proof {
                    if good {
                        assert(walk(d, h, (ia + 1) as nat) == 0);
                        assert(ia + 1 >= n) by {
                            if ia + 1 < n {
                                assert(walk(d, h, (ia + 1) as nat) != 0);
                            }
                        }
                        assert(exchange_bounded(d, instance, h, best_delta.value as int, (ia + 1) as nat, 0, n));
                    }
                }
            }
            node_a = solution.successor(node_a);
            ia = ia + 1;
        }
        proof {
            if good {
                if node_a != 0 {
                    assert(walk(d, h, n) == 0);
                }
                assert(ia >= n) by {
                    if ia < n {
                        assert(walk(d, h, ia as nat) != 0);
                    }
                }
                assert(exchange_bounded(d, instance, h, best_delta.value as int, n, 0, n));
            }
        }
        if best_delta.value < 0 {
            if let Some(mv) = best_move {
                Self::do_exchange(&mv, route_index, solution, context);
                proof {
                    assert(exchanged(d, mv.node_a, mv.node_b) == solution.nodes());
                }
                return true;
            }
        }
        proof {
            if good {
                if exists|i: nat, j: nat|
                    i + 2 <= j < n && exchange_cost(d, instance, #[trigger] walk(d, h, i), #[trigger] walk(d, h, j)) < 0 {
                    let (i, j) = choose|i: nat, j: nat|
                        i + 2 <= j < n && exchange_cost(d, instance, #[trigger] walk(d, h, i), #[trigger] walk(d, h, j)) < 0;
                    assert(best_delta.value <= exchange_cost(d, instance, walk(d, h, i), walk(d, h, j)));
                }
            }
        }
        false
    }
}

/// The slot reached after following `k` predecessor links from `start`.
pub open spec fn back_walk(d: Seq<NodeData>, start: int, k: nat) -> int
    decreases k,
{
    if k == 0 {
        start
    } else {
        pred_of(d, back_walk(d, start, (k - 1) as nat))
    }
}

/// Cost of taking the segment `head ..= tail` out and putting it between
/// `p` and `s` (forwards), before the choice of direction.
pub open spec fn or_opt_forward(d: Seq<NodeData>, inst: &Instance, head: int, tail: int, p: int, s: int) -> int {
    edge(d, inst, p, head) + edge(d, inst, s, tail)
}

/// Cost of putting the segment reversed between `p` and `s`.
pub open spec fn or_opt_backward(d: Seq<NodeData>, inst: &Instance, head: int, tail: int, p: int, s: int) -> int {
    edge(d, inst, p, tail) + edge(d, inst, s, head)
}

/// Whether the segment goes in reversed (only for segments of more than one
/// slot, when that is strictly cheaper).
pub open spec fn or_opt_reversed(d: Seq<NodeData>, inst: &Instance, num: int, head: int, tail: int, p: int, s: int) -> bool {
    num > 1 && or_opt_backward(d, inst, head, tail, p, s) < or_opt_forward(d, inst, head, tail, p, s)
}

/// Cost change of the or-opt move of segment `head ..= tail` to between
/// `p` and `s`.
pub open spec fn or_opt_cost(d: Seq<NodeData>, inst: &Instance, num: int, head: int, tail: int, p: int, s: int) -> int {
    let ph = pred_of(d, head);
    let st = succ_of(d, tail);
    edge(d, inst, ph, st) - edge(d, inst, ph, head) - edge(d, inst, tail, st) - edge(d, inst, p, s) + if or_opt_reversed(
        d,
        inst,
        num,
        head,
        tail,
        p,
        s,
    ) {
        or_opt_backward(d, inst, head, tail, p, s)
    } else {
        or_opt_forward(d, inst, head, tail, p, s)
    }
}

/// A candidate or-opt move.
#[derive(Debug, Clone, Copy)]
pub struct OrOptMove {
    /// Whether the segment is put in reversed.
    pub reversed: bool,
    /// First slot of the segment.
    pub head: Node,
    /// Last slot of the segment.
    pub tail: Node,
    /// Slot after which the segment goes.
    pub predecessor: Node,
    /// Slot before which the segment goes.
    pub successor: Node,
}

/// Slots after applying an or-opt move to a route whose head is `h`: the
/// depot's successor is set to `h`, the segment is unlinked, and it is
/// linked between the target slots (reversed if so chosen).
pub open spec fn or_opt_applied(d: Seq<NodeData>, mv: OrOptMove, h: Node) -> Seq<NodeData> {
    let ph = d[mv.head as int].predecessor;
    let st = d[mv.tail as int].successor;
    let d1 = crate::solution::with_succ(d, 0, h);
    let d2 = linked(d1, ph, st);
    if !mv.reversed {
        linked(linked(d2, mv.predecessor, mv.head), mv.tail, mv.successor)
    } else {
        linked(
            crate::solution::reverse_links(d2, mv.tail as int, mv.head, mv.predecessor, (d.len() - 1) as nat),
            mv.head,
            mv.successor,
        )
    }
}

/// Candidate moves of the segment starting at the `i`-th slot of the route
/// from `h`: to after a later slot `j`, or before a slot reached by `k`
/// predecessor steps from the segment's predecessor.
pub open spec fn or_opt_candidate(d: Seq<NodeData>, h: int, num: nat, n: nat, i: nat, p: int, s: int) -> bool {
    &&& i + num <= n
    &&& {
        ||| exists|j: nat| i + num <= j < n && #[trigger] walk(d, h, j) == p && s == succ_of(d, p)
        ||| exists|k: nat|
            #![trigger back_walk(d, pred_of(d, walk(d, h, i)), k)]
            k < d.len() && back_walk(d, pred_of(d, walk(d, h, i)), k) == s && s != 0 && p == pred_of(d, s)
                && forall|m: nat| m < k ==> back_walk(d, pred_of(d, walk(d, h, i)), m) != 0
    }
}

/// Moves an `NUM`-slot segment of a route to another position of the same
/// route, possibly reversed.
#[derive(Debug, Clone, Copy, Default)]
pub struct OrOpt<const NUM: usize>;

impl<const NUM: usize> OrOpt<NUM> {
    /// Offers the move of segment `head ..= tail` to between `predecessor`
    /// and `successor` to the best move.
    fn evaluate_inner(
        instance: &Instance,
        solution: &AlkaidSolution,
        head: Node,
        tail: Node,
        predecessor: Node,
        successor: Node,
        best_move: &mut Option<OrOptMove>,
        best_delta: &mut Delta<i32>,
        random: &mut Random,
    )
        requires
            instance.wf(),
            solution.valid_for(instance),
            solution.is_slot(head as int),
            solution.is_slot(tail as int),
            solution.is_slot(predecessor as int),
            solution.is_slot(successor as int),
            old(best_delta).wf(),
        ensures
            final(best_delta).wf(),
            ({
                let d = solution.nodes();
                let c = or_opt_cost(d, instance, NUM as int, head as int, tail as int, predecessor as int, successor as int);
                let mv = OrOptMove {
                    reversed: or_opt_reversed(d, instance, NUM as int, head as int, tail as int, predecessor as int, successor as int),
                    head,
                    tail,
                    predecessor,
                    successor,
                };
                &&& c < old(best_delta).value ==> final(best_delta).value == c && *final(best_move) == Some(mv)
                &&& c >= old(best_delta).value ==> final(best_delta).value == old(best_delta).value
                &&& *final(best_move) == *old(best_move) || (*final(best_move) == Some(mv) && final(best_delta).value == c)
            }),
    {
        let predecessor_head = solution.predecessor(head);
        let successor_tail = solution.successor(tail);
        let c_ph = solution.customer(predecessor_head);
        let c_st = solution.customer(successor_tail);
        let c_h = solution.customer(head);
        let c_t = solution.customer(tail);
        let c_p = solution.customer(predecessor);
        let c_s = solution.customer(successor);
        let mut delta = instance.distance(c_ph, c_st) - instance.distance(c_ph, c_h) - instance.distance(c_t, c_st)
            - instance.distance(c_p, c_s);
        let mut reversed = false;
        let insertion_delta = instance.distance(c_p, c_h) + instance.distance(c_s, c_t);
        let mut best_insertion_delta = insertion_delta;
        if NUM > 1 {
            let reversed_delta = instance.distance(c_p, c_t) + instance.distance(c_s, c_h);
            if reversed_delta < insertion_delta {
                best_insertion_delta = reversed_delta;
                reversed = true;
            }
        }
        delta = delta + best_insertion_delta;
        if best_delta.update(delta, random) {
            *best_move = Some(OrOptMove { reversed, head, tail, predecessor, successor });
        }
    }

    /// Applies an or-opt move and sets the route's head.
    fn do_or_opt(mv: &OrOptMove, route_index: Node, solution: &mut AlkaidSolution, context: &mut RouteContext)
        requires
            old(solution).wf(),
            old(solution).is_slot(mv.head as int),
            old(solution).is_slot(mv.tail as int),
            old(solution).is_slot(mv.predecessor as int),
            old(solution).is_slot(mv.successor as int),
            old(context).fits(old(solution)),
            0 <= route_index < old(context).routes().len(),
        ensures
            final(solution).wf(),
            final(solution).nodes() == or_opt_applied(
                old(solution).nodes(),
                *mv,
                old(context).routes()[route_index as int].head,
            ),
            final(solution).used() == old(solution).used(),
            final(solution).unused() == old(solution).unused(),
            final(solution).nodes().len() == old(solution).nodes().len(),
            forall|n: int|
                0 <= n < old(solution).nodes().len() ==> (#[trigger] final(solution).nodes()[n]).customer
                    == old(solution).nodes()[n].customer && final(solution).nodes()[n].load == old(solution).nodes()[n].load,
            final(context).fits(final(solution)),
            final(context).pre_loads() == old(context).pre_loads(),
            final(context).routes() == old(context).routes().update(
                route_index as int,
                crate::route_context::RouteData {
                    head: final(solution).nodes()[0].successor,
                    ..old(context).routes()[route_index as int]
                },
            ),
    {
        let predecessor_head = solution.predecessor(mv.head);
        let successor_tail = solution.successor(mv.tail);
        let h0 = context.head(route_index);
        solution.set_successor(0, h0);
        solution.link(predecessor_head, successor_tail);
        if !mv.reversed {
            solution.link(mv.predecessor, mv.head);
            solution.link(mv.tail, mv.successor);
        } else {
            solution.reversed_link(mv.head, mv.tail, mv.predecessor, mv.successor);
        }
        let new_head = solution.successor(0);
        context.set_head(route_index, new_head);
        proof {
            assert forall|r: int| 0 <= r < context.routes().len() implies solution.is_slot((#[trigger] context.routes()[r]).head as int)
                && solution.is_slot(context.routes()[r].tail as int) by {
                if r != route_index {
                    assert(context.routes()[r] == old(context).routes()[r]);
                } else {
                    assert(context.routes()[r].tail == old(context).routes()[r].tail);
                }
            }
        }
    }
}

/// Width of the segment moved by `OrOpt<num>` (a zero width acts as one).
pub open spec fn seg_width(num: nat) -> nat {
    if num == 0 {
        1
    } else {
        num
    }
}

/// Every or-opt move of a segment starting before index `ia` costs at
/// least `v`.
pub open spec fn or_opt_bounded(d: Seq<NodeData>, inst: &Instance, h: int, num: nat, n: nat, v: int, ia: nat) -> bool {
    forall|i: nat, p: int, s: int|
        i < ia && #[trigger] or_opt_candidate(d, h, seg_width(num), n, i, p, s) ==> v <= or_opt_cost(
            d,
            inst,
            num as int,
            walk(d, h, i),
            walk(d, h, (i + seg_width(num) - 1) as nat),
            p,
            s,
        )
}

impl<const NUM: usize> IntraOperator for OrOpt<NUM> {
    fn apply(
        &self,
        instance: &Instance,
        route_index: Node,
        solution: &mut AlkaidSolution,
        context: &mut RouteContext,
        random: &mut Random,
    ) -> (r: bool)
        ensures
            ({
                let d = old(solution).nodes();
                let h = old(context).head_of(route_index as int);
                let n = route_length(d, h);
                let w = seg_width(NUM as nat);
                &&& r ==> exists|mv: OrOptMove|
                    #![trigger or_opt_applied(d, mv, h as Node)]
                    old(solution).is_slot(mv.head as int) && old(solution).is_slot(mv.tail as int)
                        && old(solution).is_slot(mv.predecessor as int) && old(solution).is_slot(mv.successor as int)
                        && final(solution).nodes() == or_opt_applied(d, mv, h as Node)
                        && mv.reversed == or_opt_reversed(d, instance, NUM as int, mv.head as int, mv.tail as int, mv.predecessor as int, mv.successor as int)
                        && or_opt_cost(d, instance, NUM as int, mv.head as int, mv.tail as int, mv.predecessor as int, mv.successor as int) < 0
                        && (is_route(d, h) ==> or_opt_bounded(
                            d,
                            instance,
                            h,
                            NUM as nat,
                            n,
                            or_opt_cost(d, instance, NUM as int, mv.head as int, mv.tail as int, mv.predecessor as int, mv.successor as int),
                            n,
                        ))
                &&& is_route(d, h) && (exists|i: nat, p: int, s: int|
                    #[trigger] or_opt_candidate(d, h, w, n, i, p, s) && or_opt_cost(
                        d,
                        instance,
                        NUM as int,
                        walk(d, h, i),
                        walk(d, h, (i + w - 1) as nat),
                        p,
                        s,
                    ) < 0) ==> r
            }),
    {
        let ghost d = solution.nodes();
        let ghost h = context.head_of(route_index as int);
        let ghost n = route_length(d, h);
        let ghost good = is_route(d, h);
        let ghost w = seg_width(NUM as nat);
        let mut best_move: Option<OrOptMove> = None;
        let mut best_delta: Delta<i32> = Delta::default();
        let mut head = context.head(route_index);
        let mut tail = head;
        let len = solution.node_data_len();
        let mut t: usize = 1;
        while t < NUM
            invariant
                solution.wf(),
                d == solution.nodes(),
                h == head,
                solution.is_slot(tail as int),
                1 <= t,
                t <= NUM || NUM == 0,
                NUM == 0 ==> t == 1,
                tail == walk(d, h, (t - 1) as nat),
                forall|k: nat| k < t - 1 ==> walk(d, h, k) != 0,
                w == seg_width(NUM as nat),
                good ==> n < d.len() && crate::solution::route_len_is(d, h, n),
                instance.wf(),
                solution.valid_for(instance),
                context.fits(solution),
                *solution == *old(solution),
                *context == *old(context),
                h == context.head_of(route_index as int),
                0 <= route_index < context.routes().len(),
                good == is_route(d, h),
                n == route_length(d, h),
            decreases NUM - t,
        {
            if tail == 0 {
                proof {
                    if good {
                        assert(n <= t - 1) by {
                            if n > t - 1 {
                                assert(walk(d, h, (t - 1) as nat) != 0);
                            }
                        }
                        assert(w == NUM);
                        assert forall|i: nat, p: int, s: int| #[trigger] or_opt_candidate(d, h, w, n, i, p, s) implies false by {
                        }
                        assert(!(exists|i: nat, p: int, s: int|
                            #[trigger] or_opt_candidate(d, h, w, n, i, p, s) && or_opt_cost(d, instance, NUM as int, walk(d, h, i), walk(d, h, (i + w - 1) as nat), p, s) < 0));
                    }
                }
                return false;
            }
            tail = solution.successor(tail);
            t = t + 1;
        }
        assert(t == NUM || NUM == 0);
        if NUM == 0 {
            assert(t == 1);
            assert(w == 1);
        } else {
            assert(w == NUM);
        }
        assert(tail == walk(d, h, (w - 1) as nat));
        let mut ia: usize = 0;
        while tail != 0 && ia < len
            invariant
                instance.wf(),
                solution.valid_for(instance),
                d == solution.nodes(),
                len == d.len(),
                w == seg_width(NUM as nat),
                solution.is_slot(head as int),
                solution.is_slot(tail as int),
                head == walk(d, h, ia as nat),
                tail == walk(d, h, (ia + w - 1) as nat),
                ia <= len,
                forall|k: nat| k < ia + w - 1 ==> walk(d, h, k) != 0,
                best_delta.wf(),
                best_delta.value <= 0,
                best_move.is_none() ==> best_delta.value == 0,
                best_move matches Some(mv) ==> solution.is_slot(mv.head as int) && solution.is_slot(mv.tail as int)
                    && solution.is_slot(mv.predecessor as int) && solution.is_slot(mv.successor as int)
                    && mv.reversed == or_opt_reversed(d, instance, NUM as int, mv.head as int, mv.tail as int, mv.predecessor as int, mv.successor as int)
                    && or_opt_cost(d, instance, NUM as int, mv.head as int, mv.tail as int, mv.predecessor as int, mv.successor as int) == best_delta.value,
                good ==> n < len && crate::solution::route_len_is(d, h, n),
                good ==> or_opt_bounded(d, instance, h, NUM as nat, n, best_delta.value as int, ia as nat),
                context.fits(solution),
                0 <= route_index < context.routes().len(),
                *solution == *old(solution),
                *context == *old(context),
                h == context.head_of(route_index as int),
            decreases len - ia,
        {
            // positions after the segment
            let mut predecessor = solution.successor(tail);
            let mut fwd: usize = 0;
            let ghost mut jb: nat = (ia + w) as nat;
            assert(predecessor == walk(d, h, jb as nat));
            while predecessor != 0 && fwd < len
                invariant
                    instance.wf(),
                    solution.valid_for(instance),
                    d == solution.nodes(),
                    len == d.len(),
                    w == seg_width(NUM as nat),
                    solution.is_slot(head as int),
                    solution.is_slot(tail as int),
                    solution.is_slot(predecessor as int),
                    head == walk(d, h, ia as nat),
                    tail == walk(d, h, (ia + w - 1) as nat),
                    predecessor == walk(d, h, jb as nat),
                    ia < len,
                    jb == ia + w + fwd,
                    fwd <= len,
                    best_delta.wf(),
                    best_delta.value <= 0,
                    best_move.is_none() ==> best_delta.value == 0,
                    best_move matches Some(mv) ==> solution.is_slot(mv.head as int) && solution.is_slot(mv.tail as int)
                        && solution.is_slot(mv.predecessor as int) && solution.is_slot(mv.successor as int)
                        && mv.reversed == or_opt_reversed(d, instance, NUM as int, mv.head as int, mv.tail as int, mv.predecessor as int, mv.successor as int)
                        && or_opt_cost(d, instance, NUM as int, mv.head as int, mv.tail as int, mv.predecessor as int, mv.successor as int) == best_delta.value,
                    forall|k: nat| ia + w <= k < jb ==> walk(d, h, k) != 0,
                    good ==> n < len && crate::solution::route_len_is(d, h, n),
                    good ==> jb <= n || n < ia + w,
                    good ==> or_opt_bounded(d, instance, h, NUM as nat, n, best_delta.value as int, ia as nat),
                    good ==> forall|j: nat|
                        ia + w <= j < jb && j < n ==> best_delta.value <= or_opt_cost(d, instance, NUM as int, head as int, tail as int,
                            #[trigger] walk(d, h, j), succ_of(d, walk(d, h, j))),
                decreases len - fwd,
            {
                let successor = solution.successor(predecessor);
                let ghost old_value = best_delta.value;
                Self::evaluate_inner(instance, solution, head, tail, predecessor, successor, &mut best_move, &mut best_delta, random);
                proof {
                    if good {
                        if jb == n {
                            assert(walk(d, h, n) == 0);
                        }
                    }
                }
                predecessor = successor;
                fwd = fwd + 1;
                proof {
                    jb = jb + 1;
                }
            }
            // positions before the segment
            let mut successor = solution.predecessor(head);
            let ghost bstart = pred_of(d, head as int);
            let mut kb: usize = 0;
            while successor != 0 && kb < len
                invariant
                    instance.wf(),
                    solution.valid_for(instance),
                    d == solution.nodes(),
                    len == d.len(),
                    w == seg_width(NUM as nat),
                    solution.is_slot(head as int),
                    solution.is_slot(tail as int),
                    solution.is_slot(successor as int),
                    head == walk(d, h, ia as nat),
                    tail == walk(d, h, (ia + w - 1) as nat),
                    bstart == pred_of(d, head as int),
                    successor == back_walk(d, bstart, kb as nat),
                    ia < len,
                    kb <= len,
                    forall|m: nat| m < kb ==> back_walk(d, bstart, m) != 0,
                    best_delta.wf(),
                    best_delta.value <= 0,
                    best_move.is_none() ==> best_delta.value == 0,
                    best_move matches Some(mv) ==> solution.is_slot(mv.head as int) && solution.is_slot(mv.tail as int)
                        && solution.is_slot(mv.predecessor as int) && solution.is_slot(mv.successor as int)
                        && mv.reversed == or_opt_reversed(d, instance, NUM as int, mv.head as int, mv.tail as int, mv.predecessor as int, mv.successor as int)
                        && or_opt_cost(d, instance, NUM as int, mv.head as int, mv.tail as int, mv.predecessor as int, mv.successor as int) == best_delta.value,
                    good ==> n < len && crate::solution::route_len_is(d, h, n),
                    good ==> or_opt_bounded(d, instance, h, NUM as nat, n, best_delta.value as int, ia as nat),
                    good ==> forall|j: nat|
                        ia + w <= j < n ==> best_delta.value <= or_opt_cost(d, instance, NUM as int, head as int, tail as int,
                            #[trigger] walk(d, h, j), succ_of(d, walk(d, h, j))),
                    good ==> forall|m: nat|
                        m < kb ==> best_delta.value <= or_opt_cost(d, instance, NUM as int, head as int, tail as int,
                            pred_of(d, back_walk(d, bstart, m)), #[trigger] back_walk(d, bstart, m)),
                decreases len - kb,
            {
                let predecessor = solution.predecessor(successor);
                Self::evaluate_inner(instance, solution, head, tail, predecessor, successor, &mut best_move, &mut best_delta, random);
                successor = predecessor;
                kb = kb + 1;
            }
            proof {
                if good {
                    assert forall|i: nat, p: int, s: int|
                        i < ia + 1 && #[trigger] or_opt_candidate(d, h, w, n, i, p, s) implies best_delta.value <= or_opt_cost(
                            d, instance, NUM as int, walk(d, h, i), walk(d, h, (i + w - 1) as nat), p, s) by {
                        if i == ia {
                            if exists|j: nat| i + w <= j < n && #[trigger] walk(d, h, j) == p && s == succ_of(d, p) {
                                let j = choose|j: nat| i + w <= j < n && #[trigger] walk(d, h, j) == p && s == succ_of(d, p);
                                assert(best_delta.value <= or_opt_cost(d, instance, NUM as int, head as int, tail as int, walk(d, h, j), succ_of(d, walk(d, h, j))));
                            } else {
                                let k = choose|k: nat|
                                    #![trigger back_walk(d, pred_of(d, walk(d, h, i)), k)]
                                    k < d.len() && back_walk(d, pred_of(d, walk(d, h, i)), k) == s && s != 0 && p == pred_of(d, s)
                                        && forall|m: nat| m < k ==> back_walk(d, pred_of(d, walk(d, h, i)), m) != 0;
                                assert(k < kb) by {
                                    if k >= kb {
                                        if successor == 0 {
                                            assert(back_walk(d, bstart, kb as nat) == 0);
                                            if kb < k {
                                                assert(back_walk(d, bstart, kb as nat) != 0);
                                            }
                                        }
                                    }
                                }
                                assert(best_delta.value <= or_opt_cost(d, instance, NUM as int, head as int, tail as int,
                                    pred_of(d, back_walk(d, bstart, k)), back_walk(d, bstart, k)));
                            }
                        }
                    }
                }
            }
            head = solution.successor(head);
            tail = solution.successor(tail);
            ia = ia + 1;
        }
        proof {
            if good {
                assert forall|i: nat, p: int, s: int| #[trigger] or_opt_candidate(d, h, w, n, i, p, s) implies i < ia by {
                    if i >= ia {
                        if tail == 0 {
                            assert(walk(d, h, (ia + w - 1) as nat) == 0);
                            assert(ia + w - 1 < i + w <= n);
                        } else {
                            assert(ia == len);
                        }
                    }
                }
            }
        }
        if best_delta.value < 0 {
            if let Some(mv) = best_move {
                Self::do_or_opt(&mv, route_index, solution, context);
                let ghost ctx1 = *context;
                context.update_route_context(solution, route_index, 0);
                proof {
                    assert forall|r: int| 0 <= r < context.routes().len() implies solution.is_slot((#[trigger] context.routes()[r]).head as int)
                        && solution.is_slot(context.routes()[r].tail as int) by {
                        if r != route_index {
                            assert(context.routes()[r] == ctx1.routes()[r]);
                        }
                    }
                    assert(or_opt_applied(d, mv, h as Node) == solution.nodes());
                }
                return true;
            }
        }
        proof {
            if good {
                if exists|i: nat, p: int, s: int|
                    #[trigger] or_opt_candidate(d, h, w, n, i, p, s) && or_opt_cost(d, instance, NUM as int, walk(d, h, i), walk(d, h, (i + w - 1) as nat), p, s) < 0 {
                    let (i, p, s) = choose|i: nat, p: int, s: int|
                        #[trigger] or_opt_candidate(d, h, w, n, i, p, s) && or_opt_cost(d, instance, NUM as int, walk(d, h, i), walk(d, h, (i + w - 1) as nat), p, s) < 0;
                    assert(best_delta.value <= or_opt_cost(d, instance, NUM as int, walk(d, h, i), walk(d, h, (i + w - 1) as nat), p, s));
                }
            }
        }
        false
    }
}

} // verus!
