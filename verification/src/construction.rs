//! Construction of an initial solution: each customer's demand is cut into
//! pieces of at most one vehicle load, a lower bound of routes is opened
//! with random pieces, and the remaining pieces are inserted sequentially
//! (route by route) or in parallel (globally cheapest first).
use vstd::prelude::*;
use vstd::multiset::Multiset;
use crate::delta::Delta;
use crate::instance::{Instance, Node};
use crate::random::{Random, next_int_spec};
use crate::route_context::RouteContext;
use crate::solution::{AlkaidSolution, cust_of, walk, is_route, route_length, lemma_served_after_insert, lemma_insert_valid};
use crate::utils::{calc_best_insertion, calc_fleet_lower_bound, insertion_position, total_demand};

verus! {

/// Insertion criterion. Costs are integers scaled by 10 for the
/// cost-minus-distance criterion, so that `gamma = weight / 20` is exact.
#[derive(Debug, Clone, Copy)]
pub enum Criterion {
    /// Insertion cost minus `2 * gamma` times the customer's distance from
    /// the depot, with `gamma = weight / 20`; in tenths.
    Mcfic { weight: i64 },
    /// Distance from the predecessor; inserting first in a route costs the
    /// largest value.
    Nfic,
}

/// Largest weight of the cost-minus-distance criterion.
pub open spec fn criterion_ok(c: Criterion) -> bool {
    match c {
        Criterion::Mcfic { weight } => 0 <= weight <= 34,
        Criterion::Nfic => true,
    }
}

/// Cost of inserting `customer` between slots `p` and `s` under `c`.
pub open spec fn criterion_cost(inst: &Instance, sol: &AlkaidSolution, p: int, s: int, customer: int, c: Criterion) -> int {
    let d = sol.nodes();
    let pc = cust_of(d, p);
    let sc = cust_of(d, s);
    match c {
        Criterion::Mcfic { weight } => 10 * (inst.dist(pc, customer) + inst.dist(customer, sc) - inst.dist(pc, sc))
            - weight * inst.dist(0, customer),
        Criterion::Nfic => if pc == 0 {
            i64::MAX as int
        } else {
            inst.dist(pc, customer)
        },
    }
}

/// Cost of inserting `customer` between `predecessor` and `successor`.
fn calc_insertion_cost(
    instance: &Instance,
    solution: &AlkaidSolution,
    predecessor: Node,
    successor: Node,
    customer: Node,
    criterion: Criterion,
) -> (r: i64)
    requires
        instance.wf(),
        solution.valid_for(instance),
        instance.is_node(customer as int),
        solution.is_slot(predecessor as int),
        solution.is_slot(successor as int),
        criterion_ok(criterion),
    ensures
        r as int == criterion_cost(instance, solution, predecessor as int, successor as int, customer as int, criterion),
{
    let pre_customer = solution.customer(predecessor);
    let suc_customer = solution.customer(successor);
    match criterion {
        Criterion::Mcfic { weight } => {
            let delta = instance.distance(pre_customer, customer) as i64 + instance.distance(customer, suc_customer) as i64
                - instance.distance(pre_customer, suc_customer) as i64;
            let d0 = instance.distance(0, customer) as i64;
            assert(-34 * 16777216 <= weight * d0 <= 34 * 16777216) by (nonlinear_arith)
                requires
                    0 <= weight <= 34,
                    -16777216 <= d0 <= 16777216,
            ;
            10 * delta - weight * d0
        },
        Criterion::Nfic => {
            if pre_customer == 0 {
                i64::MAX
            } else {
                instance.distance(pre_customer, customer) as i64
            }
        },
    }
}

/// Cheapest position of `customer` in route `route_index` under
/// `criterion` (ties broken at random), with its cost.
fn find_best_insertion(
    instance: &Instance,
    solution: &AlkaidSolution,
    context: &RouteContext,
    route_index: Node,
    customer: Node,
    criterion: Criterion,
    random: &mut Random,
) -> (r: (Node, Node, Delta<i64>))
    requires
        instance.wf(),
        solution.valid_for(instance),
        context.fits(solution),
        0 <= route_index < context.routes().len(),
        instance.is_node(customer as int),
        criterion_ok(criterion),
    ensures
        solution.is_slot(r.0 as int),
        solution.is_slot(r.1 as int),
        r.2.counter >= 1,
        insertion_position(solution, context.head_of(route_index as int), r.0 as int, r.1 as int),
        r.2.value as int == criterion_cost(instance, solution, r.0 as int, r.1 as int, customer as int, criterion),
        ({
            let d = solution.nodes();
            let h = context.head_of(route_index as int);
            is_route(d, h) ==> {
                &&& r.2.value <= criterion_cost(instance, solution, 0, h, customer as int, criterion)
                &&& forall|k: nat|
                    k < route_length(d, h) ==> r.2.value <= criterion_cost(
                        instance,
                        solution,
                        #[trigger] walk(d, h, k),
                        d[walk(d, h, k)].successor as int,
                        customer as int,
                        criterion,
                    )
            }
        }),
{
    let func = |predecessor: Node, successor: Node, c: Node| -> (v: i64)
        requires
            instance.wf(),
            solution.valid_for(instance),
            instance.is_node(c as int),
            solution.is_slot(predecessor as int),
            solution.is_slot(successor as int),
            criterion_ok(criterion),
        ensures
            v as int == criterion_cost(instance, solution, predecessor as int, successor as int, c as int, criterion),
        { calc_insertion_cost(instance, solution, predecessor, successor, c, criterion) };
    assert forall|p: Node, s: Node|
        solution.is_slot(p as int) && solution.is_slot(s as int) implies call_requires(func, (p, s, customer)) by {}
    let best = calc_best_insertion(solution, func, context, route_index, customer, random);
    proof {
        let d = solution.nodes();
        let h = context.head_of(route_index as int);
        if is_route(d, h) {
            let v = choose|v: i64| #[trigger] call_ensures(func, (0 as Node, h as Node, customer), v) && best.cost.value as int <= v as int;
            assert forall|k: nat| k < route_length(d, h) implies best.cost.value <= criterion_cost(
                instance,
                solution,
                #[trigger] walk(d, h, k),
                d[walk(d, h, k)].successor as int,
                customer as int,
                criterion,
            ) by {
                let w = choose|w: i64|
                    #[trigger] call_ensures(func, (walk(d, h, k) as Node, d[walk(d, h, k)].successor, customer), w)
                        && best.cost.value as int <= w as int;
                crate::route_context::lemma_walk_in_range(d, h, k);
            }
        }
    }
    (best.predecessor, best.successor, best.cost)
}


/// Removing position `i` by moving the last element there removes one
/// occurrence of `s[i]` from the multiset.
pub proof fn lemma_swap_remove_multiset<T>(s: Seq<T>, i: int)
    requires
        0 <= i < s.len(),
    ensures
        s.update(i, s.last()).drop_last().to_multiset() == s.to_multiset().remove(s[i]),
{
    broadcast use {vstd::seq_lib::group_to_multiset_ensures, vstd::multiset::group_multiset_axioms};
    let n = s.len() - 1;
    let t = s.update(i, s.last()).drop_last();
    crate::random::lemma_swap_multiset(s, i, n);
    assert(s.update(i, s[n]).update(n, s[i]) =~= t.push(s[i]));
    assert(t.push(s[i]).to_multiset() == t.to_multiset().insert(s[i]));
    assert(t.to_multiset() =~= t.to_multiset().insert(s[i]).remove(s[i]));
}

/// A pending piece of demand: a customer and a load.
pub type Candidate = (Node, i32);

/// State of a construction: a valid solution and its route bookkeeping,
/// routes within capacity, pieces of at most one vehicle load for
/// customers of the instance, room for every pending piece, and the
/// served pieces together with the pending ones make up `target`.
pub open spec fn build_ok(
    inst: &Instance,
    cands: Seq<Candidate>,
    sol: &AlkaidSolution,
    ctx: &RouteContext,
    target: Multiset<Candidate>,
) -> bool {
    &&& inst.wf()
    &&& sol.valid_for(inst)
    &&& ctx.fits(sol)
    &&& forall|r: int| 0 <= r < ctx.routes().len() ==> 0 <= (#[trigger] ctx.routes()[r]).load <= inst.capacity
    &&& forall|k: int|
        0 <= k < cands.len() ==> inst.is_node((#[trigger] cands[k]).0 as int) && 0 < cands[k].1 <= inst.capacity
    &&& sol.room() >= cands.len()
    &&& ctx.routes().len() + cands.len() < i16::MAX
    &&& sol.served().to_multiset().add(cands.to_multiset()) == target
}

/// Opens a route with a random pending piece, removed from the list by
/// moving the last piece to its position; returns that position.
fn add_route(
    candidate_list: &mut Vec<Candidate>,
    random: &mut Random,
    solution: &mut AlkaidSolution,
    context: &mut RouteContext,
    Ghost(inst): Ghost<&Instance>,
    Ghost(target): Ghost<Multiset<Candidate>>,
) -> (position: usize)
    requires
        old(candidate_list).len() > 0,
        build_ok(inst, old(candidate_list)@, old(solution), old(context), target),
    ensures
        build_ok(inst, final(candidate_list)@, final(solution), final(context), target),
        position as int == next_int_spec(old(random).spec_state(), 0, old(candidate_list).len() - 1).0,
        final(random).spec_state() == next_int_spec(old(random).spec_state(), 0, old(candidate_list).len() - 1).1,
        position < old(candidate_list).len(),
        final(candidate_list)@ == old(candidate_list)@.update(position as int, old(candidate_list)@.last()).drop_last(),
        final(context).routes().len() == old(context).routes().len() + 1,
        forall|r: int|
            0 <= r < old(context).routes().len() ==> #[trigger] final(context).routes()[r] == old(context).routes()[r],
        final(context).routes().last().load == old(candidate_list)@[position as int].1,
        final(solution).nodes().len() >= old(solution).nodes().len(),
{
    let position = random.next_int(0, candidate_list.len() as i32 - 1) as usize;
    let ghost c0 = candidate_list@;
    let ghost sol0 = *solution;
    let (customer, demand) = candidate_list[position];
    let node_index = solution.insert(customer, demand, 0, 0);
    proof {
        lemma_served_after_insert(sol0, *solution, customer, demand, 0, 0);
        lemma_swap_remove_multiset(c0, position as int);
        vstd::seq_lib::to_multiset_contains(c0, c0[position as int]);
        assert(c0.contains(c0[position as int]));
    }
    candidate_list.swap_remove(position);
    context.add_route(node_index, node_index, demand);
    proof {
        broadcast use {vstd::seq_lib::group_to_multiset_ensures, vstd::multiset::group_multiset_axioms};
        let cands = candidate_list@;
        assert(cands == c0.update(position as int, c0.last()).drop_last());
        assert(solution.served().to_multiset() == sol0.served().to_multiset().insert((customer, demand)));
        assert(solution.served().to_multiset().add(cands.to_multiset()) =~= sol0.served().to_multiset().add(
            c0.to_multiset(),
        ));
        assert forall|k: int| 0 <= k < cands.len() implies inst.is_node((#[trigger] cands[k]).0 as int) && 0
            < cands[k].1 <= inst.capacity by {
            if k == position {
                assert(cands[k] == c0[c0.len() - 1]);
            } else {
                assert(cands[k] == c0[k]);
            }
        }
    }
    position
}


/// Best insertion found so far, with the position of its piece in the
/// pending list.
#[derive(Debug, Clone, Copy)]
pub struct InsertionInfo {
    /// Slot after which to insert.
    pub predecessor: Node,
    /// Slot before which to insert.
    pub successor: Node,
    /// Route of the insertion.
    pub route_index: Node,
    /// Cost of the insertion.
    pub cost: Delta<i64>,
    /// Position of the piece in the pending list.
    pub candidate_position: Option<usize>,
}

impl Default for InsertionInfo {
    fn default() -> (r: Self)
        ensures
            r.predecessor == 0,
            r.successor == 0,
            r.route_index == 0,
            r.cost.value == i64::MAX,
            r.cost.counter == -1,
            r.candidate_position is None,
    {
        InsertionInfo { predecessor: 0, successor: 0, route_index: 0, cost: Delta::new(i64::MAX, -1), candidate_position: None }
    }
}

/// `info` is an insertion of pending piece `info.candidate_position` into a
/// route with room for it.
spec fn info_ok(info: InsertionInfo, inst: &Instance, cands: Seq<Candidate>, sol: &AlkaidSolution, ctx: &RouteContext) -> bool {
    info.candidate_position matches Some(pos) ==> {
        &&& pos < cands.len()
        &&& 0 <= info.route_index < ctx.routes().len()
        &&& ctx.routes()[info.route_index as int].load + cands[pos as int].1 <= inst.capacity
        &&& sol.is_slot(info.predecessor as int)
        &&& sol.is_slot(info.successor as int)
    }
}

/// Inserts pending piece `pos` at `info`'s position and removes it from
/// the pending list.
fn apply_insertion(
    instance: &Instance,
    info: &InsertionInfo,
    pos: usize,
    candidate_list: &mut Vec<Candidate>,
    solution: &mut AlkaidSolution,
    context: &mut RouteContext,
    Ghost(target): Ghost<Multiset<Candidate>>,
)
    requires
        build_ok(instance, old(candidate_list)@, old(solution), old(context), target),
        info.candidate_position == Some(pos),
        info_ok(*info, instance, old(candidate_list)@, old(solution), old(context)),
    ensures
        build_ok(instance, final(candidate_list)@, final(solution), final(context), target),
        final(candidate_list)@ == old(candidate_list)@.update(pos as int, old(candidate_list)@.last()).drop_last(),
        final(context).routes().len() == old(context).routes().len(),
        final(solution).nodes().len() >= old(solution).nodes().len(),
{
    let ghost c0 = candidate_list@;
    let ghost sol0 = *solution;
    let (customer, demand) = candidate_list[pos];
    candidate_list.swap_remove(pos);
    let node_index = solution.insert(customer, demand, info.predecessor, info.successor);
    proof {
        lemma_insert_valid(sol0, *solution, instance, customer, demand, info.predecessor, info.successor);
    }
    let route_index = info.route_index;
    if info.predecessor == 0 {
        context.set_head(route_index, node_index);
    }
    context.add_load(route_index, demand);
    proof {
        broadcast use {vstd::seq_lib::group_to_multiset_ensures, vstd::multiset::group_multiset_axioms};
        lemma_swap_remove_multiset(c0, pos as int);
        vstd::seq_lib::to_multiset_contains(c0, c0[pos as int]);
        assert(c0.contains(c0[pos as int]));
        let cands = candidate_list@;
        assert(solution.served().to_multiset() == sol0.served().to_multiset().insert((customer, demand)));
        assert(solution.served().to_multiset().add(cands.to_multiset()) =~= sol0.served().to_multiset().add(
            c0.to_multiset(),
        ));
        assert forall|k: int| 0 <= k < cands.len() implies instance.is_node((#[trigger] cands[k]).0 as int) && 0
            < cands[k].1 <= instance.capacity by {
            if k == pos {
                assert(cands[k] == c0[c0.len() - 1]);
            } else {
                assert(cands[k] == c0[k]);
            }
        }
        assert forall|r: int| 0 <= r < context.routes().len() implies 0 <= (#[trigger] context.routes()[r]).load
            <= instance.capacity by {
            if r != route_index {
                assert(context.routes()[r] == old(context).routes()[r]);
            }
        }
    }
}

/// Sequential insertion: route after route, the cheapest pending piece
/// that fits is inserted; a route where none fits is full. When a whole
/// round inserts nothing, a route is opened with a random piece.
fn sequential_insertion(
    instance: &Instance,
    criterion: Criterion,
    candidate_list: &mut Vec<Candidate>,
    random: &mut Random,
    solution: &mut AlkaidSolution,
    context: &mut RouteContext,
    Ghost(target): Ghost<Multiset<Candidate>>,
)
    requires
        criterion_ok(criterion),
        build_ok(instance, old(candidate_list)@, old(solution), old(context), target),
    ensures
        build_ok(instance, final(candidate_list)@, final(solution), final(context), target),
        final(candidate_list)@.len() == 0,
{
    let mut is_full: Vec<bool> = vec![false; context.num_routes() as usize];
    while candidate_list.len() > 0
        invariant
            criterion_ok(criterion),
            build_ok(instance, candidate_list@, solution, context, target),
            is_full.len() == context.routes().len(),
        decreases candidate_list.len(),
    {
        let mut inserted = false;
        let n = context.num_routes();
        let ghost len0 = candidate_list.len();
        let mut route_index: Node = 0;
        while route_index < n
            invariant
                criterion_ok(criterion),
                build_ok(instance, candidate_list@, solution, context, target),
                is_full.len() == context.routes().len(),
                n == context.routes().len(),
                0 <= route_index <= n,
                candidate_list.len() <= len0,
                inserted ==> candidate_list.len() < len0,
                !inserted ==> candidate_list.len() == len0,
            decreases n - route_index,
        {
            if !is_full[route_index as usize] {
                let mut best = InsertionInfo::default();
                let mut i: usize = 0;
                while i < candidate_list.len()
                    invariant
                        criterion_ok(criterion),
                        build_ok(instance, candidate_list@, solution, context, target),
                        n == context.routes().len(),
                        0 <= route_index < n,
                        0 <= i <= candidate_list.len(),
                        best.cost.wf(),
                        info_ok(best, instance, candidate_list@, solution, context),
                    decreases candidate_list.len() - i,
                {
                    let (customer, demand) = candidate_list[i];
                    if context.load(route_index) as i64 + demand as i64 <= instance.capacity as i64 {
                        let (pred, succ, delta) = find_best_insertion(
                            instance,
                            solution,
                            context,
                            route_index,
                            customer,
                            criterion,
                            random,
                        );
                        if best.cost.update_from(&delta, random) {
                            best.predecessor = pred;
                            best.successor = succ;
                            best.route_index = route_index;
                            best.candidate_position = Some(i);
                        }
                    }
                    i = i + 1;
                }
                match best.candidate_position {
                    Some(pos) => {
                        apply_insertion(instance, &best, pos, candidate_list, solution, context, Ghost(target));
                        inserted = true;
                    },
                    None => {
                        is_full.set(route_index as usize, true);
                    },
                }
            }
            route_index = route_index + 1;
        }
        if !inserted {
            add_route(candidate_list, random, solution, context, Ghost(instance), Ghost(target));
            is_full.push(false);
        }
    }
}


/// An insertion kept for later: a route of `ctx`, slots of `sol`, a cost
/// seen at least once.
spec fn entry_ok(e: InsertionInfo, sol: &AlkaidSolution, ctx: &RouteContext) -> bool {
    &&& 0 <= e.route_index < ctx.routes().len()
    &&& sol.is_slot(e.predecessor as int)
    &&& sol.is_slot(e.successor as int)
    &&& e.cost.counter >= 1
}

/// Every kept insertion is fine.
spec fn rows_ok(rows: Seq<Vec<InsertionInfo>>, sol: &AlkaidSolution, ctx: &RouteContext) -> bool {
    forall|i: int, j: int| 0 <= i < rows.len() && 0 <= j < rows[i]@.len() ==> entry_ok(#[trigger] rows[i]@[j], sol, ctx)
}

/// Kept insertions stay fine when the solution and the route list grow.
proof fn lemma_rows_grow(
    rows: Seq<Vec<InsertionInfo>>,
    sol: &AlkaidSolution,
    ctx: &RouteContext,
    sol2: &AlkaidSolution,
    ctx2: &RouteContext,
)
    requires
        rows_ok(rows, sol, ctx),
        sol2.nodes().len() >= sol.nodes().len(),
        ctx2.routes().len() >= ctx.routes().len(),
    ensures
        rows_ok(rows, sol2, ctx2),
{
    assert forall|i: int, j: int| 0 <= i < rows.len() && 0 <= j < rows[i]@.len() implies entry_ok(
        #[trigger] rows[i]@[j],
        sol2,
        ctx2,
    ) by {
        assert(entry_ok(rows[i]@[j], sol, ctx));
    }
}

/// Records `pos` as the pending position of every insertion of `row`.
fn set_positions(row: &mut Vec<InsertionInfo>, pos: usize)
    ensures
        final(row)@.len() == old(row)@.len(),
        forall|j: int|
            0 <= j < old(row)@.len() ==> #[trigger] final(row)@[j] == (InsertionInfo {
                candidate_position: Some(pos),
                ..old(row)@[j]
            }),
{
    let mut j: usize = 0;
    while j < row.len()
        invariant
            0 <= j <= row@.len(),
            row@.len() == old(row)@.len(),
            forall|k: int|
                0 <= k < j ==> #[trigger] row@[k] == (InsertionInfo { candidate_position: Some(pos), ..old(row)@[k] }),
            forall|k: int| j <= k < row@.len() ==> #[trigger] row@[k] == old(row)@[k],
        decreases row@.len() - j,
    {
        let e = row[j];
        row.set(j, InsertionInfo { candidate_position: Some(pos), ..e });
        j = j + 1;
    }
}

/// Removes the insertions of pending piece `pos` by moving the last row
/// there (and recording its new position).
fn remove_row(best_insertions: &mut Vec<Vec<InsertionInfo>>, pos: usize, Ghost(sol): Ghost<&AlkaidSolution>, Ghost(ctx): Ghost<&RouteContext>)
    requires
        pos < old(best_insertions)@.len(),
        rows_ok(old(best_insertions)@, sol, ctx),
    ensures
        final(best_insertions)@.len() == old(best_insertions)@.len() - 1,
        rows_ok(final(best_insertions)@, sol, ctx),
{
    best_insertions.swap_remove(pos);
    if pos < best_insertions.len() {
        let ghost b0 = best_insertions@;
        let mut row = best_insertions.remove(pos);
        set_positions(&mut row, pos);
        best_insertions.insert(pos, row);
        proof {
            assert forall|i: int, j: int| 0 <= i < best_insertions@.len() && 0 <= j < best_insertions@[i]@.len() implies entry_ok(
                #[trigger] best_insertions@[i]@[j],
                sol,
                ctx,
            ) by {
                if i == pos {
                    assert(entry_ok(b0[i]@[j], sol, ctx));
                } else {
                    assert(best_insertions@[i] == b0[i]);
                }
            }
        }
    } else {
        proof {
            assert forall|i: int, j: int| 0 <= i < best_insertions@.len() && 0 <= j < best_insertions@[i]@.len() implies entry_ok(
                #[trigger] best_insertions@[i]@[j],
                sol,
                ctx,
            ) by {
                assert(best_insertions@[i] == old(best_insertions)@[i]);
            }
        }
    }
}

/// `e` and `best` insert at the same place of the same route at the same
/// cost.
spec fn same_insertion(e: InsertionInfo, best: InsertionInfo) -> bool {
    &&& e.route_index == best.route_index
    &&& e.predecessor == best.predecessor
    &&& e.successor == best.successor
    &&& e.cost.value == best.cost.value
}

/// A kept insertion after a scan: its route has room for the piece's
/// `demand`, and it costs no less than `best`.
spec fn scanned(e: InsertionInfo, best: InsertionInfo, inst: &Instance, demand: int, ctx: &RouteContext) -> bool {
    &&& ctx.routes()[e.route_index as int].load + demand <= inst.capacity
    &&& best.cost.value <= e.cost.value
}

/// Scans the kept insertions of every pending piece: drops those into
/// routes without room for the piece, refreshes those into changed routes,
/// and returns the cheapest (ties broken at random).
fn scan_insertions(
    instance: &Instance,
    criterion: Criterion,
    candidate_list: &Vec<Candidate>,
    best_insertions: &mut Vec<Vec<InsertionInfo>>,
    updated: &Vec<bool>,
    random: &mut Random,
    solution: &AlkaidSolution,
    context: &RouteContext,
    Ghost(target): Ghost<Multiset<Candidate>>,
) -> (r: InsertionInfo)
    requires
        criterion_ok(criterion),
        build_ok(instance, candidate_list@, solution, context, target),
        old(best_insertions)@.len() == candidate_list@.len(),
        rows_ok(old(best_insertions)@, solution, context),
        updated@.len() == context.routes().len(),
    ensures
        final(best_insertions)@.len() == candidate_list@.len(),
        rows_ok(final(best_insertions)@, solution, context),
        info_ok(r, instance, candidate_list@, solution, context),
        forall|a: int, b: int|
            0 <= a < candidate_list@.len() && 0 <= b < final(best_insertions)@[a]@.len() ==> scanned(
                #[trigger] final(best_insertions)@[a]@[b],
                r,
                instance,
                candidate_list@[a].1 as int,
                context,
            ),
        r.candidate_position matches Some(p) ==> exists|b: int|
            0 <= b < final(best_insertions)@[p as int]@.len() && same_insertion(
                #[trigger] final(best_insertions)@[p as int]@[b],
                r,
            ),
{
    let mut best = InsertionInfo::default();
    let mut i: usize = 0;
    while i < best_insertions.len()
        invariant
            criterion_ok(criterion),
            build_ok(instance, candidate_list@, solution, context, target),
            best_insertions@.len() == candidate_list@.len(),
            rows_ok(best_insertions@, solution, context),
            updated@.len() == context.routes().len(),
            0 <= i <= best_insertions@.len(),
            best.cost.wf(),
            info_ok(best, instance, candidate_list@, solution, context),
            best.candidate_position is None ==> best.cost.value == i64::MAX && best.cost.counter == -1,
            forall|a: int, b: int|
                0 <= a < i && 0 <= b < best_insertions@[a]@.len() ==> scanned(
                    #[trigger] best_insertions@[a]@[b],
                    best,
                    instance,
                    candidate_list@[a].1 as int,
                    context,
                ),
            best.candidate_position matches Some(p) ==> p < i && exists|b: int|
                0 <= b < best_insertions@[p as int]@.len() && same_insertion(
                    #[trigger] best_insertions@[p as int]@[b],
                    best,
                ),
        decreases best_insertions@.len() - i,
    {
        let ghost b0 = best_insertions@;
        let mut row = best_insertions.remove(i);
        proof {
            assert forall|j: int| 0 <= j < row@.len() implies entry_ok(#[trigger] row@[j], solution, context) by {
                assert(entry_ok(b0[i as int]@[j], solution, context));
            }
            if let Some(p) = best.candidate_position {
                let b = choose|b: int| 0 <= b < b0[p as int]@.len() && same_insertion(#[trigger] b0[p as int]@[b], best);
                assert(best_insertions@[p as int] == b0[p as int]);
                assert(same_insertion(best_insertions@[p as int]@[b], best));
            }
            assert forall|a: int, b: int| 0 <= a < i && 0 <= b < best_insertions@[a]@.len() implies scanned(
                #[trigger] best_insertions@[a]@[b],
                best,
                instance,
                candidate_list@[a].1 as int,
                context,
            ) by {
                assert(best_insertions@[a] == b0[a]);
            }
        }
        let (customer, demand) = candidate_list[i];
        let mut j: usize = 0;
        while j < row.len()
            invariant
                criterion_ok(criterion),
                build_ok(instance, candidate_list@, solution, context, target),
                i < candidate_list@.len(),
                (customer, demand) == candidate_list@[i as int],
                updated@.len() == context.routes().len(),
                0 <= j <= row@.len(),
                forall|k: int| 0 <= k < row@.len() ==> entry_ok(#[trigger] row@[k], solution, context),
                best.cost.wf(),
                info_ok(best, instance, candidate_list@, solution, context),
                best.candidate_position is None ==> best.cost.value == i64::MAX && best.cost.counter == -1,
                forall|k: int|
                    0 <= k < j ==> scanned(#[trigger] row@[k], best, instance, demand as int, context),
                forall|a: int, b: int|
                    0 <= a < i && 0 <= b < best_insertions@[a]@.len() ==> scanned(
                        #[trigger] best_insertions@[a]@[b],
                        best,
                        instance,
                        candidate_list@[a].1 as int,
                        context,
                    ),
                best_insertions@.len() == candidate_list@.len() - 1,
                best.candidate_position matches Some(p) ==> p <= i,
                best.candidate_position == Some(i) ==> exists|k: int| 0 <= k < j && same_insertion(#[trigger] row@[k], best),
                best.candidate_position matches Some(p) ==> p < i ==> exists|b: int|
                    0 <= b < best_insertions@[p as int]@.len() && same_insertion(
                        #[trigger] best_insertions@[p as int]@[b],
                        best,
                    ),
            decreases row@.len() - j,
        {
            let e = row[j];
            assert(entry_ok(row@[j as int], solution, context));
            let route_index = e.route_index;
            if context.load(route_index) as i64 + demand as i64 > instance.capacity as i64 {
                let ghost r0 = row@;
                row.swap_remove(j);
                proof {
                    assert forall|k: int| 0 <= k < row@.len() implies entry_ok(#[trigger] row@[k], solution, context) by {
                        if k == j {
                            assert(entry_ok(r0[r0.len() - 1], solution, context));
                        } else {
                            assert(entry_ok(r0[k], solution, context));
                        }
                    }
                    assert forall|k: int| 0 <= k < j implies #[trigger] row@[k] == r0[k] by {}
                    if best.candidate_position == Some(i) {
                        let k = choose|k: int| 0 <= k < j && same_insertion(#[trigger] r0[k], best);
                        assert(same_insertion(row@[k], best));
                    }
                }
            } else {
                let ghost rstart = row@;
                let mut e2 = e;
                if updated[route_index as usize] {
                    let (pred, succ, delta) = find_best_insertion(
                        instance,
                        solution,
                        context,
                        route_index,
                        customer,
                        criterion,
                        random,
                    );
                    e2 = InsertionInfo { predecessor: pred, successor: succ, cost: delta, ..e };
                    let ghost r0 = row@;
                    row.set(j, e2);
                    proof {
                        assert forall|k: int| 0 <= k < row@.len() implies entry_ok(#[trigger] row@[k], solution, context) by {
                            if k != j {
                                assert(entry_ok(r0[k], solution, context));
                            }
                        }
                    }
                }
                let ghost best0 = best;
                if best.cost.update_from(&e2.cost, random) {
                    best = InsertionInfo { candidate_position: Some(i), ..e2 };
                    assert(same_insertion(row@[j as int], best));
                } else {
                    proof {
                        if best.candidate_position == Some(i) {
                            let k = choose|k: int| 0 <= k < j && same_insertion(#[trigger] rstart[k], best0);
                            assert(row@[k] == rstart[k]);
                            assert(same_insertion(row@[k], best));
                        }
                    }
                }
                proof {
                    assert(row@[j as int] == e2);
                    assert(best.cost.value <= e2.cost.value);
                }
                j = j + 1;
            }
        }
        let ghost b1 = best_insertions@;
        best_insertions.insert(i, row);
        proof {
            assert forall|a: int, b: int| 0 <= a < best_insertions@.len() && 0 <= b < best_insertions@[a]@.len() implies entry_ok(
                #[trigger] best_insertions@[a]@[b],
                solution,
                context,
            ) by {
                if a != i {
                    assert(best_insertions@[a] == b0[a]);
                }
            }
            assert forall|a: int, b: int| 0 <= a < i + 1 && 0 <= b < best_insertions@[a]@.len() implies scanned(
                #[trigger] best_insertions@[a]@[b],
                best,
                instance,
                candidate_list@[a].1 as int,
                context,
            ) by {
                if a < i {
                    assert(best_insertions@[a] == b1[a]);
                }
            }
            if let Some(p) = best.candidate_position {
                if p < i {
                    let b = choose|b: int| 0 <= b < b1[p as int]@.len() && same_insertion(#[trigger] b1[p as int]@[b], best);
                    assert(best_insertions@[p as int] == b1[p as int]);
                    assert(same_insertion(best_insertions@[p as int]@[b], best));
                } else {
                    let k = choose|k: int| 0 <= k < row@.len() && same_insertion(#[trigger] row@[k], best);
                    assert(same_insertion(best_insertions@[p as int]@[k], best));
                }
            }
        }
        i = i + 1;
    }
    best
}

/// Row `row` is row `row0` of pending piece `pos` with one entry added at
/// the end: the cheapest insertion of `customer` into route `route_index`
/// under `criterion`.
spec fn row_extended(
    row0: Seq<InsertionInfo>,
    row: Seq<InsertionInfo>,
    pos: int,
    inst: &Instance,
    criterion: Criterion,
    customer: int,
    route_index: Node,
    sol: &AlkaidSolution,
    ctx: &RouteContext,
) -> bool {
    let e = row.last();
    &&& row.len() == row0.len() + 1
    &&& row.drop_last() == row0
    &&& e.route_index == route_index
    &&& e.candidate_position == Some(pos as usize)
    &&& insertion_position(sol, ctx.head_of(route_index as int), e.predecessor as int, e.successor as int)
    &&& e.cost.value as int == criterion_cost(inst, sol, e.predecessor as int, e.successor as int, customer, criterion)
}

/// Insertions of every pending piece into route `route_index`, appended
/// to their rows.
fn add_route_insertions(
    instance: &Instance,
    criterion: Criterion,
    candidate_list: &Vec<Candidate>,
    best_insertions: &mut Vec<Vec<InsertionInfo>>,
    route_index: Node,
    random: &mut Random,
    solution: &AlkaidSolution,
    context: &RouteContext,
    Ghost(target): Ghost<Multiset<Candidate>>,
)
    requires
        criterion_ok(criterion),
        build_ok(instance, candidate_list@, solution, context, target),
        old(best_insertions)@.len() == candidate_list@.len(),
        rows_ok(old(best_insertions)@, solution, context),
        0 <= route_index < context.routes().len(),
    ensures
        final(best_insertions)@.len() == candidate_list@.len(),
        rows_ok(final(best_insertions)@, solution, context),
        forall|i: int|
            0 <= i < candidate_list@.len() ==> row_extended(
                old(best_insertions)@[i]@,
                #[trigger] final(best_insertions)@[i]@,
                i,
                instance,
                criterion,
                candidate_list@[i].0 as int,
                route_index,
                solution,
                context,
            ),
{
    let mut i: usize = 0;
    while i < candidate_list.len()
        invariant
            criterion_ok(criterion),
            build_ok(instance, candidate_list@, solution, context, target),
            best_insertions@.len() == candidate_list@.len(),
            rows_ok(best_insertions@, solution, context),
            0 <= route_index < context.routes().len(),
            0 <= i <= candidate_list@.len(),
            forall|a: int|
                0 <= a < i ==> row_extended(
                    old(best_insertions)@[a]@,
                    #[trigger] best_insertions@[a]@,
                    a,
                    instance,
                    criterion,
                    candidate_list@[a].0 as int,
                    route_index,
                    solution,
                    context,
                ),
            forall|a: int| i <= a < candidate_list@.len() ==> #[trigger] best_insertions@[a] == old(best_insertions)@[a],
        decreases candidate_list@.len() - i,
    {
        let (customer, _demand) = candidate_list[i];
        let (pred, succ, delta) = find_best_insertion(instance, solution, context, route_index, customer, criterion, random);
        let ghost b0 = best_insertions@;
        let mut row = best_insertions.remove(i);
        row.push(
            InsertionInfo { predecessor: pred, successor: succ, route_index, cost: delta, candidate_position: Some(i) },
        );
        best_insertions.insert(i, row);
        proof {
            assert forall|a: int, b: int| 0 <= a < best_insertions@.len() && 0 <= b < best_insertions@[a]@.len() implies entry_ok(
                #[trigger] best_insertions@[a]@[b],
                solution,
                context,
            ) by {
                if a != i {
                    assert(best_insertions@[a] == b0[a]);
                } else if b < b0[a]@.len() {
                    assert(best_insertions@[a]@[b] == b0[a]@[b]);
                }
            }
            assert(best_insertions@[i as int]@.drop_last() =~= b0[i as int]@);
            assert forall|a: int| 0 <= a < i + 1 implies row_extended(
                old(best_insertions)@[a]@,
                #[trigger] best_insertions@[a]@,
                a,
                instance,
                criterion,
                candidate_list@[a].0 as int,
                route_index,
                solution,
                context,
            ) by {
                if a < i {
                    assert(best_insertions@[a] == b0[a]);
                }
            }
            assert forall|a: int| i + 1 <= a < candidate_list@.len() implies #[trigger] best_insertions@[a] == old(best_insertions)@[a] by {
                assert(best_insertions@[a] == b0[a]);
            }
        }
        i = i + 1;
    }
}

/// Parallel insertion: the best insertion of every pending piece into
/// every route is kept; the globally cheapest one that fits is applied,
/// and the insertions into the changed route are refreshed when next
/// scanned. When none fits, a route is opened with a random piece.
fn parallel_insertion(
    instance: &Instance,
    criterion: Criterion,
    candidate_list: &mut Vec<Candidate>,
    random: &mut Random,
    solution: &mut AlkaidSolution,
    context: &mut RouteContext,
    Ghost(target): Ghost<Multiset<Candidate>>,
)
    requires
        criterion_ok(criterion),
        build_ok(instance, old(candidate_list)@, old(solution), old(context), target),
    ensures
        build_ok(instance, final(candidate_list)@, final(solution), final(context), target),
        final(candidate_list)@.len() == 0,
{
    let mut best_insertions: Vec<Vec<InsertionInfo>> = Vec::new();
    let n = context.num_routes();
    let mut i: usize = 0;
    while i < candidate_list.len()
        invariant
            criterion_ok(criterion),
            build_ok(instance, candidate_list@, solution, context, target),
            n == context.routes().len(),
            best_insertions@.len() == i,
            0 <= i <= candidate_list@.len(),
            rows_ok(best_insertions@, solution, context),
        decreases candidate_list@.len() - i,
    {
        let (customer, _demand) = candidate_list[i];
        let mut row: Vec<InsertionInfo> = Vec::new();
        let mut route_index: Node = 0;
        while route_index < n
            invariant
                criterion_ok(criterion),
                build_ok(instance, candidate_list@, solution, context, target),
                n == context.routes().len(),
                0 <= route_index <= n,
                i < candidate_list@.len(),
                customer == candidate_list@[i as int].0,
                forall|k: int| 0 <= k < row@.len() ==> entry_ok(#[trigger] row@[k], solution, context),
            decreases n - route_index,
        {
            let (pred, succ, delta) = find_best_insertion(instance, solution, context, route_index, customer, criterion, random);
            row.push(
                InsertionInfo { predecessor: pred, successor: succ, route_index, cost: delta, candidate_position: Some(i) },
            );
            route_index = route_index + 1;
        }
        let ghost b0 = best_insertions@;
        best_insertions.push(row);
        proof {
            assert forall|a: int, b: int| 0 <= a < best_insertions@.len() && 0 <= b < best_insertions@[a]@.len() implies entry_ok(
                #[trigger] best_insertions@[a]@[b],
                solution,
                context,
            ) by {
                if a < b0.len() {
                    assert(best_insertions@[a] == b0[a]);
                }
            }
        }
        i = i + 1;
    }
    let mut updated: Vec<bool> = vec![false; n as usize];
    while candidate_list.len() > 0
        invariant
            criterion_ok(criterion),
            build_ok(instance, candidate_list@, solution, context, target),
            best_insertions@.len() == candidate_list@.len(),
            rows_ok(best_insertions@, solution, context),
            updated@.len() == context.routes().len(),
        decreases candidate_list@.len(),
    {
        let best = scan_insertions(
            instance,
            criterion,
            candidate_list,
            &mut best_insertions,
            &updated,
            random,
            solution,
            context,
            Ghost(target),
        );
        let ghost sol0 = *solution;
        let ghost ctx0 = *context;
        match best.candidate_position {
            Some(candidate_pos) => {
                remove_row(&mut best_insertions, candidate_pos, Ghost(solution), Ghost(context));
                apply_insertion(instance, &best, candidate_pos, candidate_list, solution, context, Ghost(target));
                proof {
                    lemma_rows_grow(best_insertions@, &sol0, &ctx0, solution, context);
                }
                updated.set(best.route_index as usize, true);
            },
            None => {
                let position = add_route(candidate_list, random, solution, context, Ghost(instance), Ghost(target));
                remove_row(&mut best_insertions, position, Ghost(&sol0), Ghost(&ctx0));
                proof {
                    lemma_rows_grow(best_insertions@, &sol0, &ctx0, solution, context);
                }
                let new_route_index = context.num_routes() - 1;
                add_route_insertions(
                    instance,
                    criterion,
                    candidate_list,
                    &mut best_insertions,
                    new_route_index,
                    random,
                    solution,
                    context,
                    Ghost(target),
                );
                updated.push(false);
            },
        }
    }
}


/// Runs the sequential or the parallel insertion, one or the other with
/// equal probability.
fn insert_candidates(
    instance: &Instance,
    criterion: Criterion,
    candidate_list: &mut Vec<Candidate>,
    random: &mut Random,
    solution: &mut AlkaidSolution,
    context: &mut RouteContext,
    Ghost(target): Ghost<Multiset<Candidate>>,
)
    requires
        criterion_ok(criterion),
        build_ok(instance, old(candidate_list)@, old(solution), old(context), target),
    ensures
        build_ok(instance, final(candidate_list)@, final(solution), final(context), target),
        final(candidate_list)@.len() == 0,
{
    let strategy = random.next_int(0, 1);
    if strategy == 0 {
        sequential_insertion(instance, criterion, candidate_list, random, solution, context, Ghost(target));
    } else {
        parallel_insertion(instance, criterion, candidate_list, random, solution, context, Ghost(target));
    }
}

/// Pieces of `demand` for customer `c`: full vehicle loads first, then the
/// rest.
pub open spec fn chunks_of(c: Node, demand: int, cap: int) -> Seq<Candidate>
    decreases demand,
{
    if demand <= 0 || cap <= 0 {
        Seq::empty()
    } else {
        let d = if demand < cap {
            demand
        } else {
            cap
        };
        seq![(c, d as i32)] + chunks_of(c, demand - d, cap)
    }
}

/// Pieces of customers `1..k`, in order.
pub open spec fn pieces_upto(inst: &Instance, k: int) -> Seq<Candidate>
    decreases k,
{
    if k <= 1 {
        Seq::empty()
    } else {
        pieces_upto(inst, k - 1) + chunks_of((k - 1) as Node, inst.demand_of(k - 1), inst.capacity as int)
    }
}

/// Pieces of all customers.
pub open spec fn pieces(inst: &Instance) -> Seq<Candidate> {
    pieces_upto(inst, inst.num_customers as int)
}

/// Total load of a list of pieces.
pub open spec fn load_total(s: Seq<Candidate>) -> int
    decreases s.len(),
{
    if s.len() == 0 {
        0
    } else {
        load_total(s.drop_last()) + s.last().1
    }
}

proof fn lemma_load_total_append(a: Seq<Candidate>, b: Seq<Candidate>)
    ensures
        load_total(a + b) == load_total(a) + load_total(b),
    decreases b.len(),
{
    if b.len() > 0 {
        lemma_load_total_append(a, b.drop_last());
        assert((a + b).drop_last() =~= a + b.drop_last());
    } else {
        assert(a + b =~= a);
    }
}

/// The pieces of a customer's demand deliver exactly that demand, each at
/// most one vehicle load.
pub proof fn lemma_chunks_total(c: Node, demand: int, cap: int)
    requires
        0 <= demand,
        0 < cap <= i32::MAX,
    ensures
        load_total(chunks_of(c, demand, cap)) == demand,
        forall|k: int|
            0 <= k < chunks_of(c, demand, cap).len() ==> (#[trigger] chunks_of(c, demand, cap)[k]).0 == c && 0
                < chunks_of(c, demand, cap)[k].1 <= cap,
    decreases demand,
{
    if demand > 0 {
        let d = if demand < cap {
            demand
        } else {
            cap
        };
        lemma_chunks_total(c, demand - d, cap);
        lemma_load_total_append(seq![(c, d as i32)], chunks_of(c, demand - d, cap));
        assert(load_total(seq![(c, d as i32)]) == d) by {
            let one = seq![(c, d as i32)];
            assert(one.drop_last() =~= Seq::<Candidate>::empty());
            assert(load_total(one.drop_last()) == 0);
            assert(one.last().1 == d);
        }
    }
}

/// Builds an initial solution: the demands are cut into pieces of at most
/// one vehicle load, as many routes as the fleet lower bound are opened
/// with random pieces, and the other pieces are inserted under a random
/// criterion by a random strategy. Every piece is served by exactly one
/// slot.
pub fn construct(instance: &Instance, random: &mut Random) -> (r: AlkaidSolution)
    requires
        instance.wf(),
        total_demand(instance) + instance.capacity <= i32::MAX,
        pieces(instance).len() < i16::MAX,
    ensures
        r.valid_for(instance),
        r.served().to_multiset() == pieces(instance).to_multiset(),
        forall|k: int|
            0 <= k < r.used().len() ==> 0 < #[trigger] r.nodes()[r.used()[k] as int].load <= instance.capacity,
{
    let mut candidate_list: Vec<Candidate> = Vec::new();
    let num_fleets = calc_fleet_lower_bound(instance);
    let n = instance.num_customers;
    let cap = instance.capacity;
    let mut i: Node = 1;
    while i < n
        invariant
            instance.wf(),
            n == instance.num_customers,
            cap == instance.capacity,
            1 <= i <= n,
            candidate_list@ == pieces_upto(instance, i as int),
            forall|k: int|
                0 <= k < candidate_list@.len() ==> instance.is_node((#[trigger] candidate_list@[k]).0 as int) && 0
                    < candidate_list@[k].1 <= cap,
        decreases n - i,
    {
        let mut demand = instance.demand(i);
        let ghost d0 = demand as int;
        let ghost base = candidate_list@;
        while demand > 0
            invariant
                instance.wf(),
                n == instance.num_customers,
                cap == instance.capacity,
                1 <= i < n,
                candidate_list@ + chunks_of(i, demand as int, cap as int) == base + chunks_of(i, d0, cap as int),
                forall|k: int|
                    0 <= k < candidate_list@.len() ==> instance.is_node((#[trigger] candidate_list@[k]).0 as int) && 0
                        < candidate_list@[k].1 <= cap,
            decreases demand,
        {
            let split = if demand < cap {
                demand
            } else {
                cap
            };
            let ghost before = candidate_list@;
            candidate_list.push((i, split));
            proof {
                assert(chunks_of(i, demand as int, cap as int) == seq![(i, split)] + chunks_of(
                    i,
                    demand - split,
                    cap as int,
                ));
                assert(candidate_list@ + chunks_of(i, demand - split, cap as int) =~= before + chunks_of(
                    i,
                    demand as int,
                    cap as int,
                ));
            }
            demand = demand - split;
        }
        proof {
            assert(candidate_list@ =~= candidate_list@ + chunks_of(i, demand as int, cap as int));
        }
        i = i + 1;
    }
    let mut solution = AlkaidSolution::new();
    let mut context = RouteContext::new();
    let ghost target = candidate_list@.to_multiset();
    let ghost all_pieces = candidate_list@;
    proof {
        broadcast use {vstd::seq_lib::group_to_multiset_ensures, vstd::multiset::group_multiset_axioms};
        assert(solution.served() =~= Seq::<Candidate>::empty());
        assert(solution.served().to_multiset().add(candidate_list@.to_multiset()) =~= target);
    }
    let mut f: Node = 0;
    while f < num_fleets && candidate_list.len() > 0
        invariant
            build_ok(instance, candidate_list@, &solution, &context, target),
        decreases num_fleets - f,
    {
        add_route(&mut candidate_list, random, &mut solution, &mut context, Ghost(instance), Ghost(target));
        f = f + 1;
    }
    let criterion = if random.next_int(0, 1) == 0 {
        let weight = random.next_int(0, 34);
        Criterion::Mcfic { weight: weight as i64 }
    } else {
        Criterion::Nfic
    };
    insert_candidates(instance, criterion, &mut candidate_list, random, &mut solution, &mut context, Ghost(target));
    proof {
        broadcast use {vstd::seq_lib::group_to_multiset_ensures, vstd::multiset::group_multiset_axioms};
        assert(candidate_list@.to_multiset() =~= Multiset::empty());
        assert(solution.served().to_multiset().add(candidate_list@.to_multiset()) =~= solution.served().to_multiset());
        assert forall|k: int| 0 <= k < solution.used().len() implies 0 < #[trigger] solution.nodes()[solution.used()[k] as int].load
            <= instance.capacity by {
            let sv = solution.served();
            assert(sv[k] == (solution.nodes()[solution.used()[k] as int].customer, solution.nodes()[solution.used()[k] as int].load));
            assert(sv.contains(sv[k]));
            assert(target.count(sv[k]) > 0);
            assert(all_pieces.contains(sv[k]));
            let m = choose|m: int| 0 <= m < all_pieces.len() && all_pieces[m] == sv[k];
            assert(0 < all_pieces[m].1 <= cap);
        }
    }
    solution
}

} // verus!
