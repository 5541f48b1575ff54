//! Local search of the solver: descent within each route, and randomized
//! variable neighbourhood descent across routes.
use vstd::prelude::*;
use crate::instance::{Instance, Node};
use crate::inter_operator::{sound, delivered, lemma_delivered_same, same_content, CacheMap, InterOperator};
use crate::intra_operator::IntraOperator;
use crate::random::{Random, RandomState, shuffle_spec};
use crate::acceptance_rule::AcceptanceRule;
use crate::repair::{repair, is_repairable, repairable, repair_done};
use crate::route_context::RouteContext;
use crate::solution::AlkaidSolution;

verus! {

/// Rounds allowed to a descent that repeats until no operator improves.
pub const MAX_ROUNDS: u64 = 18446744073709551615;

/// The indices `0..n`.
fn indices(n: usize) -> (r: Vec<usize>)
    ensures
        r@.len() == n,
        forall|i: int| 0 <= i < n ==> #[trigger] r@[i] == i,
{
    let mut r: Vec<usize> = Vec::new();
    let mut i: usize = 0;
    while i < n
        invariant
            i <= n,
            r@.len() == i,
            forall|k: int| 0 <= k < i ==> #[trigger] r@[k] == k,
        decreases n - i,
    {
        r.push(i);
        i = i + 1;
    }
    r
}

/// Shuffles `v`, whose items stay below `n`.
fn reshuffle(v: &mut Vec<usize>, n: usize, random: &mut Random)
    requires
        old(v)@.len() <= i32::MAX,
        forall|i: int| 0 <= i < old(v)@.len() ==> #[trigger] old(v)@[i] < n,
    ensures
        final(v)@.len() == old(v)@.len(),
        forall|i: int| 0 <= i < final(v)@.len() ==> #[trigger] final(v)@[i] < n,
        (final(v)@, final(random).spec_state()) == shuffle_spec(old(random).spec_state(), old(v)@, old(v)@.len() - 1),
{
    let ghost v0 = v@;
    random.shuffle(v);
    proof {
        v0.to_multiset_ensures();
        v@.to_multiset_ensures();
        assert forall|i: int| 0 <= i < v@.len() implies #[trigger] v@[i] < n by {
            assert(v@.contains(v@[i]));
            assert(v0.to_multiset().count(v@[i]) > 0);
            let j = choose|j: int| 0 <= j < v0.len() && v0[j] == v@[i];
        }
    }
}

/// Receives the progress of a search.
pub trait Listener {
    /// The search starts.
    fn on_start(&mut self);

    /// A new best solution was found.
    fn on_updated(&mut self, solution: &AlkaidSolution, objective: i32);

    /// The search ends with its best solution.
    fn on_end(&mut self, solution: &AlkaidSolution, objective: i32);
}

/// How many of routes `a` and `b` of `ctx` are not empty.
pub open spec fn nonempty_count(ctx: &RouteContext, a: int, b: int) -> int {
    (if ctx.head_of(a) != 0 {
        1int
    } else {
        0int
    }) + (if ctx.head_of(b) != 0 {
        1int
    } else {
        0int
    })
}

/// `fin` is `mid` relinked (same slots in use, each with its customer and
/// load), where `mid` is `sol0` with route `route_index` repaired (see
/// `repair_done`) when that route is empty or repairable, else `sol0`
/// itself.
pub open spec fn repaired_then_relinked(
    sol0: AlkaidSolution,
    ctx0: RouteContext,
    route_index: int,
    mid: AlkaidSolution,
    mctx: RouteContext,
    fin: AlkaidSolution,
) -> bool {
    let h = ctx0.head_of(route_index);
    &&& (h == 0 || repairable(&sol0, h)) ==> repair_done(sol0, ctx0, route_index, mid, mctx)
    &&& !(h == 0 || repairable(&sol0, h)) ==> mid == sol0
    &&& same_content(&mid, &fin)
}

/// The solver.
#[derive(Debug, Clone, Copy, Default)]
pub struct AlkaidSolver;

impl AlkaidSolver {
    /// Repairs route `route_index` (when it is a proper chain of slots),
    /// then applies the intra-route operators in a random order, starting
    /// over after each improvement, until none improves the route.
    pub fn intra_route_search(
        instance: &Instance,
        intra_operators: &Vec<Box<dyn IntraOperator>>,
        route_index: Node,
        solution: &mut AlkaidSolution,
        context: &mut RouteContext,
        random: &mut Random,
    )
        requires
            instance.wf(),
            sound(old(solution), instance),
            old(context).fits(old(solution)),
            old(context).pre_loads().len() >= old(solution).nodes().len(),
            0 <= route_index < old(context).routes().len(),
            intra_operators@.len() <= i32::MAX,
        ensures
            sound(final(solution), instance),
            final(context).fits(final(solution)),
            final(context).pre_loads().len() >= final(solution).nodes().len(),
            final(context).routes().len() == old(context).routes().len(),
            final(solution).nodes().len() == old(solution).nodes().len(),
            forall|c: int| #[trigger] delivered(final(solution), c) == delivered(old(solution), c),
            exists|mid: AlkaidSolution, mctx: RouteContext|
                #[trigger] repaired_then_relinked(*old(solution), *old(context), route_index as int, mid, mctx, *final(solution)),
    {
        let head = context.head(route_index);
        if head == 0 || is_repairable(solution, head) {
            repair(instance, route_index, solution, context);
        }
        let ghost mid = *solution;
        let ghost mctx = *context;
        let ghost len = solution.nodes().len();
        let ghost num_routes = context.routes().len();
        let n = intra_operators.len();
        let mut neighborhoods = indices(n);
        let mut rounds: u64 = MAX_ROUNDS;
        while rounds > 0
            invariant
                n == intra_operators@.len(),
                neighborhoods@.len() == n,
                forall|i: int| 0 <= i < n ==> #[trigger] neighborhoods@[i] < n,
                instance.wf(),
                sound(solution, instance),
                context.fits(solution),
                context.pre_loads().len() >= solution.nodes().len(),
                context.routes().len() == num_routes,
                solution.nodes().len() == len,
                0 <= route_index < num_routes,
                intra_operators@.len() <= i32::MAX,
                forall|c: int| #[trigger] delivered(solution, c) == delivered(old(solution), c),
                repaired_then_relinked(*old(solution), *old(context), route_index as int, mid, mctx, mid),
                same_content(&mid, solution),
            decreases rounds,
        {
            rounds = rounds - 1;
            reshuffle(&mut neighborhoods, n, random);
            let mut improved = false;
            let mut k: usize = 0;
            while k < neighborhoods.len()
                invariant
                    instance.wf(),
                    sound(solution, instance),
                    context.fits(solution),
                    context.pre_loads().len() >= solution.nodes().len(),
                    context.routes().len() == num_routes,
                    solution.nodes().len() == len,
                    0 <= route_index < num_routes,
                    forall|c: int| #[trigger] delivered(solution, c) == delivered(old(solution), c),
                    neighborhoods@.len() == intra_operators@.len(),
                    forall|i: int| 0 <= i < neighborhoods@.len() ==> #[trigger] neighborhoods@[i] < intra_operators@.len(),
                    same_content(&mid, solution),
                decreases neighborhoods@.len() - k,
            {
                let ghost s0 = *solution;
                improved = intra_operators[neighborhoods[k]].apply(instance, route_index, solution, context, random);
                proof {
                    assert forall|n: int| 0 <= n < solution.nodes().len() implies 0 <= (#[trigger] solution.nodes()[n]).load by {
                        assert(solution.nodes()[n].load == s0.nodes()[n].load);
                    }
                    lemma_delivered_same(&s0, solution);
                }
                if improved {
                    break;
                }
                k = k + 1;
            }
            if !improved {
                break;
            }
        }
        assert(repaired_then_relinked(*old(solution), *old(context), route_index as int, mid, mctx, *solution));
    }

    /// Applies the inter-route operators in a random order; after the
    /// first one that improves the solution, the routes it changed are
    /// taken out, the others are renumbered in order, and the changed
    /// routes that are not empty are put back at the end, each searched
    /// within. Starts over until no operator improves. The caches are
    /// reset first and saved last.
    pub fn randomized_variable_neighborhood_descent(
        instance: &Instance,
        inter_operators: &Vec<Box<dyn InterOperator>>,
        intra_operators: &Vec<Box<dyn IntraOperator>>,
        solution: &mut AlkaidSolution,
        context: &mut RouteContext,
        random: &mut Random,
        cache_map: &mut CacheMap,
    )
        requires
            instance.wf(),
            sound(old(solution), instance),
            old(context).fits(old(solution)),
            old(context).pre_loads().len() >= old(solution).nodes().len(),
            old(context).routes().len() < i16::MAX,
            old(cache_map).wf(instance.num_customers as int),
            inter_operators@.len() <= i32::MAX,
            intra_operators@.len() <= i32::MAX,
        ensures
            sound(final(solution), instance),
            final(context).fits(final(solution)),
            final(context).pre_loads().len() >= final(solution).nodes().len(),
            final(context).routes().len() <= old(context).routes().len(),
            final(cache_map).fits(final(solution), final(context), instance.num_customers as int),
            final(cache_map).wf(instance.num_customers as int),
            forall|c: int| #[trigger] delivered(final(solution), c) == delivered(old(solution), c),
    {
        let ghost nc = instance.num_customers as int;
        let ghost n0 = context.routes().len();
        cache_map.reset(solution, context, Ghost(nc));
        let num_ops = inter_operators.len();
        let mut rounds: u64 = MAX_ROUNDS;
        while rounds > 0
            invariant
                instance.wf(),
                nc == instance.num_customers,
                sound(solution, instance),
                context.fits(solution),
                context.pre_loads().len() >= solution.nodes().len(),
                context.routes().len() <= n0,
                n0 < i16::MAX,
                num_ops == inter_operators@.len(),
                num_ops <= i32::MAX,
                intra_operators@.len() <= i32::MAX,
                cache_map.fits(solution, context, nc),
                cache_map.star().rows().len() >= context.routes().len(),
                forall|c: int| #[trigger] delivered(solution, c) == delivered(old(solution), c),
            decreases rounds,
        {
            rounds = rounds - 1;
            let mut neighborhoods = indices(num_ops);
            reshuffle(&mut neighborhoods, num_ops, random);
            let mut improved = false;
            let mut k: usize = 0;
            while k < neighborhoods.len()
                invariant
                    instance.wf(),
                    nc == instance.num_customers,
                    sound(solution, instance),
                    context.fits(solution),
                    context.pre_loads().len() >= solution.nodes().len(),
                    context.routes().len() <= n0,
                    n0 < i16::MAX,
                    num_ops == inter_operators@.len(),
                    intra_operators@.len() <= i32::MAX,
                    neighborhoods@.len() == num_ops,
                    forall|i: int| 0 <= i < num_ops ==> #[trigger] neighborhoods@[i] < num_ops,
                    cache_map.fits(solution, context, nc),
                    cache_map.star().rows().len() >= context.routes().len(),
                    forall|c: int| #[trigger] delivered(solution, c) == delivered(old(solution), c),
                decreases neighborhoods@.len() - k,
            {
                let original_num_routes = context.num_routes();
                let mut routes = inter_operators[neighborhoods[k]].apply(instance, solution, context, random, cache_map);
                if routes.len() > 0 {
                    if routes[0] > routes[1] {
                        let first = routes[1];
                        routes.set(1, routes[0]);
                        routes.set(0, first);
                    }
                    improved = true;
                    Self::renumber_changed_routes(
                        instance,
                        intra_operators,
                        &routes,
                        original_num_routes,
                        solution,
                        context,
                        random,
                        cache_map,
                    );
                    break;
                }
                k = k + 1;
            }
            if !improved {
                break;
            }
        }
        cache_map.save(solution, context, Ghost(context.routes().len() as int), Ghost(solution.nodes().len() as int), Ghost(nc));
        proof {
            cache_map.lemma_fits_wf(context.routes().len() as int, solution.nodes().len() as int, nc);
        }
    }

    /// After an inter-route move changed the two routes of `routes` (in
    /// increasing order): frees their caches, renumbers the other routes
    /// in order from 0, and puts each changed route that is not empty
    /// back after them, with fresh bookkeeping and caches, searched
    /// within.
    fn renumber_changed_routes(
        instance: &Instance,
        intra_operators: &Vec<Box<dyn IntraOperator>>,
        routes: &Vec<Node>,
        original_num_routes: Node,
        solution: &mut AlkaidSolution,
        context: &mut RouteContext,
        random: &mut Random,
        cache_map: &mut CacheMap,
    )
        requires
            instance.wf(),
            sound(old(solution), instance),
            old(context).fits(old(solution)),
            old(context).pre_loads().len() >= old(solution).nodes().len(),
            old(context).routes().len() < i16::MAX,
            original_num_routes == old(context).routes().len(),
            routes@.len() == 2,
            0 <= routes@[0] < routes@[1] < old(context).routes().len(),
            old(cache_map).fits(old(solution), old(context), instance.num_customers as int),
            old(cache_map).star().rows().len() >= old(context).routes().len(),
            intra_operators@.len() <= i32::MAX,
        ensures
            sound(final(solution), instance),
            final(context).fits(final(solution)),
            final(context).pre_loads().len() >= final(solution).nodes().len(),
            final(context).routes().len() == old(context).routes().len() - 2 + nonempty_count(
                old(context),
                routes@[0] as int,
                routes@[1] as int,
            ),
            final(cache_map).fits(final(solution), final(context), instance.num_customers as int),
            final(cache_map).star().rows().len() >= final(context).routes().len(),
            forall|c: int| #[trigger] delivered(final(solution), c) == delivered(old(solution), c),
    {
        let ghost nc = instance.num_customers as int;
        let ghost n = context.routes().len() as int;
        let ghost len = solution.nodes().len() as int;
        let ghost mut live: int = n;
        let mut heads: Vec<Node> = Vec::new();
        let mut i: usize = 0;
        while i < 2
            invariant
                0 <= i <= 2,
                routes@.len() == 2,
                0 <= routes@[0] < routes@[1] < n,
                original_num_routes == n,
                context.routes().len() == n,
                context.fits(solution),
                len == solution.nodes().len(),
                live == n - i,
                heads@.len() <= i,
                *context == *old(context),
                heads@.len() == (if i > 0 && old(context).head_of(routes@[0] as int) != 0 {
                    1int
                } else {
                    0int
                }) + (if i > 1 && old(context).head_of(routes@[1] as int) != 0 {
                    1int
                } else {
                    0int
                }),
                forall|j: int| 0 <= j < heads@.len() ==> solution.is_slot(#[trigger] heads@[j] as int),
                cache_map.fits_live(n, live, len, nc),
                cache_map.star().rows().len() >= n,
            decreases 2 - i,
        {
            let route_index = routes[i];
            let head = context.head(route_index);
            if head != 0 {
                heads.push(head);
            }
            if route_index < original_num_routes {
                cache_map.remove_route(route_index, Ghost(n), Ghost(live), Ghost(len), Ghost(nc));
                proof {
                    live = live - 1;
                }
            }
            i = i + 1;
        }
        let ghost cnt = heads@.len() as int;
        assert(cnt == nonempty_count(old(context), routes@[0] as int, routes@[1] as int));
        let mut num_routes: Node = 0;
        let mut route_index: Node = 0;
        let total = context.num_routes();
        while route_index < total
            invariant
                routes@.len() == 2,
                0 <= routes@[0] < routes@[1] < n,
                total == n,
                n < i16::MAX,
                context.routes().len() == n,
                context.fits(solution),
                context.pre_loads() == old(context).pre_loads(),
                len == solution.nodes().len(),
                live == n - 2,
                0 <= route_index <= n,
                0 <= num_routes <= route_index,
                route_index <= routes@[0] ==> num_routes == route_index,
                routes@[0] < route_index <= routes@[1] ==> num_routes == route_index - 1,
                routes@[1] < route_index ==> num_routes == route_index - 2,
                heads@.len() == cnt,
                cache_map.fits_live(n, live, len, nc),
                cache_map.star().rows().len() >= n,
            decreases n - route_index,
        {
            if route_index != routes[0] && route_index != routes[1] {
                context.move_route_context(num_routes, route_index);
                cache_map.move_route(num_routes, route_index, Ghost(n), Ghost(live), Ghost(len), Ghost(nc));
                num_routes = num_routes + 1;
            }
            route_index = route_index + 1;
        }
        assert(num_routes == n - 2);
        let mut j: usize = 0;
        while j < heads.len()
            invariant
                instance.wf(),
                nc == instance.num_customers,
                sound(solution, instance),
                n < i16::MAX,
                context.routes().len() == n,
                context.fits(solution),
                context.pre_loads().len() >= solution.nodes().len(),
                len == solution.nodes().len(),
                heads@.len() <= 2,
                forall|q: int| 0 <= q < heads@.len() ==> solution.is_slot(#[trigger] heads@[q] as int),
                0 <= j <= heads@.len(),
                n >= 2,
                num_routes == n - 2 + j,
                heads@.len() == cnt,
                cnt == nonempty_count(old(context), routes@[0] as int, routes@[1] as int),
                n == old(context).routes().len(),
                live == num_routes,
                cache_map.fits_live(n, live, len, nc),
                cache_map.star().rows().len() >= n,
                intra_operators@.len() <= i32::MAX,
                forall|c: int| #[trigger] delivered(solution, c) == delivered(old(solution), c),
            decreases heads@.len() - j,
        {
            let head = heads[j];
            assert(num_routes + 1 <= n);
            if num_routes + 1 > context.num_routes() {
                context.set_num_routes(num_routes + 1);
            }
            context.set_head(num_routes, head);
            context.update_route_context(solution, num_routes, 0);
            cache_map.add_route(num_routes, Ghost(n), Ghost(live), Ghost(len), Ghost(nc));
            proof {
                live = live + 1;
            }
            Self::intra_route_search(instance, intra_operators, num_routes, solution, context, random);
            num_routes = num_routes + 1;
            j = j + 1;
        }
        context.set_num_routes(num_routes);
        proof {
            cache_map.lemma_fits_shrink(n, live, num_routes as int, len, nc);
        }
    }
}

/// `a` and `b` hold the same slots.
pub open spec fn same_solution(a: AlkaidSolution, b: AlkaidSolution) -> bool {
    &&& a.nodes() == b.nodes()
    &&& a.used() == b.used()
    &&& a.unused() == b.unused()
}

/// State of the search between two steps: the current solution and its
/// objective, the candidate to search from, the best objective since the
/// last restart, the best solution found, and the number of steps since
/// the best objective since the last restart improved.
pub struct SearchState {
    pub solution: AlkaidSolution,
    pub objective: i32,
    pub new_solution: AlkaidSolution,
    pub iter_best_objective: i32,
    pub best_solution: AlkaidSolution,
    pub best_objective: i32,
    pub num_stagnation: i32,
}

/// Why a search step could not complete.
#[derive(Debug, Clone, Copy, PartialEq, Eq)]
pub enum StepError {
    /// The candidate has as many routes as a `Node` can count.
    TooManyRoutes,
    /// The candidate's objective does not fit an `i32`.
    ObjectiveOverflow,
}

/// One search step took `s0` to `s1` through the searched candidate
/// `cand`, whose objective is compared with the best ones (`improved`:
/// with the best so far); the candidate was accepted (it becomes the
/// current solution) or rejected (the current solution stays); either way
/// the next candidate is the current solution.
pub open spec fn step_done(s0: SearchState, s1: SearchState, cand: AlkaidSolution, inst: &Instance, improved: bool) -> bool {
    let v = cand.objective(inst);
    &&& sound(&cand, inst)
    &&& forall|c: int| #[trigger] delivered(&cand, c) == delivered(&s0.new_solution, c)
    &&& improved == (v < s0.best_objective)
    &&& improved ==> s1.best_objective == v && same_solution(s1.best_solution, cand)
    &&& !improved ==> s1.best_objective == s0.best_objective && same_solution(s1.best_solution, s0.best_solution)
    &&& s1.iter_best_objective == if v < s0.iter_best_objective {
        v
    } else {
        s0.iter_best_objective as int
    }
    &&& s1.num_stagnation == if v < s0.iter_best_objective {
        0
    } else {
        s0.num_stagnation + 1
    }
    &&& (same_solution(s1.solution, cand) && s1.objective == v) || (same_solution(s1.solution, s0.solution)
        && s1.objective == s0.objective)
    &&& same_solution(s1.new_solution, s1.solution)
}

/// The candidate `cand` replaced the current solution of `s0` (with its
/// objective) exactly when `accepted`; otherwise the current solution and
/// objective stayed.
pub open spec fn accepted_as(s0: SearchState, s1: SearchState, cand: AlkaidSolution, inst: &Instance, accepted: bool) -> bool {
    &&& accepted ==> same_solution(s1.solution, cand) && s1.objective == cand.objective(inst)
    &&& !accepted ==> same_solution(s1.solution, s0.solution) && s1.objective == s0.objective
}

/// Under a rule that accepts strict improvements only, a step never
/// raises the current objective, and it lowers it exactly when the
/// candidate is lower, the candidate then becoming the current solution.
pub proof fn lemma_strict_rule_step(s0: SearchState, s1: SearchState, cand: AlkaidSolution, inst: &Instance)
    requires
        accepted_as(s0, s1, cand, inst, cand.objective(inst) < s0.objective),
    ensures
        s1.objective <= s0.objective,
        s1.objective < s0.objective <==> cand.objective(inst) < s0.objective,
        cand.objective(inst) < s0.objective ==> same_solution(s1.solution, cand),
        cand.objective(inst) >= s0.objective ==> same_solution(s1.solution, s0.solution),
{
}

/// Some searched candidate took `s0` to `s1` in one step (see
/// `step_done`).
pub open spec fn stepped(s0: SearchState, s1: SearchState, inst: &Instance, improved: bool) -> bool {
    exists|cand: AlkaidSolution| #[trigger] step_done(s0, s1, cand, inst, improved)
}

impl AlkaidSolver {
    /// One step of the search: the candidate is searched within each route
    /// and across routes; a lower objective than the best since the last
    /// restart resets the stagnation count (which otherwise grows by one),
    /// a lower objective than the best so far makes the candidate the best
    /// solution; the acceptance rule decides whether the candidate replaces
    /// the current solution, and the next candidate is the current
    /// solution. Returns whether the best solution improved, or an error
    /// when the candidate has too many routes or an objective beyond an
    /// `i32`.
    pub fn search_step(
        instance: &Instance,
        inter_operators: &Vec<Box<dyn InterOperator>>,
        intra_operators: &Vec<Box<dyn IntraOperator>>,
        rule: &mut dyn AcceptanceRule,
        state: &mut SearchState,
        context: &mut RouteContext,
        cache_map: &mut CacheMap,
        random: &mut Random,
    ) -> (r: Result<bool, StepError>)
        requires
            instance.wf(),
            sound(&old(state).solution, instance),
            sound(&old(state).new_solution, instance),
            old(state).num_stagnation < i32::MAX,
            old(context).wf(),
            old(cache_map).wf(instance.num_customers as int),
            old(rule).ready(),
            inter_operators@.len() <= i32::MAX,
            intra_operators@.len() <= i32::MAX,
        ensures
            sound(&final(state).solution, instance),
            sound(&final(state).new_solution, instance),
            final(context).wf(),
            final(cache_map).wf(instance.num_customers as int),
            final(rule).ready(),
            r matches Ok(improved) ==> stepped(*old(state), *final(state), instance, improved),
            r matches Ok(improved) ==> old(rule).decision_stated() ==> exists|cand: AlkaidSolution, seed: RandomState|
                step_done(*old(state), *final(state), cand, instance, improved) && accepted_as(
                    *old(state),
                    *final(state),
                    cand,
                    instance,
                    #[trigger] old(rule).accepts(old(state).objective as int, cand.objective(instance), seed),
                ),
            r is Err ==> same_solution(final(state).solution, old(state).solution) && final(state).objective
                == old(state).objective && final(state).best_objective == old(state).best_objective
                && same_solution(final(state).best_solution, old(state).best_solution),
    {
        let ghost s0 = *state;
        context.calc_route_context(&state.new_solution);
        let n = context.num_routes();
        if n == i16::MAX {
            return Err(StepError::TooManyRoutes);
        }
        let mut i: Node = 0;
        while i < n
            invariant
                instance.wf(),
                sound(&state.new_solution, instance),
                context.fits(&state.new_solution),
                context.pre_loads().len() >= state.new_solution.nodes().len(),
                context.routes().len() == n,
                n < i16::MAX,
                0 <= i <= n,
                intra_operators@.len() <= i32::MAX,
                same_solution(state.solution, s0.solution),
                state.objective == s0.objective,
                state.best_objective == s0.best_objective,
                same_solution(state.best_solution, s0.best_solution),
                state.iter_best_objective == s0.iter_best_objective,
                state.num_stagnation == s0.num_stagnation,
                forall|c: int| #[trigger] delivered(&state.new_solution, c) == delivered(&s0.new_solution, c),
            decreases n - i,
        {
            Self::intra_route_search(instance, intra_operators, i, &mut state.new_solution, context, random);
            i = i + 1;
        }
        Self::randomized_variable_neighborhood_descent(
            instance,
            inter_operators,
            intra_operators,
            &mut state.new_solution,
            context,
            random,
            cache_map,
        );
        let ghost cand = state.new_solution;
        let new_objective = match state.new_solution.calc_objective_checked(instance) {
            Some(v) => v,
            None => {
                state.new_solution = state.solution.duplicate();
                return Err(StepError::ObjectiveOverflow);
            },
        };
        if new_objective < state.iter_best_objective {
            state.num_stagnation = 0;
            state.iter_best_objective = new_objective;
        } else {
            state.num_stagnation = state.num_stagnation + 1;
        }
        let improved = new_objective < state.best_objective;
        if improved {
            state.best_objective = new_objective;
            state.best_solution = state.new_solution.duplicate();
        }
        let ghost seed = random.spec_state();
        if rule.accept(state.objective, new_objective, random) {
            state.objective = new_objective;
            state.solution = state.new_solution.duplicate();
        } else {
            state.new_solution = state.solution.duplicate();
        }
        proof {
            assert(s0 == *old(state));
            assert(step_done(*old(state), *state, cand, instance, improved));
            assert(stepped(*old(state), *state, instance, improved));
            if old(rule).decision_stated() {
                assert(accepted_as(*old(state), *state, cand, instance, old(rule).accepts(old(state).objective as int, cand.objective(instance), seed)));
            }
        }
        Ok(improved)
    }
}

} // verus!
