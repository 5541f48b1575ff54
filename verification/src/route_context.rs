//! Per-route bookkeeping: head, tail and total load of each route, and the
//! cumulative load up to each slot.
use vstd::prelude::*;
use crate::instance::Node;
use crate::solution::{AlkaidSolution, NodeData, succ_of, pred_of, load_of, walk, walk_load, route_length, is_route, route_len_is};

verus! {

/// Bookkeeping of one route.
#[derive(Debug, Clone, Copy)]
pub struct RouteData {
    /// First slot of the route (0: empty route).
    pub head: Node,
    /// Last slot of the route.
    pub tail: Node,
    /// Total load of the route.
    pub load: i32,
}

/// `routes` with the head of route `r` set to `h`.
pub open spec fn with_head(routes: Seq<RouteData>, r: int, h: Node) -> Seq<RouteData> {
    routes.update(r, RouteData { head: h, ..routes[r] })
}

/// `x` is representable as an `i32`.
pub open spec fn fits_i32(x: int) -> bool {
    i32::MIN <= x <= i32::MAX
}

/// Every cumulative load along the first `m` slots of the walk from
/// `start`, offset by `base`, is representable as an `i32`.
pub open spec fn walk_fits(d: Seq<NodeData>, start: int, base: int, m: nat) -> bool {
    forall|k: nat| k <= m ==> fits_i32(base + #[trigger] walk_load(d, start, k))
}

/// `x` is one of the slots of the route starting at `start`.
pub open spec fn on_route(d: Seq<NodeData>, start: int, x: int) -> bool {
    exists|k: nat| k < route_length(d, start) && walk(d, start, k) == x
}

/// Cumulative loads `pre` are exact along the route from `start`: each
/// slot holds `base` plus the loads of the slots before it.
pub open spec fn prefix_loads_ok(pre: Seq<i32>, d: Seq<NodeData>, start: int, base: int) -> bool {
    forall|k: nat| k < route_length(d, start) ==> #[trigger] pre[walk(d, start, k)] == base + walk_load(d, start, k)
}

/// The load of the route up to and including slot `x`, by the cumulative
/// loads `pre` (0 at the depot).
pub open spec fn load_through(pre: Seq<i32>, d: Seq<NodeData>, x: int) -> int {
    if x == 0 {
        0
    } else {
        pre[x] + load_of(d, x)
    }
}

/// `pre` extended with zeros to at least `n` entries.
pub open spec fn grown(pre: Seq<i32>, n: int) -> Seq<i32> {
    if pre.len() >= n {
        pre
    } else {
        pre + Seq::new((n - pre.len()) as nat, |i: int| 0i32)
    }
}

/// Route bookkeeping for a solution.
#[derive(Debug, Clone)]
pub struct RouteContext {
    routes: Vec<RouteData>,
    pre_loads: Vec<i32>,
}

impl RouteContext {
    /// Bookkeeping of each route.
    pub closed spec fn routes(&self) -> Seq<RouteData> {
        self.routes@
    }

    /// Cumulative load before each slot on its route.
    pub closed spec fn pre_loads(&self) -> Seq<i32> {
        self.pre_loads@
    }

    /// Head of route `r`.
    pub open spec fn head_of(&self, r: int) -> int {
        self.routes()[r].head as int
    }

    /// Invariant: the route count fits a `Node`, and the depot's cumulative
    /// load is 0.
    pub open spec fn wf(&self) -> bool {
        &&& self.routes().len() <= i16::MAX
        &&& self.pre_loads().len() > 0 ==> self.pre_loads()[0] == 0
    }

    /// The bookkeeping refers to slots of `sol`.
    pub open spec fn fits(&self, sol: &AlkaidSolution) -> bool {
        &&& self.wf()
        &&& forall|r: int|
            0 <= r < self.routes().len() ==> sol.is_slot((#[trigger] self.routes()[r]).head as int)
                && sol.is_slot(self.routes()[r].tail as int)
    }

    /// First slot updated by `update_route_context(sol, r, predecessor)`.
    pub open spec fn start_of(&self, d: Seq<NodeData>, r: int, predecessor: int) -> int {
        if predecessor != 0 {
            succ_of(d, predecessor)
        } else {
            self.head_of(r)
        }
    }

    /// Creates an empty context.
    pub fn new() -> (r: Self)
        ensures
            r.wf(),
            r.routes() == Seq::<RouteData>::empty(),
            r.pre_loads() == Seq::<i32>::empty(),
    {
        RouteContext { routes: Vec::new(), pre_loads: Vec::new() }
    }

    /// Head slot of a route.
    pub fn head(&self, route_index: Node) -> (r: Node)
        requires
            0 <= route_index < self.routes().len(),
        ensures
            r == self.routes()[route_index as int].head,
    {
        self.routes[route_index as usize].head
    }

    /// Tail slot of a route.
    pub fn tail(&self, route_index: Node) -> (r: Node)
        requires
            0 <= route_index < self.routes().len(),
        ensures
            r == self.routes()[route_index as int].tail,
    {
        self.routes[route_index as usize].tail
    }

    /// Total load of a route.
    pub fn load(&self, route_index: Node) -> (r: i32)
        requires
            0 <= route_index < self.routes().len(),
        ensures
            r == self.routes()[route_index as int].load,
    {
        self.routes[route_index as usize].load
    }

    /// Cumulative load of the route before a slot.
    pub fn pre_load(&self, node_index: Node) -> (r: i32)
        requires
            0 <= node_index < self.pre_loads().len(),
        ensures
            r == self.pre_loads()[node_index as int],
    {
        self.pre_loads[node_index as usize]
    }

    /// Sets the head of a route.
    pub fn set_head(&mut self, route_index: Node, head: Node)
        requires
            0 <= route_index < old(self).routes().len(),
        ensures
            final(self).routes() == old(self).routes().update(
                route_index as int,
                RouteData { head, ..old(self).routes()[route_index as int] },
            ),
            final(self).pre_loads() == old(self).pre_loads(),
    {
        let i = route_index as usize;
        let rd = self.routes[i];
        self.routes.set(i, RouteData { head, ..rd });
    }

    /// Adds `load` to the total load of a route.
    pub fn add_load(&mut self, route_index: Node, load: i32)
        requires
            0 <= route_index < old(self).routes().len(),
            fits_i32(old(self).routes()[route_index as int].load + load),
        ensures
            final(self).routes() == old(self).routes().update(
                route_index as int,
                RouteData {
                    load: (old(self).routes()[route_index as int].load + load) as i32,
                    ..old(self).routes()[route_index as int]
                },
            ),
            final(self).pre_loads() == old(self).pre_loads(),
    {
        let i = route_index as usize;
        let rd = self.routes[i];
        self.routes.set(i, RouteData { load: rd.load + load, ..rd });
    }

    /// Extends the cumulative loads with zeros so that every slot of
    /// `solution` has one.
    pub fn cover_slots(&mut self, solution: &AlkaidSolution)
        requires
            old(self).wf(),
            solution.wf(),
        ensures
            final(self).wf(),
            final(self).routes() == old(self).routes(),
            final(self).pre_loads() == grown(old(self).pre_loads(), solution.nodes().len() as int),
            final(self).pre_loads().len() >= solution.nodes().len(),
    {
        let required = solution.node_data_len();
        if self.pre_loads.len() < required {
            self.pre_loads.resize(required, 0);
        }
        assert(self.pre_loads() =~= grown(old(self).pre_loads(), solution.nodes().len() as int));
    }

    /// Number of routes.
    pub fn num_routes(&self) -> (r: Node)
        requires
            self.wf(),
        ensures
            r == self.routes().len(),
    {
        self.routes.len() as Node
    }

    /// Truncates the route list to `num_routes` routes, or extends it with
    /// empty routes.
    pub fn set_num_routes(&mut self, num_routes: Node)
        requires
            0 <= num_routes,
        ensures
            final(self).routes().len() == num_routes,
            old(self).wf() ==> final(self).wf(),
            forall|r: int|
                0 <= r < num_routes && r < old(self).routes().len() ==> #[trigger] final(self).routes()[r]
                    == old(self).routes()[r],
            forall|r: int|
                old(self).routes().len() <= r < num_routes ==> #[trigger] final(self).routes()[r]
                    == (RouteData { head: 0, tail: 0, load: 0 }),
            final(self).pre_loads() == old(self).pre_loads(),
    {
        self.routes.resize(num_routes as usize, RouteData { head: 0, tail: 0, load: 0 });
    }

    /// Appends a route.
    pub fn add_route(&mut self, head: Node, tail: Node, load: i32)
        requires
            old(self).routes().len() < i16::MAX,
        ensures
            final(self).routes() == old(self).routes().push(RouteData { head, tail, load }),
            final(self).pre_loads() == old(self).pre_loads(),
    {
        self.routes.push(RouteData { head, tail, load });
    }

    /// Copies the bookkeeping of route `src_route_index` to
    /// `dest_route_index`.
    pub fn move_route_context(&mut self, dest_route_index: Node, src_route_index: Node)
        requires
            0 <= dest_route_index < old(self).routes().len(),
            0 <= src_route_index < old(self).routes().len(),
        ensures
            final(self).routes() == old(self).routes().update(
                dest_route_index as int,
                old(self).routes()[src_route_index as int],
            ),
            final(self).pre_loads() == old(self).pre_loads(),
    {
        let rd = self.routes[src_route_index as usize];
        self.routes.set(dest_route_index as usize, rd);
    }

    /// Rebuilds the bookkeeping from scratch: one route per slot whose
    /// predecessor is the depot (in the order of the used slots), each with
    /// its tail, total load and cumulative loads.
    pub fn calc_route_context(&mut self, solution: &AlkaidSolution)
        requires
            old(self).wf(),
            solution.wf(),
        ensures
            final(self).fits(solution),
            final(self).routes().len() == solution.heads_of().len(),
            final(self).pre_loads().len() >= solution.nodes().len(),
            forall|r: int|
                0 <= r < final(self).routes().len() ==> #[trigger] final(self).routes()[r].head
                    == solution.heads_of()[r],
            forall|r: int|
                0 <= r < final(self).routes().len() && is_route(solution.nodes(), solution.heads_of()[r] as int)
                    && walk_fits(solution.nodes(), solution.heads_of()[r] as int, 0, route_length(solution.nodes(), solution.heads_of()[r] as int)) ==> {
                    let d = solution.nodes();
                    let h = solution.heads_of()[r] as int;
                    let n = route_length(d, h);
                    &&& #[trigger] final(self).routes()[r].load == walk_load(d, h, n)
                    &&& final(self).routes()[r].tail == if n == 0 { 0 } else { walk(d, h, (n - 1) as nat) }
                },
            routes_ok(solution.nodes(), solution.heads_of()) && routes_disjoint(solution.nodes(), solution.heads_of())
                ==> forall|r: int|
                0 <= r < final(self).routes().len() ==> prefix_loads_ok(
                    final(self).pre_loads(),
                    solution.nodes(),
                    #[trigger] solution.heads_of()[r] as int,
                    0,
                ),
    {
        let heads = solution.route_heads();
        let ghost d = solution.nodes();
        let ghost hs = heads@;
        self.routes.clear();
        let mut i: usize = 0;
        proof {
            let pick = |n: Node| pred_of(d, n as int) == 0;
            assert(solution.heads_of().len() <= solution.used().len()) by {
                solution.used().lemma_filter_len(pick);
            }
            assert forall|r: int| 0 <= r < hs.len() implies solution.is_slot(#[trigger] hs[r] as int) by {
                assert(hs.contains(hs[r]));
                solution.used().lemma_filter_contains_rev(pick, hs[r]);
                let k = choose|k: int| 0 <= k < solution.used().len() && solution.used()[k] == hs[r];
            }
        }
        while i < heads.len()
            invariant
                solution.wf(),
                d == solution.nodes(),
                hs == heads@,
                hs == solution.heads_of(),
                hs.len() <= i16::MAX,
                forall|r: int| 0 <= r < hs.len() ==> solution.is_slot(#[trigger] hs[r] as int),
                i <= hs.len(),
                self.routes().len() == i,
                self.wf(),
                forall|r: int| 0 <= r < i ==> #[trigger] self.routes()[r] == (RouteData { head: hs[r], tail: hs[r], load: 0 }),
            decreases hs.len() - i,
        {
            let h = heads[i];
            self.routes.push(RouteData { head: h, tail: h, load: 0 });
            i = i + 1;
        }
        let required = solution.node_data_len();
        if self.pre_loads.len() < required {
            self.pre_loads.resize(required, 0);
        }
        let num_routes = self.num_routes();
        let mut route_index: Node = 0;
        while route_index < num_routes
            invariant
                solution.wf(),
                d == solution.nodes(),
                hs == solution.heads_of(),
                forall|r: int| 0 <= r < hs.len() ==> solution.is_slot(#[trigger] hs[r] as int),
                num_routes == hs.len(),
                0 <= route_index <= num_routes,
                self.wf(),
                self.routes().len() == hs.len(),
                self.pre_loads().len() >= d.len(),
                forall|r: int| 0 <= r < hs.len() ==> (#[trigger] self.routes()[r]).head == hs[r],
                forall|r: int| 0 <= r < hs.len() ==> solution.is_slot((#[trigger] self.routes()[r]).tail as int),
                forall|r: int|
                    0 <= r < route_index && is_route(d, hs[r] as int) && walk_fits(d, hs[r] as int, 0, route_length(d, hs[r] as int)) ==> {
                        let h = hs[r] as int;
                        let n = route_length(d, h);
                        &&& #[trigger] self.routes()[r].load == walk_load(d, h, n)
                        &&& self.routes()[r].tail == if n == 0 { 0 } else { walk(d, h, (n - 1) as nat) }
                    },
                routes_ok(d, hs) && routes_disjoint(d, hs) ==> forall|r: int|
                    0 <= r < route_index ==> prefix_loads_ok(self.pre_loads(), d, #[trigger] hs[r] as int, 0),
            decreases num_routes - route_index,
        {
            let ghost before = self.pre_loads();
            let ghost routes_before = self.routes();
            self.update_route_context(solution, route_index, 0);
            proof {
                let ri = route_index as int;
                assert(grown(before, d.len() as int) =~= before);
                assert(before[0] == 0);
                assert(routes_before[ri].head == hs[ri]);
                if routes_ok(d, hs) && routes_disjoint(d, hs) {
                    assert(is_route(d, hs[ri] as int));
                    assert forall|r: int| 0 <= r < route_index + 1 implies prefix_loads_ok(self.pre_loads(), d, #[trigger] hs[r] as int, 0) by {
                        if r < ri {
                            assert(prefix_loads_ok(before, d, hs[r] as int, 0));
                            assert forall|k: nat| k < route_length(d, hs[r] as int) implies #[trigger] self.pre_loads()[walk(d, hs[r] as int, k)] == 0 + walk_load(d, hs[r] as int, k) by {
                                let x = walk(d, hs[r] as int, k);
                                assert(on_route(d, hs[r] as int, x));
                                assert(!on_route(d, hs[ri] as int, x));
                                lemma_walk_in_range(d, hs[r] as int, k);
                            }
                        }
                    }
                }
            }
            route_index = route_index + 1;
        }
    }

    /// Recomputes the cumulative loads from `predecessor` (the route's head
    /// when `predecessor` is 0) to the end of route `route_index`, and the
    /// route's tail and total load. The cumulative load of `predecessor` is
    /// the starting value; the pool of cumulative loads grows to cover all
    /// slots of `solution`. The walk stops at the depot, or after as many
    /// steps as there are slots.
    pub fn update_route_context(&mut self, solution: &AlkaidSolution, route_index: Node, predecessor: Node)
        requires
            old(self).wf(),
            solution.wf(),
            0 <= route_index < old(self).routes().len(),
            solution.is_slot(predecessor as int),
            solution.is_slot(old(self).head_of(route_index as int)),
        ensures
            final(self).wf(),
            final(self).routes().len() == old(self).routes().len(),
            forall|q: int|
                0 <= q < old(self).routes().len() && q != route_index ==> #[trigger] final(self).routes()[q]
                    == old(self).routes()[q],
            final(self).routes()[route_index as int].head == old(self).routes()[route_index as int].head,
            solution.is_slot(final(self).routes()[route_index as int].tail as int),
            final(self).pre_loads().len() == grown(old(self).pre_loads(), solution.nodes().len() as int).len(),
            ({
                let d = solution.nodes();
                let pre0 = grown(old(self).pre_loads(), d.len() as int);
                let start = old(self).start_of(d, route_index as int, predecessor as int);
                let base = load_through(pre0, d, predecessor as int);
                let n = route_length(d, start);
                is_route(d, start) && walk_fits(d, start, base, n) ==> {
                    &&& final(self).routes()[route_index as int].load == base + walk_load(d, start, n)
                    &&& final(self).routes()[route_index as int].tail == if n == 0 {
                        predecessor as int
                    } else {
                        walk(d, start, (n - 1) as nat)
                    }
                    &&& prefix_loads_ok(final(self).pre_loads(), d, start, base)
                    &&& forall|x: int|
                        0 <= x < pre0.len() && !on_route(d, start, x) ==> #[trigger] final(self).pre_loads()[x]
                            == pre0[x]
                }
            }),
    {
        let ghost d = solution.nodes();
        self.cover_slots(solution);
        let ghost pre0 = self.pre_loads();
        assert(pre0 =~= grown(old(self).pre_loads(), d.len() as int));
        let ghost start = old(self).start_of(d, route_index as int, predecessor as int);
        let mut load: i64 = if predecessor != 0 {
            self.pre_loads[predecessor as usize] as i64 + solution.load(predecessor) as i64
        } else {
            0
        };
        let ghost base = load as int;
        assert(base == load_through(pre0, d, predecessor as int));
        let mut node_index = if predecessor != 0 {
            solution.successor(predecessor)
        } else {
            self.head(route_index)
        };
        let ghost n = route_length(d, start);
        let ghost good = is_route(d, start) && walk_fits(d, start, base, n);
        let mut last_node = predecessor;
        let mut steps: usize = 0;
        let len = solution.node_data_len();
        while node_index != 0 && steps < len
            invariant
                solution.wf(),
                d == solution.nodes(),
                len == d.len(),
                len <= max_slots_bound(),
                self.wf(),
                self.routes() == old(self).routes(),
                self.pre_loads().len() == pre0.len(),
                pre0.len() >= d.len(),
                pre0.len() > 0 ==> pre0[0] == 0,
                0 <= route_index < self.routes().len(),
                solution.is_slot(node_index as int),
                solution.is_slot(last_node as int),
                node_index == walk(d, start, steps as nat),
                steps <= len,
                forall|k: nat| k < steps ==> walk(d, start, k) != 0,
                steps > 0 ==> last_node == walk(d, start, (steps - 1) as nat),
                steps == 0 ==> last_node == predecessor,
                load == base + walk_load(d, start, steps as nat),
                -0x8000_0000 - (steps as int + 1) * 0x8000_0000 <= load <= 0x8000_0000 + (steps as int + 1) * 0x8000_0000,
                good ==> steps <= n,
                good ==> route_len_is(d, start, n) && n < d.len(),
                good ==> walk_fits(d, start, base, n),
                forall|m: int| 0 <= m < d.len() ==> 0 <= (#[trigger] d[m]).successor < d.len(),
                0 <= start < d.len(),
                good ==> forall|k: nat|
                    k < steps ==> #[trigger] self.pre_loads()[walk(d, start, k)] == base + walk_load(d, start, k),
                good ==> forall|x: int|
                    0 <= x < pre0.len() && (forall|k: nat| k < steps ==> walk(d, start, k) != x) ==> #[trigger] self.pre_loads()[x] == pre0[x],
            decreases len - steps,
        {
            let node_load = solution.load(node_index);
            proof {
                if good {
                    assert(steps < n) by {
                        if steps == n {
                            assert(walk(d, start, n) == 0);
                        }
                    }
                    assert(walk_fits(d, start, base, n));
                    assert(fits_i32(base + walk_load(d, start, steps as nat)));
                }
            }
            let stored = #[verifier::truncate] (load as i32);
            assert(good ==> stored == load);
            let ghost before = self.pre_loads();
            self.pre_loads.set(node_index as usize, stored);
            load = load + node_load as i64;
            assert(load == base + walk_load(d, start, (steps + 1) as nat));
            proof {
                if good {
                    assert forall|k: nat| k < steps + 1 implies #[trigger] self.pre_loads()[walk(d, start, k)] == base + walk_load(d, start, k) by {
                        lemma_walk_in_range(d, start, k);
                        if k < steps {
                            lemma_walk_distinct(d, start, n, k, steps as nat);
                            assert(before[walk(d, start, k)] == base + walk_load(d, start, k));
                        } else {
                            assert(k == steps);
                        }
                    }
                    assert forall|x: int|
                        0 <= x < pre0.len() && (forall|k: nat| k < steps + 1 ==> walk(d, start, k) != x) implies #[trigger] self.pre_loads()[x] == pre0[x] by {
                        assert(walk(d, start, steps as nat) != x);
                    }
                }
            }
            last_node = node_index;
            node_index = solution.successor(node_index);
            steps = steps + 1;
        }
        proof {
            if good {
                if node_index != 0 {
                    assert(steps == len);
                    assert(walk(d, start, n) == 0);
                }
                assert(steps == n);
                assert forall|x: int|
                    0 <= x < pre0.len() && !on_route(d, start, x) implies #[trigger] self.pre_loads()[x] == pre0[x] by {
                    assert forall|k: nat| k < steps implies walk(d, start, k) != x by {
                        if walk(d, start, k) == x {
                            assert(on_route(d, start, x));
                        }
                    }
                }
                assert(fits_i32(base + walk_load(d, start, n)));
            }
        }
        let i = route_index as usize;
        let rd = self.routes[i];
        let total = #[verifier::truncate] (load as i32);
        self.routes.set(i, RouteData { tail: last_node, load: total, ..rd });
    }
}

/// Every slot on a walk from a slot is a slot.
pub proof fn lemma_walk_in_range(d: Seq<NodeData>, start: int, k: nat)
    requires
        0 <= start < d.len(),
        forall|n: int| 0 <= n < d.len() ==> 0 <= (#[trigger] d[n]).successor < d.len(),
    ensures
        0 <= walk(d, start, k) < d.len(),
    decreases k,
{
    if k > 0 {
        lemma_walk_in_range(d, start, (k - 1) as nat);
    }
}

/// Each of `heads` starts a route whose cumulative loads fit an `i32`.
pub open spec fn routes_ok(d: Seq<NodeData>, heads: Seq<Node>) -> bool {
    forall|r: int|
        0 <= r < heads.len() ==> is_route(d, #[trigger] heads[r] as int) && walk_fits(
            d,
            heads[r] as int,
            0,
            route_length(d, heads[r] as int),
        )
}

/// The routes starting at `heads` share no slot.
pub open spec fn routes_disjoint(d: Seq<NodeData>, heads: Seq<Node>) -> bool {
    forall|r1: int, r2: int, x: int|
        0 <= r1 < heads.len() && 0 <= r2 < heads.len() && r1 != r2 && #[trigger] on_route(d, heads[r1] as int, x)
            ==> !#[trigger] on_route(d, heads[r2] as int, x)
}

/// Largest number of slots (as a plain bound for loop invariants).
pub open spec fn max_slots_bound() -> int {
    32768
}

/// Slots of a route are distinct.
pub proof fn lemma_walk_distinct(d: Seq<NodeData>, start: int, n: nat, i: nat, j: nat)
    requires
        route_len_is(d, start, n),
        i < j < n,
    ensures
        walk(d, start, i) != walk(d, start, j),
{
    if walk(d, start, i) == walk(d, start, j) {
        lemma_walk_shift(d, start, i, j, (n - j) as nat);
        assert(walk(d, start, (i + (n - j)) as nat) == walk(d, start, n));
        assert(walk(d, start, (i + (n - j)) as nat) != 0);
    }
}

/// Equal slots along a walk stay equal after the same number of steps.
pub proof fn lemma_walk_shift(d: Seq<NodeData>, start: int, i: nat, j: nat, t: nat)
    requires
        walk(d, start, i) == walk(d, start, j),
    ensures
        walk(d, start, i + t) == walk(d, start, j + t),
    decreases t,
{
    if t > 0 {
        lemma_walk_shift(d, start, i, j, (t - 1) as nat);
        assert(walk(d, start, i + t) == succ_of(d, walk(d, start, (i + t - 1) as nat)));
        assert(walk(d, start, j + t) == succ_of(d, walk(d, start, (j + t - 1) as nat)));
    }
}

} // verus!
