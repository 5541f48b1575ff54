//! Moves between two routes, with cached evaluations.
use vstd::prelude::*;
use crate::instance::{Instance, Node, MAX_DISTANCE};
use crate::random::Random;
use crate::route_context::RouteContext;
use crate::solution::{AlkaidSolution, NodeData, cust_of, walk, is_route, route_length, with_succ};
use crate::chain::{cust_load, cust_loads};

pub mod base_cache;
pub mod base_star;
pub mod swap;
pub mod cross;
pub mod swap_star;
pub mod sd_swap_two_one;
pub mod sd_swap_one_one;
pub mod sd_swap_star;

use base_cache::{
    InterRouteCache, cache_fits, cache_fits_live, all_fit, all_fit_live, all_fresh, all_wf, reset_all, take_from, put_into,
};
use base_star::{StarCaches, rows_moved, walk_slots};
use swap::{SwapMove, swap_slots};
use cross::{CrossMove, cross_slots};
use swap_star::{NodePairMove, pair_slots};
use sd_swap_two_one::{SdSwapTwoOneMove, two_one_slots};

verus! {

/// Relinking keeps the slots' customers and loads and the used and free
/// slots.
pub open spec fn same_content(a: &AlkaidSolution, b: &AlkaidSolution) -> bool {
    &&& b.nodes().len() == a.nodes().len()
    &&& forall|n: int|
        0 <= n < a.nodes().len() ==> (#[trigger] b.nodes()[n]).customer == a.nodes()[n].customer && b.nodes()[n].load
            == a.nodes()[n].load
    &&& b.used() == a.used()
    &&& b.unused() == a.unused()
}

/// Relinking a valid solution leaves it valid.
pub proof fn lemma_same_content_valid(a: &AlkaidSolution, b: &AlkaidSolution, inst: &Instance)
    requires
        a.valid_for(inst),
        b.wf(),
        same_content(a, b),
    ensures
        b.valid_for(inst),
{
    assert forall|n: int| 0 <= n < b.nodes().len() implies inst.is_node((#[trigger] b.nodes()[n]).customer as int) by {
        assert(b.nodes()[n].customer == a.nodes()[n].customer);
    }
}

/// Cost change of putting slot `node_index` between `predecessor` and
/// `successor`.
pub open spec fn insertion_delta_of(sol: &AlkaidSolution, inst: &Instance, n: int, p: int, s: int) -> int {
    let d = sol.nodes();
    inst.dist(cust_of(d, n), cust_of(d, p)) + inst.dist(cust_of(d, n), cust_of(d, s)) - inst.dist(cust_of(d, p), cust_of(d, s))
}

/// The cost change of an insertion between slots is within three times
/// the largest travel cost.
pub proof fn lemma_insertion_delta_bound(sol: &AlkaidSolution, inst: &Instance, n: int, p: int, s: int)
    requires
        inst.wf(),
        sol.valid_for(inst),
        0 <= n < sol.nodes().len(),
        0 <= p < sol.nodes().len(),
        0 <= s < sol.nodes().len(),
    ensures
        -3 * MAX_DISTANCE <= insertion_delta_of(sol, inst, n, p, s) <= 3 * MAX_DISTANCE,
{
    let d = sol.nodes();
    assert(inst.is_node(d[n].customer as int));
    assert(inst.is_node(d[p].customer as int));
    assert(inst.is_node(d[s].customer as int));
    assert(-MAX_DISTANCE <= inst.dist(cust_of(d, n), cust_of(d, p)) <= MAX_DISTANCE);
    assert(-MAX_DISTANCE <= inst.dist(cust_of(d, n), cust_of(d, s)) <= MAX_DISTANCE);
    assert(-MAX_DISTANCE <= inst.dist(cust_of(d, p), cust_of(d, s)) <= MAX_DISTANCE);
}

/// Cost change of putting slot `node_index` between `predecessor` and
/// `successor`.
pub fn calc_delta(instance: &Instance, solution: &AlkaidSolution, node_index: Node, predecessor: Node, successor: Node) -> (r: i32)
    requires
        instance.wf(),
        solution.valid_for(instance),
        solution.is_slot(node_index as int),
        solution.is_slot(predecessor as int),
        solution.is_slot(successor as int),
    ensures
        r == insertion_delta_of(solution, instance, node_index as int, predecessor as int, successor as int),
        -3 * MAX_DISTANCE <= r <= 3 * MAX_DISTANCE,
{
    proof {
        lemma_insertion_delta_bound(solution, instance, node_index as int, predecessor as int, successor as int);
    }
    let c = solution.customer(node_index);
    let cp = solution.customer(predecessor);
    let cs = solution.customer(successor);
    instance.distance(c, cp) + instance.distance(c, cs) - instance.distance(cp, cs)
}


/// The move slots are below `n`.
pub open spec fn swap_slots_below(n: int) -> spec_fn(SwapMove) -> bool {
    |m: SwapMove| swap_slots(m, n)
}

/// The move slots are below `n`.
pub open spec fn cross_slots_below(n: int) -> spec_fn(CrossMove) -> bool {
    |m: CrossMove| cross_slots(m, n)
}

/// The move slots are below `n`.
pub open spec fn pair_slots_below(n: int) -> spec_fn(NodePairMove) -> bool {
    |m: NodePairMove| pair_slots(m, n)
}

/// The move slots are below `n`.
pub open spec fn two_one_slots_below(n: int) -> spec_fn(SdSwapTwoOneMove) -> bool {
    |m: SdSwapTwoOneMove| two_one_slots(m, n)
}

/// A segment-exchange cache fit for routes `0..num_routes` and the slots
/// of a pool of `num_slots`.
pub open spec fn swap_cache_fits(c: InterRouteCache<SwapMove>, num_routes: int, num_slots: int) -> bool {
    cache_fits(c, num_routes, swap_slots_below(num_slots), swap_slots_below(1))
}

/// A tail-exchange cache fit for routes `0..num_routes` and the slots of a
/// pool of `num_slots`.
pub open spec fn cross_cache_fits(c: InterRouteCache<CrossMove>, num_routes: int, num_slots: int) -> bool {
    cache_fits(c, num_routes, cross_slots_below(num_slots), cross_slots_below(1))
}

/// A node-pair cache fit for routes `0..num_routes` and the slots of a
/// pool of `num_slots`.
pub open spec fn pair_cache_fits(c: InterRouteCache<NodePairMove>, num_routes: int, num_slots: int) -> bool {
    cache_fits(c, num_routes, pair_slots_below(num_slots), pair_slots_below(1))
}

/// A pair-against-node cache fit for routes `0..num_routes` and the slots
/// of a pool of `num_slots`.
pub open spec fn two_one_cache_fits(c: InterRouteCache<SdSwapTwoOneMove>, num_routes: int, num_slots: int) -> bool {
    cache_fits(c, num_routes, two_one_slots_below(num_slots), two_one_slots_below(1))
}

/// Cache `b` is cache `a` with a matrix index given to route
/// `route_index`: a free index is reused, or the matrix grows by one; the
/// other routes keep theirs.
pub open spec fn route_added<T: Copy>(a: InterRouteCache<T>, b: InterRouteCache<T>, route_index: int) -> bool {
    &&& b.mapped() >= a.mapped()
    &&& a.free().len() > 0 ==> b.size() == a.size() && b.free().len() == a.free().len() - 1
    &&& a.free().len() == 0 ==> b.size() == a.size() + 1 && b.free().len() == 0
    &&& forall|r: int| 0 <= r < a.mapped() && r != route_index ==> #[trigger] b.index_of(r) == a.index_of(r)
}

/// Cache `b` is cache `a` with route `dest` given the matrix index of
/// route `src`; nothing else of the mapping changes.
pub open spec fn route_moved<T: Copy>(a: InterRouteCache<T>, b: InterRouteCache<T>, dest: int, src: int) -> bool {
    &&& b.mapped() == a.mapped()
    &&& b.size() == a.size()
    &&& b.free() == a.free()
    &&& b.index_of(dest) == a.index_of(src)
    &&& forall|r: int| 0 <= r < a.mapped() && r != dest ==> #[trigger] b.index_of(r) == a.index_of(r)
}

/// Every cache of `b` is the cache of `a` at its place with route `dest`
/// given the matrix index of route `src`.
pub open spec fn all_moved<T: Copy>(a: Seq<InterRouteCache<T>>, b: Seq<InterRouteCache<T>>, dest: int, src: int) -> bool {
    &&& b.len() == a.len()
    &&& forall|k: int| 0 <= k < a.len() ==> #[trigger] route_moved(a[k], b[k], dest, src)
}

/// Gives route `route_index` a matrix index in every cache of `v`.
fn add_route_all<T: Copy>(
    v: &mut Vec<InterRouteCache<T>>,
    route_index: Node,
    Ghost(p): Ghost<spec_fn(T) -> bool>,
    Ghost(unit): Ghost<spec_fn(T) -> bool>,
    Ghost(n): Ghost<int>,
    Ghost(live): Ghost<int>,
)
    requires
        all_fit_live(old(v)@, n, live, p, unit),
        0 <= route_index < n,
        live < i16::MAX,
        forall|m: T| #[trigger] unit(m) ==> p(m),
    ensures
        all_fit_live(final(v)@, n, live + 1, p, unit),
        final(v)@.len() == old(v)@.len(),
        forall|k: int| 0 <= k < old(v)@.len() ==> #[trigger] route_added(old(v)@[k], final(v)@[k], route_index as int),
{
    let mut i: usize = 0;
    while i < v.len()
        invariant
            0 <= route_index < n,
            live < i16::MAX,
            0 <= i <= v@.len(),
            v@.len() == old(v)@.len(),
            all_fit_live(old(v)@, n, live, p, unit),
            forall|m: T| #[trigger] unit(m) ==> p(m),
            forall|k: int| 0 <= k < i ==> cache_fits_live(#[trigger] v@[k], n, live + 1, p, unit),
            forall|k: int| 0 <= k < i ==> #[trigger] route_added(old(v)@[k], v@[k], route_index as int),
            forall|k: int| i <= k < v@.len() ==> #[trigger] v@[k] == old(v)@[k],
        decreases v@.len() - i,
    {
        let ghost v0 = v@;
        let mut c = v.remove(i);
        assert(c == old(v)@[i as int]);
        assert(cache_fits_live(c, n, live, p, unit));
        assert(p(c.empty_move()));
        let ghost c0 = c;
        c.add_route(route_index);
        assert(route_added(c0, c, route_index as int));
        assert(cache_fits_live(c, n, live + 1, p, unit));
        v.insert(i, c);
        proof {
            assert forall|k: int| 0 <= k < i + 1 implies cache_fits_live(#[trigger] v@[k], n, live + 1, p, unit) by {
                if k < i {
                    assert(v@[k] == v0[k]);
                }
            }
            assert forall|k: int| 0 <= k < i + 1 implies #[trigger] route_added(old(v)@[k], v@[k], route_index as int) by {
                if k < i {
                    assert(v@[k] == v0[k]);
                }
            }
            assert forall|k: int| i + 1 <= k < v@.len() implies #[trigger] v@[k] == old(v)@[k] by {
                assert(v@[k] == v0[k]);
            }
        }
        i = i + 1;
    }
}

/// Frees the matrix index of route `route_index` in every cache of `v`.
fn remove_route_all<T: Copy>(
    v: &mut Vec<InterRouteCache<T>>,
    route_index: Node,
    Ghost(p): Ghost<spec_fn(T) -> bool>,
    Ghost(unit): Ghost<spec_fn(T) -> bool>,
    Ghost(n): Ghost<int>,
    Ghost(live): Ghost<int>,
)
    requires
        all_fit_live(old(v)@, n, live, p, unit),
        0 <= route_index < n,
    ensures
        all_fit_live(final(v)@, n, live - 1, p, unit),
        final(v)@.len() == old(v)@.len(),
{
    let mut i: usize = 0;
    while i < v.len()
        invariant
            0 <= route_index < n,
            0 <= i <= v@.len(),
            v@.len() == old(v)@.len(),
            all_fit_live(old(v)@, n, live, p, unit),
            forall|k: int| 0 <= k < i ==> cache_fits_live(#[trigger] v@[k], n, live - 1, p, unit),
            forall|k: int| i <= k < v@.len() ==> #[trigger] v@[k] == old(v)@[k],
        decreases v@.len() - i,
    {
        let ghost v0 = v@;
        let mut c = v.remove(i);
        assert(c == old(v)@[i as int]);
        assert(cache_fits_live(c, n, live, p, unit));
        c.remove_route(route_index);
        v.insert(i, c);
        proof {
            assert forall|k: int| 0 <= k < i + 1 implies cache_fits_live(#[trigger] v@[k], n, live - 1, p, unit) by {
                if k < i {
                    assert(v@[k] == v0[k]);
                }
            }
            assert forall|k: int| i + 1 <= k < v@.len() implies #[trigger] v@[k] == old(v)@[k] by {
                assert(v@[k] == v0[k]);
            }
        }
        i = i + 1;
    }
}

/// Route `dest` takes the matrix index of route `src` in every cache of
/// `v`.
fn move_route_all<T: Copy>(
    v: &mut Vec<InterRouteCache<T>>,
    dest: Node,
    src: Node,
    Ghost(p): Ghost<spec_fn(T) -> bool>,
    Ghost(unit): Ghost<spec_fn(T) -> bool>,
    Ghost(n): Ghost<int>,
    Ghost(live): Ghost<int>,
)
    requires
        all_fit_live(old(v)@, n, live, p, unit),
        0 <= dest < n,
        0 <= src < n,
    ensures
        all_fit_live(final(v)@, n, live, p, unit),
        final(v)@.len() == old(v)@.len(),
        forall|k: int| 0 <= k < old(v)@.len() ==> #[trigger] route_moved(old(v)@[k], final(v)@[k], dest as int, src as int),
{
    let mut i: usize = 0;
    while i < v.len()
        invariant
            forall|k: int| 0 <= k < i ==> #[trigger] route_moved(old(v)@[k], v@[k], dest as int, src as int),
            0 <= dest < n,
            0 <= src < n,
            0 <= i <= v@.len(),
            v@.len() == old(v)@.len(),
            all_fit_live(old(v)@, n, live, p, unit),
            forall|k: int| 0 <= k < i ==> cache_fits_live(#[trigger] v@[k], n, live, p, unit),
            forall|k: int| i <= k < v@.len() ==> #[trigger] v@[k] == old(v)@[k],
        decreases v@.len() - i,
    {
        let ghost v0 = v@;
        let mut c = v.remove(i);
        assert(c == old(v)@[i as int]);
        assert(cache_fits_live(c, n, live, p, unit));
        let ghost c0 = c;
        c.move_route(dest, src);
        assert(route_moved(c0, c, dest as int, src as int));
        v.insert(i, c);
        proof {
            assert forall|k: int| 0 <= k < i + 1 implies cache_fits_live(#[trigger] v@[k], n, live, p, unit) by {
                if k < i {
                    assert(v@[k] == v0[k]);
                }
            }
            assert forall|k: int| 0 <= k < i + 1 implies #[trigger] route_moved(old(v)@[k], v@[k], dest as int, src as int) by {
                if k < i {
                    assert(v@[k] == v0[k]);
                }
            }
            assert forall|k: int| i + 1 <= k < v@.len() implies #[trigger] v@[k] == old(v)@[k] by {
                assert(v@[k] == v0[k]);
            }
        }
        i = i + 1;
    }
}

/// The caches of the operators, kept across calls while routes do not
/// change.
pub struct CacheMap {
    swap_keys: Vec<(usize, usize)>,
    swaps: Vec<InterRouteCache<SwapMove>>,
    crosses: Vec<InterRouteCache<CrossMove>>,
    swap_stars: Vec<InterRouteCache<NodePairMove>>,
    sd_swap_stars: Vec<InterRouteCache<NodePairMove>>,
    sd_one_ones: Vec<InterRouteCache<NodePairMove>>,
    sd_two_ones: Vec<InterRouteCache<SdSwapTwoOneMove>>,
    star: StarCaches,
}

impl CacheMap {
    /// Caches of the segment exchanges.
    pub closed spec fn swap_caches(&self) -> Seq<InterRouteCache<SwapMove>> {
        self.swaps@
    }

    /// Segment lengths of the segment-exchange caches.
    pub closed spec fn swap_keys(&self) -> Seq<(usize, usize)> {
        self.swap_keys@
    }

    /// Caches of the tail exchange.
    pub closed spec fn cross_caches(&self) -> Seq<InterRouteCache<CrossMove>> {
        self.crosses@
    }

    /// Caches of the node exchange with free reinsertion.
    pub closed spec fn swap_star_caches(&self) -> Seq<InterRouteCache<NodePairMove>> {
        self.swap_stars@
    }

    /// Caches of the split node exchange with free reinsertion.
    pub closed spec fn sd_swap_star_caches(&self) -> Seq<InterRouteCache<NodePairMove>> {
        self.sd_swap_stars@
    }

    /// Caches of the split node exchange.
    pub closed spec fn sd_one_one_caches(&self) -> Seq<InterRouteCache<NodePairMove>> {
        self.sd_one_ones@
    }

    /// Caches of the split pair-against-node exchange.
    pub closed spec fn sd_two_one_caches(&self) -> Seq<InterRouteCache<SdSwapTwoOneMove>> {
        self.sd_two_ones@
    }

    /// Cheapest insertion positions.
    pub closed spec fn star(&self) -> StarCaches {
        self.star
    }

    /// Every route-pair cache covers routes `0..num_routes`, has at most
    /// `live` matrix indices in use and holds slots below `num_slots`; the
    /// insertion positions are fine for `num_slots` slots and `nc` nodes.
    pub open spec fn fits_live(&self, num_routes: int, live: int, num_slots: int, nc: int) -> bool {
        &&& self.swap_keys().len() == self.swap_caches().len()
        &&& all_fit_live(self.swap_caches(), num_routes, live, swap_slots_below(num_slots), swap_slots_below(1))
        &&& all_fit_live(self.cross_caches(), num_routes, live, cross_slots_below(num_slots), cross_slots_below(1))
        &&& all_fit_live(self.swap_star_caches(), num_routes, live, pair_slots_below(num_slots), pair_slots_below(1))
        &&& all_fit_live(self.sd_swap_star_caches(), num_routes, live, pair_slots_below(num_slots), pair_slots_below(1))
        &&& all_fit_live(self.sd_one_one_caches(), num_routes, live, pair_slots_below(num_slots), pair_slots_below(1))
        &&& all_fit_live(
            self.sd_two_one_caches(),
            num_routes,
            live,
            two_one_slots_below(num_slots),
            two_one_slots_below(1),
        )
        &&& self.star().ok(num_slots, nc)
    }

    /// Every route-pair cache covers routes `0..num_routes`, with at most
    /// as many matrix indices in use, and holds slots below `num_slots`;
    /// the insertion positions are fine for `num_slots` slots and `nc`
    /// nodes.
    pub open spec fn fits_counts(&self, num_routes: int, num_slots: int, nc: int) -> bool {
        self.fits_live(num_routes, num_routes, num_slots, nc)
    }

    /// Down to `m` routes, with at most `m` indices in use.
    pub proof fn lemma_fits_shrink(&self, n: int, live: int, m: int, len: int, nc: int)
        requires
            self.fits_live(n, live, len, nc),
            0 <= m <= n,
            live <= m,
        ensures
            self.fits_counts(m, len, nc),
    {
        base_cache::lemma_all_fit_shrink(self.swap_caches(), n, live, m, swap_slots_below(len), swap_slots_below(1));
        base_cache::lemma_all_fit_shrink(self.cross_caches(), n, live, m, cross_slots_below(len), cross_slots_below(1));
        base_cache::lemma_all_fit_shrink(self.swap_star_caches(), n, live, m, pair_slots_below(len), pair_slots_below(1));
        base_cache::lemma_all_fit_shrink(self.sd_swap_star_caches(), n, live, m, pair_slots_below(len), pair_slots_below(1));
        base_cache::lemma_all_fit_shrink(self.sd_one_one_caches(), n, live, m, pair_slots_below(len), pair_slots_below(1));
        base_cache::lemma_all_fit_shrink(self.sd_two_one_caches(), n, live, m, two_one_slots_below(len), two_one_slots_below(1));
    }

    /// The caches fit the routes of `ctx`, the slots of `sol` and an
    /// instance of `nc` nodes.
    pub open spec fn fits(&self, sol: &AlkaidSolution, ctx: &RouteContext, nc: int) -> bool {
        self.fits_counts(ctx.routes().len() as int, sol.nodes().len() as int, nc)
    }

    /// Every route-pair cache is fresh for routes `0..n`: no evaluation
    /// is reused.
    pub open spec fn all_caches_fresh(&self, n: int) -> bool {
        &&& all_fresh(self.swap_caches(), n)
        &&& all_fresh(self.cross_caches(), n)
        &&& all_fresh(self.swap_star_caches(), n)
        &&& all_fresh(self.sd_swap_star_caches(), n)
        &&& all_fresh(self.sd_one_one_caches(), n)
        &&& all_fresh(self.sd_two_one_caches(), n)
    }

    /// Every cache is well formed.
    pub open spec fn wf(&self, nc: int) -> bool {
        &&& self.swap_keys().len() == self.swap_caches().len()
        &&& all_wf(self.swap_caches(), swap_slots_below(1))
        &&& all_wf(self.cross_caches(), cross_slots_below(1))
        &&& all_wf(self.swap_star_caches(), pair_slots_below(1))
        &&& all_wf(self.sd_swap_star_caches(), pair_slots_below(1))
        &&& all_wf(self.sd_one_one_caches(), pair_slots_below(1))
        &&& all_wf(self.sd_two_one_caches(), two_one_slots_below(1))
        &&& exists|m: int| self.star().ok(m, nc)
    }

    /// No cache yet.
    pub fn new() -> (r: Self)
        ensures
            forall|nc: int| #[trigger] r.wf(nc),
    {
        let r = CacheMap {
            swap_keys: Vec::new(),
            swaps: Vec::new(),
            crosses: Vec::new(),
            swap_stars: Vec::new(),
            sd_swap_stars: Vec::new(),
            sd_one_ones: Vec::new(),
            sd_two_ones: Vec::new(),
            star: StarCaches::new(),
        };
        assert forall|nc: int| #[trigger] r.wf(nc) by {
            assert(r.star().ok(1, nc));
        }
        r
    }

    /// Starts the route-pair caches over for the routes of `context`, and
    /// keeps the insertion positions of the routes unchanged since the last
    /// save.
    pub fn reset(&mut self, solution: &AlkaidSolution, context: &RouteContext, Ghost(nc): Ghost<int>)
        requires
            solution.wf(),
            context.fits(solution),
            old(self).wf(nc),
        ensures
            final(self).fits(solution, context, nc),
            final(self).wf(nc),
            final(self).star().rows().len() == context.routes().len(),
            final(self).all_caches_fresh(context.routes().len() as int),
    {
        let n = context.num_routes();
        let ghost len = solution.nodes().len() as int;
        proof {
            assert forall|m: SwapMove| #[trigger] swap_slots_below(1)(m) implies swap_slots_below(len)(m) by {}
            assert forall|m: CrossMove| #[trigger] cross_slots_below(1)(m) implies cross_slots_below(len)(m) by {}
            assert forall|m: NodePairMove| #[trigger] pair_slots_below(1)(m) implies pair_slots_below(len)(m) by {}
            assert forall|m: SdSwapTwoOneMove| #[trigger] two_one_slots_below(1)(m) implies two_one_slots_below(len)(m) by {}
        }
        reset_all(&mut self.swaps, n, Ghost(swap_slots_below(len)), Ghost(swap_slots_below(1)));
        reset_all(&mut self.crosses, n, Ghost(cross_slots_below(len)), Ghost(cross_slots_below(1)));
        reset_all(&mut self.swap_stars, n, Ghost(pair_slots_below(len)), Ghost(pair_slots_below(1)));
        reset_all(&mut self.sd_swap_stars, n, Ghost(pair_slots_below(len)), Ghost(pair_slots_below(1)));
        reset_all(&mut self.sd_one_ones, n, Ghost(pair_slots_below(len)), Ghost(pair_slots_below(1)));
        reset_all(&mut self.sd_two_ones, n, Ghost(two_one_slots_below(len)), Ghost(two_one_slots_below(1)));
        let ghost m = choose|m: int| old(self).star().ok(m, nc);
        self.star.reset(solution, context, Ghost(m), Ghost(nc));
        proof {
            assert(self.star().ok(len, nc));
            assert(all_fit(self.swap_caches(), n as int, swap_slots_below(len), swap_slots_below(1)));
            lemma_fit_wf(self.swap_caches(), n as int, swap_slots_below(len), swap_slots_below(1));
            lemma_fit_wf(self.cross_caches(), n as int, cross_slots_below(len), cross_slots_below(1));
            lemma_fit_wf(self.swap_star_caches(), n as int, pair_slots_below(len), pair_slots_below(1));
            lemma_fit_wf(self.sd_swap_star_caches(), n as int, pair_slots_below(len), pair_slots_below(1));
            lemma_fit_wf(self.sd_one_one_caches(), n as int, pair_slots_below(len), pair_slots_below(1));
            lemma_fit_wf(self.sd_two_one_caches(), n as int, two_one_slots_below(len), two_one_slots_below(1));
        }
    }

    /// Route `route_index` is new (or renumbered): every route-pair cache
    /// gives it a matrix index, and room is made for its insertion
    /// positions.
    pub fn add_route(&mut self, route_index: Node, Ghost(n): Ghost<int>, Ghost(live): Ghost<int>, Ghost(len): Ghost<int>, Ghost(nc): Ghost<int>)
        requires
            old(self).fits_live(n, live, len, nc),
            len >= 1,
            0 <= route_index < n,
            live < i16::MAX,
        ensures
            final(self).fits_live(n, live + 1, len, nc),
            final(self).star().rows().len() >= old(self).star().rows().len(),
            final(self).star().rows().len() > route_index,
    {
        proof {
            assert forall|m: SwapMove| #[trigger] swap_slots_below(1)(m) implies swap_slots_below(len)(m) by {}
            assert forall|m: CrossMove| #[trigger] cross_slots_below(1)(m) implies cross_slots_below(len)(m) by {}
            assert forall|m: NodePairMove| #[trigger] pair_slots_below(1)(m) implies pair_slots_below(len)(m) by {}
            assert forall|m: SdSwapTwoOneMove| #[trigger] two_one_slots_below(1)(m) implies two_one_slots_below(len)(m) by {}
        }
        add_route_all(&mut self.swaps, route_index, Ghost(swap_slots_below(len)), Ghost(swap_slots_below(1)), Ghost(n), Ghost(live));
        add_route_all(&mut self.crosses, route_index, Ghost(cross_slots_below(len)), Ghost(cross_slots_below(1)), Ghost(n), Ghost(live));
        add_route_all(&mut self.swap_stars, route_index, Ghost(pair_slots_below(len)), Ghost(pair_slots_below(1)), Ghost(n), Ghost(live));
        add_route_all(&mut self.sd_swap_stars, route_index, Ghost(pair_slots_below(len)), Ghost(pair_slots_below(1)), Ghost(n), Ghost(live));
        add_route_all(&mut self.sd_one_ones, route_index, Ghost(pair_slots_below(len)), Ghost(pair_slots_below(1)), Ghost(n), Ghost(live));
        add_route_all(&mut self.sd_two_ones, route_index, Ghost(two_one_slots_below(len)), Ghost(two_one_slots_below(1)), Ghost(n), Ghost(live));
        self.star.add_route(route_index, Ghost(len), Ghost(nc));
    }

    /// Route `route_index` changed: its matrix indices are freed and its
    /// insertion positions dropped.
    pub fn remove_route(&mut self, route_index: Node, Ghost(n): Ghost<int>, Ghost(live): Ghost<int>, Ghost(len): Ghost<int>, Ghost(nc): Ghost<int>)
        requires
            old(self).fits_live(n, live, len, nc),
            0 <= route_index < n,
        ensures
            final(self).fits_live(n, live - 1, len, nc),
            final(self).star().rows().len() == old(self).star().rows().len(),
    {
        remove_route_all(&mut self.swaps, route_index, Ghost(swap_slots_below(len)), Ghost(swap_slots_below(1)), Ghost(n), Ghost(live));
        remove_route_all(&mut self.crosses, route_index, Ghost(cross_slots_below(len)), Ghost(cross_slots_below(1)), Ghost(n), Ghost(live));
        remove_route_all(&mut self.swap_stars, route_index, Ghost(pair_slots_below(len)), Ghost(pair_slots_below(1)), Ghost(n), Ghost(live));
        remove_route_all(&mut self.sd_swap_stars, route_index, Ghost(pair_slots_below(len)), Ghost(pair_slots_below(1)), Ghost(n), Ghost(live));
        remove_route_all(&mut self.sd_one_ones, route_index, Ghost(pair_slots_below(len)), Ghost(pair_slots_below(1)), Ghost(n), Ghost(live));
        remove_route_all(&mut self.sd_two_ones, route_index, Ghost(two_one_slots_below(len)), Ghost(two_one_slots_below(1)), Ghost(n), Ghost(live));
        self.star.remove_route(route_index, Ghost(len), Ghost(nc));
    }

    /// Route `dest_route_index` takes the caches of route
    /// `src_route_index`.
    pub fn move_route(
        &mut self,
        dest_route_index: Node,
        src_route_index: Node,
        Ghost(n): Ghost<int>,
        Ghost(live): Ghost<int>,
        Ghost(len): Ghost<int>,
        Ghost(nc): Ghost<int>,
    )
        requires
            old(self).fits_live(n, live, len, nc),
            0 <= dest_route_index < n,
            0 <= src_route_index < n,
            src_route_index < old(self).star().rows().len(),
        ensures
            final(self).fits_live(n, live, len, nc),
            all_moved(old(self).swap_caches(), final(self).swap_caches(), dest_route_index as int, src_route_index as int),
            all_moved(old(self).cross_caches(), final(self).cross_caches(), dest_route_index as int, src_route_index as int),
            all_moved(old(self).swap_star_caches(), final(self).swap_star_caches(), dest_route_index as int, src_route_index as int),
            all_moved(old(self).sd_swap_star_caches(), final(self).sd_swap_star_caches(), dest_route_index as int, src_route_index as int),
            all_moved(old(self).sd_one_one_caches(), final(self).sd_one_one_caches(), dest_route_index as int, src_route_index as int),
            all_moved(old(self).sd_two_one_caches(), final(self).sd_two_one_caches(), dest_route_index as int, src_route_index as int),
            final(self).swap_keys() == old(self).swap_keys(),
            rows_moved(old(self).star().rows(), final(self).star().rows(), dest_route_index as int, src_route_index as int),
            final(self).star().saved() == old(self).star().saved(),
    {
        move_route_all(&mut self.swaps, dest_route_index, src_route_index, Ghost(swap_slots_below(len)), Ghost(swap_slots_below(1)), Ghost(n), Ghost(live));
        move_route_all(&mut self.crosses, dest_route_index, src_route_index, Ghost(cross_slots_below(len)), Ghost(cross_slots_below(1)), Ghost(n), Ghost(live));
        move_route_all(&mut self.swap_stars, dest_route_index, src_route_index, Ghost(pair_slots_below(len)), Ghost(pair_slots_below(1)), Ghost(n), Ghost(live));
        move_route_all(&mut self.sd_swap_stars, dest_route_index, src_route_index, Ghost(pair_slots_below(len)), Ghost(pair_slots_below(1)), Ghost(n), Ghost(live));
        move_route_all(&mut self.sd_one_ones, dest_route_index, src_route_index, Ghost(pair_slots_below(len)), Ghost(pair_slots_below(1)), Ghost(n), Ghost(live));
        move_route_all(&mut self.sd_two_ones, dest_route_index, src_route_index, Ghost(two_one_slots_below(len)), Ghost(two_one_slots_below(1)), Ghost(n), Ghost(live));
        self.star.move_route(dest_route_index, src_route_index, Ghost(len), Ghost(nc));
    }

    /// Records the routes of `context` for the next reset.
    pub fn save(&mut self, solution: &AlkaidSolution, context: &RouteContext, Ghost(n): Ghost<int>, Ghost(len): Ghost<int>, Ghost(nc): Ghost<int>)
        requires
            solution.wf(),
            context.fits(solution),
            old(self).fits_counts(n, len, nc),
        ensures
            final(self).fits_counts(n, len, nc),
            final(self).star().rows() == old(self).star().rows(),
            final(self).star().saved().len() == context.routes().len(),
            forall|r: int|
                0 <= r < context.routes().len() ==> (#[trigger] final(self).star().saved()[r])@ == walk_slots(
                    solution.nodes(),
                    context.routes()[r].head as int,
                    solution.nodes().len(),
                ),
            final(self).swap_caches() == old(self).swap_caches(),
            final(self).cross_caches() == old(self).cross_caches(),
            final(self).swap_star_caches() == old(self).swap_star_caches(),
            final(self).sd_swap_star_caches() == old(self).sd_swap_star_caches(),
            final(self).sd_one_one_caches() == old(self).sd_one_one_caches(),
            final(self).sd_two_one_caches() == old(self).sd_two_one_caches(),
            final(self).swap_keys() == old(self).swap_keys(),
    {
        self.star.save(solution, context);
    }

    /// Takes out the cache of the segment exchange `num_x` against `num_y`
    /// (a new one for the routes of `context` if there is none yet).
    pub fn take_swap(&mut self, num_x: usize, num_y: usize, solution: &AlkaidSolution, context: &RouteContext, Ghost(nc): Ghost<int>) -> (r: InterRouteCache<SwapMove>)
        requires
            solution.wf(),
            context.wf(),
            old(self).fits(solution, context, nc),
        ensures
            swap_cache_fits(r, context.routes().len() as int, solution.nodes().len() as int),
            final(self).fits(solution, context, nc),
            final(self).star() == old(self).star(),
            old(self).all_caches_fresh(context.routes().len() as int) ==> r.fresh(context.routes().len() as int),
    {
        let ghost len = solution.nodes().len() as int;
        let ghost n = context.routes().len() as int;
        let mut i: usize = 0;
        while i < self.swap_keys.len()
            invariant
                0 <= i <= self.swap_keys@.len(),
                forall|k: int| 0 <= k < i ==> !(#[trigger] self.swap_keys@[k].0 == num_x && self.swap_keys@[k].1 == num_y),
            decreases self.swap_keys@.len() - i,
        {
            let (x, y) = self.swap_keys[i];
            if x == num_x && y == num_y {
                break;
            }
            i = i + 1;
        }
        if i < self.swap_keys.len() {
            let ghost s0 = self.swaps@;
            self.swap_keys.remove(i);
            let c = self.swaps.remove(i);
            proof {
                assert(cache_fits(s0[i as int], n, swap_slots_below(len), swap_slots_below(1)));
                assert(old(self).all_caches_fresh(n) ==> s0[i as int].fresh(n));
                assert forall|k: int| 0 <= k < self.swaps@.len() implies cache_fits(
                    #[trigger] self.swaps@[k],
                    n,
                    swap_slots_below(len),
                    swap_slots_below(1),
                ) by {
                    if k < i {
                        assert(self.swaps@[k] == s0[k]);
                    } else {
                        assert(self.swaps@[k] == s0[k + 1]);
                    }
                }
            }
            c
        } else {
            let e = SwapMove::default();
            let mut c = InterRouteCache::new(e);
            c.reset(context.num_routes());
            assert(swap_slots_below(len)(e));
            c
        }
    }

    /// Puts back the cache of the segment exchange `num_x` against
    /// `num_y`.
    pub fn put_swap(&mut self, num_x: usize, num_y: usize, cache: InterRouteCache<SwapMove>, Ghost(n): Ghost<int>, Ghost(len): Ghost<int>, Ghost(nc): Ghost<int>)
        requires
            swap_cache_fits(cache, n, len),
            old(self).fits_counts(n, len, nc),
        ensures
            final(self).fits_counts(n, len, nc),
            final(self).star() == old(self).star(),
            final(self).swap_caches() == old(self).swap_caches().push(cache),
            final(self).swap_keys() == old(self).swap_keys().push((num_x, num_y)),
            final(self).cross_caches() == old(self).cross_caches(),
            final(self).swap_star_caches() == old(self).swap_star_caches(),
            final(self).sd_swap_star_caches() == old(self).sd_swap_star_caches(),
            final(self).sd_one_one_caches() == old(self).sd_one_one_caches(),
            final(self).sd_two_one_caches() == old(self).sd_two_one_caches(),
    {
        self.swap_keys.push((num_x, num_y));
        put_into(&mut self.swaps, cache, Ghost(n), Ghost(swap_slots_below(len)), Ghost(swap_slots_below(1)));
    }

    /// Takes out the cache of the tail exchange.
    pub fn take_cross(&mut self, solution: &AlkaidSolution, context: &RouteContext, Ghost(nc): Ghost<int>) -> (r: InterRouteCache<CrossMove>)
        requires
            solution.wf(),
            context.wf(),
            old(self).fits(solution, context, nc),
        ensures
            cross_cache_fits(r, context.routes().len() as int, solution.nodes().len() as int),
            final(self).fits(solution, context, nc),
            final(self).star() == old(self).star(),
            old(self).all_caches_fresh(context.routes().len() as int) ==> r.fresh(context.routes().len() as int),
    {
        let ghost len = solution.nodes().len() as int;
        proof {
            assert forall|m: CrossMove| #[trigger] cross_slots_below(1)(m) implies cross_slots_below(len)(m) by {}
        }
        take_from(&mut self.crosses, CrossMove::default(), context.num_routes(), Ghost(cross_slots_below(len)), Ghost(cross_slots_below(1)))
    }

    /// Puts back the cache of the tail exchange.
    pub fn put_cross(&mut self, cache: InterRouteCache<CrossMove>, Ghost(n): Ghost<int>, Ghost(len): Ghost<int>, Ghost(nc): Ghost<int>)
        requires
            cross_cache_fits(cache, n, len),
            old(self).fits_counts(n, len, nc),
        ensures
            final(self).fits_counts(n, len, nc),
            final(self).star() == old(self).star(),
            final(self).cross_caches() == old(self).cross_caches().push(cache),
            final(self).swap_caches() == old(self).swap_caches(),
            final(self).swap_star_caches() == old(self).swap_star_caches(),
            final(self).sd_swap_star_caches() == old(self).sd_swap_star_caches(),
            final(self).sd_one_one_caches() == old(self).sd_one_one_caches(),
            final(self).sd_two_one_caches() == old(self).sd_two_one_caches(),
            final(self).swap_keys() == old(self).swap_keys(),
    {
        put_into(&mut self.crosses, cache, Ghost(n), Ghost(cross_slots_below(len)), Ghost(cross_slots_below(1)));
    }

    /// Takes out a route-pair cache of this operator.
    pub fn take_swap_star(&mut self, solution: &AlkaidSolution, context: &RouteContext, Ghost(nc): Ghost<int>) -> (r: InterRouteCache<NodePairMove>)
        requires
            solution.wf(),
            context.wf(),
            old(self).fits(solution, context, nc),
        ensures
            pair_cache_fits(r, context.routes().len() as int, solution.nodes().len() as int),
            final(self).fits(solution, context, nc),
            final(self).star() == old(self).star(),
            old(self).all_caches_fresh(context.routes().len() as int) ==> r.fresh(context.routes().len() as int),
    {
        let ghost len = solution.nodes().len() as int;
        proof {
            assert forall|m: NodePairMove| #[trigger] pair_slots_below(1)(m) implies pair_slots_below(len)(m) by {}
        }
        take_from(&mut self.swap_stars, NodePairMove::default(), context.num_routes(), Ghost(pair_slots_below(len)), Ghost(pair_slots_below(1)))
    }

    /// Puts back a route-pair cache of this operator.
    pub fn put_swap_star(&mut self, cache: InterRouteCache<NodePairMove>, Ghost(n): Ghost<int>, Ghost(len): Ghost<int>, Ghost(nc): Ghost<int>)
        requires
            pair_cache_fits(cache, n, len),
            old(self).fits_counts(n, len, nc),
        ensures
            final(self).fits_counts(n, len, nc),
            final(self).star() == old(self).star(),
            final(self).swap_star_caches() == old(self).swap_star_caches().push(cache),
            final(self).swap_caches() == old(self).swap_caches(),
            final(self).cross_caches() == old(self).cross_caches(),
            final(self).sd_swap_star_caches() == old(self).sd_swap_star_caches(),
            final(self).sd_one_one_caches() == old(self).sd_one_one_caches(),
            final(self).sd_two_one_caches() == old(self).sd_two_one_caches(),
            final(self).swap_keys() == old(self).swap_keys(),
    {
        put_into(&mut self.swap_stars, cache, Ghost(n), Ghost(pair_slots_below(len)), Ghost(pair_slots_below(1)));
    }

    /// Takes out a route-pair cache of this operator.
    pub fn take_sd_swap_star(&mut self, solution: &AlkaidSolution, context: &RouteContext, Ghost(nc): Ghost<int>) -> (r: InterRouteCache<NodePairMove>)
        requires
            solution.wf(),
            context.wf(),
            old(self).fits(solution, context, nc),
        ensures
            pair_cache_fits(r, context.routes().len() as int, solution.nodes().len() as int),
            final(self).fits(solution, context, nc),
            final(self).star() == old(self).star(),
            old(self).all_caches_fresh(context.routes().len() as int) ==> r.fresh(context.routes().len() as int),
    {
        let ghost len = solution.nodes().len() as int;
        proof {
            assert forall|m: NodePairMove| #[trigger] pair_slots_below(1)(m) implies pair_slots_below(len)(m) by {}
        }
        take_from(&mut self.sd_swap_stars, NodePairMove::default(), context.num_routes(), Ghost(pair_slots_below(len)), Ghost(pair_slots_below(1)))
    }

    /// Puts back a route-pair cache of this operator.
    pub fn put_sd_swap_star(&mut self, cache: InterRouteCache<NodePairMove>, Ghost(n): Ghost<int>, Ghost(len): Ghost<int>, Ghost(nc): Ghost<int>)
        requires
            pair_cache_fits(cache, n, len),
            old(self).fits_counts(n, len, nc),
        ensures
            final(self).fits_counts(n, len, nc),
            final(self).star() == old(self).star(),
            final(self).sd_swap_star_caches() == old(self).sd_swap_star_caches().push(cache),
            final(self).swap_caches() == old(self).swap_caches(),
            final(self).cross_caches() == old(self).cross_caches(),
            final(self).swap_star_caches() == old(self).swap_star_caches(),
            final(self).sd_one_one_caches() == old(self).sd_one_one_caches(),
            final(self).sd_two_one_caches() == old(self).sd_two_one_caches(),
            final(self).swap_keys() == old(self).swap_keys(),
    {
        put_into(&mut self.sd_swap_stars, cache, Ghost(n), Ghost(pair_slots_below(len)), Ghost(pair_slots_below(1)));
    }

    /// Takes out a route-pair cache of this operator.
    pub fn take_sd_one_one(&mut self, solution: &AlkaidSolution, context: &RouteContext, Ghost(nc): Ghost<int>) -> (r: InterRouteCache<NodePairMove>)
        requires
            solution.wf(),
            context.wf(),
            old(self).fits(solution, context, nc),
        ensures
            pair_cache_fits(r, context.routes().len() as int, solution.nodes().len() as int),
            final(self).fits(solution, context, nc),
            final(self).star() == old(self).star(),
            old(self).all_caches_fresh(context.routes().len() as int) ==> r.fresh(context.routes().len() as int),
    {
        let ghost len = solution.nodes().len() as int;
        proof {
            assert forall|m: NodePairMove| #[trigger] pair_slots_below(1)(m) implies pair_slots_below(len)(m) by {}
        }
        take_from(&mut self.sd_one_ones, NodePairMove::default(), context.num_routes(), Ghost(pair_slots_below(len)), Ghost(pair_slots_below(1)))
    }

    /// Puts back a route-pair cache of this operator.
    pub fn put_sd_one_one(&mut self, cache: InterRouteCache<NodePairMove>, Ghost(n): Ghost<int>, Ghost(len): Ghost<int>, Ghost(nc): Ghost<int>)
        requires
            pair_cache_fits(cache, n, len),
            old(self).fits_counts(n, len, nc),
        ensures
            final(self).fits_counts(n, len, nc),
            final(self).star() == old(self).star(),
            final(self).sd_one_one_caches() == old(self).sd_one_one_caches().push(cache),
            final(self).swap_caches() == old(self).swap_caches(),
            final(self).cross_caches() == old(self).cross_caches(),
            final(self).swap_star_caches() == old(self).swap_star_caches(),
            final(self).sd_swap_star_caches() == old(self).sd_swap_star_caches(),
            final(self).sd_two_one_caches() == old(self).sd_two_one_caches(),
            final(self).swap_keys() == old(self).swap_keys(),
    {
        put_into(&mut self.sd_one_ones, cache, Ghost(n), Ghost(pair_slots_below(len)), Ghost(pair_slots_below(1)));
    }

    /// Takes out a route-pair cache of this operator.
    pub fn take_sd_two_one(&mut self, solution: &AlkaidSolution, context: &RouteContext, Ghost(nc): Ghost<int>) -> (r: InterRouteCache<SdSwapTwoOneMove>)
        requires
            solution.wf(),
            context.wf(),
            old(self).fits(solution, context, nc),
        ensures
            two_one_cache_fits(r, context.routes().len() as int, solution.nodes().len() as int),
            final(self).fits(solution, context, nc),
            final(self).star() == old(self).star(),
            old(self).all_caches_fresh(context.routes().len() as int) ==> r.fresh(context.routes().len() as int),
    {
        let ghost len = solution.nodes().len() as int;
        proof {
            assert forall|m: SdSwapTwoOneMove| #[trigger] two_one_slots_below(1)(m) implies two_one_slots_below(len)(m) by {}
        }
        take_from(&mut self.sd_two_ones, SdSwapTwoOneMove::default(), context.num_routes(), Ghost(two_one_slots_below(len)), Ghost(two_one_slots_below(1)))
    }

    /// Puts back a route-pair cache of this operator.
    pub fn put_sd_two_one(&mut self, cache: InterRouteCache<SdSwapTwoOneMove>, Ghost(n): Ghost<int>, Ghost(len): Ghost<int>, Ghost(nc): Ghost<int>)
        requires
            two_one_cache_fits(cache, n, len),
            old(self).fits_counts(n, len, nc),
        ensures
            final(self).fits_counts(n, len, nc),
            final(self).star() == old(self).star(),
            final(self).sd_two_one_caches() == old(self).sd_two_one_caches().push(cache),
            final(self).swap_caches() == old(self).swap_caches(),
            final(self).cross_caches() == old(self).cross_caches(),
            final(self).swap_star_caches() == old(self).swap_star_caches(),
            final(self).sd_swap_star_caches() == old(self).sd_swap_star_caches(),
            final(self).sd_one_one_caches() == old(self).sd_one_one_caches(),
            final(self).swap_keys() == old(self).swap_keys(),
    {
        put_into(&mut self.sd_two_ones, cache, Ghost(n), Ghost(two_one_slots_below(len)), Ghost(two_one_slots_below(1)));
    }

    /// Takes out the insertion positions (leaving none).
    pub fn take_star(&mut self, Ghost(n): Ghost<int>, Ghost(len): Ghost<int>, Ghost(nc): Ghost<int>) -> (r: StarCaches)
        requires
            old(self).fits_counts(n, len, nc),
        ensures
            r == old(self).star(),
            r.ok(len, nc),
            final(self).fits_counts(n, len, nc),
    {
        let mut r = StarCaches::new();
        std::mem::swap(&mut r, &mut self.star);
        r
    }

    /// Puts back the insertion positions.
    pub fn put_star(&mut self, star: StarCaches, Ghost(n): Ghost<int>, Ghost(len): Ghost<int>, Ghost(nc): Ghost<int>)
        requires
            star.ok(len, nc),
            old(self).fits_counts(n, len, nc),
        ensures
            final(self).fits_counts(n, len, nc),
            final(self).star() == star,
    {
        self.star = star;
    }

    /// Fitting caches are well formed.
    pub proof fn lemma_fits_wf(&self, n: int, len: int, nc: int)
        requires
            self.fits_counts(n, len, nc),
        ensures
            self.wf(nc),
    {
        lemma_fit_wf(self.swap_caches(), n, swap_slots_below(len), swap_slots_below(1));
        lemma_fit_wf(self.cross_caches(), n, cross_slots_below(len), cross_slots_below(1));
        lemma_fit_wf(self.swap_star_caches(), n, pair_slots_below(len), pair_slots_below(1));
        lemma_fit_wf(self.sd_swap_star_caches(), n, pair_slots_below(len), pair_slots_below(1));
        lemma_fit_wf(self.sd_one_one_caches(), n, pair_slots_below(len), pair_slots_below(1));
        lemma_fit_wf(self.sd_two_one_caches(), n, two_one_slots_below(len), two_one_slots_below(1));
        assert(self.star().ok(len, nc));
    }

    /// The caches still fit when the pool of slots grows.
    pub proof fn lemma_fits_grow(&self, n: int, len: int, len2: int, nc: int)
        requires
            self.fits_counts(n, len, nc),
            len <= len2,
        ensures
            self.fits_counts(n, len2, nc),
    {
        assert forall|m: SwapMove| #[trigger] swap_slots_below(len)(m) implies swap_slots_below(len2)(m) by {}
        assert forall|m: CrossMove| #[trigger] cross_slots_below(len)(m) implies cross_slots_below(len2)(m) by {}
        assert forall|m: NodePairMove| #[trigger] pair_slots_below(len)(m) implies pair_slots_below(len2)(m) by {}
        assert forall|m: SdSwapTwoOneMove| #[trigger] two_one_slots_below(len)(m) implies two_one_slots_below(len2)(m) by {}
        base_cache::lemma_all_fit_weaken(self.swap_caches(), n, swap_slots_below(len), swap_slots_below(len2), swap_slots_below(1));
        base_cache::lemma_all_fit_weaken(self.cross_caches(), n, cross_slots_below(len), cross_slots_below(len2), cross_slots_below(1));
        base_cache::lemma_all_fit_weaken(self.swap_star_caches(), n, pair_slots_below(len), pair_slots_below(len2), pair_slots_below(1));
        base_cache::lemma_all_fit_weaken(self.sd_swap_star_caches(), n, pair_slots_below(len), pair_slots_below(len2), pair_slots_below(1));
        base_cache::lemma_all_fit_weaken(self.sd_one_one_caches(), n, pair_slots_below(len), pair_slots_below(len2), pair_slots_below(1));
        base_cache::lemma_all_fit_weaken(self.sd_two_one_caches(), n, two_one_slots_below(len), two_one_slots_below(len2), two_one_slots_below(1));
        base_star::lemma_star_ok_grow(&self.star(), len, len2, nc);
    }
}

/// Fitting caches are well formed.
proof fn lemma_fit_wf<T: Copy>(v: Seq<InterRouteCache<T>>, n: int, p: spec_fn(T) -> bool, unit: spec_fn(T) -> bool)
    requires
        all_fit(v, n, p, unit),
    ensures
        all_wf(v, unit),
{
    assert forall|i: int| 0 <= i < v.len() implies (#[trigger] v[i]).wf() && unit(v[i].empty_move()) by {
        assert(cache_fits(v[i], n, p, unit));
    }
}

/// Every slot carries a non-negative load.
pub open spec fn loads_nonneg(sol: &AlkaidSolution) -> bool {
    forall|n: int| 0 <= n < sol.nodes().len() ==> 0 <= (#[trigger] sol.nodes()[n]).load
}

/// Total load that the slots in use deliver to customer `c`.
pub open spec fn delivered(sol: &AlkaidSolution, c: int) -> int {
    cust_load(sol.nodes(), sol.used(), c)
}

/// Two slot pools with the same slots in use, which keep their customers
/// and loads, deliver the same to every customer.
pub proof fn lemma_delivered_same(a: &AlkaidSolution, b: &AlkaidSolution)
    requires
        a.wf(),
        b.used() == a.used(),
        a.nodes().len() <= b.nodes().len(),
        forall|n: int|
            0 <= n < a.nodes().len() ==> (#[trigger] b.nodes()[n]).customer == a.nodes()[n].customer
                && b.nodes()[n].load == a.nodes()[n].load,
    ensures
        forall|c: int| #[trigger] delivered(b, c) == delivered(a, c),
{
    assert forall|c: int| #[trigger] delivered(b, c) == delivered(a, c) by {
        let u = a.used();
        assert forall|i: int| 0 <= i < u.len() implies cust_loads(b.nodes(), u, c)[i] == cust_loads(a.nodes(), u, c)[i] by {
            assert(u[i] < a.nodes().len());
            assert(b.nodes()[u[i] as int].customer == a.nodes()[u[i] as int].customer);
        }
        assert(cust_loads(b.nodes(), u, c) =~= cust_loads(a.nodes(), u, c));
    }
}

/// Changing the load of a slot in use changes what its customer is
/// delivered by the difference.
pub proof fn lemma_delivered_set_load(a: &AlkaidSolution, b: &AlkaidSolution, node: Node, load: i32)
    requires
        a.wf(),
        a.used().contains(node),
        b.used() == a.used(),
        b.nodes() == a.nodes().update(node as int, NodeData { load, ..a.nodes()[node as int] }),
    ensures
        forall|c: int|
            #[trigger] delivered(b, c) == delivered(a, c) + if c == a.nodes()[node as int].customer {
                load - a.nodes()[node as int].load
            } else {
                0
            },
{
    let u = a.used();
    let k = choose|k: int| 0 <= k < u.len() && u[k] == node;
    assert forall|c: int|
        #[trigger] delivered(b, c) == delivered(a, c) + if c == a.nodes()[node as int].customer {
            load - a.nodes()[node as int].load
        } else {
            0
        } by {
        let sa = cust_loads(a.nodes(), u, c);
        let v = if c == a.nodes()[node as int].customer { load as int } else { 0 };
        assert forall|i: int| 0 <= i < u.len() implies cust_loads(b.nodes(), u, c)[i] == sa.update(k, v)[i] by {
            if i != k {
                assert(u[i] != node) by {
                    if u[i] == node {
                        assert(a.nodes()[u[i] as int].index_in_used_nodes == i);
                        assert(a.nodes()[u[k] as int].index_in_used_nodes == k);
                    }
                }
            }
        }
        assert(cust_loads(b.nodes(), u, c) =~= sa.update(k, v));
        crate::chain::lemma_seq_sum_update(sa, k, v);
    }
}

/// Appending a slot to the slots in use adds its load to what its customer
/// is delivered.
pub proof fn lemma_delivered_push(a: &AlkaidSolution, b: &AlkaidSolution, r: Node)
    requires
        a.wf(),
        b.used() == a.used().push(r),
        0 <= r < b.nodes().len(),
        a.nodes().len() <= b.nodes().len(),
        forall|n: int|
            0 <= n < a.nodes().len() && n != r ==> (#[trigger] b.nodes()[n]).customer == a.nodes()[n].customer
                && b.nodes()[n].load == a.nodes()[n].load,
        !a.used().contains(r),
    ensures
        forall|c: int|
            #[trigger] delivered(b, c) == delivered(a, c) + if c == b.nodes()[r as int].customer {
                b.nodes()[r as int].load as int
            } else {
                0
            },
{
    let u = a.used();
    assert forall|c: int|
        #[trigger] delivered(b, c) == delivered(a, c) + if c == b.nodes()[r as int].customer {
            b.nodes()[r as int].load as int
        } else {
            0
        } by {
        let sb = cust_loads(b.nodes(), u.push(r), c);
        assert forall|i: int| 0 <= i < u.len() implies sb.drop_last()[i] == cust_loads(a.nodes(), u, c)[i] by {
            assert(u[i] < a.nodes().len());
            assert(u[i] != r) by {
                assert(u.contains(u[i]));
            }
            assert(b.nodes()[u[i] as int].customer == a.nodes()[u[i] as int].customer);
        }
        assert(sb.drop_last() =~= cust_loads(a.nodes(), u, c));
    }
}

/// Taking a slot out of the slots in use (the last one takes its
/// position) removes its load from what its customer is delivered.
pub proof fn lemma_delivered_remove(a: &AlkaidSolution, b: &AlkaidSolution, node: Node)
    requires
        a.wf(),
        a.used().contains(node),
        b.used() == a.used().update(
            a.nodes()[node as int].index_in_used_nodes as int,
            a.used().last(),
        ).drop_last(),
        a.nodes().len() <= b.nodes().len(),
        forall|n: int|
            0 <= n < a.nodes().len() ==> (#[trigger] b.nodes()[n]).customer == a.nodes()[n].customer
                && b.nodes()[n].load == a.nodes()[n].load,
    ensures
        forall|c: int|
            #[trigger] delivered(b, c) == delivered(a, c) - if c == a.nodes()[node as int].customer {
                a.nodes()[node as int].load as int
            } else {
                0
            },
{
    let u = a.used();
    let k0 = choose|k: int| 0 <= k < u.len() && u[k] == node;
    let k = a.nodes()[node as int].index_in_used_nodes as int;
    assert(k == k0);
    let last = u.len() - 1;
    assert forall|c: int|
        #[trigger] delivered(b, c) == delivered(a, c) - if c == a.nodes()[node as int].customer {
            a.nodes()[node as int].load as int
        } else {
            0
        } by {
        let sa = cust_loads(a.nodes(), u, c);
        let x = sa.update(k, sa[last]);
        assert forall|i: int| 0 <= i < b.used().len() implies cust_loads(b.nodes(), b.used(), c)[i] == x.drop_last()[i] by {
            assert(b.used()[i] < a.nodes().len());
        }
        assert(cust_loads(b.nodes(), b.used(), c) =~= x.drop_last());
        crate::chain::lemma_seq_sum_update(sa, k, sa[last]);
        assert(crate::chain::seq_sum(x) == crate::chain::seq_sum(x.drop_last()) + x.last());
        assert(x.last() == sa[last]);
    }
}

/// A valid solution whose slots all carry non-negative loads.
pub open spec fn sound(sol: &AlkaidSolution, inst: &Instance) -> bool {
    sol.valid_for(inst) && loads_nonneg(sol)
}

/// Every route of `ctx` leads from its head to the depot through slots in
/// use.
pub open spec fn routes_in_use(sol: &AlkaidSolution, ctx: &RouteContext) -> bool {
    forall|r: int|
        0 <= r < ctx.routes().len() ==> {
            let h = #[trigger] ctx.head_of(r);
            &&& is_route(sol.nodes(), h)
            &&& forall|k: nat| k < route_length(sol.nodes(), h) ==> sol.used().contains(#[trigger] walk(sol.nodes(), h, k) as Node)
        }
}

/// No route of `ctx` is empty.
pub open spec fn routes_nonempty(ctx: &RouteContext) -> bool {
    forall|r: int| 0 <= r < ctx.routes().len() ==> #[trigger] ctx.head_of(r) != 0
}

/// Route bookkeeping that fits a solution fits any solution with at least
/// as many slots.
pub proof fn lemma_fits_longer(ctx: &RouteContext, a: &AlkaidSolution, b: &AlkaidSolution)
    requires
        ctx.fits(a),
        a.nodes().len() <= b.nodes().len(),
    ensures
        ctx.fits(b),
{
    assert forall|r: int| 0 <= r < ctx.routes().len() implies b.is_slot((#[trigger] ctx.routes()[r]).head as int)
        && b.is_slot(ctx.routes()[r].tail as int) by {
        assert(a.is_slot(ctx.routes()[r].head as int));
    }
}

/// Links `predecessor` to `successor`, keeping the solution sound.
pub(crate) fn relink(instance: &Instance, solution: &mut AlkaidSolution, predecessor: Node, successor: Node)
    requires
        sound(old(solution), instance),
        old(solution).is_slot(predecessor as int),
        old(solution).is_slot(successor as int),
    ensures
        sound(final(solution), instance),
        final(solution).nodes().len() == old(solution).nodes().len(),
        final(solution).nodes() == crate::solution::linked(old(solution).nodes(), predecessor, successor),
        final(solution).used() == old(solution).used(),
        final(solution).unused() == old(solution).unused(),
        forall|n: int|
            0 <= n < old(solution).nodes().len() ==> (#[trigger] final(solution).nodes()[n]).customer
                == old(solution).nodes()[n].customer && final(solution).nodes()[n].load == old(solution).nodes()[n].load,
        forall|c: int| #[trigger] delivered(final(solution), c) == delivered(old(solution), c),
{
    let ghost d0 = solution.nodes();
    solution.link(predecessor, successor);
    proof {
        assert forall|n: int| 0 <= n < solution.nodes().len() implies instance.is_node(
            (#[trigger] solution.nodes()[n]).customer as int,
        ) && 0 <= solution.nodes()[n].load by {
            assert(instance.is_node(d0[n].customer as int));
            assert(0 <= d0[n].load);
        }
        lemma_delivered_same(old(solution), solution);
    }
}

/// Makes `head` the successor of the depot slot, the start from which a
/// route is relinked.
pub(crate) fn set_start(instance: &Instance, solution: &mut AlkaidSolution, head: Node)
    requires
        sound(old(solution), instance),
        old(solution).is_slot(head as int),
    ensures
        sound(final(solution), instance),
        final(solution).nodes().len() == old(solution).nodes().len(),
        final(solution).used() == old(solution).used(),
        final(solution).unused() == old(solution).unused(),
        forall|n: int|
            0 <= n < old(solution).nodes().len() ==> (#[trigger] final(solution).nodes()[n]).customer
                == old(solution).nodes()[n].customer && final(solution).nodes()[n].load == old(solution).nodes()[n].load,
        forall|c: int| #[trigger] delivered(final(solution), c) == delivered(old(solution), c),
        final(solution).nodes() == with_succ(old(solution).nodes(), 0, head),
{
    let ghost d0 = solution.nodes();
    solution.set_successor(0, head);
    proof {
        assert forall|n: int| 0 <= n < solution.nodes().len() implies instance.is_node(
            (#[trigger] solution.nodes()[n]).customer as int,
        ) && 0 <= solution.nodes()[n].load by {
            assert(instance.is_node(d0[n].customer as int));
            assert(0 <= d0[n].load);
        }
        lemma_delivered_same(old(solution), solution);
    }
}

/// Moves `split_load` of the load of slot `node_index` to a new slot for
/// the same customer, and returns the new slot.
pub(crate) fn split_off(instance: &Instance, solution: &mut AlkaidSolution, node_index: Node, split_load: i32) -> (r: Node)
    requires
        sound(old(solution), instance),
        old(solution).is_slot(node_index as int),
        old(solution).room() > 0,
        0 <= split_load <= old(solution).nodes()[node_index as int].load,
    ensures
        sound(final(solution), instance),
        final(solution).nodes().len() >= old(solution).nodes().len(),
        final(solution).is_slot(r as int),
        1 <= r,
        r == old(solution).next_slot(),
        final(solution).used() == old(solution).used().push(r),
        final(solution).unused() == old(solution).unused_after_take(),
        old(solution).used().contains(node_index) ==> ({
            &&& final(solution).nodes()[r as int].customer == old(solution).nodes()[node_index as int].customer
            &&& final(solution).nodes()[r as int].load == split_load
            &&& final(solution).nodes()[node_index as int].load == old(solution).nodes()[node_index as int].load - split_load
            &&& final(solution).nodes()[node_index as int].customer == old(solution).nodes()[node_index as int].customer
        }),
        forall|n: int|
            0 <= n < old(solution).nodes().len() && n != r && n != node_index ==> (#[trigger] final(solution).nodes()[n]).customer
                == old(solution).nodes()[n].customer && final(solution).nodes()[n].load == old(solution).nodes()[n].load,
        old(solution).used().contains(node_index) ==> forall|c: int|
            #[trigger] delivered(final(solution), c) == delivered(old(solution), c),
{
    let ghost s0 = *solution;
    let customer = solution.customer(node_index);
    let new_node = solution.new_node(customer, split_load);
    let ghost s1 = *solution;
    proof {
        assert forall|n: int| 0 <= n < s1.nodes().len() implies instance.is_node(
            (#[trigger] s1.nodes()[n]).customer as int,
        ) && 0 <= s1.nodes()[n].load by {
            if n != new_node as int {
                assert(s1.nodes()[n] == s0.nodes()[n]);
            }
        }
    }
    let load = solution.load(node_index);
    assert(split_load <= load) by {
        if node_index != new_node {
            assert(s1.nodes()[node_index as int] == s0.nodes()[node_index as int]);
        }
    }
    solution.set_load(node_index, load - split_load);
    proof {
        assert forall|n: int| 0 <= n < solution.nodes().len() implies instance.is_node(
            (#[trigger] solution.nodes()[n]).customer as int,
        ) && 0 <= solution.nodes()[n].load by {
            assert(instance.is_node(s1.nodes()[n].customer as int));
        }
        if s0.used().contains(node_index) {
            assert(!s0.used().contains(new_node)) by {
                if s0.unused().len() > 0 {
                    assert(s0.unused()[s0.unused().len() - 1] == new_node);
                } else if s0.used().contains(new_node) {
                    let k = choose|k: int| 0 <= k < s0.used().len() && s0.used()[k] == new_node;
                    assert(s0.used()[k] < s0.nodes().len());
                }
            }
            assert(new_node != node_index);
            assert forall|n: int| 0 <= n < s0.nodes().len() && n != new_node implies (#[trigger] s1.nodes()[n]).customer
                == s0.nodes()[n].customer && s1.nodes()[n].load == s0.nodes()[n].load by {
                assert(s1.nodes()[n] == s0.nodes()[n]);
            }
            lemma_delivered_push(&s0, &s1, new_node);
            assert(s1.used().contains(node_index)) by {
                let k = choose|k: int| 0 <= k < s0.used().len() && s0.used()[k] == node_index;
                assert(s1.used()[k] == node_index);
            }
            assert(s1.nodes()[node_index as int] == s0.nodes()[node_index as int]);
            lemma_delivered_set_load(&s1, solution, node_index, (load - split_load) as i32);
        }
    }
    new_node
}

/// Inserts a new slot for `customer` with `load` between `predecessor`
/// and `successor`, keeping the solution sound, and returns it.
pub(crate) fn insert_slot(
    instance: &Instance,
    solution: &mut AlkaidSolution,
    customer: Node,
    load: i32,
    predecessor: Node,
    successor: Node,
) -> (r: Node)
    requires
        sound(old(solution), instance),
        instance.is_node(customer as int),
        0 <= load,
        old(solution).room() > 0,
        old(solution).is_slot(predecessor as int),
        old(solution).is_slot(successor as int),
    ensures
        sound(final(solution), instance),
        final(solution).nodes().len() >= old(solution).nodes().len(),
        final(solution).is_slot(r as int),
        r == old(solution).next_slot(),
        final(solution).used() == old(solution).used().push(r),
        final(solution).unused() == old(solution).unused_after_take(),
        final(solution).nodes()[r as int].customer == customer,
        final(solution).nodes()[r as int].load == load,
        forall|n: int|
            0 <= n < old(solution).nodes().len() && n != r ==> (#[trigger] final(solution).nodes()[n]).customer
                == old(solution).nodes()[n].customer && final(solution).nodes()[n].load == old(solution).nodes()[n].load,
        forall|c: int|
            #[trigger] delivered(final(solution), c) == delivered(old(solution), c) + if c == customer {
                load as int
            } else {
                0
            },
{
    let ghost s0 = *solution;
    let r = solution.insert(customer, load, predecessor, successor);
    proof {
        let d1 = s0.nodes_after_take(customer, load);
        assert forall|n: int| 0 <= n < solution.nodes().len() implies instance.is_node(
            (#[trigger] solution.nodes()[n]).customer as int,
        ) && 0 <= solution.nodes()[n].load by {
            assert(solution.nodes()[n].customer == d1[n].customer && solution.nodes()[n].load == d1[n].load);
            if n != r as int {
                assert(d1[n] == s0.nodes()[n]);
            }
        }
        assert(!s0.used().contains(r)) by {
            if s0.unused().len() > 0 {
                assert(s0.unused()[s0.unused().len() - 1] == r);
            } else if s0.used().contains(r) {
                let k = choose|k: int| 0 <= k < s0.used().len() && s0.used()[k] == r;
                assert(s0.used()[k] < s0.nodes().len());
            }
        }
        assert forall|n: int| 0 <= n < s0.nodes().len() && n != r implies (#[trigger] solution.nodes()[n]).customer
            == s0.nodes()[n].customer && solution.nodes()[n].load == s0.nodes()[n].load by {
            assert(solution.nodes()[n].customer == d1[n].customer && solution.nodes()[n].load == d1[n].load);
            assert(d1[n] == s0.nodes()[n]);
        }
        assert(solution.nodes()[r as int].customer == d1[r as int].customer);
        lemma_delivered_push(&s0, solution, r);
    }
    r
}

/// A move between two routes.
pub trait InterOperator {
    /// Finds the best move between two routes and applies it when it
    /// lowers the cost; returns the two routes changed, or nothing.
    fn apply(
        &self,
        instance: &Instance,
        solution: &mut AlkaidSolution,
        context: &mut RouteContext,
        random: &mut Random,
        cache_map: &mut CacheMap,
    ) -> (r: Vec<Node>)
        requires
            instance.wf(),
            old(solution).valid_for(instance),
            loads_nonneg(old(solution)),
            old(context).fits(old(solution)),
            old(cache_map).fits(old(solution), old(context), instance.num_customers as int),
            old(context).pre_loads().len() >= old(solution).nodes().len(),
        ensures
            final(solution).valid_for(instance),
            loads_nonneg(final(solution)),
            final(solution).nodes().len() >= old(solution).nodes().len(),
            final(context).pre_loads().len() >= final(solution).nodes().len(),
            final(context).fits(final(solution)),
            final(context).routes().len() == old(context).routes().len(),
            final(cache_map).fits(final(solution), final(context), instance.num_customers as int),
            final(cache_map).star().rows().len() >= old(cache_map).star().rows().len(),
            forall|c: int| #[trigger] delivered(final(solution), c) == delivered(old(solution), c),
            r@.len() == 0 ==> *final(solution) == *old(solution) && *final(context) == *old(context),
            r@.len() != 0 ==> r@.len() == 2 && 0 <= r@[0] < old(context).routes().len() && 0 <= r@[1] < old(
                context,
            ).routes().len() && r@[0] != r@[1],
    ;
}

} // verus!
