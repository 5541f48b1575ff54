//! Cached best moves between pairs of routes, kept while neither route
//! changes.
use vstd::prelude::*;
use crate::delta::Delta;
use crate::instance::Node;

verus! {

/// The best move found between two routes, and whether it must be
/// recomputed.
#[derive(Debug, Clone, Copy)]
pub struct BaseCache<T> {
    /// The routes changed since the move was computed.
    pub invalidated: bool,
    /// Cost change of the move.
    pub delta: Delta<i32>,
    /// The move.
    pub mv: T,
}

impl<T: Copy> BaseCache<T> {
    /// An invalidated entry holding `mv`.
    pub fn new(mv: T) -> (r: Self)
        ensures
            r.invalidated,
            r.delta.value == 0,
            r.delta.counter == -1,
            r.mv == mv,
    {
        BaseCache { invalidated: true, delta: Delta::new(0, -1), mv }
    }

    /// Whether the entry can be reused as it is; an invalidated entry is
    /// marked valid and its delta cleared, to be recomputed by the caller.
    pub fn try_reuse(&mut self) -> (r: bool)
        ensures
            r == !old(self).invalidated,
            !final(self).invalidated,
            r ==> *final(self) == *old(self),
            !r ==> final(self).delta.value == 0 && final(self).delta.counter == -1 && final(self).mv == old(self).mv,
    {
        if !self.invalidated {
            return true;
        }
        self.invalidated = false;
        self.delta = Delta::new(0, -1);
        false
    }
}

/// Cached moves for every ordered pair of routes. Routes are mapped to
/// matrix indices so that routes can be renumbered without recomputation.
#[derive(Debug, Clone)]
pub struct InterRouteCache<T> {
    matrix: Vec<Vec<BaseCache<T>>>,
    route_index_mappings: Vec<Node>,
    route_pool: Vec<Node>,
    unused_indices: Vec<Node>,
    max_index: Node,
    empty: T,
}

impl<T: Copy> InterRouteCache<T> {
    /// Number of matrix indices in use.
    pub closed spec fn size(&self) -> int {
        self.max_index as int
    }

    /// Number of routes that have a matrix index.
    pub closed spec fn mapped(&self) -> int {
        self.route_index_mappings@.len() as int
    }

    /// Matrix index of a route.
    pub closed spec fn index_of(&self, route: int) -> int {
        self.route_index_mappings@[route] as int
    }

    /// Cached entry of a pair of matrix indices.
    pub closed spec fn entry(&self, a: int, b: int) -> BaseCache<T> {
        self.matrix@[a]@[b]
    }

    /// Matrix indices in use by routes.
    pub closed spec fn pool(&self) -> Seq<Node> {
        self.route_pool@
    }

    /// Matrix indices free for reuse.
    pub closed spec fn free(&self) -> Seq<Node> {
        self.unused_indices@
    }

    /// The matrix is square over the indices in use, and every route,
    /// pool and free index is one of them.
    pub closed spec fn wf(&self) -> bool {
        let n = self.max_index as int;
        &&& 0 <= n
        &&& self.matrix@.len() == n
        &&& forall|i: int| 0 <= i < n ==> (#[trigger] self.matrix@[i])@.len() == n
        &&& self.route_index_mappings@.len() == n
        &&& forall|i: int| 0 <= i < n ==> 0 <= #[trigger] self.route_index_mappings@[i] < n
        &&& forall|i: int| 0 <= i < self.route_pool@.len() ==> 0 <= #[trigger] self.route_pool@[i] < n
        &&& forall|i: int| 0 <= i < self.unused_indices@.len() ==> 0 <= #[trigger] self.unused_indices@[i] < n
        &&& forall|a: int, b: int| 0 <= a < n && 0 <= b < n ==> (#[trigger] self.matrix@[a]@[b]).delta.wf()
    }

    /// Move held by new entries.
    pub closed spec fn empty_move(&self) -> T {
        self.empty
    }

    /// Every cached move satisfies `p`.
    pub closed spec fn moves_ok(&self, p: spec_fn(T) -> bool) -> bool {
        forall|a: int, b: int| 0 <= a < self.matrix@.len() && 0 <= b < self.matrix@[a]@.len() ==> p(#[trigger] self.matrix@[a]@[b].mv)
    }

    /// Routes `0..n` all have a matrix index.
    pub open spec fn covers(&self, n: int) -> bool {
        self.wf() && n <= self.mapped()
    }

    /// Routes `0..n` have distinct matrix indices, and the entries of all
    /// their pairs are invalidated.
    pub open spec fn fresh(&self, n: int) -> bool {
        &&& forall|a: int, b: int| 0 <= a < n && 0 <= b < n && a != b ==> self.index_of(a) != self.index_of(b)
        &&& forall|a: int, b: int|
            0 <= a < n && 0 <= b < n ==> #[trigger] self.entry(self.index_of(a), self.index_of(b)).invalidated
    }

    /// An empty cache; new entries hold `empty`.
    pub fn new(empty: T) -> (r: Self)
        ensures
            r.wf(),
            r.size() == 0,
            r.mapped() == 0,
            r.empty_move() == empty,
            forall|p: spec_fn(T) -> bool| #[trigger] r.moves_ok(p),
    {
        InterRouteCache {
            matrix: Vec::new(),
            route_index_mappings: Vec::new(),
            route_pool: Vec::new(),
            unused_indices: Vec::new(),
            max_index: 0,
            empty,
        }
    }

    /// Cached entry of routes `route_a` and `route_b`.
    pub fn get(&self, route_a: Node, route_b: Node) -> (r: BaseCache<T>)
        requires
            self.wf(),
            0 <= route_a < self.mapped(),
            0 <= route_b < self.mapped(),
        ensures
            r == self.entry(self.index_of(route_a as int), self.index_of(route_b as int)),
            r.delta.wf(),
            forall|p: spec_fn(T) -> bool| #[trigger] self.moves_ok(p) ==> p(r.mv),
    {
        let idx_a = self.route_index_mappings[route_a as usize] as usize;
        let idx_b = self.route_index_mappings[route_b as usize] as usize;
        let row = &self.matrix[idx_a];
        row[idx_b]
    }

    /// Stores the entry of routes `route_a` and `route_b`.
    pub fn set(&mut self, route_a: Node, route_b: Node, cache: BaseCache<T>)
        requires
            old(self).wf(),
            0 <= route_a < old(self).mapped(),
            0 <= route_b < old(self).mapped(),
            cache.delta.wf(),
        ensures
            final(self).wf(),
            final(self).size() == old(self).size(),
            final(self).free() == old(self).free(),
            final(self).mapped() == old(self).mapped(),
            forall|r: int| 0 <= r < old(self).mapped() ==> #[trigger] final(self).index_of(r) == old(self).index_of(r),
            final(self).entry(old(self).index_of(route_a as int), old(self).index_of(route_b as int)) == cache,
            forall|a: int, b: int|
                0 <= a < old(self).size() && 0 <= b < old(self).size() && !(a == old(self).index_of(route_a as int) && b
                    == old(self).index_of(route_b as int)) ==> #[trigger] final(self).entry(a, b) == old(self).entry(a, b),
            forall|a: int, b: int|
                0 <= a < old(self).mapped() && 0 <= b < old(self).mapped() && !(old(self).index_of(a) == old(self).index_of(
                    route_a as int,
                ) && old(self).index_of(b) == old(self).index_of(route_b as int)) ==> #[trigger] final(self).entry(
                    old(self).index_of(a),
                    old(self).index_of(b),
                ) == old(self).entry(old(self).index_of(a), old(self).index_of(b)),
            final(self).empty_move() == old(self).empty_move(),
            forall|p: spec_fn(T) -> bool| #[trigger] old(self).moves_ok(p) && p(cache.mv) ==> final(self).moves_ok(p),
    {
        let idx_a = self.route_index_mappings[route_a as usize] as usize;
        let idx_b = self.route_index_mappings[route_b as usize] as usize;
        let ghost m0 = self.matrix@;
        let mut row = self.matrix.remove(idx_a);
        let ghost r0 = row@;
        row.set(idx_b, cache);
        self.matrix.insert(idx_a, row);
        proof {
            assert forall|p: spec_fn(T) -> bool| #[trigger] old(self).moves_ok(p) && p(cache.mv) implies self.moves_ok(p) by {
                assert forall|a: int, b: int| 0 <= a < self.matrix@.len() && 0 <= b < self.matrix@[a]@.len() implies p(
                    #[trigger] self.matrix@[a]@[b].mv,
                ) by {
                    if a != idx_a {
                        assert(self.matrix@[a] == m0[a]);
                    } else if b != idx_b {
                        assert(self.matrix@[a]@[b] == r0[b]);
                        assert(r0[b] == m0[a]@[b]);
                    }
                }
            }
            assert forall|a: int, b: int|
                0 <= a < old(self).size() && 0 <= b < old(self).size() && !(a == idx_a && b == idx_b) implies #[trigger] self.entry(a, b)
                    == old(self).entry(a, b) by {
                if a != idx_a {
                    assert(self.matrix@[a] == m0[a]);
                } else {
                    assert(self.matrix@[a]@[b] == r0[b]);
                }
            }
            assert forall|i: int| 0 <= i < self.max_index implies (#[trigger] self.matrix@[i])@.len() == self.max_index by {
                if i != idx_a {
                    assert(self.matrix@[i] == m0[i]);
                }
            }
        }
    }

    /// Starts over for `num_routes` routes: route `i` gets matrix index
    /// `i`, and every entry is invalidated.
    pub fn reset(&mut self, num_routes: Node)
        requires
            old(self).wf(),
            0 <= num_routes,
        ensures
            final(self).wf(),
            final(self).size() == num_routes,
            final(self).mapped() == num_routes,
            final(self).free().len() == 0,
            final(self).fresh(num_routes as int),
            forall|r: int| 0 <= r < num_routes ==> #[trigger] final(self).index_of(r) == r,
            forall|a: int, b: int|
                0 <= a < num_routes && 0 <= b < num_routes ==> #[trigger] final(self).entry(a, b).invalidated,
            final(self).empty_move() == old(self).empty_move(),
            forall|p: spec_fn(T) -> bool| p(old(self).empty_move()) ==> #[trigger] final(self).moves_ok(p),
    {
        let n = num_routes as usize;
        self.max_index = num_routes;
        self.matrix = Vec::new();
        self.route_index_mappings = Vec::new();
        self.route_pool = Vec::new();
        self.unused_indices = Vec::new();
        let mut i: usize = 0;
        while i < n
            invariant
                n == num_routes,
                self.max_index == num_routes,
                0 <= i <= n,
                self.matrix@.len() == i,
                self.route_index_mappings@.len() == i,
                self.route_pool@.len() == i,
                self.unused_indices@.len() == 0,
                forall|a: int| 0 <= a < i ==> (#[trigger] self.matrix@[a])@.len() == n,
                forall|a: int| 0 <= a < i ==> #[trigger] self.route_index_mappings@[a] == a,
                forall|a: int| 0 <= a < i ==> #[trigger] self.route_pool@[a] == a,
                forall|a: int, b: int| 0 <= a < i && 0 <= b < n ==> #[trigger] self.matrix@[a]@[b].invalidated,
                forall|a: int, b: int| 0 <= a < i && 0 <= b < n ==> #[trigger] self.matrix@[a]@[b].mv == self.empty,
                forall|a: int, b: int| 0 <= a < i && 0 <= b < n ==> (#[trigger] self.matrix@[a]@[b]).delta.wf(),
                self.empty == old(self).empty,
            decreases n - i,
        {
            let mut row: Vec<BaseCache<T>> = Vec::new();
            let mut j: usize = 0;
            while j < n
                invariant
                    0 <= j <= n,
                    row@.len() == j,
                    forall|b: int| 0 <= b < j ==> #[trigger] row@[b].invalidated,
                    forall|b: int| 0 <= b < j ==> #[trigger] row@[b].mv == self.empty,
                    forall|b: int| 0 <= b < j ==> (#[trigger] row@[b]).delta.wf(),
                decreases n - j,
            {
                row.push(BaseCache::new(self.empty));
                j = j + 1;
            }
            let ghost m0 = self.matrix@;
            self.matrix.push(row);
            self.route_index_mappings.push(i as Node);
            self.route_pool.push(i as Node);
            proof {
                assert forall|a: int, b: int| 0 <= a < i + 1 && 0 <= b < n implies #[trigger] self.matrix@[a]@[b].invalidated
                    && self.matrix@[a]@[b].mv == self.empty && self.matrix@[a]@[b].delta.wf() by {
                    if a < i {
                        assert(self.matrix@[a] == m0[a]);
                    }
                }
                assert forall|a: int| 0 <= a < i + 1 implies (#[trigger] self.matrix@[a])@.len() == n by {
                    if a < i {
                        assert(self.matrix@[a] == m0[a]);
                    }
                }
            }
            i = i + 1;
        }
        proof {
            assert forall|p: spec_fn(T) -> bool| p(old(self).empty_move()) implies #[trigger] self.moves_ok(p) by {
                assert forall|a: int, b: int| 0 <= a < self.matrix@.len() && 0 <= b < self.matrix@[a]@.len() implies p(
                    #[trigger] self.matrix@[a]@[b].mv,
                ) by {
                    assert(self.matrix@[a]@[b].mv == self.empty);
                }
            }
        }
    }

    /// Gives route `route_index` a matrix index (a free one, or a new
    /// one) and invalidates its entries with every route in use.
    pub fn add_route(&mut self, route_index: Node)
        requires
            old(self).wf(),
            0 <= route_index < old(self).mapped() || (route_index == old(self).mapped() && old(self).free().len() == 0),
            old(self).free().len() > 0 || old(self).size() < i16::MAX,
        ensures
            final(self).wf(),
            final(self).mapped() >= old(self).mapped(),
            old(self).free().len() > 0 ==> final(self).size() == old(self).size() && final(self).free().len()
                == old(self).free().len() - 1,
            old(self).free().len() == 0 ==> final(self).size() == old(self).size() + 1 && final(self).free().len() == 0,
            forall|r: int|
                0 <= r < old(self).mapped() && r != route_index ==> #[trigger] final(self).index_of(r) == old(self).index_of(r),
            final(self).empty_move() == old(self).empty_move(),
            forall|p: spec_fn(T) -> bool|
                #[trigger] old(self).moves_ok(p) && p(old(self).empty_move()) ==> final(self).moves_ok(p),
    {
        let index = if self.unused_indices.len() > 0 {
            let idx = self.unused_indices.pop().unwrap();
            idx
        } else {
            let idx = self.max_index;
            self.grow();
            idx
        };
        let ghost mid = *self;
        assert forall|p: spec_fn(T) -> bool| #[trigger] old(self).moves_ok(p) && p(old(self).empty_move()) implies self.moves_ok(p) by {
            if self.unused_indices@.len() < old(self).unused_indices@.len() {
                assert(self.matrix@ == old(self).matrix@);
            }
        }
        self.route_index_mappings.set(route_index as usize, index);
        self.route_pool.push(index);
        let mut k: usize = 0;
        while k < self.route_pool.len()
            invariant
                self.wf(),
                0 <= index < self.max_index,
                self.route_index_mappings@ == mid.route_index_mappings@.update(route_index as int, index),
                self.max_index == mid.max_index,
                self.unused_indices@ == mid.unused_indices@,
                self.empty == old(self).empty,
                forall|p: spec_fn(T) -> bool| #[trigger] old(self).moves_ok(p) && p(old(self).empty_move()) ==> self.moves_ok(p),
            decreases self.route_pool@.len() - k,
        {
            let other = self.route_pool[k];
            self.invalidate(index as usize, other as usize);
            self.invalidate(other as usize, index as usize);
            k = k + 1;
        }
    }

    /// One more matrix index (the matrix and the mappings grow by one).
    fn grow(&mut self)
        requires
            old(self).wf(),
            old(self).size() < i16::MAX,
        ensures
            final(self).wf(),
            final(self).size() == old(self).size() + 1,
            final(self).route_index_mappings@ == old(self).route_index_mappings@.push(0),
            final(self).route_pool@ == old(self).route_pool@,
            final(self).unused_indices@ == old(self).unused_indices@,
            final(self).empty == old(self).empty,
            forall|p: spec_fn(T) -> bool| #[trigger] old(self).moves_ok(p) && p(old(self).empty) ==> final(self).moves_ok(p),
    {
        let n = self.max_index as usize;
        let ghost m0 = self.matrix@;
        self.max_index = self.max_index + 1;
        self.route_index_mappings.push(0);
        self.matrix.push(Vec::new());
        let mut i: usize = 0;
        while i < n + 1
            invariant
                n < i16::MAX,
                self.max_index == n + 1,
                self.route_index_mappings@ == old(self).route_index_mappings@.push(0),
                self.route_pool@ == old(self).route_pool@,
                self.unused_indices@ == old(self).unused_indices@,
                old(self).wf(),
                n == old(self).max_index,
                self.matrix@.len() == n + 1,
                0 <= i <= n + 1,
                forall|a: int| 0 <= a < i ==> (#[trigger] self.matrix@[a])@.len() == n + 1,
                forall|a: int| i <= a < n ==> (#[trigger] self.matrix@[a])@.len() == n,
                self.matrix@[n as int]@.len() == 0 || i > n,
                self.empty == old(self).empty,
                forall|a: int, b: int|
                    0 <= a < n + 1 && 0 <= b < self.matrix@[a]@.len() ==> (#[trigger] self.matrix@[a]@[b]).mv == self.empty
                        || (a < n && b < n && self.matrix@[a]@[b] == old(self).matrix@[a]@[b]),
                forall|a: int, b: int|
                    0 <= a < n + 1 && 0 <= b < self.matrix@[a]@.len() ==> (#[trigger] self.matrix@[a]@[b]).delta.wf(),
            decreases n + 1 - i,
        {
            let ghost mm = self.matrix@;
            let mut row = self.matrix.remove(i);
            assert(row@.len() <= n + 1) by {
                if i < n {
                    assert(mm[i as int]@.len() == n);
                }
            }
            let ghost row0 = row@;
            while row.len() < n + 1
                invariant
                    row@.len() <= n + 1,
                    n < i16::MAX,
                    row0.len() <= row@.len(),
                    forall|b: int| 0 <= b < row0.len() ==> #[trigger] row@[b] == row0[b],
                    forall|b: int| row0.len() <= b < row@.len() ==> (#[trigger] row@[b]).mv == self.empty,
                    forall|b: int| row0.len() <= b < row@.len() ==> (#[trigger] row@[b]).delta.wf(),
                decreases n + 1 - row@.len(),
            {
                row.push(BaseCache::new(self.empty));
            }
            self.matrix.insert(i, row);
            proof {
                assert forall|a: int| 0 <= a < n + 1 && a != i implies #[trigger] self.matrix@[a] == mm[a] by {}
                assert forall|a: int, b: int|
                    0 <= a < n + 1 && 0 <= b < self.matrix@[a]@.len() implies ((#[trigger] self.matrix@[a]@[b]).mv == self.empty
                        || (a < n && b < n && self.matrix@[a]@[b] == old(self).matrix@[a]@[b])) && self.matrix@[a]@[b].delta.wf() by {
                    if a == i {
                        if b < row0.len() {
                            assert(self.matrix@[a]@[b] == mm[a]@[b]);
                        }
                    } else {
                        assert(self.matrix@[a] == mm[a]);
                    }
                }
            }
            i = i + 1;
        }
        proof {
            assert forall|p: spec_fn(T) -> bool| #[trigger] old(self).moves_ok(p) && p(old(self).empty) implies self.moves_ok(p) by {
                assert forall|a: int, b: int| 0 <= a < self.matrix@.len() && 0 <= b < self.matrix@[a]@.len() implies p(
                    #[trigger] self.matrix@[a]@[b].mv,
                ) by {
                    if !(self.matrix@[a]@[b].mv == self.empty) {
                        assert(self.matrix@[a]@[b] == old(self).matrix@[a]@[b]);
                    }
                }
            }
        }
    }

    /// Marks the entry of matrix indices `a` and `b` invalidated.
    fn invalidate(&mut self, a: usize, b: usize)
        requires
            old(self).wf(),
            a < old(self).size(),
            b < old(self).size(),
        ensures
            final(self).wf(),
            final(self).size() == old(self).size(),
            final(self).route_index_mappings@ == old(self).route_index_mappings@,
            final(self).route_pool@ == old(self).route_pool@,
            final(self).unused_indices@ == old(self).unused_indices@,
            final(self).entry(a as int, b as int).invalidated,
            final(self).empty == old(self).empty,
            forall|p: spec_fn(T) -> bool| #[trigger] old(self).moves_ok(p) ==> final(self).moves_ok(p),
    {
        let ghost m0 = self.matrix@;
        let mut row = self.matrix.remove(a);
        let ghost r0 = row@;
        let c = row[b];
        row.set(b, BaseCache { invalidated: true, ..c });
        self.matrix.insert(a, row);
        proof {
            assert forall|p: spec_fn(T) -> bool| #[trigger] old(self).moves_ok(p) implies self.moves_ok(p) by {
                assert forall|x: int, y: int| 0 <= x < self.matrix@.len() && 0 <= y < self.matrix@[x]@.len() implies p(
                    #[trigger] self.matrix@[x]@[y].mv,
                ) by {
                    if x != a {
                        assert(self.matrix@[x] == m0[x]);
                    } else {
                        assert(self.matrix@[x]@[y].mv == r0[y].mv);
                        assert(r0[y] == m0[x]@[y]);
                    }
                }
            }
            assert forall|i: int| 0 <= i < self.max_index implies (#[trigger] self.matrix@[i])@.len() == self.max_index by {
                if i != a {
                    assert(self.matrix@[i] == m0[i]);
                }
            }
        }
    }

    /// Frees the matrix index of route `route_index`.
    pub fn remove_route(&mut self, route_index: Node)
        requires
            old(self).wf(),
            0 <= route_index < old(self).mapped(),
        ensures
            final(self).wf(),
            final(self).mapped() == old(self).mapped(),
            final(self).size() == old(self).size(),
            final(self).free().len() == old(self).free().len() + 1,
            forall|r: int| 0 <= r < old(self).mapped() ==> #[trigger] final(self).index_of(r) == old(self).index_of(r),
            final(self).empty_move() == old(self).empty_move(),
            forall|p: spec_fn(T) -> bool| #[trigger] old(self).moves_ok(p) ==> final(self).moves_ok(p),
    {
        let index = self.route_index_mappings[route_index as usize];
        let mut pos: usize = 0;
        while pos < self.route_pool.len() && self.route_pool[pos] != index
            invariant
                self.wf(),
                pos <= self.route_pool@.len(),
                self.matrix@ == old(self).matrix@,
                self.empty == old(self).empty,
            decreases self.route_pool@.len() - pos,
        {
            pos = pos + 1;
        }
        if pos < self.route_pool.len() {
            self.route_pool.swap_remove(pos);
        }
        self.unused_indices.push(index);
    }

    /// Route `dest_route_index` takes the matrix index of route
    /// `src_route_index`.
    pub fn move_route(&mut self, dest_route_index: Node, src_route_index: Node)
        requires
            old(self).wf(),
            0 <= dest_route_index < old(self).mapped(),
            0 <= src_route_index < old(self).mapped(),
        ensures
            final(self).wf(),
            final(self).mapped() == old(self).mapped(),
            final(self).size() == old(self).size(),
            final(self).free() == old(self).free(),
            final(self).index_of(dest_route_index as int) == old(self).index_of(src_route_index as int),
            forall|r: int|
                0 <= r < old(self).mapped() && r != dest_route_index ==> #[trigger] final(self).index_of(r)
                    == old(self).index_of(r),
            final(self).empty_move() == old(self).empty_move(),
            forall|p: spec_fn(T) -> bool| #[trigger] old(self).moves_ok(p) ==> final(self).moves_ok(p),
    {
        let index = self.route_index_mappings[src_route_index as usize];
        self.route_index_mappings.set(dest_route_index as usize, index);
    }
}


/// A cache whose moves satisfy `p` also satisfies any weaker `q`.
pub proof fn lemma_moves_ok_weaken<T: Copy>(c: &InterRouteCache<T>, p: spec_fn(T) -> bool, q: spec_fn(T) -> bool)
    requires
        c.moves_ok(p),
        forall|m: T| #[trigger] p(m) ==> q(m),
    ensures
        c.moves_ok(q),
{
    assert forall|a: int, b: int| 0 <= a < c.matrix@.len() && 0 <= b < c.matrix@[a]@.len() implies q(
        #[trigger] c.matrix@[a]@[b].mv,
    ) by {
        assert(p(c.matrix@[a]@[b].mv));
    }
}

/// A cache for routes `0..num_routes` whose moves satisfy `p`, whose new
/// entries satisfy `unit`, and with at most `live` matrix indices that are
/// not free.
pub open spec fn cache_fits_live<T: Copy>(
    c: InterRouteCache<T>,
    num_routes: int,
    live: int,
    p: spec_fn(T) -> bool,
    unit: spec_fn(T) -> bool,
) -> bool {
    &&& c.covers(num_routes)
    &&& c.moves_ok(p)
    &&& unit(c.empty_move())
    &&& c.size() - c.free().len() <= live
}

/// A cache for routes `0..num_routes`, with at most as many matrix
/// indices in use as routes.
pub open spec fn cache_fits<T: Copy>(c: InterRouteCache<T>, num_routes: int, p: spec_fn(T) -> bool, unit: spec_fn(T) -> bool) -> bool {
    cache_fits_live(c, num_routes, num_routes, p, unit)
}

/// Every cache of `v` fits, with at most `live` indices in use.
pub open spec fn all_fit_live<T: Copy>(
    v: Seq<InterRouteCache<T>>,
    num_routes: int,
    live: int,
    p: spec_fn(T) -> bool,
    unit: spec_fn(T) -> bool,
) -> bool {
    forall|i: int| 0 <= i < v.len() ==> cache_fits_live(#[trigger] v[i], num_routes, live, p, unit)
}

/// Every cache of `v` fits.
pub open spec fn all_fit<T: Copy>(v: Seq<InterRouteCache<T>>, num_routes: int, p: spec_fn(T) -> bool, unit: spec_fn(T) -> bool) -> bool {
    all_fit_live(v, num_routes, num_routes, p, unit)
}

/// Fewer routes, and no more indices in use than routes, still fit.
pub proof fn lemma_all_fit_shrink<T: Copy>(
    v: Seq<InterRouteCache<T>>,
    n: int,
    live: int,
    m: int,
    p: spec_fn(T) -> bool,
    unit: spec_fn(T) -> bool,
)
    requires
        all_fit_live(v, n, live, p, unit),
        0 <= m <= n,
        live <= m,
    ensures
        all_fit(v, m, p, unit),
{
    assert forall|i: int| 0 <= i < v.len() implies cache_fits_live(#[trigger] v[i], m, m, p, unit) by {
        assert(cache_fits_live(v[i], n, live, p, unit));
    }
}

/// Every cache of `v` is well formed with new entries satisfying `unit`.
pub open spec fn all_wf<T: Copy>(v: Seq<InterRouteCache<T>>, unit: spec_fn(T) -> bool) -> bool {
    forall|i: int| 0 <= i < v.len() ==> (#[trigger] v[i]).wf() && unit(v[i].empty_move())
}

/// Every cache of `v` is fresh for routes `0..n`.
pub open spec fn all_fresh<T: Copy>(v: Seq<InterRouteCache<T>>, n: int) -> bool {
    forall|i: int| 0 <= i < v.len() ==> (#[trigger] v[i]).fresh(n)
}

/// Starts every cache of `v` over for `num_routes` routes.
pub fn reset_all<T: Copy>(v: &mut Vec<InterRouteCache<T>>, num_routes: Node, Ghost(p): Ghost<spec_fn(T) -> bool>, Ghost(unit): Ghost<spec_fn(T) -> bool>)
    requires
        0 <= num_routes,
        all_wf(old(v)@, unit),
        forall|m: T| #[trigger] unit(m) ==> p(m),
    ensures
        all_fit(final(v)@, num_routes as int, p, unit),
        all_fresh(final(v)@, num_routes as int),
        final(v)@.len() == old(v)@.len(),
{
    let mut i: usize = 0;
    while i < v.len()
        invariant
            0 <= num_routes,
            0 <= i <= v@.len(),
            v@.len() == old(v)@.len(),
            all_wf(old(v)@, unit),
            forall|m: T| #[trigger] unit(m) ==> p(m),
            forall|k: int| 0 <= k < i ==> cache_fits(#[trigger] v@[k], num_routes as int, p, unit),
            forall|k: int| 0 <= k < i ==> (#[trigger] v@[k]).fresh(num_routes as int),
            forall|k: int| i <= k < v@.len() ==> #[trigger] v@[k] == old(v)@[k],
        decreases v@.len() - i,
    {
        let ghost v0 = v@;
        let mut c = v.remove(i);
        assert(c == old(v)@[i as int]);
        let ghost e0 = c.empty_move();
        c.reset(num_routes);
        assert(p(e0));
        v.insert(i, c);
        proof {
            assert forall|k: int| 0 <= k < i + 1 implies cache_fits(#[trigger] v@[k], num_routes as int, p, unit)
                && v@[k].fresh(num_routes as int) by {
                if k < i {
                    assert(v@[k] == v0[k]);
                }
            }
            assert forall|k: int| i + 1 <= k < v@.len() implies #[trigger] v@[k] == old(v)@[k] by {
                assert(v@[k] == v0[k]);
            }
        }
        i = i + 1;
    }
}

/// Takes out a cache of `v` (a new one, holding `empty` in new entries and
/// reset for `num_routes` routes, if `v` has none).
pub fn take_from<T: Copy>(
    v: &mut Vec<InterRouteCache<T>>,
    empty: T,
    num_routes: Node,
    Ghost(p): Ghost<spec_fn(T) -> bool>,
    Ghost(unit): Ghost<spec_fn(T) -> bool>,
) -> (r: InterRouteCache<T>)
    requires
        0 <= num_routes,
        all_fit(old(v)@, num_routes as int, p, unit),
        unit(empty),
        forall|m: T| #[trigger] unit(m) ==> p(m),
    ensures
        cache_fits(r, num_routes as int, p, unit),
        all_fit(final(v)@, num_routes as int, p, unit),
        all_fresh(old(v)@, num_routes as int) ==> r.fresh(num_routes as int),
{
    if v.len() > 0 {
        let ghost v0 = v@;
        let c = v.pop().unwrap();
        proof {
            assert(cache_fits(v0[v0.len() - 1], num_routes as int, p, unit));
            assert forall|k: int| 0 <= k < v@.len() implies cache_fits(#[trigger] v@[k], num_routes as int, p, unit) by {
                assert(v@[k] == v0[k]);
            }
        }
        c
    } else {
        let mut c = InterRouteCache::new(empty);
        c.reset(num_routes);
        assert(p(empty));
        c
    }
}

/// Puts back a cache into `v`.
pub fn put_into<T: Copy>(
    v: &mut Vec<InterRouteCache<T>>,
    c: InterRouteCache<T>,
    Ghost(num_routes): Ghost<int>,
    Ghost(p): Ghost<spec_fn(T) -> bool>,
    Ghost(unit): Ghost<spec_fn(T) -> bool>,
)
    requires
        all_fit(old(v)@, num_routes, p, unit),
        cache_fits(c, num_routes, p, unit),
    ensures
        all_fit(final(v)@, num_routes, p, unit),
        final(v)@ == old(v)@.push(c),
{
    let ghost v0 = v@;
    v.push(c);
    proof {
        assert forall|k: int| 0 <= k < v@.len() implies cache_fits(#[trigger] v@[k], num_routes, p, unit) by {
            if k < v0.len() {
                assert(v@[k] == v0[k]);
            }
        }
    }
}

/// The caches of `v` still fit when the moves only need to satisfy a
/// weaker `q`.
pub proof fn lemma_all_fit_weaken<T: Copy>(
    v: Seq<InterRouteCache<T>>,
    num_routes: int,
    p: spec_fn(T) -> bool,
    q: spec_fn(T) -> bool,
    unit: spec_fn(T) -> bool,
)
    requires
        all_fit(v, num_routes, p, unit),
        forall|m: T| #[trigger] p(m) ==> q(m),
    ensures
        all_fit(v, num_routes, q, unit),
{
    assert forall|i: int| 0 <= i < v.len() implies cache_fits(#[trigger] v[i], num_routes, q, unit) by {
        assert(cache_fits(v[i], num_routes, p, unit));
        lemma_moves_ok_weaken(&v[i], p, q);
    }
}

} // verus!
