//! Shortest paths through customers (Floyd-Warshall over intermediate
//! nodes `1..n`), and restoration of the customers a solution passes by on
//! its shortened edges.
use vstd::prelude::*;
use crate::instance::{Node, MAX_DISTANCE};
use crate::inter_operator::{delivered, lemma_delivered_push};
use crate::solution::AlkaidSolution;

verus! {

/// `m` is an `n`-by-`n` matrix with entries in `0..=MAX_DISTANCE`.
pub open spec fn matrix_ok(m: Seq<Vec<i32>>, n: int) -> bool {
    &&& m.len() == n
    &&& forall|i: int| 0 <= i < n ==> (#[trigger] m[i])@.len() == n
    &&& forall|i: int, j: int| 0 <= i < n && 0 <= j < n ==> 0 <= #[trigger] m[i]@[j] <= MAX_DISTANCE
}

/// Distance from `i` to `j` through intermediate nodes `1..k` only
/// (`k <= 1`: the direct distance), as the rounds of Floyd-Warshall
/// compute it.
pub open spec fn fw_dist(m0: Seq<Vec<i32>>, k: int, i: int, j: int) -> int
    decreases k,
{
    if k <= 1 {
        m0[i]@[j] as int
    } else {
        let a = fw_dist(m0, k - 1, i, j);
        let b = fw_dist(m0, k - 1, i, k - 1) + fw_dist(m0, k - 1, k - 1, j);
        if b < a {
            b
        } else {
            a
        }
    }
}

/// The last intermediate node that shortened the distance from `i` to `j`
/// in the rounds `1..k` (0: none).
pub open spec fn fw_prev(m0: Seq<Vec<i32>>, k: int, i: int, j: int) -> int
    decreases k,
{
    if k <= 1 {
        0
    } else {
        let a = fw_dist(m0, k - 1, i, j);
        let b = fw_dist(m0, k - 1, i, k - 1) + fw_dist(m0, k - 1, k - 1, j);
        if b < a {
            k - 1
        } else {
            fw_prev(m0, k - 1, i, j)
        }
    }
}

/// Round distances stay within `0..=MAX_DISTANCE` and never grow.
pub proof fn lemma_fw_bounds(m0: Seq<Vec<i32>>, n: int, k: int, i: int, j: int)
    requires
        matrix_ok(m0, n),
        k <= n,
        0 <= i < n,
        0 <= j < n,
    ensures
        0 <= fw_dist(m0, k, i, j) <= m0[i]@[j] <= MAX_DISTANCE,
    decreases k,
{
    if k > 1 {
        lemma_fw_bounds(m0, n, k - 1, i, j);
        lemma_fw_bounds(m0, n, k - 1, i, k - 1);
        lemma_fw_bounds(m0, n, k - 1, k - 1, j);
    }
}

/// Travel cost of the node sequence `p` under the matrix `m`: the sum of
/// the entries of its consecutive pairs.
pub open spec fn path_cost(m: Seq<Vec<i32>>, p: Seq<int>) -> int
    decreases p.len(),
{
    if p.len() < 2 {
        0
    } else {
        m[p[0]]@[p[1]] as int + path_cost(m, p.drop_first())
    }
}

/// `p` goes from `i` to `j` over nodes `0..n`, passing only by the nodes
/// `1..k` in between.
pub open spec fn path_through(p: Seq<int>, n: int, k: int, i: int, j: int) -> bool {
    &&& p.len() >= 2
    &&& p[0] == i
    &&& p.last() == j
    &&& forall|t: int| 0 <= t < p.len() ==> 0 <= #[trigger] p[t] < n
    &&& forall|t: int| 0 < t < p.len() - 1 ==> 1 <= #[trigger] p[t] < k
}

/// Some path from `i` to `j` passing only by customers costs `v`.
pub open spec fn some_path_costs(m: Seq<Vec<i32>>, n: int, i: int, j: int, v: int) -> bool {
    exists|p: Seq<int>| path_through(p, n, n, i, j) && #[trigger] path_cost(m, p) == v
}

/// A path's cost splits at any of its nodes.
pub proof fn lemma_path_cost_split(m: Seq<Vec<i32>>, p: Seq<int>, f: int)
    requires
        0 <= f < p.len(),
    ensures
        path_cost(m, p) == path_cost(m, p.take(f + 1)) + path_cost(m, p.skip(f)),
    decreases f,
{
    if f == 0 {
        assert(p.skip(0) =~= p);
        assert(path_cost(m, p.take(1)) == 0);
    } else {
        let df = p.drop_first();
        lemma_path_cost_split(m, df, f - 1);
        assert(df.skip(f - 1) =~= p.skip(f));
        assert(p.take(f + 1).drop_first() =~= df.take(f));
        assert(p.take(f + 1)[0] == p[0] && p.take(f + 1)[1] == p[1]);
    }
}

/// Path costs over a matrix of non-negative entries are non-negative.
proof fn lemma_path_cost_nonneg(m: Seq<Vec<i32>>, n: int, p: Seq<int>)
    requires
        matrix_ok(m, n),
        forall|t: int| 0 <= t < p.len() ==> 0 <= #[trigger] p[t] < n,
    ensures
        path_cost(m, p) >= 0,
    decreases p.len(),
{
    if p.len() >= 2 {
        let df = p.drop_first();
        assert forall|t: int| 0 <= t < df.len() implies 0 <= #[trigger] df[t] < n by {
            assert(df[t] == p[t + 1]);
        }
        lemma_path_cost_nonneg(m, n, df);
        assert(0 <= p[0] < n && 0 <= p[1] < n);
    }
}

/// Passing by node `k - 1` does not shorten a distance to or from it.
proof fn lemma_fw_round_end(m0: Seq<Vec<i32>>, n: int, k: int, i: int)
    requires
        matrix_ok(m0, n),
        1 < k <= n,
        0 <= i < n,
    ensures
        fw_dist(m0, k, i, k - 1) == fw_dist(m0, k - 1, i, k - 1),
        fw_dist(m0, k, k - 1, i) == fw_dist(m0, k - 1, k - 1, i),
{
    lemma_fw_bounds(m0, n, k - 1, k - 1, k - 1);
    lemma_fw_bounds(m0, n, k - 1, k - 1, i);
    lemma_fw_bounds(m0, n, k - 1, i, k - 1);
}

/// Shortest paths: the round-`k` distance from `i` to `j` is at most the
/// cost of every path between them that passes only by nodes `1..k`.
pub proof fn lemma_fw_at_most_path(m0: Seq<Vec<i32>>, n: int, k: int, p: Seq<int>)
    requires
        matrix_ok(m0, n),
        1 <= k <= n,
        path_through(p, n, k, p[0], p.last()),
    ensures
        fw_dist(m0, k, p[0], p.last()) <= path_cost(m0, p),
    decreases k, p.len(),
{
    let i = p[0];
    let j = p.last();
    if k == 1 {
        if p.len() > 2 {
            assert(1 <= p[1] < 1);
        }
        assert(p.drop_first().len() == 1);
        assert(path_cost(m0, p.drop_first()) == 0);
    } else {
        let c = k - 1;
        if exists|f: int| 0 < f < p.len() - 1 && p[f] == c {
            let f = choose|f: int| 0 < f < p.len() - 1 && p[f] == c;
            let q = p.take(f + 1);
            let s = p.skip(f);
            assert(path_through(q, n, k, i, c)) by {
                assert forall|t: int| 0 <= t < q.len() implies 0 <= #[trigger] q[t] < n by {
                    assert(q[t] == p[t]);
                }
                assert forall|t: int| 0 < t < q.len() - 1 implies 1 <= #[trigger] q[t] < k by {
                    assert(q[t] == p[t]);
                }
            }
            assert(path_through(s, n, k, c, j)) by {
                assert forall|t: int| 0 <= t < s.len() implies 0 <= #[trigger] s[t] < n by {
                    assert(s[t] == p[t + f]);
                }
                assert forall|t: int| 0 < t < s.len() - 1 implies 1 <= #[trigger] s[t] < k by {
                    assert(s[t] == p[t + f]);
                }
                assert(s.last() == p.last());
            }
            lemma_fw_at_most_path(m0, n, k, q);
            lemma_fw_at_most_path(m0, n, k, s);
            lemma_fw_round_end(m0, n, k, i);
            lemma_fw_round_end(m0, n, k, j);
            lemma_path_cost_split(m0, p, f);
        } else {
            assert(path_through(p, n, k - 1, i, j)) by {
                assert forall|t: int| 0 < t < p.len() - 1 implies 1 <= #[trigger] p[t] < k - 1 by {
                    assert(p[t] != c);
                }
            }
            lemma_fw_at_most_path(m0, n, k - 1, p);
        }
    }
}

/// Every round-`k` distance is the cost of some path passing only by
/// nodes `1..k`.
pub proof fn lemma_fw_is_path(m0: Seq<Vec<i32>>, n: int, k: int, i: int, j: int)
    requires
        matrix_ok(m0, n),
        1 <= k <= n,
        0 <= i < n,
        0 <= j < n,
    ensures
        exists|p: Seq<int>| path_through(p, n, k, i, j) && #[trigger] path_cost(m0, p) == fw_dist(m0, k, i, j),
    decreases k,
{
    if k == 1 {
        let p = seq![i, j];
        assert(p.drop_first() =~= seq![j]);
        assert(path_cost(m0, p.drop_first()) == 0);
        assert(path_through(p, n, k, i, j));
        assert(path_cost(m0, p) == fw_dist(m0, k, i, j));
    } else {
        let c = k - 1;
        lemma_fw_is_path(m0, n, k - 1, i, j);
        lemma_fw_is_path(m0, n, k - 1, i, c);
        lemma_fw_is_path(m0, n, k - 1, c, j);
        let a = fw_dist(m0, k - 1, i, j);
        let b = fw_dist(m0, k - 1, i, c) + fw_dist(m0, k - 1, c, j);
        if b < a {
            let p1 = choose|p: Seq<int>| path_through(p, n, k - 1, i, c) && #[trigger] path_cost(m0, p) == fw_dist(m0, k - 1, i, c);
            let p2 = choose|p: Seq<int>| path_through(p, n, k - 1, c, j) && #[trigger] path_cost(m0, p) == fw_dist(m0, k - 1, c, j);
            let p = p1 + p2.drop_first();
            let f = p1.len() - 1;
            assert(p.take(f + 1) =~= p1);
            assert(p.skip(f) =~= p2);
            lemma_path_cost_split(m0, p, f);
            assert(path_through(p, n, k, i, j)) by {
                assert forall|t: int| 0 <= t < p.len() implies 0 <= #[trigger] p[t] < n by {
                    if t < p1.len() {
                        assert(p[t] == p1[t]);
                    } else {
                        assert(p[t] == p2[t - f]);
                    }
                }
                assert forall|t: int| 0 < t < p.len() - 1 implies 1 <= #[trigger] p[t] < k by {
                    if t < f {
                        assert(p[t] == p1[t]);
                    } else if t == f {
                        assert(p[t] == p1[f]);
                    } else {
                        assert(p[t] == p2[t - f]);
                    }
                }
                assert(p.last() == p2.last());
            }
            assert(path_cost(m0, p) == fw_dist(m0, k, i, j));
        } else {
            let p = choose|p: Seq<int>| path_through(p, n, k - 1, i, j) && #[trigger] path_cost(m0, p) == fw_dist(m0, k - 1, i, j);
            assert(path_through(p, n, k, i, j));
            assert(path_cost(m0, p) == fw_dist(m0, k, i, j));
        }
    }
}

/// A copy of a row.
fn copy_row(row: &Vec<i32>) -> (r: Vec<i32>)
    ensures
        r@ == row@,
{
    let mut r: Vec<i32> = Vec::new();
    let mut j: usize = 0;
    while j < row.len()
        invariant
            0 <= j <= row@.len(),
            r@ == row@.take(j as int),
        decreases row@.len() - j,
    {
        r.push(row[j]);
        j = j + 1;
        assert(r@ =~= row@.take(j as int));
    }
    assert(r@ =~= row@);
    r
}

/// Shortest distances through customers, and the intermediate node of each
/// shortened pair.
#[derive(Debug, Clone)]
pub struct DistanceMatrixOptimizer {
    original: Vec<Vec<i32>>,
    previous_node_indices: Vec<Vec<Node>>,
}

impl DistanceMatrixOptimizer {
    /// The matrix before optimization.
    pub closed spec fn original(&self) -> Seq<Vec<i32>> {
        self.original@
    }

    /// Intermediate node of each pair (0: the direct edge).
    pub closed spec fn prev(&self) -> Seq<Vec<Node>> {
        self.previous_node_indices@
    }

    /// The shortened edge from the depot to the first customer of the
    /// `q`-th route of `sol` passes by another customer.
    pub open spec fn first_leg_skips(&self, sol: &AlkaidSolution, q: int) -> bool {
        self.prev()[0]@[sol.nodes()[sol.heads_of()[q] as int].customer as int] != 0
    }

    /// Number of nodes.
    pub open spec fn size(&self) -> int {
        self.original().len() as int
    }

    /// The intermediate nodes form an `n`-by-`n` matrix of nodes.
    pub open spec fn wf(&self) -> bool {
        let n = self.size();
        &&& n <= i16::MAX
        &&& self.prev().len() == n
        &&& forall|i: int| 0 <= i < n ==> (#[trigger] self.prev()[i])@.len() == n
        &&& forall|i: int, j: int| 0 <= i < n && 0 <= j < n ==> 0 <= #[trigger] self.prev()[i]@[j] < n
    }

    /// Replaces each distance by the shortest distance through customers
    /// (Floyd-Warshall over intermediate nodes `1..n`) and records, for each
    /// pair, the last intermediate node that shortened it.
    pub fn new(distance_matrix: &mut Vec<Vec<i32>>) -> (r: Self)
        requires
            matrix_ok(old(distance_matrix)@, old(distance_matrix)@.len() as int),
            old(distance_matrix)@.len() <= i16::MAX,
        ensures
            r.wf(),
            r.size() == old(distance_matrix)@.len(),
            forall|i: int| 0 <= i < r.size() ==> (#[trigger] r.original()[i])@ == old(distance_matrix)@[i]@,
            final(distance_matrix)@.len() == old(distance_matrix)@.len(),
            forall|i: int|
                0 <= i < r.size() ==> (#[trigger] final(distance_matrix)@[i])@.len() == r.size(),
            forall|i: int, j: int|
                0 <= i < r.size() && 0 <= j < r.size() ==> #[trigger] final(distance_matrix)@[i]@[j] == fw_dist(
                    old(distance_matrix)@,
                    r.size(),
                    i,
                    j,
                ),
            forall|i: int, j: int|
                0 <= i < r.size() && 0 <= j < r.size() ==> #[trigger] r.prev()[i]@[j] == fw_prev(
                    old(distance_matrix)@,
                    r.size(),
                    i,
                    j,
                ),
            forall|i: int, j: int, p: Seq<int>|
                path_through(p, r.size(), r.size(), i, j) ==> #[trigger] final(distance_matrix)@[i]@[j] <= #[trigger] path_cost(
                    old(distance_matrix)@,
                    p,
                ),
            forall|i: int, j: int|
                0 <= i < r.size() && 0 <= j < r.size() ==> #[trigger] some_path_costs(
                    old(distance_matrix)@,
                    r.size(),
                    i,
                    j,
                    final(distance_matrix)@[i]@[j] as int,
                ),
    {
        let ghost m0 = distance_matrix@;
        let n = distance_matrix.len();
        let ghost nn = n as int;
        let mut original: Vec<Vec<i32>> = Vec::new();
        let mut previous_node_indices: Vec<Vec<Node>> = Vec::new();
        let mut i: usize = 0;
        while i < n
            invariant
                n == distance_matrix@.len(),
                distance_matrix@ == m0,
                matrix_ok(m0, nn),
                nn == n,
                0 <= i <= n,
                original@.len() == i,
                previous_node_indices@.len() == i,
                forall|a: int| 0 <= a < i ==> (#[trigger] original@[a])@ == m0[a]@,
                forall|a: int| 0 <= a < i ==> (#[trigger] previous_node_indices@[a])@.len() == n,
                forall|a: int, b: int| 0 <= a < i && 0 <= b < n ==> #[trigger] previous_node_indices@[a]@[b] == 0,
            decreases n - i,
        {
            original.push(copy_row(&distance_matrix[i]));
            let mut row: Vec<Node> = Vec::new();
            let mut j: usize = 0;
            while j < n
                invariant
                    0 <= j <= n,
                    row@.len() == j,
                    forall|b: int| 0 <= b < j ==> #[trigger] row@[b] == 0,
                decreases n - j,
            {
                row.push(0);
                j = j + 1;
            }
            previous_node_indices.push(row);
            i = i + 1;
        }
        let mut k: usize = 1;
        while k < n
            invariant
                matrix_ok(m0, nn),
                nn == n,
                n <= i16::MAX,
                1 <= k <= n || n == 0,
                distance_matrix@.len() == n,
                previous_node_indices@.len() == n,
                forall|a: int| 0 <= a < n ==> (#[trigger] distance_matrix@[a])@.len() == n,
                forall|a: int| 0 <= a < n ==> (#[trigger] previous_node_indices@[a])@.len() == n,
                forall|a: int, b: int|
                    0 <= a < n && 0 <= b < n ==> #[trigger] distance_matrix@[a]@[b] == fw_dist(m0, k as int, a, b),
                forall|a: int, b: int|
                    0 <= a < n && 0 <= b < n ==> #[trigger] previous_node_indices@[a]@[b] == fw_prev(m0, k as int, a, b),
            decreases n - k,
        {
            let row_k = copy_row(&distance_matrix[k]);
            let mut i: usize = 0;
            while i < n
                invariant
                    matrix_ok(m0, nn),
                    nn == n,
                    n <= i16::MAX,
                    1 <= k < n,
                    0 <= i <= n,
                    row_k@ == distance_matrix@[k as int]@ || k < i,
                    forall|b: int| 0 <= b < n ==> #[trigger] row_k@[b] == fw_dist(m0, k as int, k as int, b),
                    row_k@.len() == n,
                    distance_matrix@.len() == n,
                    previous_node_indices@.len() == n,
                    forall|a: int| 0 <= a < n ==> (#[trigger] distance_matrix@[a])@.len() == n,
                    forall|a: int| 0 <= a < n ==> (#[trigger] previous_node_indices@[a])@.len() == n,
                    forall|a: int, b: int|
                        0 <= a < n && 0 <= b < n ==> #[trigger] distance_matrix@[a]@[b] == fw_dist(
                            m0,
                            if a < i { k + 1 } else { k as int },
                            a,
                            b,
                        ),
                    forall|a: int, b: int|
                        0 <= a < n && 0 <= b < n ==> #[trigger] previous_node_indices@[a]@[b] == fw_prev(
                            m0,
                            if a < i { k + 1 } else { k as int },
                            a,
                            b,
                        ),
                decreases n - i,
            {
                let ghost dm = distance_matrix@;
                let ghost pm = previous_node_indices@;
                let mut row = distance_matrix.remove(i);
                let mut prow = previous_node_indices.remove(i);
                let dik = row[k];
                proof {
                    assert(row@[k as int] == dm[i as int]@[k as int]);
                    lemma_fw_bounds(m0, nn, k as int, i as int, k as int);
                }
                let mut j: usize = 0;
                while j < n
                    invariant
                        matrix_ok(m0, nn),
                        nn == n,
                        n <= i16::MAX,
                        1 <= k < n,
                        0 <= i < n,
                        0 <= j <= n,
                        dik == fw_dist(m0, k as int, i as int, k as int),
                        0 <= dik <= MAX_DISTANCE,
                        forall|b: int| 0 <= b < n ==> #[trigger] row_k@[b] == fw_dist(m0, k as int, k as int, b),
                        row_k@.len() == n,
                        row@.len() == n,
                        prow@.len() == n,
                        forall|b: int|
                            0 <= b < n ==> #[trigger] row@[b] == fw_dist(m0, if b < j { k + 1 } else { k as int }, i as int, b),
                        forall|b: int|
                            0 <= b < n ==> #[trigger] prow@[b] == fw_prev(m0, if b < j { k + 1 } else { k as int }, i as int, b),
                    decreases n - j,
                {
                    proof {
                        lemma_fw_bounds(m0, nn, k as int, k as int, j as int);
                    }
                    let distance = dik + row_k[j];
                    if row[j] > distance {
                        row.set(j, distance);
                        prow.set(j, k as Node);
                    }
                    j = j + 1;
                }
                distance_matrix.insert(i, row);
                previous_node_indices.insert(i, prow);
                proof {
                    assert forall|a: int, b: int| 0 <= a < n && 0 <= b < n implies #[trigger] distance_matrix@[a]@[b] == fw_dist(
                        m0,
                        if a < i + 1 { k + 1 } else { k as int },
                        a,
                        b,
                    ) by {
                        if a != i {
                            assert(distance_matrix@[a] == dm[a]);
                        }
                    }
                    assert forall|a: int, b: int| 0 <= a < n && 0 <= b < n implies #[trigger] previous_node_indices@[a]@[b] == fw_prev(
                        m0,
                        if a < i + 1 { k + 1 } else { k as int },
                        a,
                        b,
                    ) by {
                        if a != i {
                            assert(previous_node_indices@[a] == pm[a]);
                        }
                    }
                }
                i = i + 1;
            }
            k = k + 1;
        }
        let r = DistanceMatrixOptimizer { original, previous_node_indices };
        proof {
            assert forall|a: int, b: int, p: Seq<int>| path_through(p, nn, nn, a, b) implies #[trigger] distance_matrix@[a]@[b]
                <= #[trigger] path_cost(m0, p) by {
                lemma_fw_at_most_path(m0, nn, nn, p);
            }
            assert forall|a: int, b: int| 0 <= a < nn && 0 <= b < nn implies #[trigger] some_path_costs(
                m0,
                nn,
                a,
                b,
                distance_matrix@[a]@[b] as int,
            ) by {
                lemma_fw_is_path(m0, nn, nn, a, b);
                let p = choose|p: Seq<int>| path_through(p, nn, nn, a, b) && #[trigger] path_cost(m0, p) == fw_dist(m0, nn, a, b);
                assert(distance_matrix@[a]@[b] == fw_dist(m0, nn, a, b));
                assert(path_through(p, nn, nn, a, b) && path_cost(m0, p) == distance_matrix@[a]@[b]);
            }
            if n > 0 {
                assert forall|a: int, b: int| 0 <= a < n && 0 <= b < n implies 0 <= #[trigger] r.prev()[a]@[b] < n by {
                    lemma_fw_prev_range(m0, nn, nn, a, b);
                }
            }
        }
        r
    }

    /// Intermediate node recorded for the pair `(i, j)`.
    pub fn previous_node_index(&self, i: Node, j: Node) -> (r: Node)
        requires
            self.wf(),
            0 <= i < self.size(),
            0 <= j < self.size(),
        ensures
            r == self.prev()[i as int]@[j as int],
    {
        let row = &self.previous_node_indices[i as usize];
        row[j as usize]
    }
}

/// Every slot serves a node below `n`.
pub open spec fn customers_below(sol: &AlkaidSolution, n: int) -> bool {
    forall|x: int| 0 <= x < sol.nodes().len() ==> 0 <= (#[trigger] sol.nodes()[x]).customer < n
}

/// What restoring keeps: the used slots stay used, in the same order, with
/// their customers and loads; the slots added carry no load.
pub open spec fn restore_keeps(before: &AlkaidSolution, after: &AlkaidSolution) -> bool {
    &&& after.nodes().len() >= before.nodes().len()
    &&& after.used().len() >= before.used().len()
    &&& after.used().take(before.used().len() as int) == before.used()
    &&& forall|k: int|
        0 <= k < before.used().len() ==> {
            let x = #[trigger] before.used()[k] as int;
            &&& after.nodes()[x].customer == before.nodes()[x].customer
            &&& after.nodes()[x].load == before.nodes()[x].load
        }
    &&& forall|k: int|
        before.used().len() <= k < after.used().len() ==> after.nodes()[#[trigger] after.used()[k] as int].load == 0
    &&& after.used().len() + after.room() == before.used().len() + before.room()
}

proof fn lemma_restore_keeps_trans(a: &AlkaidSolution, b: &AlkaidSolution, c: &AlkaidSolution)
    requires
        restore_keeps(a, b),
        restore_keeps(b, c),
        b.wf(),
    ensures
        restore_keeps(a, c),
{
    assert(c.used().take(a.used().len() as int) =~= a.used()) by {
        assert forall|k: int| 0 <= k < a.used().len() implies c.used()[k] == a.used()[k] by {
            assert(b.used()[k] == a.used()[k]);
            assert(c.used()[k] == b.used()[k]);
        }
    }
    assert forall|k: int| 0 <= k < a.used().len() implies {
        let x = #[trigger] a.used()[k] as int;
        &&& c.nodes()[x].customer == a.nodes()[x].customer
        &&& c.nodes()[x].load == a.nodes()[x].load
    } by {
        assert(b.used()[k] == a.used()[k]);
    }
    assert forall|k: int| a.used().len() <= k < c.used().len() implies c.nodes()[#[trigger] c.used()[k] as int].load == 0 by {
        if k < b.used().len() {
            assert(c.used()[k] == b.used()[k]);
        }
    }
}

impl DistanceMatrixOptimizer {
    /// Inserts, between slots `i` and `j`, the customers the shortened edge
    /// between their customers passes by (with no load), recursively, down
    /// to `depth` levels; it stops when the pool of slots is full.
    fn restore_path(&self, solution: &mut AlkaidSolution, i: Node, j: Node, depth: usize)
        requires
            self.wf(),
            old(solution).wf(),
            customers_below(old(solution), self.size()),
            old(solution).is_slot(i as int),
            old(solution).is_slot(j as int),
        ensures
            final(solution).wf(),
            customers_below(final(solution), self.size()),
            restore_keeps(old(solution), final(solution)),
            forall|c: int| #[trigger] delivered(final(solution), c) == delivered(old(solution), c),
            ({
                let ci = old(solution).nodes()[i as int].customer as int;
                let cj = old(solution).nodes()[j as int].customer as int;
                let w = self.prev()[ci]@[cj];
                if depth > 0 && w != 0 && old(solution).room() > 0 {
                    let t = old(solution).next_slot();
                    &&& final(solution).used().len() > old(solution).used().len()
                    &&& final(solution).used()[old(solution).used().len() as int] == t
                    &&& final(solution).nodes()[t as int].customer == w
                    &&& final(solution).nodes()[t as int].load == 0
                } else {
                    *final(solution) == *old(solution)
                }
            }),
        decreases depth,
    {
        if depth == 0 {
            proof {
                assert(solution.used().take(solution.used().len() as int) =~= solution.used());
            }
            return;
        }
        let ci = solution.customer(i);
        let cj = solution.customer(j);
        let customer = self.previous_node_index(ci, cj);
        if customer != 0 && solution.room_left() > 0 {
            let ghost s0 = *solution;
            let k = solution.insert(customer, 0, i, j);
            proof {
                crate::solution::lemma_insert_frame(s0, customer, 0, i, j);
                let t = s0.next_slot() as int;
                assert forall|x: int| 0 <= x < solution.nodes().len() implies 0 <= (#[trigger] solution.nodes()[x]).customer
                    < self.size() by {
                    if x != t {
                        assert(solution.nodes()[x].customer == s0.nodes()[x].customer);
                    }
                }
                assert(solution.used().take(s0.used().len() as int) =~= s0.used());
                assert forall|q: int| 0 <= q < s0.used().len() implies {
                    let x = #[trigger] s0.used()[q] as int;
                    &&& solution.nodes()[x].customer == s0.nodes()[x].customer
                    &&& solution.nodes()[x].load == s0.nodes()[x].load
                } by {
                    assert(s0.used().contains(s0.used()[q]));
                    assert(s0.used()[q] < s0.nodes().len());
                }
                lemma_delivered_push(&s0, solution, k);
                assert(solution.room() == s0.room() - 1);
            }
            let ghost s1 = *solution;
            self.restore_path(solution, i, k, depth - 1);
            let ghost s2 = *solution;
            self.restore_path(solution, k, j, depth - 1);
            proof {
                lemma_restore_keeps_trans(&s0, &s1, &s2);
                lemma_restore_keeps_trans(&s0, &s2, solution);
                lemma_restore_keeps_trans(&s1, &s2, solution);
                let m = s0.used().len() as int;
                assert(s1.used()[m] == k);
                assert(solution.used().take(s1.used().len() as int)[m] == s1.used()[m]);
                assert(solution.used()[m] == k);
            }
        } else {
            proof {
                assert(solution.used().take(solution.used().len() as int) =~= solution.used());
            }
        }
    }

    /// Puts back, on every route (walked from its head to the depot, or
    /// for as many steps as there were slots), the customers that the
    /// shortened edges pass by, with no load.
    pub fn restore(&self, solution: &mut AlkaidSolution)
        requires
            self.wf(),
            old(solution).wf(),
            customers_below(old(solution), self.size()),
        ensures
            final(solution).wf(),
            customers_below(final(solution), self.size()),
            restore_keeps(old(solution), final(solution)),
            forall|c: int| #[trigger] delivered(final(solution), c) == delivered(old(solution), c),
            old(solution).room() > 0 && (exists|q: int|
                0 <= q < old(solution).heads_of().len() && #[trigger] self.first_leg_skips(old(solution), q))
                ==> final(solution).used().len() > old(solution).used().len(),
    {
        let heads = solution.route_heads();
        let ghost s_start = *solution;
        proof {
            assert(solution.used().take(solution.used().len() as int) =~= solution.used());
        }
        let depth = self.previous_node_indices.len();
        let mut h: usize = 0;
        while h < heads.len()
            invariant
                self.wf(),
                solution.wf(),
                customers_below(solution, self.size()),
                restore_keeps(old(solution), solution),
                forall|c: int| #[trigger] delivered(solution, c) == delivered(old(solution), c),
                s_start == *old(solution),
                s_start.wf(),
                forall|k: int| 0 <= k < heads@.len() ==> s_start.used().contains(#[trigger] heads@[k]),
                0 <= h <= heads@.len(),
                heads@ == s_start.heads_of(),
                depth == self.prev().len(),
                solution.used().len() > s_start.used().len() || s_start.room() == 0 || forall|q: int|
                    0 <= q < h ==> !#[trigger] self.first_leg_skips(&s_start, q),
            decreases heads@.len() - h,
        {
            let head = heads[h];
            proof {
                assert(s_start.used().contains(heads@[h as int]));
                let q = choose|q: int| 0 <= q < s_start.used().len() && s_start.used()[q] == head;
                assert(s_start.used()[q] < s_start.nodes().len());
            }
            let ghost s_h = *solution;
            let mut predecessor: Node = 0;
            let mut node_index = head;
            let len = solution.node_data_len();
            let mut steps: usize = 0;
            while node_index != 0 && steps < len
                invariant
                    self.wf(),
                    solution.wf(),
                    customers_below(solution, self.size()),
                    restore_keeps(old(solution), solution),
                    forall|c: int| #[trigger] delivered(solution, c) == delivered(old(solution), c),
                    solution.is_slot(predecessor as int),
                    solution.is_slot(node_index as int),
                    steps <= len,
                    s_start == *old(solution),
                    s_start.wf(),
                    restore_keeps(&s_start, &s_h),
                    0 <= h < heads@.len(),
                    head == heads@[h as int],
                    heads@ == s_start.heads_of(),
                    s_start.used().contains(head),
                    depth == self.prev().len(),
                    solution.used().len() >= s_h.used().len(),
                    steps == 0 ==> predecessor == 0 && node_index == head && *solution == s_h,
                    steps > 0 ==> solution.used().len() > s_start.used().len() || s_start.room() == 0
                        || !self.first_leg_skips(&s_start, h as int),
                decreases len - steps,
            {
                let ghost s1 = *solution;
                self.restore_path(solution, predecessor, node_index, depth);
                proof {
                    lemma_restore_keeps_trans(old(solution), &s1, solution);
                    if steps == 0 {
                        let q = choose|q: int| 0 <= q < s_start.used().len() && s_start.used()[q] == head;
                        assert(s1.nodes()[head as int].customer == s_start.nodes()[head as int].customer);
                        assert(self.prev().len() > 0) by {
                            assert(0 <= s1.nodes()[0].customer < self.size());
                        }
                        if self.first_leg_skips(&s_start, h as int) && s_start.room() > 0
                            && s1.used().len() <= s_start.used().len() {
                            assert(s1.room() == s_start.room());
                        }
                    }
                }
                predecessor = node_index;
                node_index = solution.successor(node_index);
                steps = steps + 1;
            }
            proof {
                if steps == 0 {
                    let q = choose|q: int| 0 <= q < s_start.used().len() && s_start.used()[q] == head;
                    assert(head >= 1);
                }
            }
            let ghost s1 = *solution;
            self.restore_path(solution, predecessor, 0, depth);
            proof {
                lemma_restore_keeps_trans(old(solution), &s1, solution);
                assert forall|q: int| 0 <= q < h + 1 && solution.used().len() <= s_start.used().len()
                    && s_start.room() > 0 implies !#[trigger] self.first_leg_skips(&s_start, q) by {
                    if q < h {
                        assert(s_h.used().len() <= s_start.used().len());
                    }
                }
            }
            h = h + 1;
        }
    }
}

/// Recorded intermediate nodes are nodes.
proof fn lemma_fw_prev_range(m0: Seq<Vec<i32>>, n: int, k: int, i: int, j: int)
    requires
        matrix_ok(m0, n),
        k <= n,
        0 <= i < n,
        0 <= j < n,
    ensures
        0 <= fw_prev(m0, k, i, j) < n,
    decreases k,
{
    if k > 1 {
        lemma_fw_prev_range(m0, n, k - 1, i, j);
    }
}

} // verus!
