//! Routes as explicit sequences of slots linked both ways, and how removing
//! or inserting a slot changes them.
use vstd::prelude::*;
use crate::instance::Node;
use crate::solution::{AlkaidSolution, NodeData, cust_of, load_of, succ_of, pred_of, walk, route_len_is, is_route, route_length, route_seq, linked};

verus! {

/// Slots `r[i]` and `r[i + 1]` are linked both ways.
pub open spec fn link_at(d: Seq<NodeData>, r: Seq<Node>, i: int) -> bool {
    succ_of(d, r[i] as int) == r[i + 1] as int && pred_of(d, r[i + 1] as int) == r[i] as int
}

/// `r` is a route of `d`: distinct non-depot slots, consecutive slots linked
/// both ways, the first slot coming from the depot and the last one going
/// back to it.
pub open spec fn chain(d: Seq<NodeData>, r: Seq<Node>) -> bool {
    &&& r.no_duplicates()
    &&& forall|i: int| 0 <= i < r.len() ==> 0 < #[trigger] r[i] < d.len()
    &&& forall|i: int| 0 <= i < r.len() - 1 ==> #[trigger] link_at(d, r, i)
    &&& r.len() > 0 ==> pred_of(d, r[0] as int) == 0 && succ_of(d, r.last() as int) == 0
}

/// First slot of `r`, or the depot when `r` is empty.
pub open spec fn first_of(r: Seq<Node>) -> int {
    if r.len() > 0 {
        r[0] as int
    } else {
        0
    }
}

/// Walking successors from the first slot of a chain visits its slots in
/// order and then the depot.
pub proof fn lemma_chain_walk(d: Seq<NodeData>, r: Seq<Node>, k: nat)
    requires
        chain(d, r),
        k <= r.len(),
    ensures
        walk(d, first_of(r), k) == if k < r.len() {
            r[k as int] as int
        } else {
            0
        },
    decreases k,
{
    if k > 0 {
        lemma_chain_walk(d, r, (k - 1) as nat);
        if k < r.len() {
            assert(link_at(d, r, k - 1));
        }
    }
}

/// A chain shorter than the pool is the route from its first slot.
pub proof fn lemma_chain_route(d: Seq<NodeData>, r: Seq<Node>)
    requires
        chain(d, r),
        r.len() < d.len(),
    ensures
        is_route(d, first_of(r)),
        route_length(d, first_of(r)) == r.len(),
        route_seq(d, first_of(r)) == r,
{
    assert forall|k: nat| k < r.len() implies walk(d, first_of(r), k) != 0 by {
        lemma_chain_walk(d, r, k);
    }
    lemma_chain_walk(d, r, r.len());
    assert(route_len_is(d, first_of(r), r.len()));
    crate::solution::lemma_route_length(d, first_of(r), r.len());
    assert forall|k: int| 0 <= k < r.len() implies route_seq(d, first_of(r))[k] == r[k] by {
        lemma_chain_walk(d, r, k as nat);
    }
    assert(route_seq(d, first_of(r)) =~= r);
}

/// A duplicate-free sequence whose items all occur in a duplicate-free
/// sequence `u` is no longer than `u`.
pub proof fn lemma_distinct_subseq_len<T>(r: Seq<T>, u: Seq<T>)
    requires
        r.no_duplicates(),
        u.no_duplicates(),
        forall|i: int| 0 <= i < r.len() ==> u.contains(#[trigger] r[i]),
    ensures
        r.len() <= u.len(),
{
    r.unique_seq_to_set();
    u.unique_seq_to_set();
    assert(r.to_set().subset_of(u.to_set())) by {
        assert forall|x: T| r.to_set().contains(x) implies u.to_set().contains(x) by {
            let i = choose|i: int| 0 <= i < r.len() && r[i] == x;
            assert(u.contains(r[i]));
        }
    }
    vstd::set_lib::lemma_len_subset(r.to_set(), u.to_set());
}

/// The links of `d2` are those of `d1`.
pub open spec fn same_links(d1: Seq<NodeData>, d2: Seq<NodeData>) -> bool {
    &&& d1.len() == d2.len()
    &&& forall|n: int| 0 <= n < d1.len() ==> (#[trigger] d2[n]).successor == d1[n].successor && d2[n].predecessor == d1[n].predecessor
}

/// Unlinking slot `r[j]` of a chain (linking its neighbours together) leaves
/// the chain without it.
pub proof fn lemma_chain_remove(d: Seq<NodeData>, d2: Seq<NodeData>, r: Seq<Node>, j: int)
    requires
        chain(d, r),
        0 <= j < r.len(),
        same_links(linked(d, d[r[j] as int].predecessor, d[r[j] as int].successor), d2),
        forall|n: int| 0 <= n < d.len() ==> 0 <= (#[trigger] d[n]).successor < d.len() && 0 <= d[n].predecessor < d.len(),
    ensures
        chain(d2, r.remove(j)),
{
    let x = r[j] as int;
    let p = d[x].predecessor;
    let s = d[x].successor;
    let r2 = r.remove(j);
    assert(p == if j > 0 { r[j - 1] as int } else { 0 }) by {
        if j > 0 {
            assert(link_at(d, r, j - 1));
        }
    }
    assert(s == if j < r.len() - 1 { r[j + 1] as int } else { 0 }) by {
        if j < r.len() - 1 {
            assert(link_at(d, r, j));
        }
    }
    assert forall|i: int| 0 <= i < r2.len() - 1 implies #[trigger] link_at(d2, r2, i) by {
        if i < j - 1 {
            assert(link_at(d, r, i));
            assert(r2[i] == r[i] && r2[i + 1] == r[i + 1]);
            assert(r[i] != p || i == j - 1);
            assert(r[i + 1] != s && r[i] != s);
            assert(r[i + 1] != x as Node);
        } else if i == j - 1 {
            assert(r2[i] == r[j - 1] && r2[i + 1] == r[j + 1]);
        } else {
            assert(link_at(d, r, i + 1));
            assert(r2[i] == r[i + 1] && r2[i + 1] == r[i + 2]);
            assert(r[i + 1] != p as Node);
            assert(r[i + 2] != s as Node || i + 2 == j + 1);
        }
    }
    assert forall|a: int, b: int| 0 <= a < r2.len() && 0 <= b < r2.len() && a != b implies r2[a] != r2[b] by {
        let a0 = if a < j { a } else { a + 1 };
        let b0 = if b < j { b } else { b + 1 };
        assert(r2[a] == r[a0] && r2[b] == r[b0]);
    }
    if r2.len() > 0 {
        if j == 0 {
            assert(r2[0] == r[1]);
        } else {
            assert(r2[0] == r[0]);
            assert(r[0] != s as Node);
        }
        if j == r.len() - 1 {
            assert(r2.last() == r[j - 1]);
        } else {
            assert(r2.last() == r.last());
            assert(r.last() != p as Node);
        }
    }
}

/// Sum of a sequence of integers.
pub open spec fn seq_sum(s: Seq<int>) -> int
    decreases s.len(),
{
    if s.len() == 0 {
        0
    } else {
        seq_sum(s.drop_last()) + s.last()
    }
}

/// Splitting a sum at any position.
pub proof fn lemma_seq_sum_append(a: Seq<int>, b: Seq<int>)
    ensures
        seq_sum(a + b) == seq_sum(a) + seq_sum(b),
    decreases b.len(),
{
    if b.len() > 0 {
        lemma_seq_sum_append(a, b.drop_last());
        assert((a + b).drop_last() =~= a + b.drop_last());
    } else {
        assert(a + b =~= a);
    }
}

/// Removing an item subtracts it from the sum.
pub proof fn lemma_seq_sum_remove(s: Seq<int>, j: int)
    requires
        0 <= j < s.len(),
    ensures
        seq_sum(s.remove(j)) == seq_sum(s) - s[j],
{
    assert(s =~= s.subrange(0, j) + (seq![s[j]] + s.subrange(j + 1, s.len() as int)));
    assert(s.remove(j) =~= s.subrange(0, j) + s.subrange(j + 1, s.len() as int));
    lemma_seq_sum_append(s.subrange(0, j), seq![s[j]] + s.subrange(j + 1, s.len() as int));
    lemma_seq_sum_append(seq![s[j]], s.subrange(j + 1, s.len() as int));
    lemma_seq_sum_append(s.subrange(0, j), s.subrange(j + 1, s.len() as int));
    assert(seq_sum(seq![s[j]]) == s[j]) by {
        let one = seq![s[j]];
        assert(one.drop_last() =~= Seq::<int>::empty());
        assert(seq_sum(one.drop_last()) == 0);
        assert(one.last() == s[j]);
    }
}

/// Replacing an item changes the sum by the difference.
pub proof fn lemma_seq_sum_update(s: Seq<int>, i: int, v: int)
    requires
        0 <= i < s.len(),
    ensures
        seq_sum(s.update(i, v)) == seq_sum(s) - s[i] + v,
{
    lemma_seq_sum_remove(s, i);
    lemma_seq_sum_remove(s.update(i, v), i);
    assert(s.update(i, v).remove(i) =~= s.remove(i));
}

/// Loads delivered to customer `c` by the slots of `r`, one per slot.
pub open spec fn cust_loads(d: Seq<NodeData>, r: Seq<Node>, c: int) -> Seq<int> {
    r.map_values(|n: Node| if crate::solution::cust_of(d, n as int) == c { crate::solution::load_of(d, n as int) } else { 0 })
}

/// Total load delivered to customer `c` by the slots of `r`.
pub open spec fn cust_load(d: Seq<NodeData>, r: Seq<Node>, c: int) -> int {
    seq_sum(cust_loads(d, r, c))
}

/// Loads of the slots of `r`.
pub open spec fn load_vals(d: Seq<NodeData>, r: Seq<Node>) -> Seq<int> {
    r.map_values(|n: Node| crate::solution::load_of(d, n as int))
}

/// Total load of the slots of `r`.
pub open spec fn chain_load(d: Seq<NodeData>, r: Seq<Node>) -> int {
    seq_sum(load_vals(d, r))
}

/// No two slots of `r` serve the same customer.
pub open spec fn distinct_customers(d: Seq<NodeData>, r: Seq<Node>) -> bool {
    forall|a: int, b: int|
        0 <= a < r.len() && 0 <= b < r.len() && a != b ==> crate::solution::cust_of(d, #[trigger] r[a] as int)
            != crate::solution::cust_of(d, #[trigger] r[b] as int)
}

/// A chain only depends on the links.
pub proof fn lemma_chain_same_links(d: Seq<NodeData>, d2: Seq<NodeData>, r: Seq<Node>)
    requires
        chain(d, r),
        same_links(d, d2),
    ensures
        chain(d2, r),
{
    assert forall|i: int| 0 <= i < r.len() - 1 implies #[trigger] link_at(d2, r, i) by {
        assert(link_at(d, r, i));
    }
}

/// Sum of non-negative integers is non-negative.
pub proof fn lemma_seq_sum_nonneg(s: Seq<int>)
    requires
        forall|i: int| 0 <= i < s.len() ==> 0 <= #[trigger] s[i],
    ensures
        0 <= seq_sum(s),
    decreases s.len(),
{
    if s.len() > 0 {
        lemma_seq_sum_nonneg(s.drop_last());
    }
}

/// Two distinct items of a non-negative sequence add up to at most its sum.
pub proof fn lemma_seq_sum_two(s: Seq<int>, i: int, j: int)
    requires
        forall|k: int| 0 <= k < s.len() ==> 0 <= #[trigger] s[k],
        0 <= i < s.len(),
        0 <= j < s.len(),
        i != j,
    ensures
        s[i] + s[j] <= seq_sum(s),
{
    lemma_seq_sum_remove(s, i);
    let s1 = s.remove(i);
    let j1 = if j < i { j } else { j - 1 };
    assert(s1[j1] == s[j]);
    lemma_seq_sum_remove(s1, j1);
    let s2 = s1.remove(j1);
    assert forall|k: int| 0 <= k < s2.len() implies 0 <= #[trigger] s2[k] by {
        let k1 = if k < j1 { k } else { k + 1 };
        let k0 = if k1 < i { k1 } else { k1 + 1 };
        assert(s2[k] == s1[k1]);
        assert(s1[k1] == s[k0]);
    }
    lemma_seq_sum_nonneg(s2);
}

/// `r` is a chain of `sol` made of used slots.
pub open spec fn sol_chain(sol: &AlkaidSolution, r: Seq<Node>) -> bool {
    &&& chain(sol.nodes(), r)
    &&& forall|i: int| 0 <= i < r.len() ==> sol.used().contains(#[trigger] r[i])
}

/// The loads of the slots of `r` are non-negative and their total fits an
/// `i32`.
pub open spec fn loads_ok(d: Seq<NodeData>, r: Seq<Node>) -> bool {
    &&& forall|i: int| 0 <= i < r.len() ==> 0 <= #[trigger] load_of(d, r[i] as int)
    &&& chain_load(d, r) <= i32::MAX
}

/// After swap-removing position `k` of `u`, every other item stays.
pub proof fn lemma_swap_remove_keeps(u: Seq<Node>, k: int, y: Node)
    requires
        0 <= k < u.len(),
        u.contains(y),
        y != u[k],
    ensures
        u.update(k, u.last()).drop_last().contains(y),
{
    let m = choose|m: int| 0 <= m < u.len() && u[m] == y;
    let u2 = u.update(k, u.last()).drop_last();
    if m < u.len() - 1 {
        assert(u2[m] == y);
    } else {
        assert(u2[k] == y);
    }
}

/// Merging the load of slot `r[j]` into slot `r[i]` of the same customer and
/// unlinking `r[j]` keeps a chain, the load of every customer and the total
/// load.
pub proof fn lemma_merge_step(d: Seq<NodeData>, d1: Seq<NodeData>, d2: Seq<NodeData>, r: Seq<Node>, i: int, j: int)
    requires
        chain(d, r),
        loads_ok(d, r),
        0 <= i < r.len(),
        0 <= j < r.len(),
        i != j,
        cust_of(d, r[i] as int) == cust_of(d, r[j] as int),
        forall|n: int| 0 <= n < d.len() ==> 0 <= (#[trigger] d[n]).successor < d.len() && 0 <= d[n].predecessor < d.len(),
        d1 == d.update(
            r[i] as int,
            NodeData { load: (d[r[i] as int].load + d[r[j] as int].load) as i32, ..d[r[i] as int] },
        ),
        d[r[i] as int].load + d[r[j] as int].load <= i32::MAX,
        same_links(linked(d1, d1[r[j] as int].predecessor, d1[r[j] as int].successor), d2),
        forall|n: int| 0 <= n < d2.len() ==> (#[trigger] d2[n]).customer == d1[n].customer && d2[n].load == d1[n].load,
    ensures
        chain(d2, r.remove(j)),
        loads_ok(d2, r.remove(j)),
        forall|c: int| #[trigger] cust_load(d2, r.remove(j), c) == cust_load(d, r, c),
        chain_load(d2, r.remove(j)) == chain_load(d, r),
        forall|k: int| 0 <= k < r.remove(j).len() ==> cust_of(d2, #[trigger] r.remove(j)[k] as int) == cust_of(d, r.remove(j)[k] as int),
{
    let x = r[j] as int;
    let y = r[i] as int;
    let r2 = r.remove(j);
    let i2 = if i < j { i } else { i - 1 };
    assert(same_links(d, d1));
    lemma_chain_same_links(d, d1, r);
    lemma_chain_remove(d1, d2, r, j);
    assert(r2[i2] == r[i]);
    assert forall|k: int| 0 <= k < r2.len() && k != i2 implies load_of(d2, #[trigger] r2[k] as int) == load_of(d, r2[k] as int)
        && cust_of(d2, r2[k] as int) == cust_of(d, r2[k] as int) by {
        let k0 = if k < j { k } else { k + 1 };
        assert(r2[k] == r[k0]);
        assert(k0 != i);
        assert(r[k0] != r[i]);
    }
    assert forall|c: int| #[trigger] cust_load(d2, r2, c) == cust_load(d, r, c) by {
        let s = cust_loads(d, r, c);
        let v = if cust_of(d, y) == c { load_of(d, y) + load_of(d, x) } else { 0 };
        assert(cust_loads(d2, r2, c) =~= s.update(i, v).remove(j)) by {
            assert forall|k: int| 0 <= k < r2.len() implies cust_loads(d2, r2, c)[k] == s.update(i, v).remove(j)[k] by {
                let k0 = if k < j { k } else { k + 1 };
                assert(r2[k] == r[k0]);
                if k0 == i {
                    assert(k == i2);
                }
            }
        }
        lemma_seq_sum_update(s, i, v);
        lemma_seq_sum_remove(s.update(i, v), j);
    }
    let ls = load_vals(d, r);
    let ls2 = load_vals(d2, r2);
    assert(ls2 =~= ls.update(i, load_of(d, y) + load_of(d, x)).remove(j)) by {
        assert forall|k: int| 0 <= k < r2.len() implies ls2[k] == ls.update(i, load_of(d, y) + load_of(d, x)).remove(j)[k] by {
            let k0 = if k < j { k } else { k + 1 };
            assert(r2[k] == r[k0]);
            if k0 == i {
                assert(k == i2);
            }
        }
    }
    lemma_seq_sum_update(ls, i, load_of(d, y) + load_of(d, x));
    lemma_seq_sum_remove(ls.update(i, load_of(d, y) + load_of(d, x)), j);
    assert forall|k: int| 0 <= k < r2.len() implies 0 <= #[trigger] load_of(d2, r2[k] as int) by {
        let k0 = if k < j { k } else { k + 1 };
        assert(r2[k] == r[k0]);
        assert(0 <= load_of(d, r[k0] as int));
        assert(0 <= load_of(d, x));
    }
}

/// A chain, its loads and its customers only depend on the data of its own
/// slots.
pub proof fn lemma_chain_frame(d: Seq<NodeData>, d2: Seq<NodeData>, r: Seq<Node>)
    requires
        chain(d, r),
        d.len() == d2.len(),
        forall|i: int| 0 <= i < r.len() ==> d2[#[trigger] r[i] as int] == d[r[i] as int],
    ensures
        chain(d2, r),
        forall|c: int| #[trigger] cust_load(d2, r, c) == cust_load(d, r, c),
        chain_load(d2, r) == chain_load(d, r),
        loads_ok(d, r) ==> loads_ok(d2, r),
        distinct_customers(d, r) ==> distinct_customers(d2, r),
{
    assert forall|i: int| 0 <= i < r.len() - 1 implies #[trigger] link_at(d2, r, i) by {
        assert(link_at(d, r, i));
        assert(d2[r[i] as int] == d[r[i] as int]);
        assert(d2[r[i + 1] as int] == d[r[i + 1] as int]);
    }
    if r.len() > 0 {
        assert(d2[r[0] as int] == d[r[0] as int]);
        assert(d2[r[r.len() - 1] as int] == d[r[r.len() - 1] as int]);
    }
    assert forall|c: int| #[trigger] cust_load(d2, r, c) == cust_load(d, r, c) by {
        assert(cust_loads(d2, r, c) =~= cust_loads(d, r, c)) by {
            assert forall|k: int| 0 <= k < r.len() implies cust_loads(d2, r, c)[k] == cust_loads(d, r, c)[k] by {
                assert(d2[r[k] as int] == d[r[k] as int]);
            }
        }
    }
    assert(load_vals(d2, r) =~= load_vals(d, r)) by {
        assert forall|k: int| 0 <= k < r.len() implies #[trigger] load_vals(d2, r)[k] == load_vals(d, r)[k] by {
            assert(d2[r[k] as int] == d[r[k] as int]);
        }
    }
    assert forall|a: int| 0 <= a < r.len() implies cust_of(d2, #[trigger] r[a] as int) == cust_of(d, r[a] as int) && load_of(d2, r[a] as int) == load_of(d, r[a] as int) by {
        assert(d2[r[a] as int] == d[r[a] as int]);
    }
}

/// A chain of used slots is the route from its first slot.
pub proof fn lemma_sol_chain_route(sol: &AlkaidSolution, r: Seq<Node>)
    requires
        sol.wf(),
        sol_chain(sol, r),
    ensures
        is_route(sol.nodes(), first_of(r)),
        route_seq(sol.nodes(), first_of(r)) == r,
        route_length(sol.nodes(), first_of(r)) == r.len(),
{
    assert(sol.used().no_duplicates()) by {
        assert forall|a: int, b: int| 0 <= a < sol.used().len() && 0 <= b < sol.used().len() && a != b implies sol.used()[a] != sol.used()[b] by {
            assert(sol.nodes()[sol.used()[a] as int].index_in_used_nodes == a);
            assert(sol.nodes()[sol.used()[b] as int].index_in_used_nodes == b);
        }
    }
    lemma_distinct_subseq_len(r, sol.used());
    lemma_chain_route(sol.nodes(), r);
}

/// The slots of `c` whose customer (by `d`) is not one of `cs`, in order.
pub open spec fn drop_served(d: Seq<NodeData>, c: Seq<Node>, cs: Seq<Node>) -> Seq<Node>
    decreases c.len(),
{
    if c.len() == 0 {
        Seq::empty()
    } else {
        let rest = drop_served(d, c.drop_last(), cs);
        if cs.contains(d[c.last() as int].customer) {
            rest
        } else {
            rest.push(c.last())
        }
    }
}

/// Dropping the slots of no customer keeps every slot.
pub proof fn lemma_drop_served_none(d: Seq<NodeData>, c: Seq<Node>)
    ensures
        drop_served(d, c, Seq::empty()) == c,
    decreases c.len(),
{
    if c.len() > 0 {
        lemma_drop_served_none(d, c.drop_last());
        assert(c.drop_last().push(c.last()) =~= c);
    } else {
        assert(c =~= Seq::<Node>::empty());
    }
}

/// Dropping works piece by piece.
pub proof fn lemma_drop_served_append(d: Seq<NodeData>, a: Seq<Node>, b: Seq<Node>, cs: Seq<Node>)
    ensures
        drop_served(d, a + b, cs) == drop_served(d, a, cs) + drop_served(d, b, cs),
    decreases b.len(),
{
    if b.len() == 0 {
        assert(a + b =~= a);
        assert(drop_served(d, a, cs) + drop_served(d, b, cs) =~= drop_served(d, a, cs));
    } else {
        lemma_drop_served_append(d, a, b.drop_last(), cs);
        assert((a + b).drop_last() =~= a + b.drop_last());
        assert((a + b).last() == b.last());
        if !cs.contains(d[b.last() as int].customer) {
            assert((drop_served(d, a, cs) + drop_served(d, b.drop_last(), cs)).push(b.last()) =~= drop_served(d, a, cs)
                + drop_served(d, b.drop_last(), cs).push(b.last()));
        }
    }
}

/// Dropping the slots of one more customer from what is left.
pub proof fn lemma_drop_served_more(d: Seq<NodeData>, c: Seq<Node>, cs: Seq<Node>, x: Node)
    ensures
        drop_served(d, drop_served(d, c, cs), seq![x]) == drop_served(d, c, cs.push(x)),
    decreases c.len(),
{
    if c.len() > 0 {
        lemma_drop_served_more(d, c.drop_last(), cs, x);
        let y = c.last();
        let cy = d[y as int].customer;
        assert(cs.push(x).contains(cy) <==> (cs.contains(cy) || cy == x)) by {
            if cs.push(x).contains(cy) {
                let t = choose|t: int| 0 <= t < cs.push(x).len() && cs.push(x)[t] == cy;
                if t < cs.len() {
                    assert(cs[t] == cy);
                }
            }
            if cs.contains(cy) {
                let t = choose|t: int| 0 <= t < cs.len() && cs[t] == cy;
                assert(cs.push(x)[t] == cy);
            }
            if cy == x {
                assert(cs.push(x)[cs.len() as int] == x);
            }
        }
        assert(seq![x].contains(cy) <==> cy == x) by {
            if cy == x {
                assert(seq![x][0] == x);
            }
        }
        let r = drop_served(d, c.drop_last(), cs);
        if !cs.contains(cy) {
            assert(r.push(y).drop_last() =~= r);
            assert(r.push(y).last() == y);
        }
    } else {
        assert(drop_served(d, c, cs) =~= Seq::<Node>::empty());
    }
}

/// No slot left by dropping serves one of the dropped customers, and
/// each comes from `c`.
pub proof fn lemma_drop_served_excludes(d: Seq<NodeData>, c: Seq<Node>, cs: Seq<Node>)
    ensures
        forall|t: int|
            0 <= t < drop_served(d, c, cs).len() ==> !cs.contains(d[#[trigger] drop_served(d, c, cs)[t] as int].customer)
                && c.contains(drop_served(d, c, cs)[t]),
    decreases c.len(),
{
    if c.len() > 0 {
        lemma_drop_served_excludes(d, c.drop_last(), cs);
        let r = drop_served(d, c.drop_last(), cs);
        assert forall|t: int| 0 <= t < drop_served(d, c, cs).len() implies !cs.contains(
            d[#[trigger] drop_served(d, c, cs)[t] as int].customer,
        ) && c.contains(drop_served(d, c, cs)[t]) by {
            if t < r.len() {
                assert(drop_served(d, c, cs)[t] == r[t]);
                let m = choose|m: int| 0 <= m < c.drop_last().len() && c.drop_last()[m] == r[t];
                assert(c[m] == r[t]);
            } else {
                assert(drop_served(d, c, cs)[t] == c.last());
                assert(c[c.len() - 1] == c.last());
            }
        }
    }
}

/// A chain depends only on the links of its own slots.
pub proof fn lemma_chain_links_frame(d: Seq<NodeData>, d2: Seq<NodeData>, q: Seq<Node>)
    requires
        chain(d, q),
        d.len() <= d2.len(),
        forall|k: int|
            0 <= k < q.len() ==> (#[trigger] d2[q[k] as int]).successor == d[q[k] as int].successor && d2[q[k] as int].predecessor
                == d[q[k] as int].predecessor,
    ensures
        chain(d2, q),
{
    assert forall|i: int| 0 <= i < q.len() - 1 implies #[trigger] link_at(d2, q, i) by {
        assert(link_at(d, q, i));
        assert(d2[q[i] as int].successor == d[q[i] as int].successor);
        assert(d2[q[i + 1] as int].predecessor == d[q[i + 1] as int].predecessor);
    }
    if q.len() > 0 {
        assert(d2[q[0] as int].predecessor == d[q[0] as int].predecessor);
        assert(d2[q[q.len() - 1] as int].successor == d[q[q.len() - 1] as int].successor);
    }
}

} // verus!
