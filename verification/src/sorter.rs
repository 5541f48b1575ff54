//! Orders in which removed customers are reinserted.
use vstd::prelude::*;
use crate::instance::{Instance, Node};
use crate::random::{Random, RandomState, shuffle_spec};

verus! {

/// Customers of `inst` (the depot included).
pub open spec fn all_nodes(inst: &Instance, customers: Seq<Node>) -> bool {
    forall|k: int| 0 <= k < customers.len() ==> inst.is_node(#[trigger] customers[k] as int)
}

/// A strategy that orders the customers to reinsert.
pub trait SortOperator {
    /// Reorders `customers`; the multiset of customers is unchanged.
    fn sort(&self, instance: &Instance, customers: &mut Vec<Node>, random: &mut Random)
        requires
            instance.wf(),
            all_nodes(instance, old(customers)@),
            old(customers)@.len() <= i32::MAX,
        ensures
            final(customers)@.to_multiset() == old(customers)@.to_multiset(),
    ;
}

/// Key by which a customer is ordered: smaller keys first.
pub enum SortKey {
    /// Larger demand first.
    DemandDesc,
    /// Farther from the depot first.
    DistanceDesc,
    /// Closer to the depot first.
    DistanceAsc,
}

/// The key of `c`.
pub open spec fn key_of(inst: &Instance, c: Node, k: SortKey) -> int {
    match k {
        SortKey::DemandDesc => -inst.demand_of(c as int),
        SortKey::DistanceDesc => -inst.dist(0, c as int),
        SortKey::DistanceAsc => inst.dist(0, c as int),
    }
}

fn key(instance: &Instance, c: Node, k: &SortKey) -> (r: i64)
    requires
        instance.wf(),
        instance.is_node(c as int),
    ensures
        r == key_of(instance, c, *k),
{
    match k {
        SortKey::DemandDesc => -(instance.demand(c) as i64),
        SortKey::DistanceDesc => -(instance.distance(0, c) as i64),
        SortKey::DistanceAsc => instance.distance(0, c) as i64,
    }
}

/// `s` is in non-decreasing order of keys.
pub open spec fn sorted_by(inst: &Instance, s: Seq<Node>, k: SortKey) -> bool {
    forall|i: int, j: int| 0 <= i <= j < s.len() ==> key_of(inst, #[trigger] s[i], k) <= key_of(inst, #[trigger] s[j], k)
}

/// `s` is `o` reordered by the index map `p`: the element at `i` came from
/// `p[i]`, no index of `o` is used twice, and elements with equal keys keep
/// their order.
pub open spec fn stable_reorder(inst: &Instance, o: Seq<Node>, s: Seq<Node>, k: SortKey, p: Seq<int>) -> bool {
    &&& p.len() == s.len() == o.len()
    &&& forall|i: int| 0 <= i < s.len() ==> 0 <= #[trigger] p[i] < o.len() && s[i] == o[p[i]]
    &&& forall|i: int, j: int| 0 <= i < j < s.len() ==> #[trigger] p[i] != #[trigger] p[j]
    &&& forall|i: int, j: int|
        0 <= i < j < s.len() && key_of(inst, s[i], k) == key_of(inst, s[j], k) ==> #[trigger] p[i] < #[trigger] p[j]
}

/// Stable insertion sort of `customers` by key.
fn sort_by_key(instance: &Instance, customers: &mut Vec<Node>, k: SortKey)
    requires
        instance.wf(),
        all_nodes(instance, old(customers)@),
    ensures
        final(customers)@.to_multiset() == old(customers)@.to_multiset(),
        final(customers)@.len() == old(customers)@.len(),
        sorted_by(instance, final(customers)@, k),
        exists|p: Seq<int>| #[trigger] stable_reorder(instance, old(customers)@, final(customers)@, k, p),
{
    let n = customers.len();
    let ghost o = customers@;
    let ghost mut p: Seq<int> = Seq::new(n as nat, |x: int| x);
    if n == 0 {
        assert(stable_reorder(instance, o, customers@, k, p));
        return;
    }
    let mut i: usize = 1;
    while i < n
        invariant
            instance.wf(),
            o == old(customers)@,
            customers@.len() == n,
            1 <= i <= n,
            all_nodes(instance, customers@),
            customers@.to_multiset() == old(customers)@.to_multiset(),
            forall|a: int, b: int| 0 <= a <= b < i ==> key_of(instance, #[trigger] customers@[a], k) <= key_of(instance, #[trigger] customers@[b], k),
            p.len() == n,
            forall|x: int| 0 <= x < n ==> 0 <= #[trigger] p[x] < n && customers@[x] == o[p[x]],
            forall|x: int, y: int| 0 <= x < y < n ==> #[trigger] p[x] != #[trigger] p[y],
            forall|x: int| 0 <= x < i ==> #[trigger] p[x] < i,
            forall|x: int| i <= x < n ==> #[trigger] p[x] == x,
            forall|x: int, y: int|
                0 <= x < y < i && key_of(instance, customers@[x], k) == key_of(instance, customers@[y], k) ==> #[trigger] p[x]
                    < #[trigger] p[y],
        decreases n - i,
    {
        let mut j = i;
        while j > 0 && key(instance, customers[j], &k) < key(instance, customers[j - 1], &k)
            invariant
                instance.wf(),
                o == old(customers)@,
                customers@.len() == n,
                0 <= j <= i < n,
                all_nodes(instance, customers@),
                customers@.to_multiset() == old(customers)@.to_multiset(),
                forall|a: int, b: int|
                    0 <= a <= b <= i && a != j && b != j ==> key_of(instance, #[trigger] customers@[a], k) <= key_of(
                        instance,
                        #[trigger] customers@[b],
                        k,
                    ),
                forall|b: int| j < b <= i ==> key_of(instance, customers@[j as int], k) <= key_of(instance, #[trigger] customers@[b], k),
                p.len() == n,
                forall|x: int| 0 <= x < n ==> 0 <= #[trigger] p[x] < n && customers@[x] == o[p[x]],
                forall|x: int, y: int| 0 <= x < y < n ==> #[trigger] p[x] != #[trigger] p[y],
                forall|x: int| 0 <= x <= i ==> #[trigger] p[x] <= i,
                forall|x: int| i < x < n ==> #[trigger] p[x] == x,
                p[j as int] == i,
                forall|x: int, y: int|
                    0 <= x < y <= i && key_of(instance, customers@[x], k) == key_of(instance, customers@[y], k) ==> #[trigger] p[x]
                        < #[trigger] p[y],
            decreases j,
        {
            let a = customers[j - 1];
            let b = customers[j];
            let ghost before = customers@;
            let ghost p0 = p;
            customers.set(j - 1, b);
            customers.set(j, a);
            proof {
                p = p0.update(j - 1, p0[j as int]).update(j as int, p0[j - 1]);
                assert(customers@ == before.update(j as int, before[j - 1]).update(j - 1, before[j as int]));
                crate::random::lemma_swap_multiset(before, j as int, j - 1);
                assert(before.update(j as int, before[j - 1]).update(j - 1, before[j as int])
                    == before.update(j - 1, before[j as int]).update(j as int, before[j - 1]));
                let m = customers@;
                assert forall|x: int, y: int| 0 <= x <= y <= i && x != j - 1 && y != j - 1 implies key_of(instance, #[trigger] m[x], k)
                    <= key_of(instance, #[trigger] m[y], k) by {
                    if x == j && y == j {
                    } else if x == j {
                        assert(m[x] == before[j - 1]);
                        assert(m[y] == before[y]);
                        assert(key_of(instance, before[j - 1], k) <= key_of(instance, before[y], k));
                    } else if y == j {
                        assert(m[y] == before[j - 1]);
                        assert(m[x] == before[x]);
                        assert(key_of(instance, before[x], k) <= key_of(instance, before[j - 1], k));
                    } else {
                        assert(m[x] == before[x]);
                        assert(m[y] == before[y]);
                    }
                }
                assert forall|y: int| j - 1 < y <= i implies key_of(instance, m[j - 1], k) <= key_of(instance, #[trigger] m[y], k) by {
                    if y == j {
                        assert(m[y] == before[j - 1]);
                    } else {
                        assert(m[y] == before[y]);
                        assert(key_of(instance, before[j as int], k) <= key_of(instance, before[y], k));
                    }
                }
                assert forall|x: int| 0 <= x < n implies 0 <= #[trigger] p[x] < n && m[x] == o[p[x]] by {
                    if x == j - 1 {
                        assert(p[x] == p0[j as int]);
                    } else if x == j {
                        assert(p[x] == p0[j - 1]);
                    } else {
                        assert(p[x] == p0[x]);
                    }
                }
                assert forall|x: int, y: int| 0 <= x < y < n implies #[trigger] p[x] != #[trigger] p[y] by {
                    let fx = if x == j - 1 { j as int } else if x == j { j - 1 } else { x };
                    let fy = if y == j - 1 { j as int } else if y == j { j - 1 } else { y };
                    assert(p[x] == p0[fx]);
                    assert(p[y] == p0[fy]);
                    if fx < fy {
                        assert(p0[fx] != p0[fy]);
                    } else {
                        assert(p0[fy] != p0[fx]);
                    }
                }
                assert forall|x: int| 0 <= x <= i implies #[trigger] p[x] <= i by {
                    if x == j - 1 {
                        assert(p[x] == p0[j as int]);
                    } else if x == j {
                        assert(p[x] == p0[j - 1]);
                    } else {
                        assert(p[x] == p0[x]);
                    }
                }
                assert forall|x: int| i < x < n implies #[trigger] p[x] == x by {
                    assert(p[x] == p0[x]);
                }
                assert forall|x: int, y: int|
                    0 <= x < y <= i && key_of(instance, m[x], k) == key_of(instance, m[y], k) implies #[trigger] p[x] < #[trigger] p[y] by {
                    let fx = if x == j - 1 { j as int } else if x == j { j - 1 } else { x };
                    let fy = if y == j - 1 { j as int } else if y == j { j - 1 } else { y };
                    assert(p[x] == p0[fx]);
                    assert(p[y] == p0[fy]);
                    assert(m[x] == before[fx]);
                    assert(m[y] == before[fy]);
                    if x == j - 1 && y == j {
                        assert(key_of(instance, before[j as int], k) < key_of(instance, before[j - 1], k));
                    } else {
                        assert(fx < fy);
                    }
                }
            }
            j = j - 1;
        }
        proof {
            let m = customers@;
            assert forall|x: int, y: int| 0 <= x <= y < i + 1 implies key_of(instance, #[trigger] m[x], k) <= key_of(instance, #[trigger] m[y], k) by {
                if x == j && y != j {
                } else if y == j && x != j {
                    if j > 0 {
                        assert(key_of(instance, m[x], k) <= key_of(instance, m[j - 1], k));
                    }
                }
            }
            assert forall|x: int| 0 <= x < i + 1 implies #[trigger] p[x] < i + 1 by {}
            assert forall|x: int| i + 1 <= x < n implies #[trigger] p[x] == x by {}
        }
        i = i + 1;
    }
    assert(stable_reorder(instance, o, customers@, k, p));
}

/// Random order (Fisher-Yates shuffle).
#[derive(Debug, Clone, Copy, Default)]
pub struct SortByRandom;

impl SortOperator for SortByRandom {
    fn sort(&self, instance: &Instance, customers: &mut Vec<Node>, random: &mut Random)
        ensures
            (final(customers)@, final(random).spec_state()) == shuffle_spec(
                old(random).spec_state(),
                old(customers)@,
                old(customers)@.len() - 1,
            ),
    {
        random.shuffle(customers);
    }
}

/// Larger demand first.
#[derive(Debug, Clone, Copy, Default)]
pub struct SortByDemand;

impl SortOperator for SortByDemand {
    fn sort(&self, instance: &Instance, customers: &mut Vec<Node>, random: &mut Random)
        ensures
            sorted_by(instance, final(customers)@, SortKey::DemandDesc),
            exists|p: Seq<int>| #[trigger] stable_reorder(instance, old(customers)@, final(customers)@, SortKey::DemandDesc, p),
            final(random).spec_state() == old(random).spec_state(),
    {
        sort_by_key(instance, customers, SortKey::DemandDesc);
    }
}

/// Farther from the depot first.
#[derive(Debug, Clone, Copy, Default)]
pub struct SortByFar;

impl SortOperator for SortByFar {
    fn sort(&self, instance: &Instance, customers: &mut Vec<Node>, random: &mut Random)
        ensures
            sorted_by(instance, final(customers)@, SortKey::DistanceDesc),
            exists|p: Seq<int>| #[trigger] stable_reorder(instance, old(customers)@, final(customers)@, SortKey::DistanceDesc, p),
            final(random).spec_state() == old(random).spec_state(),
    {
        sort_by_key(instance, customers, SortKey::DistanceDesc);
    }
}

/// Closer to the depot first.
#[derive(Debug, Clone, Copy, Default)]
pub struct SortByClose;

impl SortOperator for SortByClose {
    fn sort(&self, instance: &Instance, customers: &mut Vec<Node>, random: &mut Random)
        ensures
            sorted_by(instance, final(customers)@, SortKey::DistanceAsc),
            exists|p: Seq<int>| #[trigger] stable_reorder(instance, old(customers)@, final(customers)@, SortKey::DistanceAsc, p),
            final(random).spec_state() == old(random).spec_state(),
    {
        sort_by_key(instance, customers, SortKey::DistanceAsc);
    }
}

} // verus!
