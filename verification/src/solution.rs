//! Solution representation: a pool of node slots, each holding the links
//! to its predecessor and successor, the customer it serves and the load it
//! delivers. Slot 0 is the depot; a route is the chain of slots that starts
//! at a slot whose predecessor is 0 and follows successors back to 0.
use vstd::prelude::*;
use crate::instance::{Instance, Node};

verus! {

/// Largest number of slots a solution can hold (slot indices are `Node`s).
pub const MAX_SLOTS: usize = 32768;

/// Data of one slot.
#[derive(Debug, Clone, Copy)]
pub struct NodeData {
    /// Next slot on the route (0: back to the depot).
    pub successor: Node,
    /// Previous slot on the route (0: from the depot).
    pub predecessor: Node,
    /// Customer served at this slot.
    pub customer: Node,
    /// Load delivered at this slot.
    pub load: i32,
    /// Position of this slot in the list of used slots.
    pub index_in_used_nodes: usize,
}

/// A slot with every field zero.
pub open spec fn blank_node() -> NodeData {
    NodeData { successor: 0, predecessor: 0, customer: 0, load: 0, index_in_used_nodes: 0 }
}

/// Successor of slot `n` (0 outside the pool).
pub open spec fn succ_of(d: Seq<NodeData>, n: int) -> int {
    if 0 <= n < d.len() {
        d[n].successor as int
    } else {
        0
    }
}

/// Predecessor of slot `n` (0 outside the pool).
pub open spec fn pred_of(d: Seq<NodeData>, n: int) -> int {
    if 0 <= n < d.len() {
        d[n].predecessor as int
    } else {
        0
    }
}

/// Customer of slot `n` (0 outside the pool).
pub open spec fn cust_of(d: Seq<NodeData>, n: int) -> int {
    if 0 <= n < d.len() {
        d[n].customer as int
    } else {
        0
    }
}

/// Load of slot `n` (0 outside the pool).
pub open spec fn load_of(d: Seq<NodeData>, n: int) -> int {
    if 0 <= n < d.len() {
        d[n].load as int
    } else {
        0
    }
}

/// The slot reached after following `k` successor links from `start`.
pub open spec fn walk(d: Seq<NodeData>, start: int, k: nat) -> int
    decreases k,
{
    if k == 0 {
        start
    } else {
        succ_of(d, walk(d, start, (k - 1) as nat))
    }
}

/// Following successors from `head`, the depot is first reached after
/// exactly `n` links.
pub open spec fn route_len_is(d: Seq<NodeData>, head: int, n: nat) -> bool {
    &&& walk(d, head, n) == 0
    &&& forall|k: nat| k < n ==> walk(d, head, k) != 0
}

/// Following successors from `head` reaches the depot in fewer links than
/// there are slots.
pub open spec fn is_route(d: Seq<NodeData>, head: int) -> bool {
    exists|n: nat| n < d.len() && route_len_is(d, head, n)
}

/// Number of slots on the route starting at `head`.
pub open spec fn route_length(d: Seq<NodeData>, head: int) -> nat {
    choose|n: nat| n < d.len() && route_len_is(d, head, n)
}

/// Slots of the route starting at `head`, in order.
pub open spec fn route_seq(d: Seq<NodeData>, head: int) -> Seq<Node> {
    Seq::new(route_length(d, head), |k: int| walk(d, head, k as nat) as Node)
}

/// On a route of length `n`, a slot reached in at most `n` links is the
/// depot exactly at `n`.
pub proof fn lemma_walk_stop(d: Seq<NodeData>, head: int, k: nat)
    requires
        is_route(d, head),
        k <= route_length(d, head),
    ensures
        walk(d, head, k) == 0 <==> k == route_length(d, head),
        route_length(d, head) < d.len(),
        walk(d, head, (k + 1) as nat) == succ_of(d, walk(d, head, k)),
{
    let n = route_length(d, head);
    assert(route_len_is(d, head, n));
}

/// Sum of the loads of the first `k` slots of the walk from `head`.
pub open spec fn walk_load(d: Seq<NodeData>, head: int, k: nat) -> int
    decreases k,
{
    if k == 0 {
        0
    } else {
        walk_load(d, head, (k - 1) as nat) + load_of(d, walk(d, head, (k - 1) as nat))
    }
}

/// Total load of the route starting at `head`.
pub open spec fn route_load_sum(d: Seq<NodeData>, head: int) -> int {
    walk_load(d, head, route_length(d, head))
}

/// The two lengths that end a walk at the depot coincide.
pub proof fn lemma_route_len_unique(d: Seq<NodeData>, head: int, n: nat, m: nat)
    requires
        route_len_is(d, head, n),
        route_len_is(d, head, m),
    ensures
        n == m,
{
    if n < m {
        assert(walk(d, head, n) != 0);
    } else if m < n {
        assert(walk(d, head, m) != 0);
    }
}

/// On a route, the chosen length is the one of any witness.
pub proof fn lemma_route_length(d: Seq<NodeData>, head: int, n: nat)
    requires
        n < d.len(),
        route_len_is(d, head, n),
    ensures
        is_route(d, head),
        route_length(d, head) == n,
{
    assert(is_route(d, head));
    let m = route_length(d, head);
    lemma_route_len_unique(d, head, n, m);
}

/// Cost charged to slot `n` in the objective: the edge from its
/// predecessor's customer, plus the edge back to the depot at a route end.
pub open spec fn node_cost(d: Seq<NodeData>, inst: Instance, n: int) -> int {
    inst.dist(cust_of(d, pred_of(d, n)), cust_of(d, n)) + if succ_of(d, n) == 0 {
        inst.dist(cust_of(d, n), 0)
    } else {
        0
    }
}

/// Sum of the costs of the first `k` slots of `used`.
pub open spec fn cost_upto(d: Seq<NodeData>, inst: Instance, used: Seq<Node>, k: nat) -> int
    decreases k,
{
    if k == 0 {
        0
    } else {
        cost_upto(d, inst, used, (k - 1) as nat) + node_cost(d, inst, used[k - 1] as int)
    }
}

/// `d` with the predecessor of slot `n` set to `p`.
pub open spec fn with_pred(d: Seq<NodeData>, n: int, p: Node) -> Seq<NodeData> {
    d.update(n, NodeData { predecessor: p, ..d[n] })
}

/// `d` with the successor of slot `n` set to `s`.
pub open spec fn with_succ(d: Seq<NodeData>, n: int, s: Node) -> Seq<NodeData> {
    d.update(n, NodeData { successor: s, ..d[n] })
}

/// `d` after `link(p, s)`: `s` gets predecessor `p`, then `p` gets
/// successor `s`.
pub open spec fn linked(d: Seq<NodeData>, p: Node, s: Node) -> Seq<NodeData> {
    with_succ(with_pred(d, s as int, p), p as int, s)
}

/// A solution: a pool of slots with the list of slots in use and the list
/// of slots free for reuse.
#[derive(Debug, Clone)]
pub struct AlkaidSolution {
    node_data: Vec<NodeData>,
    used_nodes: Vec<Node>,
    unused_nodes: Vec<Node>,
}

impl AlkaidSolution {
    /// The slots.
    pub closed spec fn nodes(&self) -> Seq<NodeData> {
        self.node_data@
    }

    /// Slots in use, in the order they were taken.
    pub closed spec fn used(&self) -> Seq<Node> {
        self.used_nodes@
    }

    /// Slots free for reuse; the last one is reused first.
    pub closed spec fn unused(&self) -> Seq<Node> {
        self.unused_nodes@
    }

    /// `n` is a slot of the pool.
    pub open spec fn is_slot(&self, n: int) -> bool {
        0 <= n < self.nodes().len()
    }

    /// Pool invariant: links point into the pool, the depot serves
    /// customer 0, every used slot records its position in the used list,
    /// and free slots are distinct and not in use.
    pub open spec fn wf(&self) -> bool {
        let d = self.nodes();
        &&& 1 <= d.len() <= MAX_SLOTS
        &&& forall|n: int|
            0 <= n < d.len() ==> 0 <= (#[trigger] d[n]).successor < d.len() && 0 <= d[n].predecessor
                < d.len()
        &&& d[0].customer == 0
        &&& forall|i: int|
            0 <= i < self.used().len() ==> 1 <= #[trigger] self.used()[i] < d.len() && d[self.used()[i] as int].index_in_used_nodes == i
        &&& forall|i: int|
            0 <= i < self.unused().len() ==> 1 <= #[trigger] self.unused()[i] < d.len()
                && !self.used().contains(self.unused()[i])
        &&& self.unused().no_duplicates()
        &&& self.used().len() + self.unused().len() < d.len()
    }

    /// Every slot serves a node of `inst`.
    pub open spec fn customers_in(&self, inst: &Instance) -> bool {
        forall|n: int| 0 <= n < self.nodes().len() ==> inst.is_node((#[trigger] self.nodes()[n]).customer as int)
    }

    /// Pool invariant and customers of `inst`.
    pub open spec fn valid_for(&self, inst: &Instance) -> bool {
        self.wf() && self.customers_in(inst)
    }

    /// Number of slots that can still be taken.
    pub open spec fn room(&self) -> int {
        self.unused().len() + (MAX_SLOTS - self.nodes().len())
    }

    /// Links between used slots are consistent both ways: the successor of a
    /// used slot is the depot or a used slot whose predecessor it is, and
    /// likewise for the predecessor.
    pub open spec fn links_ok(&self) -> bool {
        let d = self.nodes();
        forall|y: Node|
            #[trigger] self.used().contains(y) ==> {
                &&& succ_of(d, y as int) != 0 ==> self.used().contains(succ_of(d, y as int) as Node) && pred_of(
                    d,
                    succ_of(d, y as int),
                ) == y
                &&& pred_of(d, y as int) != 0 ==> self.used().contains(pred_of(d, y as int) as Node) && succ_of(
                    d,
                    pred_of(d, y as int),
                ) == y
            }
    }

    /// The (customer, load) pair of each used slot, in the order of the used
    /// slots.
    pub open spec fn served(&self) -> Seq<(Node, i32)> {
        self.used().map_values(|n: Node| (self.nodes()[n as int].customer, self.nodes()[n as int].load))
    }

    /// Objective value: total travel cost of all routes.
    pub open spec fn objective(&self, inst: &Instance) -> int {
        cost_upto(self.nodes(), *inst, self.used(), self.used().len())
    }

    /// Creates a solution holding only the depot slot.
    pub fn new() -> (r: Self)
        ensures
            r.wf(),
            r.nodes() == seq![blank_node()],
            r.used() == Seq::<Node>::empty(),
            r.unused() == Seq::<Node>::empty(),
    {
        let mut node_data = Vec::new();
        node_data.push(NodeData { successor: 0, predecessor: 0, customer: 0, load: 0, index_in_used_nodes: 0 });
        let r = AlkaidSolution { node_data, used_nodes: Vec::new(), unused_nodes: Vec::new() };
        assert(r.nodes() =~= seq![blank_node()]);
        r
    }

    /// Predecessor of a slot (0: the slot starts its route).
    pub fn predecessor(&self, node_index: Node) -> (r: Node)
        requires
            self.wf(),
            self.is_slot(node_index as int),
        ensures
            r == self.nodes()[node_index as int].predecessor,
            self.is_slot(r as int),
    {
        self.node_data[node_index as usize].predecessor
    }

    /// Successor of a slot (0: the slot ends its route).
    pub fn successor(&self, node_index: Node) -> (r: Node)
        requires
            self.wf(),
            self.is_slot(node_index as int),
        ensures
            r == self.nodes()[node_index as int].successor,
            self.is_slot(r as int),
    {
        self.node_data[node_index as usize].successor
    }

    /// Customer served at a slot.
    pub fn customer(&self, node_index: Node) -> (r: Node)
        requires
            self.wf(),
            self.is_slot(node_index as int),
        ensures
            r == self.nodes()[node_index as int].customer,
    {
        self.node_data[node_index as usize].customer
    }

    /// Load delivered at a slot.
    pub fn load(&self, node_index: Node) -> (r: i32)
        requires
            self.wf(),
            self.is_slot(node_index as int),
        ensures
            r == self.nodes()[node_index as int].load,
    {
        self.node_data[node_index as usize].load
    }

    /// Sets the predecessor of a slot.
    pub fn set_predecessor(&mut self, node_index: Node, predecessor: Node)
        requires
            old(self).wf(),
            old(self).is_slot(node_index as int),
            old(self).is_slot(predecessor as int),
        ensures
            final(self).wf(),
            final(self).nodes() == with_pred(old(self).nodes(), node_index as int, predecessor),
            forall|n: int|
                0 <= n < old(self).nodes().len() ==> (#[trigger] final(self).nodes()[n]).customer
                    == old(self).nodes()[n].customer && final(self).nodes()[n].load == old(self).nodes()[n].load,
            final(self).nodes().len() == old(self).nodes().len(),
            final(self).used() == old(self).used(),
            final(self).unused() == old(self).unused(),
    {
        let i = node_index as usize;
        let nd = self.node_data[i];
        self.node_data.set(i, NodeData { predecessor, ..nd });
        assert(self.used() == old(self).used());
    }

    /// Sets the successor of a slot.
    pub fn set_successor(&mut self, node_index: Node, successor: Node)
        requires
            old(self).wf(),
            old(self).is_slot(node_index as int),
            old(self).is_slot(successor as int),
        ensures
            final(self).wf(),
            final(self).nodes() == with_succ(old(self).nodes(), node_index as int, successor),
            forall|n: int|
                0 <= n < old(self).nodes().len() ==> (#[trigger] final(self).nodes()[n]).customer
                    == old(self).nodes()[n].customer && final(self).nodes()[n].load == old(self).nodes()[n].load,
            final(self).nodes().len() == old(self).nodes().len(),
            final(self).used() == old(self).used(),
            final(self).unused() == old(self).unused(),
    {
        let i = node_index as usize;
        let nd = self.node_data[i];
        self.node_data.set(i, NodeData { successor, ..nd });
        assert(self.used() == old(self).used());
    }

    /// Sets the customer of a slot other than the depot.
    pub fn set_customer(&mut self, node_index: Node, customer: Node)
        requires
            old(self).wf(),
            old(self).is_slot(node_index as int),
            node_index == 0 ==> customer == 0,
        ensures
            final(self).wf(),
            final(self).nodes() == old(self).nodes().update(
                node_index as int,
                NodeData { customer, ..old(self).nodes()[node_index as int] },
            ),
            final(self).used() == old(self).used(),
            final(self).unused() == old(self).unused(),
    {
        let i = node_index as usize;
        let nd = self.node_data[i];
        self.node_data.set(i, NodeData { customer, ..nd });
        assert(self.used() == old(self).used());
    }

    /// Sets the load of a slot.
    pub fn set_load(&mut self, node_index: Node, load: i32)
        requires
            old(self).wf(),
            old(self).is_slot(node_index as int),
        ensures
            final(self).wf(),
            final(self).nodes() == old(self).nodes().update(
                node_index as int,
                NodeData { load, ..old(self).nodes()[node_index as int] },
            ),
            final(self).used() == old(self).used(),
            final(self).unused() == old(self).unused(),
    {
        let i = node_index as usize;
        let nd = self.node_data[i];
        self.node_data.set(i, NodeData { load, ..nd });
        assert(self.used() == old(self).used());
    }

    /// Links `predecessor` to `successor`.
    pub fn link(&mut self, predecessor: Node, successor: Node)
        requires
            old(self).wf(),
            old(self).is_slot(predecessor as int),
            old(self).is_slot(successor as int),
        ensures
            final(self).wf(),
            final(self).nodes() == linked(old(self).nodes(), predecessor, successor),
            forall|n: int|
                0 <= n < old(self).nodes().len() ==> (#[trigger] final(self).nodes()[n]).customer
                    == old(self).nodes()[n].customer && final(self).nodes()[n].load == old(self).nodes()[n].load,
            final(self).nodes().len() == old(self).nodes().len(),
            final(self).used() == old(self).used(),
            final(self).unused() == old(self).unused(),
    {
        self.set_predecessor(successor, predecessor);
        self.set_successor(predecessor, successor);
    }

    /// Slot the next `new_node` takes: the last free slot, or a fresh one.
    pub open spec fn next_slot(&self) -> Node {
        if self.unused().len() > 0 {
            self.unused().last()
        } else {
            self.nodes().len() as Node
        }
    }

    /// Slots after `new_node(customer, load)`: the taken slot records the
    /// customer, the load and its position in the used list; a reused slot
    /// keeps its old links, a fresh slot has zero links.
    pub open spec fn nodes_after_take(&self, customer: Node, load: i32) -> Seq<NodeData> {
        let n = self.next_slot() as int;
        if self.unused().len() > 0 {
            self.nodes().update(
                n,
                NodeData {
                    customer,
                    load,
                    index_in_used_nodes: self.used().len() as usize,
                    ..self.nodes()[n]
                },
            )
        } else {
            self.nodes().push(
                NodeData {
                    successor: 0,
                    predecessor: 0,
                    customer,
                    load,
                    index_in_used_nodes: self.used().len() as usize,
                },
            )
        }
    }

    /// Free slots after `new_node`.
    pub open spec fn unused_after_take(&self) -> Seq<Node> {
        if self.unused().len() > 0 {
            self.unused().drop_last()
        } else {
            self.unused()
        }
    }

    proof fn lemma_used_distinct(&self, a: int, b: int)
        requires
            self.wf(),
            0 <= a < self.used().len(),
            0 <= b < self.used().len(),
            self.used()[a] == self.used()[b],
        ensures
            a == b,
    {
        assert(self.nodes()[self.used()[a] as int].index_in_used_nodes == a);
        assert(self.nodes()[self.used()[b] as int].index_in_used_nodes == b);
    }

    /// Takes a slot (a free one if any, else a fresh one) for `customer`
    /// with `load`, and appends it to the used slots.
    pub fn new_node(&mut self, customer: Node, load: i32) -> (r: Node)
        requires
            old(self).wf(),
            old(self).room() > 0,
        ensures
            final(self).wf(),
            r == old(self).next_slot(),
            1 <= r,
            final(self).is_slot(r as int),
            final(self).nodes() == old(self).nodes_after_take(customer, load),
            final(self).used() == old(self).used().push(r),
            final(self).unused() == old(self).unused_after_take(),
    {
        let ghost d0 = self.nodes();
        let ghost u0 = self.used();
        let ghost f0 = self.unused();
        let node_index = if let Some(idx) = self.unused_nodes.pop() {
            assert(f0[f0.len() - 1] == idx);
            idx
        } else {
            let idx = self.node_data.len() as Node;
            self.node_data.push(NodeData { successor: 0, predecessor: 0, customer: 0, load: 0, index_in_used_nodes: 0 });
            idx
        };
        let pos = self.used_nodes.len();
        let nd = self.node_data[node_index as usize];
        self.node_data.set(node_index as usize, NodeData { customer, load, index_in_used_nodes: pos, ..nd });
        self.used_nodes.push(node_index);
        proof {
            assert(self.nodes() =~= old(self).nodes_after_take(customer, load));
            if f0.len() > 0 {
                assert(f0.drop_last() =~= self.unused());
                assert(!u0.contains(node_index)) by {
                    assert(!u0.contains(f0[f0.len() - 1]));
                }
            } else {
                assert(!u0.contains(node_index)) by {
                    if u0.contains(node_index) {
                        let k = choose|k: int| 0 <= k < u0.len() && u0[k] == node_index;
                        assert(u0[k] < d0.len());
                    }
                }
            }
            let d = self.nodes();
            let u = self.used();
            let f = self.unused();
            assert forall|i: int| 0 <= i < u.len() implies 1 <= #[trigger] u[i] < d.len()
                && d[u[i] as int].index_in_used_nodes == i by {
                if i < u0.len() {
                    assert(u[i] == u0[i]);
                    assert(u0[i] != node_index);
                }
            }
            assert forall|i: int| 0 <= i < f.len() implies 1 <= #[trigger] f[i] < d.len()
                && !u.contains(f[i]) by {
                assert(f[i] == f0[i]);
                assert(!u0.contains(f0[i]));
                if f0.len() > 0 {
                    assert(f0.no_duplicates());
                    assert(f0[i] != f0[f0.len() - 1]);
                }
                if u.contains(f[i]) {
                    let k = choose|k: int| 0 <= k < u.len() && u[k] == f[i];
                    if k < u0.len() {
                        assert(u0[k] == f0[i]);
                    }
                }
            }
        }
        node_index
    }

    /// Inserts a new slot for `customer` with `load` between `predecessor`
    /// and `successor`, and returns it.
    pub fn insert(&mut self, customer: Node, load: i32, predecessor: Node, successor: Node) -> (r: Node)
        requires
            old(self).wf(),
            old(self).room() > 0,
            old(self).is_slot(predecessor as int),
            old(self).is_slot(successor as int),
        ensures
            final(self).wf(),
            r == old(self).next_slot(),
            1 <= r,
            final(self).nodes() == linked(
                linked(old(self).nodes_after_take(customer, load), predecessor, r),
                r,
                successor,
            ),
            final(self).used() == old(self).used().push(r),
            final(self).unused() == old(self).unused_after_take(),
    {
        let node_index = self.new_node(customer, load);
        self.link(predecessor, node_index);
        self.link(node_index, successor);
        node_index
    }

    /// Removes a used slot: links its predecessor to its successor and moves
    /// the slot to the free list (the last used slot takes its position in
    /// the used list).
    pub fn remove(&mut self, node_index: Node)
        requires
            old(self).wf(),
            old(self).used().contains(node_index),
        ensures
            final(self).wf(),
            ({
                let d = old(self).nodes();
                let n = node_index as int;
                let d1 = linked(d, d[n].predecessor, d[n].successor);
                let i = d[n].index_in_used_nodes as int;
                let last = old(self).used().last();
                &&& final(self).nodes() == d1.update(
                    last as int,
                    NodeData { index_in_used_nodes: i as usize, ..d1[last as int] },
                )
                &&& final(self).used() == old(self).used().update(i, last).drop_last()
            }),
            final(self).unused() == old(self).unused().push(node_index),
    {
        let ghost u0 = self.used();
        let ghost f0 = self.unused();
        let ghost k0 = choose|k: int| 0 <= k < u0.len() && u0[k] == node_index;
        let predecessor = self.predecessor(node_index);
        let successor = self.successor(node_index);
        self.link(predecessor, successor);
        let ghost d1 = self.nodes();
        let index_in_used = self.node_data[node_index as usize].index_in_used_nodes;
        assert(index_in_used == k0);
        let last_node = self.used_nodes[self.used_nodes.len() - 1];
        let nd = self.node_data[last_node as usize];
        self.node_data.set(last_node as usize, NodeData { index_in_used_nodes: index_in_used, ..nd });
        self.used_nodes.set(index_in_used, last_node);
        self.used_nodes.pop();
        self.unused_nodes.push(node_index);
        proof {
            let d = self.nodes();
            let u = self.used();
            let f = self.unused();
            let lastpos = u0.len() - 1;
            assert(u =~= u0.update(k0, last_node).drop_last());
            assert forall|i: int| 0 <= i < u.len() implies 1 <= #[trigger] u[i] < d.len()
                && d[u[i] as int].index_in_used_nodes == i by {
                if i != k0 {
                    assert(u[i] == u0[i]);
                    if u0[i] == last_node {
                        old(self).lemma_used_distinct(i, lastpos);
                    }
                }
            }
            assert(!u.contains(node_index)) by {
                if u.contains(node_index) {
                    let k = choose|k: int| 0 <= k < u.len() && u[k] == node_index;
                    if k == k0 {
                        assert(u[k] == last_node);
                        old(self).lemma_used_distinct(k0, lastpos);
                    } else {
                        old(self).lemma_used_distinct(k, k0);
                    }
                }
            }
            assert forall|i: int| 0 <= i < f.len() implies 1 <= #[trigger] f[i] < d.len()
                && !u.contains(f[i]) by {
                if i < f0.len() {
                    assert(f[i] == f0[i]);
                    assert(!u0.contains(f0[i]));
                    if u.contains(f[i]) {
                        let k = choose|k: int| 0 <= k < u.len() && u[k] == f[i];
                        if k == k0 {
                            assert(u0[lastpos] == f0[i]);
                        } else {
                            assert(u0[k] == f0[i]);
                        }
                    }
                }
            }
            assert(f.no_duplicates()) by {
                assert(!f0.contains(node_index)) by {
                    if f0.contains(node_index) {
                        let k = choose|k: int| 0 <= k < f0.len() && f0[k] == node_index;
                        assert(!u0.contains(f0[k]));
                    }
                }
                assert forall|a: int, b: int| 0 <= a < f.len() && 0 <= b < f.len() && a != b implies f[a] != f[b] by {
                    if a < f0.len() && b < f0.len() {
                        assert(f0.no_duplicates());
                    } else if a < f0.len() {
                        assert(f0[a] != node_index);
                    } else {
                        assert(f0[b] != node_index);
                    }
                }
            }
        }
    }

    /// Slots in use.
    pub fn node_indices(&self) -> (r: &[Node])
        ensures
            r@ == self.used(),
    {
        self.used_nodes.as_slice()
    }

    /// Number of slots of the pool.
    pub fn node_data_len(&self) -> (r: usize)
        requires
            self.wf(),
        ensures
            r == self.nodes().len(),
    {
        self.node_data.len()
    }

    /// Largest index of a slot in use (0 when none is).
    pub fn max_node_index(&self) -> (r: Node)
        requires
            self.wf(),
        ensures
            r == 0 || self.used().contains(r),
            0 <= r,
            forall|k: int| 0 <= k < self.used().len() ==> #[trigger] self.used()[k] <= r,
    {
        let mut m: Node = 0;
        let mut k: usize = 0;
        while k < self.used_nodes.len()
            invariant
                k <= self.used().len(),
                self.used() == self.used_nodes@,
                m == 0 || self.used().contains(m),
                0 <= m,
                forall|j: int| 0 <= j < k ==> #[trigger] self.used()[j] <= m,
            decreases self.used().len() - k,
        {
            let x = self.used_nodes[k];
            if x > m {
                m = x;
                assert(self.used()[k as int] == m);
            }
            k = k + 1;
        }
        m
    }

    /// Number of slots that can still be taken.
    pub fn room_left(&self) -> (r: usize)
        requires
            self.wf(),
        ensures
            r == self.room(),
    {
        self.unused_nodes.len() + (MAX_SLOTS - self.node_data.len())
    }

    /// Whether a slot is in use.
    pub fn is_used(&self, node_index: Node) -> (r: bool)
        requires
            self.wf(),
            self.is_slot(node_index as int),
        ensures
            r == self.used().contains(node_index),
    {
        let i = self.node_data[node_index as usize].index_in_used_nodes;
        let r = i < self.used_nodes.len() && self.used_nodes[i] == node_index;
        proof {
            if self.used().contains(node_index) {
                let k = choose|k: int| 0 <= k < self.used().len() && self.used()[k] == node_index;
                assert(self.nodes()[self.used()[k] as int].index_in_used_nodes == k);
            }
        }
        r
    }

    /// Whether a slot starts its route (its predecessor is the depot).
    pub fn is_route_head(&self, node_index: Node) -> (r: bool)
        requires
            self.wf(),
            self.is_slot(node_index as int),
        ensures
            r == (self.nodes()[node_index as int].predecessor == 0),
    {
        self.predecessor(node_index) == 0
    }

    /// Inserts a new slot right after `predecessor`.
    pub fn insert_after(&mut self, customer: Node, load: i32, predecessor: Node) -> (r: Node)
        requires
            old(self).wf(),
            old(self).room() > 0,
            old(self).is_slot(predecessor as int),
        ensures
            final(self).wf(),
            r == old(self).next_slot(),
            final(self).nodes() == linked(
                linked(old(self).nodes_after_take(customer, load), predecessor, r),
                r,
                old(self).nodes()[predecessor as int].successor,
            ),
            final(self).used() == old(self).used().push(r),
            final(self).unused() == old(self).unused_after_take(),
    {
        let successor = self.successor(predecessor);
        self.insert(customer, load, predecessor, successor)
    }

    /// Inserts a new slot right before `successor`.
    pub fn insert_before(&mut self, customer: Node, load: i32, successor: Node) -> (r: Node)
        requires
            old(self).wf(),
            old(self).room() > 0,
            old(self).is_slot(successor as int),
        ensures
            final(self).wf(),
            r == old(self).next_slot(),
            final(self).nodes() == linked(
                linked(old(self).nodes_after_take(customer, load), old(self).nodes()[successor as int].predecessor, r),
                r,
                successor,
            ),
            final(self).used() == old(self).used().push(r),
            final(self).unused() == old(self).unused_after_take(),
    {
        let predecessor = self.predecessor(successor);
        self.insert(customer, load, predecessor, successor)
    }

    /// Cost change of removing slot `n`: the edge that bypasses it minus the
    /// two edges through it.
    pub open spec fn removal_cost(&self, inst: &Instance, n: int) -> int {
        let d = self.nodes();
        let cp = cust_of(d, pred_of(d, n));
        let cs = cust_of(d, succ_of(d, n));
        let c = cust_of(d, n);
        inst.dist(cp, cs) - inst.dist(cp, c) - inst.dist(c, cs)
    }

    /// Cost change of inserting `customer` between slots `p` and `s`.
    pub open spec fn insertion_cost(&self, inst: &Instance, customer: int, p: int, s: int) -> int {
        let d = self.nodes();
        inst.dist(cust_of(d, p), customer) + inst.dist(customer, cust_of(d, s)) - inst.dist(
            cust_of(d, p),
            cust_of(d, s),
        )
    }

    /// Cost change of removing slot `node_index` from its position.
    pub fn removal_delta(&self, instance: &Instance, node_index: Node) -> (r: i32)
        requires
            instance.wf(),
            self.valid_for(instance),
            self.is_slot(node_index as int),
        ensures
            r == self.removal_cost(instance, node_index as int),
    {
        let pred = self.predecessor(node_index);
        let succ = self.successor(node_index);
        let cp = self.customer(pred);
        let cs = self.customer(succ);
        let c = self.customer(node_index);
        instance.distance(cp, cs) - instance.distance(cp, c) - instance.distance(c, cs)
    }

    /// Cost change of inserting `customer` between `predecessor` and
    /// `successor`.
    pub fn insertion_delta(&self, instance: &Instance, customer: Node, predecessor: Node, successor: Node) -> (r: i32)
        requires
            instance.wf(),
            self.valid_for(instance),
            instance.is_node(customer as int),
            self.is_slot(predecessor as int),
            self.is_slot(successor as int),
        ensures
            r == self.insertion_cost(instance, customer as int, predecessor as int, successor as int),
    {
        let cp = self.customer(predecessor);
        let cs = self.customer(successor);
        instance.distance(cp, customer) + instance.distance(customer, cs) - instance.distance(cp, cs)
    }

    /// Slots of `used` (in order) that start a route.
    pub open spec fn heads_of(&self) -> Seq<Node> {
        self.used().filter(|n: Node| pred_of(self.nodes(), n as int) == 0)
    }

    /// Iterator over the slots of the route starting at `head`.
    pub fn route_nodes(&self, head: Node) -> (r: RouteNodeIter<'_>)
        requires
            self.wf(),
            self.is_slot(head as int),
        ensures
            r.solution() == self,
            r.current() == head,
    {
        RouteNodeIter { solution: self, current: head }
    }

    /// Number of slots on the route starting at `head`.
    pub fn route_len(&self, head: Node) -> (r: usize)
        requires
            self.wf(),
            self.is_slot(head as int),
            is_route(self.nodes(), head as int),
        ensures
            r == route_length(self.nodes(), head as int),
    {
        let ghost d = self.nodes();
        let ghost n = route_length(d, head as int);
        let mut cur = head;
        let mut count: usize = 0;
        while cur != 0
            invariant
                self.wf(),
                d == self.nodes(),
                n < d.len(),
                route_len_is(d, head as int, n),
                count <= n,
                cur == walk(d, head as int, count as nat),
                self.is_slot(cur as int),
            decreases n - count,
        {
            cur = self.successor(cur);
            count = count + 1;
        }
        count
    }

    /// Total load of the route starting at `head`.
    pub fn route_load(&self, head: Node) -> (r: i32)
        requires
            self.wf(),
            self.is_slot(head as int),
            is_route(self.nodes(), head as int),
            i32::MIN <= route_load_sum(self.nodes(), head as int) <= i32::MAX,
        ensures
            r == route_load_sum(self.nodes(), head as int),
    {
        let ghost d = self.nodes();
        let ghost n = route_length(d, head as int);
        let mut cur = head;
        let mut count: usize = 0;
        let mut total: i64 = 0;
        while cur != 0
            invariant
                self.wf(),
                d == self.nodes(),
                n < d.len(),
                d.len() <= MAX_SLOTS,
                route_len_is(d, head as int, n),
                count <= n,
                cur == walk(d, head as int, count as nat),
                self.is_slot(cur as int),
                total == walk_load(d, head as int, count as nat),
                -(count as int) * 0x8000_0000 <= total <= (count as int) * 0x8000_0000,
            decreases n - count,
        {
            total = total + self.load(cur) as i64;
            cur = self.successor(cur);
            count = count + 1;
        }
        total as i32
    }

    /// Slots that start a route (their predecessor is the depot), in the
    /// order of the used list.
    pub fn route_heads(&self) -> (r: Vec<Node>)
        requires
            self.wf(),
        ensures
            r@ == self.heads_of(),
            forall|k: int| 0 <= k < r@.len() ==> self.used().contains(#[trigger] r@[k]),
    {
        let mut heads: Vec<Node> = Vec::new();
        let ghost d = self.nodes();
        let ghost pick = |n: Node| pred_of(d, n as int) == 0;
        let mut i: usize = 0;
        while i < self.used_nodes.len()
            invariant
                self.wf(),
                d == self.nodes(),
                i <= self.used().len(),
                pick == (|n: Node| pred_of(d, n as int) == 0),
                heads@ == self.used().take(i as int).filter(pick),
                forall|k: int| 0 <= k < heads@.len() ==> self.used().contains(#[trigger] heads@[k]),
            decreases self.used().len() - i,
        {
            let n = self.used_nodes[i];
            let is_head = self.predecessor(n) == 0;
            proof {
                let t = self.used().take(i + 1);
                assert(t.drop_last() =~= self.used().take(i as int));
                assert(t.last() == n);
                assert(self.used()[i as int] == n);
                assert(pick(n) == is_head);
                reveal_with_fuel(Seq::<_>::filter, 1);
                assert(t.filter(pick) == if pick(n) { t.drop_last().filter(pick).push(n) } else { t.drop_last().filter(pick) });
            }
            if is_head {
                heads.push(n);
            }
            i = i + 1;
        }
        assert(self.used().take(i as int) =~= self.used());
        assert(pick == (|n: Node| pred_of(self.nodes(), n as int) == 0));
        heads
    }

    /// Total travel cost of all routes.
    pub fn calc_objective(&self, instance: &Instance) -> (r: i32)
        requires
            instance.wf(),
            self.valid_for(instance),
            i32::MIN <= self.objective(instance) <= i32::MAX,
        ensures
            r == self.objective(instance),
    {
        let ghost d = self.nodes();
        let mut objective: i64 = 0;
        let mut i: usize = 0;
        while i < self.used_nodes.len()
            invariant
                instance.wf(),
                self.valid_for(instance),
                d == self.nodes(),
                i <= self.used().len(),
                self.used().len() <= MAX_SLOTS,
                objective == cost_upto(d, *instance, self.used(), i as nat),
                -(i as int) * 0x400_0000 <= objective <= (i as int) * 0x400_0000,
            decreases self.used().len() - i,
        {
            let node_index = self.used_nodes[i];
            let predecessor = self.predecessor(node_index);
            let successor = self.successor(node_index);
            let c = self.customer(node_index);
            objective = objective + instance.distance(self.customer(predecessor), c) as i64;
            if successor == 0 {
                objective = objective + instance.distance(c, 0) as i64;
            }
            i = i + 1;
        }
        objective as i32
    }

    /// Total travel cost of all routes, or `None` when it does not fit an
    /// `i32`.
    pub fn calc_objective_checked(&self, instance: &Instance) -> (r: Option<i32>)
        requires
            instance.wf(),
            self.valid_for(instance),
        ensures
            r matches Some(v) ==> v == self.objective(instance),
            r is None <==> !(i32::MIN <= self.objective(instance) <= i32::MAX),
    {
        let ghost d = self.nodes();
        let mut objective: i64 = 0;
        let mut i: usize = 0;
        while i < self.used_nodes.len()
            invariant
                instance.wf(),
                self.valid_for(instance),
                d == self.nodes(),
                i <= self.used().len(),
                self.used().len() <= MAX_SLOTS,
                objective == cost_upto(d, *instance, self.used(), i as nat),
                -(i as int) * 0x400_0000 <= objective <= (i as int) * 0x400_0000,
            decreases self.used().len() - i,
        {
            let node_index = self.used_nodes[i];
            let predecessor = self.predecessor(node_index);
            let successor = self.successor(node_index);
            let c = self.customer(node_index);
            objective = objective + instance.distance(self.customer(predecessor), c) as i64;
            if successor == 0 {
                objective = objective + instance.distance(c, 0) as i64;
            }
            i = i + 1;
        }
        if objective < i32::MIN as i64 || objective > i32::MAX as i64 {
            None
        } else {
            Some(objective as i32)
        }
    }

    /// A copy, slot for slot.
    pub fn duplicate(&self) -> (r: Self)
        ensures
            r.nodes() == self.nodes(),
            r.used() == self.used(),
            r.unused() == self.unused(),
    {
        let mut node_data: Vec<NodeData> = Vec::new();
        let mut k: usize = 0;
        while k < self.node_data.len()
            invariant
                k <= self.nodes().len(),
                node_data@ == self.nodes().take(k as int),
            decreases self.nodes().len() - k,
        {
            node_data.push(self.node_data[k]);
            k = k + 1;
            assert(node_data@ =~= self.nodes().take(k as int));
        }
        let mut used_nodes: Vec<Node> = Vec::new();
        k = 0;
        while k < self.used_nodes.len()
            invariant
                k <= self.used().len(),
                used_nodes@ == self.used().take(k as int),
            decreases self.used().len() - k,
        {
            used_nodes.push(self.used_nodes[k]);
            k = k + 1;
            assert(used_nodes@ =~= self.used().take(k as int));
        }
        let mut unused_nodes: Vec<Node> = Vec::new();
        k = 0;
        while k < self.unused_nodes.len()
            invariant
                k <= self.unused().len(),
                unused_nodes@ == self.unused().take(k as int),
            decreases self.unused().len() - k,
        {
            unused_nodes.push(self.unused_nodes[k]);
            k = k + 1;
            assert(unused_nodes@ =~= self.unused().take(k as int));
        }
        assert(node_data@ =~= self.nodes());
        assert(used_nodes@ =~= self.used());
        assert(unused_nodes@ =~= self.unused());
        AlkaidSolution { node_data, used_nodes, unused_nodes }
    }

    /// Links the chain `left ..= right` backwards between `predecessor` and
    /// `successor`: walking from `right` through predecessors, each slot is
    /// linked after the previous one, and finally `left` is linked to
    /// `successor`. The walk stops at `left`, or after as many steps as
    /// there are slots.
    pub fn reversed_link(&mut self, left: Node, right: Node, predecessor: Node, successor: Node)
        requires
            old(self).wf(),
            old(self).is_slot(left as int),
            old(self).is_slot(right as int),
            old(self).is_slot(predecessor as int),
            old(self).is_slot(successor as int),
        ensures
            final(self).wf(),
            final(self).nodes() == linked(
                reverse_links(old(self).nodes(), right as int, left, predecessor, (old(self).nodes().len() - 1) as nat),
                left,
                successor,
            ),
            final(self).nodes().len() == old(self).nodes().len(),
            forall|n: int|
                0 <= n < old(self).nodes().len() ==> (#[trigger] final(self).nodes()[n]).customer
                    == old(self).nodes()[n].customer && final(self).nodes()[n].load == old(self).nodes()[n].load,
            final(self).used() == old(self).used(),
            final(self).unused() == old(self).unused(),
    {
        let mut current = right;
        let mut new_pred = predecessor;
        let mut fuel: usize = self.node_data.len() - 1;
        let ghost target = reverse_links(self.nodes(), right as int, left, predecessor, fuel as nat);
        loop
            invariant_except_break
                reverse_links(self.nodes(), current as int, left, new_pred, fuel as nat) == target,
            invariant
                self.wf(),
                self.is_slot(current as int),
                self.is_slot(new_pred as int),
                self.is_slot(left as int),
                self.is_slot(successor as int),
                self.nodes().len() == old(self).nodes().len(),
                forall|n: int|
                    0 <= n < old(self).nodes().len() ==> (#[trigger] self.nodes()[n]).customer
                        == old(self).nodes()[n].customer && self.nodes()[n].load == old(self).nodes()[n].load,
                self.used() == old(self).used(),
                self.unused() == old(self).unused(),
            ensures
                self.wf(),
                self.nodes() == target,
                self.nodes().len() == old(self).nodes().len(),
                forall|n: int|
                    0 <= n < old(self).nodes().len() ==> (#[trigger] self.nodes()[n]).customer
                        == old(self).nodes()[n].customer && self.nodes()[n].load == old(self).nodes()[n].load,
                self.is_slot(left as int),
                self.is_slot(successor as int),
                self.used() == old(self).used(),
                self.unused() == old(self).unused(),
            decreases fuel,
        {
            let original_predecessor = self.predecessor(current);
            self.link(new_pred, current);
            if current == left || fuel == 0 {
                break;
            }
            new_pred = current;
            current = original_predecessor;
            fuel = fuel - 1;
        }
        self.link(left, successor);
    }
}

/// Slots after the backward relinking loop of `reversed_link`: link
/// `new_pred` to `current`; unless `current` is `left` or the fuel is
/// spent, continue from the old predecessor of `current` with `current` as
/// the new predecessor.
pub open spec fn reverse_links(d: Seq<NodeData>, current: int, left: Node, new_pred: Node, fuel: nat) -> Seq<NodeData>
    decreases fuel,
{
    let op = pred_of(d, current);
    let d1 = linked(d, new_pred, current as Node);
    if current == left || fuel == 0 {
        d1
    } else {
        reverse_links(d1, op, left, current as Node, (fuel - 1) as nat)
    }
}

/// Iterator over the slots of a route, following successors until the
/// depot.
pub struct RouteNodeIter<'a> {
    solution: &'a AlkaidSolution,
    current: Node,
}

impl<'a> RouteNodeIter<'a> {
    /// Solution walked.
    pub closed spec fn solution(&self) -> &'a AlkaidSolution {
        self.solution
    }

    /// Next slot to yield (0: exhausted).
    pub closed spec fn current(&self) -> Node {
        self.current
    }

    /// Yields the current slot and moves to its successor; `None` at the
    /// depot.
    pub fn next(&mut self) -> (r: Option<Node>)
        requires
            old(self).solution().wf(),
            old(self).solution().is_slot(old(self).current() as int),
        ensures
            final(self).solution() == old(self).solution(),
            old(self).current() == 0 ==> r.is_none() && final(self).current() == 0,
            old(self).current() != 0 ==> r == Some(old(self).current())
                && final(self).current() == old(self).solution().nodes()[old(self).current() as int].successor,
            final(self).solution().is_slot(final(self).current() as int),
    {
        if self.current == 0 {
            None
        } else {
            let node = self.current;
            self.current = self.solution.successor(node);
            Some(node)
        }
    }

    /// All remaining slots of the route, in order.
    pub fn collect_nodes(self) -> (r: Vec<Node>)
        requires
            self.solution().wf(),
            self.solution().is_slot(self.current() as int),
            is_route(self.solution().nodes(), self.current() as int),
        ensures
            r@ == route_seq(self.solution().nodes(), self.current() as int),
    {
        let sol = self.solution;
        let head = self.current;
        let ghost d = sol.nodes();
        let ghost n = route_length(d, head as int);
        let mut out: Vec<Node> = Vec::new();
        let mut cur = head;
        while cur != 0
            invariant
                sol.wf(),
                d == sol.nodes(),
                n < d.len(),
                route_len_is(d, head as int, n),
                out.len() <= n,
                cur == walk(d, head as int, out.len() as nat),
                sol.is_slot(cur as int),
                forall|k: int| 0 <= k < out.len() ==> out@[k] == walk(d, head as int, k as nat),
            decreases n - out.len(),
        {
            out.push(cur);
            cur = sol.successor(cur);
        }
        assert(out@ =~= route_seq(d, head as int));
        out
    }
}

/// What `insert` leaves of the slots: only the taken slot changes customer
/// and load, and it was not in use.
pub proof fn lemma_insert_frame(sol: AlkaidSolution, customer: Node, load: i32, p: Node, s: Node)
    requires
        sol.wf(),
        sol.room() > 0,
        sol.is_slot(p as int),
        sol.is_slot(s as int),
    ensures
        ({
            let t = sol.next_slot() as int;
            let d2 = linked(linked(sol.nodes_after_take(customer, load), p, t as Node), t as Node, s);
            &&& d2.len() >= sol.nodes().len()
            &&& d2.len() == sol.nodes().len() || (d2.len() == sol.nodes().len() + 1 && t == sol.nodes().len())
            &&& 1 <= t < d2.len()
            &&& d2[t].customer == customer
            &&& d2[t].load == load
            &&& !sol.used().contains(t as Node)
            &&& sol.unused_after_take().len() + MAX_SLOTS - d2.len() == sol.room() - 1
            &&& forall|x: int|
                0 <= x < sol.nodes().len() && x != t ==> (#[trigger] d2[x]).customer == sol.nodes()[x].customer
                    && d2[x].load == sol.nodes()[x].load
        }),
{
    let t = sol.next_slot() as int;
    if sol.unused().len() > 0 {
        assert(sol.unused().last() == sol.unused()[sol.unused().len() - 1]);
    } else {
        if sol.used().contains(t as Node) {
            let k = choose|k: int| 0 <= k < sol.used().len() && sol.used()[k] == t as Node;
            assert(sol.used()[k] < sol.nodes().len());
        }
    }
}


/// After `insert(customer, load, ..)` the served pairs gain
/// `(customer, load)` at the end.
pub proof fn lemma_served_after_insert(sol: AlkaidSolution, sol2: AlkaidSolution, customer: Node, load: i32, p: Node, s: Node)
    requires
        sol.wf(),
        sol.room() > 0,
        sol.is_slot(p as int),
        sol.is_slot(s as int),
        sol2.nodes() == linked(
            linked(sol.nodes_after_take(customer, load), p, sol.next_slot()),
            sol.next_slot(),
            s,
        ),
        sol2.used() == sol.used().push(sol.next_slot()),
    ensures
        sol2.served() == sol.served().push((customer, load)),
{
    lemma_insert_frame(sol, customer, load, p, s);
    let t = sol.next_slot();
    assert forall|k: int| 0 <= k < sol.used().len() implies sol2.served()[k] == sol.served()[k] by {
        assert(sol.used()[k] != t) by {
            assert(sol.used().contains(sol.used()[k]));
        }
        assert(sol.used()[k] < sol.nodes().len());
    }
    assert(sol2.served() =~= sol.served().push((customer, load)));
}

/// `insert` of a customer of `inst` keeps a solution valid for `inst`.
pub proof fn lemma_insert_valid(sol: AlkaidSolution, sol2: AlkaidSolution, inst: &Instance, customer: Node, load: i32, p: Node, s: Node)
    requires
        sol.valid_for(inst),
        sol.room() > 0,
        sol.is_slot(p as int),
        sol.is_slot(s as int),
        inst.is_node(customer as int),
        sol2.wf(),
        sol2.nodes() == linked(
            linked(sol.nodes_after_take(customer, load), p, sol.next_slot()),
            sol.next_slot(),
            s,
        ),
        sol2.used() == sol.used().push(sol.next_slot()),
        sol2.unused() == sol.unused_after_take(),
    ensures
        sol2.valid_for(inst),
        sol2.room() == sol.room() - 1,
        sol2.nodes().len() >= sol.nodes().len(),
        sol2.served() == sol.served().push((customer, load)),
{
    lemma_insert_frame(sol, customer, load, p, s);
    lemma_served_after_insert(sol, sol2, customer, load, p, s);
    let t = sol.next_slot() as int;
    assert forall|n: int| 0 <= n < sol2.nodes().len() implies inst.is_node((#[trigger] sol2.nodes()[n]).customer as int) by {
        if n != t {
            assert(sol.nodes()[n].customer == sol2.nodes()[n].customer);
        }
    }
}

} // verus!
