//! A pool of doubly linked slots carrying data of any type, with a list of
//! slots in use and a list of free slots for reuse; slot 0 is the depot.
use vstd::prelude::*;

verus! {

/// One slot.
#[derive(Debug, Clone, Default)]
struct NodeData<T> {
    succ: usize,
    pred: usize,
    data: T,
    index_in_used_nodes: usize,
}

/// Slots linked both ways, with the slots in use and the free ones.
#[derive(Debug, Clone)]
pub struct LinkedList<T> {
    node_data: Vec<NodeData<T>>,
    used_nodes: Vec<usize>,
    unused_nodes: Vec<usize>,
}

/// `ls` after linking `p` to `s`: `s` gets predecessor `p`, then `p`
/// gets successor `s`.
pub open spec fn links_linked(ls: Seq<(usize, usize)>, p: usize, s: usize) -> Seq<(usize, usize)> {
    let l1 = ls.update(s as int, (ls[s as int].0, p));
    l1.update(p as int, (s, l1[p as int].1))
}

/// `ls` after the backward relinking of a reversed segment: link
/// `new_pred` to `current`; unless `current` is `left` or the fuel is
/// spent, continue from the old predecessor of `current` with `current` as
/// the new predecessor.
pub open spec fn links_reversed(
    ls: Seq<(usize, usize)>,
    current: usize,
    left: usize,
    new_pred: usize,
    fuel: nat,
) -> Seq<(usize, usize)>
    decreases fuel,
{
    let op = ls[current as int].1;
    let l1 = links_linked(ls, new_pred, current);
    if current == left || fuel == 0 {
        l1
    } else {
        links_reversed(l1, op, left, current, (fuel - 1) as nat)
    }
}

impl<T: Default> LinkedList<T> {
    /// A pool holding only the depot slot.
    pub fn new() -> (r: Self)
        ensures
            r.wf(),
            r.len() == 1,
            r.succ(0) == 0,
            r.pred(0) == 0,
            r.used().len() == 0,
            r.unused().len() == 0,
    {
        let mut node_data: Vec<NodeData<T>> = Vec::new();
        node_data.push(NodeData { succ: 0, pred: 0, data: T::default(), index_in_used_nodes: 0 });
        LinkedList { node_data, used_nodes: Vec::new(), unused_nodes: Vec::new() }
    }
}

impl<T: Default> Default for LinkedList<T> {
    fn default() -> (r: Self)
        ensures
            r.wf(),
            r.len() == 1,
            r.used().len() == 0,
            r.unused().len() == 0,
    {
        Self::new()
    }
}

impl<T> LinkedList<T> {
    /// Number of slots.
    pub closed spec fn len(&self) -> nat {
        self.node_data@.len()
    }

    /// Successor of slot `i`.
    pub closed spec fn succ(&self, i: int) -> usize {
        self.node_data@[i].succ
    }

    /// Predecessor of slot `i`.
    pub closed spec fn pred(&self, i: int) -> usize {
        self.node_data@[i].pred
    }

    /// Data of slot `i`.
    pub closed spec fn item(&self, i: int) -> T {
        self.node_data@[i].data
    }

    /// Successor and predecessor of each slot.
    pub closed spec fn links(&self) -> Seq<(usize, usize)> {
        Seq::new(self.len(), |i: int| (self.succ(i), self.pred(i)))
    }

    /// Position recorded by slot `i` in the list of slots in use.
    pub closed spec fn pos(&self, i: int) -> usize {
        self.node_data@[i].index_in_used_nodes
    }

    /// Slots in use, in the order they were taken.
    pub closed spec fn used(&self) -> Seq<usize> {
        self.used_nodes@
    }

    /// Free slots; the last one is reused first.
    pub closed spec fn unused(&self) -> Seq<usize> {
        self.unused_nodes@
    }

    /// Links point into the pool, every slot in use records its position
    /// in the list of slots in use, and free slots are distinct and not in
    /// use.
    pub closed spec fn wf(&self) -> bool {
        let n = self.len();
        &&& 1 <= n
        &&& forall|i: int| 0 <= i < n ==> (#[trigger] self.node_data@[i]).succ < n && self.node_data@[i].pred < n
        &&& forall|i: int|
            0 <= i < self.used().len() ==> 1 <= #[trigger] self.used()[i] < n && self.node_data@[self.used()[i] as int].index_in_used_nodes
                == i
        &&& forall|i: int|
            0 <= i < self.unused().len() ==> 1 <= #[trigger] self.unused()[i] < n && !self.used().contains(
                self.unused()[i],
            )
        &&& self.unused().no_duplicates()
    }

    /// Slot taken by the next `new_node`: the last free one, or a new one.
    pub open spec fn next_slot(&self) -> usize {
        if self.unused().len() > 0 {
            self.unused().last()
        } else {
            self.len() as usize
        }
    }

    proof fn lemma_used_distinct(&self, a: int, b: int)
        requires
            self.wf(),
            0 <= a < self.used().len(),
            0 <= b < self.used().len(),
            self.used()[a] == self.used()[b],
        ensures
            a == b,
    {
        assert(self.pos(self.used()[a] as int) == a);
        assert(self.pos(self.used()[b] as int) == b);
    }

    /// Data of a slot.
    pub fn data(&self, node: usize) -> (r: &T)
        requires
            node < self.len(),
        ensures
            *r == self.item(node as int),
    {
        &self.node_data[node].data
    }

    /// Well-formedness depends only on the length, the links, the recorded
    /// positions and the lists of slots in use and free.
    pub proof fn lemma_wf_same_shape(a: &Self, b: &Self)
        requires
            a.wf(),
            b.len() == a.len(),
            forall|i: int| 0 <= i < a.len() ==> #[trigger] b.succ(i) == a.succ(i),
            forall|i: int| 0 <= i < a.len() ==> #[trigger] b.pred(i) == a.pred(i),
            forall|i: int| 0 <= i < a.len() ==> #[trigger] b.pos(i) == a.pos(i),
            b.used() == a.used(),
            b.unused() == a.unused(),
        ensures
            b.wf(),
    {
        assert forall|i: int| 0 <= i < b.len() implies (#[trigger] b.node_data@[i]).succ < b.len() && b.node_data@[i].pred < b.len() by {
            assert(0 <= i < a.len());
            assert(b.succ(i) == a.succ(i));
            assert(b.pred(i) == a.pred(i));
            assert(a.node_data@[i].succ < a.len());
        }
        assert forall|i: int| 0 <= i < b.used().len() implies 1 <= #[trigger] b.used()[i] < b.len()
            && b.node_data@[b.used()[i] as int].index_in_used_nodes == i by {
            assert(a.used()[i] == b.used()[i]);
            assert(a.node_data@[a.used()[i] as int].index_in_used_nodes == i);
            assert(b.pos(b.used()[i] as int) == a.pos(a.used()[i] as int));
        }
    }

    /// Data of a slot, to change in place; nothing else of the list
    /// changes.
    pub fn data_mut(&mut self, node: usize) -> (r: &mut T)
        requires
            node < old(self).len(),
        ensures
            *r == old(self).item(node as int),
            final(self).len() == old(self).len(),
            final(self).item(node as int) == *final(r),
            forall|i: int| 0 <= i < old(self).len() && i != node ==> #[trigger] final(self).item(i) == old(self).item(i),
            forall|i: int| 0 <= i < old(self).len() ==> #[trigger] final(self).succ(i) == old(self).succ(i),
            forall|i: int| 0 <= i < old(self).len() ==> #[trigger] final(self).pred(i) == old(self).pred(i),
            final(self).used() == old(self).used(),
            final(self).unused() == old(self).unused(),
            forall|i: int| 0 <= i < old(self).len() ==> #[trigger] final(self).pos(i) == old(self).pos(i),
    {
        &mut self.node_data[node].data
    }

    /// Takes a slot (the last free one if any, else a new one) holding
    /// `data`, unlinked, and appends it to the slots in use.
    pub fn new_node(&mut self, data: T) -> (r: usize)
        requires
            old(self).wf(),
            old(self).len() < usize::MAX,
        ensures
            final(self).wf(),
            r == old(self).next_slot(),
            1 <= r < final(self).len(),
            final(self).len() == if old(self).unused().len() > 0 { old(self).len() } else { old(self).len() + 1 },
            final(self).item(r as int) == data,
            final(self).succ(r as int) == 0,
            final(self).pred(r as int) == 0,
            forall|i: int|
                0 <= i < old(self).len() && i != r ==> #[trigger] final(self).item(i) == old(self).item(i)
                    && final(self).succ(i) == old(self).succ(i) && final(self).pred(i) == old(self).pred(i),
            final(self).used() == old(self).used().push(r),
            final(self).unused() == if old(self).unused().len() > 0 {
                old(self).unused().drop_last()
            } else {
                old(self).unused()
            },
    {
        let ghost u0 = self.used();
        let ghost f0 = self.unused();
        let ghost l0 = self.len();
        let new_data = NodeData { succ: 0, pred: 0, data, index_in_used_nodes: self.used_nodes.len() };
        let node = if self.unused_nodes.len() > 0 {
            let idx = self.unused_nodes.pop().unwrap();
            assert(f0[f0.len() - 1] == idx);
            self.node_data.set(idx, new_data);
            idx
        } else {
            let idx = self.node_data.len();
            self.node_data.push(new_data);
            idx
        };
        self.used_nodes.push(node);
        proof {
            if f0.len() > 0 {
                assert(f0.drop_last() =~= self.unused());
                assert(!u0.contains(node)) by {
                    assert(!u0.contains(f0[f0.len() - 1]));
                }
            } else {
                assert(!u0.contains(node)) by {
                    if u0.contains(node) {
                        let k = choose|k: int| 0 <= k < u0.len() && u0[k] == node;
                        assert(u0[k] < l0);
                    }
                }
            }
            let u = self.used();
            let f = self.unused();
            assert forall|i: int| 0 <= i < u.len() implies 1 <= #[trigger] u[i] < self.len() && self.pos(u[i] as int)
                == i by {
                if i < u0.len() {
                    assert(u[i] == u0[i]);
                    assert(u0[i] != node);
                }
            }
            assert forall|i: int| 0 <= i < f.len() implies 1 <= #[trigger] f[i] < self.len() && !u.contains(f[i]) by {
                assert(f[i] == f0[i]);
                assert(!u0.contains(f0[i]));
                if f0.len() > 0 {
                    assert(f0.no_duplicates());
                    assert(f0[i] != f0[f0.len() - 1]);
                }
                if u.contains(f[i]) {
                    let k = choose|k: int| 0 <= k < u.len() && u[k] == f[i];
                    if k < u0.len() {
                        assert(u0[k] == f0[i]);
                    }
                }
            }
        }
        node
    }

    /// Slots in use.
    pub fn nodes(&self) -> (r: &[usize])
        ensures
            r@ == self.used(),
    {
        self.used_nodes.as_slice()
    }

    /// Largest slot index.
    pub fn max_node_index(&self) -> (r: usize)
        requires
            self.wf(),
        ensures
            r == self.len() - 1,
    {
        self.node_data.len() - 1
    }

    /// Predecessor of a slot.
    pub fn predecessor(&self, node: usize) -> (r: usize)
        requires
            self.wf(),
            node < self.len(),
        ensures
            r == self.pred(node as int),
            r < self.len(),
    {
        self.node_data[node].pred
    }

    /// Successor of a slot.
    pub fn successor(&self, node: usize) -> (r: usize)
        requires
            self.wf(),
            node < self.len(),
        ensures
            r == self.succ(node as int),
            r < self.len(),
    {
        self.node_data[node].succ
    }

    /// Sets the predecessor of a slot.
    pub fn set_predecessor(&mut self, node: usize, predecessor: usize)
        requires
            old(self).wf(),
            node < old(self).len(),
            predecessor < old(self).len(),
        ensures
            final(self).wf(),
            final(self).len() == old(self).len(),
            final(self).pred(node as int) == predecessor,
            final(self).succ(node as int) == old(self).succ(node as int),
            forall|i: int|
                #![trigger final(self).pred(i)]
                #![trigger final(self).succ(i)]
                0 <= i < old(self).len() && i != node ==> final(self).pred(i) == old(self).pred(i) && final(self).succ(i)
                    == old(self).succ(i),
            forall|i: int| 0 <= i < old(self).len() ==> #[trigger] final(self).item(i) == old(self).item(i),
            final(self).used() == old(self).used(),
            final(self).unused() == old(self).unused(),
    {
        let ghost d0 = self.node_data@;
        let mut nd = self.node_data.remove(node);
        nd.pred = predecessor;
        self.node_data.insert(node, nd);
        proof {
            assert forall|i: int| 0 <= i < self.len() && i != node implies #[trigger] self.node_data@[i] == d0[i] by {}
            assert forall|i: int| 0 <= i < self.used().len() implies 1 <= #[trigger] self.used()[i] < self.len()
                && self.pos(self.used()[i] as int) == i by {
                assert(self.used()[i] == old(self).used()[i]);
                assert(old(self).pos(self.used()[i] as int) == i);
            }
        }
    }

    /// Sets the successor of a slot.
    pub fn set_successor(&mut self, node: usize, successor: usize)
        requires
            old(self).wf(),
            node < old(self).len(),
            successor < old(self).len(),
        ensures
            final(self).wf(),
            final(self).len() == old(self).len(),
            final(self).succ(node as int) == successor,
            final(self).pred(node as int) == old(self).pred(node as int),
            forall|i: int|
                #![trigger final(self).pred(i)]
                #![trigger final(self).succ(i)]
                0 <= i < old(self).len() && i != node ==> final(self).pred(i) == old(self).pred(i) && final(self).succ(i)
                    == old(self).succ(i),
            forall|i: int| 0 <= i < old(self).len() ==> #[trigger] final(self).item(i) == old(self).item(i),
            final(self).used() == old(self).used(),
            final(self).unused() == old(self).unused(),
    {
        let ghost d0 = self.node_data@;
        let mut nd = self.node_data.remove(node);
        nd.succ = successor;
        self.node_data.insert(node, nd);
        proof {
            assert forall|i: int| 0 <= i < self.len() && i != node implies #[trigger] self.node_data@[i] == d0[i] by {}
            assert forall|i: int| 0 <= i < self.used().len() implies 1 <= #[trigger] self.used()[i] < self.len()
                && self.pos(self.used()[i] as int) == i by {
                assert(self.used()[i] == old(self).used()[i]);
                assert(old(self).pos(self.used()[i] as int) == i);
            }
        }
    }

    /// Links `predecessor` to `successor` (the successor's predecessor is
    /// set first).
    pub fn link(&mut self, predecessor: usize, successor: usize)
        requires
            old(self).wf(),
            predecessor < old(self).len(),
            successor < old(self).len(),
        ensures
            final(self).wf(),
            final(self).len() == old(self).len(),
            final(self).succ(predecessor as int) == successor,
            final(self).pred(successor as int) == predecessor,
            final(self).links() == links_linked(old(self).links(), predecessor, successor),
            predecessor != successor ==> final(self).pred(predecessor as int) == old(self).pred(predecessor as int)
                && final(self).succ(successor as int) == old(self).succ(successor as int),
            forall|i: int|
                #![trigger final(self).pred(i)]
                #![trigger final(self).succ(i)]
                0 <= i < old(self).len() && i != predecessor && i != successor ==> final(self).pred(i) == old(self).pred(i)
                    && final(self).succ(i) == old(self).succ(i),
            forall|i: int| 0 <= i < old(self).len() ==> #[trigger] final(self).item(i) == old(self).item(i),
            final(self).used() == old(self).used(),
            final(self).unused() == old(self).unused(),
    {
        self.set_predecessor(successor, predecessor);
        self.set_successor(predecessor, successor);
        assert(self.links() =~= links_linked(old(self).links(), predecessor, successor));
    }

    /// Links the neighbours of a slot in use together and moves the slot to
    /// the free list (the last slot in use takes its position in the list
    /// of slots in use).
    pub fn remove(&mut self, node: usize)
        requires
            old(self).wf(),
            old(self).used().contains(node),
        ensures
            final(self).wf(),
            final(self).len() == old(self).len(),
            final(self).succ(old(self).pred(node as int) as int) == old(self).succ(node as int),
            final(self).pred(old(self).succ(node as int) as int) == old(self).pred(node as int),
            forall|i: int| 0 <= i < old(self).len() ==> #[trigger] final(self).item(i) == old(self).item(i),
            ({
                let u = old(self).used();
                let k = choose|k: int| 0 <= k < u.len() && u[k] == node;
                final(self).used() == u.update(k, u.last()).drop_last()
            }),
            !final(self).used().contains(node),
            final(self).unused() == old(self).unused().push(node),
    {
        let ghost u0 = self.used();
        let ghost f0 = self.unused();
        let ghost k0 = choose|k: int| 0 <= k < u0.len() && u0[k] == node;
        let predecessor = self.predecessor(node);
        let successor = self.successor(node);
        self.link(predecessor, successor);
        let ghost mid = *self;
        let index_in_used = self.node_data[node].index_in_used_nodes;
        assert(index_in_used == k0);
        let last = self.used_nodes.len() - 1;
        let removed = self.used_nodes.swap_remove(index_in_used);
        assert(removed == node);
        self.unused_nodes.push(removed);
        let ghost dmid = self.node_data@;
        if index_in_used < self.used_nodes.len() {
            let swapped_node = self.used_nodes[index_in_used];
            let mut nd = self.node_data.remove(swapped_node);
            nd.index_in_used_nodes = index_in_used;
            self.node_data.insert(swapped_node, nd);
        }
        proof {
            let u = self.used();
            let f = self.unused();
            let lastpos = u0.len() - 1;
            assert(u =~= u0.update(k0, u0[lastpos]).drop_last());
            assert forall|i: int| 0 <= i < self.len() implies #[trigger] self.item(i) == mid.item(i) && self.succ(i)
                == mid.succ(i) && self.pred(i) == mid.pred(i) by {
                if index_in_used < u.len() && i == u[k0] as int {
                } else {
                    assert(self.node_data@[i] == dmid[i]);
                }
            }
            assert forall|i: int| 0 <= i < u.len() implies 1 <= #[trigger] u[i] < self.len() && self.pos(u[i] as int)
                == i by {
                if i != k0 {
                    assert(u[i] == u0[i]);
                    if u0[i] == u0[lastpos] {
                        old(self).lemma_used_distinct(i, lastpos);
                    }
                    assert(u0[i] != u0[k0]) by {
                        if u0[i] == u0[k0] {
                            old(self).lemma_used_distinct(i, k0);
                        }
                    }
                    assert(self.node_data@[u[i] as int] == dmid[u[i] as int]);
                    assert(mid.pos(u0[i] as int) == old(self).pos(u0[i] as int));
                }
            }
            assert(!u.contains(node)) by {
                if u.contains(node) {
                    let k = choose|k: int| 0 <= k < u.len() && u[k] == node;
                    if k == k0 {
                        assert(u[k] == u0[lastpos]);
                        old(self).lemma_used_distinct(k0, lastpos);
                    } else {
                        old(self).lemma_used_distinct(k, k0);
                    }
                }
            }
            assert forall|i: int| 0 <= i < f.len() implies 1 <= #[trigger] f[i] < self.len() && !u.contains(f[i]) by {
                if i < f0.len() {
                    assert(f[i] == f0[i]);
                    assert(!u0.contains(f0[i]));
                    if u.contains(f[i]) {
                        let k = choose|k: int| 0 <= k < u.len() && u[k] == f[i];
                        if k == k0 {
                            assert(u0[lastpos] == f0[i]);
                        } else {
                            assert(u0[k] == f0[i]);
                        }
                    }
                }
            }
            assert(f.no_duplicates()) by {
                assert(!f0.contains(node)) by {
                    if f0.contains(node) {
                        let k = choose|k: int| 0 <= k < f0.len() && f0[k] == node;
                        assert(!u0.contains(f0[k]));
                    }
                }
                assert forall|a: int, b: int| 0 <= a < f.len() && 0 <= b < f.len() && a != b implies f[a] != f[b] by {
                    if a < f0.len() && b < f0.len() {
                        assert(f0.no_duplicates());
                    } else if a < f0.len() {
                        assert(f0[a] != node);
                    } else {
                        assert(f0[b] != node);
                    }
                }
            }
        }
    }

    /// Takes a slot holding `data` and links it between `predecessor` and
    /// `successor`.
    pub fn insert(&mut self, data: T, predecessor: usize, successor: usize) -> (r: usize)
        requires
            old(self).wf(),
            old(self).len() < usize::MAX,
            predecessor < old(self).len(),
            successor < old(self).len(),
        ensures
            final(self).wf(),
            r == old(self).next_slot(),
            1 <= r < final(self).len(),
            final(self).item(r as int) == data,
            final(self).pred(r as int) == predecessor || r == successor,
            final(self).succ(r as int) == successor,
            r != predecessor ==> final(self).succ(predecessor as int) == r,
            final(self).pred(successor as int) == r,
            forall|i: int|
                0 <= i < old(self).len() && i != r ==> #[trigger] final(self).item(i) == old(self).item(i),
            final(self).used() == old(self).used().push(r),
    {
        let node = self.new_node(data);
        self.link(predecessor, node);
        self.link(node, successor);
        node
    }

    /// Links the segment from `left` to `right` in reverse between
    /// `predecessor` and `successor`: walking back from `right`, each slot
    /// is linked after the previous one, and finally `left` is linked to
    /// `successor`. The walk stops at `left`, or after as many steps as
    /// there are slots.
    pub fn reversed_link(&mut self, left: usize, right: usize, predecessor: usize, successor: usize)
        requires
            old(self).wf(),
            left < old(self).len(),
            right < old(self).len(),
            predecessor < old(self).len(),
            successor < old(self).len(),
        ensures
            final(self).wf(),
            final(self).len() == old(self).len(),
            final(self).links() == links_linked(
                links_reversed(old(self).links(), right, left, predecessor, (old(self).len() - 1) as nat),
                left,
                successor,
            ),
            forall|i: int| 0 <= i < old(self).len() ==> #[trigger] final(self).item(i) == old(self).item(i),
            final(self).used() == old(self).used(),
            final(self).unused() == old(self).unused(),
    {
        let mut current = right;
        let mut new_pred = predecessor;
        let mut fuel: usize = self.node_data.len() - 1;
        let ghost target = links_reversed(self.links(), right, left, predecessor, fuel as nat);
        loop
            invariant_except_break
                links_reversed(self.links(), current, left, new_pred, fuel as nat) == target,
            invariant
                self.wf(),
                current < self.len(),
                new_pred < self.len(),
                left < self.len(),
                successor < self.len(),
                self.len() == old(self).len(),
                forall|i: int| 0 <= i < old(self).len() ==> #[trigger] self.item(i) == old(self).item(i),
                self.used() == old(self).used(),
                self.unused() == old(self).unused(),
            ensures
                self.wf(),
                self.links() == target,
                self.len() == old(self).len(),
                forall|i: int| 0 <= i < old(self).len() ==> #[trigger] self.item(i) == old(self).item(i),
                left < self.len(),
                successor < self.len(),
                self.used() == old(self).used(),
                self.unused() == old(self).unused(),
            decreases fuel,
        {
            let original_predecessor = self.predecessor(current);
            self.link(new_pred, current);
            if current == left || fuel == 0 {
                break;
            }
            new_pred = current;
            current = original_predecessor;
            fuel = fuel - 1;
        }
        self.link(left, successor);
    }
}


/// Iterator over `start`, `func(start)`, `func(func(start))`, ... up to
/// but not including `end`.
pub struct FuncIter<F> {
    func: F,
    current: usize,
    end: usize,
}

impl<F: Fn(usize) -> usize> FuncIter<F> {
    /// The step function.
    pub closed spec fn step(&self) -> F {
        self.func
    }

    /// Item returned next (unless it is the end).
    pub closed spec fn at(&self) -> usize {
        self.current
    }

    /// Where the iteration stops.
    pub closed spec fn stop(&self) -> usize {
        self.end
    }

    /// An iterator from `start` up to `end`.
    pub fn new(func: F, start: usize, end: usize) -> (r: Self)
        ensures
            r.step() == func,
            r.at() == start,
            r.stop() == end,
    {
        FuncIter { func, current: start, end }
    }

    /// The current item, moving on by the step function; nothing at the
    /// end.
    pub fn next(&mut self) -> (r: Option<usize>)
        requires
            forall|x: usize| #[trigger] call_requires(old(self).step(), (x,)),
        ensures
            final(self).step() == old(self).step(),
            final(self).stop() == old(self).stop(),
            old(self).at() == old(self).stop() ==> r is None && final(self).at() == old(self).at(),
            old(self).at() != old(self).stop() ==> r == Some(old(self).at()) && call_ensures(
                old(self).step(),
                (old(self).at(),),
                final(self).at(),
            ),
    {
        let ret = self.current;
        if self.current == self.end {
            None
        } else {
            assert(call_requires(old(self).step(), (self.current,)));
            assert(self.func == old(self).step());
            assert(call_requires(self.func, (self.current,)));
            self.current = (self.func)(self.current);
            Some(ret)
        }
    }
}

/// Iterator over the slice `I` of `slices`: from its first item, by the
/// step function `next`, up to but not including its second item.
pub struct SlicesSplitIter<F, const N: usize, const I: usize> {
    next: F,
    slices: [(usize, usize); N],
    current: usize,
}

impl<F: Fn(usize) -> usize, const N: usize, const I: usize> SlicesSplitIter<F, N, I> {
    /// The step function.
    pub closed spec fn step(&self) -> F {
        self.next
    }

    /// The slices.
    pub closed spec fn bounds(&self) -> Seq<(usize, usize)> {
        self.slices@
    }

    /// Item returned next (unless it is the end of slice `I`).
    pub closed spec fn at(&self) -> usize {
        self.current
    }

    /// An iterator over slice `I`.
    pub fn new(next: F, slices: [(usize, usize); N]) -> (r: Self)
        requires
            I < N,
        ensures
            r.step() == next,
            r.bounds() == slices@,
            r.at() == slices@[I as int].0,
    {
        let current = slices[I].0;
        SlicesSplitIter { next, slices, current }
    }

    /// An iterator over slice `I1` of the same slices.
    pub fn to_index<const I1: usize>(self) -> (r: SlicesSplitIter<F, N, I1>)
        requires
            I1 < N,
        ensures
            r.step() == self.step(),
            r.bounds() == self.bounds(),
            r.at() == self.bounds()[I1 as int].0,
    {
        let current = self.slices[I1].0;
        SlicesSplitIter { next: self.next, slices: self.slices, current }
    }

    /// The current item, moving on by the step function; nothing at the end
    /// of slice `I`.
    pub fn next(&mut self) -> (r: Option<usize>)
        requires
            I < N,
            forall|x: usize| #[trigger] call_requires(old(self).step(), (x,)),
        ensures
            final(self).step() == old(self).step(),
            final(self).bounds() == old(self).bounds(),
            old(self).at() == old(self).bounds()[I as int].1 ==> r is None && final(self).at() == old(self).at(),
            old(self).at() != old(self).bounds()[I as int].1 ==> r == Some(old(self).at()) && call_ensures(
                old(self).step(),
                (old(self).at(),),
                final(self).at(),
            ),
    {
        let ret = self.current;
        if self.current == self.slices[I].1 {
            None
        } else {
            assert(call_requires(old(self).step(), (self.current,)));
            assert(self.next == old(self).step());
            assert(call_requires(self.next, (self.current,)));
            self.current = (self.next)(self.current);
            Some(ret)
        }
    }
}

/// Two positions moving together: `current1` in slice `I1` and `current2`
/// in slice `I2` of `slices`, by the step function `next`.
pub struct SlicesSplitWindowsIter<F, const N: usize, const I1: usize, const I2: usize> {
    next: F,
    slices: [(usize, usize); N],
    /// Position in slice `I1`.
    pub current1: usize,
    /// Position in slice `I2`.
    pub current2: usize,
}

/// A window iterator being set up: `current2` is `window` steps into slice
/// `I2`.
pub struct SlicesSplitWindowsIterBuilder<F, const N: usize, const I1: usize, const I2: usize> {
    next: F,
    slices: [(usize, usize); N],
    /// Last position passed in slice `I2`.
    pub current1: usize,
    /// Position reached in slice `I2`.
    pub current2: usize,
}

/// `xs` starts at `start`, each next item is what `next` gives for the
/// one before, and none but possibly the last is `end`.
pub open spec fn steps_before_end<F: Fn(usize) -> usize>(next: F, start: usize, end: usize, xs: Seq<usize>) -> bool {
    &&& xs.len() >= 1
    &&& xs[0] == start
    &&& forall|i: int| 0 <= i < xs.len() - 1 ==> call_ensures(next, (#[trigger] xs[i],), xs[i + 1])
    &&& forall|i: int| 0 <= i < xs.len() - 1 ==> #[trigger] xs[i] != end
}

/// `xs` steps from `start` to `end` by `next`, meeting `end` only at its
/// last item.
pub open spec fn steps_to_end<F: Fn(usize) -> usize>(next: F, start: usize, end: usize, xs: Seq<usize>) -> bool {
    &&& steps_before_end(next, start, end, xs)
    &&& xs.last() == end
}

impl<F: Fn(usize) -> usize, const N: usize, const I1: usize, const I2: usize> SlicesSplitWindowsIterBuilder<F, N, I1, I2> {
    /// The step function.
    pub closed spec fn step(&self) -> F {
        self.next
    }

    /// The slices.
    pub closed spec fn bounds(&self) -> Seq<(usize, usize)> {
        self.slices@
    }

    /// Position in the first slice.
    pub closed spec fn pos1(&self) -> usize {
        self.current1
    }

    /// Position in the second slice.
    pub closed spec fn pos2(&self) -> usize {
        self.current2
    }

    /// Moves `window` steps into slice `I2`; fails with the number of steps
    /// still owed when the slice ends first.
    pub fn new(next: F, slices: [(usize, usize); N], window: usize) -> (r: Result<Self, usize>)
        requires
            I1 < N,
            I2 < N,
            forall|x: usize| #[trigger] call_requires(next, (x,)),
        ensures
            r matches Ok(b) ==> b.step() == next && b.bounds() == slices@,
            r matches Ok(b) ==> exists|xs: Seq<usize>|
                #[trigger] steps_before_end(next, slices@[I2 as int].0, slices@[I2 as int].1, xs) && xs.len() == window + 1
                    && b.pos2() == xs[window as int] && b.pos1() == xs[if window == 0 {
                    0
                } else {
                    window - 1
                }],
            r matches Err(k) ==> exists|xs: Seq<usize>|
                #[trigger] steps_to_end(next, slices@[I2 as int].0, slices@[I2 as int].1, xs) && 1 <= xs.len() <= window && k
                    == window - xs.len(),
    {
        let mut cnt = window;
        let mut current = slices[I2].0;
        let mut current1 = current;
        let ghost start = slices@[I2 as int].0;
        let ghost end = slices@[I2 as int].1;
        let ghost mut xs: Seq<usize> = seq![current];
        while cnt > 0
            invariant
                I2 < N,
                cnt <= window,
                forall|x: usize| #[trigger] call_requires(next, (x,)),
                start == slices@[I2 as int].0,
                end == slices@[I2 as int].1,
                steps_before_end(next, start, end, xs),
                xs.len() == window - cnt + 1,
                xs.last() == current,
                current1 == xs[if xs.len() == 1 {
                    0
                } else {
                    xs.len() - 2
                }],
            decreases cnt,
        {
            cnt = cnt - 1;
            if current == slices[I2].1 {
                proof {
                    assert(steps_to_end(next, start, end, xs));
                }
                return Err(cnt);
            } else {
                current1 = current;
                let ghost xs0 = xs;
                current = next(current);
                proof {
                    xs = xs.push(current);
                    assert forall|i: int| 0 <= i < xs.len() - 1 implies call_ensures(next, (#[trigger] xs[i],), xs[i + 1]) by {
                        if i < xs0.len() - 1 {
                            assert(xs[i] == xs0[i] && xs[i + 1] == xs0[i + 1]);
                        }
                    }
                }
            }
        }
        Ok(SlicesSplitWindowsIterBuilder { next, slices, current1, current2: current })
    }

    /// The window iterator: `current1` at the start of slice `I1`,
    /// `current2` where the set-up stopped.
    pub fn build(self) -> (r: SlicesSplitWindowsIter<F, N, I1, I2>)
        requires
            I1 < N,
        ensures
            r.step() == self.step(),
            r.bounds() == self.bounds(),
            r.pos1() == self.bounds()[I1 as int].0,
            r.pos2() == self.pos2(),
    {
        let current1 = self.slices[I1].0;
        SlicesSplitWindowsIter { next: self.next, slices: self.slices, current1, current2: self.current2 }
    }
}

impl<F: Fn(usize) -> usize, const N: usize, const I1: usize, const I2: usize> SlicesSplitWindowsIter<F, N, I1, I2> {
    /// The step function.
    pub closed spec fn step(&self) -> F {
        self.next
    }

    /// The slices.
    pub closed spec fn bounds(&self) -> Seq<(usize, usize)> {
        self.slices@
    }

    /// Position in the first slice.
    pub closed spec fn pos1(&self) -> usize {
        self.current1
    }

    /// Position in the second slice.
    pub closed spec fn pos2(&self) -> usize {
        self.current2
    }

    /// From an iterator over slices `I1` and `I3 = I2 - 1`: one step on in
    /// slice `I1`, and the start of slice `I2`.
    pub fn from01<const I3: usize>(other: SlicesSplitWindowsIter<F, N, I1, I3>) -> (r: Self)
        requires
            I1 < N,
            I2 < N,
            I3 < N,
            I3 + 1 == I2,
            call_requires(other.step(), (other.pos1(),)),
        ensures
            r.step() == other.step(),
            r.bounds() == other.bounds(),
            call_ensures(other.step(), (other.pos1(),), r.pos1()),
            r.pos2() == other.bounds()[I2 as int].0,
    {
        let current1 = (other.next)(other.current1);
        let current2 = other.slices[I2].0;
        SlicesSplitWindowsIter { next: other.next, slices: other.slices, current1, current2 }
    }

    /// From an iterator over slices `I3 = I1 - 1` and `I2`: the start of
    /// slice `I1`, and one step on in slice `I2`.
    pub fn from10<const I3: usize>(other: SlicesSplitWindowsIter<F, N, I3, I2>) -> (r: Self)
        requires
            I1 < N,
            I2 < N,
            I3 < N,
            I3 + 1 == I1,
            call_requires(other.step(), (other.pos2(),)),
        ensures
            r.step() == other.step(),
            r.bounds() == other.bounds(),
            r.pos1() == other.bounds()[I1 as int].0,
            call_ensures(other.step(), (other.pos2(),), r.pos2()),
    {
        let current2 = (other.next)(other.current2);
        let current1 = other.slices[I1].0;
        SlicesSplitWindowsIter { next: other.next, slices: other.slices, current1, current2 }
    }

    /// From an iterator over slices `I1 - 1` and `I2 - 1`: the starts of
    /// slices `I1` and `I2`.
    pub fn from11<const I3: usize, const I4: usize>(other: SlicesSplitWindowsIter<F, N, I3, I4>) -> (r: Self)
        requires
            I1 < N,
            I2 < N,
            I3 < N,
            I4 < N,
            I3 + 1 == I1,
            I4 + 1 == I2,
        ensures
            r.step() == other.step(),
            r.bounds() == other.bounds(),
            r.pos1() == other.bounds()[I1 as int].0,
            r.pos2() == other.bounds()[I2 as int].0,
    {
        let current1 = other.slices[I1].0;
        let current2 = other.slices[I2].0;
        SlicesSplitWindowsIter { next: other.next, slices: other.slices, current1, current2 }
    }

    /// `current1` reached the end of slice `I1`.
    pub fn first_exhausted(&self) -> (r: bool)
        requires
            I1 < N,
        ensures
            r == (self.pos1() == self.bounds()[I1 as int].1),
    {
        self.current1 == self.slices[I1].1
    }

    /// `current2` reached the end of slice `I2`.
    pub fn second_exhausted(&self) -> (r: bool)
        requires
            I2 < N,
        ensures
            r == (self.pos2() == self.bounds()[I2 as int].1),
    {
        self.current2 == self.slices[I2].1
    }

    /// Index of the first slice.
    pub fn i1(&self) -> (r: usize)
        ensures
            r == I1,
    {
        I1
    }

    /// Index of the second slice.
    pub fn i2(&self) -> (r: usize)
        ensures
            r == I2,
    {
        I2
    }

    /// Both positions with their next ones, moving both on; nothing once
    /// either slice is exhausted.
    pub fn next(&mut self) -> (r: Option<((usize, usize), (usize, usize))>)
        requires
            I1 < N,
            I2 < N,
            forall|x: usize| #[trigger] call_requires(old(self).step(), (x,)),
        ensures
            final(self).step() == old(self).step(),
            final(self).bounds() == old(self).bounds(),
            (old(self).pos1() == old(self).bounds()[I1 as int].1 || old(self).pos2() == old(self).bounds()[I2 as int].1)
                ==> r is None && final(self).pos1() == old(self).pos1() && final(self).pos2() == old(self).pos2(),
            !(old(self).pos1() == old(self).bounds()[I1 as int].1 || old(self).pos2() == old(self).bounds()[I2 as int].1)
                ==> {
                &&& r == Some(((old(self).pos1(), final(self).pos1()), (old(self).pos2(), final(self).pos2())))
                &&& call_ensures(old(self).step(), (old(self).pos1(),), final(self).pos1())
                &&& call_ensures(old(self).step(), (old(self).pos2(),), final(self).pos2())
            },
    {
        let ret1 = self.current1;
        let ret2 = self.current2;
        if self.first_exhausted() || self.second_exhausted() {
            None
        } else {
            assert(call_requires(old(self).step(), (self.current1,)));
            assert(call_requires(old(self).step(), (self.current2,)));
            assert(self.next == old(self).step());
            let c1 = (self.next)(self.current1);
            let c2 = (self.next)(self.current2);
            self.current1 = c1;
            self.current2 = c2;
            Some(((ret1, self.current1), (ret2, self.current2)))
        }
    }
}

} // verus!
