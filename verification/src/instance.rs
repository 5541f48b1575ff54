//! Problem instance of the split delivery vehicle routing problem.
use vstd::prelude::*;

verus! {

/// Node index type: slots of a solution and customers are both `i16`.
pub type Node = i16;

/// Largest magnitude of a travel cost. Move evaluations add up to a
/// dozen costs in `i32`; this bound keeps every such sum representable.
pub const MAX_DISTANCE: i32 = 16777216;

/// A problem instance: node 0 is the depot, nodes `1..num_customers` are
/// customers, `demands[i]` is the demand of node `i`, and
/// `distance_matrix[i][j]` the cost of travelling from `i` to `j`.
pub struct Instance {
    /// Number of nodes, depot included.
    pub num_customers: Node,
    /// Capacity of each vehicle.
    pub capacity: i32,
    /// Demand of each node (the depot's is normally 0).
    pub demands: Vec<i32>,
    /// Travel cost between each pair of nodes.
    pub distance_matrix: Vec<Vec<i32>>,
}

impl Instance {
    /// The matrix and the demand vector have one entry per node.
    pub open spec fn shape_ok(&self) -> bool {
        &&& 1 <= self.num_customers
        &&& self.demands@.len() == self.num_customers
        &&& self.distance_matrix@.len() == self.num_customers
        &&& forall|i: int|
            0 <= i < self.num_customers ==> (#[trigger] self.distance_matrix@[i])@.len()
                == self.num_customers
    }

    /// Well-formed instance: consistent shape, positive capacity,
    /// non-negative demands and bounded travel costs.
    pub open spec fn wf(&self) -> bool {
        &&& self.shape_ok()
        &&& 0 < self.capacity
        &&& forall|i: int| 0 <= i < self.num_customers ==> 0 <= #[trigger] self.demands@[i]
        &&& forall|i: int, j: int|
            0 <= i < self.num_customers && 0 <= j < self.num_customers ==> -MAX_DISTANCE
                <= #[trigger] self.dist(i, j) <= MAX_DISTANCE
    }

    /// Travel cost from node `i` to node `j`.
    pub open spec fn dist(&self, i: int, j: int) -> int {
        self.distance_matrix@[i]@[j] as int
    }

    /// Demand of node `i`.
    pub open spec fn demand_of(&self, i: int) -> int {
        self.demands@[i] as int
    }

    /// `i` names a node of the instance.
    pub open spec fn is_node(&self, i: int) -> bool {
        0 <= i < self.num_customers
    }

    /// Creates an instance from its parts.
    pub fn new(
        num_customers: Node,
        capacity: i32,
        demands: Vec<i32>,
        distance_matrix: Vec<Vec<i32>>,
    ) -> (r: Self)
        ensures
            r.num_customers == num_customers,
            r.capacity == capacity,
            r.demands@ == demands@,
            r.distance_matrix@ == distance_matrix@,
    {
        Instance { num_customers, capacity, demands, distance_matrix }
    }

    /// Travel cost from `from` to `to`.
    pub fn distance(&self, from: Node, to: Node) -> (r: i32)
        requires
            self.shape_ok(),
            self.is_node(from as int),
            self.is_node(to as int),
        ensures
            r == self.dist(from as int, to as int),
    {
        let row = &self.distance_matrix[from as usize];
        row[to as usize]
    }

    /// Demand of `node`.
    pub fn demand(&self, node: Node) -> (r: i32)
        requires
            self.shape_ok(),
            self.is_node(node as int),
        ensures
            r == self.demand_of(node as int),
    {
        self.demands[node as usize]
    }
}

} // verus!
