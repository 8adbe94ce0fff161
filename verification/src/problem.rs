//! Problem instance: nodes, capacity, and the precomputed distance matrix.

use vstd::prelude::*;
use crate::{COORD_LIMIT, DEMAND_LIMIT, MAX_DIST, MAX_NODES};

verus! {

/// A node of the instance: the depot or a customer.
#[derive(Debug, Clone)]
pub struct Node {
    pub id: usize,
    pub x: i64,
    pub y: i64,
    pub demand: u64,
    pub is_depot: bool,
}

impl Node {
    /// Build a node from its parts.
    pub fn new(id: usize, x: i64, y: i64, demand: u64, is_depot: bool) -> (r: Node)
        ensures
            r == (Node { id, x, y, demand, is_depot }),
    {
        Node { id, x, y, demand, is_depot }
    }

    /// Squared Euclidean distance between two nodes.
    pub open spec fn sq_dist(a: Node, b: Node) -> int {
        (a.x - b.x) * (a.x - b.x) + (a.y - b.y) * (a.y - b.y)
    }

    /// A node whose coordinates, demand and id stay within the limits the
    /// solver's arithmetic is proved against.
    pub open spec fn bounded(self) -> bool {
        &&& -COORD_LIMIT <= self.x <= COORD_LIMIT
        &&& -COORD_LIMIT <= self.y <= COORD_LIMIT
        &&& self.demand <= DEMAND_LIMIT
    }

    /// Euclidean distance between two nodes, rounded down to an integer.
    pub fn distance(&self, other: &Node) -> (r: u64)
        requires
            self.bounded(),
            other.bounded(),
        ensures
            is_sqrt_floor(Node::sq_dist(*self, *other), r as int),
            r <= MAX_DIST,
    {
        let dx: i64 = self.x - other.x;
        let dy: i64 = self.y - other.y;
        proof {
            assert(0 <= (dx as int) * (dx as int) <= 4_000_000_000_000_000_000) by (nonlinear_arith)
                requires -2_000_000_000 <= dx <= 2_000_000_000;
            assert(0 <= (dy as int) * (dy as int) <= 4_000_000_000_000_000_000) by (nonlinear_arith)
                requires -2_000_000_000 <= dy <= 2_000_000_000;
        }
        let sq: u64 = ((dx as i128) * (dx as i128) + (dy as i128) * (dy as i128)) as u64;
        let r = sqrt_floor(sq);
        proof {
            lemma_sqrt_floor_le(sq as int, r as int, MAX_DIST as int);
        }
        r
    }
}

/// Quotient rounded toward zero, as machine division of signed values.
pub open spec fn div_trunc(a: int, b: int) -> int {
    if a >= 0 {
        a / b
    } else {
        -((-a) / b)
    }
}

/// `r` is the square root of `n`, rounded down.
pub open spec fn is_sqrt_floor(n: int, r: int) -> bool {
    &&& 0 <= r
    &&& r * r <= n
    &&& n < (r + 1) * (r + 1)
}

/// The rounded-down square root of a number is unique.
pub proof fn lemma_sqrt_floor_unique(n: int, r1: int, r2: int)
    requires
        is_sqrt_floor(n, r1),
        is_sqrt_floor(n, r2),
    ensures
        r1 == r2,
{
    assert(r1 == r2) by (nonlinear_arith)
        requires
            0 <= r1,
            0 <= r2,
            r1 * r1 <= n < (r1 + 1) * (r1 + 1),
            r2 * r2 <= n < (r2 + 1) * (r2 + 1),
    ;
}

/// A rounded-down square root is bounded by any `m` whose square exceeds `n`.
pub proof fn lemma_sqrt_floor_le(n: int, r: int, m: int)
    requires
        is_sqrt_floor(n, r),
        0 <= m,
        n < (m + 1) * (m + 1),
    ensures
        r <= m,
{
    assert(r <= m) by (nonlinear_arith)
        requires
            0 <= r,
            0 <= m,
            r * r <= n,
            n < (m + 1) * (m + 1),
    ;
}

/// Square root rounded down, by binary search on the answer.
pub fn sqrt_floor(n: u64) -> (r: u64)
    requires
        n <= 9_000_000_000_000_000_000,
    ensures
        is_sqrt_floor(n as int, r as int),
{
    let mut lo: u64 = 0;
    let mut hi: u64 = 3_000_000_001;
    proof {
        assert((3_000_000_001int) * (3_000_000_001int) > 9_000_000_000_000_000_000) by (nonlinear_arith);
    }
    while lo + 1 < hi
        invariant
            lo < hi <= 3_000_000_001,
            (lo as int) * (lo as int) <= n as int,
            (n as int) < (hi as int) * (hi as int),
        decreases hi - lo,
    {
        let mid: u64 = lo + (hi - lo) / 2;
        proof {
            assert((mid as int) * (mid as int) <= 3_000_000_001int * 3_000_000_001int) by (nonlinear_arith)
                requires 0 <= mid <= 3_000_000_001;
        }
        if mid * mid <= n {
            lo = mid;
        } else {
            hi = mid;
        }
    }
    lo
}

/// A capacitated vehicle-routing instance.  The distance matrix is filled
/// once at construction; afterwards every lookup is a table read.
#[derive(Debug, Clone)]
pub struct Problem {
    pub name: String,
    pub nodes: Vec<Node>,
    pub depot_index: usize,
    pub vehicle_capacity: u64,
    pub max_vehicles: Option<usize>,
    pub distance_matrix: Vec<Vec<u64>>,
}

impl Problem {
    /// Number of nodes, depot included.
    pub open spec fn n(&self) -> int {
        self.nodes@.len() as int
    }

    /// The matrix entry for a pair of node indices.
    pub open spec fn dist(&self, i: int, j: int) -> int {
        self.distance_matrix@[i]@[j] as int
    }

    /// The demand of a node index.
    pub open spec fn demand(&self, i: int) -> int {
        self.nodes@[i].demand as int
    }

    /// A well-formed instance: sizes within the proved limits, and the
    /// distance matrix square, complete, and holding exactly the
    /// rounded-down Euclidean distances.
    pub open spec fn wf(&self) -> bool {
        &&& 1 <= self.n() <= MAX_NODES
        &&& (self.depot_index as int) < self.n()
        &&& (forall|i: int| 0 <= i < self.n() ==> (#[trigger] self.nodes@[i]).bounded())
        &&& self.distance_matrix@.len() == self.n()
        &&& (forall|i: int| 0 <= i < self.n() ==> (#[trigger] self.distance_matrix@[i])@.len() == self.n())
        &&& (forall|i: int, j: int|
                0 <= i < self.n() && 0 <= j < self.n()
                    ==> is_sqrt_floor(Node::sq_dist(self.nodes@[i], self.nodes@[j]), #[trigger] self.dist(i, j)))
        &&& (forall|i: int, j: int|
                0 <= i < self.n() && 0 <= j < self.n() ==> 0 <= #[trigger] self.dist(i, j) <= MAX_DIST)
    }

    /// A well-formed matrix is symmetric with a zero diagonal.
    pub proof fn lemma_dist_symmetric(&self, i: int, j: int)
        requires
            self.wf(),
            0 <= i < self.n(),
            0 <= j < self.n(),
        ensures
            self.dist(i, j) == self.dist(j, i),
            self.dist(i, i) == 0,
    {
        let a = self.nodes@[i];
        let b = self.nodes@[j];
        assert(Node::sq_dist(a, b) == Node::sq_dist(b, a)) by (nonlinear_arith);
        lemma_sqrt_floor_unique(Node::sq_dist(self.nodes@[i], self.nodes@[j]), self.dist(i, j), self.dist(j, i));
        assert(Node::sq_dist(a, a) == 0) by (nonlinear_arith);
        assert(is_sqrt_floor(0, 0)) by (nonlinear_arith);
        lemma_sqrt_floor_unique(0, self.dist(i, i), 0);
    }

    /// Build an instance and materialise its full distance matrix.
    pub fn new(
        name: String,
        nodes: Vec<Node>,
        depot_index: usize,
        vehicle_capacity: u64,
        max_vehicles: Option<usize>,
    ) -> (r: Problem)
        requires
            1 <= nodes@.len() <= MAX_NODES,
            depot_index < nodes@.len(),
            forall|i: int| 0 <= i < nodes@.len() ==> (#[trigger] nodes@[i]).bounded(),
        ensures
            r.wf(),
            r.nodes == nodes,
            r.depot_index == depot_index,
            r.vehicle_capacity == vehicle_capacity,
            r.max_vehicles == max_vehicles,
            r.name == name,
    {
        let distance_matrix = Self::compute_distance_matrix(&nodes);
        Problem { name, nodes, depot_index, vehicle_capacity, max_vehicles, distance_matrix }
    }

    /// Fill the full matrix of rounded-down Euclidean distances.
    fn compute_distance_matrix(nodes: &Vec<Node>) -> (m: Vec<Vec<u64>>)
        requires
            nodes@.len() <= MAX_NODES,
            forall|i: int| 0 <= i < nodes@.len() ==> (#[trigger] nodes@[i]).bounded(),
        ensures
            m@.len() == nodes@.len(),
            forall|i: int| 0 <= i < nodes@.len() ==> (#[trigger] m@[i])@.len() == nodes@.len(),
            forall|i: int, j: int|
                0 <= i < nodes@.len() && 0 <= j < nodes@.len()
                    ==> is_sqrt_floor(Node::sq_dist(nodes@[i], nodes@[j]), (#[trigger] m@[i]@[j]) as int),
            forall|i: int, j: int|
                0 <= i < nodes@.len() && 0 <= j < nodes@.len() ==> #[trigger] m@[i]@[j] <= MAX_DIST,
    {
        let n = nodes.len();
        let mut m: Vec<Vec<u64>> = Vec::new();
        let mut i: usize = 0;
        while i < n
            invariant
                i <= n,
                n == nodes@.len() <= MAX_NODES,
                forall|k: int| 0 <= k < nodes@.len() ==> (#[trigger] nodes@[k]).bounded(),
                m@.len() == i,
                forall|k: int| 0 <= k < i ==> (#[trigger] m@[k])@.len() == n,
                forall|k: int, j: int|
                    0 <= k < i && 0 <= j < n
                        ==> is_sqrt_floor(Node::sq_dist(nodes@[k], nodes@[j]), (#[trigger] m@[k]@[j]) as int),
                forall|k: int, j: int|
                    0 <= k < i && 0 <= j < n ==> #[trigger] m@[k]@[j] <= MAX_DIST,
            decreases n - i,
        {
            let mut row: Vec<u64> = Vec::new();
            let mut j: usize = 0;
            while j < n
                invariant
                    j <= n,
                    i < n,
                    n == nodes@.len() <= MAX_NODES,
                    forall|k: int| 0 <= k < nodes@.len() ==> (#[trigger] nodes@[k]).bounded(),
                    row@.len() == j,
                    forall|k: int|
                        0 <= k < j
                            ==> is_sqrt_floor(Node::sq_dist(nodes@[i as int], nodes@[k]), (#[trigger] row@[k]) as int),
                    forall|k: int| 0 <= k < j ==> #[trigger] row@[k] <= MAX_DIST,
                decreases n - j,
            {
                let d = nodes[i].distance(&nodes[j]);
                row.push(d);
                j += 1;
            }
            m.push(row);
            i += 1;
        }
        m
    }

    /// Distance between two node indices: a table lookup.
    pub fn get_distance(&self, from: usize, to: usize) -> (r: u64)
        requires
            self.wf(),
            (from as int) < self.n(),
            (to as int) < self.n(),
        ensures
            r as int == self.dist(from as int, to as int),
            r <= MAX_DIST,
    {
        proof {
            assert(0 <= self.dist(from as int, to as int) <= MAX_DIST);
        }
        self.distance_matrix[from][to]
    }

    /// Sum of the customers' x coordinates (the depot excluded) over the
    /// first `upto` nodes.
    pub open spec fn center_sum_x(&self, upto: int) -> int
        decreases upto,
    {
        if upto <= 0 {
            0
        } else {
            self.center_sum_x(upto - 1) + if self.nodes@[upto - 1].is_depot {
                0int
            } else {
                self.nodes@[upto - 1].x as int
            }
        }
    }

    /// As `center_sum_x`, for the y coordinates.
    pub open spec fn center_sum_y(&self, upto: int) -> int
        decreases upto,
    {
        if upto <= 0 {
            0
        } else {
            self.center_sum_y(upto - 1) + if self.nodes@[upto - 1].is_depot {
                0int
            } else {
                self.nodes@[upto - 1].y as int
            }
        }
    }

    /// How many of the first `upto` nodes are customers.
    pub open spec fn center_count(&self, upto: int) -> int
        decreases upto,
    {
        if upto <= 0 {
            0
        } else {
            self.center_count(upto - 1) + if self.nodes@[upto - 1].is_depot {
                0int
            } else {
                1int
            }
        }
    }

    /// The centre of the customer locations: the mean coordinate pair,
    /// rounded toward zero, or the origin without customers.
    pub fn calculate_center(&self) -> (r: (i64, i64))
        requires
            self.wf(),
        ensures
            self.center_count(self.n()) == 0 ==> r == (0i64, 0i64),
            self.center_count(self.n()) > 0 ==> {
                &&& r.0 as int == div_trunc(self.center_sum_x(self.n()), self.center_count(self.n()))
                &&& r.1 as int == div_trunc(self.center_sum_y(self.n()), self.center_count(self.n()))
            },
    {
        let n = self.nodes.len();
        let mut sum_x: i64 = 0;
        let mut sum_y: i64 = 0;
        let mut count: i64 = 0;
        let mut i: usize = 0;
        while i < n
            invariant
                self.wf(),
                n == self.n(),
                i <= n,
                sum_x as int == self.center_sum_x(i as int),
                sum_y as int == self.center_sum_y(i as int),
                count as int == self.center_count(i as int),
                -(i as int) * COORD_LIMIT <= sum_x as int <= (i as int) * COORD_LIMIT,
                -(i as int) * COORD_LIMIT <= sum_y as int <= (i as int) * COORD_LIMIT,
                0 <= count <= i as int,
            decreases n - i,
        {
            proof {
                assert(self.nodes@[i as int].bounded());
                assert((i as int) * COORD_LIMIT + COORD_LIMIT == (i + 1) * COORD_LIMIT) by (nonlinear_arith);
                assert((i + 1) * COORD_LIMIT <= MAX_NODES * COORD_LIMIT) by (nonlinear_arith)
                    requires i + 1 <= MAX_NODES;
            }
            let node = &self.nodes[i];
            if !node.is_depot {
                sum_x = sum_x + node.x;
                sum_y = sum_y + node.y;
                count = count + 1;
            }
            i += 1;
        }
        if count > 0 {
            (sum_x / count, sum_y / count)
        } else {
            (0, 0)
        }
    }

    /// Number of customers, the depot excluded.
    pub fn get_customer_count(&self) -> (r: usize)
        requires
            self.wf(),
        ensures
            r as int == self.n() - 1,
    {
        self.nodes.len() - 1
    }

    /// The depot node.
    pub fn get_depot(&self) -> (r: &Node)
        requires
            self.wf(),
        ensures
            *r == self.nodes@[self.depot_index as int],
    {
        &self.nodes[self.depot_index]
    }
}

} // verus!
