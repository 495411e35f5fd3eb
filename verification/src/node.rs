//! Cities and the distance metric.
//!
//! Coordinates are integers with a bounded magnitude, so every distance the
//! library computes is exact.  The Euclidean plane metric is represented by
//! its square: comparisons of squared Euclidean distances order pairs of
//! cities exactly as comparisons of the real distances do, which is all the
//! tour algorithms need.

use vstd::prelude::*;

verus! {

/// Largest coordinate magnitude a container accepts.  With coordinates in
/// `[-COORD_LIMIT, COORD_LIMIT]` every supported metric fits in `u64`.
pub const COORD_LIMIT: i64 = 1_000_000_000;

/// Upper bound on any single edge distance under any supported metric:
/// two squared coordinate differences of at most `2 * COORD_LIMIT` each.
pub const MAX_EDGE_DIST: u64 = 8_000_000_000_000_000_000;

/// The distance functions the library supports, all exact on integer
/// coordinates.
#[derive(Clone, Copy, PartialEq, Eq, Structural, Debug)]
pub enum MetricKind {
    /// Squared Euclidean distance on `(x, y)`.
    Euc2dSq,
    /// Manhattan distance on `(x, y)`.
    Man2d,
}

/// An immutable city record: a stable id and an integer coordinate vector.
#[derive(Clone, Copy, PartialEq, Eq, Structural, Debug)]
pub struct Node {
    pub index: usize,
    pub x: i64,
    pub y: i64,
    pub z: i64,
}

pub open spec fn abs_int(a: int) -> int {
    if a < 0 {
        -a
    } else {
        a
    }
}

/// The coordinates lie within the bound the container demands.
pub open spec fn node_ok(n: Node) -> bool {
    &&& -COORD_LIMIT <= n.x <= COORD_LIMIT
    &&& -COORD_LIMIT <= n.y <= COORD_LIMIT
    &&& -COORD_LIMIT <= n.z <= COORD_LIMIT
}

/// The distance between two cities under a metric, as an unbounded integer.
pub open spec fn dist_spec(kind: MetricKind, a: Node, b: Node) -> int {
    match kind {
        MetricKind::Euc2dSq => (a.x - b.x) * (a.x - b.x) + (a.y - b.y) * (a.y - b.y),
        MetricKind::Man2d => abs_int(a.x - b.x) + abs_int(a.y - b.y),
    }
}

pub proof fn lemma_dist_nonneg(kind: MetricKind, a: Node, b: Node)
    ensures
        dist_spec(kind, a, b) >= 0,
{
    let dx = a.x - b.x;
    let dy = a.y - b.y;
    assert(dx * dx >= 0) by (nonlinear_arith);
    assert(dy * dy >= 0) by (nonlinear_arith);
}

pub proof fn lemma_dist_bounded(kind: MetricKind, a: Node, b: Node)
    requires
        node_ok(a),
        node_ok(b),
    ensures
        0 <= dist_spec(kind, a, b) <= MAX_EDGE_DIST,
{
    let dx = a.x - b.x;
    let dy = a.y - b.y;
    assert(-2_000_000_000 <= dx <= 2_000_000_000);
    assert(-2_000_000_000 <= dy <= 2_000_000_000);
    assert(0 <= dx * dx <= 4_000_000_000_000_000_000) by (nonlinear_arith)
        requires
            -2_000_000_000 <= dx <= 2_000_000_000,
    ;
    assert(0 <= dy * dy <= 4_000_000_000_000_000_000) by (nonlinear_arith)
        requires
            -2_000_000_000 <= dy <= 2_000_000_000,
    ;
}

/// Every supported metric is symmetric; the tour code relies on this when it
/// reverses an arc.
pub proof fn lemma_dist_symmetric(kind: MetricKind, a: Node, b: Node)
    ensures
        dist_spec(kind, a, b) == dist_spec(kind, b, a),
{
    assert((a.x - b.x) * (a.x - b.x) == (b.x - a.x) * (b.x - a.x)) by (nonlinear_arith);
    assert((a.y - b.y) * (a.y - b.y) == (b.y - a.y) * (b.y - a.y)) by (nonlinear_arith);
}

impl Node {
    pub fn new(index: usize, x: i64, y: i64, z: i64) -> (r: Node)
        ensures
            r == (Node { index, x, y, z }),
    {
        Node { index, x, y, z }
    }

    pub fn index(&self) -> (r: usize)
        ensures
            r == self.index,
    {
        self.index
    }

    pub fn x(&self) -> (r: i64)
        ensures
            r == self.x,
    {
        self.x
    }

    pub fn y(&self) -> (r: i64)
        ensures
            r == self.y,
    {
        self.y
    }

    pub fn z(&self) -> (r: i64)
        ensures
            r == self.z,
    {
        self.z
    }
}

/// Holds the cities and the chosen metric.  Built once; immutable for the
/// lifetime of any tour that views it.
#[derive(Clone, Debug)]
pub struct Container {
    pub nodes: Vec<Node>,
    pub metric: MetricKind,
}

impl Container {
    /// Every stored city carries its own position as id and bounded
    /// coordinates.
    pub open spec fn wf(self) -> bool {
        forall|i: int|
            0 <= i < self.nodes@.len() ==> (#[trigger] self.nodes@[i]).index == i && node_ok(
                self.nodes@[i],
            )
    }

    pub fn new(kind: MetricKind) -> (r: Container)
        ensures
            r.wf(),
            r.nodes@.len() == 0,
            r.metric == kind,
    {
        Container { nodes: Vec::new(), metric: kind }
    }

    pub fn with_capacity(capacity: usize, kind: MetricKind) -> (r: Container)
        ensures
            r.wf(),
            r.nodes@.len() == 0,
            r.metric == kind,
    {
        Container { nodes: Vec::with_capacity(capacity), metric: kind }
    }

    /// Adds a new city with the next free id.
    pub fn add(&mut self, x: i64, y: i64, z: i64)
        requires
            old(self).wf(),
            -COORD_LIMIT <= x <= COORD_LIMIT,
            -COORD_LIMIT <= y <= COORD_LIMIT,
            -COORD_LIMIT <= z <= COORD_LIMIT,
        ensures
            final(self).wf(),
            final(self).metric == old(self).metric,
            final(self).nodes@ == old(self).nodes@.push(
                Node { index: old(self).nodes@.len() as usize, x, y, z },
            ),
    {
        let node = Node::new(self.nodes.len(), x, y, z);
        self.nodes.push(node);
    }

    pub fn get(&self, index: usize) -> (r: Option<&Node>)
        ensures
            match r {
                Some(node) => index < self.nodes@.len() && *node == self.nodes@[index as int],
                None => index >= self.nodes@.len(),
            },
    {
        if index < self.nodes.len() {
            Some(&self.nodes[index])
        } else {
            None
        }
    }

    /// The number of cities in the container.
    pub fn len(&self) -> (r: usize)
        ensures
            r == self.nodes@.len(),
    {
        self.nodes.len()
    }

    /// The exact distance between two city records under this container's
    /// metric.
    pub fn distance(&self, node1: &Node, node2: &Node) -> (r: u64)
        requires
            node_ok(*node1),
            node_ok(*node2),
        ensures
            r as int == dist_spec(self.metric, *node1, *node2),
    {
        proof {
            lemma_dist_bounded(self.metric, *node1, *node2);
        }
        match self.metric {
            MetricKind::Euc2dSq => {
                let dx = node1.x - node2.x;
                let dy = node1.y - node2.y;
                proof {
                    assert(0 <= dx * dx <= 4_000_000_000_000_000_000) by (nonlinear_arith)
                        requires
                            -2_000_000_000 <= dx <= 2_000_000_000,
                    ;
                    assert(0 <= dy * dy <= 4_000_000_000_000_000_000) by (nonlinear_arith)
                        requires
                            -2_000_000_000 <= dy <= 2_000_000_000,
                    ;
                }
                (dx * dx) as u64 + (dy * dy) as u64
            },
            MetricKind::Man2d => {
                let dx = if node1.x >= node2.x {
                    node1.x - node2.x
                } else {
                    node2.x - node1.x
                };
                let dy = if node1.y >= node2.y {
                    node1.y - node2.y
                } else {
                    node2.y - node1.y
                };
                dx as u64 + dy as u64
            },
        }
    }

    /// The distance between the cities with ids `a` and `b`.
    pub fn distance_at(&self, a: usize, b: usize) -> (r: u64)
        requires
            self.wf(),
            a < self.nodes@.len(),
            b < self.nodes@.len(),
        ensures
            r as int == dist_spec(self.metric, self.nodes@[a as int], self.nodes@[b as int]),
    {
        let na = self.nodes[a];
        let nb = self.nodes[b];
        self.distance(&na, &nb)
    }
}

} // verus!
