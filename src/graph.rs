//! The routing graph: intersections and the road edges between them, held as two
//! parallel arrays that refer to each other by dense index.

use vstd::prelude::*;

verus! {

/// No traffic control, as stored in an interaction byte.
pub const SIGNAL_NONE: u8 = 0;
/// A give-way sign.
pub const SIGNAL_YIELD: u8 = 1;
/// A stop sign.
pub const SIGNAL_STOP: u8 = 2;
/// A traffic light.
pub const SIGNAL_LIGHT: u8 = 3;

/// The largest number of seconds that fits in bits 3..15 of `costs_and_flags`.
pub const MAX_SECONDS: u16 = 8191;

/// A road segment between two intersections. `costs_and_flags` holds in bit 0
/// whether travel from `point_2_node_idx` to `point_1_node_idx` is allowed, and in
/// bits 3..15 the traversal time in seconds.
#[derive(Clone, Copy, Debug, PartialEq, Eq, Structural)]
pub struct Edge {
    pub point_1_node_idx: u32,
    pub point_2_node_idx: u32,
    pub costs_and_flags: u16,
}

/// The regimes met when entering (`incoming`) and leaving (`outgoing`) an edge at
/// one of its nodes.
#[derive(Clone, Copy, Debug, PartialEq, Eq, Structural)]
pub struct Interaction {
    pub incoming: u8,
    pub outgoing: u8,
}

/// An intersection: the edges that may be entered from it, each with its
/// interaction in the parallel list.
#[derive(Clone, Debug)]
pub struct GraphNode {
    pub edges: Vec<u32>,
    pub interactions: Vec<Interaction>,
}

/// The road graph.
#[derive(Clone, Debug)]
pub struct Graph {
    pub edges: Vec<Edge>,
    pub nodes: Vec<GraphNode>,
}

/// Travel against the canonical direction of `e` is allowed.
pub open spec fn back_allowed(e: Edge) -> bool {
    e.costs_and_flags & 1 == 1
}

/// The traversal time of `e` in seconds.
pub open spec fn seconds_of(e: Edge) -> u16 {
    e.costs_and_flags >> 3u16
}

impl Edge {
    /// Whether travel from `point_2_node_idx` to `point_1_node_idx` is allowed.
    pub fn backwards_allowed(&self) -> (r: bool)
        ensures
            r == back_allowed(*self),
    {
        self.costs_and_flags & 1 == 1
    }

    /// The traversal time in seconds.
    pub fn seconds(&self) -> (r: u16)
        ensures
            r == seconds_of(*self),
    {
        self.costs_and_flags >> 3u16
    }
}

impl Graph {
    /// The list of edges that can be entered at node `n`.
    pub open spec fn incident(&self, n: int) -> Seq<u32> {
        self.nodes@[n].edges@
    }

    /// Every edge is canonically oriented between two existing nodes.
    pub open spec fn edges_wf(&self) -> bool {
        forall|e: int|
            0 <= e < self.edges@.len() ==> {
                &&& #[trigger] self.edges@[e].point_1_node_idx < self.edges@[e].point_2_node_idx
                &&& self.edges@[e].point_2_node_idx < self.nodes@.len()
            }
    }

    /// Every node has one interaction per incident edge.
    pub open spec fn nodes_wf(&self) -> bool {
        forall|n: int|
            0 <= n < self.nodes@.len() ==> #[trigger] self.nodes@[n].edges@.len()
                == self.nodes@[n].interactions@.len()
    }

    /// Edges and nodes refer to each other consistently: each edge is listed at its
    /// first node, and at its second node exactly when travel back is allowed; each
    /// listed edge exists and touches the node that lists it.
    pub open spec fn refs_wf(&self) -> bool {
        &&& forall|e: int|
            0 <= e < self.edges@.len() ==> {
                &&& self.incident(#[trigger] self.edges@[e].point_1_node_idx as int).contains(
                    e as u32,
                )
                &&& self.incident(self.edges@[e].point_2_node_idx as int).contains(e as u32)
                    == back_allowed(self.edges@[e])
            }
        &&& forall|n: int, i: int|
            0 <= n < self.nodes@.len() && 0 <= i < self.incident(n).len() ==> {
                let e = #[trigger] self.incident(n)[i];
                &&& e < self.edges@.len()
                &&& (self.edges@[e as int].point_1_node_idx == n
                    || self.edges@[e as int].point_2_node_idx == n)
            }
    }

    /// The graph invariant.
    pub open spec fn wf(&self) -> bool {
        &&& self.edges@.len() < u32::MAX
        &&& self.nodes@.len() < u32::MAX
        &&& self.edges_wf()
        &&& self.nodes_wf()
        &&& self.refs_wf()
    }
}

} // verus!
