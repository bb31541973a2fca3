use vstd::prelude::*;

verus! {

/// Errors reported by the library.
#[derive(Debug, Clone, Copy, PartialEq, Eq, Structural)]
pub enum Error {
    /// A record of the edge-list input did not parse into exactly two integers.
    InputFormatError,
    /// Fewer than two non-isolated vertices exist, so no cut can be computed.
    GraphTooSmall,
    /// The requested number of trials is zero.
    InvalidTrialCount,
    /// A contraction step observed a state it must never reach.
    InvariantViolation,
    /// A cut labeled some vertex twice, so its parts do not form a partition.
    PartitionInvariantViolation,
}

/// An undirected, unweighted graph: a vertex count and an ordered edge list.
/// Edges are identified by their position in the list.
pub struct Graph {
    pub n: usize,
    pub edges: Vec<(usize, usize)>,
}

impl Graph {
    /// Every edge joins two distinct vertices below `n`.
    pub open spec fn wf(self) -> bool {
        forall|i: int|
            0 <= i < self.edges@.len() ==> (#[trigger] self.edges@[i]).0 < self.n
                && self.edges@[i].1 < self.n && self.edges@[i].0 != self.edges@[i].1
    }

    /// Vertex `v` touches at least one edge.
    pub open spec fn non_isolated(self, v: usize) -> bool {
        exists|i: int|
            0 <= i < self.edges@.len() && ((#[trigger] self.edges@[i]).0 == v
                || self.edges@[i].1 == v)
    }

    /// At least two distinct vertices touch an edge; contraction needs this.
    pub open spec fn has_two_non_isolated(self) -> bool {
        exists|a: usize, b: usize|
            a != b && #[trigger] self.non_isolated(a) && #[trigger] self.non_isolated(b)
    }
}

/// A sequence with no repeated element.
pub open spec fn no_dups(s: Seq<usize>) -> bool {
    forall|i: int, j: int| 0 <= i < j < s.len() ==> s[i] != s[j]
}

/// A super-vertex: the original vertices merged into it (`comps`) and the
/// indices of the edges currently incident to it (`edges`).
pub struct Node {
    pub comps: Vec<usize>,
    pub edges: Vec<usize>,
}

/// The two super-vertices left when contraction stops.
pub struct Cut {
    pub first: Node,
    pub second: Node,
}

impl Cut {
    /// Every listed vertex is below `n`.
    pub open spec fn comps_in_bounds(self, n: usize) -> bool {
        &&& forall|k: int|
            0 <= k < self.first.comps@.len() ==> #[trigger] self.first.comps@[k] < n
        &&& forall|k: int|
            0 <= k < self.second.comps@.len() ==> #[trigger] self.second.comps@[k] < n
    }

    /// Neither side repeats a vertex, and no vertex is on both sides: the
    /// sides can be read as disjoint sets.
    pub open spec fn well_labeled(self) -> bool {
        &&& no_dups(self.first.comps@)
        &&& no_dups(self.second.comps@)
        &&& forall|v: usize|
            !(#[trigger] self.first.comps@.contains(v) && self.second.comps@.contains(v))
    }

    /// The two sides are non-empty, disjoint, duplicate-free, and together
    /// hold exactly the non-isolated vertices of `g`.
    pub open spec fn partitions(self, g: Graph) -> bool {
        &&& self.well_labeled()
        &&& self.first.comps@.len() > 0
        &&& self.second.comps@.len() > 0
        &&& forall|k: int|
            0 <= k < self.first.comps@.len() ==> #[trigger] self.first.comps@[k] < g.n
                && g.non_isolated(self.first.comps@[k])
        &&& forall|k: int|
            0 <= k < self.second.comps@.len() ==> #[trigger] self.second.comps@[k] < g.n
                && g.non_isolated(self.second.comps@[k])
        &&& forall|v: usize|
            v < g.n && #[trigger] g.non_isolated(v) ==> self.first.comps@.contains(v)
                || self.second.comps@.contains(v)
    }
}

} // verus!
