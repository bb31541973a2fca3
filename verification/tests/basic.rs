use mincut::graph::{Error, Graph};

#[test]
fn error_variants_are_distinct() {
    assert_ne!(Error::GraphTooSmall, Error::InvalidTrialCount);
    assert_ne!(Error::InputFormatError, Error::InvariantViolation);
    assert_eq!(Error::PartitionInvariantViolation, Error::PartitionInvariantViolation);
}

#[test]
fn graph_holds_edges() {
    let g = Graph { n: 3, edges: vec![(0, 1), (1, 2), (2, 0)] };
    assert_eq!(g.n, 3);
    assert_eq!(g.edges.len(), 3);
    assert_eq!(g.edges[2], (2, 0));
}
