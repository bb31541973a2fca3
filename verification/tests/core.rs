use mincut::contraction::{shuffled_indices, simple_cut};
use mincut::evaluate::get_cut_size;
use mincut::graph::{Cut, Error, Graph, Node};
use mincut::parse::{build_graph, parse_record};
use mincut::stats::min_and_gaps;
use mincut::trial::{one_trial, validate_trial_count};

fn graph(n: usize, edges: Vec<(usize, usize)>) -> Graph {
    Graph { n, edges }
}

#[test]
fn triangle_every_trial_yields_two() {
    // triangle graph: every contraction leaves a one-against-two split
    let g = graph(3, vec![(0, 1), (1, 2), (2, 0)]);
    for _ in 0..20 {
        let perm = shuffled_indices(3);
        assert_eq!(one_trial(&g, &perm), Ok(2));
    }
}

#[test]
fn triangle_minimum_and_mean_gap() {
    // all results equal two, so the minimum is two and the mean gap is one
    let g = graph(3, vec![(0, 1), (1, 2), (2, 0)]);
    let mut cuts = Vec::new();
    for _ in 0..10 {
        cuts.push(one_trial(&g, &shuffled_indices(3)).unwrap());
    }
    let (min, gap_sum, gap_count) = min_and_gaps(&cuts);
    assert_eq!(min, 2);
    assert_eq!(gap_sum, gap_count);
    assert_eq!(gap_sum as f64 / gap_count as f64, 1.0);
}

#[test]
fn two_disjoint_edges_trials() {
    // both edges must be contracted to get down to two super-vertices, so
    // the sides are the two pairs and no edge crosses them
    let g = graph(4, vec![(0, 1), (2, 3)]);
    for _ in 0..20 {
        assert_eq!(one_trial(&g, &shuffled_indices(2)), Ok(0));
    }
}

#[test]
fn single_edge_minimum_is_one() {
    let g = graph(2, vec![(0, 1)]);
    for _ in 0..5 {
        assert_eq!(one_trial(&g, &shuffled_indices(1)), Ok(1));
    }
}

#[test]
fn empty_input_is_graph_too_small() {
    let g = build_graph(vec![]).unwrap();
    assert_eq!(g.n, 1);
    let perm = shuffled_indices(0);
    assert_eq!(one_trial(&g, &perm), Err(Error::GraphTooSmall));
    assert!(matches!(simple_cut(&g, &perm), Err(Error::GraphTooSmall)));
}

#[test]
fn lone_vertex_pair_with_isolated_ones() {
    // vertices 1 and 3 are isolated; the cut separates 0 from 2 and never
    // labels the isolated vertices
    let g = graph(4, vec![(0, 2)]);
    let cut = simple_cut(&g, &shuffled_indices(1)).unwrap();
    let mut all = cut.first.comps.clone();
    all.extend(cut.second.comps.clone());
    all.sort();
    assert_eq!(all, vec![0, 2]);
    assert_eq!(get_cut_size(&cut, &g), Ok(1));
}

#[test]
fn evaluator_counts_crossings_exactly() {
    // the square 0-1-2-3-0 cut into {0,1} and {2,3}: exactly the two side
    // edges cross
    let g = graph(4, vec![(0, 1), (1, 2), (2, 3), (3, 0)]);
    let cut = Cut {
        first: Node { comps: vec![0, 1], edges: vec![] },
        second: Node { comps: vec![2, 3], edges: vec![] },
    };
    assert_eq!(get_cut_size(&cut, &g), Ok(2));
}

#[test]
fn evaluator_rejects_double_label() {
    let g = graph(2, vec![(0, 1)]);
    let overlap = Cut {
        first: Node { comps: vec![0, 1], edges: vec![] },
        second: Node { comps: vec![1], edges: vec![] },
    };
    assert_eq!(get_cut_size(&overlap, &g), Err(Error::PartitionInvariantViolation));
    let dup = Cut {
        first: Node { comps: vec![0, 0], edges: vec![] },
        second: Node { comps: vec![1], edges: vec![] },
    };
    assert_eq!(get_cut_size(&dup, &g), Err(Error::PartitionInvariantViolation));
}

#[test]
fn gap_statistic_unique_minimum() {
    // the minimum occurs once, at 1-based position 5: the statistic is 5
    let cuts: Vec<usize> = vec![5, 4, 3, 2, 1];
    let (min, gap_sum, gap_count) = min_and_gaps(&cuts);
    assert_eq!(min, 1);
    assert_eq!(gap_count, 1);
    assert_eq!(gap_sum, 5);
    assert_eq!(gap_sum as f64 / gap_count as f64, 5.0);
}

#[test]
fn gap_statistic_mixed() {
    // minimum 1 at 1-based positions 2 and 4: gaps 2 and 2, mean 2
    let cuts: Vec<usize> = vec![3, 1, 2, 1];
    let (min, gap_sum, gap_count) = min_and_gaps(&cuts);
    assert_eq!(min, 1);
    assert_eq!(gap_count, 2);
    assert_eq!(gap_sum, 4);
    assert_eq!(gap_sum as f64 / gap_count as f64, 2.0);
}

#[test]
fn minimum_never_rises_with_more_trials() {
    let cuts: Vec<usize> = vec![7, 3, 9, 3, 5, 2, 8];
    let mut best = usize::MAX;
    for k in 1..=cuts.len() {
        let prefix = cuts[..k].to_vec();
        let (min, _, _) = min_and_gaps(&prefix);
        assert!(min <= best);
        best = min;
    }
}

#[test]
fn parse_record_accepts_two_numbers() {
    assert_eq!(parse_record(b"0 1"), Ok((0, 1)));
    assert_eq!(parse_record(b"  12\t34  "), Ok((12, 34)));
    assert_eq!(parse_record(b"18446744073709551615 0"), Ok((usize::MAX, 0)));
}

#[test]
fn parse_record_rejects_bad_records() {
    assert_eq!(parse_record(b""), Err(Error::InputFormatError));
    assert_eq!(parse_record(b"   "), Err(Error::InputFormatError));
    assert_eq!(parse_record(b"1"), Err(Error::InputFormatError));
    assert_eq!(parse_record(b"1 2 3"), Err(Error::InputFormatError));
    assert_eq!(parse_record(b"a b"), Err(Error::InputFormatError));
    assert_eq!(parse_record(b"1 2x"), Err(Error::InputFormatError));
    assert_eq!(parse_record(b"18446744073709551616 0"), Err(Error::InputFormatError));
}

#[test]
fn build_graph_counts_vertices() {
    let g = build_graph(vec![(0, 5), (2, 1)]).unwrap();
    assert_eq!(g.n, 6);
    assert_eq!(g.edges, vec![(0, 5), (2, 1)]);
    assert!(matches!(build_graph(vec![(1, 1)]), Err(Error::InvariantViolation)));
}

#[test]
fn trial_count_must_be_positive() {
    assert_eq!(validate_trial_count(0), Err(Error::InvalidTrialCount));
    assert_eq!(validate_trial_count(7), Ok(7));
}

#[test]
fn shuffled_indices_is_permutation() {
    let mut p = shuffled_indices(10);
    p.sort();
    let expected: Vec<usize> = (0..10).collect();
    assert_eq!(p, expected);
}
