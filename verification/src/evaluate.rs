use vstd::prelude::*;
use crate::graph::{Cut, Error, Graph, no_dups};

verus! {

/// Which side of the cut a vertex is on: 1 for the first, 2 for the second,
/// 0 for a vertex on neither side (an isolated vertex).
pub open spec fn side(c: Cut, v: usize) -> int {
    if c.first.comps@.contains(v) {
        1
    } else if c.second.comps@.contains(v) {
        2
    } else {
        0
    }
}

/// How many of the given edges have their two endpoints on different sides.
pub open spec fn crossing_count(c: Cut, edges: Seq<(usize, usize)>) -> int
    decreases edges.len(),
{
    if edges.len() == 0 {
        0
    } else {
        crossing_count(c, edges.drop_last()) + if side(c, edges.last().0) != side(
            c,
            edges.last().1,
        ) {
            1int
        } else {
            0int
        }
    }
}

/// Score a cut against the graph's full edge list: label every vertex of the
/// first side 1 and of the second side 2, then count the edges whose
/// endpoints carry different labels. Labeling a vertex twice is a fatal
/// `PartitionInvariantViolation`: the sides would not form a partition.
#[verifier::loop_isolation(false)]
#[verifier::rlimit(100)]
pub fn get_cut_size(cut: &Cut, g: &Graph) -> (r: Result<usize, Error>)
    requires
        g.wf(),
        cut.comps_in_bounds(g.n),
    ensures
        r matches Ok(k) ==> cut.well_labeled() && k as int == crossing_count(*cut, g.edges@)
            && k <= g.edges@.len(),
        r matches Err(e) ==> e == Error::PartitionInvariantViolation && !cut.well_labeled(),
{
    let n = g.n;
    let mut labels: Vec<u8> = vec![0u8; n];

    // first side
    let mut k: usize = 0;
    while k < cut.first.comps.len()
        invariant
            k <= cut.first.comps@.len(),
            labels@.len() == n,
            forall|v: int|
                0 <= v < n ==> #[trigger] labels@[v] == (if cut.first.comps@.take(
                    k as int,
                ).contains(v as usize) {
                    1u8
                } else {
                    0u8
                }),
            no_dups(cut.first.comps@.take(k as int)),
        decreases cut.first.comps@.len() - k,
    {
        let c = cut.first.comps[k];
        if labels[c] != 0 {
            proof {
                assert(cut.first.comps@.take(k as int).contains(c));
                let t = choose|t: int| 0 <= t < k && cut.first.comps@.take(k as int)[t] == c;
                assert(cut.first.comps@[t] == c && cut.first.comps@[k as int] == c);
                assert(!no_dups(cut.first.comps@));
            }
            return Err(Error::PartitionInvariantViolation);
        }
        labels[c] = 1;
        proof {
            assert(cut.first.comps@.take(k as int + 1) =~= cut.first.comps@.take(k as int).push(
                cut.first.comps@[k as int],
            ));
            assert forall|y: usize| #[trigger] cut.first.comps@.take(k as int + 1).contains(
                y,
            ) implies cut.first.comps@.take(k as int).contains(y) || y == c by {
                let t = choose|t: int|
                    0 <= t < k + 1 && #[trigger] cut.first.comps@.take(k as int + 1)[t] == y;
                if t < k {
                    assert(cut.first.comps@.take(k as int)[t] == y);
                }
            }
            assert forall|y: usize| #[trigger] cut.first.comps@.take(k as int).contains(
                y,
            ) implies cut.first.comps@.take(k as int + 1).contains(y) by {
                let t = choose|t: int|
                    0 <= t < k && #[trigger] cut.first.comps@.take(k as int)[t] == y;
                assert(cut.first.comps@.take(k as int + 1)[t] == y);
            }
            assert(cut.first.comps@.take(k as int + 1)[k as int] == c);
            assert(cut.first.comps@.take(k as int + 1).contains(c));
        }
        k += 1;
    }
    proof {
        assert(cut.first.comps@.take(cut.first.comps@.len() as int) =~= cut.first.comps@);
    }

    // second side
    let mut k2: usize = 0;
    while k2 < cut.second.comps.len()
        invariant
            k2 <= cut.second.comps@.len(),
            labels@.len() == n,
            forall|v: int|
                0 <= v < n ==> #[trigger] labels@[v] == (if cut.first.comps@.contains(v as usize) {
                    1u8
                } else if cut.second.comps@.take(k2 as int).contains(v as usize) {
                    2u8
                } else {
                    0u8
                }),
            no_dups(cut.second.comps@.take(k2 as int)),
            forall|t: int|
                0 <= t < k2 ==> !cut.first.comps@.contains(#[trigger] cut.second.comps@[t]),
            no_dups(cut.first.comps@),
        decreases cut.second.comps@.len() - k2,
    {
        let c = cut.second.comps[k2];
        if labels[c] != 0 {
            proof {
                if cut.first.comps@.contains(c) {
                    assert(cut.second.comps@.contains(c)) by {
                        assert(cut.second.comps@[k2 as int] == c);
                    }
                    assert(!cut.well_labeled());
                } else {
                    assert(cut.second.comps@.take(k2 as int).contains(c));
                    let t = choose|t: int|
                        0 <= t < k2 && cut.second.comps@.take(k2 as int)[t] == c;
                    assert(cut.second.comps@[t] == c && cut.second.comps@[k2 as int] == c);
                    assert(!no_dups(cut.second.comps@));
                }
            }
            return Err(Error::PartitionInvariantViolation);
        }
        labels[c] = 2;
        proof {
            assert(cut.second.comps@.take(k2 as int + 1) =~= cut.second.comps@.take(k2 as int).push(
                cut.second.comps@[k2 as int],
            ));
            assert forall|y: usize| #[trigger] cut.second.comps@.take(k2 as int + 1).contains(
                y,
            ) implies cut.second.comps@.take(k2 as int).contains(y) || y == c by {
                let t = choose|t: int|
                    0 <= t < k2 + 1 && #[trigger] cut.second.comps@.take(k2 as int + 1)[t] == y;
                if t < k2 {
                    assert(cut.second.comps@.take(k2 as int)[t] == y);
                }
            }
            assert forall|y: usize| #[trigger] cut.second.comps@.take(k2 as int).contains(
                y,
            ) implies cut.second.comps@.take(k2 as int + 1).contains(y) by {
                let t = choose|t: int|
                    0 <= t < k2 && #[trigger] cut.second.comps@.take(k2 as int)[t] == y;
                assert(cut.second.comps@.take(k2 as int + 1)[t] == y);
            }
            assert(cut.second.comps@.take(k2 as int + 1)[k2 as int] == c);
            assert(cut.second.comps@.take(k2 as int + 1).contains(c));
        }
        k2 += 1;
    }
    proof {
        assert(cut.second.comps@.take(cut.second.comps@.len() as int) =~= cut.second.comps@);
        assert forall|vx: usize|
            !(#[trigger] cut.first.comps@.contains(vx) && cut.second.comps@.contains(vx)) by {
            if cut.first.comps@.contains(vx) && cut.second.comps@.contains(vx) {
                let t = choose|t: int|
                    0 <= t < cut.second.comps@.len() && cut.second.comps@[t] == vx;
                assert(false);
            }
        }
        assert(cut.well_labeled());
        assert(forall|v: int| 0 <= v < n ==> #[trigger] labels@[v] as int == side(*cut, v as usize));
    }

    // count the crossing edges
    let mut total: usize = 0;
    let mut i: usize = 0;
    while i < g.edges.len()
        invariant
            i <= g.edges@.len(),
            total <= i,
            total as int == crossing_count(*cut, g.edges@.take(i as int)),
        decreases g.edges@.len() - i,
    {
        let pr = g.edges[i];
        proof {
            assert(g.edges@.take(i as int + 1).drop_last() =~= g.edges@.take(i as int));
            assert(g.edges@.take(i as int + 1).last() == g.edges@[i as int]);
            assert(labels@[pr.0 as int] as int == side(*cut, pr.0));
            assert(labels@[pr.1 as int] as int == side(*cut, pr.1));
        }
        if labels[pr.0] != labels[pr.1] {
            total += 1;
        }
        i += 1;
    }
    proof {
        assert(g.edges@.take(g.edges@.len() as int) =~= g.edges@);
    }
    Ok(total)
}

} // verus!
