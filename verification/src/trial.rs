use vstd::prelude::*;
use crate::contraction::{has_three_way_split, simple_cut};
use crate::evaluate::{crossing_count, get_cut_size};
use crate::graph::{Cut, Error, Graph, no_dups};

verus! {

/// One complete trial: contract the graph along the given random edge
/// order, then score the resulting cut against the full edge list. The
/// result, when there is one, is the crossing count of some partition of
/// the non-isolated vertices, and never exceeds the edge count.
pub fn one_trial(g: &Graph, perm: &Vec<usize>) -> (r: Result<usize, Error>)
    requires
        g.wf(),
        perm@.len() == g.edges@.len(),
        no_dups(perm@),
        forall|t: int| 0 <= t < perm@.len() ==> (#[trigger] perm@[t]) < perm@.len(),
    ensures
        (r == Err::<usize, Error>(Error::GraphTooSmall) <==> !g.has_two_non_isolated()),
        r matches Ok(k) ==> k <= g.edges@.len() && exists|c: Cut|
            #[trigger] c.partitions(*g) && k as int == crossing_count(c, g.edges@),
        r matches Err(e) ==> e == Error::GraphTooSmall || e == Error::InvariantViolation,
        r == Err::<usize, Error>(Error::InvariantViolation) ==> has_three_way_split(*g),
{
    match simple_cut(g, perm) {
        Ok(cut) => {
            proof {
                assert(cut.comps_in_bounds(g.n));
            }
            match get_cut_size(&cut, g) {
                Ok(k) => {
                    proof {
                        assert(cut.partitions(*g) && k as int == crossing_count(cut, g.edges@));
                    }
                    Ok(k)
                },
                Err(e) => {
                    proof {
                        assert(false);
                    }
                    Err(e)
                },
            }
        },
        Err(e) => Err(e),
    }
}

/// A batch demands a positive number of trials; zero is rejected before any
/// trial runs.
pub fn validate_trial_count(iters: u32) -> (r: Result<u32, Error>)
    ensures
        iters == 0 <==> r == Err::<u32, Error>(Error::InvalidTrialCount),
        iters > 0 ==> r == Ok::<u32, Error>(iters),
{
    if iters == 0 {
        Err(Error::InvalidTrialCount)
    } else {
        Ok(iters)
    }
}

} // verus!
