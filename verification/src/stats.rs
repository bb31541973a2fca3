use vstd::prelude::*;

verus! {

/// The smallest value of a non-empty sequence.
pub open spec fn seq_min(s: Seq<usize>) -> usize
    decreases s.len(),
{
    if s.len() <= 1 {
        if s.len() == 1 {
            s[0]
        } else {
            0
        }
    } else {
        let rest = seq_min(s.drop_last());
        if s.last() < rest {
            s.last()
        } else {
            rest
        }
    }
}

/// How many entries equal `x`.
pub open spec fn occurrence_count(s: Seq<usize>, x: usize) -> int
    decreases s.len(),
{
    if s.len() == 0 {
        0
    } else {
        occurrence_count(s.drop_last(), x) + if s.last() == x {
            1int
        } else {
            0int
        }
    }
}

/// The largest index whose entry equals `x`, or -1 if none does.
pub open spec fn last_occurrence_index(s: Seq<usize>, x: usize) -> int
    decreases s.len(),
{
    if s.len() == 0 {
        -1
    } else if s.last() == x {
        s.len() - 1
    } else {
        last_occurrence_index(s.drop_last(), x)
    }
}

pub proof fn lemma_seq_min_props(s: Seq<usize>)
    requires
        s.len() > 0,
    ensures
        s.contains(seq_min(s)),
        forall|i: int| 0 <= i < s.len() ==> seq_min(s) <= #[trigger] s[i],
    decreases s.len(),
{
    if s.len() == 1 {
        assert(s[0] == seq_min(s));
    } else {
        lemma_seq_min_props(s.drop_last());
        let rest = seq_min(s.drop_last());
        if s.last() < rest {
            assert(s[s.len() - 1] == seq_min(s));
        } else {
            let t = choose|t: int| 0 <= t < s.drop_last().len() && s.drop_last()[t] == rest;
            assert(s[t] == rest);
        }
        assert forall|i: int| 0 <= i < s.len() implies seq_min(s) <= #[trigger] s[i] by {
            if i < s.len() - 1 {
                assert(s.drop_last()[i] == s[i]);
            }
        }
    }
}

pub proof fn lemma_occ_props(s: Seq<usize>, x: usize)
    ensures
        0 <= occurrence_count(s, x) <= s.len(),
        occurrence_count(s, x) > 0 <==> s.contains(x),
        -1 <= last_occurrence_index(s, x) < s.len(),
        s.contains(x) ==> 0 <= last_occurrence_index(s, x) && s[last_occurrence_index(s, x)] == x,
    decreases s.len(),
{
    if s.len() > 0 {
        lemma_occ_props(s.drop_last(), x);
        if s.contains(x) {
            let t = choose|t: int| 0 <= t < s.len() && s[t] == x;
            if t < s.len() - 1 {
                assert(s.drop_last()[t] == x);
                assert(s.drop_last().contains(x));
            }
        }
        if s.drop_last().contains(x) {
            let t = choose|t: int| 0 <= t < s.len() - 1 && s.drop_last()[t] == x;
            assert(s[t] == x);
        }
        if !s.drop_last().contains(x) && s.last() != x {
            if s.contains(x) {
                assert(false);
            }
        }
        if s.contains(x) && s.last() != x {
            assert(s.drop_last()[last_occurrence_index(s.drop_last(), x)] == x);
        }
    }
}

/// The smallest trial result, the sum of the rediscovery gaps, and how often
/// the smallest result occurs. Scanning in order, each time the value equals
/// the minimum a gap is recorded: the 1-based position minus the 1-based
/// position of the previous occurrence (or zero). The gaps telescope, so
/// their sum is the 1-based position of the last occurrence.
#[verifier::loop_isolation(false)]
#[verifier::rlimit(100)]
pub fn min_and_gaps(cuts: &Vec<usize>) -> (r: (usize, usize, usize))
    requires
        cuts@.len() > 0,
    ensures
        r.0 == seq_min(cuts@),
        cuts@.contains(r.0),
        forall|i: int| 0 <= i < cuts@.len() ==> r.0 <= #[trigger] cuts@[i],
        r.1 as int == last_occurrence_index(cuts@, r.0) + 1,
        r.2 as int == occurrence_count(cuts@, r.0),
        1 <= r.1 <= cuts@.len(),
        1 <= r.2 <= cuts@.len(),
{
    let mut minimum = cuts[0];
    let mut i: usize = 1;
    proof {
        assert(cuts@.take(1)[0] == cuts@[0]);
        assert(minimum == seq_min(cuts@.take(1)));
    }
    while i < cuts.len()
        invariant
            1 <= i <= cuts@.len(),
            minimum == seq_min(cuts@.take(i as int)),
        decreases cuts@.len() - i,
    {
        let c = cuts[i];
        proof {
            assert(cuts@.take(i as int + 1).drop_last() =~= cuts@.take(i as int));
            assert(cuts@.take(i as int + 1).last() == cuts@[i as int]);
        }
        if c < minimum {
            minimum = c;
        }
        i += 1;
    }
    proof {
        assert(cuts@.take(cuts@.len() as int) =~= cuts@);
        lemma_seq_min_props(cuts@);
        lemma_occ_props(cuts@, minimum);
    }

    let mut gap_sum: usize = 0;
    let mut count: usize = 0;
    let mut last_run: usize = 0;
    let mut i2: usize = 0;
    while i2 < cuts.len()
        invariant
            i2 <= cuts@.len(),
            last_run == gap_sum,
            gap_sum <= i2,
            count <= i2,
            gap_sum as int == last_occurrence_index(cuts@.take(i2 as int), minimum) + 1,
            count as int == occurrence_count(cuts@.take(i2 as int), minimum),
        decreases cuts@.len() - i2,
    {
        let c = cuts[i2];
        proof {
            assert(cuts@.take(i2 as int + 1).drop_last() =~= cuts@.take(i2 as int));
            assert(cuts@.take(i2 as int + 1).last() == cuts@[i2 as int]);
        }
        if c == minimum {
            gap_sum = gap_sum + (i2 + 1 - last_run);
            last_run = i2 + 1;
            count += 1;
        }
        i2 += 1;
    }
    proof {
        assert(cuts@.take(cuts@.len() as int) =~= cuts@);
    }
    (minimum, gap_sum, count)
}

/// Running more trials never raises the best-known cut: the minimum of a
/// longer sequence that extends `s` is no larger than the minimum of `s`.
pub proof fn lemma_min_monotone(s: Seq<usize>, t: Seq<usize>)
    requires
        0 < s.len() <= t.len(),
        s == t.take(s.len() as int),
    ensures
        seq_min(t) <= seq_min(s),
{
    lemma_seq_min_props(s);
    lemma_seq_min_props(t);
    let i0 = choose|i0: int| 0 <= i0 < s.len() && s[i0] == seq_min(s);
    assert(t[i0] == s[i0]);
}

/// If every trial result is the same, the minimum occurs at every position,
/// so the gap sum equals the occurrence count: the mean rediscovery gap is
/// one.
pub proof fn lemma_uniform_gaps(s: Seq<usize>)
    requires
        s.len() > 0,
        forall|i: int| 0 <= i < s.len() ==> #[trigger] s[i] == s[0],
    ensures
        seq_min(s) == s[0],
        occurrence_count(s, seq_min(s)) == s.len(),
        last_occurrence_index(s, seq_min(s)) + 1 == s.len(),
    decreases s.len(),
{
    if s.len() == 1 {
        assert(seq_min(s) == s[0]);
        assert(s.drop_last().len() == 0);
        assert(occurrence_count(s, s[0]) == occurrence_count(s.drop_last(), s[0]) + 1);
    } else {
        assert(forall|i: int| 0 <= i < s.len() - 1 ==> #[trigger] s.drop_last()[i] == s[i]);
        lemma_uniform_gaps(s.drop_last());
        assert(s.drop_last()[0] == s[0]);
        assert(s.last() == s[0]);
        assert(seq_min(s) == s[0]);
        assert(occurrence_count(s, s[0]) == occurrence_count(s.drop_last(), s[0]) + 1);
    }
}

proof fn lemma_occ_none(s: Seq<usize>, x: usize)
    requires
        forall|i: int| 0 <= i < s.len() ==> #[trigger] s[i] != x,
    ensures
        occurrence_count(s, x) == 0,
        last_occurrence_index(s, x) == -1,
    decreases s.len(),
{
    if s.len() > 0 {
        assert(forall|i: int| 0 <= i < s.len() - 1 ==> #[trigger] s.drop_last()[i] == s[i]);
        lemma_occ_none(s.drop_last(), x);
    }
}

/// If the minimum occurs exactly once, at 0-based index `p0`, it is counted
/// once and the gap sum is `p0 + 1`: the statistic is the 1-based position
/// of that single occurrence.
pub proof fn lemma_unique_min_gap(s: Seq<usize>, p0: int)
    requires
        0 <= p0 < s.len(),
        s[p0] == seq_min(s),
        forall|i: int| 0 <= i < s.len() && i != p0 ==> #[trigger] s[i] != seq_min(s),
    ensures
        occurrence_count(s, seq_min(s)) == 1,
        last_occurrence_index(s, seq_min(s)) == p0,
    decreases s.len(),
{
    let x = seq_min(s);
    lemma_occ_unique(s, x, p0);
}

proof fn lemma_occ_unique(s: Seq<usize>, x: usize, p0: int)
    requires
        0 <= p0 < s.len(),
        s[p0] == x,
        forall|i: int| 0 <= i < s.len() && i != p0 ==> #[trigger] s[i] != x,
    ensures
        occurrence_count(s, x) == 1,
        last_occurrence_index(s, x) == p0,
    decreases s.len(),
{
    if p0 == s.len() - 1 {
        assert(forall|i: int| 0 <= i < s.len() - 1 ==> #[trigger] s.drop_last()[i] == s[i]);
        lemma_occ_none(s.drop_last(), x);
    } else {
        assert(forall|i: int| 0 <= i < s.len() - 1 ==> #[trigger] s.drop_last()[i] == s[i]);
        lemma_occ_unique(s.drop_last(), x, p0);
    }
}

} // verus!
