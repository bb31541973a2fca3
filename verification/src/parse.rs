use vstd::prelude::*;
use crate::graph::{Error, Graph};

verus! {

pub open spec fn is_digit(c: u8) -> bool {
    48 <= c <= 57
}

/// The ASCII whitespace bytes: tab, line feed, vertical tab, form feed,
/// carriage return, space.
pub open spec fn is_space(c: u8) -> bool {
    c == 32 || c == 9 || c == 10 || c == 11 || c == 12 || c == 13
}

/// The position of the first non-space byte at or after `p`.
pub open spec fn skip_spaces(s: Seq<u8>, p: int) -> int
    decreases s.len() - p,
{
    if 0 <= p < s.len() && is_space(s[p]) {
        skip_spaces(s, p + 1)
    } else {
        p
    }
}

/// The position of the first non-digit byte at or after `p`.
pub open spec fn skip_digits(s: Seq<u8>, p: int) -> int
    decreases s.len() - p,
{
    if 0 <= p < s.len() && is_digit(s[p]) {
        skip_digits(s, p + 1)
    } else {
        p
    }
}

/// The number the digits at positions [lo, hi) denote, read in base ten.
pub open spec fn digits_value(s: Seq<u8>, lo: int, hi: int) -> int
    decreases hi - lo,
{
    if hi <= lo {
        0
    } else {
        digits_value(s, lo, hi - 1) * 10 + (s[hi - 1] - 48)
    }
}

pub open spec fn tok1_start(s: Seq<u8>) -> int {
    skip_spaces(s, 0)
}

pub open spec fn tok1_end(s: Seq<u8>) -> int {
    skip_digits(s, tok1_start(s))
}

pub open spec fn tok2_start(s: Seq<u8>) -> int {
    skip_spaces(s, tok1_end(s))
}

pub open spec fn tok2_end(s: Seq<u8>) -> int {
    skip_digits(s, tok2_start(s))
}

/// The record is two whitespace-separated runs of digits and nothing else.
pub open spec fn valid_record(s: Seq<u8>) -> bool {
    &&& tok1_start(s) < tok1_end(s)
    &&& tok1_end(s) < tok2_start(s)
    &&& tok2_start(s) < tok2_end(s)
    &&& skip_spaces(s, tok2_end(s)) == s.len()
}

pub open spec fn first_value(s: Seq<u8>) -> int {
    digits_value(s, tok1_start(s), tok1_end(s))
}

pub open spec fn second_value(s: Seq<u8>) -> int {
    digits_value(s, tok2_start(s), tok2_end(s))
}

fn space_byte(c: u8) -> (b: bool)
    ensures
        b == is_space(c),
{
    c == 32 || c == 9 || c == 10 || c == 11 || c == 12 || c == 13
}

fn digit_byte(c: u8) -> (b: bool)
    ensures
        b == is_digit(c),
{
    48 <= c && c <= 57
}

proof fn lemma_skip_spaces(s: Seq<u8>, p: int)
    requires
        0 <= p <= s.len(),
    ensures
        p <= skip_spaces(s, p) <= s.len(),
        skip_spaces(s, p) == s.len() || !is_space(s[skip_spaces(s, p)]),
        forall|t: int| p <= t < skip_spaces(s, p) ==> is_space(#[trigger] s[t]),
    decreases s.len() - p,
{
    if p < s.len() && is_space(s[p]) {
        lemma_skip_spaces(s, p + 1);
    }
}

proof fn lemma_skip_digits(s: Seq<u8>, p: int)
    requires
        0 <= p <= s.len(),
    ensures
        p <= skip_digits(s, p) <= s.len(),
        skip_digits(s, p) == s.len() || !is_digit(s[skip_digits(s, p)]),
        forall|t: int| p <= t < skip_digits(s, p) ==> is_digit(#[trigger] s[t]),
    decreases s.len() - p,
{
    if p < s.len() && is_digit(s[p]) {
        lemma_skip_digits(s, p + 1);
    }
}

proof fn lemma_digits_value_nonneg(s: Seq<u8>, lo: int, hi: int)
    requires
        0 <= lo,
        hi <= s.len(),
        forall|t: int| lo <= t < hi ==> is_digit(#[trigger] s[t]),
    ensures
        digits_value(s, lo, hi) >= 0,
    decreases hi - lo,
{
    if hi > lo {
        lemma_digits_value_nonneg(s, lo, hi - 1);
    }
}

/// Appending more digits never lowers the value denoted.
proof fn lemma_digits_value_mono(s: Seq<u8>, lo: int, mid: int, hi: int)
    requires
        0 <= lo <= mid <= hi <= s.len(),
        forall|t: int| lo <= t < hi ==> is_digit(#[trigger] s[t]),
    ensures
        digits_value(s, lo, hi) >= digits_value(s, lo, mid),
    decreases hi - mid,
{
    if hi > mid {
        lemma_digits_value_mono(s, lo, mid, hi - 1);
        lemma_digits_value_nonneg(s, lo, hi - 1);
    }
}

/// Parse one record: two whitespace-separated decimal vertex ids. Anything
/// else — fewer or more tokens, a stray byte, a value too large for `usize`
/// — is an `InputFormatError`. Deliberately, only ASCII whitespace separates
/// the ids and only bare digit runs are read: a sign or any wider separator
/// is a format error.
#[verifier::loop_isolation(false)]
#[verifier::rlimit(100)]
pub fn parse_record(line: &[u8]) -> (r: Result<(usize, usize), Error>)
    ensures
        r is Ok <==> (valid_record(line@) && first_value(line@) <= usize::MAX && second_value(
            line@,
        ) <= usize::MAX),
        r matches Ok(p) ==> p.0 as int == first_value(line@) && p.1 as int == second_value(line@),
        r matches Err(e) ==> e == Error::InputFormatError,
{
    let ghost s = line@;
    let len = line.len();

    // leading spaces
    let mut p: usize = 0;
    while p < len && space_byte(line[p])
        invariant
            0 <= p <= len,
            skip_spaces(s, 0) == skip_spaces(s, p as int),
        decreases len - p,
    {
        p += 1;
    }
    proof {
        assert(skip_spaces(s, p as int) == p as int);
        assert(tok1_start(s) == p as int);
    }
    if p == len || !digit_byte(line[p]) {
        proof {
            assert(skip_digits(s, p as int) == p as int);
            assert(!valid_record(s));
        }
        return Err(Error::InputFormatError);
    }

    // first number
    let start1 = p;
    let mut val1: usize = 0;
    while p < len && digit_byte(line[p])
        invariant
            start1 <= p <= len,
            forall|t: int| start1 <= t < p ==> is_digit(#[trigger] s[t]),
            skip_digits(s, start1 as int) == skip_digits(s, p as int),
            val1 as int == digits_value(s, start1 as int, p as int),
        decreases len - p,
    {
        let d = line[p] - 48;
        let ov = match val1.checked_mul(10) {
            Some(x) => x.checked_add(d as usize),
            None => None,
        };
        match ov {
            Some(y) => {
                val1 = y;
            },
            None => {
                proof {
                    assert(skip_digits(s, p as int) == skip_digits(s, p as int + 1));
                    lemma_skip_digits(s, p as int + 1);
                    assert(tok1_end(s) >= p as int + 1);
                    assert(forall|t: int|
                        start1 <= t < tok1_end(s) ==> is_digit(#[trigger] s[t]));
                    lemma_digits_value_mono(s, start1 as int, p as int + 1, tok1_end(s));
                    assert(digits_value(s, start1 as int, p as int + 1) == val1 as int * 10 + (
                    s[p as int] - 48));
                    assert(first_value(s) > usize::MAX);
                }
                return Err(Error::InputFormatError);
            },
        }
        p += 1;
    }
    proof {
        assert(skip_digits(s, p as int) == p as int);
        assert(tok1_end(s) == p as int);
        assert(val1 as int == first_value(s));
        assert(tok1_start(s) < tok1_end(s));
    }

    // the separator: at least one space
    let sep = p;
    if p == len || !space_byte(line[p]) {
        proof {
            assert(skip_spaces(s, p as int) == p as int);
            assert(tok2_start(s) == p as int);
            assert(!valid_record(s));
        }
        return Err(Error::InputFormatError);
    }
    while p < len && space_byte(line[p])
        invariant
            sep <= p <= len,
            skip_spaces(s, sep as int) == skip_spaces(s, p as int),
        decreases len - p,
    {
        p += 1;
    }
    proof {
        assert(skip_spaces(s, p as int) == p as int);
        assert(tok2_start(s) == p as int);
        assert(tok1_end(s) < tok2_start(s));
    }
    if p == len || !digit_byte(line[p]) {
        proof {
            assert(skip_digits(s, p as int) == p as int);
            assert(!valid_record(s));
        }
        return Err(Error::InputFormatError);
    }

    // second number
    let start2 = p;
    let mut val2: usize = 0;
    while p < len && digit_byte(line[p])
        invariant
            start2 <= p <= len,
            forall|t: int| start2 <= t < p ==> is_digit(#[trigger] s[t]),
            skip_digits(s, start2 as int) == skip_digits(s, p as int),
            val2 as int == digits_value(s, start2 as int, p as int),
        decreases len - p,
    {
        let d = line[p] - 48;
        let ov = match val2.checked_mul(10) {
            Some(x) => x.checked_add(d as usize),
            None => None,
        };
        match ov {
            Some(y) => {
                val2 = y;
            },
            None => {
                proof {
                    assert(skip_digits(s, p as int) == skip_digits(s, p as int + 1));
                    lemma_skip_digits(s, p as int + 1);
                    assert(tok2_end(s) >= p as int + 1);
                    assert(forall|t: int|
                        start2 <= t < tok2_end(s) ==> is_digit(#[trigger] s[t]));
                    lemma_digits_value_mono(s, start2 as int, p as int + 1, tok2_end(s));
                    assert(digits_value(s, start2 as int, p as int + 1) == val2 as int * 10 + (
                    s[p as int] - 48));
                    assert(second_value(s) > usize::MAX);
                }
                return Err(Error::InputFormatError);
            },
        }
        p += 1;
    }
    proof {
        assert(skip_digits(s, p as int) == p as int);
        assert(tok2_end(s) == p as int);
        assert(val2 as int == second_value(s));
        assert(tok2_start(s) < tok2_end(s));
    }

    // trailing spaces, then the end
    let tail = p;
    while p < len && space_byte(line[p])
        invariant
            tail <= p <= len,
            skip_spaces(s, tail as int) == skip_spaces(s, p as int),
        decreases len - p,
    {
        p += 1;
    }
    proof {
        assert(skip_spaces(s, p as int) == p as int);
        assert(skip_spaces(s, tail as int) == p as int);
    }
    if p != len {
        proof {
            assert(!valid_record(s));
        }
        return Err(Error::InputFormatError);
    }
    proof {
        assert(valid_record(s));
    }
    Ok((val1, val2))
}

/// The largest vertex id among the endpoints, or 0 when there are none.
pub open spec fn max_id(s: Seq<(usize, usize)>) -> int
    decreases s.len(),
{
    if s.len() == 0 {
        0
    } else {
        let m0 = max_id(s.drop_last());
        let a = s.last().0 as int;
        let b = s.last().1 as int;
        if a >= m0 && a >= b {
            a
        } else if b >= m0 {
            b
        } else {
            m0
        }
    }
}

proof fn lemma_max_id_bounds(s: Seq<(usize, usize)>)
    ensures
        max_id(s) >= 0,
        forall|t: int|
            0 <= t < s.len() ==> (#[trigger] s[t]).0 <= max_id(s) && s[t].1 <= max_id(s),
    decreases s.len(),
{
    if s.len() > 0 {
        lemma_max_id_bounds(s.drop_last());
        assert forall|t: int|
            0 <= t < s.len() implies (#[trigger] s[t]).0 <= max_id(s) && s[t].1 <= max_id(s) by {
            if t < s.len() - 1 {
                assert(s.drop_last()[t] == s[t]);
                assert(s[t].0 <= max_id(s.drop_last()) && s[t].1 <= max_id(s.drop_last()));
            }
        }
    }
}

/// Build the graph a parsed edge list denotes: the vertex count is one more
/// than the largest id seen (one, for an empty list). An edge joining a
/// vertex to itself is the fatal `InvariantViolation`; a largest id leaving
/// no room for the count is an `InputFormatError`.
#[verifier::loop_isolation(false)]
#[verifier::rlimit(100)]
pub fn build_graph(edges: Vec<(usize, usize)>) -> (r: Result<Graph, Error>)
    ensures
        (r == Err::<Graph, Error>(Error::InvariantViolation) <==> exists|i: int|
            0 <= i < edges@.len() && (#[trigger] edges@[i]).0 == edges@[i].1),
        (r == Err::<Graph, Error>(Error::InputFormatError) <==> (max_id(edges@) == usize::MAX && !(
        exists|i: int| 0 <= i < edges@.len() && (#[trigger] edges@[i]).0 == edges@[i].1))),
        r matches Ok(g) ==> g.edges@ == edges@ && g.n as int == max_id(edges@) + 1 && g.wf(),
        r matches Err(e) ==> e == Error::InvariantViolation || e == Error::InputFormatError,
{
    let m = edges.len();
    let mut mx: usize = 0;
    let mut i: usize = 0;
    while i < m
        invariant
            i <= m,
            m == edges@.len(),
            mx as int == max_id(edges@.take(i as int)),
            forall|t: int| 0 <= t < i ==> (#[trigger] edges@[t]).0 != edges@[t].1,
        decreases m - i,
    {
        let pr = edges[i];
        proof {
            assert(edges@.take(i as int + 1).drop_last() =~= edges@.take(i as int));
            assert(edges@.take(i as int + 1).last() == edges@[i as int]);
        }
        if pr.0 == pr.1 {
            proof {
                assert((edges@[i as int]).0 == edges@[i as int].1);
            }
            return Err(Error::InvariantViolation);
        }
        if pr.0 > mx {
            mx = pr.0;
        }
        if pr.1 > mx {
            mx = pr.1;
        }
        i += 1;
    }
    proof {
        assert(edges@.take(m as int) =~= edges@);
    }
    if mx == usize::MAX {
        return Err(Error::InputFormatError);
    }
    let g = Graph { n: mx + 1, edges };
    proof {
        lemma_max_id_bounds(g.edges@);
        assert(g.wf());
    }
    Ok(g)
}

} // verus!
