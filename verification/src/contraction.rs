use vstd::prelude::*;
use crate::graph::{Cut, Error, Graph, Node, no_dups};
use rand::seq::SliceRandom;

verus! {

/// A super-vertex is live while it still stands for at least one vertex.
pub open spec fn live(nd: Node) -> bool {
    nd.comps@.len() > 0
}

/// How many super-vertices are live.
pub open spec fn count_live(s: Seq<Node>) -> int
    decreases s.len(),
{
    if s.len() == 0 {
        0
    } else {
        count_live(s.drop_last()) + if live(s.last()) {
            1int
        } else {
            0int
        }
    }
}

/// Edge `e` joins the two given super-vertices, in either order.
pub open spec fn spec_joins(p: (usize, usize), a: usize, b: usize) -> bool {
    (p.0 == a && p.1 == b) || (p.0 == b && p.1 == a)
}

/// The endpoint pair of an edge after the absorbed node `v` is renamed to the
/// surviving node `u`.
pub open spec fn rw_pair(p: (usize, usize), u: usize, v: usize) -> (usize, usize) {
    if p.0 == v {
        (u, p.1)
    } else {
        (p.0, u)
    }
}

/// Every entry of a super-vertex's edge list is a surviving edge that is,
/// under the current endpoints, incident to that super-vertex.
pub open spec fn adj_ok(nodes: Seq<Node>, work: Seq<(usize, usize)>, remaining: Seq<bool>) -> bool {
    forall|j: int, k: int|
        0 <= j < nodes.len() && 0 <= k < nodes[j].edges@.len() ==> {
            let e: usize = #[trigger] nodes[j].edges@[k];
            &&& (e as int) < work.len()
            &&& (e as int) < remaining.len()
            &&& remaining[e as int]
            &&& (work[e as int].0 == j || work[e as int].1 == j)
        }
}

/// A surviving edge joins two distinct live super-vertices, and each of the
/// two lists it on its edge list.
pub open spec fn edge_ok(nodes: Seq<Node>, work: Seq<(usize, usize)>, e: int) -> bool {
    let a: usize = work[e].0;
    let b: usize = work[e].1;
    &&& (a as int) < nodes.len()
    &&& (b as int) < nodes.len()
    &&& a != b
    &&& live(nodes[a as int])
    &&& live(nodes[b as int])
    &&& nodes[a as int].edges@.contains(e as usize)
    &&& nodes[b as int].edges@.contains(e as usize)
}

pub open spec fn remaining_ok(nodes: Seq<Node>, work: Seq<(usize, usize)>, remaining: Seq<
    bool,
>) -> bool {
    forall|e: int|
        0 <= e < remaining.len() && #[trigger] remaining[e] ==> edge_ok(nodes, work, e)
}

/// Every vertex a super-vertex stands for is a valid, non-isolated vertex.
pub open spec fn comps_entries_ok(g: Graph, nodes: Seq<Node>) -> bool {
    forall|j: int, k: int|
        0 <= j < nodes.len() && 0 <= k < nodes[j].comps@.len() ==> (#[trigger] nodes[j].comps@[k])
            < g.n && g.non_isolated(nodes[j].comps@[k])
}

pub open spec fn comps_nodup_ok(nodes: Seq<Node>) -> bool {
    forall|j: int| 0 <= j < nodes.len() ==> no_dups(#[trigger] nodes[j].comps@)
}

pub open spec fn edges_nodup_ok(nodes: Seq<Node>) -> bool {
    forall|j: int| 0 <= j < nodes.len() ==> no_dups(#[trigger] nodes[j].edges@)
}

/// No vertex is claimed by two different super-vertices.
pub open spec fn comps_disjoint_ok(nodes: Seq<Node>) -> bool {
    forall|j1: int, j2: int, v: usize|
        0 <= j1 < nodes.len() && 0 <= j2 < nodes.len() && j1 != j2
            && #[trigger] nodes[j1].comps@.contains(v) ==> !(#[trigger] nodes[j2].comps@.contains(
            v,
        ))
}

/// Every non-isolated vertex is claimed by some super-vertex.
pub open spec fn comps_cover_ok(g: Graph, nodes: Seq<Node>) -> bool {
    forall|v: usize|
        v < g.n && #[trigger] g.non_isolated(v) ==> exists|j: int|
            0 <= j < nodes.len() && #[trigger] nodes[j].comps@.contains(v)
}

/// Each surviving edge's original endpoints are held by its two current
/// super-vertices, in order.
pub open spec fn origins_ok(
    g: Graph,
    nodes: Seq<Node>,
    work: Seq<(usize, usize)>,
    remaining: Seq<bool>,
) -> bool {
    forall|e: int|
        0 <= e < remaining.len() && #[trigger] remaining[e] ==> {
            &&& nodes[work[e].0 as int].comps@.contains(g.edges@[e].0)
            &&& nodes[work[e].1 as int].comps@.contains(g.edges@[e].1)
        }
}

/// Each discarded edge has become internal: one super-vertex holds both of
/// its original endpoints.
pub open spec fn internal_ok(g: Graph, nodes: Seq<Node>, remaining: Seq<bool>) -> bool {
    forall|e: int|
        0 <= e < remaining.len() && !(#[trigger] remaining[e]) ==> exists|j: int|
            0 <= j < nodes.len() && #[trigger] nodes[j].comps@.contains(g.edges@[e].0)
                && nodes[j].comps@.contains(g.edges@[e].1)
}

/// The state a trial's contraction keeps intact from merge to merge.
pub open spec fn contraction_inv(
    g: Graph,
    nodes: Seq<Node>,
    work: Seq<(usize, usize)>,
    remaining: Seq<bool>,
) -> bool {
    &&& nodes.len() == g.n
    &&& work.len() == g.edges@.len()
    &&& remaining.len() == g.edges@.len()
    &&& adj_ok(nodes, work, remaining)
    &&& edges_nodup_ok(nodes)
    &&& remaining_ok(nodes, work, remaining)
    &&& comps_entries_ok(g, nodes)
    &&& comps_nodup_ok(nodes)
    &&& comps_disjoint_ok(nodes)
    &&& comps_cover_ok(g, nodes)
    &&& origins_ok(g, nodes, work, remaining)
    &&& internal_ok(g, nodes, remaining)
}

/// Three non-empty groups of vertices, pairwise disjoint, holding exactly
/// the non-isolated vertices, that no edge crosses: such a split exists
/// exactly when the non-isolated part of the graph falls into three or more
/// connected components, and then no sequence of contractions can reach two
/// super-vertices.
pub open spec fn three_way_split(g: Graph, s1: Set<usize>, s2: Set<usize>, s3: Set<usize>) -> bool {
    &&& exists|v: usize| s1.contains(v)
    &&& exists|v: usize| s2.contains(v)
    &&& exists|v: usize| s3.contains(v)
    &&& forall|v: usize| !(s1.contains(v) && s2.contains(v))
    &&& forall|v: usize| !(s1.contains(v) && s3.contains(v))
    &&& forall|v: usize| !(s2.contains(v) && s3.contains(v))
    &&& forall|v: usize|
        (s1.contains(v) || s2.contains(v) || s3.contains(v)) <==> g.non_isolated(v)
    &&& forall|i: int|
        0 <= i < g.edges@.len() ==> {
            let a = (#[trigger] g.edges@[i]).0;
            let b = g.edges@[i].1;
            ||| (s1.contains(a) && s1.contains(b))
            ||| (s2.contains(a) && s2.contains(b))
            ||| (s3.contains(a) && s3.contains(b))
        }
}

pub open spec fn has_three_way_split(g: Graph) -> bool {
    exists|s1: Set<usize>, s2: Set<usize>, s3: Set<usize>| three_way_split(g, s1, s2, s3)
}

/// The first `index` entries of the random order have all been drawn, and
/// each edge so drawn has been discarded.
#[verifier::opaque]
pub open spec fn drawn_dead(perm: Seq<usize>, remaining: Seq<bool>, index: int) -> bool {
    forall|t: int| 0 <= t < index ==> !remaining[(#[trigger] perm[t]) as int]
}

proof fn lemma_count_live_bounds(s: Seq<Node>)
    ensures
        0 <= count_live(s) <= s.len(),
    decreases s.len(),
{
    if s.len() > 0 {
        lemma_count_live_bounds(s.drop_last());
    }
}

proof fn lemma_count_live_update(s: Seq<Node>, j: int, nd: Node)
    requires
        0 <= j < s.len(),
    ensures
        count_live(s.update(j, nd)) == count_live(s) + (if live(nd) {
            1int
        } else {
            0int
        }) - (if live(s[j]) {
            1int
        } else {
            0int
        }),
    decreases s.len(),
{
    let t = s.update(j, nd);
    if j == s.len() - 1 {
        assert(t.drop_last() =~= s.drop_last());
        assert(t.last() == nd);
    } else {
        assert(t.drop_last() =~= s.drop_last().update(j, nd));
        lemma_count_live_update(s.drop_last(), j, nd);
        assert(t.last() == s.last());
    }
}

proof fn lemma_count_live_push(s: Seq<Node>, nd: Node)
    ensures
        count_live(s.push(nd)) == count_live(s) + (if live(nd) {
            1int
        } else {
            0int
        }),
{
    assert(s.push(nd).drop_last() =~= s);
}

proof fn lemma_live_index_count(s: Seq<Node>, i: int)
    requires
        0 <= i < s.len(),
        live(s[i]),
    ensures
        count_live(s) >= 1,
    decreases s.len(),
{
    if i == s.len() - 1 {
        lemma_count_live_bounds(s.drop_last());
    } else {
        lemma_live_index_count(s.drop_last(), i);
    }
}

proof fn lemma_two_live_count(s: Seq<Node>, i: int, j: int)
    requires
        0 <= i < j < s.len(),
        live(s[i]),
        live(s[j]),
    ensures
        count_live(s) >= 2,
    decreases s.len(),
{
    if j == s.len() - 1 {
        lemma_live_index_count(s.drop_last(), i);
    } else {
        lemma_two_live_count(s.drop_last(), i, j);
    }
}

proof fn lemma_three_live_count_sorted(s: Seq<Node>, i: int, j: int, k: int)
    requires
        0 <= i < j < k < s.len(),
        live(s[i]),
        live(s[j]),
        live(s[k]),
    ensures
        count_live(s) >= 3,
    decreases s.len(),
{
    if k == s.len() - 1 {
        lemma_two_live_count(s.drop_last(), i, j);
    } else {
        lemma_three_live_count_sorted(s.drop_last(), i, j, k);
    }
}

proof fn lemma_three_live_count(s: Seq<Node>, i: int, j: int, k: int)
    requires
        0 <= i < s.len(),
        0 <= j < s.len(),
        0 <= k < s.len(),
        i != j,
        i != k,
        j != k,
        live(s[i]),
        live(s[j]),
        live(s[k]),
    ensures
        count_live(s) >= 3,
{
    if i < j {
        if j < k {
            lemma_three_live_count_sorted(s, i, j, k);
        } else if i < k {
            lemma_three_live_count_sorted(s, i, k, j);
        } else {
            lemma_three_live_count_sorted(s, k, i, j);
        }
    } else {
        if i < k {
            lemma_three_live_count_sorted(s, j, i, k);
        } else if j < k {
            lemma_three_live_count_sorted(s, j, k, i);
        } else {
            lemma_three_live_count_sorted(s, k, j, i);
        }
    }
}

proof fn lemma_count_exists_live(s: Seq<Node>)
    requires
        count_live(s) >= 1,
    ensures
        exists|i: int| 0 <= i < s.len() && live(s[i]),
    decreases s.len(),
{
    if live(s.last()) {
        assert(0 <= s.len() - 1 < s.len() && live(s[s.len() - 1]));
    } else {
        lemma_count_exists_live(s.drop_last());
        let i = choose|i: int| 0 <= i < s.drop_last().len() && live(s.drop_last()[i]);
        assert(0 <= i < s.len() && live(s[i]));
    }
}

proof fn lemma_count_exists_two_live(s: Seq<Node>)
    requires
        count_live(s) >= 2,
    ensures
        exists|i: int, j: int| 0 <= i < j < s.len() && live(s[i]) && live(s[j]),
    decreases s.len(),
{
    if live(s.last()) {
        lemma_count_exists_live(s.drop_last());
        let i = choose|i: int| 0 <= i < s.drop_last().len() && live(s.drop_last()[i]);
        assert(0 <= i < s.len() - 1 < s.len() && live(s[i]) && live(s[s.len() - 1]));
    } else {
        lemma_count_exists_two_live(s.drop_last());
        let (i, j) = choose|i: int, j: int|
            0 <= i < j < s.drop_last().len() && live(s.drop_last()[i]) && live(s.drop_last()[j]);
        assert(0 <= i < j < s.len() && live(s[i]) && live(s[j]));
    }
}

proof fn lemma_count_exists_three_live(s: Seq<Node>)
    requires
        count_live(s) >= 3,
    ensures
        exists|i: int, j: int, k: int|
            0 <= i < j < k < s.len() && live(s[i]) && live(s[j]) && live(s[k]),
    decreases s.len(),
{
    if live(s.last()) {
        lemma_count_exists_two_live(s.drop_last());
        let (i, j) = choose|i: int, j: int|
            0 <= i < j < s.drop_last().len() && live(s.drop_last()[i]) && live(s.drop_last()[j]);
        assert(0 <= i < j < s.len() - 1 < s.len() && live(s[i]) && live(s[j]) && live(
            s[s.len() - 1],
        ));
    } else {
        lemma_count_exists_three_live(s.drop_last());
        let (i, j, k) = choose|i: int, j: int, k: int|
            0 <= i < j < k < s.drop_last().len() && live(s.drop_last()[i]) && live(
                s.drop_last()[j],
            ) && live(s.drop_last()[k]);
        assert(0 <= i < j < k < s.len() && live(s[i]) && live(s[j]) && live(s[k]));
    }
}

/// A duplicate-free sequence of m indices below m holds every index below m.
proof fn lemma_perm_covers(p: Seq<usize>, x: usize)
    requires
        no_dups(p),
        forall|t: int| 0 <= t < p.len() ==> (#[trigger] p[t]) < p.len(),
        (x as int) < p.len(),
    ensures
        p.contains(x),
{
    let m = p.len() as int;
    let f = |v: usize| v as int;
    let pi = p.map_values(f);
    assert(p.no_duplicates());
    p.lemma_no_duplicates_injective(f);
    pi.unique_seq_to_set();
    let r = vstd::set_lib::set_int_range(0, m);
    vstd::set_lib::lemma_int_range(0, m);
    assert(pi.to_set().subset_of(r)) by {
        assert forall|y: int| pi.to_set().contains(y) implies r.contains(y) by {
            let t = choose|t: int| 0 <= t < pi.len() && pi[t] == y;
            assert(pi[t] == p[t] as int);
        }
    }
    if !p.contains(x) {
        assert(!pi.contains(x as int)) by {
            if pi.contains(x as int) {
                let t = choose|t: int| 0 <= t < pi.len() && pi[t] == x as int;
                assert(pi[t] == p[t] as int);
                assert(p[t] == x);
            }
        }
        assert(!pi.to_set().contains(x as int));
        assert(r.contains(x as int));
        pi.to_set().lemma_subset_not_in_lt(r, x as int);
        assert(false);
    }
}

/// One contraction step: the super-vertex `v` is absorbed into the surviving
/// super-vertex `u`, the two being joined by the surviving edge `edge_index`.
/// Edges that join the two become internal and are discarded; every other
/// edge of `v` is rewritten to end at `u`.
#[verifier::loop_isolation(false)]
#[verifier::rlimit(100)]
fn merge_nodes(
    g: &Graph,
    nodes: &mut Vec<Node>,
    work: &mut Vec<(usize, usize)>,
    remaining: &mut Vec<bool>,
    u: usize,
    v: usize,
    edge_index: usize,
)
    requires
        contraction_inv(*g, old(nodes)@, old(work)@, old(remaining)@),
        (edge_index as int) < old(remaining)@.len(),
        old(remaining)@[edge_index as int],
        spec_joins(old(work)@[edge_index as int], u, v),
        u != v,
    ensures
        contraction_inv(*g, final(nodes)@, final(work)@, final(remaining)@),
        count_live(final(nodes)@) == count_live(old(nodes)@) - 1,
        final(nodes)@.len() == old(nodes)@.len(),
        forall|e: int|
            0 <= e < old(remaining)@.len() && #[trigger] final(remaining)@[e] ==> old(
                remaining,
            )@[e],
        !final(remaining)@[edge_index as int],
{
    let ghost n0 = old(nodes)@;
    let ghost w0 = old(work)@;
    let ghost r0 = old(remaining)@;
    proof {
        assert(edge_ok(n0, w0, edge_index as int));
        assert(live(n0[u as int]) && live(n0[v as int]));
        assert(old(work).len() == w0.len());
        assert(old(remaining).len() == r0.len());
        assert(w0.len() <= usize::MAX);
        assert(r0.len() <= usize::MAX);
    }
    // detach the absorbed node's lists; it is dead from here on
    let mut comps_v: Vec<usize> = Vec::new();
    let mut edges_v: Vec<usize> = Vec::new();
    core::mem::swap(&mut comps_v, &mut nodes[v].comps);
    core::mem::swap(&mut edges_v, &mut nodes[v].edges);
    // detach the survivor's edge list; it is rebuilt below
    let mut edges_u: Vec<usize> = Vec::new();
    core::mem::swap(&mut edges_u, &mut nodes[u].edges);
    // the survivor takes over the absorbed node's vertices
    nodes[u].comps.append(&mut comps_v);

    let ghost eu = edges_u@;
    let ghost ev = edges_v@;
    let ghost nmid = nodes@;
    proof {
        assert(eu == n0[u as int].edges@);
        assert(ev == n0[v as int].edges@);
        assert(nmid.len() == n0.len());
        assert(nmid[u as int].comps@ == n0[u as int].comps@ + n0[v as int].comps@);
        assert(nmid[u as int].edges@ =~= Seq::<usize>::empty());
        assert(nmid[v as int].comps@ =~= Seq::<usize>::empty());
        assert(nmid[v as int].edges@ =~= Seq::<usize>::empty());
        assert(forall|j: int| 0 <= j < n0.len() && j != u && j != v ==> nmid[j] == n0[j]);
    }

    // keep, of the two edge lists, the edges that do not join u and v
    let mut kept: Vec<usize> = Vec::new();
    let mut k1: usize = 0;
    while k1 < edges_u.len()
        invariant
            k1 <= eu.len(),
            nodes@ == nmid,
            work@ == w0,
            remaining@ == r0,
            forall|t: int|
                0 <= t < kept@.len() ==> eu.take(k1 as int).contains(#[trigger] kept@[t])
                    && !spec_joins(w0[kept@[t] as int], u, v),
            forall|t: int|
                0 <= t < k1 && !spec_joins(w0[(#[trigger] eu[t]) as int], u, v)
                    ==> kept@.contains(eu[t]),
            no_dups(kept@),
        decreases eu.len() - k1,
    {
        let x: usize = edges_u[k1];
        proof {
            assert(n0[u as int].edges@[k1 as int] == x);
        }
        let ghost kprev = kept@;
        let p = work[x];
        if !((p.0 == u && p.1 == v) || (p.0 == v && p.1 == u)) {
            proof {
                if kept@.contains(x) {
                    let t = choose|t: int| 0 <= t < kept@.len() && kept@[t] == x;
                    assert(eu.take(k1 as int).contains(x));
                    let t2 = choose|t2: int| 0 <= t2 < k1 && eu.take(k1 as int)[t2] == x;
                    assert(eu[t2] == eu[k1 as int]);
                    assert(no_dups(n0[u as int].edges@));
                    assert(false);
                }
            }
            kept.push(x);
            proof {
                assert forall|y: usize| #[trigger] kprev.contains(y) implies kept@.contains(
                    y,
                ) by {
                    let t = choose|t: int| 0 <= t < kprev.len() && kprev[t] == y;
                    assert(kept@[t] == y);
                }
                assert(kept@[kprev.len() as int] == x);
                assert(kept@.contains(x));
            }
        }
        proof {
            assert(eu.take(k1 as int + 1) =~= eu.take(k1 as int).push(eu[k1 as int]));
            assert forall|y: usize| #[trigger] eu.take(k1 as int).contains(y) implies eu.take(
                k1 as int + 1,
            ).contains(y) by {
                let t = choose|t: int|
                    0 <= t < eu.take(k1 as int).len() && eu.take(k1 as int)[t] == y;
                assert(eu.take(k1 as int + 1)[t] == y);
            }
            assert(eu.take(k1 as int + 1)[k1 as int] == x);
            assert(eu.take(k1 as int + 1).contains(x));
        }
        k1 += 1;
    }

    // the absorbed node's edges: drop those that join u and v, point the
    // rest at the survivor
    let mut k2: usize = 0;
    while k2 < edges_v.len()
        invariant
            k2 <= ev.len(),
            nodes@ == nmid,
            work@.len() == w0.len(),
            remaining@.len() == r0.len(),
            forall|e: int|
                0 <= e < w0.len() ==> #[trigger] work@[e] == (if ev.take(k2 as int).contains(
                    e as usize,
                ) && !spec_joins(w0[e], u, v) {
                    rw_pair(w0[e], u, v)
                } else {
                    w0[e]
                }),
            forall|e: int|
                0 <= e < r0.len() ==> #[trigger] remaining@[e] == (if ev.take(k2 as int).contains(
                    e as usize,
                ) && spec_joins(w0[e], u, v) {
                    false
                } else {
                    r0[e]
                }),
            forall|t: int|
                0 <= t < kept@.len() ==> ((eu.contains(#[trigger] kept@[t]) || ev.take(
                    k2 as int,
                ).contains(kept@[t])) && !spec_joins(w0[kept@[t] as int], u, v)),
            forall|t: int|
                0 <= t < eu.len() && !spec_joins(w0[(#[trigger] eu[t]) as int], u, v)
                    ==> kept@.contains(eu[t]),
            forall|t: int|
                0 <= t < k2 && !spec_joins(w0[(#[trigger] ev[t]) as int], u, v)
                    ==> kept@.contains(ev[t]),
            no_dups(kept@),
        decreases ev.len() - k2,
    {
        let x: usize = edges_v[k2];
        proof {
            assert(n0[v as int].edges@[k2 as int] == x);
            assert(no_dups(n0[v as int].edges@));
            if ev.take(k2 as int).contains(x) {
                let t = choose|t: int| 0 <= t < k2 && ev.take(k2 as int)[t] == x;
                assert(ev[t] == ev[k2 as int]);
                assert(false);
            }
            assert(work@[x as int] == w0[x as int]);
        }
        let ghost kprev = kept@;
        let ghost wprev = work@;
        let ghost rprev = remaining@;
        let p = work[x];
        if (p.0 == u && p.1 == v) || (p.0 == v && p.1 == u) {
            remaining[x] = false;
        } else {
            proof {
                if kept@.contains(x) {
                    // a second occurrence could only be an edge listed by
                    // both u and v, which would join them
                    assert(eu.contains(x));
                    let t = choose|t: int| 0 <= t < eu.len() && eu[t] == x;
                    assert(n0[u as int].edges@[t] == x);
                    assert(r0[x as int]);
                    assert(edge_ok(n0, w0, x as int));
                    assert(spec_joins(w0[x as int], u, v));
                    assert(false);
                }
            }
            kept.push(x);
            proof {
                assert forall|y: usize| #[trigger] kprev.contains(y) implies kept@.contains(
                    y,
                ) by {
                    let t = choose|t: int| 0 <= t < kprev.len() && kprev[t] == y;
                    assert(kept@[t] == y);
                }
                assert(kept@[kprev.len() as int] == x);
                assert(kept@.contains(x));
            }
            if p.0 == v {
                work[x] = (u, p.1);
            } else {
                work[x] = (p.0, u);
            }
        }
        proof {
            assert(ev.take(k2 as int + 1) =~= ev.take(k2 as int).push(ev[k2 as int]));
            assert forall|y: usize| #[trigger] ev.take(k2 as int).contains(y) implies ev.take(
                k2 as int + 1,
            ).contains(y) by {
                let t = choose|t: int|
                    0 <= t < ev.take(k2 as int).len() && ev.take(k2 as int)[t] == y;
                assert(ev.take(k2 as int + 1)[t] == y);
            }
            assert forall|y: usize| #[trigger] ev.take(k2 as int + 1).contains(y) implies ev.take(
                k2 as int,
            ).contains(y) || y == x by {
                let t = choose|t: int|
                    0 <= t < k2 + 1 && #[trigger] ev.take(k2 as int + 1)[t] == y;
                if t < k2 {
                    assert(ev.take(k2 as int)[t] == y);
                }
            }
            assert(ev.take(k2 as int + 1)[k2 as int] == x);
            assert(ev.take(k2 as int + 1).contains(x));
            assert forall|e: int| 0 <= e < w0.len() implies work@[e] == (if ev.take(
                k2 as int + 1,
            ).contains(e as usize) && !spec_joins(w0[e], u, v) {
                rw_pair(w0[e], u, v)
            } else {
                w0[e]
            }) by {
                if e != x as int {
                    assert(work@[e] == wprev[e]);
                }
            }
            assert forall|e: int| 0 <= e < r0.len() implies remaining@[e] == (if ev.take(
                k2 as int + 1,
            ).contains(e as usize) && spec_joins(w0[e], u, v) {
                false
            } else {
                r0[e]
            }) by {
                if e != x as int {
                    assert(remaining@[e] == rprev[e]);
                }
            }
        }
        k2 += 1;
    }

    // install the survivor's rebuilt edge list
    core::mem::swap(&mut kept, &mut nodes[u].edges);

    let ghost n1 = nodes@;
    let ghost w1 = work@;
    let ghost r1 = remaining@;
    let ghost kf = n1[u as int].edges@;
    proof {
        assert(ev.take(ev.len() as int) =~= ev);
        assert(n1.len() == n0.len());
        assert(n1[u as int].comps@ == n0[u as int].comps@ + n0[v as int].comps@);
        assert(n1[v as int].comps@ =~= Seq::<usize>::empty());
        assert(n1[v as int].edges@ =~= Seq::<usize>::empty());
        assert(forall|j: int| 0 <= j < n0.len() && j != u && j != v ==> n1[j] == n0[j]);

        // a kept edge listed by u and by v would join them
        assert forall|e: usize| eu.contains(e) && ev.contains(e) implies spec_joins(
            w0[e as int],
            u,
            v,
        ) by {
            let t = choose|t: int| 0 <= t < eu.len() && eu[t] == e;
            assert(n0[u as int].edges@[t] == e);
            let t2 = choose|t2: int| 0 <= t2 < ev.len() && ev[t2] == e;
            assert(n0[v as int].edges@[t2] == e);
            assert(r0[e as int]);
            assert(edge_ok(n0, w0, e as int));
        }

        // everything either of the two held flows into the survivor
        assert forall|x: usize|
            n0[u as int].comps@.contains(x) || n0[v as int].comps@.contains(
                x,
            ) implies n1[u as int].comps@.contains(x) by {
            let cu = n0[u as int].comps@;
            let cv = n0[v as int].comps@;
            if cu.contains(x) {
                let t = choose|t: int| 0 <= t < cu.len() && cu[t] == x;
                assert((cu + cv)[t] == x);
            } else {
                let t = choose|t: int| 0 <= t < cv.len() && cv[t] == x;
                assert((cu + cv)[cu.len() + t] == x);
            }
        }

        assert(adj_ok(n1, w1, r1)) by {
            assert forall|j: int, k: int|
                0 <= j < n1.len() && 0 <= k < n1[j].edges@.len() implies {
                let e: usize = #[trigger] n1[j].edges@[k];
                &&& (e as int) < w1.len()
                &&& (e as int) < r1.len()
                &&& r1[e as int]
                &&& (w1[e as int].0 == j || w1[e as int].1 == j)
            } by {
                let e: usize = n1[j].edges@[k];
                if j == u as int {
                    assert(kf[k] == e);
                    assert(!spec_joins(w0[e as int], u, v));
                    if eu.contains(e) {
                        let t = choose|t: int| 0 <= t < eu.len() && eu[t] == e;
                        assert(n0[u as int].edges@[t] == e);
                        assert(!ev.contains(e));
                        assert(w1[e as int] == w0[e as int]);
                    } else {
                        assert(ev.contains(e));
                        let t2 = choose|t2: int| 0 <= t2 < ev.len() && ev[t2] == e;
                        assert(n0[v as int].edges@[t2] == e);
                        assert(r0[e as int]);
                        assert(edge_ok(n0, w0, e as int));
                        assert(w1[e as int] == rw_pair(w0[e as int], u, v));
                    }
                } else if j == v as int {
                    assert(false);
                } else {
                    assert(n1[j] == n0[j]);
                    assert(n0[j].edges@[k] == e);
                    if ev.contains(e) {
                        let t2 = choose|t2: int| 0 <= t2 < ev.len() && ev[t2] == e;
                        assert(n0[v as int].edges@[t2] == e);
                        assert(r0[e as int]);
                        assert(edge_ok(n0, w0, e as int));
                        assert(!spec_joins(w0[e as int], u, v));
                        assert(w1[e as int] == rw_pair(w0[e as int], u, v));
                    } else {
                        assert(w1[e as int] == w0[e as int]);
                    }
                }
            }
        }

        assert(edges_nodup_ok(n1)) by {
            assert forall|j: int| 0 <= j < n1.len() implies no_dups(n1[j].edges@) by {
                if j == u as int {
                    assert(n1[j].edges@ == kf);
                } else if j == v as int {
                } else {
                    assert(n1[j] == n0[j]);
                }
            }
        }

        assert(remaining_ok(n1, w1, r1)) by {
            assert forall|e: int| 0 <= e < r1.len() && r1[e] implies edge_ok(n1, w1, e) by {
                assert(r0[e]);
                assert(edge_ok(n0, w0, e));
                let a: usize = w0[e].0;
                let b: usize = w0[e].1;
                if ev.contains(e as usize) {
                    assert(!spec_joins(w0[e], u, v));
                    let t2 = choose|t2: int| 0 <= t2 < ev.len() && ev[t2] == e as usize;
                    assert(n0[v as int].edges@[t2] == e as usize);
                    assert(a == v || b == v);
                    assert(w1[e] == rw_pair(w0[e], u, v));
                    let w: usize = if a == v {
                        b
                    } else {
                        a
                    };
                    assert(w != v && w != u);
                    assert(w1[e].0 == u && w1[e].1 == w || w1[e].0 == w && w1[e].1 == u);
                    assert(live(n1[u as int]));
                    assert(n1[w as int] == n0[w as int]);
                    assert(live(n1[w as int]));
                    assert(kf.contains(e as usize));
                    assert(n1[w as int].edges@.contains(e as usize));
                } else {
                    assert(w1[e] == w0[e]);
                    if a == v || b == v {
                        assert(n0[v as int].edges@.contains(e as usize));
                        assert(false);
                    }
                    if a == u || b == u {
                        assert(n0[u as int].edges@.contains(e as usize));
                        assert(eu.contains(e as usize));
                        assert(!spec_joins(w0[e], u, v));
                        assert(kf.contains(e as usize));
                        assert(live(n1[u as int]));
                        let w: usize = if a == u {
                            b
                        } else {
                            a
                        };
                        assert(n1[w as int] == n0[w as int]);
                        assert(n1[w as int].edges@.contains(e as usize));
                    } else {
                        assert(n1[a as int] == n0[a as int]);
                        assert(n1[b as int] == n0[b as int]);
                    }
                }
            }
        }

        assert(comps_entries_ok(*g, n1)) by {
            assert forall|j: int, k: int|
                0 <= j < n1.len() && 0 <= k < n1[j].comps@.len() implies (n1[j].comps@[k]) < g.n
                && g.non_isolated(n1[j].comps@[k]) by {
                if j == u as int {
                    let cu = n0[u as int].comps@;
                    let cv = n0[v as int].comps@;
                    if k < cu.len() {
                        assert(n1[j].comps@[k] == cu[k]);
                    } else {
                        assert(n1[j].comps@[k] == cv[k - cu.len()]);
                    }
                } else if j == v as int {
                    assert(false);
                } else {
                    assert(n1[j] == n0[j]);
                }
            }
        }

        assert(comps_nodup_ok(n1)) by {
            assert forall|j: int| 0 <= j < n1.len() implies no_dups(n1[j].comps@) by {
                if j == u as int {
                    let cu = n0[u as int].comps@;
                    let cv = n0[v as int].comps@;
                    assert forall|i1: int, i2: int|
                        0 <= i1 < i2 < n1[j].comps@.len() implies n1[j].comps@[i1]
                        != n1[j].comps@[i2] by {
                        if i1 < cu.len() && i2 >= cu.len() {
                            let x = cu[i1];
                            if n1[j].comps@[i1] == n1[j].comps@[i2] {
                                assert(cu[i1] == cv[i2 - cu.len()]);
                                assert(n0[u as int].comps@.contains(x));
                                assert(n0[v as int].comps@.contains(x));
                                assert(false);
                            }
                        }
                    }
                } else if j == v as int {
                } else {
                    assert(n1[j] == n0[j]);
                }
            }
        }

        assert(comps_disjoint_ok(n1)) by {
            assert forall|j1: int, j2: int, vx: usize|
                0 <= j1 < n1.len() && 0 <= j2 < n1.len() && j1 != j2 && n1[j1].comps@.contains(
                    vx,
                ) implies !(n1[j2].comps@.contains(vx)) by {
                let cu = n0[u as int].comps@;
                let cv = n0[v as int].comps@;
                if n1[j2].comps@.contains(vx) {
                    // find an owner of vx in the old state for each side
                    let o1: int = if j1 == u as int {
                        let t = choose|t: int| 0 <= t < cu.len() + cv.len() && (cu + cv)[t] == vx;
                        if t < cu.len() {
                            u as int
                        } else {
                            v as int
                        }
                    } else {
                        j1
                    };
                    let o2: int = if j2 == u as int {
                        let t = choose|t: int| 0 <= t < cu.len() + cv.len() && (cu + cv)[t] == vx;
                        if t < cu.len() {
                            u as int
                        } else {
                            v as int
                        }
                    } else {
                        j2
                    };
                    assert(n0[o1].comps@.contains(vx)) by {
                        if j1 == u as int {
                            let t = choose|t: int|
                                0 <= t < cu.len() + cv.len() && (cu + cv)[t] == vx;
                            if t < cu.len() {
                                assert(cu[t] == vx);
                            } else {
                                assert(cv[t - cu.len()] == vx);
                            }
                        } else {
                            assert(n1[j1] == n0[j1] || j1 == v as int);
                            assert(j1 != v as int);
                        }
                    }
                    assert(n0[o2].comps@.contains(vx)) by {
                        if j2 == u as int {
                            let t = choose|t: int|
                                0 <= t < cu.len() + cv.len() && (cu + cv)[t] == vx;
                            if t < cu.len() {
                                assert(cu[t] == vx);
                            } else {
                                assert(cv[t - cu.len()] == vx);
                            }
                        } else {
                            assert(j2 != v as int);
                        }
                    }
                    if o1 != o2 {
                        assert(false);
                    } else {
                        // both sides resolve to the same old owner: one of
                        // j1, j2 is u and the other held vx before the merge,
                        // so the old owners differ after all
                        assert(j1 == u as int || j2 == u as int);
                        assert(false);
                    }
                }
            }
        }

        assert(comps_cover_ok(*g, n1)) by {
            assert forall|vx: usize| vx < g.n && g.non_isolated(vx) implies exists|j: int|
                0 <= j < n1.len() && #[trigger] n1[j].comps@.contains(vx) by {
                let j0 = choose|j0: int| 0 <= j0 < n0.len() && #[trigger] n0[j0].comps@.contains(vx);
                let cu = n0[u as int].comps@;
                let cv = n0[v as int].comps@;
                if j0 == v as int {
                    let t = choose|t: int| 0 <= t < cv.len() && cv[t] == vx;
                    assert((cu + cv)[cu.len() + t] == vx);
                    assert(n1[u as int].comps@.contains(vx));
                } else if j0 == u as int {
                    let t = choose|t: int| 0 <= t < cu.len() && cu[t] == vx;
                    assert((cu + cv)[t] == vx);
                    assert(n1[u as int].comps@.contains(vx));
                } else {
                    assert(n1[j0] == n0[j0]);
                    assert(n1[j0].comps@.contains(vx));
                }
            }
        }

        assert(origins_ok(*g, n1, w1, r1)) by {
            assert forall|e: int| 0 <= e < r1.len() && r1[e] implies {
                &&& n1[w1[e].0 as int].comps@.contains(g.edges@[e].0)
                &&& n1[w1[e].1 as int].comps@.contains(g.edges@[e].1)
            } by {
                assert(r0[e]);
                assert(edge_ok(n0, w0, e));
                let oa = g.edges@[e].0;
                let ob = g.edges@[e].1;
                assert(n0[w0[e].0 as int].comps@.contains(oa));
                assert(n0[w0[e].1 as int].comps@.contains(ob));
                if ev.contains(e as usize) {
                    assert(!spec_joins(w0[e], u, v));
                    let t2 = choose|t2: int| 0 <= t2 < ev.len() && ev[t2] == e as usize;
                    assert(n0[v as int].edges@[t2] == e as usize);
                    assert(w1[e] == rw_pair(w0[e], u, v));
                    if w0[e].0 == v {
                        assert(w1[e].0 == u && w1[e].1 == w0[e].1);
                        assert(n1[u as int].comps@.contains(oa));
                        assert(w0[e].1 != v && w0[e].1 != u);
                        assert(n1[w0[e].1 as int] == n0[w0[e].1 as int]);
                    } else {
                        assert(w0[e].1 == v);
                        assert(w1[e].0 == w0[e].0 && w1[e].1 == u);
                        assert(n1[u as int].comps@.contains(ob));
                        assert(w0[e].0 != v && w0[e].0 != u);
                        assert(n1[w0[e].0 as int] == n0[w0[e].0 as int]);
                    }
                } else {
                    assert(w1[e] == w0[e]);
                    if w0[e].0 == v || w0[e].1 == v {
                        assert(n0[v as int].edges@.contains(e as usize));
                        assert(false);
                    }
                    if w0[e].0 == u {
                        assert(n1[u as int].comps@.contains(oa));
                        assert(n1[w0[e].1 as int] == n0[w0[e].1 as int]);
                    } else if w0[e].1 == u {
                        assert(n1[u as int].comps@.contains(ob));
                        assert(n1[w0[e].0 as int] == n0[w0[e].0 as int]);
                    } else {
                        assert(n1[w0[e].0 as int] == n0[w0[e].0 as int]);
                        assert(n1[w0[e].1 as int] == n0[w0[e].1 as int]);
                    }
                }
            }
        }

        assert(internal_ok(*g, n1, r1)) by {
            assert forall|e: int| 0 <= e < r1.len() && !r1[e] implies exists|j: int|
                0 <= j < n1.len() && #[trigger] n1[j].comps@.contains(g.edges@[e].0)
                    && n1[j].comps@.contains(g.edges@[e].1) by {
                let oa = g.edges@[e].0;
                let ob = g.edges@[e].1;
                if !r0[e] {
                    let j0 = choose|j0: int|
                        0 <= j0 < n0.len() && #[trigger] n0[j0].comps@.contains(oa)
                            && n0[j0].comps@.contains(ob);
                    if j0 == u as int || j0 == v as int {
                        assert(n1[u as int].comps@.contains(oa));
                        assert(n1[u as int].comps@.contains(ob));
                    } else {
                        assert(n1[j0] == n0[j0]);
                        assert(n1[j0].comps@.contains(oa) && n1[j0].comps@.contains(ob));
                    }
                } else {
                    // discarded by this very merge: it joined u and v, whose
                    // holdings are now both the survivor's
                    assert(ev.contains(e as usize) && spec_joins(w0[e], u, v));
                    assert(edge_ok(n0, w0, e));
                    assert(n0[w0[e].0 as int].comps@.contains(oa));
                    assert(n0[w0[e].1 as int].comps@.contains(ob));
                    assert(n1[u as int].comps@.contains(oa));
                    assert(n1[u as int].comps@.contains(ob));
                }
            }
        }

        // the drawn edge itself is discarded, and no edge comes back
        assert(edge_ok(n0, w0, edge_index as int));
        assert(ev.contains(edge_index));
        assert(!r1[edge_index as int]);

        // exactly one super-vertex went dead
        assert(n1 =~= n0.update(v as int, n1[v as int]).update(u as int, n1[u as int]));
        lemma_count_live_update(n0, v as int, n1[v as int]);
        lemma_count_live_update(n0.update(v as int, n1[v as int]), u as int, n1[u as int]);
        assert(!live(n1[v as int]));
        assert(live(n1[u as int]));
        assert(n0.update(v as int, n1[v as int])[u as int] == n0[u as int]);
    }
}

/// Relies on `rand::seq::SliceRandom::shuffle`: it permutes the slice in
/// place, so the result holds each index below `m` exactly once.
#[verifier::external_body]
pub fn shuffled_indices(m: usize) -> (r: Vec<usize>)
    ensures
        r@.len() == m,
        no_dups(r@),
        forall|t: int| 0 <= t < r@.len() ==> (#[trigger] r@[t]) < m,
{
    let mut v: Vec<usize> = (0..m).collect();
    v.shuffle(&mut rand::rng());
    v
}

/// The first live super-vertex at or after `start`, if any.
#[verifier::loop_isolation(false)]
fn find_live(nodes: &Vec<Node>, start: usize) -> (r: Option<usize>)
    ensures
        r matches Some(t) ==> start <= t && (t as int) < nodes@.len() && live(nodes@[t as int])
            && (forall|q: int| start <= q < t ==> !live(nodes@[q])),
        r is None ==> forall|q: int| start <= q < nodes@.len() ==> !live(nodes@[q]),
{
    let mut j: usize = start;
    while j < nodes.len()
        invariant
            start <= j,
            forall|q: int| start <= q < j ==> !live(nodes@[q]),
        decreases nodes@.len() - j,
    {
        if nodes[j].comps.len() > 0 {
            return Some(j);
        }
        j += 1;
    }
    None
}

/// One super-vertex per vertex, its edge list holding exactly the edges
/// incident to it, all vertex sets still empty; and the trial's private copy
/// of the endpoint list.
#[verifier::loop_isolation(false)]
#[verifier::rlimit(100)]
fn build_adjacency(g: &Graph) -> (t: (Vec<Node>, Vec<(usize, usize)>))
    requires
        g.wf(),
    ensures
        t.0@.len() == g.n,
        t.1@ == g.edges@,
        forall|jj: int, k: int|
            0 <= jj < t.0@.len() && 0 <= k < t.0@[jj].edges@.len() ==> {
                let e: usize = #[trigger] t.0@[jj].edges@[k];
                &&& (e as int) < g.edges@.len()
                &&& (g.edges@[e as int].0 == jj || g.edges@[e as int].1 == jj)
            },
        forall|e: int|
            0 <= e < g.edges@.len() ==> t.0@[(#[trigger] g.edges@[e]).0 as int].edges@.contains(
                e as usize,
            ) && t.0@[g.edges@[e].1 as int].edges@.contains(e as usize),
        forall|jj: int| 0 <= jj < t.0@.len() ==> no_dups((#[trigger] t.0@[jj]).edges@),
        forall|jj: int| 0 <= jj < t.0@.len() ==> (#[trigger] t.0@[jj]).comps@.len() == 0,
{
    let n = g.n;
    let m = g.edges.len();

    // one super-vertex per vertex, all lists empty to begin with
    let mut nodes: Vec<Node> = Vec::new();
    let mut j: usize = 0;
    while j < n
        invariant
            j <= n,
            nodes@.len() == j,
            forall|t: int|
                0 <= t < j ==> (#[trigger] nodes@[t]).comps@.len() == 0
                    && nodes@[t].edges@.len() == 0,
        decreases n - j,
    {
        nodes.push(Node { comps: Vec::new(), edges: Vec::new() });
        j += 1;
    }

    // record each edge on both its endpoints, and copy the endpoint pairs
    // into this trial's private working list
    let mut work: Vec<(usize, usize)> = Vec::new();
    let mut i: usize = 0;
    while i < m
        invariant
            i <= m,
            nodes@.len() == n,
            work@ == g.edges@.take(i as int),
            forall|jj: int, k: int|
                0 <= jj < nodes@.len() && 0 <= k < nodes@[jj].edges@.len() ==> {
                    let e: usize = #[trigger] nodes@[jj].edges@[k];
                    &&& (e as int) < i
                    &&& (g.edges@[e as int].0 == jj || g.edges@[e as int].1 == jj)
                },
            forall|e: int|
                0 <= e < i ==> nodes@[(#[trigger] g.edges@[e]).0 as int].edges@.contains(e as usize)
                    && nodes@[g.edges@[e].1 as int].edges@.contains(e as usize),
            forall|jj: int| 0 <= jj < nodes@.len() ==> no_dups((#[trigger] nodes@[jj]).edges@),
            forall|jj: int| 0 <= jj < nodes@.len() ==> (#[trigger] nodes@[jj]).comps@.len() == 0,
        decreases m - i,
    {
        let pr = g.edges[i];
        let a = pr.0;
        let b = pr.1;
        let ghost nprev = nodes@;
        nodes[a].edges.push(i);
        nodes[b].edges.push(i);
        work.push(pr);
        proof {
            assert(g.edges@.take(i as int + 1) =~= g.edges@.take(i as int).push(g.edges@[i as int]));
            assert(nodes@[a as int].edges@ == nprev[a as int].edges@.push(i));
            assert(nodes@[b as int].edges@ == nprev[b as int].edges@.push(i));
            assert(forall|jj: int|
                0 <= jj < nprev.len() && jj != a && jj != b ==> nodes@[jj] == nprev[jj]);
            assert forall|jj: int, e: usize|
                0 <= jj < nprev.len() && #[trigger] nprev[jj].edges@.contains(
                    e,
                ) implies nodes@[jj].edges@.contains(e) by {
                let t = choose|t: int|
                    0 <= t < nprev[jj].edges@.len() && nprev[jj].edges@[t] == e;
                assert(nodes@[jj].edges@[t] == e);
            }
            assert(nodes@[a as int].edges@[nprev[a as int].edges@.len() as int] == i);
            assert(nodes@[a as int].edges@.contains(i));
            assert(nodes@[b as int].edges@[nprev[b as int].edges@.len() as int] == i);
            assert(nodes@[b as int].edges@.contains(i));
        }
        i += 1;
    }
    proof {
        assert(work@ =~= g.edges@);
    }
    (nodes, work)
}

/// Seed each vertex that touches an edge as a live singleton super-vertex
/// and count the live ones; isolated vertices stay empty and take no part.
#[verifier::loop_isolation(false)]
#[verifier::rlimit(100)]
fn mark_live(g: &Graph, nodes: &mut Vec<Node>) -> (remaining_nodes: usize)
    requires
        old(nodes)@.len() == g.n,
        forall|jj: int|
            0 <= jj < old(nodes)@.len() ==> (#[trigger] old(nodes)@[jj]).comps@.len() == 0,
    ensures
        final(nodes)@.len() == g.n,
        forall|jj: int|
            0 <= jj < g.n ==> (#[trigger] final(nodes)@[jj]).edges@ == old(nodes)@[jj].edges@,
        forall|jj: int|
            0 <= jj < g.n ==> (#[trigger] final(nodes)@[jj]).comps@ == (if old(
                nodes,
            )@[jj].edges@.len() > 0 {
                seq![jj as usize]
            } else {
                Seq::<usize>::empty()
            }),
        count_live(final(nodes)@) == remaining_nodes as int,
        remaining_nodes <= g.n,
{
    let n = g.n;
    let mut remaining_nodes: usize = 0;
    let mut j: usize = 0;
    while j < n
        invariant
            j <= n,
            nodes@.len() == n,
            remaining_nodes <= j,
            remaining_nodes as int == count_live(nodes@.take(j as int)),
            forall|t: int| 0 <= t < n ==> (#[trigger] nodes@[t]).edges@ == old(nodes)@[t].edges@,
            forall|t: int|
                0 <= t < j ==> (#[trigger] nodes@[t]).comps@ == (if nodes@[t].edges@.len() > 0 {
                    seq![t as usize]
                } else {
                    Seq::<usize>::empty()
                }),
            forall|t: int| j <= t < n ==> (#[trigger] nodes@[t]).comps@.len() == 0,
        decreases n - j,
    {
        let ghost nprev = nodes@;
        let alive = nodes[j].edges.len() > 0;
        if alive {
            nodes[j].comps.push(j);
            remaining_nodes += 1;
        }
        proof {
            assert(forall|t: int| 0 <= t < n && t != j ==> nodes@[t] == nprev[t]);
            assert(nodes@[j as int].edges@ == nprev[j as int].edges@);
            if alive {
                assert(nodes@[j as int].comps@ =~= seq![j]);
            }
            assert(nodes@.take(j as int) =~= nprev.take(j as int));
            assert(nodes@.take(j as int + 1) =~= nodes@.take(j as int).push(nodes@[j as int]));
            lemma_count_live_push(nodes@.take(j as int), nodes@[j as int]);
        }
        j += 1;
    }
    proof {
        assert(nodes@.take(n as int) =~= nodes@);
    }
    remaining_nodes
}

/// The freshly seeded state satisfies the contraction invariant, and a
/// super-vertex is live exactly when its vertex is non-isolated.
#[verifier::rlimit(100)]
proof fn lemma_setup_inv(g: Graph, nodes: Seq<Node>, work: Seq<(usize, usize)>, remaining: Seq<
    bool,
>)
    requires
        g.wf(),
        nodes.len() == g.n,
        work == g.edges@,
        remaining.len() == g.edges@.len(),
        forall|e: int| 0 <= e < remaining.len() ==> #[trigger] remaining[e],
        forall|jj: int, k: int|
            0 <= jj < nodes.len() && 0 <= k < nodes[jj].edges@.len() ==> {
                let e: usize = #[trigger] nodes[jj].edges@[k];
                &&& (e as int) < g.edges@.len()
                &&& (g.edges@[e as int].0 == jj || g.edges@[e as int].1 == jj)
            },
        forall|e: int|
            0 <= e < g.edges@.len() ==> nodes[(#[trigger] g.edges@[e]).0 as int].edges@.contains(
                e as usize,
            ) && nodes[g.edges@[e].1 as int].edges@.contains(e as usize),
        forall|jj: int| 0 <= jj < nodes.len() ==> no_dups((#[trigger] nodes[jj]).edges@),
        forall|jj: int|
            0 <= jj < nodes.len() ==> (#[trigger] nodes[jj]).comps@ == (if nodes[jj].edges@.len()
                > 0 {
                seq![jj as usize]
            } else {
                Seq::<usize>::empty()
            }),
    ensures
        contraction_inv(g, nodes, work, remaining),
        forall|j: int| 0 <= j < g.n ==> (live(nodes[j]) <==> g.non_isolated(j as usize)),
{
    assert forall|t: int| 0 <= t < g.n implies (live(nodes[t]) <==> g.non_isolated(
        t as usize,
    )) by {
        if nodes[t].edges@.len() > 0 {
            let e: usize = nodes[t].edges@[0];
            assert(g.edges@[e as int].0 == t || g.edges@[e as int].1 == t);
            assert(g.non_isolated(t as usize));
        }
        if g.non_isolated(t as usize) {
            let e = choose|e: int|
                0 <= e < g.edges@.len() && ((#[trigger] g.edges@[e]).0 == t as usize
                    || g.edges@[e].1 == t as usize);
            assert(nodes[t].edges@.contains(e as usize));
        }
    }
    assert(adj_ok(nodes, work, remaining));
    assert(remaining_ok(nodes, work, remaining)) by {
        assert forall|e: int| 0 <= e < remaining.len() && remaining[e] implies edge_ok(
            nodes,
            work,
            e,
        ) by {
            let a: usize = g.edges@[e].0;
            let b: usize = g.edges@[e].1;
            assert(nodes[a as int].edges@.contains(e as usize));
            assert(nodes[b as int].edges@.contains(e as usize));
            assert(nodes[a as int].edges@.len() > 0);
            assert(nodes[b as int].edges@.len() > 0);
            assert(live(nodes[a as int]));
            assert(live(nodes[b as int]));
        }
    }
    assert(comps_entries_ok(g, nodes)) by {
        assert forall|j: int, k: int|
            0 <= j < nodes.len() && 0 <= k < nodes[j].comps@.len() implies (
        #[trigger] nodes[j].comps@[k]) < g.n && g.non_isolated(nodes[j].comps@[k]) by {
            assert(nodes[j].edges@.len() > 0);
            assert(nodes[j].comps@[k] == j as usize);
            let e: usize = nodes[j].edges@[0];
            assert(g.edges@[e as int].0 == j || g.edges@[e as int].1 == j);
        }
    }
    assert(comps_nodup_ok(nodes)) by {
        assert forall|j: int| 0 <= j < nodes.len() implies no_dups(nodes[j].comps@) by {
            assert(nodes[j].comps@.len() <= 1);
        }
    }
    assert(comps_disjoint_ok(nodes)) by {
        assert forall|j1: int, j2: int, vx: usize|
            0 <= j1 < nodes.len() && 0 <= j2 < nodes.len() && j1 != j2
                && nodes[j1].comps@.contains(vx) implies !(nodes[j2].comps@.contains(vx)) by {
            let t1 = choose|t1: int| 0 <= t1 < nodes[j1].comps@.len() && nodes[j1].comps@[t1] == vx;
            assert(vx == j1 as usize);
            if nodes[j2].comps@.contains(vx) {
                let t2 = choose|t2: int|
                    0 <= t2 < nodes[j2].comps@.len() && nodes[j2].comps@[t2] == vx;
                assert(vx == j2 as usize);
                assert(false);
            }
        }
    }
    assert(comps_cover_ok(g, nodes)) by {
        assert forall|vx: usize| vx < g.n && g.non_isolated(vx) implies exists|j: int|
            0 <= j < nodes.len() && #[trigger] nodes[j].comps@.contains(vx) by {
            let e = choose|e: int|
                0 <= e < g.edges@.len() && ((#[trigger] g.edges@[e]).0 == vx || g.edges@[e].1
                    == vx);
            assert(nodes[vx as int].edges@.contains(e as usize));
            assert(nodes[vx as int].edges@.len() > 0);
            assert(nodes[vx as int].comps@ == seq![vx]);
            assert(nodes[vx as int].comps@[0] == vx);
            assert(nodes[vx as int].comps@.contains(vx));
        }
    }
    assert(origins_ok(g, nodes, work, remaining)) by {
        assert forall|e: int| 0 <= e < remaining.len() && remaining[e] implies {
            &&& nodes[work[e].0 as int].comps@.contains(g.edges@[e].0)
            &&& nodes[work[e].1 as int].comps@.contains(g.edges@[e].1)
        } by {
            let a: usize = g.edges@[e].0;
            let b: usize = g.edges@[e].1;
            assert(nodes[a as int].edges@.contains(e as usize));
            assert(nodes[a as int].edges@.len() > 0);
            assert(nodes[a as int].comps@ == seq![a]);
            assert(nodes[a as int].comps@[0] == a);
            assert(nodes[a as int].comps@.contains(a));
            assert(nodes[b as int].edges@.contains(e as usize));
            assert(nodes[b as int].edges@.len() > 0);
            assert(nodes[b as int].comps@ == seq![b]);
            assert(nodes[b as int].comps@[0] == b);
            assert(nodes[b as int].comps@.contains(b));
        }
    }
    assert(internal_ok(g, nodes, remaining));
}

/// A trial's private starting state: one super-vertex per vertex, each
/// non-isolated vertex standing for itself, every edge surviving, and the
/// live count alongside.
#[verifier::rlimit(100)]
fn trial_setup(g: &Graph) -> (t: (Vec<Node>, Vec<(usize, usize)>, Vec<bool>, usize))
    requires
        g.wf(),
    ensures
        contraction_inv(*g, t.0@, t.1@, t.2@),
        count_live(t.0@) == t.3 as int,
        forall|j: int| 0 <= j < g.n ==> (live(t.0@[j]) <==> g.non_isolated(j as usize)),
{
    let (mut nodes, work) = build_adjacency(g);
    let ghost nb = nodes@;
    let remaining_nodes = mark_live(g, &mut nodes);
    // every edge survives to begin with
    let remaining: Vec<bool> = vec![true; g.edges.len()];
    proof {
        assert(forall|jj: int| 0 <= jj < g.n ==> (#[trigger] nodes@[jj]).edges@ == nb[jj].edges@);
        assert forall|jj: int, k: int|
            0 <= jj < nodes@.len() && 0 <= k < nodes@[jj].edges@.len() implies {
            let e: usize = #[trigger] nodes@[jj].edges@[k];
            &&& (e as int) < g.edges@.len()
            &&& (g.edges@[e as int].0 == jj || g.edges@[e as int].1 == jj)
        } by {
            assert(nodes@[jj].edges@ == nb[jj].edges@);
            assert(nb[jj].edges@[k] == nodes@[jj].edges@[k]);
        }
        assert forall|e: int| 0 <= e < g.edges@.len() implies nodes@[(
        #[trigger] g.edges@[e]).0 as int].edges@.contains(e as usize) && nodes@[g.edges@[
            e
        ].1 as int].edges@.contains(e as usize) by {
            assert(nodes@[g.edges@[e].0 as int].edges@ == nb[g.edges@[e].0 as int].edges@);
            assert(nodes@[g.edges@[e].1 as int].edges@ == nb[g.edges@[e].1 as int].edges@);
        }
        assert forall|jj: int| 0 <= jj < nodes@.len() implies no_dups(
            (#[trigger] nodes@[jj]).edges@,
        ) by {
            assert(nodes@[jj].edges@ == nb[jj].edges@);
        }
        lemma_setup_inv(*g, nodes@, work@, remaining@);
    }
    (nodes, work, remaining, remaining_nodes)
}

/// Fewer than two live super-vertices means fewer than two non-isolated
/// vertices.
proof fn lemma_few_live_no_two(g: Graph, nodes: Seq<Node>)
    requires
        g.wf(),
        nodes.len() == g.n,
        forall|j: int| 0 <= j < g.n ==> (live(nodes[j]) <==> g.non_isolated(j as usize)),
        count_live(nodes) < 2,
    ensures
        !g.has_two_non_isolated(),
{
    if g.has_two_non_isolated() {
        let (a, b) = choose|a: usize, b: usize|
            a != b && #[trigger] g.non_isolated(a) && #[trigger] g.non_isolated(b);
        assert((a as int) < g.n) by {
            let i = choose|i: int|
                0 <= i < g.edges@.len() && ((#[trigger] g.edges@[i]).0 == a || g.edges@[i].1 == a);
        }
        assert((b as int) < g.n) by {
            let i = choose|i: int|
                0 <= i < g.edges@.len() && ((#[trigger] g.edges@[i]).0 == b || g.edges@[i].1 == b);
        }
        assert(live(nodes[a as int]) && live(nodes[b as int]));
        if a < b {
            lemma_two_live_count(nodes, a as int, b as int);
        } else {
            lemma_two_live_count(nodes, b as int, a as int);
        }
        assert(false);
    }
}

/// Two live super-vertices witness two distinct non-isolated vertices.
proof fn lemma_two_live_has_two(g: Graph, nodes: Seq<Node>)
    requires
        nodes.len() == g.n,
        forall|j: int| 0 <= j < g.n ==> (live(nodes[j]) <==> g.non_isolated(j as usize)),
        count_live(nodes) >= 2,
    ensures
        g.has_two_non_isolated(),
{
    lemma_count_exists_two_live(nodes);
    let (i1, j1) = choose|i1: int, j1: int|
        0 <= i1 < j1 < nodes.len() && live(nodes[i1]) && live(nodes[j1]);
    assert(g.non_isolated(i1 as usize) && g.non_isolated(j1 as usize));
    assert(i1 as usize != j1 as usize);
}

/// The two surviving super-vertices, pulled out of the arena once exactly
/// two are live.
#[verifier::loop_isolation(false)]
#[verifier::rlimit(100)]
fn extract_cut(g: &Graph, nodes: Vec<Node>) -> (r: Result<Cut, Error>)
    requires
        nodes@.len() == g.n,
        comps_entries_ok(*g, nodes@),
        comps_nodup_ok(nodes@),
        comps_disjoint_ok(nodes@),
        comps_cover_ok(*g, nodes@),
        count_live(nodes@) == 2,
    ensures
        r is Ok,
        r matches Ok(c) ==> c.partitions(*g),
{
    let mut nodes = nodes;
    let ghost n2 = nodes@;
    let fi = match find_live(&nodes, 0) {
        Some(t) => t,
        None => {
            proof {
                lemma_count_exists_live(nodes@);
                assert(false);
            }
            return Err(Error::InvariantViolation);
        },
    };
    let si = match find_live(&nodes, fi + 1) {
        Some(t) => t,
        None => {
            proof {
                lemma_count_exists_two_live(nodes@);
                let (i1, j1) = choose|i1: int, j1: int|
                    0 <= i1 < j1 < nodes@.len() && live(nodes@[i1]) && live(nodes@[j1]);
                assert(i1 >= fi);
                assert(false);
            }
            return Err(Error::InvariantViolation);
        },
    };
    let mut first_node = Node { comps: Vec::new(), edges: Vec::new() };
    let mut second_node = Node { comps: Vec::new(), edges: Vec::new() };
    core::mem::swap(&mut first_node, &mut nodes[fi]);
    core::mem::swap(&mut second_node, &mut nodes[si]);
    let c = Cut { first: first_node, second: second_node };
    proof {
        assert(c.first == n2[fi as int]);
        assert(c.second == n2[si as int]);
        assert(live(n2[fi as int]) && live(n2[si as int]));
        assert forall|vx: usize|
            !(#[trigger] c.first.comps@.contains(vx) && c.second.comps@.contains(vx)) by {
            if c.first.comps@.contains(vx) && c.second.comps@.contains(vx) {
                assert(n2[fi as int].comps@.contains(vx) && n2[si as int].comps@.contains(vx));
                assert(false);
            }
        }
        assert forall|vx: usize|
            vx < g.n && #[trigger] g.non_isolated(vx) implies c.first.comps@.contains(vx)
            || c.second.comps@.contains(vx) by {
            let j3 = choose|j3: int| 0 <= j3 < n2.len() && #[trigger] n2[j3].comps@.contains(vx);
            if j3 != fi && j3 != si {
                assert(live(n2[j3]));
                lemma_three_live_count(n2, fi as int, si as int, j3);
                assert(false);
            }
        }
        assert(c.partitions(*g));
    }
    Ok(c)
}

/// One randomized contraction trial over a caller-supplied random edge
/// order: repeatedly pick the next surviving edge of the order and merge its
/// two super-vertices, until exactly two are left. Their vertex sets
/// partition the non-isolated vertices of the graph.
///
/// Fails with `GraphTooSmall` exactly when fewer than two vertices touch an
/// edge. Fails with `InvariantViolation` only when the order is exhausted
/// while more than two super-vertices remain, and then, as the contract
/// states, the non-isolated vertices split three ways with no edge crossing:
/// the graph's non-isolated part has three or more connected components, and
/// no contraction could have reached two. On a graph without such a split, a
/// cut is therefore owed. The in-loop self-loop check is kept, as the
/// algorithm demands, though on a well-formed graph it can never fire.
#[verifier::loop_isolation(false)]
#[verifier::rlimit(100)]
pub fn simple_cut(g: &Graph, perm: &Vec<usize>) -> (r: Result<Cut, Error>)
    requires
        g.wf(),
        perm@.len() == g.edges@.len(),
        no_dups(perm@),
        forall|t: int| 0 <= t < perm@.len() ==> (#[trigger] perm@[t]) < perm@.len(),
    ensures
        (r == Err::<Cut, Error>(Error::GraphTooSmall) <==> !g.has_two_non_isolated()),
        r matches Ok(c) ==> c.partitions(*g),
        r matches Err(e) ==> e == Error::GraphTooSmall || e == Error::InvariantViolation,
        r == Err::<Cut, Error>(Error::InvariantViolation) ==> has_three_way_split(*g),
{
    let (nodes, work, remaining, remaining_nodes) = trial_setup(g);
    if remaining_nodes < 2 {
        proof {
            lemma_few_live_no_two(*g, nodes@);
        }
        return Err(Error::GraphTooSmall);
    }
    proof {
        lemma_two_live_has_two(*g, nodes@);
    }
    contract_to_two(g, perm, nodes, work, remaining, remaining_nodes)
}

/// The contraction loop itself: draw each edge of the random order in turn,
/// skip the discarded ones, and merge until two super-vertices are left.
#[verifier::loop_isolation(false)]
#[verifier::rlimit(100)]
fn contract_to_two(
    g: &Graph,
    perm: &Vec<usize>,
    nodes: Vec<Node>,
    work: Vec<(usize, usize)>,
    remaining: Vec<bool>,
    live_count: usize,
) -> (r: Result<Cut, Error>)
    requires
        g.wf(),
        perm@.len() == g.edges@.len(),
        no_dups(perm@),
        forall|t: int| 0 <= t < perm@.len() ==> (#[trigger] perm@[t]) < perm@.len(),
        contraction_inv(*g, nodes@, work@, remaining@),
        count_live(nodes@) == live_count as int,
        live_count >= 2,
    ensures
        r matches Ok(c) ==> c.partitions(*g),
        r matches Err(e) ==> e == Error::InvariantViolation && has_three_way_split(*g),
{
    let m = g.edges.len();
    let mut nodes = nodes;
    let mut work = work;
    let mut remaining = remaining;
    let mut remaining_nodes = live_count;
    let mut index: usize = 0;
    proof {
        reveal(drawn_dead);
        assert(drawn_dead(perm@, remaining@, 0));
    }
    while remaining_nodes > 2
        invariant
            contraction_inv(*g, nodes@, work@, remaining@),
            count_live(nodes@) == remaining_nodes as int,
            remaining_nodes >= 2,
            index <= m,
            drawn_dead(perm@, remaining@, index as int),
        decreases m - index,
    {
        if index >= m {
            proof {
                reveal(drawn_dead);
                assert(forall|t: int|
                    0 <= t < perm@.len() ==> !remaining@[(#[trigger] perm@[t]) as int]);
                lemma_exhausted_split(*g, nodes@, work@, remaining@, perm@);
            }
            return Err(Error::InvariantViolation);
        }
        let edge_index = perm[index];
        index += 1;
        if !remaining[edge_index] {
            proof {
                reveal(drawn_dead);
                assert(drawn_dead(perm@, remaining@, index as int));
            }
            continue;
        }
        proof {
            assert(edge_ok(nodes@, work@, edge_index as int));
        }
        let pr = work[edge_index];
        let mut a = pr.0;
        let mut b = pr.1;
        // merge the side with fewer incident edges into the other, which
        // bounds the relabeling work
        if nodes[a].edges.len() < nodes[b].edges.len() {
            let t: usize = a;
            a = b;
            b = t;
        }
        if a == b {
            // a surviving self-loop signals a defect; never skip it
            // silently (on a well-formed graph a surviving edge joins two
            // distinct super-vertices, so this cannot fire)
            proof {
                assert(false);
            }
            return Err(Error::InvariantViolation);
        }
        let ghost rprev = remaining@;
        merge_nodes(g, &mut nodes, &mut work, &mut remaining, a, b, edge_index);
        remaining_nodes -= 1;
        proof {
            reveal(drawn_dead);
            assert forall|t: int| 0 <= t < index implies !remaining@[(
            #[trigger] perm@[t]) as int] by {
                if t == index - 1 {
                    assert(perm@[t] == edge_index);
                } else {
                    assert(!rprev[perm@[t] as int]);
                }
            }
            assert(drawn_dead(perm@, remaining@, index as int));
        }
    }
    extract_cut(g, nodes)
}

/// When the random order runs out while three or more super-vertices are
/// still live, every edge has been drawn once and discarded, so the live
/// super-vertices' holdings split the non-isolated vertices three ways with
/// no edge crossing: the graph's non-isolated part is in at least three
/// pieces.
#[verifier::rlimit(100)]
proof fn lemma_exhausted_split(
    g: Graph,
    nodes: Seq<Node>,
    work: Seq<(usize, usize)>,
    remaining: Seq<bool>,
    perm: Seq<usize>,
)
    requires
        g.wf(),
        contraction_inv(g, nodes, work, remaining),
        count_live(nodes) >= 3,
        perm.len() == g.edges@.len(),
        no_dups(perm),
        forall|t: int| 0 <= t < perm.len() ==> (#[trigger] perm[t]) < perm.len(),
        forall|t: int| 0 <= t < perm.len() ==> !remaining[(#[trigger] perm[t]) as int],
    ensures
        has_three_way_split(g),
{
    // every edge index occurs in the order, so no edge survives
    assert forall|e: int| 0 <= e < remaining.len() implies !remaining[e] by {
        lemma_perm_covers(perm, e as usize);
        let t = choose|t: int| 0 <= t < perm.len() && perm[t] == e as usize;
        assert(!remaining[(perm[t]) as int]);
    }
    lemma_count_exists_three_live(nodes);
    let (j1, j2, j3) = choose|j1: int, j2: int, j3: int|
        0 <= j1 < j2 < j3 < nodes.len() && live(nodes[j1]) && live(nodes[j2]) && live(nodes[j3]);
    let s1 = Set::new(|v: usize| nodes[j1].comps@.contains(v));
    let s2 = Set::new(|v: usize| nodes[j2].comps@.contains(v));
    let s3 = Set::new(
        |v: usize|
            exists|j: int|
                0 <= j < nodes.len() && j != j1 && j != j2 && #[trigger] nodes[j].comps@.contains(
                    v,
                ),
    );
    assert(s1.contains(nodes[j1].comps@[0]));
    assert(s2.contains(nodes[j2].comps@[0]));
    assert(nodes[j3].comps@.contains(nodes[j3].comps@[0]));
    assert(s3.contains(nodes[j3].comps@[0]));
    assert forall|v: usize| !(s1.contains(v) && s2.contains(v)) by {
        if s1.contains(v) && s2.contains(v) {
            assert(nodes[j1].comps@.contains(v) && nodes[j2].comps@.contains(v));
            assert(false);
        }
    }
    assert forall|v: usize| !(s1.contains(v) && s3.contains(v)) by {
        if s1.contains(v) && s3.contains(v) {
            let j = choose|j: int|
                0 <= j < nodes.len() && j != j1 && j != j2 && #[trigger] nodes[j].comps@.contains(
                    v,
                );
            assert(nodes[j1].comps@.contains(v));
            assert(false);
        }
    }
    assert forall|v: usize| !(s2.contains(v) && s3.contains(v)) by {
        if s2.contains(v) && s3.contains(v) {
            let j = choose|j: int|
                0 <= j < nodes.len() && j != j1 && j != j2 && #[trigger] nodes[j].comps@.contains(
                    v,
                );
            assert(nodes[j2].comps@.contains(v));
            assert(false);
        }
    }
    assert forall|v: usize|
        (s1.contains(v) || s2.contains(v) || s3.contains(v)) <==> g.non_isolated(v) by {
        if s1.contains(v) {
            let t = choose|t: int| 0 <= t < nodes[j1].comps@.len() && nodes[j1].comps@[t] == v;
            assert(g.non_isolated(v));
        }
        if s2.contains(v) {
            let t = choose|t: int| 0 <= t < nodes[j2].comps@.len() && nodes[j2].comps@[t] == v;
            assert(g.non_isolated(v));
        }
        if s3.contains(v) {
            let j = choose|j: int|
                0 <= j < nodes.len() && j != j1 && j != j2 && #[trigger] nodes[j].comps@.contains(
                    v,
                );
            let t = choose|t: int| 0 <= t < nodes[j].comps@.len() && nodes[j].comps@[t] == v;
            assert(g.non_isolated(v));
        }
        if g.non_isolated(v) {
            let i = choose|i: int|
                0 <= i < g.edges@.len() && ((#[trigger] g.edges@[i]).0 == v || g.edges@[i].1 == v);
            assert((v as int) < g.n);
            let jx = choose|jx: int|
                0 <= jx < nodes.len() && #[trigger] nodes[jx].comps@.contains(v);
            if jx == j1 {
                assert(s1.contains(v));
            } else if jx == j2 {
                assert(s2.contains(v));
            } else {
                assert(s3.contains(v));
            }
        }
    }
    assert forall|i: int| 0 <= i < g.edges@.len() implies {
        let a = (#[trigger] g.edges@[i]).0;
        let b = g.edges@[i].1;
        ||| (s1.contains(a) && s1.contains(b))
        ||| (s2.contains(a) && s2.contains(b))
        ||| (s3.contains(a) && s3.contains(b))
    } by {
        assert(!remaining[i]);
        let a = g.edges@[i].0;
        let b = g.edges@[i].1;
        let j = choose|j: int|
            0 <= j < nodes.len() && #[trigger] nodes[j].comps@.contains(a)
                && nodes[j].comps@.contains(b);
        if j == j1 {
            assert(s1.contains(a) && s1.contains(b));
        } else if j == j2 {
            assert(s2.contains(a) && s2.contains(b));
        } else {
            assert(s3.contains(a) && s3.contains(b));
        }
    }
    assert(three_way_split(g, s1, s2, s3));
}

} // verus!
