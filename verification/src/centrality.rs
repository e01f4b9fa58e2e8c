use vstd::prelude::*;

use crate::graph::{adjacent, dist_is, graph_matches, reach_within, reaches, spec_dist, Graph};
use crate::parse::edge_set_of;

verus! {

proof fn lemma_dist_unique(edges: Seq<(usize, usize)>, a: int, b: int, d1: nat, d2: nat)
    requires
        dist_is(edges, a, b, d1),
        dist_is(edges, a, b, d2),
    ensures
        d1 == d2,
{
}

/// A walk that ends in `b != a` has a last step: some neighbor of `b`
/// is reached one step sooner.
proof fn lemma_reach_end(edges: Seq<(usize, usize)>, a: int, b: int, k: nat)
    requires
        reach_within(edges, a, b, k),
        a != b,
    ensures
        k >= 1,
        exists|m: int| #[trigger]
            adjacent(edges, m, b) && reach_within(edges, a, m, (k - 1) as nat),
    decreases k,
{
    let m0 = choose|m: int| #[trigger]
        adjacent(edges, a, m) && reach_within(edges, m, b, (k - 1) as nat);
    if m0 == b {
        assert(adjacent(edges, a, b));
        assert(reach_within(edges, a, a, (k - 1) as nat));
    } else {
        lemma_reach_end(edges, m0, b, (k - 1) as nat);
        let m1 = choose|m: int| #[trigger]
            adjacent(edges, m, b) && reach_within(edges, m0, m, (k - 2) as nat);
        assert(reach_within(edges, a, m1, (k - 1) as nat));
    }
}

/// Extending a walk by one edge.
proof fn lemma_reach_step(edges: Seq<(usize, usize)>, a: int, u: int, v: int, k: nat)
    requires
        reach_within(edges, a, u, k),
        adjacent(edges, u, v),
    ensures
        reach_within(edges, a, v, (k + 1) as nat),
    decreases k,
{
    if a == u {
        assert(reach_within(edges, v, v, k));
    } else {
        let m = choose|m: int| #[trigger]
            adjacent(edges, a, m) && reach_within(edges, m, u, (k - 1) as nat);
        lemma_reach_step(edges, m, u, v, (k - 1) as nat);
    }
}

/// Completeness of a breadth-first labeling: whatever has a walk from
/// the source is labeled, with a label no larger than the walk length.
proof fn lemma_bfs_complete(
    edges: Seq<(usize, usize)>,
    n: int,
    s: int,
    seen: Seq<bool>,
    dist: Seq<usize>,
    v: int,
    k: nat,
)
    requires
        seen.len() == n,
        dist.len() == n,
        0 <= s < n,
        seen[s],
        dist[s] == 0,
        forall|i: int| 0 <= i < edges.len() ==> (#[trigger] edges[i]).0 < n && edges[i].1 < n,
        forall|u: int, w: int|
            0 <= u < n && seen[u] && #[trigger] adjacent(edges, u, w) ==> 0 <= w < n && seen[w]
                && dist[w] <= dist[u] + 1,
        0 <= v < n,
        reach_within(edges, s, v, k),
    ensures
        seen[v],
        dist[v] <= k,
    decreases k,
{
    if v == s {
    } else {
        lemma_reach_end(edges, s, v, k);
        let m = choose|m: int| #[trigger]
            adjacent(edges, m, v) && reach_within(edges, s, m, (k - 1) as nat);
        assert(0 <= m < n) by {
            let i = choose|i: int|
                0 <= i < edges.len() && (((#[trigger] edges[i]).0 == m && edges[i].1 == v) || (
                edges[i].0 == v && edges[i].1 == m));
        }
        lemma_bfs_complete(edges, n, s, seen, dist, m, (k - 1) as nat);
    }
}

/// A labeling that is reach-sound, closed under adjacency, and rooted at
/// the source labels exactly the reachable nodes, with shortest
/// distances as labels.
proof fn lemma_bfs_characterizes(
    edges: Seq<(usize, usize)>,
    n: int,
    s: int,
    seen: Seq<bool>,
    dist: Seq<usize>,
    v: int,
)
    requires
        seen.len() == n,
        dist.len() == n,
        0 <= s < n,
        seen[s],
        dist[s] == 0,
        forall|i: int| 0 <= i < edges.len() ==> (#[trigger] edges[i]).0 < n && edges[i].1 < n,
        forall|u: int, w: int|
            0 <= u < n && seen[u] && #[trigger] adjacent(edges, u, w) ==> 0 <= w < n && seen[w]
                && dist[w] <= dist[u] + 1,
        forall|u: int|
            0 <= u < n && #[trigger] seen[u] ==> reach_within(edges, s, u, dist[u] as nat),
        0 <= v < n,
    ensures
        seen[v] <==> reaches(edges, s, v),
        seen[v] ==> dist_is(edges, s, v, dist[v] as nat),
{
    if seen[v] {
        assert(reach_within(edges, s, v, dist[v] as nat));
        assert(reaches(edges, s, v));
        assert forall|j: nat| j < dist[v] implies !reach_within(edges, s, v, j) by {
            if reach_within(edges, s, v, j) {
                lemma_bfs_complete(edges, n, s, seen, dist, v, j);
            }
        }
    }
    if reaches(edges, s, v) {
        let k = choose|k: nat| reach_within(edges, s, v, k);
        lemma_bfs_complete(edges, n, s, seen, dist, v, k);
    }
}

/// A duplicate-free sequence of indices below `n` has at most `n`
/// entries.
proof fn lemma_bounded_no_dup_len(q: Seq<usize>, n: int)
    requires
        0 <= n,
        q.no_duplicates(),
        forall|i: int| 0 <= i < q.len() ==> (#[trigger] q[i]) < n,
    ensures
        q.len() <= n,
{
    let qi = q.map_values(|x: usize| x as int);
    assert(qi.no_duplicates());
    qi.unique_seq_to_set();
    vstd::set_lib::lemma_int_range(0, n);
    assert(qi.to_set().subset_of(vstd::set_lib::set_int_range(0, n))) by {
        assert forall|x: int| qi.to_set().contains(x) implies vstd::set_lib::set_int_range(
            0,
            n,
        ).contains(x) by {
            let i = choose|i: int| 0 <= i < qi.len() && qi[i] == x;
            assert(q[i] < n);
        }
    }
    vstd::set_lib::lemma_len_subset(qi.to_set(), vstd::set_lib::set_int_range(0, n));
}

/// Single-source shortest distances by breadth-first search over unit
/// edge weights.  `r.0[v]` says whether `v` is reachable from `s`;
/// when it is, `r.1[v]` is the shortest-path distance.
#[verifier::loop_isolation(false)]
fn bfs(g: &Graph, s: usize) -> (r: (Vec<bool>, Vec<usize>))
    requires
        g.wf(),
        (s as int) < g.n(),
    ensures
        r.0@.len() == g.n(),
        r.1@.len() == g.n(),
        forall|v: int|
            0 <= v < g.n() ==> ((#[trigger] r.0@[v]) <==> reaches(g.edges@, s as int, v)),
        forall|v: int|
            0 <= v < g.n() && #[trigger] r.0@[v] ==> dist_is(
                g.edges@,
                s as int,
                v,
                r.1@[v] as nat,
            ),
{
    let n = g.ext_ids.len();
    let mut seen: Vec<bool> = Vec::new();
    let mut dist: Vec<usize> = Vec::new();
    let mut i0: usize = 0;
    while i0 < n
        invariant
            i0 <= n,
            seen@.len() == i0,
            dist@.len() == i0,
            forall|v: int| 0 <= v < i0 ==> !(#[trigger] seen@[v]),
            forall|v: int| 0 <= v < i0 ==> (#[trigger] dist@[v]) == 0,
        decreases n - i0,
    {
        seen.push(false);
        dist.push(0);
        i0 = i0 + 1;
    }
    let mut queue: Vec<usize> = Vec::new();
    seen[s] = true;
    queue.push(s);
    let mut head: usize = 0;
    proof {
        assert(queue@.len() == 1);
        assert(queue@[0] == s);
        assert forall|v: int| 0 <= v < n implies ((#[trigger] seen@[v]) <==> queue@.contains(
            v as usize,
        )) by {
            if queue@.contains(v as usize) {
                let i = choose|i: int| 0 <= i < queue@.len() && queue@[i] == v as usize;
                assert(i == 0);
            }
            if v == s {
                assert(queue@[0] == v as usize);
            }
        }
    }
    while head < queue.len()
        invariant
            seen@.len() == n,
            dist@.len() == n,
            head <= queue@.len(),
            queue@.len() <= n,
            queue@.no_duplicates(),
            forall|qi: int| 0 <= qi < queue@.len() ==> (#[trigger] queue@[qi]) < n,
            forall|v: int| 0 <= v < n ==> ((#[trigger] seen@[v]) <==> queue@.contains(v as usize)),
            seen@[s as int],
            dist@[s as int] == 0,
            forall|qi: int|
                0 <= qi < queue@.len() ==> (#[trigger] dist@[queue@[qi] as int]) <= qi,
            forall|qi1: int, qi2: int|
                0 <= qi1 <= qi2 < queue@.len() ==> dist@[#[trigger] queue@[qi1] as int] <= dist@[
                    #[trigger] queue@[qi2] as int
                ],
            forall|qi: int|
                head <= qi < queue@.len() ==> (#[trigger] dist@[queue@[qi] as int]) <= dist@[
                    queue@[head as int] as int
                ] + 1,
            forall|v: int|
                0 <= v < n && #[trigger] seen@[v] ==> reach_within(
                    g.edges@,
                    s as int,
                    v,
                    dist@[v] as nat,
                ),
            forall|qi: int, w: int|
                0 <= qi < head && #[trigger] adjacent(g.edges@, queue@[qi] as int, w) ==> 0 <= w
                    < n && seen@[w] && dist@[w] <= dist@[queue@[qi] as int] + 1,
        decreases n - head,
    {
        let u = queue[head];
        let du = dist[u];
        let deg = g.adj[u].len();
        let mut jj: usize = 0;
        while jj < deg
            invariant
                jj <= deg,
                deg == g.adj@[u as int]@.len(),
                seen@.len() == n,
                dist@.len() == n,
                head < queue@.len() <= n,
                queue@[head as int] == u,
                dist@[u as int] == du,
                queue@.no_duplicates(),
                forall|qi: int| 0 <= qi < queue@.len() ==> (#[trigger] queue@[qi]) < n,
                forall|v: int|
                    0 <= v < n ==> ((#[trigger] seen@[v]) <==> queue@.contains(v as usize)),
                seen@[s as int],
                dist@[s as int] == 0,
                forall|qi: int|
                    0 <= qi < queue@.len() ==> (#[trigger] dist@[queue@[qi] as int]) <= qi,
                forall|qi1: int, qi2: int|
                    0 <= qi1 <= qi2 < queue@.len() ==> dist@[#[trigger] queue@[qi1] as int]
                        <= dist@[#[trigger] queue@[qi2] as int],
                forall|qi: int|
                    head <= qi < queue@.len() ==> (#[trigger] dist@[queue@[qi] as int]) <= du + 1,
                forall|v: int|
                    0 <= v < n && #[trigger] seen@[v] ==> reach_within(
                        g.edges@,
                        s as int,
                        v,
                        dist@[v] as nat,
                    ),
                forall|qi: int, w: int|
                    0 <= qi < head && #[trigger] adjacent(g.edges@, queue@[qi] as int, w) ==> 0
                        <= w < n && seen@[w] && dist@[w] <= dist@[queue@[qi] as int] + 1,
                forall|j2: int|
                    0 <= j2 < jj ==> (#[trigger] g.adj@[u as int]@[j2]) < n && seen@[g.adj@[
                        u as int
                    ]@[j2] as int] && dist@[g.adj@[u as int]@[j2] as int] <= du + 1,
            decreases deg - jj,
        {
            let v = g.adj[u][jj];
            proof {
                assert(g.adj@[u as int]@[jj as int] == v);
                assert(g.adj@[u as int]@.contains(v));
                assert(adjacent(g.edges@, u as int, v as int));
                let ei = choose|i: int|
                    0 <= i < g.edges@.len() && (((#[trigger] g.edges@[i]).0 == u as int
                        && g.edges@[i].1 == v as int) || (g.edges@[i].0 == v as int
                        && g.edges@[i].1 == u as int));
                assert((v as int) < g.n());
                assert(queue@.contains(u));
                assert(seen@[u as int]);
            }
            if !seen[v] {
                let dv = du + 1;
                proof {
                    lemma_reach_step(g.edges@, s as int, u as int, v as int, du as nat);
                    assert(!queue@.contains(v));
                }
                let ghost q0 = queue@;
                let ghost seen0 = seen@;
                let ghost dist0 = dist@;
                seen[v] = true;
                dist[v] = dv;
                queue.push(v);
                proof {
                    let ll = q0.len() as int;
                    assert(queue@[ll] == v);
                    assert(forall|qi: int| 0 <= qi < ll ==> queue@[qi] == #[trigger] q0[qi]);
                    assert forall|vv: int| 0 <= vv < n implies ((#[trigger] seen@[vv])
                        <==> queue@.contains(vv as usize)) by {
                        crate::graph::lemma_push_contains(q0, v, vv as usize);
                    }
                    assert(queue@.no_duplicates()) by {
                        assert(forall|qi: int| 0 <= qi < ll ==> q0[qi] != v);
                    }
                    lemma_bounded_no_dup_len(queue@, n as int);
                    assert forall|qi: int| 0 <= qi < queue@.len() implies (#[trigger] dist@[
                        queue@[qi] as int
                    ]) <= qi by {
                        if qi < ll {
                            assert(q0[qi] != v);
                            assert(dist@[queue@[qi] as int] == dist0[queue@[qi] as int]);
                        } else {
                            assert(du <= head as int);
                        }
                    }
                    assert forall|qi1: int, qi2: int| 0 <= qi1 <= qi2 < queue@.len() implies
                        dist@[#[trigger] queue@[qi1] as int] <= dist@[#[trigger] queue@[
                        qi2
                    ] as int] by {
                        if qi2 == ll {
                            if qi1 < ll {
                                assert(q0[qi1] != v);
                                if qi1 < head as int {
                                    assert(dist0[q0[qi1] as int] <= dist0[q0[
                                        head as int
                                    ] as int]);
                                }
                            }
                        }
                    }
                    assert forall|qi: int| head <= qi < queue@.len() implies (#[trigger] dist@[
                        queue@[qi] as int
                    ]) <= du + 1 by {
                        if qi < ll {
                            assert(q0[qi] != v);
                        }
                    }
                    assert forall|vv: int| 0 <= vv < n && #[trigger] seen@[vv] implies
                        reach_within(g.edges@, s as int, vv, dist@[vv] as nat) by {
                        if vv != v as int {
                            assert(seen0[vv]);
                            assert(dist@[vv] == dist0[vv]);
                        }
                    }
                }
            } else {
                proof {
                    let qi = choose|qi: int| 0 <= qi < queue@.len() && queue@[qi] == v;
                    if qi < head as int {
                        assert(dist@[queue@[qi] as int] <= dist@[queue@[head as int] as int]);
                    }
                    assert(dist@[v as int] <= du + 1);
                }
            }
            jj = jj + 1;
        }
        proof {
            assert forall|w: int| #[trigger]
                adjacent(g.edges@, u as int, w) implies 0 <= w < n && seen@[w] && dist@[w] <= du
                + 1 by {
                let ei = choose|i: int|
                    0 <= i < g.edges@.len() && (((#[trigger] g.edges@[i]).0 == u as int
                        && g.edges@[i].1 == w) || (g.edges@[i].0 == w && g.edges@[i].1
                        == u as int));
                assert(0 <= w < n);
                assert(g.adj@[u as int]@.contains(w as usize));
                let j2 = choose|j2: int|
                    0 <= j2 < g.adj@[u as int]@.len() && g.adj@[u as int]@[j2] == w as usize;
            }
            if head + 1 < queue@.len() {
                assert forall|qi: int| head + 1 <= qi < queue@.len() implies (#[trigger] dist@[
                    queue@[qi] as int
                ]) <= dist@[queue@[(head + 1) as int] as int] + 1 by {
                    assert(dist@[queue@[qi] as int] <= dist@[queue@[head as int] as int] + 1);
                    assert(dist@[queue@[head as int] as int] <= dist@[queue@[(head
                        + 1) as int] as int]);
                }
            }
        }
        head = head + 1;
    }
    proof {
        assert forall|v: int, w: int|
            0 <= v < n && seen@[v] && #[trigger] adjacent(g.edges@, v, w) implies 0 <= w < n
            && seen@[w] && dist@[w] <= dist@[v] + 1 by {
            assert(queue@.contains(v as usize));
            let qi = choose|qi: int| 0 <= qi < queue@.len() && queue@[qi] == v as usize;
        }
        assert forall|v: int| 0 <= v < n implies ((#[trigger] seen@[v]) <==> reaches(
            g.edges@,
            s as int,
            v,
        )) && (seen@[v] ==> dist_is(g.edges@, s as int, v, dist@[v] as nat)) by {
            lemma_bfs_characterizes(g.edges@, n as int, s as int, seen@, dist@, v);
        }
    }
    (seen, dist)
}

/// What node `v` adds to node `s`'s path sum: the shortest-path
/// distance when `v` is reachable from `s`, nothing otherwise.
pub open spec fn dist_or_zero(edges: Seq<(usize, usize)>, s: int, v: int) -> int {
    if reaches(edges, s, v) {
        spec_dist(edges, s, v) as int
    } else {
        0
    }
}

/// Sum of the shortest-path distances from `s` to internal nodes `0..v`.
pub open spec fn path_sum_upto(edges: Seq<(usize, usize)>, s: int, v: int) -> int
    decreases v,
{
    if v <= 0 {
        0
    } else {
        path_sum_upto(edges, s, v - 1) + dist_or_zero(edges, s, v - 1)
    }
}

/// Path-sum centrality of internal node `s`: the total shortest-path
/// distance from `s` to every node reachable from it.
pub open spec fn spec_path_sum(edges: Seq<(usize, usize)>, n: int, s: int) -> int {
    path_sum_upto(edges, s, n)
}

/// Path-sum centrality of one node.  This is a betweenness
/// approximation: the summed single-source shortest-path distances,
/// not true betweenness centrality.
#[verifier::loop_isolation(false)]
pub fn path_sum_of(g: &Graph, s: usize) -> (r: u128)
    requires
        g.wf(),
        (s as int) < g.n(),
    ensures
        r == spec_path_sum(g.edges@, g.n(), s as int),
{
    let bd = bfs(g, s);
    let seen = bd.0;
    let dist = bd.1;
    let n = g.ext_ids.len();
    let ghost mx = usize::MAX as int;
    let mut total: u128 = 0;
    let mut v: usize = 0;
    while v < n
        invariant
            v <= n,
            total == path_sum_upto(g.edges@, s as int, v as int),
            total <= (v as int) * mx,
        decreases n - v,
    {
        proof {
            assert((v as int) * mx + mx == ((v as int) + 1) * mx) by (nonlinear_arith);
        }
        if seen[v] {
            proof {
                assert(dist_is(g.edges@, s as int, v as int, dist@[v as int] as nat));
                assert(reaches(g.edges@, s as int, v as int));
                assert(exists|d: nat| dist_is(g.edges@, s as int, v as int, d));
                assert(dist_is(
                    g.edges@,
                    s as int,
                    v as int,
                    spec_dist(g.edges@, s as int, v as int),
                ));
                lemma_dist_unique(
                    g.edges@,
                    s as int,
                    v as int,
                    dist@[v as int] as nat,
                    spec_dist(g.edges@, s as int, v as int),
                );
                assert(dist_or_zero(g.edges@, s as int, v as int) == dist@[v as int]);
                assert(((v as int) + 1) * mx <= mx * mx) by (nonlinear_arith)
                    requires
                        (v as int) + 1 <= mx,
                        0 <= mx,
                ;
                assert(mx <= 0xffff_ffff_ffff_ffff);
                assert(mx * mx <= u128::MAX) by (nonlinear_arith)
                    requires
                        0 <= mx <= 0xffff_ffff_ffff_ffff,
                ;
            }
            let d = dist[v];
            total = total + (d as u128);
        } else {
            proof {
                assert(!reaches(g.edges@, s as int, v as int));
                assert(dist_or_zero(g.edges@, s as int, v as int) == 0);
                assert(((v as int)) * mx <= ((v as int) + 1) * mx) by (nonlinear_arith)
                    requires
                        0 <= mx,
                ;
            }
        }
        v = v + 1;
    }
    total
}

/// Number of edges incident to internal node `v`.
pub open spec fn deg(edges: Seq<(usize, usize)>, v: int) -> int
    decreases edges.len(),
{
    if edges.len() == 0 {
        0
    } else {
        deg(edges.drop_last(), v) + (if edges.last().0 == v || edges.last().1 == v {
            1int
        } else {
            0int
        })
    }
}

/// `r` is the degree-centrality mapping of `g`: position `i` pairs the
/// external identifier of internal node `i` with its degree.
pub open spec fn is_degree_map(g: Graph, r: Seq<(usize, u128)>) -> bool {
    &&& r.len() == g.n()
    &&& forall|i: int|
        0 <= i < g.n() ==> (#[trigger] r[i]).0 == g.ext_ids@[i] && r[i].1 == deg(g.edges@, i)
}

/// `r` is the path-sum-centrality mapping of `g`.
pub open spec fn is_path_sum_map(g: Graph, r: Seq<(usize, u128)>) -> bool {
    &&& r.len() == g.n()
    &&& forall|i: int|
        0 <= i < g.n() ==> (#[trigger] r[i]).0 == g.ext_ids@[i] && r[i].1 == spec_path_sum(
            g.edges@,
            g.n(),
            i,
        )
}

/// CentralityEngine, degree: the count of incident edges for every
/// node, keyed by external identifier.
#[verifier::loop_isolation(false)]
pub fn degree_centrality(g: &Graph) -> (r: Vec<(usize, u128)>)
    requires
        g.wf(),
    ensures
        is_degree_map(*g, r@),
{
    let n = g.ext_ids.len();
    let mut counts: Vec<usize> = Vec::new();
    let mut i0: usize = 0;
    while i0 < n
        invariant
            i0 <= n,
            counts@.len() == i0,
            forall|v: int| 0 <= v < i0 ==> (#[trigger] counts@[v]) == 0,
        decreases n - i0,
    {
        counts.push(0);
        i0 = i0 + 1;
    }
    proof {
        assert(g.edges@.take(0).len() == 0);
    }
    let m = g.edges.len();
    let mut t: usize = 0;
    while t < m
        invariant
            t <= m,
            counts@.len() == n,
            forall|v: int|
                0 <= v < n ==> (#[trigger] counts@[v]) == deg(g.edges@.take(t as int), v)
                    && counts@[v] <= t,
        decreases m - t,
    {
        let e = g.edges[t];
        proof {
            assert(g.edges@.take(t + 1).drop_last() =~= g.edges@.take(t as int));
            assert(g.edges@.take(t + 1).last() == g.edges@[t as int]);
            assert((g.edges@[t as int]).0 < n && g.edges@[t as int].1 < n);
        }
        let ca = counts[e.0];
        counts[e.0] = ca + 1;
        let cb = counts[e.1];
        counts[e.1] = cb + 1;
        t = t + 1;
    }
    proof {
        assert(g.edges@.take(m as int) =~= g.edges@);
    }
    let mut r: Vec<(usize, u128)> = Vec::new();
    let mut i: usize = 0;
    while i < n
        invariant
            i <= n,
            r@.len() == i,
            counts@.len() == n,
            forall|v: int| 0 <= v < n ==> (#[trigger] counts@[v]) == deg(g.edges@, v),
            forall|k: int|
                0 <= k < i ==> (#[trigger] r@[k]).0 == g.ext_ids@[k] && r@[k].1 == deg(
                    g.edges@,
                    k,
                ),
        decreases n - i,
    {
        r.push((g.ext_ids[i], counts[i] as u128));
        i = i + 1;
    }
    r
}

/// CentralityEngine, path-sum: the summed shortest-path distances for
/// every node, keyed by external identifier.
#[verifier::loop_isolation(false)]
pub fn path_sum_centrality(g: &Graph) -> (r: Vec<(usize, u128)>)
    requires
        g.wf(),
    ensures
        is_path_sum_map(*g, r@),
{
    let n = g.ext_ids.len();
    let mut r: Vec<(usize, u128)> = Vec::new();
    let mut s: usize = 0;
    while s < n
        invariant
            s <= n,
            r@.len() == s,
            forall|k: int|
                0 <= k < s ==> (#[trigger] r@[k]).0 == g.ext_ids@[k] && r@[k].1 == spec_path_sum(
                    g.edges@,
                    g.n(),
                    k,
                ),
        decreases n - s,
    {
        let ps = path_sum_of(g, s);
        r.push((g.ext_ids[s], ps));
        s = s + 1;
    }
    r
}

/// Total of the scores held in a centrality mapping.
pub open spec fn score_total(m: Seq<(usize, u128)>) -> int
    decreases m.len(),
{
    if m.len() == 0 {
        0
    } else {
        score_total(m.drop_last()) + m.last().1
    }
}

/// Sum of the degrees of internal nodes `0..n`.
pub open spec fn deg_total(edges: Seq<(usize, usize)>, n: int) -> int
    decreases n,
{
    if n <= 0 {
        0
    } else {
        deg_total(edges, n - 1) + deg(edges, n - 1)
    }
}

proof fn lemma_deg_total_zero(edges: Seq<(usize, usize)>, n: int)
    requires
        edges.len() == 0,
    ensures
        deg_total(edges, n) == 0,
    decreases n,
{
    if n > 0 {
        lemma_deg_total_zero(edges, n - 1);
    }
}

proof fn lemma_deg_push(edges: Seq<(usize, usize)>, e: (usize, usize), v: int)
    ensures
        deg(edges.push(e), v) == deg(edges, v) + (if e.0 == v || e.1 == v {
            1int
        } else {
            0int
        }),
{
    assert(edges.push(e).drop_last() =~= edges);
    assert(edges.push(e).last() == e);
}

proof fn lemma_deg_total_push(edges: Seq<(usize, usize)>, e: (usize, usize), n: int)
    requires
        e.0 != e.1,
    ensures
        deg_total(edges.push(e), n) == deg_total(edges, n) + (if (e.0 as int) < n {
            1int
        } else {
            0int
        }) + (if (e.1 as int) < n {
            1int
        } else {
            0int
        }),
    decreases n,
{
    if n <= 0 {
    } else {
        lemma_deg_total_push(edges, e, n - 1);
        lemma_deg_push(edges, e, n - 1);
    }
}

proof fn lemma_handshake(edges: Seq<(usize, usize)>, n: int)
    requires
        forall|i: int|
            0 <= i < edges.len() ==> (#[trigger] edges[i]).0 < n && edges[i].1 < n && edges[i].0
                != edges[i].1,
    ensures
        deg_total(edges, n) == 2 * edges.len(),
    decreases edges.len(),
{
    if edges.len() == 0 {
        lemma_deg_total_zero(edges, n);
    } else {
        let e = edges.last();
        let rest = edges.drop_last();
        assert(forall|i: int|
            0 <= i < rest.len() ==> (#[trigger] rest[i]).0 < n && rest[i].1 < n && rest[i].0
                != rest[i].1) by {
            assert(forall|i: int| 0 <= i < rest.len() ==> rest[i] == #[trigger] edges[i]);
        }
        lemma_handshake(rest, n);
        lemma_deg_total_push(rest, e, n);
        assert(rest.push(e) =~= edges);
    }
}

proof fn lemma_score_matches(m: Seq<(usize, u128)>, edges: Seq<(usize, usize)>, n: int)
    requires
        m.len() == n,
        forall|i: int| 0 <= i < n ==> (#[trigger] m[i]).1 == deg(edges, i),
    ensures
        score_total(m) == deg_total(edges, n),
    decreases n,
{
    if n <= 0 {
    } else {
        assert(forall|i: int| 0 <= i < n - 1 ==> m.drop_last()[i] == #[trigger] m[i]);
        lemma_score_matches(m.drop_last(), edges, n - 1);
        assert(m.last().1 == deg(edges, n - 1));
    }
}

/// Law: over any wellformed graph, the degree-centrality scores sum to
/// exactly twice the number of edges.
pub proof fn lemma_degree_sum_is_twice_edges(g: Graph, m: Seq<(usize, u128)>)
    requires
        g.wf(),
        is_degree_map(g, m),
    ensures
        score_total(m) == 2 * g.edges@.len(),
{
    lemma_handshake(g.edges@, g.n());
    lemma_score_matches(m, g.edges@, g.n());
}

/// Law: the pipeline is deterministic.  Two graphs loaded from the same
/// input text carry identical node tables and edge lists, and their
/// degree and path-sum mappings are identical.
pub proof fn lemma_pipeline_deterministic(
    data: Seq<u8>,
    g1: Graph,
    g2: Graph,
    d1: Seq<(usize, u128)>,
    d2: Seq<(usize, u128)>,
    p1: Seq<(usize, u128)>,
    p2: Seq<(usize, u128)>,
)
    requires
        graph_matches(g1, edge_set_of(data)),
        graph_matches(g2, edge_set_of(data)),
        is_degree_map(g1, d1),
        is_degree_map(g2, d2),
        is_path_sum_map(g1, p1),
        is_path_sum_map(g2, p2),
    ensures
        g1.ext_ids@ == g2.ext_ids@,
        g1.edges@ == g2.edges@,
        d1 == d2,
        p1 == p2,
{
    assert(g1.edges@ =~= g2.edges@);
    assert(d1 =~= d2);
    assert(p1 =~= p2);
}

} // verus!
