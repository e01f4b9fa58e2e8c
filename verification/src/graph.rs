use vstd::prelude::*;

use crate::parse::{collect_edges, edge_set_of, normalized_edge_set, same_unordered};

verus! {

/// An immutable undirected collaboration graph over densely numbered
/// nodes.  `ext_ids[i]` is the external identifier carried by internal
/// node `i`; `edges` holds every undirected edge exactly once as a pair
/// of internal indices; `adj[i]` lists the internal neighbors of `i`.
pub struct Graph {
    pub ext_ids: Vec<usize>,
    pub edges: Vec<(usize, usize)>,
    pub adj: Vec<Vec<usize>>,
}

/// Internal nodes `a` and `b` are joined by some edge.
pub open spec fn adjacent(edges: Seq<(usize, usize)>, a: int, b: int) -> bool {
    exists|i: int|
        0 <= i < edges.len() && (((#[trigger] edges[i]).0 == a && edges[i].1 == b) || (edges[i].0
            == b && edges[i].1 == a))
}

/// There is a walk of length at most `k` from `a` to `b`.
pub open spec fn reach_within(edges: Seq<(usize, usize)>, a: int, b: int, k: nat) -> bool
    decreases k,
{
    if k == 0 {
        a == b
    } else {
        a == b || exists|m: int|
            #[trigger] adjacent(edges, a, m) && reach_within(edges, m, b, (k - 1) as nat)
    }
}

/// `b` is reachable from `a`.
pub open spec fn reaches(edges: Seq<(usize, usize)>, a: int, b: int) -> bool {
    exists|k: nat| reach_within(edges, a, b, k)
}

/// `d` is the length of a shortest walk from `a` to `b`.
pub open spec fn dist_is(edges: Seq<(usize, usize)>, a: int, b: int, d: nat) -> bool {
    reach_within(edges, a, b, d) && (forall|j: nat| j < d ==> !reach_within(edges, a, b, j))
}

/// The shortest-path distance from `a` to `b`; meaningful exactly when
/// `reaches(edges, a, b)` holds.
pub open spec fn spec_dist(edges: Seq<(usize, usize)>, a: int, b: int) -> nat {
    choose|d: nat| dist_is(edges, a, b, d)
}

impl Graph {
    /// Number of nodes.
    pub open spec fn n(self) -> int {
        self.ext_ids@.len() as int
    }

    /// Structural invariant: dense identifiers are distinct, edges join
    /// two distinct in-range nodes, no unordered pair appears twice, and
    /// the adjacency lists mirror the edge list.
    pub open spec fn wf(self) -> bool {
        &&& self.adj@.len() == self.ext_ids@.len()
        &&& self.ext_ids@.no_duplicates()
        &&& forall|i: int|
            0 <= i < self.edges@.len() ==> (#[trigger] self.edges@[i]).0 < self.n()
                && self.edges@[i].1 < self.n() && self.edges@[i].0 != self.edges@[i].1
        &&& forall|i: int, j: int|
            0 <= i < j < self.edges@.len() ==> !same_unordered(self.edges@[i], self.edges@[j])
        &&& forall|u: int, v: usize|
            0 <= u < self.n() ==> ((#[trigger] self.adj@[u]@.contains(v)) <==> adjacent(
                self.edges@,
                u,
                v as int,
            ))
    }

    pub fn node_count(&self) -> (r: usize)
        ensures
            r == self.ext_ids@.len(),
    {
        self.ext_ids.len()
    }

    pub fn edge_count(&self) -> (r: usize)
        ensures
            r == self.edges@.len(),
    {
        self.edges.len()
    }
}

/// Index of the first occurrence of `x` in `ids`; meaningful when
/// `ids.contains(x)`.
pub open spec fn first_index(ids: Seq<usize>, x: usize) -> int
    decreases ids.len(),
{
    if ids.len() == 0 {
        0
    } else if ids[0] == x {
        0
    } else {
        1 + first_index(ids.skip(1), x)
    }
}

/// The identifier table after one external identifier is seen.
pub open spec fn add_id(ids: Seq<usize>, x: usize) -> Seq<usize> {
    if ids.contains(x) {
        ids
    } else {
        ids.push(x)
    }
}

/// The dense-identifier table after consuming the whole edge list, both
/// endpoints of each edge in order.
pub open spec fn ids_after(edges: Seq<(usize, usize)>) -> Seq<usize>
    decreases edges.len(),
{
    if edges.len() == 0 {
        seq![]
    } else {
        add_id(add_id(ids_after(edges.drop_last()), edges.last().0), edges.last().1)
    }
}

/// An external edge translated to internal indices.
pub open spec fn int_edge(ids: Seq<usize>, e: (usize, usize)) -> (usize, usize) {
    (first_index(ids, e.0) as usize, first_index(ids, e.1) as usize)
}

/// The graph's node table and edge list are exactly what the external
/// edge list `ext` dictates.
pub open spec fn graph_matches(g: Graph, ext: Seq<(usize, usize)>) -> bool {
    &&& g.ext_ids@ == ids_after(ext)
    &&& g.edges@.len() == ext.len()
    &&& forall|k: int|
        0 <= k < ext.len() ==> #[trigger] g.edges@[k] == int_edge(ids_after(ext), ext[k])
}

pub proof fn lemma_first_index_props(ids: Seq<usize>, x: usize)
    requires
        ids.contains(x),
    ensures
        0 <= first_index(ids, x) < ids.len(),
        ids[first_index(ids, x)] == x,
    decreases ids.len(),
{
    if ids[0] == x {
    } else {
        assert(ids.skip(1).contains(x)) by {
            let i = choose|i: int| 0 <= i < ids.len() && ids[i] == x;
            assert(ids.skip(1)[i - 1] == x);
        }
        lemma_first_index_props(ids.skip(1), x);
    }
}

proof fn lemma_first_index_at(ids: Seq<usize>, x: usize, i: int)
    requires
        0 <= i < ids.len(),
        ids[i] == x,
        forall|m: int| 0 <= m < i ==> ids[m] != x,
    ensures
        first_index(ids, x) == i,
    decreases ids.len(),
{
    if i == 0 {
    } else {
        assert(ids[0] != x);
        assert(ids.skip(1)[i - 1] == x);
        assert(forall|m: int| 0 <= m < i - 1 ==> ids.skip(1)[m] == ids[m + 1]);
        lemma_first_index_at(ids.skip(1), x, i - 1);
    }
}

proof fn lemma_first_index_push_stable(ids: Seq<usize>, x: usize, y: usize)
    requires
        ids.contains(x),
    ensures
        first_index(ids.push(y), x) == first_index(ids, x),
    decreases ids.len(),
{
    if ids[0] == x {
        assert(ids.push(y)[0] == x);
    } else {
        assert(ids.skip(1).contains(x)) by {
            let i = choose|i: int| 0 <= i < ids.len() && ids[i] == x;
            assert(ids.skip(1)[i - 1] == x);
        }
        assert(ids.push(y).skip(1) =~= ids.skip(1).push(y));
        lemma_first_index_push_stable(ids.skip(1), x, y);
    }
}

/// `first_index` does not change for identifiers that are already in the
/// table when another identifier is added.
proof fn lemma_first_index_add_stable(ids: Seq<usize>, x: usize, y: usize)
    requires
        ids.contains(x),
    ensures
        add_id(ids, y).contains(x),
        first_index(add_id(ids, y), x) == first_index(ids, x),
{
    if !ids.contains(y) {
        lemma_first_index_push_stable(ids, x, y);
        let i = choose|i: int| 0 <= i < ids.len() && ids[i] == x;
        assert(ids.push(y)[i] == x);
    }
}

/// Find `x` in the identifier table, appending it when it is new; the
/// result is the dense index that `x` is (now) mapped to.
#[verifier::loop_isolation(false)]
fn lookup_or_insert(ids: &mut Vec<usize>, x: usize) -> (r: usize)
    requires
        old(ids)@.no_duplicates(),
    ensures
        final(ids)@ == add_id(old(ids)@, x),
        final(ids)@.no_duplicates(),
        final(ids)@.contains(x),
        r == first_index(final(ids)@, x),
        r < final(ids)@.len(),
{
    let mut k: usize = 0;
    while k < ids.len()
        invariant
            k <= ids@.len(),
            ids@ == old(ids)@,
            forall|m: int| 0 <= m < k ==> ids@[m] != x,
        decreases ids@.len() - k,
    {
        if ids[k] == x {
            proof {
                assert(ids@.contains(x));
                lemma_first_index_at(ids@, x, k as int);
            }
            return k;
        }
        k = k + 1;
    }
    proof {
        assert(!ids@.contains(x));
    }
    let r = ids.len();
    ids.push(x);
    proof {
        assert(ids@[r as int] == x);
        assert(ids@.contains(x));
        lemma_first_index_at(ids@, x, r as int);
        assert(ids@.no_duplicates());
    }
    r
}

pub(crate) proof fn lemma_push_contains(s: Seq<usize>, w: usize, v: usize)
    ensures
        s.push(w).contains(v) <==> (s.contains(v) || v == w),
{
    if s.push(w).contains(v) {
        let i = choose|i: int| 0 <= i < s.push(w).len() && s.push(w)[i] == v;
        if i < s.len() {
            assert(s[i] == v);
        }
    }
    if s.contains(v) {
        let i = choose|i: int| 0 <= i < s.len() && s[i] == v;
        assert(s.push(w)[i] == v);
    }
    assert(s.push(w)[s.len() as int] == w);
}

proof fn lemma_adjacent_take_step(edges: Seq<(usize, usize)>, t: int, u: int, v: int)
    requires
        0 <= t < edges.len(),
    ensures
        adjacent(edges.take(t + 1), u, v) <==> (adjacent(edges.take(t), u, v) || (edges[t].0 == u
            && edges[t].1 == v) || (edges[t].0 == v && edges[t].1 == u)),
{
    let a = edges.take(t + 1);
    let b = edges.take(t);
    if adjacent(a, u, v) {
        let i = choose|i: int|
            0 <= i < a.len() && ((a[i].0 == u && a[i].1 == v) || (a[i].0 == v && a[i].1 == u));
        assert(a[i] == edges[i]);
        if i < t {
            assert(b[i] == edges[i]);
            assert(adjacent(b, u, v));
        }
    }
    if adjacent(b, u, v) {
        let i = choose|i: int|
            0 <= i < b.len() && ((b[i].0 == u && b[i].1 == v) || (b[i].0 == v && b[i].1 == u));
        assert(a[i] == b[i]);
        assert(adjacent(a, u, v));
    }
    if (edges[t].0 == u && edges[t].1 == v) || (edges[t].0 == v && edges[t].1 == u) {
        assert(a[t] == edges[t]);
        assert(adjacent(a, u, v));
    }
}


proof fn lemma_add_id_contains(ids: Seq<usize>, y: usize, x: usize)
    ensures
        add_id(ids, y).contains(x) <==> (ids.contains(x) || x == y),
{
    if !ids.contains(y) {
        lemma_push_contains(ids, y, x);
    }
}

/// Law: the node table holds exactly the identifiers that occur as an
/// endpoint somewhere in the edge list — node identity is preserved.
pub proof fn lemma_node_table_is_endpoints(edges: Seq<(usize, usize)>, x: usize)
    ensures
        ids_after(edges).contains(x) <==> exists|i: int|
            0 <= i < edges.len() && ((#[trigger] edges[i]).0 == x || edges[i].1 == x),
    decreases edges.len(),
{
    if edges.len() == 0 {
    } else {
        let rest = edges.drop_last();
        let e = edges.last();
        lemma_node_table_is_endpoints(rest, x);
        let ids0 = ids_after(rest);
        let ids1 = add_id(ids0, e.0);
        lemma_add_id_contains(ids0, e.0, x);
        lemma_add_id_contains(ids1, e.1, x);
        if ids_after(edges).contains(x) {
            if ids0.contains(x) {
                let i = choose|i: int|
                    0 <= i < rest.len() && ((#[trigger] rest[i]).0 == x || rest[i].1 == x);
                assert(edges[i] == rest[i]);
            } else {
                assert(edges[edges.len() - 1] == e);
            }
        }
        if exists|i: int| 0 <= i < edges.len() && ((#[trigger] edges[i]).0 == x || edges[i].1 == x) {
            let i = choose|i: int|
                0 <= i < edges.len() && ((#[trigger] edges[i]).0 == x || edges[i].1 == x);
            if i < edges.len() - 1 {
                assert(rest[i] == edges[i]);
            }
        }
    }
}

/// GraphBuilder: assign dense internal identifiers on first encounter of
/// each external identifier and materialize the edge list and adjacency
/// structure.
#[verifier::loop_isolation(false)]
pub fn build_graph(ext_edges: &Vec<(usize, usize)>) -> (g: Graph)
    requires
        normalized_edge_set(ext_edges@),
    ensures
        g.wf(),
        graph_matches(g, ext_edges@),
{
    let mut ids: Vec<usize> = Vec::new();
    let mut iedges: Vec<(usize, usize)> = Vec::new();
    let mut k: usize = 0;
    while k < ext_edges.len()
        invariant
            k <= ext_edges@.len(),
            ids@ == ids_after(ext_edges@.take(k as int)),
            ids@.no_duplicates(),
            iedges@.len() == k,
            forall|m: int|
                0 <= m < k ==> ids@.contains((#[trigger] ext_edges@[m]).0) && ids@.contains(
                    ext_edges@[m].1,
                ),
            forall|m: int|
                0 <= m < k ==> #[trigger] iedges@[m] == int_edge(ids@, ext_edges@[m]),
        decreases ext_edges@.len() - k,
    {
        let e = ext_edges[k];
        let ghost ids0 = ids@;
        let ia = lookup_or_insert(&mut ids, e.0);
        let ghost ids1 = ids@;
        let ib = lookup_or_insert(&mut ids, e.1);
        proof {
            assert forall|m: int| 0 <= m < k implies ids@.contains((#[trigger] ext_edges@[m]).0)
                && ids@.contains(ext_edges@[m].1) && int_edge(ids@, ext_edges@[m]) == int_edge(
                ids0,
                ext_edges@[m],
            ) by {
                lemma_first_index_add_stable(ids0, ext_edges@[m].0, e.0);
                lemma_first_index_add_stable(ids0, ext_edges@[m].1, e.0);
                lemma_first_index_add_stable(ids1, ext_edges@[m].0, e.1);
                lemma_first_index_add_stable(ids1, ext_edges@[m].1, e.1);
            }
            lemma_first_index_add_stable(ids1, e.0, e.1);
            assert(ext_edges@.take(k + 1).drop_last() =~= ext_edges@.take(k as int));
            assert(ext_edges@.take(k + 1).last() == ext_edges@[k as int]);
        }
        iedges.push((ia, ib));
        k = k + 1;
    }
    proof {
        assert(ext_edges@.take(k as int) =~= ext_edges@);
    }
    let n = ids.len();
    proof {
        assert forall|m: int| 0 <= m < iedges@.len() implies (#[trigger] iedges@[m]).0 < n
            && iedges@[m].1 < n && iedges@[m].0 != iedges@[m].1 by {
            lemma_first_index_props(ids@, ext_edges@[m].0);
            lemma_first_index_props(ids@, ext_edges@[m].1);
        }
        assert forall|m: int, m2: int| 0 <= m < m2 < iedges@.len() implies !same_unordered(
            iedges@[m],
            iedges@[m2],
        ) by {
            lemma_first_index_props(ids@, ext_edges@[m].0);
            lemma_first_index_props(ids@, ext_edges@[m].1);
            lemma_first_index_props(ids@, ext_edges@[m2].0);
            lemma_first_index_props(ids@, ext_edges@[m2].1);
            assert(ext_edges@[m] != ext_edges@[m2]);
        }
    }
    let mut adj: Vec<Vec<usize>> = Vec::new();
    let mut u: usize = 0;
    while u < n
        invariant
            u <= n,
            adj@.len() == u,
            forall|uu: int, v: usize|
                0 <= uu < u ==> ((#[trigger] adj@[uu]@.contains(v)) <==> adjacent(
                    iedges@,
                    uu,
                    v as int,
                )),
        decreases n - u,
    {
        let mut row: Vec<usize> = Vec::new();
        let mut t: usize = 0;
        while t < iedges.len()
            invariant
                t <= iedges@.len(),
                forall|v: usize|
                    (#[trigger] row@.contains(v)) <==> adjacent(
                        iedges@.take(t as int),
                        u as int,
                        v as int,
                    ),
            decreases iedges@.len() - t,
        {
            let e2 = iedges[t];
            let ghost row0 = row@;
            if e2.0 == u {
                row.push(e2.1);
            } else if e2.1 == u {
                row.push(e2.0);
            }
            proof {
                assert forall|v: usize| (#[trigger] row@.contains(v)) <==> adjacent(
                    iedges@.take(t + 1),
                    u as int,
                    v as int,
                ) by {
                    lemma_adjacent_take_step(iedges@, t as int, u as int, v as int);
                    if e2.0 == u {
                        lemma_push_contains(row0, e2.1, v);
                    } else if e2.1 == u {
                        lemma_push_contains(row0, e2.0, v);
                    }
                }
            }
            t = t + 1;
        }
        proof {
            assert(iedges@.take(t as int) =~= iedges@);
        }
        adj.push(row);
        u = u + 1;
    }
    Graph { ext_ids: ids, edges: iedges, adj }
}

/// Load the collaboration graph that an input text denotes: parse each
/// line, deduplicate the normalized edges, then assign dense internal
/// identifiers.  Malformed lines contribute nothing.
pub fn load_graph(data: &Vec<u8>) -> (g: Graph)
    ensures
        g.wf(),
        graph_matches(g, edge_set_of(data@)),
{
    let edges = collect_edges(data);
    build_graph(&edges)
}

} // verus!
