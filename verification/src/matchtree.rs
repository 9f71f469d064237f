//! The undirected weighted match graph and its construction: interning entity
//! names into dense ids, aggregating repeated pairings into weighted edges,
//! and building sorted adjacency lists.

use vstd::prelude::*;

verus! {

use vstd::multiset::Multiset;

pub type Vertex = usize;

pub type ListOfEdges = Vec<(usize, usize, usize)>;

pub type AdjacencyLists = Vec<Vec<(usize, usize)>>;

/// An undirected weighted graph over nodes `0..n`; each adjacency entry is a
/// `(neighbor id, weight)` pair.
#[derive(Debug)]
pub struct Graph {
    pub n: usize,
    pub outedges: AdjacencyLists,
}

impl Graph {
    /// Well-formedness: one adjacency list per node, every neighbor id in range.
    pub open spec fn wf(self) -> bool {
        &&& self.outedges@.len() == self.n
        &&& forall|i: int, j: int|
            0 <= i < self.outedges@.len() && 0 <= j < self.outedges@[i]@.len()
                ==> (#[trigger] self.outedges@[i]@[j]).0 < self.n
    }
}

/// The adjacency entries that edge insertion appends to node `i`'s list: for
/// each edge `(u, v, w)` in order, `(v, w)` goes to `u`'s list and then
/// `(u, w)` to `v`'s list (twice to the one list when `u == v`).
pub open spec fn incident_entries(i: int, edges: Seq<(usize, usize, usize)>) -> Seq<(usize, usize)>
    decreases edges.len(),
{
    if edges.len() == 0 {
        Seq::empty()
    } else {
        let e = edges.last();
        let rest = incident_entries(i, edges.drop_last());
        if e.0 == i && e.1 == i {
            rest.push((e.1, e.2)).push((e.0, e.2))
        } else if e.0 == i {
            rest.push((e.1, e.2))
        } else if e.1 == i {
            rest.push((e.0, e.2))
        } else {
            rest
        }
    }
}

impl Graph {
    /// Appends both directions of every edge to the adjacency lists.
    pub fn add_undirected_edges(&mut self, edges: &ListOfEdges)
        requires
            forall|k: int| 0 <= k < edges@.len()
                ==> (#[trigger] edges@[k]).0 < old(self).outedges@.len()
                    && edges@[k].1 < old(self).outedges@.len(),
        ensures
            final(self).n == old(self).n,
            final(self).outedges@.len() == old(self).outedges@.len(),
            forall|i: int| 0 <= i < final(self).outedges@.len()
                ==> #[trigger] final(self).outedges@[i]@
                    == old(self).outedges@[i]@ + incident_entries(i, edges@),
    {
        let mut k: usize = 0;
        while k < edges.len()
            invariant
                k <= edges@.len(),
                forall|m: int| 0 <= m < edges@.len()
                    ==> (#[trigger] edges@[m]).0 < self.outedges@.len()
                        && edges@[m].1 < self.outedges@.len(),
                self.n == old(self).n,
                self.outedges@.len() == old(self).outedges@.len(),
                forall|i: int| 0 <= i < self.outedges@.len()
                    ==> #[trigger] self.outedges@[i]@
                        == old(self).outedges@[i]@ + incident_entries(i, edges@.take(k as int)),
            decreases edges@.len() - k,
        {
            let (u, v, w) = edges[k];
            let ghost before = self.outedges@.map_values(|l: Vec<(usize, usize)>| l@);
            self.outedges[u].push((v, w));
            self.outedges[v].push((u, w));
            proof {
                assert(edges@.take(k as int + 1).drop_last() =~= edges@.take(k as int));
                assert(edges@.take(k as int + 1).last() == edges@[k as int]);
                assert forall|i: int| 0 <= i < self.outedges@.len()
                    implies #[trigger] self.outedges@[i]@
                        == old(self).outedges@[i]@ + incident_entries(i, edges@.take(k as int + 1)) by {
                    let e = edges@[k as int];
                    if i == u && i == v {
                        assert(self.outedges@[i]@ == before[i].push((v, w)).push((u, w)));
                    } else if i == u {
                        assert(self.outedges@[i]@ == before[i].push((v, w)));
                    } else if i == v {
                        assert(self.outedges@[i]@ == before[i].push((u, w)));
                    } else {
                        assert(self.outedges@[i]@ == before[i]);
                    }
                }
            }
            k = k + 1;
        }
        proof {
            assert(edges@.take(edges@.len() as int) =~= edges@);
        }
    }
}

/// Ascending by neighbor id.
pub open spec fn sorted_by_id(s: Seq<(usize, usize)>) -> bool {
    forall|p: int, q: int| 0 <= p < q < s.len() ==> (#[trigger] s[p]).0 <= (#[trigger] s[q]).0
}

/// Where a stable insertion by ascending neighbor id places entry `e`: after
/// every entry whose id is at most `e`'s.
pub open spec fn insert_sorted(s: Seq<(usize, usize)>, e: (usize, usize)) -> Seq<(usize, usize)>
    decreases s.len(),
{
    if s.len() == 0 {
        seq![e]
    } else if s.last().0 <= e.0 {
        s.push(e)
    } else {
        insert_sorted(s.drop_last(), e).push(s.last())
    }
}

/// The image of `s` under stable insertion sort by ascending neighbor id.
pub open spec fn sort_entries(s: Seq<(usize, usize)>) -> Seq<(usize, usize)>
    decreases s.len(),
{
    if s.len() == 0 {
        Seq::empty()
    } else {
        insert_sorted(sort_entries(s.drop_last()), s.last())
    }
}

pub proof fn lemma_insert_sorted_multiset(s: Seq<(usize, usize)>, e: (usize, usize))
    ensures
        insert_sorted(s, e).to_multiset() == s.to_multiset().insert(e),
    decreases s.len(),
{
    broadcast use vstd::seq_lib::group_to_multiset_ensures;

    if s.len() == 0 {
        assert(seq![e] =~= Seq::<(usize, usize)>::empty().push(e));
        assert(Seq::<(usize, usize)>::empty().push(e).to_multiset()
            =~= Seq::<(usize, usize)>::empty().to_multiset().insert(e));
        assert(s.to_multiset() =~= Multiset::<(usize, usize)>::empty());
    } else if s.last().0 <= e.0 {
        assert(s.drop_last().push(s.last()) =~= s);
    } else {
        lemma_insert_sorted_multiset(s.drop_last(), e);
        assert(s.drop_last().push(s.last()) =~= s);
        assert(insert_sorted(s, e).to_multiset()
            =~= s.drop_last().to_multiset().insert(e).insert(s.last()));
        assert(s.drop_last().to_multiset().insert(e).insert(s.last())
            =~= s.drop_last().to_multiset().insert(s.last()).insert(e));
        assert(s.to_multiset() =~= s.drop_last().to_multiset().insert(s.last()));
        assert(insert_sorted(s, e).to_multiset() =~= s.to_multiset().insert(e));
    }
}

pub proof fn lemma_insert_sorted_sorted(s: Seq<(usize, usize)>, e: (usize, usize))
    requires
        sorted_by_id(s),
    ensures
        sorted_by_id(insert_sorted(s, e)),
    decreases s.len(),
{
    broadcast use vstd::seq_lib::group_to_multiset_ensures;

    if s.len() == 0 {
    } else if s.last().0 <= e.0 {
        assert forall|p: int, q: int|
            0 <= p < q < s.push(e).len()
                implies (#[trigger] s.push(e)[p]).0 <= (#[trigger] s.push(e)[q]).0 by {
            if q == s.len() {
                assert(s.push(e)[p] == s[p]);
                if p < s.len() - 1 {
                    assert(s[p].0 <= s[s.len() - 1].0);
                }
            }
        }
    } else {
        lemma_insert_sorted_sorted(s.drop_last(), e);
        lemma_insert_sorted_multiset(s.drop_last(), e);
        let r0 = insert_sorted(s.drop_last(), e);
        let r = r0.push(s.last());
        assert forall|p: int, q: int|
            0 <= p < q < r.len() implies (#[trigger] r[p]).0 <= (#[trigger] r[q]).0 by {
            if q == r0.len() {
                // every entry of r0 is an entry of s.drop_last(), or e itself
                let x = r0[p];
                assert(r0.contains(x));
                assert(r0.to_multiset().count(x) > 0);
                if x != e {
                    assert(s.drop_last().to_multiset().count(x) > 0);
                    assert(s.drop_last().contains(x));
                    let i = choose|i: int| 0 <= i < s.drop_last().len() && s.drop_last()[i] == x;
                    assert(s[i] == x);
                    assert(s[i].0 <= s[s.len() - 1].0);
                }
            }
        }
    }
}

pub proof fn lemma_sort_entries_multiset(s: Seq<(usize, usize)>)
    ensures
        sort_entries(s).to_multiset() == s.to_multiset(),
    decreases s.len(),
{
    broadcast use vstd::seq_lib::group_to_multiset_ensures;

    if s.len() == 0 {
        assert(sort_entries(s).to_multiset() =~= s.to_multiset());
    } else {
        lemma_sort_entries_multiset(s.drop_last());
        lemma_insert_sorted_multiset(sort_entries(s.drop_last()), s.last());
        assert(s.drop_last().push(s.last()) =~= s);
        assert(sort_entries(s).to_multiset() =~= s.to_multiset());
    }
}

pub proof fn lemma_sort_entries_sorted(s: Seq<(usize, usize)>)
    ensures
        sorted_by_id(sort_entries(s)),
    decreases s.len(),
{
    if s.len() == 0 {
    } else {
        lemma_sort_entries_sorted(s.drop_last());
        lemma_insert_sorted_sorted(sort_entries(s.drop_last()), s.last());
    }
}

proof fn lemma_insert_sorted_at(s: Seq<(usize, usize)>, e: (usize, usize), j: int)
    requires
        sorted_by_id(s),
        0 <= j <= s.len(),
        forall|i: int| 0 <= i < j ==> (#[trigger] s[i]).0 <= e.0,
        j < s.len() ==> s[j].0 > e.0,
    ensures
        insert_sorted(s, e) == s.take(j).push(e) + s.skip(j),
    decreases s.len(),
{
    if s.len() == 0 {
        assert(insert_sorted(s, e) =~= s.take(j).push(e) + s.skip(j));
    } else if s.last().0 <= e.0 {
        assert(j == s.len()) by {
            if j < s.len() {
                assert(s[j].0 <= s[s.len() - 1].0);
            }
        }
        assert(s.take(j) =~= s);
        assert(s.push(e) =~= s.take(j).push(e) + s.skip(j));
    } else {
        assert(j < s.len());
        lemma_insert_sorted_at(s.drop_last(), e, j);
        assert((s.drop_last().take(j).push(e) + s.drop_last().skip(j)).push(s.last())
            =~= s.take(j).push(e) + s.skip(j));
    }
}

/// Inserts `e` into a list kept ascending by neighbor id, after all entries
/// whose id is at most `e`'s.
fn insert_entry_sorted(list: &mut Vec<(usize, usize)>, e: (usize, usize))
    requires
        sorted_by_id(old(list)@),
    ensures
        final(list)@ == insert_sorted(old(list)@, e),
        sorted_by_id(final(list)@),
{
    let mut j: usize = 0;
    while j < list.len() && list[j].0 <= e.0
        invariant
            j <= list@.len(),
            list@ == old(list)@,
            forall|i: int| 0 <= i < j ==> (#[trigger] list@[i]).0 <= e.0,
        decreases list@.len() - j,
    {
        j = j + 1;
    }
    proof {
        lemma_insert_sorted_at(list@, e, j as int);
        lemma_insert_sorted_sorted(list@, e);
    }
    list.insert(j, e);
    proof {
        assert(old(list)@.insert(j as int, e) =~= old(list)@.take(j as int).push(e) + old(
            list,
        )@.skip(j as int));
    }
}

impl Graph {
    /// Sorts every adjacency list ascending by neighbor id, keeping entries
    /// with equal ids in their original relative order.
    pub fn sort_graph_lists(&mut self)
        ensures
            final(self).n == old(self).n,
            final(self).outedges@.len() == old(self).outedges@.len(),
            forall|i: int| 0 <= i < final(self).outedges@.len()
                ==> #[trigger] final(self).outedges@[i]@ == sort_entries(old(self).outedges@[i]@),
    {
        let mut li: usize = 0;
        while li < self.outedges.len()
            invariant
                li <= self.outedges@.len(),
                self.n == old(self).n,
                self.outedges@.len() == old(self).outedges@.len(),
                forall|i: int| li <= i < self.outedges@.len()
                    ==> #[trigger] self.outedges@[i]@ == old(self).outedges@[i]@,
                forall|i: int| 0 <= i < li
                    ==> #[trigger] self.outedges@[i]@ == sort_entries(old(self).outedges@[i]@),
            decreases self.outedges@.len() - li,
        {
            let ghost snap = self.outedges@;
            let mut sorted: Vec<(usize, usize)> = Vec::new();
            let mut k: usize = 0;
            proof {
                assert(snap[li as int]@.take(0) =~= Seq::<(usize, usize)>::empty());
            }
            while k < self.outedges[li].len()
                invariant
                    li < self.outedges@.len(),
                    self.outedges@ == snap,
                    k <= self.outedges@[li as int]@.len(),
                    sorted@ == sort_entries(self.outedges@[li as int]@.take(k as int)),
                    sorted_by_id(sorted@),
                decreases self.outedges@[li as int]@.len() - k,
            {
                let e = self.outedges[li][k];
                insert_entry_sorted(&mut sorted, e);
                proof {
                    let l = self.outedges@[li as int]@;
                    assert(l.take(k as int + 1).drop_last() =~= l.take(k as int));
                    assert(l.take(k as int + 1).last() == l[k as int]);
                }
                k = k + 1;
            }
            proof {
                let l = self.outedges@[li as int]@;
                assert(l.take(l.len() as int) =~= l);
            }
            self.outedges[li] = sorted;
            li = li + 1;
        }
    }

    /// Builds the undirected graph over `n` nodes from an edge list, then
    /// sorts every adjacency list ascending by neighbor id.
    pub fn create_undirected(n: usize, edges: &ListOfEdges) -> (g: Graph)
        requires
            forall|k: int| 0 <= k < edges@.len()
                ==> (#[trigger] edges@[k]).0 < n && edges@[k].1 < n,
        ensures
            graph_built_from(g, n, edges@),
            g.wf(),
    {
        let mut outedges: AdjacencyLists = Vec::new();
        let mut i: usize = 0;
        while i < n
            invariant
                i <= n,
                outedges@.len() == i,
                forall|j: int| 0 <= j < i
                    ==> #[trigger] outedges@[j]@ == Seq::<(usize, usize)>::empty(),
            decreases n - i,
        {
            outedges.push(Vec::new());
            i = i + 1;
        }
        let mut g = Graph { n, outedges };
        g.add_undirected_edges(edges);
        g.sort_graph_lists();
        proof {
            assert forall|i: int| 0 <= i < n
                implies #[trigger] g.outedges@[i]@ == sort_entries(incident_entries(i, edges@)) by {
                assert(Seq::<(usize, usize)>::empty() + incident_entries(i, edges@)
                    =~= incident_entries(i, edges@));
            }
            lemma_built_graph_wf(g, n, edges@);
        }
        g
    }
}

/// Whether `g` is exactly the graph that `create_undirected(n, edges)` builds.
pub open spec fn graph_built_from(g: Graph, n: usize, edges: Seq<(usize, usize, usize)>) -> bool {
    &&& g.n == n
    &&& g.outedges@.len() == n
    &&& forall|i: int| 0 <= i < n
        ==> #[trigger] g.outedges@[i]@ == sort_entries(incident_entries(i, edges))
}

/// Law: after construction, every adjacency list is sorted ascending by
/// neighbor id.
pub proof fn lemma_adjacency_sorted(g: Graph, n: usize, edges: Seq<(usize, usize, usize)>)
    requires
        graph_built_from(g, n, edges),
    ensures
        forall|i: int| 0 <= i < g.outedges@.len() ==> sorted_by_id(#[trigger] g.outedges@[i]@),
{
    assert forall|i: int| 0 <= i < g.outedges@.len()
        implies sorted_by_id(#[trigger] g.outedges@[i]@) by {
        lemma_sort_entries_sorted(incident_entries(i, edges));
    }
}

/// Law: building the graph twice from the same edge list yields identical
/// adjacency structures, entry for entry.
pub proof fn lemma_rebuild_identical(
    g1: Graph,
    g2: Graph,
    n: usize,
    edges: Seq<(usize, usize, usize)>,
)
    requires
        graph_built_from(g1, n, edges),
        graph_built_from(g2, n, edges),
    ensures
        g1.n == g2.n,
        g1.outedges@.len() == g2.outedges@.len(),
        forall|i: int| 0 <= i < g1.outedges@.len()
            ==> #[trigger] g1.outedges@[i]@ == g2.outedges@[i]@,
{
}

proof fn lemma_incident_entries_contains(
    u: usize,
    edges: Seq<(usize, usize, usize)>,
    v: usize,
    w: usize,
)
    ensures
        incident_entries(u as int, edges).contains((v, w)) <==> exists|k: int|
            0 <= k < edges.len() && (#[trigger] edges[k]).2 == w
                && ((edges[k].0 == u && edges[k].1 == v) || (edges[k].0 == v && edges[k].1 == u)),
    decreases edges.len(),
{
    let ie = incident_entries(u as int, edges);
    if edges.len() == 0 {
        assert(!ie.contains((v, w))) by {
            if ie.contains((v, w)) {
                let j = choose|j: int| 0 <= j < ie.len() && ie[j] == (v, w);
            }
        }
    } else {
        lemma_incident_entries_contains(u, edges.drop_last(), v, w);
        let rest = incident_entries(u as int, edges.drop_last());
        let e = edges.last();
        // an entry of `ie` is an entry of `rest` or one the last edge appended
        assert forall|x: (usize, usize)| #[trigger] ie.contains(x)
            implies rest.contains(x) || ((e.0 == u || e.1 == u) && x == (if e.0 == u { e.1 } else { e.0 }, e.2)) || (e.0 == u && e.1 == u && x == (e.0, e.2)) by {
            let j = choose|j: int| 0 <= j < ie.len() && ie[j] == x;
            if j < rest.len() {
                assert(rest[j] == x);
            }
        }
        assert forall|x: (usize, usize)| rest.contains(x) implies ie.contains(x) by {
            let j = choose|j: int| 0 <= j < rest.len() && rest[j] == x;
            assert(ie[j] == x);
        }
        if e.0 == u || e.1 == u {
            let other: usize = if e.0 == u { e.1 } else { e.0 };
            assert(ie.contains((other, e.2))) by {
                assert(ie[rest.len() as int] == (other, e.2) || ie[ie.len() - 1] == (other, e.2));
            }
            if e.0 == u && e.1 == u {
                assert(ie.contains((e.0, e.2))) by {
                    assert(ie[ie.len() - 1] == (e.0, e.2));
                }
            }
        }
        // tie the exists over all edges to the exists over the prefix
        assert forall|k: int|
            0 <= k < edges.drop_last().len() && (#[trigger] edges.drop_last()[k]).2 == w
                && ((edges.drop_last()[k].0 == u && edges.drop_last()[k].1 == v)
                    || (edges.drop_last()[k].0 == v && edges.drop_last()[k].1 == u))
            implies (edges[k].2 == w && ((edges[k].0 == u && edges[k].1 == v) || (edges[k].0 == v
            && edges[k].1 == u))) by {}
        if ie.contains((v, w)) {
            if !rest.contains((v, w)) {
                assert(edges[edges.len() - 1].2 == w && ((edges[edges.len() - 1].0 == u
                    && edges[edges.len() - 1].1 == v) || (edges[edges.len() - 1].0 == v
                    && edges[edges.len() - 1].1 == u)));
            }
        }
        if exists|k: int|
            0 <= k < edges.len() && (#[trigger] edges[k]).2 == w && ((edges[k].0 == u && edges[k].1
                == v) || (edges[k].0 == v && edges[k].1 == u)) {
            let k = choose|k: int|
                0 <= k < edges.len() && (#[trigger] edges[k]).2 == w && ((edges[k].0 == u
                    && edges[k].1 == v) || (edges[k].0 == v && edges[k].1 == u));
            if k < edges.len() - 1 {
                assert(edges.drop_last()[k] == edges[k]);
            }
        }
    }
}

/// Law: adjacency is symmetric — `(v, w)` stands in `u`'s list iff `(u, w)`
/// stands in `v`'s list, with the same weight.
pub proof fn lemma_adjacency_symmetric(
    g: Graph,
    n: usize,
    edges: Seq<(usize, usize, usize)>,
    u: usize,
    v: usize,
    w: usize,
)
    requires
        graph_built_from(g, n, edges),
        u < n,
        v < n,
    ensures
        g.outedges@[u as int]@.contains((v, w)) <==> g.outedges@[v as int]@.contains((u, w)),
{
    broadcast use vstd::seq_lib::group_to_multiset_ensures;

    lemma_sort_entries_multiset(incident_entries(u as int, edges));
    lemma_sort_entries_multiset(incident_entries(v as int, edges));
    lemma_incident_entries_contains(u, edges, v, w);
    lemma_incident_entries_contains(v, edges, u, w);
    assert(g.outedges@[u as int]@.to_multiset().count((v, w)) == incident_entries(
        u as int,
        edges,
    ).to_multiset().count((v, w)));
    assert(g.outedges@[v as int]@.to_multiset().count((u, w)) == incident_entries(
        v as int,
        edges,
    ).to_multiset().count((u, w)));
    assert(g.outedges@[u as int]@.contains((v, w)) <==> incident_entries(u as int, edges).contains(
        (v, w),
    ));
    assert(g.outedges@[v as int]@.contains((u, w)) <==> incident_entries(v as int, edges).contains(
        (u, w),
    ));
}

proof fn lemma_incident_entries_in_range(i: int, edges: Seq<(usize, usize, usize)>, n: int)
    requires
        forall|k: int| 0 <= k < edges.len() ==> (#[trigger] edges[k]).0 < n && edges[k].1 < n,
    ensures
        forall|j: int| 0 <= j < incident_entries(i, edges).len()
            ==> (#[trigger] incident_entries(i, edges)[j]).0 < n,
    decreases edges.len(),
{
    if edges.len() == 0 {
    } else {
        assert(forall|k: int| 0 <= k < edges.drop_last().len()
            ==> (#[trigger] edges.drop_last()[k]).0 < n && edges.drop_last()[k].1 < n);
        lemma_incident_entries_in_range(i, edges.drop_last(), n);
        let e = edges.last();
        let rest = incident_entries(i, edges.drop_last());
        assert(e.0 < n && e.1 < n);
        assert forall|j: int| 0 <= j < incident_entries(i, edges).len()
            implies (#[trigger] incident_entries(i, edges)[j]).0 < n by {
            if j < rest.len() {
                assert(incident_entries(i, edges)[j] == rest[j]);
            }
        }
    }
}

proof fn lemma_built_graph_wf(g: Graph, n: usize, edges: Seq<(usize, usize, usize)>)
    requires
        graph_built_from(g, n, edges),
        forall|k: int| 0 <= k < edges.len() ==> (#[trigger] edges[k]).0 < n && edges[k].1 < n,
    ensures
        g.wf(),
{
    broadcast use vstd::seq_lib::group_to_multiset_ensures;

    assert forall|i: int, j: int|
        0 <= i < g.outedges@.len() && 0 <= j < g.outedges@[i]@.len()
            implies (#[trigger] g.outedges@[i]@[j]).0 < g.n by {
        let ie = incident_entries(i, edges);
        lemma_incident_entries_in_range(i, edges, n as int);
        lemma_sort_entries_multiset(ie);
        let x = g.outedges@[i]@[j];
        assert(g.outedges@[i]@.contains(x));
        assert(ie.to_multiset().count(x) > 0);
        assert(ie.contains(x));
        let m = choose|m: int| 0 <= m < ie.len() && ie[m] == x;
        assert(ie[m].0 < n);
    }
}

/// One raw pairing as the record reader hands it over; a missing field is
/// `None`.
pub struct MatchRecord {
    pub team: Option<String>,
    pub opponent: Option<String>,
}

impl MatchRecord {
    /// Both participant names are present and non-empty.
    pub open spec fn valid(self) -> bool {
        &&& self.team is Some && self.team->0@.len() > 0
        &&& self.opponent is Some && self.opponent->0@.len() > 0
    }

    pub open spec fn team_name(self) -> Seq<char> {
        self.team->0@
    }

    pub open spec fn opponent_name(self) -> Seq<char> {
        self.opponent->0@
    }
}

/// The registry and the aggregated canonical edges after some records.
pub struct AggModel {
    pub names: Seq<Seq<char>>,
    pub edges: Seq<(usize, usize, usize)>,
}

pub open spec fn names_view(names: Seq<String>) -> Seq<Seq<char>> {
    names.map_values(|s: String| s@)
}

/// The id a name resolves to: its earliest position in the registry.
pub open spec fn first_index_of(names: Seq<Seq<char>>, name: Seq<char>) -> int
    decreases names.len(),
{
    if names.len() == 0 {
        0
    } else if names[0] == name {
        0
    } else {
        1 + first_index_of(names.drop_first(), name)
    }
}

/// Interns `name` on first sight: a known name leaves the registry unchanged,
/// a new one is appended.
pub open spec fn register_name(names: Seq<Seq<char>>, name: Seq<char>) -> Seq<Seq<char>> {
    if names.contains(name) {
        names
    } else {
        names.push(name)
    }
}

pub open spec fn add_weight(w: usize) -> usize {
    (w + 1) as usize
}

/// Adds one occurrence of the canonical pair `(u, v)`: the existing entry's
/// weight rises by one, or a fresh entry of weight 1 is appended.
pub open spec fn bump_pair(
    edges: Seq<(usize, usize, usize)>,
    u: usize,
    v: usize,
) -> Seq<(usize, usize, usize)>
    decreases edges.len(),
{
    if edges.len() == 0 {
        seq![(u, v, 1usize)]
    } else if edges.first().0 == u && edges.first().1 == v {
        seq![(u, v, add_weight(edges.first().2))] + edges.drop_first()
    } else {
        seq![edges.first()] + bump_pair(edges.drop_first(), u, v)
    }
}

/// Folds one record into the aggregation: both names are interned, then one
/// occurrence of their canonical `(lower id, higher id)` pair is counted.
/// A record pairing a name with itself registers the name but adds no edge.
pub open spec fn agg_step(st: AggModel, rec: MatchRecord) -> AggModel {
    let names1 = register_name(st.names, rec.team_name());
    let a = first_index_of(names1, rec.team_name());
    let names2 = register_name(names1, rec.opponent_name());
    let b = first_index_of(names2, rec.opponent_name());
    if a == b {
        AggModel { names: names2, edges: st.edges }
    } else if a < b {
        AggModel { names: names2, edges: bump_pair(st.edges, a as usize, b as usize) }
    } else {
        AggModel { names: names2, edges: bump_pair(st.edges, b as usize, a as usize) }
    }
}

/// The aggregation of a whole record sequence, record by record.
pub open spec fn agg_records(records: Seq<MatchRecord>) -> AggModel
    decreases records.len(),
{
    if records.len() == 0 {
        AggModel { names: Seq::empty(), edges: Seq::empty() }
    } else {
        agg_step(agg_records(records.drop_last()), records.last())
    }
}

pub proof fn lemma_first_index_bound(names: Seq<Seq<char>>, name: Seq<char>)
    requires
        names.contains(name),
    ensures
        0 <= first_index_of(names, name) < names.len(),
        names[first_index_of(names, name)] == name,
        forall|j: int| 0 <= j < first_index_of(names, name) ==> names[j] != name,
    decreases names.len(),
{
    if names[0] == name {
    } else {
        assert(names.drop_first().contains(name)) by {
            let i = choose|i: int| 0 <= i < names.len() && names[i] == name;
            assert(names.drop_first()[i - 1] == name);
        }
        lemma_first_index_bound(names.drop_first(), name);
        assert forall|j: int| 0 <= j < first_index_of(names, name) implies names[j] != name by {
            if j > 0 {
                assert(names.drop_first()[j - 1] == names[j]);
            }
        }
    }
}

proof fn lemma_first_index_at(names: Seq<Seq<char>>, name: Seq<char>, i: int)
    requires
        0 <= i < names.len(),
        names[i] == name,
        forall|j: int| 0 <= j < i ==> names[j] != name,
    ensures
        first_index_of(names, name) == i,
        names.contains(name),
    decreases i,
{
    if i == 0 {
    } else {
        lemma_first_index_at(names.drop_first(), name, i - 1);
    }
}

proof fn lemma_bump_pair_at(edges: Seq<(usize, usize, usize)>, u: usize, v: usize, i: int)
    requires
        0 <= i < edges.len(),
        edges[i].0 == u && edges[i].1 == v,
        forall|j: int| 0 <= j < i ==> !((#[trigger] edges[j]).0 == u && edges[j].1 == v),
    ensures
        bump_pair(edges, u, v) == edges.update(i, (u, v, add_weight(edges[i].2))),
    decreases i,
{
    if i == 0 {
        assert(seq![(u, v, add_weight(edges.first().2))] + edges.drop_first() =~= edges.update(
            0,
            (u, v, add_weight(edges[0].2)),
        ));
    } else {
        lemma_bump_pair_at(edges.drop_first(), u, v, i - 1);
        assert(seq![edges.first()] + edges.drop_first().update(
            i - 1,
            (u, v, add_weight(edges[i].2)),
        ) =~= edges.update(i, (u, v, add_weight(edges[i].2))));
    }
}

proof fn lemma_bump_pair_missing(edges: Seq<(usize, usize, usize)>, u: usize, v: usize)
    requires
        forall|j: int| 0 <= j < edges.len() ==> !((#[trigger] edges[j]).0 == u && edges[j].1 == v),
    ensures
        bump_pair(edges, u, v) == edges.push((u, v, 1usize)),
    decreases edges.len(),
{
    if edges.len() == 0 {
        assert(seq![(u, v, 1usize)] =~= edges.push((u, v, 1usize)));
    } else {
        lemma_bump_pair_missing(edges.drop_first(), u, v);
        assert(seq![edges.first()] + edges.drop_first().push((u, v, 1usize)) =~= edges.push(
            (u, v, 1usize),
        ));
    }
}

proof fn lemma_bump_pair_shape(edges: Seq<(usize, usize, usize)>, u: usize, v: usize)
    ensures
        ({
            let r = bump_pair(edges, u, v);
            &&& edges.len() <= r.len() <= edges.len() + 1
            &&& forall|j: int| 0 <= j < edges.len()
                ==> (#[trigger] r[j]).0 == edges[j].0 && r[j].1 == edges[j].1 && (r[j].2
                    == edges[j].2 || r[j].2 == add_weight(edges[j].2))
            &&& r.len() == edges.len() + 1 ==> r[edges.len() as int] == (u, v, 1usize) && (forall|
                j: int,
            | 0 <= j < edges.len() ==> !((#[trigger] edges[j]).0 == u && edges[j].1 == v))
        }),
    decreases edges.len(),
{
    if edges.len() == 0 {
    } else if edges.first().0 == u && edges.first().1 == v {
    } else {
        lemma_bump_pair_shape(edges.drop_first(), u, v);
        let r = bump_pair(edges, u, v);
        let rr = bump_pair(edges.drop_first(), u, v);
        assert forall|j: int| 0 <= j < edges.len()
            implies (#[trigger] r[j]).0 == edges[j].0 && r[j].1 == edges[j].1 && (r[j].2
                == edges[j].2 || r[j].2 == add_weight(edges[j].2)) by {
            if j > 0 {
                assert(r[j] == rr[j - 1]);
                assert(edges[j] == edges.drop_first()[j - 1]);
            }
        }
        if r.len() == edges.len() + 1 {
            assert(r[edges.len() as int] == rr[edges.len() - 1]);
            assert forall|j: int| 0 <= j < edges.len()
                implies !((#[trigger] edges[j]).0 == u && edges[j].1 == v) by {
                if j > 0 {
                    assert(edges[j] == edges.drop_first()[j - 1]);
                }
            }
        }
    }
}

/// Soundness of the aggregation: the registry holds no name twice, every edge
/// is canonical (`lower id < higher id`) with both ids dense, no unordered
/// pair appears twice, and each weight counts at most one occurrence per
/// record. The two bounds are machine limits: a record batch and a registry
/// held in memory fit in `usize`.
pub proof fn lemma_agg_records_wf(records: Seq<MatchRecord>)
    requires
        records.len() <= usize::MAX,
        agg_records(records).names.len() <= usize::MAX,
    ensures
        ({
            let agg = agg_records(records);
            &&& agg.names.no_duplicates()
            &&& agg.names.len() <= usize::MAX
            &&& forall|k: int| 0 <= k < agg.edges.len() ==> {
                let e = #[trigger] agg.edges[k];
                e.0 < e.1 && e.1 < agg.names.len() && 1 <= e.2 && e.2 <= records.len()
            }
            &&& forall|k1: int, k2: int|
                0 <= k1 < k2 < agg.edges.len()
                    ==> !((#[trigger] agg.edges[k1]).0 == (#[trigger] agg.edges[k2]).0
                        && agg.edges[k1].1 == agg.edges[k2].1)
        }),
    decreases records.len(),
{
    if records.len() == 0 {
    } else {
        let st = agg_records(records.drop_last());
        let rec = records.last();
        let names1 = register_name(st.names, rec.team_name());
        let a = first_index_of(names1, rec.team_name());
        let names2 = register_name(names1, rec.opponent_name());
        let b = first_index_of(names2, rec.opponent_name());
        assert(st.names.len() <= names1.len() <= names2.len());
        assert(agg_records(records).names == names2);
        lemma_agg_records_wf(records.drop_last());
        assert(names1.contains(rec.team_name())) by {
            if !st.names.contains(rec.team_name()) {
                assert(names1[st.names.len() as int] == rec.team_name());
            }
        }
        assert(names2.contains(rec.opponent_name())) by {
            if !names1.contains(rec.opponent_name()) {
                assert(names2[names1.len() as int] == rec.opponent_name());
            }
        }
        assert(names1.no_duplicates());
        assert(names2.no_duplicates());
        lemma_first_index_bound(names1, rec.team_name());
        lemma_first_index_bound(names2, rec.opponent_name());
        assert(0 <= a < names1.len());
        assert(0 <= b < names2.len());
        assert(names2.len() >= names1.len() >= st.names.len());
        let agg = agg_records(records);
        assert(agg.names == names2);
        if a != b {
            let lo: usize = if a < b { a as usize } else { b as usize };
            let hi: usize = if a < b { b as usize } else { a as usize };
            lemma_bump_pair_shape(st.edges, lo, hi);
            let r = bump_pair(st.edges, lo, hi);
            assert(agg.edges == r);
            assert(lo < hi < names2.len());
            assert forall|k: int| 0 <= k < r.len() implies {
                let e = #[trigger] r[k];
                e.0 < e.1 && e.1 < agg.names.len() && 1 <= e.2 && e.2 <= records.len()
            } by {
                if k < st.edges.len() {
                    assert(st.edges[k].2 <= records.drop_last().len());
                }
            }
            assert forall|k1: int, k2: int| 0 <= k1 < k2 < r.len()
                implies !((#[trigger] r[k1]).0 == (#[trigger] r[k2]).0 && r[k1].1
                == r[k2].1) by {
                if k2 < st.edges.len() {
                    assert(r[k1].0 == st.edges[k1].0 && r[k1].1 == st.edges[k1].1);
                    assert(r[k2].0 == st.edges[k2].0 && r[k2].1 == st.edges[k2].1);
                } else if k2 == st.edges.len() && r.len() == st.edges.len() + 1 {
                    assert(r[k2] == (lo, hi, 1usize));
                    assert(!(st.edges[k1].0 == lo && st.edges[k1].1 == hi));
                    assert(r[k1].0 == st.edges[k1].0 && r[k1].1 == st.edges[k1].1);
                }
            }
        } else {
            assert forall|k: int| 0 <= k < agg.edges.len() implies {
                let e = #[trigger] agg.edges[k];
                e.0 < e.1 && e.1 < agg.names.len() && 1 <= e.2 && e.2 <= records.len()
            } by {
                assert(st.edges[k].2 <= records.drop_last().len());
            }
        }
    }
}

/// Looks a name up in the registry; `Some` carries its first-seen position.
fn lookup_name(names: &Vec<String>, name: &String) -> (r: Option<usize>)
    ensures
        match r {
            Some(i) => names_view(names@).contains(name@) && i == first_index_of(
                names_view(names@),
                name@,
            ) && i < names@.len(),
            None => !names_view(names@).contains(name@),
        },
{
    let mut i: usize = 0;
    while i < names.len()
        invariant
            i <= names@.len(),
            forall|j: int| 0 <= j < i ==> names_view(names@)[j] != name@,
        decreases names@.len() - i,
    {
        if names[i] == *name {
            proof {
                lemma_first_index_at(names_view(names@), name@, i as int);
            }
            return Some(i);
        }
        i = i + 1;
    }
    proof {
        if names_view(names@).contains(name@) {
            let j = choose|j: int|
                0 <= j < names_view(names@).len() && names_view(names@)[j] == name@;
        }
    }
    None
}

/// Resolves a name to its id, interning it at the registry's end when new.
fn get_or_insert(names: &mut Vec<String>, name: &String) -> (id: usize)
    ensures
        names_view(final(names)@) == register_name(names_view(old(names)@), name@),
        id == first_index_of(names_view(final(names)@), name@),
        id < final(names)@.len(),
        names_view(final(names)@)[id as int] == name@,
{
    match lookup_name(names, name) {
        Some(i) => {
            proof {
                lemma_first_index_bound(names_view(names@), name@);
            }
            i
        },
        None => {
            let id = names.len();
            names.push(name.clone());
            proof {
                assert(names_view(names@) =~= names_view(old(names)@).push(name@));
                lemma_first_index_at(names_view(names@), name@, id as int);
            }
            id
        },
    }
}

/// Adds one occurrence of the canonical pair `(u, v)` to the edge list.
fn bump_pair_count(edges: &mut ListOfEdges, u: usize, v: usize)
    requires
        forall|j: int| 0 <= j < old(edges)@.len() ==> (#[trigger] old(edges)@[j]).2 < usize::MAX,
    ensures
        final(edges)@ == bump_pair(old(edges)@, u, v),
{
    let mut i: usize = 0;
    while i < edges.len()
        invariant
            i <= edges@.len(),
            edges@ == old(edges)@,
            forall|j: int| 0 <= j < edges@.len() ==> (#[trigger] old(edges)@[j]).2 < usize::MAX,
            forall|j: int| 0 <= j < i ==> !((#[trigger] edges@[j]).0 == u && edges@[j].1 == v),
        decreases edges@.len() - i,
    {
        let e = edges[i];
        if e.0 == u && e.1 == v {
            proof {
                assert(old(edges)@[i as int].2 < usize::MAX);
            }
            edges[i] = (u, v, e.2 + 1);
            proof {
                lemma_bump_pair_at(old(edges)@, u, v, i as int);
            }
            return ;
        }
        i = i + 1;
    }
    edges.push((u, v, 1));
    proof {
        lemma_bump_pair_missing(old(edges)@, u, v);
    }
}

/// Every entity name any record mentions, on either side.
pub open spec fn all_names(records: Seq<MatchRecord>) -> Set<Seq<char>>
    decreases records.len(),
{
    if records.len() == 0 {
        Set::empty()
    } else {
        all_names(records.drop_last()).insert(records.last().team_name()).insert(
            records.last().opponent_name(),
        )
    }
}

proof fn lemma_register_to_set(names: Seq<Seq<char>>, name: Seq<char>)
    ensures
        register_name(names, name).to_set() == names.to_set().insert(name),
{
    broadcast use vstd::set::group_set_axioms;

    let r = register_name(names, name);
    assert forall|z: Seq<char>| r.contains(z) implies names.contains(z) || z == name by {
        let j = choose|j: int| 0 <= j < r.len() && r[j] == z;
        if j < names.len() {
            assert(names[j] == z);
        }
    }
    assert forall|z: Seq<char>| names.contains(z) implies r.contains(z) by {
        let j = choose|j: int| 0 <= j < names.len() && names[j] == z;
        assert(r[j] == z);
    }
    assert(r.contains(name)) by {
        if !names.contains(name) {
            assert(r[names.len() as int] == name);
        }
    }
    assert(r.to_set() =~= names.to_set().insert(name));
}

/// Law: the registry is exactly the set of distinct names across both fields
/// of all records, without repetition — its length is the number of distinct
/// names seen.
pub proof fn lemma_registry_counts_distinct_names(records: Seq<MatchRecord>)
    ensures
        agg_records(records).names.to_set() == all_names(records),
        agg_records(records).names.no_duplicates(),
        agg_records(records).names.len() == all_names(records).len(),
    decreases records.len(),
{
    broadcast use vstd::set::group_set_axioms;

    if records.len() == 0 {
        assert(agg_records(records).names.to_set() =~= all_names(records));
    } else {
        lemma_registry_counts_distinct_names(records.drop_last());
        let st = agg_records(records.drop_last());
        let rec = records.last();
        let names1 = register_name(st.names, rec.team_name());
        let names2 = register_name(names1, rec.opponent_name());
        lemma_register_to_set(st.names, rec.team_name());
        lemma_register_to_set(names1, rec.opponent_name());
        assert(names2.to_set() =~= all_names(records));
        assert(names1.no_duplicates());
        assert(names2.no_duplicates());
        names2.unique_seq_to_set();
        assert(all_names(records).len() == names2.len());
    }
}

/// Whether one record pairs the two given names, in either order.
pub open spec fn matches_pair(rec: MatchRecord, x: Seq<char>, y: Seq<char>) -> bool {
    (rec.team_name() == x && rec.opponent_name() == y) || (rec.team_name() == y
        && rec.opponent_name() == x)
}

/// How many records pair the two given names, in either order.
pub open spec fn pair_occurrences(records: Seq<MatchRecord>, x: Seq<char>, y: Seq<char>) -> int
    decreases records.len(),
{
    if records.len() == 0 {
        0
    } else {
        pair_occurrences(records.drop_last(), x, y) + if matches_pair(records.last(), x, y) {
            1int
        } else {
            0int
        }
    }
}

proof fn lemma_register_stable(names: Seq<Seq<char>>, z: Seq<char>, name: Seq<char>)
    requires
        names.contains(name),
    ensures
        first_index_of(register_name(names, z), name) == first_index_of(names, name),
        register_name(names, z).contains(name),
{
    lemma_first_index_bound(names, name);
    let r = register_name(names, z);
    if !names.contains(z) {
        lemma_first_index_at(r, name, first_index_of(names, name));
    }
}

proof fn lemma_pair_occurrences_missing(records: Seq<MatchRecord>, x: Seq<char>, y: Seq<char>)
    requires
        !all_names(records).contains(x) || !all_names(records).contains(y),
    ensures
        pair_occurrences(records, x, y) == 0,
    decreases records.len(),
{
    broadcast use vstd::set::group_set_axioms;

    if records.len() > 0 {
        assert(!all_names(records.drop_last()).contains(x) || !all_names(
            records.drop_last(),
        ).contains(y));
        lemma_pair_occurrences_missing(records.drop_last(), x, y);
        if matches_pair(records.last(), x, y) {
            assert(all_names(records).contains(x) && all_names(records).contains(y));
        }
    }
}

/// Law: for two distinct registered entities, the aggregated edge list holds
/// an entry for their canonical pair exactly when some record pairs them, and
/// its weight is exactly the number of records that do so, in either order.
/// The two bounds of `lemma_agg_records_wf` are machine limits again.
pub proof fn lemma_edge_weights_count_occurrences(records: Seq<MatchRecord>, u: usize, v: usize)
    requires
        records.len() <= usize::MAX,
        agg_records(records).names.len() <= usize::MAX,
        u < v,
        (v as int) < agg_records(records).names.len(),
    ensures
        ({
            let agg = agg_records(records);
            let k = pair_occurrences(records, agg.names[u as int], agg.names[v as int]);
            &&& k > 0 ==> exists|j: int|
                0 <= j < agg.edges.len() && (#[trigger] agg.edges[j]) == (u, v, k as usize)
            &&& k == 0 ==> forall|j: int|
                0 <= j < agg.edges.len() ==> !((#[trigger] agg.edges[j]).0 == u && agg.edges[j].1
                    == v)
        }),
    decreases records.len(),
{
    broadcast use vstd::set::group_set_axioms;

    if records.len() == 0 {
    } else {
        let agg = agg_records(records);
        let pre = records.drop_last();
        let st = agg_records(pre);
        let rec = records.last();
        let names1 = register_name(st.names, rec.team_name());
        let names2 = register_name(names1, rec.opponent_name());
        let a = first_index_of(names1, rec.team_name());
        let b = first_index_of(names2, rec.opponent_name());
        let x = agg.names[u as int];
        let y = agg.names[v as int];
        let k = pair_occurrences(records, x, y);
        let kpre = pair_occurrences(pre, x, y);
        assert(agg.names == names2);
        assert(st.names.len() <= names1.len() <= names2.len());
        lemma_agg_records_wf(records);
        lemma_agg_records_wf(pre);
        lemma_registry_counts_distinct_names(pre);
        assert(names1.contains(rec.team_name())) by {
            if !st.names.contains(rec.team_name()) {
                assert(names1[st.names.len() as int] == rec.team_name());
            }
        }
        assert(names2.contains(rec.opponent_name())) by {
            if !names1.contains(rec.opponent_name()) {
                assert(names2[names1.len() as int] == rec.opponent_name());
            }
        }
        lemma_first_index_bound(names1, rec.team_name());
        lemma_first_index_bound(names2, rec.opponent_name());
        lemma_register_stable(names1, rec.opponent_name(), rec.team_name());
        assert(first_index_of(names2, rec.team_name()) == a);
        lemma_first_index_bound(names2, rec.team_name());
        assert(names2[a] == rec.team_name());
        assert(names2[b] == rec.opponent_name());
        assert(forall|i: int| 0 <= i < names1.len() ==> #[trigger] names2[i] == names1[i]);
        assert(forall|i: int| 0 <= i < st.names.len() ==> #[trigger] names1[i] == st.names[i]);
        assert(x != y);
        // a registered prefix id keeps its name; a name outside the prefix
        // registry cannot be paired by any prefix record
        if (u as int) >= st.names.len() || (v as int) >= st.names.len() {
            assert(kpre == 0) by {
                if (v as int) >= st.names.len() {
                    assert(!st.names.contains(y)) by {
                        if st.names.contains(y) {
                            let i = choose|i: int|
                                0 <= i < st.names.len() && st.names[i] == y;
                            assert(names2[i] == y && names2[v as int] == y && i != v as int);
                        }
                    }
                    assert(!all_names(pre).contains(y));
                } else {
                    assert(!st.names.contains(x)) by {
                        if st.names.contains(x) {
                            let i = choose|i: int|
                                0 <= i < st.names.len() && st.names[i] == x;
                            assert(names2[i] == x && names2[u as int] == x && i != u as int);
                        }
                    }
                    assert(!all_names(pre).contains(x));
                }
                lemma_pair_occurrences_missing(pre, x, y);
            }
            assert(forall|j: int| 0 <= j < st.edges.len()
                ==> !((#[trigger] st.edges[j]).0 == u && st.edges[j].1 == v));
        } else {
            assert(st.names[u as int] == x && st.names[v as int] == y);
            lemma_edge_weights_count_occurrences(pre, u, v);
        }
        // whichever way, the prefix facts now hold for kpre:
        assert(kpre > 0 ==> exists|j: int|
            0 <= j < st.edges.len() && (#[trigger] st.edges[j]) == (u, v, kpre as usize));
        assert(kpre == 0 ==> forall|j: int|
            0 <= j < st.edges.len() ==> !((#[trigger] st.edges[j]).0 == u && st.edges[j].1 == v));
        assert(0 <= kpre <= pre.len()) by {
            lemma_pair_occurrences_bounds(pre, x, y);
        }
        if matches_pair(rec, x, y) {
            assert(k == kpre + 1);
            // the record's two ids are exactly u and v
            if rec.team_name() == x {
                lemma_first_index_at(names2, x, u as int);
                lemma_first_index_at(names2, y, v as int);
                assert(a == u as int && b == v as int);
            } else {
                lemma_first_index_at(names2, y, v as int);
                lemma_first_index_at(names2, x, u as int);
                assert(a == v as int && b == u as int);
            }
            assert(agg.edges == bump_pair(st.edges, u, v));
            if kpre > 0 {
                let j = choose|j: int|
                    0 <= j < st.edges.len() && (#[trigger] st.edges[j]) == (u, v, kpre as usize);
                assert forall|i: int| 0 <= i < j
                    implies !((#[trigger] st.edges[i]).0 == u && st.edges[i].1 == v) by {}
                lemma_bump_pair_at(st.edges, u, v, j);
                assert(agg.edges[j] == (u, v, add_weight(kpre as usize)));
                assert(add_weight(kpre as usize) == k as usize);
            } else {
                lemma_bump_pair_missing(st.edges, u, v);
                assert(agg.edges[st.edges.len() as int] == (u, v, 1usize));
            }
        } else {
            assert(k == kpre);
            if a != b {
                let lo: usize = if a < b { a as usize } else { b as usize };
                let hi: usize = if a < b { b as usize } else { a as usize };
                assert(agg.edges == bump_pair(st.edges, lo, hi));
                assert(!(lo == u && hi == v)) by {
                    if lo == u && hi == v {
                        if a < b {
                            assert(rec.team_name() == names2[u as int]);
                            assert(rec.opponent_name() == names2[v as int]);
                        } else {
                            assert(rec.team_name() == names2[v as int]);
                            assert(rec.opponent_name() == names2[u as int]);
                        }
                        assert(matches_pair(rec, x, y));
                    }
                }
                lemma_bump_pair_shape(st.edges, lo, hi);
                if exists|i: int|
                    0 <= i < st.edges.len() && (#[trigger] st.edges[i]).0 == lo && st.edges[i].1
                        == hi {
                    let i = choose|i: int|
                        0 <= i < st.edges.len() && (#[trigger] st.edges[i]).0 == lo
                            && st.edges[i].1 == hi;
                    assert forall|m: int| 0 <= m < i
                        implies !((#[trigger] st.edges[m]).0 == lo && st.edges[m].1 == hi) by {}
                    lemma_bump_pair_at(st.edges, lo, hi, i);
                    if kpre > 0 {
                        let j = choose|j: int|
                            0 <= j < st.edges.len() && (#[trigger] st.edges[j]) == (
                                u,
                                v,
                                kpre as usize,
                            );
                        assert(j != i);
                        assert(agg.edges[j] == (u, v, kpre as usize));
                    }
                } else {
                    lemma_bump_pair_missing(st.edges, lo, hi);
                    if kpre > 0 {
                        let j = choose|j: int|
                            0 <= j < st.edges.len() && (#[trigger] st.edges[j]) == (
                                u,
                                v,
                                kpre as usize,
                            );
                        assert(agg.edges[j] == (u, v, kpre as usize));
                    }
                }
            } else {
                assert(agg.edges == st.edges);
            }
        }
    }
}

/// Whether an edge runs between `u` and `v` with weight `w`, either way round.
pub open spec fn edge_matches(e: (usize, usize, usize), u: usize, v: usize, w: usize) -> bool {
    e == (u, v, w) || e == (v, u, w)
}

/// How many edges of the list run between `u` and `v` with weight `w`.
pub open spec fn count_edge(
    edges: Seq<(usize, usize, usize)>,
    u: usize,
    v: usize,
    w: usize,
) -> int
    decreases edges.len(),
{
    if edges.len() == 0 {
        0
    } else {
        count_edge(edges.drop_last(), u, v, w) + if edge_matches(edges.last(), u, v, w) {
            1int
        } else {
            0int
        }
    }
}

proof fn lemma_incident_count(edges: Seq<(usize, usize, usize)>, u: usize, v: usize, w: usize)
    requires
        u != v,
    ensures
        incident_entries(u as int, edges).to_multiset().count((v, w)) == count_edge(
            edges,
            u,
            v,
            w,
        ),
    decreases edges.len(),
{
    broadcast use vstd::seq_lib::group_to_multiset_ensures;

    if edges.len() == 0 {
        assert(incident_entries(u as int, edges).to_multiset() =~= Multiset::<(
            usize,
            usize,
        )>::empty());
    } else {
        lemma_incident_count(edges.drop_last(), u, v, w);
    }
}

/// Law: the finished Graph Store holds, between two distinct registered
/// entities paired by `k > 0` records, exactly one adjacency entry for `v`
/// in `u`'s list, and it carries weight exactly `k`; entities never paired
/// share no entry at any weight.
pub proof fn lemma_graph_edge_weight(
    records: Seq<MatchRecord>,
    g: Graph,
    n: usize,
    u: usize,
    v: usize,
)
    requires
        records.len() <= usize::MAX,
        agg_records(records).names.len() <= usize::MAX,
        n as int == agg_records(records).names.len(),
        graph_built_from(g, n, agg_records(records).edges),
        u < v,
        (v as int) < n,
    ensures
        ({
            let agg = agg_records(records);
            let k = pair_occurrences(records, agg.names[u as int], agg.names[v as int]);
            &&& k > 0 ==> g.outedges@[u as int]@.to_multiset().count((v, k as usize)) == 1
            &&& forall|w: usize|
                w as int != k ==> g.outedges@[u as int]@.to_multiset().count((v, w)) == 0
        }),
{
    broadcast use vstd::seq_lib::group_to_multiset_ensures;

    let agg = agg_records(records);
    let k = pair_occurrences(records, agg.names[u as int], agg.names[v as int]);
    lemma_agg_records_wf(records);
    lemma_edge_weights_count_occurrences(records, u, v);
    lemma_pair_occurrences_bounds(records, agg.names[u as int], agg.names[v as int]);
    lemma_sort_entries_multiset(incident_entries(u as int, agg.edges));
    assert forall|w: usize|
        g.outedges@[u as int]@.to_multiset().count((v, w)) == count_edge(
            agg.edges,
            u,
            v,
            w,
        ) by {
        lemma_incident_count(agg.edges, u, v, w);
    }
    // every edge is canonical with a unique pair, so at most one index can
    // match, and the occurrence law says which one does
    assert forall|w: usize|
        count_edge(agg.edges, u, v, w) == (if k > 0 && w as int == k {
            1int
        } else {
            0int
        }) by {
        if k > 0 {
            let j = choose|j: int|
                0 <= j < agg.edges.len() && (#[trigger] agg.edges[j]) == (u, v, k as usize);
            lemma_count_edge_pinpoint(agg.edges, u, v, w, j);
        } else {
            lemma_count_edge_zero(agg.edges, u, v, w);
        }
    }
    if k > 0 {
        assert((k as usize) as int == k);
        assert(g.outedges@[u as int]@.to_multiset().count((v, k as usize)) == count_edge(
            agg.edges,
            u,
            v,
            k as usize,
        ));
    }
    assert forall|w: usize| w as int != k
        implies g.outedges@[u as int]@.to_multiset().count((v, w)) == 0 by {
        assert(g.outedges@[u as int]@.to_multiset().count((v, w)) == count_edge(
            agg.edges,
            u,
            v,
            w,
        ));
    }
}

proof fn lemma_count_edge_zero(edges: Seq<(usize, usize, usize)>, u: usize, v: usize, w: usize)
    requires
        forall|j: int| 0 <= j < edges.len() ==> (#[trigger] edges[j]).0 < edges[j].1,
        forall|j: int| 0 <= j < edges.len() ==> !((#[trigger] edges[j]).0 == u && edges[j].1 == v),
        u < v,
    ensures
        count_edge(edges, u, v, w) == 0,
    decreases edges.len(),
{
    if edges.len() > 0 {
        lemma_count_edge_zero(edges.drop_last(), u, v, w);
    }
}

proof fn lemma_count_edge_pinpoint(
    edges: Seq<(usize, usize, usize)>,
    u: usize,
    v: usize,
    w: usize,
    j: int,
)
    requires
        forall|m: int| 0 <= m < edges.len() ==> (#[trigger] edges[m]).0 < edges[m].1,
        forall|m1: int, m2: int|
            0 <= m1 < m2 < edges.len() ==> !((#[trigger] edges[m1]).0 == (#[trigger] edges[m2]).0
                && edges[m1].1 == edges[m2].1),
        u < v,
        0 <= j < edges.len(),
        edges[j].0 == u && edges[j].1 == v,
    ensures
        count_edge(edges, u, v, w) == if edges[j].2 == w {
            1int
        } else {
            0int
        },
    decreases edges.len(),
{
    if j == edges.len() - 1 {
        assert forall|m: int| 0 <= m < edges.drop_last().len()
            implies !((#[trigger] edges.drop_last()[m]).0 == u && edges.drop_last()[m].1
            == v) by {
            assert(edges[m] == edges.drop_last()[m]);
        }
        lemma_count_edge_zero(edges.drop_last(), u, v, w);
    } else {
        lemma_count_edge_pinpoint(edges.drop_last(), u, v, w, j);
        assert(!edge_matches(edges.last(), u, v, w));
    }
}

proof fn lemma_pair_occurrences_bounds(records: Seq<MatchRecord>, x: Seq<char>, y: Seq<char>)
    ensures
        0 <= pair_occurrences(records, x, y) <= records.len(),
    decreases records.len(),
{
    if records.len() > 0 {
        lemma_pair_occurrences_bounds(records.drop_last(), x, y);
    }
}

/// Builds the entity registry and the aggregated weighted graph from raw
/// records. Every record must carry two non-empty names; the first malformed
/// record aborts the whole build. A record pairing a name with itself
/// registers the name but adds no edge.
pub fn build_graph(records: &Vec<MatchRecord>) -> (r: Result<
    (Vec<String>, Graph),
    crate::AnalysisError,
>)
    ensures
        r is Ok <==> (forall|k: int| 0 <= k < records@.len() ==> (#[trigger] records@[k]).valid()),
        r is Err ==> r->Err_0 == crate::AnalysisError::MalformedRecord,
        r is Ok ==> names_view(r->Ok_0.0@) == agg_records(records@).names,
        r is Ok ==> graph_built_from(r->Ok_0.1, r->Ok_0.0.len(), agg_records(records@).edges),
        r is Ok ==> r->Ok_0.1.wf(),
{
    let mut names: Vec<String> = Vec::new();
    let mut edges: ListOfEdges = Vec::new();
    let mut k: usize = 0;
    proof {
        assert(records@.take(0) =~= Seq::<MatchRecord>::empty());
        assert(names_view(names@) =~= Seq::<Seq<char>>::empty());
    }
    while k < records.len()
        invariant
            k <= records@.len(),
            forall|m: int| 0 <= m < k ==> (#[trigger] records@[m]).valid(),
            names_view(names@) == agg_records(records@.take(k as int)).names,
            edges@ == agg_records(records@.take(k as int)).edges,
        decreases records@.len() - k,
    {
        let rec = &records[k];
        let team = match &rec.team {
            Some(t) => t,
            None => {
                return Err(crate::AnalysisError::MalformedRecord);
            },
        };
        let opponent = match &rec.opponent {
            Some(o) => o,
            None => {
                return Err(crate::AnalysisError::MalformedRecord);
            },
        };
        if team.as_str().is_empty() || opponent.as_str().is_empty() {
            return Err(crate::AnalysisError::MalformedRecord);
        }
        let ghost st = agg_records(records@.take(k as int));
        let a = get_or_insert(&mut names, team);
        let ghost names1 = names_view(names@);
        let b = get_or_insert(&mut names, opponent);
        let ghost names2 = names_view(names@);
        if a != b {
            let lo = if a < b {
                a
            } else {
                b
            };
            let hi = if a < b {
                b
            } else {
                a
            };
            proof {
                assert(st.names.len() <= names2.len());
                assert(names2.len() == names@.len());
                assert(names@.len() <= usize::MAX) by {
                    assert(names@.len() == names.len());
                }
                lemma_agg_records_wf(records@.take(k as int));
                assert forall|j: int| 0 <= j < edges@.len()
                    implies (#[trigger] edges@[j]).2 < usize::MAX by {
                    assert(edges@[j].2 <= records@.take(k as int).len());
                }
            }
            bump_pair_count(&mut edges, lo, hi);
        }
        proof {
            assert(records@.take(k as int + 1).drop_last() =~= records@.take(k as int));
            assert(records@.take(k as int + 1).last() == records@[k as int]);
            let stepped = agg_step(st, records@[k as int]);
            assert(agg_records(records@.take(k as int + 1)) == stepped);
            // the exec ids equal the model's: the first lookup ran against the
            // registry that had just interned the team's name
            assert(names1 == register_name(st.names, records@[k as int].team_name()));
            assert(names2 == register_name(names1, records@[k as int].opponent_name()));
            assert(a == first_index_of(names1, records@[k as int].team_name()));
            assert(b == first_index_of(names2, records@[k as int].opponent_name()));
            assert(names_view(names@) == stepped.names);
            assert(edges@ == stepped.edges);
        }
        k = k + 1;
    }
    proof {
        assert(records@.take(records@.len() as int) =~= records@);
    }
    let n = names.len();
    proof {
        lemma_agg_records_wf(records@);
        assert(agg_records(records@).names.len() == names@.len());
        assert forall|j: int| 0 <= j < edges@.len()
            implies (#[trigger] edges@[j]).0 < n && edges@[j].1 < n by {
            assert(agg_records(records@).edges[j].1 < agg_records(records@).names.len());
        }
    }
    let graph = Graph::create_undirected(n, &edges);
    Ok((names, graph))
}

} // verus!
