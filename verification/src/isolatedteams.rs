//! The two analyses over a finished graph: the two-pass weighted depth-first
//! search that approximates the most mutually isolated entities, and degree
//! statistics over adjacency-list lengths.
//!
//! Distances are exact fixed-point values: an edge of weight `w` costs
//! `WEIGHT_SCALE / w` (integer division), so frequent pairings pull nodes
//! close while rare ones push them apart, with no floating point involved.

use vstd::prelude::*;

verus! {

use crate::matchtree::Graph;

/// Fixed-point scale for inverted edge weights: an edge of weight `w`
/// contributes `WEIGHT_SCALE / w` to the accumulated distance of a path.
pub const WEIGHT_SCALE: u128 = 1_000_000;

/// The running state of one weighted depth-first search.
pub struct DfsModel {
    pub visited: Seq<bool>,
    pub dist: Seq<u128>,
}

/// How many nodes are marked visited.
pub open spec fn count_visited(visited: Seq<bool>) -> int
    decreases visited.len(),
{
    if visited.len() == 0 {
        0
    } else {
        count_visited(visited.drop_last()) + if visited.last() {
            1int
        } else {
            0int
        }
    }
}

proof fn lemma_count_visited_le(visited: Seq<bool>)
    ensures
        0 <= count_visited(visited) <= visited.len(),
    decreases visited.len(),
{
    if visited.len() > 0 {
        lemma_count_visited_le(visited.drop_last());
    }
}

proof fn lemma_count_visited_update(visited: Seq<bool>, v: int)
    requires
        0 <= v < visited.len(),
    ensures
        count_visited(visited.update(v, true)) == count_visited(visited) + if visited[v] {
            0int
        } else {
            1int
        },
    decreases visited.len(),
{
    let upd = visited.update(v, true);
    if v == visited.len() - 1 {
        assert(upd.drop_last() =~= visited.drop_last());
    } else {
        assert(upd.drop_last() =~= visited.drop_last().update(v, true));
        assert(upd.last() == visited.last());
        lemma_count_visited_update(visited.drop_last(), v);
    }
}

/// The frames of the explicit traversal stack, each a node together with the
/// position of the next neighbor to look at in its adjacency list.
pub open spec fn frames_view(stack: Seq<(usize, usize)>) -> Seq<(int, int)> {
    stack.map_values(|f: (usize, usize)| (f.0 as int, f.1 as int))
}

pub open spec fn frame_work(g: Graph, u: int, j: int) -> int {
    let len = g.outedges@[u]@.len() as int;
    if 0 <= u < g.outedges@.len() && 0 <= j <= len {
        len - j + 1
    } else {
        0
    }
}

/// How much scanning the pending frames can still do; the traversal's
/// second termination measure.
pub open spec fn stack_work(g: Graph, stack: Seq<(int, int)>) -> int
    decreases stack.len(),
{
    if stack.len() == 0 {
        0
    } else {
        stack_work(g, stack.drop_last()) + frame_work(g, stack.last().0, stack.last().1)
    }
}

proof fn lemma_stack_work_nonneg(g: Graph, stack: Seq<(int, int)>)
    ensures
        stack_work(g, stack) >= 0,
    decreases stack.len(),
{
    if stack.len() > 0 {
        lemma_stack_work_nonneg(g, stack.drop_last());
    }
}

/// Every pending frame points at a node in range with its cursor inside that
/// node's list, the state vectors span the graph, and no recorded distance
/// outruns one scale unit per visited node.
pub open spec fn dfs_wf(g: Graph, stack: Seq<(int, int)>, st: DfsModel) -> bool {
    &&& g.wf()
    &&& st.visited.len() == g.n
    &&& st.dist.len() == g.n
    &&& forall|f: int| 0 <= f < stack.len() ==> {
        let uj = #[trigger] stack[f];
        0 <= uj.0 < g.n && 0 <= uj.1 <= g.outedges@[uj.0]@.len()
    }
    &&& forall|i: int| 0 <= i < g.n
        ==> #[trigger] st.dist[i] <= count_visited(st.visited) * WEIGHT_SCALE
}

/// One full weighted depth-first search driven by the frame stack: the top
/// frame's next neighbor is examined; an unvisited neighbor over a positive
/// weight is marked, handed its distance, and descended into at once, so
/// neighbors are taken in adjacency-list order exactly as the recursive
/// traversal would take them.
pub open spec fn dfs_run(g: Graph, stack: Seq<(int, int)>, st: DfsModel) -> DfsModel
    decreases g.n - count_visited(st.visited), stack_work(g, stack),
        when dfs_wf(g, stack, st)
        via dfs_run_decreases
{
    if stack.len() == 0 {
        st
    } else {
        let u = stack.last().0;
        let j = stack.last().1;
        if j >= g.outedges@[u]@.len() {
            dfs_run(g, stack.drop_last(), st)
        } else {
            let v = g.outedges@[u]@[j].0 as int;
            let w = g.outedges@[u]@[j].1;
            if !st.visited[v] && w > 0 {
                let nd = (st.dist[u] + WEIGHT_SCALE / (w as u128)) as u128;
                let st1 = DfsModel {
                    visited: st.visited.update(v, true),
                    dist: st.dist.update(v, nd),
                };
                dfs_run(g, stack.drop_last().push((u, j + 1)).push((v, 0)), st1)
            } else {
                dfs_run(g, stack.drop_last().push((u, j + 1)), st)
            }
        }
    }
}

#[via_fn]
proof fn dfs_run_decreases(g: Graph, stack: Seq<(int, int)>, st: DfsModel) {
    lemma_count_visited_le(st.visited);
    if stack.len() > 0 {
        let base = stack.drop_last();
        lemma_stack_work_nonneg(g, base);
        let u = stack.last().0;
        let j = stack.last().1;
        if j >= g.outedges@[u]@.len() {
            assert(stack_work(g, stack) == stack_work(g, base) + frame_work(g, u, j));
        } else {
            let s1 = base.push((u, j + 1));
            assert(s1.drop_last() =~= base);
            assert(s1.last() == (u, j + 1));
            assert(stack_work(g, s1) == stack_work(g, base) + frame_work(g, u, j + 1));
            assert(stack_work(g, stack) == stack_work(g, base) + frame_work(g, u, j));
            let v = g.outedges@[u]@[j].0 as int;
            if !st.visited[v] && g.outedges@[u]@[j].1 > 0 {
                lemma_count_visited_update(st.visited, v);
                lemma_count_visited_le(st.visited.update(v, true));
            } else {
                lemma_stack_work_nonneg(g, s1);
            }
        }
    }
}

/// The traversal state a search from `start` begins with: only `start` is
/// visited and every distance is zero.
pub open spec fn dfs_init(n: int, start: int) -> DfsModel {
    DfsModel {
        visited: Seq::new(n as nat, |i: int| i == start),
        dist: Seq::new(n as nat, |i: int| 0u128),
    }
}

/// The state a full weighted depth-first search from `start` leaves behind.
pub open spec fn dfs_from(g: Graph, start: int) -> DfsModel {
    dfs_run(g, seq![(start, 0int)], dfs_init(g.n as int, start))
}

/// One weighted depth-first search over `graph`, continuing from node `u`:
/// each newly reached node is marked in `visited` and handed the distance of
/// the traversal path that reached it, `current_dist` being the path distance
/// of `u` itself. Neighbors are taken in adjacency-list order; an explicit
/// stack replaces recursion and visits in exactly the recursive order.
pub fn dfs_weighted(
    u: usize,
    graph: &Graph,
    current_dist: u128,
    visited: &mut Vec<bool>,
    dist: &mut Vec<u128>,
)
    requires
        graph.wf(),
        u < graph.n,
        old(visited)@.len() == graph.n,
        old(dist)@.len() == graph.n,
        old(visited)@[u as int],
        old(dist)@[u as int] == current_dist,
        forall|i: int| 0 <= i < graph.n
            ==> #[trigger] old(dist)@[i] <= count_visited(old(visited)@) * WEIGHT_SCALE,
    ensures
        ({
            let out = dfs_run(
                *graph,
                seq![(u as int, 0int)],
                DfsModel { visited: old(visited)@, dist: old(dist)@ },
            );
            final(visited)@ == out.visited && final(dist)@ == out.dist
        }),
{
    let ghost target = dfs_run(
        *graph,
        seq![(u as int, 0int)],
        DfsModel { visited: old(visited)@, dist: old(dist)@ },
    );
    let mut stack: Vec<(usize, usize)> = Vec::new();
    stack.push((u, 0));
    proof {
        assert(frames_view(stack@) =~= seq![(u as int, 0int)]);
    }
    while stack.len() != 0
        invariant
            graph.wf(),
            visited@.len() == graph.n,
            dist@.len() == graph.n,
            dfs_wf(*graph, frames_view(stack@), DfsModel { visited: visited@, dist: dist@ }),
            dfs_run(*graph, frames_view(stack@), DfsModel { visited: visited@, dist: dist@ })
                == target,
        decreases
                graph.n - count_visited(visited@),
                stack_work(*graph, frames_view(stack@)),
    {
        let ghost fr = frames_view(stack@);
        let ghost st = DfsModel { visited: visited@, dist: dist@ };
        let top = stack.len() - 1;
        let cu = stack[top].0;
        let cj = stack[top].1;
        proof {
            assert(fr[top as int] == (cu as int, cj as int));
            assert(fr.last() == (cu as int, cj as int));
            lemma_count_visited_le(visited@);
        }
        let deg = graph.outedges[cu].len();
        if cj >= deg {
            stack.pop();
            proof {
                assert(frames_view(stack@) =~= fr.drop_last());
                lemma_stack_work_nonneg(*graph, fr.drop_last());
                assert(stack_work(*graph, fr) == stack_work(*graph, fr.drop_last()) + frame_work(
                    *graph,
                    cu as int,
                    cj as int,
                ));
            }
        } else {
            let v = graph.outedges[cu][cj].0;
            let w = graph.outedges[cu][cj].1;
            stack[top] = (cu, cj + 1);
            proof {
                assert(frames_view(stack@) =~= fr.drop_last().push((cu as int, cj as int + 1)));
                let s1 = fr.drop_last().push((cu as int, cj as int + 1));
                assert(s1.drop_last() =~= fr.drop_last());
                lemma_stack_work_nonneg(*graph, fr.drop_last());
                assert(stack_work(*graph, s1) == stack_work(*graph, fr.drop_last()) + frame_work(
                    *graph,
                    cu as int,
                    cj as int + 1,
                ));
                assert(stack_work(*graph, fr) == stack_work(*graph, fr.drop_last()) + frame_work(
                    *graph,
                    cu as int,
                    cj as int,
                ));
            }
            if !visited[v] && w > 0 {
                let du = dist[cu];
                proof {
                    assert(du <= count_visited(st.visited) * WEIGHT_SCALE);
                    assert(count_visited(st.visited) * WEIGHT_SCALE <= graph.n
                        * WEIGHT_SCALE) by {
                        assert(count_visited(st.visited) <= graph.n);
                    }
                    assert(graph.n * WEIGHT_SCALE <= usize::MAX * WEIGHT_SCALE);
                    assert(WEIGHT_SCALE / (w as u128) <= WEIGHT_SCALE);
                }
                let nd = du + WEIGHT_SCALE / (w as u128);
                visited[v] = true;
                dist[v] = nd;
                stack.push((v, 0));
                proof {
                    assert(frames_view(stack@) =~= fr.drop_last().push(
                        (cu as int, cj as int + 1),
                    ).push((v as int, 0int)));
                    lemma_count_visited_update(st.visited, v as int);
                    lemma_count_visited_le(visited@);
                    let c1 = count_visited(visited@);
                    assert(c1 == count_visited(st.visited) + 1);
                    assert forall|i: int| 0 <= i < graph.n
                        implies #[trigger] dist@[i] <= c1 * WEIGHT_SCALE by {
                        if i == v as int {
                            assert(dist@[i] == nd);
                        } else {
                            assert(dist@[i] == st.dist[i]);
                        }
                    }
                    lemma_stack_work_nonneg(*graph, frames_view(stack@));
                }
            }
        }
    }
    proof {
        assert(frames_view(stack@) =~= Seq::<(int, int)>::empty());
    }
}

/// Law: a weighted depth-first search never revisits a node. The state
/// vectors keep their length, a node once visited stays visited with the
/// distance it was first given, and the visited count never exceeds `n`.
pub proof fn lemma_dfs_no_revisit(g: Graph, stack: Seq<(int, int)>, st: DfsModel)
    requires
        dfs_wf(g, stack, st),
    ensures
        ({
            let out = dfs_run(g, stack, st);
            &&& out.visited.len() == st.visited.len()
            &&& out.dist.len() == st.dist.len()
            &&& forall|i: int| 0 <= i < st.visited.len() && st.visited[i] ==> out.visited[i]
            &&& forall|i: int|
                0 <= i < st.visited.len() && st.visited[i] ==> out.dist[i] == st.dist[i]
            &&& count_visited(out.visited) <= g.n
        }),
    decreases g.n - count_visited(st.visited), stack_work(g, stack),
{
    lemma_count_visited_le(st.visited);
    if stack.len() == 0 {
        lemma_count_visited_le(dfs_run(g, stack, st).visited);
    } else {
        let base = stack.drop_last();
        lemma_stack_work_nonneg(g, base);
        let u = stack.last().0;
        let j = stack.last().1;
        if j >= g.outedges@[u]@.len() {
            assert(stack_work(g, stack) == stack_work(g, base) + frame_work(g, u, j));
            lemma_dfs_no_revisit(g, base, st);
        } else {
            let s1 = base.push((u, j + 1));
            assert(s1.drop_last() =~= base);
            assert(stack_work(g, s1) == stack_work(g, base) + frame_work(g, u, j + 1));
            assert(stack_work(g, stack) == stack_work(g, base) + frame_work(g, u, j));
            let v = g.outedges@[u]@[j].0 as int;
            let w = g.outedges@[u]@[j].1;
            if !st.visited[v] && w > 0 {
                let nd = (st.dist[u] + WEIGHT_SCALE / (w as u128)) as u128;
                let st1 = DfsModel {
                    visited: st.visited.update(v, true),
                    dist: st.dist.update(v, nd),
                };
                lemma_count_visited_update(st.visited, v);
                lemma_count_visited_le(st1.visited);
                assert(dfs_wf(g, s1.push((v, 0)), st1)) by {
                    let c1 = count_visited(st1.visited);
                    assert forall|i: int| 0 <= i < g.n
                        implies #[trigger] st1.dist[i] <= c1 * WEIGHT_SCALE by {
                        if i != v {
                            assert(st1.dist[i] == st.dist[i]);
                        }
                    }
                }
                lemma_dfs_no_revisit(g, s1.push((v, 0)), st1);
            } else {
                lemma_dfs_no_revisit(g, s1, st);
            }
        }
    }
}

proof fn lemma_dfs_init_wf(g: Graph, start: int)
    requires
        g.wf(),
        0 <= start < g.n,
    ensures
        dfs_wf(g, seq![(start, 0int)], dfs_init(g.n as int, start)),
        dfs_from(g, start).dist.len() == g.n,
        dfs_from(g, start).visited.len() == g.n,
{
    let st = dfs_init(g.n as int, start);
    lemma_count_visited_le(st.visited);
    assert(seq![(start, 0int)][0] == (start, 0int));
    assert(dfs_wf(g, seq![(start, 0int)], st));
    lemma_dfs_no_revisit(g, seq![(start, 0int)], st);
}

/// The first index holding the maximum of a distance vector: a scan that
/// moves only on a strictly larger value.
pub open spec fn first_max_idx(s: Seq<u128>) -> int
    decreases s.len(),
{
    if s.len() <= 1 {
        0
    } else {
        let p = first_max_idx(s.drop_last());
        if s.last() > s[p] {
            s.len() - 1
        } else {
            p
        }
    }
}

pub proof fn lemma_first_max_idx(s: Seq<u128>)
    requires
        s.len() > 0,
    ensures
        0 <= first_max_idx(s) < s.len(),
        forall|i: int| 0 <= i < s.len() ==> #[trigger] s[i] <= s[first_max_idx(s)],
    decreases s.len(),
{
    if s.len() > 1 {
        lemma_first_max_idx(s.drop_last());
        assert forall|i: int| 0 <= i < s.len() implies #[trigger] s[i] <= s[first_max_idx(s)] by {
            if i < s.len() - 1 {
                assert(s.drop_last()[i] == s[i]);
            }
        }
    }
}

/// All indices holding value `m`, ascending.
pub open spec fn max_indices(s: Seq<u128>, m: u128) -> Seq<usize>
    decreases s.len(),
{
    if s.len() == 0 {
        Seq::empty()
    } else {
        let rest = max_indices(s.drop_last(), m);
        if s.last() == m {
            rest.push((s.len() - 1) as usize)
        } else {
            rest
        }
    }
}

proof fn lemma_max_indices_nonempty(s: Seq<u128>, m: u128)
    requires
        exists|i: int| 0 <= i < s.len() && s[i] == m,
    ensures
        max_indices(s, m).len() >= 1,
    decreases s.len(),
{
    if s.last() == m {
    } else {
        let i = choose|i: int| 0 <= i < s.len() && s[i] == m;
        assert(s.drop_last()[i] == m);
        lemma_max_indices_nonempty(s.drop_last(), m);
    }
}

/// The two-pass result over a non-empty graph: a first search from node 0
/// picks the pivot (the first node of greatest distance), a second search
/// from the pivot yields the farthest set — every node whose distance equals
/// the maximum — and that maximum.
pub open spec fn isolation_spec(g: Graph) -> (Seq<usize>, u128) {
    let d1 = dfs_from(g, 0).dist;
    let pivot = first_max_idx(d1);
    let d2 = dfs_from(g, pivot).dist;
    let m = d2[first_max_idx(d2)];
    (max_indices(d2, m), m)
}

/// One full weighted search from `start` over fresh state; hands back the
/// distance vector.
fn run_pass(graph: &Graph, start: usize) -> (d: Vec<u128>)
    requires
        graph.wf(),
        start < graph.n,
    ensures
        d@ == dfs_from(*graph, start as int).dist,
        d@.len() == graph.n,
{
    let mut visited: Vec<bool> = Vec::new();
    let mut dist: Vec<u128> = Vec::new();
    let mut i: usize = 0;
    while i < graph.n
        invariant
            i <= graph.n,
            visited@.len() == i,
            dist@.len() == i,
            forall|j: int| 0 <= j < i ==> !(#[trigger] visited@[j]),
            forall|j: int| 0 <= j < i ==> (#[trigger] dist@[j]) == 0u128,
        decreases graph.n - i,
    {
        visited.push(false);
        dist.push(0);
        i = i + 1;
    }
    visited[start] = true;
    proof {
        let st = dfs_init(graph.n as int, start as int);
        assert(visited@ =~= st.visited);
        assert(dist@ =~= st.dist);
        lemma_dfs_init_wf(*graph, start as int);
    }
    dfs_weighted(start, graph, 0, &mut visited, &mut dist);
    dist
}

/// The first index holding the maximum of a non-empty vector.
fn first_max_scan(d: &Vec<u128>) -> (i: usize)
    requires
        d@.len() > 0,
    ensures
        i as int == first_max_idx(d@),
        i < d@.len(),
{
    let mut best: usize = 0;
    let mut k: usize = 1;
    proof {
        assert(first_max_idx(d@.take(1)) == 0);
        lemma_first_max_idx(d@.take(1));
    }
    while k < d.len()
        invariant
            1 <= k <= d@.len(),
            best < k,
            best as int == first_max_idx(d@.take(k as int)),
        decreases d@.len() - k,
    {
        proof {
            assert(d@.take(k as int + 1).drop_last() =~= d@.take(k as int));
            assert(d@.take(k as int + 1).last() == d@[k as int]);
        }
        if d[k] > d[best] {
            best = k;
        }
        k = k + 1;
    }
    proof {
        assert(d@.take(d@.len() as int) =~= d@);
    }
    best
}

/// The two-pass weighted search over the whole graph: a first pass from node
/// 0 picks the pivot, a second pass from the pivot yields every node at the
/// maximum distance, together with that distance. An empty graph is refused.
pub fn final_dfs(graph: &Graph) -> (r: Result<(Vec<usize>, u128), crate::AnalysisError>)
    requires
        graph.wf(),
    ensures
        graph.n == 0 ==> r is Err && r->Err_0 == crate::AnalysisError::EmptyGraph,
        graph.n > 0 ==> r is Ok && r->Ok_0.0@ == isolation_spec(*graph).0 && r->Ok_0.1
            == isolation_spec(*graph).1,
{
    if graph.n == 0 {
        return Err(crate::AnalysisError::EmptyGraph);
    }
    let dist1 = run_pass(graph, 0);
    let pivot = first_max_scan(&dist1);
    let dist2 = run_pass(graph, pivot);
    let pm = first_max_scan(&dist2);
    let m = dist2[pm];
    let mut teams: Vec<usize> = Vec::new();
    let mut i: usize = 0;
    proof {
        assert(max_indices(dist2@.take(0), m) =~= Seq::<usize>::empty());
        assert(teams@ =~= Seq::<usize>::empty());
    }
    while i < dist2.len()
        invariant
            i <= dist2@.len(),
            dist2@.len() <= usize::MAX,
            teams@ == max_indices(dist2@.take(i as int), m),
        decreases dist2@.len() - i,
    {
        proof {
            assert(dist2@.take(i as int + 1).drop_last() =~= dist2@.take(i as int));
            assert(dist2@.take(i as int + 1).last() == dist2@[i as int]);
        }
        if dist2[i] == m {
            teams.push(i);
        }
        i = i + 1;
    }
    proof {
        assert(dist2@.take(dist2@.len() as int) =~= dist2@);
    }
    Ok((teams, m))
}

/// Law: over any well-formed graph with at least one node, the two-pass
/// search returns a non-empty farthest set and a non-negative distance.
pub proof fn lemma_isolation_nonempty(g: Graph)
    requires
        g.wf(),
        g.n > 0,
    ensures
        isolation_spec(g).0.len() >= 1,
        isolation_spec(g).1 >= 0,
{
    lemma_dfs_init_wf(g, 0);
    let d1 = dfs_from(g, 0).dist;
    lemma_first_max_idx(d1);
    let pivot = first_max_idx(d1);
    lemma_dfs_init_wf(g, pivot);
    let d2 = dfs_from(g, pivot).dist;
    lemma_first_max_idx(d2);
    let m = d2[first_max_idx(d2)];
    lemma_max_indices_nonempty(d2, m);
}

/// The degree of each node: how many distinct opponents its list holds.
pub open spec fn degree_seq(g: Graph) -> Seq<int> {
    Seq::new(g.outedges@.len(), |i: int| g.outedges@[i]@.len() as int)
}

/// The first index holding the minimum: a scan that moves only on a strictly
/// smaller value.
pub open spec fn first_min_degree_idx(s: Seq<int>) -> int
    decreases s.len(),
{
    if s.len() <= 1 {
        0
    } else {
        let p = first_min_degree_idx(s.drop_last());
        if s.last() < s[p] {
            s.len() - 1
        } else {
            p
        }
    }
}

/// The first index holding the maximum: a scan that moves only on a strictly
/// larger value.
pub open spec fn first_max_degree_idx(s: Seq<int>) -> int
    decreases s.len(),
{
    if s.len() <= 1 {
        0
    } else {
        let p = first_max_degree_idx(s.drop_last());
        if s.last() > s[p] {
            s.len() - 1
        } else {
            p
        }
    }
}

pub open spec fn sum_degrees(s: Seq<int>) -> int
    decreases s.len(),
{
    if s.len() == 0 {
        0
    } else {
        sum_degrees(s.drop_last()) + s.last()
    }
}

/// Degree statistics over a graph: the first node of fewest and of most
/// distinct opponents, their counts, and the total degree so that a caller
/// can form the average `total_matches / teams`.
#[derive(Clone, Copy, Debug, PartialEq, Eq, Structural)]
pub struct MatchStats {
    pub min_team: usize,
    pub min_matches: usize,
    pub max_team: usize,
    pub max_matches: usize,
    pub total_matches: u128,
    pub teams: usize,
}

/// Scans every adjacency list for the team with the fewest and the team with
/// the most distinct opponents (the lowest id wins a tie) and the total
/// degree over all teams; the average over an empty graph is undefined, so an
/// empty graph is refused.
pub fn match_num_comparison(graph: &Graph) -> (r: Result<MatchStats, crate::AnalysisError>)
    requires
        graph.wf(),
    ensures
        graph.n == 0 ==> r is Err && r->Err_0 == crate::AnalysisError::EmptyGraph,
        graph.n > 0 ==> r is Ok && ({
            let d = degree_seq(*graph);
            let s = r->Ok_0;
            &&& s.min_team as int == first_min_degree_idx(d)
            &&& s.min_matches as int == d[first_min_degree_idx(d)]
            &&& s.max_team as int == first_max_degree_idx(d)
            &&& s.max_matches as int == d[first_max_degree_idx(d)]
            &&& s.total_matches as int == sum_degrees(d)
            &&& s.teams == graph.n
        }),
{
    if graph.n == 0 {
        return Err(crate::AnalysisError::EmptyGraph);
    }
    let ghost d = degree_seq(*graph);
    let mut min_team: usize = 0;
    let mut min_matches: usize = graph.outedges[0].len();
    let mut max_team: usize = 0;
    let mut max_matches: usize = min_matches;
    let mut total: u128 = min_matches as u128;
    let mut i: usize = 1;
    proof {
        assert(d.take(1).len() == 1);
        assert(d.take(1)[0] == d[0]);
        assert(first_min_degree_idx(d.take(1)) == 0);
        assert(first_max_degree_idx(d.take(1)) == 0);
        assert(sum_degrees(d.take(1)) == d[0]) by {
            assert(d.take(1).drop_last() =~= Seq::<int>::empty());
            assert(sum_degrees(Seq::<int>::empty()) == 0);
            assert(d.take(1).last() == d[0]);
        }
    }
    while i < graph.n
        invariant
            graph.wf(),
            1 <= i <= graph.n,
            d == degree_seq(*graph),
            min_team < i,
            max_team < i,
            min_team as int == first_min_degree_idx(d.take(i as int)),
            min_matches as int == d[first_min_degree_idx(d.take(i as int))],
            max_team as int == first_max_degree_idx(d.take(i as int)),
            max_matches as int == d[first_max_degree_idx(d.take(i as int))],
            total as int == sum_degrees(d.take(i as int)),
            total <= i * 0xFFFF_FFFF_FFFF_FFFFu128,
        decreases graph.n - i,
    {
        let deg = graph.outedges[i].len();
        proof {
            assert(d.take(i as int + 1).drop_last() =~= d.take(i as int));
            assert(d.take(i as int + 1).last() == d[i as int]);
            assert(d[i as int] == deg);
            assert(d.take(i as int)[first_min_degree_idx(d.take(i as int))] == d[first_min_degree_idx(
                d.take(i as int),
            )]);
            assert(d.take(i as int)[first_max_degree_idx(d.take(i as int))] == d[first_max_degree_idx(
                d.take(i as int),
            )]);
        }
        if deg < min_matches {
            min_matches = deg;
            min_team = i;
        }
        if deg > max_matches {
            max_matches = deg;
            max_team = i;
        }
        proof {
            assert(deg as u128 <= 0xFFFF_FFFF_FFFF_FFFFu128);
            assert(i <= 0xFFFF_FFFF_FFFF_FFFFu128);
        }
        total = total + deg as u128;
        i = i + 1;
    }
    proof {
        assert(d.take(graph.n as int) =~= d);
    }
    Ok(
        MatchStats {
            min_team,
            min_matches,
            max_team,
            max_matches,
            total_matches: total,
            teams: graph.n,
        },
    )
}

} // verus!
