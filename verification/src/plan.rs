//! The shape of a run: a validated workflow graph turned into node and edge
//! indices, with its loop-back edges and the nodes that may run more than once.
use vstd::prelude::*;
use crate::models::{Graph, WorkflowEdge};
use crate::graph::{node_ids, first_index, is_first_index, edge_source_key, edge_target_key, endpoints_resolve, is_loop_edge, out_edges, positions, node_key, opt_usize, classify_back_edges, node_keys, resolve_id, compute_out_edges, lemma_first_index_some, lemma_first_index_is, lemma_key_bounds};
use crate::text::text_eq;

verus! {

// ---------------------------------------------------------------- reachability

/// `w` is a walk of edges from node `a` to node `b`.
pub open spec fn walk_from_to(g: &Graph, w: Seq<int>, a: int, b: int) -> bool {
    &&& w.len() >= 1
    &&& forall|m: int| 0 <= m < w.len() ==> 0 <= #[trigger] w[m] < g.edges@.len()
    &&& edge_source_key(g, w[0]) == Some(a)
    &&& forall|m: int|
        0 <= m < w.len() - 1 ==> edge_target_key(g, #[trigger] w[m]) == edge_source_key(g, w[m + 1])
    &&& edge_target_key(g, w.last()) == Some(b)
}

pub open spec fn reaches(g: &Graph, a: int, b: int) -> bool {
    a == b || exists|w: Seq<int>| walk_from_to(g, w, a, b)
}

/// A node may run more than once: it is the target of a loop-back edge or
/// reachable from one.
pub open spec fn may_rerun(g: &Graph, k: int) -> bool {
    exists|e: int|
        0 <= e < g.edges@.len() && is_loop_edge(g, e) && #[trigger] reaches(
            g,
            edge_target_key(g, e)->0,
            k,
        )
}

proof fn lemma_reaches_step(g: &Graph, a: int, k: int, e: int)
    requires
        endpoints_resolve(g),
        reaches(g, a, k),
        0 <= e < g.edges@.len(),
        edge_source_key(g, e) == Some(k),
    ensures
        reaches(g, a, edge_target_key(g, e)->0),
{
    let t = edge_target_key(g, e)->0;
    assert(edge_source_key(g, e) is Some);
    assert(edge_target_key(g, e) is Some);
    if a == k {
        let w = seq![e];
        assert(walk_from_to(g, w, a, t));
    } else {
        let w = choose|w: Seq<int>| walk_from_to(g, w, a, k);
        let w2 = w.push(e);
        assert(w2.last() == e);
        assert forall|m: int| 0 <= m < w2.len() - 1 implies edge_target_key(g, #[trigger] w2[m])
            == edge_source_key(g, w2[m + 1]) by {
            if m < w.len() - 1 {
                assert(w2[m] == w[m] && w2[m + 1] == w[m + 1]);
            } else {
                assert(w2[m] == w.last());
            }
        }
        assert(walk_from_to(g, w2, a, t));
    }
}

pub(crate) proof fn lemma_out_edges_facts(g: &Graph, u: int)
    requires
        g.edges@.len() <= usize::MAX,
    ensures
        forall|j: int|
            0 <= j < out_edges(g, u).len() ==> (#[trigger] out_edges(g, u)[j]) < g.edges@.len()
                && edge_source_key(g, out_edges(g, u)[j] as int) == Some(u),
{
    let pred = |e: int| edge_source_key(g, e) == Some(u);
    let f = positions(g.edges@.len()).filter(pred);
    assert forall|j: int| 0 <= j < out_edges(g, u).len() implies (#[trigger] out_edges(g, u)[j]) < g.edges@.len()
        && edge_source_key(g, out_edges(g, u)[j] as int) == Some(u) by {
        assert(f.contains(f[j]));
        positions(g.edges@.len()).lemma_filter_contains_rev(pred, f[j]);
        positions(g.edges@.len()).lemma_filter_pred(pred, j);
        let i = choose|i: int| 0 <= i < positions(g.edges@.len()).len() && positions(g.edges@.len())[i] == f[j];
        assert(out_edges(g, u)[j] == f[j] as usize);
    }
}

pub(crate) proof fn lemma_out_edge_index(g: &Graph, u: int, e: int) -> (j: int)
    requires
        0 <= e < g.edges@.len(),
        edge_source_key(g, e) == Some(u),
    ensures
        0 <= j < out_edges(g, u).len(),
        out_edges(g, u)[j] == e as usize,
{
    let pred = |q: int| edge_source_key(g, q) == Some(u);
    assert(positions(g.edges@.len())[e] == e);
    positions(g.edges@.len()).lemma_filter_contains(pred, e);
    let f = positions(g.edges@.len()).filter(pred);
    let j = choose|j: int| 0 <= j < f.len() && f[j] == e;
    j
}

pub open spec fn false_count(c: Seq<bool>) -> nat
    decreases c.len(),
{
    if c.len() == 0 {
        0
    } else {
        false_count(c.drop_last()) + if !c.last() { 1nat } else { 0nat }
    }
}

proof fn lemma_false_count_set(c: Seq<bool>, t: int)
    requires
        0 <= t < c.len(),
        !c[t],
    ensures
        false_count(c.update(t, true)) + 1 == false_count(c),
    decreases c.len(),
{
    if t == c.len() - 1 {
        assert(c.update(t, true).drop_last() =~= c.drop_last());
    } else {
        lemma_false_count_set(c.drop_last(), t);
        assert(c.update(t, true).drop_last() =~= c.drop_last().update(t, true));
    }
}

/// Nodes that may run more than once, one mark per node.
pub(crate) fn rerunnable_nodes(
    g: &Graph,
    tgt: &Vec<usize>,
    back: &Vec<bool>,
    outgoing: &Vec<Vec<usize>>,
) -> (r: Vec<bool>)
    requires
        endpoints_resolve(g),
        tgt@.len() == g.edges@.len(),
        back@.len() == g.edges@.len(),
        outgoing@.len() == g.nodes@.len(),
        forall|e: int| 0 <= e < g.edges@.len() ==> #[trigger] tgt@[e] as int == edge_target_key(g, e)->0,
        forall|e: int| 0 <= e < g.edges@.len() ==> #[trigger] back@[e] == is_loop_edge(g, e),
        forall|u: int| 0 <= u < g.nodes@.len() ==> (#[trigger] outgoing@[u])@ == out_edges(g, u),
    ensures
        r@.len() == g.nodes@.len(),
        forall|k: int| 0 <= k < g.nodes@.len() ==> r@[k] == #[trigger] may_rerun(g, k),
{
    let n = g.nodes.len();
    let ghost ne = g.edges@.len();
    proof {
        assert forall|e: int| 0 <= e < ne implies 0 <= #[trigger] tgt@[e] < n by {
            assert(edge_source_key(g, e) is Some);
            assert(edge_target_key(g, e) is Some);
            lemma_first_index_some(node_ids(g), g.edges@[e].target@);
        }
    }
    let mut visited: Vec<bool> = Vec::new();
    let mut i: usize = 0;
    while i < n
        invariant
            i <= n,
            visited@ == Seq::new(i as nat, |k: int| false),
        decreases n - i,
    {
        visited.push(false);
        i = i + 1;
        assert(visited@ =~= Seq::new(i as nat, |k: int| false));
    }
    let mut stack: Vec<usize> = Vec::new();
    let mut e: usize = 0;
    while e < back.len()
        invariant
            n == g.nodes@.len(),
            endpoints_resolve(g),
            e <= back@.len(),
            back@.len() == ne,
            tgt@.len() == ne,
            ne == g.edges@.len(),
            forall|q: int| 0 <= q < ne ==> 0 <= #[trigger] tgt@[q] < n,
            forall|q: int| 0 <= q < ne ==> #[trigger] tgt@[q] as int == edge_target_key(g, q)->0,
            forall|q: int| 0 <= q < ne ==> #[trigger] back@[q] == is_loop_edge(g, q),
            forall|j: int| 0 <= j < stack@.len() ==> (#[trigger] stack@[j]) < n && may_rerun(g, stack@[j] as int),
            forall|q: int| 0 <= q < e && back@[q] ==> #[trigger] stack@.contains(tgt@[q]),
        decreases back.len() - e,
    {
        if back[e] {
            proof {
                assert(reaches(g, edge_target_key(g, e as int)->0, tgt@[e as int] as int));
            }
            let ghost before = stack@;
            stack.push(tgt[e]);
            proof {
                assert(stack@.last() == tgt@[e as int]);
                assert forall|q: int| 0 <= q < e + 1 && back@[q] implies #[trigger] stack@.contains(tgt@[q]) by {
                    if q < e {
                        assert(before.contains(tgt@[q]));
                        let j = choose|j: int| 0 <= j < before.len() && before[j] == tgt@[q];
                        assert(stack@[j] == tgt@[q]);
                    } else {
                        assert(stack@[stack@.len() - 1] == tgt@[q]);
                    }
                }
            }
        }
        e = e + 1;
    }
    proof {
        assert(g.edges.len() == g.edges@.len());
        assert forall|u: int, j: int| 0 <= u < n && 0 <= j < outgoing@[u]@.len() implies (#[trigger] outgoing@[u]@[j]) < ne by {
            lemma_out_edges_facts(g, u);
        }
    }
    while stack.len() > 0
        invariant
            n == g.nodes@.len(),
            endpoints_resolve(g),
            ne == g.edges@.len(),
            tgt@.len() == ne,
            back@.len() == ne,
            outgoing@.len() == n,
            visited@.len() == n,
            forall|q: int| 0 <= q < ne ==> 0 <= #[trigger] tgt@[q] < n,
            forall|q: int| 0 <= q < ne ==> #[trigger] tgt@[q] as int == edge_target_key(g, q)->0,
            forall|q: int| 0 <= q < ne ==> #[trigger] back@[q] == is_loop_edge(g, q),
            forall|u: int| 0 <= u < n ==> (#[trigger] outgoing@[u])@ == out_edges(g, u),
            forall|u: int, j: int| 0 <= u < n && 0 <= j < outgoing@[u]@.len() ==> (#[trigger] outgoing@[u]@[j]) < ne,
            forall|j: int| 0 <= j < stack@.len() ==> (#[trigger] stack@[j]) < n && may_rerun(g, stack@[j] as int),
            forall|k: int| 0 <= k < n && #[trigger] visited@[k] ==> may_rerun(g, k),
            forall|q: int| 0 <= q < ne && back@[q] ==> visited@[tgt@[q] as int] || #[trigger] stack@.contains(tgt@[q]),
            forall|k: int, j: int|
                0 <= k < n && #[trigger] visited@[k] && 0 <= j < outgoing@[k]@.len() ==> visited@[tgt@[
                    #[trigger] outgoing@[k]@[j] as int] as int] || stack@.contains(tgt@[outgoing@[k]@[j] as int]),
        decreases false_count(visited@), stack@.len(),
    {
        let ghost popped = stack@;
        let ghost vis0 = visited@;
        let k = stack.pop().unwrap();
        assert(popped == stack@.push(k));
        if !visited[k] {
            proof {
                lemma_false_count_set(visited@, k as int);
            }
            visited.set(k, true);
            let mut j: usize = 0;
            let ghost base = stack@;
            while j < outgoing[k].len()
                invariant
                    n == g.nodes@.len(),
                    endpoints_resolve(g),
                    ne == g.edges@.len(),
                    tgt@.len() == ne,
                    outgoing@.len() == n,
                    k < n,
                    may_rerun(g, k as int),
                    forall|q: int| 0 <= q < ne ==> 0 <= #[trigger] tgt@[q] < n,
                    forall|q: int| 0 <= q < ne ==> #[trigger] tgt@[q] as int == edge_target_key(g, q)->0,
                    forall|u: int| 0 <= u < n ==> (#[trigger] outgoing@[u])@ == out_edges(g, u),
                    forall|u: int, jj: int| 0 <= u < n && 0 <= jj < outgoing@[u]@.len() ==> (#[trigger] outgoing@[u]@[jj]) < ne,
                    j <= outgoing@[k as int]@.len(),
                    stack@.len() == base.len() + j,
                    forall|m: int| 0 <= m < base.len() ==> stack@[m] == base[m],
                    forall|m: int| 0 <= m < j ==> stack@[base.len() + m] == tgt@[#[trigger] outgoing@[k as int]@[m] as int],
                    forall|m: int| 0 <= m < stack@.len() ==> (#[trigger] stack@[m]) < n && may_rerun(g, stack@[m] as int),
                decreases outgoing@[k as int]@.len() - j,
            {
                let ed = outgoing[k][j];
                proof {
                    assert(g.edges.len() == g.edges@.len());
                    lemma_out_edges_facts(g, k as int);
                    assert(outgoing@[k as int]@[j as int] == out_edges(g, k as int)[j as int]);
                    assert(ed < ne);
                    let e0 = choose|e0: int| 0 <= e0 < g.edges@.len() && is_loop_edge(g, e0) && #[trigger] reaches(
                        g, edge_target_key(g, e0)->0, k as int);
                    lemma_reaches_step(g, edge_target_key(g, e0)->0, k as int, ed as int);
                }
                stack.push(tgt[ed]);
                j = j + 1;
            }
            proof {
                assert forall|q: int| 0 <= q < ne && back@[q] implies visited@[tgt@[q] as int] || #[trigger] stack@.contains(tgt@[q]) by {
                    if !visited@[tgt@[q] as int] {
                        assert(!vis0[tgt@[q] as int]);
                        assert(popped.contains(tgt@[q]));
                        let m = choose|m: int| 0 <= m < popped.len() && popped[m] == tgt@[q];
                        if m < base.len() {
                            assert(stack@[m] == tgt@[q]);
                        }
                    }
                }
                assert forall|kk: int, jj: int|
                    0 <= kk < n && #[trigger] visited@[kk] && 0 <= jj < outgoing@[kk]@.len() implies visited@[tgt@[
                        #[trigger] outgoing@[kk]@[jj] as int] as int] || stack@.contains(tgt@[outgoing@[kk]@[jj] as int]) by {
                    if kk == k as int {
                        assert(stack@[base.len() + jj] == tgt@[outgoing@[kk]@[jj] as int]);
                    } else if !visited@[tgt@[outgoing@[kk]@[jj] as int] as int] {
                        let x = tgt@[outgoing@[kk]@[jj] as int];
                        assert(vis0[kk]);
                        assert(!vis0[x as int]);
                        assert(popped.contains(x));
                        let m = choose|m: int| 0 <= m < popped.len() && popped[m] == x;
                        if m < base.len() {
                            assert(stack@[m] == x);
                        }
                    }
                }
            }
        } else {
            proof {
                assert forall|q: int| 0 <= q < ne && back@[q] implies visited@[tgt@[q] as int] || #[trigger] stack@.contains(tgt@[q]) by {
                    if !visited@[tgt@[q] as int] {
                        assert(popped.contains(tgt@[q]));
                        let m = choose|m: int| 0 <= m < popped.len() && popped[m] == tgt@[q];
                        assert(m < stack@.len());
                        assert(stack@[m] == tgt@[q]);
                    }
                }
                assert forall|kk: int, jj: int|
                    0 <= kk < n && #[trigger] visited@[kk] && 0 <= jj < outgoing@[kk]@.len() implies visited@[tgt@[
                        #[trigger] outgoing@[kk]@[jj] as int] as int] || stack@.contains(tgt@[outgoing@[kk]@[jj] as int]) by {
                    let x = tgt@[outgoing@[kk]@[jj] as int];
                    if !visited@[x as int] {
                        assert(popped.contains(x));
                        let m = choose|m: int| 0 <= m < popped.len() && popped[m] == x;
                        assert(m < stack@.len());
                        assert(stack@[m] == x);
                    }
                }
            }
        }
    }
    proof {
        assert forall|e: int| 0 <= e < ne && visited@[edge_source_key(g, e)->0] implies
            visited@[#[trigger] edge_target_key(g, e)->0] by {
            assert(edge_source_key(g, e) is Some);
            let s = edge_source_key(g, e)->0;
            lemma_first_index_some(node_ids(g), g.edges@[e].source@);
            let j = lemma_out_edge_index(g, s, e);
            assert(outgoing@[s]@[j] == e as usize);
            assert(!stack@.contains(tgt@[outgoing@[s]@[j] as int]));
        }
        assert forall|k: int| 0 <= k < n implies visited@[k] == #[trigger] may_rerun(g, k) by {
            if may_rerun(g, k) {
                let e0 = choose|e0: int| 0 <= e0 < g.edges@.len() && is_loop_edge(g, e0) && #[trigger] reaches(
                    g, edge_target_key(g, e0)->0, k);
                assert(back@[e0]);
                assert(!stack@.contains(tgt@[e0]));
                assert(visited@[tgt@[e0] as int]);
                let t = edge_target_key(g, e0)->0;
                if t != k {
                    let w = choose|w: Seq<int>| walk_from_to(g, w, t, k);
                    lemma_walk_visited(g, visited@, w, t, k, (w.len() - 1) as int);
                }
            }
        }
    }
    visited
}

proof fn lemma_walk_visited(g: &Graph, visited: Seq<bool>, w: Seq<int>, a: int, b: int, m: int)
    requires
        endpoints_resolve(g),
        walk_from_to(g, w, a, b),
        0 <= m < w.len(),
        visited[a],
        forall|e: int|
            0 <= e < g.edges@.len() && visited[edge_source_key(g, e)->0] ==> visited[#[trigger] edge_target_key(
                g,
                e,
            )->0],
    ensures
        visited[edge_target_key(g, w[m])->0],
    decreases m,
{
    let e = w[m];
    assert(0 <= e < g.edges@.len());
    if m == 0 {
        assert(edge_source_key(g, e) == Some(a));
    } else {
        lemma_walk_visited(g, visited, w, a, b, m - 1);
        assert(edge_target_key(g, w[m - 1]) == edge_source_key(g, w[m]));
    }
    assert(visited[edge_target_key(g, e)->0]);
}

// ---------------------------------------------------------------- the plan

pub open spec fn edge_ids(g: &Graph) -> Seq<Seq<char>> {
    g.edges@.map_values(|e: WorkflowEdge| e.id@)
}

/// No two nodes share an id, and no two edges do.
pub open spec fn ids_distinct(g: &Graph) -> bool {
    &&& forall|i: int, j: int| 0 <= i < j < g.nodes@.len() ==> g.nodes@[i].id@ != g.nodes@[j].id@
    &&& forall|i: int, j: int| 0 <= i < j < g.edges@.len() ==> g.edges@[i].id@ != g.edges@[j].id@
}

/// The edge position standing for every edge with the same id as `e` (the
/// first one); a run records one resolution per edge id.
pub open spec fn edge_key(g: &Graph, e: int) -> int {
    first_index(edge_ids(g), edge_ids(g)[e])->0
}

/// The edges into node `u` that are not loop-back edges, in declaration order.
pub open spec fn incoming_edges(g: &Graph, u: int) -> Seq<usize> {
    positions(g.edges@.len()).filter(|e: int| edge_target_key(g, e) == Some(u) && !is_loop_edge(g, e)).map_values(
        |e: int| e as usize,
    )
}

pub open spec fn is_last_index(ids: Seq<Seq<char>>, id: Seq<char>, k: int) -> bool {
    &&& 0 <= k < ids.len()
    &&& ids[k] == id
    &&& forall|j: int| k < j < ids.len() ==> ids[j] != id
}

/// A run's view of a validated graph: each edge's source and target node, the
/// loop-back edges, the edges leaving and entering each node, the nodes that
/// may run more than once, and for each node the declared position whose data
/// describes it (the last one with its id).
#[derive(Debug)]
pub struct RunPlan {
    pub graph: Graph,
    pub keys: Vec<usize>,
    pub src: Vec<usize>,
    pub tgt: Vec<usize>,
    pub edge_key: Vec<usize>,
    pub back: Vec<bool>,
    pub outgoing: Vec<Vec<usize>>,
    pub incoming: Vec<Vec<usize>>,
    pub rerun: Vec<bool>,
    pub data_pos: Vec<usize>,
}

impl RunPlan {
    pub open spec fn wf(&self) -> bool {
        let g = &self.graph;
        let n = g.nodes@.len();
        let ne = g.edges@.len();
        &&& endpoints_resolve(g)
        &&& self.keys@.len() == n
        &&& self.src@.len() == ne
        &&& self.tgt@.len() == ne
        &&& self.edge_key@.len() == ne
        &&& self.back@.len() == ne
        &&& self.outgoing@.len() == n
        &&& self.incoming@.len() == n
        &&& self.rerun@.len() == n
        &&& self.data_pos@.len() == n
        &&& forall|p: int| 0 <= p < n ==> #[trigger] self.keys@[p] as int == node_key(g, p)
        &&& forall|e: int| 0 <= e < ne ==> Some(#[trigger] self.src@[e] as int) == edge_source_key(g, e)
        &&& forall|e: int| 0 <= e < ne ==> Some(#[trigger] self.tgt@[e] as int) == edge_target_key(g, e)
        &&& forall|e: int| 0 <= e < ne ==> #[trigger] self.edge_key@[e] as int == edge_key(g, e)
        &&& forall|e: int| 0 <= e < ne ==> #[trigger] self.back@[e] == is_loop_edge(g, e)
        &&& forall|u: int| 0 <= u < n ==> (#[trigger] self.outgoing@[u])@ == out_edges(g, u)
        &&& forall|u: int| 0 <= u < n ==> (#[trigger] self.incoming@[u])@ == incoming_edges(g, u)
        &&& forall|u: int| 0 <= u < n ==> #[trigger] self.rerun@[u] == may_rerun(g, u)
        &&& forall|u: int| 0 <= u < n ==> is_last_index(node_ids(g), node_ids(g)[u], #[trigger] self.data_pos@[u] as int)
    }

    /// With distinct node ids and distinct edge ids, every node and every
    /// edge is its own key.
    pub proof fn lemma_distinct_ids_keys(&self)
        requires
            self.wf(),
            ids_distinct(&self.graph),
        ensures
            forall|p: int| 0 <= p < self.keys@.len() ==> #[trigger] self.keys@[p] == p,
            forall|e: int| 0 <= e < self.edge_key@.len() ==> #[trigger] self.edge_key@[e] == e,
    {
        let g = &self.graph;
        assert forall|p: int| 0 <= p < self.keys@.len() implies #[trigger] self.keys@[p] == p by {
            assert(node_ids(g)[p] == g.nodes@[p].id@);
            assert forall|j: int| 0 <= j < p implies node_ids(g)[j] != node_ids(g)[p] by {
                assert(node_ids(g)[j] == g.nodes@[j].id@);
            }
            lemma_first_index_is(node_ids(g), node_ids(g)[p], p);
        }
        assert forall|e: int| 0 <= e < self.edge_key@.len() implies #[trigger] self.edge_key@[e] == e by {
            assert(edge_ids(g)[e] == g.edges@[e].id@);
            assert forall|j: int| 0 <= j < e implies edge_ids(g)[j] != edge_ids(g)[e] by {
                assert(edge_ids(g)[j] == g.edges@[j].id@);
            }
            lemma_first_index_is(edge_ids(g), edge_ids(g)[e], e);
        }
    }

    pub proof fn lemma_bounds(&self)
        requires
            self.wf(),
        ensures
            forall|p: int| 0 <= p < self.keys@.len() ==> #[trigger] self.keys@[p] < self.keys@.len(),
            forall|e: int| 0 <= e < self.src@.len() ==> #[trigger] self.src@[e] < self.keys@.len(),
            forall|e: int| 0 <= e < self.tgt@.len() ==> #[trigger] self.tgt@[e] < self.keys@.len(),
            forall|e: int| 0 <= e < self.edge_key@.len() ==> #[trigger] self.edge_key@[e] < self.src@.len(),
            forall|u: int, j: int|
                0 <= u < self.outgoing@.len() && 0 <= j < self.outgoing@[u]@.len() ==> (#[trigger] self.outgoing@[u]@[j]) < self.src@.len()
                    && self.src@[self.outgoing@[u]@[j] as int] == u,
            forall|u: int, j: int|
                0 <= u < self.incoming@.len() && 0 <= j < self.incoming@[u]@.len() ==> (#[trigger] self.incoming@[u]@[j]) < self.src@.len()
                    && self.tgt@[self.incoming@[u]@[j] as int] == u && !self.back@[self.incoming@[u]@[j] as int],
            forall|u: int| 0 <= u < self.data_pos@.len() ==> #[trigger] self.data_pos@[u] < self.keys@.len(),
            self.keys@.len() == self.graph.nodes@.len(),
            self.src@.len() == self.graph.edges@.len(),
            self.src@.len() <= usize::MAX,
            forall|u: int| 0 <= u < self.outgoing@.len() ==> (#[trigger] self.outgoing@[u])@.len() <= usize::MAX,
    {
        let g = &self.graph;
        assert(g.edges.len() == g.edges@.len());
        assert forall|p: int| 0 <= p < self.keys@.len() implies #[trigger] self.keys@[p] < self.keys@.len() by {
            lemma_key_bounds(g, p);
        }
        assert forall|e: int| 0 <= e < self.src@.len() implies #[trigger] self.src@[e] < self.keys@.len() by {
            assert(edge_source_key(g, e) is Some);
            lemma_first_index_some(node_ids(g), g.edges@[e].source@);
        }
        assert forall|e: int| 0 <= e < self.tgt@.len() implies #[trigger] self.tgt@[e] < self.keys@.len() by {
            assert(edge_source_key(g, e) is Some);
            assert(edge_target_key(g, e) is Some);
            lemma_first_index_some(node_ids(g), g.edges@[e].target@);
        }
        assert forall|e: int| 0 <= e < self.edge_key@.len() implies #[trigger] self.edge_key@[e] < self.src@.len() by {
            lemma_edge_key_bounds(g, e);
        }
        assert forall|u: int, j: int|
            0 <= u < self.outgoing@.len() && 0 <= j < self.outgoing@[u]@.len() implies (#[trigger] self.outgoing@[u]@[j]) < self.src@.len()
                && self.src@[self.outgoing@[u]@[j] as int] == u by {
            lemma_out_edges_facts(g, u);
        }
        assert forall|u: int, j: int|
            0 <= u < self.incoming@.len() && 0 <= j < self.incoming@[u]@.len() implies (#[trigger] self.incoming@[u]@[j]) < self.src@.len()
                && self.tgt@[self.incoming@[u]@[j] as int] == u && !self.back@[self.incoming@[u]@[j] as int] by {
            lemma_incoming_facts(g, u);
        }
        assert forall|u: int| 0 <= u < self.outgoing@.len() implies (#[trigger] self.outgoing@[u])@.len() <= usize::MAX by {
            positions(g.edges@.len()).lemma_filter_len(|e: int| edge_source_key(g, e) == Some(u));
        }
    }
}

proof fn lemma_edge_key_bounds(g: &Graph, e: int)
    requires
        0 <= e < g.edges@.len(),
    ensures
        is_first_index(edge_ids(g), edge_ids(g)[e], edge_key(g, e)),
        0 <= edge_key(g, e) <= e,
{
    let ids = edge_ids(g);
    crate::graph::lemma_least_index(ids, ids[e], e);
    lemma_first_index_some(ids, ids[e]);
    if edge_key(g, e) > e {
        assert(ids[e] != ids[e]);
    }
}

proof fn lemma_incoming_facts(g: &Graph, u: int)
    requires
        g.edges@.len() <= usize::MAX,
    ensures
        forall|j: int|
            0 <= j < incoming_edges(g, u).len() ==> (#[trigger] incoming_edges(g, u)[j]) < g.edges@.len()
                && edge_target_key(g, incoming_edges(g, u)[j] as int) == Some(u) && !is_loop_edge(
                g,
                incoming_edges(g, u)[j] as int,
            ),
{
    let pred = |e: int| edge_target_key(g, e) == Some(u) && !is_loop_edge(g, e);
    let f = positions(g.edges@.len()).filter(pred);
    assert forall|j: int| 0 <= j < incoming_edges(g, u).len() implies (#[trigger] incoming_edges(g, u)[j]) < g.edges@.len()
        && edge_target_key(g, incoming_edges(g, u)[j] as int) == Some(u) && !is_loop_edge(
        g,
        incoming_edges(g, u)[j] as int,
    ) by {
        assert(f.contains(f[j]));
        positions(g.edges@.len()).lemma_filter_contains_rev(pred, f[j]);
        positions(g.edges@.len()).lemma_filter_pred(pred, j);
        let i = choose|i: int| 0 <= i < positions(g.edges@.len()).len() && positions(g.edges@.len())[i] == f[j];
        assert(incoming_edges(g, u)[j] == f[j] as usize);
    }
}

fn compute_edge_keys(g: &Graph) -> (keys: Vec<usize>)
    ensures
        keys@.len() == g.edges@.len(),
        forall|e: int| 0 <= e < g.edges@.len() ==> #[trigger] keys@[e] as int == edge_key(g, e),
{
    let ghost ids = edge_ids(g);
    let mut keys: Vec<usize> = Vec::new();
    let mut e: usize = 0;
    while e < g.edges.len()
        invariant
            ids == edge_ids(g),
            e <= g.edges@.len(),
            keys@.len() == e,
            forall|q: int| 0 <= q < e ==> #[trigger] keys@[q] as int == edge_key(g, q),
        decreases g.edges.len() - e,
    {
        let mut q: usize = 0;
        while q < e
            invariant
                ids == edge_ids(g),
                e < g.edges@.len(),
                q <= e,
                forall|j: int| 0 <= j < q ==> ids[j] != ids[e as int],
            ensures
                q <= e,
                forall|j: int| 0 <= j < q ==> ids[j] != ids[e as int],
                q < e ==> ids[q as int] == ids[e as int],
            decreases e - q,
        {
            proof {
                assert(ids[q as int] == g.edges@[q as int].id@);
                assert(ids[e as int] == g.edges@[e as int].id@);
            }
            if text_eq(g.edges[q].id.as_str(), g.edges[e].id.as_str()) {
                break;
            }
            q = q + 1;
        }
        proof {
            if q < e {
                assert(ids[q as int] == g.edges@[q as int].id@);
                assert(ids[e as int] == g.edges@[e as int].id@);
            }
            assert(is_first_index(ids, ids[e as int], q as int));
            crate::graph::lemma_first_index_is(ids, ids[e as int], q as int);
        }
        keys.push(q);
        e = e + 1;
    }
    keys
}

fn compute_incoming(g: &Graph, tgt: &Vec<usize>, back: &Vec<bool>, u: usize) -> (inc: Vec<usize>)
    requires
        tgt@.len() == g.edges@.len(),
        back@.len() == g.edges@.len(),
        forall|e: int| 0 <= e < g.edges@.len() ==> Some(#[trigger] tgt@[e] as int) == edge_target_key(g, e),
        forall|e: int| 0 <= e < g.edges@.len() ==> #[trigger] back@[e] == is_loop_edge(g, e),
    ensures
        inc@ == incoming_edges(g, u as int),
{
    let ghost pred = |e: int| edge_target_key(g, e) == Some(u as int) && !is_loop_edge(g, e);
    let ghost as_u = |e: int| e as usize;
    let mut inc: Vec<usize> = Vec::new();
    let mut e: usize = 0;
    while e < tgt.len()
        invariant
            e <= tgt@.len(),
            tgt@.len() == g.edges@.len(),
            back@.len() == g.edges@.len(),
            forall|q: int| 0 <= q < g.edges@.len() ==> Some(#[trigger] tgt@[q] as int) == edge_target_key(g, q),
            forall|q: int| 0 <= q < g.edges@.len() ==> #[trigger] back@[q] == is_loop_edge(g, q),
            pred == (|e: int| edge_target_key(g, e) == Some(u as int) && !is_loop_edge(g, e)),
            as_u == (|e: int| e as usize),
            inc@ == positions(e as nat).filter(pred).map_values(as_u),
        decreases tgt.len() - e,
    {
        proof {
            assert(positions((e + 1) as nat) =~= positions(e as nat).push(e as int));
            positions(e as nat).lemma_filter_push(e as int, pred);
            assert(tgt@[e as int] == tgt@[e as int]);
            assert(back@[e as int] == back@[e as int]);
        }
        let hit = tgt[e] == u && !back[e];
        if hit {
            inc.push(e);
            proof {
                let f = positions(e as nat).filter(pred);
                assert(f.push(e as int).map_values(as_u) =~= f.map_values(as_u).push(as_u(e as int)));
            }
        }
        e = e + 1;
    }
    assert(positions(e as nat) =~= positions(g.edges@.len()));
    inc
}

fn last_position(g: &Graph, p: usize) -> (r: usize)
    requires
        p < g.nodes.len(),
    ensures
        is_last_index(node_ids(g), node_ids(g)[p as int], r as int),
{
    let ghost ids = node_ids(g);
    let mut r = p;
    let mut q = p + 1;
    while q < g.nodes.len()
        invariant
            ids == node_ids(g),
            p < g.nodes@.len(),
            p <= r < q <= g.nodes@.len(),
            ids[r as int] == ids[p as int],
            forall|j: int| r < j < q ==> ids[j] != ids[p as int],
        decreases g.nodes.len() - q,
    {
        proof {
            assert(ids[q as int] == g.nodes@[q as int].id@);
            assert(ids[p as int] == g.nodes@[p as int].id@);
        }
        if text_eq(g.nodes[q].id.as_str(), g.nodes[p].id.as_str()) {
            r = q;
        }
        q = q + 1;
    }
    r
}

impl RunPlan {
    /// Builds the plan of a graph whose edges all lead from and to declared
    /// nodes.
    pub fn new(graph: Graph) -> (plan: RunPlan)
        requires
            endpoints_resolve(&graph),
        ensures
            plan.wf(),
            plan.graph == graph,
    {
        let g = &graph;
        let n = g.nodes.len();
        let keys = node_keys(g);
        let back = classify_back_edges(g);
        let mut src: Vec<usize> = Vec::new();
        let mut tgt: Vec<usize> = Vec::new();
        let mut srco: Vec<Option<usize>> = Vec::new();
        let mut e: usize = 0;
        while e < g.edges.len()
            invariant
                endpoints_resolve(g),
                e <= g.edges@.len(),
                src@.len() == e,
                tgt@.len() == e,
                srco@.len() == e,
                forall|q: int| 0 <= q < e ==> Some(#[trigger] src@[q] as int) == edge_source_key(g, q),
                forall|q: int| 0 <= q < e ==> Some(#[trigger] tgt@[q] as int) == edge_target_key(g, q),
                forall|q: int| 0 <= q < e ==> #[trigger] srco@[q] == opt_usize(edge_source_key(g, q)),
                forall|q: int| 0 <= q < e ==> (#[trigger] edge_source_key(g, q) matches Some(k) ==> 0 <= k < g.nodes@.len()),
            decreases g.edges.len() - e,
        {
            assert(edge_source_key(g, e as int) is Some);
            let s = resolve_id(g, g.edges[e].source.as_str());
            let t = resolve_id(g, g.edges[e].target.as_str());
            let sv = match s {
                Some(k) => k,
                None => 0,
            };
            let tv = match t {
                Some(k) => k,
                None => 0,
            };
            src.push(sv);
            tgt.push(tv);
            srco.push(s);
            e = e + 1;
        }
        let mut outgoing: Vec<Vec<usize>> = Vec::new();
        let mut incoming: Vec<Vec<usize>> = Vec::new();
        let mut data_pos: Vec<usize> = Vec::new();
        proof {
            assert(g.nodes.len() == g.nodes@.len());
        }
        let mut u: usize = 0;
        while u < n
            invariant
                n == g.nodes@.len(),
                n <= usize::MAX,
                u <= n,
                outgoing@.len() == u,
                incoming@.len() == u,
                data_pos@.len() == u,
                srco@.len() == g.edges@.len(),
                tgt@.len() == g.edges@.len(),
                back@.len() == g.edges@.len(),
                forall|q: int| 0 <= q < g.edges@.len() ==> #[trigger] srco@[q] == opt_usize(edge_source_key(g, q)),
                forall|q: int| 0 <= q < g.edges@.len() ==> (#[trigger] edge_source_key(g, q) matches Some(k) ==> 0 <= k < g.nodes@.len()),
                forall|q: int| 0 <= q < g.edges@.len() ==> Some(#[trigger] tgt@[q] as int) == edge_target_key(g, q),
                forall|q: int| 0 <= q < g.edges@.len() ==> #[trigger] back@[q] == is_loop_edge(g, q),
                forall|w: int| 0 <= w < u ==> (#[trigger] outgoing@[w])@ == out_edges(g, w),
                forall|w: int| 0 <= w < u ==> (#[trigger] incoming@[w])@ == incoming_edges(g, w),
                forall|w: int| 0 <= w < u ==> is_last_index(node_ids(g), node_ids(g)[w], #[trigger] data_pos@[w] as int),
            decreases n - u,
        {
            outgoing.push(compute_out_edges(g, &srco, u));
            incoming.push(compute_incoming(g, &tgt, &back, u));
            data_pos.push(last_position(g, u));
            u = u + 1;
        }
        proof {
            assert forall|q: int| 0 <= q < g.edges@.len() implies #[trigger] tgt@[q] as int == edge_target_key(g, q)->0 by {
                assert(Some(tgt@[q] as int) == edge_target_key(g, q));
            }
        }
        let rerun = rerunnable_nodes(g, &tgt, &back, &outgoing);
        let edge_key = compute_edge_keys(g);
        RunPlan { graph, keys, src, tgt, edge_key, back, outgoing, incoming, rerun, data_pos }
    }
}

} // verus!
