//! Workflow graphs: resolving node ids, classifying loop-back edges, and the
//! structural check a workflow must pass before it is stored or run.
use vstd::prelude::*;
use crate::dfs::{DfsInput, Color, wf_input, dfs_back_edges, dfs_final, dfs_classify, input_view, lemma_roots_finished, lemma_kept_edge_descends, lemma_final, closed_walk, step_edge, lemma_back_edge_closes_cycle};
use crate::models::{Graph, WorkflowNode, WorkflowEdge};
use crate::text::{text_eq, is_blank, blank, text_to_string, push_text};
use crate::condition::{CompiledRegex, regex_compiles};

verus! {

// ---------------------------------------------------------------- ids

pub open spec fn is_first_index(ids: Seq<Seq<char>>, id: Seq<char>, k: int) -> bool {
    &&& 0 <= k < ids.len()
    &&& ids[k] == id
    &&& forall|j: int| 0 <= j < k ==> ids[j] != id
}

/// The first position holding `id`, if any.
pub open spec fn first_index(ids: Seq<Seq<char>>, id: Seq<char>) -> Option<int> {
    if exists|k: int| is_first_index(ids, id, k) {
        Some(choose|k: int| is_first_index(ids, id, k))
    } else {
        None
    }
}

pub proof fn lemma_first_index_is(ids: Seq<Seq<char>>, id: Seq<char>, k: int)
    requires
        is_first_index(ids, id, k),
    ensures
        first_index(ids, id) == Some(k),
{
    let c = choose|c: int| is_first_index(ids, id, c);
    assert(is_first_index(ids, id, c));
    if c < k {
        assert(ids[c] != id);
    } else if k < c {
        assert(ids[k] != id);
    }
}

pub proof fn lemma_first_index_none(ids: Seq<Seq<char>>, id: Seq<char>)
    requires
        forall|j: int| 0 <= j < ids.len() ==> ids[j] != id,
    ensures
        first_index(ids, id) == None::<int>,
{
}

pub proof fn lemma_first_index_some(ids: Seq<Seq<char>>, id: Seq<char>)
    requires
        first_index(ids, id) is Some,
    ensures
        is_first_index(ids, id, first_index(ids, id)->0),
{
}

pub open spec fn node_ids(g: &Graph) -> Seq<Seq<char>> {
    g.nodes@.map_values(|n: WorkflowNode| n.id@)
}

/// The node an id names: the first node declared with it.
pub open spec fn resolve(g: &Graph, id: Seq<char>) -> Option<int> {
    first_index(node_ids(g), id)
}

pub open spec fn edge_source_key(g: &Graph, e: int) -> Option<int> {
    resolve(g, g.edges@[e].source@)
}

pub open spec fn edge_target_key(g: &Graph, e: int) -> Option<int> {
    resolve(g, g.edges@[e].target@)
}

/// The node a declared node position stands for (the first one with its id).
pub open spec fn node_key(g: &Graph, p: int) -> int {
    resolve(g, node_ids(g)[p])->0
}

/// Every edge leaves from and points at a declared node.
pub open spec fn endpoints_resolve(g: &Graph) -> bool {
    forall|e: int|
        0 <= e < g.edges@.len() ==> (#[trigger] edge_source_key(g, e)) is Some && edge_target_key(g, e) is Some
}

/// Finds the first node declared with `id`.
pub fn find_node(nodes: &Vec<WorkflowNode>, id: &str) -> (r: Option<usize>)
    ensures
        r matches Some(k) ==> is_first_index(nodes@.map_values(|n: WorkflowNode| n.id@), id@, k as int),
        r is None ==> forall|j: int| 0 <= j < nodes@.len() ==> nodes@[j].id@ != id@,
        r matches Some(k) ==> first_index(nodes@.map_values(|n: WorkflowNode| n.id@), id@) == Some(k as int),
        r is None ==> first_index(nodes@.map_values(|n: WorkflowNode| n.id@), id@) == None::<int>,
{
    let ghost ids = nodes@.map_values(|n: WorkflowNode| n.id@);
    let mut i: usize = 0;
    while i < nodes.len()
        invariant
            i <= nodes.len(),
            ids == nodes@.map_values(|n: WorkflowNode| n.id@),
            forall|j: int| 0 <= j < i ==> nodes@[j].id@ != id@,
        decreases nodes.len() - i,
    {
        if text_eq(nodes[i].id.as_str(), id) {
            proof {
                assert(is_first_index(ids, id@, i as int));
                lemma_first_index_is(ids, id@, i as int);
            }
            return Some(i);
        }
        i = i + 1;
    }
    proof {
        assert forall|j: int| 0 <= j < ids.len() implies ids[j] != id@ by {
            assert(ids[j] == nodes@[j].id@);
        }
        lemma_first_index_none(ids, id@);
    }
    None
}

// ---------------------------------------------------------------- loop-back edges

pub open spec fn positions(n: nat) -> Seq<int> {
    Seq::new(n, |p: int| p)
}

pub open spec fn has_incoming(g: &Graph, id: Seq<char>) -> bool {
    exists|e: int| 0 <= e < g.edges@.len() && #[trigger] g.edges@[e].target@ == id
}

/// Where the search starts: the nodes without incoming edges in declaration
/// order, then every node.
pub open spec fn search_roots(g: &Graph) -> Seq<usize> {
    positions(g.nodes@.len()).filter(|p: int| !has_incoming(g, node_ids(g)[p])).map_values(
        |p: int| node_key(g, p) as usize,
    ) + positions(g.nodes@.len()).map_values(|p: int| node_key(g, p) as usize)
}

/// The edges leaving node `u`, in declaration order.
pub open spec fn out_edges(g: &Graph, u: int) -> Seq<usize> {
    positions(g.edges@.len()).filter(|e: int| edge_source_key(g, e) == Some(u)).map_values(
        |e: int| e as usize,
    )
}

pub open spec fn opt_usize(o: Option<int>) -> Option<usize> {
    match o {
        Some(t) => Some(t as usize),
        None => None,
    }
}

pub open spec fn search_input(g: &Graph) -> DfsInput {
    DfsInput {
        n: g.nodes@.len(),
        num_edges: g.edges@.len(),
        adj: Seq::new(g.nodes@.len(), |u: int| out_edges(g, u)),
        tgt: Seq::new(g.edges@.len(), |e: int| opt_usize(edge_target_key(g, e))),
        roots: search_roots(g),
    }
}

/// Whether edge `e` is a loop-back edge: the search marked an edge with its id.
pub open spec fn is_loop_edge(g: &Graph, e: int) -> bool {
    exists|q: int|
        0 <= q < g.edges@.len() && #[trigger] g.edges@[q].id@ == g.edges@[e].id@
            && dfs_back_edges(search_input(g))[q]
}

pub(crate) proof fn lemma_key_bounds(g: &Graph, p: int)
    requires
        0 <= p < g.nodes@.len(),
    ensures
        is_first_index(node_ids(g), node_ids(g)[p], node_key(g, p)),
        0 <= node_key(g, p) <= p,
{
    let ids = node_ids(g);
    if !(exists|k: int| is_first_index(ids, ids[p], k)) {
        // the least position holding the id is a first index
        lemma_least_index(ids, ids[p], p);
    }
    lemma_first_index_some(ids, ids[p]);
    let k = node_key(g, p);
    if k > p {
        assert(ids[p] != ids[p]);
    }
}

pub(crate) proof fn lemma_least_index(ids: Seq<Seq<char>>, id: Seq<char>, p: int)
    requires
        0 <= p < ids.len(),
        ids[p] == id,
    ensures
        exists|k: int| is_first_index(ids, id, k),
    decreases p,
{
    if exists|j: int| 0 <= j < p && ids[j] == id {
        let j = choose|j: int| 0 <= j < p && ids[j] == id;
        lemma_least_index(ids, id, j);
    } else {
        assert(is_first_index(ids, id, p));
    }
}

pub(crate) proof fn lemma_search_input_wf(g: &Graph)
    requires
        g.edges@.len() <= usize::MAX,
        g.nodes@.len() <= usize::MAX,
    ensures
        wf_input(search_input(g)),
{
    let inp = search_input(g);
    assert forall|u: int| 0 <= u < inp.n implies (#[trigger] inp.adj[u]).len() <= usize::MAX by {
        positions(g.edges@.len()).lemma_filter_len(|e: int| edge_source_key(g, e) == Some(u));
    }
    assert forall|u: int, j: int| 0 <= u < inp.n && 0 <= j < inp.adj[u].len() implies
        #[trigger] inp.adj[u][j] < inp.num_edges by {
        let f = positions(g.edges@.len()).filter(|e: int| edge_source_key(g, e) == Some(u));
        assert(f.contains(f[j]));
        positions(g.edges@.len()).lemma_filter_contains_rev(|e: int| edge_source_key(g, e) == Some(u), f[j]);
    }
    assert forall|e: int| 0 <= e < inp.num_edges && (#[trigger] inp.tgt[e]) is Some implies
        inp.tgt[e]->0 < inp.n by {
        lemma_first_index_some(node_ids(g), g.edges@[e].target@);
    }
    assert forall|r: int| 0 <= r < inp.roots.len() implies #[trigger] inp.roots[r] < inp.n by {
        let f = positions(g.nodes@.len()).filter(|p: int| !has_incoming(g, node_ids(g)[p]));
        let fl = f.map_values(|p: int| node_key(g, p) as usize);
        if r < fl.len() {
            assert(f.contains(f[r]));
            positions(g.nodes@.len()).lemma_filter_contains_rev(|p: int| !has_incoming(g, node_ids(g)[p]), f[r]);
            lemma_key_bounds(g, f[r]);
        } else {
            lemma_key_bounds(g, r - fl.len());
        }
    }
}

/// The node each declared node position stands for.
pub(crate) fn node_keys(g: &Graph) -> (keys: Vec<usize>)
    ensures
        keys@.len() == g.nodes@.len(),
        forall|p: int| 0 <= p < g.nodes@.len() ==> keys@[p] as int == #[trigger] node_key(g, p),
{
    let mut keys: Vec<usize> = Vec::new();
    let mut p: usize = 0;
    while p < g.nodes.len()
        invariant
            p <= g.nodes@.len(),
            keys@.len() == p,
            forall|q: int| 0 <= q < p ==> keys@[q] as int == #[trigger] node_key(g, q),
        decreases g.nodes.len() - p,
    {
        let r = find_node(&g.nodes, g.nodes[p].id.as_str());
        proof {
            lemma_key_bounds(g, p as int);
            assert(node_ids(g)[p as int] == g.nodes@[p as int].id@);
        }
        let k = match r {
            Some(k) => k,
            None => {
                proof {
                    assert(g.nodes@[p as int].id@ != g.nodes@[p as int].id@);
                }
                0
            },
        };
        keys.push(k);
        p = p + 1;
    }
    keys
}

/// The node an id names, resolved against the graph's nodes.
pub(crate) fn resolve_id(g: &Graph, id: &str) -> (r: Option<usize>)
    ensures
        opt_usize(resolve(g, id@)) == r,
        r matches Some(k) ==> k < g.nodes@.len() && resolve(g, id@) == Some(k as int),
        r is None ==> resolve(g, id@) is None,
{
    let r = find_node(&g.nodes, id);
    assert(node_ids(g) == g.nodes@.map_values(|n: WorkflowNode| n.id@));
    r
}

/// Whether some edge points at `id`.
fn id_has_incoming(g: &Graph, id: &str) -> (r: bool)
    ensures
        r == has_incoming(g, id@),
{
    let mut e: usize = 0;
    while e < g.edges.len()
        invariant
            e <= g.edges@.len(),
            forall|q: int| 0 <= q < e ==> g.edges@[q].target@ != id@,
        decreases g.edges.len() - e,
    {
        if text_eq(g.edges[e].target.as_str(), id) {
            return true;
        }
        e = e + 1;
    }
    false
}

fn compute_roots(g: &Graph, keys: &Vec<usize>) -> (roots: Vec<usize>)
    requires
        keys@.len() == g.nodes@.len(),
        forall|p: int| 0 <= p < g.nodes@.len() ==> keys@[p] as int == #[trigger] node_key(g, p),
    ensures
        roots@ == search_roots(g),
{
    let n = g.nodes.len();
    let ghost pred = |p: int| !has_incoming(g, node_ids(g)[p]);
    let ghost key_of = |p: int| node_key(g, p) as usize;
    let mut roots: Vec<usize> = Vec::new();
    let mut p: usize = 0;
    while p < n
        invariant
            n == g.nodes@.len(),
            p <= n,
            keys@.len() == n,
            forall|q: int| 0 <= q < n ==> keys@[q] as int == #[trigger] node_key(g, q),
            pred == (|p: int| !has_incoming(g, node_ids(g)[p])),
            key_of == (|p: int| node_key(g, p) as usize),
            roots@ == positions(p as nat).filter(pred).map_values(key_of),
        decreases n - p,
    {
        let inc = id_has_incoming(g, g.nodes[p].id.as_str());
        proof {
            assert(positions((p + 1) as nat) =~= positions(p as nat).push(p as int));
            positions(p as nat).lemma_filter_push(p as int, pred);
            assert(node_ids(g)[p as int] == g.nodes@[p as int].id@);
        }
        if !inc {
            roots.push(keys[p]);
            proof {
                let f = positions(p as nat).filter(pred);
                assert(f.push(p as int).map_values(key_of) =~= f.map_values(key_of).push(key_of(p as int)));
            }
        }
        p = p + 1;
    }
    assert(positions(n as nat) =~= positions(g.nodes@.len()));
    let ghost first = roots@;
    let mut p: usize = 0;
    while p < n
        invariant
            n == g.nodes@.len(),
            p <= n,
            keys@.len() == n,
            forall|q: int| 0 <= q < n ==> keys@[q] as int == #[trigger] node_key(g, q),
            key_of == (|p: int| node_key(g, p) as usize),
            roots@ == first + positions(p as nat).map_values(key_of),
        decreases n - p,
    {
        roots.push(keys[p]);
        proof {
            assert(positions((p + 1) as nat).map_values(key_of) =~= positions(p as nat).map_values(key_of).push(
                key_of(p as int),
            ));
        }
        p = p + 1;
    }
    assert(roots@ =~= search_roots(g));
    roots
}

pub(crate) fn compute_out_edges(g: &Graph, src: &Vec<Option<usize>>, u: usize) -> (out: Vec<usize>)
    requires
        src@.len() == g.edges@.len(),
        forall|e: int| 0 <= e < g.edges@.len() ==> #[trigger] src@[e] == opt_usize(edge_source_key(g, e)),
        forall|e: int| 0 <= e < g.edges@.len() ==> (#[trigger] edge_source_key(g, e) matches Some(k) ==> 0 <= k < g.nodes@.len()),
        u < g.nodes@.len(),
        g.nodes@.len() <= usize::MAX,
    ensures
        out@ == out_edges(g, u as int),
{
    let ghost pred = |e: int| edge_source_key(g, e) == Some(u as int);
    let ghost as_u = |e: int| e as usize;
    let mut out: Vec<usize> = Vec::new();
    let mut e: usize = 0;
    while e < src.len()
        invariant
            e <= src@.len(),
            src@.len() == g.edges@.len(),
            forall|q: int| 0 <= q < g.edges@.len() ==> #[trigger] src@[q] == opt_usize(edge_source_key(g, q)),
            forall|q: int| 0 <= q < g.edges@.len() ==> (#[trigger] edge_source_key(g, q) matches Some(k) ==> 0 <= k < g.nodes@.len()),
            u < g.nodes@.len(),
            g.nodes@.len() <= usize::MAX,
            pred == (|e: int| edge_source_key(g, e) == Some(u as int)),
            as_u == (|e: int| e as usize),
            out@ == positions(e as nat).filter(pred).map_values(as_u),
        decreases src.len() - e,
    {
        proof {
            assert(positions((e + 1) as nat) =~= positions(e as nat).push(e as int));
            positions(e as nat).lemma_filter_push(e as int, pred);
        }
        let hit = match src[e] {
            Some(k) => k == u,
            None => false,
        };
        proof {
            assert(src@[e as int] == opt_usize(edge_source_key(g, e as int)));
            assert(hit == pred(e as int));
        }
        if hit {
            out.push(e);
            proof {
                let f = positions(e as nat).filter(pred);
                assert(f.push(e as int).map_values(as_u) =~= f.map_values(as_u).push(as_u(e as int)));
            }
        }
        e = e + 1;
    }
    out
}

/// DFS edge classification: an edge pointing at a node on the current DFS
/// stack closes a cycle and becomes a loop-back edge. Roots are the nodes
/// without incoming edges (in declaration order), then any still-unvisited
/// node. The result marks each edge whose id is that of a loop-back edge.
pub fn classify_back_edges(g: &Graph) -> (marks: Vec<bool>)
    ensures
        marks@.len() == g.edges@.len(),
        forall|e: int| 0 <= e < g.edges@.len() ==> marks@[e] == #[trigger] is_loop_edge(g, e),
{
    let n = g.nodes.len();
    let keys = node_keys(g);
    let mut src: Vec<Option<usize>> = Vec::new();
    let mut tgt: Vec<Option<usize>> = Vec::new();
    let mut e: usize = 0;
    while e < g.edges.len()
        invariant
            e <= g.edges@.len(),
            src@.len() == e,
            tgt@.len() == e,
            forall|q: int| 0 <= q < e ==> #[trigger] src@[q] == opt_usize(edge_source_key(g, q)),
            forall|q: int| 0 <= q < e ==> #[trigger] tgt@[q] == opt_usize(edge_target_key(g, q)),
            forall|q: int| 0 <= q < e ==> (#[trigger] edge_source_key(g, q) matches Some(k) ==> 0 <= k < g.nodes@.len()),
        decreases g.edges.len() - e,
    {
        let s = resolve_id(g, g.edges[e].source.as_str());
        let t = resolve_id(g, g.edges[e].target.as_str());
        src.push(s);
        tgt.push(t);
        e = e + 1;
    }
    let mut adj: Vec<Vec<usize>> = Vec::new();
    let mut u: usize = 0;
    while u < n
        invariant
            n == g.nodes@.len(),
            u <= n,
            adj@.len() == u,
            src@.len() == g.edges@.len(),
            forall|q: int| 0 <= q < g.edges@.len() ==> #[trigger] src@[q] == opt_usize(edge_source_key(g, q)),
            forall|q: int| 0 <= q < g.edges@.len() ==> (#[trigger] edge_source_key(g, q) matches Some(k) ==> 0 <= k < g.nodes@.len()),
            forall|w: int| 0 <= w < u ==> (#[trigger] adj@[w])@ == out_edges(g, w),
        decreases n - u,
    {
        let out = compute_out_edges(g, &src, u);
        adj.push(out);
        u = u + 1;
    }
    let roots = compute_roots(g, &keys);
    let ghost inp = search_input(g);
    proof {
        assert(input_view(n, &adj, &tgt, &roots).adj =~= inp.adj);
        assert(input_view(n, &adj, &tgt, &roots).tgt =~= inp.tgt);
        assert(input_view(n, &adj, &tgt, &roots) == inp);
        lemma_search_input_wf(g);
    }
    let back = dfs_classify(n, &adj, &tgt, &roots);
    proof {
        lemma_final(inp);
    }
    let mut marks: Vec<bool> = Vec::new();
    let mut e: usize = 0;
    while e < g.edges.len()
        invariant
            e <= g.edges@.len(),
            back@ == dfs_back_edges(inp),
            back@.len() == g.edges@.len(),
            inp == search_input(g),
            marks@.len() == e,
            forall|q: int| 0 <= q < e ==> marks@[q] == #[trigger] is_loop_edge(g, q),
        decreases g.edges.len() - e,
    {
        let mut found = false;
        let mut q: usize = 0;
        while q < g.edges.len()
            invariant
                e < g.edges@.len(),
                q <= g.edges@.len(),
                back@ == dfs_back_edges(inp),
                back@.len() == g.edges@.len(),
                inp == search_input(g),
                found == exists|r: int| 0 <= r < q && #[trigger] g.edges@[r].id@ == g.edges@[e as int].id@ && back@[r],
            decreases g.edges.len() - q,
        {
            if back[q] && text_eq(g.edges[q].id.as_str(), g.edges[e].id.as_str()) {
                found = true;
            }
            q = q + 1;
        }
        marks.push(found);
        e = e + 1;
    }
    marks
}

// ---------------------------------------------------------------- acyclicity

/// A walk along edges that are not loop-back edges: each edge's target id is
/// the next edge's source id.
pub open spec fn kept_walk(g: &Graph, w: Seq<int>) -> bool {
    &&& w.len() >= 1
    &&& forall|m: int| 0 <= m < w.len() ==> 0 <= #[trigger] w[m] < g.edges@.len() && !is_loop_edge(g, w[m])
    &&& forall|m: int|
        0 <= m < w.len() - 1 ==> g.edges@[#[trigger] w[m]].target@ == g.edges@[w[m + 1]].source@
}

proof fn lemma_node_finished(g: &Graph, u: int)
    requires
        0 <= u < g.nodes@.len(),
        g.nodes@.len() <= usize::MAX,
        g.edges@.len() <= usize::MAX,
        node_key(g, u) == u,
    ensures
        dfs_final(search_input(g)).color[u] == Color::Black,
{
    let inp = search_input(g);
    lemma_search_input_wf(g);
    let f = positions(g.nodes@.len()).filter(|p: int| !has_incoming(g, node_ids(g)[p])).map_values(
        |p: int| node_key(g, p) as usize,
    );
    let all = positions(g.nodes@.len()).map_values(|p: int| node_key(g, p) as usize);
    assert(inp.roots[f.len() + u] == all[u]);
    lemma_roots_finished(inp, f.len() + u);
}

proof fn lemma_edge_descends(g: &Graph, e: int)
    requires
        endpoints_resolve(g),
        g.nodes@.len() <= usize::MAX,
        g.edges@.len() <= usize::MAX,
        0 <= e < g.edges@.len(),
        !is_loop_edge(g, e),
    ensures
        dfs_final(search_input(g)).order[edge_target_key(g, e)->0] < dfs_final(search_input(g)).order[edge_source_key(g, e)->0],
{
    let inp = search_input(g);
    lemma_search_input_wf(g);
    assert(edge_source_key(g, e) is Some);
    let u = edge_source_key(g, e)->0;
    lemma_first_index_some(node_ids(g), g.edges@[e].source@);
    lemma_key_bounds(g, u);
    lemma_first_index_is(node_ids(g), node_ids(g)[u], u);
    lemma_node_finished(g, u);
    let pred = |q: int| edge_source_key(g, q) == Some(u);
    let filt = positions(g.edges@.len()).filter(pred);
    assert(positions(g.edges@.len())[e] == e);
    positions(g.edges@.len()).lemma_filter_contains(pred, e);
    let j = choose|j: int| 0 <= j < filt.len() && filt[j] == e;
    assert(inp.adj[u][j] == e as usize);
    assert(!dfs_back_edges(inp)[e]) by {
        if dfs_back_edges(inp)[e] {
            assert(g.edges@[e].id@ == g.edges@[e].id@);
        }
    }
    lemma_first_index_some(node_ids(g), g.edges@[e].target@);
    lemma_kept_edge_descends(inp, u, j);
}

proof fn lemma_walk_descends(g: &Graph, w: Seq<int>, m: int)
    requires
        endpoints_resolve(g),
        g.nodes@.len() <= usize::MAX,
        g.edges@.len() <= usize::MAX,
        kept_walk(g, w),
        0 <= m < w.len(),
    ensures
        dfs_final(search_input(g)).order[edge_target_key(g, w[m])->0] < dfs_final(search_input(g)).order[edge_source_key(g, w[0])->0],
    decreases m,
{
    lemma_edge_descends(g, w[m]);
    if m > 0 {
        lemma_walk_descends(g, w, m - 1);
        assert(g.edges@[w[m - 1]].target@ == g.edges@[w[m]].source@);
    }
}

/// Removing all loop-back edges leaves an acyclic forward graph: no walk
/// along the remaining edges returns to the node it started from. (Every edge
/// must lead from and to a declared node, as `validate_graph` demands.)
pub proof fn lemma_forward_graph_acyclic(g: &Graph, w: Seq<int>)
    requires
        endpoints_resolve(g),
        kept_walk(g, w),
    ensures
        g.edges@[w.last()].target@ != g.edges@[w[0]].source@,
{
    assert(g.nodes.len() == g.nodes@.len());
    assert(g.edges.len() == g.edges@.len());
    lemma_walk_descends(g, w, w.len() - 1);
}

/// A cycle of the graph: each edge leaves the node the previous one points
/// at, and the last points back at the node the first leaves.
pub open spec fn graph_cycle(g: &Graph, w: Seq<int>) -> bool {
    &&& w.len() >= 1
    &&& forall|m: int| 0 <= m < w.len() ==> 0 <= #[trigger] w[m] < g.edges@.len()
    &&& forall|m: int| 0 <= m < w.len() - 1 ==> g.edges@[#[trigger] w[m]].target@ == g.edges@[w[m + 1]].source@
    &&& g.edges@[w.last()].target@ == g.edges@[w[0]].source@
}

/// The edges leaving node `u` do leave it.
proof fn lemma_out_edge_source(g: &Graph, u: int, j: int)
    requires
        g.edges@.len() <= usize::MAX,
        0 <= j < out_edges(g, u).len(),
    ensures
        0 <= out_edges(g, u)[j] < g.edges@.len(),
        edge_source_key(g, out_edges(g, u)[j] as int) == Some(u),
{
    let pred = |e: int| edge_source_key(g, e) == Some(u);
    let f = positions(g.edges@.len()).filter(pred);
    assert(f.contains(f[j]));
    positions(g.edges@.len()).lemma_filter_contains_rev(pred, f[j]);
    assert(out_edges(g, u)[j] == f[j] as usize);
    assert(pred(f[j]));
}

/// Two ids that name the same node are the same id.
pub(crate) proof fn lemma_same_key_same_id(g: &Graph, a: Seq<char>, b: Seq<char>)
    requires
        resolve(g, a) is Some,
        resolve(g, a) == resolve(g, b),
    ensures
        a == b,
{
    lemma_first_index_some(node_ids(g), a);
    lemma_first_index_some(node_ids(g), b);
}

/// Every loop-back edge closes a cycle: the search only marks an edge (and
/// with it every edge of the same id) when that edge lies on a cycle of the
/// graph, so no edge becomes a loop without reason.
pub proof fn lemma_loop_edge_closes_cycle(g: &Graph, e: int)
    requires
        endpoints_resolve(g),
        0 <= e < g.edges@.len(),
        is_loop_edge(g, e),
    ensures
        exists|q: int, w: Seq<int>| g.edges@[q].id@ == g.edges@[e].id@ && graph_cycle(g, w) && w.last() == q,
{
    assert(g.nodes.len() == g.nodes@.len());
    assert(g.edges.len() == g.edges@.len());
    let inp = search_input(g);
    lemma_search_input_wf(g);
    let q = choose|q: int|
        0 <= q < g.edges@.len() && #[trigger] g.edges@[q].id@ == g.edges@[e].id@ && dfs_back_edges(search_input(g))[q];
    lemma_back_edge_closes_cycle(inp, q);
    let dw = choose|dw: Seq<(usize, usize)>| closed_walk(inp, dw) && step_edge(inp, dw.last()) == q;
    let w = dw.map_values(|st: (usize, usize)| step_edge(inp, st) as int);
    assert forall|m: int| 0 <= m < w.len() implies 0 <= #[trigger] w[m] < g.edges@.len() by {
        assert(dw[m].0 < inp.n);
        lemma_out_edge_source(g, dw[m].0 as int, dw[m].1 as int);
    }
    // the edge a step takes points at the node the next step leaves from
    assert forall|m: int, k: int|
        0 <= m < w.len() && 0 <= k < w.len() && inp.tgt[step_edge(inp, dw[m]) as int] == Some(dw[k].0) implies
        g.edges@[#[trigger] w[m]].target@ == g.edges@[#[trigger] w[k]].source@ by {
        assert(dw[m].0 < inp.n && dw[k].0 < inp.n);
        lemma_out_edge_source(g, dw[m].0 as int, dw[m].1 as int);
        lemma_out_edge_source(g, dw[k].0 as int, dw[k].1 as int);
        let em = w[m];
        let ek = w[k];
        assert(edge_target_key(g, em) is Some);
        lemma_first_index_some(node_ids(g), g.edges@[em].target@);
        assert(edge_target_key(g, em) == Some(dw[k].0 as int));
        lemma_same_key_same_id(g, g.edges@[em].target@, g.edges@[ek].source@);
    }
    assert forall|m: int| 0 <= m < w.len() - 1 implies g.edges@[#[trigger] w[m]].target@ == g.edges@[w[m + 1]].source@ by {
        assert(inp.tgt[step_edge(inp, dw[m]) as int] == Some(dw[m + 1].0));
        assert(g.edges@[w[m]].target@ == g.edges@[w[m + 1]].source@);
    }
    assert(inp.tgt[step_edge(inp, dw[dw.len() - 1]) as int] == Some(dw[0].0));
    assert(g.edges@[w[w.len() - 1]].target@ == g.edges@[w[0]].source@);
    assert(graph_cycle(g, w));
    assert(w.last() == q);
}

// ---------------------------------------------------------------- validation

/// Why a graph is refused.
#[derive(Debug)]
pub enum GraphError {
    NoAgentCard { node: String },
    NoFilePath { node: String },
    UnknownNodeKind { node: String, kind: String },
    MissingNode { source: String, target: String },
    MissingConditionText { source: String, target: String, kind: String },
    /// `detail` is the regex crate's message.
    InvalidRegex { source: String, target: String, pattern: String, detail: String },
    UnknownConditionKind { source: String, target: String, kind: String },
}

/// What a `GraphError` says, apart from the regex crate's own wording.
pub enum GraphProblem {
    NoAgentCard(Seq<char>),
    NoFilePath(Seq<char>),
    UnknownNodeKind(Seq<char>, Seq<char>),
    MissingNode(Seq<char>, Seq<char>),
    MissingConditionText(Seq<char>, Seq<char>, Seq<char>),
    InvalidRegex(Seq<char>, Seq<char>, Seq<char>),
    UnknownConditionKind(Seq<char>, Seq<char>, Seq<char>),
}

impl GraphError {
    pub open spec fn problem(&self) -> GraphProblem {
        match self {
            GraphError::NoAgentCard { node } => GraphProblem::NoAgentCard(node@),
            GraphError::NoFilePath { node } => GraphProblem::NoFilePath(node@),
            GraphError::UnknownNodeKind { node, kind } => GraphProblem::UnknownNodeKind(node@, kind@),
            GraphError::MissingNode { source, target } => GraphProblem::MissingNode(source@, target@),
            GraphError::MissingConditionText { source, target, kind } => GraphProblem::MissingConditionText(
                source@,
                target@,
                kind@,
            ),
            GraphError::InvalidRegex { source, target, pattern, .. } => GraphProblem::InvalidRegex(
                source@,
                target@,
                pattern@,
            ),
            GraphError::UnknownConditionKind { source, target, kind } => GraphProblem::UnknownConditionKind(
                source@,
                target@,
                kind@,
            ),
        }
    }
}

impl GraphError {
    /// The text an API client is shown for this error.
    pub open spec fn spec_message(&self) -> Seq<char> {
        match self {
            GraphError::NoAgentCard { node } => "node "@ + node@ + ": no agent card selected"@,
            GraphError::NoFilePath { node } => "file node "@ + node@ + ": no file path set"@,
            GraphError::UnknownNodeKind { node, kind } => "node "@ + node@ + ": unknown node kind '"@ + kind@ + "'"@,
            GraphError::MissingNode { source, target } => "edge "@ + source@ + " -> "@ + target@
                + " references a missing node"@,
            GraphError::MissingConditionText { source, target, kind } => "edge "@ + source@ + " -> "@ + target@
                + ": condition kind '"@ + kind@ + "' needs a condition text"@,
            GraphError::InvalidRegex { source, target, pattern, detail } => "edge "@ + source@ + " -> "@
                + target@ + ": invalid regex '"@ + pattern@ + "': "@ + detail@,
            GraphError::UnknownConditionKind { source, target, kind } => "edge "@ + source@ + " -> "@ + target@
                + ": unknown condition kind '"@ + kind@ + "'"@,
        }
    }

    pub fn message(&self) -> (r: String)
        ensures
            r@ == self.spec_message(),
    {
        match self {
            GraphError::NoAgentCard { node } => {
                let mut r = text_to_string("node ");
                push_text(&mut r, node.as_str());
                push_text(&mut r, ": no agent card selected");
                r
            },
            GraphError::NoFilePath { node } => {
                let mut r = text_to_string("file node ");
                push_text(&mut r, node.as_str());
                push_text(&mut r, ": no file path set");
                r
            },
            GraphError::UnknownNodeKind { node, kind } => {
                let mut r = text_to_string("node ");
                push_text(&mut r, node.as_str());
                push_text(&mut r, ": unknown node kind '");
                push_text(&mut r, kind.as_str());
                push_text(&mut r, "'");
                r
            },
            GraphError::MissingNode { source, target } => {
                let mut r = text_to_string("edge ");
                push_text(&mut r, source.as_str());
                push_text(&mut r, " -> ");
                push_text(&mut r, target.as_str());
                push_text(&mut r, " references a missing node");
                r
            },
            GraphError::MissingConditionText { source, target, kind } => {
                let mut r = text_to_string("edge ");
                push_text(&mut r, source.as_str());
                push_text(&mut r, " -> ");
                push_text(&mut r, target.as_str());
                push_text(&mut r, ": condition kind '");
                push_text(&mut r, kind.as_str());
                push_text(&mut r, "' needs a condition text");
                r
            },
            GraphError::InvalidRegex { source, target, pattern, detail } => {
                let mut r = text_to_string("edge ");
                push_text(&mut r, source.as_str());
                push_text(&mut r, " -> ");
                push_text(&mut r, target.as_str());
                push_text(&mut r, ": invalid regex '");
                push_text(&mut r, pattern.as_str());
                push_text(&mut r, "': ");
                push_text(&mut r, detail.as_str());
                r
            },
            GraphError::UnknownConditionKind { source, target, kind } => {
                let mut r = text_to_string("edge ");
                push_text(&mut r, source.as_str());
                push_text(&mut r, " -> ");
                push_text(&mut r, target.as_str());
                push_text(&mut r, ": unknown condition kind '");
                push_text(&mut r, kind.as_str());
                push_text(&mut r, "'");
                r
            },
        }
    }
}

/// What is wrong with a node, if anything.
pub open spec fn node_problem(n: WorkflowNode) -> Option<GraphProblem> {
    if n.kind@ == ""@ || n.kind@ == "agent"@ {
        if blank(n.agent_card_id@) {
            Some(GraphProblem::NoAgentCard(n.id@))
        } else {
            None
        }
    } else if n.kind@ == "file"@ || n.kind@ == "file_dest"@ {
        if blank(n.file_path@) {
            Some(GraphProblem::NoFilePath(n.id@))
        } else {
            None
        }
    } else {
        Some(GraphProblem::UnknownNodeKind(n.id@, n.kind@))
    }
}

/// What is wrong with an edge of `g`, if anything.
pub open spec fn edge_problem(g: &Graph, e: WorkflowEdge) -> Option<GraphProblem> {
    let kind = e.condition_kind@;
    if !node_ids(g).contains(e.source@) || !node_ids(g).contains(e.target@) {
        Some(GraphProblem::MissingNode(e.source@, e.target@))
    } else if kind == ""@ || kind == "always"@ {
        None
    } else if kind == "contains"@ || kind == "llm"@ {
        if blank(e.condition@) {
            Some(GraphProblem::MissingConditionText(e.source@, e.target@, kind))
        } else {
            None
        }
    } else if kind == "regex"@ {
        if regex_compiles(e.condition@) {
            None
        } else {
            Some(GraphProblem::InvalidRegex(e.source@, e.target@, e.condition@))
        }
    } else {
        Some(GraphProblem::UnknownConditionKind(e.source@, e.target@, kind))
    }
}

pub open spec fn first_node_problem(nodes: Seq<WorkflowNode>, i: int) -> Option<GraphProblem>
    decreases nodes.len() - i,
{
    if i < 0 || i >= nodes.len() {
        None
    } else {
        match node_problem(nodes[i]) {
            Some(p) => Some(p),
            None => first_node_problem(nodes, i + 1),
        }
    }
}

pub open spec fn first_edge_problem(g: &Graph, i: int) -> Option<GraphProblem>
    decreases g.edges@.len() - i,
{
    if i < 0 || i >= g.edges@.len() {
        None
    } else {
        match edge_problem(g, g.edges@[i]) {
            Some(p) => Some(p),
            None => first_edge_problem(g, i + 1),
        }
    }
}

/// The first problem of a graph: the nodes are checked in order, then the
/// edges in order.
pub open spec fn graph_problem(g: &Graph) -> Option<GraphProblem> {
    match first_node_problem(g.nodes@, 0) {
        Some(p) => Some(p),
        None => first_edge_problem(g, 0),
    }
}

proof fn lemma_first_node_problem_skip(nodes: Seq<WorkflowNode>, i: int)
    requires
        0 <= i <= nodes.len(),
        forall|j: int| 0 <= j < i ==> node_problem(#[trigger] nodes[j]) is None,
    ensures
        first_node_problem(nodes, 0) == first_node_problem(nodes, i),
    decreases i,
{
    if i > 0 {
        lemma_first_node_problem_skip(nodes, i - 1);
    }
}

proof fn lemma_first_edge_problem_skip(g: &Graph, i: int)
    requires
        0 <= i <= g.edges@.len(),
        forall|j: int| 0 <= j < i ==> edge_problem(g, #[trigger] g.edges@[j]) is None,
    ensures
        first_edge_problem(g, 0) == first_edge_problem(g, i),
    decreases i,
{
    if i > 0 {
        lemma_first_edge_problem_skip(g, i - 1);
    }
}

fn check_node(n: &WorkflowNode) -> (r: Result<(), GraphError>)
    ensures
        r is Ok == node_problem(*n) is None,
        r matches Err(e) ==> node_problem(*n) == Some(e.problem()),
{
    let kind = n.kind.as_str();
    if text_eq(kind, "") || text_eq(kind, "agent") {
        if is_blank(n.agent_card_id.as_str()) {
            return Err(GraphError::NoAgentCard { node: text_to_string(n.id.as_str()) });
        }
    } else if text_eq(kind, "file") || text_eq(kind, "file_dest") {
        if is_blank(n.file_path.as_str()) {
            return Err(GraphError::NoFilePath { node: text_to_string(n.id.as_str()) });
        }
    } else {
        return Err(GraphError::UnknownNodeKind { node: text_to_string(n.id.as_str()), kind: text_to_string(kind) });
    }
    Ok(())
}

fn check_edge(g: &Graph, e: &WorkflowEdge) -> (r: Result<(), GraphError>)
    ensures
        r is Ok == edge_problem(g, *e) is None,
        r matches Err(err) ==> edge_problem(g, *e) == Some(err.problem()),
{
    let s = find_node(&g.nodes, e.source.as_str());
    let t = find_node(&g.nodes, e.target.as_str());
    proof {
        assert(node_ids(g) == g.nodes@.map_values(|n: WorkflowNode| n.id@));
        if s is None {
            assert forall|j: int| 0 <= j < node_ids(g).len() implies node_ids(g)[j] != e.source@ by {
                assert(node_ids(g)[j] == g.nodes@[j].id@);
            }
        } else {
            assert(node_ids(g)[s->0 as int] == e.source@);
        }
        if t is None {
            assert forall|j: int| 0 <= j < node_ids(g).len() implies node_ids(g)[j] != e.target@ by {
                assert(node_ids(g)[j] == g.nodes@[j].id@);
            }
        } else {
            assert(node_ids(g)[t->0 as int] == e.target@);
        }
    }
    if s.is_none() || t.is_none() {
        return Err(GraphError::MissingNode {
            source: text_to_string(e.source.as_str()),
            target: text_to_string(e.target.as_str()),
        });
    }
    let kind = e.condition_kind.as_str();
    if text_eq(kind, "") || text_eq(kind, "always") {
        Ok(())
    } else if text_eq(kind, "contains") || text_eq(kind, "llm") {
        if is_blank(e.condition.as_str()) {
            Err(GraphError::MissingConditionText {
                source: text_to_string(e.source.as_str()),
                target: text_to_string(e.target.as_str()),
                kind: text_to_string(kind),
            })
        } else {
            Ok(())
        }
    } else if text_eq(kind, "regex") {
        match CompiledRegex::compile(e.condition.as_str()) {
            Ok(_) => Ok(()),
            Err(detail) => Err(GraphError::InvalidRegex {
                source: text_to_string(e.source.as_str()),
                target: text_to_string(e.target.as_str()),
                pattern: text_to_string(e.condition.as_str()),
                detail,
            }),
        }
    } else {
        Err(GraphError::UnknownConditionKind {
            source: text_to_string(e.source.as_str()),
            target: text_to_string(e.target.as_str()),
            kind: text_to_string(kind),
        })
    }
}

/// Structural validation. Cycles are allowed (they become loops at runtime,
/// bounded by the workflow's step budget); every node must be an agent node
/// with an agent card or a file node with a path, edges must reference
/// existing nodes and conditions must be well-formed. The first problem, in
/// the order nodes then edges, is reported.
pub fn validate_graph(g: &Graph) -> (r: Result<(), GraphError>)
    ensures
        r is Ok == graph_problem(g) is None,
        r matches Err(e) ==> graph_problem(g) == Some(e.problem()),
{
    let mut i: usize = 0;
    while i < g.nodes.len()
        invariant
            i <= g.nodes@.len(),
            forall|j: int| 0 <= j < i ==> node_problem(#[trigger] g.nodes@[j]) is None,
        decreases g.nodes.len() - i,
    {
        let r = check_node(&g.nodes[i]);
        if r.is_err() {
            proof {
                lemma_first_node_problem_skip(g.nodes@, i as int);
            }
            return r;
        }
        i = i + 1;
    }
    proof {
        lemma_first_node_problem_skip(g.nodes@, i as int);
    }
    let mut i: usize = 0;
    while i < g.edges.len()
        invariant
            i <= g.edges@.len(),
            first_node_problem(g.nodes@, 0) is None,
            forall|j: int| 0 <= j < i ==> edge_problem(g, #[trigger] g.edges@[j]) is None,
        decreases g.edges.len() - i,
    {
        let r = check_edge(g, &g.edges[i]);
        if r.is_err() {
            proof {
                lemma_first_edge_problem_skip(g, i as int);
            }
            return r;
        }
        i = i + 1;
    }
    proof {
        lemma_first_edge_problem_skip(g, i as int);
    }
    Ok(())
}

/// A graph that passes validation has every edge leading from and to a
/// declared node.
pub proof fn lemma_valid_graph_endpoints_resolve(g: &Graph)
    requires
        graph_problem(g) is None,
    ensures
        endpoints_resolve(g),
{
    assert forall|e: int| 0 <= e < g.edges@.len() implies (#[trigger] edge_source_key(g, e)) is Some
        && edge_target_key(g, e) is Some by {
        lemma_no_edge_problem(g, 0, e);
        let ids = node_ids(g);
        let s = ids.index_of(g.edges@[e].source@);
        let t = ids.index_of(g.edges@[e].target@);
        lemma_least_index(ids, g.edges@[e].source@, s);
        lemma_least_index(ids, g.edges@[e].target@, t);
    }
}

proof fn lemma_no_edge_problem(g: &Graph, i: int, e: int)
    requires
        0 <= i <= e < g.edges@.len(),
        first_edge_problem(g, i) is None,
        graph_problem(g) is None,
    ensures
        edge_problem(g, g.edges@[e]) is None,
    decreases e - i,
{
    if i < e {
        lemma_no_edge_problem(g, i + 1, e);
    }
}

} // verus!
