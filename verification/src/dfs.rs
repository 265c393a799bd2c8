//! Depth-first classification of the edges of a directed graph whose nodes
//! are `0..n` and whose edges are `0..num_edges`. An edge that points at a
//! node on the current DFS stack closes a cycle and is marked as a loop-back
//! edge; every other edge leads to a node that finishes earlier, so the edges
//! left unmarked form an acyclic graph.
use vstd::prelude::*;

verus! {

#[derive(PartialEq, Eq, Structural, Clone, Copy, Debug)]
pub enum Color {
    White,
    Gray,
    Black,
}

/// The graph a search runs on: `adj[u]` lists the edges leaving `u` in their
/// declared order, `tgt[e]` is the node edge `e` points at (`None` when it
/// points at no node), and `roots` are the nodes the search starts from, in
/// order.
pub struct DfsInput {
    pub n: nat,
    pub num_edges: nat,
    pub adj: Seq<Seq<usize>>,
    pub tgt: Seq<Option<usize>>,
    pub roots: Seq<usize>,
}

/// The state of the search: node colours, the stack of `(node, next edge
/// index)` pairs, the loop-back marks, the next root to try, and (for the
/// proofs) the position in which each node finished.
pub struct DfsState {
    pub color: Seq<Color>,
    pub stack: Seq<(usize, usize)>,
    pub back: Seq<bool>,
    pub next_root: int,
    pub order: Seq<int>,
    pub finished: int,
}

pub open spec fn wf_input(inp: DfsInput) -> bool {
    &&& inp.adj.len() == inp.n
    &&& inp.tgt.len() == inp.num_edges
    &&& forall|u: int| 0 <= u < inp.n ==> (#[trigger] inp.adj[u]).len() <= usize::MAX
    &&& forall|u: int, j: int|
        0 <= u < inp.n && 0 <= j < inp.adj[u].len() ==> #[trigger] inp.adj[u][j] < inp.num_edges
    &&& forall|e: int| 0 <= e < inp.num_edges && (#[trigger] inp.tgt[e]) is Some ==> inp.tgt[e]->0 < inp.n
    &&& forall|r: int| 0 <= r < inp.roots.len() ==> #[trigger] inp.roots[r] < inp.n
}

pub open spec fn dfs_init(inp: DfsInput) -> DfsState {
    DfsState {
        color: Seq::new(inp.n, |k: int| Color::White),
        stack: Seq::empty(),
        back: Seq::new(inp.num_edges, |e: int| false),
        next_root: 0,
        order: Seq::new(inp.n, |k: int| -1),
        finished: 0,
    }
}

/// One iteration of the search.
pub open spec fn dfs_step(inp: DfsInput, s: DfsState) -> DfsState {
    if s.stack.len() > 0 {
        let (u, i) = s.stack.last();
        let rest = s.stack.drop_last();
        if i < inp.adj[u as int].len() {
            let e = inp.adj[u as int][i as int];
            let resumed = rest.push((u, (i + 1) as usize));
            match inp.tgt[e as int] {
                None => DfsState { stack: resumed, ..s },
                Some(t) => match s.color[t as int] {
                    Color::White => DfsState {
                        color: s.color.update(t as int, Color::Gray),
                        stack: resumed.push((t, 0usize)),
                        ..s
                    },
                    Color::Gray => DfsState {
                        stack: resumed,
                        back: s.back.update(e as int, true),
                        ..s
                    },
                    Color::Black => DfsState { stack: resumed, ..s },
                },
            }
        } else {
            DfsState {
                color: s.color.update(u as int, Color::Black),
                stack: rest,
                order: s.order.update(u as int, s.finished),
                finished: s.finished + 1,
                ..s
            }
        }
    } else if s.next_root < inp.roots.len() {
        let r = inp.roots[s.next_root];
        if s.color[r as int] == Color::White {
            DfsState {
                color: s.color.update(r as int, Color::Gray),
                stack: seq![(r, 0usize)],
                next_root: s.next_root + 1,
                ..s
            }
        } else {
            DfsState { next_root: s.next_root + 1, ..s }
        }
    } else {
        s
    }
}

pub open spec fn dfs_done(inp: DfsInput, s: DfsState) -> bool {
    s.stack.len() == 0 && s.next_root >= inp.roots.len()
}

pub open spec fn dfs_iter(inp: DfsInput, k: nat) -> DfsState
    decreases k,
{
    if k == 0 {
        dfs_init(inp)
    } else {
        dfs_step(inp, dfs_iter(inp, (k - 1) as nat))
    }
}

/// The state the search stops in.
pub open spec fn dfs_final(inp: DfsInput) -> DfsState {
    dfs_iter(inp, choose|k: nat| dfs_done(inp, dfs_iter(inp, k)))
}

/// The loop-back marks the search ends with, one per edge.
pub open spec fn dfs_back_edges(inp: DfsInput) -> Seq<bool> {
    dfs_final(inp).back
}

// ---------------------------------------------------------------- invariant

pub open spec fn on_stack(s: DfsState, k: int) -> bool {
    exists|p: int| 0 <= p < s.stack.len() && #[trigger] s.stack[p].0 == k
}

/// The examined edges of an entry whose targets have not finished yet: only
/// the last examined one, whose target sits right above it on the stack.
pub open spec fn entry_ok(inp: DfsInput, s: DfsState, p: int) -> bool {
    let (u, i) = s.stack[p];
    forall|j: int|
        0 <= j < i && !s.back[inp.adj[u as int][j] as int] && (#[trigger] inp.tgt[
            inp.adj[u as int][j] as int
        ]) is Some ==> {
            let t = inp.tgt[inp.adj[u as int][j] as int]->0;
            s.color[t as int] == Color::Black || (p + 1 < s.stack.len() && s.stack[p + 1].0 == t
                && j == i - 1)
        }
}

/// A finished node: every edge it keeps points at a node that finished
/// before it.
pub open spec fn black_ok(inp: DfsInput, s: DfsState, u: int) -> bool {
    forall|j: int|
        0 <= j < inp.adj[u].len() && !s.back[inp.adj[u][j] as int] && (#[trigger] inp.tgt[
            inp.adj[u][j] as int
        ]) is Some ==> {
            let t = inp.tgt[inp.adj[u][j] as int]->0;
            s.color[t as int] == Color::Black && s.order[t as int] < s.order[u]
        }
}

pub open spec fn dfs_inv(inp: DfsInput, s: DfsState) -> bool {
    &&& s.color.len() == inp.n
    &&& s.order.len() == inp.n
    &&& s.back.len() == inp.num_edges
    &&& 0 <= s.next_root <= inp.roots.len()
    &&& s.finished >= 0
    &&& forall|p: int|
        0 <= p < s.stack.len() ==> {
            &&& (#[trigger] s.stack[p]).0 < inp.n
            &&& s.stack[p].1 <= inp.adj[s.stack[p].0 as int].len()
            &&& s.color[s.stack[p].0 as int] == Color::Gray
        }
    &&& forall|p: int, q: int|
        0 <= p < q < s.stack.len() ==> (#[trigger] s.stack[p]).0 != (#[trigger] s.stack[q]).0
    &&& forall|k: int| 0 <= k < inp.n && s.color[k] == Color::Gray ==> on_stack(s, k)
    &&& forall|k: int|
        0 <= k < inp.n && s.color[k] == Color::Black ==> 0 <= #[trigger] s.order[k] < s.finished
    &&& forall|k: int| 0 <= k < inp.n && s.color[k] == Color::Black ==> #[trigger] black_ok(inp, s, k)
    &&& forall|p: int| 0 <= p < s.stack.len() ==> #[trigger] entry_ok(inp, s, p)
    &&& forall|r: int| 0 <= r < s.next_root ==> s.color[#[trigger] inp.roots[r] as int] != Color::White
}

proof fn lemma_init_inv(inp: DfsInput)
    requires
        wf_input(inp),
    ensures
        dfs_inv(inp, dfs_init(inp)),
{
}

/// The entry on top of the stack has no examined edge whose kept target is
/// unfinished.
proof fn lemma_top_entry_black(inp: DfsInput, s: DfsState, j: int)
    requires
        dfs_inv(inp, s),
        s.stack.len() > 0,
        0 <= j < s.stack.last().1,
        !s.back[inp.adj[s.stack.last().0 as int][j] as int],
        inp.tgt[inp.adj[s.stack.last().0 as int][j] as int] is Some,
    ensures
        s.color[inp.tgt[inp.adj[s.stack.last().0 as int][j] as int]->0 as int] == Color::Black,
{
    assert(entry_ok(inp, s, s.stack.len() - 1));
}

proof fn lemma_step_inv(inp: DfsInput, s: DfsState)
    requires
        wf_input(inp),
        dfs_inv(inp, s),
    ensures
        dfs_inv(inp, dfs_step(inp, s)),
{
    let s2 = dfs_step(inp, s);
    if s.stack.len() > 0 {
        let top = s.stack.len() - 1;
        let (u, i) = s.stack.last();
        let rest = s.stack.drop_last();
        assert(s.stack[top] == (u, i));
        if i < inp.adj[u as int].len() {
            let e = inp.adj[u as int][i as int];
            let resumed = rest.push((u, (i + 1) as usize));
            assert(e < inp.num_edges);
            match inp.tgt[e as int] {
                None => {
                    assert(s2.stack == resumed);
                    assert forall|p: int| 0 <= p < s2.stack.len() implies #[trigger] entry_ok(inp, s2, p) by {
                        if p < top {
                            assert(entry_ok(inp, s, p));
                            assert(s2.stack[p] == s.stack[p]);
                        } else {
                            assert forall|j: int|
                                0 <= j < i + 1 && !s2.back[inp.adj[u as int][j] as int]
                                    && (#[trigger] inp.tgt[inp.adj[u as int][j] as int]) is Some implies
                                s2.color[inp.tgt[inp.adj[u as int][j] as int]->0 as int] == Color::Black by {
                                if j < i {
                                    lemma_top_entry_black(inp, s, j);
                                }
                            }
                        }
                    }
                    assert forall|k: int| 0 <= k < inp.n && s2.color[k] == Color::Gray implies on_stack(s2, k) by {
                        assert(on_stack(s, k));
                        let p = choose|p: int| 0 <= p < s.stack.len() && #[trigger] s.stack[p].0 == k;
                        assert(s2.stack[p].0 == k);
                    }
                    assert forall|k: int| 0 <= k < inp.n && s2.color[k] == Color::Black implies
                        #[trigger] black_ok(inp, s2, k) by {
                        assert(black_ok(inp, s, k));
                    }
                },
                Some(t) => {
                    assert(t < inp.n);
                    match s.color[t as int] {
                        Color::White => {
                            assert(!on_stack(s, t as int));
                            assert(s2.stack == resumed.push((t, 0usize)));
                            assert forall|p: int| 0 <= p < s2.stack.len() implies #[trigger] entry_ok(inp, s2, p) by {
                                if p < top {
                                    assert(entry_ok(inp, s, p));
                                    assert(s2.stack[p] == s.stack[p]);
                                    assert(s2.stack[p + 1].0 == s.stack[p + 1].0);
                                    let (w, iw) = s.stack[p];
                                    assert forall|j: int|
                                        0 <= j < iw && !s2.back[inp.adj[w as int][j] as int]
                                            && (#[trigger] inp.tgt[inp.adj[w as int][j] as int]) is Some implies {
                                            let tt = inp.tgt[inp.adj[w as int][j] as int]->0;
                                            s2.color[tt as int] == Color::Black || (p + 1 < s2.stack.len()
                                                && s2.stack[p + 1].0 == tt && j == iw - 1)
                                        } by {
                                        let tt = inp.tgt[inp.adj[w as int][j] as int]->0;
                                        if s.color[tt as int] == Color::Black {
                                            assert(tt != t);
                                        }
                                    }
                                } else if p == top {
                                    assert(s2.stack[p] == (u, (i + 1) as usize));
                                    assert forall|j: int|
                                        0 <= j < i + 1 && !s2.back[inp.adj[u as int][j] as int]
                                            && (#[trigger] inp.tgt[inp.adj[u as int][j] as int]) is Some implies {
                                            let tt = inp.tgt[inp.adj[u as int][j] as int]->0;
                                            s2.color[tt as int] == Color::Black || (p + 1 < s2.stack.len()
                                                && s2.stack[p + 1].0 == tt && j == i)
                                        } by {
                                        if j < i {
                                            lemma_top_entry_black(inp, s, j);
                                            let tt = inp.tgt[inp.adj[u as int][j] as int]->0;
                                            assert(tt != t);
                                        }
                                    }
                                } else {
                                    assert(s2.stack[p] == (t, 0usize));
                                }
                            }
                            assert forall|k: int| 0 <= k < inp.n && s2.color[k] == Color::Gray implies on_stack(s2, k) by {
                                if k == t {
                                    assert(s2.stack[top + 1].0 == t);
                                } else {
                                    assert(on_stack(s, k));
                                    let p = choose|p: int| 0 <= p < s.stack.len() && #[trigger] s.stack[p].0 == k;
                                    assert(s2.stack[p].0 == k);
                                }
                            }
                            assert forall|p: int, q: int| 0 <= p < q < s2.stack.len() implies
                                (#[trigger] s2.stack[p]).0 != (#[trigger] s2.stack[q]).0 by {
                                if q == top + 1 {
                                    if s2.stack[p].0 == t {
                                        assert(s.stack[p].0 == t);
                                        assert(on_stack(s, t as int));
                                    }
                                } else {
                                    assert(s2.stack[p].0 == s.stack[p].0);
                                    assert(s2.stack[q].0 == s.stack[q].0);
                                }
                            }
                            assert forall|k: int| 0 <= k < inp.n && s2.color[k] == Color::Black implies
                                #[trigger] black_ok(inp, s2, k) by {
                                assert(black_ok(inp, s, k));
                                assert forall|j: int|
                                    0 <= j < inp.adj[k].len() && !s2.back[inp.adj[k][j] as int]
                                        && (#[trigger] inp.tgt[inp.adj[k][j] as int]) is Some implies {
                                        let tt = inp.tgt[inp.adj[k][j] as int]->0;
                                        s2.color[tt as int] == Color::Black && s2.order[tt as int] < s2.order[k]
                                    } by {
                                    let tt = inp.tgt[inp.adj[k][j] as int]->0;
                                    assert(tt != t);
                                }
                            }
                        },
                        Color::Gray => {
                            assert(s2.stack == resumed);
                            assert forall|p: int| 0 <= p < s2.stack.len() implies #[trigger] entry_ok(inp, s2, p) by {
                                if p < top {
                                    assert(entry_ok(inp, s, p));
                                    assert(s2.stack[p] == s.stack[p]);
                                } else {
                                    assert forall|j: int|
                                        0 <= j < i + 1 && !s2.back[inp.adj[u as int][j] as int]
                                            && (#[trigger] inp.tgt[inp.adj[u as int][j] as int]) is Some implies
                                        s2.color[inp.tgt[inp.adj[u as int][j] as int]->0 as int] == Color::Black by {
                                        if j < i {
                                            lemma_top_entry_black(inp, s, j);
                                        }
                                    }
                                }
                            }
                            assert forall|k: int| 0 <= k < inp.n && s2.color[k] == Color::Gray implies on_stack(s2, k) by {
                                assert(on_stack(s, k));
                                let p = choose|p: int| 0 <= p < s.stack.len() && #[trigger] s.stack[p].0 == k;
                                assert(s2.stack[p].0 == k);
                            }
                            assert forall|k: int| 0 <= k < inp.n && s2.color[k] == Color::Black implies
                                #[trigger] black_ok(inp, s2, k) by {
                                assert(black_ok(inp, s, k));
                            }
                        },
                        Color::Black => {
                            assert(s2.stack == resumed);
                            assert forall|p: int| 0 <= p < s2.stack.len() implies #[trigger] entry_ok(inp, s2, p) by {
                                if p < top {
                                    assert(entry_ok(inp, s, p));
                                    assert(s2.stack[p] == s.stack[p]);
                                } else {
                                    assert forall|j: int|
                                        0 <= j < i + 1 && !s2.back[inp.adj[u as int][j] as int]
                                            && (#[trigger] inp.tgt[inp.adj[u as int][j] as int]) is Some implies
                                        s2.color[inp.tgt[inp.adj[u as int][j] as int]->0 as int] == Color::Black by {
                                        if j < i {
                                            lemma_top_entry_black(inp, s, j);
                                        }
                                    }
                                }
                            }
                            assert forall|k: int| 0 <= k < inp.n && s2.color[k] == Color::Gray implies on_stack(s2, k) by {
                                assert(on_stack(s, k));
                                let p = choose|p: int| 0 <= p < s.stack.len() && #[trigger] s.stack[p].0 == k;
                                assert(s2.stack[p].0 == k);
                            }
                            assert forall|k: int| 0 <= k < inp.n && s2.color[k] == Color::Black implies
                                #[trigger] black_ok(inp, s2, k) by {
                                assert(black_ok(inp, s, k));
                            }
                        },
                    }
                },
            }
        } else {
            // u finishes
            assert(s2.stack == rest);
            assert forall|p: int| 0 <= p < s2.stack.len() implies #[trigger] entry_ok(inp, s2, p) by {
                assert(entry_ok(inp, s, p));
                assert(s2.stack[p] == s.stack[p]);
                let (w, iw) = s.stack[p];
                assert(w != u);
                assert forall|j: int|
                    0 <= j < iw && !s2.back[inp.adj[w as int][j] as int]
                        && (#[trigger] inp.tgt[inp.adj[w as int][j] as int]) is Some implies {
                        let tt = inp.tgt[inp.adj[w as int][j] as int]->0;
                        s2.color[tt as int] == Color::Black || (p + 1 < s2.stack.len()
                            && s2.stack[p + 1].0 == tt && j == iw - 1)
                    } by {
                    let tt = inp.tgt[inp.adj[w as int][j] as int]->0;
                    if p + 1 < s.stack.len() && s.stack[p + 1].0 == tt && j == iw - 1 {
                        if p + 1 == top {
                            assert(tt == u);
                        } else {
                            assert(s2.stack[p + 1] == s.stack[p + 1]);
                        }
                    }
                }
            }
            assert forall|k: int| 0 <= k < inp.n && s2.color[k] == Color::Gray implies on_stack(s2, k) by {
                assert(k != u);
                assert(on_stack(s, k));
                let p = choose|p: int| 0 <= p < s.stack.len() && #[trigger] s.stack[p].0 == k;
                assert(p != top);
                assert(s2.stack[p].0 == k);
            }
            assert forall|k: int| 0 <= k < inp.n && s2.color[k] == Color::Black implies
                #[trigger] black_ok(inp, s2, k) by {
                if k == u {
                    assert forall|j: int|
                        0 <= j < inp.adj[k].len() && !s2.back[inp.adj[k][j] as int]
                            && (#[trigger] inp.tgt[inp.adj[k][j] as int]) is Some implies {
                            let tt = inp.tgt[inp.adj[k][j] as int]->0;
                            s2.color[tt as int] == Color::Black && s2.order[tt as int] < s2.order[k]
                        } by {
                        lemma_top_entry_black(inp, s, j);
                        let tt = inp.tgt[inp.adj[k][j] as int]->0;
                        assert(tt != u);
                    }
                } else {
                    assert(black_ok(inp, s, k));
                    assert forall|j: int|
                        0 <= j < inp.adj[k].len() && !s2.back[inp.adj[k][j] as int]
                            && (#[trigger] inp.tgt[inp.adj[k][j] as int]) is Some implies {
                            let tt = inp.tgt[inp.adj[k][j] as int]->0;
                            s2.color[tt as int] == Color::Black && s2.order[tt as int] < s2.order[k]
                        } by {
                        let tt = inp.tgt[inp.adj[k][j] as int]->0;
                        assert(tt != u);
                    }
                }
            }
        }
    } else if s.next_root < inp.roots.len() {
        let r = inp.roots[s.next_root];
        if s.color[r as int] == Color::White {
            assert forall|k: int| 0 <= k < inp.n && s2.color[k] == Color::Gray implies on_stack(s2, k) by {
                if k != r {
                    assert(on_stack(s, k));
                }
                assert(s2.stack[0].0 == r);
            }
            assert forall|k: int| 0 <= k < inp.n && s2.color[k] == Color::Black implies
                #[trigger] black_ok(inp, s2, k) by {
                assert(black_ok(inp, s, k));
                assert forall|j: int|
                    0 <= j < inp.adj[k].len() && !s2.back[inp.adj[k][j] as int]
                        && (#[trigger] inp.tgt[inp.adj[k][j] as int]) is Some implies {
                        let tt = inp.tgt[inp.adj[k][j] as int]->0;
                        s2.color[tt as int] == Color::Black && s2.order[tt as int] < s2.order[k]
                    } by {
                    let tt = inp.tgt[inp.adj[k][j] as int]->0;
                    assert(tt != r);
                }
            }
            assert forall|p: int| 0 <= p < s2.stack.len() implies #[trigger] entry_ok(inp, s2, p) by {
                assert(s2.stack[p] == (r, 0usize));
            }
        } else {
            assert forall|k: int| 0 <= k < inp.n && s2.color[k] == Color::Gray implies on_stack(s2, k) by {
                assert(on_stack(s, k));
            }
            assert forall|k: int| 0 <= k < inp.n && s2.color[k] == Color::Black implies
                #[trigger] black_ok(inp, s2, k) by {
                assert(black_ok(inp, s, k));
            }
        }
    }
}

proof fn lemma_iter_inv(inp: DfsInput, k: nat)
    requires
        wf_input(inp),
    ensures
        dfs_inv(inp, dfs_iter(inp, k)),
    decreases k,
{
    if k == 0 {
        lemma_init_inv(inp);
    } else {
        lemma_iter_inv(inp, (k - 1) as nat);
        lemma_step_inv(inp, dfs_iter(inp, (k - 1) as nat));
    }
}

/// Once the search is done it stays where it is.
proof fn lemma_done_stays(inp: DfsInput, k1: nat, k2: nat)
    requires
        dfs_done(inp, dfs_iter(inp, k1)),
        k1 <= k2,
    ensures
        dfs_iter(inp, k2) == dfs_iter(inp, k1),
    decreases k2 - k1,
{
    if k1 < k2 {
        lemma_done_stays(inp, k1, (k2 - 1) as nat);
    }
}

/// Any step count at which the search is done gives the final state.
proof fn lemma_final_state(inp: DfsInput, k: nat)
    requires
        dfs_done(inp, dfs_iter(inp, k)),
    ensures
        dfs_final(inp) == dfs_iter(inp, k),
{
    let c = choose|c: nat| dfs_done(inp, dfs_iter(inp, c));
    if c <= k {
        lemma_done_stays(inp, c, k);
    } else {
        lemma_done_stays(inp, k, c);
    }
}

// ---------------------------------------------------------------- termination

pub open spec fn white_count(c: Seq<Color>) -> nat
    decreases c.len(),
{
    if c.len() == 0 {
        0
    } else {
        white_count(c.drop_last()) + if c.last() == Color::White { 1nat } else { 0nat }
    }
}

pub open spec fn stack_weight(inp: DfsInput, st: Seq<(usize, usize)>) -> int
    decreases st.len(),
{
    if st.len() == 0 {
        0
    } else {
        stack_weight(inp, st.drop_last()) + (inp.adj[st.last().0 as int].len() - st.last().1 + 1)
    }
}

proof fn lemma_white_count_update(c: Seq<Color>, t: int, x: Color)
    requires
        0 <= t < c.len(),
        x != Color::White,
    ensures
        c[t] == Color::White ==> white_count(c.update(t, x)) + 1 == white_count(c),
        c[t] != Color::White ==> white_count(c.update(t, x)) == white_count(c),
    decreases c.len(),
{
    if t == c.len() - 1 {
        assert(c.update(t, x).drop_last() =~= c.drop_last());
    } else {
        lemma_white_count_update(c.drop_last(), t, x);
        assert(c.update(t, x).drop_last() =~= c.drop_last().update(t, x));
    }
}

pub open spec fn dfs_measure_less(inp: DfsInput, a: DfsState, b: DfsState) -> bool {
    ||| white_count(a.color) < white_count(b.color)
    ||| white_count(a.color) == white_count(b.color) && stack_weight(inp, a.stack) < stack_weight(
        inp,
        b.stack,
    )
    ||| white_count(a.color) == white_count(b.color) && stack_weight(inp, a.stack) == stack_weight(
        inp,
        b.stack,
    ) && inp.roots.len() - a.next_root < inp.roots.len() - b.next_root
}

proof fn lemma_step_progress(inp: DfsInput, s: DfsState)
    requires
        wf_input(inp),
        dfs_inv(inp, s),
        !dfs_done(inp, s),
    ensures
        dfs_measure_less(inp, dfs_step(inp, s), s),
{
    let s2 = dfs_step(inp, s);
    if s.stack.len() > 0 {
        let (u, i) = s.stack.last();
        let rest = s.stack.drop_last();
        assert(s.stack =~= rest.push((u, i)));
        assert(rest.push((u, i)).drop_last() =~= rest);
        if i < inp.adj[u as int].len() {
            let e = inp.adj[u as int][i as int];
            let resumed = rest.push((u, (i + 1) as usize));
            assert(resumed.drop_last() =~= rest);
            assert(resumed.last() == (u, (i + 1) as usize));
            assert(stack_weight(inp, resumed) == stack_weight(inp, rest) + (inp.adj[u as int].len() - (i + 1) + 1));
            assert(stack_weight(inp, s.stack) == stack_weight(inp, rest) + (inp.adj[u as int].len() - i + 1));
            match inp.tgt[e as int] {
                None => {},
                Some(t) => {
                    if s.color[t as int] == Color::White {
                        lemma_white_count_update(s.color, t as int, Color::Gray);
                    }
                },
            }
        } else {
            lemma_white_count_update(s.color, u as int, Color::Black);
        }
    } else {
        let r = inp.roots[s.next_root];
        if s.color[r as int] == Color::White {
            lemma_white_count_update(s.color, r as int, Color::Gray);
        }
    }
}

proof fn lemma_stack_weight_nonneg(inp: DfsInput, st: Seq<(usize, usize)>)
    requires
        forall|p: int|
            0 <= p < st.len() ==> (#[trigger] st[p]).0 < inp.adj.len() && st[p].1 <= inp.adj[st[p].0 as int].len(),
    ensures
        stack_weight(inp, st) >= 0,
    decreases st.len(),
{
    if st.len() > 0 {
        lemma_stack_weight_nonneg(inp, st.drop_last());
    }
}

// ---------------------------------------------------------------- final state

/// The search ends: some step count reaches a done state, and the invariant
/// holds there.
pub proof fn lemma_final(inp: DfsInput)
    requires
        wf_input(inp),
    ensures
        dfs_done(inp, dfs_final(inp)),
        dfs_inv(inp, dfs_final(inp)),
{
    let k = lemma_terminates(inp);
    lemma_final_state(inp, k);
    lemma_iter_inv(inp, k);
}

proof fn lemma_terminates(inp: DfsInput) -> (k: nat)
    requires
        wf_input(inp),
    ensures
        dfs_done(inp, dfs_iter(inp, k)),
{
    lemma_terminates_from(inp, 0)
}

proof fn lemma_terminates_from(inp: DfsInput, k: nat) -> (r: nat)
    requires
        wf_input(inp),
    ensures
        dfs_done(inp, dfs_iter(inp, r)),
    decreases white_count(dfs_iter(inp, k).color), stack_weight(inp, dfs_iter(inp, k).stack),
        inp.roots.len() - dfs_iter(inp, k).next_root,
{
    let s = dfs_iter(inp, k);
    lemma_iter_inv(inp, k);
    if dfs_done(inp, s) {
        k
    } else {
        lemma_step_progress(inp, s);
        lemma_step_inv(inp, s);
        lemma_stack_weight_nonneg(inp, s.stack);
        lemma_stack_weight_nonneg(inp, dfs_step(inp, s).stack);
        assert(dfs_iter(inp, k + 1) == dfs_step(inp, s));
        lemma_terminates_from(inp, k + 1)
    }
}

/// Every root has finished when the search is over.
pub proof fn lemma_roots_finished(inp: DfsInput, r: int)
    requires
        wf_input(inp),
        0 <= r < inp.roots.len(),
    ensures
        dfs_final(inp).color[inp.roots[r] as int] == Color::Black,
{
    lemma_final(inp);
    let s = dfs_final(inp);
    let k = inp.roots[r] as int;
    assert(s.color[k] != Color::White);
    if s.color[k] == Color::Gray {
        assert(on_stack(s, k));
    }
}

/// An edge the search keeps leads from a finished node to a node that
/// finished before it.
pub proof fn lemma_kept_edge_descends(inp: DfsInput, u: int, j: int)
    requires
        wf_input(inp),
        0 <= u < inp.n,
        dfs_final(inp).color[u] == Color::Black,
        0 <= j < inp.adj[u].len(),
        !dfs_back_edges(inp)[inp.adj[u][j] as int],
        inp.tgt[inp.adj[u][j] as int] is Some,
    ensures
        dfs_final(inp).color[inp.tgt[inp.adj[u][j] as int]->0 as int] == Color::Black,
        dfs_final(inp).order[inp.tgt[inp.adj[u][j] as int]->0 as int] < dfs_final(inp).order[u],
{
    lemma_final(inp);
    assert(black_ok(inp, dfs_final(inp), u));
}

// ---------------------------------------------------------------- cycles

/// The edge a walk step takes: edge `st.1` of those leaving node `st.0`.
pub open spec fn step_edge(inp: DfsInput, st: (usize, usize)) -> usize {
    inp.adj[st.0 as int][st.1 as int]
}

/// A closed walk: each step takes an edge leaving its node that points at the
/// next step's node, and the last one points back at the first node.
pub open spec fn closed_walk(inp: DfsInput, w: Seq<(usize, usize)>) -> bool {
    &&& w.len() >= 1
    &&& forall|k: int| 0 <= k < w.len() ==> (#[trigger] w[k]).0 < inp.n && w[k].1 < inp.adj[w[k].0 as int].len()
    &&& forall|k: int| 0 <= k < w.len() - 1 ==> inp.tgt[step_edge(inp, #[trigger] w[k]) as int] == Some(w[k + 1].0)
    &&& inp.tgt[step_edge(inp, w.last()) as int] == Some(w[0].0)
}

/// Edge `e` lies on a closed walk (as its last step).
pub open spec fn closes_cycle(inp: DfsInput, e: int) -> bool {
    exists|w: Seq<(usize, usize)>| closed_walk(inp, w) && step_edge(inp, w.last()) == e
}

/// Stack entry `q` was left through the last edge it examined, which points
/// at the entry above it.
pub open spec fn linked(inp: DfsInput, st: Seq<(usize, usize)>, q: int) -> bool {
    st[q].1 >= 1 && inp.tgt[inp.adj[st[q].0 as int][st[q].1 - 1] as int] == Some(st[q + 1].0)
}

pub open spec fn cycle_inv(inp: DfsInput, s: DfsState) -> bool {
    &&& forall|q: int| 0 <= q < s.stack.len() - 1 ==> #[trigger] linked(inp, s.stack, q)
    &&& forall|e: int| 0 <= e < inp.num_edges && #[trigger] s.back[e] ==> closes_cycle(inp, e)
}

/// The stack from entry `p` up to the top, followed by the edge `(u, i)` the
/// top entry examines, as a walk.
pub open spec fn stack_walk(st: Seq<(usize, usize)>, p: int, u: usize, i: usize) -> Seq<(usize, usize)> {
    Seq::new(
        (st.len() - p) as nat,
        |k: int| if k < st.len() - 1 - p { (st[p + k].0, (st[p + k].1 - 1) as usize) } else { (u, i) },
    )
}

proof fn lemma_new_back_edge_cycle(inp: DfsInput, s: DfsState)
    requires
        wf_input(inp),
        dfs_inv(inp, s),
        cycle_inv(inp, s),
        s.stack.len() > 0,
        s.stack.last().1 < inp.adj[s.stack.last().0 as int].len(),
        inp.tgt[inp.adj[s.stack.last().0 as int][s.stack.last().1 as int] as int] is Some,
        s.color[inp.tgt[inp.adj[s.stack.last().0 as int][s.stack.last().1 as int] as int]->0 as int] == Color::Gray,
    ensures
        closes_cycle(inp, inp.adj[s.stack.last().0 as int][s.stack.last().1 as int] as int),
{
    let top = s.stack.len() - 1;
    let (u, i) = s.stack.last();
    assert(s.stack[top] == (u, i));
    let e = inp.adj[u as int][i as int];
    let t = inp.tgt[e as int]->0;
    assert(e < inp.num_edges);
    assert(t < inp.n);
    assert(on_stack(s, t as int));
    let p = choose|p: int| 0 <= p < s.stack.len() && #[trigger] s.stack[p].0 == t;
    let w = stack_walk(s.stack, p, u, i);
    assert(w.len() == top - p + 1);
    assert(w.last() == (u, i));
    assert forall|k: int| 0 <= k < w.len() implies (#[trigger] w[k]).0 < inp.n && w[k].1 < inp.adj[w[k].0 as int].len() by {
        if k < top - p {
            assert(linked(inp, s.stack, p + k));
            assert(s.stack[p + k].1 <= inp.adj[s.stack[p + k].0 as int].len());
        }
    }
    assert forall|k: int| 0 <= k < w.len() - 1 implies inp.tgt[step_edge(inp, #[trigger] w[k]) as int] == Some(w[k + 1].0) by {
        assert(linked(inp, s.stack, p + k));
        if k + 1 < top - p {
            assert(w[k + 1].0 == s.stack[p + k + 1].0);
        } else {
            assert(w[k + 1] == (u, i));
            assert(p + k + 1 == top);
        }
    }
    if p < top {
        assert(w[0].0 == s.stack[p].0);
    } else {
        assert(w[0] == (u, i));
    }
    assert(closed_walk(inp, w));
    assert(step_edge(inp, w.last()) == e);
}

proof fn lemma_step_cycle_inv(inp: DfsInput, s: DfsState)
    requires
        wf_input(inp),
        dfs_inv(inp, s),
        cycle_inv(inp, s),
    ensures
        cycle_inv(inp, dfs_step(inp, s)),
{
    let s2 = dfs_step(inp, s);
    if s.stack.len() > 0 {
        let top = s.stack.len() - 1;
        let (u, i) = s.stack.last();
        assert(s.stack[top] == (u, i));
        if i < inp.adj[u as int].len() {
            let e = inp.adj[u as int][i as int];
            assert(e < inp.num_edges);
            let pushes = match inp.tgt[e as int] {
                Some(t) => s.color[t as int] == Color::White,
                None => false,
            };
            assert forall|q: int| 0 <= q < s2.stack.len() - 1 implies #[trigger] linked(inp, s2.stack, q) by {
                if q < top {
                    assert(linked(inp, s.stack, q));
                    assert(s2.stack[q] == s.stack[q]);
                    if q + 1 < top {
                        assert(s2.stack[q + 1] == s.stack[q + 1]);
                    } else {
                        assert(s2.stack[q + 1].0 == u);
                    }
                } else {
                    assert(pushes);
                    assert(s2.stack[q] == (u, (i + 1) as usize));
                }
            }
            match inp.tgt[e as int] {
                Some(t) => {
                    if s.color[t as int] == Color::Gray {
                        lemma_new_back_edge_cycle(inp, s);
                        assert forall|e2: int| 0 <= e2 < inp.num_edges && #[trigger] s2.back[e2] implies closes_cycle(inp, e2) by {
                            if e2 != e {
                                assert(s.back[e2]);
                            }
                        }
                    } else {
                        assert forall|e2: int| 0 <= e2 < inp.num_edges && #[trigger] s2.back[e2] implies closes_cycle(inp, e2) by {
                            assert(s.back[e2]);
                        }
                    }
                },
                None => {
                    assert forall|e2: int| 0 <= e2 < inp.num_edges && #[trigger] s2.back[e2] implies closes_cycle(inp, e2) by {
                        assert(s.back[e2]);
                    }
                },
            }
        } else {
            assert forall|q: int| 0 <= q < s2.stack.len() - 1 implies #[trigger] linked(inp, s2.stack, q) by {
                assert(linked(inp, s.stack, q));
                assert(s2.stack[q] == s.stack[q]);
                assert(s2.stack[q + 1] == s.stack[q + 1]);
            }
            assert forall|e2: int| 0 <= e2 < inp.num_edges && #[trigger] s2.back[e2] implies closes_cycle(inp, e2) by {
                assert(s.back[e2]);
            }
        }
    } else {
        assert forall|e2: int| 0 <= e2 < inp.num_edges && #[trigger] s2.back[e2] implies closes_cycle(inp, e2) by {
            assert(s.back[e2]);
        }
    }
}

proof fn lemma_iter_cycle_inv(inp: DfsInput, k: nat)
    requires
        wf_input(inp),
    ensures
        cycle_inv(inp, dfs_iter(inp, k)),
    decreases k,
{
    if k > 0 {
        lemma_iter_cycle_inv(inp, (k - 1) as nat);
        lemma_iter_inv(inp, (k - 1) as nat);
        lemma_step_cycle_inv(inp, dfs_iter(inp, (k - 1) as nat));
    }
}

/// Every edge the search marks as a loop-back edge closes a cycle.
pub proof fn lemma_back_edge_closes_cycle(inp: DfsInput, e: int)
    requires
        wf_input(inp),
        0 <= e < inp.num_edges,
        dfs_back_edges(inp)[e],
    ensures
        closes_cycle(inp, e),
{
    let k = lemma_terminates(inp);
    lemma_final_state(inp, k);
    lemma_iter_cycle_inv(inp, k);
}

// ---------------------------------------------------------------- execution

pub open spec fn input_view(n: usize, adj: &Vec<Vec<usize>>, tgt: &Vec<Option<usize>>, roots: &Vec<usize>) -> DfsInput {
    DfsInput {
        n: n as nat,
        num_edges: tgt@.len(),
        adj: adj@.map_values(|v: Vec<usize>| v@),
        tgt: tgt@,
        roots: roots@,
    }
}

/// Runs the search: the loop-back mark of each edge.
pub fn dfs_classify(n: usize, adj: &Vec<Vec<usize>>, tgt: &Vec<Option<usize>>, roots: &Vec<usize>) -> (back: Vec<bool>)
    requires
        wf_input(input_view(n, adj, tgt, roots)),
    ensures
        back@ == dfs_back_edges(input_view(n, adj, tgt, roots)),
{
    let ghost inp = input_view(n, adj, tgt, roots);
    let mut color: Vec<Color> = Vec::new();
    let mut c: usize = 0;
    while c < n
        invariant
            c <= n,
            color@ == Seq::new(c as nat, |k: int| Color::White),
        decreases n - c,
    {
        color.push(Color::White);
        c = c + 1;
        assert(color@ =~= Seq::new(c as nat, |k: int| Color::White));
    }
    let mut back: Vec<bool> = Vec::new();
    let mut b: usize = 0;
    while b < tgt.len()
        invariant
            b <= tgt.len(),
            back@ == Seq::new(b as nat, |e: int| false),
        decreases tgt.len() - b,
    {
        back.push(false);
        b = b + 1;
        assert(back@ =~= Seq::new(b as nat, |e: int| false));
    }
    let mut stack: Vec<(usize, usize)> = Vec::new();
    let mut next_root: usize = 0;
    let ghost mut order: Seq<int> = Seq::new(n as nat, |k: int| -1);
    let ghost mut finished: int = 0;
    let ghost mut steps: nat = 0;
    assert(DfsState { color: color@, stack: stack@, back: back@, next_root: next_root as int, order, finished } =~= dfs_iter(inp, 0));
    proof {
        lemma_init_inv(inp);
    }
    while stack.len() > 0 || next_root < roots.len()
        invariant
            inp == input_view(n, adj, tgt, roots),
            wf_input(inp),
            (DfsState { color: color@, stack: stack@, back: back@, next_root: next_root as int, order, finished }) == dfs_iter(inp, steps),
            dfs_inv(inp, dfs_iter(inp, steps)),
        decreases white_count(color@), stack_weight(inp, stack@), roots.len() - next_root,
    {
        let ghost s = dfs_iter(inp, steps);
        proof {
            lemma_step_progress(inp, s);
            lemma_step_inv(inp, s);
            lemma_stack_weight_nonneg(inp, s.stack);
            lemma_stack_weight_nonneg(inp, dfs_step(inp, s).stack);
        }
        if stack.len() > 0 {
            let top = stack.len() - 1;
            let (u, i) = stack[top];
            assert(s.stack.last() == (u, i));
            assert(inp.adj[u as int] == adj@[u as int]@);
            if i < adj[u].len() {
                let e = adj[u][i];
                stack.set(top, (u, i + 1));
                assert(stack@ =~= s.stack.drop_last().push((u, (i + 1) as usize)));
                match tgt[e] {
                    None => {},
                    Some(t) => {
                        match color[t] {
                            Color::White => {
                                color.set(t, Color::Gray);
                                stack.push((t, 0));
                            },
                            Color::Gray => {
                                back.set(e, true);
                            },
                            Color::Black => {},
                        }
                    },
                }
            } else {
                color.set(u, Color::Black);
                stack.pop();
                assert(stack@ =~= s.stack.drop_last());
                proof {
                    order = order.update(u as int, finished);
                    finished = finished + 1;
                }
            }
        } else {
            let r = roots[next_root];
            if color[r] == Color::White {
                color.set(r, Color::Gray);
                stack.push((r, 0));
                assert(stack@ =~= seq![(r, 0usize)]);
            }
            next_root = next_root + 1;
        }
        proof {
            steps = steps + 1;
        }
        assert(DfsState { color: color@, stack: stack@, back: back@, next_root: next_root as int, order, finished } =~= dfs_iter(inp, steps));
    }
    proof {
        lemma_final_state(inp, steps);
    }
    back
}

} // verus!
