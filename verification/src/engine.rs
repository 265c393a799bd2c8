//! The activation-driven executor of a workflow run, as a state machine.
//!
//! Edges are classified into forward edges (a DAG) and loop-back edges. A
//! node first runs once all its forward incoming edges have resolved and at
//! least one of them fired; if none fired the node is skipped and the skip
//! cascades. After its first activation, any firing edge (forward or back)
//! re-activates the node with that payload alone. Every activation consumes
//! one step of the workflow's loop budget; exceeding it fails the run.
//!
//! The machine decides; the caller performs what it asks for (starting node
//! activations, asking the judge model) and reports back what happened.
use vstd::prelude::*;
use crate::models::{DEFAULT_MAX_STEPS};
use crate::plan::{RunPlan, ids_distinct};
use crate::graph::{kept_walk, is_loop_edge, edge_source_key, edge_target_key, lemma_forward_graph_acyclic, lemma_same_key_same_id};
use crate::graph::positions;
use crate::condition::{ConditionError, ConditionFailure, ConditionResult, condition_result, judge_question, judged, verdict_of};
use crate::input::{sections_view, rendered_input, seed_sections, heading};
use crate::text::{uppercase, blank};

verus! {

/// One activation to start: the node, its activation number (1 for its
/// first run, more when it re-runs in a loop) and its input text.
#[derive(Debug)]
pub struct StartOrder {
    pub node: usize,
    pub activation: u32,
    pub input: String,
}

/// Why a run failed.
#[derive(Debug)]
pub enum RunError {
    Canceled,
    /// More than `max_steps` activations were asked for.
    BudgetExhausted { max_steps: u32 },
    /// A node activation failed; `detail` says why.
    NodeFailed { node: usize, detail: String },
    /// The condition on an edge could not be decided.
    ConditionFailed { edge: usize, error: ConditionError },
}

pub enum RunErrorView {
    Canceled,
    BudgetExhausted(u32),
    NodeFailed(usize, Seq<char>),
    ConditionFailed(usize, ConditionFailure),
}

impl RunError {
    pub open spec fn view(&self) -> RunErrorView {
        match self {
            RunError::Canceled => RunErrorView::Canceled,
            RunError::BudgetExhausted { max_steps } => RunErrorView::BudgetExhausted(*max_steps),
            RunError::NodeFailed { node, detail } => RunErrorView::NodeFailed(*node, detail@),
            RunError::ConditionFailed { edge, error } => RunErrorView::ConditionFailed(*edge, error.failure()),
        }
    }
}

pub open spec fn opt_err_view(e: Option<RunError>) -> Option<RunErrorView> {
    match e {
        Some(x) => Some(x.view()),
        None => None,
    }
}

pub open spec fn opt_text_view(o: Option<String>) -> Option<Seq<char>> {
    match o {
        Some(s) => Some(s@),
        None => None,
    }
}

pub open spec fn resolution_view(o: Option<Option<String>>) -> Option<Option<Seq<char>>> {
    match o {
        Some(x) => Some(opt_text_view(x)),
        None => None,
    }
}

/// A queued activation: the node and its input sections.
pub type Queued = (usize, Vec<(String, String)>);

pub open spec fn queued_view(a: Queued) -> (usize, Seq<(Seq<char>, Seq<char>)>) {
    (a.0, sections_view(a.1@))
}

pub open spec fn work_view(w: (usize, Option<String>)) -> (usize, Option<Seq<char>>) {
    (w.0, opt_text_view(w.1))
}

/// Where the machine stands.
#[derive(Debug)]
pub enum Phase {
    /// At the top of the loop: queued activations are to be started.
    Dispatch,
    /// Waiting for a running activation to finish.
    Wait,
    /// Resolving the outgoing edges of finished nodes: the worklist of
    /// `(node, output)` pairs (no output for a skipped node) and the index of
    /// the next edge of the first node.
    Resolve { worklist: Vec<(usize, Option<String>)>, cursor: usize },
    /// As `Resolve`, waiting for the judge model's verdict on `edge`.
    Judge { worklist: Vec<(usize, Option<String>)>, cursor: usize, edge: usize },
}

pub enum PhaseView {
    Dispatch,
    Wait,
    Resolve(Seq<(usize, Option<Seq<char>>)>, int),
    Judge(Seq<(usize, Option<Seq<char>>)>, int, usize),
}

/// What resolving one step produced.
#[derive(Debug)]
pub enum Step {
    /// Nothing left to resolve: back to dispatching.
    Idle,
    /// Moved on to the next finished or skipped node.
    Advance,
    /// `edge` out of `source` resolved; `skipped` is a node that thereby
    /// turned out to be skipped.
    Resolved { source: usize, edge: usize, taken: bool, skipped: Option<usize> },
    /// The judge model must decide `edge`: ask it `question`, then call
    /// `judged`.
    AskJudge { edge: usize, question: String },
}

pub enum StepView {
    Idle,
    Advance,
    Resolved(usize, usize, bool, Option<usize>),
    AskJudge(usize, Seq<char>),
}

impl Step {
    pub open spec fn view(&self) -> StepView {
        match self {
            Step::Idle => StepView::Idle,
            Step::Advance => StepView::Advance,
            Step::Resolved { source, edge, taken, skipped } => StepView::Resolved(*source, *edge, *taken, *skipped),
            Step::AskJudge { edge, question } => StepView::AskJudge(*edge, question@),
        }
    }
}

/// The fixed part of a run: its plan, how each node is named in headings,
/// and the loop budget.
pub struct Ctx {
    pub plan: RunPlan,
    pub is_file: Seq<bool>,
    pub file_names: Seq<Seq<char>>,
    pub labels: Seq<Seq<char>>,
    pub max_steps: u32,
}

/// The changing part of a run.
pub struct RunState {
    /// Per edge (at the position standing for its id): unresolved (`None`),
    /// resolved silent (`Some(None)`), or fired with a payload.
    pub edges: Seq<Option<Option<Seq<char>>>>,
    /// Per node: whether it has had (or been denied) its first activation.
    pub activated: Seq<bool>,
    pub counts: Seq<u32>,
    pub busy: Seq<bool>,
    pub queue: Seq<(usize, Seq<(Seq<char>, Seq<char>)>)>,
    pub steps_used: u32,
    pub error: Option<RunErrorView>,
    pub running: u32,
    pub phase: PhaseView,
}

pub open spec fn node_count(c: Ctx) -> nat {
    c.plan.keys@.len()
}

pub open spec fn edge_count(c: Ctx) -> nat {
    c.plan.src@.len()
}

/// The budget a run gets: the workflow's, or the default when it sets 0.
pub open spec fn budget(max_steps: u32) -> u32 {
    if max_steps == 0 {
        DEFAULT_MAX_STEPS
    } else {
        max_steps
    }
}

pub open spec fn ctx_wf(c: Ctx) -> bool {
    &&& c.plan.wf()
    &&& c.is_file.len() == node_count(c)
    &&& c.file_names.len() == node_count(c)
    &&& c.labels.len() == node_count(c)
}

/// The heading of a payload coming out of node `k`.
pub open spec fn heading_of(c: Ctx, k: usize, via_loop: bool) -> Seq<char> {
    heading(c.is_file[k as int], c.file_names[k as int], c.labels[k as int], via_loop)
}

// ---------------------------------------------------------------- seeding

/// Source nodes: declared nodes with no forward incoming edge.
pub open spec fn is_source(c: Ctx, k: int) -> bool {
    c.plan.keys@[k] as int == k && c.plan.incoming@[k]@.len() == 0
}

pub open spec fn seed_queue(c: Ctx, input: Seq<char>) -> Seq<(usize, Seq<(Seq<char>, Seq<char>)>)> {
    positions(node_count(c)).filter(|p: int| c.plan.incoming@[c.plan.keys@[p] as int]@.len() == 0).map_values(
        |p: int| (c.plan.keys@[p], seed_sections(input)),
    )
}

/// The state a run starts in: every source node (one activation per declared
/// position) queued with the workflow input.
pub open spec fn seed_state(c: Ctx, input: Seq<char>) -> RunState {
    RunState {
        edges: Seq::new(edge_count(c), |e: int| None),
        activated: Seq::new(node_count(c), |k: int| is_source(c, k)),
        counts: Seq::new(node_count(c), |k: int| 0u32),
        busy: Seq::new(node_count(c), |k: int| false),
        queue: seed_queue(c, input),
        steps_used: 0,
        error: None,
        running: 0,
        phase: PhaseView::Dispatch,
    }
}

// ---------------------------------------------------------------- dispatch

pub struct DispatchAcc {
    pub counts: Seq<u32>,
    pub busy: Seq<bool>,
    pub steps_used: u32,
    pub running: u32,
    pub deferred: Seq<(usize, Seq<(Seq<char>, Seq<char>)>)>,
    pub started: Seq<(usize, u32, Seq<char>)>,
    pub error: Option<RunErrorView>,
    pub stopped: bool,
}

/// Handles one queued activation: a busy node waits for the next round; a
/// free node starts if the budget allows, else the run fails and dispatching
/// stops.
pub open spec fn dispatch_one(limit: u32, acc: DispatchAcc, a: (usize, Seq<(Seq<char>, Seq<char>)>)) -> DispatchAcc {
    if acc.busy[a.0 as int] {
        DispatchAcc { deferred: acc.deferred.push(a), ..acc }
    } else if acc.steps_used >= limit {
        DispatchAcc { error: Some(RunErrorView::BudgetExhausted(limit)), stopped: true, ..acc }
    } else {
        let count = (acc.counts[a.0 as int] + 1) as u32;
        DispatchAcc {
            counts: acc.counts.update(a.0 as int, count),
            busy: acc.busy.update(a.0 as int, true),
            steps_used: (acc.steps_used + 1) as u32,
            running: (acc.running + 1) as u32,
            started: acc.started.push((a.0, count, rendered_input(a.1))),
            ..acc
        }
    }
}

pub open spec fn dispatch_from(
    limit: u32,
    q: Seq<(usize, Seq<(Seq<char>, Seq<char>)>)>,
    i: int,
    acc: DispatchAcc,
) -> DispatchAcc
    decreases q.len() - i,
{
    if i < 0 || i >= q.len() || acc.stopped {
        acc
    } else {
        dispatch_from(limit, q, i + 1, dispatch_one(limit, acc, q[i]))
    }
}

/// The top of the loop: a cancellation fails the run; unless the run has
/// failed, queued activations start in order (see `dispatch_one`). Only in
/// the dispatch phase; elsewhere nothing changes.
pub open spec fn dispatch_state(c: Ctx, s: RunState, canceled: bool) -> (RunState, Seq<(usize, u32, Seq<char>)>) {
    let error = if canceled && s.error is None { Some(RunErrorView::Canceled) } else { s.error };
    if !(s.phase is Dispatch) {
        (s, Seq::empty())
    } else if error is None {
        let acc = dispatch_from(
            budget(c.max_steps),
            s.queue,
            0,
            DispatchAcc {
                counts: s.counts,
                busy: s.busy,
                steps_used: s.steps_used,
                running: s.running,
                deferred: Seq::empty(),
                started: Seq::empty(),
                error: None,
                stopped: false,
            },
        );
        (
            RunState {
                counts: acc.counts,
                busy: acc.busy,
                steps_used: acc.steps_used,
                running: acc.running,
                queue: acc.deferred,
                error: acc.error,
                phase: PhaseView::Wait,
                ..s
            },
            acc.started,
        )
    } else {
        (RunState { error, phase: PhaseView::Wait, ..s }, Seq::empty())
    }
}

// ---------------------------------------------------------------- finishing nodes

/// A running activation of `node` finished with an output or a failure.
pub open spec fn finished_state(c: Ctx, s: RunState, node: usize, result: Result<Seq<char>, Seq<char>>) -> RunState {
    if !(s.phase is Wait) || node >= node_count(c) || !s.busy[node as int] || s.running == 0 {
        s
    } else {
        let s2 = RunState { running: (s.running - 1) as u32, busy: s.busy.update(node as int, false), ..s };
        match result {
            Ok(out) => RunState { phase: PhaseView::Resolve(seq![(node, Some(out))], 0), ..s2 },
            Err(why) => RunState {
                error: if s.error is None { Some(RunErrorView::NodeFailed(node, why)) } else { s.error },
                phase: PhaseView::Dispatch,
                ..s2
            },
        }
    }
}

// ---------------------------------------------------------------- resolving edges

pub open spec fn all_resolved(c: Ctx, es: Seq<Option<Option<Seq<char>>>>, list: Seq<usize>) -> bool {
    forall|j: int| 0 <= j < list.len() ==> (#[trigger] es[c.plan.edge_key@[list[j] as int] as int]) is Some
}

/// The fired payloads among `list`'s edges, in order, each under the heading
/// of its source node.
pub open spec fn fired_sections(c: Ctx, es: Seq<Option<Option<Seq<char>>>>, list: Seq<usize>) -> Seq<(Seq<char>, Seq<char>)>
    decreases list.len(),
{
    if list.len() == 0 {
        Seq::empty()
    } else {
        let prev = fired_sections(c, es, list.drop_last());
        let e = list.last();
        match es[c.plan.edge_key@[e as int] as int] {
            Some(Some(p)) => prev.push((heading_of(c, c.plan.src@[e as int], false), p)),
            _ => prev,
        }
    }
}

pub open spec fn payload(out: Option<Seq<char>>) -> Seq<char> {
    match out {
        Some(p) => p,
        None => Seq::empty(),
    }
}

/// Edge `e` out of `nid` resolved (`taken` or not), for output `out`: a
/// loop-back edge that fires re-queues its target with that payload alone; a
/// silent forward edge out of a node that may run again stays open (unless
/// the run is `settling` it); otherwise
/// the edge's resolution is recorded, and an already activated target is
/// re-queued with the payload alone when the edge fired, while a target not
/// activated yet is activated once all its forward incoming edges have
/// resolved: with the fired payloads, or skipped (its own edges then resolve
/// silent) when none fired. Nothing is queued once the run has failed.
/// Resolution then goes on at edge `next_cur` of the worklist's first node.
pub open spec fn apply_resolution(
    c: Ctx,
    s: RunState,
    wl: Seq<(usize, Option<Seq<char>>)>,
    next_cur: int,
    nid: usize,
    out: Option<Seq<char>>,
    e: usize,
    taken: bool,
    settling: bool,
) -> (RunState, StepView) {
    let t = c.plan.tgt@[e as int];
    let next = PhaseView::Resolve(wl, next_cur);
    let ok = s.error is None;
    if c.plan.back@[e as int] {
        let q = if taken && ok {
            s.queue.push((t, seq![(heading_of(c, nid, true), payload(out))]))
        } else {
            s.queue
        };
        (RunState { queue: q, phase: next, ..s }, StepView::Resolved(nid, e, taken, None))
    } else if !taken && c.plan.rerun@[nid as int] && !settling {
        (RunState { phase: next, ..s }, StepView::Resolved(nid, e, taken, None))
    } else {
        let es = s.edges.update(c.plan.edge_key@[e as int] as int, Some(if taken { out } else { None }));
        if s.activated[t as int] {
            let q = if taken && ok {
                s.queue.push((t, seq![(heading_of(c, nid, false), payload(out))]))
            } else {
                s.queue
            };
            (RunState { edges: es, queue: q, phase: next, ..s }, StepView::Resolved(nid, e, taken, None))
        } else if !all_resolved(c, es, c.plan.incoming@[t as int]@) {
            (RunState { edges: es, phase: next, ..s }, StepView::Resolved(nid, e, taken, None))
        } else {
            let secs = fired_sections(c, es, c.plan.incoming@[t as int]@);
            let act = s.activated.update(t as int, true);
            if secs.len() == 0 {
                (
                    RunState { edges: es, activated: act, phase: PhaseView::Resolve(wl.push((t, None)), next_cur), ..s },
                    StepView::Resolved(nid, e, taken, Some(t)),
                )
            } else {
                let q = if ok { s.queue.push((t, secs)) } else { s.queue };
                (RunState { edges: es, activated: act, queue: q, phase: next, ..s }, StepView::Resolved(nid, e, taken, None))
            }
        }
    }
}

/// A firing edge hands on exactly the output that fired it: when an edge
/// out of `nid` fires with output `p` into a node that is already activated
/// (or along a loop-back edge), and the run has not failed, one activation
/// of the edge's target is queued after the ones already waiting, with a
/// single section whose payload is `p`, under the heading of `nid`.
pub proof fn lemma_fired_edge_hands_on_output(
    c: Ctx,
    s: RunState,
    wl: Seq<(usize, Option<Seq<char>>)>,
    next_cur: int,
    nid: usize,
    p: Seq<char>,
    e: usize,
    settling: bool,
)
    requires
        ctx_wf(c),
        e < edge_count(c),
        s.error is None,
        c.plan.back@[e as int] || s.activated[c.plan.tgt@[e as int] as int],
    ensures
        ({
            let q = apply_resolution(c, s, wl, next_cur, nid, Some(p), e, true, settling).0.queue;
            &&& q.len() == s.queue.len() + 1
            &&& q.take(s.queue.len() as int) == s.queue
            &&& q.last().0 == c.plan.tgt@[e as int]
            &&& q.last().1.len() == 1
            &&& q.last().1[0].1 == p
            &&& q.last().1[0].0 == heading_of(c, nid, c.plan.back@[e as int])
        }),
{
    let q = apply_resolution(c, s, wl, next_cur, nid, Some(p), e, true, settling).0.queue;
    assert(q.take(s.queue.len() as int) =~= s.queue);
}

/// How an edge out of a node that produced output `o` is decided: a
/// condition that holds fires the edge unless it is negated, one that does
/// not hold fires it only when negated, and a condition that cannot be
/// evaluated fails the run (the first failure is kept) and leaves the edge
/// silent. A forward edge then records its resolution: the output when it
/// fired, silent otherwise (unless it is left open for a node that may run
/// again).
pub proof fn lemma_edge_decision(c: Ctx, s: RunState, wl: Seq<(usize, Option<Seq<char>>)>, cur: int, o: Seq<char>)
    requires
        ctx_wf(c),
        s.phase == PhaseView::Resolve(wl, cur),
        wl.len() > 0,
        wl[0].1 == Some(o),
        wl[0].0 < node_count(c),
        0 <= cur < c.plan.outgoing@[wl[0].0 as int]@.len(),
    ensures
        ({
            let nid = wl[0].0;
            let e = c.plan.outgoing@[nid as int]@[cur];
            let edge = c.plan.graph.edges@[e as int];
            &&& condition_result(edge, o) matches ConditionResult::Holds(b) ==> resolve_state(c, s) == apply_resolution(
                c, s, wl, cur + 1, nid, Some(o), e, b != edge.negate, false)
            &&& condition_result(edge, o) matches ConditionResult::Failed(f) ==> resolve_state(c, s).0.error == (if s.error is None {
                Some(RunErrorView::ConditionFailed(e, f))
            } else {
                s.error
            })
        }),
{
}

/// A forward edge that is not left open records how it resolved: the output
/// of its source when it fired, silent when it did not.
pub proof fn lemma_forward_edge_recorded(
    c: Ctx,
    s: RunState,
    wl: Seq<(usize, Option<Seq<char>>)>,
    next_cur: int,
    nid: usize,
    out: Option<Seq<char>>,
    e: usize,
    taken: bool,
    settling: bool,
)
    requires
        ctx_wf(c),
        e < edge_count(c),
        !c.plan.back@[e as int],
        taken || !c.plan.rerun@[nid as int] || settling,
    ensures
        apply_resolution(c, s, wl, next_cur, nid, out, e, taken, settling).0.edges == s.edges.update(
            c.plan.edge_key@[e as int] as int,
            Some(if taken { out } else { None }),
        ),
{
}

/// A node's first activation waits for all its forward inputs and then gets
/// the fired ones: once the last forward edge into a node not yet activated
/// resolves, the node is activated; if any of its forward edges fired, one
/// activation is queued after those already waiting, with the fired
/// sections; if none fired, nothing is queued and the node goes on the
/// worklist as skipped, so its own edges resolve silent in turn.
pub proof fn lemma_first_activation(
    c: Ctx,
    s: RunState,
    wl: Seq<(usize, Option<Seq<char>>)>,
    next_cur: int,
    nid: usize,
    out: Option<Seq<char>>,
    e: usize,
    taken: bool,
    settling: bool,
)
    requires
        ctx_wf(c),
        e < edge_count(c),
        !c.plan.back@[e as int],
        taken || !c.plan.rerun@[nid as int] || settling,
        s.error is None,
        !s.activated[c.plan.tgt@[e as int] as int],
        all_resolved(
            c,
            s.edges.update(c.plan.edge_key@[e as int] as int, Some(if taken { out } else { None })),
            c.plan.incoming@[c.plan.tgt@[e as int] as int]@,
        ),
    ensures
        ({
            let t = c.plan.tgt@[e as int];
            let es = s.edges.update(c.plan.edge_key@[e as int] as int, Some(if taken { out } else { None }));
            let secs = fired_sections(c, es, c.plan.incoming@[t as int]@);
            let s2 = apply_resolution(c, s, wl, next_cur, nid, out, e, taken, settling).0;
            &&& s2.activated == s.activated.update(t as int, true)
            &&& s2.edges == es
            &&& secs.len() > 0 ==> s2.queue == s.queue.push((t, secs)) && s2.phase == PhaseView::Resolve(wl, next_cur)
            &&& secs.len() == 0 ==> s2.queue == s.queue && s2.phase == PhaseView::Resolve(wl.push((t, None)), next_cur)
        }),
{
}

/// The sections a node's first activation gets are the payloads of its
/// fired forward edges, one per fired edge, in the order of its incoming
/// edges, each under the heading of the edge's source; a silent or open edge
/// adds none.
pub proof fn lemma_fired_sections_in_order(c: Ctx, es: Seq<Option<Option<Seq<char>>>>, list: Seq<usize>, e: usize)
    ensures
        fired_sections(c, es, Seq::empty()) == Seq::<(Seq<char>, Seq<char>)>::empty(),
        es[c.plan.edge_key@[e as int] as int] matches Some(Some(p)) ==> fired_sections(c, es, list.push(e))
            == fired_sections(c, es, list).push((heading_of(c, c.plan.src@[e as int], false), p)),
        !(es[c.plan.edge_key@[e as int] as int] is Some && es[c.plan.edge_key@[e as int] as int]->0 is Some)
            ==> fired_sections(c, es, list.push(e)) == fired_sections(c, es, list),
{
    assert(list.push(e).drop_last() =~= list);
}

/// A finished activation frees its node: a success hands the node's output
/// to resolution of its outgoing edges; a failure fails the run (the first
/// failure is the one kept) and goes back to the top of the loop.
pub proof fn lemma_finished_outcome(c: Ctx, s: RunState, node: usize, result: Result<Seq<char>, Seq<char>>)
    requires
        s.phase is Wait,
        node < node_count(c),
        s.busy[node as int],
        s.running > 0,
    ensures
        ({
            let s2 = finished_state(c, s, node, result);
            &&& s2.running == s.running - 1
            &&& s2.busy == s.busy.update(node as int, false)
            &&& s2.queue == s.queue
            &&& s2.edges == s.edges
            &&& result matches Ok(o) ==> s2.phase == PhaseView::Resolve(seq![(node, Some(o))], 0) && s2.error == s.error
            &&& result matches Err(why) ==> s2.phase is Dispatch && s2.error == (if s.error is None {
                Some(RunErrorView::NodeFailed(node, why))
            } else {
                s.error
            })
        }),
{
}

/// One resolution step: the next edge of the first node on the worklist is
/// decided (by its condition, or silent for a skipped node) and applied.
pub open spec fn resolve_state(c: Ctx, s: RunState) -> (RunState, StepView) {
    match s.phase {
        PhaseView::Resolve(wl, cur) => {
            if wl.len() == 0 {
                (RunState { phase: PhaseView::Dispatch, ..s }, StepView::Idle)
            } else {
                let nid = wl[0].0;
                let out = wl[0].1;
                let outs = c.plan.outgoing@[nid as int]@;
                if cur >= outs.len() {
                    (RunState { phase: PhaseView::Resolve(wl.drop_first(), 0), ..s }, StepView::Advance)
                } else {
                    let e = outs[cur];
                    match out {
                        None => apply_resolution(c, s, wl, cur + 1, nid, out, e, false, false),
                        Some(o) => {
                            let edge = c.plan.graph.edges@[e as int];
                            match condition_result(edge, o) {
                                ConditionResult::Holds(b) => apply_resolution(c, s, wl, cur + 1, nid, out, e, b != edge.negate, false),
                                ConditionResult::AskJudge => (
                                    RunState { phase: PhaseView::Judge(wl, cur, e), ..s },
                                    StepView::AskJudge(e, judge_question(edge.condition@, o)),
                                ),
                                ConditionResult::Failed(f) => apply_resolution(
                                    c,
                                    RunState {
                                        error: if s.error is None {
                                            Some(RunErrorView::ConditionFailed(e, f))
                                        } else {
                                            s.error
                                        },
                                        ..s
                                    },
                                    wl,
                                    cur + 1,
                                    nid,
                                    out,
                                    e,
                                    false,
                                    false,
                                ),
                            }
                        },
                    }
                }
            }
        },
        _ => (s, StepView::Idle),
    }
}

/// The judge model answered (or asking it failed) for the edge being resolved.
pub open spec fn judged_state(c: Ctx, s: RunState, reply: Result<Seq<char>, Seq<char>>) -> (RunState, StepView) {
    match s.phase {
        PhaseView::Judge(wl, cur, e) => {
            if wl.len() == 0 {
                (RunState { phase: PhaseView::Dispatch, ..s }, StepView::Idle)
            } else {
                let nid = wl[0].0;
                let out = wl[0].1;
                let edge = c.plan.graph.edges@[e as int];
                match reply {
                    Ok(text) => apply_resolution(c, s, wl, cur + 1, nid, out, e, verdict_of(uppercase(text)) != edge.negate, false),
                    Err(why) => apply_resolution(
                        c,
                        RunState {
                            error: if s.error is None {
                                Some(RunErrorView::ConditionFailed(e, ConditionFailure::JudgeFailed(why)))
                            } else {
                                s.error
                            },
                            ..s
                        },
                        wl,
                        cur + 1,
                        nid,
                        out,
                        e,
                        false,
                        false,
                    ),
                }
            }
        },
        _ => (s, StepView::Idle),
    }
}

// ---------------------------------------------------------------- settling

/// A forward edge still open although its source has had its first
/// activation: a silent conditional edge out of a node that may run again.
pub open spec fn pending_edge(c: Ctx, s: RunState, e: int) -> bool {
    &&& 0 <= e < edge_count(c)
    &&& !c.plan.back@[e]
    &&& s.edges[c.plan.edge_key@[e] as int] is None
    &&& s.activated[c.plan.src@[e] as int]
}

/// The first pending edge among the first `n` edges.
pub open spec fn first_pending(c: Ctx, s: RunState, n: int) -> Option<usize>
    decreases n,
{
    if n <= 0 {
        None
    } else {
        match first_pending(c, s, n - 1) {
            Some(e) => Some(e),
            None => if pending_edge(c, s, n - 1) {
                Some((n - 1) as usize)
            } else {
                None
            },
        }
    }
}

/// A run is quiescent when nothing runs, nothing is queued and it has not
/// failed; the edge to settle then is its first pending edge, if any.
pub open spec fn settle_edge(c: Ctx, s: RunState) -> Option<usize> {
    if s.phase is Wait && s.running == 0 && s.error is None && s.queue.len() == 0 {
        first_pending(c, s, edge_count(c) as int)
    } else {
        None
    }
}

/// Settling: when the run goes quiescent, a still-pending edge resolves as
/// silent, which may complete a waiting join node (or skip it, cascading).
pub open spec fn settle_state(c: Ctx, s: RunState) -> (RunState, StepView) {
    match settle_edge(c, s) {
        Some(e) => apply_resolution(c, s, Seq::empty(), 0, c.plan.src@[e as int], None, e, false, true),
        None => (s, StepView::Idle),
    }
}

// ---------------------------------------------------------------- invariant

pub open spec fn phase_ok(c: Ctx, p: PhaseView) -> bool {
    match p {
        PhaseView::Resolve(wl, cur) => cur >= 0 && forall|j: int| 0 <= j < wl.len() ==> (#[trigger] wl[j]).0 < node_count(c),
        PhaseView::Judge(wl, cur, e) => 0 <= cur < usize::MAX && e < edge_count(c) && wl.len() > 0 && forall|j: int|
            0 <= j < wl.len() ==> (#[trigger] wl[j]).0 < node_count(c),
        _ => true,
    }
}

/// What holds of every state of a run.
pub open spec fn run_inv(c: Ctx, s: RunState) -> bool {
    &&& s.edges.len() == edge_count(c)
    &&& s.activated.len() == node_count(c)
    &&& s.counts.len() == node_count(c)
    &&& s.busy.len() == node_count(c)
    &&& forall|j: int| 0 <= j < s.queue.len() ==> (#[trigger] s.queue[j]).0 < node_count(c)
    &&& phase_ok(c, s.phase)
    // the loop budget is never exceeded
    &&& s.steps_used <= budget(c.max_steps)
    &&& forall|k: int| 0 <= k < node_count(c) ==> #[trigger] s.counts[k] <= s.steps_used
    &&& s.running <= s.steps_used
    // a failure names a node or an edge of the run
    &&& (s.error matches Some(RunErrorView::NodeFailed(n, _)) ==> n < node_count(c))
    &&& (s.error matches Some(RunErrorView::ConditionFailed(e, _)) ==> e < edge_count(c))
    // a node is activated only once all its forward incoming edges resolved
    &&& forall|k: int|
        0 <= k < node_count(c) && #[trigger] s.activated[k] ==> all_resolved(c, s.edges, c.plan.incoming@[k]@)
    // and, when ids are distinct, a node not activated yet still waits for an input
    &&& waiting_ok(c, s)
}

/// Every node and every edge is its own key (node ids and edge ids are
/// distinct).
pub open spec fn keys_distinct(c: Ctx) -> bool {
    &&& forall|k: int| 0 <= k < node_count(c) ==> #[trigger] c.plan.keys@[k] == k
    &&& forall|e: int| 0 <= e < edge_count(c) ==> #[trigger] c.plan.edge_key@[e] == e
}

/// A node that has not had its first activation still waits for one of its
/// forward inputs.
pub open spec fn waiting_ok(c: Ctx, s: RunState) -> bool {
    keys_distinct(c) ==> forall|k: int|
        0 <= k < node_count(c) && !(#[trigger] s.activated[k]) ==> !all_resolved(c, s.edges, c.plan.incoming@[k]@)
}

pub open spec fn acc_inv(c: Ctx, s: RunState, acc: DispatchAcc) -> bool {
    &&& acc.counts.len() == node_count(c)
    &&& acc.busy.len() == node_count(c)
    &&& acc.steps_used <= budget(c.max_steps)
    &&& forall|k: int| 0 <= k < node_count(c) ==> #[trigger] acc.counts[k] <= acc.steps_used
    &&& acc.running <= acc.steps_used
    &&& acc.steps_used == s.steps_used + acc.started.len()
    &&& acc.running == s.running + acc.started.len()
    &&& forall|j: int| 0 <= j < acc.deferred.len() ==> (#[trigger] acc.deferred[j]).0 < node_count(c)
    &&& forall|j: int|
        0 <= j < acc.started.len() ==> (#[trigger] acc.started[j]).0 < node_count(c) && !s.busy[acc.started[j].0 as int]
            && acc.busy[acc.started[j].0 as int]
    &&& forall|i: int, j: int|
        0 <= i < j < acc.started.len() ==> (#[trigger] acc.started[i]).0 != (#[trigger] acc.started[j]).0
    &&& forall|k: int| 0 <= k < node_count(c) && s.busy[k] ==> #[trigger] acc.busy[k]
    &&& acc.error is None || acc.stopped
    &&& acc.error is None || acc.error matches Some(RunErrorView::BudgetExhausted(_))
}

/// How many of the started activations are of `node`.
pub open spec fn count_node(started: Seq<(usize, u32, Seq<char>)>, node: usize) -> nat
    decreases started.len(),
{
    if started.len() == 0 {
        0
    } else {
        count_node(started.drop_last(), node) + if started.last().0 == node { 1nat } else { 0nat }
    }
}

pub proof fn lemma_count_node_concat(a: Seq<(usize, u32, Seq<char>)>, b: Seq<(usize, u32, Seq<char>)>, node: usize)
    ensures
        count_node(a + b, node) == count_node(a, node) + count_node(b, node),
    decreases b.len(),
{
    if b.len() > 0 {
        lemma_count_node_concat(a, b.drop_last(), node);
        assert((a + b).drop_last() =~= a + b.drop_last());
    } else {
        assert(a + b =~= a);
    }
}

/// Each activation started so far is numbered one past the node's count
/// before the round and its earlier starts in the round; the counts grow by
/// the starts.
spec fn acc_numbered(c: Ctx, s: RunState, acc: DispatchAcc) -> bool {
    &&& forall|k: usize| k < node_count(c) ==> #[trigger] acc.counts[k as int] == s.counts[k as int] + count_node(acc.started, k)
    &&& forall|j: int|
        0 <= j < acc.started.len() ==> (#[trigger] acc.started[j]).1 == s.counts[acc.started[j].0 as int] + count_node(
            acc.started.take(j + 1),
            acc.started[j].0,
        )
}

/// Every activation started, and every one put off, comes from the queue:
/// a started one gets the rendered sections of a queued activation of its
/// node; one put off is a queued activation unchanged.
spec fn acc_from_queue(s: RunState, acc: DispatchAcc) -> bool {
    &&& forall|j: int|
        0 <= j < acc.started.len() ==> exists|i: int|
            0 <= i < s.queue.len() && (#[trigger] s.queue[i]).0 == (#[trigger] acc.started[j]).0 && acc.started[j].2
                == rendered_input(s.queue[i].1)
    &&& forall|j: int| 0 <= j < acc.deferred.len() ==> s.queue.contains(#[trigger] acc.deferred[j])
}

proof fn lemma_dispatch_from(c: Ctx, s: RunState, q: Seq<(usize, Seq<(Seq<char>, Seq<char>)>)>, i: int, acc: DispatchAcc)
    requires
        ctx_wf(c),
        run_inv(c, s),
        q == s.queue,
        0 <= i,
        acc_inv(c, s, acc),
        acc_numbered(c, s, acc),
        acc_from_queue(s, acc),
    ensures
        acc_inv(c, s, dispatch_from(budget(c.max_steps), q, i, acc)),
        acc_numbered(c, s, dispatch_from(budget(c.max_steps), q, i, acc)),
        acc_from_queue(s, dispatch_from(budget(c.max_steps), q, i, acc)),
    decreases q.len() - i,
{
    if i < q.len() && !acc.stopped {
        let a = q[i];
        assert(a.0 < node_count(c));
        let acc2 = dispatch_one(budget(c.max_steps), acc, a);
        assert forall|j: int| 0 <= j < acc2.started.len() implies exists|ii: int|
            0 <= ii < s.queue.len() && (#[trigger] s.queue[ii]).0 == (#[trigger] acc2.started[j]).0 && acc2.started[j].2
                == rendered_input(s.queue[ii].1) by {
            if j < acc.started.len() {
                assert(acc2.started[j] == acc.started[j]);
            } else {
                assert(s.queue[i].0 == acc2.started[j].0);
            }
        }
        assert forall|j: int| 0 <= j < acc2.deferred.len() implies s.queue.contains(#[trigger] acc2.deferred[j]) by {
            if j < acc.deferred.len() {
                assert(acc2.deferred[j] == acc.deferred[j]);
            } else {
                assert(s.queue[i] == acc2.deferred[j]);
            }
        }
        if !acc.busy[a.0 as int] && acc.steps_used < budget(c.max_steps) {
            let v = a.0;
            assert(acc.counts[v as int] <= acc.steps_used);
            assert(acc2.started.drop_last() =~= acc.started);
            assert forall|k: usize| k < node_count(c) implies #[trigger] acc2.counts[k as int] == s.counts[k as int] + count_node(
                acc2.started,
                k,
            ) by {
                assert(acc.counts[k as int] == s.counts[k as int] + count_node(acc.started, k));
            }
            assert forall|j: int| 0 <= j < acc2.started.len() implies (#[trigger] acc2.started[j]).1 == s.counts[acc2.started[j].0 as int]
                + count_node(acc2.started.take(j + 1), acc2.started[j].0) by {
                if j < acc.started.len() {
                    assert(acc2.started[j] == acc.started[j]);
                    assert(acc2.started.take(j + 1) =~= acc.started.take(j + 1));
                } else {
                    assert(acc2.started.take(j + 1) =~= acc2.started);
                    assert(acc.counts[v as int] == s.counts[v as int] + count_node(acc.started, v));
                }
            }
            assert(acc2.started.last() == (a.0, (acc.counts[a.0 as int] + 1) as u32, rendered_input(a.1)));
            assert forall|j: int| 0 <= j < acc2.started.len() implies (#[trigger] acc2.started[j]).0 < node_count(c)
                && !s.busy[acc2.started[j].0 as int] && acc2.busy[acc2.started[j].0 as int] by {
                if j < acc.started.len() {
                    assert(acc2.started[j] == acc.started[j]);
                }
            }
            assert forall|ii: int, j: int| 0 <= ii < j < acc2.started.len() implies
                (#[trigger] acc2.started[ii]).0 != (#[trigger] acc2.started[j]).0 by {
                if j == acc.started.len() {
                    assert(acc2.started[ii] == acc.started[ii]);
                    assert(acc.busy[acc.started[ii].0 as int]);
                } else {
                    assert(acc2.started[ii] == acc.started[ii]);
                    assert(acc2.started[j] == acc.started[j]);
                }
            }
        }
        lemma_dispatch_from(c, s, q, i + 1, acc2);
    }
}

proof fn lemma_dispatch_keeps_started(limit: u32, q: Seq<(usize, Seq<(Seq<char>, Seq<char>)>)>, i: int, acc: DispatchAcc)
    ensures
        dispatch_from(limit, q, i, acc).started.len() >= acc.started.len(),
        dispatch_from(limit, q, i, acc).started.take(acc.started.len() as int) == acc.started,
    decreases q.len() - i,
{
    if !(i < 0 || i >= q.len() || acc.stopped) {
        let acc2 = dispatch_one(limit, acc, q[i]);
        lemma_dispatch_keeps_started(limit, q, i + 1, acc2);
        assert(acc2.started.take(acc.started.len() as int) =~= acc.started);
        let r = dispatch_from(limit, q, i + 1, acc2);
        assert(r.started.take(acc.started.len() as int) =~= r.started.take(acc2.started.len() as int).take(
            acc.started.len() as int,
        ));
    } else {
        assert(acc.started.take(acc.started.len() as int) =~= acc.started);
    }
}

proof fn lemma_dispatch_over_budget(limit: u32, q: Seq<(usize, Seq<(Seq<char>, Seq<char>)>)>, i: int, acc: DispatchAcc)
    requires
        0 <= i,
        acc.steps_used >= limit,
        acc.started.len() == 0,
        !acc.stopped,
        acc.error is None,
        exists|j: int| i <= j < q.len() && !acc.busy[(#[trigger] q[j]).0 as int],
    ensures
        dispatch_from(limit, q, i, acc).error == Some(RunErrorView::BudgetExhausted(limit)),
        dispatch_from(limit, q, i, acc).started.len() == 0,
    decreases q.len() - i,
{
    let j = choose|j: int| i <= j < q.len() && !acc.busy[(#[trigger] q[j]).0 as int];
    let acc2 = dispatch_one(limit, acc, q[i]);
    assert(dispatch_from(limit, q, i, acc) == dispatch_from(limit, q, i + 1, acc2));
    if acc.busy[q[i].0 as int] {
        assert(j != i);
        assert(i + 1 <= j < q.len() && !acc2.busy[q[j].0 as int]);
        lemma_dispatch_over_budget(limit, q, i + 1, acc2);
    } else {
        assert(acc2.stopped);
        assert(dispatch_from(limit, q, i + 1, acc2) == acc2);
    }
}

/// The loop budget holds at the top of the loop: when the budget is used up
/// and an activation of a free node is waiting, the run fails with the
/// budget exhausted and nothing starts; while budget is left, the first
/// queued activation of a free node starts first, numbered one past its
/// node's count, with its queued sections rendered as its input.
pub proof fn lemma_dispatch_budget(c: Ctx, s: RunState)
    requires
        ctx_wf(c),
        run_inv(c, s),
        s.phase is Dispatch,
        s.error is None,
    ensures
        (s.steps_used >= budget(c.max_steps) && exists|j: int| 0 <= j < s.queue.len() && !s.busy[(#[trigger] s.queue[j]).0 as int])
            ==> ({
            let (s2, started) = dispatch_state(c, s, false);
            &&& started.len() == 0
            &&& s2.error == Some(RunErrorView::BudgetExhausted(budget(c.max_steps)))
        }),
        (s.steps_used < budget(c.max_steps) && s.queue.len() > 0 && !s.busy[s.queue[0].0 as int]) ==> ({
            let started = dispatch_state(c, s, false).1;
            &&& started.len() > 0
            &&& started[0] == (s.queue[0].0, (s.counts[s.queue[0].0 as int] + 1) as u32, rendered_input(s.queue[0].1))
        }),
{
    let acc0 = DispatchAcc {
        counts: s.counts,
        busy: s.busy,
        steps_used: s.steps_used,
        running: s.running,
        deferred: Seq::empty(),
        started: Seq::empty(),
        error: None,
        stopped: false,
    };
    let limit = budget(c.max_steps);
    if s.steps_used >= limit && exists|j: int| 0 <= j < s.queue.len() && !s.busy[(#[trigger] s.queue[j]).0 as int] {
        lemma_dispatch_over_budget(limit, s.queue, 0, acc0);
    }
    if s.steps_used < limit && s.queue.len() > 0 && !s.busy[s.queue[0].0 as int] {
        let acc1 = dispatch_one(limit, acc0, s.queue[0]);
        lemma_dispatch_keeps_started(limit, s.queue, 1, acc1);
        assert(dispatch_from(limit, s.queue, 0, acc0) == dispatch_from(limit, s.queue, 1, acc1));
        let r = dispatch_from(limit, s.queue, 1, acc1);
        assert(r.started[0] == r.started.take(1)[0]);
    }
}

/// Dispatching keeps the run's invariant; every activation it starts takes
/// one step of the budget (which is never exceeded), and it never starts a
/// node that is running, nor one node twice. Once the run has failed, or is
/// canceled, it starts nothing more (and stays failed).
pub proof fn lemma_dispatch(c: Ctx, s: RunState, canceled: bool)
    requires
        ctx_wf(c),
        run_inv(c, s),
    ensures
        ({
            let (s2, started) = dispatch_state(c, s, canceled);
            &&& run_inv(c, s2)
            &&& s2.steps_used == s.steps_used + started.len()
            &&& s2.steps_used <= budget(c.max_steps)
            &&& forall|j: int| 0 <= j < started.len() ==> !s.busy[(#[trigger] started[j]).0 as int]
            &&& forall|i: int, j: int| 0 <= i < j < started.len() ==> (#[trigger] started[i]).0 != (#[trigger] started[j]).0
            &&& (s.error is Some || canceled) ==> started.len() == 0 && (s.phase is Dispatch ==> s2.error is Some)
            &&& forall|j: int| 0 <= j < started.len() ==> (#[trigger] started[j]).0 < node_count(c)
            // what starts, and what waits, comes from the queue: a started
            // activation's input is the rendered sections queued for its node
            &&& forall|j: int|
                0 <= j < started.len() ==> exists|i: int|
                    0 <= i < s.queue.len() && (#[trigger] s.queue[i]).0 == (#[trigger] started[j]).0 && started[j].2
                        == rendered_input(s.queue[i].1)
            &&& forall|j: int| 0 <= j < s2.queue.len() ==> s.queue.contains(#[trigger] s2.queue[j])
            // activations are numbered per node: one past the node's count
            // and its earlier starts in this round; the counts grow by the starts
            &&& forall|k: usize| k < node_count(c) ==> #[trigger] s2.counts[k as int] == s.counts[k as int] + count_node(started, k)
            &&& forall|j: int|
                0 <= j < started.len() ==> (#[trigger] started[j]).1 == s.counts[started[j].0 as int] + count_node(
                    started.take(j + 1),
                    started[j].0,
                )
        }),
{
    let error = if canceled && s.error is None { Some(RunErrorView::Canceled) } else { s.error };
    if !(s.phase is Dispatch) {
    } else if error is None {
        let acc0 = DispatchAcc {
            counts: s.counts,
            busy: s.busy,
            steps_used: s.steps_used,
            running: s.running,
            deferred: Seq::empty(),
            started: Seq::empty(),
            error: None,
            stopped: false,
        };
        lemma_dispatch_from(c, s, s.queue, 0, acc0);
        let acc = dispatch_from(budget(c.max_steps), s.queue, 0, acc0);
        let s2 = dispatch_state(c, s, canceled).0;
        assert forall|k: int| 0 <= k < node_count(c) && #[trigger] s2.activated[k] implies all_resolved(
            c,
            s2.edges,
            c.plan.incoming@[k]@,
        ) by {
            assert(s.activated[k]);
        }
    } else {
        let s2 = dispatch_state(c, s, canceled).0;
        assert forall|k: int| 0 <= k < node_count(c) && #[trigger] s2.activated[k] implies all_resolved(
            c,
            s2.edges,
            c.plan.incoming@[k]@,
        ) by {
            assert(s.activated[k]);
        }
    }
}

/// What a caller reports to a run, one step at a time (see the methods of
/// `run::Execution`, which take these steps).
pub enum RunEvent {
    Dispatch(bool),
    Finished(usize, Result<Seq<char>, Seq<char>>),
    Resolve,
    Judged(Result<Seq<char>, Seq<char>>),
    Settle,
}

/// One step of a run: its next state and the activations it starts.
pub open spec fn run_event(c: Ctx, s: RunState, ev: RunEvent) -> (RunState, Seq<(usize, u32, Seq<char>)>) {
    match ev {
        RunEvent::Dispatch(canceled) => dispatch_state(c, s, canceled),
        RunEvent::Finished(node, result) => (finished_state(c, s, node, result), Seq::empty()),
        RunEvent::Resolve => (resolve_state(c, s).0, Seq::empty()),
        RunEvent::Judged(reply) => (judged_state(c, s, reply).0, Seq::empty()),
        RunEvent::Settle => (settle_state(c, s).0, Seq::empty()),
    }
}

/// A run taken through a series of steps: its state after them and every
/// activation it started, in start order.
pub open spec fn run_events(c: Ctx, s: RunState, evs: Seq<RunEvent>) -> (RunState, Seq<(usize, u32, Seq<char>)>)
    decreases evs.len(),
{
    if evs.len() == 0 {
        (s, Seq::empty())
    } else {
        let (s1, st1) = run_events(c, s, evs.drop_last());
        let (s2, st2) = run_event(c, s1, evs.last());
        (s2, st1 + st2)
    }
}

/// The activations a run has started are numbered per node in start order,
/// whatever the caller reports: the k-th activation of a node carries number
/// k (so a node's activations are 1, 2, ..., k), and the run's count for each
/// node is the number of its activations.
pub proof fn lemma_activation_numbers(c: Ctx, input: Seq<char>, evs: Seq<RunEvent>)
    requires
        ctx_wf(c),
    ensures
        ({
            let (s, starts) = run_events(c, seed_state(c, input), evs);
            &&& run_inv(c, s)
            &&& forall|j: int| 0 <= j < starts.len() ==> (#[trigger] starts[j]).0 < node_count(c)
            &&& forall|j: int| 0 <= j < starts.len() ==> (#[trigger] starts[j]).1 == count_node(starts.take(j + 1), starts[j].0)
            &&& forall|k: usize| k < node_count(c) ==> #[trigger] s.counts[k as int] == count_node(starts, k)
        }),
    decreases evs.len(),
{
    let s0 = seed_state(c, input);
    if evs.len() == 0 {
        lemma_seed(c, input);
    } else {
        lemma_activation_numbers(c, input, evs.drop_last());
        let (s1, st1) = run_events(c, s0, evs.drop_last());
        let (s2, st2) = run_event(c, s1, evs.last());
        let starts = st1 + st2;
        assert(run_events(c, s0, evs) == (s2, starts));
        match evs.last() {
            RunEvent::Dispatch(canceled) => {
                lemma_dispatch(c, s1, canceled);
                assert forall|k: usize| k < node_count(c) implies #[trigger] s2.counts[k as int] == count_node(starts, k) by {
                    lemma_count_node_concat(st1, st2, k);
                }
                assert forall|j: int| 0 <= j < starts.len() implies (#[trigger] starts[j]).0 < node_count(c)
                    && starts[j].1 == count_node(starts.take(j + 1), starts[j].0) by {
                    if j < st1.len() {
                        assert(starts[j] == st1[j]);
                        assert(starts.take(j + 1) =~= st1.take(j + 1));
                    } else {
                        let m = j - st1.len();
                        assert(starts[j] == st2[m]);
                        assert(starts.take(j + 1) =~= st1 + st2.take(m + 1));
                        lemma_count_node_concat(st1, st2.take(m + 1), st2[m].0);
                    }
                }
            },
            RunEvent::Finished(node, result) => {
                lemma_finished(c, s1, node, result);
                assert(starts =~= st1);
            },
            RunEvent::Resolve => {
                lemma_resolve(c, s1);
                assert(starts =~= st1);
            },
            RunEvent::Judged(reply) => {
                lemma_judged(c, s1, reply);
                assert(starts =~= st1);
            },
            RunEvent::Settle => {
                lemma_settle(c, s1);
                assert(starts =~= st1);
            },
        }
    }
}

/// A run starts at its sources, with the workflow input: every activation
/// queued at the start is of a node without forward inputs, and carries the
/// input as its one section under "Workflow input" (no section when the input
/// is blank); nothing has run, nothing is resolved, and nothing has failed.
pub proof fn lemma_seed_hands_input_to_sources(c: Ctx, input: Seq<char>)
    requires
        ctx_wf(c),
    ensures
        ({
            let s = seed_state(c, input);
            &&& forall|j: int| 0 <= j < s.queue.len() ==> c.plan.incoming@[(#[trigger] s.queue[j]).0 as int]@.len() == 0
            &&& forall|j: int| 0 <= j < s.queue.len() ==> (#[trigger] s.queue[j]).1 == (if blank(input) {
                Seq::<(Seq<char>, Seq<char>)>::empty()
            } else {
                seq![("Workflow input"@, input)]
            })
            &&& s.steps_used == 0 && s.running == 0 && s.error is None
            &&& forall|e: int| 0 <= e < edge_count(c) ==> (#[trigger] s.edges[e]) is None
        }),
{
    let s = seed_state(c, input);
    let pred = |p: int| c.plan.incoming@[c.plan.keys@[p] as int]@.len() == 0;
    let f = positions(node_count(c)).filter(pred);
    assert forall|j: int| 0 <= j < s.queue.len() implies c.plan.incoming@[(#[trigger] s.queue[j]).0 as int]@.len() == 0 by {
        assert(f.contains(f[j]));
        positions(node_count(c)).lemma_filter_contains_rev(pred, f[j]);
        assert(s.queue[j].0 == c.plan.keys@[f[j]]);
    }
}

/// A run starts in a state that satisfies the invariant.
pub proof fn lemma_seed(c: Ctx, input: Seq<char>)
    requires
        ctx_wf(c),
    ensures
        run_inv(c, seed_state(c, input)),
{
    let s = seed_state(c, input);
    c.plan.lemma_bounds();
    let pred = |p: int| c.plan.incoming@[c.plan.keys@[p] as int]@.len() == 0;
    let f = positions(node_count(c)).filter(pred);
    assert forall|j: int| 0 <= j < s.queue.len() implies (#[trigger] s.queue[j]).0 < node_count(c) by {
        assert(f.contains(f[j]));
        positions(node_count(c)).lemma_filter_contains_rev(pred, f[j]);
        assert(s.queue[j].0 == c.plan.keys@[f[j]]);
    }
    if keys_distinct(c) {
        assert forall|k: int| 0 <= k < node_count(c) && !(#[trigger] s.activated[k]) implies !all_resolved(
            c,
            s.edges,
            c.plan.incoming@[k]@,
        ) by {
            assert(c.plan.keys@[k] == k);
            let e0 = c.plan.incoming@[k]@[0];
            assert(e0 < edge_count(c));
            assert(s.edges[c.plan.edge_key@[e0 as int] as int] is None);
        }
    }
}

/// Writing a resolution for an edge keeps every "all resolved" fact.
proof fn lemma_resolved_stays(c: Ctx, es: Seq<Option<Option<Seq<char>>>>, k: int, v: Option<Option<Seq<char>>>, list: Seq<usize>)
    requires
        all_resolved(c, es, list),
        v is Some,
        0 <= k < es.len(),
        forall|j: int| 0 <= j < list.len() ==> 0 <= #[trigger] c.plan.edge_key@[list[j] as int] < es.len(),
    ensures
        all_resolved(c, es.update(k, v), list),
{
    assert forall|j: int| 0 <= j < list.len() implies (#[trigger] es.update(k, v)[c.plan.edge_key@[list[j] as int] as int]) is Some by {
        assert(es[c.plan.edge_key@[list[j] as int] as int] is Some);
    }
}

proof fn lemma_apply(
    c: Ctx,
    s: RunState,
    wl: Seq<(usize, Option<Seq<char>>)>,
    next_cur: int,
    nid: usize,
    out: Option<Seq<char>>,
    e: usize,
    taken: bool,
    settling: bool,
)
    requires
        ctx_wf(c),
        run_inv(c, s),
        next_cur >= 0,
        nid < node_count(c),
        e < edge_count(c),
        forall|j: int| 0 <= j < wl.len() ==> (#[trigger] wl[j]).0 < node_count(c),
    ensures
        run_inv(c, apply_resolution(c, s, wl, next_cur, nid, out, e, taken, settling).0),
        apply_resolution(c, s, wl, next_cur, nid, out, e, taken, settling).0.steps_used == s.steps_used,
        apply_resolution(c, s, wl, next_cur, nid, out, e, taken, settling).0.counts == s.counts,
{
    c.plan.lemma_bounds();
    let s2 = apply_resolution(c, s, wl, next_cur, nid, out, e, taken, settling).0;
    let t = c.plan.tgt@[e as int];
    assert(t < node_count(c));
    let ek = c.plan.edge_key@[e as int] as int;
    assert(0 <= ek < edge_count(c));
    if !c.plan.back@[e as int] && !(!taken && c.plan.rerun@[nid as int] && !settling) {
        let v = Some(if taken { out } else { None });
        let es = s.edges.update(ek, v);
        assert forall|k: int| 0 <= k < node_count(c) && #[trigger] s2.activated[k] implies all_resolved(
            c,
            s2.edges,
            c.plan.incoming@[k]@,
        ) by {
            if k != t || s.activated[t as int] {
                assert(s.activated[k]);
                assert forall|j: int| 0 <= j < c.plan.incoming@[k]@.len() implies
                    0 <= #[trigger] c.plan.edge_key@[c.plan.incoming@[k]@[j] as int] < s.edges.len() by {
                    assert(c.plan.incoming@[k]@[j] < edge_count(c));
                }
                lemma_resolved_stays(c, s.edges, ek, v, c.plan.incoming@[k]@);
            }
        }
        assert forall|j: int| 0 <= j < s2.queue.len() implies (#[trigger] s2.queue[j]).0 < node_count(c) by {
            if j < s.queue.len() {
                assert(s2.queue[j] == s.queue[j]);
            }
        }
        if keys_distinct(c) {
            assert forall|k: int| 0 <= k < node_count(c) && !(#[trigger] s2.activated[k]) implies !all_resolved(
                c,
                s2.edges,
                c.plan.incoming@[k]@,
            ) by {
                assert(!s.activated[k]);
                if k != t {
                    let list = c.plan.incoming@[k]@;
                    let j = choose|j: int| 0 <= j < list.len() && !(s.edges[c.plan.edge_key@[list[j] as int] as int] is Some);
                    let e2 = list[j];
                    assert(c.plan.tgt@[e2 as int] == k);
                    assert(e2 < edge_count(c));
                    assert(c.plan.edge_key@[e2 as int] == e2);
                    assert(c.plan.edge_key@[e as int] == e);
                    assert(s2.edges[e2 as int] == s.edges[e2 as int]);
                    assert(!(s2.edges[c.plan.edge_key@[list[j] as int] as int] is Some));
                }
            }
        }
        match s2.phase {
            PhaseView::Resolve(wl2, _) => {
                assert forall|j: int| 0 <= j < wl2.len() implies (#[trigger] wl2[j]).0 < node_count(c) by {
                    if j < wl.len() {
                        assert(wl2[j] == wl[j]);
                    }
                }
            },
            _ => {},
        }
    } else {
        assert forall|j: int| 0 <= j < s2.queue.len() implies (#[trigger] s2.queue[j]).0 < node_count(c) by {
            if j < s.queue.len() {
                assert(s2.queue[j] == s.queue[j]);
            }
        }
        assert forall|k: int| 0 <= k < node_count(c) && #[trigger] s2.activated[k] implies all_resolved(
            c,
            s2.edges,
            c.plan.incoming@[k]@,
        ) by {
            assert(s.activated[k]);
        }
        assert(s2.edges == s.edges && s2.activated == s.activated);
    }
}

/// A resolution step keeps the invariant, uses no budget and starts nothing.
pub proof fn lemma_resolve(c: Ctx, s: RunState)
    requires
        ctx_wf(c),
        run_inv(c, s),
    ensures
        run_inv(c, resolve_state(c, s).0),
        resolve_state(c, s).0.steps_used == s.steps_used,
        resolve_state(c, s).0.counts == s.counts,
{
    c.plan.lemma_bounds();
    match s.phase {
        PhaseView::Resolve(wl, cur) => {
            if wl.len() > 0 {
                let nid = wl[0].0;
                let out = wl[0].1;
                assert(nid < node_count(c));
                let outs = c.plan.outgoing@[nid as int]@;
                if cur < outs.len() {
                    let e = outs[cur];
                    assert(e < edge_count(c));
                    match out {
                        None => lemma_apply(c, s, wl, cur + 1, nid, out, e, false, false),
                        Some(o) => {
                            let edge = c.plan.graph.edges@[e as int];
                            match condition_result(edge, o) {
                                ConditionResult::Holds(b) => lemma_apply(c, s, wl, cur + 1, nid, out, e, b != edge.negate, false),
                                ConditionResult::AskJudge => {},
                                ConditionResult::Failed(f) => {
                                    let s1 = RunState {
                                        error: if s.error is None {
                                            Some(RunErrorView::ConditionFailed(e, f))
                                        } else {
                                            s.error
                                        },
                                        ..s
                                    };
                                    assert forall|k: int| 0 <= k < node_count(c) && #[trigger] s1.activated[k] implies all_resolved(
                                        c, s1.edges, c.plan.incoming@[k]@) by {
                                        assert(s.activated[k]);
                                    }
                                    lemma_apply(c, s1, wl, cur + 1, nid, out, e, false, false);
                                },
                            }
                        },
                    }
                } else {
                    let wl2 = wl.drop_first();
                    assert forall|j: int| 0 <= j < wl2.len() implies (#[trigger] wl2[j]).0 < node_count(c) by {
                        assert(wl2[j] == wl[j + 1]);
                    }
                    let s2 = resolve_state(c, s).0;
                    assert forall|k: int| 0 <= k < node_count(c) && #[trigger] s2.activated[k] implies all_resolved(
                        c, s2.edges, c.plan.incoming@[k]@) by {
                        assert(s.activated[k]);
                    }
                }
            } else {
                let s2 = resolve_state(c, s).0;
                assert forall|k: int| 0 <= k < node_count(c) && #[trigger] s2.activated[k] implies all_resolved(
                    c, s2.edges, c.plan.incoming@[k]@) by {
                    assert(s.activated[k]);
                }
            }
        },
        _ => {},
    }
}

/// Taking in the judge's answer keeps the invariant, uses no budget and
/// starts nothing.
pub proof fn lemma_judged(c: Ctx, s: RunState, reply: Result<Seq<char>, Seq<char>>)
    requires
        ctx_wf(c),
        run_inv(c, s),
    ensures
        run_inv(c, judged_state(c, s, reply).0),
        judged_state(c, s, reply).0.steps_used == s.steps_used,
        judged_state(c, s, reply).0.counts == s.counts,
{
    match s.phase {
        PhaseView::Judge(wl, cur, e) => {
            let nid = wl[0].0;
            let out = wl[0].1;
            let edge = c.plan.graph.edges@[e as int];
            match reply {
                Ok(text) => lemma_apply(c, s, wl, cur + 1, nid, out, e, verdict_of(uppercase(text)) != edge.negate, false),
                Err(why) => {
                    let s1 = RunState {
                        error: if s.error is None {
                            Some(RunErrorView::ConditionFailed(e, ConditionFailure::JudgeFailed(why)))
                        } else {
                            s.error
                        },
                        ..s
                    };
                    assert forall|k: int| 0 <= k < node_count(c) && #[trigger] s1.activated[k] implies all_resolved(
                        c, s1.edges, c.plan.incoming@[k]@) by {
                        assert(s.activated[k]);
                    }
                    lemma_apply(c, s1, wl, cur + 1, nid, out, e, false, false);
                },
            }
        },
        _ => {},
    }
}

/// A finished activation keeps the invariant, uses no budget and starts
/// nothing.
pub proof fn lemma_finished(c: Ctx, s: RunState, node: usize, result: Result<Seq<char>, Seq<char>>)
    requires
        ctx_wf(c),
        run_inv(c, s),
    ensures
        run_inv(c, finished_state(c, s, node, result)),
        finished_state(c, s, node, result).steps_used == s.steps_used,
        finished_state(c, s, node, result).counts == s.counts,
{
    let s2 = finished_state(c, s, node, result);
    assert forall|k: int| 0 <= k < node_count(c) && #[trigger] s2.activated[k] implies all_resolved(
        c, s2.edges, c.plan.incoming@[k]@) by {
        assert(s.activated[k]);
    }
}

pub proof fn lemma_first_pending(c: Ctx, s: RunState, n: int)
    requires
        edge_count(c) <= usize::MAX,
    ensures
        first_pending(c, s, n) matches Some(e) ==> e < n && pending_edge(c, s, e as int)
            && forall|d: int| 0 <= d < e ==> !pending_edge(c, s, d),
        first_pending(c, s, n) is None ==> forall|d: int| 0 <= d < n ==> !pending_edge(c, s, d),
    decreases n,
{
    if n > 0 {
        lemma_first_pending(c, s, n - 1);
    }
}

/// Settling keeps the invariant and uses no budget; the edge it settles is
/// the first pending one, and it is resolved silent.
pub proof fn lemma_settle(c: Ctx, s: RunState)
    requires
        ctx_wf(c),
        run_inv(c, s),
    ensures
        run_inv(c, settle_state(c, s).0),
        settle_state(c, s).0.steps_used == s.steps_used,
        settle_state(c, s).0.counts == s.counts,
        settle_edge(c, s) matches Some(e) ==> {
            &&& pending_edge(c, s, e as int)
            &&& forall|d: int| 0 <= d < e ==> !pending_edge(c, s, d)
            &&& settle_state(c, s).0.edges[c.plan.edge_key@[e as int] as int] == Some(None::<Seq<char>>)
        },
{
    c.plan.lemma_bounds();
    lemma_first_pending(c, s, edge_count(c) as int);
    match settle_edge(c, s) {
        Some(e) => {
            assert(c.plan.src@[e as int] < node_count(c));
            lemma_apply(c, s, Seq::empty(), 0, c.plan.src@[e as int], None, e, false, true);
        },
        None => {},
    }
}

/// A quiescent run that has not failed has no pending edge left once it
/// cannot settle any more: every forward edge out of a node that has had its
/// first activation is resolved.
pub proof fn lemma_quiescent_settled(c: Ctx, s: RunState)
    requires
        ctx_wf(c),
        run_inv(c, s),
        s.phase is Wait,
        s.running == 0,
        s.error is None,
        s.queue.len() == 0,
        settle_edge(c, s) is None,
    ensures
        forall|e: int|
            0 <= e < edge_count(c) && !c.plan.back@[e] && s.activated[c.plan.src@[e] as int] ==> (#[trigger] s.edges[c.plan.edge_key@[e] as int]) is Some,
{
    c.plan.lemma_bounds();
    lemma_first_pending(c, s, edge_count(c) as int);
    assert forall|e: int|
        0 <= e < edge_count(c) && !c.plan.back@[e] && s.activated[c.plan.src@[e] as int] implies (#[trigger] s.edges[c.plan.edge_key@[e] as int]) is Some by {
        assert(!pending_edge(c, s, e));
    }
}

// ---------------------------------------------------------------- a clean end

/// The first unresolved forward input of node `k`.
pub open spec fn awaited_edge(c: Ctx, s: RunState, k: int) -> usize {
    let list = c.plan.incoming@[k]@;
    list[choose|j: int| 0 <= j < list.len() && !(#[trigger] s.edges[c.plan.edge_key@[list[j] as int] as int] is Some)]
}

/// Going back `i` times from node `k` along awaited inputs.
pub open spec fn waiting_chain(c: Ctx, s: RunState, k: int, i: nat) -> int
    decreases i,
{
    if i == 0 {
        k
    } else {
        c.plan.src@[awaited_edge(c, s, waiting_chain(c, s, k, (i - 1) as nat)) as int] as int
    }
}

pub open spec fn quiet_and_settled(c: Ctx, s: RunState) -> bool {
    &&& s.phase is Wait
    &&& s.running == 0
    &&& s.error is None
    &&& s.queue.len() == 0
    &&& settle_edge(c, s) is None
}

/// Along a quiet, settled run, each node on the chain back from a waiting
/// node waits too, and is reached from the next one by the edge it awaits.
proof fn lemma_waiting_chain(c: Ctx, s: RunState, k: int, i: nat)
    requires
        ctx_wf(c),
        run_inv(c, s),
        keys_distinct(c),
        quiet_and_settled(c, s),
        0 <= k < node_count(c),
        !s.activated[k],
    ensures
        0 <= waiting_chain(c, s, k, i) < node_count(c),
        !s.activated[waiting_chain(c, s, k, i)],
        ({
            let p = waiting_chain(c, s, k, i);
            let e = awaited_edge(c, s, p) as int;
            &&& 0 <= e < edge_count(c)
            &&& !c.plan.back@[e]
            &&& c.plan.tgt@[e] == p
            &&& c.plan.src@[e] == waiting_chain(c, s, k, i + 1)
        }),
        0 <= waiting_chain(c, s, k, i + 1) < node_count(c),
        !s.activated[waiting_chain(c, s, k, i + 1)],
    decreases i,
{
    c.plan.lemma_bounds();
    lemma_first_pending(c, s, edge_count(c) as int);
    if i > 0 {
        lemma_waiting_chain(c, s, k, (i - 1) as nat);
        assert(((i - 1) as nat + 1) as nat == i);
    }
    let p = waiting_chain(c, s, k, i);
    assert(0 <= p < node_count(c));
    assert(!s.activated[p]);
    let list = c.plan.incoming@[p]@;
    assert(!all_resolved(c, s.edges, list));
    let j = choose|j: int| 0 <= j < list.len() && !(#[trigger] s.edges[c.plan.edge_key@[list[j] as int] as int] is Some);
    let e = awaited_edge(c, s, p) as int;
    assert(0 <= e < edge_count(c));
    assert(c.plan.tgt@[e] == p);
    assert(!c.plan.back@[e]);
    assert(c.plan.edge_key@[e] == e);
    assert(s.edges[e] is None);
    assert(waiting_chain(c, s, k, i + 1) == c.plan.src@[e] as int);
    let q = c.plan.src@[e] as int;
    assert(0 <= q < node_count(c));
    if s.activated[q] {
        assert(pending_edge(c, s, e));
    }
}

/// Among `n + 1` values below `n`, two are equal.
proof fn lemma_pigeonhole(f: spec_fn(int) -> int, n: int)
    requires
        n >= 0,
        forall|i: int| 0 <= i <= n ==> 0 <= #[trigger] f(i) < n,
    ensures
        exists|i: int, j: int| 0 <= i < j <= n && #[trigger] f(i) == #[trigger] f(j),
    decreases n,
{
    if n == 0 {
        let v = f(0);
        assert(0 <= v < n);
    } else if exists|i: int| 0 <= i < n && #[trigger] f(i) == f(n) {
        let i = choose|i: int| 0 <= i < n && #[trigger] f(i) == f(n);
        assert(0 <= i < n && f(i) == f(n));
    } else {
        let g = |i: int| if f(i) == n - 1 { f(n) } else { f(i) };
        assert forall|i: int| 0 <= i <= n - 1 implies 0 <= #[trigger] g(i) < n - 1 by {
            assert(0 <= f(i) < n);
            assert(0 <= f(n) < n);
            if f(n) == n - 1 {
                assert(f(i) != f(n));
            }
        }
        lemma_pigeonhole(g, n - 1);
        let (i, j) = choose|i: int, j: int| 0 <= i < j <= n - 1 && #[trigger] g(i) == #[trigger] g(j);
        assert(f(i) != f(n) && f(j) != f(n));
        assert(f(i) == f(j));
    }
}

/// A run that has gone quiet without failing and has no pending edge left to
/// settle leaves no node waiting: every node has had its first activation
/// (it ran, or it was skipped because none of its inputs fired). This holds
/// for graphs whose node ids and edge ids are distinct.
pub proof fn lemma_clean_end_all_activated(c: Ctx, s: RunState)
    requires
        ctx_wf(c),
        run_inv(c, s),
        ids_distinct(&c.plan.graph),
        quiet_and_settled(c, s),
    ensures
        forall|k: int| 0 <= k < node_count(c) ==> #[trigger] s.activated[k],
{
    c.plan.lemma_bounds();
    c.plan.lemma_distinct_ids_keys();
    assert(keys_distinct(c));
    let g = &c.plan.graph;
    let n = node_count(c) as int;
    assert forall|k: int| 0 <= k < n implies #[trigger] s.activated[k] by {
        if !s.activated[k] {
            let f = |i: int| waiting_chain(c, s, k, i as nat);
            assert forall|i: int| 0 <= i <= n implies 0 <= #[trigger] f(i) < n by {
                lemma_waiting_chain(c, s, k, i as nat);
            }
            lemma_pigeonhole(f, n);
            let (i, j) = choose|i: int, j: int| 0 <= i < j <= n && #[trigger] f(i) == #[trigger] f(j);
            // the awaited edges from chain node j down to chain node i form a
            // forward walk that returns to where it started
            let w = Seq::new((j - i) as nat, |t: int| awaited_edge(c, s, waiting_chain(c, s, k, (j - t - 1) as nat)) as int);
            assert forall|t: int| 0 <= t < w.len() implies 0 <= #[trigger] w[t] < g.edges@.len() && !is_loop_edge(g, w[t]) by {
                lemma_waiting_chain(c, s, k, (j - t - 1) as nat);
            }
            assert forall|t: int| 0 <= t < w.len() - 1 implies g.edges@[#[trigger] w[t]].target@ == g.edges@[w[t + 1]].source@ by {
                lemma_waiting_chain(c, s, k, (j - t - 1) as nat);
                lemma_waiting_chain(c, s, k, (j - t - 2) as nat);
                assert((j - t - 2 + 1) as nat == (j - t - 1) as nat);
                let e1 = w[t];
                let e2 = w[t + 1];
                assert(Some(c.plan.tgt@[e1] as int) == edge_target_key(g, e1));
                assert(Some(c.plan.src@[e2] as int) == edge_source_key(g, e2));
                lemma_same_key_same_id(g, g.edges@[e1].target@, g.edges@[e2].source@);
            }
            assert(kept_walk(g, w));
            lemma_forward_graph_acyclic(g, w);
            lemma_waiting_chain(c, s, k, i as nat);
            lemma_waiting_chain(c, s, k, (j - 1) as nat);
            assert((j - 1 + 1) as nat == j as nat);
            let first = w[0];
            let last = w[w.len() - 1];
            assert(last == awaited_edge(c, s, waiting_chain(c, s, k, i as nat)) as int);
            assert(Some(c.plan.tgt@[last] as int) == edge_target_key(g, last));
            assert(Some(c.plan.src@[first] as int) == edge_source_key(g, first));
            lemma_same_key_same_id(g, g.edges@[last].target@, g.edges@[first].source@);
        }
    }
}

} // verus!
