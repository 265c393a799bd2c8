//! A workflow run in progress: the executable form of the machine in
//! `engine`, whose every step is the step that module specifies.
use vstd::prelude::*;
use crate::models::{Graph};
use crate::plan::{RunPlan, ids_distinct};
use crate::graph::positions;
use crate::engine::{finished_state, resolve_state, judged_state, apply_resolution, all_resolved, fired_sections, heading_of, payload, lemma_finished, lemma_resolve, lemma_judged, Ctx, RunState, RunError, Phase, PhaseView, Step, StartOrder, Queued, DispatchAcc, ctx_wf, run_inv, settle_edge, settle_state, first_pending, pending_edge, lemma_settle, lemma_first_pending, quiet_and_settled, lemma_clean_end_all_activated, seed_state, is_source, dispatch_state, dispatch_from, dispatch_one, budget, node_count, opt_text_view, edge_count, opt_err_view, resolution_view, queued_view, work_view, lemma_seed, lemma_dispatch, acc_inv};
use crate::condition::{Evaluation, evaluate_condition, judge_request, judged};
use crate::input::{make_heading, is_file_kind, file_kind, sections_view, rendered_input, render_input, seed_sections, make_seed_sections, file_display, file_display_name, agent_display, agent_display_name};
use crate::text::{text_to_string, push_text, push_decimal, decimal};
use crate::models::DEFAULT_MAX_STEPS;

verus! {

pub open spec fn texts_view(v: Seq<String>) -> Seq<Seq<char>> {
    v.map_values(|s: String| s@)
}

pub open spec fn edges_view(v: Seq<Option<Option<String>>>) -> Seq<Option<Option<Seq<char>>>> {
    v.map_values(|x: Option<Option<String>>| resolution_view(x))
}

pub open spec fn queue_view(v: Seq<Queued>) -> Seq<(usize, Seq<(Seq<char>, Seq<char>)>)> {
    v.map_values(|a: Queued| queued_view(a))
}

pub open spec fn worklist_view(v: Seq<(usize, Option<String>)>) -> Seq<(usize, Option<Seq<char>>)> {
    v.map_values(|w: (usize, Option<String>)| work_view(w))
}

pub open spec fn phase_view(p: Phase) -> PhaseView {
    match p {
        Phase::Dispatch => PhaseView::Dispatch,
        Phase::Wait => PhaseView::Wait,
        Phase::Resolve { worklist, cursor } => PhaseView::Resolve(worklist_view(worklist@), cursor as int),
        Phase::Judge { worklist, cursor, edge } => PhaseView::Judge(worklist_view(worklist@), cursor as int, edge),
    }
}

/// The card name given for a declared node position, if any.
pub open spec fn card_name_at(card_names: Seq<Option<String>>, p: int) -> Option<Seq<char>> {
    if 0 <= p < card_names.len() {
        match card_names[p] {
            Some(s) => Some(s@),
            None => None,
        }
    } else {
        None
    }
}

/// What the caller is to do next.
#[derive(PartialEq, Eq, Structural, Clone, Copy, Debug)]
pub enum NextAction {
    /// Call `dispatch` (checking for cancellation first).
    Dispatch,
    /// Wait for a running activation and report it with `node_finished`.
    Wait,
    /// Call `resolve_step`.
    Resolve,
    /// Answer the judge question with `judged`.
    Judge,
    /// The run went quiescent with an edge still pending: call `settle`.
    Settle,
    /// Nothing is running and nothing is left: call `finish`.
    Done,
}

pub open spec fn next_action_of(c: Ctx, s: RunState) -> NextAction {
    match s.phase {
        PhaseView::Dispatch => NextAction::Dispatch,
        PhaseView::Wait => if s.running != 0 {
            NextAction::Wait
        } else if settle_edge(c, s) is Some {
            NextAction::Settle
        } else {
            NextAction::Done
        },
        PhaseView::Resolve(_, _) => NextAction::Resolve,
        PhaseView::Judge(_, _, _) => NextAction::Judge,
    }
}

/// A workflow run: the graph's plan, how its nodes are named, its loop budget,
/// and where the run stands.
#[derive(Debug)]
pub struct Execution {
    plan: RunPlan,
    is_file: Vec<bool>,
    file_names: Vec<String>,
    labels: Vec<String>,
    max_steps: u32,
    edges: Vec<Option<Option<String>>>,
    activated: Vec<bool>,
    counts: Vec<u32>,
    busy: Vec<bool>,
    queue: Vec<Queued>,
    steps_used: u32,
    error: Option<RunError>,
    running: u32,
    phase: Phase,
}

impl Execution {
    pub closed spec fn ctx(&self) -> Ctx {
        Ctx {
            plan: self.plan,
            is_file: self.is_file@,
            file_names: texts_view(self.file_names@),
            labels: texts_view(self.labels@),
            max_steps: self.max_steps,
        }
    }

    pub closed spec fn state(&self) -> RunState {
        RunState {
            edges: edges_view(self.edges@),
            activated: self.activated@,
            counts: self.counts@,
            busy: self.busy@,
            queue: queue_view(self.queue@),
            steps_used: self.steps_used,
            error: opt_err_view(self.error),
            running: self.running,
            phase: phase_view(self.phase),
        }
    }

    /// The run's invariant (see `engine::run_inv`).
    pub closed spec fn inv(&self) -> bool {
        ctx_wf(self.ctx()) && run_inv(self.ctx(), self.state())
    }

    /// What a run's invariant gives its callers: the run's description is
    /// well formed, `engine::run_inv` holds of its state, and so the loop
    /// budget is never exceeded and no node has more activations than steps
    /// were used.
    pub proof fn lemma_inv(&self)
        requires
            self.inv(),
        ensures
            ctx_wf(self.ctx()),
            run_inv(self.ctx(), self.state()),
            self.state().steps_used <= budget(self.ctx().max_steps),
            forall|k: int| 0 <= k < node_count(self.ctx()) ==> #[trigger] self.state().counts[k] <= self.state().steps_used,
    {
    }

    /// The sizes the run's parts agree on.
    closed spec fn shape(&self) -> bool {
        &&& ctx_wf(self.ctx())
        &&& self.state().edges.len() == edge_count(self.ctx())
        &&& self.state().activated.len() == node_count(self.ctx())
    }

    /// Starts a run of a planned graph: every source node is queued with the
    /// workflow input. `card_names[p]` is the name of the agent card of the
    /// node declared at position `p`, if it could be found; a node is named by
    /// the last node declared with its id.
    pub fn start(plan: RunPlan, card_names: &Vec<Option<String>>, max_steps: u32, input: &str) -> (x: Execution)
        requires
            plan.wf(),
        ensures
            x.inv(),
            x.ctx().plan == plan,
            x.ctx().max_steps == max_steps,
            forall|k: int| 0 <= k < plan.keys@.len() ==> {
                let node = #[trigger] plan.graph.nodes@[plan.data_pos@[k] as int];
                let file = is_file_kind(node.kind@);
                &&& x.ctx().is_file[k] == file
                &&& x.ctx().file_names[k] == file_display(node.file_path@)
                &&& x.ctx().labels[k] == agent_display(file, node.file_path@, node.id@, card_name_at(card_names@, plan.data_pos@[k] as int))
            },
            x.state() == seed_state(x.ctx(), input@),
    {
        proof {
            plan.lemma_bounds();
        }
        let n = plan.keys.len();
        let mut is_file: Vec<bool> = Vec::new();
        let mut file_names: Vec<String> = Vec::new();
        let mut labels: Vec<String> = Vec::new();
        let mut k: usize = 0;
        while k < n
            invariant
                plan.wf(),
                n == plan.keys@.len(),
                n == plan.data_pos@.len(),
                forall|u: int| 0 <= u < plan.data_pos@.len() ==> #[trigger] plan.data_pos@[u] < plan.keys@.len(),
                plan.keys@.len() == plan.graph.nodes@.len(),
                k <= n,
                is_file@.len() == k,
                file_names@.len() == k,
                labels@.len() == k,
                forall|j: int| 0 <= j < k ==> {
                    let node = #[trigger] plan.graph.nodes@[plan.data_pos@[j] as int];
                    let file = is_file_kind(node.kind@);
                    &&& is_file@[j] == file
                    &&& file_names@[j]@ == file_display(node.file_path@)
                    &&& labels@[j]@ == agent_display(file, node.file_path@, node.id@, card_name_at(card_names@, plan.data_pos@[j] as int))
                },
            decreases n - k,
        {
            let p = plan.data_pos[k];
            let node = &plan.graph.nodes[p];
            let file = file_kind(node.kind.as_str());
            let card: Option<String> = if p < card_names.len() {
                match &card_names[p] {
                    Some(s) => Some(text_to_string(s.as_str())),
                    None => None,
                }
            } else {
                None
            };
            is_file.push(file);
            file_names.push(file_display_name(node.file_path.as_str()));
            labels.push(agent_display_name(file, node.file_path.as_str(), node.id.as_str(), &card));
            k = k + 1;
        }
        let ne = plan.src.len();
        let mut edges: Vec<Option<Option<String>>> = Vec::new();
        let mut e: usize = 0;
        while e < ne
            invariant
                e <= ne,
                edges@.len() == e,
                forall|j: int| 0 <= j < e ==> #[trigger] edges@[j] is None,
            decreases ne - e,
        {
            edges.push(None);
            e = e + 1;
        }
        let mut activated: Vec<bool> = Vec::new();
        let mut counts: Vec<u32> = Vec::new();
        let mut busy: Vec<bool> = Vec::new();
        let mut queue: Vec<Queued> = Vec::new();
        let ghost c = Ctx {
            plan: plan,
            is_file: is_file@,
            file_names: texts_view(file_names@),
            labels: texts_view(labels@),
            max_steps: max_steps,
        };
        let ghost pred = |p: int| c.plan.incoming@[c.plan.keys@[p] as int]@.len() == 0;
        let ghost mk = |p: int| (c.plan.keys@[p], seed_sections(input@));
        let mut k: usize = 0;
        while k < n
            invariant
                c.plan == plan,
                plan.wf(),
                n == plan.keys@.len(),
                n == plan.incoming@.len(),
                forall|u: int| 0 <= u < plan.keys@.len() ==> #[trigger] plan.keys@[u] < plan.keys@.len(),
                k <= n,
                activated@.len() == k,
                counts@.len() == k,
                busy@.len() == k,
                forall|j: int| 0 <= j < k ==> #[trigger] activated@[j] == is_source(c, j),
                forall|j: int| 0 <= j < k ==> #[trigger] counts@[j] == 0u32,
                forall|j: int| 0 <= j < k ==> #[trigger] busy@[j] == false,
                pred == (|p: int| c.plan.incoming@[c.plan.keys@[p] as int]@.len() == 0),
                mk == (|p: int| (c.plan.keys@[p], seed_sections(input@))),
                queue_view(queue@) == positions(k as nat).filter(pred).map_values(mk),
            decreases n - k,
        {
            activated.push(plan.keys[k] == k && plan.incoming[k].len() == 0);
            counts.push(0);
            busy.push(false);
            let key = plan.keys[k];
            proof {
                assert(positions((k + 1) as nat) =~= positions(k as nat).push(k as int));
                positions(k as nat).lemma_filter_push(k as int, pred);
            }
            if plan.incoming[key].len() == 0 {
                let secs = make_seed_sections(input);
                let ghost before = queue@;
                queue.push((key, secs));
                proof {
                    let f = positions(k as nat).filter(pred);
                    assert(queue_view(queue@) =~= queue_view(before).push(queued_view((key, secs))));
                    assert(f.push(k as int).map_values(mk) =~= f.map_values(mk).push(mk(k as int)));
                }
            }
            k = k + 1;
        }
        let x = Execution {
            plan,
            is_file,
            file_names,
            labels,
            max_steps,
            edges,
            activated,
            counts,
            busy,
            queue,
            steps_used: 0,
            error: None,
            running: 0,
            phase: Phase::Dispatch,
        };
        proof {
            assert(x.ctx() == c);
            let s = seed_state(c, input@);
            assert(x.state().edges =~= s.edges);
            assert(x.state().activated =~= s.activated);
            assert(x.state().counts =~= s.counts);
            assert(x.state().busy =~= s.busy);
            assert(positions(n as nat) == positions(node_count(c)));
            assert(x.state().queue =~= s.queue);
            assert(x.state() == s);
            lemma_seed(c, input@);
        }
        x
    }

    /// What the caller is to do next.
    pub fn next_action(&self) -> (r: NextAction)
        requires
            self.inv(),
        ensures
            r == next_action_of(self.ctx(), self.state()),
    {
        match &self.phase {
            Phase::Dispatch => NextAction::Dispatch,
            Phase::Wait => if self.running != 0 {
                NextAction::Wait
            } else if self.edge_to_settle().is_some() {
                NextAction::Settle
            } else {
                NextAction::Done
            },
            Phase::Resolve { .. } => NextAction::Resolve,
            Phase::Judge { .. } => NextAction::Judge,
        }
    }

    /// The edge a quiescent run settles next (see `engine::settle_edge`).
    fn edge_to_settle(&self) -> (r: Option<usize>)
        requires
            self.inv(),
        ensures
            r == settle_edge(self.ctx(), self.state()),
    {
        proof {
            self.plan.lemma_bounds();
        }
        let quiet = match self.phase {
            Phase::Wait => true,
            _ => false,
        };
        if !quiet || self.running != 0 || self.error.is_some() || self.queue.len() != 0 {
            return None;
        }
        let ghost c = self.ctx();
        let ghost s = self.state();
        let n = self.plan.src.len();
        let mut e: usize = 0;
        while e < n
            invariant
                c == self.ctx(),
                s == self.state(),
                self.inv(),
                n == edge_count(c),
                e <= n,
                s.phase is Wait && s.running == 0 && s.error is None && s.queue.len() == 0,
                first_pending(c, s, e as int) is None,
            decreases n - e,
        {
            proof {
                self.plan.lemma_bounds();
                assert(s.edges[c.plan.edge_key@[e as int] as int] == resolution_view(self.edges@[c.plan.edge_key@[e as int] as int]));
            }
            let src = self.plan.src[e];
            if !self.plan.back[e] && self.edges[self.plan.edge_key[e]].is_none() && self.activated[src] {
                proof {
                    assert(pending_edge(c, s, e as int));
                    lemma_first_pending(c, s, n as int);
                    lemma_first_pending(c, s, e as int);
                }
                return Some(e);
            }
            e = e + 1;
        }
        None
    }

    /// Settles the first pending edge of a quiescent run as silent (see
    /// `engine::settle_state`); `Idle` when there is none.
    pub fn settle(&mut self) -> (step: Step)
        requires
            old(self).inv(),
        ensures
            final(self).inv(),
            final(self).ctx() == old(self).ctx(),
            (final(self).state(), step.view()) == settle_state(old(self).ctx(), old(self).state()),
    {
        proof {
            lemma_settle(self.ctx(), self.state());
            self.plan.lemma_bounds();
        }
        match self.edge_to_settle() {
            Some(e) => {
                let src = self.plan.src[e];
                let wl: Vec<(usize, Option<String>)> = Vec::new();
                proof {
                    assert(worklist_view(wl@) =~= Seq::empty());
                }
                self.apply(wl, 0, src, None, e, false, true)
            },
            None => Step::Idle,
        }
    }
}

pub open spec fn orders_view(v: Seq<StartOrder>) -> Seq<(usize, u32, Seq<char>)> {
    v.map_values(|o: StartOrder| (o.node, o.activation, o.input@))
}

impl Execution {
    /// The top of the run loop: `canceled` tells whether the run was asked to
    /// stop. Returns the activations to start now, in order.
    pub fn dispatch(&mut self, canceled: bool) -> (orders: Vec<StartOrder>)
        requires
            old(self).inv(),
        ensures
            final(self).inv(),
            final(self).ctx() == old(self).ctx(),
            (final(self).state(), orders_view(orders@)) == dispatch_state(old(self).ctx(), old(self).state(), canceled),
    {
        let ghost c = self.ctx();
        let ghost s0 = self.state();
        proof {
            lemma_dispatch(c, s0, canceled);
        }
        let mut orders: Vec<StartOrder> = Vec::new();
        match self.phase {
            Phase::Dispatch => {},
            _ => {
                assert(orders_view(orders@) =~= Seq::empty());
                return orders;
            },
        }
        if canceled && self.error.is_none() {
            self.error = Some(RunError::Canceled);
        }
        if self.error.is_some() {
            self.phase = Phase::Wait;
            proof {
                assert(orders_view(orders@) =~= Seq::empty());
                assert(self.state() == dispatch_state(c, s0, canceled).0);
            }
            return orders;
        }
        let limit: u32 = if self.max_steps == 0 { DEFAULT_MAX_STEPS } else { self.max_steps };
        let mut rest: Vec<Queued> = Vec::new();
        std::mem::swap(&mut self.queue, &mut rest);
        let mut deferred: Vec<Queued> = Vec::new();
        let mut stopped = false;
        let ghost q0 = s0.queue;
        let ghost acc0 = DispatchAcc {
            counts: s0.counts,
            busy: s0.busy,
            steps_used: s0.steps_used,
            running: s0.running,
            deferred: Seq::empty(),
            started: Seq::empty(),
            error: None,
            stopped: false,
        };
        let ghost mut i: int = 0;
        proof {
            assert(queue_view(rest@) =~= q0.subrange(0, q0.len() as int));
            assert(queue_view(deferred@) =~= Seq::empty());
            assert(orders_view(orders@) =~= Seq::empty());
            let acc = DispatchAcc {
                counts: self.counts@,
                busy: self.busy@,
                steps_used: self.steps_used,
                running: self.running,
                deferred: queue_view(deferred@),
                started: orders_view(orders@),
                error: opt_err_view(self.error),
                stopped,
            };
            assert(acc == acc0);
        }
        while rest.len() > 0 && !stopped
            invariant
                c == self.ctx(),
                ctx_wf(c),
                run_inv(c, s0),
                limit == budget(c.max_steps),
                q0 == s0.queue,
                0 <= i <= q0.len(),
                queue_view(rest@) == q0.subrange(i, q0.len() as int),
                ({
                    let acc = DispatchAcc {
                        counts: self.counts@,
                        busy: self.busy@,
                        steps_used: self.steps_used,
                        running: self.running,
                        deferred: queue_view(deferred@),
                        started: orders_view(orders@),
                        error: opt_err_view(self.error),
                        stopped,
                    };
                    &&& dispatch_from(limit, q0, i, acc) == dispatch_from(limit, q0, 0, acc0)
                    &&& acc_inv(c, s0, acc)
                }),
                self.edges@ == old(self).edges@,
                self.activated@ == old(self).activated@,
                self.plan == old(self).plan,
                self.is_file@ == old(self).is_file@,
                self.file_names@ == old(self).file_names@,
                self.labels@ == old(self).labels@,
                self.max_steps == old(self).max_steps,
                self.queue@.len() == 0,
                self.phase == old(self).phase,
                self.phase is Dispatch,
            decreases rest.len(),
        {
            let ghost acc = DispatchAcc {
                counts: self.counts@,
                busy: self.busy@,
                steps_used: self.steps_used,
                running: self.running,
                deferred: queue_view(deferred@),
                started: orders_view(orders@),
                error: opt_err_view(self.error),
                stopped,
            };
            let ghost r0 = rest@;
            proof {
                assert(queue_view(r0).len() == r0.len());
                assert(queue_view(r0)[0] == q0.subrange(i, q0.len() as int)[0]);
            }
            let a = rest.remove(0);
            proof {
                assert(a == r0[0]);
                assert(q0[i] == queued_view(a));
                assert forall|j: int| 0 <= j < rest@.len() implies queue_view(rest@)[j] == q0.subrange(i + 1, q0.len() as int)[j] by {
                    assert(rest@[j] == r0[j + 1]);
                    assert(queue_view(r0)[j + 1] == q0.subrange(i, q0.len() as int)[j + 1]);
                }
                assert(queue_view(rest@) =~= q0.subrange(i + 1, q0.len() as int));
                assert(a.0 < node_count(c));
            }
            let node = a.0;
            if self.busy[node] {
                let ghost d0 = deferred@;
                deferred.push(a);
                proof {
                    assert(queue_view(deferred@) =~= queue_view(d0).push(queued_view(a)));
                }
            } else if self.steps_used >= limit {
                self.error = Some(RunError::BudgetExhausted { max_steps: limit });
                stopped = true;
            } else {
                let count = self.counts[node] + 1;
                self.counts.set(node, count);
                self.busy.set(node, true);
                self.steps_used = self.steps_used + 1;
                self.running = self.running + 1;
                let text = render_input(&a.1);
                let ghost o0 = orders@;
                orders.push(StartOrder { node, activation: count, input: text });
                proof {
                    assert(orders_view(orders@) =~= orders_view(o0).push((node, count, rendered_input(sections_view(a.1@)))));
                }
            }
            proof {
                let acc2 = DispatchAcc {
                    counts: self.counts@,
                    busy: self.busy@,
                    steps_used: self.steps_used,
                    running: self.running,
                    deferred: queue_view(deferred@),
                    started: orders_view(orders@),
                    error: opt_err_view(self.error),
                    stopped,
                };
                assert(acc2 == dispatch_one(limit, acc, q0[i]));
                assert(dispatch_from(limit, q0, i, acc) == dispatch_from(limit, q0, i + 1, acc2));
                i = i + 1;
            }
        }
        self.queue = deferred;
        self.phase = Phase::Wait;
        proof {
            let acc = DispatchAcc {
                counts: self.counts@,
                busy: self.busy@,
                steps_used: self.steps_used,
                running: self.running,
                deferred: queue_view(self.queue@),
                started: orders_view(orders@),
                error: opt_err_view(self.error),
                stopped,
            };
            assert(dispatch_from(limit, q0, i, acc) == acc);
            assert(self.ctx() == c);
            assert(self.state() == dispatch_state(c, s0, canceled).0);
        }
        orders
    }
}

pub open spec fn result_view(r: Result<String, String>) -> Result<Seq<char>, Seq<char>> {
    match r {
        Ok(s) => Ok(s@),
        Err(s) => Err(s@),
    }
}

fn clone_text(s: &Option<String>) -> (r: Option<String>)
    ensures
        r == *s,
{
    match s {
        Some(t) => Some(t.clone()),
        None => None,
    }
}

impl Execution {
    /// A running activation of `node` finished: `Ok` with its output, or `Err`
    /// with why it failed. Returns whether the report was taken (the machine
    /// was waiting and `node` was running); otherwise nothing changes.
    pub fn node_finished(&mut self, node: usize, result: Result<String, String>) -> (taken: bool)
        requires
            old(self).inv(),
        ensures
            final(self).inv(),
            final(self).ctx() == old(self).ctx(),
            final(self).state() == finished_state(old(self).ctx(), old(self).state(), node, result_view(result)),
            taken == (final(self).state() != old(self).state() || (old(self).state().phase is Wait && node < node_count(old(self).ctx())
                && old(self).state().busy[node as int] && old(self).state().running > 0)),
    {
        proof {
            lemma_finished(self.ctx(), self.state(), node, result_view(result));
        }
        let ok = match self.phase {
            Phase::Wait => node < self.busy.len() && self.busy[node] && self.running > 0,
            _ => false,
        };
        if !ok {
            return false;
        }
        self.running = self.running - 1;
        self.busy.set(node, false);
        match result {
            Ok(out) => {
                let mut wl: Vec<(usize, Option<String>)> = Vec::new();
                wl.push((node, Some(out)));
                self.phase = Phase::Resolve { worklist: wl, cursor: 0 };
                proof {
                    assert(worklist_view(wl@) =~= seq![(node, Some(out@))]);
                }
            },
            Err(why) => {
                if self.error.is_none() {
                    self.error = Some(RunError::NodeFailed { node, detail: why });
                }
                self.phase = Phase::Dispatch;
            },
        }
        true
    }

    fn heading_for(&self, k: usize, via_loop: bool) -> (r: String)
        requires
            self.shape(),
            k < node_count(self.ctx()),
        ensures
            r@ == heading_of(self.ctx(), k, via_loop),
    {
        make_heading(self.is_file[k], self.file_names[k].as_str(), self.labels[k].as_str(), via_loop)
    }

    fn incoming_resolved(&self, t: usize) -> (r: bool)
        requires
            self.shape(),
            t < node_count(self.ctx()),
        ensures
            r == all_resolved(self.ctx(), self.state().edges, self.ctx().plan.incoming@[t as int]@),
    {
        proof {
            self.plan.lemma_bounds();
        }
        let list = &self.plan.incoming[t];
        let mut j: usize = 0;
        while j < list.len()
            invariant
                self.shape(),
                t < node_count(self.ctx()),
                list@ == self.ctx().plan.incoming@[t as int]@,
                j <= list@.len(),
                forall|m: int| 0 <= m < j ==> (#[trigger] self.state().edges[self.ctx().plan.edge_key@[list@[m] as int] as int]) is Some,
            decreases list.len() - j,
        {
            proof {
                self.plan.lemma_bounds();
            }
            let ek = self.plan.edge_key[list[j]];
            proof {
                assert(list@[j as int] < edge_count(self.ctx()));
                assert(self.state().edges[ek as int] == resolution_view(self.edges@[ek as int]));
            }
            if self.edges[ek].is_none() {
                return false;
            }
            j = j + 1;
        }
        true
    }

    fn fired(&self, t: usize) -> (r: Vec<(String, String)>)
        requires
            self.shape(),
            t < node_count(self.ctx()),
        ensures
            sections_view(r@) == fired_sections(self.ctx(), self.state().edges, self.ctx().plan.incoming@[t as int]@),
    {
        proof {
            self.plan.lemma_bounds();
        }
        let list = &self.plan.incoming[t];
        let mut r: Vec<(String, String)> = Vec::new();
        let mut j: usize = 0;
        while j < list.len()
            invariant
                self.shape(),
                t < node_count(self.ctx()),
                list@ == self.ctx().plan.incoming@[t as int]@,
                j <= list@.len(),
                sections_view(r@) == fired_sections(self.ctx(), self.state().edges, list@.take(j as int)),
            decreases list.len() - j,
        {
            proof {
                self.plan.lemma_bounds();
            }
            let e = list[j];
            let ek = self.plan.edge_key[e];
            proof {
                assert(e < edge_count(self.ctx()));
                assert(list@.take(j + 1).drop_last() =~= list@.take(j as int));
                assert(list@.take(j + 1).last() == e);
                assert(self.state().edges[ek as int] == resolution_view(self.edges@[ek as int]));
            }
            match &self.edges[ek] {
                Some(Some(p)) => {
                    let src = self.plan.src[e];
                    let h = self.heading_for(src, false);
                    let ghost r0 = r@;
                    r.push((h, p.clone()));
                    proof {
                        assert(sections_view(r@) =~= sections_view(r0).push((h@, p@)));
                    }
                },
                _ => {},
            }
            j = j + 1;
        }
        assert(list@.take(list@.len() as int) =~= list@);
        r
    }
}

fn payload_text(out: &Option<String>) -> (r: String)
    ensures
        r@ == payload(opt_text_view(*out)),
{
    match out {
        Some(p) => p.clone(),
        None => String::new(),
    }
}

impl Execution {
    /// Records the resolution of edge `e` out of `nid` (see
    /// `engine::apply_resolution`) and moves on to the next edge.
    fn apply(
        &mut self,
        wl: Vec<(usize, Option<String>)>,
        next: usize,
        nid: usize,
        out: Option<String>,
        e: usize,
        taken: bool,
        settling: bool,
    ) -> (step: Step)
        requires
            old(self).inv(),
            nid < node_count(old(self).ctx()),
            e < edge_count(old(self).ctx()),
            forall|j: int| 0 <= j < wl@.len() ==> (#[trigger] wl@[j]).0 < node_count(old(self).ctx()),
        ensures
            final(self).ctx() == old(self).ctx(),
            (final(self).state(), step.view()) == apply_resolution(
                old(self).ctx(),
                old(self).state(),
                worklist_view(wl@),
                next as int,
                nid,
                opt_text_view(out),
                e,
                taken,
                settling,
            ),
    {
        proof {
            self.plan.lemma_bounds();
        }
        let ghost c = self.ctx();
        let ghost s0 = self.state();
        let t = self.plan.tgt[e];
        let ok = self.error.is_none();
        if self.plan.back[e] {
            if taken && ok {
                let h = self.heading_for(nid, true);
                let mut secs: Vec<(String, String)> = Vec::new();
                secs.push((h, payload_text(&out)));
                let ghost q0 = self.queue@;
                self.queue.push((t, secs));
                proof {
                    assert(sections_view(secs@) =~= seq![(heading_of(c, nid, true), payload(opt_text_view(out)))]);
                    assert(queue_view(self.queue@) =~= queue_view(q0).push(queued_view((t, secs))));
                }
            }
            self.phase = Phase::Resolve { worklist: wl, cursor: next };
            return Step::Resolved { source: nid, edge: e, taken, skipped: None };
        }
        if !taken && self.plan.rerun[nid] && !settling {
            self.phase = Phase::Resolve { worklist: wl, cursor: next };
            return Step::Resolved { source: nid, edge: e, taken, skipped: None };
        }
        let ek = self.plan.edge_key[e];
        let res: Option<String> = if taken { clone_text(&out) } else { None };
        let ghost e0 = self.edges@;
        self.edges.set(ek, Some(res));
        proof {
            assert(edges_view(self.edges@) =~= edges_view(e0).update(ek as int, Some(if taken { opt_text_view(out) } else { None })));
        }
        if self.activated[t] {
            if taken && ok {
                let h = self.heading_for(nid, false);
                let mut secs: Vec<(String, String)> = Vec::new();
                secs.push((h, payload_text(&out)));
                let ghost q0 = self.queue@;
                self.queue.push((t, secs));
                proof {
                    assert(sections_view(secs@) =~= seq![(heading_of(c, nid, false), payload(opt_text_view(out)))]);
                    assert(queue_view(self.queue@) =~= queue_view(q0).push(queued_view((t, secs))));
                }
            }
            self.phase = Phase::Resolve { worklist: wl, cursor: next };
            return Step::Resolved { source: nid, edge: e, taken, skipped: None };
        }
        if !self.incoming_resolved(t) {
            self.phase = Phase::Resolve { worklist: wl, cursor: next };
            return Step::Resolved { source: nid, edge: e, taken, skipped: None };
        }
        let secs = self.fired(t);
        self.activated.set(t, true);
        if secs.len() == 0 {
            let mut wl2 = wl;
            let ghost w0 = wl2@;
            wl2.push((t, None));
            proof {
                assert(worklist_view(wl2@) =~= worklist_view(w0).push((t, None)));
            }
            self.phase = Phase::Resolve { worklist: wl2, cursor: next };
            Step::Resolved { source: nid, edge: e, taken, skipped: Some(t) }
        } else {
            if ok {
                let ghost q0 = self.queue@;
                self.queue.push((t, secs));
                proof {
                    assert(queue_view(self.queue@) =~= queue_view(q0).push(queued_view((t, secs))));
                }
            }
            self.phase = Phase::Resolve { worklist: wl, cursor: next };
            Step::Resolved { source: nid, edge: e, taken, skipped: None }
        }
    }
}

impl Execution {
    /// Resolves the next outgoing edge of the finished (or skipped) nodes
    /// (see `engine::resolve_state`).
    pub fn resolve_step(&mut self) -> (step: Step)
        requires
            old(self).inv(),
        ensures
            final(self).inv(),
            final(self).ctx() == old(self).ctx(),
            (final(self).state(), step.view()) == resolve_state(old(self).ctx(), old(self).state()),
    {
        proof {
            lemma_resolve(self.ctx(), self.state());
            self.plan.lemma_bounds();
        }
        let ghost c = self.ctx();
        let ghost s0 = self.state();
        let mut ph = Phase::Dispatch;
        std::mem::swap(&mut self.phase, &mut ph);
        match ph {
            Phase::Resolve { worklist, cursor } => {
                if worklist.len() == 0 {
                    return Step::Idle;
                }
                proof {
                    assert(worklist_view(worklist@)[0] == work_view(worklist@[0]));
                }
                let nid = worklist[0].0;
                let out = clone_text(&worklist[0].1);
                proof {
                    assert forall|j: int| 0 <= j < worklist@.len() implies (#[trigger] worklist@[j]).0 < node_count(c) by {
                        assert(worklist_view(worklist@)[j] == work_view(worklist@[j]));
                    }
                }
                if cursor >= self.plan.outgoing[nid].len() {
                    let mut wl = worklist;
                    let ghost w0 = wl@;
                    wl.remove(0);
                    proof {
                        assert(worklist_view(wl@) =~= worklist_view(w0).drop_first());
                    }
                    self.phase = Phase::Resolve { worklist: wl, cursor: 0 };
                    return Step::Advance;
                }
                let e = self.plan.outgoing[nid][cursor];
                match out {
                    None => self.apply(worklist, cursor + 1, nid, None, e, false, false),
                    Some(o) => {
                        let edge = &self.plan.graph.edges[e];
                        match evaluate_condition(edge, o.as_str()) {
                            Evaluation::Decided(t) => self.apply(worklist, cursor + 1, nid, Some(o), e, t, false),
                            Evaluation::AskJudge => {
                                let question = judge_request(edge.condition.as_str(), o.as_str());
                                self.phase = Phase::Judge { worklist, cursor, edge: e };
                                Step::AskJudge { edge: e, question }
                            },
                            Evaluation::Failed(err) => {
                                if self.error.is_none() {
                                    self.error = Some(RunError::ConditionFailed { edge: e, error: err });
                                }
                                self.apply(worklist, cursor + 1, nid, Some(o), e, false, false)
                            },
                        }
                    },
                }
            },
            other => {
                self.phase = other;
                Step::Idle
            },
        }
    }

    /// The judge model answered (`Ok` with its reply) or could not be asked
    /// (`Err` with why) for the edge awaiting it (see `engine::judged_state`).
    pub fn judged(&mut self, reply: Result<String, String>) -> (step: Step)
        requires
            old(self).inv(),
        ensures
            final(self).inv(),
            final(self).ctx() == old(self).ctx(),
            (final(self).state(), step.view()) == judged_state(old(self).ctx(), old(self).state(), result_view(reply)),
    {
        proof {
            lemma_judged(self.ctx(), self.state(), result_view(reply));
            self.plan.lemma_bounds();
        }
        let mut ph = Phase::Dispatch;
        std::mem::swap(&mut self.phase, &mut ph);
        match ph {
            Phase::Judge { worklist, cursor, edge: e } => {
                if worklist.len() == 0 {
                    return Step::Idle;
                }
                proof {
                    assert(worklist_view(worklist@)[0] == work_view(worklist@[0]));
                }
                let nid = worklist[0].0;
                let out = clone_text(&worklist[0].1);
                proof {
                    assert forall|j: int| 0 <= j < worklist@.len() implies (#[trigger] worklist@[j]).0 < node_count(self.ctx()) by {
                        assert(worklist_view(worklist@)[j] == work_view(worklist@[j]));
                    }
                }
                match judged(&self.plan.graph.edges[e], reply) {
                    Ok(t) => self.apply(worklist, cursor + 1, nid, out, e, t, false),
                    Err(err) => {
                        if self.error.is_none() {
                            self.error = Some(RunError::ConditionFailed { edge: e, error: err });
                        }
                        self.apply(worklist, cursor + 1, nid, out, e, false, false)
                    },
                }
            },
            other => {
                self.phase = other;
                Step::Idle
            },
        }
    }
}

/// The declared node positions whose node never got its first activation
/// (it never received an input), in declaration order.
pub open spec fn unactivated(c: Ctx, s: RunState) -> Seq<usize> {
    positions(node_count(c)).filter(|p: int| !s.activated[c.plan.keys@[p] as int]).map_values(|p: int| p as usize)
}

proof fn lemma_none_unactivated(c: Ctx, s: RunState, m: nat)
    requires
        m <= node_count(c),
        forall|p: int| 0 <= p < m ==> s.activated[#[trigger] c.plan.keys@[p] as int],
    ensures
        positions(m).filter(|p: int| !s.activated[c.plan.keys@[p] as int]).len() == 0,
    decreases m,
{
    let pred = |p: int| !s.activated[c.plan.keys@[p] as int];
    if m > 0 {
        lemma_none_unactivated(c, s, (m - 1) as nat);
        assert(positions(m) =~= positions((m - 1) as nat).push(m - 1));
        positions((m - 1) as nat).lemma_filter_push(m - 1, pred);
    }
}

impl Execution {
    /// How the run ended: its first error, or the declared node positions
    /// that never ran (they are reported as skipped). A run whose node and
    /// edge ids are distinct, and that went quiet without failing and with no
    /// pending edge left, leaves no node that never ran.
    pub fn finish(self) -> (r: Result<Vec<usize>, RunError>)
        requires
            self.inv(),
        ensures
            match self.state().error {
                Some(err) => r matches Err(e) && e.view() == err,
                None => r matches Ok(list) && list@ == unactivated(self.ctx(), self.state()),
            },
            ids_distinct(&self.ctx().plan.graph) && quiet_and_settled(self.ctx(), self.state()) ==> (r matches Ok(
                list,
            ) && list@.len() == 0),
    {
        proof {
            self.plan.lemma_bounds();
            if ids_distinct(&self.ctx().plan.graph) && quiet_and_settled(self.ctx(), self.state()) {
                lemma_clean_end_all_activated(self.ctx(), self.state());
                self.plan.lemma_distinct_ids_keys();
                lemma_none_unactivated(self.ctx(), self.state(), node_count(self.ctx()));
            }
        }
        match self.error {
            Some(e) => Err(e),
            None => {
                let ghost c = self.ctx();
                let ghost st = self.state();
                let ghost pred = |p: int| !st.activated[c.plan.keys@[p] as int];
                let ghost as_u = |p: int| p as usize;
                let n = self.plan.keys.len();
                let mut list: Vec<usize> = Vec::new();
                let mut p: usize = 0;
                while p < n
                    invariant
                        c == self.ctx(),
                        st == self.state(),
                        self.inv(),
                        n == node_count(c),
                        p <= n,
                        forall|u: int| 0 <= u < self.plan.keys@.len() ==> #[trigger] self.plan.keys@[u] < self.plan.keys@.len(),
                        pred == (|p: int| !st.activated[c.plan.keys@[p] as int]),
                        as_u == (|p: int| p as usize),
                        list@ == positions(p as nat).filter(pred).map_values(as_u),
                    decreases n - p,
                {
                    proof {
                        assert(positions((p + 1) as nat) =~= positions(p as nat).push(p as int));
                        positions(p as nat).lemma_filter_push(p as int, pred);
                    }
                    if !self.activated[self.plan.keys[p]] {
                        let ghost l0 = list@;
                        list.push(p);
                        proof {
                            let f = positions(p as nat).filter(pred);
                            assert(f.push(p as int).map_values(as_u) =~= f.map_values(as_u).push(as_u(p as int)));
                        }
                    }
                    p = p + 1;
                }
                Ok(list)
            },
        }
    }

    /// The loop budget this run has used so far.
    pub fn steps_used(&self) -> (r: u32)
        ensures
            r == self.state().steps_used,
    {
        self.steps_used
    }

    /// The node the activation report about `node` concerns is named so in
    /// headings and messages.
    pub fn node_label(&self, node: usize) -> (r: Option<String>)
        requires
            self.inv(),
        ensures
            node < node_count(self.ctx()) ==> (r matches Some(l) && l@ == self.ctx().labels[node as int]),
            node >= node_count(self.ctx()) ==> r is None,
    {
        if node < self.labels.len() {
            Some(self.labels[node].clone())
        } else {
            None
        }
    }
}

/// The text a user is shown for a run error; nodes are named by `labels`.
pub open spec fn run_error_message(c: Ctx, e: RunError) -> Seq<char> {
    match e {
        RunError::Canceled => "run canceled"@,
        RunError::BudgetExhausted { max_steps } => "loop budget exhausted: more than "@ + decimal(max_steps as nat)
            + " agent activations (raise the workflow's max steps if this is intended)"@,
        RunError::NodeFailed { node, detail } => "agent \""@ + c.labels[node as int] + "\" failed: "@ + detail@,
        RunError::ConditionFailed { edge, error } => "evaluating condition on edge to \""@
            + c.labels[c.plan.tgt@[edge as int] as int] + "\": "@ + error.spec_message(),
    }
}

impl Execution {
    /// The text a user is shown for an error of this run (`node` and `edge`
    /// must be of this run, as every error the run reports is).
    pub fn error_message(&self, e: &RunError) -> (r: String)
        requires
            self.inv(),
            e matches RunError::NodeFailed { node, .. } ==> node < node_count(self.ctx()),
            e matches RunError::ConditionFailed { edge, .. } ==> edge < edge_count(self.ctx()),
        ensures
            r@ == run_error_message(self.ctx(), *e),
    {
        proof {
            self.plan.lemma_bounds();
        }
        match e {
            RunError::Canceled => text_to_string("run canceled"),
            RunError::BudgetExhausted { max_steps } => {
                let mut r = text_to_string("loop budget exhausted: more than ");
                push_decimal(&mut r, *max_steps as u64);
                push_text(&mut r, " agent activations (raise the workflow's max steps if this is intended)");
                r
            },
            RunError::NodeFailed { node, detail } => {
                let mut r = text_to_string("agent \"");
                push_text(&mut r, self.labels[*node].as_str());
                push_text(&mut r, "\" failed: ");
                push_text(&mut r, detail.as_str());
                r
            },
            RunError::ConditionFailed { edge, error } => {
                let mut r = text_to_string("evaluating condition on edge to \"");
                push_text(&mut r, self.labels[self.plan.tgt[*edge]].as_str());
                push_text(&mut r, "\": ");
                let m = error.message();
                push_text(&mut r, m.as_str());
                r
            },
        }
    }
}

impl Execution {
    /// The error the run failed with, if it failed.
    pub closed spec fn run_error(&self) -> Option<RunError> {
        self.error
    }

    /// The text a user is shown for the error the run failed with, if any.
    pub fn failure_message(&self) -> (r: Option<String>)
        requires
            self.inv(),
        ensures
            opt_err_view(self.run_error()) == self.state().error,
            r is None <==> self.run_error() is None,
            r matches Some(m) ==> self.run_error() matches Some(e) && m@ == run_error_message(self.ctx(), e),
    {
        match &self.error {
            Some(e) => Some(self.error_message(e)),
            None => None,
        }
    }
}

/// Why a workflow cannot be started.
#[derive(Debug)]
pub enum StartError {
    NoNodes { workflow_name: String },
    Invalid { error: crate::graph::GraphError },
}

impl StartError {
    pub fn message(&self) -> (r: String)
        ensures
            self matches StartError::NoNodes { workflow_name } ==> r@ == "workflow '"@ + workflow_name@ + "' has no nodes"@,
            self matches StartError::Invalid { error } ==> r@ == error.spec_message(),
    {
        match self {
            StartError::NoNodes { workflow_name } => {
                let mut r = text_to_string("workflow '");
                push_text(&mut r, workflow_name.as_str());
                push_text(&mut r, "' has no nodes");
                r
            },
            StartError::Invalid { error } => error.message(),
        }
    }
}

/// Validates a workflow's graph and starts a run of it: a workflow without
/// nodes, or whose graph fails validation, cannot run.
pub fn prepare_run(
    workflow_name: &str,
    graph: Graph,
    card_names: &Vec<Option<String>>,
    max_steps: u32,
    input: &str,
) -> (r: Result<Execution, StartError>)
    ensures
        graph.nodes@.len() == 0 ==> (r matches Err(StartError::NoNodes { workflow_name: w }) && w@ == workflow_name@),
        graph.nodes@.len() > 0 ==> (r is Ok <==> crate::graph::graph_problem(&graph) is None),
        (graph.nodes@.len() > 0 && crate::graph::graph_problem(&graph) is Some) ==> (r matches Err(StartError::Invalid { error })
            && crate::graph::graph_problem(&graph) == Some(error.problem())),
        r matches Ok(x) ==> x.inv() && x.ctx().plan.graph == graph && x.ctx().max_steps == max_steps
            && x.state() == seed_state(x.ctx(), input@),
{
    if graph.nodes.len() == 0 {
        return Err(StartError::NoNodes { workflow_name: text_to_string(workflow_name) });
    }
    match crate::graph::validate_graph(&graph) {
        Err(error) => Err(StartError::Invalid { error }),
        Ok(()) => {
            proof {
                crate::graph::lemma_valid_graph_endpoints_resolve(&graph);
            }
            let plan = RunPlan::new(graph);
            Ok(Execution::start(plan, card_names, max_steps, input))
        },
    }
}

} // verus!
