//! The records a run leaves behind (the run and one record per node
//! activation), what a node activation does, and how runs left unfinished by
//! a restart are closed.
use vstd::prelude::*;
use crate::models::{Run, WorkflowNode};
use crate::input::{is_file_kind};
use crate::text::{text_eq, text_to_string, push_text};

verus! {

/// One activation of a node: who ran, with what input, how it ended.
/// `transcript` is the conversation as JSON text ("null" for a file node or
/// a skipped node).
#[derive(Debug)]
pub struct NodeRun {
    pub id: String,
    pub run_id: String,
    pub node_id: String,
    pub agent_name: String,
    /// pending | running | succeeded | failed | skipped | interrupted
    pub status: String,
    /// 1-based activation counter: more than 1 means the node re-ran in a loop.
    pub activation: u32,
    pub input: String,
    pub output: String,
    pub transcript: String,
    pub error: Option<String>,
    pub started_at: String,
    pub finished_at: Option<String>,
}

pub open spec fn opt_view(o: Option<String>) -> Option<Seq<char>> {
    match o {
        Some(s) => Some(s@),
        None => None,
    }
}

// ---------------------------------------------------------------- node activations

/// What an activation of a node does.
#[derive(Debug)]
pub enum NodeTask {
    /// Read the file at `path`; its content is the output.
    ReadFile { path: String },
    /// Write `content` to the file at `path` (appending when `append`); the
    /// content is the output.
    WriteFile { path: String, append: bool, content: String },
    /// Run the node's agent with `input`.
    RunAgent { input: String },
}

pub enum NodeTaskView {
    ReadFile(Seq<char>),
    WriteFile(Seq<char>, bool, Seq<char>),
    RunAgent(Seq<char>),
}

impl NodeTask {
    pub open spec fn view(&self) -> NodeTaskView {
        match self {
            NodeTask::ReadFile { path } => NodeTaskView::ReadFile(path@),
            NodeTask::WriteFile { path, append, content } => NodeTaskView::WriteFile(path@, *append, content@),
            NodeTask::RunAgent { input } => NodeTaskView::RunAgent(input@),
        }
    }
}

pub open spec fn task_of(node: WorkflowNode, input: Seq<char>) -> NodeTaskView {
    if node.kind@ == "file"@ {
        NodeTaskView::ReadFile(node.file_path@)
    } else if node.kind@ == "file_dest"@ {
        NodeTaskView::WriteFile(node.file_path@, node.append, input)
    } else {
        NodeTaskView::RunAgent(input)
    }
}

/// A "file" node reads its file, a "file_dest" node writes its input to its
/// file, any other node runs its agent on the input.
pub fn node_task(node: &WorkflowNode, input: &str) -> (r: NodeTask)
    ensures
        r.view() == task_of(*node, input@),
{
    if text_eq(node.kind.as_str(), "file") {
        NodeTask::ReadFile { path: node.file_path.clone() }
    } else if text_eq(node.kind.as_str(), "file_dest") {
        NodeTask::WriteFile { path: node.file_path.clone(), append: node.append, content: text_to_string(input) }
    } else {
        NodeTask::RunAgent { input: text_to_string(input) }
    }
}

/// Whether running a node needs its agent card: every node but a file node.
pub fn needs_card(kind: &str) -> (r: bool)
    ensures
        r == !is_file_kind(kind@),
{
    !(text_eq(kind, "file") || text_eq(kind, "file_dest"))
}

/// Why a file task failed, with the system's `detail`.
pub open spec fn file_failure(reading: bool, path: Seq<char>, detail: Seq<char>) -> Seq<char> {
    (if reading { "reading file '"@ } else { "writing file '"@ }) + path + "': "@ + detail
}

pub fn file_failure_text(reading: bool, path: &str, detail: &str) -> (r: String)
    ensures
        r@ == file_failure(reading, path@, detail@),
{
    let mut r = if reading {
        text_to_string("reading file '")
    } else {
        text_to_string("writing file '")
    };
    push_text(&mut r, path);
    push_text(&mut r, "': ");
    push_text(&mut r, detail);
    r
}

/// The input a node activation record shows: a file node's path, otherwise
/// the input it was given.
pub open spec fn shown_input(node: WorkflowNode, input: Seq<char>) -> Seq<char> {
    if node.kind@ == "file"@ {
        node.file_path@
    } else {
        input
    }
}

/// The record of an activation that starts now: "running", with the name and
/// input it is shown with.
pub fn node_run_started(
    id: String,
    run_id: String,
    node: &WorkflowNode,
    agent_name: String,
    input: &str,
    activation: u32,
    now: String,
) -> (r: NodeRun)
    ensures
        r.id == id,
        r.run_id == run_id,
        r.node_id@ == node.id@,
        r.agent_name == agent_name,
        r.status@ == "running"@,
        r.activation == activation,
        r.input@ == shown_input(*node, input@),
        r.output@ == Seq::<char>::empty(),
        r.transcript@ == "null"@,
        r.error is None,
        r.started_at == now,
        r.finished_at is None,
{
    let shown = if text_eq(node.kind.as_str(), "file") {
        node.file_path.clone()
    } else {
        text_to_string(input)
    };
    NodeRun {
        id,
        run_id,
        node_id: node.id.clone(),
        agent_name,
        status: text_to_string("running"),
        activation,
        input: shown,
        output: String::new(),
        transcript: text_to_string("null"),
        error: None,
        started_at: now,
        finished_at: None,
    }
}

/// The record of a node that was skipped (none of its inputs fired, or it
/// never got one).
pub fn node_run_skipped(id: String, run_id: String, node_id: String, agent_name: String, started: String, finished: String) -> (r: NodeRun)
    ensures
        r.id == id,
        r.run_id == run_id,
        r.node_id == node_id,
        r.agent_name == agent_name,
        r.status@ == "skipped"@,
        r.activation == 0,
        r.input@ == Seq::<char>::empty(),
        r.output@ == Seq::<char>::empty(),
        r.transcript@ == "null"@,
        r.error is None,
        r.started_at == started,
        r.finished_at == Some(finished),
{
    NodeRun {
        id,
        run_id,
        node_id,
        agent_name,
        status: text_to_string("skipped"),
        activation: 0,
        input: String::new(),
        output: String::new(),
        transcript: text_to_string("null"),
        error: None,
        started_at: started,
        finished_at: Some(finished),
    }
}

/// The parts of a node activation record that closing it leaves alone.
pub open spec fn same_activation(a: NodeRun, b: NodeRun) -> bool {
    &&& a.id == b.id
    &&& a.run_id == b.run_id
    &&& a.node_id == b.node_id
    &&& a.agent_name == b.agent_name
    &&& a.activation == b.activation
    &&& a.input == b.input
    &&& a.started_at == b.started_at
}

/// An activation ended: with its output (and, for an agent, its transcript
/// as JSON text) it succeeded; with an error it failed.
pub fn finish_node_run(nr: &mut NodeRun, result: Result<(String, Option<String>), String>, now: String)
    ensures
        same_activation(*final(nr), *old(nr)),
        final(nr).finished_at == Some(now),
        match result {
            Ok((output, transcript)) => {
                &&& final(nr).status@ == "succeeded"@
                &&& final(nr).output == output
                &&& final(nr).transcript@ == match transcript {
                    Some(t) => t@,
                    None => "null"@,
                }
                &&& final(nr).error == old(nr).error
            },
            Err(e) => {
                &&& final(nr).status@ == "failed"@
                &&& final(nr).error == Some(e)
                &&& final(nr).output == old(nr).output
                &&& final(nr).transcript == old(nr).transcript
            },
        },
{
    nr.finished_at = Some(now);
    match result {
        Ok((output, transcript)) => {
            nr.status = text_to_string("succeeded");
            nr.output = output;
            nr.transcript = match transcript {
                Some(t) => t,
                None => text_to_string("null"),
            };
        },
        Err(e) => {
            nr.status = text_to_string("failed");
            nr.error = Some(e);
        },
    }
}

// ---------------------------------------------------------------- runs

/// The record of a run that starts now.
pub fn run_started(id: String, workflow_id: String, workflow_name: String, trigger: String, input: String, now: String) -> (r: Run)
    ensures
        r.id == id,
        r.workflow_id == workflow_id,
        r.workflow_name == workflow_name,
        r.status@ == "running"@,
        r.trigger == trigger,
        r.input == input,
        r.error is None,
        r.started_at == now,
        r.finished_at is None,
{
    Run {
        id,
        workflow_id,
        workflow_name,
        status: text_to_string("running"),
        trigger,
        input,
        error: None,
        started_at: now,
        finished_at: None,
    }
}

/// The parts of a run record that finishing it leaves alone.
pub open spec fn same_run(a: Run, b: Run) -> bool {
    &&& a.id == b.id
    &&& a.workflow_id == b.workflow_id
    &&& a.workflow_name == b.workflow_name
    &&& a.trigger == b.trigger
    &&& a.input == b.input
    &&& a.started_at == b.started_at
}

/// How a run ended: it succeeded, or it failed with an error, which counts
/// as canceled when the run had been asked to stop.
pub open spec fn end_status(ok: bool, canceled: bool) -> Seq<char> {
    if ok {
        "succeeded"@
    } else if canceled {
        "canceled"@
    } else {
        "failed"@
    }
}

/// A run that succeeded is recorded as such even if a stop had been asked
/// for; only a failure is told apart by whether the run was asked to stop.
pub proof fn lemma_end_status(canceled: bool)
    ensures
        end_status(true, canceled) == "succeeded"@,
        end_status(false, true) == "canceled"@,
        end_status(false, false) == "failed"@,
        end_status(false, true) != end_status(false, false),
        end_status(false, canceled) != end_status(true, canceled),
{
    reveal_strlit("canceled");
    reveal_strlit("failed");
    reveal_strlit("succeeded");
    assert("canceled"@[0] != "failed"@[0]);
    assert("succeeded"@[0] != "failed"@[0]);
    assert("succeeded"@[0] != "canceled"@[0]);
}

pub fn finish_run(run: &mut Run, result: Result<(), String>, canceled: bool, now: String)
    ensures
        same_run(*final(run), *old(run)),
        final(run).status@ == end_status(result is Ok, canceled),
        final(run).finished_at == Some(now),
        final(run).error == match result {
            Ok(_) => old(run).error,
            Err(e) => Some(e),
        },
{
    run.finished_at = Some(now);
    match result {
        Ok(()) => {
            run.status = text_to_string("succeeded");
        },
        Err(e) => {
            run.status = if canceled {
                text_to_string("canceled")
            } else {
                text_to_string("failed")
            };
            run.error = Some(e);
        },
    }
}

// ---------------------------------------------------------------- restarts

/// A run or activation still "running" or "pending" was cut short.
pub open spec fn unfinished(status: Seq<char>) -> bool {
    status == "running"@ || status == "pending"@
}

pub fn is_unfinished(status: &str) -> (r: bool)
    ensures
        r == unfinished(status@),
{
    text_eq(status, "running") || text_eq(status, "pending")
}

pub open spec fn run_interrupted_note() -> Seq<char> {
    "the server was restarted while this run was in progress; it was not resumed (re-run it manually if needed)"@
}

pub open spec fn node_interrupted_note() -> Seq<char> {
    "process restarted before this agent finished"@
}

/// A run cut short by a restart is marked "interrupted", says so, and is
/// finished now unless it already had an end time. It is not resumed: a node
/// may already have had side effects.
pub fn interrupt_run(run: &mut Run, now: &String)
    ensures
        same_run(*final(run), *old(run)),
        final(run).status@ == "interrupted"@,
        opt_view(final(run).error) == Some(run_interrupted_note()),
        final(run).finished_at == match old(run).finished_at {
            Some(t) => Some(t),
            None => Some(*now),
        },
{
    run.status = text_to_string("interrupted");
    run.error = Some(
        text_to_string(
            "the server was restarted while this run was in progress; it was not resumed (re-run it manually if needed)",
        ),
    );
    if run.finished_at.is_none() {
        run.finished_at = Some(now.clone());
    }
}

/// An activation cut short by a restart is marked "interrupted" in the same
/// way.
pub fn interrupt_node_run(nr: &mut NodeRun, now: &String)
    ensures
        same_activation(*final(nr), *old(nr)),
        final(nr).output == old(nr).output,
        final(nr).transcript == old(nr).transcript,
        final(nr).status@ == "interrupted"@,
        opt_view(final(nr).error) == Some(node_interrupted_note()),
        final(nr).finished_at == match old(nr).finished_at {
            Some(t) => Some(t),
            None => Some(*now),
        },
{
    nr.status = text_to_string("interrupted");
    nr.error = Some(text_to_string("process restarted before this agent finished"));
    if nr.finished_at.is_none() {
        nr.finished_at = Some(now.clone());
    }
}

} // verus!
