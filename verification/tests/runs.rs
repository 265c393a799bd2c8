use saioawe::engine::{RunError, Step};
use saioawe::models::{Graph, WorkflowEdge, WorkflowNode};
use saioawe::run::{prepare_run, Execution, NextAction, StartError};

fn agent(id: &str) -> WorkflowNode {
    WorkflowNode {
        id: id.to_string(),
        kind: "agent".to_string(),
        agent_card_id: format!("card-{id}"),
        instructions: String::new(),
        file_path: String::new(),
        append: false,
    }
}

fn file(id: &str, path: &str) -> WorkflowNode {
    WorkflowNode {
        id: id.to_string(),
        kind: "file".to_string(),
        agent_card_id: String::new(),
        instructions: String::new(),
        file_path: path.to_string(),
        append: false,
    }
}

fn edge(id: &str, source: &str, target: &str, kind: &str, condition: &str, negate: bool) -> WorkflowEdge {
    WorkflowEdge {
        id: id.to_string(),
        source: source.to_string(),
        target: target.to_string(),
        condition_kind: kind.to_string(),
        condition: condition.to_string(),
        negate,
    }
}

fn always(id: &str, source: &str, target: &str) -> WorkflowEdge {
    edge(id, source, target, "always", "", false)
}

fn names(n: usize) -> Vec<Option<String>> {
    (0..n).map(|i| Some(format!("Agent {i}"))).collect()
}

/// Drives a run to its end: each started activation is finished, in the order
/// started, with what `work` gives for (node, activation, input); the judge is
/// answered by `judge`. Returns the activations started.
fn drive(
    x: &mut Execution,
    work: &dyn Fn(usize, u32, &str) -> Result<String, String>,
    judge: &dyn Fn(&str) -> Result<String, String>,
    canceled_at: Option<usize>,
) -> Vec<(usize, u32, String)> {
    let mut started: Vec<(usize, u32, String)> = Vec::new();
    let mut running: Vec<(usize, u32, String)> = Vec::new();
    let mut question = String::new();
    let mut rounds = 0usize;
    loop {
        match x.next_action() {
            NextAction::Dispatch => {
                let cancel = canceled_at.map(|r| rounds >= r).unwrap_or(false);
                rounds += 1;
                for o in x.dispatch(cancel) {
                    started.push((o.node, o.activation, o.input.clone()));
                    running.push((o.node, o.activation, o.input));
                }
            }
            NextAction::Wait => {
                let (node, activation, input) = running.remove(0);
                assert!(x.node_finished(node, work(node, activation, &input)));
            }
            NextAction::Resolve => {
                if let Step::AskJudge { question: q, .. } = x.resolve_step() {
                    question = q;
                }
            }
            NextAction::Judge => {
                x.judged(judge(&question));
            }
            NextAction::Settle => {
                x.settle();
            }
            NextAction::Done => break,
        }
    }
    started
}

fn no_judge(_: &str) -> Result<String, String> {
    Err("no judge here".to_string())
}

#[test]
fn linear_chain_passes_output_downstream() {
    let g = Graph { nodes: vec![agent("a"), agent("b")], edges: vec![always("e1", "a", "b")] };
    let mut x = prepare_run("wf", g, &names(2), 0, "hello").unwrap();
    let started = drive(&mut x, &|n, _, _| Ok(format!("out{n}")), &no_judge, None);
    assert_eq!(started.len(), 2);
    assert_eq!(started[0], (0, 1, "# Workflow input\nhello".to_string()));
    assert_eq!(started[1], (1, 1, "# Output from upstream agent \"Agent 0\"\nout0".to_string()));
    assert_eq!(x.finish().unwrap(), Vec::<usize>::new());
}

#[test]
fn empty_input_asks_to_execute_task() {
    let g = Graph { nodes: vec![agent("a")], edges: vec![] };
    let mut x = prepare_run("wf", g, &names(1), 0, "   ").unwrap();
    let started = drive(&mut x, &|_, _, _| Ok("done".to_string()), &no_judge, None);
    assert_eq!(started, vec![(0, 1, "Execute your task.".to_string())]);
}

#[test]
fn fan_in_joins_sections_in_edge_order() {
    let g = Graph {
        nodes: vec![agent("a"), agent("b"), agent("c")],
        edges: vec![always("e1", "b", "c"), always("e2", "a", "c")],
    };
    let mut x = prepare_run("wf", g, &names(3), 0, "").unwrap();
    let started = drive(&mut x, &|n, _, _| Ok(format!("out{n}")), &no_judge, None);
    assert_eq!(started.len(), 3);
    assert_eq!(
        started[2],
        (
            2,
            1,
            "# Output from upstream agent \"Agent 1\"\nout1\n\n# Output from upstream agent \"Agent 0\"\nout0".to_string()
        )
    );
}

#[test]
fn silent_edges_skip_and_cascade() {
    let g = Graph {
        nodes: vec![agent("a"), agent("b"), agent("c")],
        edges: vec![edge("e1", "a", "b", "contains", "YES", false), always("e2", "b", "c")],
    };
    let mut x = prepare_run("wf", g, &names(3), 0, "go").unwrap();
    let started = drive(&mut x, &|_, _, _| Ok("no way".to_string()), &no_judge, None);
    assert_eq!(started.len(), 1);
    assert_eq!(x.steps_used(), 1);
    assert_eq!(x.finish().unwrap(), Vec::<usize>::new());
}

#[test]
fn negated_condition_fires_else_branch() {
    let g = Graph {
        nodes: vec![agent("a"), agent("yes"), agent("no")],
        edges: vec![
            edge("e1", "a", "yes", "contains", "approved", false),
            edge("e2", "a", "no", "contains", "approved", true),
        ],
    };
    let mut x = prepare_run("wf", g, &names(3), 0, "").unwrap();
    let started = drive(&mut x, &|_, _, _| Ok("Rejected".to_string()), &no_judge, None);
    let nodes: Vec<usize> = started.iter().map(|s| s.0).collect();
    assert_eq!(nodes, vec![0, 2]);
}

#[test]
fn loop_reruns_until_budget_is_exhausted() {
    let g = Graph {
        nodes: vec![agent("a"), agent("b")],
        edges: vec![always("e1", "a", "b"), always("e2", "b", "a")],
    };
    let mut x = prepare_run("wf", g, &names(2), 3, "").unwrap();
    let started = drive(&mut x, &|n, a, _| Ok(format!("out{n}.{a}")), &no_judge, None);
    let acts: Vec<(usize, u32)> = started.iter().map(|s| (s.0, s.1)).collect();
    assert_eq!(acts, vec![(0, 1), (1, 1), (0, 2)]);
    assert_eq!(started[2].2, "# Output from upstream agent \"Agent 1\" (loop iteration)\nout1.1");
    assert_eq!(x.steps_used(), 3);
    let err = x.finish().unwrap_err();
    assert!(matches!(err, RunError::BudgetExhausted { max_steps: 3 }));
}

#[test]
fn budget_error_message_names_the_budget() {
    let g = Graph {
        nodes: vec![agent("a"), agent("b")],
        edges: vec![always("e1", "a", "b"), always("e2", "b", "a")],
    };
    let mut x = prepare_run("wf", g, &names(2), 2, "").unwrap();
    drive(&mut x, &|_, _, _| Ok("x".to_string()), &no_judge, None);
    let m = x.error_message(&RunError::BudgetExhausted { max_steps: 2 });
    assert_eq!(
        m,
        "loop budget exhausted: more than 2 agent activations (raise the workflow's max steps if this is intended)"
    );
    assert!(x.finish().is_err());
}

#[test]
fn zero_max_steps_means_default_budget() {
    let g = Graph { nodes: vec![agent("a")], edges: vec![always("e", "a", "a")] };
    let mut x = prepare_run("wf", g, &names(1), 0, "").unwrap();
    let started = drive(&mut x, &|_, _, _| Ok("again".to_string()), &no_judge, None);
    assert_eq!(started.len(), 25);
    assert!(matches!(x.finish(), Err(RunError::BudgetExhausted { max_steps: 25 })));
}

#[test]
fn loop_exit_settles_pending_join() {
    // s -> l -> r, r -> l loops back on "retry", r -> j on "approved"; s -> j.
    let g = Graph {
        nodes: vec![agent("s"), agent("l"), agent("r"), agent("j")],
        edges: vec![
            always("e1", "s", "l"),
            always("e2", "l", "r"),
            edge("e3", "r", "l", "contains", "retry", false),
            edge("e4", "r", "j", "contains", "approved", false),
            always("e5", "s", "j"),
        ],
    };
    let mut x = prepare_run("wf", g, &names(4), 0, "").unwrap();
    let started = drive(
        &mut x,
        &|n, a, _| {
            if n == 2 && a == 1 {
                Ok("retry please".to_string())
            } else {
                Ok(format!("out{n}"))
            }
        },
        &no_judge,
        None,
    );
    let acts: Vec<(usize, u32)> = started.iter().map(|s| (s.0, s.1)).collect();
    assert_eq!(acts, vec![(0, 1), (1, 1), (2, 1), (1, 2), (2, 2), (3, 1)]);
    assert_eq!(started[5].2, "# Output from upstream agent \"Agent 0\"\nout0");
    assert_eq!(x.finish().unwrap(), Vec::<usize>::new());
}

#[test]
fn settle_skips_node_when_nothing_fired() {
    let g = Graph {
        nodes: vec![agent("l"), agent("j"), agent("k")],
        edges: vec![
            edge("e1", "l", "l", "contains", "again", false),
            edge("e2", "l", "j", "contains", "done", false),
            always("e3", "j", "k"),
        ],
    };
    let mut x = prepare_run("wf", g, &names(3), 0, "").unwrap();
    let started = drive(&mut x, &|_, _, _| Ok("stopped".to_string()), &no_judge, None);
    assert_eq!(started.len(), 1);
    assert_eq!(x.finish().unwrap(), Vec::<usize>::new());
}

#[test]
fn cancel_stops_dispatching() {
    let g = Graph { nodes: vec![agent("a"), agent("b")], edges: vec![always("e1", "a", "b")] };
    let mut x = prepare_run("wf", g, &names(2), 0, "").unwrap();
    let started = drive(&mut x, &|_, _, _| Ok("x".to_string()), &no_judge, Some(1));
    assert_eq!(started.len(), 1);
    let err = x.finish().unwrap_err();
    assert!(matches!(err, RunError::Canceled));
}

#[test]
fn failed_node_fails_the_run() {
    let g = Graph { nodes: vec![agent("a"), agent("b")], edges: vec![always("e1", "a", "b")] };
    let mut x = prepare_run("wf", g, &names(2), 0, "").unwrap();
    let started = drive(&mut x, &|_, _, _| Err("boom".to_string()), &no_judge, None);
    assert_eq!(started.len(), 1);
    let err = x.finish().unwrap_err();
    match &err {
        RunError::NodeFailed { node, detail } => {
            assert_eq!(*node, 0);
            assert_eq!(detail, "boom");
        }
        other => panic!("unexpected {other:?}"),
    }
}

#[test]
fn failed_node_message_names_agent() {
    let g = Graph { nodes: vec![agent("a")], edges: vec![] };
    let x = prepare_run("wf", g, &names(1), 0, "").unwrap();
    let m = x.error_message(&RunError::NodeFailed { node: 0, detail: "boom".to_string() });
    assert_eq!(m, "agent \"Agent 0\" failed: boom");
}

#[test]
fn judge_decides_llm_edge() {
    let g = Graph {
        nodes: vec![agent("a"), agent("b")],
        edges: vec![edge("e1", "a", "b", "llm", "is positive", false)],
    };
    let mut x = prepare_run("wf", g, &names(2), 0, "").unwrap();
    let started = drive(
        &mut x,
        &|_, _, _| Ok("great".to_string()),
        &|q| {
            assert_eq!(
                q,
                "Condition: is positive\n\nAgent output:\ngreat\n\nDoes the output satisfy the condition? YES or NO."
            );
            Ok("yes, it is".to_string())
        },
        None,
    );
    assert_eq!(started.len(), 2);
}

#[test]
fn judge_failure_fails_run() {
    let g = Graph {
        nodes: vec![agent("a"), agent("b")],
        edges: vec![edge("e1", "a", "b", "llm", "ok?", false)],
    };
    let mut x = prepare_run("wf", g, &names(2), 0, "").unwrap();
    drive(&mut x, &|_, _, _| Ok("out".to_string()), &no_judge, None);
    let err = x.finish().unwrap_err();
    assert!(matches!(err, RunError::ConditionFailed { edge: 0, .. }));
}

#[test]
fn condition_failure_message_names_target() {
    let g = Graph {
        nodes: vec![agent("a"), agent("b")],
        edges: vec![edge("e1", "a", "b", "llm", "ok?", false)],
    };
    let mut x = prepare_run("wf", g, &names(2), 0, "").unwrap();
    drive(&mut x, &|_, _, _| Ok("out".to_string()), &no_judge, None);
    let err = x.finish().unwrap_err();
    let g2 = Graph {
        nodes: vec![agent("a"), agent("b")],
        edges: vec![edge("e1", "a", "b", "llm", "ok?", false)],
    };
    let y = prepare_run("wf", g2, &names(2), 0, "").unwrap();
    assert_eq!(
        y.error_message(&err),
        "evaluating condition on edge to \"Agent 1\": LLM condition check failed: no judge here"
    );
}

#[test]
fn file_node_heading_names_file() {
    let g = Graph {
        nodes: vec![file("f", "/tmp/notes/todo.txt"), agent("b")],
        edges: vec![always("e1", "f", "b")],
    };
    let mut x = prepare_run("wf", g, &names(2), 0, "").unwrap();
    assert_eq!(x.node_label(0).unwrap(), "File: todo.txt");
    let started = drive(&mut x, &|_, _, _| Ok("buy milk".to_string()), &no_judge, None);
    assert_eq!(started[1].2, "# Content of file \"todo.txt\"\nbuy milk");
}

#[test]
fn missing_card_name_falls_back_to_node_id() {
    let g = Graph { nodes: vec![agent("writer")], edges: vec![] };
    let x = prepare_run("wf", g, &vec![None], 0, "").unwrap();
    assert_eq!(x.node_label(0).unwrap(), "writer");
    assert!(x.node_label(1).is_none());
}

#[test]
fn workflow_without_nodes_cannot_start() {
    let g = Graph { nodes: vec![], edges: vec![] };
    let err = prepare_run("Empty", g, &vec![], 0, "").unwrap_err();
    assert_eq!(err.message(), "workflow 'Empty' has no nodes");
}

#[test]
fn invalid_workflow_cannot_start() {
    let g = Graph { nodes: vec![agent("a")], edges: vec![always("e1", "a", "zzz")] };
    let err = prepare_run("wf", g, &names(1), 0, "").unwrap_err();
    assert!(matches!(err, StartError::Invalid { .. }));
    assert_eq!(err.message(), "edge a -> zzz references a missing node");
}

#[test]
fn self_loop_runs_until_budget() {
    let g = Graph {
        nodes: vec![agent("a"), agent("b")],
        edges: vec![always("e1", "a", "b"), always("e2", "b", "b")],
    };
    let mut x = prepare_run("wf", g, &names(2), 4, "").unwrap();
    let started = drive(&mut x, &|_, _, _| Ok("x".to_string()), &no_judge, None);
    let acts: Vec<(usize, u32)> = started.iter().map(|s| (s.0, s.1)).collect();
    assert_eq!(acts, vec![(0, 1), (1, 1), (1, 2), (1, 3)]);
}

#[test]
fn failure_message_reports_run_error() {
    let g = Graph { nodes: vec![agent("a")], edges: vec![] };
    let mut x = prepare_run("wf", g, &names(1), 0, "").unwrap();
    assert!(x.failure_message().is_none());
    drive(&mut x, &|_, _, _| Err("disk full".to_string()), &no_judge, None);
    assert_eq!(x.failure_message().unwrap(), "agent \"Agent 0\" failed: disk full");
}

#[test]
fn clean_end_leaves_no_node_waiting() {
    // x is a loop head whose only way on (to y) never fires: settling lets y
    // and everything after it be skipped.
    let g = Graph {
        nodes: vec![agent("x"), agent("y"), agent("z")],
        edges: vec![
            edge("l", "x", "x", "contains", "again", false),
            edge("g", "x", "y", "contains", "never", false),
            always("h", "y", "z"),
        ],
    };
    let mut x = prepare_run("wf", g, &names(3), 0, "").unwrap();
    let started = drive(&mut x, &|_, _, _| Ok("hi".to_string()), &no_judge, None);
    assert_eq!(started.len(), 1);
    assert_eq!(x.finish().unwrap(), Vec::<usize>::new());
}

#[test]
fn shared_edge_id_can_leave_node_waiting() {
    // The same shape, but an unrelated edge shares the id of x -> y: the run
    // records one resolution per edge id, so x -> y never counts as pending
    // and y is reported as never reached.
    let g = Graph {
        nodes: vec![agent("x"), agent("y"), agent("a"), agent("b")],
        edges: vec![
            edge("l", "x", "x", "contains", "again", false),
            edge("q", "x", "y", "contains", "never", false),
            always("q", "a", "b"),
        ],
    };
    let mut x = prepare_run("wf", g, &names(4), 0, "").unwrap();
    drive(&mut x, &|_, _, _| Ok("hi".to_string()), &no_judge, None);
    assert_eq!(x.finish().unwrap(), vec![1]);
}

#[test]
fn activations_are_numbered_per_node_in_start_order() {
    // a feeds b and c; b loops back to a. Each node's activations count 1, 2, ...
    let g = Graph {
        nodes: vec![agent("a"), agent("b"), agent("c")],
        edges: vec![always("e1", "a", "b"), always("e2", "a", "c"), always("e3", "b", "a")],
    };
    let mut x = prepare_run("wf", g, &names(3), 7, "go").unwrap();
    let started = drive(&mut x, &|n, a, _| Ok(format!("out{n}.{a}")), &no_judge, None);
    assert_eq!(started.len(), 7);
    for (j, s) in started.iter().enumerate() {
        let earlier = started[..=j].iter().filter(|t| t.0 == s.0).count() as u32;
        assert_eq!(s.1, earlier, "start {j}");
    }
    assert!(started.iter().any(|s| s.0 == 0 && s.1 == 3));
    assert_eq!(x.steps_used(), 7);
}
