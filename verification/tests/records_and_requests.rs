use saioawe::models::{Run, WorkflowNode, Schedule};
use saioawe::records::{
    file_failure_text, finish_node_run, finish_run, interrupt_node_run, interrupt_run, is_unfinished, needs_card,
    node_run_skipped, node_run_started, node_task, run_started, NodeTask,
};
use saioawe::requests::{check_name, check_schedule_workflow, check_table, runs_limit, schedules_of, Named};

fn node(kind: &str, path: &str, append: bool) -> WorkflowNode {
    WorkflowNode {
        id: "n1".to_string(),
        kind: kind.to_string(),
        agent_card_id: "c".to_string(),
        instructions: String::new(),
        file_path: path.to_string(),
        append,
    }
}

fn run() -> Run {
    run_started("r1".to_string(), "w1".to_string(), "Flow".to_string(), "manual".to_string(), "in".to_string(), "t0".to_string())
}

fn schedule(id: &str, wf: &str) -> Schedule {
    Schedule {
        id: id.to_string(),
        workflow_id: wf.to_string(),
        cron: "0 * * * * *".to_string(),
        input: String::new(),
        enabled: true,
        last_run_at: None,
        created_at: String::new(),
    }
}

#[test]
fn node_kinds_decide_the_task() {
    assert!(matches!(node_task(&node("file", "a.txt", false), "in"), NodeTask::ReadFile { path } if path == "a.txt"));
    match node_task(&node("file_dest", "out.txt", true), "payload") {
        NodeTask::WriteFile { path, append, content } => {
            assert_eq!(path, "out.txt");
            assert!(append);
            assert_eq!(content, "payload");
        }
        other => panic!("unexpected {other:?}"),
    }
    assert!(matches!(node_task(&node("agent", "", false), "in"), NodeTask::RunAgent { input } if input == "in"));
    assert!(matches!(node_task(&node("", "", false), "in"), NodeTask::RunAgent { .. }));
    assert!(!needs_card("file"));
    assert!(!needs_card("file_dest"));
    assert!(needs_card("agent"));
}

#[test]
fn file_failures_name_the_file() {
    assert_eq!(file_failure_text(true, "a.txt", "not found"), "reading file 'a.txt': not found");
    assert_eq!(file_failure_text(false, "b.txt", "denied"), "writing file 'b.txt': denied");
}

#[test]
fn node_run_lifecycle() {
    let mut nr = node_run_started("id".to_string(), "r1".to_string(), &node("file", "a.txt", false), "File: a.txt".to_string(), "ignored", 2, "t1".to_string());
    assert_eq!(nr.status, "running");
    assert_eq!(nr.input, "a.txt");
    assert_eq!(nr.activation, 2);
    finish_node_run(&mut nr, Ok(("content".to_string(), None)), "t2".to_string());
    assert_eq!(nr.status, "succeeded");
    assert_eq!(nr.output, "content");
    assert_eq!(nr.transcript, "null");
    assert_eq!(nr.finished_at.as_deref(), Some("t2"));
    let mut failed = node_run_started("id".to_string(), "r1".to_string(), &node("agent", "", false), "Writer".to_string(), "the input", 1, "t1".to_string());
    assert_eq!(failed.input, "the input");
    finish_node_run(&mut failed, Err("model down".to_string()), "t3".to_string());
    assert_eq!(failed.status, "failed");
    assert_eq!(failed.error.as_deref(), Some("model down"));
    let skipped = node_run_skipped("s".to_string(), "r1".to_string(), "n2".to_string(), "B".to_string(), "t4".to_string(), "t5".to_string());
    assert_eq!(skipped.status, "skipped");
    assert_eq!(skipped.activation, 0);
    assert_eq!(skipped.finished_at.as_deref(), Some("t5"));
}

#[test]
fn run_end_status() {
    let mut ok = run();
    assert_eq!(ok.status, "running");
    finish_run(&mut ok, Ok(()), false, "t9".to_string());
    assert_eq!(ok.status, "succeeded");
    assert_eq!(ok.error, None);
    let mut failed = run();
    finish_run(&mut failed, Err("boom".to_string()), false, "t9".to_string());
    assert_eq!(failed.status, "failed");
    assert_eq!(failed.error.as_deref(), Some("boom"));
    let mut canceled = run();
    finish_run(&mut canceled, Err("run canceled".to_string()), true, "t9".to_string());
    assert_eq!(canceled.status, "canceled");
    assert_eq!(canceled.finished_at.as_deref(), Some("t9"));
}

#[test]
fn restart_interrupts_unfinished_runs() {
    assert!(is_unfinished("running"));
    assert!(is_unfinished("pending"));
    assert!(!is_unfinished("failed"));
    let mut r = run();
    interrupt_run(&mut r, &"t5".to_string());
    assert_eq!(r.status, "interrupted");
    assert_eq!(
        r.error.as_deref(),
        Some("the server was restarted while this run was in progress; it was not resumed (re-run it manually if needed)")
    );
    assert_eq!(r.finished_at.as_deref(), Some("t5"));
    let mut nr = node_run_started("id".to_string(), "r1".to_string(), &node("agent", "", false), "A".to_string(), "x", 1, "t1".to_string());
    nr.finished_at = Some("t2".to_string());
    interrupt_node_run(&mut nr, &"t5".to_string());
    assert_eq!(nr.status, "interrupted");
    assert_eq!(nr.error.as_deref(), Some("process restarted before this agent finished"));
    assert_eq!(nr.finished_at.as_deref(), Some("t2"));
}

#[test]
fn records_need_names() {
    assert!(check_name(Named::Agent, "Writer").is_ok());
    assert_eq!(check_name(Named::Agent, " ").unwrap_err(), "agent name must not be empty");
    assert_eq!(check_name(Named::Workflow, "").unwrap_err(), "workflow name must not be empty");
    assert_eq!(check_name(Named::McpServer, "\t").unwrap_err(), "MCP server name must not be empty");
}

#[test]
fn only_entity_tables_exist() {
    for t in ["agent_cards", "workflows", "mcp_servers", "schedules"] {
        assert!(check_table(t).is_ok());
    }
    assert_eq!(check_table("runs").unwrap_err(), "unknown table runs");
}

#[test]
fn runs_listing_limit() {
    assert_eq!(runs_limit(None), 50);
    assert_eq!(runs_limit(Some(10)), 10);
    assert_eq!(runs_limit(Some(5000)), 500);
}

#[test]
fn deleted_workflow_takes_its_schedules() {
    let s = vec![schedule("a", "w1"), schedule("b", "w2"), schedule("c", "w1")];
    assert_eq!(schedules_of(&s, "w1"), vec![0, 2]);
    assert!(schedules_of(&s, "w3").is_empty());
    assert_eq!(check_schedule_workflow(false).unwrap_err(), "schedule references an unknown workflow");
    assert!(check_schedule_workflow(true).is_ok());
}
