use saioawe::guard::allow_request;
use saioawe::input::{agent_display_name, file_display_name, make_heading, make_seed_sections, render_input};
use saioawe::models::{
    default_condition_kind, default_max_iter, default_max_steps, default_node_kind, default_transport, AgentCard,
    Schedule, DEFAULT_MAX_STEPS,
};
use saioawe::order::{order_by, order_by_name};
use saioawe::requests::{new_agent, new_schedule, updated_agent, updated_schedule};
use saioawe::cronspec::LATEST_START_MS;
use saioawe::scheduler::{catch_up_start, is_due, normalize_cron, record_run, window_opening};

fn card(name: &str) -> AgentCard {
    AgentCard {
        id: String::new(),
        name: name.to_string(),
        description: "d".to_string(),
        model: None,
        system_prompt: "p".to_string(),
        mcp_servers: vec!["m".to_string()],
        max_tool_iterations: 4,
        created_at: String::new(),
        updated_at: String::new(),
    }
}

fn schedule(cron: &str, enabled: bool) -> Schedule {
    Schedule {
        id: "s1".to_string(),
        workflow_id: "w1".to_string(),
        cron: cron.to_string(),
        input: "go".to_string(),
        enabled,
        last_run_at: None,
        created_at: "t0".to_string(),
    }
}

#[test]
fn defaults_are_exact() {
    assert_eq!(default_max_iter(), 10);
    assert_eq!(default_node_kind(), "agent");
    assert_eq!(default_condition_kind(), "always");
    assert_eq!(default_max_steps(), 25);
    assert_eq!(DEFAULT_MAX_STEPS, 25);
    assert_eq!(default_transport(), "stdio");
}

#[test]
fn render_input_formats_sections() {
    assert_eq!(render_input(&vec![]), "Execute your task.");
    let secs = vec![("A".to_string(), "one".to_string()), ("B".to_string(), "two".to_string())];
    assert_eq!(render_input(&secs), "# A\none\n\n# B\ntwo");
    assert!(make_seed_sections(" \n").is_empty());
    assert_eq!(make_seed_sections("go"), vec![("Workflow input".to_string(), "go".to_string())]);
}

#[test]
fn headings_and_display_names() {
    assert_eq!(make_heading(true, "a.txt", "x", false), "Content of file \"a.txt\"");
    assert_eq!(make_heading(false, "", "Writer", false), "Output from upstream agent \"Writer\"");
    assert_eq!(make_heading(false, "", "Writer", true), "Output from upstream agent \"Writer\" (loop iteration)");
    assert_eq!(file_display_name("/data/in/report.md"), "report.md");
    assert_eq!(file_display_name("/"), "/");
    assert_eq!(file_display_name(".."), "..");
    assert_eq!(agent_display_name(true, "/x/y.txt", "n", &None), "File: y.txt");
    assert_eq!(agent_display_name(false, "", "n", &Some("Writer".to_string())), "Writer");
    assert_eq!(agent_display_name(false, "", "n", &None), "n");
}

#[test]
fn cron_is_normalized() {
    assert_eq!(normalize_cron("*/5  * * * *").unwrap(), "0 */5 * * * *");
    assert_eq!(normalize_cron(" 0 0 9 * * Mon-Fri ").unwrap(), "0 0 9 * * Mon-Fri");
    let err = normalize_cron("every day").unwrap_err();
    assert_eq!(err.expression, "every day");
    assert!(err.message().starts_with("invalid cron expression 'every day': "));
}

#[test]
fn schedule_due_between_ticks() {
    // Fires at second 0 of every minute.
    let s = schedule("0 * * * * *", true);
    assert!(is_due(&s, 0, 60_000));
    assert!(!is_due(&s, 0, 59_999));
    assert!(is_due(&s, 59_999, 60_000));
    assert!(!is_due(&s, 60_000, 119_999));
    // Many missed fires still make one due tick.
    assert!(is_due(&s, 0, 3_600_000));
    assert!(!is_due(&schedule("0 * * * * *", false), 0, 60_000));
    assert!(!is_due(&schedule("nonsense", true), 0, 60_000));
    assert!(is_due(&schedule("* * * * *", true), 0, 60_000));
}

#[test]
fn normalizing_twice_changes_nothing() {
    for e in ["*/5  * * * *", " 0 0 9 * * Mon-Fri ", "0 0 12 * * * 2030", "@hourly"] {
        let n = normalize_cron(e).unwrap();
        assert_eq!(normalize_cron(&n).unwrap(), n);
    }
}

#[test]
fn due_at_the_end_of_time_range() {
    // The last window the cron crate can search after.
    let s = schedule("0 * * * * *", true);
    assert_eq!(LATEST_START_MS, 8_210_266_876_798_999);
    assert!(!is_due(&s, LATEST_START_MS, i64::MAX));
}

#[test]
fn first_tick_opens_at_the_schedule_mark() {
    assert_eq!(window_opening(Some(1_000), true, 5_000), 1_000);
    assert_eq!(window_opening(Some(1_000), false, 5_000), 5_000);
    assert_eq!(window_opening(Some(9_000), true, 5_000), 5_000);
    assert_eq!(window_opening(None, true, 5_000), 5_000);

    let mut s = schedule("0 * * * * *", true);
    // An unparsable creation time leaves the window where it was.
    assert_eq!(catch_up_start(&s, true, 3_600_000), 3_600_000);
    s.created_at = "1970-01-01T00:00:30.000Z".to_string();
    assert_eq!(catch_up_start(&s, true, 3_600_000), 30_000);
    assert_eq!(catch_up_start(&s, false, 3_600_000), 3_600_000);
    record_run(&mut s, "1970-01-01T00:10:00.500+00:00".to_string());
    assert_eq!(catch_up_start(&s, true, 3_600_000), 600_500);
    // Fires missed since the last run make the first tick due, once.
    let w = catch_up_start(&s, true, 3_600_000);
    assert!(is_due(&s, w, 3_600_000));
    assert!(!is_due(&s, 3_600_000, 3_600_000));
}

#[test]
fn schedule_records_last_run() {
    let mut s = schedule("0 * * * * *", true);
    record_run(&mut s, "t1".to_string());
    assert_eq!(s.last_run_at.as_deref(), Some("t1"));
    assert_eq!(s.created_at, "t0");
}

#[test]
fn create_and_update_set_ids_and_times() {
    let mut c = card("Writer");
    new_agent(&mut c, "id1".to_string(), "t1".to_string());
    assert_eq!((c.id.as_str(), c.created_at.as_str(), c.updated_at.as_str()), ("id1", "t1", "t1"));
    let existing = c;
    let mut changed = card("Editor");
    changed.created_at = "bogus".to_string();
    updated_agent(&mut changed, "id1".to_string(), &existing, "t2".to_string());
    assert_eq!(changed.created_at, "t1");
    assert_eq!(changed.updated_at, "t2");
    assert_eq!(changed.name, "Editor");
    let mut s = schedule("* * * * *", true);
    new_schedule(&mut s, "s9".to_string(), "0 * * * * *".to_string(), "t3".to_string());
    assert_eq!((s.id.as_str(), s.cron.as_str(), s.created_at.as_str()), ("s9", "0 * * * * *", "t3"));
    let mut u = schedule("1 * * * *", false);
    updated_schedule(&mut u, "s9".to_string(), "0 1 * * * *".to_string(), &s);
    assert_eq!(u.created_at, "t3");
    assert_eq!(u.cron, "0 1 * * * *");
}

#[test]
fn listing_order_ignores_case_and_is_stable() {
    let names = vec!["beta".to_string(), "Alpha".to_string(), "alpha".to_string(), "Gamma".to_string(), "ALPHA".to_string()];
    assert_eq!(order_by_name(&names), vec![1, 2, 4, 0, 3]);
    let times = vec!["2024-01-02".to_string(), "2024-01-01".to_string(), "2024-01-02".to_string(), "2023".to_string()];
    assert_eq!(order_by(&times), vec![3, 1, 0, 2]);
    assert!(order_by(&vec![]).is_empty());
}

#[test]
fn guard_on_loopback_bind() {
    let allowed = vec!["http://localhost:5173".to_string()];
    assert!(allow_request("127.0.0.1", Some("127.0.0.1:8321"), None, &allowed));
    assert!(allow_request("127.0.0.1", Some("localhost:8321"), Some("http://localhost:8321"), &allowed));
    assert!(allow_request("127.0.0.1", Some("[::1]:8321"), None, &allowed));
    assert!(allow_request("127.0.0.1", None, None, &allowed));
    assert!(!allow_request("127.0.0.1", Some("evil.example:8321"), None, &allowed));
    assert!(!allow_request("127.0.0.1", Some("127.0.0.1:8321"), Some("http://evil.example"), &allowed));
    assert!(allow_request("127.0.0.1", Some("127.0.0.1:8321"), Some("http://localhost:5173"), &allowed));
    assert!(!allow_request("127.0.0.1", Some("127.0.0.1:8321"), Some("null"), &allowed));
}

#[test]
fn guard_refuses_dns_names_that_look_like_loopback() {
    let allowed: Vec<String> = vec![];
    assert!(!allow_request("127.0.0.1", Some("127.evil.example:8321"), None, &allowed));
    assert!(!allow_request(
        "127.0.0.1",
        Some("127.evil.example:8321"),
        Some("http://127.evil.example:8321"),
        &allowed
    ));
    assert!(allow_request("127.0.0.1", Some("127.255.255.255:8321"), None, &allowed));
    assert!(allow_request("127.0.0.1", Some("127.0.0.1"), Some("http://127.0.0.1"), &allowed));
    for host in ["127.256.0.1", "127.0.0", "127.0.0.1.5", "127.00.0.1", "127.0.0.1x", "127.0.0.", "127.-1.0.1", "127..0.1"] {
        assert!(!allow_request("127.0.0.1", Some(host), None, &allowed), "{host}");
    }
    // A bind that is not loopback leaves the Host header alone.
    assert!(allow_request("0.0.0.0", Some("127.evil.example:8321"), None, &allowed));
}

#[test]
fn guard_on_open_bind() {
    let none: Vec<String> = vec![];
    assert!(allow_request("0.0.0.0", Some("myhost:8321"), None, &none));
    assert!(allow_request("0.0.0.0", Some("myhost:8321"), Some("https://myhost:8321"), &none));
    assert!(!allow_request("0.0.0.0", Some("myhost:8321"), Some("https://other:8321"), &none));
}
