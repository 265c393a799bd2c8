use saioawe::agent::{
    build_toolbox, call_arguments, choose_model, round_budget, servers_to_use, system_prompt, tool_reply_text,
    AgentAction, AgentLoop, CallArguments, Message, ServerTools, ToolCall,
};
use saioawe::mcp::McpTool;
use saioawe::models::McpServerConfig;
use std::collections::HashMap;

const PREAMBLE: &str = "You are one agent inside an automated multi-agent workflow. Your final message is passed verbatim as input to the next agent(s) in the workflow, so make it complete and self-contained. Do not ask questions back - there is no human in the loop.";

fn tool(name: &str) -> McpTool {
    McpTool { name: name.to_string(), description: format!("{name} tool"), input_schema: "{}".to_string() }
}

fn reply(content: &str, calls: Vec<(&str, CallArguments)>) -> Message {
    Message {
        role: "assistant".to_string(),
        content: content.to_string(),
        tool_name: None,
        tool_calls: calls.into_iter().map(|(n, a)| ToolCall { name: n.to_string(), arguments: a }).collect(),
    }
}

fn obj(json: &str) -> CallArguments {
    CallArguments::Value { json: json.to_string(), is_object: true }
}

fn server(name: &str, enabled: bool) -> McpServerConfig {
    McpServerConfig {
        id: name.to_string(),
        name: name.to_string(),
        transport: "stdio".to_string(),
        command: "x".to_string(),
        args: vec![],
        env: HashMap::new(),
        url: String::new(),
        headers: HashMap::new(),
        enabled,
        created_at: String::new(),
        updated_at: String::new(),
    }
}

#[test]
fn system_prompt_adds_card_prompt_and_task() {
    assert_eq!(system_prompt("", " "), PREAMBLE);
    assert_eq!(system_prompt("Be terse.", ""), format!("{PREAMBLE}\n\nBe terse."));
    assert_eq!(
        system_prompt("Be terse.", "Summarize."),
        format!("{PREAMBLE}\n\nBe terse.\n\n## Your task in this workflow\nSummarize.")
    );
    assert_eq!(system_prompt("\n", "Summarize."), format!("{PREAMBLE}\n\n## Your task in this workflow\nSummarize."));
}

#[test]
fn model_falls_back_to_default() {
    assert_eq!(choose_model(&Some("qwen".to_string()), "llama"), "qwen");
    assert_eq!(choose_model(&Some("  ".to_string()), "llama"), "llama");
    assert_eq!(choose_model(&None, "llama"), "llama");
}

#[test]
fn at_least_one_round() {
    assert_eq!(round_budget(0), 1);
    assert_eq!(round_budget(1), 1);
    assert_eq!(round_budget(10), 10);
}

#[test]
fn only_existing_enabled_servers_are_used() {
    let found = vec![Some(server("a", true)), None, Some(server("c", false)), Some(server("d", true))];
    assert_eq!(servers_to_use(&found), vec![0, 3]);
}

#[test]
fn toolbox_exposes_prefixed_names() {
    let servers = vec![
        ServerTools { server: 4, server_name: "web search".to_string(), tools: vec![tool("get"), tool("find")] },
        ServerTools { server: 7, server_name: "mail".to_string(), tools: vec![tool("send")] },
    ];
    let tb = build_toolbox(&servers);
    let names: Vec<&str> = tb.iter().map(|t| t.name.as_str()).collect();
    assert_eq!(names, vec!["web_search__get", "web_search__find", "mail__send"]);
    assert_eq!(tb[2].server, 7);
    assert_eq!(tb[2].tool, "send");
    assert_eq!(tb[0].description, "get tool");
}

#[test]
fn tool_reply_texts() {
    assert_eq!(tool_reply_text("x", true, Ok("data".to_string())), "data");
    assert_eq!(tool_reply_text("x", true, Ok(" \n".to_string())), "(tool returned no output)");
    assert_eq!(tool_reply_text("x", true, Err("timed out".to_string())), "ERROR calling tool: timed out");
    assert_eq!(tool_reply_text("x", false, Ok("data".to_string())), "ERROR: unknown tool 'x'");
}

#[test]
fn call_arguments_are_parsed_and_normalized() {
    let (shown, used) = call_arguments(&CallArguments::Encoded { text: "{\"q\": 1}".to_string() });
    assert_eq!(shown, "{\"q\":1}");
    assert_eq!(used, "{\"q\":1}");
    let (shown, used) = call_arguments(&CallArguments::Encoded { text: "[1,2]".to_string() });
    assert_eq!(shown, "[1,2]");
    assert_eq!(used, "{}");
    let (shown, used) = call_arguments(&CallArguments::Encoded { text: "not json".to_string() });
    assert_eq!(shown, "{}");
    assert_eq!(used, "{}");
    let (shown, used) = call_arguments(&CallArguments::Value { json: "3".to_string(), is_object: false });
    assert_eq!(shown, "3");
    assert_eq!(used, "{}");
}

#[test]
fn reply_without_calls_finishes() {
    let mut a = AgentLoop::new("sys".to_string(), "in".to_string(), vec![], 3);
    assert!(matches!(a.step(false), AgentAction::AskModel { with_tools: true }));
    a.replied(Ok(reply("the answer", vec![])));
    match a.step(false) {
        AgentAction::Finish { output } => assert_eq!(output, "the answer"),
        other => panic!("unexpected {other:?}"),
    }
    let roles: Vec<&str> = a.messages().iter().map(|m| m.role.as_str()).collect();
    assert_eq!(roles, vec!["system", "user", "assistant"]);
    assert_eq!(a.messages()[0].content, "sys");
    assert_eq!(a.messages()[1].content, "in");
}

#[test]
fn tool_calls_are_routed_and_answered() {
    let servers = vec![ServerTools { server: 2, server_name: "fs".to_string(), tools: vec![tool("read")] }];
    let mut a = AgentLoop::new("sys".to_string(), "in".to_string(), build_toolbox(&servers), 2);
    assert!(matches!(a.step(false), AgentAction::AskModel { with_tools: true }));
    a.replied(Ok(reply("", vec![("fs__read", obj("{\"p\":\"a\"}")), ("nope", obj("{}"))])));
    match a.step(false) {
        AgentAction::UseTool { name, shown, arguments, route } => {
            assert_eq!(name, "fs__read");
            assert_eq!(shown, "{\"p\":\"a\"}");
            assert_eq!(arguments, "{\"p\":\"a\"}");
            assert_eq!(route, Some((2, "read".to_string())));
        }
        other => panic!("unexpected {other:?}"),
    }
    a.tool_finished(Ok("file body".to_string()));
    match a.step(false) {
        AgentAction::UseTool { name, route, .. } => {
            assert_eq!(name, "nope");
            assert_eq!(route, None);
        }
        other => panic!("unexpected {other:?}"),
    }
    a.tool_finished(Ok("ignored".to_string()));
    let last = a.messages().last().unwrap();
    assert_eq!(last.role, "tool");
    assert_eq!(last.content, "ERROR: unknown tool 'nope'");
    assert_eq!(last.tool_name.as_deref(), Some("nope"));
    assert_eq!(a.messages()[3].content, "file body");
    assert!(matches!(a.step(false), AgentAction::AskModel { with_tools: true }));
    assert_eq!(a.rounds_used(), 2);
}

#[test]
fn exhausted_budget_forces_final_answer() {
    let mut a = AgentLoop::new("sys".to_string(), "in".to_string(), vec![], 1);
    assert!(matches!(a.step(false), AgentAction::AskModel { with_tools: true }));
    a.replied(Ok(reply("", vec![("t", obj("{}"))])));
    assert!(matches!(a.step(false), AgentAction::UseTool { .. }));
    a.tool_finished(Err("down".to_string()));
    assert!(matches!(a.step(false), AgentAction::AskModel { with_tools: false }));
    let note = a.messages().last().unwrap();
    assert_eq!(note.role, "user");
    assert_eq!(note.content, "Tool budget exhausted. Produce your final result now based on what you have.");
    a.replied(Ok(reply("final", vec![("t", obj("{}"))])));
    match a.step(false) {
        AgentAction::Finish { output } => assert_eq!(output, "final"),
        other => panic!("unexpected {other:?}"),
    }
    assert_eq!(a.rounds_used(), 1);
}

#[test]
fn canceled_run_stops_agent() {
    let mut a = AgentLoop::new("sys".to_string(), "in".to_string(), vec![], 5);
    match a.step(true) {
        AgentAction::Fail { error } => assert_eq!(error, "run canceled"),
        other => panic!("unexpected {other:?}"),
    }
}

#[test]
fn model_failure_fails_agent() {
    let mut a = AgentLoop::new("sys".to_string(), "in".to_string(), vec![], 5);
    a.step(false);
    a.replied(Err("connection refused".to_string()));
    match a.step(false) {
        AgentAction::Fail { error } => assert_eq!(error, "connection refused"),
        other => panic!("unexpected {other:?}"),
    }
}
