//! One activation of an agent node: the system prompt it is given, the model
//! it runs on, the MCP tools it may call, and its conversation with the
//! model as a state machine. The caller talks to the model and the MCP
//! servers; the machine decides what is asked next and what the agent's
//! final output is.
use vstd::prelude::*;
use crate::models::McpServerConfig;
use crate::mcp::{McpTool, tool_name, prefixed_tool_name};
use crate::json::{json_parse, json_parsed};
use crate::text::{blank, is_blank, text_eq, text_to_string, push_text};

verus! {

// ---------------------------------------------------------------- prompt

pub open spec fn preamble() -> Seq<char> {
    "You are one agent inside an automated multi-agent workflow. Your final message is passed verbatim as input to the next agent(s) in the workflow, so make it complete and self-contained. Do not ask questions back - there is no human in the loop."@
}

/// The system prompt of an agent: the workflow preamble, then the card's own
/// system prompt and the node's instructions, each only when not blank.
pub open spec fn system_prompt_text(card_prompt: Seq<char>, instructions: Seq<char>) -> Seq<char> {
    let with_card = if blank(card_prompt) { preamble() } else { preamble() + "\n\n"@ + card_prompt };
    if blank(instructions) {
        with_card
    } else {
        with_card + "\n\n## Your task in this workflow\n"@ + instructions
    }
}

/// The system prompt always opens with the workflow preamble; the card's
/// own prompt follows after a blank line unless it is blank, and the node's
/// instructions come last, under their own heading, unless they are blank.
pub proof fn lemma_system_prompt_parts(card_prompt: Seq<char>, instructions: Seq<char>)
    ensures
        system_prompt_text(card_prompt, instructions).take(preamble().len() as int) == preamble(),
        blank(instructions) ==> system_prompt_text(card_prompt, instructions) == system_prompt_text(card_prompt, Seq::empty()),
        !blank(instructions) ==> system_prompt_text(card_prompt, instructions) == system_prompt_text(card_prompt, Seq::empty())
            + "\n\n## Your task in this workflow\n"@ + instructions,
        blank(card_prompt) ==> system_prompt_text(card_prompt, Seq::empty()) == preamble(),
        !blank(card_prompt) ==> system_prompt_text(card_prompt, Seq::empty()) == preamble() + "\n\n"@ + card_prompt,
{
    assert(blank(Seq::<char>::empty()));
    let t = system_prompt_text(card_prompt, instructions);
    let w = if blank(card_prompt) { preamble() } else { preamble() + "\n\n"@ + card_prompt };
    assert(w.take(preamble().len() as int) =~= preamble());
    if !blank(instructions) {
        assert(t.take(preamble().len() as int) =~= w.take(preamble().len() as int));
    }
}

pub fn system_prompt(card_prompt: &str, instructions: &str) -> (r: String)
    ensures
        r@ == system_prompt_text(card_prompt@, instructions@),
{
    let mut r = text_to_string(
        "You are one agent inside an automated multi-agent workflow. Your final message is passed verbatim as input to the next agent(s) in the workflow, so make it complete and self-contained. Do not ask questions back - there is no human in the loop.",
    );
    if !is_blank(card_prompt) {
        push_text(&mut r, "\n\n");
        push_text(&mut r, card_prompt);
    }
    if !is_blank(instructions) {
        push_text(&mut r, "\n\n## Your task in this workflow\n");
        push_text(&mut r, instructions);
    }
    r
}

/// The model an agent runs on: the card's, unless it names none (or only
/// blanks), then the server-wide default.
pub open spec fn model_for(card_model: Option<Seq<char>>, default_model: Seq<char>) -> Seq<char> {
    match card_model {
        Some(m) => if blank(m) { default_model } else { m },
        None => default_model,
    }
}

pub fn choose_model(card_model: &Option<String>, default_model: &str) -> (r: String)
    ensures
        r@ == model_for(
            match card_model {
                Some(m) => Some(m@),
                None => None,
            },
            default_model@,
        ),
{
    match card_model {
        Some(m) => if is_blank(m.as_str()) {
            text_to_string(default_model)
        } else {
            m.clone()
        },
        None => text_to_string(default_model),
    }
}

/// The rounds of tool use an agent gets: its card's `max_tool_iterations`,
/// but at least one.
pub open spec fn tool_rounds(max_tool_iterations: u32) -> u32 {
    if max_tool_iterations >= 1 {
        max_tool_iterations
    } else {
        1
    }
}

pub fn round_budget(max_tool_iterations: u32) -> (r: u32)
    ensures
        r == tool_rounds(max_tool_iterations),
{
    if max_tool_iterations >= 1 {
        max_tool_iterations
    } else {
        1
    }
}

// ---------------------------------------------------------------- tools

/// The MCP servers of an agent card to take tools from, as positions in
/// `found` (the card's servers looked up in order; `None` for one that no
/// longer exists): those that exist and are enabled.
pub open spec fn usable_servers(found: Seq<Option<McpServerConfig>>) -> Seq<usize>
    decreases found.len(),
{
    if found.len() == 0 {
        Seq::empty()
    } else {
        let prev = usable_servers(found.drop_last());
        match found.last() {
            Some(c) => if c.enabled {
                prev.push((found.len() - 1) as usize)
            } else {
                prev
            },
            None => prev,
        }
    }
}

/// The servers an agent takes tools from are exactly the ones that exist
/// and are enabled, in the card's order: each position chosen names such a
/// server, positions only grow, and one more server is chosen when, and only
/// when, it exists and is enabled.
pub proof fn lemma_usable_servers(found: Seq<Option<McpServerConfig>>, next: Option<McpServerConfig>)
    requires
        found.len() < usize::MAX,
    ensures
        forall|j: int| 0 <= j < usable_servers(found).len() ==> {
            let p = #[trigger] usable_servers(found)[j];
            &&& p < found.len()
            &&& found[p as int] matches Some(c) && c.enabled
        },
        forall|i: int, j: int| 0 <= i < j < usable_servers(found).len() ==> usable_servers(found)[i] < usable_servers(found)[j],
        (next matches Some(c) && c.enabled) ==> usable_servers(found.push(next)) == usable_servers(found).push(found.len() as usize),
        !(next matches Some(c) && c.enabled) ==> usable_servers(found.push(next)) == usable_servers(found),
    decreases found.len(),
{
    assert(found.push(next).drop_last() =~= found);
    if found.len() > 0 {
        lemma_usable_servers(found.drop_last(), found.last());
        assert(found.drop_last().push(found.last()) =~= found);
        let prev = usable_servers(found.drop_last());
        assert forall|j: int| 0 <= j < usable_servers(found).len() implies {
            let p = #[trigger] usable_servers(found)[j];
            &&& p < found.len()
            &&& found[p as int] matches Some(c) && c.enabled
        } by {
            if j < prev.len() {
                assert(usable_servers(found)[j] == prev[j]);
                assert(found[prev[j] as int] == found.drop_last()[prev[j] as int]);
            } else {
                assert(usable_servers(found)[j] == (found.len() - 1) as usize);
            }
        }
        assert forall|i: int, j: int| 0 <= i < j < usable_servers(found).len() implies usable_servers(found)[i]
            < usable_servers(found)[j] by {
            if j < prev.len() {
                assert(usable_servers(found)[i] == prev[i]);
                assert(usable_servers(found)[j] == prev[j]);
            } else {
                assert(usable_servers(found)[i] == prev[i]);
                assert(prev[i] < found.drop_last().len());
                assert(usable_servers(found)[j] == (found.len() - 1) as usize);
            }
        }
    }
}

pub fn servers_to_use(found: &Vec<Option<McpServerConfig>>) -> (r: Vec<usize>)
    ensures
        r@ == usable_servers(found@),
{
    let mut r: Vec<usize> = Vec::new();
    let mut i: usize = 0;
    while i < found.len()
        invariant
            i <= found@.len(),
            r@ == usable_servers(found@.take(i as int)),
        decreases found.len() - i,
    {
        proof {
            assert(found@.take(i + 1).drop_last() =~= found@.take(i as int));
            assert(found@.take(i + 1).last() == found@[i as int]);
        }
        match &found[i] {
            Some(c) => if c.enabled {
                r.push(i);
            },
            None => {},
        }
        i = i + 1;
    }
    assert(found@.take(found@.len() as int) =~= found@);
    r
}

/// The tools one MCP server offers an agent; `server` is where its
/// configuration stands for the caller.
#[derive(Debug)]
pub struct ServerTools {
    pub server: usize,
    pub server_name: String,
    pub tools: Vec<McpTool>,
}

/// A tool as the agent's model is offered it, and where a call of it goes:
/// `name` is the exposed name, `tool` the name on MCP server `server`.
#[derive(Debug)]
pub struct AgentTool {
    pub name: String,
    pub description: String,
    pub parameters: String,
    pub server: usize,
    pub tool: String,
}

pub open spec fn agent_tool_view(t: AgentTool) -> (Seq<char>, Seq<char>, Seq<char>, usize, Seq<char>) {
    (t.name@, t.description@, t.parameters@, t.server, t.tool@)
}

pub open spec fn agent_tools_view(v: Seq<AgentTool>) -> Seq<(Seq<char>, Seq<char>, Seq<char>, usize, Seq<char>)> {
    v.map_values(|t: AgentTool| agent_tool_view(t))
}

/// The tools of one server, each exposed as `<server>__<tool>`.
pub open spec fn server_entries(st: ServerTools) -> Seq<(Seq<char>, Seq<char>, Seq<char>, usize, Seq<char>)> {
    st.tools@.map_values(
        |t: McpTool| (tool_name(st.server_name@, t.name@), t.description@, t.input_schema@, st.server, t.name@),
    )
}

/// The tools of all the servers, server by server, in order.
pub open spec fn toolbox(servers: Seq<ServerTools>) -> Seq<(Seq<char>, Seq<char>, Seq<char>, usize, Seq<char>)>
    decreases servers.len(),
{
    if servers.len() == 0 {
        Seq::empty()
    } else {
        toolbox(servers.drop_last()) + server_entries(servers.last())
    }
}

pub fn build_toolbox(servers: &Vec<ServerTools>) -> (r: Vec<AgentTool>)
    ensures
        agent_tools_view(r@) == toolbox(servers@),
{
    let mut r: Vec<AgentTool> = Vec::new();
    let mut i: usize = 0;
    while i < servers.len()
        invariant
            i <= servers@.len(),
            agent_tools_view(r@) == toolbox(servers@.take(i as int)),
        decreases servers.len() - i,
    {
        proof {
            assert(servers@.take(i + 1).drop_last() =~= servers@.take(i as int));
            assert(servers@.take(i + 1).last() == servers@[i as int]);
        }
        let st = &servers[i];
        let ghost r0 = agent_tools_view(r@);
        let mut j: usize = 0;
        while j < st.tools.len()
            invariant
                st == servers@[i as int],
                j <= st.tools@.len(),
                agent_tools_view(r@) == r0 + server_entries(*st).take(j as int),
            decreases st.tools.len() - j,
        {
            let t = &st.tools[j];
            let ghost before = agent_tools_view(r@);
            r.push(AgentTool {
                name: prefixed_tool_name(st.server_name.as_str(), t.name.as_str()),
                description: t.description.clone(),
                parameters: t.input_schema.clone(),
                server: st.server,
                tool: t.name.clone(),
            });
            proof {
                assert(server_entries(*st).take(j + 1) =~= server_entries(*st).take(j as int).push(server_entries(*st)[j as int]));
                assert(agent_tools_view(r@) =~= before.push(server_entries(*st)[j as int]));
            }
            j = j + 1;
        }
        assert(server_entries(*st).take(st.tools@.len() as int) =~= server_entries(*st));
        i = i + 1;
    }
    assert(servers@.take(servers@.len() as int) =~= servers@);
    r
}

/// Where a call of the exposed name `name` goes: the last tool registered
/// under that name (a later server's tool replaces an earlier one's).
pub open spec fn route_of(tools: Seq<(Seq<char>, Seq<char>, Seq<char>, usize, Seq<char>)>, name: Seq<char>) -> Option<int>
    decreases tools.len(),
{
    if tools.len() == 0 {
        None
    } else if tools.last().0 == name {
        Some(tools.len() - 1)
    } else {
        route_of(tools.drop_last(), name)
    }
}

proof fn lemma_route_of_bounds(tools: Seq<(Seq<char>, Seq<char>, Seq<char>, usize, Seq<char>)>, name: Seq<char>)
    ensures
        route_of(tools, name) matches Some(i) ==> 0 <= i < tools.len() && tools[i].0 == name,
    decreases tools.len(),
{
    if tools.len() > 0 && tools.last().0 != name {
        lemma_route_of_bounds(tools.drop_last(), name);
    }
}

fn find_route(tools: &Vec<AgentTool>, name: &str) -> (r: Option<usize>)
    ensures
        match r {
            Some(i) => route_of(agent_tools_view(tools@), name@) == Some(i as int),
            None => route_of(agent_tools_view(tools@), name@) is None,
        },
{
    let ghost all = agent_tools_view(tools@);
    let mut k = tools.len();
    assert(all.take(k as int) =~= all);
    while k > 0
        invariant
            all == agent_tools_view(tools@),
            k <= tools@.len(),
            route_of(all, name@) == route_of(all.take(k as int), name@),
        decreases k,
    {
        let ghost pre = all.take(k as int);
        proof {
            assert(pre.last() == agent_tool_view(tools@[k - 1]));
            assert(pre.drop_last() =~= all.take(k - 1));
        }
        if text_eq(tools[k - 1].name.as_str(), name) {
            return Some(k - 1);
        }
        k = k - 1;
    }
    assert(all.take(0) =~= Seq::<(Seq<char>, Seq<char>, Seq<char>, usize, Seq<char>)>::empty());
    None
}

// ---------------------------------------------------------------- messages

/// The arguments of a tool call as the model sent them: a JSON value (as
/// JSON text, and whether it is an object), or a string holding JSON text.
#[derive(Debug)]
pub enum CallArguments {
    Value { json: String, is_object: bool },
    Encoded { text: String },
}

pub enum CallArgumentsView {
    Value(Seq<char>, bool),
    Encoded(Seq<char>),
}

impl CallArguments {
    pub open spec fn view(&self) -> CallArgumentsView {
        match self {
            CallArguments::Value { json, is_object } => CallArgumentsView::Value(json@, *is_object),
            CallArguments::Encoded { text } => CallArgumentsView::Encoded(text@),
        }
    }
}

/// The arguments of a call as shown (a string is parsed as JSON, `{}` when
/// that fails) and as handed to the tool (an object, or `{}`).
pub open spec fn arguments_of(a: CallArgumentsView) -> (Seq<char>, Seq<char>) {
    match a {
        CallArgumentsView::Value(json, is_object) => (json, if is_object { json } else { "{}"@ }),
        CallArgumentsView::Encoded(text) => match json_parsed(text) {
            Some((json, is_object)) => (json, if is_object { json } else { "{}"@ }),
            None => ("{}"@, "{}"@),
        },
    }
}

pub fn call_arguments(a: &CallArguments) -> (r: (String, String))
    ensures
        (r.0@, r.1@) == arguments_of(a.view()),
{
    match a {
        CallArguments::Value { json, is_object } => (json.clone(), if *is_object {
            json.clone()
        } else {
            text_to_string("{}")
        }),
        CallArguments::Encoded { text } => match json_parse(text.as_str()) {
            Some((json, is_object)) => {
                let used = if is_object {
                    json.clone()
                } else {
                    text_to_string("{}")
                };
                (json, used)
            },
            None => (text_to_string("{}"), text_to_string("{}")),
        },
    }
}

/// A tool call in a model reply.
#[derive(Debug)]
pub struct ToolCall {
    pub name: String,
    pub arguments: CallArguments,
}

/// A message of an agent's conversation with its model: `role` is "system",
/// "user", "assistant" or "tool"; a tool message names its tool; an assistant
/// message may carry tool calls.
#[derive(Debug)]
pub struct Message {
    pub role: String,
    pub content: String,
    pub tool_name: Option<String>,
    pub tool_calls: Vec<ToolCall>,
}

pub open spec fn call_view(c: ToolCall) -> (Seq<char>, CallArgumentsView) {
    (c.name@, c.arguments.view())
}

pub open spec fn calls_view(v: Seq<ToolCall>) -> Seq<(Seq<char>, CallArgumentsView)> {
    v.map_values(|c: ToolCall| call_view(c))
}

pub struct MessageView {
    pub role: Seq<char>,
    pub content: Seq<char>,
    pub tool_name: Option<Seq<char>>,
    pub tool_calls: Seq<(Seq<char>, CallArgumentsView)>,
}

pub open spec fn message_view(m: Message) -> MessageView {
    MessageView {
        role: m.role@,
        content: m.content@,
        tool_name: match m.tool_name {
            Some(n) => Some(n@),
            None => None,
        },
        tool_calls: calls_view(m.tool_calls@),
    }
}

pub open spec fn messages_view(v: Seq<Message>) -> Seq<MessageView> {
    v.map_values(|m: Message| message_view(m))
}

pub open spec fn plain_message(role: Seq<char>, content: Seq<char>) -> MessageView {
    MessageView { role, content, tool_name: None, tool_calls: Seq::empty() }
}

fn new_message(role: &str, content: String) -> (m: Message)
    ensures
        message_view(m) == plain_message(role@, content@),
{
    let m = Message { role: text_to_string(role), content, tool_name: None, tool_calls: Vec::new() };
    assert(calls_view(m.tool_calls@) =~= Seq::empty());
    m
}

/// The text a tool call is answered with: an unknown tool is named as such;
/// a tool's reply, or "(tool returned no output)" for a blank one; or the
/// error calling it.
pub open spec fn tool_reply(name: Seq<char>, routed: bool, result: Result<Seq<char>, Seq<char>>) -> Seq<char> {
    if !routed {
        "ERROR: unknown tool '"@ + name + "'"@
    } else {
        match result {
            Ok(t) => if blank(t) { "(tool returned no output)"@ } else { t },
            Err(e) => "ERROR calling tool: "@ + e,
        }
    }
}

pub fn tool_reply_text(name: &str, routed: bool, result: Result<String, String>) -> (r: String)
    ensures
        r@ == tool_reply(
            name@,
            routed,
            match result {
                Ok(t) => Ok(t@),
                Err(e) => Err(e@),
            },
        ),
{
    if !routed {
        let mut m = text_to_string("ERROR: unknown tool '");
        push_text(&mut m, name);
        push_text(&mut m, "'");
        return m;
    }
    match result {
        Ok(t) => if is_blank(t.as_str()) {
            text_to_string("(tool returned no output)")
        } else {
            t
        },
        Err(e) => {
            let mut m = text_to_string("ERROR calling tool: ");
            push_text(&mut m, e.as_str());
            m
        },
    }
}

pub open spec fn budget_note() -> Seq<char> {
    "Tool budget exhausted. Produce your final result now based on what you have."@
}

// ---------------------------------------------------------------- the loop

/// Where an agent's conversation stands.
#[derive(Debug)]
pub enum AgentPhase {
    /// At the top of a round of tool use.
    Turn,
    /// Waiting for the model's reply; `last` for the final ask, made without
    /// tools once the rounds are used up.
    AwaitReply { last: bool },
    /// Running the tool calls of the last reply; `next` is the one to run.
    Tools { calls: Vec<ToolCall>, next: usize },
    /// The agent is done; `output` is its final message.
    Finished { output: String },
    /// The activation failed.
    Failed { error: String },
}

pub enum AgentPhaseView {
    Turn,
    AwaitReply(bool),
    Tools(Seq<(Seq<char>, CallArgumentsView)>, int),
    Finished(Seq<char>),
    Failed(Seq<char>),
}

pub open spec fn agent_phase_view(p: AgentPhase) -> AgentPhaseView {
    match p {
        AgentPhase::Turn => AgentPhaseView::Turn,
        AgentPhase::AwaitReply { last } => AgentPhaseView::AwaitReply(last),
        AgentPhase::Tools { calls, next } => AgentPhaseView::Tools(calls_view(calls@), next as int),
        AgentPhase::Finished { output } => AgentPhaseView::Finished(output@),
        AgentPhase::Failed { error } => AgentPhaseView::Failed(error@),
    }
}

/// What the caller is to do for the agent.
#[derive(Debug)]
pub enum AgentAction {
    /// Ask the model with the conversation so far (`messages`), offering the
    /// tools when `with_tools`, and report the reply with `replied`.
    AskModel { with_tools: bool },
    /// Run the tool call `name`: `shown` are its arguments as shown, and,
    /// when it has a `route` (server, tool), call that tool with `arguments`;
    /// then report with `tool_finished`.
    UseTool { name: String, shown: String, arguments: String, route: Option<(usize, String)> },
    /// The agent's final output.
    Finish { output: String },
    /// The activation failed.
    Fail { error: String },
}

pub enum AgentActionView {
    AskModel(bool),
    UseTool(Seq<char>, Seq<char>, Seq<char>, Option<(usize, Seq<char>)>),
    Finish(Seq<char>),
    Fail(Seq<char>),
}

impl AgentAction {
    pub open spec fn view(&self) -> AgentActionView {
        match self {
            AgentAction::AskModel { with_tools } => AgentActionView::AskModel(*with_tools),
            AgentAction::UseTool { name, shown, arguments, route } => AgentActionView::UseTool(
                name@,
                shown@,
                arguments@,
                match route {
                    Some(r) => Some((r.0, r.1@)),
                    None => None,
                },
            ),
            AgentAction::Finish { output } => AgentActionView::Finish(output@),
            AgentAction::Fail { error } => AgentActionView::Fail(error@),
        }
    }
}

/// The fixed part of an agent's activation: its tools and its rounds.
pub struct AgentCtx {
    pub tools: Seq<(Seq<char>, Seq<char>, Seq<char>, usize, Seq<char>)>,
    pub rounds: u32,
}

/// The changing part: the conversation, the rounds begun, and the phase.
pub struct AgentState {
    pub messages: Seq<MessageView>,
    pub round: u32,
    pub phase: AgentPhaseView,
}

pub open spec fn agent_start(system: Seq<char>, input: Seq<char>) -> AgentState {
    AgentState {
        messages: seq![plain_message("system"@, system), plain_message("user"@, input)],
        round: 0,
        phase: AgentPhaseView::Turn,
    }
}

/// An agent's conversation opens with its system prompt, then its input as
/// a user message, at the top of its first round.
pub proof fn lemma_agent_start(system: Seq<char>, input: Seq<char>)
    ensures
        agent_start(system, input).messages.len() == 2,
        agent_start(system, input).messages[0].role == "system"@ && agent_start(system, input).messages[0].content == system,
        agent_start(system, input).messages[1].role == "user"@ && agent_start(system, input).messages[1].content == input,
        agent_start(system, input).round == 0,
        agent_start(system, input).phase == AgentPhaseView::Turn,
{
}

pub open spec fn use_tool_action(c: AgentCtx, call: (Seq<char>, CallArgumentsView)) -> AgentActionView {
    let (shown, used) = arguments_of(call.1);
    AgentActionView::UseTool(
        call.0,
        shown,
        used,
        match route_of(c.tools, call.0) {
            Some(i) => Some((c.tools[i].3, c.tools[i].4)),
            None => None,
        },
    )
}

/// The next thing to do. At the top of a round: a canceled run fails the
/// activation, otherwise a new round asks the model with the tools; once the
/// rounds are used up, the model is told so and asked once more, without
/// tools. Elsewhere the phase tells what is awaited.
pub open spec fn agent_step(c: AgentCtx, s: AgentState, canceled: bool) -> (AgentState, AgentActionView) {
    match s.phase {
        AgentPhaseView::Turn => if s.round < c.rounds {
            if canceled {
                (AgentState { phase: AgentPhaseView::Failed("run canceled"@), ..s }, AgentActionView::Fail("run canceled"@))
            } else {
                (AgentState { round: (s.round + 1) as u32, phase: AgentPhaseView::AwaitReply(false), ..s }, AgentActionView::AskModel(true))
            }
        } else {
            (
                AgentState {
                    messages: s.messages.push(plain_message("user"@, budget_note())),
                    phase: AgentPhaseView::AwaitReply(true),
                    ..s
                },
                AgentActionView::AskModel(false),
            )
        },
        AgentPhaseView::AwaitReply(last) => (s, AgentActionView::AskModel(!last)),
        AgentPhaseView::Tools(calls, next) => (s, use_tool_action(c, calls[next])),
        AgentPhaseView::Finished(out) => (s, AgentActionView::Finish(out)),
        AgentPhaseView::Failed(e) => (s, AgentActionView::Fail(e)),
    }
}

/// At the top of a round: while rounds are left, a canceled run fails the
/// activation and otherwise the model is asked with its tools, using up one
/// round; once they are used up, the model is told so in a user message and
/// asked once more without tools. The conversation is otherwise untouched.
pub proof fn lemma_round_top(c: AgentCtx, s: AgentState, canceled: bool)
    requires
        s.phase is Turn,
    ensures
        ({
            let (s2, action) = agent_step(c, s, canceled);
            &&& (s.round < c.rounds && canceled) ==> action == AgentActionView::Fail("run canceled"@)
                && s2.messages == s.messages
            &&& (s.round < c.rounds && !canceled) ==> action == AgentActionView::AskModel(true) && s2.messages
                == s.messages && s2.round == s.round + 1 && s2.phase == AgentPhaseView::AwaitReply(false)
            &&& s.round >= c.rounds ==> action == AgentActionView::AskModel(false) && s2.round == s.round
                && s2.messages == s.messages.push(
                MessageView {
                    role: "user"@,
                    content: "Tool budget exhausted. Produce your final result now based on what you have."@,
                    tool_name: None,
                    tool_calls: Seq::empty(),
                },
            ) && s2.phase == AgentPhaseView::AwaitReply(true)
        }),
{
}

/// The model replied (or asking it failed): the reply joins the
/// conversation; without tool calls (or after the final ask) its content is
/// the agent's output, otherwise its calls are run in order.
pub open spec fn agent_replied(s: AgentState, reply: Result<MessageView, Seq<char>>) -> AgentState {
    match s.phase {
        AgentPhaseView::AwaitReply(last) => match reply {
            Err(e) => AgentState { phase: AgentPhaseView::Failed(e), ..s },
            Ok(m) => if last || m.tool_calls.len() == 0 {
                AgentState { messages: s.messages.push(m), phase: AgentPhaseView::Finished(m.content), ..s }
            } else {
                AgentState { messages: s.messages.push(m), phase: AgentPhaseView::Tools(m.tool_calls, 0), ..s }
            },
        },
        _ => s,
    }
}

/// The model's reply joins the conversation whole: when a reply is awaited
/// and comes, the conversation grows by exactly that message (its role,
/// content, tool name and tool calls), and the calls it asks for are the ones
/// that get run, in order. A failed request adds nothing to it.
pub proof fn lemma_reply_joins_conversation(s: AgentState, m: MessageView, why: Seq<char>)
    requires
        s.phase is AwaitReply,
    ensures
        agent_replied(s, Ok(m)).messages == s.messages.push(m),
        agent_replied(s, Ok(m)).messages.last() == m,
        agent_replied(s, Ok(m)).phase matches AgentPhaseView::Tools(calls, _) ==> calls == m.tool_calls,
        agent_replied(s, Err(why)).messages == s.messages,
{
}

/// A tool call was run (`result` is what the tool gave, and is not looked at
/// for a call without a route): its reply text joins the conversation as a
/// tool message naming the tool; after the last call a new round begins.
pub open spec fn agent_tool_finished(c: AgentCtx, s: AgentState, result: Result<Seq<char>, Seq<char>>) -> AgentState {
    match s.phase {
        AgentPhaseView::Tools(calls, next) => if 0 <= next < calls.len() {
            let call = calls[next];
            let msg = MessageView {
                role: "tool"@,
                content: tool_reply(call.0, route_of(c.tools, call.0) is Some, result),
                tool_name: Some(call.0),
                tool_calls: Seq::empty(),
            };
            if next + 1 < calls.len() {
                AgentState { messages: s.messages.push(msg), phase: AgentPhaseView::Tools(calls, next + 1), ..s }
            } else {
                AgentState { messages: s.messages.push(msg), phase: AgentPhaseView::Turn, ..s }
            }
        } else {
            s
        },
        _ => s,
    }
}

/// A reply without tool calls, or the reply to the final ask, ends the
/// agent with that reply's content as its output; otherwise its calls are run
/// from the first.
pub proof fn lemma_reply_ends_or_runs_calls(s: AgentState, m: MessageView)
    requires
        s.phase is AwaitReply,
    ensures
        (m.tool_calls.len() == 0 || s.phase == AgentPhaseView::AwaitReply(true))
            ==> agent_replied(s, Ok(m)).phase == AgentPhaseView::Finished(m.content),
        (m.tool_calls.len() > 0 && s.phase == AgentPhaseView::AwaitReply(false))
            ==> agent_replied(s, Ok(m)).phase == AgentPhaseView::Tools(m.tool_calls, 0),
{
}

/// Each tool call is answered in the conversation, in the order asked: the
/// call being run gets one tool message naming the tool; a routed call that
/// succeeded with some text is answered with exactly that text, a failed one
/// with its error; after the last call a new round begins.
pub proof fn lemma_tool_answered(c: AgentCtx, s: AgentState, result: Result<Seq<char>, Seq<char>>)
    requires
        s.phase matches AgentPhaseView::Tools(calls, next) && 0 <= next < calls.len(),
    ensures
        ({
            let (calls, next) = match s.phase {
                AgentPhaseView::Tools(calls, next) => (calls, next),
                _ => (Seq::empty(), 0),
            };
            let name = calls[next].0;
            let s2 = agent_tool_finished(c, s, result);
            &&& s2.messages.len() == s.messages.len() + 1
            &&& s2.messages.drop_last() == s.messages
            &&& s2.messages.last().role == "tool"@
            &&& s2.messages.last().tool_name == Some(name)
            &&& s2.messages.last().tool_calls.len() == 0
            &&& route_of(c.tools, name) is Some ==> (result matches Ok(t) ==> (!blank(t) ==> s2.messages.last().content == t))
            &&& route_of(c.tools, name) is Some ==> (result matches Err(e) ==> s2.messages.last().content
                == "ERROR calling tool: "@ + e)
            &&& route_of(c.tools, name) is None ==> s2.messages.last().content == "ERROR: unknown tool '"@ + name + "'"@
            &&& next + 1 < calls.len() ==> s2.phase == AgentPhaseView::Tools(calls, next + 1)
            &&& next + 1 == calls.len() ==> s2.phase == AgentPhaseView::Turn
        }),
{
    let s2 = agent_tool_finished(c, s, result);
    assert(s2.messages.drop_last() =~= s.messages);
}

/// What holds of every state of an agent's conversation.
pub open spec fn agent_inv(c: AgentCtx, s: AgentState) -> bool {
    &&& c.rounds >= 1
    &&& s.round <= c.rounds
    &&& s.messages.len() >= 2
    &&& s.phase matches AgentPhaseView::Tools(calls, next) ==> 0 <= next < calls.len()
}

/// The conversation only grows, and its first two messages (the system
/// prompt and the input) stay; the model is asked with tools at most once per
/// round, and never more rounds than the budget allows.
pub proof fn lemma_agent_step(c: AgentCtx, s: AgentState, canceled: bool)
    requires
        agent_inv(c, s),
    ensures
        agent_inv(c, agent_step(c, s, canceled).0),
        s.messages.is_prefix_of(agent_step(c, s, canceled).0.messages),
        agent_step(c, s, canceled).0.round != s.round ==> s.phase is Turn && s.round < c.rounds
            && agent_step(c, s, canceled).0.round == s.round + 1
            && agent_step(c, s, canceled).1 == AgentActionView::AskModel(true),
{
}

pub proof fn lemma_agent_replied(c: AgentCtx, s: AgentState, reply: Result<MessageView, Seq<char>>)
    requires
        agent_inv(c, s),
    ensures
        agent_inv(c, agent_replied(s, reply)),
        s.messages.is_prefix_of(agent_replied(s, reply).messages),
        agent_replied(s, reply).round == s.round,
{
}

pub proof fn lemma_agent_tool_finished(c: AgentCtx, s: AgentState, result: Result<Seq<char>, Seq<char>>)
    requires
        agent_inv(c, s),
    ensures
        agent_inv(c, agent_tool_finished(c, s, result)),
        s.messages.is_prefix_of(agent_tool_finished(c, s, result).messages),
        agent_tool_finished(c, s, result).round == s.round,
{
}

pub open spec fn reply_view(reply: Result<Message, String>) -> Result<MessageView, Seq<char>> {
    match reply {
        Ok(m) => Ok(message_view(m)),
        Err(e) => Err(e@),
    }
}

pub open spec fn outcome_view(r: Result<String, String>) -> Result<Seq<char>, Seq<char>> {
    match r {
        Ok(t) => Ok(t@),
        Err(e) => Err(e@),
    }
}

fn clone_arguments(a: &CallArguments) -> (r: CallArguments)
    ensures
        r.view() == a.view(),
{
    match a {
        CallArguments::Value { json, is_object } => CallArguments::Value { json: json.clone(), is_object: *is_object },
        CallArguments::Encoded { text } => CallArguments::Encoded { text: text.clone() },
    }
}

fn clone_calls(v: &Vec<ToolCall>) -> (r: Vec<ToolCall>)
    ensures
        calls_view(r@) == calls_view(v@),
{
    let mut r: Vec<ToolCall> = Vec::new();
    let mut i: usize = 0;
    while i < v.len()
        invariant
            i <= v@.len(),
            calls_view(r@) == calls_view(v@).take(i as int),
        decreases v.len() - i,
    {
        let ghost r0 = calls_view(r@);
        r.push(ToolCall { name: v[i].name.clone(), arguments: clone_arguments(&v[i].arguments) });
        proof {
            assert(calls_view(r@) =~= r0.push(call_view(v@[i as int])));
            assert(calls_view(v@).take(i + 1) =~= calls_view(v@).take(i as int).push(call_view(v@[i as int])));
        }
        i = i + 1;
    }
    assert(calls_view(v@).take(v@.len() as int) =~= calls_view(v@));
    r
}

/// One activation of an agent: its tools, its rounds, and its conversation.
#[derive(Debug)]
pub struct AgentLoop {
    tools: Vec<AgentTool>,
    rounds: u32,
    round: u32,
    messages: Vec<Message>,
    phase: AgentPhase,
}

impl AgentLoop {
    pub closed spec fn ctx(&self) -> AgentCtx {
        AgentCtx { tools: agent_tools_view(self.tools@), rounds: self.rounds }
    }

    pub closed spec fn state(&self) -> AgentState {
        AgentState { messages: messages_view(self.messages@), round: self.round, phase: agent_phase_view(self.phase) }
    }

    pub closed spec fn inv(&self) -> bool {
        agent_inv(self.ctx(), self.state())
    }

    /// Starts a conversation: the system prompt, then the input as the user's
    /// message; `max_tool_iterations` rounds of tool use (at least one).
    pub fn new(system: String, input: String, tools: Vec<AgentTool>, max_tool_iterations: u32) -> (a: AgentLoop)
        ensures
            a.inv(),
            a.ctx() == (AgentCtx { tools: agent_tools_view(tools@), rounds: tool_rounds(max_tool_iterations) }),
            a.state() == agent_start(system@, input@),
    {
        let ghost sys = system@;
        let ghost inp = input@;
        let mut messages: Vec<Message> = Vec::new();
        messages.push(new_message("system", system));
        messages.push(new_message("user", input));
        let a = AgentLoop { tools, rounds: round_budget(max_tool_iterations), round: 0, messages, phase: AgentPhase::Turn };
        proof {
            reveal_strlit("system");
            reveal_strlit("user");
            assert(messages_view(a.messages@) =~= agent_start(sys, inp).messages);
        }
        a
    }

    /// The tools the model is offered.
    pub fn tools(&self) -> (r: &Vec<AgentTool>)
        ensures
            agent_tools_view(r@) == self.ctx().tools,
    {
        &self.tools
    }

    /// The conversation so far (the transcript).
    pub fn messages(&self) -> (r: &Vec<Message>)
        ensures
            messages_view(r@) == self.state().messages,
    {
        &self.messages
    }

    /// The rounds begun so far.
    pub fn rounds_used(&self) -> (r: u32)
        ensures
            r == self.state().round,
    {
        self.round
    }

    /// What to do next (see `agent_step`); `canceled` tells whether the run
    /// was asked to stop.
    pub fn step(&mut self, canceled: bool) -> (action: AgentAction)
        requires
            old(self).inv(),
        ensures
            final(self).inv(),
            final(self).ctx() == old(self).ctx(),
            (final(self).state(), action.view()) == agent_step(old(self).ctx(), old(self).state(), canceled),
    {
        proof {
            lemma_agent_step(self.ctx(), self.state(), canceled);
        }
        match &self.phase {
            AgentPhase::Turn => {
                if self.round < self.rounds {
                    if canceled {
                        self.phase = AgentPhase::Failed { error: text_to_string("run canceled") };
                        AgentAction::Fail { error: text_to_string("run canceled") }
                    } else {
                        self.round = self.round + 1;
                        self.phase = AgentPhase::AwaitReply { last: false };
                        AgentAction::AskModel { with_tools: true }
                    }
                } else {
                    let note = new_message(
                        "user",
                        text_to_string("Tool budget exhausted. Produce your final result now based on what you have."),
                    );
                    let ghost m0 = messages_view(self.messages@);
                    self.messages.push(note);
                    proof {
                        reveal_strlit("user");
                        assert(messages_view(self.messages@) =~= m0.push(plain_message("user"@, budget_note())));
                    }
                    self.phase = AgentPhase::AwaitReply { last: true };
                    AgentAction::AskModel { with_tools: false }
                }
            },
            AgentPhase::AwaitReply { last } => AgentAction::AskModel { with_tools: !*last },
            AgentPhase::Tools { calls, next } => {
                let call = &calls[*next];
                let (shown, arguments) = call_arguments(&call.arguments);
                let route = match find_route(&self.tools, call.name.as_str()) {
                    Some(i) => {
                        proof {
                            lemma_route_of_bounds(agent_tools_view(self.tools@), call.name@);
                        }
                        Some((self.tools[i].server, self.tools[i].tool.clone()))
                    },
                    None => None,
                };
                AgentAction::UseTool { name: call.name.clone(), shown, arguments, route }
            },
            AgentPhase::Finished { output } => AgentAction::Finish { output: output.clone() },
            AgentPhase::Failed { error } => AgentAction::Fail { error: error.clone() },
        }
    }

    /// The model replied (`Ok`) or could not be asked (`Err` with why); see
    /// `agent_replied`. Outside of waiting for a reply nothing changes.
    pub fn replied(&mut self, reply: Result<Message, String>)
        requires
            old(self).inv(),
        ensures
            final(self).inv(),
            final(self).ctx() == old(self).ctx(),
            final(self).state() == agent_replied(old(self).state(), reply_view(reply)),
    {
        proof {
            lemma_agent_replied(self.ctx(), self.state(), reply_view(reply));
        }
        let last = match &self.phase {
            AgentPhase::AwaitReply { last } => *last,
            _ => {
                return;
            },
        };
        match reply {
            Err(e) => {
                self.phase = AgentPhase::Failed { error: e };
            },
            Ok(m) => {
                let ghost m0 = messages_view(self.messages@);
                let ghost mv = message_view(m);
                if last || m.tool_calls.len() == 0 {
                    let output = m.content.clone();
                    self.messages.push(m);
                    proof {
                        assert(messages_view(self.messages@) =~= m0.push(mv));
                    }
                    self.phase = AgentPhase::Finished { output };
                } else {
                    let calls = clone_calls(&m.tool_calls);
                    self.messages.push(m);
                    proof {
                        assert(messages_view(self.messages@) =~= m0.push(mv));
                    }
                    self.phase = AgentPhase::Tools { calls, next: 0 };
                }
            },
        }
    }

    /// The tool call being run finished: `Ok` with the tool's text, `Err`
    /// with why calling it failed (see `agent_tool_finished`).
    pub fn tool_finished(&mut self, result: Result<String, String>)
        requires
            old(self).inv(),
        ensures
            final(self).inv(),
            final(self).ctx() == old(self).ctx(),
            final(self).state() == agent_tool_finished(old(self).ctx(), old(self).state(), outcome_view(result)),
    {
        proof {
            lemma_agent_tool_finished(self.ctx(), self.state(), outcome_view(result));
        }
        let mut ph = AgentPhase::Turn;
        std::mem::swap(&mut self.phase, &mut ph);
        match ph {
            AgentPhase::Tools { calls, next } => {
                let name = calls[next].name.clone();
                let routed = find_route(&self.tools, name.as_str()).is_some();
                let text = tool_reply_text(name.as_str(), routed, result);
                let msg = Message { role: text_to_string("tool"), content: text, tool_name: Some(name), tool_calls: Vec::new() };
                let ghost m0 = messages_view(self.messages@);
                self.messages.push(msg);
                proof {
                    reveal_strlit("tool");
                    assert(calls_view(msg.tool_calls@) =~= Seq::empty());
                    assert(messages_view(self.messages@) =~= m0.push(message_view(msg)));
                }
                if next < calls.len() - 1 {
                    self.phase = AgentPhase::Tools { calls, next: next + 1 };
                }
            },
            other => {
                self.phase = other;
            },
        }
    }
}

} // verus!
