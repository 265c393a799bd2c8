//! The records the orchestrator keeps: agent cards, workflows and their
//! graphs, MCP server configurations, schedules and runs.
use vstd::prelude::*;
use std::collections::HashMap;
use crate::text::text_to_string;

verus! {

/// The loop budget a workflow gets when it sets none (or sets 0).
pub const DEFAULT_MAX_STEPS: u32 = 25;

/// Tool-call rounds an agent card gets when it sets none.
pub fn default_max_iter() -> (r: u32)
    ensures
        r == 10,
{
    10
}

/// Node kind when a node names none.
pub fn default_node_kind() -> (r: String)
    ensures
        r@ == "agent"@,
{
    text_to_string("agent")
}

/// Edge condition kind when an edge names none.
pub fn default_condition_kind() -> (r: String)
    ensures
        r@ == "always"@,
{
    text_to_string("always")
}

/// Loop budget when a workflow names none.
pub fn default_max_steps() -> (r: u32)
    ensures
        r == DEFAULT_MAX_STEPS,
{
    DEFAULT_MAX_STEPS
}

/// MCP transport when a server config names none.
pub fn default_transport() -> (r: String)
    ensures
        r@ == "stdio"@,
{
    text_to_string("stdio")
}

/// An agent card: the role (system prompt), the model and the MCP servers an
/// agent may use. The sampling temperature is kept by the application layer.
#[derive(Debug)]
pub struct AgentCard {
    pub id: String,
    pub name: String,
    pub description: String,
    /// Optional model override; falls back to the server-wide default.
    pub model: Option<String>,
    pub system_prompt: String,
    /// Ids of MCP servers whose tools this agent may call.
    pub mcp_servers: Vec<String>,
    pub max_tool_iterations: u32,
    pub created_at: String,
    pub updated_at: String,
}

/// A node of a workflow graph. Kind "agent" (or "") is an instance of an
/// agent card plus workflow-specific instructions; kind "file" reads a local
/// text file and emits its content; kind "file_dest" writes its input to a
/// local file (appending to it when `append` is set) and passes the content
/// through unchanged. The canvas position is kept by the application layer.
#[derive(Debug)]
pub struct WorkflowNode {
    pub id: String,
    pub kind: String,
    pub agent_card_id: String,
    pub instructions: String,
    pub file_path: String,
    pub append: bool,
}

/// A directed edge: the output of `source` becomes input of `target`.
/// With a condition the edge only fires when the source output satisfies it.
#[derive(Debug)]
pub struct WorkflowEdge {
    pub id: String,
    pub source: String,
    pub target: String,
    /// "always" | "" | "contains" | "regex" | "llm"
    pub condition_kind: String,
    /// Substring, regex pattern, or natural-language predicate.
    pub condition: String,
    /// Invert the condition result (for else-branches).
    pub negate: bool,
}

#[derive(Debug)]
pub struct Graph {
    pub nodes: Vec<WorkflowNode>,
    pub edges: Vec<WorkflowEdge>,
}

#[derive(Debug)]
pub struct Workflow {
    pub id: String,
    pub name: String,
    pub description: String,
    pub graph: Graph,
    /// Loop budget: maximum number of node activations in one run.
    pub max_steps: u32,
    pub created_at: String,
    pub updated_at: String,
}

/// Connection settings for one MCP server.
#[derive(Debug)]
pub struct McpServerConfig {
    pub id: String,
    pub name: String,
    /// "stdio" or "http"
    pub transport: String,
    pub command: String,
    pub args: Vec<String>,
    pub env: HashMap<String, String>,
    pub url: String,
    pub headers: HashMap<String, String>,
    pub enabled: bool,
    pub created_at: String,
    pub updated_at: String,
}

#[derive(Debug)]
pub struct Schedule {
    pub id: String,
    pub workflow_id: String,
    /// 6-field cron expression (sec min hour day month weekday);
    /// 5-field expressions are normalized by prepending "0 ".
    pub cron: String,
    /// Input text handed to the workflow's source nodes on each run.
    pub input: String,
    pub enabled: bool,
    pub last_run_at: Option<String>,
    pub created_at: String,
}

#[derive(Debug)]
pub struct Run {
    pub id: String,
    pub workflow_id: String,
    pub workflow_name: String,
    /// pending | running | succeeded | failed | canceled | interrupted
    pub status: String,
    /// manual | schedule
    pub trigger: String,
    pub input: String,
    pub error: Option<String>,
    pub started_at: String,
    pub finished_at: Option<String>,
}

} // verus!
