//! An agent workflow orchestrator's decisions, verified: workflow graphs and
//! their loop-back edges, the run state machine, edge conditions, agent
//! conversations with MCP tools, schedules, run records, and the rules of the
//! HTTP API.
pub mod text;
pub mod models;
pub mod dfs;
pub mod graph;
pub mod condition;
pub mod plan;
pub mod input;
pub mod engine;
pub mod run;
pub mod scheduler;
pub mod cronspec;
pub mod mcp;
pub mod json;
pub mod agent;
pub mod records;
pub mod requests;
pub mod guard;
pub mod order;
