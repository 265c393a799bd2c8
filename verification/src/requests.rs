//! The rules the HTTP API applies to what it is sent: which records need a
//! name, what creating or updating a record sets, which tables exist, how
//! many runs a listing returns, and what a deleted workflow takes along.
use vstd::prelude::*;
use crate::models::{AgentCard, McpServerConfig, Workflow, Schedule};
use crate::text::{blank, is_blank, text_eq, text_to_string, push_text};

verus! {

// ---------------------------------------------------------------- names

/// The kinds of records that must be named.
#[derive(PartialEq, Eq, Structural, Clone, Copy, Debug)]
pub enum Named {
    Agent,
    Workflow,
    McpServer,
}

pub open spec fn empty_name_message(kind: Named) -> Seq<char> {
    match kind {
        Named::Agent => "agent name must not be empty"@,
        Named::Workflow => "workflow name must not be empty"@,
        Named::McpServer => "MCP server name must not be empty"@,
    }
}

/// A record of these kinds cannot be created with a blank name.
pub fn check_name(kind: Named, name: &str) -> (r: Result<(), String>)
    ensures
        r is Ok == !blank(name@),
        r matches Err(m) ==> m@ == empty_name_message(kind),
{
    if is_blank(name) {
        Err(match kind {
            Named::Agent => text_to_string("agent name must not be empty"),
            Named::Workflow => text_to_string("workflow name must not be empty"),
            Named::McpServer => text_to_string("MCP server name must not be empty"),
        })
    } else {
        Ok(())
    }
}

// ---------------------------------------------------------------- tables

/// The tables that hold records as JSON documents.
pub open spec fn entity_table(table: Seq<char>) -> bool {
    table == "agent_cards"@ || table == "workflows"@ || table == "mcp_servers"@ || table == "schedules"@
}

/// Only the entity tables can be read or written by name.
pub fn check_table(table: &str) -> (r: Result<(), String>)
    ensures
        r is Ok == entity_table(table@),
        r matches Err(m) ==> m@ == "unknown table "@ + table@,
{
    if text_eq(table, "agent_cards") || text_eq(table, "workflows") || text_eq(table, "mcp_servers") || text_eq(
        table,
        "schedules",
    ) {
        Ok(())
    } else {
        let mut m = text_to_string("unknown table ");
        push_text(&mut m, table);
        Err(m)
    }
}

// ---------------------------------------------------------------- listing runs

/// How many runs a listing returns: the limit asked for (50 when none), at
/// most 500.
pub open spec fn runs_limit_of(limit: Option<u32>) -> u32 {
    let asked: u32 = match limit {
        Some(l) => l,
        None => 50,
    };
    if asked <= 500 {
        asked
    } else {
        500
    }
}

pub fn runs_limit(limit: Option<u32>) -> (r: u32)
    ensures
        r == runs_limit_of(limit),
{
    let asked: u32 = match limit {
        Some(l) => l,
        None => 50,
    };
    if asked <= 500 {
        asked
    } else {
        500
    }
}

// ---------------------------------------------------------------- create and update

/// A new agent card gets its id, and is created and updated now.
pub fn new_agent(card: &mut AgentCard, id: String, now: String)
    ensures
        final(card).id == id,
        final(card).created_at == now,
        final(card).updated_at == now,
        final(card).name == old(card).name,
        final(card).description == old(card).description,
        final(card).model == old(card).model,
        final(card).system_prompt == old(card).system_prompt,
        final(card).mcp_servers == old(card).mcp_servers,
        final(card).max_tool_iterations == old(card).max_tool_iterations,
{
    card.id = id;
    card.created_at = now.clone();
    card.updated_at = now;
}

/// An updated agent card keeps its id and creation time, and is updated now.
pub fn updated_agent(card: &mut AgentCard, id: String, existing: &AgentCard, now: String)
    ensures
        final(card).id == id,
        final(card).created_at == existing.created_at,
        final(card).updated_at == now,
        final(card).name == old(card).name,
        final(card).description == old(card).description,
        final(card).model == old(card).model,
        final(card).system_prompt == old(card).system_prompt,
        final(card).mcp_servers == old(card).mcp_servers,
        final(card).max_tool_iterations == old(card).max_tool_iterations,
{
    card.id = id;
    card.created_at = existing.created_at.clone();
    card.updated_at = now;
}

/// A new workflow gets its id, and is created and updated now.
pub fn new_workflow(wf: &mut Workflow, id: String, now: String)
    ensures
        final(wf).id == id,
        final(wf).created_at == now,
        final(wf).updated_at == now,
        final(wf).name == old(wf).name,
        final(wf).description == old(wf).description,
        final(wf).graph == old(wf).graph,
        final(wf).max_steps == old(wf).max_steps,
{
    wf.id = id;
    wf.created_at = now.clone();
    wf.updated_at = now;
}

/// An updated workflow keeps its id and creation time, and is updated now.
pub fn updated_workflow(wf: &mut Workflow, id: String, existing: &Workflow, now: String)
    ensures
        final(wf).id == id,
        final(wf).created_at == existing.created_at,
        final(wf).updated_at == now,
        final(wf).name == old(wf).name,
        final(wf).description == old(wf).description,
        final(wf).graph == old(wf).graph,
        final(wf).max_steps == old(wf).max_steps,
{
    wf.id = id;
    wf.created_at = existing.created_at.clone();
    wf.updated_at = now;
}

/// A new MCP server configuration gets its id, and is created and updated now.
pub fn new_mcp_server(cfg: &mut McpServerConfig, id: String, now: String)
    ensures
        final(cfg).id == id,
        final(cfg).created_at == now,
        final(cfg).updated_at == now,
        final(cfg).name == old(cfg).name,
        final(cfg).transport == old(cfg).transport,
        final(cfg).command == old(cfg).command,
        final(cfg).args == old(cfg).args,
        final(cfg).env == old(cfg).env,
        final(cfg).url == old(cfg).url,
        final(cfg).headers == old(cfg).headers,
        final(cfg).enabled == old(cfg).enabled,
{
    cfg.id = id;
    cfg.created_at = now.clone();
    cfg.updated_at = now;
}

/// An updated MCP server configuration keeps its id and creation time, and
/// is updated now (so that a live connection made with it is replaced).
pub fn updated_mcp_server(cfg: &mut McpServerConfig, id: String, existing: &McpServerConfig, now: String)
    ensures
        final(cfg).id == id,
        final(cfg).created_at == existing.created_at,
        final(cfg).updated_at == now,
        final(cfg).name == old(cfg).name,
        final(cfg).transport == old(cfg).transport,
        final(cfg).command == old(cfg).command,
        final(cfg).args == old(cfg).args,
        final(cfg).env == old(cfg).env,
        final(cfg).url == old(cfg).url,
        final(cfg).headers == old(cfg).headers,
        final(cfg).enabled == old(cfg).enabled,
{
    cfg.id = id;
    cfg.created_at = existing.created_at.clone();
    cfg.updated_at = now;
}

/// A new schedule (whose cron expression has been normalized, and whose
/// workflow exists) gets its id and is created now.
pub fn new_schedule(s: &mut Schedule, id: String, cron: String, now: String)
    ensures
        final(s).id == id,
        final(s).cron == cron,
        final(s).created_at == now,
        final(s).workflow_id == old(s).workflow_id,
        final(s).input == old(s).input,
        final(s).enabled == old(s).enabled,
        final(s).last_run_at == old(s).last_run_at,
{
    s.id = id;
    s.cron = cron;
    s.created_at = now;
}

/// An updated schedule (with its cron expression normalized) keeps its id
/// and creation time.
pub fn updated_schedule(s: &mut Schedule, id: String, cron: String, existing: &Schedule)
    ensures
        final(s).id == id,
        final(s).cron == cron,
        final(s).created_at == existing.created_at,
        final(s).workflow_id == old(s).workflow_id,
        final(s).input == old(s).input,
        final(s).enabled == old(s).enabled,
        final(s).last_run_at == old(s).last_run_at,
{
    s.id = id;
    s.cron = cron;
    s.created_at = existing.created_at.clone();
}

/// A schedule must name a workflow that exists.
pub fn check_schedule_workflow(workflow_found: bool) -> (r: Result<(), String>)
    ensures
        r is Ok == workflow_found,
        r matches Err(m) ==> m@ == "schedule references an unknown workflow"@,
{
    if workflow_found {
        Ok(())
    } else {
        Err(text_to_string("schedule references an unknown workflow"))
    }
}

// ---------------------------------------------------------------- deleting

/// The schedules (by position) that point at workflow `workflow_id`; they go
/// when it is deleted.
pub open spec fn schedules_of_spec(schedules: Seq<Schedule>, workflow_id: Seq<char>) -> Seq<usize>
    decreases schedules.len(),
{
    if schedules.len() == 0 {
        Seq::empty()
    } else {
        let prev = schedules_of_spec(schedules.drop_last(), workflow_id);
        if schedules.last().workflow_id@ == workflow_id {
            prev.push((schedules.len() - 1) as usize)
        } else {
            prev
        }
    }
}

pub fn schedules_of(schedules: &Vec<Schedule>, workflow_id: &str) -> (r: Vec<usize>)
    ensures
        r@ == schedules_of_spec(schedules@, workflow_id@),
{
    let mut r: Vec<usize> = Vec::new();
    let mut i: usize = 0;
    while i < schedules.len()
        invariant
            i <= schedules@.len(),
            r@ == schedules_of_spec(schedules@.take(i as int), workflow_id@),
        decreases schedules.len() - i,
    {
        proof {
            assert(schedules@.take(i + 1).drop_last() =~= schedules@.take(i as int));
            assert(schedules@.take(i + 1).last() == schedules@[i as int]);
        }
        if text_eq(schedules[i].workflow_id.as_str(), workflow_id) {
            r.push(i);
        }
        i = i + 1;
    }
    assert(schedules@.take(schedules@.len() as int) =~= schedules@);
    r
}

} // verus!
