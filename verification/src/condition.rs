//! Edge conditions: whether an edge fires for the output of its source node.
use vstd::prelude::*;
use crate::models::WorkflowEdge;
use crate::text::{text_eq, text_to_string, push_text, contains, contains_text, find_text, first_occurrence, to_lowercase, to_uppercase, lowercase, uppercase};

verus! {

#[verifier::external_type_specification]
#[verifier::external_body]
pub struct ExRegex(regex::Regex);

#[verifier::external_type_specification]
#[verifier::external_body]
pub struct ExRegexError(regex::Error);

/// Whether `regex::Regex::new` accepts a pattern (its syntax and its default
/// size limits decide, from the pattern alone).
pub uninterp spec fn regex_compiles(pattern: Seq<char>) -> bool;

/// Whether the regex compiled from `pattern` matches somewhere in `haystack`
/// (`regex::Regex::is_match`).
pub uninterp spec fn regex_finds_match(pattern: Seq<char>, haystack: Seq<char>) -> bool;

/// `regex::Regex::new`: compiles a pattern; it succeeds exactly when the
/// pattern is accepted.
#[verifier::external_body]
fn regex_new(pattern: &str) -> (r: Result<regex::Regex, regex::Error>)
    ensures
        r is Ok == regex_compiles(pattern@),
{
    regex::Regex::new(pattern)
}

/// The message of a `regex::Error` (its `Display`); nothing is stated of it.
#[verifier::external_body]
fn regex_error_text(e: &regex::Error) -> String {
    format!("{}", e)
}

/// A regex together with the pattern it was compiled from. Only `compile`
/// builds one, so the compiled regex is always that of `pattern`.
pub struct CompiledRegex {
    pattern: String,
    regex: regex::Regex,
}

impl CompiledRegex {
    pub closed spec fn pattern(&self) -> Seq<char> {
        self.pattern@
    }

    /// Compiles `pattern`; on failure the regex crate's message is returned.
    pub fn compile(pattern: &str) -> (r: Result<CompiledRegex, String>)
        ensures
            r is Ok == regex_compiles(pattern@),
            r matches Ok(c) ==> c.pattern() == pattern@,
    {
        match regex_new(pattern) {
            Ok(regex) => Ok(CompiledRegex { pattern: text_to_string(pattern), regex }),
            Err(e) => Err(regex_error_text(&e)),
        }
    }

    /// `regex::Regex::is_match` on the regex compiled from `self.pattern()`.
    #[verifier::external_body]
    pub(crate) fn is_match(&self, haystack: &str) -> (r: bool)
        ensures
            r == regex_finds_match(self.pattern(), haystack@),
    {
        self.regex.is_match(haystack)
    }
}

/// Why a condition could not be decided.
#[derive(Debug)]
pub enum ConditionError {
    /// The pattern of a "regex" condition does not compile; `detail` is the
    /// regex crate's message.
    InvalidRegex { pattern: String, detail: String },
    /// The edge names a condition kind this engine does not know.
    UnknownKind { kind: String },
    /// Asking the judge model failed; `detail` says why.
    JudgeFailed { detail: String },
}

impl ConditionError {
    pub open spec fn spec_message(&self) -> Seq<char> {
        match self {
            ConditionError::InvalidRegex { pattern, detail } => "invalid regex '"@ + pattern@ + "': "@ + detail@,
            ConditionError::UnknownKind { kind } => "unknown edge condition kind '"@ + kind@ + "'"@,
            ConditionError::JudgeFailed { detail } => "LLM condition check failed: "@ + detail@,
        }
    }

    /// The text a user is shown for this error.
    pub fn message(&self) -> (r: String)
        ensures
            r@ == self.spec_message(),
    {
        match self {
            ConditionError::InvalidRegex { pattern, detail } => {
                let mut r = text_to_string("invalid regex '");
                push_text(&mut r, pattern.as_str());
                push_text(&mut r, "': ");
                push_text(&mut r, detail.as_str());
                r
            },
            ConditionError::UnknownKind { kind } => {
                let mut r = text_to_string("unknown edge condition kind '");
                push_text(&mut r, kind.as_str());
                push_text(&mut r, "'");
                r
            },
            ConditionError::JudgeFailed { detail } => {
                let mut r = text_to_string("LLM condition check failed: ");
                push_text(&mut r, detail.as_str());
                r
            },
        }
    }
}

/// What a `ConditionError` says, apart from the outside crates' own wording.
pub enum ConditionFailure {
    InvalidRegex(Seq<char>),
    UnknownKind(Seq<char>),
    JudgeFailed(Seq<char>),
}

impl ConditionError {
    pub open spec fn failure(&self) -> ConditionFailure {
        match self {
            ConditionError::InvalidRegex { pattern, .. } => ConditionFailure::InvalidRegex(pattern@),
            ConditionError::UnknownKind { kind } => ConditionFailure::UnknownKind(kind@),
            ConditionError::JudgeFailed { detail } => ConditionFailure::JudgeFailed(detail@),
        }
    }
}

/// How a condition turns out for one output, before `negate` is applied.
pub enum ConditionResult {
    /// The condition holds (`true`) or not.
    Holds(bool),
    /// An "llm" condition: the judge model must be asked.
    AskJudge,
    Failed(ConditionFailure),
}

/// What the outcome of evaluating `edge`'s condition on `output` is, with
/// `negate` not yet applied.
pub open spec fn condition_result(edge: WorkflowEdge, output: Seq<char>) -> ConditionResult {
    let kind = edge.condition_kind@;
    let cond = edge.condition@;
    if kind == ""@ || kind == "always"@ {
        ConditionResult::Holds(true)
    } else if kind == "contains"@ {
        ConditionResult::Holds(contains_text(lowercase(output), lowercase(cond)))
    } else if kind == "regex"@ {
        if regex_compiles(cond) {
            ConditionResult::Holds(regex_finds_match(cond, output))
        } else {
            ConditionResult::Failed(ConditionFailure::InvalidRegex(cond))
        }
    } else if kind == "llm"@ {
        ConditionResult::AskJudge
    } else {
        ConditionResult::Failed(ConditionFailure::UnknownKind(kind))
    }
}

/// A "contains" condition ignores case on both sides: it holds exactly when
/// the lower-cased condition occurs somewhere in the lower-cased output, so
/// two outputs (or two conditions) that lower-case alike decide it alike.
pub proof fn lemma_contains_ignores_case(edge: WorkflowEdge, other: WorkflowEdge, output: Seq<char>, other_output: Seq<char>)
    requires
        edge.condition_kind@ == "contains"@,
        other.condition_kind@ == "contains"@,
    ensures
        condition_result(edge, output) == ConditionResult::Holds(contains_text(lowercase(output), lowercase(edge.condition@))),
        lowercase(output) == lowercase(other_output) ==> condition_result(edge, output) == condition_result(edge, other_output),
        lowercase(edge.condition@) == lowercase(other.condition@) ==> condition_result(edge, output) == condition_result(other, output),
{
    reveal_strlit("contains");
    reveal_strlit("always");
    reveal_strlit("");
    assert("contains"@ != ""@ && "contains"@ != "always"@) by {
        assert("contains"@.len() != ""@.len());
        assert("contains"@[0] != "always"@[0]);
    }
}

/// What each kind of condition decides, whatever the edge's `negate` (which
/// is applied afterwards): "always" and "" always hold; "regex" holds exactly
/// when the regex crate finds the pattern in the output, and a pattern it
/// refuses is an error naming it; "llm" is the judge's to decide; any other
/// kind is an error naming that kind.
pub proof fn lemma_condition_kinds(edge: WorkflowEdge, output: Seq<char>)
    ensures
        condition_result(WorkflowEdge { negate: !edge.negate, ..edge }, output) == condition_result(edge, output),
        (edge.condition_kind@ == ""@ || edge.condition_kind@ == "always"@) ==> condition_result(edge, output)
            == ConditionResult::Holds(true),
        (edge.condition_kind@ == "regex"@ && regex_compiles(edge.condition@)) ==> condition_result(edge, output)
            == ConditionResult::Holds(regex_finds_match(edge.condition@, output)),
        (edge.condition_kind@ == "regex"@ && !regex_compiles(edge.condition@)) ==> condition_result(edge, output)
            == ConditionResult::Failed(ConditionFailure::InvalidRegex(edge.condition@)),
        edge.condition_kind@ == "llm"@ ==> condition_result(edge, output) == ConditionResult::AskJudge,
        !(edge.condition_kind@ == ""@ || edge.condition_kind@ == "always"@ || edge.condition_kind@ == "contains"@
            || edge.condition_kind@ == "regex"@ || edge.condition_kind@ == "llm"@) ==> condition_result(edge, output)
            == ConditionResult::Failed(ConditionFailure::UnknownKind(edge.condition_kind@)),
{
    reveal_strlit("");
    reveal_strlit("always");
    reveal_strlit("contains");
    reveal_strlit("regex");
    reveal_strlit("llm");
    assert(""@.len() == 0 && "always"@.len() == 6 && "contains"@.len() == 8 && "regex"@.len() == 5 && "llm"@.len() == 3);
    let k = edge.condition_kind@;
    if k == "regex"@ {
        assert(k.len() == 5);
    } else if k == "llm"@ {
        assert(k.len() == 3);
        assert(k != "regex"@);
    }
}

/// The outcome of evaluating an edge's condition locally.
#[derive(Debug)]
pub enum Evaluation {
    /// Whether the edge fires (`negate` applied).
    Decided(bool),
    /// The judge model must be asked; see `judge_request` and `judged`.
    AskJudge,
    Failed(ConditionError),
}

/// Whether `output` (lower-cased) contains `needle` (lower-cased). Both are
/// taken as given: the case folding is the caller's.
pub fn text_contains(haystack_lower: &str, needle_lower: &str) -> (r: bool)
    ensures
        r == contains_text(haystack_lower@, needle_lower@),
{
    contains(haystack_lower, needle_lower)
}

/// Decides whether an edge fires for the given source output, as far as that
/// can be decided without the judge model: "always" (or "") fires, "contains"
/// looks for the condition text case-insensitively, "regex" matches the
/// pattern anywhere in the output; each result is inverted when the edge says
/// `negate`. "llm" needs the judge; any other kind, or a pattern that does not
/// compile, is an error.
pub fn evaluate_condition(edge: &WorkflowEdge, output: &str) -> (r: Evaluation)
    ensures
        match condition_result(*edge, output@) {
            ConditionResult::Holds(b) => r == Evaluation::Decided(b != edge.negate),
            ConditionResult::AskJudge => r is AskJudge,
            ConditionResult::Failed(f) => r matches Evaluation::Failed(e) && e.failure() == f,
        },
{
    let kind = edge.condition_kind.as_str();
    let cond = edge.condition.as_str();
    if text_eq(kind, "") || text_eq(kind, "always") {
        Evaluation::Decided(true != edge.negate)
    } else if text_eq(kind, "contains") {
        let out_lower = to_lowercase(output);
        let cond_lower = to_lowercase(cond);
        let hit = text_contains(out_lower.as_str(), cond_lower.as_str());
        Evaluation::Decided(hit != edge.negate)
    } else if text_eq(kind, "regex") {
        match CompiledRegex::compile(cond) {
            Ok(re) => Evaluation::Decided(re.is_match(output) != edge.negate),
            Err(detail) => Evaluation::Failed(
                ConditionError::InvalidRegex { pattern: text_to_string(cond), detail },
            ),
        }
    } else if text_eq(kind, "llm") {
        Evaluation::AskJudge
    } else {
        Evaluation::Failed(ConditionError::UnknownKind { kind: text_to_string(kind) })
    }
}

/// The judge's verdict read from its reply, once upper-cased: "YES" before
/// any "NO" means yes, a "NO" with no "YES" before it means no, and a reply
/// with neither is taken as no.
pub open spec fn verdict_of(upper: Seq<char>) -> bool {
    match (first_occurrence(upper, "YES"@), first_occurrence(upper, "NO"@)) {
        (Some(y), Some(n)) => y < n,
        (Some(_), None) => true,
        (None, _) => false,
    }
}

/// Reads the verdict from an upper-cased judge reply.
pub fn verdict_from_upper(upper: &str) -> (r: bool)
    ensures
        r == verdict_of(upper@),
{
    let yes = find_text(upper, "YES");
    let no = find_text(upper, "NO");
    match (yes, no) {
        (Some(y), Some(n)) => y < n,
        (Some(_), None) => true,
        (None, _) => false,
    }
}

/// Reads the judge's verdict from its reply (upper-casing it first).
pub fn judge_verdict(reply: &str) -> (r: bool)
    ensures
        r == verdict_of(uppercase(reply@)),
{
    let upper = to_uppercase(reply);
    verdict_from_upper(upper.as_str())
}

/// Whether an "llm" edge fires, given what the judge model answered (or why
/// asking it failed).
pub fn judged(edge: &WorkflowEdge, reply: Result<String, String>) -> (r: Result<bool, ConditionError>)
    ensures
        reply matches Ok(text) ==> r == Ok::<bool, ConditionError>(verdict_of(uppercase(text@)) != edge.negate),
        reply matches Err(why) ==> r matches Err(e) && e.failure() == ConditionFailure::JudgeFailed(why@),
{
    match reply {
        Ok(text) => Ok(judge_verdict(text.as_str()) != edge.negate),
        Err(why) => Err(ConditionError::JudgeFailed { detail: why }),
    }
}

/// The system prompt of the judge model.
pub open spec fn judge_prompt_text() -> Seq<char> {
    "You are a router inside a workflow engine. You are given the output of an agent and a condition. Decide whether the output satisfies the condition. Reply with exactly one word: YES or NO."@
}

pub fn judge_system_prompt() -> (r: String)
    ensures
        r@ == judge_prompt_text(),
{
    text_to_string(
        "You are a router inside a workflow engine. You are given the output of an agent and a condition. Decide whether the output satisfies the condition. Reply with exactly one word: YES or NO.",
    )
}

/// The question put to the judge model for an edge's condition and an output.
pub open spec fn judge_question(condition: Seq<char>, output: Seq<char>) -> Seq<char> {
    "Condition: "@ + condition + "\n\nAgent output:\n"@ + output
        + "\n\nDoes the output satisfy the condition? YES or NO."@
}

pub fn judge_request(condition: &str, output: &str) -> (r: String)
    ensures
        r@ == judge_question(condition@, output@),
{
    let mut r = text_to_string("Condition: ");
    push_text(&mut r, condition);
    push_text(&mut r, "\n\nAgent output:\n");
    push_text(&mut r, output);
    push_text(&mut r, "\n\nDoes the output satisfy the condition? YES or NO.");
    r
}

} // verus!
