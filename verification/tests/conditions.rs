use saioawe::condition::{evaluate_condition, judge_request, judge_system_prompt, judge_verdict, judged, ConditionError, Evaluation};
use saioawe::models::WorkflowEdge;

fn edge(kind: &str, condition: &str, negate: bool) -> WorkflowEdge {
    WorkflowEdge {
        id: "e".to_string(),
        source: "a".to_string(),
        target: "b".to_string(),
        condition_kind: kind.to_string(),
        condition: condition.to_string(),
        negate,
    }
}

fn decided(e: Evaluation) -> bool {
    match e {
        Evaluation::Decided(b) => b,
        other => panic!("not decided: {other:?}"),
    }
}

#[test]
fn always_fires_unless_negated() {
    assert!(decided(evaluate_condition(&edge("always", "", false), "x")));
    assert!(decided(evaluate_condition(&edge("", "", false), "x")));
    assert!(!decided(evaluate_condition(&edge("always", "", true), "x")));
}

#[test]
fn contains_ignores_case() {
    assert!(decided(evaluate_condition(&edge("contains", "APPROVED", false), "The draft is approved.")));
    assert!(!decided(evaluate_condition(&edge("contains", "approved", false), "rejected")));
    assert!(decided(evaluate_condition(&edge("contains", "approved", true), "rejected")));
}

#[test]
fn regex_matches_anywhere() {
    assert!(decided(evaluate_condition(&edge("regex", "score: [0-9]+", false), "final score: 42 points")));
    assert!(!decided(evaluate_condition(&edge("regex", "^score", false), "final score: 42")));
}

#[test]
fn bad_regex_is_an_error() {
    match evaluate_condition(&edge("regex", "[", false), "x") {
        Evaluation::Failed(ConditionError::InvalidRegex { pattern, .. }) => assert_eq!(pattern, "["),
        other => panic!("unexpected {other:?}"),
    }
}

#[test]
fn unknown_kind_is_an_error() {
    match evaluate_condition(&edge("vibes", "", false), "x") {
        Evaluation::Failed(e) => assert_eq!(e.message(), "unknown edge condition kind 'vibes'"),
        other => panic!("unexpected {other:?}"),
    }
}

#[test]
fn llm_kind_asks_the_judge() {
    assert!(matches!(evaluate_condition(&edge("llm", "is nice", false), "x"), Evaluation::AskJudge));
}

#[test]
fn verdict_takes_first_of_yes_and_no() {
    assert!(judge_verdict("Yes."));
    assert!(!judge_verdict("no"));
    assert!(judge_verdict("yes, not no"));
    assert!(!judge_verdict("NO, yes"));
    assert!(!judge_verdict("maybe"));
    // "NOTHING" holds "NO", so a later "YES" loses.
    assert!(!judge_verdict("nothing to add: yes"));
}

#[test]
fn judged_applies_negate_and_reports_failure() {
    assert_eq!(judged(&edge("llm", "c", false), Ok("YES".to_string())).unwrap(), true);
    assert_eq!(judged(&edge("llm", "c", true), Ok("YES".to_string())).unwrap(), false);
    let err = judged(&edge("llm", "c", false), Err("timeout".to_string())).unwrap_err();
    assert_eq!(err.message(), "LLM condition check failed: timeout");
}

#[test]
fn judge_prompts_are_exact() {
    assert_eq!(
        judge_system_prompt(),
        "You are a router inside a workflow engine. You are given the output of an agent and a condition. Decide whether the output satisfies the condition. Reply with exactly one word: YES or NO."
    );
    assert_eq!(
        judge_request("is short", "ok"),
        "Condition: is short\n\nAgent output:\nok\n\nDoes the output satisfy the condition? YES or NO."
    );
}
