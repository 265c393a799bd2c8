use saioawe::graph::{classify_back_edges, validate_graph, GraphError};
use saioawe::models::{Graph, WorkflowEdge, WorkflowNode};

fn node(id: &str, kind: &str, card: &str, path: &str) -> WorkflowNode {
    WorkflowNode {
        id: id.to_string(),
        kind: kind.to_string(),
        agent_card_id: card.to_string(),
        instructions: String::new(),
        file_path: path.to_string(),
        append: false,
    }
}

fn edge(id: &str, source: &str, target: &str, kind: &str, condition: &str) -> WorkflowEdge {
    WorkflowEdge {
        id: id.to_string(),
        source: source.to_string(),
        target: target.to_string(),
        condition_kind: kind.to_string(),
        condition: condition.to_string(),
        negate: false,
    }
}

fn two_agents(e: WorkflowEdge) -> Graph {
    Graph { nodes: vec![node("a", "agent", "c1", ""), node("b", "", "c2", "")], edges: vec![e] }
}

#[test]
fn valid_graph_with_cycle_is_accepted() {
    let g = Graph {
        nodes: vec![node("a", "agent", "c1", ""), node("b", "agent", "c2", "")],
        edges: vec![edge("e1", "a", "b", "always", ""), edge("e2", "b", "a", "contains", "retry")],
    };
    assert!(validate_graph(&g).is_ok());
}

#[test]
fn file_and_file_dest_nodes_need_a_path() {
    let ok = Graph { nodes: vec![node("f", "file", "", "in.txt"), node("d", "file_dest", "", "out.txt")], edges: vec![] };
    assert!(validate_graph(&ok).is_ok());
    let bad = Graph { nodes: vec![node("d", "file_dest", "", "  ")], edges: vec![] };
    let err = validate_graph(&bad).unwrap_err();
    assert!(matches!(err, GraphError::NoFilePath { .. }));
    assert_eq!(err.message(), "file node d: no file path set");
}

#[test]
fn agent_node_needs_a_card() {
    let g = Graph { nodes: vec![node("a", "agent", " ", "")], edges: vec![] };
    let err = validate_graph(&g).unwrap_err();
    assert_eq!(err.message(), "node a: no agent card selected");
}

#[test]
fn unknown_node_kind_is_refused() {
    let g = Graph { nodes: vec![node("a", "robot", "c", "")], edges: vec![] };
    let err = validate_graph(&g).unwrap_err();
    assert_eq!(err.message(), "node a: unknown node kind 'robot'");
}

#[test]
fn edge_to_missing_node_is_refused() {
    let err = validate_graph(&two_agents(edge("e", "a", "x", "always", ""))).unwrap_err();
    assert!(matches!(err, GraphError::MissingNode { .. }));
    assert_eq!(err.message(), "edge a -> x references a missing node");
}

#[test]
fn contains_and_llm_need_condition_text() {
    let err = validate_graph(&two_agents(edge("e", "a", "b", "contains", " "))).unwrap_err();
    assert_eq!(err.message(), "edge a -> b: condition kind 'contains' needs a condition text");
    let err = validate_graph(&two_agents(edge("e", "a", "b", "llm", ""))).unwrap_err();
    assert_eq!(err.message(), "edge a -> b: condition kind 'llm' needs a condition text");
}

#[test]
fn invalid_regex_is_refused() {
    let err = validate_graph(&two_agents(edge("e", "a", "b", "regex", "(unclosed"))).unwrap_err();
    match &err {
        GraphError::InvalidRegex { pattern, detail, .. } => {
            assert_eq!(pattern, "(unclosed");
            assert!(!detail.is_empty());
        }
        other => panic!("unexpected {other:?}"),
    }
    assert!(err.message().starts_with("edge a -> b: invalid regex '(unclosed': "));
    assert!(validate_graph(&two_agents(edge("e", "a", "b", "regex", "^ok$"))).is_ok());
}

#[test]
fn unknown_condition_kind_is_refused() {
    let err = validate_graph(&two_agents(edge("e", "a", "b", "magic", "x"))).unwrap_err();
    assert_eq!(err.message(), "edge a -> b: unknown condition kind 'magic'");
}

#[test]
fn back_edges_close_cycles() {
    let g = Graph {
        nodes: vec![
            node("a", "agent", "c", ""),
            node("b", "agent", "c", ""),
            node("c", "agent", "c", ""),
        ],
        edges: vec![
            edge("e1", "a", "b", "always", ""),
            edge("e2", "b", "c", "always", ""),
            edge("e3", "c", "b", "always", ""),
            edge("e4", "a", "c", "always", ""),
        ],
    };
    assert_eq!(classify_back_edges(&g), vec![false, false, true, false]);
}

#[test]
fn acyclic_graph_has_no_back_edges() {
    let g = Graph {
        nodes: vec![node("a", "agent", "c", ""), node("b", "agent", "c", ""), node("c", "agent", "c", "")],
        edges: vec![edge("e1", "a", "b", "always", ""), edge("e2", "a", "c", "always", ""), edge("e3", "b", "c", "always", "")],
    };
    assert_eq!(classify_back_edges(&g), vec![false, false, false]);
}

#[test]
fn self_loop_is_a_back_edge() {
    let g = Graph { nodes: vec![node("a", "agent", "c", "")], edges: vec![edge("e1", "a", "a", "always", "")] };
    assert_eq!(classify_back_edges(&g), vec![true]);
}

#[test]
fn cycle_without_roots_is_entered_at_first_node() {
    let g = Graph {
        nodes: vec![node("a", "agent", "c", ""), node("b", "agent", "c", "")],
        edges: vec![edge("e1", "a", "b", "always", ""), edge("e2", "b", "a", "always", "")],
    };
    assert_eq!(classify_back_edges(&g), vec![false, true]);
}
