use std::collections::BTreeSet;

use stack_graphs::construction::{load_graph, Capture, NodeType, Op, Rule, SyntaxNode, SyntaxTree, Value};
use stack_graphs::graph::StackGraph;

fn chars(s: &str) -> Vec<char> {
    s.chars().collect()
}

/// The tree of the Python source `a`: a module holding one expression
/// statement holding one identifier.
fn python_tree_of_a() -> SyntaxTree {
    SyntaxTree {
        nodes: vec![
            SyntaxNode { kind: chars("module"), start: 0, end: 1, children: vec![1] },
            SyntaxNode { kind: chars("expression_statement"), start: 0, end: 1, children: vec![2] },
            SyntaxNode { kind: chars("identifier"), start: 0, end: 1, children: vec![] },
        ],
    }
}

/// `(identifier) @id { node source  attr (source) type = "definition", symbol = (source-text @id)
///   node sink  attr (sink) type = "reference", symbol = (source-text @id)  edge source -> sink }`
fn identifier_rule(precedence: Option<i32>) -> Rule {
    let mut body = vec![
        Op::CreateNode,
        Op::SetType { node: 0, node_type: NodeType::Definition },
        Op::SetSymbol { node: 0, value: Value::SourceText(0) },
        Op::CreateNode,
        Op::SetType { node: 1, node_type: NodeType::Reference },
        Op::SetSymbol { node: 1, value: Value::SourceText(0) },
        Op::CreateEdge { source: 0, sink: 1 },
    ];
    if let Some(p) = precedence {
        body.push(Op::SetPrecedence { source: 0, sink: 1, precedence: p });
    }
    Rule { kind: chars("identifier"), captures: vec![Capture { child_kind: None }], body }
}

fn check_stack_graph_edges(source: &str, rules: Vec<Rule>, expected_edges: &[&str]) {
    let mut graph = StackGraph::new();
    let file = graph.add_file(chars("test.py"));
    let tree = python_tree_of_a();
    load_graph(&mut graph, file, &tree, &chars(source), &rules).expect("Could not load stack graph");
    let mut actual_edges = BTreeSet::new();
    for source in 0..graph.nodes.len() {
        for edge in graph.outgoing_edges(source) {
            actual_edges.insert(graph.edge_display(edge));
        }
    }
    let expected_edges = expected_edges.iter().map(|s| s.to_string()).collect::<BTreeSet<_>>();
    assert_eq!(expected_edges, actual_edges);
}

#[test]
fn can_create_edges() {
    check_stack_graph_edges(
        "a",
        vec![identifier_rule(None)],
        &["[test.py(0) definition a] -0-> [test.py(1) reference a]"],
    );
}

#[test]
fn can_create_edges_with_precedence() {
    check_stack_graph_edges(
        "a",
        vec![identifier_rule(Some(17))],
        &["[test.py(0) definition a] -17-> [test.py(1) reference a]"],
    );
}
