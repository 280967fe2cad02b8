use stack_graphs::construction::{
    load_graph, run_body, find_rule, visit, walk_tree, Capture, ConstructionError, NodeType, Op, Rule, SyntaxNode,
    SyntaxTree, Value,
};
use stack_graphs::graph::{NodeKind, StackGraph};

fn chars(s: &str) -> Vec<char> {
    s.chars().collect()
}

fn node(kind: &str, start: usize, end: usize, children: Vec<usize>) -> SyntaxNode {
    SyntaxNode { kind: chars(kind), start, end, children }
}

/// `x = y`: an assignment whose left and right children are identifiers.
fn assignment_tree() -> SyntaxTree {
    SyntaxTree {
        nodes: vec![
            node("module", 0, 5, vec![1]),
            node("assignment", 0, 5, vec![2, 3]),
            node("identifier", 0, 1, vec![]),
            node("identifier", 4, 5, vec![]),
        ],
    }
}

fn rule(kind: &str, captures: Vec<Capture>, body: Vec<Op>) -> Rule {
    Rule { kind: chars(kind), captures, body }
}

fn whole() -> Capture {
    Capture { child_kind: None }
}

fn load(rules: Vec<Rule>) -> (StackGraph, Result<(), ConstructionError>) {
    let mut g = StackGraph::new();
    let f = g.add_file(chars("test.py"));
    let r = load_graph(&mut g, f, &assignment_tree(), &chars("x = y"), &rules);
    (g, r)
}

fn displays(g: &StackGraph) -> Vec<String> {
    (0..g.nodes.len()).map(|n| g.node_display(n)).collect()
}

#[test]
fn every_identifier_gets_its_own_nodes_in_document_order() {
    let rules = vec![rule(
        "identifier",
        vec![whole()],
        vec![
            Op::CreateNode,
            Op::SetType { node: 0, node_type: NodeType::Reference },
            Op::SetSymbol { node: 0, value: Value::SourceText(0) },
        ],
    )];
    let (g, r) = load(rules);
    assert_eq!(r, Ok(()));
    assert_eq!(displays(&g), vec!["[root]", "[test.py(0) reference x]", "[test.py(1) reference y]"]);
}

#[test]
fn first_matching_rule_wins() {
    let rules = vec![
        rule("identifier", vec![], vec![Op::CreateNode]),
        rule(
            "identifier",
            vec![],
            vec![Op::CreateNode, Op::CreateNode, Op::CreateEdge { source: 0, sink: 1 }],
        ),
    ];
    let (g, r) = load(rules);
    assert_eq!(r, Ok(()));
    assert_eq!(g.nodes.len(), 3);
    assert_eq!(g.edges.len(), 0);
    assert_eq!(displays(&g), vec!["[root]", "[test.py(0) scope]", "[test.py(1) scope]"]);
}

#[test]
fn find_rule_picks_the_first_of_equal_patterns() {
    let rules = vec![
        rule("module", vec![], vec![]),
        rule("identifier", vec![], vec![]),
        rule("identifier", vec![], vec![Op::CreateNode]),
    ];
    assert_eq!(find_rule(&rules, &chars("identifier")), Some(1));
    assert_eq!(find_rule(&rules, &chars("string")), None);
}

#[test]
fn child_captures_and_literal_symbols() {
    let rules = vec![rule(
        "assignment",
        vec![Capture { child_kind: Some(chars("identifier")) }, whole()],
        vec![
            Op::CreateNode,
            Op::SetType { node: 0, node_type: NodeType::Definition },
            Op::SetSymbol { node: 0, value: Value::SourceText(0) },
            Op::CreateNode,
            Op::SetType { node: 1, node_type: NodeType::Pop },
            Op::SetSymbol { node: 1, value: Value::Literal(chars(".")) },
            Op::CreateNode,
            Op::SetType { node: 2, node_type: NodeType::Jump },
            Op::CreateNode,
            Op::AttachScope { jump: 2, scope: 3 },
            Op::CreateEdge { source: 1, sink: 0 },
            Op::CreateEdge { source: 1, sink: 0 },
            Op::SetPrecedence { source: 1, sink: 0, precedence: -3 },
        ],
    )];
    let (g, r) = load(rules);
    assert_eq!(r, Ok(()));
    assert_eq!(
        displays(&g),
        vec!["[root]", "[test.py(0) definition x]", "[test.py(1) pop .]", "[test.py(2) jump]", "[test.py(3) scope]"]
    );
    match &g.nodes[3].kind {
        NodeKind::JumpToScope { target } => assert_eq!(*target, Some(4)),
        _ => panic!("expected a jump node"),
    }
    assert_eq!(g.edge_display(0), "[test.py(1) pop .] -0-> [test.py(0) definition x]");
    assert_eq!(g.edge_display(1), "[test.py(1) pop .] --3-> [test.py(0) definition x]");
}

#[test]
fn whole_capture_reads_exact_source_text() {
    let ops = vec![
        Op::CreateNode,
        Op::SetType { node: 0, node_type: NodeType::Reference },
        Op::SetSymbol { node: 0, value: Value::SourceText(0) },
    ];
    let out = run_body(&ops, &vec![(1, 4)], &chars("x = y")).unwrap();
    assert_eq!(out.nodes.len(), 1);
    assert_eq!(out.nodes[0].symbol, Some(chars(" = ")));
}

#[test]
fn unbound_capture_is_an_error() {
    let rules = vec![rule(
        "identifier",
        vec![whole()],
        vec![Op::CreateNode, Op::SetSymbol { node: 0, value: Value::SourceText(1) }],
    )];
    assert_eq!(load(rules).1, Err(ConstructionError::UnboundCapture));
}

#[test]
fn absent_child_capture_is_an_error() {
    let rules = vec![rule("assignment", vec![Capture { child_kind: Some(chars("string")) }], vec![])];
    assert_eq!(load(rules).1, Err(ConstructionError::MissingCapture));
    let rules = vec![rule("assignment", vec![Capture { child_kind: Some(chars("string")) }], vec![])];
    assert_eq!(visit(&assignment_tree(), &chars("x = y"), &rules, 1).err(), Some(ConstructionError::MissingCapture));
}

#[test]
fn setting_an_attribute_twice_is_an_error() {
    let twice_type = vec![
        Op::CreateNode,
        Op::SetType { node: 0, node_type: NodeType::Scope },
        Op::SetType { node: 0, node_type: NodeType::Scope },
    ];
    assert_eq!(run_body(&twice_type, &vec![], &vec![]).err(), Some(ConstructionError::DuplicateAttribute));
    let twice_precedence = vec![
        Op::CreateNode,
        Op::CreateEdge { source: 0, sink: 0 },
        Op::SetPrecedence { source: 0, sink: 0, precedence: 1 },
        Op::SetPrecedence { source: 0, sink: 0, precedence: 2 },
    ];
    assert_eq!(run_body(&twice_precedence, &vec![], &vec![]).err(), Some(ConstructionError::DuplicateAttribute));
}

#[test]
fn malformed_bodies_are_errors() {
    let unknown_node = vec![Op::CreateNode, Op::CreateEdge { source: 0, sink: 1 }];
    assert_eq!(run_body(&unknown_node, &vec![], &vec![]).err(), Some(ConstructionError::UnknownNode));
    let unknown_edge = vec![Op::CreateNode, Op::CreateNode, Op::SetPrecedence { source: 0, sink: 1, precedence: 1 }];
    assert_eq!(run_body(&unknown_edge, &vec![], &vec![]).err(), Some(ConstructionError::UnknownEdge));
    let no_symbol = vec![Op::CreateNode, Op::SetType { node: 0, node_type: NodeType::Definition }];
    assert_eq!(run_body(&no_symbol, &vec![], &vec![]).err(), Some(ConstructionError::MissingSymbol));
}

#[test]
fn failure_leaves_the_graph_untouched() {
    let rules = vec![
        rule("assignment", vec![], vec![Op::CreateNode, Op::CreateNode]),
        rule("identifier", vec![], vec![Op::SetType { node: 0, node_type: NodeType::Scope }]),
    ];
    let (g, r) = load(rules);
    assert_eq!(r, Err(ConstructionError::UnknownNode));
    assert_eq!(g.nodes.len(), 1);
    assert_eq!(g.edges.len(), 0);
    assert_eq!(g.files[0].node_count, 0);
}

#[test]
fn walk_skips_unmatched_nodes() {
    let rules = vec![rule("identifier", vec![], vec![Op::CreateNode])];
    let outs = walk_tree(&assignment_tree(), &chars("x = y"), &rules).ok().unwrap();
    assert_eq!(outs.len(), 2);
}
