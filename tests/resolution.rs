use stack_graphs::command::{after_lookup, Choice, Command, Lookup};
use stack_graphs::graph::{NodeKind, StackGraph};
use stack_graphs::resolution::{check_path, ranked_edges, resolve, stitch, Resolution, Step};

fn chars(s: &str) -> Vec<char> {
    s.chars().collect()
}

fn reference(s: &str) -> NodeKind {
    NodeKind::PushSymbol { symbol: chars(s), is_reference: true }
}

fn definition(s: &str) -> NodeKind {
    NodeKind::PushSymbol { symbol: chars(s), is_reference: false }
}

fn pop(s: &str) -> NodeKind {
    NodeKind::PopSymbol { symbol: chars(s) }
}

fn graph() -> (StackGraph, usize) {
    let mut g = StackGraph::new();
    let f = g.add_file(chars("test.py"));
    (g, f)
}

fn steps_of(r: &Resolution) -> Vec<Vec<Step>> {
    r.paths.iter().map(|p| p.steps.clone()).collect()
}

#[test]
fn direct_edge_binds_with_default_precedence() {
    let (mut g, f) = graph();
    let d = g.add_node(f, definition("a"));
    let r = g.add_node(f, reference("a"));
    g.add_edge(r, d, 0);
    let res = resolve(&g, r, 100);
    assert!(!res.cancelled);
    assert_eq!(steps_of(&res), vec![vec![Step::Edge(0)]]);
    assert_eq!(res.paths[0].end, d);
    assert_eq!(g.edge_display(0), "[test.py(1) reference a] -0-> [test.py(0) definition a]");
}

#[test]
fn direct_edge_binds_with_explicit_precedence() {
    let (mut g, f) = graph();
    let d = g.add_node(f, definition("a"));
    let r = g.add_node(f, reference("a"));
    g.add_edge(r, d, 17);
    let res = resolve(&g, r, 100);
    assert_eq!(res.paths.len(), 1);
    assert_eq!(g.edges[0].precedence, 17);
    assert!(g.edge_display(0).contains("-17->"));
}

/// A reference with two ways to a definition, the lower precedence added first.
fn two_ways() -> (StackGraph, usize) {
    let (mut g, f) = graph();
    let r = g.add_node(f, reference("a"));
    let low = g.add_node(f, NodeKind::Scope);
    let high = g.add_node(f, NodeKind::Scope);
    let d1 = g.add_node(f, definition("a"));
    let d2 = g.add_node(f, definition("a"));
    g.add_edge(r, low, 1);
    g.add_edge(r, high, 5);
    g.add_edge(low, d1, 0);
    g.add_edge(high, d2, 0);
    (g, r)
}

#[test]
fn higher_precedence_path_comes_first() {
    let (g, r) = two_ways();
    let res = resolve(&g, r, 100);
    assert_eq!(steps_of(&res), vec![vec![Step::Edge(1), Step::Edge(3)], vec![Step::Edge(0), Step::Edge(2)]]);
    assert_eq!(res.paths[0].end, 5);
    assert_eq!(res.paths[1].end, 4);
    assert_eq!(ranked_edges(&g, r), vec![1, 0]);
}

#[test]
fn equal_precedence_keeps_every_path() {
    let (mut g, f) = graph();
    let r = g.add_node(f, reference("a"));
    let d1 = g.add_node(f, definition("a"));
    let d2 = g.add_node(f, definition("a"));
    g.add_edge(r, d1, 2);
    g.add_edge(r, d2, 2);
    let res = resolve(&g, r, 100);
    assert_eq!(steps_of(&res), vec![vec![Step::Edge(0)], vec![Step::Edge(1)]]);
}

#[test]
fn resolving_twice_gives_the_same_result() {
    let (g, r) = two_ways();
    let first = resolve(&g, r, 100);
    let second = resolve(&g, r, 100);
    assert_eq!(steps_of(&first), steps_of(&second));
    assert_eq!(first.cancelled, second.cancelled);
}

#[test]
fn mismatched_pop_ends_the_path() {
    let (mut g, f) = graph();
    let r = g.add_node(f, reference("y"));
    let p = g.add_node(f, pop("x"));
    let d = g.add_node(f, definition("y"));
    g.add_edge(r, p, 0);
    g.add_edge(p, d, 0);
    let res = resolve(&g, r, 100);
    assert!(res.paths.is_empty());
    assert!(!res.cancelled);
}

#[test]
fn matching_pop_lets_the_path_through() {
    let (mut g, f) = graph();
    let r = g.add_node(f, reference("x"));
    let push = g.add_node(f, reference("m"));
    let p = g.add_node(f, pop("m"));
    let d = g.add_node(f, definition("x"));
    g.add_edge(r, push, 0);
    g.add_edge(push, p, 0);
    g.add_edge(p, d, 0);
    let res = resolve(&g, r, 100);
    assert_eq!(steps_of(&res), vec![vec![Step::Edge(0), Step::Edge(1), Step::Edge(2)]]);
}

#[test]
fn unbalanced_cycle_terminates() {
    let (mut g, f) = graph();
    let r = g.add_node(f, reference("a"));
    let s = g.add_node(f, NodeKind::Scope);
    let push = g.add_node(f, reference("b"));
    g.add_edge(r, s, 0);
    g.add_edge(s, push, 0);
    g.add_edge(push, s, 0);
    let res = resolve(&g, r, 200);
    assert!(res.paths.is_empty());
    assert!(res.cancelled);
}

#[test]
fn balanced_cycle_through_a_jump_is_pruned() {
    let (mut g, f) = graph();
    let r = g.add_node(f, reference("a"));
    let s = g.add_node(f, NodeKind::Scope);
    let j = g.add_node(f, NodeKind::JumpToScope { target: Some(s) });
    let d = g.add_node(f, definition("a"));
    g.add_edge(r, s, 0);
    g.add_edge(s, j, 1);
    g.add_edge(s, d, 0);
    let res = resolve(&g, r, 1000);
    assert!(!res.cancelled);
    assert_eq!(steps_of(&res), vec![vec![Step::Edge(0), Step::Edge(2)]]);
}

#[test]
fn jump_without_target_leads_nowhere() {
    let (mut g, f) = graph();
    let r = g.add_node(f, reference("a"));
    let j = g.add_node(f, NodeKind::JumpToScope { target: None });
    let d = g.add_node(f, definition("a"));
    g.add_edge(r, j, 0);
    g.add_edge(j, d, 0);
    assert!(resolve(&g, r, 100).paths.is_empty());
}

#[test]
fn jump_follows_its_attached_scope() {
    let (mut g, f) = graph();
    let r = g.add_node(f, reference("a"));
    let j = g.add_node(f, NodeKind::JumpToScope { target: Some(3) });
    let s = g.add_node(f, NodeKind::Scope);
    let d = g.add_node(f, definition("a"));
    g.add_edge(r, j, 0);
    g.add_edge(s, d, 0);
    let res = resolve(&g, r, 100);
    assert_eq!(steps_of(&res), vec![vec![Step::Edge(0), Step::Jump, Step::Edge(1)]]);
    assert_eq!(res.paths[0].end, d);
}

#[test]
fn unresolved_reference_gives_no_paths() {
    let (mut g, f) = graph();
    let r = g.add_node(f, reference("a"));
    let d = g.add_node(f, definition("b"));
    g.add_edge(r, d, 0);
    let res = resolve(&g, r, 100);
    assert!(res.paths.is_empty());
    assert!(!res.cancelled);
}

#[test]
fn zero_budget_cancels() {
    let (g, r) = two_ways();
    let res = resolve(&g, r, 0);
    assert!(res.paths.is_empty());
    assert!(res.cancelled);
}

#[test]
fn root_and_negative_precedence_display() {
    let (mut g, f) = graph();
    let s = g.add_node(f, NodeKind::Scope);
    g.add_edge(0, s, -120);
    assert_eq!(g.node_display(0), "[root]");
    assert_eq!(g.edge_display(0), "[root] --120-> [test.py(0) scope]");
}

#[test]
fn language_lookup_order() {
    let with_scope = Command::new("a.py".to_string(), None, Some("source.python".to_string()));
    let without = Command::new("a.py".to_string(), None, None);
    assert_eq!(with_scope.first_lookup(), Lookup::ByScope);
    assert_eq!(without.first_lookup(), Lookup::ByFileName);
    assert_eq!(after_lookup(Lookup::ByScope, false), Choice::UnknownScope);
    assert_eq!(after_lookup(Lookup::ByFileName, false), Choice::Next(Lookup::InCurrentDir));
    assert_eq!(after_lookup(Lookup::InCurrentDir, false), Choice::NoLanguage);
    assert_eq!(after_lookup(Lookup::InCurrentDir, true), Choice::Found);
}

/// `a.py` refers to `x` through the root; `b.py` defines `x` under the root.
fn two_files() -> (StackGraph, usize, usize) {
    let mut g = StackGraph::new();
    let fa = g.add_file(chars("a.py"));
    let fb = g.add_file(chars("b.py"));
    let r = g.add_node(fa, reference("x"));
    let d = g.add_node(fb, definition("x"));
    g.add_edge(r, 0, 0);
    g.add_edge(0, d, 0);
    (g, r, d)
}

#[test]
fn stitched_fragments_match_direct_resolution() {
    let (g, r, d) = two_files();
    let direct = resolve(&g, r, 100);
    assert_eq!(steps_of(&direct), vec![vec![Step::Edge(0), Step::Edge(1)]]);
    let stitched = stitch(&g, r, &vec![Step::Edge(0)], &vec![Step::Edge(1)]).unwrap();
    assert_eq!(stitched.steps, direct.paths[0].steps);
    assert_eq!(stitched.end, d);
    assert_eq!(g.node_display(d), "[b.py(0) definition x]");
}

#[test]
fn stitching_incompatible_fragments_fails() {
    let (g, r, _) = two_files();
    assert!(stitch(&g, r, &vec![Step::Edge(0)], &vec![]).is_none());
    assert!(stitch(&g, r, &vec![Step::Edge(1)], &vec![Step::Edge(0)]).is_none());
}

#[test]
fn check_path_accepts_only_complete_paths() {
    let (g, r, d) = two_files();
    assert_eq!(check_path(&g, r, &vec![Step::Edge(0), Step::Edge(1)]), Some(d));
    assert_eq!(check_path(&g, r, &vec![Step::Edge(0)]), None);
    assert_eq!(check_path(&g, r, &vec![Step::Jump]), None);
    assert_eq!(check_path(&g, r, &vec![]), None);
}

#[test]
fn step_bound_cuts_only_longer_paths() {
    let (mut g, f) = graph();
    let r = g.add_node(f, reference("a"));
    let s1 = g.add_node(f, NodeKind::Scope);
    let s2 = g.add_node(f, NodeKind::Scope);
    let d = g.add_node(f, definition("a"));
    g.add_edge(r, s1, 0);
    g.add_edge(s1, s2, 0);
    g.add_edge(s2, d, 0);
    let short = resolve(&g, r, 2);
    assert!(short.cancelled);
    assert!(short.paths.is_empty());
    let enough = resolve(&g, r, 3);
    assert!(!enough.cancelled);
    assert_eq!(steps_of(&enough), vec![vec![Step::Edge(0), Step::Edge(1), Step::Edge(2)]]);
}
