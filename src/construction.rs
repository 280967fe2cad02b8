//! The construction engine: runs an ordered rule set over a syntax tree and
//! emits the nodes and edges of one file's stack graph.
use vstd::prelude::*;
use crate::graph::{Edge, Node, NodeKind, StackGraph};

verus! {

/// The type a rule gives to a node it created.
#[derive(Clone, Copy, Debug, PartialEq, Eq, Structural)]
pub enum NodeType {
    Definition,
    Reference,
    Pop,
    Scope,
    Jump,
}

/// Where a symbol comes from: a literal, or the source text of a capture.
pub enum Value {
    Literal(Vec<char>),
    SourceText(usize),
}

/// One graph-construction operation of a rule body. Nodes are named by the
/// order in which the body created them.
pub enum Op {
    CreateNode,
    SetType { node: usize, node_type: NodeType },
    SetSymbol { node: usize, value: Value },
    AttachScope { jump: usize, scope: usize },
    CreateEdge { source: usize, sink: usize },
    /// Sets the precedence of the latest edge created between the two nodes.
    SetPrecedence { source: usize, sink: usize, precedence: i32 },
}

/// A capture binds the matched node itself, or its first child of a kind.
pub struct Capture {
    pub child_kind: Option<Vec<char>>,
}

/// A pattern (a node kind and its captures) paired with a body.
pub struct Rule {
    pub kind: Vec<char>,
    pub captures: Vec<Capture>,
    pub body: Vec<Op>,
}

#[derive(Clone, Copy, Debug, PartialEq, Eq, Structural)]
pub enum ConstructionError {
    /// A body reads a capture that its pattern does not bind.
    UnboundCapture,
    /// A captured child is absent from the matched node.
    MissingCapture,
    /// An attribute is set twice on one node or edge.
    DuplicateAttribute,
    /// A body names a node it has not created.
    UnknownNode,
    /// A body sets the precedence of an edge it has not created.
    UnknownEdge,
    /// A definition, reference or pop node was left without a symbol.
    MissingSymbol,
    /// The graph cannot hold more nodes.
    CapacityExceeded,
}

/// A node created by a body, with what the body set on it.
pub struct PendingNode {
    pub node_type: Option<NodeType>,
    pub symbol: Option<Vec<char>>,
    pub target: Option<usize>,
}

#[derive(Clone, Copy, Debug, PartialEq, Eq, Structural)]
pub struct PendingEdge {
    pub source: usize,
    pub sink: usize,
    pub precedence: Option<i32>,
}

pub struct BodyOutput {
    pub nodes: Vec<PendingNode>,
    pub edges: Vec<PendingEdge>,
}

pub struct PendingModel {
    pub node_type: Option<NodeType>,
    pub symbol: Option<Seq<char>>,
    pub target: Option<usize>,
}

pub struct BodyModel {
    pub nodes: Seq<PendingModel>,
    pub edges: Seq<PendingEdge>,
}

impl PendingNode {
    pub open spec fn model(&self) -> PendingModel {
        PendingModel {
            node_type: self.node_type,
            symbol: match self.symbol {
                Some(s) => Some(s@),
                None => None,
            },
            target: self.target,
        }
    }
}

impl BodyOutput {
    pub open spec fn model(&self) -> BodyModel {
        BodyModel { nodes: self.nodes@.map_values(|p: PendingNode| p.model()), edges: self.edges@ }
    }
}

pub open spec fn empty_pending() -> PendingModel {
    PendingModel { node_type: None, symbol: None, target: None }
}

/// Index of the latest edge from `source` to `sink`.
pub open spec fn last_edge(edges: Seq<PendingEdge>, source: usize, sink: usize) -> Option<int>
    decreases edges.len(),
{
    if edges.len() == 0 {
        None
    } else if edges.last().source == source && edges.last().sink == sink {
        Some(edges.len() - 1)
    } else {
        last_edge(edges.drop_last(), source, sink)
    }
}

/// The text a value stands for, given the spans of the captures.
pub open spec fn value_text(v: Value, spans: Seq<(usize, usize)>, src: Seq<char>) -> Result<Seq<char>, ConstructionError> {
    match v {
        Value::Literal(s) => Ok(s@),
        Value::SourceText(k) => if k < spans.len() {
            Ok(src.subrange(spans[k as int].0 as int, spans[k as int].1 as int))
        } else {
            Err(ConstructionError::UnboundCapture)
        },
    }
}

/// What one operation does to the state of a body.
pub open spec fn step(st: BodyModel, op: Op, spans: Seq<(usize, usize)>, src: Seq<char>) -> Result<BodyModel, ConstructionError> {
    let n = st.nodes.len();
    match op {
        Op::CreateNode => Ok(BodyModel { nodes: st.nodes.push(empty_pending()), ..st }),
        Op::SetType { node, node_type } => if node >= n {
            Err(ConstructionError::UnknownNode)
        } else if st.nodes[node as int].node_type is Some {
            Err(ConstructionError::DuplicateAttribute)
        } else {
            Ok(BodyModel {
                nodes: st.nodes.update(node as int, PendingModel { node_type: Some(node_type), ..st.nodes[node as int] }),
                ..st
            })
        },
        Op::SetSymbol { node, value } => if node >= n {
            Err(ConstructionError::UnknownNode)
        } else if st.nodes[node as int].symbol is Some {
            Err(ConstructionError::DuplicateAttribute)
        } else {
            match value_text(value, spans, src) {
                Err(e) => Err(e),
                Ok(t) => Ok(BodyModel {
                    nodes: st.nodes.update(node as int, PendingModel { symbol: Some(t), ..st.nodes[node as int] }),
                    ..st
                }),
            }
        },
        Op::AttachScope { jump, scope } => if jump >= n || scope >= n {
            Err(ConstructionError::UnknownNode)
        } else if st.nodes[jump as int].target is Some {
            Err(ConstructionError::DuplicateAttribute)
        } else {
            Ok(BodyModel {
                nodes: st.nodes.update(jump as int, PendingModel { target: Some(scope), ..st.nodes[jump as int] }),
                ..st
            })
        },
        Op::CreateEdge { source, sink } => if source >= n || sink >= n {
            Err(ConstructionError::UnknownNode)
        } else {
            Ok(BodyModel { edges: st.edges.push(PendingEdge { source, sink, precedence: None }), ..st })
        },
        Op::SetPrecedence { source, sink, precedence } => match last_edge(st.edges, source, sink) {
            None => Err(ConstructionError::UnknownEdge),
            Some(e) => if st.edges[e].precedence is Some {
                Err(ConstructionError::DuplicateAttribute)
            } else {
                Ok(BodyModel {
                    edges: st.edges.update(e, PendingEdge { precedence: Some(precedence), ..st.edges[e] }),
                    ..st
                })
            },
        },
    }
}

/// The state after running `ops` in order from `st`; the first failure stops the body.
pub open spec fn run_ops(st: BodyModel, ops: Seq<Op>, spans: Seq<(usize, usize)>, src: Seq<char>) -> Result<BodyModel, ConstructionError>
    decreases ops.len(),
{
    if ops.len() == 0 {
        Ok(st)
    } else {
        match run_ops(st, ops.drop_last(), spans, src) {
            Err(e) => Err(e),
            Ok(s) => step(s, ops.last(), spans, src),
        }
    }
}

pub open spec fn needs_symbol(t: Option<NodeType>) -> bool {
    t == Some(NodeType::Definition) || t == Some(NodeType::Reference) || t == Some(NodeType::Pop)
}

/// Every node whose type carries a symbol got one.
pub open spec fn symbols_complete(st: BodyModel) -> bool {
    forall|i: int| 0 <= i < st.nodes.len() && needs_symbol(#[trigger] st.nodes[i].node_type) ==> st.nodes[i].symbol is Some
}

/// The outcome of a whole body: its operations, then the check that symbols are set.
pub open spec fn body_result(ops: Seq<Op>, spans: Seq<(usize, usize)>, src: Seq<char>) -> Result<BodyModel, ConstructionError> {
    match run_ops(BodyModel { nodes: Seq::empty(), edges: Seq::empty() }, ops, spans, src) {
        Err(e) => Err(e),
        Ok(st) => if symbols_complete(st) { Ok(st) } else { Err(ConstructionError::MissingSymbol) },
    }
}

/// Every jump target and edge end names a node of the body.
pub open spec fn body_wf(st: BodyModel) -> bool {
    &&& forall|i: int| 0 <= i < st.nodes.len() && (#[trigger] st.nodes[i]).target is Some
        ==> st.nodes[i].target->0 < st.nodes.len()
    &&& forall|e: int| 0 <= e < st.edges.len()
        ==> (#[trigger] st.edges[e]).source < st.nodes.len() && st.edges[e].sink < st.nodes.len()
}

pub open spec fn spans_fit(spans: Seq<(usize, usize)>, src_len: int) -> bool {
    forall|k: int| 0 <= k < spans.len() ==> #[trigger] spans[k].0 <= spans[k].1 && spans[k].1 <= src_len
}

pub(crate) fn copy_chars(s: &Vec<char>) -> (r: Vec<char>)
    ensures
        r@ == s@,
{
    let mut r: Vec<char> = Vec::new();
    let mut k: usize = 0;
    while k < s.len()
        invariant
            k <= s.len(),
            r@ == s@.subrange(0, k as int),
        decreases s.len() - k,
    {
        r.push(s[k]);
        k += 1;
        assert(s@.subrange(0, k as int) =~= s@.subrange(0, k - 1).push(s@[k - 1]));
    }
    assert(s@.subrange(0, s.len() as int) =~= s@);
    r
}

fn slice_chars(src: &Vec<char>, start: usize, end: usize) -> (r: Vec<char>)
    requires
        start <= end <= src.len(),
    ensures
        r@ == src@.subrange(start as int, end as int),
{
    let mut r: Vec<char> = Vec::new();
    let mut k: usize = start;
    while k < end
        invariant
            start <= k <= end <= src.len(),
            r@ == src@.subrange(start as int, k as int),
        decreases end - k,
    {
        r.push(src[k]);
        k += 1;
        assert(src@.subrange(start as int, k as int) =~= src@.subrange(start as int, k - 1).push(src@[k - 1]));
    }
    r
}

fn eval_value(v: &Value, spans: &Vec<(usize, usize)>, src: &Vec<char>) -> (r: Result<Vec<char>, ConstructionError>)
    requires
        spans_fit(spans@, src.len() as int),
    ensures
        match (r, value_text(*v, spans@, src@)) {
            (Ok(a), Ok(b)) => a@ == b,
            (Err(a), Err(b)) => a == b,
            _ => false,
        },
{
    match v {
        Value::Literal(s) => Ok(copy_chars(s)),
        Value::SourceText(k) => if *k < spans.len() {
            let (a, b) = spans[*k];
            Ok(slice_chars(src, a, b))
        } else {
            Err(ConstructionError::UnboundCapture)
        },
    }
}

fn find_last_edge(edges: &Vec<PendingEdge>, source: usize, sink: usize) -> (r: Option<usize>)
    ensures
        match (r, last_edge(edges@, source, sink)) {
            (Some(a), Some(b)) => a == b,
            (None, None) => true,
            _ => false,
        },
        match r {
            Some(a) => a < edges.len(),
            None => true,
        },
{
    let mut k: usize = edges.len();
    assert(edges@.subrange(0, k as int) =~= edges@);
    while k > 0
        invariant
            k <= edges.len(),
            last_edge(edges@, source, sink) == last_edge(edges@.subrange(0, k as int), source, sink),
        decreases k,
    {
        let ghost pre = edges@.subrange(0, k as int);
        if edges[k - 1].source == source && edges[k - 1].sink == sink {
            return Some(k - 1);
        }
        assert(pre.drop_last() =~= edges@.subrange(0, k - 1));
        k -= 1;
    }
    assert(edges@.subrange(0, 0) =~= Seq::<PendingEdge>::empty());
    None
}

/// Takes node `i` out of `v`, leaving an empty node in its place.
fn take_node(v: &mut Vec<PendingNode>, i: usize) -> (r: PendingNode)
    requires
        i < old(v).len(),
    ensures
        r == old(v)[i as int],
        final(v)@ == old(v)@.update(i as int, PendingNode { node_type: None, symbol: None, target: None }),
{
    let mut r = PendingNode { node_type: None, symbol: None, target: None };
    std::mem::swap(&mut r, &mut v[i]);
    r
}

/// Runs one operation; on failure the state is of no further use.
fn apply_op(out: &mut BodyOutput, op: &Op, spans: &Vec<(usize, usize)>, src: &Vec<char>) -> (r: Result<(), ConstructionError>)
    requires
        spans_fit(spans@, src.len() as int),
    ensures
        match (r, step(old(out).model(), *op, spans@, src@)) {
            (Ok(_), Ok(m)) => final(out).model() == m,
            (Err(a), Err(b)) => a == b,
            _ => false,
        },
        r is Ok && body_wf(old(out).model()) ==> body_wf(final(out).model()),
{
    let ghost m0 = out.model();
    let n = out.nodes.len();
    match op {
        Op::CreateNode => {
            out.nodes.push(PendingNode { node_type: None, symbol: None, target: None });
            assert(out.model().nodes =~= m0.nodes.push(empty_pending()));
            Ok(())
        },
        Op::SetType { node, node_type } => {
            if *node >= n {
                return Err(ConstructionError::UnknownNode);
            }
            if out.nodes[*node].node_type.is_some() {
                return Err(ConstructionError::DuplicateAttribute);
            }
            let mut p = take_node(&mut out.nodes, *node);
            p.node_type = Some(*node_type);
            out.nodes.set(*node, p);
            assert(out.model().nodes =~= m0.nodes.update(*node as int, PendingModel { node_type: Some(*node_type), ..m0.nodes[*node as int] }));
            Ok(())
        },
        Op::SetSymbol { node, value } => {
            if *node >= n {
                return Err(ConstructionError::UnknownNode);
            }
            if out.nodes[*node].symbol.is_some() {
                return Err(ConstructionError::DuplicateAttribute);
            }
            match eval_value(value, spans, src) {
                Err(e) => Err(e),
                Ok(t) => {
                    let ghost tv = t@;
                    let mut p = take_node(&mut out.nodes, *node);
                    p.symbol = Some(t);
                    out.nodes.set(*node, p);
                    assert(out.model().nodes =~= m0.nodes.update(*node as int, PendingModel { symbol: Some(tv), ..m0.nodes[*node as int] }));
                    Ok(())
                },
            }
        },
        Op::AttachScope { jump, scope } => {
            if *jump >= n || *scope >= n {
                return Err(ConstructionError::UnknownNode);
            }
            if out.nodes[*jump].target.is_some() {
                return Err(ConstructionError::DuplicateAttribute);
            }
            let mut p = take_node(&mut out.nodes, *jump);
            p.target = Some(*scope);
            out.nodes.set(*jump, p);
            assert(out.model().nodes =~= m0.nodes.update(*jump as int, PendingModel { target: Some(*scope), ..m0.nodes[*jump as int] }));
            Ok(())
        },
        Op::CreateEdge { source, sink } => {
            if *source >= n || *sink >= n {
                return Err(ConstructionError::UnknownNode);
            }
            out.edges.push(PendingEdge { source: *source, sink: *sink, precedence: None });
            Ok(())
        },
        Op::SetPrecedence { source, sink, precedence } => {
            match find_last_edge(&out.edges, *source, *sink) {
                None => Err(ConstructionError::UnknownEdge),
                Some(e) => {
                    if out.edges[e].precedence.is_some() {
                        return Err(ConstructionError::DuplicateAttribute);
                    }
                    let old_edge = out.edges[e];
                    out.edges.set(e, PendingEdge { precedence: Some(*precedence), ..old_edge });
                    Ok(())
                },
            }
        },
    }
}

/// Runs a rule body against the spans of its captures: every operation in
/// order, then the check that each symbol-carrying node got its symbol.
pub fn run_body(ops: &Vec<Op>, spans: &Vec<(usize, usize)>, src: &Vec<char>) -> (r: Result<BodyOutput, ConstructionError>)
    requires
        spans_fit(spans@, src.len() as int),
    ensures
        match (r, body_result(ops@, spans@, src@)) {
            (Ok(a), Ok(b)) => a.model() == b,
            (Err(a), Err(b)) => a == b,
            _ => false,
        },
        r matches Ok(a) ==> body_wf(a.model()) && symbols_complete(a.model()),
{
    let mut out = BodyOutput { nodes: Vec::new(), edges: Vec::new() };
    let ghost start = out.model();
    assert(start == BodyModel { nodes: Seq::empty(), edges: Seq::empty() }) by {
        assert(start.nodes =~= Seq::<PendingModel>::empty());
        assert(start.edges =~= Seq::<PendingEdge>::empty());
    }
    let mut i: usize = 0;
    while i < ops.len()
        invariant
            i <= ops.len(),
            spans_fit(spans@, src.len() as int),
            start == (BodyModel { nodes: Seq::empty(), edges: Seq::empty() }),
            body_wf(out.model()),
            run_ops(start, ops@.subrange(0, i as int), spans@, src@) == Ok::<BodyModel, ConstructionError>(out.model()),
        decreases ops.len() - i,
    {
        let ghost pre = ops@.subrange(0, i as int + 1);
        assert(pre.drop_last() =~= ops@.subrange(0, i as int));
        assert(pre.last() == ops@[i as int]);
        match apply_op(&mut out, &ops[i], spans, src) {
            Err(e) => {
                assert(run_ops(start, pre, spans@, src@) == Err::<BodyModel, ConstructionError>(e));
                proof { lemma_run_ops_err(start, ops@, spans@, src@, i as int + 1, e); }
                assert(body_result(ops@, spans@, src@) == Err::<BodyModel, ConstructionError>(e));
                return Err(e);
            },
            Ok(_) => {},
        }
        assert(run_ops(start, pre, spans@, src@) == Ok::<BodyModel, ConstructionError>(out.model()));
        i += 1;
    }
    assert(ops@.subrange(0, ops.len() as int) =~= ops@);
    let mut k: usize = 0;
    while k < out.nodes.len()
        invariant
            k <= out.nodes.len(),
            start == (BodyModel { nodes: Seq::empty(), edges: Seq::empty() }),
            run_ops(start, ops@, spans@, src@) == Ok::<BodyModel, ConstructionError>(out.model()),
            body_wf(out.model()),
            forall|j: int| 0 <= j < k && needs_symbol(#[trigger] out.model().nodes[j].node_type) ==> out.model().nodes[j].symbol is Some,
        decreases out.nodes.len() - k,
    {
        assert(out.model().nodes[k as int] == out.nodes[k as int].model());
        let t = out.nodes[k].node_type;
        let needs = match t {
            Some(NodeType::Definition) | Some(NodeType::Reference) | Some(NodeType::Pop) => true,
            _ => false,
        };
        if needs && out.nodes[k].symbol.is_none() {
            assert(needs_symbol(out.model().nodes[k as int].node_type));
            assert(!symbols_complete(out.model()));
            return Err(ConstructionError::MissingSymbol);
        }
        k += 1;
    }
    Ok(out)
}

/// Once a prefix of the operations fails, the whole sequence fails the same way.
proof fn lemma_run_ops_err(st: BodyModel, ops: Seq<Op>, spans: Seq<(usize, usize)>, src: Seq<char>, k: int, e: ConstructionError)
    requires
        0 <= k <= ops.len(),
        run_ops(st, ops.subrange(0, k), spans, src) == Err::<BodyModel, ConstructionError>(e),
    ensures
        run_ops(st, ops, spans, src) == Err::<BodyModel, ConstructionError>(e),
    decreases ops.len() - k,
{
    if k < ops.len() {
        let pre = ops.subrange(0, k + 1);
        assert(pre.drop_last() =~= ops.subrange(0, k));
        lemma_run_ops_err(st, ops, spans, src, k + 1, e);
    } else {
        assert(ops.subrange(0, k) =~= ops);
    }
}

/// A node of a parsed syntax tree: its kind, its span in the source text, and
/// the indices of its children.
pub struct SyntaxNode {
    pub kind: Vec<char>,
    pub start: usize,
    pub end: usize,
    pub children: Vec<usize>,
}

/// A parsed syntax tree whose arena lists the nodes in document order, each
/// parent before its children.
pub struct SyntaxTree {
    pub nodes: Vec<SyntaxNode>,
}

impl SyntaxTree {
    /// Each child comes after its parent in the arena.
    pub open spec fn children_ok(&self) -> bool {
        forall|i: int, c: int| 0 <= i < self.nodes.len() && 0 <= c < self.nodes[i].children.len()
            ==> i < #[trigger] self.nodes[i].children[c] < self.nodes.len()
    }

    /// Each span lies within a source text of `src_len` characters.
    pub open spec fn spans_ok(&self, src_len: int) -> bool {
        forall|i: int| 0 <= i < self.nodes.len()
            ==> #[trigger] self.nodes[i].start <= self.nodes[i].end && self.nodes[i].end <= src_len
    }

    pub open spec fn wf(&self, src_len: int) -> bool {
        self.children_ok() && self.spans_ok(src_len)
    }
}

/// Rule `j` is the first whose pattern names `kind`.
pub open spec fn is_first_match(rules: Seq<Rule>, kind: Seq<char>, j: int) -> bool {
    &&& 0 <= j < rules.len()
    &&& rules[j].kind@ == kind
    &&& forall|k: int| 0 <= k < j ==> #[trigger] rules[k].kind@ != kind
}

/// The rule that runs on a node of `kind`: the first that matches, if any.
pub open spec fn first_match(rules: Seq<Rule>, kind: Seq<char>) -> Option<int> {
    if exists|j: int| is_first_match(rules, kind, j) {
        Some(choose|j: int| is_first_match(rules, kind, j))
    } else {
        None
    }
}

/// Position `k` among the children of node `i` holds its first child of `kind`.
pub open spec fn is_first_child(t: SyntaxTree, i: int, kind: Seq<char>, k: int) -> bool {
    &&& 0 <= k < t.nodes[i].children.len()
    &&& t.nodes[t.nodes[i].children[k] as int].kind@ == kind
    &&& forall|m: int| 0 <= m < k ==> #[trigger] t.nodes[t.nodes[i].children[m] as int].kind@ != kind
}

/// The first child of node `i` that has `kind`.
pub open spec fn first_child(t: SyntaxTree, i: int, kind: Seq<char>) -> Option<int> {
    if exists|m: int| is_first_child(t, i, kind, m) {
        Some(t.nodes[i].children[choose|m: int| is_first_child(t, i, kind, m)] as int)
    } else {
        None
    }
}

/// The node that a capture binds when the pattern matched node `i`.
pub open spec fn capture_node(t: SyntaxTree, i: int, c: Capture) -> Option<int> {
    match c.child_kind {
        None => Some(i),
        Some(k) => first_child(t, i, k@),
    }
}

/// The spans of the captures, or `None` when a captured child is absent.
pub open spec fn capture_spans(t: SyntaxTree, i: int, caps: Seq<Capture>) -> Option<Seq<(usize, usize)>>
    decreases caps.len(),
{
    if caps.len() == 0 {
        Some(Seq::empty())
    } else {
        match (capture_spans(t, i, caps.drop_last()), capture_node(t, i, caps.last())) {
            (Some(sp), Some(n)) => Some(sp.push((t.nodes[n].start, t.nodes[n].end))),
            _ => None,
        }
    }
}

/// What visiting node `i` yields: nothing when no rule matches, else the
/// outcome of the first matching rule's body.
pub open spec fn visit_result(t: SyntaxTree, src: Seq<char>, rules: Seq<Rule>, i: int) -> Result<Option<BodyModel>, ConstructionError> {
    match first_match(rules, t.nodes[i].kind@) {
        None => Ok(None),
        Some(j) => match capture_spans(t, i, rules[j].captures@) {
            None => Err(ConstructionError::MissingCapture),
            Some(sp) => match body_result(rules[j].body@, sp, src) {
                Err(e) => Err(e),
                Ok(m) => Ok(Some(m)),
            },
        },
    }
}

/// The body outputs of the first `k` nodes in document order, or the first failure.
pub open spec fn walk(t: SyntaxTree, src: Seq<char>, rules: Seq<Rule>, k: int) -> Result<Seq<BodyModel>, ConstructionError>
    decreases k,
{
    if k <= 0 {
        Ok(Seq::empty())
    } else {
        match walk(t, src, rules, k - 1) {
            Err(e) => Err(e),
            Ok(outs) => match visit_result(t, src, rules, k - 1) {
                Err(e) => Err(e),
                Ok(None) => Ok(outs),
                Ok(Some(m)) => Ok(outs.push(m)),
            },
        }
    }
}

pub(crate) fn chars_equal(a: &Vec<char>, b: &Vec<char>) -> (r: bool)
    ensures
        r == (a@ == b@),
{
    if a.len() != b.len() {
        return false;
    }
    let mut k: usize = 0;
    while k < a.len()
        invariant
            k <= a.len() == b.len(),
            forall|m: int| 0 <= m < k ==> a@[m] == b@[m],
        decreases a.len() - k,
    {
        if a[k] != b[k] {
            return false;
        }
        k += 1;
    }
    assert(a@ =~= b@);
    true
}

/// Finds the first rule whose pattern names `kind`.
pub fn find_rule(rules: &Vec<Rule>, kind: &Vec<char>) -> (r: Option<usize>)
    ensures
        match r {
            Some(j) => first_match(rules@, kind@) == Some(j as int),
            None => first_match(rules@, kind@) is None,
        },
{
    let mut j: usize = 0;
    while j < rules.len()
        invariant
            j <= rules.len(),
            forall|k: int| 0 <= k < j ==> #[trigger] rules@[k].kind@ != kind@,
        decreases rules.len() - j,
    {
        if chars_equal(&rules[j].kind, kind) {
            assert(is_first_match(rules@, kind@, j as int));
            let ghost c = choose|x: int| is_first_match(rules@, kind@, x);
            assert(c == j) by {
                if c < j {
                    assert(rules@[c].kind@ != kind@);
                } else if c > j {
                    assert(rules@[j as int].kind@ != kind@);
                }
            }
            return Some(j);
        }
        j += 1;
    }
    assert forall|x: int| !is_first_match(rules@, kind@, x) by {
        if 0 <= x < rules.len() {
            assert(rules@[x].kind@ != kind@);
        }
    }
    None
}

fn find_capture(t: &SyntaxTree, i: usize, c: &Capture) -> (r: Option<usize>)
    requires
        i < t.nodes.len(),
        t.children_ok(),
    ensures
        match r {
            Some(n) => capture_node(*t, i as int, *c) == Some(n as int) && n < t.nodes.len(),
            None => capture_node(*t, i as int, *c) is None,
        },
{
    match &c.child_kind {
        None => Some(i),
        Some(kind) => {
            let children = &t.nodes[i].children;
            let mut m: usize = 0;
            while m < children.len()
                invariant
                    m <= children.len(),
                    children == t.nodes[i as int].children,
                    c.child_kind == Some(*kind),
                    i < t.nodes.len(),
                    t.children_ok(),
                    forall|x: int| 0 <= x < m ==> #[trigger] t.nodes[t.nodes[i as int].children[x] as int].kind@ != kind@,
                decreases children.len() - m,
            {
                assert(i < t.nodes[i as int].children[m as int] < t.nodes.len());
                let n = children[m];
                if chars_equal(&t.nodes[n].kind, kind) {
                    assert(is_first_child(*t, i as int, kind@, m as int));
                    let ghost w = choose|x: int| is_first_child(*t, i as int, kind@, x);
                    assert(w == m) by {
                        if w < m {
                            assert(t.nodes[t.nodes[i as int].children[w] as int].kind@ != kind@);
                        } else if w > m {
                            assert(t.nodes[t.nodes[i as int].children[m as int] as int].kind@ != kind@);
                        }
                    }
                    assert(c.child_kind == Some(*kind));
                    assert(t.nodes[i as int].children[w] == n);
                    assert(exists|x: int| is_first_child(*t, i as int, kind@, x));
                    assert(first_child(*t, i as int, kind@) == Some(n as int));
                    assert(n < t.nodes.len());
                    return Some(n);
                }
                m += 1;
            }
            assert forall|x: int| !is_first_child(*t, i as int, kind@, x) by {
                if 0 <= x < children.len() {
                    assert(i < t.nodes[i as int].children[x] < t.nodes.len());
                    assert(t.nodes[t.nodes[i as int].children[x] as int].kind@ != kind@);
                }
            }
            None
        },
    }
}

fn compute_spans(t: &SyntaxTree, i: usize, caps: &Vec<Capture>) -> (r: Option<Vec<(usize, usize)>>)
    requires
        i < t.nodes.len(),
        t.children_ok(),
    ensures
        match (r, capture_spans(*t, i as int, caps@)) {
            (Some(a), Some(b)) => a@ == b,
            (None, None) => true,
            _ => false,
        },
{
    let mut spans: Vec<(usize, usize)> = Vec::new();
    let mut k: usize = 0;
    while k < caps.len()
        invariant
            k <= caps.len(),
            i < t.nodes.len(),
            t.children_ok(),
            capture_spans(*t, i as int, caps@.subrange(0, k as int)) == Some(spans@),
        decreases caps.len() - k,
    {
        let ghost pre = caps@.subrange(0, k as int + 1);
        assert(pre.drop_last() =~= caps@.subrange(0, k as int));
        assert(pre.last() == caps@[k as int]);
        match find_capture(t, i, &caps[k]) {
            None => {
                proof { lemma_capture_spans_none(*t, i as int, caps@, k as int + 1); }
                return None;
            },
            Some(n) => {
                spans.push((t.nodes[n].start, t.nodes[n].end));
            },
        }
        k += 1;
    }
    assert(caps@.subrange(0, caps.len() as int) =~= caps@);
    Some(spans)
}

/// Once a prefix of the captures fails to bind, so do all of them.
proof fn lemma_capture_spans_none(t: SyntaxTree, i: int, caps: Seq<Capture>, k: int)
    requires
        0 <= k <= caps.len(),
        capture_spans(t, i, caps.subrange(0, k)) is None,
    ensures
        capture_spans(t, i, caps) is None,
    decreases caps.len() - k,
{
    if k < caps.len() {
        assert(caps.subrange(0, k + 1).drop_last() =~= caps.subrange(0, k));
        lemma_capture_spans_none(t, i, caps, k + 1);
    } else {
        assert(caps.subrange(0, k) =~= caps);
    }
}

/// Visits node `i`: runs the body of the first rule that matches it, if any.
pub fn visit(t: &SyntaxTree, src: &Vec<char>, rules: &Vec<Rule>, i: usize) -> (r: Result<Option<BodyOutput>, ConstructionError>)
    requires
        i < t.nodes.len(),
        t.wf(src.len() as int),
    ensures
        match (r, visit_result(*t, src@, rules@, i as int)) {
            (Ok(None), Ok(None)) => true,
            (Ok(Some(a)), Ok(Some(b))) => a.model() == b,
            (Err(a), Err(b)) => a == b,
            _ => false,
        },
        r matches Ok(Some(a)) ==> body_wf(a.model()) && symbols_complete(a.model()),
{
    match find_rule(rules, &t.nodes[i].kind) {
        None => Ok(None),
        Some(j) => match compute_spans(t, i, &rules[j].captures) {
            None => Err(ConstructionError::MissingCapture),
            Some(spans) => {
                assert(spans_fit(spans@, src.len() as int)) by {
                    assert forall|k: int| 0 <= k < spans@.len() implies #[trigger] spans@[k].0 <= spans@[k].1
                        && spans@[k].1 <= src.len() by {
                        lemma_capture_spans_fit(*t, i as int, rules@[j as int].captures@, src.len() as int, k);
                    }
                }
                match run_body(&rules[j].body, &spans, src) {
                    Err(e) => Err(e),
                    Ok(out) => Ok(Some(out)),
                }
            },
        },
    }
}

proof fn lemma_capture_spans_fit(t: SyntaxTree, i: int, caps: Seq<Capture>, src_len: int, k: int)
    requires
        0 <= i < t.nodes.len(),
        t.wf(src_len),
        capture_spans(t, i, caps) is Some,
        0 <= k < capture_spans(t, i, caps)->0.len(),
    ensures
        capture_spans(t, i, caps)->0[k].0 <= capture_spans(t, i, caps)->0[k].1,
        capture_spans(t, i, caps)->0[k].1 <= src_len,
        capture_spans(t, i, caps)->0.len() == caps.len(),
    decreases caps.len(),
{
    if caps.len() > 0 {
        let sp = capture_spans(t, i, caps.drop_last())->0;
        let n = capture_node(t, i, caps.last())->0;
        assert(0 <= n < t.nodes.len()) by {
            match caps.last().child_kind {
                None => {},
                Some(kd) => {
                    let m = choose|m: int| is_first_child(t, i, kd@, m);
                    assert(i < t.nodes[i].children[m] < t.nodes.len());
                },
            }
        }
        if k < sp.len() {
            lemma_capture_spans_fit(t, i, caps.drop_last(), src_len, k);
        } else {
            if caps.drop_last().len() > 0 {
                lemma_capture_spans_fit(t, i, caps.drop_last(), src_len, 0);
            } else {
                assert(sp.len() == 0);
            }
            assert(t.nodes[n].start <= t.nodes[n].end);
        }
    }
}

/// Visits every node in document order and gathers the body outputs; the
/// first failure stops the walk.
pub fn walk_tree(t: &SyntaxTree, src: &Vec<char>, rules: &Vec<Rule>) -> (r: Result<Vec<BodyOutput>, ConstructionError>)
    requires
        t.wf(src.len() as int),
    ensures
        match (r, walk(*t, src@, rules@, t.nodes.len() as int)) {
            (Ok(a), Ok(b)) => a@.map_values(|o: BodyOutput| o.model()) == b,
            (Err(a), Err(b)) => a == b,
            _ => false,
        },
        r matches Ok(a) ==> forall|k: int| 0 <= k < a.len()
            ==> body_wf(#[trigger] a[k].model()) && symbols_complete(a[k].model()),
{
    let mut outs: Vec<BodyOutput> = Vec::new();
    let mut i: usize = 0;
    assert(outs@.map_values(|o: BodyOutput| o.model()) =~= Seq::<BodyModel>::empty());
    while i < t.nodes.len()
        invariant
            i <= t.nodes.len(),
            t.wf(src.len() as int),
            walk(*t, src@, rules@, i as int) == Ok::<Seq<BodyModel>, ConstructionError>(outs@.map_values(|o: BodyOutput| o.model())),
            forall|k: int| 0 <= k < outs.len() ==> body_wf(#[trigger] outs[k].model()) && symbols_complete(outs[k].model()),
        decreases t.nodes.len() - i,
    {
        match visit(t, src, rules, i) {
            Err(e) => {
                proof { lemma_walk_err(*t, src@, rules@, i as int + 1, t.nodes.len() as int, e); }
                return Err(e);
            },
            Ok(None) => {},
            Ok(Some(out)) => {
                let ghost before = outs@;
                outs.push(out);
                assert(outs@.map_values(|o: BodyOutput| o.model())
                    =~= before.map_values(|o: BodyOutput| o.model()).push(out.model()));
            },
        }
        i += 1;
    }
    Ok(outs)
}

proof fn lemma_walk_err(t: SyntaxTree, src: Seq<char>, rules: Seq<Rule>, k: int, n: int, e: ConstructionError)
    requires
        0 <= k <= n,
        walk(t, src, rules, k) == Err::<Seq<BodyModel>, ConstructionError>(e),
    ensures
        walk(t, src, rules, n) == Err::<Seq<BodyModel>, ConstructionError>(e),
    decreases n - k,
{
    if k < n {
        lemma_walk_err(t, src, rules, k + 1, n, e);
    }
}

/// The graph node built from a pending node of a body whose first node lands at `base`.
pub open spec fn built_kind_ok(kind: NodeKind, p: PendingModel, base: int) -> bool {
    match (p.node_type, kind) {
        (Some(NodeType::Definition), NodeKind::PushSymbol { symbol, is_reference }) => !is_reference && p.symbol == Some(symbol@),
        (Some(NodeType::Reference), NodeKind::PushSymbol { symbol, is_reference }) => is_reference && p.symbol == Some(symbol@),
        (Some(NodeType::Pop), NodeKind::PopSymbol { symbol }) => p.symbol == Some(symbol@),
        (Some(NodeType::Jump), NodeKind::JumpToScope { target }) => match p.target {
            Some(t) => target == Some((base + t) as usize),
            None => target is None,
        },
        (Some(NodeType::Scope), NodeKind::Scope) => true,
        (None, NodeKind::Scope) => true,
        _ => false,
    }
}

/// The graph edge built from a pending edge; an unset precedence is the default, 0.
pub open spec fn built_edge(e: PendingEdge, base: int) -> Edge {
    Edge {
        source: (base + e.source) as usize,
        sink: (base + e.sink) as usize,
        precedence: match e.precedence {
            Some(p) => p,
            None => 0i32,
        },
    }
}

/// Node `n` of graph `g` is pending node `p`, built into `file` with local id `local`.
pub open spec fn node_built(g: StackGraph, n: int, p: PendingModel, base: int, file: usize, local: int) -> bool {
    &&& g.nodes[n].file == Some(file)
    &&& g.nodes[n].local_id == local
    &&& built_kind_ok(g.nodes[n].kind, p, base)
}

fn build_kind(p: PendingNode, base: usize) -> (k: NodeKind)
    requires
        p.model().node_type == Some(NodeType::Definition) || p.model().node_type == Some(NodeType::Reference)
            || p.model().node_type == Some(NodeType::Pop) ==> p.symbol is Some,
        p.target matches Some(t) ==> base + t < usize::MAX,
    ensures
        built_kind_ok(k, p.model(), base as int),
        !(k is Root),
{
    match p.node_type {
        Some(NodeType::Definition) => NodeKind::PushSymbol { symbol: p.symbol.unwrap(), is_reference: false },
        Some(NodeType::Reference) => NodeKind::PushSymbol { symbol: p.symbol.unwrap(), is_reference: true },
        Some(NodeType::Pop) => NodeKind::PopSymbol { symbol: p.symbol.unwrap() },
        Some(NodeType::Jump) => NodeKind::JumpToScope {
            target: match p.target {
                Some(t) => Some(base + t),
                None => None,
            },
        },
        _ => NodeKind::Scope,
    }
}

/// Writes one body's nodes and edges into `file`, after the graph's nodes.
fn add_body(g: &mut StackGraph, file: usize, out: BodyOutput)
    requires
        old(g).wf(),
        file < old(g).files.len(),
        body_wf(out.model()),
        symbols_complete(out.model()),
        old(g).nodes.len() + out.nodes.len() < usize::MAX,
        old(g).files[file as int].node_count + out.nodes.len() < usize::MAX,
    ensures
        final(g).wf(),
        final(g).nodes.len() == old(g).nodes.len() + out.nodes.len(),
        forall|j: int| 0 <= j < old(g).nodes.len() ==> #[trigger] final(g).nodes[j] == old(g).nodes[j],
        forall|j: int| 0 <= j < out.nodes.len() ==> node_built(*final(g), old(g).nodes.len() + j,
            #[trigger] out.model().nodes[j], old(g).nodes.len() as int, file,
            old(g).files[file as int].node_count + j),
        final(g).edges@ == old(g).edges@ + out.model().edges.map_values(|e: PendingEdge| built_edge(e, old(g).nodes.len() as int)),
        final(g).files.len() == old(g).files.len(),
        final(g).files[file as int].node_count == old(g).files[file as int].node_count + out.nodes.len(),
        final(g).files[file as int].name == old(g).files[file as int].name,
        forall|f: int| 0 <= f < old(g).files.len() && f != file ==> #[trigger] final(g).files[f] == old(g).files[f],
{
    let ghost m = out.model();
    let base = g.nodes.len();
    let ghost count0 = g.files[file as int].node_count;
    let mut out = out;
    let mut k: usize = 0;
    while k < out.nodes.len()
        invariant
            g.wf(),
            file < g.files.len() == old(g).files.len(),
            base == old(g).nodes.len(),
            count0 == old(g).files[file as int].node_count,
            out.nodes.len() == m.nodes.len(),
            out.edges@ == m.edges,
            body_wf(m),
            symbols_complete(m),
            base + m.nodes.len() < usize::MAX,
            count0 + m.nodes.len() < usize::MAX,
            k <= out.nodes.len(),
            forall|j: int| k <= j < out.nodes.len() ==> #[trigger] out.nodes[j].model() == m.nodes[j],
            g.nodes.len() == base + k,
            g.files[file as int].node_count == count0 + k,
            g.files[file as int].name == old(g).files[file as int].name,
            forall|f: int| 0 <= f < old(g).files.len() && f != file ==> #[trigger] g.files[f] == old(g).files[f],
            forall|j: int| 0 <= j < base ==> #[trigger] g.nodes[j] == old(g).nodes[j],
            forall|j: int| 0 <= j < k ==> node_built(*g, base + j, #[trigger] m.nodes[j], base as int, file, count0 + j),
            g.edges == old(g).edges,
        decreases out.nodes.len() - k,
    {
        let p = take_node(&mut out.nodes, k);
        assert(p.model() == m.nodes[k as int]);
        assert(needs_symbol(m.nodes[k as int].node_type) ==> m.nodes[k as int].symbol is Some);
        let kind = build_kind(p, base);
        let ghost before = *g;
        g.add_node(file, kind);
        assert forall|j: int| 0 <= j < k + 1 implies node_built(*g, base + j, #[trigger] m.nodes[j], base as int, file, count0 + j) by {
            if j < k {
                assert(g.nodes[base + j] == before.nodes[base + j]);
            }
        }
        k += 1;
    }
    let ghost nodes_done = *g;
    let mut e: usize = 0;
    while e < out.edges.len()
        invariant
            g.wf(),
            e <= out.edges.len(),
            out.edges@ == m.edges,
            body_wf(m),
            g.nodes.len() == base + m.nodes.len(),
            base + m.nodes.len() < usize::MAX,
            g.nodes == nodes_done.nodes,
            g.files == nodes_done.files,
            g.edges@ == old(g).edges@ + m.edges.subrange(0, e as int).map_values(|x: PendingEdge| built_edge(x, base as int)),
        decreases out.edges.len() - e,
    {
        let pe = out.edges[e];
        assert(body_wf(m) ==> pe.source < m.nodes.len() && pe.sink < m.nodes.len()) by {
            assert(m.edges[e as int] == pe);
        }
        let precedence = match pe.precedence {
            Some(p) => p,
            None => crate::graph::DEFAULT_PRECEDENCE,
        };
        g.add_edge(base + pe.source, base + pe.sink, precedence);
        assert(m.edges.subrange(0, e as int + 1).map_values(|x: PendingEdge| built_edge(x, base as int))
            =~= m.edges.subrange(0, e as int).map_values(|x: PendingEdge| built_edge(x, base as int)).push(built_edge(pe, base as int)));
        e += 1;
    }
    assert(m.edges.subrange(0, m.edges.len() as int) =~= m.edges);
}

/// The pending nodes of all bodies in order, each with the offset of its body's first node.
pub open spec fn flat_nodes(outs: Seq<BodyModel>) -> Seq<(PendingModel, int)>
    decreases outs.len(),
{
    if outs.len() == 0 {
        Seq::empty()
    } else {
        let pre = flat_nodes(outs.drop_last());
        pre + outs.last().nodes.map_values(|p: PendingModel| (p, pre.len() as int))
    }
}

/// The graph edges of all bodies in order, when their nodes start at `base`.
pub open spec fn flat_edges(outs: Seq<BodyModel>, base: int) -> Seq<Edge>
    decreases outs.len(),
{
    if outs.len() == 0 {
        Seq::empty()
    } else {
        let off = base + flat_nodes(outs.drop_last()).len();
        flat_edges(outs.drop_last(), base) + outs.last().edges.map_values(|e: PendingEdge| built_edge(e, off))
    }
}

/// The graph can take `n` more nodes into `file`.
pub open spec fn has_room(g: StackGraph, file: usize, n: int) -> bool {
    g.nodes.len() + n < usize::MAX && g.files[file as int].node_count + n < usize::MAX
}

/// `g1` is `g0` with the outputs of `outs` written into `file`, in order.
pub open spec fn extended(g0: StackGraph, g1: StackGraph, file: usize, outs: Seq<BodyModel>) -> bool {
    let fl = flat_nodes(outs);
    let base = g0.nodes.len() as int;
    &&& g1.nodes.len() == base + fl.len()
    &&& forall|j: int| 0 <= j < base ==> #[trigger] g1.nodes[j] == g0.nodes[j]
    &&& forall|k: int| 0 <= k < fl.len() ==> node_built(g1, base + k, (#[trigger] fl[k]).0, base + fl[k].1, file,
        g0.files[file as int].node_count + k)
    &&& g1.edges@ == g0.edges@ + flat_edges(outs, base)
    &&& g1.files.len() == g0.files.len()
    &&& g1.files[file as int].node_count == g0.files[file as int].node_count + fl.len()
    &&& g1.files[file as int].name == g0.files[file as int].name
    &&& forall|f: int| 0 <= f < g0.files.len() && f != file ==> #[trigger] g1.files[f] == g0.files[f]
}

/// Builds the stack graph of one file: walks the syntax tree in document
/// order, runs the first matching rule's body on each node, and only when
/// every body succeeded writes their nodes and edges into `file`. On failure
/// the graph is left as it was.
pub fn load_graph(g: &mut StackGraph, file: usize, tree: &SyntaxTree, src: &Vec<char>, rules: &Vec<Rule>) -> (r: Result<(), ConstructionError>)
    requires
        old(g).wf(),
        file < old(g).files.len(),
        tree.wf(src.len() as int),
    ensures
        final(g).wf(),
        match walk(*tree, src@, rules@, tree.nodes.len() as int) {
            Err(e) => r == Err::<(), ConstructionError>(e) && *final(g) == *old(g),
            Ok(outs) => if has_room(*old(g), file, flat_nodes(outs).len() as int) {
                r is Ok && extended(*old(g), *final(g), file, outs)
            } else {
                r == Err::<(), ConstructionError>(ConstructionError::CapacityExceeded) && *final(g) == *old(g)
            },
        },
{
    let mut outs = match walk_tree(tree, src, rules) {
        Err(e) => return Err(e),
        Ok(o) => o,
    };
    let ghost all = outs@.map_values(|o: BodyOutput| o.model());
    if g.nodes.len() == usize::MAX || g.files[file].node_count == usize::MAX {
        return Err(ConstructionError::CapacityExceeded);
    }
    let n = outs.len();
    let mut total: usize = 0;
    let mut k: usize = 0;
    while k < n
        invariant
            k <= n == outs.len(),
            all == outs@.map_values(|o: BodyOutput| o.model()),
            total == flat_nodes(all.subrange(0, k as int)).len(),
            has_room(*g, file, total as int),
            g.wf(),
            file < g.files.len(),
            *g == *old(g),
            walk(*tree, src@, rules@, tree.nodes.len() as int) == Ok::<Seq<BodyModel>, ConstructionError>(all),
        decreases n - k,
    {
        let len = outs[k].nodes.len();
        assert(all.subrange(0, k as int + 1).drop_last() =~= all.subrange(0, k as int));
        assert(all[k as int].nodes.len() == len);
        assert(all.subrange(0, k as int + 1).last() == all[k as int]);
        assert(flat_nodes(all.subrange(0, k as int + 1)).len() == total + len);
        if len >= usize::MAX - g.nodes.len() - total || len >= usize::MAX - g.files[file].node_count - total {
            proof { lemma_flat_prefix(all, k as int + 1); }
            return Err(ConstructionError::CapacityExceeded);
        }
        total = total + len;
        k += 1;
    }
    assert(all.subrange(0, n as int) =~= all);
    let ghost g0 = *g;
    let mut done: usize = 0;
    assert(extended(g0, *g, file, all.subrange(0, 0))) by {
        assert(all.subrange(0, 0) =~= Seq::<BodyModel>::empty());
        assert(g.edges@ =~= g0.edges@ + Seq::<Edge>::empty());
    }
    while done < n
        invariant
            done <= n,
            outs@.len() == n - done,
            forall|j: int| 0 <= j < n - done ==> #[trigger] outs@[j].model() == all[done + j],
            all.len() == n,
            total == flat_nodes(all).len(),
            has_room(g0, file, total as int),
            file < g0.files.len(),
            g0 == *old(g),
            walk(*tree, src@, rules@, tree.nodes.len() as int) == Ok::<Seq<BodyModel>, ConstructionError>(all),
            g.wf(),
            extended(g0, *g, file, all.subrange(0, done as int)),
            forall|k: int| 0 <= k < n ==> body_wf(#[trigger] all[k]) && symbols_complete(all[k]),
        decreases n - done,
    {
        let ghost outs_before = outs@;
        let out = outs.remove(0);
        let ghost pre = all.subrange(0, done as int);
        let ghost cur = all.subrange(0, done as int + 1);
        assert(cur.drop_last() =~= pre);
        assert(out == outs_before[0]);
        assert(out.model() == all[done as int]);
        proof { lemma_flat_prefix(all, done as int + 1); }
        let ghost before = *g;
        add_body(g, file, out);
        assert(outs@.len() == n - done - 1);
        assert forall|j: int| 0 <= j < n - (done + 1) implies #[trigger] outs@[j].model() == all[done + 1 + j] by {
            assert(outs@[j] == outs_before[j + 1]);
        }
        proof {
            let fl = flat_nodes(cur);
            let fp = flat_nodes(pre);
            let base = g0.nodes.len() as int;
            assert(fl =~= fp + all[done as int].nodes.map_values(|p: PendingModel| (p, fp.len() as int)));
            assert forall|k: int| 0 <= k < fl.len() implies node_built(*g, base + k, (#[trigger] fl[k]).0, base + fl[k].1, file,
                g0.files[file as int].node_count + k) by {
                if k < fp.len() {
                    assert(fl[k] == fp[k]);
                    assert(node_built(before, base + k, fp[k].0, base + fp[k].1, file, g0.files[file as int].node_count + k));
                    assert(g.nodes[base + k] == before.nodes[base + k]);
                } else {
                    let j = k - fp.len();
                    assert(fl[k] == (all[done as int].nodes[j], fp.len() as int));
                    assert(node_built(*g, before.nodes.len() + j, out.model().nodes[j], before.nodes.len() as int, file,
                        before.files[file as int].node_count + j));
                }
            }
            assert(g.edges@ =~= g0.edges@ + flat_edges(cur, base));
        }
        done += 1;
    }
    Ok(())
}

/// The flattened nodes of a prefix of the bodies are a prefix of all of them.
proof fn lemma_flat_prefix(outs: Seq<BodyModel>, k: int)
    requires
        0 <= k <= outs.len(),
    ensures
        flat_nodes(outs.subrange(0, k)).len() <= flat_nodes(outs).len(),
    decreases outs.len() - k,
{
    if k < outs.len() {
        lemma_flat_prefix(outs, k + 1);
        assert(outs.subrange(0, k + 1).drop_last() =~= outs.subrange(0, k));
    } else {
        assert(outs.subrange(0, k) =~= outs);
    }
}

} // verus!
