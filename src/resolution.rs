//! The resolution engine: a symbol-stack guided search from a reference to
//! the definitions it can reach.
use vstd::prelude::*;
use crate::graph::{kind_symbol, NodeKind, StackGraph};
use crate::construction::{chars_equal, copy_chars};

verus! {

/// One move of a path: along an edge, or from a jump node to its attached scope.
#[derive(Clone, Copy, Debug, PartialEq, Eq, Structural)]
pub enum Step {
    Edge(usize),
    Jump,
}

pub struct ResolvedPath {
    pub steps: Vec<Step>,
    /// The definition the path ends at.
    pub end: usize,
}

pub struct Resolution {
    /// Complete paths, in the order the search found them.
    pub paths: Vec<ResolvedPath>,
    /// The search was cut at its step bound; `paths` holds what it found.
    pub cancelled: bool,
}

pub type Stack = Seq<Seq<char>>;

/// What entering node `n` does to the symbol stack; `None` when the path dies there.
pub open spec fn enter(g: StackGraph, n: int, st: Stack) -> Option<Stack> {
    match g.nodes[n].kind {
        NodeKind::PushSymbol { symbol, is_reference: true } => Some(st.push(symbol@)),
        NodeKind::PushSymbol { symbol, is_reference: false } => if st.len() > 0 && st.last() == symbol@ {
            Some(st.drop_last())
        } else {
            None
        },
        NodeKind::PopSymbol { symbol } => if st.len() > 0 && st.last() == symbol@ {
            Some(st.drop_last())
        } else {
            None
        },
        _ => Some(st),
    }
}

/// Where a step leads from node `n`. A jump node is left only through its
/// attached scope, every other node only along its own edges.
pub open spec fn next_node(g: StackGraph, n: int, s: Step) -> Option<int> {
    match s {
        Step::Edge(e) => if e < g.edges.len() && g.edges[e as int].source == n && !(g.nodes[n].kind is JumpToScope) {
            Some(g.edges[e as int].sink as int)
        } else {
            None
        },
        Step::Jump => match g.nodes[n].kind {
            NodeKind::JumpToScope { target: Some(t) } => if t < g.nodes.len() { Some(t as int) } else { None },
            _ => None,
        },
    }
}

/// The node and stack reached by following `steps` from `start`, whose own
/// symbol is pushed first; `None` when the path is invalid.
pub open spec fn follow(g: StackGraph, start: int, steps: Seq<Step>) -> Option<(int, Stack)>
    decreases steps.len(),
{
    if steps.len() == 0 {
        match enter(g, start, Seq::empty()) {
            Some(st) => Some((start, st)),
            None => None,
        }
    } else {
        match follow(g, start, steps.drop_last()) {
            None => None,
            Some((n, st)) => match next_node(g, n, steps.last()) {
                None => None,
                Some(m) => match enter(g, m, st) {
                    None => None,
                    Some(st2) => Some((m, st2)),
                },
            },
        }
    }
}

pub open spec fn is_reference(g: StackGraph, n: int) -> bool {
    g.nodes[n].kind matches NodeKind::PushSymbol { is_reference: true, .. }
}

pub open spec fn is_definition(g: StackGraph, n: int) -> bool {
    g.nodes[n].kind matches NodeKind::PushSymbol { is_reference: false, .. }
}

/// A complete path: at least one step, valid throughout, ending at a
/// definition with the stack empty again.
pub open spec fn is_complete(g: StackGraph, start: int, steps: Seq<Step>, end: int) -> bool {
    &&& steps.len() > 0
    &&& follow(g, start, steps) == Some((end, Seq::<Seq<char>>::empty()))
    &&& is_definition(g, end)
}

/// Where two paths first part along two edges, the first took the edge of
/// higher or equal precedence.
pub open spec fn ranked_before(g: StackGraph, p: Seq<Step>, q: Seq<Step>) -> bool {
    forall|d: int| 0 <= d < p.len() && d < q.len() && p.subrange(0, d) == q.subrange(0, d)
        && #[trigger] p[d] != #[trigger] q[d] && p[d] is Edge && q[d] is Edge
        ==> g.edges[p[d]->0 as int].precedence >= g.edges[q[d]->0 as int].precedence
}

pub open spec fn stack_model(s: Vec<Vec<char>>) -> Stack {
    s@.map_values(|v: Vec<char>| v@)
}

/// The edges that leave `node`, highest precedence first; edges of equal
/// precedence keep the order in which they were added.
#[verifier::rlimit(100)]
pub fn ranked_edges(g: &StackGraph, node: usize) -> (r: Vec<usize>)
    requires
        g.wf(),
    ensures
        forall|k: int| 0 <= k < r.len() ==> #[trigger] r[k] < g.edges.len() && g.edges[r[k] as int].source == node,
        forall|e: int| 0 <= e < g.edges.len() && g.edges[e].source == node ==> r@.contains(e as usize),
        forall|a: int, b: int| 0 <= a < b < r.len() ==> g.edges[#[trigger] r[a] as int].precedence >= g.edges[#[trigger] r[b] as int].precedence,
        forall|a: int, b: int| 0 <= a < b < r.len() ==> #[trigger] r[a] != #[trigger] r[b],
        forall|a: int, b: int| 0 <= a < b < r.len() && g.edges[r[a] as int].precedence == g.edges[r[b] as int].precedence
            ==> #[trigger] r[a] < #[trigger] r[b],
{
    let out = g.outgoing_edges(node);
    let mut r: Vec<usize> = Vec::new();
    let mut i: usize = 0;
    while i < out.len()
        invariant
            i <= out.len(),
            forall|k: int| 0 <= k < out.len() ==> #[trigger] out[k] < g.edges.len() && g.edges[out[k] as int].source == node,
            forall|a: int, b: int| 0 <= a < b < out.len() ==> #[trigger] out[a] < #[trigger] out[b],
            forall|k: int| 0 <= k < r.len() ==> exists|j: int| 0 <= j < i && out[j] == #[trigger] r[k],
            forall|j: int| 0 <= j < i ==> r@.contains(#[trigger] out[j]),
            forall|a: int, b: int| 0 <= a < b < r.len() ==> g.edges[#[trigger] r[a] as int].precedence >= g.edges[#[trigger] r[b] as int].precedence,
            forall|a: int, b: int| 0 <= a < b < r.len() ==> #[trigger] r[a] != #[trigger] r[b],
            r.len() == i,
            forall|k: int| 0 <= k < r.len() ==> #[trigger] r[k] < g.edges.len() && g.edges[r[k] as int].source == node,
            forall|a: int, b: int| 0 <= a < b < r.len() && g.edges[r[a] as int].precedence == g.edges[r[b] as int].precedence
                ==> #[trigger] r[a] < #[trigger] r[b],
        decreases out.len() - i,
    {
        let e = out[i];
        let p = g.edges[e].precedence;
        let mut pos: usize = 0;
        while pos < r.len() && g.edges[r[pos]].precedence >= p
            invariant
                pos <= r.len(),
                forall|k: int| 0 <= k < r.len() ==> #[trigger] r[k] < g.edges.len(),
                forall|k: int| 0 <= k < pos ==> g.edges[#[trigger] r[k] as int].precedence >= p,
            decreases r.len() - pos,
        {
            pos += 1;
        }
        let ghost before = r@;
        assert forall|k: int| 0 <= k < before.len() implies before[k] < e by {
            let j = choose|j: int| 0 <= j < i && out[j] == #[trigger] r[k];
            assert(out[j] < out[i as int]);
        }
        r.insert(pos, e);
        assert(r@ == before.insert(pos as int, e));
        assert forall|k: int| 0 <= k < r.len() implies exists|j: int| 0 <= j < i + 1 && out[j] == #[trigger] r[k] by {
            if k < pos {
                assert(r[k] == before[k]);
            } else if k == pos {
                assert(out[i as int] == r[k]);
            } else {
                assert(r[k] == before[k - 1]);
            }
        }
        assert forall|k: int| 0 <= k < r.len() implies #[trigger] r[k] < g.edges.len() && g.edges[r[k] as int].source == node by {
            if k < pos {
                assert(r[k] == before[k]);
            } else if k > pos {
                assert(r[k] == before[k - 1]);
            }
        }
        assert forall|j: int| 0 <= j < i + 1 implies r@.contains(#[trigger] out[j]) by {
            if j < i {
                let k = choose|k: int| 0 <= k < before.len() && before[k] == out[j];
                if k < pos {
                    assert(r[k] == out[j]);
                } else {
                    assert(r[k + 1] == out[j]);
                }
            } else {
                assert(r[pos as int] == out[j]);
            }
        }
        assert forall|a: int, b: int| 0 <= a < b < r.len() implies g.edges[#[trigger] r[a] as int].precedence
            >= g.edges[#[trigger] r[b] as int].precedence by {
            if b < pos {
                assert(r[a] == before[a] && r[b] == before[b]);
            } else if b == pos {
                assert(r[a] == before[a]);
            } else if a == pos {
                assert(r[b] == before[b - 1]);
                if b - 1 < before.len() {
                    assert(g.edges[before[b - 1] as int].precedence < p || pos == before.len()) by {
                        if pos < before.len() {
                            assert(g.edges[before[pos as int] as int].precedence < p);
                            if b - 1 > pos {
                                assert(g.edges[before[pos as int] as int].precedence >= g.edges[before[b - 1] as int].precedence);
                            }
                        }
                    }
                }
            } else if a < pos {
                assert(r[a] == before[a] && r[b] == before[b - 1]);
            } else {
                assert(r[a] == before[a - 1] && r[b] == before[b - 1]);
            }
        }
        assert forall|a: int, b: int| 0 <= a < b < r.len() && g.edges[r[a] as int].precedence == g.edges[r[b] as int].precedence
            implies #[trigger] r[a] < #[trigger] r[b] by {
            if b < pos {
                assert(r[a] == before[a] && r[b] == before[b]);
            } else if b == pos {
                assert(r[a] == before[a]);
            } else if a == pos {
                assert(r[b] == before[b - 1]);
                assert(g.edges[before[pos as int] as int].precedence < p);
                if b - 1 > pos {
                    assert(g.edges[before[pos as int] as int].precedence >= g.edges[before[b - 1] as int].precedence);
                }
            } else if a < pos {
                assert(r[a] == before[a] && r[b] == before[b - 1]);
            } else {
                assert(r[a] == before[a - 1] && r[b] == before[b - 1]);
            }
        }
        assert forall|a: int, b: int| 0 <= a < b < r.len() implies #[trigger] r[a] != #[trigger] r[b] by {
            if a == pos {
                assert(r[b] == before[b - 1]);
            } else if b == pos {
                assert(r[a] == before[a]);
            } else if b < pos {
                assert(r[a] == before[a] && r[b] == before[b]);
            } else if a < pos {
                assert(r[a] == before[a] && r[b] == before[b - 1]);
            } else {
                assert(r[a] == before[a - 1] && r[b] == before[b - 1]);
            }
        }
        i += 1;
    }
    r
}

/// How to take back what entering a node did to the stack.
pub enum Undo {
    Pushed,
    Popped(Vec<char>),
    Kept,
}

/// Applies `enter` to the stack; on `None` the stack is left as it was.
fn enter_node(g: &StackGraph, n: usize, stack: &mut Vec<Vec<char>>) -> (r: Option<Undo>)
    requires
        g.wf(),
        n < g.nodes.len(),
    ensures
        match (r, enter(*g, n as int, stack_model(*old(stack)))) {
            (Some(u), Some(st)) => stack_model(*final(stack)) == st && match u {
                Undo::Pushed => stack_model(*final(stack)).len() > 0 && stack_model(*final(stack)).drop_last() == stack_model(*old(stack)),
                Undo::Popped(v) => stack_model(*final(stack)).push(v@) == stack_model(*old(stack)),
                Undo::Kept => stack_model(*final(stack)) == stack_model(*old(stack)),
            },
            (None, None) => stack_model(*final(stack)) == stack_model(*old(stack)),
            _ => false,
        },
{
    let ghost m0 = stack_model(*stack);
    match &g.nodes[n].kind {
        NodeKind::PushSymbol { symbol, is_reference } => {
            if *is_reference {
                stack.push(copy_chars(symbol));
                assert(stack_model(*stack) =~= m0.push(symbol@));
                assert(stack_model(*stack).drop_last() =~= m0);
                Some(Undo::Pushed)
            } else {
                pop_matching(stack, symbol)
            }
        },
        NodeKind::PopSymbol { symbol } => pop_matching(stack, symbol),
        _ => Some(Undo::Kept),
    }
}

/// A pop of `sym` from `m0` that leaves `m1`: it succeeds exactly when `sym` is on top.
pub open spec fn pop_result(m0: Stack, sym: Seq<char>, m1: Stack, r: Option<Undo>) -> bool {
    if m0.len() > 0 && m0.last() == sym {
        &&& r matches Some(Undo::Popped(v))
        &&& m1 == m0.drop_last()
        &&& m1.push(r->0->Popped_0@) == m0
    } else {
        &&& r is None
        &&& m1 == m0
    }
}

fn pop_matching(stack: &mut Vec<Vec<char>>, symbol: &Vec<char>) -> (r: Option<Undo>)
    ensures
        pop_result(stack_model(*old(stack)), symbol@, stack_model(*final(stack)), r),
{
    let ghost m0 = stack_model(*stack);
    let n = stack.len();
    if n == 0 {
        return None;
    }
    assert(m0.last() == stack[n - 1]@);
    if !chars_equal(&stack[n - 1], symbol) {
        return None;
    }
    let v = stack.pop().unwrap();
    assert(stack_model(*stack) =~= m0.drop_last());
    assert(stack_model(*stack).push(v@) =~= m0);
    Some(Undo::Popped(v))
}

/// Takes back what `enter_node` did.
fn revert(stack: &mut Vec<Vec<char>>, u: Undo)
    requires
        u is Pushed ==> stack_model(*old(stack)).len() > 0,
    ensures
        match u {
            Undo::Pushed => stack_model(*final(stack)) == stack_model(*old(stack)).drop_last(),
            Undo::Popped(v) => stack_model(*final(stack)) == stack_model(*old(stack)).push(v@),
            Undo::Kept => stack_model(*final(stack)) == stack_model(*old(stack)),
        },
{
    let ghost m0 = stack_model(*stack);
    match u {
        Undo::Pushed => {
            stack.pop();
            assert(stack_model(*stack) =~= m0.drop_last());
        },
        Undo::Popped(v) => {
            let ghost vv = v@;
            stack.push(v);
            assert(stack_model(*stack) =~= m0.push(vv));
        },
        Undo::Kept => {},
    }
}

fn stacks_equal(a: &Vec<Vec<char>>, b: &Vec<Vec<char>>) -> (r: bool)
    ensures
        r == (stack_model(*a) == stack_model(*b)),
{
    if a.len() != b.len() {
        assert(stack_model(*a).len() != stack_model(*b).len());
        return false;
    }
    let mut k: usize = 0;
    while k < a.len()
        invariant
            k <= a.len() == b.len(),
            forall|m: int| 0 <= m < k ==> a@[m]@ == b@[m]@,
        decreases a.len() - k,
    {
        if !chars_equal(&a[k], &b[k]) {
            assert(stack_model(*a)[k as int] != stack_model(*b)[k as int]);
            return false;
        }
        k += 1;
    }
    assert(stack_model(*a) =~= stack_model(*b));
    true
}

fn copy_stack(a: &Vec<Vec<char>>) -> (r: Vec<Vec<char>>)
    ensures
        stack_model(r) == stack_model(*a),
{
    let mut r: Vec<Vec<char>> = Vec::new();
    let mut k: usize = 0;
    while k < a.len()
        invariant
            k <= a.len(),
            stack_model(r) == stack_model(*a).subrange(0, k as int),
        decreases a.len() - k,
    {
        let ghost before = stack_model(r);
        let c = copy_chars(&a[k]);
        let ghost rb = r@;
        r.push(c);
        assert(r@ == rb.push(c));
        assert(stack_model(r) =~= before.push(a@[k as int]@));
        assert(stack_model(r) =~= stack_model(*a).subrange(0, k as int + 1));
        k += 1;
    }
    assert(stack_model(*a).subrange(0, a.len() as int) =~= stack_model(*a));
    r
}

fn copy_steps(a: &Vec<Step>) -> (r: Vec<Step>)
    ensures
        r@ == a@,
{
    let mut r: Vec<Step> = Vec::new();
    let mut k: usize = 0;
    while k < a.len()
        invariant
            k <= a.len(),
            r@ == a@.subrange(0, k as int),
        decreases a.len() - k,
    {
        r.push(a[k]);
        k += 1;
        assert(r@ =~= a@.subrange(0, k as int));
    }
    assert(a@.subrange(0, a.len() as int) =~= a@);
    r
}

/// The pair (node, stack) is among the states met on the current branch.
pub open spec fn in_history(h: Seq<(usize, Vec<Vec<char>>)>, n: int, st: Stack) -> bool {
    exists|k: int| 0 <= k < h.len() && (#[trigger] h[k]).0 == n && stack_model(h[k].1) == st
}

/// Edge `e` leads from `node`, with stack `st`, straight to a definition that
/// takes the last symbol and leaves the stack empty.
pub open spec fn direct_binding(g: StackGraph, node: int, st: Stack, e: int) -> bool {
    &&& 0 <= e < g.edges.len()
    &&& g.edges[e].source == node
    &&& g.edges[e].sink != node
    &&& is_definition(g, g.edges[e].sink as int)
    &&& enter(g, g.edges[e].sink as int, st) == Some(Seq::<Seq<char>>::empty())
}

/// The states of a branch's history, as (node, stack) pairs.
pub open spec fn hist(h: Seq<(usize, Vec<Vec<char>>)>) -> Seq<(int, Stack)> {
    h.map_values(|x: (usize, Vec<Vec<char>>)| (x.0 as int, stack_model(x.1)))
}

/// One step from node `n` with stack `st`.
pub open spec fn step_from(g: StackGraph, n: int, st: Stack, s: Step) -> Option<(int, Stack)> {
    match next_node(g, n, s) {
        None => None,
        Some(m) => match enter(g, m, st) {
            None => None,
            Some(st2) => Some((m, st2)),
        },
    }
}

/// Following `q` from node `n` with stack `st`, after the states `hm`, meets
/// no state twice, stops at the first definition reached with the stack
/// empty, and ends there: a path the search owes.
pub open spec fn reaches(g: StackGraph, hm: Seq<(int, Stack)>, n: int, st: Stack, q: Seq<Step>) -> bool
    decreases q.len(),
{
    q.len() > 0 && match step_from(g, n, st, q[0]) {
        None => false,
        Some((m, st2)) => {
            &&& !hm.push((n, st)).contains((m, st2))
            &&& if is_definition(g, m) && st2.len() == 0 {
                q.len() == 1
            } else {
                reaches(g, hm.push((n, st)), m, st2, q.drop_first())
            }
        },
    }
}

proof fn lemma_in_history(h: Seq<(usize, Vec<Vec<char>>)>, n: int, st: Stack)
    ensures
        in_history(h, n, st) == hist(h).contains((n, st)),
{
    if in_history(h, n, st) {
        let k = choose|k: int| 0 <= k < h.len() && (#[trigger] h[k]).0 == n && stack_model(h[k].1) == st;
        assert(hist(h)[k] == (n, st));
    }
    if hist(h).contains((n, st)) {
        let k = choose|k: int| 0 <= k < hist(h).len() && hist(h)[k] == (n, st);
        assert(h[k].0 == n && stack_model(h[k].1) == st);
    }
}

/// The pair (node, stack) was already met on the current branch.
fn seen(history: &Vec<(usize, Vec<Vec<char>>)>, node: usize, stack: &Vec<Vec<char>>) -> (r: bool)
    ensures
        r == in_history(history@, node as int, stack_model(*stack)),
{
    let mut k: usize = 0;
    while k < history.len()
        invariant
            k <= history.len(),
            forall|j: int| 0 <= j < k ==> !((#[trigger] history@[j]).0 == node && stack_model(history@[j].1) == stack_model(*stack)),
        decreases history.len() - k,
    {
        if history[k].0 == node && stacks_equal(&history[k].1, stack) {
            assert(history@[k as int].0 == node && stack_model(history@[k as int].1) == stack_model(*stack));
            return true;
        }
        k += 1;
    }
    false
}

/// Two paths that share their first `d` steps and then take distinct edges,
/// the first of higher or equal precedence, are ranked in that order.
proof fn lemma_ranked_at(g: StackGraph, p: Seq<Step>, q: Seq<Step>, d: int)
    requires
        0 <= d < p.len(),
        d < q.len(),
        p.subrange(0, d) == q.subrange(0, d),
        p[d] != q[d],
        p[d] is Edge,
        q[d] is Edge,
        g.edges[p[d]->0 as int].precedence >= g.edges[q[d]->0 as int].precedence,
    ensures
        ranked_before(g, p, q),
{
    assert forall|x: int| 0 <= x < p.len() && x < q.len() && p.subrange(0, x) == q.subrange(0, x)
        && #[trigger] p[x] != #[trigger] q[x] && p[x] is Edge && q[x] is Edge
        implies g.edges[p[x]->0 as int].precedence >= g.edges[q[x]->0 as int].precedence by {
        if x < d {
            assert(p.subrange(0, d)[x] == p[x]);
            assert(q.subrange(0, d)[x] == q[x]);
            assert(p.subrange(0, d)[x] == q.subrange(0, d)[x]);
        } else if x > d {
            assert(p.subrange(0, x)[d] == p[d]);
            assert(q.subrange(0, x)[d] == q[d]);
            assert(p.subrange(0, x)[d] == q.subrange(0, x)[d]);
        }
    }
}

/// The results from index `from` on are complete paths from `start` that
/// extend `prefix`, each ranked before the ones after it.
pub open spec fn found_ok(g: StackGraph, start: int, prefix: Seq<Step>, res: Seq<ResolvedPath>, from: int) -> bool {
    &&& forall|k: int| from <= k < res.len() ==> {
        &&& is_complete(g, start, (#[trigger] res[k]).steps@, res[k].end as int)
        &&& res[k].steps@.len() >= prefix.len()
        &&& res[k].steps@.subrange(0, prefix.len() as int) == prefix
    }
    &&& forall|i: int, j: int| from <= i < j < res.len() ==> ranked_before(g, (#[trigger] res[i]).steps@, (#[trigger] res[j]).steps@)
        && res[i].steps@ != res[j].steps@
}

proof fn lemma_extends(x: Seq<Step>, pre: Seq<Step>, s: Step)
    requires
        x.len() >= pre.len() + 1,
        x.subrange(0, pre.len() as int + 1) == pre.push(s),
    ensures
        x.subrange(0, pre.len() as int) == pre,
        x[pre.len() as int] == s,
{
    assert(x.subrange(0, pre.len() as int) =~= x.subrange(0, pre.len() as int + 1).subrange(0, pre.len() as int));
    assert(pre.push(s).subrange(0, pre.len() as int) =~= pre);
    assert(x.subrange(0, pre.len() as int + 1)[pre.len() as int] == x[pre.len() as int]);
}

/// Depth-first search from `node`, reached by `steps` with `stack`: appends
/// every complete path found, exploring edges by descending precedence.
/// Paths are followed for at most `fuel` more steps; the second result says
/// the search was cut there, which happens only where a valid path of that
/// length exists.
fn search(g: &StackGraph, start: usize, node: usize, stack: &mut Vec<Vec<char>>, steps: &mut Vec<Step>,
    history: &mut Vec<(usize, Vec<Vec<char>>)>, fuel: u64, results: &mut Vec<ResolvedPath>) -> (r: (u64, bool))
    requires
        g.wf(),
        node < g.nodes.len(),
        follow(*g, start as int, old(steps)@) == Some((node as int, stack_model(*old(stack)))),
    ensures
        r.0 <= fuel,
        stack_model(*final(stack)) == stack_model(*old(stack)),
        final(steps)@ == old(steps)@,
        final(results).len() >= old(results).len(),
        forall|k: int| 0 <= k < old(results).len() ==> #[trigger] final(results)[k] == old(results)[k],
        found_ok(*g, start as int, old(steps)@, final(results)@, old(results).len() as int),
        final(history)@ == old(history)@,
        r.1 ==> exists|p: Seq<Step>| p.len() == old(steps)@.len() + fuel && (#[trigger] follow(*g, start as int, p)) is Some,
        !in_history(old(history)@, node as int, stack_model(*old(stack))) && is_definition(*g, node as int)
            && stack_model(*old(stack)).len() == 0 && old(steps)@.len() > 0 ==> !r.1
            && final(results).len() == old(results).len() + 1
            && final(results)[old(results).len() as int].steps@ == old(steps)@,
        !r.1 && !in_history(old(history)@, node as int, stack_model(*old(stack)))
            && !(is_definition(*g, node as int) && stack_model(*old(stack)).len() == 0 && old(steps)@.len() > 0)
            && !(g.nodes[node as int].kind is JumpToScope) ==> forall|e: int|
            direct_binding(*g, node as int, stack_model(*old(stack)), e)
            && !in_history(old(history)@, #[trigger] g.edges[e].sink as int, Seq::<Seq<char>>::empty())
            ==> exists|k: int| old(results).len() <= k < final(results).len()
                && (#[trigger] final(results)[k]).steps@ == old(steps)@.push(Step::Edge(e as usize)),
        !r.1 && !in_history(old(history)@, node as int, stack_model(*old(stack)))
            && !(is_definition(*g, node as int) && stack_model(*old(stack)).len() == 0 && old(steps)@.len() > 0)
            ==> forall|q: Seq<Step>| #[trigger] reaches(*g, hist(old(history)@), node as int, stack_model(*old(stack)), q)
            && q.len() <= fuel
            ==> exists|k: int| old(results).len() <= k < final(results).len()
                && (#[trigger] final(results)[k]).steps@ == old(steps)@ + q,
    decreases fuel,
{
    if seen(history, node, stack) {
        return (fuel, false);
    }
    let is_def = match &g.nodes[node].kind {
        NodeKind::PushSymbol { is_reference, .. } => !*is_reference,
        _ => false,
    };
    assert(stack.len() == 0 <==> stack_model(*stack).len() == 0);
    if is_def && stack.len() == 0 && steps.len() > 0 {
        assert(stack_model(*stack) =~= Seq::<Seq<char>>::empty());
        let found = ResolvedPath { steps: copy_steps(steps), end: node };
        results.push(found);
        assert(results[results.len() - 1] == found);
        assert(found.steps@.subrange(0, steps@.len() as int) =~= steps@);
        return (fuel, false);
    }
    if fuel == 0 {
        return (0, true);
    }
    let rem = fuel - 1;
    let ghost h0 = history@;
    let ghost st0 = stack_model(*stack);
    let entry = copy_stack(stack);
    let ghost entry_v = entry;
    history.push((node, entry));
    let ghost r0 = results.len() as int;
    let ghost d = steps@.len() as int;
    let ghost pre = steps@;
    let mut cancelled = false;
    match &g.nodes[node].kind {
        NodeKind::JumpToScope { target } => {
            if let Some(t) = target {
                let t = *t;
                if t < g.nodes.len() {
                    match enter_node(g, t, stack) {
                        None => {},
                        Some(u) => {
                            steps.push(Step::Jump);
                            assert(steps@.drop_last() =~= pre);
                            let ghost s2 = stack_model(*stack);
                            let ghost hcall = history@;
                            let (_, c) = search(g, start, t, stack, steps, history, rem, results);
                            cancelled = c;
                            steps.pop();
                            assert(steps@ =~= pre);
                            revert(stack, u);
                            assert forall|k: int| r0 <= k < results.len() implies
                                (#[trigger] results@[k]).steps@.subrange(0, d) == pre by {
                                lemma_extends(results@[k].steps@, pre, Step::Jump);
                            }
                            proof {
                                if !cancelled {
                                    assert(hist(hcall) =~= hist(h0).push((node as int, st0)));
                                    lemma_in_history(hcall, t as int, s2);
                                    assert forall|q: Seq<Step>| #[trigger] reaches(*g, hist(h0), node as int, st0, q) && q.len() <= fuel
                                        implies exists|k: int| r0 <= k < results.len() && (#[trigger] results@[k]).steps@ == pre + q by {
                                        assert(q[0] == Step::Jump);
                                        assert(step_from(*g, node as int, st0, q[0]) == Some((t as int, s2)));
                                        if is_definition(*g, t as int) && s2.len() == 0 {
                                            assert(q =~= seq![Step::Jump]);
                                            assert(pre + q =~= pre.push(Step::Jump));
                                            assert(results@[r0].steps@ == pre + q);
                                        } else {
                                            let q2 = q.drop_first();
                                            assert(reaches(*g, hist(hcall), t as int, s2, q2));
                                            let k = choose|k: int| r0 <= k < results.len()
                                                && (#[trigger] results@[k]).steps@ == pre.push(Step::Jump) + q2;
                                            assert(pre.push(Step::Jump) + q2 =~= pre + q);
                                        }
                                    }
                                }
                            }
                        },
                    }
                }
            }
        },
        _ => {
            let ranked = ranked_edges(g, node);
            let mut idx: usize = 0;
            let ghost mut origin: Seq<int> = Seq::empty();
            while idx < ranked.len() && !cancelled
                invariant
                    g.wf(),
                    node < g.nodes.len(),
                    !(g.nodes[node as int].kind is JumpToScope),
                    idx <= ranked.len(),
                    forall|k: int| 0 <= k < ranked.len() ==> #[trigger] ranked[k] < g.edges.len() && g.edges[ranked[k] as int].source == node,
                    forall|a: int, b: int| 0 <= a < b < ranked.len() ==> g.edges[#[trigger] ranked[a] as int].precedence >= g.edges[#[trigger] ranked[b] as int].precedence,
                    forall|a: int, b: int| 0 <= a < b < ranked.len() ==> #[trigger] ranked[a] != #[trigger] ranked[b],
                    steps@ == pre,
                    d == pre.len(),
                    follow(*g, start as int, pre) == Some((node as int, stack_model(*old(stack)))),
                    stack_model(*stack) == stack_model(*old(stack)),
                    rem < fuel,
                    rem == fuel - 1,
                    cancelled ==> exists|p: Seq<Step>| p.len() == pre.len() + fuel && (#[trigger] follow(*g, start as int, p)) is Some,
                    r0 == old(results).len(),
                    results.len() >= r0,
                    forall|k: int| 0 <= k < r0 ==> #[trigger] results[k] == old(results)[k],
                    found_ok(*g, start as int, pre, results@, r0),
                    origin.len() == results.len() - r0,
                    forall|k: int| 0 <= k < origin.len() ==> 0 <= #[trigger] origin[k] < idx,
                    forall|k: int| 0 <= k < origin.len() ==> (#[trigger] results@[r0 + k]).steps@.len() > d
                        && results@[r0 + k].steps@[d] == Step::Edge(ranked[origin[k]]),
                    history@ == h0.push((node, entry_v)),
                    stack_model(entry_v) == st0,
                    st0 == stack_model(*old(stack)),
                    h0 == old(history)@,
                    !cancelled ==> forall|q: Seq<Step>| #[trigger] reaches(*g, hist(h0), node as int, st0, q) && q.len() <= fuel
                        && (exists|j: int| 0 <= j < idx && q[0] == Step::Edge(ranked[j]))
                        ==> exists|k: int| r0 <= k < results.len() && (#[trigger] results@[k]).steps@ == pre + q,
                    !cancelled ==> forall|j: int| 0 <= j < idx && direct_binding(*g, node as int, st0, #[trigger] ranked[j] as int)
                        && !in_history(h0, g.edges[ranked[j] as int].sink as int, Seq::<Seq<char>>::empty())
                        ==> exists|k: int| r0 <= k < results.len()
                            && (#[trigger] results@[k]).steps@ == pre.push(Step::Edge(ranked[j])),
                decreases ranked.len() - idx,
            {
                let e = ranked[idx];
                let sink = g.edges[e].sink;
                match enter_node(g, sink, stack) {
                    None => {
                        assert forall|q: Seq<Step>| #[trigger] reaches(*g, hist(h0), node as int, st0, q) && q.len() <= fuel
                            && (exists|j: int| 0 <= j < idx + 1 && q[0] == Step::Edge(ranked[j]))
                            implies exists|k: int| r0 <= k < results.len() && (#[trigger] results@[k]).steps@ == pre + q by {
                            if q[0] == Step::Edge(e) {
                                assert(step_from(*g, node as int, st0, q[0]) is None);
                            } else {
                                let j = choose|j: int| 0 <= j < idx + 1 && q[0] == Step::Edge(ranked[j]);
                                assert(j < idx);
                            }
                        }
                    },
                    Some(u) => {
                        steps.push(Step::Edge(e));
                        assert(steps@.drop_last() =~= pre);
                        let ghost before = results@;
                        assert forall|k: int| 0 <= k < origin.len() implies (#[trigger] before[r0 + k]).steps@.len() > d
                            && before[r0 + k].steps@[d] == Step::Edge(ranked[origin[k]]) by {
                            assert(before[r0 + k] == results@[r0 + k]);
                        }
                        let ghost s2 = stack_model(*stack);
                        let ghost hcall = history@;
                        let (_, c) = search(g, start, sink, stack, steps, history, rem, results);
                        cancelled = c;
                        steps.pop();
                        assert(steps@ =~= pre);
                        revert(stack, u);
                        let ghost b0 = before.len() as int;
                        proof {
                            if !cancelled {
                                assert(hist(hcall) =~= hist(h0).push((node as int, st0)));
                                lemma_in_history(hcall, sink as int, s2);
                                assert forall|q: Seq<Step>| #[trigger] reaches(*g, hist(h0), node as int, st0, q) && q.len() <= fuel
                                    && (exists|j: int| 0 <= j < idx + 1 && q[0] == Step::Edge(ranked[j]))
                                    implies exists|k: int| r0 <= k < results.len() && (#[trigger] results@[k]).steps@ == pre + q by {
                                    if q[0] == Step::Edge(e) {
                                        assert(step_from(*g, node as int, st0, q[0]) == Some((sink as int, s2)));
                                        if is_definition(*g, sink as int) && s2.len() == 0 {
                                            assert(q =~= seq![Step::Edge(e)]);
                                            assert(pre + q =~= pre.push(Step::Edge(e)));
                                            assert(results@[b0].steps@ == pre + q);
                                        } else {
                                            let q2 = q.drop_first();
                                            assert(reaches(*g, hist(hcall), sink as int, s2, q2));
                                            let k = choose|k: int| b0 <= k < results.len()
                                                && (#[trigger] results@[k]).steps@ == pre.push(Step::Edge(e)) + q2;
                                            assert(pre.push(Step::Edge(e)) + q2 =~= pre + q);
                                        }
                                    } else {
                                        let j = choose|j: int| 0 <= j < idx + 1 && q[0] == Step::Edge(ranked[j]);
                                        assert(j < idx);
                                        let k = choose|k: int| r0 <= k < before.len() && (#[trigger] before[k]).steps@ == pre + q;
                                        assert(results@[k] == before[k]);
                                    }
                                }
                            }
                        }
                        proof {
                            if !cancelled {
                                assert forall|j: int| 0 <= j < idx + 1 && direct_binding(*g, node as int, st0, #[trigger] ranked[j] as int)
                                    && !in_history(h0, g.edges[ranked[j] as int].sink as int, Seq::<Seq<char>>::empty())
                                    implies exists|k: int| r0 <= k < results.len()
                                        && (#[trigger] results@[k]).steps@ == pre.push(Step::Edge(ranked[j])) by {
                                    if j < idx {
                                        let k = choose|k: int| r0 <= k < before.len()
                                            && (#[trigger] before[k]).steps@ == pre.push(Step::Edge(ranked[j]));
                                        assert(results@[k] == before[k]);
                                    } else {
                                        let hh = h0.push((node, entry_v));
                                        assert(!in_history(hh, sink as int, Seq::<Seq<char>>::empty())) by {
                                            if in_history(hh, sink as int, Seq::<Seq<char>>::empty()) {
                                                let w = choose|w: int| 0 <= w < hh.len() && (#[trigger] hh[w]).0 == sink as int
                                                    && stack_model(hh[w].1) == Seq::<Seq<char>>::empty();
                                                if w < h0.len() {
                                                    assert(h0[w] == hh[w]);
                                                }
                                            }
                                        }
                                        assert(results@[b0] .steps@ == pre.push(Step::Edge(e)));
                                    }
                                }
                            }
                        }
                        assert forall|k: int| b0 <= k < results.len() implies
                            (#[trigger] results@[k]).steps@.subrange(0, d) == pre
                            && results@[k].steps@[d] == Step::Edge(e) by {
                            lemma_extends(results@[k].steps@, pre, Step::Edge(e));
                        }
                        assert forall|i: int, j: int| r0 <= i < j < results.len() implies
                            ranked_before(*g, (#[trigger] results@[i]).steps@, (#[trigger] results@[j]).steps@)
                            && results@[i].steps@ != results@[j].steps@ by {
                            if j >= b0 && i < b0 {
                                let k = i - r0;
                                let oi = origin[k];
                                assert(before[r0 + k].steps@.len() > d);
                                assert(results@[i] == before[i]);
                                assert(results@[i].steps@[d] == Step::Edge(ranked[oi]));
                                assert(ranked[oi] != ranked[idx as int]);
                                assert(g.edges[ranked[oi] as int].precedence >= g.edges[ranked[idx as int] as int].precedence);
                                lemma_ranked_at(*g, results@[i].steps@, results@[j].steps@, d);
                                assert(results@[j].steps@[d] == Step::Edge(e));
                            } else if j < b0 {
                                assert(results@[i] == before[i] && results@[j] == before[j]);
                            }
                        }
                        proof {
                            let n_new = results.len() - b0;
                            let old_origin = origin;
                            origin = origin + Seq::new(n_new as nat, |k: int| idx as int);
                            assert forall|k: int| 0 <= k < origin.len() implies (#[trigger] results@[r0 + k]).steps@.len() > d
                                && results@[r0 + k].steps@[d] == Step::Edge(ranked[origin[k]]) by {
                                if k < old_origin.len() {
                                    assert(results@[r0 + k] == before[r0 + k]);
                                    assert(origin[k] == old_origin[k]);
                                } else {
                                    assert(origin[k] == idx);
                                }
                            }
                        }
                    },
                }
                idx += 1;
            }
            proof {
                if !cancelled {
                    assert forall|q: Seq<Step>| #[trigger] reaches(*g, hist(h0), node as int, st0, q) && q.len() <= fuel
                        implies exists|k: int| r0 <= k < results.len() && (#[trigger] results@[k]).steps@ == pre + q by {
                        match q[0] {
                            Step::Jump => {},
                            Step::Edge(e) => {
                                assert(step_from(*g, node as int, st0, q[0]) is Some);
                                assert(ranked@.contains(e));
                                let j = choose|j: int| 0 <= j < ranked.len() && ranked@[j] == e;
                                assert(q[0] == Step::Edge(ranked[j]));
                            },
                        }
                    }
                }
            }
        },
    }
    history.pop();
    (rem, cancelled)
}

/// Resolves `reference`: the complete paths from it, ranked so that where two
/// paths part along two edges, the one of higher precedence comes first, and
/// no path twice. Paths are followed for at most `budget` steps; the search
/// reports a cut only where a valid path of `budget` steps exists (a cycle
/// that keeps pushing), and keeps what it found.
pub fn resolve(g: &StackGraph, reference: usize, budget: u64) -> (r: Resolution)
    requires
        g.wf(),
        reference < g.nodes.len(),
    ensures
        forall|k: int| 0 <= k < r.paths.len() ==> is_complete(*g, reference as int, (#[trigger] r.paths[k]).steps@, r.paths[k].end as int),
        forall|i: int, j: int| 0 <= i < j < r.paths.len() ==> ranked_before(*g, (#[trigger] r.paths[i]).steps@, (#[trigger] r.paths[j]).steps@),
        forall|i: int, j: int| 0 <= i < j < r.paths.len() ==> (#[trigger] r.paths[i]).steps@ != (#[trigger] r.paths[j]).steps@,
        enter(*g, reference as int, Seq::empty()) is None ==> r.paths.len() == 0 && !r.cancelled,
        r.cancelled ==> exists|p: Seq<Step>| p.len() == budget && (#[trigger] follow(*g, reference as int, p)) is Some,
        !r.cancelled && is_reference(*g, reference as int) ==> forall|e: int| 0 <= e < g.edges.len() && (#[trigger] g.edges[e]).source == reference
                && is_definition(*g, g.edges[e].sink as int)
                && kind_symbol(g.nodes[g.edges[e].sink as int].kind) == kind_symbol(g.nodes[reference as int].kind)
                ==> exists|k: int| 0 <= k < r.paths.len() && (#[trigger] r.paths[k]).steps@ == seq![Step::Edge(e as usize)],
{
    let mut stack: Vec<Vec<char>> = Vec::new();
    let mut steps: Vec<Step> = Vec::new();
    let mut history: Vec<(usize, Vec<Vec<char>>)> = Vec::new();
    let mut results: Vec<ResolvedPath> = Vec::new();
    assert(stack_model(stack) =~= Seq::<Seq<char>>::empty());
    match enter_node(g, reference, &mut stack) {
        None => Resolution { paths: results, cancelled: false },
        Some(_) => {
            let ghost st0 = stack_model(stack);
            assert(history@ =~= Seq::<(usize, Vec<Vec<char>>)>::empty());
            let (_, cancelled) = search(g, reference, reference, &mut stack, &mut steps, &mut history, budget, &mut results);
            proof {
                if !cancelled {
                    assert(hist(Seq::<(usize, Vec<Vec<char>>)>::empty()) =~= Seq::<(int, Stack)>::empty());
                    assert forall|q: Seq<Step>| #[trigger] reaches(*g, Seq::empty(), reference as int, st0, q) && q.len() <= budget
                        implies exists|k: int| 0 <= k < results.len() && (#[trigger] results@[k]).steps@ == q by {
                        assert(Seq::<Step>::empty() + q =~= q);
                    }
                }
                if !cancelled && is_reference(*g, reference as int) {
                    assert forall|e: int| 0 <= e < g.edges.len() && (#[trigger] g.edges[e]).source == reference
                        && is_definition(*g, g.edges[e].sink as int)
                        && kind_symbol(g.nodes[g.edges[e].sink as int].kind) == kind_symbol(g.nodes[reference as int].kind)
                        implies exists|k: int| 0 <= k < results.len() && (#[trigger] results@[k]).steps@ == seq![Step::Edge(e as usize)] by {
                        let sink = g.edges[e].sink as int;
                        assert(st0.len() == 1);
                        assert(st0.drop_last() =~= Seq::<Seq<char>>::empty());
                        assert(direct_binding(*g, reference as int, st0, e));
                        assert(Seq::<Step>::empty().push(Step::Edge(e as usize)) =~= seq![Step::Edge(e as usize)]);
                        assert(!in_history(Seq::<(usize, Vec<Vec<char>>)>::empty(), g.edges[e].sink as int, Seq::<Seq<char>>::empty()));
                    }
                }
            }
            Resolution { paths: results, cancelled }
        },
    }
}

/// Every prefix of a valid path is valid.
pub proof fn lemma_prefix_valid(g: StackGraph, start: int, steps: Seq<Step>, k: int)
    requires
        0 <= k <= steps.len(),
        follow(g, start, steps) is Some,
    ensures
        follow(g, start, steps.subrange(0, k)) is Some,
    decreases steps.len() - k,
{
    if k < steps.len() {
        lemma_prefix_valid(g, start, steps, k + 1);
        assert(steps.subrange(0, k + 1).drop_last() =~= steps.subrange(0, k));
    } else {
        assert(steps.subrange(0, k) =~= steps);
    }
}

/// Step `k` (counted from 1) of a path enters a pop node only when that
/// node's symbol is on top of the stack.
pub open spec fn pop_matches_at(g: StackGraph, start: int, steps: Seq<Step>, k: int) -> bool {
    match follow(g, start, steps.subrange(0, k - 1)) {
        None => false,
        Some((n, st)) => match next_node(g, n, steps[k - 1]) {
            None => false,
            Some(m) => match g.nodes[m].kind {
                NodeKind::PopSymbol { symbol } => st.len() > 0 && st.last() == symbol@,
                _ => true,
            },
        },
    }
}

/// Along a complete path every pop node meets its own symbol on top of the
/// stack: a pop of one symbol reached after pushing another is never part of
/// a complete path.
pub proof fn lemma_complete_pops_match(g: StackGraph, start: int, steps: Seq<Step>, end: int, k: int)
    requires
        is_complete(g, start, steps, end),
        0 < k <= steps.len(),
    ensures
        pop_matches_at(g, start, steps, k),
{
    lemma_prefix_valid(g, start, steps, k);
    let pre = steps.subrange(0, k);
    assert(pre.drop_last() =~= steps.subrange(0, k - 1));
    assert(pre.last() == steps[k - 1]);
}

/// A reference whose single way on is one edge to a definition of the same
/// symbol, a definition with no way on, binds along that edge and nowhere
/// else: the one complete path is that edge, and its precedence is the edge's;
/// no valid path there has two steps, so a search bounded at two or more
/// steps is never cut.
pub proof fn lemma_single_edge_binding(g: StackGraph, r: int, d: int, e: int, steps: Seq<Step>, end: int)
    requires
        g.wf(),
        0 <= r < g.nodes.len(),
        0 <= d < g.nodes.len(),
        0 <= e < g.edges.len(),
        g.nodes[r].kind matches NodeKind::PushSymbol { is_reference: true, .. },
        is_definition(g, d),
        kind_symbol(g.nodes[r].kind) == kind_symbol(g.nodes[d].kind),
        g.edges[e].source == r,
        g.edges[e].sink == d,
        forall|x: int| 0 <= x < g.edges.len() && x != e ==> (#[trigger] g.edges[x]).source != r,
        forall|x: int| 0 <= x < g.edges.len() ==> (#[trigger] g.edges[x]).source != d,
    ensures
        is_complete(g, r, seq![Step::Edge(e as usize)], d),
        is_complete(g, r, steps, end) ==> steps == seq![Step::Edge(e as usize)] && end == d,
        steps.len() >= 2 ==> follow(g, r, steps) is None,
{
    let one = seq![Step::Edge(e as usize)];
    assert(one.drop_last() =~= Seq::<Step>::empty());
    let sym = kind_symbol(g.nodes[r].kind)->0;
    assert(follow(g, r, Seq::empty()) == Some((r, Seq::<Seq<char>>::empty().push(sym))));
    assert(Seq::<Seq<char>>::empty().push(sym).drop_last() =~= Seq::<Seq<char>>::empty());
    if steps.len() >= 2 && follow(g, r, steps) is Some {
        lemma_prefix_valid(g, r, steps, 1);
        lemma_prefix_valid(g, r, steps, 2);
        let head1 = steps.subrange(0, 1);
        let head2 = steps.subrange(0, 2);
        assert(head1.drop_last() =~= Seq::<Step>::empty());
        assert(head1.last() == steps[0]);
        assert(head2.drop_last() =~= head1);
        assert(head2.last() == steps[1]);
        match steps[0] {
            Step::Jump => {},
            Step::Edge(x) => {
                if x != e {
                    assert(x < g.edges.len() ==> g.edges[x as int].source != r);
                }
                match steps[1] {
                    Step::Jump => {},
                    Step::Edge(y) => {
                        assert(y < g.edges.len() ==> g.edges[y as int].source != d);
                    },
                }
            },
        }
    }
    if is_complete(g, r, steps, end) {
        lemma_prefix_valid(g, r, steps, 1);
        let head1 = steps.subrange(0, 1);
        assert(head1.drop_last() =~= Seq::<Step>::empty());
        assert(head1.last() == steps[0]);
        assert(steps[0] == Step::Edge(e as usize)) by {
            match steps[0] {
                Step::Jump => {},
                Step::Edge(x) => {
                    if x != e {
                        assert(x < g.edges.len() ==> g.edges[x as int].source != r);
                    }
                },
            }
        }
        if steps.len() >= 2 {
            lemma_prefix_valid(g, r, steps, 2);
            let head2 = steps.subrange(0, 2);
            assert(head2.drop_last() =~= head1);
            assert(head1 =~= one);
            assert(head2.last() == steps[1]);
            match steps[1] {
                Step::Jump => {},
                Step::Edge(x) => {
                    assert(x < g.edges.len() ==> g.edges[x as int].source != d);
                },
            }
        }
        assert(steps =~= one);
    }
}

/// The node and stack reached by following `steps` from node `n` with stack
/// `st`, the state where an earlier fragment of a path stopped.
pub open spec fn follow_from(g: StackGraph, n: int, st: Stack, steps: Seq<Step>) -> Option<(int, Stack)>
    decreases steps.len(),
{
    if steps.len() == 0 {
        Some((n, st))
    } else {
        match follow_from(g, n, st, steps.drop_last()) {
            None => None,
            Some((m, s)) => match next_node(g, m, steps.last()) {
                None => None,
                Some(x) => match enter(g, x, s) {
                    None => None,
                    Some(s2) => Some((x, s2)),
                },
            },
        }
    }
}

/// Following a path in two fragments, the second continued from the node and
/// stack where the first stopped, reaches what following it whole reaches.
pub proof fn lemma_follow_split(g: StackGraph, start: int, p: Seq<Step>, q: Seq<Step>)
    ensures
        follow(g, start, p + q) == match follow(g, start, p) {
            None => None,
            Some((n, st)) => follow_from(g, n, st, q),
        },
    decreases q.len(),
{
    if q.len() == 0 {
        assert(p + q =~= p);
    } else {
        lemma_follow_split(g, start, p, q.drop_last());
        assert((p + q).drop_last() =~= p + q.drop_last());
        assert((p + q).last() == q.last());
    }
}

/// Stitching: a path made of a first fragment and a continuation is complete
/// exactly when the first fragment is valid and the continuation, taken from
/// where it stopped, ends at a definition with the stack empty.
pub proof fn lemma_stitch_complete(g: StackGraph, start: int, p: Seq<Step>, q: Seq<Step>, end: int)
    requires
        p.len() + q.len() > 0,
    ensures
        is_complete(g, start, p + q, end) == (follow(g, start, p) matches Some((n, st))
            && follow_from(g, n, st, q) == Some((end, Seq::<Seq<char>>::empty()))
            && is_definition(g, end)),
{
    lemma_follow_split(g, start, p, q);
}

/// Where a step leads from `node`, computed.
fn step_target(g: &StackGraph, node: usize, s: Step) -> (r: Option<usize>)
    requires
        g.wf(),
        node < g.nodes.len(),
    ensures
        match r {
            Some(m) => next_node(*g, node as int, s) == Some(m as int) && m < g.nodes.len(),
            None => next_node(*g, node as int, s) is None,
        },
{
    let is_jump = match &g.nodes[node].kind {
        NodeKind::JumpToScope { .. } => true,
        _ => false,
    };
    match s {
        Step::Edge(e) => {
            if e < g.edges.len() && g.edges[e].source == node && !is_jump {
                Some(g.edges[e].sink)
            } else {
                None
            }
        },
        Step::Jump => match &g.nodes[node].kind {
            NodeKind::JumpToScope { target: Some(t) } => if *t < g.nodes.len() { Some(*t) } else { None },
            _ => None,
        },
    }
}

/// Checks a path from `start`: the node it ends at when it is complete.
pub fn check_path(g: &StackGraph, start: usize, steps: &Vec<Step>) -> (r: Option<usize>)
    requires
        g.wf(),
        start < g.nodes.len(),
    ensures
        match r {
            Some(end) => is_complete(*g, start as int, steps@, end as int),
            None => forall|end: int| !is_complete(*g, start as int, steps@, end),
        },
{
    let mut stack: Vec<Vec<char>> = Vec::new();
    assert(stack_model(stack) =~= Seq::<Seq<char>>::empty());
    assert(steps@.subrange(0, 0) =~= Seq::<Step>::empty());
    if enter_node(g, start, &mut stack).is_none() {
        proof { lemma_invalid_prefix(*g, start as int, steps@, 0); }
        return None;
    }
    let mut node = start;
    let mut k: usize = 0;
    while k < steps.len()
        invariant
            g.wf(),
            k <= steps.len(),
            node < g.nodes.len(),
            follow(*g, start as int, steps@.subrange(0, k as int)) == Some((node as int, stack_model(stack))),
        decreases steps.len() - k,
    {
        let ghost pre = steps@.subrange(0, k as int + 1);
        assert(pre.drop_last() =~= steps@.subrange(0, k as int));
        assert(pre.last() == steps@[k as int]);
        match step_target(g, node, steps[k]) {
            None => {
                proof { lemma_invalid_prefix(*g, start as int, steps@, k as int + 1); }
                return None;
            },
            Some(m) => {
                if enter_node(g, m, &mut stack).is_none() {
                    proof { lemma_invalid_prefix(*g, start as int, steps@, k as int + 1); }
                    return None;
                }
                node = m;
            },
        }
        k += 1;
    }
    assert(steps@.subrange(0, steps.len() as int) =~= steps@);
    let is_def = match &g.nodes[node].kind {
        NodeKind::PushSymbol { is_reference, .. } => !*is_reference,
        _ => false,
    };
    if is_def && stack.len() == 0 && steps.len() > 0 {
        assert(stack_model(stack) =~= Seq::<Seq<char>>::empty());
        Some(node)
    } else {
        assert(stack.len() > 0 ==> stack_model(stack).len() > 0);
        None
    }
}

/// A path whose prefix is invalid is invalid, and so never complete.
proof fn lemma_invalid_prefix(g: StackGraph, start: int, steps: Seq<Step>, k: int)
    requires
        0 <= k <= steps.len(),
        follow(g, start, steps.subrange(0, k)) is None,
    ensures
        forall|end: int| !is_complete(g, start, steps, end),
{
    if follow(g, start, steps) is Some {
        lemma_prefix_valid(g, start, steps, k);
    }
}

/// Stitches a path from a first fragment and its continuation, e.g. fragments
/// computed separately for two files, and keeps it when it is complete.
pub fn stitch(g: &StackGraph, start: usize, first: &Vec<Step>, rest: &Vec<Step>) -> (r: Option<ResolvedPath>)
    requires
        g.wf(),
        start < g.nodes.len(),
    ensures
        match r {
            Some(p) => p.steps@ == first@ + rest@ && is_complete(*g, start as int, p.steps@, p.end as int),
            None => forall|end: int| !is_complete(*g, start as int, first@ + rest@, end),
        },
{
    let mut steps = copy_steps(first);
    let mut k: usize = 0;
    while k < rest.len()
        invariant
            k <= rest.len(),
            steps@ == first@ + rest@.subrange(0, k as int),
        decreases rest.len() - k,
    {
        steps.push(rest[k]);
        k += 1;
        assert(steps@ =~= first@ + rest@.subrange(0, k as int));
    }
    assert(rest@.subrange(0, rest.len() as int) =~= rest@);
    match check_path(g, start, &steps) {
        Some(end) => Some(ResolvedPath { steps, end }),
        None => None,
    }
}

} // verus!
