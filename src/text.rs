//! The stable text of nodes and edges, used in diagnostics and comparisons.
use vstd::prelude::*;
use crate::graph::{Edge, NodeKind, StackGraph};

verus! {

pub open spec fn digit_char(d: nat) -> char {
    if d == 0 { '0' } else if d == 1 { '1' } else if d == 2 { '2' } else if d == 3 { '3' }
    else if d == 4 { '4' } else if d == 5 { '5' } else if d == 6 { '6' } else if d == 7 { '7' }
    else if d == 8 { '8' } else { '9' }
}

/// Decimal digits of `n`, most significant first, without leading zeros.
pub open spec fn decimal(n: nat) -> Seq<char>
    decreases n,
{
    if n < 10 {
        seq![digit_char(n)]
    } else {
        decimal(n / 10).push(digit_char(n % 10))
    }
}

/// Decimal text of a signed integer, with a leading `-` when negative.
pub open spec fn int_text(i: int) -> Seq<char> {
    if i < 0 { seq!['-'] + decimal((-i) as nat) } else { decimal(i as nat) }
}

/// The word that names a node's kind.
pub open spec fn kind_word(k: NodeKind) -> Seq<char> {
    match k {
        NodeKind::Root => seq!['r', 'o', 'o', 't'],
        NodeKind::Scope => seq!['s', 'c', 'o', 'p', 'e'],
        NodeKind::PushSymbol { is_reference: true, .. } => seq!['r', 'e', 'f', 'e', 'r', 'e', 'n', 'c', 'e'],
        NodeKind::PushSymbol { is_reference: false, .. } => seq!['d', 'e', 'f', 'i', 'n', 'i', 't', 'i', 'o', 'n'],
        NodeKind::PopSymbol { .. } => seq!['p', 'o', 'p'],
        NodeKind::JumpToScope { .. } => seq!['j', 'u', 'm', 'p'],
    }
}

/// `[<file>(<local_id>) <kind> <symbol>]`, the symbol part only where the kind has one;
/// the root is `[root]`.
pub open spec fn node_text(g: StackGraph, n: int) -> Seq<char> {
    let node = g.nodes[n];
    match node.file {
        None => seq!['['] + kind_word(node.kind) + seq![']'],
        Some(f) => {
            let sym = match node.kind {
                NodeKind::PushSymbol { symbol, .. } => seq![' '] + symbol@,
                NodeKind::PopSymbol { symbol } => seq![' '] + symbol@,
                _ => Seq::empty(),
            };
            seq!['['] + g.files[f as int].name@ + seq!['('] + decimal(node.local_id as nat) + seq![')', ' ']
                + kind_word(node.kind) + sym + seq![']']
        },
    }
}

/// `<source> -<precedence>-> <sink>`.
pub open spec fn edge_text(g: StackGraph, e: Edge) -> Seq<char> {
    node_text(g, e.source as int) + seq![' ', '-'] + int_text(e.precedence as int) + seq!['-', '>', ' ']
        + node_text(g, e.sink as int)
}

fn push_digit(out: &mut Vec<char>, d: u64)
    requires
        d < 10,
    ensures
        final(out)@ == old(out)@.push(digit_char(d as nat)),
{
    let c = if d == 0 { '0' } else if d == 1 { '1' } else if d == 2 { '2' } else if d == 3 { '3' }
    else if d == 4 { '4' } else if d == 5 { '5' } else if d == 6 { '6' } else if d == 7 { '7' }
    else if d == 8 { '8' } else { '9' };
    out.push(c);
}

/// Appends the decimal digits of `n`.
pub fn push_decimal(out: &mut Vec<char>, n: u64)
    ensures
        final(out)@ == old(out)@ + decimal(n as nat),
    decreases n,
{
    if n < 10 {
        push_digit(out, n);
        assert(old(out)@.push(digit_char(n as nat)) =~= old(out)@ + decimal(n as nat));
    } else {
        push_decimal(out, n / 10);
        push_digit(out, n % 10);
        assert(old(out)@ + decimal(n as nat) =~= old(out)@ + decimal((n / 10) as nat) + seq![digit_char((n % 10) as nat)]);
    }
}

/// Appends the decimal text of `i`.
pub fn push_int(out: &mut Vec<char>, i: i32)
    ensures
        final(out)@ == old(out)@ + int_text(i as int),
{
    if i < 0 {
        out.push('-');
        let m: u64 = (0i64 - i as i64) as u64;
        push_decimal(out, m);
        assert(old(out)@ + int_text(i as int) =~= old(out)@.push('-') + decimal(m as nat));
    } else {
        push_decimal(out, i as u64);
    }
}

/// Appends every character of `s`.
pub fn push_all(out: &mut Vec<char>, s: &Vec<char>)
    ensures
        final(out)@ == old(out)@ + s@,
{
    let mut k: usize = 0;
    while k < s.len()
        invariant
            k <= s.len(),
            out@ == old(out)@ + s@.subrange(0, k as int),
        decreases s.len() - k,
    {
        out.push(s[k]);
        k += 1;
        assert(s@.subrange(0, k as int) =~= s@.subrange(0, k - 1).push(s@[k - 1]));
    }
    assert(s@.subrange(0, s.len() as int) =~= s@);
}

fn kind_chars(k: &NodeKind) -> (r: Vec<char>)
    ensures
        r@ == kind_word(*k),
{
    let r = match k {
        NodeKind::Root => vec!['r', 'o', 'o', 't'],
        NodeKind::Scope => vec!['s', 'c', 'o', 'p', 'e'],
        NodeKind::PushSymbol { is_reference, .. } => if *is_reference {
            vec!['r', 'e', 'f', 'e', 'r', 'e', 'n', 'c', 'e']
        } else {
            vec!['d', 'e', 'f', 'i', 'n', 'i', 't', 'i', 'o', 'n']
        },
        NodeKind::PopSymbol { .. } => vec!['p', 'o', 'p'],
        NodeKind::JumpToScope { .. } => vec!['j', 'u', 'm', 'p'],
    };
    assert(r@ =~= kind_word(*k));
    r
}

/// Appends the text of node `n`.
pub fn push_node_text(out: &mut Vec<char>, g: &StackGraph, n: usize)
    requires
        g.wf(),
        n < g.nodes.len(),
    ensures
        final(out)@ == old(out)@ + node_text(*g, n as int),
{
    let node = &g.nodes[n];
    out.push('[');
    match node.file {
        None => {
            let w = kind_chars(&node.kind);
            push_all(out, &w);
        },
        Some(f) => {
            push_all(out, &g.files[f].name);
            out.push('(');
            push_decimal(out, node.local_id as u64);
            out.push(')');
            out.push(' ');
            let w = kind_chars(&node.kind);
            push_all(out, &w);
            match &node.kind {
                NodeKind::PushSymbol { symbol, .. } => {
                    out.push(' ');
                    push_all(out, symbol);
                },
                NodeKind::PopSymbol { symbol } => {
                    out.push(' ');
                    push_all(out, symbol);
                },
                _ => {},
            }
        },
    }
    out.push(']');
    assert(final(out)@ =~= old(out)@ + node_text(*g, n as int));
}

/// Appends the text of edge `e`.
pub fn push_edge_text(out: &mut Vec<char>, g: &StackGraph, e: &Edge)
    requires
        g.wf(),
        e.source < g.nodes.len(),
        e.sink < g.nodes.len(),
    ensures
        final(out)@ == old(out)@ + edge_text(*g, *e),
{
    push_node_text(out, g, e.source);
    out.push(' ');
    out.push('-');
    push_int(out, e.precedence);
    out.push('-');
    out.push('>');
    out.push(' ');
    push_node_text(out, g, e.sink);
    assert(final(out)@ =~= old(out)@ + edge_text(*g, *e));
}

/// Relies on `FromIterator<&char> for String` (through `Iterator::collect`): the string holds exactly these characters, in order.
#[verifier::external_body]
pub(crate) fn chars_to_string(v: &Vec<char>) -> (r: String)
    ensures
        r@ == v@,
{
    v.iter().collect()
}

impl StackGraph {
    /// The text of node `n`, e.g. `[test.py(0) definition a]`.
    pub fn node_display(&self, n: usize) -> (r: String)
        requires
            self.wf(),
            n < self.nodes.len(),
        ensures
            r@ == node_text(*self, n as int),
    {
        let mut out: Vec<char> = Vec::new();
        push_node_text(&mut out, self, n);
        assert(out@ =~= node_text(*self, n as int));
        chars_to_string(&out)
    }

    /// The text of edge `e`, e.g. `[test.py(0) definition a] -0-> [test.py(1) reference a]`.
    pub fn edge_display(&self, e: usize) -> (r: String)
        requires
            self.wf(),
            e < self.edges.len(),
        ensures
            r@ == edge_text(*self, self.edges[e as int]),
    {
        let mut out: Vec<char> = Vec::new();
        push_edge_text(&mut out, self, &self.edges[e]);
        assert(out@ =~= edge_text(*self, self.edges[e as int]));
        chars_to_string(&out)
    }
}

} // verus!
