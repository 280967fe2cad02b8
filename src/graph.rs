//! The stack graph: an arena of typed nodes and precedence-ranked edges.
use vstd::prelude::*;

verus! {

/// Precedence given to an edge whose rule sets none.
pub const DEFAULT_PRECEDENCE: i32 = 0;

/// What a node does to the symbol stack during resolution.
pub enum NodeKind {
    /// The global anchor, one per graph, at index 0.
    Root,
    /// A lexical scope marker.
    Scope,
    /// Pushes `symbol` at a reference; at a definition it consumes a matching one.
    PushSymbol { symbol: Vec<char>, is_reference: bool },
    /// Pops a matching symbol off the stack.
    PopSymbol { symbol: Vec<char> },
    /// Continues at the attached scope, if any; a target outside the graph
    /// leads nowhere.
    JumpToScope { target: Option<usize> },
}

pub struct Node {
    /// Index of the owning file; `None` only for the root.
    pub file: Option<usize>,
    /// Sequence number of the node within its file.
    pub local_id: usize,
    pub kind: NodeKind,
}

#[derive(Clone, Copy, PartialEq, Eq, Structural)]
pub struct Edge {
    pub source: usize,
    pub sink: usize,
    pub precedence: i32,
}

pub struct File {
    pub name: Vec<char>,
    /// How many nodes the file holds so far.
    pub node_count: usize,
}

pub struct StackGraph {
    pub files: Vec<File>,
    pub nodes: Vec<Node>,
    pub edges: Vec<Edge>,
}

/// The symbol a node carries, if its kind has one.
pub open spec fn kind_symbol(k: NodeKind) -> Option<Seq<char>> {
    match k {
        NodeKind::PushSymbol { symbol, .. } => Some(symbol@),
        NodeKind::PopSymbol { symbol } => Some(symbol@),
        _ => None,
    }
}

impl StackGraph {
    pub open spec fn wf(&self) -> bool {
        &&& self.nodes.len() >= 1
        &&& self.nodes[0].file is None
        &&& self.nodes[0].kind is Root
        &&& forall|i: int| 1 <= i < self.nodes.len() ==> {
            &&& #[trigger] self.nodes[i].file is Some
            &&& self.nodes[i].file->0 < self.files.len()
            &&& self.nodes[i].local_id < self.files[self.nodes[i].file->0 as int].node_count
            &&& !(self.nodes[i].kind is Root)
        }
        &&& forall|i: int, j: int|
            1 <= i < j < self.nodes.len() && self.nodes[i].file == self.nodes[j].file
                ==> #[trigger] self.nodes[i].local_id < #[trigger] self.nodes[j].local_id
        &&& forall|e: int| 0 <= e < self.edges.len() ==> {
            &&& #[trigger] self.edges[e].source < self.nodes.len()
            &&& self.edges[e].sink < self.nodes.len()
        }
    }

    /// A graph that holds only its root.
    pub fn new() -> (g: StackGraph)
        ensures
            g.wf(),
            g.nodes.len() == 1,
            g.files.len() == 0,
            g.edges.len() == 0,
    {
        let root = Node { file: None, local_id: 0, kind: NodeKind::Root };
        StackGraph { files: Vec::new(), nodes: vec![root], edges: Vec::new() }
    }

    /// Adds a file namespace and returns its index.
    pub fn add_file(&mut self, name: Vec<char>) -> (f: usize)
        requires
            old(self).wf(),
            old(self).files.len() < usize::MAX,
        ensures
            final(self).wf(),
            f == old(self).files.len(),
            final(self).files.len() == old(self).files.len() + 1,
            final(self).files[f as int].name@ == name@,
            final(self).files[f as int].node_count == 0,
            forall|i: int| 0 <= i < old(self).files.len() ==> #[trigger] final(self).files[i] == old(self).files[i],
            final(self).nodes == old(self).nodes,
            final(self).edges == old(self).edges,
    {
        let f = self.files.len();
        self.files.push(File { name, node_count: 0 });
        f
    }

    /// Adds a node of `kind` to `file`, numbered after the file's earlier nodes.
    pub fn add_node(&mut self, file: usize, kind: NodeKind) -> (n: usize)
        requires
            old(self).wf(),
            file < old(self).files.len(),
            old(self).files[file as int].node_count < usize::MAX,
            old(self).nodes.len() < usize::MAX,
            !(kind is Root),
        ensures
            final(self).wf(),
            n == old(self).nodes.len(),
            final(self).nodes@ == old(self).nodes@.push(final(self).nodes[n as int]),
            final(self).nodes[n as int].file == Some(file),
            final(self).nodes[n as int].local_id == old(self).files[file as int].node_count,
            final(self).nodes[n as int].kind == kind,
            final(self).files.len() == old(self).files.len(),
            final(self).files[file as int].node_count == old(self).files[file as int].node_count + 1,
            forall|f: int| 0 <= f < old(self).files.len() && f != file ==> #[trigger] final(self).files[f] == old(self).files[f],
            final(self).files[file as int].name == old(self).files[file as int].name,
            final(self).edges == old(self).edges,
    {
        let local_id = self.files[file].node_count;
        let n = self.nodes.len();
        self.nodes.push(Node { file: Some(file), local_id, kind });
        let mut entry = File { name: Vec::new(), node_count: 0 };
        std::mem::swap(&mut entry, &mut self.files[file]);
        entry.node_count = local_id + 1;
        self.files.set(file, entry);
        assert(forall|i: int| 1 <= i < self.nodes.len() ==> #[trigger] self.nodes[i].file is Some);
        n
    }

    /// Adds an edge; several edges between the same pair are allowed.
    pub fn add_edge(&mut self, source: usize, sink: usize, precedence: i32)
        requires
            old(self).wf(),
            source < old(self).nodes.len(),
            sink < old(self).nodes.len(),
        ensures
            final(self).wf(),
            final(self).edges@ == old(self).edges@.push(Edge { source, sink, precedence }),
            final(self).nodes == old(self).nodes,
            final(self).files == old(self).files,
    {
        self.edges.push(Edge { source, sink, precedence });
    }

    /// The indices of the edges that leave `source`, in the order they were added.
    pub fn outgoing_edges(&self, source: usize) -> (r: Vec<usize>)
        requires
            self.wf(),
        ensures
            forall|k: int| 0 <= k < r.len() ==> #[trigger] r[k] < self.edges.len()
                && self.edges[r[k] as int].source == source,
            forall|e: int| 0 <= e < self.edges.len() && self.edges[e].source == source
                ==> r@.contains(e as usize),
            forall|a: int, b: int| 0 <= a < b < r.len() ==> #[trigger] r[a] < #[trigger] r[b],
    {
        let mut r: Vec<usize> = Vec::new();
        let mut e: usize = 0;
        while e < self.edges.len()
            invariant
                e <= self.edges.len(),
                forall|k: int| 0 <= k < r.len() ==> #[trigger] r[k] < e
                    && self.edges[r[k] as int].source == source,
                forall|x: int| 0 <= x < e && self.edges[x].source == source
                    ==> r@.contains(x as usize),
                forall|a: int, b: int| 0 <= a < b < r.len() ==> #[trigger] r[a] < #[trigger] r[b],
            decreases self.edges.len() - e,
        {
            if self.edges[e].source == source {
                let ghost before = r@;
                r.push(e);
                assert(r[r.len() - 1] == e);
                assert forall|y: usize| before.contains(y) implies r@.contains(y) by {
                    let i = choose|i: int| 0 <= i < before.len() && before[i] == y;
                    assert(r@[i] == y);
                }
            }
            e += 1;
        }
        r
    }
}

} // verus!
