//! Syntax trees: an arena of nodes addressed by handles, with parent links
//! and ordered children. A parser outside this crate builds the tree node by
//! node; the scanner only reads it.

use vstd::prelude::*;

verus! {

/// What a node of the tree stands for.
#[derive(Clone, Copy, Debug, PartialEq, Eq, Structural)]
pub enum NodeKind {
    Module,
    FunctionDef,
    Block,
    Call,
    MacroInvocation,
    Other,
}

/// A place in the source text: line and column.
#[derive(Clone, Copy, Debug, PartialEq, Eq, Structural)]
pub struct Position {
    pub line: u32,
    pub column: u32,
}

/// The stretch of source text that a node covers.
#[derive(Clone, Copy, Debug, PartialEq, Eq, Structural)]
pub struct Span {
    pub start: Position,
    pub end: Position,
}

/// A handle to one node of a `SyntaxTree`. It is only meaningful together
/// with the tree that handed it out.
#[derive(Clone, Copy, Debug, PartialEq, Eq, Structural)]
pub struct SyntaxNode {
    pub index: usize,
}

/// The mathematical content of one node.
pub struct NodeView {
    pub kind: NodeKind,
    pub name: Seq<char>,
    pub arg_count: nat,
    pub span: Span,
    pub parent: Option<int>,
    pub children: Seq<int>,
}

#[derive(Debug)]
struct NodeData {
    kind: NodeKind,
    name: String,
    arg_count: usize,
    span: Span,
    parent: Option<usize>,
    children: Vec<usize>,
}

impl NodeData {
    spec fn model(&self) -> NodeView {
        NodeView {
            kind: self.kind,
            name: self.name@,
            arg_count: self.arg_count as nat,
            span: self.span,
            parent: match self.parent {
                Some(p) => Some(p as int),
                None => None,
            },
            children: self.children@.map_values(|c: usize| c as int),
        }
    }
}

/// A parsed source file. Node 0 is the root; every other node was added
/// under a node that existed before it.
#[derive(Debug)]
pub struct SyntaxTree {
    nodes: Vec<NodeData>,
}

/// What well-formedness asks of node `i`: the root has no parent, every
/// other node hangs under an earlier node that lists it, each listed child
/// comes later in the arena and names `i` as its parent, and the children
/// are listed in the order in which they were added.
pub open spec fn node_ok(t: Seq<NodeView>, i: int) -> bool {
    &&& i == 0 ==> t[i].parent is None
    &&& i != 0 ==> {
        &&& t[i].parent is Some
        &&& 0 <= t[i].parent->0 < i
        &&& t[t[i].parent->0].children.contains(i)
    }
    &&& forall|j: int|
        0 <= j < t[i].children.len() ==> {
            &&& i < (#[trigger] t[i].children[j]) < t.len()
            &&& t[t[i].children[j]].parent == Some(i)
        }
    &&& forall|j: int, k: int|
        0 <= j < k < t[i].children.len() ==> (#[trigger] t[i].children[j])
            < (#[trigger] t[i].children[k])
}

/// The shape that every tree built through `SyntaxTree` has: it is not
/// empty, node 0 is its root, and every node is in order.
pub open spec fn well_formed(t: Seq<NodeView>) -> bool {
    &&& t.len() > 0
    &&& forall|i: int| 0 <= i < t.len() ==> #[trigger] node_ok(t, i)
}

/// The nearest function definition strictly above node `n`, if there is one.
pub open spec fn enclosing_function(t: Seq<NodeView>, n: int) -> Option<int>
    decreases n,
{
    if 0 <= n < t.len() && t[n].parent is Some && 0 <= t[n].parent->0 < n {
        let p = t[n].parent->0;
        if t[p].kind == NodeKind::FunctionDef {
            Some(p)
        } else {
            enclosing_function(t, p)
        }
    } else {
        None
    }
}

/// The tree that results when `fresh` is added as the last child of `p`.
pub open spec fn with_child(t: Seq<NodeView>, p: int, fresh: NodeView) -> Seq<NodeView> {
    t.update(p, NodeView { children: t[p].children.push(t.len() as int), ..t[p] }).push(fresh)
}

/// Adding a childless node under an existing one keeps the tree well formed.
pub proof fn lemma_add_child_well_formed(t: Seq<NodeView>, p: int, fresh: NodeView)
    requires
        well_formed(t),
        0 <= p < t.len(),
        fresh.parent == Some(p),
        fresh.children.len() == 0,
    ensures
        well_formed(with_child(t, p, fresh)),
{
    let after = with_child(t, p, fresh);
    let n = t.len() as int;
    assert(node_ok(t, p));
    assert forall|i: int| 0 <= i < after.len() implies #[trigger] node_ok(after, i) by {
        if i < n {
            assert(node_ok(t, i));
            if i != 0 {
                let q = t[i].parent->0;
                assert(node_ok(t, q));
                let j = choose|j: int| 0 <= j < t[q].children.len() && t[q].children[j] == i;
                assert(after[q].children[j] == i);
            }
            assert forall|j: int| 0 <= j < after[i].children.len() implies {
                &&& i < (#[trigger] after[i].children[j]) < after.len()
                &&& after[after[i].children[j]].parent == Some(i)
            } by {
                if i == p && j == t[p].children.len() {
                } else {
                    assert(after[i].children[j] == t[i].children[j]);
                }
            }
            assert forall|j: int, k: int| 0 <= j < k < after[i].children.len() implies (
            #[trigger] after[i].children[j]) < (#[trigger] after[i].children[k]) by {
                assert(after[i].children[j] == t[i].children[j]);
                if i == p && k == t[p].children.len() {
                } else {
                    assert(after[i].children[k] == t[i].children[k]);
                }
            }
        } else {
            assert(after[p].children[t[p].children.len() as int] == i);
        }
    }
}

impl View for SyntaxTree {
    type V = Seq<NodeView>;

    closed spec fn view(&self) -> Seq<NodeView> {
        self.nodes@.map_values(|d: NodeData| d.model())
    }
}

impl SyntaxNode {
    /// The node's number within its tree.
    pub open spec fn id(&self) -> int {
        self.index as int
    }
}

impl SyntaxTree {
    /// Holds of every tree that `new` and `add_child` produce.
    pub open spec fn wf(&self) -> bool {
        well_formed(self@)
    }

    /// Whether `node` is a handle into this tree.
    pub open spec fn has(&self, node: SyntaxNode) -> bool {
        0 <= node.id() < self@.len()
    }

    /// A tree that consists of its root alone.
    pub fn new(kind: NodeKind, name: &str, span: Span) -> (tree: SyntaxTree)
        ensures
            tree.wf(),
            tree@.len() == 1,
            tree@[0] == (NodeView {
                kind,
                name: name@,
                arg_count: 0,
                span,
                parent: None,
                children: Seq::empty(),
            }),
    {
        let root = NodeData {
            kind,
            name: name.to_owned(),
            arg_count: 0,
            span,
            parent: None,
            children: Vec::new(),
        };
        let mut nodes: Vec<NodeData> = Vec::new();
        nodes.push(root);
        let tree = SyntaxTree { nodes };
        proof {
            assert(root.model().children =~= Seq::empty());
            assert(tree@.len() == 1);
        }
        tree
    }

    /// The handle of the root.
    pub fn root(&self) -> (node: SyntaxNode)
        requires
            self.wf(),
        ensures
            node.id() == 0,
            self.has(node),
    {
        SyntaxNode { index: 0 }
    }

    /// The number of nodes.
    pub fn len(&self) -> (n: usize)
        ensures
            n == self@.len(),
    {
        self.nodes.len()
    }

    /// Whether `node` is a handle into this tree.
    pub fn contains(&self, node: SyntaxNode) -> (b: bool)
        ensures
            b == self.has(node),
    {
        node.index < self.nodes.len()
    }

    /// Adds a node as the last child of `parent` and returns its handle.
    /// Nothing else in the tree changes.
    pub fn add_child(
        &mut self,
        parent: SyntaxNode,
        kind: NodeKind,
        name: &str,
        arg_count: usize,
        span: Span,
    ) -> (node: SyntaxNode)
        requires
            old(self).wf(),
            old(self).has(parent),
        ensures
            final(self).wf(),
            node.id() == old(self)@.len(),
            final(self)@ == with_child(
                old(self)@,
                parent.id(),
                (NodeView {
                    kind,
                    name: name@,
                    arg_count: arg_count as nat,
                    span,
                    parent: Some(parent.id()),
                    children: Seq::empty(),
                }),
            ),
    {
        let index = self.nodes.len();
        let ghost before = self@;
        let fresh = NodeData {
            kind,
            name: name.to_owned(),
            arg_count,
            span,
            parent: Some(parent.index),
            children: Vec::new(),
        };
        self.nodes[parent.index].children.push(index);
        self.nodes.push(fresh);
        proof {
            let after = self@;
            let p = parent.id();
            let grown = NodeView { children: before[p].children.push(index as int), ..before[p] };
            assert(fresh.model().children =~= Seq::empty());
            assert(after[p].children =~= grown.children);
            assert(after[p] == grown);
            assert(after =~= before.update(p, grown).push(fresh.model()));
            lemma_add_child_well_formed(before, p, fresh.model());
        }
        SyntaxNode { index }
    }

    /// The kind of `node`.
    pub fn kind(&self, node: SyntaxNode) -> (kind: NodeKind)
        requires
            self.has(node),
        ensures
            kind == self@[node.id()].kind,
    {
        self.nodes[node.index].kind
    }

    /// The name that `node` carries: the callee of a call, the macro of an
    /// invocation, the name of a function; empty where the node has none.
    pub fn name(&self, node: SyntaxNode) -> (name: &String)
        requires
            self.has(node),
        ensures
            name@ == self@[node.id()].name,
    {
        &self.nodes[node.index].name
    }

    /// The number of arguments of a call; 0 for other nodes.
    pub fn arg_count(&self, node: SyntaxNode) -> (n: usize)
        requires
            self.has(node),
        ensures
            n == self@[node.id()].arg_count,
    {
        self.nodes[node.index].arg_count
    }

    /// The stretch of source text that `node` covers.
    pub fn span(&self, node: SyntaxNode) -> (span: Span)
        requires
            self.has(node),
        ensures
            span == self@[node.id()].span,
    {
        self.nodes[node.index].span
    }

    /// The node under which `node` hangs; `None` for the root alone.
    pub fn parent(&self, node: SyntaxNode) -> (parent: Option<SyntaxNode>)
        requires
            self.has(node),
        ensures
            parent is Some <==> self@[node.id()].parent is Some,
            parent matches Some(p) ==> self@[node.id()].parent == Some(p.id()),
    {
        match self.nodes[node.index].parent {
            Some(p) => Some(SyntaxNode { index: p }),
            None => None,
        }
    }

    /// The function definition in which `node` stands: the nearest one
    /// strictly above it, or `None` where `node` stands in no function.
    pub fn enclosing_function(&self, node: SyntaxNode) -> (found: Option<SyntaxNode>)
        requires
            self.wf(),
            self.has(node),
        ensures
            found is Some <==> enclosing_function(self@, node.id()) is Some,
            found matches Some(f) ==> enclosing_function(self@, node.id()) == Some(f.id()),
    {
        let mut at = node.index;
        loop
            invariant
                self.wf(),
                0 <= at < self@.len(),
                enclosing_function(self@, at as int) == enclosing_function(self@, node.id()),
            decreases at,
        {
            proof {
                assert(node_ok(self@, at as int));
            }
            match self.nodes[at].parent {
                None => {
                    return None;
                },
                Some(p) => {
                    if self.nodes[p].kind == NodeKind::FunctionDef {
                        return Some(SyntaxNode { index: p });
                    }
                    at = p;
                },
            }
        }
    }

    /// How many children `node` has.
    pub fn child_count(&self, node: SyntaxNode) -> (n: usize)
        requires
            self.has(node),
        ensures
            n == self@[node.id()].children.len(),
    {
        self.nodes[node.index].children.len()
    }

    /// The child of `node` at position `at`, counted from 0 in source order.
    pub fn child(&self, node: SyntaxNode, at: usize) -> (child: SyntaxNode)
        requires
            self.has(node),
            at < self@[node.id()].children.len(),
        ensures
            child.id() == self@[node.id()].children[at as int],
    {
        SyntaxNode { index: self.nodes[node.index].children[at] }
    }
}

} // verus!
