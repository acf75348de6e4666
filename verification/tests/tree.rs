use rulescan::tree::{NodeKind, Position, Span, SyntaxNode, SyntaxTree};

fn at(line: u32) -> Span {
    Span { start: Position { line, column: 1 }, end: Position { line, column: 2 } }
}

fn numbers(nodes: &[SyntaxNode]) -> Vec<usize> {
    nodes.iter().map(|n| n.index).collect()
}

#[test]
fn new_tree_is_its_root() {
    let tree = SyntaxTree::new(NodeKind::Module, "crate", at(1));
    let root = tree.root();
    assert_eq!(tree.len(), 1);
    assert_eq!(root.index, 0);
    assert!(tree.contains(root));
    assert_eq!(tree.kind(root), NodeKind::Module);
    assert_eq!(tree.name(root), "crate");
    assert_eq!(tree.arg_count(root), 0);
    assert_eq!(tree.span(root), at(1));
    assert_eq!(tree.parent(root), None);
    assert_eq!(tree.child_count(root), 0);
    assert_eq!(numbers(&tree.preorder()), vec![0]);
}

#[test]
fn add_child_appends_behind_its_siblings() {
    let mut tree = SyntaxTree::new(NodeKind::Module, "", at(1));
    let root = tree.root();
    let a = tree.add_child(root, NodeKind::FunctionDef, "a", 0, at(2));
    let b = tree.add_child(root, NodeKind::Call, "b", 3, at(3));
    let c = tree.add_child(a, NodeKind::MacroInvocation, "c", 0, at(4));
    assert_eq!((a.index, b.index, c.index), (1, 2, 3));
    assert_eq!(tree.len(), 4);
    assert_eq!(tree.child_count(root), 2);
    assert_eq!(tree.child(root, 0), a);
    assert_eq!(tree.child(root, 1), b);
    assert_eq!(tree.child_count(a), 1);
    assert_eq!(tree.child(a, 0), c);
    assert_eq!(tree.child_count(b), 0);
    assert_eq!(tree.parent(a), Some(root));
    assert_eq!(tree.parent(b), Some(root));
    assert_eq!(tree.parent(c), Some(a));
    assert_eq!(tree.kind(b), NodeKind::Call);
    assert_eq!(tree.name(b), "b");
    assert_eq!(tree.arg_count(b), 3);
    assert_eq!(tree.span(c), at(4));
    assert_eq!(tree.kind(root), NodeKind::Module);
}

#[test]
fn handles_of_other_trees_are_told_apart_by_contains() {
    let mut tree = SyntaxTree::new(NodeKind::Module, "", at(1));
    let root = tree.root();
    let a = tree.add_child(root, NodeKind::Block, "", 0, at(2));
    let small = SyntaxTree::new(NodeKind::Module, "", at(1));
    assert!(tree.contains(a));
    assert!(!small.contains(a));
    assert!(!tree.contains(SyntaxNode { index: 2 }));
}

#[test]
fn preorder_puts_a_node_before_its_children_and_children_in_order() {
    // 0 -> [1, 2, 6]; 1 -> [3, 5]; 2 -> [4]; 3 -> [7]
    let mut tree = SyntaxTree::new(NodeKind::Module, "", at(0));
    let n0 = tree.root();
    let n1 = tree.add_child(n0, NodeKind::Block, "", 0, at(1));
    let n2 = tree.add_child(n0, NodeKind::Block, "", 0, at(2));
    let n3 = tree.add_child(n1, NodeKind::Block, "", 0, at(3));
    tree.add_child(n2, NodeKind::Block, "", 0, at(4));
    tree.add_child(n1, NodeKind::Block, "", 0, at(5));
    tree.add_child(n0, NodeKind::Block, "", 0, at(6));
    tree.add_child(n3, NodeKind::Block, "", 0, at(7));
    assert_eq!(numbers(&tree.preorder()), vec![0, 1, 3, 7, 5, 2, 4, 6]);
}

#[test]
fn preorder_names_each_node_once() {
    let mut tree = SyntaxTree::new(NodeKind::Module, "", at(0));
    let mut nodes = vec![tree.root()];
    for i in 1..500usize {
        let parent = nodes[(i * 7 + 3) % nodes.len()];
        nodes.push(tree.add_child(parent, NodeKind::Other, "", 0, at(i as u32)));
    }
    let order = tree.preorder();
    assert_eq!(order.len(), 500);
    let mut seen = numbers(&order);
    seen.sort();
    assert_eq!(seen, (0..500).collect::<Vec<usize>>());
    // a node comes after its parent
    let mut place = vec![0usize; 500];
    for (i, n) in order.iter().enumerate() {
        place[n.index] = i;
    }
    for n in &nodes[1..] {
        let parent = tree.parent(*n).unwrap();
        assert!(place[parent.index] < place[n.index]);
    }
}

#[test]
fn enclosing_function_is_the_nearest_one_above() {
    let mut tree = SyntaxTree::new(NodeKind::Module, "", at(0));
    let root = tree.root();
    let outer = tree.add_child(root, NodeKind::FunctionDef, "main", 0, at(1));
    let body = tree.add_child(outer, NodeKind::Block, "", 0, at(1));
    let call = tree.add_child(body, NodeKind::Call, "unwrap", 0, at(2));
    let inner = tree.add_child(body, NodeKind::FunctionDef, "helper", 0, at(3));
    let deep = tree.add_child(inner, NodeKind::MacroInvocation, "dbg", 0, at(4));
    let loose = tree.add_child(root, NodeKind::MacroInvocation, "dbg", 0, at(9));
    assert_eq!(tree.enclosing_function(root), None);
    assert_eq!(tree.enclosing_function(outer), None);
    assert_eq!(tree.enclosing_function(body), Some(outer));
    assert_eq!(tree.enclosing_function(call), Some(outer));
    assert_eq!(tree.enclosing_function(inner), Some(outer));
    assert_eq!(tree.enclosing_function(deep), Some(inner));
    assert_eq!(tree.enclosing_function(loose), None);
    assert_eq!(tree.name(tree.enclosing_function(call).unwrap()), "main");
}
