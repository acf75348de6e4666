//! The order in which a tree is scanned: depth first, a node before its
//! children, the children in source order. The walk keeps its own stack, so
//! the depth of the tree does not cost call stack.

use crate::tree::{well_formed, node_ok, NodeView, SyntaxNode, SyntaxTree};
use vstd::prelude::*;

verus! {

/// Node `n` followed by everything below it, depth first.
pub open spec fn subtree_order(t: Seq<NodeView>, n: int) -> Seq<int>
    decreases t.len() - n, 1int, 0int,
{
    if 0 <= n < t.len() {
        seq![n] + forest_order(t, n, 0)
    } else {
        Seq::empty()
    }
}

/// The subtrees of the children of `n` from position `k` on, one after the
/// other.
pub open spec fn forest_order(t: Seq<NodeView>, n: int, k: int) -> Seq<int>
    decreases t.len() - n, 0int, t[n].children.len() - k,
{
    if 0 <= n < t.len() && 0 <= k < t[n].children.len() {
        let c = t[n].children[k];
        if n < c < t.len() {
            subtree_order(t, c) + forest_order(t, n, k + 1)
        } else {
            forest_order(t, n, k + 1)
        }
    } else {
        Seq::empty()
    }
}

/// The whole tree in scanning order.
pub open spec fn walk_order(t: Seq<NodeView>) -> Seq<int> {
    subtree_order(t, 0)
}

/// What is still to come while nodes wait on a stack: the subtree of the
/// topmost node first, the one at the bottom last.
pub open spec fn pending_order(t: Seq<NodeView>, stack: Seq<int>) -> Seq<int>
    decreases stack.len(),
{
    if stack.len() == 0 {
        Seq::empty()
    } else {
        subtree_order(t, stack.last()) + pending_order(t, stack.drop_last())
    }
}

/// The numbers of a sequence of handles.
pub open spec fn ids(nodes: Seq<SyntaxNode>) -> Seq<int> {
    nodes.map_values(|n: SyntaxNode| n.id())
}

/// Whether `x` is `n` or stands below it: following parent links from `x`
/// leads to `n`.
pub open spec fn under(t: Seq<NodeView>, x: int, n: int) -> bool
    decreases x,
{
    x == n || (n < x < t.len() && t[x].parent is Some && 0 <= t[x].parent->0 < x && under(
        t,
        t[x].parent->0,
        n,
    ))
}

/// Whether `x` stands under one of the children of `n` from position `k` on.
pub open spec fn under_forest(t: Seq<NodeView>, x: int, n: int, k: int) -> bool
    decreases t[n].children.len() - k,
{
    if 0 <= k < t[n].children.len() {
        under(t, x, t[n].children[k]) || under_forest(t, x, n, k + 1)
    } else {
        false
    }
}

/// A concatenation holds what its parts hold.
proof fn lemma_contains_add(a: Seq<int>, b: Seq<int>, x: int)
    ensures
        (a + b).contains(x) <==> a.contains(x) || b.contains(x),
{
    if a.contains(x) {
        let i = choose|i: int| 0 <= i < a.len() && a[i] == x;
        assert((a + b)[i] == x);
    }
    if b.contains(x) {
        let i = choose|i: int| 0 <= i < b.len() && b[i] == x;
        assert((a + b)[a.len() + i] == x);
    }
    if (a + b).contains(x) {
        let i = choose|i: int| 0 <= i < (a + b).len() && (a + b)[i] == x;
        if i < a.len() {
            assert(a[i] == x);
        } else {
            assert(b[i - a.len()] == x);
        }
    }
}

/// What stands under a child of `n` stands under `n`.
proof fn lemma_under_child(t: Seq<NodeView>, x: int, c: int, n: int)
    requires
        n < c < t.len(),
        t[c].parent == Some(n),
        0 <= n,
        under(t, x, c),
    ensures
        under(t, x, n),
    decreases x,
{
    if x == c {
        assert(under(t, n, n));
    } else {
        lemma_under_child(t, t[x].parent->0, c, n);
    }
}

/// The nodes above `x` form a chain: of two of them, the later one stands
/// under the earlier one.
proof fn lemma_chain(t: Seq<NodeView>, x: int, a: int, b: int)
    requires
        under(t, x, a),
        under(t, x, b),
        a <= b,
    ensures
        under(t, b, a),
    decreases x,
{
    if x == b {
    } else if x == a {
    } else {
        lemma_chain(t, t[x].parent->0, a, b);
    }
}

/// What stands under the child at position `j` stands under the children
/// from any position up to `j` on.
proof fn lemma_under_forest_intro(t: Seq<NodeView>, x: int, n: int, k: int, j: int)
    requires
        0 <= k <= j < t[n].children.len(),
        under(t, x, t[n].children[j]),
    ensures
        under_forest(t, x, n, k),
    decreases j - k,
{
    if k < j {
        lemma_under_forest_intro(t, x, n, k + 1, j);
    }
}

/// What stands under a child of `n` stands under `n`, and is not `n`.
proof fn lemma_under_forest_elim(t: Seq<NodeView>, x: int, n: int, k: int)
    requires
        well_formed(t),
        0 <= n < t.len(),
        0 <= k,
        under_forest(t, x, n, k),
    ensures
        under(t, x, n),
        n < x < t.len(),
    decreases t[n].children.len() - k,
{
    assert(node_ok(t, n));
    let c = t[n].children[k];
    if under(t, x, c) {
        lemma_under_child(t, x, c, n);
    } else {
        lemma_under_forest_elim(t, x, n, k + 1);
    }
}

/// A node stands under the children under which its parent stands.
proof fn lemma_under_forest_step(t: Seq<NodeView>, x: int, n: int, k: int)
    requires
        well_formed(t),
        0 <= n < t.len(),
        0 < x < t.len(),
        0 <= k,
        under_forest(t, t[x].parent->0, n, k),
    ensures
        under_forest(t, x, n, k),
    decreases t[n].children.len() - k,
{
    assert(node_ok(t, x));
    let c = t[n].children[k];
    if under(t, t[x].parent->0, c) {
    } else {
        lemma_under_forest_step(t, x, n, k + 1);
    }
}

/// What stands strictly below `n` stands under one of its children.
proof fn lemma_under_split(t: Seq<NodeView>, x: int, n: int)
    requires
        well_formed(t),
        0 <= n < t.len(),
        under(t, x, n),
        x != n,
    ensures
        under_forest(t, x, n, 0),
    decreases x,
{
    assert(node_ok(t, x));
    let p = t[x].parent->0;
    if p == n {
        let j = choose|j: int| 0 <= j < t[n].children.len() && t[n].children[j] == x;
        lemma_under_forest_intro(t, x, n, 0, j);
    } else {
        lemma_under_split(t, p, n);
        lemma_under_forest_step(t, x, n, 0);
    }
}

/// Nothing stands under two children of one node.
proof fn lemma_siblings_apart(t: Seq<NodeView>, x: int, n: int, k: int, later: int)
    requires
        well_formed(t),
        0 <= n < t.len(),
        0 <= k < later,
        k < t[n].children.len(),
        under(t, x, t[n].children[k]),
    ensures
        !under_forest(t, x, n, later),
    decreases t[n].children.len() - later,
{
    assert(node_ok(t, n));
    if later < t[n].children.len() {
        let a = t[n].children[k];
        let b = t[n].children[later];
        if under(t, x, b) {
            lemma_chain(t, x, a, b);
            assert(under(t, n, a));
        }
        lemma_siblings_apart(t, x, n, k, later + 1);
    }
}

/// The walk below `n` visits exactly what stands under `n`, each node once.
pub proof fn lemma_subtree_visits(t: Seq<NodeView>, n: int)
    requires
        well_formed(t),
        0 <= n < t.len(),
    ensures
        subtree_order(t, n).no_duplicates(),
        forall|x: int| #[trigger] subtree_order(t, n).contains(x) <==> under(t, x, n),
    decreases t.len() - n, 1int, 0int,
{
    let below = forest_order(t, n, 0);
    let all = subtree_order(t, n);
    lemma_forest_visits(t, n, 0);
    assert forall|x: int| #[trigger] all.contains(x) <==> under(t, x, n) by {
        lemma_contains_add(seq![n], below, x);
        if seq![n].contains(x) {
            assert(x == n);
        }
        assert(seq![n][0] == n);
        if below.contains(x) {
            lemma_under_forest_elim(t, x, n, 0);
        }
        if under(t, x, n) && x != n {
            lemma_under_split(t, x, n);
        }
    }
    assert forall|i: int, j: int| 0 <= i < seq![n].len() && 0 <= j < below.len() implies seq![n][i]
        != below[j] by {
        assert(below.contains(below[j]));
        lemma_under_forest_elim(t, below[j], n, 0);
    }
    vstd::seq_lib::lemma_no_dup_in_concat(seq![n], below);
}

/// The walk through the children of `n` from position `k` on visits exactly
/// what stands under them, each node once.
pub proof fn lemma_forest_visits(t: Seq<NodeView>, n: int, k: int)
    requires
        well_formed(t),
        0 <= n < t.len(),
        0 <= k,
    ensures
        forest_order(t, n, k).no_duplicates(),
        forall|x: int| #[trigger] forest_order(t, n, k).contains(x) <==> under_forest(t, x, n, k),
    decreases t.len() - n, 0int, t[n].children.len() - k,
{
    if k < t[n].children.len() {
        assert(node_ok(t, n));
        let c = t[n].children[k];
        let first = subtree_order(t, c);
        let later = forest_order(t, n, k + 1);
        lemma_subtree_visits(t, c);
        lemma_forest_visits(t, n, k + 1);
        assert forall|x: int| #[trigger]
            forest_order(t, n, k).contains(x) <==> under_forest(t, x, n, k) by {
            lemma_contains_add(first, later, x);
        }
        assert forall|i: int, j: int| 0 <= i < first.len() && 0 <= j < later.len() implies first[i]
            != later[j] by {
            assert(first.contains(first[i]));
            assert(later.contains(later[j]));
            lemma_siblings_apart(t, first[i], n, k, k + 1);
        }
        vstd::seq_lib::lemma_no_dup_in_concat(first, later);
    }
}

/// Every node stands under the root.
pub proof fn lemma_all_under_root(t: Seq<NodeView>, x: int)
    requires
        well_formed(t),
        0 <= x < t.len(),
    ensures
        under(t, x, 0),
    decreases x,
{
    if x != 0 {
        assert(node_ok(t, x));
        lemma_all_under_root(t, t[x].parent->0);
    }
}

/// The walk is complete and visits nothing twice: every node of a
/// well-formed tree occurs in the walking order exactly once.
pub proof fn lemma_walk_visits_each_node_once(t: Seq<NodeView>)
    requires
        well_formed(t),
    ensures
        walk_order(t).no_duplicates(),
        forall|x: int| #[trigger] walk_order(t).contains(x) <==> 0 <= x < t.len(),
        walk_order(t).len() == t.len(),
{
    let order = walk_order(t);
    lemma_subtree_visits(t, 0);
    assert forall|x: int| #[trigger] order.contains(x) <==> 0 <= x < t.len() by {
        if 0 <= x < t.len() {
            lemma_all_under_root(t, x);
        }
        if order.contains(x) {
            assert(under(t, x, 0));
        }
    }
    order.unique_seq_to_set();
    assert(order.to_set() =~= vstd::set_lib::set_int_range(0, t.len() as int));
    vstd::set_lib::lemma_int_range(0, t.len() as int);
}

impl SyntaxTree {
    /// All nodes in scanning order.
    pub fn preorder(&self) -> (order: Vec<SyntaxNode>)
        requires
            self.wf(),
        ensures
            ids(order@) == walk_order(self@),
            forall|i: int| 0 <= i < order@.len() ==> self.has(#[trigger] order@[i]),
    {
        let mut order: Vec<SyntaxNode> = Vec::new();
        let mut stack: Vec<SyntaxNode> = Vec::new();
        stack.push(self.root());
        proof {
            assert(ids(stack@) =~= seq![0int]);
            assert(ids(stack@).drop_last() =~= Seq::<int>::empty());
            assert(pending_order(self@, Seq::<int>::empty()) =~= Seq::<int>::empty());
            assert(pending_order(self@, ids(stack@)) =~= walk_order(self@));
            assert(ids(order@) =~= Seq::<int>::empty());
        }
        while stack.len() > 0
            invariant
                self.wf(),
                forall|i: int| 0 <= i < stack@.len() ==> self.has(#[trigger] stack@[i]),
                ids(order@) + pending_order(self@, ids(stack@)) == walk_order(self@),
            decreases pending_order(self@, ids(stack@)).len(),
        {
            let ghost before = ids(stack@);
            let ghost done = ids(order@);
            let node = stack.pop().unwrap();
            order.push(node);
            let ghost rest = ids(stack@);
            proof {
                assert(rest =~= before.drop_last());
                assert(before.last() == node.id());
                assert(ids(order@) =~= done.push(node.id()));
                assert(done + (seq![node.id()] + forest_order(self@, node.id(), 0))
                    + pending_order(self@, rest) =~= done.push(node.id()) + (forest_order(
                    self@,
                    node.id(),
                    0,
                ) + pending_order(self@, rest)));
            }
            let mut k = self.child_count(node);
            while k > 0
                invariant
                    self.wf(),
                    self.has(node),
                    k <= self@[node.id()].children.len(),
                    forall|i: int| 0 <= i < stack@.len() ==> self.has(#[trigger] stack@[i]),
                    pending_order(self@, ids(stack@)) == forest_order(self@, node.id(), k as int)
                        + pending_order(self@, rest),
                decreases k,
            {
                k -= 1;
                let child = self.child(node, k);
                let ghost below = ids(stack@);
                proof {
                    assert(node_ok(self@, node.id()));
                }
                stack.push(child);
                proof {
                    assert(ids(stack@) =~= below.push(child.id()));
                    assert(ids(stack@).drop_last() =~= below);
                    assert(subtree_order(self@, child.id()) + (forest_order(
                        self@,
                        node.id(),
                        k + 1,
                    ) + pending_order(self@, rest)) =~= (subtree_order(self@, child.id())
                        + forest_order(self@, node.id(), k + 1)) + pending_order(self@, rest));
                }
            }
        }
        proof {
            assert(ids(stack@) =~= Seq::<int>::empty());
            assert(ids(order@) + Seq::<int>::empty() =~= ids(order@));
            lemma_walk_visits_each_node_once(self@);
            assert forall|i: int| 0 <= i < order@.len() implies self.has(#[trigger] order@[i]) by {
                assert(ids(order@)[i] == order@[i].id());
                assert(walk_order(self@).contains(order@[i].id()));
            }
        }
        order
    }
}

} // verus!
