//! Walks over a tree that yield one node or edge per step. A walk holds no
//! borrow of the tree: each step reads the tree it is handed.
use crate::index::Index;
use crate::tree::{NodeEdge, NodeEdgeWithDepth, VecTree};
use vstd::prelude::*;

verus! {

/// A walk of the subtree of `root` by start and end edges, one edge at a time.
pub struct TraverseIter {
    root: Index,
    next: Option<NodeEdge<Index>>,
}

impl TraverseIter {
    /// The node the walk covers the subtree of.
    pub closed spec fn root(&self) -> Index {
        self.root
    }

    /// The edge the next step yields.
    pub closed spec fn pending(&self) -> Option<NodeEdge<Index>> {
        self.next
    }

    /// A walk that starts at `root`.
    pub fn new(root: Index) -> (r: Self)
        ensures
            r.root() == root,
            r.pending() == Some(NodeEdge::Start(root)),
    {
        TraverseIter { root, next: Some(NodeEdge::Start(root)) }
    }

    /// Yields the pending edge and moves on to the one after it in `tree`.
    pub fn next<T>(&mut self, tree: &VecTree<T>) -> (r: Option<NodeEdge<Index>>)
        requires
            tree.wf(),
        ensures
            r == old(self).pending(),
            final(self).root() == old(self).root(),
            final(self).pending() == tree.edge_after(old(self).root(), old(self).pending()),
    {
        let item = self.next;
        self.next = match item {
            None => None,
            Some(NodeEdge::Start(x)) => match tree.links(x) {
                Some(n) => {
                    match n.first_child {
                        Some(c) => Some(NodeEdge::Start(c)),
                        None => Some(NodeEdge::End(x)),
                    }
                },
                None => None,
            },
            Some(NodeEdge::End(x)) => {
                if x == self.root {
                    None
                } else {
                    match tree.links(x) {
                        Some(n) => {
                            match n.next_sibling {
                                Some(s) => Some(NodeEdge::Start(s)),
                                None => match n.parent {
                                    Some(p) => Some(NodeEdge::End(p)),
                                    None => None,
                                },
                            }
                        },
                        None => None,
                    }
                }
            },
        };
        item
    }
}

/// A walk of the subtree of `root` by start and end edges, with the depth of
/// each node below `root`, one edge at a time.
pub struct TraverseWithDepthIter {
    root: Index,
    next: Option<NodeEdgeWithDepth<Index>>,
}

impl TraverseWithDepthIter {
    /// The node the walk covers the subtree of.
    pub closed spec fn root(&self) -> Index {
        self.root
    }

    /// The edge the next step yields.
    pub closed spec fn pending(&self) -> Option<NodeEdgeWithDepth<Index>> {
        self.next
    }

    /// A walk that starts at `root`, at depth 0.
    pub fn new(root: Index) -> (r: Self)
        ensures
            r.root() == root,
            r.pending() == Some(NodeEdgeWithDepth::Start(root, 0)),
    {
        TraverseWithDepthIter { root, next: Some(NodeEdgeWithDepth::Start(root, 0)) }
    }

    /// Yields the pending edge and moves on to the one after it in `tree`.
    pub fn next<T>(&mut self, tree: &VecTree<T>) -> (r: Option<NodeEdgeWithDepth<Index>>)
        requires
            tree.wf(),
        ensures
            r == old(self).pending(),
            final(self).root() == old(self).root(),
            final(self).pending() == tree.edge_after_with_depth(old(self).root(), old(self).pending()),
    {
        let item = self.next;
        self.next = match item {
            None => None,
            Some(NodeEdgeWithDepth::Start(x, d)) => match tree.links(x) {
                Some(n) => {
                    match n.first_child {
                        Some(c) => {
                            if d < u32::MAX {
                                Some(NodeEdgeWithDepth::Start(c, d + 1))
                            } else {
                                None
                            }
                        },
                        None => Some(NodeEdgeWithDepth::End(x, d)),
                    }
                },
                None => None,
            },
            Some(NodeEdgeWithDepth::End(x, d)) => {
                if x == self.root {
                    None
                } else {
                    match tree.links(x) {
                        Some(n) => {
                            match n.next_sibling {
                                Some(s) => Some(NodeEdgeWithDepth::Start(s, d)),
                                None => match n.parent {
                                    Some(p) => {
                                        if d > 0 {
                                            Some(NodeEdgeWithDepth::End(p, d - 1))
                                        } else {
                                            None
                                        }
                                    },
                                    None => None,
                                },
                            }
                        },
                        None => None,
                    }
                }
            },
        };
        item
    }
}

/// `e` is an end edge.
pub open spec fn ends_a_node(e: Option<NodeEdge<Index>>) -> bool {
    e matches Some(NodeEdge::End(_))
}

/// `e` is an end edge.
pub open spec fn ends_a_node_with_depth(e: Option<NodeEdgeWithDepth<Index>>) -> bool {
    e matches Some(NodeEdgeWithDepth::End(_, _))
}

/// The edge a walk of the subtree of `root` reaches `k` steps after `e`.
pub open spec fn edge_steps<T>(tree: &VecTree<T>, root: Index, e: Option<NodeEdge<Index>>, k: nat) -> Option<
    NodeEdge<Index>,
>
    decreases k,
{
    if k == 0 {
        e
    } else {
        tree.edge_after(root, edge_steps(tree, root, e, (k - 1) as nat))
    }
}

/// As `edge_steps`, for a walk with depths.
pub open spec fn edge_steps_with_depth<T>(
    tree: &VecTree<T>,
    root: Index,
    e: Option<NodeEdgeWithDepth<Index>>,
    k: nat,
) -> Option<NodeEdgeWithDepth<Index>>
    decreases k,
{
    if k == 0 {
        e
    } else {
        tree.edge_after_with_depth(root, edge_steps_with_depth(tree, root, e, (k - 1) as nat))
    }
}

/// A node and then its descendants, in depth-first pre-order, one at a time:
/// the nodes whose start edges a `TraverseIter` yields.
pub struct DescendantsIter {
    walk: TraverseIter,
}

impl DescendantsIter {
    /// The node the walk covers the subtree of.
    pub closed spec fn root(&self) -> Index {
        self.walk.root()
    }

    /// The edge the underlying walk yields next.
    pub closed spec fn pending(&self) -> Option<NodeEdge<Index>> {
        self.walk.pending()
    }

    /// A walk over `root` and its descendants.
    pub fn new(root: Index) -> (r: Self)
        ensures
            r.root() == root,
            r.pending() == Some(NodeEdge::Start(root)),
    {
        DescendantsIter { walk: TraverseIter::new(root) }
    }

    /// Steps the walk past end edges, and yields the node of the first start
    /// edge, or `None` when the walk is over.
    pub fn next<T>(&mut self, tree: &VecTree<T>) -> (r: Option<Index>)
        requires
            tree.wf(),
        ensures
            final(self).root() == old(self).root(),
            exists|k: nat| #![trigger edge_steps(tree, old(self).root(), old(self).pending(), k)] {
                &&& forall|i: nat| i < k ==> ends_a_node(#[trigger] edge_steps(tree, old(self).root(), old(self).pending(), i))
                &&& match edge_steps(tree, old(self).root(), old(self).pending(), k) {
                    Some(NodeEdge::Start(x)) => r == Some(x) && final(self).pending() == edge_steps(
                        tree,
                        old(self).root(),
                        old(self).pending(),
                        k + 1,
                    ),
                    Some(NodeEdge::End(_)) => false,
                    None => r is None && final(self).pending() is None,
                }
            },
    {
        let ghost root = self.walk.root();
        let ghost e0 = self.walk.pending();
        let ghost mut k: nat = 0;
        loop
            invariant
                tree.wf(),
                root == old(self).walk.root(),
                e0 == old(self).walk.pending(),
                self.walk.root() == root,
                self.walk.pending() == edge_steps(tree, root, e0, k),
                forall|i: nat| i < k ==> ends_a_node(#[trigger] edge_steps(tree, root, e0, i)),
            decreases
                match self.walk.pending() {
                    Some(NodeEdge::End(x)) => tree.ranked_above(x).len() + 1,
                    _ => 0,
                },
        {
            let ghost before = self.walk.pending();
            match self.walk.next(tree) {
                Some(NodeEdge::Start(x)) => {
                    proof {
                        assert(edge_steps(tree, root, e0, k + 1) == tree.edge_after(root, before));
                    }
                    return Some(x);
                },
                Some(NodeEdge::End(x)) => {
                    proof {
                        assert(edge_steps(tree, root, e0, k + 1) == tree.edge_after(root, before));
                        if x != root && tree.live().contains(x) && tree.next_sibling_of(x) is None && tree.parent_of(x) is Some {
                            tree.lemma_climb(x);
                        }
                        k = k + 1;
                    }
                },
                None => {
                    proof {
                        assert(tree.edge_after(root, None) is None);
                    }
                    return None;
                },
            }
        }
    }
}

/// A node and then its descendants, in depth-first pre-order, each with its
/// depth below the first, one at a time.
pub struct DescendantsWithDepthIter {
    walk: TraverseWithDepthIter,
}

impl DescendantsWithDepthIter {
    /// The node the walk covers the subtree of.
    pub closed spec fn root(&self) -> Index {
        self.walk.root()
    }

    /// The edge the underlying walk yields next.
    pub closed spec fn pending(&self) -> Option<NodeEdgeWithDepth<Index>> {
        self.walk.pending()
    }

    /// A walk over `root` and its descendants.
    pub fn new(root: Index) -> (r: Self)
        ensures
            r.root() == root,
            r.pending() == Some(NodeEdgeWithDepth::Start(root, 0)),
    {
        DescendantsWithDepthIter { walk: TraverseWithDepthIter::new(root) }
    }

    /// Steps the walk past end edges, and yields the node and depth of the
    /// first start edge, or `None` when the walk is over.
    pub fn next<T>(&mut self, tree: &VecTree<T>) -> (r: Option<(Index, u32)>)
        requires
            tree.wf(),
        ensures
            final(self).root() == old(self).root(),
            exists|k: nat| #![trigger edge_steps_with_depth(tree, old(self).root(), old(self).pending(), k)] {
                &&& forall|i: nat| i < k ==> ends_a_node_with_depth(#[trigger] edge_steps_with_depth(tree, old(self).root(), old(self).pending(), i))
                &&& match edge_steps_with_depth(tree, old(self).root(), old(self).pending(), k) {
                    Some(NodeEdgeWithDepth::Start(x, d)) => r == Some((x, d)) && final(self).pending() == edge_steps_with_depth(
                        tree,
                        old(self).root(),
                        old(self).pending(),
                        k + 1,
                    ),
                    Some(NodeEdgeWithDepth::End(_, _)) => false,
                    None => r is None && final(self).pending() is None,
                }
            },
    {
        let ghost root = self.walk.root();
        let ghost e0 = self.walk.pending();
        let ghost mut k: nat = 0;
        loop
            invariant
                tree.wf(),
                root == old(self).walk.root(),
                e0 == old(self).walk.pending(),
                self.walk.root() == root,
                self.walk.pending() == edge_steps_with_depth(tree, root, e0, k),
                forall|i: nat| i < k ==> ends_a_node_with_depth(#[trigger] edge_steps_with_depth(tree, root, e0, i)),
            decreases
                match self.walk.pending() {
                    Some(NodeEdgeWithDepth::End(x, _)) => tree.ranked_above(x).len() + 1,
                    _ => 0,
                },
        {
            let ghost before = self.walk.pending();
            match self.walk.next(tree) {
                Some(NodeEdgeWithDepth::Start(x, d)) => {
                    proof {
                        assert(edge_steps_with_depth(tree, root, e0, k + 1) == tree.edge_after_with_depth(root, before));
                    }
                    return Some((x, d));
                },
                Some(NodeEdgeWithDepth::End(x, _)) => {
                    proof {
                        assert(edge_steps_with_depth(tree, root, e0, k + 1) == tree.edge_after_with_depth(root, before));
                        if x != root && tree.live().contains(x) && tree.next_sibling_of(x) is None && tree.parent_of(x) is Some {
                            tree.lemma_climb(x);
                        }
                        k = k + 1;
                    }
                },
                None => {
                    proof {
                        assert(tree.edge_after_with_depth(root, None) is None);
                    }
                    return None;
                },
            }
        }
    }
}

/// The children of a node, first to last, one at a time.
/// A node that no longer resolves ends the walk.
pub struct ChildrenIter {
    node_id: Option<Index>,
}

impl ChildrenIter {
    /// The node the next step yields.
    pub closed spec fn pending(&self) -> Option<Index> {
        self.node_id
    }

    /// A walk over the children of `h`; none if `h` does not resolve.
    pub fn new<T>(tree: &VecTree<T>, h: Index) -> (r: Self)
        requires
            tree.wf(),
        ensures
            r.pending() == (if tree.live().contains(h) && tree.children_of(h).len() > 0 { Some(tree.children_of(h)[0]) } else { None }),
    {
        let first = match tree.links(h) {
            Some(n) => n.first_child,
            None => None,
        };
        ChildrenIter { node_id: first }
    }

    /// Yields the pending node and moves on to the one after it in `tree`.
    pub fn next<T>(&mut self, tree: &VecTree<T>) -> (r: Option<Index>)
        requires
            tree.wf(),
        ensures
            r == old(self).pending(),
            final(self).pending() == (match old(self).pending() {
                Some(x) => if tree.live().contains(x) {
                    tree.next_sibling_of(x)
                } else {
                    None
                },
                None => None,
            }),
    {
        let item = self.node_id;
        self.node_id = match item {
            Some(x) => match tree.links(x) {
                Some(n) => n.next_sibling,
                None => None,
            },
            None => None,
        };
        item
    }
}

/// A node and then the siblings after it, one at a time.
/// A node that no longer resolves ends the walk.
pub struct FollowingSiblingsIter {
    node_id: Option<Index>,
}

impl FollowingSiblingsIter {
    /// The node the next step yields.
    pub closed spec fn pending(&self) -> Option<Index> {
        self.node_id
    }

    /// A walk that starts at `h`.
    pub fn new(h: Index) -> (r: Self)
        ensures
            r.pending() == Some(h),
    {
        FollowingSiblingsIter { node_id: Some(h) }
    }

    /// Yields the pending node and moves on to the one after it in `tree`.
    pub fn next<T>(&mut self, tree: &VecTree<T>) -> (r: Option<Index>)
        requires
            tree.wf(),
        ensures
            r == old(self).pending(),
            final(self).pending() == (match old(self).pending() {
                Some(x) => if tree.live().contains(x) {
                    tree.next_sibling_of(x)
                } else {
                    None
                },
                None => None,
            }),
    {
        let item = self.node_id;
        self.node_id = match item {
            Some(x) => match tree.links(x) {
                Some(n) => n.next_sibling,
                None => None,
            },
            None => None,
        };
        item
    }
}

/// A node and then the siblings before it, nearest first, one at a time.
/// A node that no longer resolves ends the walk.
pub struct PrecedingSiblingsIter {
    node_id: Option<Index>,
}

impl PrecedingSiblingsIter {
    /// The node the next step yields.
    pub closed spec fn pending(&self) -> Option<Index> {
        self.node_id
    }

    /// A walk that starts at `h`.
    pub fn new(h: Index) -> (r: Self)
        ensures
            r.pending() == Some(h),
    {
        PrecedingSiblingsIter { node_id: Some(h) }
    }

    /// Yields the pending node and moves on to the one after it in `tree`.
    pub fn next<T>(&mut self, tree: &VecTree<T>) -> (r: Option<Index>)
        requires
            tree.wf(),
        ensures
            r == old(self).pending(),
            final(self).pending() == (match old(self).pending() {
                Some(x) => if tree.live().contains(x) {
                    tree.previous_sibling_of(x)
                } else {
                    None
                },
                None => None,
            }),
    {
        let item = self.node_id;
        self.node_id = match item {
            Some(x) => match tree.links(x) {
                Some(n) => n.previous_sibling,
                None => None,
            },
            None => None,
        };
        item
    }
}

/// A node and then its ancestors, nearest first, one at a time.
/// A node that no longer resolves ends the walk.
pub struct AncestorsIter {
    node_id: Option<Index>,
}

impl AncestorsIter {
    /// The node the next step yields.
    pub closed spec fn pending(&self) -> Option<Index> {
        self.node_id
    }

    /// A walk that starts at `h`.
    pub fn new(h: Index) -> (r: Self)
        ensures
            r.pending() == Some(h),
    {
        AncestorsIter { node_id: Some(h) }
    }

    /// Yields the pending node and moves on to the one after it in `tree`.
    pub fn next<T>(&mut self, tree: &VecTree<T>) -> (r: Option<Index>)
        requires
            tree.wf(),
        ensures
            r == old(self).pending(),
            final(self).pending() == (match old(self).pending() {
                Some(x) => if tree.live().contains(x) {
                    tree.parent_of(x)
                } else {
                    None
                },
                None => None,
            }),
    {
        let item = self.node_id;
        self.node_id = match item {
            Some(x) => match tree.links(x) {
                Some(n) => n.parent,
                None => None,
            },
            None => None,
        };
        item
    }
}

} // verus!
