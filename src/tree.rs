use crate::arena::{
    MAX_CAPACITY,
    arena_capacity, arena_capacity_of, arena_clear, arena_entries, arena_generation, arena_get,
    arena_get_mut, arena_insert, arena_remove, arena_reserve, arena_sound, arena_try_insert,
    arena_with_capacity, fresh_handle,
};
use crate::cursor::{TraverseIter, TraverseWithDepthIter};
use crate::index::Index;
use crate::shape::{
    child_ok, in_walk, lemma_step_across, lemma_step_down, lemma_step_leaf, lemma_step_up,
    lemma_nodes_of, lemma_walk_depths, lemma_walk_distinct, lemma_walks_nested, lemma_walk_facts, lemma_walk_frame, lemma_walk_start, links_ok, nodes_of, on_path, widen_depths, lemma_ranked_fits, lemma_up_path, ranks_after_link, rest_from_start,
    shape_ok, up_path, walk, walk_after,
};
use generational_arena::Arena;
use vstd::prelude::*;

verus! {

/// The links of one node: its parent, its neighbours in its parent's child list,
/// and the ends of its own child list.
#[derive(Clone, Copy, Debug, PartialEq, Eq, Structural)]
pub struct Node {
    pub parent: Option<Index>,
    pub previous_sibling: Option<Index>,
    pub next_sibling: Option<Index>,
    pub first_child: Option<Index>,
    pub last_child: Option<Index>,
}

/// A step of a depth-first walk: entering a node, or leaving it.
#[derive(Clone, Copy, Debug, PartialEq, Eq, Structural)]
pub enum NodeEdge<T> {
    /// Entering the node, before its descendants.
    Start(T),
    /// Leaving the node, after its descendants.
    End(T),
}

/// A step of a depth-first walk, with the depth of the node below the start.
#[derive(Clone, Copy, Debug, PartialEq, Eq, Structural)]
pub enum NodeEdgeWithDepth<T> {
    /// Entering the node, before its descendants.
    Start(T, u32),
    /// Leaving the node, after its descendants.
    End(T, u32),
}

/// Why `append_child` refused to link two nodes.
#[derive(Clone, Copy, Debug, PartialEq, Eq, Structural)]
pub enum AppendError {
    /// The parent handle does not resolve to a node of this tree.
    InvalidParent,
    /// The child handle does not resolve to a node of this tree.
    InvalidChild,
    /// The parent is the child itself or one of its descendants.
    WouldCycle,
    /// The child is the designated root, which stays parentless.
    ChildIsRoot,
}

/// A tree whose nodes live in a generational arena.
///
/// The arena holds each node's links; the payloads sit beside it, one cell per
/// slot. A ghost map keeps each node's child list, and a ghost rank that falls
/// from parent to child keeps the links free of cycles.
pub struct VecTree<T> {
    nodes: Arena<Node>,
    values: Vec<Option<T>>,
    root_index: Option<Index>,
    kids: Ghost<Map<Index, Seq<Index>>>,
    rank: Ghost<Map<Index, nat>>,
}

/// The number of nodes that `new` makes room for.
pub const DEFAULT_CAPACITY: usize = 4;

impl<T> Default for VecTree<T> {
    /// An empty tree with room for a few nodes, as `new` makes it.
    fn default() -> (r: Self)
        ensures
            r.wf(),
            r.live().is_empty(),
            r.root() is None,
            r.capacity_spec() == DEFAULT_CAPACITY,
            r.generation() == 0,
    {
        VecTree::with_capacity(DEFAULT_CAPACITY)
    }
}

/// The links of a node that has just been stored: none at all.
pub open spec fn detached_node() -> Node {
    Node {
        parent: None,
        previous_sibling: None,
        next_sibling: None,
        first_child: None,
        last_child: None,
    }
}

impl<T> VecTree<T> {
    /// The link records of the live nodes.
    pub closed spec fn entries(&self) -> Map<Index, Node> {
        arena_entries(self.nodes)
    }

    /// The handles that resolve to a node.
    pub closed spec fn live(&self) -> Set<Index> {
        self.entries().dom()
    }

    /// The payload of a live node.
    pub closed spec fn value(&self, h: Index) -> T {
        self.values@[h.slot as int]->Some_0
    }

    /// The parent of a live node.
    pub closed spec fn parent_of(&self, h: Index) -> Option<Index> {
        self.entries()[h].parent
    }

    /// Each live node's children, in the order they were appended.
    pub closed spec fn child_lists(&self) -> Map<Index, Seq<Index>> {
        self.kids@
    }

    /// A rank for each live node, higher than the ranks of its children.
    pub closed spec fn ranks(&self) -> Map<Index, nat> {
        self.rank@
    }

    /// The children of a live node, in the order they were appended.
    pub open spec fn children_of(&self, h: Index) -> Seq<Index> {
        self.child_lists()[h]
    }

    /// The designated root, if there is one.
    pub closed spec fn root(&self) -> Option<Index> {
        self.root_index
    }

    /// The number of nodes the tree holds without growing.
    pub closed spec fn capacity_spec(&self) -> nat {
        arena_capacity(self.nodes)
    }

    /// The generation that the next stored node gets.
    pub closed spec fn generation(&self) -> nat {
        arena_generation(self.nodes)
    }

    /// The node `h` and its descendants in depth-first pre-order, each with its
    /// depth below `h`.
    pub open spec fn subtree(&self, h: Index) -> Seq<(Index, int)> {
        walk(self.child_lists(), self.ranks(), h, 0)
    }

    /// The node `h` and its descendants in depth-first pre-order.
    pub open spec fn subtree_nodes(&self, h: Index) -> Seq<Index> {
        nodes_of(self.subtree(h))
    }

    /// The number of live nodes.
    pub open spec fn len_spec(&self) -> nat {
        self.live().len()
    }

    /// The links agree with the ghost child lists, every live node has a
    /// payload, and the root, if any, has no parent.
    pub closed spec fn wf(&self) -> bool {
        let e = self.entries();
        let k = self.kids@;
        let r = self.rank@;
        &&& arena_sound(self.nodes)
        &&& arena_capacity(self.nodes) >= 1
        &&& k.dom() == e.dom()
        &&& forall|h: Index| #[trigger]
            e.contains_key(h) ==> {
                &&& (h.slot as int) < self.values@.len()
                &&& self.values@[h.slot as int] is Some
                &&& links_ok(e, k, r, h)
                &&& e[h].parent is Some ==> e.contains_key(e[h].parent->Some_0) && k[e[h].parent->Some_0].contains(h)
                &&& e[h].parent is None ==> e[h].previous_sibling is None && e[h].next_sibling is None
            }
        &&& self.root_index is Some ==> e.contains_key(self.root_index->Some_0)
            && e[self.root_index->Some_0].parent is None
    }

    /// The same live nodes as `other`, with the same payloads, parents and
    /// children, and the same root.
    pub closed spec fn same_tree(&self, other: &Self) -> bool {
        &&& self.entries() == other.entries()
        &&& self.kids@ == other.kids@
        &&& self.rank@ == other.rank@
        &&& self.root_index == other.root_index
        &&& forall|h: Index| #[trigger]
            self.entries().contains_key(h) ==> self.values@[h.slot as int] == other.values@[h.slot as int]
    }

    /// Constructs a new, empty tree.
    pub fn new() -> (r: VecTree<T>)
        ensures
            r.wf(),
            r.live().is_empty(),
            r.root() is None,
            r.capacity_spec() == DEFAULT_CAPACITY,
            r.generation() == 0,
    {
        VecTree::with_capacity(DEFAULT_CAPACITY)
    }

    /// Constructs a new, empty tree that holds `n` nodes (at least one) without
    /// growing.
    pub fn with_capacity(n: usize) -> (r: VecTree<T>)
        requires
            n <= MAX_CAPACITY,
        ensures
            r.wf(),
            r.live().is_empty(),
            r.root() is None,
            r.capacity_spec() == (if n == 0 { 1 } else { n as nat }),
            r.generation() == 0,
    {
        VecTree {
            nodes: arena_with_capacity(n),
            values: Vec::new(),
            root_index: None,
            kids: Ghost(Map::empty()),
            rank: Ghost(Map::empty()),
        }
    }

    /// Makes room for `additional_capacity` more nodes.
    pub fn reserve(&mut self, additional_capacity: usize)
        requires
            old(self).wf(),
            old(self).capacity_spec() + additional_capacity <= MAX_CAPACITY,
        ensures
            final(self).wf(),
            final(self).capacity_spec() == old(self).capacity_spec() + additional_capacity,
            final(self).same_tree(old(self)),
            final(self).generation() == old(self).generation(),
    {
        if additional_capacity > 0 {
            arena_reserve(&mut self.nodes, additional_capacity);
        }
    }

    /// The payload of a node that resolves.
    pub fn index(&self, h: Index) -> (r: &T)
        requires
            self.wf(),
            self.live().contains(h),
        ensures
            *r == self.value(h),
    {
        proof {
            assert(self.entries().contains_key(h));
        }
        self.values[h.slot].as_ref().unwrap()
    }

    /// The number of nodes the tree holds without growing.
    pub fn capacity(&self) -> (r: usize)
        ensures
            r == self.capacity_spec(),
    {
        arena_capacity_of(&self.nodes)
    }

    /// Whether `h` resolves to a node of this tree.
    pub fn contains(&self, h: Index) -> (r: bool)
        ensures
            r == self.live().contains(h),
    {
        arena_get(&self.nodes, h).is_some()
    }

    /// The payload of `h`, if `h` resolves.
    pub fn get(&self, h: Index) -> (r: Option<&T>)
        requires
            self.wf(),
        ensures
            r is Some <==> self.live().contains(h),
            r is Some ==> *r->Some_0 == self.value(h),
    {
        if arena_get(&self.nodes, h).is_none() {
            return None;
        }
        match &self.values[h.slot] {
            Some(v) => Some(v),
            None => None,
        }
    }

    /// The payload of `h`, to change in place, if `h` resolves.
    pub fn get_mut(&mut self, h: Index) -> (r: Option<&mut T>)
        requires
            old(self).wf(),
        ensures
            r is Some <==> old(self).live().contains(h),
            r is None ==> *final(self) == *old(self),
            r is Some ==> *r->Some_0 == old(self).value(h),
            r is Some ==> final(self).wf(),
            r is Some ==> final(self).live() == old(self).live(),
            r is Some ==> forall|x: Index| #[trigger] old(self).live().contains(x) ==> final(self).parent_of(x) == old(self).parent_of(x) && final(self).children_of(x) == old(self).children_of(x),
            r is Some ==> final(self).root() == old(self).root(),
            r is Some ==> final(self).generation() == old(self).generation(),
            r is Some ==> final(self).capacity_spec() == old(self).capacity_spec(),
            r is Some ==> final(self).value(h) == *final(r->Some_0),
            r is Some ==> forall|x: Index| x != h && #[trigger] old(self).live().contains(x) ==> final(self).value(x) == old(self).value(x),
    {
        if arena_get(&self.nodes, h).is_none() {
            return None;
        }
        proof {
            assert(self.entries().contains_key(h));
        }
        self.values[h.slot].as_mut()
    }

    /// `self` is `old` with `h` taken out of its parent's child list, and
    /// nothing else changed.
    pub open spec fn is_detached_from(&self, old: &Self, h: Index) -> bool {
        let p = old.parent_of(h)->Some_0;
        &&& self.live() == old.live()
        &&& self.root() == old.root()
        &&& self.generation() == old.generation()
        &&& self.capacity_spec() == old.capacity_spec()
        &&& self.parent_of(h) is None
        &&& self.children_of(p) == old.children_of(p).remove(old.children_of(p).index_of(h))
        &&& forall|x: Index| #[trigger]
            self.parent_of(x) != old.parent_of(x) && old.live().contains(x) ==> x == h
        &&& forall|x: Index| #[trigger]
            self.children_of(x) != old.children_of(x) && old.live().contains(x) ==> x == p
        &&& forall|x: Index| old.live().contains(x) ==> #[trigger] self.value(x) == old.value(x)
    }

    /// What `detach(h)` makes of `old`: `h` taken out of its parent's child
    /// list, or nothing changed when `h` has no parent or does not resolve.
    pub open spec fn detach_result(&self, old: &Self, h: Index) -> bool {
        if old.live().contains(h) && old.parent_of(h) is Some {
            self.is_detached_from(old, h)
        } else {
            *self == *old
        }
    }

    /// Overwrites the links of the live node `k`.
    fn set_node(&mut self, k: Index, n: Node)
        requires
            arena_entries(old(self).nodes).contains_key(k),
        ensures
            arena_entries(final(self).nodes) == arena_entries(old(self).nodes).insert(k, n),
            arena_sound(final(self).nodes),
            arena_capacity(final(self).nodes) == arena_capacity(old(self).nodes),
            arena_generation(final(self).nodes) == arena_generation(old(self).nodes),
            final(self).values == old(self).values,
            final(self).root_index == old(self).root_index,
            final(self).kids == old(self).kids,
            final(self).rank == old(self).rank,
    {
        match arena_get_mut(&mut self.nodes, k) {
            Some(slot) => {
                *slot = n;
            },
            None => {},
        }
    }

    /// Takes `h` out of its parent's child list; its own subtree goes with it.
    /// A node without a parent, or a handle that does not resolve, is left alone.
    pub fn detach(&mut self, h: Index)
        requires
            old(self).wf(),
        ensures
            final(self).wf(),
            final(self).detach_result(old(self), h),
            old(self).live().contains(h) ==> final(self).subtree(h) == old(self).subtree(h),
    {
        let ghost t0 = *self;
        self.unlink(h);
        proof {
            if t0.live().contains(h) && t0.parent_of(h) is Some {
                let p = t0.parent_of(h)->Some_0;
                t0.lemma_shape();
                lemma_walk_facts(t0.entries(), t0.kids@, t0.rank@, h, 0);
                assert(t0.live().contains(p));
                assert(t0.kids@[p].contains(h));
                let j = t0.kids@[p].index_of(h);
                assert(links_ok(t0.entries(), t0.kids@, t0.rank@, p));
                assert(child_ok(t0.entries(), t0.rank@, p, t0.kids@[p], j));
                assert(!in_walk(t0.subtree(h), p));
                assert forall|x: Index| #[trigger] in_walk(walk(t0.kids@, t0.rank@, h, 0), x) implies self.kids@[x] == t0.kids@[x] && self.rank@[x] == t0.rank@[x] by {
                    assert(t0.live().contains(x));
                    assert(self.children_of(x) == t0.children_of(x));
                }
                lemma_walk_frame(t0.entries(), t0.kids@, self.kids@, t0.rank@, self.rank@, h, 0);
            }
        }
    }

    /// What `wf` says of the shape, for callers: child lists have no repeats and
    /// their members are live and point back at the parent; a live node with a
    /// parent is in that parent's child list; the root has no parent.
    pub proof fn lemma_shape_facts(&self, h: Index)
        requires
            self.wf(),
            self.live().contains(h),
        ensures
            self.children_of(h).no_duplicates(),
            forall|j: int| 0 <= j < self.children_of(h).len() ==> self.live().contains(#[trigger] self.children_of(h)[j])
                && self.parent_of(self.children_of(h)[j]) == Some(h),
            self.parent_of(h) is Some ==> self.live().contains(self.parent_of(h)->Some_0)
                && self.children_of(self.parent_of(h)->Some_0).contains(h),
            self.root() is Some ==> self.live().contains(self.root()->Some_0) && self.parent_of(self.root()->Some_0) is None,
    {
        let e = self.entries();
        assert(e.contains_key(h));
        assert(links_ok(e, self.kids@, self.rank@, h));
        assert forall|j: int| 0 <= j < self.children_of(h).len() implies self.live().contains(#[trigger] self.children_of(h)[j])
                && self.parent_of(self.children_of(h)[j]) == Some(h) by {
            assert(child_ok(e, self.rank@, h, self.kids@[h], j));
        }
    }

    /// `detach`, also promising that the ranks stay as they were.
    fn unlink(&mut self, h: Index)
        requires
            old(self).wf(),
        ensures
            final(self).wf(),
            final(self).rank == old(self).rank,
            old(self).live().contains(h) && old(self).parent_of(h) is Some ==> final(self).is_detached_from(old(self), h),
            !(old(self).live().contains(h) && old(self).parent_of(h) is Some) ==> *final(self) == *old(self),
    {
        let node = match arena_get(&self.nodes, h) {
            Some(n) => n,
            None => return ,
        };
        let p = match node.parent {
            Some(p) => p,
            None => return ,
        };
        let ghost e0 = self.entries();
        let ghost k0 = self.kids@;
        let ghost r0 = self.rank@;
        let ghost cs = k0[p];
        let ghost i = cs.index_of(h);
        proof {
            assert(e0.contains_key(h));
            assert(e0.contains_key(p));
            assert(cs.contains(h));
            assert(links_ok(e0, k0, r0, p));
            assert(child_ok(e0, r0, p, cs, i));
        }
        self.set_node(h, Node { parent: None, previous_sibling: None, next_sibling: None, ..node });
        match node.next_sibling {
            Some(n) => {
                proof {
                    assert(child_ok(e0, r0, p, cs, i + 1));
                }
                let nn = arena_get(&self.nodes, n).unwrap();
                self.set_node(n, Node { previous_sibling: node.previous_sibling, ..nn });
            },
            None => {
                let pn = arena_get(&self.nodes, p).unwrap();
                self.set_node(p, Node { last_child: node.previous_sibling, ..pn });
            },
        }
        match node.previous_sibling {
            Some(q) => {
                proof {
                    assert(child_ok(e0, r0, p, cs, i - 1));
                }
                let qn = arena_get(&self.nodes, q).unwrap();
                self.set_node(q, Node { next_sibling: node.next_sibling, ..qn });
            },
            None => {
                let pn = arena_get(&self.nodes, p).unwrap();
                self.set_node(p, Node { first_child: node.next_sibling, ..pn });
            },
        }
        self.kids = Ghost(k0.insert(p, cs.remove(i)));
        proof {
            let e = self.entries();
            assert(links_ok(e0, k0, r0, p));
            if i > 0 { assert(child_ok(e0, r0, p, cs, i - 1)); }
            if i + 1 < cs.len() { assert(child_ok(e0, r0, p, cs, i + 1)); }
            assert(e.dom() == e0.dom());
            assert(e[h] == Node { parent: None, previous_sibling: None, next_sibling: None, ..e0[h] });
            assert(e[p] == Node {
                    first_child: if i == 0 { if i + 1 < cs.len() { Some(cs[i + 1]) } else { None } } else { e0[p].first_child },
                    last_child: if i + 1 == cs.len() { if i > 0 { Some(cs[i - 1]) } else { None } } else { e0[p].last_child },
                    ..e0[p]
                });
            assert(i > 0 ==> e[cs[i - 1]] == Node { next_sibling: e0[h].next_sibling, ..e0[cs[i - 1]] });
            assert(i + 1 < cs.len() ==> e[cs[i + 1]] == Node { previous_sibling: e0[h].previous_sibling, ..e0[cs[i + 1]] });
            self.lemma_unlinked_wf(e0, k0, h, p, i);
        }
    }

    proof fn lemma_unlinked_wf(&self, e0: Map<Index, Node>, k0: Map<Index, Seq<Index>>, h: Index, p: Index, i: int)
        requires
            ({
                let cs = k0[p];
                let e = self.entries();
                &&& arena_sound(self.nodes)
                &&& arena_capacity(self.nodes) >= 1
                &&& k0.dom() == e0.dom()
                &&& e.dom() == e0.dom()
                &&& e0.contains_key(h)
                &&& e0.contains_key(p)
                &&& 0 <= i < cs.len()
                &&& cs[i] == h
                &&& links_ok(e0, k0, self.rank@, p)
                &&& forall|x: Index| #[trigger] e0.contains_key(x) ==> {
                    &&& (x.slot as int) < self.values@.len()
                    &&& self.values@[x.slot as int] is Some
                    &&& links_ok(e0, k0, self.rank@, x)
                    &&& e0[x].parent is Some ==> e0.contains_key(e0[x].parent->Some_0) && k0[e0[x].parent->Some_0].contains(x)
                    &&& e0[x].parent is None ==> e0[x].previous_sibling is None && e0[x].next_sibling is None
                }
                &&& self.root_index is Some ==> e0.contains_key(self.root_index->Some_0)
                    && e0[self.root_index->Some_0].parent is None
                &&& self.kids@ == k0.insert(p, cs.remove(i))
                &&& e[h] == Node { parent: None, previous_sibling: None, next_sibling: None, ..e0[h] }
                &&& e[p] == Node {
                    first_child: if i == 0 { if i + 1 < cs.len() { Some(cs[i + 1]) } else { None } } else { e0[p].first_child },
                    last_child: if i + 1 == cs.len() { if i > 0 { Some(cs[i - 1]) } else { None } } else { e0[p].last_child },
                    ..e0[p]
                }
                &&& i > 0 ==> e[cs[i - 1]] == Node { next_sibling: e0[h].next_sibling, ..e0[cs[i - 1]] }
                &&& i + 1 < cs.len() ==> e[cs[i + 1]] == Node { previous_sibling: e0[h].previous_sibling, ..e0[cs[i + 1]] }
                &&& forall|x: Index| #[trigger] e0.contains_key(x) && x != h && x != p && (i == 0 || x != cs[i - 1]) && (i + 1 >= cs.len() || x != cs[i + 1]) ==> e[x] == e0[x]
            }),
        ensures
            self.wf(),
    {
        let cs = k0[p];
        let cs1 = cs.remove(i);
        let e = self.entries();
        let k = self.kids@;
        let r = self.rank@;
        cs.remove_ensures(i);
        assert(child_ok(e0, r, p, cs, i));
        assert forall|x: Index| #[trigger] e.contains_key(x) implies links_ok(e, k, r, x) by {
            assert(links_ok(e0, k0, r, x));
            if x == p {
                assert(cs1.no_duplicates()) by {
                    assert forall|a: int, b: int| 0 <= a < b < cs1.len() implies cs1[a] != cs1[b] by {
                        let a0 = if a < i { a } else { a + 1 };
                        let b0 = if b < i { b } else { b + 1 };
                        assert(cs1[a] == cs[a0] && cs1[b] == cs[b0]);
                    }
                }
                assert forall|j: int| 0 <= j < cs1.len() implies #[trigger] child_ok(e, r, p, cs1, j) by {
                    let j0 = if j < i { j } else { j + 1 };
                    assert(child_ok(e0, r, p, cs, j0));
                    if j0 > 0 {
                        assert(child_ok(e0, r, p, cs, j0 - 1));
                    }
                    if j0 + 1 < cs.len() {
                        assert(child_ok(e0, r, p, cs, j0 + 1));
                    }
                }
            } else {
                let xs = k0[x];
                assert forall|j: int| 0 <= j < xs.len() implies #[trigger] child_ok(e, r, x, xs, j) by {
                    assert(child_ok(e0, r, x, xs, j));
                    let c = xs[j];
                    if c == h || (i > 0 && c == cs[i - 1]) || (i + 1 < cs.len() && c == cs[i + 1]) {
                        if i > 0 {
                            assert(child_ok(e0, r, p, cs, i - 1));
                        }
                        if i + 1 < cs.len() {
                            assert(child_ok(e0, r, p, cs, i + 1));
                        }
                        assert(false);
                    }
                }
            }
        }
        assert forall|x: Index| #[trigger] e.contains_key(x) && e[x].parent is Some implies e.contains_key(e[x].parent->Some_0) && k[e[x].parent->Some_0].contains(x) by {
            let q = e0[x].parent->Some_0;
            assert(k0[q].contains(x));
            if q == p && x != h {
                let j = cs.index_of(x);
                assert(cs[j] == x);
                assert(j != i);
                let j1 = if j < i { j } else { j - 1 };
                assert(cs1[j1] == x);
            }
            if i > 0 {
                assert(child_ok(e0, r, p, cs, i - 1));
            }
            if i + 1 < cs.len() {
                assert(child_ok(e0, r, p, cs, i + 1));
            }
        }
        assert forall|x: Index| #[trigger] e.contains_key(x) && e[x].parent is None implies e[x].previous_sibling is None && e[x].next_sibling is None by {
            if i > 0 {
                assert(child_ok(e0, r, p, cs, i - 1));
            }
            if i + 1 < cs.len() {
                assert(child_ok(e0, r, p, cs, i + 1));
            }
        }
        assert(k.dom() =~= e.dom());
    }

    /// Links the parentless node `c` as the last child of `p`. `sub` holds `c`
    /// and what lies below it, and not `p`.
    fn link_last(&mut self, p: Index, c: Index, Ghost(sub): Ghost<Set<Index>>)
        requires
            old(self).wf(),
            old(self).live().contains(p),
            old(self).live().contains(c),
            old(self).parent_of(c) is None,
            old(self).root() != Some(c),
            sub.contains(c),
            !sub.contains(p),
            forall|x: Index, j: int| #[trigger] old(self).live().contains(x) && 0 <= j < old(self).kids@[x].len() ==>
                (sub.contains(x) <==> #[trigger] sub.contains(old(self).kids@[x][j])),
        ensures
            final(self).wf(),
            final(self).live() == old(self).live(),
            final(self).root() == old(self).root(),
            final(self).generation() == old(self).generation(),
            final(self).capacity_spec() == old(self).capacity_spec(),
            final(self).kids@ == old(self).kids@.insert(p, old(self).kids@[p].push(c)),
            final(self).parent_of(c) == Some(p),
            forall|x: Index| #[trigger] old(self).live().contains(x) && x != c ==> final(self).parent_of(x) == old(self).parent_of(x),
            forall|x: Index| #[trigger] old(self).live().contains(x) ==> final(self).value(x) == old(self).value(x),
            final(self).values == old(self).values,
            final(self).rank@ == ranks_after_link(old(self).rank@, sub, c),
    {
        let ghost e0 = self.entries();
        let ghost k0 = self.kids@;
        let ghost r0 = self.rank@;
        let ghost cs = k0[p];
        proof {
            assert(e0.contains_key(p));
            assert(e0.contains_key(c));
            assert(links_ok(e0, k0, r0, p));
            if cs.contains(c) {
                let j = cs.index_of(c);
                assert(child_ok(e0, r0, p, cs, j));
            }
            if cs.len() > 0 {
                assert(child_ok(e0, r0, p, cs, cs.len() - 1));
            }
        }
        let pn = arena_get(&self.nodes, p).unwrap();
        let last = pn.last_child;
        let first = match last {
            Some(_) => pn.first_child,
            None => Some(c),
        };
        self.set_node(p, Node { first_child: first, last_child: Some(c), ..pn });
        let cn = arena_get(&self.nodes, c).unwrap();
        self.set_node(c, Node { parent: Some(p), previous_sibling: last, ..cn });
        match last {
            Some(l) => {
                let ln = arena_get(&self.nodes, l).unwrap();
                self.set_node(l, Node { next_sibling: Some(c), ..ln });
            },
            None => {},
        }
        let ghost cs1 = cs.push(c);
        self.kids = Ghost(k0.insert(p, cs1));
        self.rank = Ghost(ranks_after_link(r0, sub, c));
        proof {
            let e = self.entries();
            let k = self.kids@;
            let r = self.rank@;
            assert(k.dom() =~= e.dom());
            assert forall|x: Index| #[trigger] e.contains_key(x) implies links_ok(e, k, r, x) by {
                assert(links_ok(e0, k0, r0, x));
                if x == p {
                    assert forall|j: int| 0 <= j < cs1.len() implies #[trigger] child_ok(e, r, p, cs1, j) by {
                        if j < cs.len() {
                            assert(child_ok(e0, r0, p, cs, j));
                            assert(!sub.contains(cs[j]));
                        }
                    }
                } else {
                    let xs = k0[x];
                    assert forall|j: int| 0 <= j < xs.len() implies #[trigger] child_ok(e, r, x, xs, j) by {
                        assert(child_ok(e0, r0, x, xs, j));
                        assert(sub.contains(x) <==> sub.contains(xs[j]));
                    }
                }
            }
            assert forall|x: Index| #[trigger] e.contains_key(x) && e[x].parent is Some implies e.contains_key(e[x].parent->Some_0) && k[e[x].parent->Some_0].contains(x) by {
                if x == c {
                    assert(cs1[cs.len() as int] == c);
                } else {
                    let q = e0[x].parent->Some_0;
                    assert(k0[q].contains(x));
                    if q == p {
                        let j = cs.index_of(x);
                        assert(cs1[j] == x);
                    }
                }
            }
            assert forall|x: Index| #[trigger] e.contains_key(x) && e[x].parent is None implies e[x].previous_sibling is None && e[x].next_sibling is None by {
                assert(e0.contains_key(x));
            }
            assert forall|x: Index| #[trigger] e.contains_key(x) implies (x.slot as int) < self.values@.len() && self.values@[x.slot as int] is Some by {
                assert(e0.contains_key(x));
            }
        }
    }

    /// `self` is `old` with one more node `r`, holding `data`, last child of
    /// `parent` or parentless when `parent` is `None`; nothing else changed.
    pub open spec fn is_insertion(&self, old: &Self, r: Index, data: T, parent: Option<Index>) -> bool {
        &&& !old.live().contains(r)
        &&& r.generation == old.generation()
        &&& self.live() == old.live().insert(r)
        &&& self.value(r) == data
        &&& self.parent_of(r) == parent
        &&& self.children_of(r).len() == 0
        &&& self.generation() == old.generation()
        &&& forall|x: Index| old.live().contains(x) ==> #[trigger] self.value(x) == old.value(x)
        &&& forall|x: Index| old.live().contains(x) ==> #[trigger] self.parent_of(x) == old.parent_of(x)
        &&& forall|x: Index| old.live().contains(x) && Some(x) != parent ==> #[trigger] self.children_of(x) == old.children_of(x)
        &&& parent is Some ==> self.children_of(parent->Some_0) == old.children_of(parent->Some_0).push(r)
    }

    /// An insertion that grows the tree keeps it within `MAX_CAPACITY` slots.
    pub open spec fn can_grow(&self) -> bool {
        self.len_spec() < self.capacity_spec() || 2 * self.capacity_spec() <= MAX_CAPACITY
    }

    /// The capacity after an insertion that may grow the tree: unchanged while
    /// a slot is free, else doubled.
    pub open spec fn grown_capacity(&self) -> nat {
        if self.len_spec() < self.capacity_spec() {
            self.capacity_spec()
        } else if self.capacity_spec() == 0 {
            1
        } else {
            2 * self.capacity_spec()
        }
    }

    /// Stores `data` under the arena handle `k` that was just given out.
    fn store_value(&mut self, k: Index, data: T)
        ensures
            final(self).values@.len() > k.slot,
            final(self).values@[k.slot as int] == Some(data),
            forall|j: int| 0 <= j < old(self).values@.len() && j != k.slot ==> #[trigger] final(self).values@[j] == old(self).values@[j],
            final(self).values@.len() >= old(self).values@.len(),
            final(self).nodes == old(self).nodes,
            final(self).root_index == old(self).root_index,
            final(self).kids == old(self).kids,
            final(self).rank == old(self).rank,
    {
        while self.values.len() <= k.slot
            invariant
                self.values@.len() >= old(self).values@.len(),
                forall|j: int| 0 <= j < old(self).values@.len() ==> #[trigger] self.values@[j] == old(self).values@[j],
                self.nodes == old(self).nodes,
                self.root_index == old(self).root_index,
                self.kids == old(self).kids,
                self.rank == old(self).rank,
            decreases k.slot + 1 - self.values@.len(),
        {
            self.values.push(None);
        }
        self.values[k.slot] = Some(data);
    }

    /// Makes the parentless, childless node `k` that the arena just stored hold `data`.
    proof fn lemma_created_wf(&self, prev: &Self, k: Index)
        requires
            prev.wf(),
            arena_sound(self.nodes),
            arena_capacity(self.nodes) >= 1,
            fresh_handle(prev.nodes, k),
            arena_entries(self.nodes) == arena_entries(prev.nodes).insert(k, detached_node()),
            self.values@.len() > k.slot,
            self.values@[k.slot as int] is Some,
            self.values@.len() >= prev.values@.len(),
            forall|j: int| 0 <= j < prev.values@.len() && j != k.slot ==> #[trigger] self.values@[j] == prev.values@[j],
            self.root_index == prev.root_index,
            self.kids@ == prev.kids@.insert(k, Seq::empty()),
            self.rank == prev.rank,
        ensures
            self.wf(),
            forall|x: Index| prev.live().contains(x) ==> #[trigger] self.value(x) == prev.value(x),
    {
        let e0 = prev.entries();
        let e = self.entries();
        let k0 = prev.kids@;
        let kk = self.kids@;
        let r = self.rank@;
        assert(kk.dom() =~= e.dom());
        assert(!e0.contains_key(k));
        assert forall|x: Index| #[trigger] e.contains_key(x) implies links_ok(e, kk, r, x) by {
            if x != k {
                assert(links_ok(e0, k0, r, x));
                let xs = k0[x];
                assert forall|j: int| 0 <= j < xs.len() implies #[trigger] child_ok(e, r, x, xs, j) by {
                    assert(child_ok(e0, r, x, xs, j));
                }
            }
        }
        assert forall|x: Index| #[trigger] e.contains_key(x) && e[x].parent is Some implies e.contains_key(e[x].parent->Some_0) && kk[e[x].parent->Some_0].contains(x) by {
            assert(e0.contains_key(x));
        }
        assert forall|x: Index| #[trigger] e.contains_key(x) implies (x.slot as int) < self.values@.len() && self.values@[x.slot as int] is Some by {
            if x != k {
                assert(e0.contains_key(x));
                assert(x.slot != k.slot);
                assert(self.values@[x.slot as int] == prev.values@[x.slot as int]);
            }
        }
        assert forall|x: Index| prev.live().contains(x) implies #[trigger] self.value(x) == prev.value(x) by {
            assert(e0.contains_key(x));
            assert(x.slot != k.slot);
            assert(self.values@[x.slot as int] == prev.values@[x.slot as int]);
        }
    }

    proof fn lemma_same_but_root(&self, prev: &Self)
        requires
            prev.wf(),
            self.nodes == prev.nodes,
            self.values == prev.values,
            self.kids == prev.kids,
            self.rank == prev.rank,
            self.root_index is Some,
            prev.live().contains(self.root_index->Some_0),
            prev.parent_of(self.root_index->Some_0) is None,
        ensures
            self.wf(),
            self.live() == prev.live(),
            self.generation() == prev.generation(),
            self.capacity_spec() == prev.capacity_spec(),
            forall|x: Index| #[trigger] self.value(x) == prev.value(x),
            forall|x: Index| #[trigger] self.parent_of(x) == prev.parent_of(x),
            forall|x: Index| #[trigger] self.children_of(x) == prev.children_of(x),
    {
        assert forall|x: Index| #[trigger] self.entries().contains_key(x) implies prev.entries().contains_key(x) by {}
    }

    proof fn lemma_created_links(&self, prev: &Self, k: Index)
        requires
            !prev.live().contains(k),
            arena_entries(self.nodes) == arena_entries(prev.nodes).insert(k, detached_node()),
            self.kids@ == prev.kids@.insert(k, Seq::empty()),
        ensures
            forall|x: Index| prev.live().contains(x) ==> #[trigger] self.parent_of(x) == prev.parent_of(x),
            forall|x: Index| prev.live().contains(x) ==> #[trigger] self.children_of(x) == prev.children_of(x),
            self.parent_of(k) is None,
            self.children_of(k).len() == 0,
    {
        assert forall|x: Index| prev.live().contains(x) implies #[trigger] self.parent_of(x) == prev.parent_of(x) by {
            assert(x != k);
        }
        assert forall|x: Index| prev.live().contains(x) implies #[trigger] self.children_of(x) == prev.children_of(x) by {
            assert(x != k);
        }
    }

    /// Stores `data` in a new parentless node, growing the tree if it is full.
    fn create_node(&mut self, data: T) -> (r: Index)
        requires
            old(self).wf(),
            old(self).can_grow(),
        ensures
            final(self).wf(),
            final(self).is_insertion(old(self), r, data, None),
            final(self).kids@ == old(self).kids@.insert(r, Seq::empty()),
            final(self).capacity_spec() == old(self).grown_capacity(),
            final(self).root() == old(self).root(),
    {
        let k = arena_insert(&mut self.nodes, Node { parent: None, previous_sibling: None, next_sibling: None, first_child: None, last_child: None });
        self.store_value(k, data);
        self.kids = Ghost(self.kids@.insert(k, Seq::empty()));
        proof {
            self.lemma_created_wf(old(self), k);
            assert(self.live() =~= old(self).live().insert(k));
            self.lemma_created_links(old(self), k);
        }
        k
    }

    /// Stores `data` in a new parentless node if a slot is free.
    fn try_create_node(&mut self, data: T) -> (r: Result<Index, T>)
        requires
            old(self).wf(),
        ensures
            final(self).wf(),
            r is Err <==> old(self).len_spec() == old(self).capacity_spec(),
            r is Err ==> r->Err_0 == data && *final(self) == *old(self),
            r is Ok ==> final(self).is_insertion(old(self), r->Ok_0, data, None),
            r is Ok ==> final(self).kids@ == old(self).kids@.insert(r->Ok_0, Seq::empty()),
            r is Ok ==> final(self).capacity_spec() == old(self).capacity_spec(),
            final(self).root() == old(self).root(),
    {
        match arena_try_insert(&mut self.nodes, Node { parent: None, previous_sibling: None, next_sibling: None, first_child: None, last_child: None }) {
            Ok(k) => {
                self.store_value(k, data);
                self.kids = Ghost(self.kids@.insert(k, Seq::empty()));
                proof {
                    self.lemma_created_wf(old(self), k);
                    assert(self.live() =~= old(self).live().insert(k));
                    self.lemma_created_links(old(self), k);
                }
                Ok(k)
            },
            Err(_) => Err(data),
        }
    }

    proof fn lemma_fresh_is_alone(&self, c: Index)
        requires
            self.wf(),
            self.live().contains(c),
            self.parent_of(c) is None,
            self.kids@[c].len() == 0,
        ensures
            forall|x: Index, j: int| #[trigger] self.live().contains(x) && 0 <= j < self.kids@[x].len() ==>
                (Set::empty().insert(c).contains(x) <==> #[trigger] Set::empty().insert(c).contains(self.kids@[x][j])),
    {
        assert forall|x: Index, j: int| #[trigger] self.live().contains(x) && 0 <= j < self.kids@[x].len() implies
                (Set::empty().insert(c).contains(x) <==> #[trigger] Set::empty().insert(c).contains(self.kids@[x][j])) by {
            assert(links_ok(self.entries(), self.kids@, self.rank@, x));
            assert(child_ok(self.entries(), self.rank@, x, self.kids@[x], j));
        }
    }

    /// Stores `data` as the last child of `parent`, growing the tree if it is full.
    pub fn insert(&mut self, data: T, parent: Index) -> (r: Index)
        requires
            old(self).wf(),
            old(self).can_grow(),
            old(self).live().contains(parent),
        ensures
            final(self).wf(),
            final(self).is_insertion(old(self), r, data, Some(parent)),
            final(self).capacity_spec() == old(self).grown_capacity(),
            final(self).root() == old(self).root(),
    {
        let c = self.create_node(data);
        proof {
            self.lemma_fresh_is_alone(c);
        }
        let ghost mid = *self;
        self.link_last(parent, c, Ghost(Set::empty().insert(c)));
        proof {
            assert(c != parent);
            assert(self.children_of(parent) == old(self).children_of(parent).push(c));
            assert(self.value(c) == data);
            assert(self.children_of(c).len() == 0);
            assert(self.live() == old(self).live().insert(c));
            assert forall|x: Index| old(self).live().contains(x) implies #[trigger] self.value(x) == old(self).value(x) by {
                assert(mid.live().contains(x));
            }
            assert forall|x: Index| old(self).live().contains(x) implies #[trigger] self.parent_of(x) == old(self).parent_of(x) by {
                assert(mid.live().contains(x));
            }
            assert forall|x: Index| old(self).live().contains(x) && Some(x) != Some(parent) implies #[trigger] self.children_of(x) == old(self).children_of(x) by {
                assert(mid.live().contains(x));
            }
        }
        c
    }

    /// Stores `data` as the last child of `parent` if a slot is free; hands
    /// `data` back, changing nothing, when the tree is full.
    pub fn try_insert(&mut self, data: T, parent: Index) -> (r: Result<Index, T>)
        requires
            old(self).wf(),
            old(self).live().contains(parent),
        ensures
            final(self).wf(),
            r is Err <==> old(self).len_spec() == old(self).capacity_spec(),
            r is Err ==> r->Err_0 == data && *final(self) == *old(self),
            r is Ok ==> final(self).is_insertion(old(self), r->Ok_0, data, Some(parent)),
            r is Ok ==> final(self).capacity_spec() == old(self).capacity_spec(),
            final(self).root() == old(self).root(),
    {
        match self.try_create_node(data) {
            Ok(c) => {
                proof {
                    self.lemma_fresh_is_alone(c);
                }
                let ghost mid = *self;
                self.link_last(parent, c, Ghost(Set::empty().insert(c)));
                proof {
                    assert forall|x: Index| old(self).live().contains(x) implies #[trigger] self.value(x) == old(self).value(x) by {
                        assert(mid.live().contains(x));
                    }
                    assert forall|x: Index| old(self).live().contains(x) implies #[trigger] self.parent_of(x) == old(self).parent_of(x) by {
                        assert(mid.live().contains(x));
                    }
                    assert forall|x: Index| old(self).live().contains(x) && Some(x) != Some(parent) implies #[trigger] self.children_of(x) == old(self).children_of(x) by {
                        assert(mid.live().contains(x));
                    }
                }
                Ok(c)
            },
            Err(data) => Err(data),
        }
    }

    /// Stores `data` as the root of the tree, growing the tree if it is full.
    pub fn insert_root(&mut self, data: T) -> (r: Index)
        requires
            old(self).wf(),
            old(self).can_grow(),
            old(self).root() is None,
        ensures
            final(self).wf(),
            final(self).is_insertion(old(self), r, data, None),
            final(self).capacity_spec() == old(self).grown_capacity(),
            final(self).root() == Some(r),
    {
        let c = self.create_node(data);
        let ghost mid = *self;
        self.root_index = Some(c);
        proof {
            self.lemma_same_but_root(&mid);
        }
        c
    }

    /// Stores `data` as the root of the tree if a slot is free; hands `data`
    /// back, changing nothing, when the tree is full.
    pub fn try_insert_root(&mut self, data: T) -> (r: Result<Index, T>)
        requires
            old(self).wf(),
            old(self).root() is None,
        ensures
            final(self).wf(),
            r is Err <==> old(self).len_spec() == old(self).capacity_spec(),
            r is Err ==> r->Err_0 == data && *final(self) == *old(self),
            r is Ok ==> final(self).is_insertion(old(self), r->Ok_0, data, None),
            r is Ok ==> final(self).capacity_spec() == old(self).capacity_spec(),
            r is Ok ==> final(self).root() == Some(r->Ok_0),
    {
        match self.try_create_node(data) {
            Ok(c) => {
                let ghost mid = *self;
                self.root_index = Some(c);
                proof {
                    self.lemma_same_but_root(&mid);
                }
                Ok(c)
            },
            Err(data) => Err(data),
        }
    }

    /// A live handle is never from a later generation than the tree's current one.
    pub proof fn lemma_live_generation(&self, h: Index)
        requires
            self.wf(),
            self.live().contains(h),
        ensures
            h.generation <= self.generation(),
    {
        assert(arena_sound(self.nodes));
        assert(arena_entries(self.nodes).contains_key(h));
    }

    /// The children of a live node are live and rank below it.
    pub proof fn lemma_children_rank_below(&self, h: Index)
        requires
            self.wf(),
            self.live().contains(h),
        ensures
            forall|j: int| 0 <= j < self.children_of(h).len() ==> self.live().contains(#[trigger] self.children_of(h)[j])
                && self.ranks()[self.children_of(h)[j]] < self.ranks()[h],
    {
        assert(links_ok(self.entries(), self.kids@, self.rank@, h));
        assert forall|j: int| 0 <= j < self.children_of(h).len() implies self.live().contains(#[trigger] self.children_of(h)[j])
                && self.ranks()[self.children_of(h)[j]] < self.ranks()[h] by {
            assert(child_ok(self.entries(), self.rank@, h, self.kids@[h], j));
        }
    }

    /// The live nodes that rank above `x`.
    pub open spec fn ranked_above(&self, x: Index) -> Set<Index> {
        self.live().filter(|y: Index| self.ranks()[y] > self.ranks()[x])
    }

    /// Going up from a live node to its parent leaves fewer nodes ranked above.
    pub proof fn lemma_climb(&self, x: Index)
        requires
            self.wf(),
            self.live().contains(x),
            self.parent_of(x) is Some,
        ensures
            self.ranked_above(self.parent_of(x)->Some_0).len() < self.ranked_above(x).len(),
    {
        let p = self.parent_of(x)->Some_0;
        let e = self.entries();
        assert(e.contains_key(x));
        assert(self.kids@[p].contains(x));
        let i = self.kids@[p].index_of(x);
        assert(links_ok(e, self.kids@, self.rank@, p));
        assert(child_ok(e, self.rank@, p, self.kids@[p], i));
        let above_x = self.ranked_above(x);
        let above_p = self.ranked_above(p);
        assert(arena_sound(self.nodes));
        vstd::set_lib::lemma_len_subset(above_x, self.live());
        assert(above_x.contains(p));
        assert(above_p.subset_of(above_x.remove(p)));
        vstd::set_lib::lemma_len_subset(above_p, above_x.remove(p));
    }

    /// In the walk of a subtree, the top alone has depth 0; every other node sits
    /// one level below its parent, which the walk also holds.
    pub proof fn lemma_subtree_depths(&self, h: Index)
        requires
            self.wf(),
            self.live().contains(h),
        ensures
            forall|i: int| 0 <= i < self.subtree(h).len() ==> {
                let q = #[trigger] self.subtree(h)[i];
                &&& q.1 >= 0
                &&& (q.0 == h <==> q.1 == 0)
                &&& q.0 != h ==> self.live().contains(q.0) && self.parent_of(q.0) is Some
                    && self.subtree(h).contains((self.parent_of(q.0)->Some_0, q.1 - 1))
            },
    {
        self.lemma_shape();
        lemma_walk_depths(self.entries(), self.kids@, self.rank@, h, 0);
        lemma_walk_facts(self.entries(), self.kids@, self.rank@, h, 0);
        assert forall|i: int| 0 <= i < self.subtree(h).len() implies self.live().contains(#[trigger] self.subtree(h)[i].0) by {
            assert(in_walk(self.subtree(h), self.subtree(h)[i].0));
        }
    }

    /// A subtree's walk visits each of its nodes once.
    pub proof fn lemma_subtree_distinct(&self, h: Index)
        requires
            self.wf(),
            self.live().contains(h),
        ensures
            self.subtree_nodes(h).no_duplicates(),
    {
        self.lemma_shape();
        lemma_walk_distinct(self.entries(), self.kids@, self.rank@, h, 0);
    }

    /// The walk of a subtree begins at its top node.
    pub proof fn lemma_subtree_starts_at(&self, h: Index)
        ensures
            self.subtree_nodes(h).len() > 0,
            self.subtree_nodes(h)[0] == h,
            self.subtree_nodes(h).contains(h),
    {
        assert(self.subtree(h)[0].0 == h);
        assert(self.subtree_nodes(h)[0] == h);
    }

    proof fn lemma_shape(&self)
        requires
            self.wf(),
        ensures
            shape_ok(self.entries(), self.kids@, self.rank@),
    {
        let e = self.entries();
        assert forall|x: Index| #[trigger] e.contains_key(x) implies {
            &&& links_ok(e, self.kids@, self.rank@, x)
            &&& e[x].parent is Some ==> e.contains_key(e[x].parent->Some_0) && self.kids@[e[x].parent->Some_0].contains(x)
        } by {
            assert(e.contains_key(x));
        }
    }

    /// The sibling after a live node in its parent's child list.
    pub open spec fn next_sibling_of(&self, h: Index) -> Option<Index> {
        match self.parent_of(h) {
            Some(p) => {
                let cs = self.children_of(p);
                let i = cs.index_of(h);
                if i + 1 < cs.len() {
                    Some(cs[i + 1])
                } else {
                    None
                }
            },
            None => None,
        }
    }

    /// The sibling before a live node in its parent's child list.
    pub open spec fn previous_sibling_of(&self, h: Index) -> Option<Index> {
        match self.parent_of(h) {
            Some(p) => {
                let cs = self.children_of(p);
                let i = cs.index_of(h);
                if i > 0 {
                    Some(cs[i - 1])
                } else {
                    None
                }
            },
            None => None,
        }
    }

    /// The edge that a walk of the subtree of `root` takes after `edge`. A node
    /// that no longer resolves, or a way up that is lost, ends the walk.
    pub open spec fn edge_after(&self, root: Index, edge: Option<NodeEdge<Index>>) -> Option<NodeEdge<Index>> {
        match edge {
            None => None,
            Some(NodeEdge::Start(x)) => {
                if !self.live().contains(x) {
                    None
                } else if self.children_of(x).len() > 0 {
                    Some(NodeEdge::Start(self.children_of(x)[0]))
                } else {
                    Some(NodeEdge::End(x))
                }
            },
            Some(NodeEdge::End(x)) => {
                if x == root || !self.live().contains(x) {
                    None
                } else {
                    match self.next_sibling_of(x) {
                        Some(s) => Some(NodeEdge::Start(s)),
                        None => match self.parent_of(x) {
                            Some(p) => Some(NodeEdge::End(p)),
                            None => None,
                        },
                    }
                }
            },
        }
    }

    /// As `edge_after`, with depths: one more going down, one less going up; a
    /// walk that would leave the range of `u32` ends.
    pub open spec fn edge_after_with_depth(&self, root: Index, edge: Option<NodeEdgeWithDepth<Index>>) -> Option<NodeEdgeWithDepth<Index>> {
        match edge {
            None => None,
            Some(NodeEdgeWithDepth::Start(x, d)) => {
                if !self.live().contains(x) {
                    None
                } else if self.children_of(x).len() > 0 {
                    if d < u32::MAX {
                        Some(NodeEdgeWithDepth::Start(self.children_of(x)[0], (d + 1) as u32))
                    } else {
                        None
                    }
                } else {
                    Some(NodeEdgeWithDepth::End(x, d))
                }
            },
            Some(NodeEdgeWithDepth::End(x, d)) => {
                if x == root || !self.live().contains(x) {
                    None
                } else {
                    match self.next_sibling_of(x) {
                        Some(s) => Some(NodeEdgeWithDepth::Start(s, d)),
                        None => match self.parent_of(x) {
                            Some(p) => if d > 0 {
                                Some(NodeEdgeWithDepth::End(p, (d - 1) as u32))
                            } else {
                                None
                            },
                            None => None,
                        },
                    }
                }
            },
        }
    }

    /// The links of a live node agree with `next_sibling_of` and `children_of`.
    proof fn lemma_links_of(&self, x: Index)
        requires
            self.wf(),
            self.live().contains(x),
        ensures
            self.entries()[x].next_sibling == self.next_sibling_of(x),
            self.entries()[x].previous_sibling == self.previous_sibling_of(x),
            self.entries()[x].first_child == (if self.children_of(x).len() > 0 {
                Some(self.children_of(x)[0])
            } else {
                None
            }),
    {
        let e = self.entries();
        assert(e.contains_key(x));
        assert(links_ok(e, self.kids@, self.rank@, x));
        if e[x].parent is Some {
            let p = e[x].parent->Some_0;
            assert(self.kids@[p].contains(x));
            let i = self.kids@[p].index_of(x);
            assert(links_ok(e, self.kids@, self.rank@, p));
            assert(child_ok(e, self.rank@, p, self.kids@[p], i));
        }
    }

    /// The links of `h`, if it resolves, read as the model states them.
    pub(crate) fn links(&self, h: Index) -> (r: Option<Node>)
        requires
            self.wf(),
        ensures
            r is Some <==> self.live().contains(h),
            r is Some ==> ({
                let n = r->Some_0;
                &&& n.parent == self.parent_of(h)
                &&& n.next_sibling == self.next_sibling_of(h)
                &&& n.previous_sibling == self.previous_sibling_of(h)
                &&& n.first_child == (if self.children_of(h).len() > 0 {
                    Some(self.children_of(h)[0])
                } else {
                    None
                })
            }),
    {
        let r = arena_get(&self.nodes, h);
        proof {
            if r is Some {
                self.lemma_links_of(h);
            }
        }
        r
    }

    /// The node `h` and then its descendants, in depth-first pre-order: the
    /// nodes that a walk of start and end edges starts.
    pub fn descendants(&self, h: Index) -> (r: Vec<Index>)
        requires
            self.wf(),
        ensures
            self.live().contains(h) ==> r@ == self.subtree_nodes(h),
            !self.live().contains(h) ==> r@.len() == 0,
    {
        let mut out: Vec<Index> = Vec::new();
        if !self.contains(h) {
            return out;
        }
        let ghost e = self.entries();
        let ghost k = self.kids@;
        let ghost r = self.rank@;
        let ghost w = walk(k, r, h, 0);
        let ghost mut outd: Seq<(Index, int)> = Seq::empty();
        let ghost mut d: int = 0;
        let mut it = TraverseIter::new(h);
        proof {
            self.lemma_shape();
            lemma_walk_start(e, k, r, h);
            lemma_walk_facts(e, k, r, h, 0);
            assert(outd + rest_from_start(e, k, r, h, h, 0) =~= w);
            assert(out@ =~= nodes_of(outd));
        }
        loop
            invariant
                self.wf(),
                e == self.entries(),
                k == self.kids@,
                r == self.rank@,
                w == walk(k, r, h, 0),
                shape_ok(e, k, r),
                e.contains_key(h),
                it.root() == h,
                forall|x: Index| #[trigger] in_walk(w, x) ==> e.contains_key(x) && r[x] <= r[h],
                out@ == nodes_of(outd),
                match it.pending() {
                    Some(NodeEdge::Start(x)) => on_path(e, k, r, h, x, d) && outd + rest_from_start(e, k, r, h, x, d) == w,
                    Some(NodeEdge::End(x)) => on_path(e, k, r, h, x, d) && outd + walk_after(e, k, r, h, x, d) == w,
                    None => outd == w,
                },
            ensures
                outd == w,
                out@ == nodes_of(outd),
            decreases
                w.len() - outd.len(),
                match it.pending() {
                    Some(NodeEdge::End(_)) => 1int,
                    _ => 0int,
                },
                match it.pending() {
                    Some(NodeEdge::End(x)) => r[h] - r[x],
                    _ => 0int,
                },
        {
            match it.next(self) {
                None => {
                    break ;
                },
                Some(NodeEdge::Start(x)) => {
                    proof {
                        assert(nodes_of(outd.push((x, d))) =~= nodes_of(outd).push(x));
                    }
                    out.push(x);
                    proof {
                        if k[x].len() > 0 {
                            lemma_step_down(e, k, r, h, x, d);
                            assert(outd + rest_from_start(e, k, r, h, x, d) =~= outd.push((x, d)) + rest_from_start(e, k, r, h, k[x][0], d + 1));
                            outd = outd.push((x, d));
                            d = d + 1;
                        } else {
                            lemma_step_leaf(e, k, r, h, x, d);
                            assert(outd + rest_from_start(e, k, r, h, x, d) =~= outd.push((x, d)) + walk_after(e, k, r, h, x, d));
                            outd = outd.push((x, d));
                        }
                    }
                },
                Some(NodeEdge::End(x)) => {
                    proof {
                        if x == h {
                            assert(outd =~= w);
                        } else {
                            self.lemma_links_of(x);
                            if e[x].next_sibling is Some {
                                lemma_step_across(e, k, r, h, x, d);
                            } else {
                                lemma_step_up(e, k, r, h, x, d);
                                d = d - 1;
                            }
                        }
                    }
                },
            }
        }
        out
    }

    /// The node `h` and then its descendants, in depth-first pre-order, each
    /// with its depth below `h`.
    pub fn descendants_with_depth(&self, h: Index) -> (r: Vec<(Index, u32)>)
        requires
            self.wf(),
            self.len_spec() <= u32::MAX,
        ensures
            self.live().contains(h) ==> widen_depths(r@) == self.subtree(h),
            !self.live().contains(h) ==> r@.len() == 0,
    {
        let mut out: Vec<(Index, u32)> = Vec::new();
        if !self.contains(h) {
            return out;
        }
        let ghost e = self.entries();
        let ghost k = self.kids@;
        let ghost r = self.rank@;
        let ghost w = walk(k, r, h, 0);
        let ghost mut outd: Seq<(Index, int)> = Seq::empty();
        let mut it = TraverseWithDepthIter::new(h);
        proof {
            self.lemma_shape();
            lemma_walk_start(e, k, r, h);
            lemma_walk_facts(e, k, r, h, 0);
            assert(outd + rest_from_start(e, k, r, h, h, 0) =~= w);
            assert(widen_depths(out@) =~= outd);
            assert(arena_sound(self.nodes));
        }
        loop
            invariant
                self.wf(),
                e == self.entries(),
                k == self.kids@,
                r == self.rank@,
                w == walk(k, r, h, 0),
                e.dom().len() <= u32::MAX,
                e.dom().finite(),
                shape_ok(e, k, r),
                e.contains_key(h),
                it.root() == h,
                forall|x: Index| #[trigger] in_walk(w, x) ==> e.contains_key(x) && r[x] <= r[h],
                widen_depths(out@) == outd,
                match it.pending() {
                    Some(NodeEdgeWithDepth::Start(x, d)) => on_path(e, k, r, h, x, d as int) && outd + rest_from_start(e, k, r, h, x, d as int) == w
                        && d < u32::MAX,
                    Some(NodeEdgeWithDepth::End(x, d)) => on_path(e, k, r, h, x, d as int) && outd + walk_after(e, k, r, h, x, d as int) == w,
                    None => outd == w,
                },
            ensures
                outd == w,
                widen_depths(out@) == outd,
            decreases
                w.len() - outd.len(),
                match it.pending() {
                    Some(NodeEdgeWithDepth::End(_, _)) => 1int,
                    _ => 0int,
                },
                match it.pending() {
                    Some(NodeEdgeWithDepth::End(x, _)) => r[h] - r[x],
                    _ => 0int,
                },
        {
            match it.next(self) {
                None => {
                    break ;
                },
                Some(NodeEdgeWithDepth::Start(x, d)) => {
                    let ghost di = d as int;
                    let ghost before = out@;
                    out.push((x, d));
                    proof {
                        assert(widen_depths(out@) =~= widen_depths(before).push((x, di)));
                        if k[x].len() > 0 {
                            let c = k[x][0];
                            lemma_step_down(e, k, r, h, x, di);
                            assert(outd + rest_from_start(e, k, r, h, x, di) =~= outd.push((x, di)) + rest_from_start(e, k, r, h, c, di + 1));
                            outd = outd.push((x, di));
                            lemma_walk_facts(e, k, r, h, 0);
                            lemma_up_path(e, k, r, h, c, di + 1);
                            lemma_ranked_fits(up_path(e, r, h, c), r, e.dom());
                        } else {
                            lemma_step_leaf(e, k, r, h, x, di);
                            assert(outd + rest_from_start(e, k, r, h, x, di) =~= outd.push((x, di)) + walk_after(e, k, r, h, x, di));
                            outd = outd.push((x, di));
                        }
                    }
                },
                Some(NodeEdgeWithDepth::End(x, d)) => {
                    proof {
                        if x == h {
                            assert(outd =~= w);
                        } else {
                            self.lemma_links_of(x);
                            if e[x].next_sibling is Some {
                                lemma_step_across(e, k, r, h, x, d as int);
                                lemma_up_path(e, k, r, h, e[x].next_sibling->Some_0, d as int);
                                lemma_ranked_fits(up_path(e, r, h, e[x].next_sibling->Some_0), r, e.dom());
                            } else {
                                lemma_step_up(e, k, r, h, x, d as int);
                            }
                        }
                    }
                },
            }
        }
        out
    }

    /// `self` is `old` without the subtree of `h`: those nodes are gone, `h` has
    /// left its parent's child list, and the other nodes are as they were.
    pub open spec fn is_removal(&self, old: &Self, h: Index) -> bool {
        let gone = old.subtree_nodes(h);
        let p = old.parent_of(h)->Some_0;
        &&& self.live() == old.live().filter(|x: Index| !gone.contains(x))
        &&& forall|x: Index| self.live().contains(x) ==> #[trigger] self.value(x) == old.value(x)
        &&& forall|x: Index| self.live().contains(x) ==> #[trigger] self.parent_of(x) == old.parent_of(x)
        &&& forall|x: Index| self.live().contains(x) && Some(x) != old.parent_of(h) ==> #[trigger] self.children_of(x) == old.children_of(x)
        &&& old.parent_of(h) is Some ==> self.children_of(p) == old.children_of(p).remove(old.children_of(p).index_of(h))
        &&& self.root() == (if old.root() == Some(h) { None } else { old.root() })
        &&& self.generation() > old.generation()
        &&& self.generation() + self.len_spec() == old.generation() + old.len_spec()
        &&& self.capacity_spec() == old.capacity_spec()
    }

    /// Removes `h` and all its descendants, and returns the payload of `h`; a
    /// handle that does not resolve changes nothing and gives `None`.
    pub fn remove(&mut self, h: Index) -> (r: Option<T>)
        requires
            old(self).wf(),
            old(self).generation() + old(self).len_spec() <= u64::MAX,
        ensures
            final(self).wf(),
            !old(self).live().contains(h) ==> r is None && *final(self) == *old(self),
            old(self).live().contains(h) ==> r == Some(old(self).value(h)) && final(self).is_removal(old(self), h),
            forall|x: Index| final(self).live().contains(x) && !old(self).subtree_nodes(x).contains(h) ==> #[trigger] final(self).subtree(x) == old(self).subtree(x),
    {
        if !self.contains(h) {
            return None;
        }
        let desc = self.descendants(h);
        let ghost t0 = *self;
        proof {
            t0.lemma_shape();
            lemma_walk_facts(t0.entries(), t0.kids@, t0.rank@, h, 0);
            assert(desc@[0] == h);
        }
        self.unlink(h);
        let ghost t1 = *self;
        let ghost e1 = t1.entries();
        let ghost k1 = t1.kids@;
        let ghost r1 = t1.rank@;
        let ghost w = walk(k1, r1, h, 0);
        proof {
            t1.lemma_shape();
            if t0.parent_of(h) is Some {
                let p = t0.parent_of(h)->Some_0;
                assert(t0.live().contains(p));
                assert(t0.kids@[p].contains(h));
                let j = t0.kids@[p].index_of(h);
                assert(links_ok(t0.entries(), t0.kids@, t0.rank@, p));
                assert(child_ok(t0.entries(), t0.rank@, p, t0.kids@[p], j));
                assert(!in_walk(t0.subtree(h), p));
                assert forall|x: Index| #[trigger] in_walk(walk(t0.kids@, t0.rank@, h, 0), x) implies k1[x] == t0.kids@[x] && r1[x] == t0.rank@[x] by {
                    assert(t0.live().contains(x));
                    assert(t1.children_of(x) == t0.children_of(x));
                }
                lemma_walk_frame(t0.entries(), t0.kids@, k1, t0.rank@, r1, h, 0);
            }
            assert(w == t0.subtree(h));
            lemma_walk_facts(e1, k1, r1, h, 0);
            assert(e1.contains_key(h));
        }
        let _ = arena_remove(&mut self.nodes, h);
        let data = self.values[h.slot].take();
        proof {
            assert(desc@.subrange(0, 1) =~= seq![h]);
            assert forall|y: Index| #[trigger] desc@.subrange(0, 1).contains(y) <==> y == h by {
                if y == h {
                    assert(desc@.subrange(0, 1)[0] == h);
                }
            }
            assert(arena_sound(t1.nodes));
            assert forall|y: Index| #[trigger] e1.contains_key(y) && y != h implies y.slot != h.slot by {
                assert(e1.contains_key(h));
            }
            assert forall|y: Index| #[trigger] e1.contains_key(y) && !desc@.subrange(0, 1).contains(y) implies self.values@[y.slot as int] == t1.values@[y.slot as int] by {
                assert(y.slot != h.slot);
            }
        }
        let mut i: usize = 1;
        while i < desc.len()
            invariant
                1 <= i <= desc@.len(),
                data == t1.values@[h.slot as int],
                desc@ == nodes_of(w),
                desc@[0] == h,
                arena_sound(self.nodes),
                arena_sound(t1.nodes),
                e1 == arena_entries(t1.nodes),
                forall|x: Index| #[trigger] arena_entries(self.nodes).contains_key(x) <==> e1.contains_key(x) && !desc@.subrange(0, i as int).contains(x),
                forall|x: Index| #[trigger] arena_entries(self.nodes).contains_key(x) ==> arena_entries(self.nodes)[x] == e1[x],
                t1.generation() + 1 <= arena_generation(self.nodes),
                arena_generation(self.nodes) + arena_entries(self.nodes).dom().len() == t1.generation() + e1.dom().len(),
                t1.generation() + e1.dom().len() <= u64::MAX,
                arena_entries(self.nodes).dom().finite(),
                arena_capacity(self.nodes) == t1.capacity_spec(),
                self.values@.len() == t1.values@.len(),
                forall|x: Index| #[trigger] e1.contains_key(x) && !desc@.subrange(0, i as int).contains(x) ==> self.values@[x.slot as int] == t1.values@[x.slot as int],
                forall|x: Index| #[trigger] e1.contains_key(x) ==> (x.slot as int) < t1.values@.len(),
                self.kids == t1.kids,
                self.rank == t1.rank,
                self.root_index == t1.root_index,
            decreases desc@.len() - i,
        {
            let x = desc[i];
            proof {
                assert(desc@.subrange(0, i + 1) =~= desc@.subrange(0, i as int).push(x));
            }
            match arena_remove(&mut self.nodes, x) {
                Some(_) => {
                    proof {
                        assert forall|y: Index| #[trigger] e1.contains_key(y) && !desc@.subrange(0, i + 1).contains(y) implies y.slot != x.slot by {
                            assert(desc@.subrange(0, i + 1)[i as int] == x);
                            assert(y != x);
                        }
                    }
                    self.values[x.slot] = None;
                },
                None => {},
            }
            i = i + 1;
        }
        self.kids = Ghost(Map::new(|x: Index| arena_entries(self.nodes).contains_key(x), |x: Index| k1[x]));
        match self.root_index {
            Some(root) => {
                if root == h {
                    self.root_index = None;
                }
            },
            None => {},
        }
        proof {
            assert(desc@.subrange(0, desc@.len() as int) =~= desc@);
            assert(t1.parent_of(h) is None);
            self.lemma_pruned_wf(&t1, h, desc@);
            let gone = t0.subtree_nodes(h);
            assert(gone == desc@);
            assert(self.live() =~= t0.live().filter(|x: Index| !gone.contains(x)));
            assert(self.generation() + self.len_spec() == t0.generation() + t0.len_spec());
            assert(self.generation() > t0.generation());
            assert(self.capacity_spec() == t0.capacity_spec());
            assert(self.root() == (if t0.root() == Some(h) { None } else { t0.root() }));
            if t0.parent_of(h) is Some {
                let p = t0.parent_of(h)->Some_0;
                assert(t1.is_detached_from(&t0, h));
                assert(e1.contains_key(p));
                lemma_nodes_of(w, p);
                assert(self.kids@[p] == k1[p]);
                assert(self.children_of(p) == t0.children_of(p).remove(t0.children_of(p).index_of(h)));
            }
            assert(t1.value(h) == t0.value(h));
            assert(t1.values@[h.slot as int] is Some);
            assert(data == Some(t0.value(h)));
            assert forall|x: Index| self.live().contains(x) implies #[trigger] self.parent_of(x) == t0.parent_of(x) by {
                assert(e1.contains_key(x));
                assert(x != h);
                if t0.parent_of(h) is Some {
                    assert(t1.is_detached_from(&t0, h));
                    assert(t1.parent_of(x) == t0.parent_of(x));
                }
            }
            assert forall|x: Index| self.live().contains(x) implies #[trigger] self.value(x) == t0.value(x) by {
                assert(e1.contains_key(x) && !desc@.subrange(0, i as int).contains(x));
                assert(self.values@[x.slot as int] == t1.values@[x.slot as int]);
                assert(t0.live().contains(x));
                assert(x != h);
                if t0.parent_of(h) is Some {
                    assert(t1.is_detached_from(&t0, h));
                    assert(t1.value(x) == t0.value(x));
                    assert(t1.parent_of(x) == t0.parent_of(x));
                }
            }
            assert forall|x: Index| self.live().contains(x) && Some(x) != t0.parent_of(h) implies #[trigger] self.children_of(x) == t0.children_of(x) by {
                assert(e1.contains_key(x));
                assert(t0.live().contains(x));
                if t0.parent_of(h) is Some {
                    assert(t1.is_detached_from(&t0, h));
                    assert(t1.children_of(x) == t0.children_of(x));
                }
            }
            assert(self.is_removal(&t0, h));
            assert(self.rank@ == t0.rank@);
            assert forall|x: Index| self.live().contains(x) && !t0.subtree_nodes(x).contains(h) implies #[trigger] self.subtree(x) == t0.subtree(x) by {
                self.lemma_survivor_walk(&t0, h, x);
            }
        }
        data
    }

    /// After `h`'s subtree is removed, a surviving subtree that did not hold `h`
    /// walks as before.
    proof fn lemma_survivor_walk(&self, t0: &Self, h: Index, x: Index)
        requires
            t0.wf(),
            t0.live().contains(h),
            self.is_removal(t0, h),
            self.rank@ == t0.rank@,
            self.live().contains(x),
            !t0.subtree_nodes(x).contains(h),
        ensures
            self.subtree(x) == t0.subtree(x),
    {
        let e = t0.entries();
        let k0 = t0.kids@;
        let r = t0.rank@;
        t0.lemma_shape();
        let gone = t0.subtree_nodes(h);
        assert(t0.live().contains(x));
        lemma_walk_facts(e, k0, r, x, 0);
        lemma_walk_facts(e, k0, r, h, 0);
        lemma_nodes_of(walk(k0, r, x, 0), h);
        lemma_nodes_of(walk(k0, r, h, 0), x);
        assert(!gone.contains(x));
        assert forall|y: Index| #[trigger] in_walk(walk(k0, r, x, 0), y) implies self.kids@[y] == k0[y] && self.rank@[y] == r[y] by {
            assert(e.contains_key(y));
            if in_walk(walk(k0, r, h, 0), y) {
                lemma_walks_nested(e, k0, r, x, h, y);
            }
            lemma_nodes_of(walk(k0, r, h, 0), y);
            assert(!gone.contains(y));
            assert(self.live().contains(y));
            if t0.parent_of(h) == Some(y) {
                assert(k0[y].contains(h));
                let j = k0[y].index_of(h);
                assert(in_walk(walk(k0, r, x, 0), k0[y][j]));
            }
            assert(self.children_of(y) == t0.children_of(y));
        }
        lemma_walk_frame(e, k0, self.kids@, r, self.rank@, x, 0);
    }

    proof fn lemma_pruned_wf(&self, t1: &Self, h: Index, gone: Seq<Index>)
        requires
            t1.wf(),
            t1.live().contains(h),
            t1.parent_of(h) is None,
            gone == nodes_of(walk(t1.kids@, t1.rank@, h, 0)),
            arena_sound(self.nodes),
            arena_capacity(self.nodes) == t1.capacity_spec(),
            forall|x: Index| #[trigger] self.entries().contains_key(x) <==> t1.entries().contains_key(x) && !gone.contains(x),
            forall|x: Index| #[trigger] self.entries().contains_key(x) ==> self.entries()[x] == t1.entries()[x],
            forall|x: Index| #[trigger] t1.entries().contains_key(x) && !gone.contains(x) ==> self.values@[x.slot as int] == t1.values@[x.slot as int],
            self.values@.len() == t1.values@.len(),
            self.kids@ == Map::new(|x: Index| arena_entries(self.nodes).contains_key(x), |x: Index| t1.kids@[x]),
            self.rank == t1.rank,
            self.root_index == (if t1.root_index == Some(h) { None } else { t1.root_index }),
        ensures
            self.wf(),
    {
        let e1 = t1.entries();
        let k1 = t1.kids@;
        let r = t1.rank@;
        let w = walk(k1, r, h, 0);
        let e = self.entries();
        let k = self.kids@;
        t1.lemma_shape();
        lemma_walk_facts(e1, k1, r, h, 0);
        assert(k.dom() =~= e.dom());
        assert forall|x: Index| #[trigger] e.contains_key(x) implies {
            &&& (x.slot as int) < self.values@.len()
            &&& self.values@[x.slot as int] is Some
            &&& links_ok(e, k, r, x)
            &&& e[x].parent is Some ==> e.contains_key(e[x].parent->Some_0) && k[e[x].parent->Some_0].contains(x)
            &&& e[x].parent is None ==> e[x].previous_sibling is None && e[x].next_sibling is None
        } by {
            assert(e1.contains_key(x));
            lemma_nodes_of(w, x);
            assert(!in_walk(w, x));
            assert(links_ok(e1, k1, r, x));
            let xs = k1[x];
            assert(k[x] == xs);
            assert forall|j: int| 0 <= j < xs.len() implies #[trigger] child_ok(e, r, x, xs, j) by {
                assert(child_ok(e1, r, x, xs, j));
                let c = xs[j];
                lemma_nodes_of(w, c);
                if in_walk(w, c) {
                    assert(c != h);
                    assert(false);
                }
            }
            if e[x].parent is Some {
                let q = e1[x].parent->Some_0;
                assert(e1.contains_key(q));
                lemma_nodes_of(w, q);
                if in_walk(w, q) {
                    let j = k1[q].index_of(x);
                    assert(in_walk(w, k1[q][j]));
                    assert(false);
                }
            }
        }
        if self.root_index is Some {
            let root = self.root_index->Some_0;
            assert(e1.contains_key(root));
            lemma_nodes_of(w, root);
            if in_walk(w, root) {
                assert(false);
            }
        }
    }

    /// `self` is `old` with `c`, and the subtree under it, moved to the end of
    /// the child list of `p`.
    pub open spec fn is_move(&self, old: &Self, p: Index, c: Index) -> bool {
        let q = old.parent_of(c);
        let base = if q == Some(p) {
            old.children_of(p).remove(old.children_of(p).index_of(c))
        } else {
            old.children_of(p)
        };
        &&& self.live() == old.live()
        &&& self.root() == old.root()
        &&& self.generation() == old.generation()
        &&& self.capacity_spec() == old.capacity_spec()
        &&& self.parent_of(c) == Some(p)
        &&& self.children_of(p) == base.push(c)
        &&& q is Some && q != Some(p) ==> self.children_of(q->Some_0) == old.children_of(q->Some_0).remove(
            old.children_of(q->Some_0).index_of(c),
        )
        &&& forall|x: Index| old.live().contains(x) ==> #[trigger] self.value(x) == old.value(x)
        &&& forall|x: Index| old.live().contains(x) && x != c ==> #[trigger] self.parent_of(x) == old.parent_of(x)
        &&& forall|x: Index| old.live().contains(x) && x != p && Some(x) != q ==> #[trigger] self.children_of(x) == old.children_of(x)
    }

    /// Makes `c`, with its subtree, the last child of `p`, taking it out of the
    /// child list it was in. Refused, with nothing changed, when either handle
    /// does not resolve, when `p` is `c` or lies below it, or when `c` is the root.
    pub fn append_child(&mut self, p: Index, c: Index) -> (r: Result<(), AppendError>)
        requires
            old(self).wf(),
        ensures
            final(self).wf(),
            r == Err::<(), AppendError>(AppendError::InvalidParent) <==> !old(self).live().contains(p),
            r == Err::<(), AppendError>(AppendError::InvalidChild) <==> old(self).live().contains(p) && !old(self).live().contains(c),
            r == Err::<(), AppendError>(AppendError::WouldCycle) <==> old(self).live().contains(p) && old(self).live().contains(c)
                && old(self).subtree_nodes(c).contains(p),
            r == Err::<(), AppendError>(AppendError::ChildIsRoot) <==> old(self).live().contains(p) && old(self).live().contains(c)
                && !old(self).subtree_nodes(c).contains(p) && old(self).root() == Some(c),
            r is Err ==> *final(self) == *old(self),
            r is Ok ==> final(self).is_move(old(self), p, c),
            r is Ok ==> final(self).subtree(c) == old(self).subtree(c),
    {
        if !self.contains(p) {
            return Err(AppendError::InvalidParent);
        }
        if !self.contains(c) {
            return Err(AppendError::InvalidChild);
        }
        let desc = self.descendants(c);
        if holds(&desc, p) {
            return Err(AppendError::WouldCycle);
        }
        match self.root_index {
            Some(root) => {
                if root == c {
                    return Err(AppendError::ChildIsRoot);
                }
            },
            None => {},
        }
        let ghost t0 = *self;
        proof {
            t0.lemma_shape();
            lemma_walk_facts(t0.entries(), t0.kids@, t0.rank@, c, 0);
        }
        self.unlink(c);
        let ghost t1 = *self;
        let ghost e1 = t1.entries();
        let ghost k1 = t1.kids@;
        let ghost r1 = t1.rank@;
        let ghost w = walk(k1, r1, c, 0);
        let ghost sub = Set::new(|y: Index| in_walk(w, y));
        proof {
            t1.lemma_shape();
            if t0.parent_of(c) is Some {
                let q = t0.parent_of(c)->Some_0;
                assert(t0.live().contains(q));
                assert(t0.kids@[q].contains(c));
                let i = t0.kids@[q].index_of(c);
                assert(links_ok(t0.entries(), t0.kids@, t0.rank@, q));
                assert(child_ok(t0.entries(), t0.rank@, q, t0.kids@[q], i));
                assert(!in_walk(t0.subtree(c), q));
                assert forall|x: Index| #[trigger] in_walk(walk(t0.kids@, t0.rank@, c, 0), x) implies k1[x] == t0.kids@[x] && r1[x] == t0.rank@[x] by {
                    assert(t0.live().contains(x));
                    assert(t1.children_of(x) == t0.children_of(x));
                }
                lemma_walk_frame(t0.entries(), t0.kids@, k1, t0.rank@, r1, c, 0);
            }
            assert(w == t0.subtree(c));
            lemma_walk_facts(e1, k1, r1, c, 0);
            lemma_nodes_of(w, p);
            assert(in_walk(w, c)) by {
                assert(w[0].0 == c);
            }
            assert forall|x: Index, i: int| #[trigger] t1.live().contains(x) && 0 <= i < k1[x].len() implies
                (sub.contains(x) <==> #[trigger] sub.contains(k1[x][i])) by {
                assert(links_ok(e1, k1, r1, x));
                assert(child_ok(e1, r1, x, k1[x], i));
                let y = k1[x][i];
                if in_walk(w, y) && !in_walk(w, x) {
                    if y != c {
                        assert(in_walk(w, e1[y].parent->Some_0));
                    }
                    assert(false);
                }
            }
        }
        self.link_last(p, c, Ghost(sub));
        proof {
            assert forall|x: Index| #[trigger] in_walk(w, x) implies self.kids@[x] == k1[x] && self.rank@[x] == r1[x] by {
                assert(sub.contains(x));
            }
            lemma_walk_frame(e1, k1, self.kids@, r1, self.rank@, c, 0);
            if t0.parent_of(c) is Some {
                assert(t1.is_detached_from(&t0, c));
            }
            assert forall|x: Index| t0.live().contains(x) implies #[trigger] self.value(x) == t0.value(x) by {
                assert(t1.live().contains(x));
            }
            assert forall|x: Index| t0.live().contains(x) && x != c implies #[trigger] self.parent_of(x) == t0.parent_of(x) by {
                assert(t1.live().contains(x));
            }
            assert forall|x: Index| t0.live().contains(x) && x != p && Some(x) != t0.parent_of(c) implies #[trigger] self.children_of(x) == t0.children_of(x) by {
                assert(t1.live().contains(x));
                assert(self.children_of(x) == t1.children_of(x));
                if t0.parent_of(c) is Some {
                    assert(t1.children_of(x) == t0.children_of(x));
                }
            }
            let q = t0.parent_of(c);
            if q is Some && q != Some(p) {
                assert(self.children_of(q->Some_0) == t1.children_of(q->Some_0));
            }
            if q == Some(p) {
                assert(t1.children_of(p) == t0.children_of(p).remove(t0.children_of(p).index_of(c)));
            } else {
                assert(t0.live().contains(p));
                if q is Some {
                    assert(t1.children_of(p) == t0.children_of(p));
                }
            }
        }
        Ok(())
    }

    /// Removes every node; no capacity is lost, and every handle stops resolving.
    pub fn clear(&mut self)
        requires
            old(self).wf(),
            old(self).len_spec() > 0 ==> old(self).generation() < u64::MAX,
        ensures
            final(self).wf(),
            final(self).live().is_empty(),
            final(self).root() is None,
            final(self).capacity_spec() >= old(self).capacity_spec(),
            final(self).generation() == (if old(self).len_spec() == 0 {
                old(self).generation()
            } else {
                old(self).generation() + 1
            }),
    {
        arena_clear(&mut self.nodes);
        self.values.clear();
        self.root_index = None;
        self.kids = Ghost(Map::empty());
        proof {
            assert(self.kids@.dom() =~= self.entries().dom());
        }
    }

    /// The root, if there is one.
    pub fn get_root_index(&self) -> (r: Option<Index>)
        ensures
            r == self.root(),
    {
        self.root_index
    }

    /// The parent of `h`; `None` for a parentless node or a handle that does
    /// not resolve.
    pub fn parent(&self, h: Index) -> (r: Option<Index>)
        ensures
            r == (if self.live().contains(h) { self.parent_of(h) } else { None }),
    {
        match arena_get(&self.nodes, h) {
            Some(n) => n.parent,
            None => None,
        }
    }

    /// The children of `h`, first to last; none for a handle that does not
    /// resolve.
    pub fn children(&self, h: Index) -> (r: Vec<Index>)
        requires
            self.wf(),
        ensures
            r@ == (if self.live().contains(h) { self.children_of(h) } else { Seq::empty() }),
    {
        let mut out: Vec<Index> = Vec::new();
        let n = match arena_get(&self.nodes, h) {
            Some(n) => n,
            None => return out,
        };
        let ghost cs = self.kids@[h];
        proof {
            assert(links_ok(self.entries(), self.kids@, self.rank@, h));
        }
        let mut cur = n.first_child;
        while cur.is_some()
            invariant
                self.wf(),
                self.live().contains(h),
                cs == self.kids@[h],
                out@.len() <= cs.len(),
                out@ == cs.subrange(0, out@.len() as int),
                cur == (if out@.len() < cs.len() { Some(cs[out@.len() as int]) } else { None }),
            decreases cs.len() - out@.len(),
        {
            let c = cur.unwrap();
            proof {
                assert(child_ok(self.entries(), self.rank@, h, cs, out@.len() as int));
            }
            out.push(c);
            cur = arena_get(&self.nodes, c).unwrap().next_sibling;
            proof {
                assert(out@ =~= cs.subrange(0, out@.len() as int));
            }
        }
        proof {
            assert(out@ =~= cs);
        }
        out
    }

    /// `h` and then the siblings after it, in order; only `h` for a parentless
    /// node, none for a handle that does not resolve.
    pub fn following_siblings(&self, h: Index) -> (r: Vec<Index>)
        requires
            self.wf(),
        ensures
            !self.live().contains(h) ==> r@.len() == 0,
            self.live().contains(h) && self.parent_of(h) is None ==> r@ == seq![h],
            self.live().contains(h) && self.parent_of(h) is Some ==> ({
                let cs = self.children_of(self.parent_of(h)->Some_0);
                r@ == cs.subrange(cs.index_of(h), cs.len() as int)
            }),
    {
        let mut out: Vec<Index> = Vec::new();
        let n = match arena_get(&self.nodes, h) {
            Some(n) => n,
            None => return out,
        };
        let ghost p = n.parent->Some_0;
        let ghost cs = self.kids@[p];
        let ghost i0 = cs.index_of(h);
        proof {
            if n.parent is Some {
                assert(self.kids@[p].contains(h));
                assert(links_ok(self.entries(), self.kids@, self.rank@, p));
                assert(child_ok(self.entries(), self.rank@, p, cs, i0));
            }
        }
        out.push(h);
        let mut cur = n.next_sibling;
        if n.parent.is_none() {
            return out;
        }
        while cur.is_some()
            invariant
                self.wf(),
                self.live().contains(p),
                cs == self.kids@[p],
                0 <= i0 < cs.len(),
                i0 + out@.len() <= cs.len(),
                out@.len() >= 1,
                out@ == cs.subrange(i0, i0 + out@.len()),
                cur == (if i0 + out@.len() < cs.len() { Some(cs[i0 + out@.len()]) } else { None }),
            decreases cs.len() - out@.len(),
        {
            let c = cur.unwrap();
            proof {
                assert(links_ok(self.entries(), self.kids@, self.rank@, p));
                assert(child_ok(self.entries(), self.rank@, p, cs, i0 + out@.len()));
            }
            out.push(c);
            cur = arena_get(&self.nodes, c).unwrap().next_sibling;
            proof {
                assert(out@ =~= cs.subrange(i0, i0 + out@.len()));
            }
        }
        out
    }

    /// `h` and then the siblings before it, nearest first; only `h` for a
    /// parentless node, none for a handle that does not resolve.
    pub fn preceding_siblings(&self, h: Index) -> (r: Vec<Index>)
        requires
            self.wf(),
        ensures
            !self.live().contains(h) ==> r@.len() == 0,
            self.live().contains(h) && self.parent_of(h) is None ==> r@ == seq![h],
            self.live().contains(h) && self.parent_of(h) is Some ==> ({
                let cs = self.children_of(self.parent_of(h)->Some_0);
                r@ == cs.subrange(0, cs.index_of(h) + 1).reverse()
            }),
    {
        let mut out: Vec<Index> = Vec::new();
        let n = match arena_get(&self.nodes, h) {
            Some(n) => n,
            None => return out,
        };
        let ghost p = n.parent->Some_0;
        let ghost cs = self.kids@[p];
        let ghost i0 = cs.index_of(h);
        proof {
            if n.parent is Some {
                assert(self.kids@[p].contains(h));
                assert(links_ok(self.entries(), self.kids@, self.rank@, p));
                assert(child_ok(self.entries(), self.rank@, p, cs, i0));
            }
        }
        out.push(h);
        let mut cur = n.previous_sibling;
        if n.parent.is_none() {
            return out;
        }
        proof {
            assert(out@ =~= cs.subrange(i0 + 1 - out@.len(), i0 + 1).reverse());
        }
        while cur.is_some()
            invariant
                self.wf(),
                self.live().contains(p),
                cs == self.kids@[p],
                0 <= i0 < cs.len(),
                1 <= out@.len() <= i0 + 1,
                out@ == cs.subrange(i0 + 1 - out@.len(), i0 + 1).reverse(),
                cur == (if out@.len() <= i0 { Some(cs[i0 - out@.len()]) } else { None }),
            decreases i0 + 1 - out@.len(),
        {
            let c = cur.unwrap();
            proof {
                assert(links_ok(self.entries(), self.kids@, self.rank@, p));
                assert(child_ok(self.entries(), self.rank@, p, cs, i0 - out@.len()));
            }
            out.push(c);
            cur = arena_get(&self.nodes, c).unwrap().previous_sibling;
            proof {
                assert(out@ =~= cs.subrange(i0 + 1 - out@.len(), i0 + 1).reverse());
            }
        }
        proof {
            assert(out@.len() == i0 + 1);
            assert(cs.subrange(0, i0 + 1) =~= cs.subrange(i0 + 1 - out@.len(), i0 + 1));
        }
        out
    }

    /// `h` and then its ancestors, nearest first, up to a parentless node; none
    /// for a handle that does not resolve.
    pub fn ancestors(&self, h: Index) -> (r: Vec<Index>)
        requires
            self.wf(),
        ensures
            !self.live().contains(h) ==> r@.len() == 0,
            self.live().contains(h) ==> {
                &&& r@.len() > 0
                &&& r@[0] == h
                &&& forall|i: int| 0 <= i < r@.len() - 1 ==> self.parent_of(#[trigger] r@[i]) == Some(r@[i + 1])
                &&& self.parent_of(r@[r@.len() - 1]) is None
            },
    {
        let mut out: Vec<Index> = Vec::new();
        if !self.contains(h) {
            return out;
        }
        let ghost r = self.rank@;
        let ghost e = self.entries();
        let mut cur = h;
        loop
            invariant_except_break
                out@.len() > 0 ==> out@[0] == h && e[out@[out@.len() - 1]].parent == Some(cur),
                forall|i: int| 0 <= i < out@.len() ==> e.contains_key(#[trigger] out@[i]) && r[out@[i]] < r[cur],
            invariant
                self.wf(),
                e == self.entries(),
                r == self.rank@,
                e.contains_key(cur),
                out@.len() == 0 ==> cur == h,
                forall|i: int| 0 <= i < out@.len() - 1 ==> self.parent_of(#[trigger] out@[i]) == Some(out@[i + 1]),
                forall|i: int, j: int| 0 <= i < j < out@.len() ==> r[#[trigger] out@[i]] < r[#[trigger] out@[j]],
            ensures
                out@.len() > 0,
                out@[0] == h,
                forall|i: int| 0 <= i < out@.len() - 1 ==> self.parent_of(#[trigger] out@[i]) == Some(out@[i + 1]),
                self.parent_of(out@[out@.len() - 1]) is None,
            decreases e.dom().len() - out@.len(),
        {
            proof {
                lemma_ranked_fits(out@.push(cur), r, e.dom());
            }
            out.push(cur);
            let n = arena_get(&self.nodes, cur).unwrap();
            match n.parent {
                Some(p) => {
                    proof {
                        assert(self.kids@[p].contains(cur));
                        let j = self.kids@[p].index_of(cur);
                        assert(links_ok(e, self.kids@, r, p));
                        assert(child_ok(e, r, p, self.kids@[p], j));
                    }
                    cur = p;
                },
                None => {
                    break ;
                },
            }
        }
        out
    }

}

/// Whether `x` is among the handles of `v`.
fn holds(v: &Vec<Index>, x: Index) -> (r: bool)
    ensures
        r == v@.contains(x),
{
    let mut j: usize = 0;
    while j < v.len()
        invariant
            j <= v@.len(),
            forall|i: int| 0 <= i < j ==> v@[i] != x,
        decreases v@.len() - j,
    {
        if v[j] == x {
            proof {
                assert(v@[j as int] == x);
            }
            return true;
        }
        j = j + 1;
    }
    false
}

} // verus!
