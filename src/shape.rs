//! The shape of a tree as ghost data: each node's child list and a rank that
//! falls from parent to child, and the depth-first walk they define.
use crate::index::Index;
use crate::tree::Node;
use vstd::prelude::*;

verus! {

/// The `i`-th child `cs[i]` of `h` points back at `h` and at its neighbours in
/// `cs`, and ranks below `h`.
pub open spec fn child_ok(
    e: Map<Index, Node>,
    r: Map<Index, nat>,
    h: Index,
    cs: Seq<Index>,
    i: int,
) -> bool {
    let c = cs[i];
    &&& e.contains_key(c)
    &&& e[c].parent == Some(h)
    &&& e[c].previous_sibling == (if i == 0 { None } else { Some(cs[i - 1]) })
    &&& e[c].next_sibling == (if i + 1 == cs.len() { None } else { Some(cs[i + 1]) })
    &&& r[c] < r[h]
}

/// The links of `h` agree with its child list `k[h]`.
pub open spec fn links_ok(
    e: Map<Index, Node>,
    k: Map<Index, Seq<Index>>,
    r: Map<Index, nat>,
    h: Index,
) -> bool {
    let cs = k[h];
    &&& cs.no_duplicates()
    &&& e[h].first_child == (if cs.len() == 0 { None } else { Some(cs[0]) })
    &&& e[h].last_child == (if cs.len() == 0 { None } else { Some(cs[cs.len() - 1]) })
    &&& forall|i: int| 0 <= i < cs.len() ==> #[trigger] child_ok(e, r, h, cs, i)
}

/// `h` at depth `d`, then the walks of its children one after another.
pub open spec fn walk(k: Map<Index, Seq<Index>>, r: Map<Index, nat>, h: Index, d: int) -> Seq<
    (Index, int),
>
    decreases r[h], 1nat, 0nat,
{
    seq![(h, d)] + walk_forest(k, r, k[h], d + 1, r[h])
}

/// The walks of the nodes of `s` one after another, as far as they rank below
/// `bound`.
pub open spec fn walk_forest(
    k: Map<Index, Seq<Index>>,
    r: Map<Index, nat>,
    s: Seq<Index>,
    d: int,
    bound: nat,
) -> Seq<(Index, int)>
    decreases bound, 0nat, s.len(),
{
    if s.len() == 0 {
        seq![]
    } else if r[s[0]] < bound {
        walk(k, r, s[0], d) + walk_forest(k, r, s.drop_first(), d, bound)
    } else {
        seq![]
    }
}

/// The nodes of the walk `s`, without their depths.
pub open spec fn nodes_of(s: Seq<(Index, int)>) -> Seq<Index> {
    s.map_values(|p: (Index, int)| p.0)
}

/// A walk with its depths read as integers.
pub open spec fn widen_depths(s: Seq<(Index, u32)>) -> Seq<(Index, int)> {
    s.map_values(|p: (Index, u32)| (p.0, p.1 as int))
}

/// `x` is one of the nodes of the walk `s`.
pub open spec fn in_walk(s: Seq<(Index, int)>, x: Index) -> bool {
    exists|i: int| 0 <= i < s.len() && s[i].0 == x
}

/// The ranks after linking `c` under a node outside `sub`, the nodes below `c`:
/// those outside `sub` move up past `c`.
pub open spec fn ranks_after_link(r: Map<Index, nat>, sub: Set<Index>, c: Index) -> Map<Index, nat> {
    Map::new(
        |x: Index| true,
        |x: Index|
            if sub.contains(x) {
                r[x]
            } else {
                r[x] + r[c] + 1
            },
    )
}

/// Every live node's links agree with its child list.
pub open spec fn shape_ok(e: Map<Index, Node>, k: Map<Index, Seq<Index>>, r: Map<Index, nat>) -> bool {
    forall|x: Index| #[trigger] e.contains_key(x) ==> {
        &&& links_ok(e, k, r, x)
        &&& e[x].parent is Some ==> e.contains_key(e[x].parent->Some_0) && k[e[x].parent->Some_0].contains(x)
    }
}

/// What follows the subtree of `x`, at depth `d`, in the walk of `h`: the
/// subtrees of the later siblings of `x`, then what follows its parent.
pub open spec fn walk_after(
    e: Map<Index, Node>,
    k: Map<Index, Seq<Index>>,
    r: Map<Index, nat>,
    h: Index,
    x: Index,
    d: int,
) -> Seq<(Index, int)>
    decreases r[h] - r[x],
{
    if x == h || e[x].parent is None {
        seq![]
    } else {
        let p = e[x].parent->Some_0;
        let cs = k[p];
        let i = cs.index_of(x);
        if r[x] < r[p] && r[p] <= r[h] {
            walk_forest(k, r, cs.subrange(i + 1, cs.len() as int), d, r[p]) + walk_after(
                e,
                k,
                r,
                h,
                p,
                d - 1,
            )
        } else {
            seq![]
        }
    }
}

/// The number of steps from `x` up to `h`.
pub open spec fn depth_below(e: Map<Index, Node>, r: Map<Index, nat>, h: Index, x: Index) -> int
    decreases r[h] - r[x],
{
    if x == h || e[x].parent is None {
        0
    } else {
        let p = e[x].parent->Some_0;
        if r[x] < r[p] && r[p] <= r[h] {
            1 + depth_below(e, r, h, p)
        } else {
            0
        }
    }
}

/// A node of a concatenation of walks is a node of one of them.
pub proof fn lemma_in_concat(a: Seq<(Index, int)>, b: Seq<(Index, int)>, x: Index)
    ensures
        in_walk(a + b, x) <==> in_walk(a, x) || in_walk(b, x),
{
    if in_walk(a + b, x) {
        let i = choose|i: int| 0 <= i < (a + b).len() && (a + b)[i].0 == x;
        if i < a.len() {
            assert(a[i].0 == x);
        } else {
            assert(b[i - a.len()].0 == x);
        }
    }
    if in_walk(a, x) {
        let i = choose|i: int| 0 <= i < a.len() && a[i].0 == x;
        assert((a + b)[i].0 == x);
    }
    if in_walk(b, x) {
        let i = choose|i: int| 0 <= i < b.len() && b[i].0 == x;
        assert((a + b)[i + a.len()].0 == x);
    }
}

/// A node of the walks of `s` is a node of the walk of one element of `s`.
pub proof fn lemma_forest_members(
    k: Map<Index, Seq<Index>>,
    r: Map<Index, nat>,
    s: Seq<Index>,
    d: int,
    b: nat,
    x: Index,
)
    requires
        forall|j: int| 0 <= j < s.len() ==> #[trigger] r[s[j]] < b,
    ensures
        in_walk(walk_forest(k, r, s, d, b), x) <==> exists|j: int|
            0 <= j < s.len() && #[trigger] in_walk(walk(k, r, s[j], d), x),
    decreases s.len(),
{
    if s.len() > 0 {
        let rest = s.drop_first();
        assert(r[s[0]] < b);
        assert forall|j: int| 0 <= j < rest.len() implies #[trigger] r[rest[j]] < b by {
            assert(rest[j] == s[j + 1]);
        }
        lemma_forest_members(k, r, rest, d, b, x);
        lemma_in_concat(walk(k, r, s[0], d), walk_forest(k, r, rest, d, b), x);
        if exists|j: int| 0 <= j < s.len() && #[trigger] in_walk(walk(k, r, s[j], d), x) {
            let j = choose|j: int| 0 <= j < s.len() && #[trigger] in_walk(walk(k, r, s[j], d), x);
            if j > 0 {
                assert(rest[j - 1] == s[j]);
            }
        }
        if exists|j: int| 0 <= j < rest.len() && #[trigger] in_walk(walk(k, r, rest[j], d), x) {
            let j = choose|j: int| 0 <= j < rest.len() && #[trigger] in_walk(walk(k, r, rest[j], d), x);
            assert(rest[j] == s[j + 1]);
        }
    }
}

/// The nodes of the walk of a live `h` are live, rank no higher than `h`, have
/// their children in the walk, and, but for `h`, their parent too.
pub proof fn lemma_walk_facts(
    e: Map<Index, Node>,
    k: Map<Index, Seq<Index>>,
    r: Map<Index, nat>,
    h: Index,
    d: int,
)
    requires
        shape_ok(e, k, r),
        e.contains_key(h),
    ensures
        forall|x: Index| #[trigger] in_walk(walk(k, r, h, d), x) ==> {
            &&& e.contains_key(x)
            &&& r[x] <= r[h]
            &&& forall|j: int| 0 <= j < k[x].len() ==> #[trigger] in_walk(walk(k, r, h, d), k[x][j])
            &&& x != h ==> e[x].parent is Some && in_walk(walk(k, r, h, d), e[x].parent->Some_0)
        },
    decreases r[h],
{
    let cs = k[h];
    let w = walk(k, r, h, d);
    let f = walk_forest(k, r, cs, d + 1, r[h]);
    assert(links_ok(e, k, r, h));
    assert forall|j: int| 0 <= j < cs.len() implies #[trigger] r[cs[j]] < r[h] by {
        assert(child_ok(e, r, h, cs, j));
    }
    assert(w == seq![(h, d)] + f);
    assert forall|y: Index| #[trigger] in_walk(w, y) <==> y == h || in_walk(f, y) by {
        lemma_in_concat(seq![(h, d)], f, y);
        if y == h {
            assert(w[0].0 == h);
        }
        if in_walk(seq![(h, d)], y) {
            let i = choose|i: int| 0 <= i < 1 && seq![(h, d)][i].0 == y;
        }
    }
    assert forall|j: int| 0 <= j < cs.len() implies #[trigger] in_walk(w, cs[j]) by {
        assert(child_ok(e, r, h, cs, j));
        assert(walk(k, r, cs[j], d + 1)[0].0 == cs[j]);
        assert(in_walk(walk(k, r, cs[j], d + 1), cs[j]));
        lemma_forest_members(k, r, cs, d + 1, r[h], cs[j]);
    }
    assert forall|j: int, x: Index| 0 <= j < cs.len() && #[trigger] in_walk(walk(k, r, cs[j], d + 1), x) implies in_walk(w, x) by {
        lemma_forest_members(k, r, cs, d + 1, r[h], x);
    }
    assert forall|x: Index| #[trigger] in_walk(w, x) implies {
        &&& e.contains_key(x)
        &&& r[x] <= r[h]
        &&& forall|j: int| 0 <= j < k[x].len() ==> #[trigger] in_walk(w, k[x][j])
        &&& x != h ==> e[x].parent is Some && in_walk(w, e[x].parent->Some_0)
    } by {
        if x == h {
            assert forall|i: int| 0 <= i < k[x].len() implies #[trigger] in_walk(w, k[x][i]) by {
                assert(in_walk(w, cs[i]));
            }
        } else {
            lemma_forest_members(k, r, cs, d + 1, r[h], x);
            let j = choose|j: int| 0 <= j < cs.len() && #[trigger] in_walk(walk(k, r, cs[j], d + 1), x);
            let c = cs[j];
            assert(child_ok(e, r, h, cs, j));
            lemma_walk_facts(e, k, r, c, d + 1);
            assert(in_walk(walk(k, r, c, d + 1), x));
            if x != c {
                assert(in_walk(walk(k, r, c, d + 1), e[x].parent->Some_0));
            }
            assert forall|i: int| 0 <= i < k[x].len() implies #[trigger] in_walk(w, k[x][i]) by {
                assert(in_walk(walk(k, r, c, d + 1), k[x][i]));
                assert(in_walk(walk(k, r, cs[j], d + 1), k[x][i]));
            }
            if x != c {
                assert(in_walk(walk(k, r, cs[j], d + 1), e[x].parent->Some_0));
            }
        }
    }
}

/// What remains of the walk of `h` when the subtree of `x`, at depth `d`, is
/// about to start.
pub open spec fn rest_from_start(
    e: Map<Index, Node>,
    k: Map<Index, Seq<Index>>,
    r: Map<Index, nat>,
    h: Index,
    x: Index,
    d: int,
) -> Seq<(Index, int)> {
    walk(k, r, x, d) + walk_after(e, k, r, h, x, d)
}

/// `x` lies in the walk of `h`, `d` steps below `h`.
pub open spec fn on_path(
    e: Map<Index, Node>,
    k: Map<Index, Seq<Index>>,
    r: Map<Index, nat>,
    h: Index,
    x: Index,
    d: int,
) -> bool {
    &&& in_walk(walk(k, r, h, 0), x)
    &&& d == depth_below(e, r, h, x)
}

/// A depth is never negative.
pub proof fn lemma_depth_nonneg(e: Map<Index, Node>, r: Map<Index, nat>, h: Index, x: Index)
    ensures
        depth_below(e, r, h, x) >= 0,
    decreases r[h] - r[x],
{
    if x != h && e[x].parent is Some {
        let p = e[x].parent->Some_0;
        if r[x] < r[p] && r[p] <= r[h] {
            lemma_depth_nonneg(e, r, h, p);
        }
    }
}

/// The walk of `h` begins at `h`, at depth 0, with nothing after it.
pub proof fn lemma_walk_start(
    e: Map<Index, Node>,
    k: Map<Index, Seq<Index>>,
    r: Map<Index, nat>,
    h: Index,
)
    ensures
        on_path(e, k, r, h, h, 0),
        rest_from_start(e, k, r, h, h, 0) == walk(k, r, h, 0),
{
    assert(walk(k, r, h, 0)[0].0 == h);
    assert(rest_from_start(e, k, r, h, h, 0) =~= walk(k, r, h, 0));
}

/// The parent of a node `x != h` on the walk of `h`: also on it, one step up,
/// and ranked between `x` and `h`; `x` is its `i`-th child.
pub proof fn lemma_parent_on_path(
    e: Map<Index, Node>,
    k: Map<Index, Seq<Index>>,
    r: Map<Index, nat>,
    h: Index,
    x: Index,
    d: int,
)
    requires
        shape_ok(e, k, r),
        e.contains_key(h),
        on_path(e, k, r, h, x, d),
        x != h,
    ensures
        e.contains_key(x),
        e[x].parent is Some,
        ({
            let p = e[x].parent->Some_0;
            let i = k[p].index_of(x);
            &&& e.contains_key(p)
            &&& on_path(e, k, r, h, p, d - 1)
            &&& d >= 1
            &&& r[x] < r[p] <= r[h]
            &&& 0 <= i < k[p].len()
            &&& k[p][i] == x
            &&& child_ok(e, r, p, k[p], i)
            &&& links_ok(e, k, r, p)
        }),
{
    lemma_walk_facts(e, k, r, h, 0);
    let p = e[x].parent->Some_0;
    assert(e.contains_key(x));
    assert(in_walk(walk(k, r, h, 0), p));
    assert(k[p].contains(x));
    let i = k[p].index_of(x);
    assert(links_ok(e, k, r, p));
    assert(child_ok(e, r, p, k[p], i));
    lemma_depth_nonneg(e, r, h, p);
}

/// Starting a node with children: emit it, then start its first child.
pub proof fn lemma_step_down(
    e: Map<Index, Node>,
    k: Map<Index, Seq<Index>>,
    r: Map<Index, nat>,
    h: Index,
    x: Index,
    d: int,
)
    requires
        shape_ok(e, k, r),
        e.contains_key(h),
        on_path(e, k, r, h, x, d),
        k[x].len() > 0,
    ensures
        on_path(e, k, r, h, k[x][0], d + 1),
        rest_from_start(e, k, r, h, x, d) == seq![(x, d)] + rest_from_start(e, k, r, h, k[x][0], d + 1),
{
    lemma_walk_facts(e, k, r, h, 0);
    let cs = k[x];
    let c = cs[0];
    assert(links_ok(e, k, r, x));
    assert(child_ok(e, r, x, cs, 0));
    assert(in_walk(walk(k, r, h, 0), c));
    assert(r[c] < r[x] <= r[h]);
    assert(cs.index_of(c) == 0);
    assert(cs.subrange(1, cs.len() as int) =~= cs.drop_first());
    let tail = walk_forest(k, r, cs.drop_first(), d + 1, r[x]);
    assert(walk_after(e, k, r, h, c, d + 1) == tail + walk_after(e, k, r, h, x, d));
    assert(walk(k, r, x, d) == seq![(x, d)] + (walk(k, r, c, d + 1) + tail));
    assert(rest_from_start(e, k, r, h, x, d) =~= seq![(x, d)] + rest_from_start(e, k, r, h, c, d + 1));
}

/// Starting a node without children: emit it, then end it.
pub proof fn lemma_step_leaf(
    e: Map<Index, Node>,
    k: Map<Index, Seq<Index>>,
    r: Map<Index, nat>,
    h: Index,
    x: Index,
    d: int,
)
    requires
        k[x].len() == 0,
    ensures
        rest_from_start(e, k, r, h, x, d) == seq![(x, d)] + walk_after(e, k, r, h, x, d),
{
    assert(walk(k, r, x, d) =~= seq![(x, d)]);
}

/// Ending a node other than `h` that has a next sibling: start that sibling.
pub proof fn lemma_step_across(
    e: Map<Index, Node>,
    k: Map<Index, Seq<Index>>,
    r: Map<Index, nat>,
    h: Index,
    x: Index,
    d: int,
)
    requires
        shape_ok(e, k, r),
        e.contains_key(h),
        on_path(e, k, r, h, x, d),
        x != h,
        e[x].next_sibling is Some,
    ensures
        on_path(e, k, r, h, e[x].next_sibling->Some_0, d),
        walk_after(e, k, r, h, x, d) == rest_from_start(e, k, r, h, e[x].next_sibling->Some_0, d),
{
    lemma_parent_on_path(e, k, r, h, x, d);
    lemma_walk_facts(e, k, r, h, 0);
    let p = e[x].parent->Some_0;
    let cs = k[p];
    let i = cs.index_of(x);
    let s = cs[i + 1];
    assert(child_ok(e, r, p, cs, i + 1));
    assert(in_walk(walk(k, r, h, 0), s));
    assert(s != h);
    assert(cs.index_of(s) == i + 1);
    assert(cs.subrange(i + 1, cs.len() as int).drop_first() =~= cs.subrange(i + 2, cs.len() as int));
    assert(cs.subrange(i + 1, cs.len() as int)[0] == s);
}

/// Ending a node other than `h` that is the last child: end its parent.
pub proof fn lemma_step_up(
    e: Map<Index, Node>,
    k: Map<Index, Seq<Index>>,
    r: Map<Index, nat>,
    h: Index,
    x: Index,
    d: int,
)
    requires
        shape_ok(e, k, r),
        e.contains_key(h),
        on_path(e, k, r, h, x, d),
        x != h,
        e[x].next_sibling is None,
    ensures
        e[x].parent is Some,
        on_path(e, k, r, h, e[x].parent->Some_0, d - 1),
        d >= 1,
        r[x] < r[e[x].parent->Some_0] <= r[h],
        walk_after(e, k, r, h, x, d) == walk_after(e, k, r, h, e[x].parent->Some_0, d - 1),
{
    lemma_parent_on_path(e, k, r, h, x, d);
    let p = e[x].parent->Some_0;
    let cs = k[p];
    let i = cs.index_of(x);
    assert(i + 1 == cs.len());
    assert(cs.subrange(i + 1, cs.len() as int).len() == 0);
    assert(walk_after(e, k, r, h, x, d) =~= walk_after(e, k, r, h, p, d - 1));
}

/// The walk of a live `h` depends only on the child lists and ranks of its own
/// nodes.
pub proof fn lemma_walk_frame(
    e: Map<Index, Node>,
    k0: Map<Index, Seq<Index>>,
    k1: Map<Index, Seq<Index>>,
    r0: Map<Index, nat>,
    r1: Map<Index, nat>,
    h: Index,
    d: int,
)
    requires
        shape_ok(e, k0, r0),
        e.contains_key(h),
        forall|x: Index| #[trigger] in_walk(walk(k0, r0, h, d), x) ==> k1[x] == k0[x] && r1[x] == r0[x],
    ensures
        walk(k1, r1, h, d) == walk(k0, r0, h, d),
    decreases r0[h], 1nat, 0nat,
{
    let cs = k0[h];
    assert(walk(k0, r0, h, d)[0].0 == h);
    assert(in_walk(walk(k0, r0, h, d), h));
    assert(k1[h] == cs);
    assert(links_ok(e, k0, r0, h));
    assert forall|j: int| 0 <= j < cs.len() implies #[trigger] r0[cs[j]] < r0[h] && e.contains_key(cs[j]) by {
        assert(child_ok(e, r0, h, cs, j));
    }
    assert forall|j: int, x: Index| 0 <= j < cs.len() && #[trigger] in_walk(walk(k0, r0, cs[j], d + 1), x) implies k1[x] == k0[x] && r1[x] == r0[x] by {
        lemma_forest_members(k0, r0, cs, d + 1, r0[h], x);
        lemma_in_concat(seq![(h, d)], walk_forest(k0, r0, cs, d + 1, r0[h]), x);
    }
    lemma_forest_frame(e, k0, k1, r0, r1, cs, d + 1, r0[h]);
}

/// The walks of `s` depend only on the child lists and ranks of their nodes.
pub proof fn lemma_forest_frame(
    e: Map<Index, Node>,
    k0: Map<Index, Seq<Index>>,
    k1: Map<Index, Seq<Index>>,
    r0: Map<Index, nat>,
    r1: Map<Index, nat>,
    s: Seq<Index>,
    d: int,
    b: nat,
)
    requires
        shape_ok(e, k0, r0),
        forall|j: int| 0 <= j < s.len() ==> #[trigger] r0[s[j]] < b && e.contains_key(s[j]),
        forall|j: int, x: Index| 0 <= j < s.len() && #[trigger] in_walk(walk(k0, r0, s[j], d), x) ==> k1[x] == k0[x] && r1[x] == r0[x],
    ensures
        walk_forest(k1, r1, s, d, b) == walk_forest(k0, r0, s, d, b),
    decreases b, 0nat, s.len(),
{
    if s.len() > 0 {
        let rest = s.drop_first();
        assert(r0[s[0]] < b && e.contains_key(s[0]));
        assert forall|x: Index| #[trigger] in_walk(walk(k0, r0, s[0], d), x) implies k1[x] == k0[x] && r1[x] == r0[x] by {
            assert(in_walk(walk(k0, r0, s[0], d), x));
        }
        assert(walk(k0, r0, s[0], d)[0].0 == s[0]);
        assert(in_walk(walk(k0, r0, s[0], d), s[0]));
        lemma_walk_frame(e, k0, k1, r0, r1, s[0], d);
        assert forall|j: int| 0 <= j < rest.len() implies #[trigger] r0[rest[j]] < b && e.contains_key(rest[j]) by {
            assert(rest[j] == s[j + 1]);
        }
        assert forall|j: int, x: Index| 0 <= j < rest.len() && #[trigger] in_walk(walk(k0, r0, rest[j], d), x) implies k1[x] == k0[x] && r1[x] == r0[x] by {
            assert(rest[j] == s[j + 1]);
        }
        lemma_forest_frame(e, k0, k1, r0, r1, rest, d, b);
    }
}

/// `x` is a node of the walk `s` just when it is among its nodes.
pub proof fn lemma_nodes_of(s: Seq<(Index, int)>, x: Index)
    ensures
        in_walk(s, x) <==> nodes_of(s).contains(x),
{
    if in_walk(s, x) {
        let i = choose|i: int| 0 <= i < s.len() && s[i].0 == x;
        assert(nodes_of(s)[i] == x);
    }
    if nodes_of(s).contains(x) {
        let i = choose|i: int| 0 <= i < nodes_of(s).len() && nodes_of(s)[i] == x;
        assert(s[i].0 == x);
    }
}

/// A sequence of live nodes whose ranks rise strictly is no longer than the
/// number of live nodes.
pub proof fn lemma_ranked_fits(s: Seq<Index>, r: Map<Index, nat>, live: Set<Index>)
    requires
        live.finite(),
        forall|i: int| 0 <= i < s.len() ==> live.contains(#[trigger] s[i]),
        forall|i: int, j: int| 0 <= i < j < s.len() ==> r[#[trigger] s[i]] < r[#[trigger] s[j]],
    ensures
        s.len() <= live.len(),
{
    assert(s.no_duplicates()) by {
        assert forall|i: int, j: int| 0 <= i < s.len() && 0 <= j < s.len() && i != j implies s[i] != s[j] by {
            if i < j {
                assert(r[s[i]] < r[s[j]]);
            } else {
                assert(r[s[j]] < r[s[i]]);
            }
        }
    }
    s.unique_seq_to_set();
    vstd::set_lib::lemma_len_subset(s.to_set(), live);
}

/// The nodes from `x` up to `h`, `x` first.
pub open spec fn up_path(e: Map<Index, Node>, r: Map<Index, nat>, h: Index, x: Index) -> Seq<Index>
    decreases r[h] - r[x],
{
    if x == h || e[x].parent is None {
        seq![x]
    } else {
        let p = e[x].parent->Some_0;
        if r[x] < r[p] && r[p] <= r[h] {
            seq![x] + up_path(e, r, h, p)
        } else {
            seq![x]
        }
    }
}

/// The path up from a node `d` steps below `h` holds `d + 1` live nodes of
/// strictly rising rank.
pub proof fn lemma_up_path(
    e: Map<Index, Node>,
    k: Map<Index, Seq<Index>>,
    r: Map<Index, nat>,
    h: Index,
    x: Index,
    d: int,
)
    requires
        shape_ok(e, k, r),
        e.contains_key(h),
        on_path(e, k, r, h, x, d),
    ensures
        up_path(e, r, h, x).len() == d + 1,
        forall|i: int| 0 <= i < up_path(e, r, h, x).len() ==> e.contains_key(#[trigger] up_path(e, r, h, x)[i])
            && r[up_path(e, r, h, x)[i]] >= r[x],
        forall|i: int, j: int| 0 <= i < j < up_path(e, r, h, x).len() ==> r[#[trigger] up_path(e, r, h, x)[i]] < r[#[trigger] up_path(e, r, h, x)[j]],
    decreases r[h] - r[x],
{
    lemma_walk_facts(e, k, r, h, 0);
    if x != h {
        lemma_parent_on_path(e, k, r, h, x, d);
        let p = e[x].parent->Some_0;
        lemma_up_path(e, k, r, h, p, d - 1);
        let s = up_path(e, r, h, x);
        let rest = up_path(e, r, h, p);
        assert(s == seq![x] + rest);
        assert forall|i: int| 0 <= i < s.len() implies e.contains_key(#[trigger] s[i]) && r[s[i]] >= r[x] by {
            if i > 0 {
                assert(s[i] == rest[i - 1]);
            }
        }
        assert forall|i: int, j: int| 0 <= i < j < s.len() implies r[#[trigger] s[i]] < r[#[trigger] s[j]] by {
            assert(s[j] == rest[j - 1]);
            if i > 0 {
                assert(s[i] == rest[i - 1]);
            }
        }
    } else {
        assert(depth_below(e, r, h, h) == 0);
    }
}

/// Two distinct children `a` and `b` of `h` share no node below them: a shared
/// node would lead up, through parents, to both.
pub proof fn lemma_siblings_apart(
    e: Map<Index, Node>,
    k: Map<Index, Seq<Index>>,
    r: Map<Index, nat>,
    h: Index,
    a: Index,
    b: Index,
    x: Index,
    d: int,
)
    requires
        shape_ok(e, k, r),
        e.contains_key(a),
        e.contains_key(b),
        a != b,
        e[a].parent == Some(h),
        e[b].parent == Some(h),
        r[a] < r[h],
        r[b] < r[h],
    ensures
        !(in_walk(walk(k, r, a, d), x) && in_walk(walk(k, r, b, d), x)),
    decreases r[h] - r[x],
{
    lemma_walk_facts(e, k, r, a, d);
    lemma_walk_facts(e, k, r, b, d);
    if !(in_walk(walk(k, r, a, d), x) && in_walk(walk(k, r, b, d), x)) {
    } else if x == a {
        assert(in_walk(walk(k, r, b, d), h));
    } else if x == b {
        assert(in_walk(walk(k, r, a, d), h));
    } else {
        let p = e[x].parent->Some_0;
        assert(in_walk(walk(k, r, a, d), p));
        assert(in_walk(walk(k, r, b, d), p));
        assert(e.contains_key(p));
        assert(k[p].contains(x));
        let i = k[p].index_of(x);
        assert(links_ok(e, k, r, p));
        assert(child_ok(e, r, p, k[p], i));
        lemma_siblings_apart(e, k, r, h, a, b, p, d);
    }
}

/// The nodes of a walk of a live node are all distinct.
pub proof fn lemma_walk_distinct(
    e: Map<Index, Node>,
    k: Map<Index, Seq<Index>>,
    r: Map<Index, nat>,
    h: Index,
    d: int,
)
    requires
        shape_ok(e, k, r),
        e.contains_key(h),
    ensures
        nodes_of(walk(k, r, h, d)).no_duplicates(),
    decreases r[h], 1nat, 0nat,
{
    let cs = k[h];
    assert(links_ok(e, k, r, h));
    assert forall|j: int| 0 <= j < cs.len() implies #[trigger] r[cs[j]] < r[h] && e.contains_key(cs[j]) && e[cs[j]].parent == Some(h) by {
        assert(child_ok(e, r, h, cs, j));
    }
    lemma_forest_distinct(e, k, r, h, cs, d + 1);
    let f = walk_forest(k, r, cs, d + 1, r[h]);
    assert forall|x: Index| in_walk(f, x) implies x != h by {
        lemma_forest_members(k, r, cs, d + 1, r[h], x);
        let j = choose|j: int| 0 <= j < cs.len() && #[trigger] in_walk(walk(k, r, cs[j], d + 1), x);
        lemma_walk_facts(e, k, r, cs[j], d + 1);
    }
    assert forall|i: int, j: int| 0 <= i < 1 && 0 <= j < nodes_of(f).len() implies seq![h][i] != nodes_of(f)[j] by {
        assert(f[j].0 == nodes_of(f)[j]);
        assert(in_walk(f, f[j].0));
    }
    assert(seq![h].no_duplicates());
    vstd::seq_lib::lemma_no_dup_in_concat(seq![h], nodes_of(f));
    assert(nodes_of(walk(k, r, h, d)) =~= seq![h] + nodes_of(f));
}

/// The walks of distinct children of `h`, one after another, repeat no node.
pub proof fn lemma_forest_distinct(
    e: Map<Index, Node>,
    k: Map<Index, Seq<Index>>,
    r: Map<Index, nat>,
    h: Index,
    s: Seq<Index>,
    d: int,
)
    requires
        shape_ok(e, k, r),
        s.no_duplicates(),
        forall|j: int| 0 <= j < s.len() ==> #[trigger] r[s[j]] < r[h] && e.contains_key(s[j]) && e[s[j]].parent == Some(h),
    ensures
        nodes_of(walk_forest(k, r, s, d, r[h])).no_duplicates(),
    decreases r[h], 0nat, s.len(),
{
    if s.len() > 0 {
        let rest = s.drop_first();
        assert(r[s[0]] < r[h] && e.contains_key(s[0]) && e[s[0]].parent == Some(h));
        assert forall|j: int| 0 <= j < rest.len() implies #[trigger] r[rest[j]] < r[h] && e.contains_key(rest[j]) && e[rest[j]].parent == Some(h) by {
            assert(rest[j] == s[j + 1]);
        }
        assert(rest.no_duplicates()) by {
            assert forall|i: int, j: int| 0 <= i < rest.len() && 0 <= j < rest.len() && i != j implies rest[i] != rest[j] by {
                assert(rest[i] == s[i + 1] && rest[j] == s[j + 1]);
            }
        }
        lemma_walk_distinct(e, k, r, s[0], d);
        lemma_forest_distinct(e, k, r, h, rest, d);
        let w0 = walk(k, r, s[0], d);
        let f = walk_forest(k, r, rest, d, r[h]);
        assert forall|i: int, j: int| 0 <= i < nodes_of(w0).len() && 0 <= j < nodes_of(f).len() implies nodes_of(w0)[i] != nodes_of(f)[j] by {
            let x = nodes_of(w0)[i];
            if x == nodes_of(f)[j] {
                assert(w0[i].0 == x);
                assert(f[j].0 == x);
                assert(in_walk(w0, x));
                assert(in_walk(f, x));
                lemma_forest_members(k, r, rest, d, r[h], x);
                let l = choose|l: int| 0 <= l < rest.len() && #[trigger] in_walk(walk(k, r, rest[l], d), x);
                assert(rest[l] == s[l + 1]);
                assert(s[0] != s[l + 1]);
                lemma_siblings_apart(e, k, r, h, s[0], rest[l], x, d);
            }
        }
        vstd::seq_lib::lemma_no_dup_in_concat(nodes_of(w0), nodes_of(f));
        assert(nodes_of(walk_forest(k, r, s, d, r[h])) =~= nodes_of(w0) + nodes_of(f));
    } else {
        assert(nodes_of(walk_forest(k, r, s, d, r[h])) =~= Seq::<Index>::empty());
    }
}

/// Two walks that share a node are nested: the top of one lies in the other.
pub proof fn lemma_walks_nested(
    e: Map<Index, Node>,
    k: Map<Index, Seq<Index>>,
    r: Map<Index, nat>,
    a: Index,
    b: Index,
    x: Index,
)
    requires
        shape_ok(e, k, r),
        e.contains_key(a),
        e.contains_key(b),
        in_walk(walk(k, r, a, 0), x),
        in_walk(walk(k, r, b, 0), x),
    ensures
        in_walk(walk(k, r, a, 0), b) || in_walk(walk(k, r, b, 0), a),
    decreases r[a] - r[x],
{
    lemma_walk_facts(e, k, r, a, 0);
    lemma_walk_facts(e, k, r, b, 0);
    if x != a && x != b {
        let p = e[x].parent->Some_0;
        assert(in_walk(walk(k, r, a, 0), p));
        assert(in_walk(walk(k, r, b, 0), p));
        assert(k[p].contains(x));
        let i = k[p].index_of(x);
        assert(links_ok(e, k, r, p));
        assert(child_ok(e, r, p, k[p], i));
        lemma_walks_nested(e, k, r, a, b, p);
    }
}

/// In the walk of a live `h` from depth `d`, `h` alone sits at depth `d`; every
/// other node sits deeper, one level below its parent, which the walk also holds.
pub proof fn lemma_walk_depths(
    e: Map<Index, Node>,
    k: Map<Index, Seq<Index>>,
    r: Map<Index, nat>,
    h: Index,
    d: int,
)
    requires
        shape_ok(e, k, r),
        e.contains_key(h),
    ensures
        forall|i: int| 0 <= i < walk(k, r, h, d).len() ==> {
            let q = #[trigger] walk(k, r, h, d)[i];
            &&& q.1 >= d
            &&& (q.0 == h <==> q.1 == d)
            &&& q.0 != h ==> e[q.0].parent is Some && walk(k, r, h, d).contains(
                (e[q.0].parent->Some_0, q.1 - 1),
            )
        },
    decreases r[h], 1nat, 0nat,
{
    let cs = k[h];
    let w = walk(k, r, h, d);
    let f = walk_forest(k, r, cs, d + 1, r[h]);
    assert(links_ok(e, k, r, h));
    assert forall|j: int| 0 <= j < cs.len() implies #[trigger] r[cs[j]] < r[h] && e.contains_key(cs[j]) && e[cs[j]].parent == Some(h) by {
        assert(child_ok(e, r, h, cs, j));
    }
    lemma_forest_depths(e, k, r, h, cs, d + 1);
    assert(w == seq![(h, d)] + f);
    assert forall|i: int| 0 <= i < w.len() implies {
        let q = #[trigger] w[i];
        &&& q.1 >= d
        &&& (q.0 == h <==> q.1 == d)
        &&& q.0 != h ==> e[q.0].parent is Some && w.contains((e[q.0].parent->Some_0, q.1 - 1))
    } by {
        if i > 0 {
            let q = w[i];
            assert(q == f[i - 1]);
            if e[q.0].parent == Some(h) && q.1 == d + 1 {
                assert(w[0] == (h, d));
            } else {
                let t = choose|t: int| 0 <= t < f.len() && f[t] == (e[q.0].parent->Some_0, q.1 - 1);
                assert(w[t + 1] == f[t]);
            }
        }
    }
}

/// The walks of the children `s` of `h`, from depth `d`: each node sits at
/// depth `d` or deeper, below `h`'s level; one at depth `d` is a child of `h`,
/// and a deeper one has its parent one level up in the same walks.
pub proof fn lemma_forest_depths(
    e: Map<Index, Node>,
    k: Map<Index, Seq<Index>>,
    r: Map<Index, nat>,
    h: Index,
    s: Seq<Index>,
    d: int,
)
    requires
        shape_ok(e, k, r),
        forall|j: int| 0 <= j < s.len() ==> #[trigger] r[s[j]] < r[h] && e.contains_key(s[j]) && e[s[j]].parent == Some(h),
    ensures
        forall|i: int| 0 <= i < walk_forest(k, r, s, d, r[h]).len() ==> {
            let q = #[trigger] walk_forest(k, r, s, d, r[h])[i];
            &&& q.1 >= d
            &&& q.0 != h
            &&& e[q.0].parent is Some
            &&& q.1 == d ==> e[q.0].parent == Some(h)
            &&& q.1 > d ==> walk_forest(k, r, s, d, r[h]).contains((e[q.0].parent->Some_0, q.1 - 1))
        },
    decreases r[h], 0nat, s.len(),
{
    if s.len() > 0 {
        let rest = s.drop_first();
        assert(r[s[0]] < r[h] && e.contains_key(s[0]) && e[s[0]].parent == Some(h));
        assert forall|j: int| 0 <= j < rest.len() implies #[trigger] r[rest[j]] < r[h] && e.contains_key(rest[j]) && e[rest[j]].parent == Some(h) by {
            assert(rest[j] == s[j + 1]);
        }
        lemma_walk_depths(e, k, r, s[0], d);
        lemma_walk_facts(e, k, r, s[0], d);
        lemma_forest_depths(e, k, r, h, rest, d);
        let w0 = walk(k, r, s[0], d);
        let f = walk_forest(k, r, rest, d, r[h]);
        let all = walk_forest(k, r, s, d, r[h]);
        assert(all == w0 + f);
        assert forall|i: int| 0 <= i < all.len() implies {
            let q = #[trigger] all[i];
            &&& q.1 >= d
            &&& q.0 != h
            &&& e[q.0].parent is Some
            &&& q.1 == d ==> e[q.0].parent == Some(h)
            &&& q.1 > d ==> all.contains((e[q.0].parent->Some_0, q.1 - 1))
        } by {
            let q = all[i];
            if i < w0.len() {
                assert(q == w0[i]);
                assert(in_walk(w0, q.0));
                if q.0 != s[0] {
                    let t = choose|t: int| 0 <= t < w0.len() && w0[t] == (e[q.0].parent->Some_0, q.1 - 1);
                    assert(all[t] == w0[t]);
                }
            } else {
                assert(q == f[i - w0.len()]);
                if q.1 > d {
                    let t = choose|t: int| 0 <= t < f.len() && f[t] == (e[q.0].parent->Some_0, q.1 - 1);
                    assert(all[t + w0.len()] == f[t]);
                }
            }
        }
    }
}

} // verus!
