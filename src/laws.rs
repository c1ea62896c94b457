//! Properties that relate several operations of the tree.
use crate::index::Index;
use crate::tree::VecTree;
use vstd::prelude::*;

verus! {

/// A value stored by an insertion is what its handle then resolves to.
pub proof fn lemma_insert_then_get<T>(
    before: VecTree<T>,
    after: VecTree<T>,
    h: Index,
    v: T,
    parent: Option<Index>,
)
    requires
        after.is_insertion(&before, h, v, parent),
    ensures
        after.live().contains(h),
        after.value(h) == v,
{
}

/// After `h` is removed it resolves no more, and a later insertion, even one
/// that reuses its slot, hands out a different handle that resolves to the new
/// value while `h` still does not.
pub proof fn lemma_removed_handle_stays_dead<T>(
    t0: VecTree<T>,
    t1: VecTree<T>,
    t2: VecTree<T>,
    h: Index,
    h2: Index,
    v: T,
    parent: Option<Index>,
)
    requires
        t0.wf(),
        t0.live().contains(h),
        t1.is_removal(&t0, h),
        t2.is_insertion(&t1, h2, v, parent),
    ensures
        !t1.live().contains(h),
        !t2.live().contains(h),
        h2 != h,
        t2.live().contains(h2),
        t2.value(h2) == v,
{
    t0.lemma_subtree_starts_at(h);
    t0.lemma_live_generation(h);
    assert(!t1.live().contains(h));
}

/// Step `i` of a run of appends: `ts[i + 1]` is `ts[i]` with the parentless
/// node `cs[i]` appended to `p`.
pub open spec fn appended_in_turn<T>(ts: Seq<VecTree<T>>, p: Index, cs: Seq<Index>, i: int) -> bool {
    &&& ts[i].parent_of(cs[i]) is None
    &&& ts[i + 1].is_move(&ts[i], p, cs[i])
}

/// Appending parentless nodes one after another to `p` puts them at the end of
/// its child list in the order they were appended.
pub proof fn lemma_appends_keep_order<T>(ts: Seq<VecTree<T>>, p: Index, cs: Seq<Index>)
    requires
        ts.len() == cs.len() + 1,
        forall|i: int| 0 <= i < cs.len() ==> #[trigger] appended_in_turn(ts, p, cs, i),
    ensures
        ts[ts.len() - 1].children_of(p) == ts[0].children_of(p) + cs,
    decreases cs.len(),
{
    if cs.len() == 0 {
        assert(ts[0].children_of(p) + cs =~= ts[0].children_of(p));
    } else {
        let n = cs.len() - 1;
        let ts0 = ts.drop_last();
        let cs0 = cs.drop_last();
        assert forall|i: int| 0 <= i < cs0.len() implies #[trigger] appended_in_turn(ts0, p, cs0, i) by {
            assert(appended_in_turn(ts, p, cs, i));
            assert(ts0[i] == ts[i] && ts0[i + 1] == ts[i + 1] && cs0[i] == cs[i]);
        }
        lemma_appends_keep_order(ts0, p, cs0);
        assert(appended_in_turn(ts, p, cs, n));
        assert(ts[0].children_of(p) + cs =~= (ts[0].children_of(p) + cs0).push(cs[n]));
    }
}

/// An insertion into a full tree grows it, and every handle given out before
/// still resolves to its payload.
pub proof fn lemma_growth_keeps_handles<T>(
    before: VecTree<T>,
    after: VecTree<T>,
    h: Index,
    v: T,
    parent: Option<Index>,
)
    requires
        before.len_spec() == before.capacity_spec(),
        after.is_insertion(&before, h, v, parent),
    ensures
        forall|x: Index| #[trigger] before.live().contains(x) ==> after.live().contains(x)
            && after.value(x) == before.value(x),
{
}

/// Detaching a node that has no parent changes nothing, the first time and the
/// second.
pub proof fn lemma_detach_twice_is_noop<T>(t0: VecTree<T>, t1: VecTree<T>, t2: VecTree<T>, h: Index)
    requires
        t0.live().contains(h),
        t0.parent_of(h) is None,
        t1.detach_result(&t0, h),
        t2.detach_result(&t1, h),
    ensures
        t1 == t0,
        t2 == t0,
{
}

} // verus!
