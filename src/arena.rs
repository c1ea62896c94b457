//! The slot arena under the tree: `generational_arena::Arena`, holding one
//! topology record per node.
use crate::index::Index;
use crate::tree::Node;
use generational_arena::Arena;
use vstd::prelude::*;

verus! {

/// The most slots an arena here may have: well below the count at which the
/// slot table's size in bytes would pass `isize::MAX`, where `Vec` panics.
pub const MAX_CAPACITY: usize = usize::MAX / 512;

/// `generational_arena::Arena`, declared so that it can stand in a field; what
/// it holds is known only through the names below.
#[verifier::external_type_specification]
#[verifier::external_body]
#[verifier::reject_recursive_types(T)]
pub struct ExArena<T>(generational_arena::Arena<T>);

/// The records that `a` holds, keyed by the handle that `insert` gave out.
pub uninterp spec fn arena_entries(a: Arena<Node>) -> Map<Index, Node>;

/// The number of slots of `a`, used or free.
pub uninterp spec fn arena_capacity(a: Arena<Node>) -> nat;

/// The generation that `a` gives to the next record it stores.
pub uninterp spec fn arena_generation(a: Arena<Node>) -> nat;

/// What holds of every arena: finitely many records, at most one live handle per
/// slot, no more records than slots, and no live handle from a later generation
/// than the current one.
pub open spec fn arena_sound(a: Arena<Node>) -> bool {
    &&& arena_entries(a).dom().finite()
    &&& arena_entries(a).dom().len() <= arena_capacity(a)
    &&& arena_capacity(a) <= usize::MAX
    &&& arena_generation(a) <= u64::MAX
    &&& forall|k: Index| #[trigger]
        arena_entries(a).contains_key(k) ==> k.generation <= arena_generation(a)
    &&& forall|k1: Index, k2: Index|
        #![trigger arena_entries(a).contains_key(k1), arena_entries(a).contains_key(k2)]
        arena_entries(a).contains_key(k1) && arena_entries(a).contains_key(k2) && k1.slot
            == k2.slot ==> k1 == k2
}

/// A handle is free to be given out by `a`: no live record has its slot, and its
/// generation is the arena's current one.
pub open spec fn fresh_handle(a: Arena<Node>, k: Index) -> bool {
    &&& k.generation == arena_generation(a)
    &&& forall|j: Index| #[trigger] arena_entries(a).contains_key(j) ==> j.slot != k.slot
}

/// Relies on `Arena::with_capacity`: an empty arena with `max(n, 1)` free slots.
#[verifier::external_body]
pub fn arena_with_capacity(n: usize) -> (r: Arena<Node>)
    requires
        n <= MAX_CAPACITY,
    ensures
        arena_sound(r),
        arena_entries(r).dom().is_empty(),
        arena_generation(r) == 0,
        arena_capacity(r) == (if n == 0 { 1 } else { n as nat }),
{
    Arena::with_capacity(n)
}

/// Relies on `Arena::capacity`: the number of slots, used or free.
#[verifier::external_body]
pub fn arena_capacity_of(a: &Arena<Node>) -> (r: usize)
    ensures
        r == arena_capacity(*a),
{
    a.capacity()
}

/// Relies on `Arena::reserve`: `additional` more free slots; the records and the
/// generation stay as they were. With `additional == 0` it would point its list
/// of free slots past the end, so that is refused.
#[verifier::external_body]
pub fn arena_reserve(a: &mut Arena<Node>, additional: usize)
    requires
        additional > 0,
        arena_capacity(*old(a)) + additional <= MAX_CAPACITY,
    ensures
        arena_sound(*final(a)),
        arena_entries(*final(a)) == arena_entries(*old(a)),
        arena_capacity(*final(a)) == arena_capacity(*old(a)) + additional,
        arena_generation(*final(a)) == arena_generation(*old(a)),
{
    a.reserve(additional)
}

/// Relies on `Arena::try_insert`: it takes a free slot if there is one, under the
/// current generation, and otherwise hands the record back and changes nothing.
#[verifier::external_body]
pub fn arena_try_insert(a: &mut Arena<Node>, node: Node) -> (r: Result<Index, Node>)
    ensures
        arena_sound(*final(a)),
        r is Err <==> arena_entries(*old(a)).dom().len() == arena_capacity(*old(a)),
        r is Err ==> r->Err_0 == node && *final(a) == *old(a),
        r is Ok ==> fresh_handle(*old(a), r->Ok_0),
        r is Ok ==> arena_entries(*final(a)) == arena_entries(*old(a)).insert(r->Ok_0, node),
        r is Ok ==> arena_capacity(*final(a)) == arena_capacity(*old(a)),
        r is Ok ==> arena_generation(*final(a)) == arena_generation(*old(a)),
{
    match a.try_insert(node) {
        Ok(i) => {
            let (slot, generation) = i.into_raw_parts();
            Ok(Index { slot, generation })
        },
        Err(n) => Err(n),
    }
}

/// Relies on `Arena::insert`: like `try_insert`, but when no slot is free it first
/// doubles the number of slots (to one slot if there were none).
#[verifier::external_body]
pub fn arena_insert(a: &mut Arena<Node>, node: Node) -> (r: Index)
    requires
        arena_entries(*old(a)).dom().len() < arena_capacity(*old(a)) || 2 * arena_capacity(*old(a))
            <= MAX_CAPACITY,
    ensures
        arena_sound(*final(a)),
        fresh_handle(*old(a), r),
        arena_entries(*final(a)) == arena_entries(*old(a)).insert(r, node),
        arena_capacity(*final(a)) == (if arena_entries(*old(a)).dom().len() < arena_capacity(
            *old(a),
        ) {
            arena_capacity(*old(a))
        } else if arena_capacity(*old(a)) == 0 {
            1
        } else {
            2 * arena_capacity(*old(a))
        }),
        arena_generation(*final(a)) == arena_generation(*old(a)),
{
    let (slot, generation) = a.insert(node).into_raw_parts();
    Index { slot, generation }
}

/// Relies on `Arena::remove`: the record of a live handle is taken out and the
/// generation moves on by one; any other handle changes nothing.
#[verifier::external_body]
pub fn arena_remove(a: &mut Arena<Node>, k: Index) -> (r: Option<Node>)
    requires
        arena_entries(*old(a)).contains_key(k) ==> arena_generation(*old(a)) < u64::MAX,
    ensures
        arena_sound(*final(a)),
        r == (if arena_entries(*old(a)).contains_key(k) {
            Some(arena_entries(*old(a))[k])
        } else {
            None
        }),
        r is None ==> *final(a) == *old(a),
        r is Some ==> arena_entries(*final(a)) == arena_entries(*old(a)).remove(k),
        r is Some ==> arena_generation(*final(a)) == arena_generation(*old(a)) + 1,
        r is Some ==> arena_capacity(*final(a)) == arena_capacity(*old(a)),
{
    a.remove(generational_arena::Index::from_raw_parts(k.slot, k.generation))
}

/// Relies on `Arena::get`: the record of a live handle, a copy of it here.
#[verifier::external_body]
pub fn arena_get(a: &Arena<Node>, k: Index) -> (r: Option<Node>)
    ensures
        r == (if arena_entries(*a).contains_key(k) {
            Some(arena_entries(*a)[k])
        } else {
            None
        }),
{
    a.get(generational_arena::Index::from_raw_parts(k.slot, k.generation)).copied()
}

/// Relies on `Arena::get_mut`: a live handle's record, to change in place.
#[verifier::external_body]
pub fn arena_get_mut(a: &mut Arena<Node>, k: Index) -> (r: Option<&mut Node>)
    ensures
        r is None <==> !arena_entries(*old(a)).contains_key(k),
        r is None ==> *final(a) == *old(a),
        r is Some ==> *r->Some_0 == arena_entries(*old(a))[k],
        r is Some ==> arena_entries(*final(a)) == arena_entries(*old(a)).insert(
            k,
            *final(r->Some_0),
        ),
        r is Some ==> arena_capacity(*final(a)) == arena_capacity(*old(a)),
        r is Some ==> arena_generation(*final(a)) == arena_generation(*old(a)),
        r is Some ==> arena_sound(*final(a)),
{
    a.get_mut(generational_arena::Index::from_raw_parts(k.slot, k.generation))
}

/// Relies on `Arena::clear`: every record goes, no slot is lost, and the
/// generation moves on by one unless the arena was empty.
#[verifier::external_body]
pub fn arena_clear(a: &mut Arena<Node>)
    requires
        arena_capacity(*old(a)) >= 1,
        arena_entries(*old(a)).dom().len() > 0 ==> arena_generation(*old(a)) < u64::MAX,
    ensures
        arena_sound(*final(a)),
        arena_entries(*final(a)).dom().is_empty(),
        arena_capacity(*final(a)) >= arena_capacity(*old(a)),
        arena_generation(*final(a)) == (if arena_entries(*old(a)).dom().len() == 0 {
            arena_generation(*old(a))
        } else {
            arena_generation(*old(a)) + 1
        }),
{
    a.clear()
}

} // verus!
