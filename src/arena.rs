use vstd::prelude::*;
use generational_arena::{Arena, Index};
use crate::handles::{ColliderHandle, EntityHandle};
use crate::world::{ColliderNode, EntityNode};

verus! {

#[verifier::external_type_specification]
#[verifier::external_body]
#[verifier::reject_recursive_types(T)]
pub struct ExArena<T>(Arena<T>);

/// What an arena of entity records holds, by handle.
pub uninterp spec fn entity_slots(a: Arena<EntityNode>) -> Map<EntityHandle, EntityNode>;

/// What an arena of collider records holds, by handle.
pub uninterp spec fn collider_slots(a: Arena<ColliderNode>) -> Map<ColliderHandle, ColliderNode>;

/// Relies on Arena::new: a new arena is empty.
#[verifier::external_body]
pub(crate) fn new_entity_arena() -> (r: Arena<EntityNode>)
    ensures
        entity_slots(r).dom() == Set::<EntityHandle>::empty(),
{
    Arena::new()
}

/// Relies on Arena::insert: the value is stored under an index that no stored
/// value has (a free slot), and nothing else changes.
#[verifier::external_body]
pub(crate) fn insert_entity(a: &mut Arena<EntityNode>, n: EntityNode) -> (r: EntityHandle)
    ensures
        !entity_slots(*old(a)).contains_key(r),
        entity_slots(*final(a)) == entity_slots(*old(a)).insert(r, n),
{
    let (index, generation) = a.insert(n).into_raw_parts();
    EntityHandle { index, generation }
}

/// Relies on Arena::remove: the value under the index is taken out if it is
/// there; nothing else changes.
#[verifier::external_body]
pub(crate) fn remove_entity_slot(a: &mut Arena<EntityNode>, h: EntityHandle) -> (r: Option<
    EntityNode,
>)
    ensures
        r == (if entity_slots(*old(a)).contains_key(h) {
            Some(entity_slots(*old(a))[h])
        } else {
            None
        }),
        entity_slots(*final(a)) == entity_slots(*old(a)).remove(h),
{
    a.remove(Index::from_raw_parts(h.index, h.generation))
}

/// Relies on Arena::get: the value stored under the index, if any.
#[verifier::external_body]
pub(crate) fn entity_slot(a: &Arena<EntityNode>, h: EntityHandle) -> (r: Option<&EntityNode>)
    ensures
        r.is_some() == entity_slots(*a).contains_key(h),
        r.is_some() ==> *r.unwrap() == entity_slots(*a)[h],
{
    a.get(Index::from_raw_parts(h.index, h.generation))
}

/// Relies on Arena::get_mut: overwrites the value stored under the index, if
/// there is one; nothing else changes.
#[verifier::external_body]
pub(crate) fn set_entity_slot(a: &mut Arena<EntityNode>, h: EntityHandle, n: EntityNode) -> (r:
    bool)
    ensures
        r == entity_slots(*old(a)).contains_key(h),
        entity_slots(*final(a)) == (if r {
            entity_slots(*old(a)).insert(h, n)
        } else {
            entity_slots(*old(a))
        }),
{
    match a.get_mut(Index::from_raw_parts(h.index, h.generation)) {
        Some(slot) => {
            *slot = n;
            true
        },
        None => false,
    }
}

/// Relies on Arena::iter: every stored value is visited once, with its index.
#[verifier::external_body]
pub(crate) fn entity_handles_of(a: &Arena<EntityNode>) -> (r: Vec<EntityHandle>)
    ensures
        r@.no_duplicates(),
        forall|h: EntityHandle| r@.contains(h) <==> entity_slots(*a).contains_key(h),
{
    let mut r = Vec::new();
    for (i, _) in a.iter() {
        let (index, generation) = i.into_raw_parts();
        r.push(EntityHandle { index, generation });
    }
    r
}

/// Relies on Arena::new: a new arena is empty.
#[verifier::external_body]
pub(crate) fn new_collider_arena() -> (r: Arena<ColliderNode>)
    ensures
        collider_slots(r).dom() == Set::<ColliderHandle>::empty(),
{
    Arena::new()
}

/// Relies on Arena::insert: the value is stored under an index that no stored
/// value has (a free slot), and nothing else changes.
#[verifier::external_body]
pub(crate) fn insert_collider(a: &mut Arena<ColliderNode>, n: ColliderNode) -> (r: ColliderHandle)
    ensures
        !collider_slots(*old(a)).contains_key(r),
        collider_slots(*final(a)) == collider_slots(*old(a)).insert(r, n),
{
    let (index, generation) = a.insert(n).into_raw_parts();
    ColliderHandle { index, generation }
}

/// Relies on Arena::remove: the value under the index is taken out if it is
/// there; nothing else changes.
#[verifier::external_body]
pub(crate) fn remove_collider_slot(a: &mut Arena<ColliderNode>, h: ColliderHandle) -> (r: Option<
    ColliderNode,
>)
    ensures
        r == (if collider_slots(*old(a)).contains_key(h) {
            Some(collider_slots(*old(a))[h])
        } else {
            None
        }),
        collider_slots(*final(a)) == collider_slots(*old(a)).remove(h),
{
    a.remove(Index::from_raw_parts(h.index, h.generation))
}

/// Relies on Arena::get: the value stored under the index, if any.
#[verifier::external_body]
pub(crate) fn collider_slot(a: &Arena<ColliderNode>, h: ColliderHandle) -> (r: Option<
    &ColliderNode,
>)
    ensures
        r.is_some() == collider_slots(*a).contains_key(h),
        r.is_some() ==> *r.unwrap() == collider_slots(*a)[h],
{
    a.get(Index::from_raw_parts(h.index, h.generation))
}

/// Relies on Arena::get_mut: overwrites the value stored under the index, if
/// there is one; nothing else changes.
#[verifier::external_body]
pub(crate) fn set_collider_slot(a: &mut Arena<ColliderNode>, h: ColliderHandle, n: ColliderNode) -> (r:
    bool)
    ensures
        r == collider_slots(*old(a)).contains_key(h),
        collider_slots(*final(a)) == (if r {
            collider_slots(*old(a)).insert(h, n)
        } else {
            collider_slots(*old(a))
        }),
{
    match a.get_mut(Index::from_raw_parts(h.index, h.generation)) {
        Some(slot) => {
            *slot = n;
            true
        },
        None => false,
    }
}

} // verus!
