//! The slot map that owns the entities, seen through its contents: a map from
//! stable keys (as 64-bit handles) to entities.
use crate::entity::Entity;
use slotmap::{DefaultKey, Key, KeyData, SlotMap};
use vstd::prelude::*;

verus! {

/// The slot map that owns one kind of entity.
#[verifier::external_body]
pub struct EntitySlots {
    slots: SlotMap<DefaultKey, Entity>,
}

/// The entries of a slot map, each under its key's `KeyData::as_ffi` handle.
pub uninterp spec fn entries(m: EntitySlots) -> Map<u64, Entity>;

/// Relies on `SlotMap::new`: an empty map.
#[verifier::external_body]
pub(crate) fn slots_new() -> (r: EntitySlots)
    ensures
        entries(r).dom() == Set::<u64>::empty(),
{
    EntitySlots { slots: SlotMap::new() }
}

/// Relies on `SlotMap::insert`: the value is stored under a key that no
/// present entry has; it panics only when `u32::MAX` slots are taken.
#[verifier::external_body]
pub(crate) fn slots_insert(m: &mut EntitySlots, v: Entity) -> (k: u64)
    requires
        entries(*old(m)).len() < 0xffff_fffe,
    ensures
        !entries(*old(m)).contains_key(k),
        entries(*final(m)) == entries(*old(m)).insert(k, v),
{
    m.slots.insert(v).data().as_ffi()
}

/// Relies on `SlotMap::remove` (with `KeyData::from_ffi`, which gives back the
/// key of a handle): the entry leaves and its value is returned.
#[verifier::external_body]
pub(crate) fn slots_remove(m: &mut EntitySlots, k: u64) -> (r: Entity)
    requires
        entries(*old(m)).contains_key(k),
    ensures
        r == entries(*old(m))[k],
        entries(*final(m)) == entries(*old(m)).remove(k),
{
    m.slots.remove(DefaultKey::from(KeyData::from_ffi(k))).unwrap()
}

/// Relies on `SlotMap`'s `Index`: the value under a present key.
#[verifier::external_body]
pub(crate) fn slots_get(m: &EntitySlots, k: u64) -> (r: &Entity)
    requires
        entries(*m).contains_key(k),
    ensures
        *r == entries(*m)[k],
{
    &m.slots[DefaultKey::from(KeyData::from_ffi(k))]
}

/// Relies on `SlotMap`'s `IndexMut`: the value under a present key, to be
/// changed in place.
#[verifier::external_body]
pub(crate) fn slots_get_mut(m: &mut EntitySlots, k: u64) -> (r: &mut Entity)
    requires
        entries(*old(m)).contains_key(k),
    ensures
        *r == entries(*old(m))[k],
        entries(*final(m)) == entries(*old(m)).insert(k, *final(r)),
{
    &mut m.slots[DefaultKey::from(KeyData::from_ffi(k))]
}

/// Relies on `SlotMap::keys`: every present key once.
#[verifier::external_body]
pub(crate) fn slots_keys(m: &EntitySlots) -> (r: Vec<u64>)
    ensures
        r@.no_duplicates(),
        forall|k: u64| r@.contains(k) <==> entries(*m).contains_key(k),
{
    m.slots.keys().map(|k| k.data().as_ffi()).collect()
}

/// Relies on `SlotMap::len`: the number of entries.
#[verifier::external_body]
pub(crate) fn slots_len(m: &EntitySlots) -> (r: usize)
    ensures
        r == entries(*m).len(),
{
    m.slots.len()
}

} // verus!
