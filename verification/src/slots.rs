//! Generational keys handed out by `slotmap`.
//!
//! The forest and the dependency tracker take their keys from a [`SlotMap`]: a key stays valid
//! while its entry lives and is never confused with a key of an entry that was removed. Keys
//! travel through the library as the `u64` that `KeyData::as_ffi` gives for them.

use slotmap::{DefaultKey, Key, KeyData, SlotMap};
use vstd::prelude::*;

verus! {

/// A `slotmap::SlotMap` that holds keys only.
///
/// The map holds no values: the forest and the tracker keep theirs in maps keyed by the `u64`
/// of each key.
#[verifier::external_body]
pub struct KeySlots {
    map: SlotMap<DefaultKey, ()>,
}

/// The keys that a slot map holds, each as the `u64` of `KeyData::as_ffi`.
pub uninterp spec fn slot_keys(m: KeySlots) -> Set<u64>;

/// `SlotMap::new`: a slot map that holds no key.
#[verifier::external_body]
pub(crate) fn slots_new() -> (m: KeySlots)
    ensures
        slot_keys(m) == Set::<u64>::empty(),
{
    KeySlots { map: SlotMap::new() }
}

/// `SlotMap::insert`: returns the key of a new entry, one that the map did not hold before.
///
/// The source panics when the map is full, that is when it holds `u32::MAX - 1` entries, so the
/// call requires fewer.
#[verifier::external_body]
pub(crate) fn slots_insert(m: &mut KeySlots) -> (k: u64)
    requires
        slot_keys(*old(m)).finite(),
        slot_keys(*old(m)).len() < 0xffff_fffe,
    ensures
        !slot_keys(*old(m)).contains(k),
        slot_keys(*final(m)) == slot_keys(*old(m)).insert(k),
{
    m.map.insert(()).data().as_ffi()
}

/// `SlotMap::remove`: removes the entry of a key the map holds.
///
/// The key is rebuilt with `KeyData::from_ffi`, which gives back the key of any `u64` that
/// `as_ffi` produced; the call therefore requires a key the map holds.
#[verifier::external_body]
pub(crate) fn slots_remove(m: &mut KeySlots, k: u64)
    requires
        slot_keys(*old(m)).contains(k),
    ensures
        slot_keys(*final(m)) == slot_keys(*old(m)).remove(k),
{
    m.map.remove(DefaultKey::from(KeyData::from_ffi(k)));
}

} // verus!
