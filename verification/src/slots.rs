//! The trusted boundary around the generation-checked scope arena.
//!
//! Scope handles are keys of a `slotmap::SlotMap`: once a key is removed it
//! never resolves again, which is what makes a disposed scope's handles fail
//! permanently. The map stores only the index of the scope's state in the
//! runtime's backing store; everything else is verified code.

use vstd::prelude::*;
use slotmap::{DefaultKey, SlotMap};

verus! {

#[verifier::external_type_specification]
#[verifier::external_body]
pub struct ExDefaultKey(DefaultKey);

/// The arena of scope keys, opaque to the verifier: a `slotmap::SlotMap`
/// from generation-checked keys to indices into the runtime's backing store.
#[verifier::external_body]
pub struct ScopeArena {
    map: SlotMap<DefaultKey, usize>,
}

/// What the arena holds: each live key, mapped to the stored index.
pub uninterp spec fn slot_contents(m: ScopeArena) -> Map<DefaultKey, usize>;

impl View for ScopeArena {
    type V = Map<DefaultKey, usize>;

    open spec fn view(&self) -> Map<DefaultKey, usize> {
        slot_contents(*self)
    }
}

/// Relies on slotmap's `SlotMap::new`: an empty map.
#[verifier::external_body]
pub fn arena_new() -> (r: ScopeArena)
    ensures
        forall|k: DefaultKey| !r@.contains_key(k),
{
    ScopeArena { map: SlotMap::new() }
}

impl ScopeArena {

    /// Relies on slotmap's `SlotMap::insert`: stores the value under a key
    /// that no entry currently has, and returns that key. `insert` panics
    /// only on a full map (about 2^32 occupied slots), which the
    /// precondition rules out.
    #[verifier::external_body]
    pub fn insert(&mut self, v: usize) -> (k: DefaultKey)
        requires
            old(self)@.dom().finite(),
            old(self)@.len() < 0xFFFF_0000,
        ensures
            !old(self)@.contains_key(k),
            final(self)@ =~= old(self)@.insert(k, v),
    {
        self.map.insert(v)
    }

    /// Relies on slotmap's `SlotMap::get`: `Some` exactly for a key whose
    /// entry is still present, and then the stored value.
    #[verifier::external_body]
    pub fn get(&self, k: DefaultKey) -> (r: Option<usize>)
        ensures
            match r {
                Some(v) => slot_contents(*self).contains_key(k) && slot_contents(*self)[k]
                    == v,
                None => !slot_contents(*self).contains_key(k),
            },
    {
        self.map.get(k).copied()
    }

    /// Relies on slotmap's `SlotMap::remove`: drops the entry for the key
    /// (if any), so the key never resolves again, and returns what was
    /// stored.
    #[verifier::external_body]
    pub fn remove(&mut self, k: DefaultKey) -> (r: Option<usize>)
        ensures
            final(self)@ =~= old(self)@.remove(k),
            match r {
                Some(v) => old(self)@.contains_key(k) && old(self)@[k] == v,
                None => !old(self)@.contains_key(k),
            },
    {
        self.map.remove(k)
    }
}

/// Relies on the `PartialEq` of slotmap's `DefaultKey`, which compares the
/// key's slot index and version: equal exactly for the same key.
#[verifier::external_body]
pub fn key_eq(a: &DefaultKey, b: &DefaultKey) -> (r: bool)
    ensures
        r == (*a == *b),
{
    a == b
}

} // verus!
