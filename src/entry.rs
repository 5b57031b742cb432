//! Cache entries and the handles that name them.
use vstd::prelude::*;

verus! {

/// A handle on one cache entry.
///
/// Handles are cheap to copy. A handle names its entry, not a value: when the
/// entry is overwritten in place, the handle reads the new value.
#[derive(Clone, Copy, Debug, PartialEq, Eq, Structural)]
pub struct AssetRefLock {
    entry: u64,
}

impl AssetRefLock {
    /// The identity of the entry that the handle names.
    pub closed spec fn ident(self) -> u64 {
        self.entry
    }

    /// Checks if the two handles refer to the same cache entry.
    pub fn ptr_eq(&self, other: &Self) -> (r: bool)
        ensures
            r == (self.ident() == other.ident()),
    {
        self.entry == other.entry
    }
}

/// One cell of the cache: a value together with the identity under which
/// handles name it. Overwriting the value keeps the identity.
#[derive(Debug)]
pub struct CacheEntry<A> {
    entry: u64,
    value: A,
}

impl<A> CacheEntry<A> {
    /// The identity of the entry.
    pub closed spec fn ident(&self) -> u64 {
        self.entry
    }

    /// The value the entry holds.
    pub closed spec fn value_spec(&self) -> A {
        self.value
    }

    /// Creates an entry with identity `ident` holding `asset`.
    pub fn new(asset: A, ident: u64) -> (r: CacheEntry<A>)
        ensures
            r.ident() == ident,
            r.value_spec() == asset,
    {
        CacheEntry { entry: ident, value: asset }
    }

    /// Returns a handle on the entry.
    pub fn get_ref(&self) -> (r: AssetRefLock)
        ensures
            r.ident() == self.ident(),
    {
        AssetRefLock { entry: self.entry }
    }

    /// The value the entry holds.
    pub fn read(&self) -> (r: &A)
        ensures
            *r == self.value_spec(),
    {
        &self.value
    }

    /// Replaces the value in place and returns a handle on the entry; the
    /// identity, and so every handle already given out, is kept.
    pub fn write(&mut self, asset: A) -> (r: AssetRefLock)
        ensures
            final(self).ident() == old(self).ident(),
            final(self).value_spec() == asset,
            r.ident() == old(self).ident(),
    {
        self.value = asset;
        AssetRefLock { entry: self.entry }
    }

    /// Consumes the entry and returns its value.
    pub fn into_inner(self) -> (r: A)
        ensures
            r == self.value_spec(),
    {
        self.value
    }
}

} // verus!
