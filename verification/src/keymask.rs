//! Live block-key set for hole-punching.
//!
//! In `AND(x, OR(a, b, ..))` a key absent from `x` is dead in the result, so the
//! `OR` need never materialize it. [`KeyMask`] is the set of keys that can survive
//! to the root; cursors skip every block whose key is not in it. Pruning is by key
//! only, and keeps the result.
use vstd::prelude::*;

use crate::container::Bitmap;
use crate::words::{and, bits_set, clear, or, set_value, test_value};

verus! {

/// A dense bitset over the whole 16-bit key space.
pub struct KeyMask {
    words: Box<Bitmap>,
}

impl View for KeyMask {
    type V = Set<u16>;

    closed spec fn view(&self) -> Set<u16> {
        bits_set((*self.words)@)
    }
}

impl KeyMask {
    /// No keys.
    pub fn empty() -> (r: Self)
        ensures
            r@ == Set::<u16>::empty(),
    {
        let mut words: Box<Bitmap> = Box::new([0u64; 1024]);
        clear(&mut *words);
        KeyMask { words }
    }

    /// Add `key`.
    pub fn set(&mut self, key: u16)
        ensures
            final(self)@ == old(self)@.insert(key),
    {
        set_value(&mut *self.words, key)
    }

    /// Whether `key` is in the set.
    pub fn contains(&self, key: u16) -> (r: bool)
        ensures
            r == self@.contains(key),
    {
        test_value(&*self.words, key)
    }

    /// Keep the keys that are also in `other`.
    pub fn intersect_with(&mut self, other: &KeyMask)
        ensures
            final(self)@ == old(self)@.intersect(other@),
    {
        and(&mut *self.words, &*other.words)
    }

    /// Add the keys of `other`.
    pub fn union_with(&mut self, other: &KeyMask)
        ensures
            final(self)@ == old(self)@.union(other@),
    {
        or(&mut *self.words, &*other.words)
    }
}

} // verus!
