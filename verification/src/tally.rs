//! A counting map from `u64` keys to `u32` counts, held in `rustc_hash`'s
//! `FxHashMap`. The map itself is trusted: its contents are named by
//! `tally_contents`, and each operation states what it does to them.

use vstd::prelude::*;

verus! {

/// An `FxHashMap<u64, u32>` of counts.
#[verifier::external_body]
pub struct Tally {
    m: rustc_hash::FxHashMap<u64, u32>,
}

/// The key-to-count map a `Tally` holds.
pub uninterp spec fn tally_contents(t: Tally) -> Map<u64, u32>;

impl Tally {
    /// Calls `FxHashMap::default`. Trusted: the new map holds nothing.
    #[verifier::external_body]
    pub(crate) fn new() -> (r: Tally)
        ensures
            tally_contents(r).dom() == Set::<u64>::empty(),
    {
        Tally { m: rustc_hash::FxHashMap::default() }
    }

    /// Calls `HashMap::get` on the `FxHashMap`. Trusted: the count stored under
    /// `k`, if any.
    #[verifier::external_body]
    pub(crate) fn get(&self, k: u64) -> (r: Option<u32>)
        ensures
            r == (if tally_contents(*self).contains_key(k) {
                Some(tally_contents(*self)[k])
            } else {
                None::<u32>
            }),
    {
        self.m.get(&k).copied()
    }

    /// Calls `HashMap::insert` on the `FxHashMap`. Trusted: `k` now maps to `v`
    /// and every other key is untouched.
    #[verifier::external_body]
    pub(crate) fn insert(&mut self, k: u64, v: u32)
        ensures
            tally_contents(*final(self)) == tally_contents(*old(self)).insert(k, v),
    {
        self.m.insert(k, v);
    }
}

} // verus!
