//! The shared set of line fingerprints, backed by a hash set from the
//! `hashbrown` crate.
//!
//! The set itself is outside code; its contents are named by the
//! uninterpreted function `dedup_set_contents`, and the two operations the
//! engine uses carry contracts that say how they move those contents.

use vstd::prelude::*;

verus! {

/// The set of fingerprints already written to the output, shared across all
/// chunk invocations of one run.  Holds a `hashbrown::HashSet<u64>`.
#[verifier::external_body]
pub struct DedupSet {
    set: hashbrown::HashSet<u64>,
}

/// The fingerprints the set holds.
pub uninterp spec fn dedup_set_contents(s: DedupSet) -> Set<u64>;

impl DedupSet {
    /// Relies on `hashbrown::HashSet::new`: the fresh set is empty.
    #[verifier::external_body]
    pub fn new() -> (s: DedupSet)
        ensures
            dedup_set_contents(s) == Set::<u64>::empty(),
    {
        DedupSet { set: hashbrown::HashSet::new() }
    }

    /// Relies on `hashbrown::HashSet::insert`: after the call the value is in
    /// the set, nothing else changes, and the call returns true exactly when
    /// the value was not there before.
    #[verifier::external_body]
    pub fn insert(&mut self, value: u64) -> (newly_added: bool)
        ensures
            dedup_set_contents(*final(self)) == dedup_set_contents(*old(self)).insert(value),
            newly_added == !dedup_set_contents(*old(self)).contains(value),
    {
        self.set.insert(value)
    }
}

} // verus!
