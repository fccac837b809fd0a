//! The slice of the block store that leader-slot planning reads: for each
//! slot, whether at least one shred has already been received there. A slot
//! with received shreds is forfeited for block production.

use vstd::prelude::*;

verus! {

/// Which slots already hold received shreds.
#[derive(Debug, Clone)]
pub struct Blocktree {
    pub received_slots: Vec<u64>,
}

impl Blocktree {
    pub open spec fn spec_has_received(self, slot: u64) -> bool {
        self.received_slots@.contains(slot)
    }

    /// An empty store: nothing received anywhere.
    pub fn new() -> (r: Self)
        ensures
            r.received_slots@ == Seq::<u64>::empty(),
    {
        Blocktree { received_slots: Vec::new() }
    }

    /// Record that a shred arrived for `slot`.
    pub fn record_received(&mut self, slot: u64)
        ensures
            final(self).received_slots@ == old(self).received_slots@.push(slot),
    {
        self.received_slots.push(slot);
    }

    /// Whether `slot` already holds a received shred.
    pub fn has_received(&self, slot: u64) -> (r: bool)
        ensures
            r == self.spec_has_received(slot),
    {
        let mut i: usize = 0;
        while i < self.received_slots.len()
            invariant
                0 <= i <= self.received_slots@.len(),
                forall|j: int| 0 <= j < i ==> self.received_slots@[j] != slot,
            decreases self.received_slots@.len() - i,
        {
            if self.received_slots[i] == slot {
                return true;
            }
            i = i + 1;
        }
        false
    }
}

/// Whether `slot` holds a received shred, with no store meaning nothing
/// received.
pub open spec fn opt_received(blocktree: Option<&Blocktree>, slot: u64) -> bool {
    match blocktree {
        None => false,
        Some(b) => b.spec_has_received(slot),
    }
}

} // verus!
