//! The transaction validation unit. Its pipeline stages — shred fetch,
//! retransmit, replay, block streaming, ledger cleanup, storage — are
//! thread, socket, and database plumbing that lives outside this library.
//! What those stages share, and what this crate holds and verifies of the
//! unit, is the leader schedule cache built over the rooted bank.

use crate::bank::Bank;
use crate::leader_schedule_cache::LeaderScheduleCache;
use vstd::prelude::*;

verus! {

/// The validation unit's verified core state.
pub struct Tvu {
    pub leader_schedule_cache: LeaderScheduleCache,
}

impl Tvu {
    /// Assemble the unit's core over the rooted bank; the caller wires the
    /// pipeline stages around it.
    pub fn new(root_bank: &Bank) -> (r: Tvu)
        requires
            root_bank.wf(),
        ensures
            r.leader_schedule_cache.wf(),
            r.leader_schedule_cache.consistent_with(*root_bank),
            r.leader_schedule_cache.epoch_schedule == root_bank.epoch_schedule,
    {
        Tvu { leader_schedule_cache: LeaderScheduleCache::new_from_bank(root_bank) }
    }
}

} // verus!
