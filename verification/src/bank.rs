//! The ledger-state handle as the schedule logic reads it: the rooted slot,
//! the epoch configuration, and the per-epoch stake snapshots that decide
//! leadership. A real bank exposes exactly this capability set; here it is
//! held as plain values so the logic over it can be verified.

use crate::epoch_schedule::EpochSchedule;
use crate::keys::Pubkey;
use vstd::prelude::*;

verus! {

/// The stake snapshot fixed for one epoch: who may lead, with what weight.
#[derive(Debug, Clone)]
pub struct EpochStakes {
    pub epoch: u64,
    pub stakes: Vec<(Pubkey, u64)>,
}

/// Total weight of a snapshot.
pub open spec fn total_stake(s: Seq<(Pubkey, u64)>) -> int
    decreases s.len(),
{
    if s.len() == 0 {
        0
    } else {
        total_stake(s.drop_last()) + s.last().1
    }
}

/// The snapshot stored for `epoch`, if any.
pub open spec fn lookup_stakes(entries: Seq<EpochStakes>, epoch: u64) -> Option<
    Seq<(Pubkey, u64)>,
>
    decreases entries.len(),
{
    if entries.len() == 0 {
        None
    } else if entries[0].epoch == epoch {
        Some(entries[0].stakes@)
    } else {
        lookup_stakes(entries.drop_first(), epoch)
    }
}

/// The largest epoch that has a snapshot; below every epoch number when
/// there is none.
pub open spec fn max_stakes_epoch(entries: Seq<EpochStakes>) -> int
    decreases entries.len(),
{
    if entries.len() == 0 {
        -1
    } else if entries[0].epoch >= max_stakes_epoch(entries.drop_first()) {
        entries[0].epoch as int
    } else {
        max_stakes_epoch(entries.drop_first())
    }
}

/// Epochs above every stored snapshot have none.
pub proof fn lemma_lookup_above_max(entries: Seq<EpochStakes>, epoch: u64)
    requires
        epoch > max_stakes_epoch(entries),
    ensures
        lookup_stakes(entries, epoch) is None,
    decreases entries.len(),
{
    if entries.len() > 0 {
        lemma_lookup_above_max(entries.drop_first(), epoch);
    }
}

/// A served snapshot lookup names a stored entry.
pub proof fn lemma_lookup_entry(entries: Seq<EpochStakes>, epoch: u64)
    requires
        lookup_stakes(entries, epoch) is Some,
    ensures
        exists|i: int| 0 <= i < entries.len() && (#[trigger] entries[i]).epoch == epoch,
    decreases entries.len(),
{
    if entries.len() > 0 {
        if entries[0].epoch == epoch {
        } else {
            lemma_lookup_entry(entries.drop_first(), epoch);
            let i = choose|i: int|
                0 <= i < entries.drop_first().len() && (#[trigger] entries.drop_first()[i]).epoch
                    == epoch;
            assert(entries[i + 1].epoch == epoch);
        }
    }
}

/// The ledger state the schedule logic consumes.
#[derive(Debug, Clone)]
pub struct Bank {
    /// the rooted slot this handle stands at
    pub slot: u64,
    pub epoch_schedule: EpochSchedule,
    /// snapshots for the epochs whose leadership is already fixed
    pub epoch_stakes: Vec<EpochStakes>,
}

impl Bank {
    /// A usable handle: a sound epoch configuration whose epochs fit in
    /// memory, a slot far enough from the numeric horizon, and snapshots
    /// with distinct epochs, positive bounded weight, and in-range slots.
    pub open spec fn wf(self) -> bool {
        &&& self.epoch_schedule.wf()
        &&& self.epoch_schedule.slots_per_epoch <= usize::MAX
        &&& self.slot + self.epoch_schedule.leader_schedule_slot_offset
            + self.epoch_schedule.slots_per_epoch <= u64::MAX
        &&& forall|i: int, j: int|
            0 <= i < j < self.epoch_stakes.len() ==> (#[trigger] self.epoch_stakes[i]).epoch != (
            #[trigger] self.epoch_stakes[j]).epoch
        &&& forall|i: int|
            0 <= i < self.epoch_stakes.len() ==> 0 < total_stake(
                (#[trigger] self.epoch_stakes[i]).stakes@,
            ) <= u64::MAX
        &&& forall|i: int|
            0 <= i < self.epoch_stakes.len() ==> self.epoch_schedule.spec_first_slot_in_epoch(
                (#[trigger] self.epoch_stakes[i]).epoch as int + 1,
            ) <= u64::MAX
    }

    pub fn slot(&self) -> (r: u64)
        ensures
            r == self.slot,
    {
        self.slot
    }

    pub fn epoch_schedule(&self) -> (r: &EpochSchedule)
        ensures
            r == self.epoch_schedule,
    {
        &self.epoch_schedule
    }

    pub fn get_epoch_and_slot_index(&self, slot: u64) -> (r: (u64, u64))
        requires
            self.wf(),
        ensures
            self.epoch_schedule.in_epoch(slot as int, r.0 as int),
            r.0 == self.epoch_schedule.spec_epoch_of(slot as int),
            r.1 == self.epoch_schedule.spec_slot_index(slot as int),
            r.1 < self.epoch_schedule.spec_slots_in_epoch(r.0 as int),
    {
        self.epoch_schedule.get_epoch_and_slot_index(slot)
    }

    pub fn get_slots_in_epoch(&self, epoch: u64) -> (r: u64)
        requires
            self.wf(),
        ensures
            r == self.epoch_schedule.spec_slots_in_epoch(epoch as int),
    {
        self.epoch_schedule.get_slots_in_epoch(epoch)
    }

    pub fn get_stakers_epoch(&self, slot: u64) -> (r: u64)
        requires
            self.wf(),
            slot + self.epoch_schedule.leader_schedule_slot_offset <= u64::MAX,
        ensures
            r == self.epoch_schedule.spec_stakers_epoch(slot as int),
    {
        self.epoch_schedule.get_stakers_epoch(slot)
    }

    /// The stake snapshot for `epoch`, if this handle knows it.
    pub fn epoch_stakes(&self, epoch: u64) -> (r: Option<&Vec<(Pubkey, u64)>>)
        ensures
            match r {
                Some(v) => lookup_stakes(self.epoch_stakes@, epoch) == Some(v@),
                None => lookup_stakes(self.epoch_stakes@, epoch) is None,
            },
    {
        proof {
            assert(self.epoch_stakes@.skip(0) =~= self.epoch_stakes@);
        }
        let mut i: usize = 0;
        while i < self.epoch_stakes.len()
            invariant
                0 <= i <= self.epoch_stakes@.len(),
                lookup_stakes(self.epoch_stakes@.skip(i as int), epoch) == lookup_stakes(
                    self.epoch_stakes@,
                    epoch,
                ),
            decreases self.epoch_stakes@.len() - i,
        {
            if self.epoch_stakes[i].epoch == epoch {
                proof {
                    assert(self.epoch_stakes@.skip(i as int)[0] == self.epoch_stakes@[i as int]);
                }
                return Some(&self.epoch_stakes[i].stakes);
            }
            proof {
                assert(self.epoch_stakes@.skip(i as int).drop_first() =~= self.epoch_stakes@.skip(
                    i + 1,
                ));
                assert(self.epoch_stakes@.skip(i as int)[0] == self.epoch_stakes@[i as int]);
            }
            i = i + 1;
        }
        proof {
            assert(self.epoch_stakes@.skip(self.epoch_stakes@.len() as int).len() == 0);
        }
        None
    }
}

} // verus!
