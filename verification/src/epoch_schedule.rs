//! Epoch arithmetic: maps a slot to its (epoch, slot-index) pair and back,
//! for a configuration with a fixed epoch length and an optional warm-up
//! region of doubling epoch lengths at the start of the ledger.

use vstd::arithmetic::power2::{
    lemma2_to64_rest, lemma_pow2_pos, lemma_pow2_strictly_increases, lemma_pow2_unfold, pow2,
};
use vstd::prelude::*;

verus! {

/// The shortest epoch a warm-up region may start with.
pub const MINIMUM_SLOTS_PER_EPOCH: u64 = 32;

/// `pow2(e + 1) == 2 * pow2(e)`, stated in the shape the loop proofs need.
proof fn lemma_pow2_succ(e: nat)
    ensures
        pow2(e + 1) == 2 * pow2(e),
{
    lemma_pow2_unfold(e + 1);
}

/// For `e <= 58`, `32 * pow2(e)` fits comfortably in a `u64`.
proof fn lemma_warmup_len_fits(e: nat)
    requires
        e <= 58,
    ensures
        MINIMUM_SLOTS_PER_EPOCH * pow2(e) <= 0x8000_0000_0000_0000,
{
    lemma2_to64_rest();
    if e < 58 {
        lemma_pow2_strictly_increases(e, 58);
    }
    assert(MINIMUM_SLOTS_PER_EPOCH * pow2(e) <= MINIMUM_SLOTS_PER_EPOCH * 0x400000000000000)
        by (nonlinear_arith)
        requires
            pow2(e) <= 0x400000000000000,
    ;
}

/// Immutable epoch configuration.
///
/// With `warmup` off, every epoch has `slots_per_epoch` slots. With `warmup`
/// on, epoch lengths start at `MINIMUM_SLOTS_PER_EPOCH` and double each epoch
/// until they reach `slots_per_epoch`; `first_normal_epoch` is the first epoch
/// of full length and `first_normal_slot` its first slot.
#[derive(Clone, Copy, Debug, PartialEq, Eq, Structural)]
pub struct EpochSchedule {
    pub slots_per_epoch: u64,
    /// How far ahead of an epoch's first slot the leader schedule for that
    /// epoch is fixed, counted in slots.
    pub leader_schedule_slot_offset: u64,
    pub warmup: bool,
    pub first_normal_epoch: u64,
    pub first_normal_slot: u64,
}

impl EpochSchedule {
    /// The derived fields agree with the primary ones.
    pub open spec fn wf(self) -> bool {
        &&& self.slots_per_epoch >= MINIMUM_SLOTS_PER_EPOCH
        &&& !self.warmup ==> self.first_normal_epoch == 0 && self.first_normal_slot == 0
        &&& self.first_normal_slot == MINIMUM_SLOTS_PER_EPOCH * (pow2(
            self.first_normal_epoch as nat,
        ) - 1)
        &&& self.warmup ==> MINIMUM_SLOTS_PER_EPOCH * pow2(self.first_normal_epoch as nat)
            >= self.slots_per_epoch
        &&& self.first_normal_epoch > 0 ==> MINIMUM_SLOTS_PER_EPOCH * pow2(
            (self.first_normal_epoch - 1) as nat,
        ) < self.slots_per_epoch
        &&& self.first_normal_epoch <= 58
    }

    /// Number of slots in `epoch`.
    pub open spec fn spec_slots_in_epoch(self, epoch: int) -> int
        recommends
            0 <= epoch,
    {
        if epoch < self.first_normal_epoch {
            MINIMUM_SLOTS_PER_EPOCH * pow2(epoch as nat)
        } else {
            self.slots_per_epoch as int
        }
    }

    /// First slot of `epoch`.
    pub open spec fn spec_first_slot_in_epoch(self, epoch: int) -> int
        recommends
            0 <= epoch,
    {
        if epoch <= self.first_normal_epoch {
            MINIMUM_SLOTS_PER_EPOCH * (pow2(epoch as nat) - 1)
        } else {
            self.first_normal_slot + (epoch - self.first_normal_epoch) * self.slots_per_epoch
        }
    }

    /// `slot` lies inside `epoch`.
    pub open spec fn in_epoch(self, slot: int, epoch: int) -> bool {
        &&& 0 <= epoch
        &&& self.spec_first_slot_in_epoch(epoch) <= slot < self.spec_first_slot_in_epoch(epoch)
            + self.spec_slots_in_epoch(epoch)
    }

    /// The epoch that contains `slot`; well defined by `lemma_in_epoch_unique`.
    pub open spec fn spec_epoch_of(self, slot: int) -> int {
        choose|e: int| self.in_epoch(slot, e)
    }

    /// The index of `slot` within its epoch.
    pub open spec fn spec_slot_index(self, slot: int) -> int {
        slot - self.spec_first_slot_in_epoch(self.spec_epoch_of(slot))
    }

    /// The latest epoch whose leader schedule is fully determined once `slot`
    /// is rooted.
    pub open spec fn spec_stakers_epoch(self, slot: int) -> int
        recommends
            self.wf(),
            0 <= slot,
    {
        if slot < self.first_normal_slot {
            self.spec_epoch_of(slot) + 1
        } else {
            self.first_normal_epoch + (slot - self.first_normal_slot
                + self.leader_schedule_slot_offset) / (self.slots_per_epoch as int) + 1
        }
    }

    /// Consecutive epochs tile the slot line: each epoch starts where the
    /// previous one ends.
    pub proof fn lemma_first_slot_succ(self, epoch: int)
        requires
            self.wf(),
            0 <= epoch,
        ensures
            self.spec_first_slot_in_epoch(epoch + 1) == self.spec_first_slot_in_epoch(epoch)
                + self.spec_slots_in_epoch(epoch),
    {
        let m = MINIMUM_SLOTS_PER_EPOCH as int;
        if epoch + 1 <= self.first_normal_epoch {
            lemma_pow2_succ(epoch as nat);
            let p = pow2(epoch as nat) as int;
            assert(self.spec_first_slot_in_epoch(epoch + 1) == m * (2 * p - 1));
            assert(m * (2 * p - 1) == m * (p - 1) + m * p) by (nonlinear_arith);
        } else if epoch == self.first_normal_epoch {
            assert(self.spec_first_slot_in_epoch(epoch + 1) == self.first_normal_slot + 1
                * self.slots_per_epoch);
        } else {
            let k = epoch - self.first_normal_epoch;
            let s = self.slots_per_epoch as int;
            assert((k + 1) * s == k * s + s) by (nonlinear_arith);
        }
    }

    /// Every epoch is non-empty.
    pub proof fn lemma_slots_in_epoch_pos(self, epoch: int)
        requires
            self.wf(),
            0 <= epoch,
        ensures
            self.spec_slots_in_epoch(epoch) >= MINIMUM_SLOTS_PER_EPOCH,
    {
        if epoch < self.first_normal_epoch {
            lemma_pow2_pos(epoch as nat);
            assert(MINIMUM_SLOTS_PER_EPOCH * pow2(epoch as nat) >= MINIMUM_SLOTS_PER_EPOCH * 1)
                by (nonlinear_arith)
                requires
                    pow2(epoch as nat) >= 1,
            ;
        }
    }

    /// No epoch is longer than the configured full length.
    pub proof fn lemma_slots_in_epoch_le(self, epoch: int)
        requires
            self.wf(),
            0 <= epoch,
        ensures
            self.spec_slots_in_epoch(epoch) <= self.slots_per_epoch,
    {
        if epoch < self.first_normal_epoch {
            if epoch < self.first_normal_epoch - 1 {
                lemma_pow2_strictly_increases(epoch as nat, (self.first_normal_epoch - 1) as nat);
            }
            assert(MINIMUM_SLOTS_PER_EPOCH * pow2(epoch as nat) <= MINIMUM_SLOTS_PER_EPOCH * pow2(
                (self.first_normal_epoch - 1) as nat,
            )) by (nonlinear_arith)
                requires
                    pow2(epoch as nat) <= pow2((self.first_normal_epoch - 1) as nat),
            ;
        }
    }

    /// First slots are increasing with the epoch number.
    pub proof fn lemma_first_slot_monotone(self, e1: int, e2: int)
        requires
            self.wf(),
            0 <= e1 <= e2,
        ensures
            self.spec_first_slot_in_epoch(e1) <= self.spec_first_slot_in_epoch(e2),
        decreases e2 - e1,
    {
        if e1 < e2 {
            self.lemma_first_slot_monotone(e1, e2 - 1);
            self.lemma_first_slot_succ(e2 - 1);
            self.lemma_slots_in_epoch_pos(e2 - 1);
        }
    }

    /// A slot lies in at most one epoch.
    pub proof fn lemma_in_epoch_unique(self, slot: int, e1: int, e2: int)
        requires
            self.wf(),
            self.in_epoch(slot, e1),
            self.in_epoch(slot, e2),
        ensures
            e1 == e2,
    {
        if e1 < e2 {
            self.lemma_first_slot_succ(e1);
            self.lemma_first_slot_monotone(e1 + 1, e2);
        }
        if e2 < e1 {
            self.lemma_first_slot_succ(e2);
            self.lemma_first_slot_monotone(e2 + 1, e1);
        }
    }

    /// Whatever epoch a slot lies in is the epoch `spec_epoch_of` names.
    pub proof fn lemma_epoch_of_agrees(self, slot: int, epoch: int)
        requires
            self.wf(),
            self.in_epoch(slot, epoch),
        ensures
            self.spec_epoch_of(slot) == epoch,
    {
        let e = choose|e: int| self.in_epoch(slot, e);
        self.lemma_in_epoch_unique(slot, e, epoch);
    }

    /// Every slot inside the warm-up region lies in some epoch at or above
    /// `from`, provided `from`'s epoch has already begun.
    proof fn lemma_warmup_epoch_exists(self, slot: int, from: int)
        requires
            self.wf(),
            0 <= from,
            self.spec_first_slot_in_epoch(from) <= slot < self.first_normal_slot,
        ensures
            exists|e: int| #[trigger] self.in_epoch(slot, e),
        decreases self.first_normal_epoch - from,
    {
        self.lemma_first_slot_succ(from);
        if slot < self.spec_first_slot_in_epoch(from) + self.spec_slots_in_epoch(from) {
            assert(self.in_epoch(slot, from));
        } else {
            if from + 1 >= self.first_normal_epoch {
                self.lemma_first_slot_monotone(self.first_normal_epoch as int, from + 1);
                assert(false);
            }
            self.lemma_warmup_epoch_exists(slot, from + 1);
        }
    }

    /// Every slot lies in some epoch, so `spec_epoch_of` always names one.
    pub proof fn lemma_epoch_of_in_epoch(self, slot: int)
        requires
            self.wf(),
            0 <= slot,
        ensures
            self.in_epoch(slot, self.spec_epoch_of(slot)),
    {
        if slot < self.first_normal_slot {
            vstd::arithmetic::power2::lemma2_to64();
            self.lemma_warmup_epoch_exists(slot, 0);
        } else {
            let s = self.slots_per_epoch as int;
            let off = slot - self.first_normal_slot;
            let q = off / s;
            let rem = off % s;
            assert(off == q * s + rem && 0 <= rem < s && q >= 0) by (nonlinear_arith)
                requires
                    q == off / s,
                    rem == off % s,
                    s >= MINIMUM_SLOTS_PER_EPOCH,
                    off >= 0,
            ;
            let epoch = self.first_normal_epoch + q;
            assert(self.spec_first_slot_in_epoch(epoch) == self.first_normal_slot + q * s) by {
                if q > 0 {
                    assert((epoch - self.first_normal_epoch) * s == q * s) by (nonlinear_arith)
                        requires
                            epoch - self.first_normal_epoch == q,
                    ;
                } else {
                    assert(q * s == 0) by (nonlinear_arith)
                        requires
                            q == 0,
                    ;
                }
            }
            assert(self.in_epoch(slot, epoch));
        }
    }

    /// The stakers epoch begins within one offset and one epoch length of
    /// the rooted slot.
    pub proof fn lemma_stakers_epoch_bound(self, slot: u64)
        requires
            self.wf(),
        ensures
            1 <= self.spec_stakers_epoch(slot as int),
            self.spec_first_slot_in_epoch(self.spec_stakers_epoch(slot as int)) <= slot
                + self.leader_schedule_slot_offset + self.slots_per_epoch,
    {
        if (slot as int) < self.first_normal_slot {
            self.lemma_epoch_of_in_epoch(slot as int);
            let e = self.spec_epoch_of(slot as int);
            self.lemma_first_slot_succ(e);
            self.lemma_slots_in_epoch_le(e);
        } else {
            let s = self.slots_per_epoch as int;
            let num = slot - self.first_normal_slot + self.leader_schedule_slot_offset;
            let q = num / s;
            assert(q * s <= num && q >= 0) by (nonlinear_arith)
                requires
                    q == num / s,
                    s >= MINIMUM_SLOTS_PER_EPOCH,
                    num >= 0,
            ;
            let stakers = self.first_normal_epoch + q + 1;
            assert(self.spec_first_slot_in_epoch(stakers) == self.first_normal_slot + (q + 1)
                * s) by {
                assert((stakers - self.first_normal_epoch) * s == (q + 1) * s)
                    by (nonlinear_arith)
                    requires
                        stakers - self.first_normal_epoch == q + 1,
                ;
            }
            assert((q + 1) * s == q * s + s) by (nonlinear_arith);
        }
    }

    /// An epoch whose successor starts within the slot range is itself far
    /// from the end of the epoch range.
    pub proof fn lemma_epoch_bounded(self, e: int)
        requires
            self.wf(),
            0 <= e,
            self.spec_first_slot_in_epoch(e + 1) <= u64::MAX,
        ensures
            e + 1 < u64::MAX,
    {
        if e + 1 > self.first_normal_epoch {
            let k = e + 1 - self.first_normal_epoch;
            let s = self.slots_per_epoch as int;
            assert(k * MINIMUM_SLOTS_PER_EPOCH <= k * s) by (nonlinear_arith)
                requires
                    k >= 1,
                    MINIMUM_SLOTS_PER_EPOCH <= s,
            ;
            assert(k * MINIMUM_SLOTS_PER_EPOCH <= u64::MAX ==> k <= u64::MAX as int
                / MINIMUM_SLOTS_PER_EPOCH as int) by (nonlinear_arith);
        }
    }

    /// Builds a configuration; with `warmup` the derived warm-up region is
    /// computed by doubling from the minimum epoch length.
    pub fn new(slots_per_epoch: u64, leader_schedule_slot_offset: u64, warmup: bool) -> (r: Self)
        requires
            slots_per_epoch >= MINIMUM_SLOTS_PER_EPOCH,
            warmup ==> slots_per_epoch <= 0x8000_0000_0000_0000u64,
        ensures
            r.wf(),
            r.slots_per_epoch == slots_per_epoch,
            r.leader_schedule_slot_offset == leader_schedule_slot_offset,
            r.warmup == warmup,
    {
        let mut first_normal_epoch: u64 = 0;
        let mut first_normal_slot: u64 = 0;
        let mut epoch_len: u64 = MINIMUM_SLOTS_PER_EPOCH;
        proof {
            vstd::arithmetic::power2::lemma2_to64();
        }
        if warmup {
            while epoch_len < slots_per_epoch
                invariant
                    MINIMUM_SLOTS_PER_EPOCH <= slots_per_epoch <= 0x8000_0000_0000_0000u64,
                    epoch_len == MINIMUM_SLOTS_PER_EPOCH * pow2(first_normal_epoch as nat),
                    first_normal_slot == MINIMUM_SLOTS_PER_EPOCH * (pow2(
                        first_normal_epoch as nat,
                    ) - 1),
                    first_normal_epoch > 0 ==> MINIMUM_SLOTS_PER_EPOCH * pow2(
                        (first_normal_epoch - 1) as nat,
                    ) < slots_per_epoch,
                    first_normal_epoch <= 58,
                decreases 58 - first_normal_epoch,
            {
                proof {
                    lemma_pow2_succ(first_normal_epoch as nat);
                    if first_normal_epoch >= 58 {
                        // a 58-fold doubling already exceeds any allowed length
                        lemma2_to64_rest();
                        assert(MINIMUM_SLOTS_PER_EPOCH * pow2(58) == 0x8000_0000_0000_0000)
                            by (nonlinear_arith)
                            requires
                                pow2(58) == 0x400000000000000,
                        ;
                        assert(false);
                    }
                    lemma_warmup_len_fits((first_normal_epoch + 1) as nat);
                }
                first_normal_slot = first_normal_slot + epoch_len;
                epoch_len = epoch_len * 2;
                first_normal_epoch = first_normal_epoch + 1;
            }
        }
        EpochSchedule {
            slots_per_epoch,
            leader_schedule_slot_offset,
            warmup,
            first_normal_epoch,
            first_normal_slot,
        }
    }

    /// Number of slots in `epoch`.
    pub fn get_slots_in_epoch(&self, epoch: u64) -> (r: u64)
        requires
            self.wf(),
        ensures
            r == self.spec_slots_in_epoch(epoch as int),
    {
        if epoch < self.first_normal_epoch {
            proof {
                vstd::arithmetic::power2::lemma2_to64();
            }
            let mut e: u64 = 0;
            let mut len: u64 = MINIMUM_SLOTS_PER_EPOCH;
            while e < epoch
                invariant
                    self.wf(),
                    epoch < self.first_normal_epoch,
                    0 <= e <= epoch,
                    len == MINIMUM_SLOTS_PER_EPOCH * pow2(e as nat),
                decreases epoch - e,
            {
                proof {
                    lemma_pow2_succ(e as nat);
                    lemma_warmup_len_fits((e + 1) as nat);
                }
                len = len * 2;
                e = e + 1;
            }
            len
        } else {
            self.slots_per_epoch
        }
    }

    /// First slot of `epoch`; the configuration must be small enough for it
    /// to fit in a slot number.
    pub fn get_first_slot_in_epoch(&self, epoch: u64) -> (r: u64)
        requires
            self.wf(),
            self.spec_first_slot_in_epoch(epoch as int) <= u64::MAX,
        ensures
            r == self.spec_first_slot_in_epoch(epoch as int),
    {
        if epoch <= self.first_normal_epoch {
            proof {
                vstd::arithmetic::power2::lemma2_to64();
            }
            let mut e: u64 = 0;
            let mut start: u64 = 0;
            let mut len: u64 = MINIMUM_SLOTS_PER_EPOCH;
            while e < epoch
                invariant
                    self.wf(),
                    epoch <= self.first_normal_epoch,
                    0 <= e <= epoch,
                    len == MINIMUM_SLOTS_PER_EPOCH * pow2(e as nat),
                    start == MINIMUM_SLOTS_PER_EPOCH * (pow2(e as nat) - 1),
                decreases epoch - e,
            {
                proof {
                    lemma_pow2_succ(e as nat);
                    lemma_warmup_len_fits((e + 1) as nat);
                }
                start = start + len;
                len = len * 2;
                e = e + 1;
            }
            start
        } else {
            let diff = epoch - self.first_normal_epoch;
            proof {
                assert(diff * self.slots_per_epoch == (epoch as int - self.first_normal_epoch
                    as int) * (self.slots_per_epoch as int)) by (nonlinear_arith)
                    requires
                        diff == epoch as int - self.first_normal_epoch as int,
                ;
            }
            self.first_normal_slot + diff * self.slots_per_epoch
        }
    }

    /// Last slot of `epoch`.
    pub fn get_last_slot_in_epoch(&self, epoch: u64) -> (r: u64)
        requires
            self.wf(),
            self.spec_first_slot_in_epoch(epoch as int) + self.spec_slots_in_epoch(epoch as int)
                - 1 <= u64::MAX,
        ensures
            r == self.spec_first_slot_in_epoch(epoch as int) + self.spec_slots_in_epoch(
                epoch as int,
            ) - 1,
    {
        proof {
            self.lemma_slots_in_epoch_pos(epoch as int);
        }
        let first = self.get_first_slot_in_epoch(epoch);
        let len = self.get_slots_in_epoch(epoch);
        first + (len - 1)
    }

    /// The (epoch, slot-index) pair of `slot`.
    pub fn get_epoch_and_slot_index(&self, slot: u64) -> (r: (u64, u64))
        requires
            self.wf(),
        ensures
            self.in_epoch(slot as int, r.0 as int),
            r.0 == self.spec_epoch_of(slot as int),
            r.1 == self.spec_slot_index(slot as int),
            r.1 < self.spec_slots_in_epoch(r.0 as int),
    {
        let r = if slot < self.first_normal_slot {
            proof {
                vstd::arithmetic::power2::lemma2_to64();
                // `slot < first_normal_slot` forces at least one warm-up epoch
                if self.first_normal_epoch == 0 {
                    assert(false);
                }
            }
            let mut e: u64 = 0;
            let mut start: u64 = 0;
            let mut len: u64 = MINIMUM_SLOTS_PER_EPOCH;
            while start + len <= slot
                invariant
                    self.wf(),
                    slot < self.first_normal_slot,
                    0 <= e < self.first_normal_epoch,
                    len == MINIMUM_SLOTS_PER_EPOCH * pow2(e as nat),
                    start == MINIMUM_SLOTS_PER_EPOCH * (pow2(e as nat) - 1),
                    start <= slot,
                    start + len <= self.first_normal_slot,
                decreases slot - start,
            {
                proof {
                    lemma_pow2_succ(e as nat);
                    lemma_warmup_len_fits((e + 1) as nat);
                    // `start + len` is the first slot of epoch `e + 1`; since it
                    // is still at or below `slot`, epoch `e + 1` is still inside
                    // the warm-up region
                    if e + 1 == self.first_normal_epoch {
                        assert(start + len == self.first_normal_slot);
                        assert(false);
                    }
                    // and the epoch after it still starts at or before the
                    // region's end
                    lemma_pow2_succ((e + 1) as nat);
                    if e + 2 < self.first_normal_epoch {
                        lemma_pow2_strictly_increases(
                            (e + 2) as nat,
                            self.first_normal_epoch as nat,
                        );
                    }
                    assert(MINIMUM_SLOTS_PER_EPOCH * (pow2((e + 2) as nat) - 1)
                        <= MINIMUM_SLOTS_PER_EPOCH * (pow2(self.first_normal_epoch as nat) - 1))
                        by (nonlinear_arith)
                        requires
                            pow2((e + 2) as nat) <= pow2(self.first_normal_epoch as nat),
                    ;
                }
                start = start + len;
                len = len * 2;
                e = e + 1;
            }
            proof {
                assert(self.in_epoch(slot as int, e as int));
            }
            (e, slot - start)
        } else {
            let offset = slot - self.first_normal_slot;
            let q = offset / self.slots_per_epoch;
            let rem = offset % self.slots_per_epoch;
            proof {
                let s = self.slots_per_epoch as int;
                let qi = q as int;
                assert(offset == qi * s + rem && 0 <= rem < s && 0 <= qi <= offset as int
                    / MINIMUM_SLOTS_PER_EPOCH as int) by (nonlinear_arith)
                    requires
                        qi == offset as int / s,
                        rem == offset as int % s,
                        s >= MINIMUM_SLOTS_PER_EPOCH,
                        offset >= 0,
                ;
                let epoch = self.first_normal_epoch as int + qi;
                assert(self.spec_first_slot_in_epoch(epoch) == self.first_normal_slot + qi * s)
                    by {
                    if qi > 0 {
                        assert((epoch - self.first_normal_epoch) * s == qi * s)
                            by (nonlinear_arith)
                            requires
                                epoch - self.first_normal_epoch == qi,
                        ;
                    } else {
                        assert(qi * s == 0) by (nonlinear_arith)
                            requires
                                qi == 0,
                        ;
                    }
                };
                assert(self.in_epoch(slot as int, epoch));
            }
            (self.first_normal_epoch + q, rem)
        };
        proof {
            self.lemma_epoch_of_agrees(slot as int, r.0 as int);
        }
        r
    }

    /// The latest epoch whose leader schedule is fully determined once `slot`
    /// is rooted: the schedule for an epoch is fixed
    /// `leader_schedule_slot_offset` slots ahead of that epoch.
    pub fn get_stakers_epoch(&self, slot: u64) -> (r: u64)
        requires
            self.wf(),
            slot + self.leader_schedule_slot_offset <= u64::MAX,
        ensures
            r == self.spec_stakers_epoch(slot as int),
    {
        if slot < self.first_normal_slot {
            // inside the warm-up region the schedule is fixed one epoch ahead
            let (epoch, _index) = self.get_epoch_and_slot_index(slot);
            proof {
                if epoch >= self.first_normal_epoch {
                    self.lemma_first_slot_monotone(self.first_normal_epoch as int, epoch as int);
                    assert(false);
                }
            }
            epoch + 1
        } else {
            let num = slot - self.first_normal_slot + self.leader_schedule_slot_offset;
            let q = num / self.slots_per_epoch;
            proof {
                assert(0 <= q <= num as int / MINIMUM_SLOTS_PER_EPOCH as int) by (nonlinear_arith)
                    requires
                        q == num as int / self.slots_per_epoch as int,
                        self.slots_per_epoch >= MINIMUM_SLOTS_PER_EPOCH,
                        num >= 0,
                ;
            }
            self.first_normal_epoch + q + 1
        }
    }
}

} // verus!
