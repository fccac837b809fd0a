//! The memoizing front-end over the leader schedule builder: at most ten
//! schedules retained, evicted in insertion order, behind a confirmed-epoch
//! horizon that only root updates may advance. A running validator guards
//! this state with a pair of reader-writer locks; here the cache is held by
//! one writer at a time, and the re-check for an entry inserted meanwhile,
//! which the lock discipline makes load-bearing, is kept before insertion.

use crate::bank::Bank;
use crate::blocktree::{opt_received, Blocktree};
use crate::epoch_schedule::EpochSchedule;
use crate::keys::Pubkey;
use crate::leader_schedule::{spec_epoch_leaders, leader_schedule, LeaderSchedule};
use vstd::prelude::*;

verus! {

/// Most schedules the cache retains.
pub const MAX_SCHEDULES: usize = 10;

/// The schedule cached for `epoch`, if any.
pub open spec fn cached_lookup(s: Seq<(u64, LeaderSchedule)>, epoch: u64) -> Option<Seq<Pubkey>>
    decreases s.len(),
{
    if s.len() == 0 {
        None
    } else if s[0].0 == epoch {
        Some(s[0].1@)
    } else {
        cached_lookup(s.drop_first(), epoch)
    }
}

/// The epochs of the cached entries, in insertion order.
pub open spec fn cached_keys(s: Seq<(u64, LeaderSchedule)>) -> Seq<u64> {
    s.map_values(|p: (u64, LeaderSchedule)| p.0)
}

/// The map with the first entry for `epoch` removed; the map itself when
/// the epoch is absent.
pub open spec fn remove_key(s: Seq<(u64, LeaderSchedule)>, epoch: u64) -> Seq<
    (u64, LeaderSchedule),
>
    decreases s.len(),
{
    if s.len() == 0 {
        s
    } else if s[0].0 == epoch {
        s.drop_first()
    } else {
        seq![s[0]] + remove_key(s.drop_first(), epoch)
    }
}

/// A fresh memoization of `epoch`: the new entry, carrying `leaders`, is
/// appended at the back of both the map and the insertion order, exactly
/// once, and the oldest insertion is dropped from the front exactly when
/// the store stood at its bound.
pub open spec fn spec_fresh_insert(
    old_cached: Seq<(u64, LeaderSchedule)>,
    old_order: Seq<u64>,
    new_cached: Seq<(u64, LeaderSchedule)>,
    new_order: Seq<u64>,
    epoch: u64,
    leaders: Seq<Pubkey>,
) -> bool {
    let kept_cached = if old_cached.len() == MAX_SCHEDULES {
        old_cached.drop_first()
    } else {
        old_cached
    };
    let kept_order = if old_order.len() == MAX_SCHEDULES {
        old_order.drop_first()
    } else {
        old_order
    };
    &&& new_cached.len() == kept_cached.len() + 1
    &&& new_cached.take(kept_cached.len() as int) == kept_cached
    &&& new_cached.last().0 == epoch
    &&& new_cached.last().1@ == leaders
    &&& new_order == kept_order.push(epoch)
}

/// How one memoization step moves the store: nothing changes when the build
/// failed or the epoch was already cached (a second lookup does not
/// re-order); otherwise the built schedule is freshly inserted at the back.
pub open spec fn spec_memoized(
    old_cached: Seq<(u64, LeaderSchedule)>,
    old_order: Seq<u64>,
    new_cached: Seq<(u64, LeaderSchedule)>,
    new_order: Seq<u64>,
    epoch: u64,
    built: Option<Seq<Pubkey>>,
) -> bool {
    match built {
        None => new_cached == old_cached && new_order == old_order,
        Some(leaders) => if cached_lookup(old_cached, epoch) is Some {
            new_cached == old_cached && new_order == old_order
        } else {
            spec_fresh_insert(old_cached, old_order, new_cached, new_order, epoch, leaders)
        },
    }
}

/// Appending an entry leaves other epochs' lookups alone and serves the new
/// epoch if it was absent.
pub proof fn lemma_cached_lookup_push(s: Seq<(u64, LeaderSchedule)>, entry: (
    u64,
    LeaderSchedule,
), epoch: u64)
    ensures
        cached_lookup(s, epoch) is Some ==> cached_lookup(s.push(entry), epoch) == cached_lookup(
            s,
            epoch,
        ),
        cached_lookup(s, epoch) is None && entry.0 == epoch ==> cached_lookup(s.push(entry), epoch)
            == Some(entry.1@),
        cached_lookup(s, epoch) is None && entry.0 != epoch ==> cached_lookup(s.push(entry), epoch)
            is None,
    decreases s.len(),
{
    if s.len() == 0 {
        assert(s.push(entry)[0] == entry);
        assert(s.push(entry).drop_first() =~= Seq::<(u64, LeaderSchedule)>::empty());
        assert(cached_lookup(Seq::<(u64, LeaderSchedule)>::empty(), epoch) is None);
    } else {
        assert(s.push(entry)[0] == s[0]);
        assert(s.push(entry).drop_first() =~= s.drop_first().push(entry));
        lemma_cached_lookup_push(s.drop_first(), entry, epoch);
    }
}

/// A cached epoch is one of the keys.
pub proof fn lemma_cached_lookup_key(s: Seq<(u64, LeaderSchedule)>, epoch: u64)
    ensures
        (cached_lookup(s, epoch) is Some) <==> cached_keys(s).contains(epoch),
    decreases s.len(),
{
    if s.len() > 0 {
        lemma_cached_lookup_key(s.drop_first(), epoch);
        assert(cached_keys(s)[0] == s[0].0);
        assert(cached_keys(s.drop_first()) =~= cached_keys(s).drop_first());
        if cached_keys(s).contains(epoch) && s[0].0 != epoch {
            let i = choose|i: int| 0 <= i < cached_keys(s).len() && cached_keys(s)[i] == epoch;
            assert(cached_keys(s).drop_first()[i - 1] == epoch);
        }
        if cached_keys(s.drop_first()).contains(epoch) {
            let i = choose|i: int|
                0 <= i < cached_keys(s.drop_first()).len() && cached_keys(s.drop_first())[i]
                    == epoch;
            assert(cached_keys(s)[i + 1] == epoch);
        }
    }
}

/// The memoizing schedule cache.
pub struct LeaderScheduleCache {
    /// schedules computed so far, in insertion order, at most one per epoch
    pub cached_schedules: Vec<(u64, LeaderSchedule)>,
    /// the epochs of `cached_schedules`, oldest insertion first; the front
    /// is evicted when the cache overflows
    pub insertion_order: Vec<u64>,
    pub epoch_schedule: EpochSchedule,
    /// the highest epoch a query may ask for; advanced only by `set_root`
    pub max_epoch: u64,
}

impl LeaderScheduleCache {
    /// The cache invariant: a sound configuration, at most `MAX_SCHEDULES`
    /// entries with distinct epochs, the insertion order listing exactly the
    /// cached epochs, and no empty schedule.
    pub open spec fn wf(self) -> bool {
        &&& self.epoch_schedule.wf()
        &&& self.cached_schedules@.len() <= MAX_SCHEDULES
        &&& forall|i: int, j: int|
            0 <= i < j < self.cached_schedules@.len() ==> (#[trigger] self.cached_schedules@[i]).0
                != (#[trigger] self.cached_schedules@[j]).0
        &&& cached_keys(self.cached_schedules@) == self.insertion_order@
        &&& forall|i: int|
            0 <= i < self.cached_schedules@.len() ==> (#[trigger] self.cached_schedules@[i]).1@.len()
                > 0
    }

    /// Every cached schedule is the one the builder would compute for its
    /// epoch from `bank`.
    pub open spec fn consistent_with(self, bank: Bank) -> bool {
        forall|i: int|
            0 <= i < self.cached_schedules@.len() ==> spec_epoch_leaders(
                bank,
                (#[trigger] self.cached_schedules@[i]).0,
            ) == Some(self.cached_schedules@[i].1@)
    }

    /// Law: in every well-formed cache state, at most ten schedules are
    /// retained and the cached epochs equal the insertion order, taken as
    /// multisets.
    pub proof fn lemma_bounded_and_ordered(self)
        requires
            self.wf(),
        ensures
            self.cached_schedules@.len() <= 10,
            cached_keys(self.cached_schedules@).to_multiset()
                == self.insertion_order@.to_multiset(),
    {
    }

    /// Evict the oldest insertion once the cache has overflowed.
    pub fn retain_latest(schedules: &mut Vec<(u64, LeaderSchedule)>, order: &mut Vec<u64>)
        requires
            old(schedules)@.len() > MAX_SCHEDULES ==> old(order)@.len() > 0,
        ensures
            old(schedules)@.len() > MAX_SCHEDULES ==> final(schedules)@ == remove_key(
                old(schedules)@,
                old(order)@[0],
            ) && final(order)@ == old(order)@.drop_first(),
            old(schedules)@.len() <= MAX_SCHEDULES ==> final(schedules)@ == old(schedules)@
                && final(order)@ == old(order)@,
    {
        if schedules.len() > MAX_SCHEDULES {
            let first = order.remove(0);
            proof {
                assert(old(order)@.remove(0) =~= old(order)@.drop_first());
            }
            let mut i: usize = 0;
            let ghost orig = schedules@;
            while i < schedules.len()
                invariant
                    0 <= i <= schedules@.len(),
                    schedules@ == orig,
                    orig == old(schedules)@,
                    orig.len() > MAX_SCHEDULES,
                    first == old(order)@[0],
                    old(order)@.len() > 0,
                    order@ == old(order)@.drop_first(),
                    forall|j: int| 0 <= j < i ==> (#[trigger] orig[j]).0 != first,
                decreases schedules@.len() - i,
            {
                if schedules[i].0 == first {
                    schedules.remove(i);
                    proof {
                        lemma_remove_key_at(orig, first, i as int);
                        assert(orig.remove(i as int) =~= schedules@);
                    }
                    return ;
                }
                i = i + 1;
            }
            proof {
                lemma_remove_key_absent(orig, first);
            }
        }
    }
}

/// When the first occurrence of `epoch` sits at index `i`, removing the key
/// is removing that index.
pub proof fn lemma_remove_key_at(s: Seq<(u64, LeaderSchedule)>, epoch: u64, i: int)
    requires
        0 <= i < s.len(),
        s[i].0 == epoch,
        forall|j: int| 0 <= j < i ==> (#[trigger] s[j]).0 != epoch,
    ensures
        remove_key(s, epoch) == s.remove(i),
    decreases s.len(),
{
    if i == 0 {
        assert(s.drop_first() =~= s.remove(0));
    } else {
        assert(forall|j: int|
            0 <= j < i - 1 ==> (#[trigger] s.drop_first()[j]).0 == s[j + 1].0);
        assert(s.drop_first()[i - 1] == s[i]);
        lemma_remove_key_at(s.drop_first(), epoch, i - 1);
        assert(seq![s[0]] + s.drop_first().remove(i - 1) =~= s.remove(i));
    }
}

/// Removing an absent key changes nothing.
pub proof fn lemma_remove_key_absent(s: Seq<(u64, LeaderSchedule)>, epoch: u64)
    requires
        forall|j: int| 0 <= j < s.len() ==> (#[trigger] s[j]).0 != epoch,
    ensures
        remove_key(s, epoch) == s,
    decreases s.len(),
{
    if s.len() > 0 {
        assert(forall|j: int|
            0 <= j < s.drop_first().len() ==> (#[trigger] s.drop_first()[j]).0 == s[j + 1].0);
        lemma_remove_key_absent(s.drop_first(), epoch);
        assert(seq![s[0]] + s.drop_first() =~= s);
    }
}

} // verus!

verus! {

/// Dropping the first entry leaves lookups of other epochs alone.
pub proof fn lemma_cached_lookup_drop_first(s: Seq<(u64, LeaderSchedule)>, epoch: u64)
    requires
        s.len() > 0,
        s[0].0 != epoch,
    ensures
        cached_lookup(s.drop_first(), epoch) == cached_lookup(s, epoch),
{
}

impl LeaderScheduleCache {
    /// The leader the cache alone can name for `slot`: the slot's index into
    /// the schedule cached for the slot's epoch, if one is cached.
    pub open spec fn spec_cached_leader(self, slot: u64) -> Option<Pubkey> {
        match cached_lookup(
            self.cached_schedules@,
            self.epoch_schedule.spec_epoch_of(slot as int) as u64,
        ) {
            None => None,
            Some(ls) => Some(
                ls[self.epoch_schedule.spec_slot_index(slot as int) as int % (ls.len() as int)],
            ),
        }
    }

    /// The schedule cached for `epoch`, if present.
    fn find_cached(&self, epoch: u64) -> (r: Option<&LeaderSchedule>)
        ensures
            match r {
                Some(ls) => cached_lookup(self.cached_schedules@, epoch) == Some(ls@),
                None => cached_lookup(self.cached_schedules@, epoch) is None,
            },
    {
        proof {
            assert(self.cached_schedules@.skip(0) =~= self.cached_schedules@);
        }
        let mut i: usize = 0;
        while i < self.cached_schedules.len()
            invariant
                0 <= i <= self.cached_schedules@.len(),
                cached_lookup(self.cached_schedules@.skip(i as int), epoch) == cached_lookup(
                    self.cached_schedules@,
                    epoch,
                ),
            decreases self.cached_schedules@.len() - i,
        {
            proof {
                assert(self.cached_schedules@.skip(i as int)[0] == self.cached_schedules@[
                    i as int
                ]);
                assert(self.cached_schedules@.skip(i as int).drop_first()
                    =~= self.cached_schedules@.skip(i + 1));
            }
            if self.cached_schedules[i].0 == epoch {
                return Some(&self.cached_schedules[i].1);
            }
            i = i + 1;
        }
        proof {
            assert(self.cached_schedules@.skip(self.cached_schedules@.len() as int).len() == 0);
        }
        None
    }

    /// Build the schedule for `epoch` from `bank` and memoize it, evicting
    /// the oldest insertion if the cache overflows; an epoch cached in the
    /// meantime is not re-inserted. Nothing is cached when the bank has no
    /// snapshot for the epoch.
    pub fn compute_epoch_schedule(&mut self, epoch: u64, bank: &Bank) -> (r: Option<
        LeaderSchedule,
    >)
        requires
            old(self).wf(),
            bank.wf(),
            old(self).consistent_with(*bank),
            old(self).epoch_schedule == bank.epoch_schedule,
        ensures
            final(self).wf(),
            final(self).consistent_with(*bank),
            final(self).epoch_schedule == old(self).epoch_schedule,
            final(self).max_epoch == old(self).max_epoch,
            final(self).cached_schedules@.len() <= old(self).cached_schedules@.len() + 1,
            (r is Some) <==> (spec_epoch_leaders(*bank, epoch) is Some),
            r matches Some(ls) ==> Some(ls@) == spec_epoch_leaders(*bank, epoch),
            spec_epoch_leaders(*bank, epoch) is Some ==> cached_lookup(
                final(self).cached_schedules@,
                epoch,
            ) == spec_epoch_leaders(*bank, epoch),
            spec_memoized(
                old(self).cached_schedules@,
                old(self).insertion_order@,
                final(self).cached_schedules@,
                final(self).insertion_order@,
                epoch,
                spec_epoch_leaders(*bank, epoch),
            ),
            old(self).cached_schedules@.len() < MAX_SCHEDULES ==> forall|e: u64|
                (#[trigger] cached_lookup(old(self).cached_schedules@, e)) is Some
                    ==> cached_lookup(final(self).cached_schedules@, e) == cached_lookup(
                    old(self).cached_schedules@,
                    e,
                ),
    {
        let computed = leader_schedule(epoch, bank);
        let ls = match computed {
            None => {
                return None;
            },
            Some(ls) => ls,
        };
        proof {
            bank.epoch_schedule.lemma_slots_in_epoch_pos(epoch as int);
        }
        let already = match self.find_cached(epoch) {
            Some(_) => true,
            None => false,
        };
        if already {
            proof {
                lemma_cached_lookup_index(self.cached_schedules@, epoch);
            }
            return Some(ls);
        }
        let ghost pre = self.cached_schedules@;
        let ghost pre_order = self.insertion_order@;
        let copy = ls.clone();
        self.cached_schedules.push((epoch, copy));
        self.insertion_order.push(epoch);
        let ghost pushed = self.cached_schedules@;
        let ghost pushed_order = self.insertion_order@;
        proof {
            lemma_cached_lookup_key(pre, epoch);
            assert forall|j: int| 0 <= j < pre.len() implies (#[trigger] pre[j]).0 != epoch by {
                if pre[j].0 == epoch {
                    assert(cached_keys(pre)[j] == epoch);
                    assert(cached_keys(pre).contains(epoch));
                }
            }
            assert(cached_keys(pushed) =~= cached_keys(pre).push(epoch));
            assert(pushed_order =~= pre_order.push(epoch));
        }
        Self::retain_latest(&mut self.cached_schedules, &mut self.insertion_order);
        proof {
            lemma_cached_lookup_push(pre, pushed[pre.len() as int], epoch);
            if pushed.len() > MAX_SCHEDULES {
                // the cache was full: the oldest insertion is evicted; the
                // new entry, never the oldest, survives
                assert(pushed_order[0] == pre_order[0]);
                assert(cached_keys(pre)[0] == pre[0].0);
                assert(pushed[0] == pre[0]);
                lemma_remove_key_at(pushed, pushed_order[0], 0);
                assert(pushed.remove(0) =~= pushed.drop_first());
                assert(self.cached_schedules@ == pushed.drop_first());
                assert(self.insertion_order@ =~= pushed_order.drop_first());
                assert(cached_keys(pushed.drop_first()) =~= cached_keys(pushed).drop_first());
                assert(forall|i: int|
                    0 <= i < pushed.drop_first().len() ==> #[trigger] pushed.drop_first()[i]
                        == pushed[i + 1]);
                lemma_cached_lookup_drop_first(pushed, epoch);
            } else {
                assert(self.cached_schedules@ == pushed);
                assert(self.insertion_order@ == pushed_order);
            }
            // the insertion shape: new entry at the back, front dropped
            // exactly on overflow
            if pre.len() == MAX_SCHEDULES {
                assert(self.cached_schedules@.take(pre.drop_first().len() as int)
                    =~= pre.drop_first());
                assert(self.cached_schedules@.last() == pushed[pre.len() as int]);
                assert(self.insertion_order@ =~= pre_order.drop_first().push(epoch));
            } else {
                assert(self.cached_schedules@.take(pre.len() as int) =~= pre);
                assert(self.cached_schedules@.last() == pushed[pre.len() as int]);
            }
            assert(spec_fresh_insert(
                pre,
                pre_order,
                self.cached_schedules@,
                self.insertion_order@,
                epoch,
                spec_epoch_leaders(*bank, epoch).unwrap(),
            ));
            assert forall|e: u64|
                pre.len() < MAX_SCHEDULES && (#[trigger] cached_lookup(pre, e)) is Some
                    implies cached_lookup(self.cached_schedules@, e) == cached_lookup(
                    pre,
                    e,
                ) by {
                lemma_cached_lookup_push(pre, pushed[pre.len() as int], e);
            }
        }
        Some(ls)
    }
}

/// A served lookup names an entry of the map.
pub proof fn lemma_cached_lookup_index(s: Seq<(u64, LeaderSchedule)>, epoch: u64)
    requires
        cached_lookup(s, epoch) is Some,
    ensures
        exists|i: int|
            0 <= i < s.len() && (#[trigger] s[i]).0 == epoch && Some(s[i].1@) == cached_lookup(
                s,
                epoch,
            ),
    decreases s.len(),
{
    if s.len() > 0 {
        if s[0].0 == epoch {
        } else {
            lemma_cached_lookup_index(s.drop_first(), epoch);
            let i = choose|i: int|
                0 <= i < s.drop_first().len() && (#[trigger] s.drop_first()[i]).0 == epoch
                    && Some(s.drop_first()[i].1@) == cached_lookup(s.drop_first(), epoch);
            assert(s[i + 1] == s.drop_first()[i]);
        }
    }
}

} // verus!

verus! {

impl LeaderScheduleCache {
    /// Read-only lookup: the leader for `slot` if its epoch's schedule is
    /// cached; never computes.
    pub fn slot_leader_at_no_compute(&self, slot: u64) -> (r: Option<Pubkey>)
        requires
            self.wf(),
        ensures
            r == self.spec_cached_leader(slot),
    {
        let (epoch, slot_index) = self.epoch_schedule.get_epoch_and_slot_index(slot);
        match self.find_cached(epoch) {
            None => None,
            Some(schedule) => {
                proof {
                    lemma_cached_lookup_index(self.cached_schedules@, epoch);
                }
                Some(schedule.leader_at(slot_index))
            },
        }
    }

    /// Lookup with compute: rejects slots beyond the confirmed horizon;
    /// otherwise serves from the cache or computes and memoizes. Within the
    /// horizon and with the cache consistent, the answer is exactly what a
    /// direct computation from `bank` gives.
    pub fn slot_leader_at_else_compute(&mut self, slot: u64, bank: &Bank) -> (r: Option<Pubkey>)
        requires
            old(self).wf(),
            bank.wf(),
            old(self).consistent_with(*bank),
            old(self).epoch_schedule == bank.epoch_schedule,
        ensures
            final(self).wf(),
            final(self).consistent_with(*bank),
            final(self).epoch_schedule == old(self).epoch_schedule,
            final(self).max_epoch == old(self).max_epoch,
            final(self).cached_schedules@.len() <= old(self).cached_schedules@.len() + 1,
            old(self).epoch_schedule.spec_epoch_of(slot as int) > old(self).max_epoch ==> r
                is None && final(self).cached_schedules@ == old(self).cached_schedules@ && final(self).insertion_order@ == old(self).insertion_order@,
            old(self).epoch_schedule.spec_epoch_of(slot as int) <= old(self).max_epoch ==> r
                == match spec_epoch_leaders(
                *bank,
                old(self).epoch_schedule.spec_epoch_of(slot as int) as u64,
            ) {
                None => None::<Pubkey>,
                Some(ls) => Some(ls[old(self).epoch_schedule.spec_slot_index(slot as int)]),
            },
            old(self).epoch_schedule.spec_epoch_of(slot as int) <= old(self).max_epoch
                && spec_epoch_leaders(
                *bank,
                old(self).epoch_schedule.spec_epoch_of(slot as int) as u64,
            ) is Some ==> cached_lookup(
                final(self).cached_schedules@,
                old(self).epoch_schedule.spec_epoch_of(slot as int) as u64,
            ) == spec_epoch_leaders(
                *bank,
                old(self).epoch_schedule.spec_epoch_of(slot as int) as u64,
            ),
            old(self).epoch_schedule.spec_epoch_of(slot as int) <= old(self).max_epoch
                ==> spec_memoized(
                old(self).cached_schedules@,
                old(self).insertion_order@,
                final(self).cached_schedules@,
                final(self).insertion_order@,
                old(self).epoch_schedule.spec_epoch_of(slot as int) as u64,
                spec_epoch_leaders(
                    *bank,
                    old(self).epoch_schedule.spec_epoch_of(slot as int) as u64,
                ),
            ),
            old(self).cached_schedules@.len() < MAX_SCHEDULES ==> forall|e: u64|
                (#[trigger] cached_lookup(old(self).cached_schedules@, e)) is Some
                    ==> cached_lookup(final(self).cached_schedules@, e) == cached_lookup(
                    old(self).cached_schedules@,
                    e,
                ),
    {
        let cache_result = self.slot_leader_at_no_compute(slot);
        let (epoch, slot_index) = self.epoch_schedule.get_epoch_and_slot_index(slot);
        // refuse to answer for slots in an unconfirmed epoch
        if epoch > self.max_epoch {
            return None;
        }
        match cache_result {
            Some(leader) => {
                proof {
                    lemma_cached_lookup_index(self.cached_schedules@, epoch);
                    bank.epoch_schedule.lemma_slots_in_epoch_pos(epoch as int);
                    let i = choose|i: int|
                        0 <= i < self.cached_schedules@.len() && (
                        #[trigger] self.cached_schedules@[i]).0 == epoch && Some(
                            self.cached_schedules@[i].1@,
                        ) == cached_lookup(self.cached_schedules@, epoch);
                    let ls = self.cached_schedules@[i].1@;
                    assert(spec_epoch_leaders(*bank, epoch) == Some(ls));
                    assert(ls.len() == bank.epoch_schedule.spec_slots_in_epoch(epoch as int));
                    let idx = self.epoch_schedule.spec_slot_index(slot as int);
                    assert(0 <= idx < ls.len());
                    assert(idx as int % (ls.len() as int) == idx) by (nonlinear_arith)
                        requires
                            0 <= idx < ls.len(),
                    ;
                }
                Some(leader)
            },
            None => {
                match self.compute_epoch_schedule(epoch, bank) {
                    None => None,
                    Some(schedule) => {
                        proof {
                            bank.epoch_schedule.lemma_slots_in_epoch_pos(epoch as int);
                            let ls = schedule@;
                            let idx = self.epoch_schedule.spec_slot_index(slot as int);
                            assert(ls.len() == bank.epoch_schedule.spec_slots_in_epoch(
                                epoch as int,
                            ));
                            assert(0 <= idx < ls.len());
                            assert(idx as int % (ls.len() as int) == idx) by (nonlinear_arith)
                                requires
                                    0 <= idx < ls.len(),
                            ;
                        }
                        Some(schedule.leader_at(slot_index))
                    },
                }
            },
        }
    }

    /// Who leads `slot`: a read-only cache lookup without a bank; with a
    /// bank, additionally subject to the horizon, computing on a miss.
    pub fn slot_leader_at(&mut self, slot: u64, bank: Option<&Bank>) -> (r: Option<Pubkey>)
        requires
            old(self).wf(),
            bank matches Some(b) ==> b.wf() && old(self).consistent_with(*b) && old(
                self,
            ).epoch_schedule == b.epoch_schedule,
        ensures
            final(self).wf(),
            final(self).epoch_schedule == old(self).epoch_schedule,
            final(self).max_epoch == old(self).max_epoch,
            final(self).cached_schedules@.len() <= old(self).cached_schedules@.len() + 1,
            bank is None ==> r == old(self).spec_cached_leader(slot) && *final(self) == *old(self),
            bank matches Some(b) ==> final(self).consistent_with(*b) && {
                let e = old(self).epoch_schedule.spec_epoch_of(slot as int);
                &&& e > old(self).max_epoch ==> r is None
                &&& e <= old(self).max_epoch ==> r == match spec_epoch_leaders(*b, e as u64) {
                    None => None::<Pubkey>,
                    Some(ls) => Some(ls[old(self).epoch_schedule.spec_slot_index(slot as int)]),
                }
                &&& e <= old(self).max_epoch && spec_epoch_leaders(*b, e as u64) is Some
                    ==> cached_lookup(final(self).cached_schedules@, e as u64)
                    == spec_epoch_leaders(*b, e as u64)
                &&& e > old(self).max_epoch ==> final(self).cached_schedules@ == old(
                    self,
                ).cached_schedules@ && final(self).insertion_order@ == old(self).insertion_order@
                &&& e <= old(self).max_epoch ==> spec_memoized(
                    old(self).cached_schedules@,
                    old(self).insertion_order@,
                    final(self).cached_schedules@,
                    final(self).insertion_order@,
                    e as u64,
                    spec_epoch_leaders(*b, e as u64),
                )
            },
            old(self).cached_schedules@.len() < MAX_SCHEDULES ==> forall|e: u64|
                (#[trigger] cached_lookup(old(self).cached_schedules@, e)) is Some
                    ==> cached_lookup(final(self).cached_schedules@, e) == cached_lookup(
                    old(self).cached_schedules@,
                    e,
                ),
    {
        match bank {
            Some(bank) => self.slot_leader_at_else_compute(slot, bank),
            None => self.slot_leader_at_no_compute(slot),
        }
    }
}

} // verus!

verus! {

impl LeaderScheduleCache {
    /// Advance the confirmed-epoch horizon to the stakers epoch of the
    /// rooted slot; the horizon never moves backwards. When the horizon
    /// strictly advances, the newly exposed epoch's schedule is computed at
    /// once, best effort.
    pub fn set_root(&mut self, root_bank: &Bank)
        requires
            old(self).wf(),
            root_bank.wf(),
            old(self).consistent_with(*root_bank),
            old(self).epoch_schedule == root_bank.epoch_schedule,
            old(self).epoch_schedule.spec_stakers_epoch(root_bank.slot as int) >= old(
                self,
            ).max_epoch,
        ensures
            final(self).wf(),
            final(self).consistent_with(*root_bank),
            final(self).epoch_schedule == old(self).epoch_schedule,
            final(self).max_epoch == old(self).epoch_schedule.spec_stakers_epoch(
                root_bank.slot as int,
            ),
            final(self).cached_schedules@.len() <= old(self).cached_schedules@.len() + 1,
            final(self).max_epoch > old(self).max_epoch && spec_epoch_leaders(
                *root_bank,
                final(self).max_epoch,
            ) is Some ==> cached_lookup(final(self).cached_schedules@, final(self).max_epoch)
                == spec_epoch_leaders(*root_bank, final(self).max_epoch),
            final(self).max_epoch > old(self).max_epoch ==> spec_memoized(
                old(self).cached_schedules@,
                old(self).insertion_order@,
                final(self).cached_schedules@,
                final(self).insertion_order@,
                final(self).max_epoch,
                spec_epoch_leaders(*root_bank, final(self).max_epoch),
            ),
            final(self).max_epoch == old(self).max_epoch ==> final(self).cached_schedules@
                == old(self).cached_schedules@ && final(self).insertion_order@ == old(
                self,
            ).insertion_order@,
            old(self).cached_schedules@.len() < MAX_SCHEDULES ==> forall|e: u64|
                (#[trigger] cached_lookup(old(self).cached_schedules@, e)) is Some
                    ==> cached_lookup(final(self).cached_schedules@, e) == cached_lookup(
                    old(self).cached_schedules@,
                    e,
                ),
    {
        let new_max_epoch = self.epoch_schedule.get_stakers_epoch(root_bank.slot());
        let old_max_epoch = self.max_epoch;
        self.max_epoch = new_max_epoch;
        // compute the newly exposed epoch as soon as it is rooted
        if new_max_epoch > old_max_epoch {
            let _ = self.compute_epoch_schedule(new_max_epoch, root_bank);
        }
    }

    /// A cache rooted at `root_bank`: the horizon is set from the rooted
    /// slot, and the schedules of all epochs up to the horizon are warmed.
    pub fn new(epoch_schedule: EpochSchedule, root_bank: &Bank) -> (r: Self)
        requires
            root_bank.wf(),
            epoch_schedule == root_bank.epoch_schedule,
        ensures
            r.wf(),
            r.consistent_with(*root_bank),
            r.epoch_schedule == epoch_schedule,
            r.max_epoch == epoch_schedule.spec_stakers_epoch(root_bank.slot as int),
            r.max_epoch < MAX_SCHEDULES ==> forall|e: u64|
                e <= r.max_epoch && (#[trigger] spec_epoch_leaders(*root_bank, e)) is Some
                    ==> cached_lookup(r.cached_schedules@, e) == spec_epoch_leaders(
                    *root_bank,
                    e,
                ),
            r.max_epoch >= MAX_SCHEDULES && (forall|e: u64|
                e < r.max_epoch ==> (#[trigger] spec_epoch_leaders(*root_bank, e)) is Some)
                ==> r.insertion_order@ == Seq::new(
                MAX_SCHEDULES as nat,
                |i: int| (r.max_epoch - MAX_SCHEDULES + i) as u64,
            ) && forall|e: u64|
                r.max_epoch - MAX_SCHEDULES <= e < r.max_epoch ==> #[trigger] cached_lookup(
                    r.cached_schedules@,
                    e,
                ) == spec_epoch_leaders(*root_bank, e),
    {
        let mut cache = LeaderScheduleCache {
            cached_schedules: Vec::new(),
            insertion_order: Vec::new(),
            epoch_schedule,
            max_epoch: 0,
        };
        proof {
            assert(cached_keys(cache.cached_schedules@) =~= cache.insertion_order@);
        }
        proof {
            epoch_schedule.lemma_stakers_epoch_bound(root_bank.slot);
        }
        // this sets the horizon and computes the schedule at the stakers
        // epoch of the root
        cache.set_root(root_bank);
        // then warm every epoch between the genesis epoch and the horizon
        let stakers_epoch = epoch_schedule.get_stakers_epoch(root_bank.slot());
        let ghost base_order = cache.insertion_order@;
        proof {
            // after rooting, the order is empty or holds just the stakers epoch
            if spec_epoch_leaders(*root_bank, stakers_epoch) is Some {
                assert(base_order =~= Seq::<u64>::empty().push(stakers_epoch));
            }
        }
        let mut epoch: u64 = 0;
        while epoch < stakers_epoch
            invariant
                0 <= epoch <= stakers_epoch,
                root_bank.wf(),
                epoch_schedule == root_bank.epoch_schedule,
                epoch_schedule.spec_first_slot_in_epoch(stakers_epoch as int) <= u64::MAX,
                cache.wf(),
                cache.consistent_with(*root_bank),
                cache.epoch_schedule == epoch_schedule,
                cache.max_epoch == stakers_epoch,
                stakers_epoch < MAX_SCHEDULES ==> cache.cached_schedules@.len() <= 1 + epoch,
                stakers_epoch < MAX_SCHEDULES ==> forall|e: u64|
                    ((e < epoch || e == stakers_epoch) && (#[trigger] spec_epoch_leaders(
                        *root_bank,
                        e,
                    )) is Some) ==> cached_lookup(cache.cached_schedules@, e)
                        == spec_epoch_leaders(*root_bank, e),
                base_order == Seq::<u64>::empty() || base_order == seq![stakers_epoch],
                stakers_epoch >= MAX_SCHEDULES && (forall|e: u64|
                    e < stakers_epoch ==> (#[trigger] spec_epoch_leaders(*root_bank, e))
                        is Some) ==> {
                    &&& base_order.len() + epoch <= MAX_SCHEDULES ==> cache.insertion_order@
                        == base_order + Seq::new(epoch as nat, |i: int| i as u64)
                    &&& base_order.len() + epoch > MAX_SCHEDULES ==> epoch >= MAX_SCHEDULES
                        && cache.insertion_order@ == Seq::new(
                        MAX_SCHEDULES as nat,
                        |i: int| (epoch - MAX_SCHEDULES + i) as u64,
                    )
                },
            decreases stakers_epoch - epoch,
        {
            proof {
                epoch_schedule.lemma_first_slot_monotone(epoch as int, stakers_epoch as int);
                epoch_schedule.lemma_slots_in_epoch_pos(epoch as int);
                epoch_schedule.lemma_first_slot_succ(epoch as int);
            }
            let first_slot_in_epoch = epoch_schedule.get_first_slot_in_epoch(epoch);
            proof {
                assert(epoch_schedule.in_epoch(first_slot_in_epoch as int, epoch as int));
                epoch_schedule.lemma_epoch_of_agrees(first_slot_in_epoch as int, epoch as int);
            }
            let ghost pre_cached = cache.cached_schedules@;
            let ghost pre_order = cache.insertion_order@;
            let _ = cache.slot_leader_at(first_slot_in_epoch, Some(root_bank));
            proof {
                if stakers_epoch >= MAX_SCHEDULES && (forall|e: u64|
                    e < stakers_epoch ==> (#[trigger] spec_epoch_leaders(*root_bank, e))
                        is Some) {
                    // the epoch being warmed is not yet in the order, so this
                    // step is a fresh insertion at the back
                    assert forall|j: int| 0 <= j < pre_order.len() implies pre_order[j]
                        != epoch by {
                        if base_order.len() + epoch <= MAX_SCHEDULES {
                            if j >= base_order.len() {
                                assert(pre_order[j] == Seq::new(
                                    epoch as nat,
                                    |i: int| i as u64,
                                )[j - base_order.len()]);
                            }
                        }
                    }
                    if cached_lookup(pre_cached, epoch) is Some {
                        lemma_cached_lookup_key(pre_cached, epoch);
                        let j = choose|j: int|
                            0 <= j < cached_keys(pre_cached).len() && cached_keys(pre_cached)[j]
                                == epoch;
                        assert(pre_order[j] == epoch);
                        assert(false);
                    }
                    let now_order = cache.insertion_order@;
                    if base_order.len() + epoch < MAX_SCHEDULES {
                        assert(now_order =~= base_order + Seq::new(
                            (epoch + 1) as nat,
                            |i: int| i as u64,
                        ));
                    } else if base_order.len() + epoch == MAX_SCHEDULES {
                        assert(pre_order.len() == MAX_SCHEDULES);
                        assert(now_order =~= Seq::new(
                            MAX_SCHEDULES as nat,
                            |i: int| (epoch + 1 - MAX_SCHEDULES + i) as u64,
                        ));
                    } else {
                        assert(pre_order.len() == MAX_SCHEDULES);
                        assert(now_order =~= Seq::new(
                            MAX_SCHEDULES as nat,
                            |i: int| (epoch + 1 - MAX_SCHEDULES + i) as u64,
                        ));
                    }
                }
            }
            epoch = epoch + 1;
        }
        proof {
            if stakers_epoch >= MAX_SCHEDULES && (forall|e: u64|
                e < stakers_epoch ==> (#[trigger] spec_epoch_leaders(*root_bank, e)) is Some) {
                // only the last ten warmed epochs are retained, in warm order
                let window = Seq::new(
                    MAX_SCHEDULES as nat,
                    |i: int| (stakers_epoch - MAX_SCHEDULES + i) as u64,
                );
                if base_order.len() + stakers_epoch <= MAX_SCHEDULES {
                    assert(base_order.len() == 0 && stakers_epoch == MAX_SCHEDULES);
                    assert(cache.insertion_order@ =~= window);
                }
                assert(cache.insertion_order@ == window);
                // each retained epoch's entry is the schedule the bank gives
                assert forall|e: u64|
                    stakers_epoch - MAX_SCHEDULES <= e < stakers_epoch
                        implies #[trigger] cached_lookup(cache.cached_schedules@, e)
                        == spec_epoch_leaders(*root_bank, e) by {
                    let j = e - (stakers_epoch - MAX_SCHEDULES) as u64;
                    assert(cache.insertion_order@[j as int] == e);
                    assert(cached_keys(cache.cached_schedules@).contains(e));
                    lemma_cached_lookup_key(cache.cached_schedules@, e);
                    lemma_cached_lookup_index(cache.cached_schedules@, e);
                }
            }
        }
        cache
    }
}

} // verus!

verus! {

impl LeaderScheduleCache {
    /// The schedule for `epoch`: from the cache if present, else computed
    /// from `bank` and memoized; nothing when the bank has no snapshot for
    /// the epoch. The horizon is not consulted here.
    fn get_epoch_schedule_else_compute(&mut self, epoch: u64, bank: &Bank) -> (r: Option<
        LeaderSchedule,
    >)
        requires
            old(self).wf(),
            bank.wf(),
            old(self).consistent_with(*bank),
            old(self).epoch_schedule == bank.epoch_schedule,
        ensures
            final(self).wf(),
            final(self).consistent_with(*bank),
            final(self).epoch_schedule == old(self).epoch_schedule,
            final(self).max_epoch == old(self).max_epoch,
            (r is Some) <==> (spec_epoch_leaders(*bank, epoch) is Some),
            r matches Some(ls) ==> Some(ls@) == spec_epoch_leaders(*bank, epoch),
            spec_memoized(
                old(self).cached_schedules@,
                old(self).insertion_order@,
                final(self).cached_schedules@,
                final(self).insertion_order@,
                epoch,
                spec_epoch_leaders(*bank, epoch),
            ),
    {
        let cached = match self.find_cached(epoch) {
            Some(schedule) => Some(schedule.clone()),
            None => None,
        };
        match cached {
            Some(schedule) => {
                proof {
                    lemma_cached_lookup_index(self.cached_schedules@, epoch);
                }
                Some(schedule)
            },
            None => self.compute_epoch_schedule(epoch, bank),
        }
    }
}

/// Where the schedule logic reads leadership for one slot: the slot's index
/// into its epoch's schedule, computed from `bank`.
pub open spec fn spec_leader_of(bank: Bank, slot: u64) -> Option<Pubkey> {
    match spec_epoch_leaders(bank, bank.epoch_schedule.spec_epoch_of(slot as int) as u64) {
        None => None,
        Some(ls) => Some(ls[bank.epoch_schedule.spec_slot_index(slot as int)]),
    }
}

/// The bank can compute a schedule covering `slot`.
pub open spec fn spec_computable(bank: Bank, slot: u64) -> bool {
    spec_epoch_leaders(bank, bank.epoch_schedule.spec_epoch_of(slot as int) as u64) is Some
}

/// `pubkey` may produce a block at `slot`: it leads the slot and no shred
/// was already received there.
pub open spec fn spec_eligible(
    bank: Bank,
    blocktree: Option<&Blocktree>,
    pubkey: Pubkey,
    slot: u64,
) -> bool {
    spec_leader_of(bank, slot) == Some(pubkey) && !opt_received(blocktree, slot)
}

} // verus!

verus! {

impl LeaderScheduleCache {
    /// The next stretch of slots, strictly after `current_slot`, in which
    /// `pubkey` may produce blocks: the first and last slot of the earliest
    /// maximal leader run, where a slot whose shreds were already received
    /// is skipped at the front and silently straddled in the middle, and
    /// the search ends at the first epoch the bank cannot compute.
    #[verifier::rlimit(100)]
    pub fn next_leader_slot(
        &mut self,
        pubkey: &Pubkey,
        current_slot: u64,
        bank: &Bank,
        blocktree: Option<&Blocktree>,
    ) -> (r: Option<(u64, u64)>)
        requires
            old(self).wf(),
            bank.wf(),
            old(self).consistent_with(*bank),
            old(self).epoch_schedule == bank.epoch_schedule,
            current_slot < u64::MAX,
        ensures
            final(self).wf(),
            final(self).consistent_with(*bank),
            final(self).epoch_schedule == old(self).epoch_schedule,
            final(self).max_epoch == old(self).max_epoch,
            r matches Some((first, last)) ==> {
                &&& current_slot < first <= last
                &&& spec_eligible(*bank, blocktree, *pubkey, first)
                &&& spec_eligible(*bank, blocktree, *pubkey, last)
                &&& forall|t: u64|
                    current_slot < t < first ==> spec_computable(*bank, t) && !spec_eligible(
                        *bank,
                        blocktree,
                        *pubkey,
                        t,
                    )
                &&& forall|t: u64|
                    first <= t <= last ==> spec_computable(*bank, t) && spec_leader_of(*bank, t)
                        == Some(*pubkey)
                &&& exists|b: int|
                    last < b && (forall|t: u64|
                        last < t < b ==> spec_computable(*bank, t) && spec_leader_of(*bank, t)
                            == Some(*pubkey) && opt_received(blocktree, t)) && !(
                    #[trigger] spec_slot_open(*bank, *pubkey, b))
            },
            r is None ==> exists|b: int|
                current_slot < b && !(#[trigger] spec_slot_open_any(*bank, b)) && (forall|t: u64|
                    current_slot < t < b ==> spec_computable(*bank, t) && !spec_eligible(
                        *bank,
                        blocktree,
                        *pubkey,
                        t,
                    )),
    {
        let es = self.epoch_schedule;
        let (mut epoch, mut start_index) = bank.get_epoch_and_slot_index(current_slot + 1);
        let mut first_slot: Option<u64> = None;
        let mut last_slot: u64 = current_slot;
        let mut cs: u64 = current_slot;
        let ghost max_e = crate::bank::max_stakes_epoch(bank.epoch_stakes@);
        let ghost epoch_bound: int = if epoch as int > max_e + 1 {
            epoch as int
        } else {
            max_e + 1
        };
        loop
            invariant
                bank.wf(),
                es == bank.epoch_schedule,
                old(self).epoch_schedule == bank.epoch_schedule,
                max_e == crate::bank::max_stakes_epoch(bank.epoch_stakes@),
                max_e + 1 <= epoch_bound,
                self.wf(),
                self.consistent_with(*bank),
                self.epoch_schedule == old(self).epoch_schedule,
                self.max_epoch == old(self).max_epoch,
                current_slot <= cs,
                0 <= start_index < es.spec_slots_in_epoch(epoch as int),
                cs + 1 == es.spec_first_slot_in_epoch(epoch as int) + start_index,
                forall|t: u64| current_slot < t <= cs ==> spec_computable(*bank, t),
                first_slot is None ==> last_slot == current_slot && forall|t: u64|
                    current_slot < t <= cs ==> !spec_eligible(*bank, blocktree, *pubkey, t),
                first_slot matches Some(f) ==> {
                    &&& current_slot < f <= cs
                    &&& f <= last_slot <= cs
                    &&& spec_eligible(*bank, blocktree, *pubkey, f)
                    &&& spec_eligible(*bank, blocktree, *pubkey, last_slot)
                    &&& forall|t: u64|
                        current_slot < t < f ==> !spec_eligible(*bank, blocktree, *pubkey, t)
                    &&& forall|t: u64|
                        f <= t <= cs ==> spec_leader_of(*bank, t) == Some(*pubkey)
                    &&& forall|t: u64| last_slot < t <= cs ==> opt_received(blocktree, t)
                },
                epoch <= epoch_bound,
            ensures
                spec_epoch_leaders(*bank, epoch) is None,
                cs + 1 == es.spec_first_slot_in_epoch(epoch as int) + start_index,
                0 <= start_index < es.spec_slots_in_epoch(epoch as int),
                current_slot <= cs,
                forall|t: u64| current_slot < t <= cs ==> spec_computable(*bank, t),
                first_slot is None ==> last_slot == current_slot && forall|t: u64|
                    current_slot < t <= cs ==> !spec_eligible(*bank, blocktree, *pubkey, t),
                first_slot matches Some(f) ==> {
                    &&& current_slot < f <= cs
                    &&& f <= last_slot <= cs
                    &&& spec_eligible(*bank, blocktree, *pubkey, f)
                    &&& spec_eligible(*bank, blocktree, *pubkey, last_slot)
                    &&& forall|t: u64|
                        current_slot < t < f ==> !spec_eligible(*bank, blocktree, *pubkey, t)
                    &&& forall|t: u64|
                        f <= t <= cs ==> spec_leader_of(*bank, t) == Some(*pubkey)
                    &&& forall|t: u64| last_slot < t <= cs ==> opt_received(blocktree, t)
                },
                self.wf() && self.consistent_with(*bank) && self.epoch_schedule == old(
                    self,
                ).epoch_schedule && self.max_epoch == old(self).max_epoch,
            decreases epoch_bound - epoch,
        {
            let schedule = match self.get_epoch_schedule_else_compute(epoch, bank) {
                Some(schedule) => schedule,
                None => {
                    break ;
                },
            };
            proof {
                // an epoch with a schedule has a stored snapshot, so it sits
                // at or below the largest snapshot epoch, and its successor
                // starts within the slot range
                crate::bank::lemma_lookup_entry(bank.epoch_stakes@, epoch);
                if epoch > max_e {
                    crate::bank::lemma_lookup_above_max(bank.epoch_stakes@, epoch);
                    assert(false);
                }
                assert(epoch <= max_e);
                let ei = choose|i: int|
                    0 <= i < bank.epoch_stakes@.len() && (#[trigger] bank.epoch_stakes@[i]).epoch
                        == epoch;
                assert(es.spec_first_slot_in_epoch(epoch as int + 1) <= u64::MAX);
                es.lemma_epoch_bounded(epoch as int);
                es.lemma_first_slot_succ(epoch as int);
            }
            let slots_in_epoch = bank.get_slots_in_epoch(epoch);
            let mut i: u64 = start_index;
            while i < slots_in_epoch
                invariant
                    bank.wf(),
                    es == bank.epoch_schedule,
                    self.wf(),
                    self.consistent_with(*bank),
                    self.epoch_schedule == old(self).epoch_schedule,
                    self.max_epoch == old(self).max_epoch,
                    old(self).epoch_schedule == bank.epoch_schedule,
                    start_index <= i <= slots_in_epoch,
                    slots_in_epoch == es.spec_slots_in_epoch(epoch as int),
                    spec_epoch_leaders(*bank, epoch) == Some(schedule@),
                    schedule@.len() == slots_in_epoch,
                    current_slot <= cs,
                    cs + 1 == es.spec_first_slot_in_epoch(epoch as int) + i,
                    es.spec_first_slot_in_epoch(epoch as int + 1) <= u64::MAX,
                    forall|t: u64| current_slot < t <= cs ==> spec_computable(*bank, t),
                    first_slot is None ==> last_slot == current_slot && forall|t: u64|
                        current_slot < t <= cs ==> !spec_eligible(*bank, blocktree, *pubkey, t),
                    first_slot matches Some(f) ==> {
                        &&& current_slot < f <= cs
                        &&& f <= last_slot <= cs
                        &&& spec_eligible(*bank, blocktree, *pubkey, f)
                        &&& spec_eligible(*bank, blocktree, *pubkey, last_slot)
                        &&& forall|t: u64|
                            current_slot < t < f ==> !spec_eligible(*bank, blocktree, *pubkey, t)
                        &&& forall|t: u64|
                            f <= t <= cs ==> spec_leader_of(*bank, t) == Some(*pubkey)
                        &&& forall|t: u64| last_slot < t <= cs ==> opt_received(blocktree, t)
                    },
                decreases slots_in_epoch - i,
            {
                proof {
                    es.lemma_slots_in_epoch_pos(epoch as int);
                    es.lemma_first_slot_succ(epoch as int);
                    assert(es.in_epoch(cs + 1, epoch as int));
                    es.lemma_epoch_of_agrees(cs + 1, epoch as int);
                }
                cs = cs + 1;
                proof {
                    assert(es.spec_epoch_of(cs as int) == epoch);
                    assert(es.spec_slot_index(cs as int) == i);
                    assert(spec_computable(*bank, cs));
                    assert(spec_leader_of(*bank, cs) == Some(schedule@[i as int]));
                }
                if schedule.slot_leaders[i as usize] == *pubkey {
                    let received = match blocktree {
                        Some(blocktree) => blocktree.has_received(cs),
                        None => false,
                    };
                    if !received {
                        if first_slot.is_none() {
                            first_slot = Some(cs);
                        }
                        last_slot = cs;
                    }
                } else {
                    if first_slot.is_some() {
                        let f = first_slot.unwrap();
                        proof {
                            assert(!(spec_slot_open(*bank, *pubkey, cs as int)));
                        }
                        return Some((f, last_slot));
                    }
                }
                i = i + 1;
            }
            epoch = epoch + 1;
            start_index = 0;
            proof {
                es.lemma_slots_in_epoch_pos(epoch as int);
            }
        }
        // the epoch holding the next unscanned slot cannot be computed
        proof {
            assert(es.in_epoch(cs + 1, epoch as int));
            es.lemma_epoch_of_agrees(cs + 1, epoch as int);
            assert(!(spec_slot_open_any(*bank, cs + 1)));
            assert(!(spec_slot_open(*bank, *pubkey, cs + 1)));
        }
        match first_slot {
            Some(f) => Some((f, last_slot)),
            None => None,
        }
    }
}

/// Slot `b` is open to `pubkey`: its epoch has a schedule and `pubkey`
/// leads it. A run of leader slots ends where this fails.
pub open spec fn spec_slot_open(bank: Bank, pubkey: Pubkey, b: int) -> bool {
    &&& spec_epoch_leaders(bank, bank.epoch_schedule.spec_epoch_of(b) as u64) is Some
    &&& spec_leader_of(bank, b as u64) == Some(pubkey)
}

/// Slot `b`'s epoch has a schedule at all.
pub open spec fn spec_slot_open_any(bank: Bank, b: int) -> bool {
    spec_epoch_leaders(bank, bank.epoch_schedule.spec_epoch_of(b) as u64) is Some
}

} // verus!

verus! {

impl LeaderScheduleCache {
    /// A cache rooted at `bank`, with the bank's own epoch configuration.
    pub fn new_from_bank(bank: &Bank) -> (r: Self)
        requires
            bank.wf(),
        ensures
            r.wf(),
            r.consistent_with(*bank),
            r.epoch_schedule == bank.epoch_schedule,
            r.max_epoch == bank.epoch_schedule.spec_stakers_epoch(bank.slot as int),
            r.max_epoch < MAX_SCHEDULES ==> forall|e: u64|
                e <= r.max_epoch && (#[trigger] spec_epoch_leaders(*bank, e)) is Some
                    ==> cached_lookup(r.cached_schedules@, e) == spec_epoch_leaders(*bank, e),
            r.max_epoch >= MAX_SCHEDULES && (forall|e: u64|
                e < r.max_epoch ==> (#[trigger] spec_epoch_leaders(*bank, e)) is Some)
                ==> r.insertion_order@ == Seq::new(
                MAX_SCHEDULES as nat,
                |i: int| (r.max_epoch - MAX_SCHEDULES + i) as u64,
            ) && forall|e: u64|
                r.max_epoch - MAX_SCHEDULES <= e < r.max_epoch ==> #[trigger] cached_lookup(
                    r.cached_schedules@,
                    e,
                ) == spec_epoch_leaders(*bank, e),
    {
        Self::new(*bank.epoch_schedule(), bank)
    }
}

} // verus!
