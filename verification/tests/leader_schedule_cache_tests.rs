use consensus_core::bank::{Bank, EpochStakes};
use consensus_core::blocktree::Blocktree;
use consensus_core::epoch_schedule::EpochSchedule;
use consensus_core::keys::Pubkey;
use consensus_core::leader_schedule::LeaderSchedule;
use consensus_core::leader_schedule_cache::{LeaderScheduleCache, MAX_SCHEDULES};

fn node_pubkey(n: u8) -> Pubkey {
    Pubkey { w0: n as u64, w1: 0x5A5A, w2: 3, w3: 9 }
}

/// A bank whose snapshots name a single staker for each listed epoch.
fn single_node_bank(
    slot: u64,
    epoch_schedule: EpochSchedule,
    leader: Pubkey,
    epochs: &[u64],
) -> Bank {
    let epoch_stakes = epochs
        .iter()
        .map(|&epoch| EpochStakes { epoch, stakes: vec![(leader, 42)] })
        .collect();
    Bank { slot, epoch_schedule, epoch_stakes }
}

#[test]
fn test_new_cache() {
    let leader = node_pubkey(1);
    let epoch_schedule = EpochSchedule::new(8192, 8192, true);
    let bank = single_node_bank(0, epoch_schedule, leader, &[0, 1]);
    let mut cache = LeaderScheduleCache::new_from_bank(&bank);
    assert_eq!(bank.slot, 0);

    // schedules for every epoch in [0, stakers_epoch(bank.slot)] were
    // computed by the constructor
    let stakers_epoch = bank.get_stakers_epoch(bank.slot);
    for epoch in 0..=stakers_epoch {
        let first_slot_in_epoch = epoch_schedule.get_first_slot_in_epoch(epoch);
        let last_slot_in_epoch = epoch_schedule.get_last_slot_in_epoch(epoch);
        assert!(cache.slot_leader_at(first_slot_in_epoch, None).is_some());
        assert!(cache.slot_leader_at(last_slot_in_epoch, None).is_some());
        if epoch == stakers_epoch {
            assert!(cache.slot_leader_at(last_slot_in_epoch + 1, None).is_none());
        }
    }

    // one schedule per epoch just checked
    assert_eq!(cache.cached_schedules.len() as u64, stakers_epoch + 1);
}

#[test]
fn test_retain_latest() {
    let mut cached_schedules: Vec<(u64, LeaderSchedule)> = Vec::new();
    let mut order: Vec<u64> = Vec::new();
    for i in 0..=MAX_SCHEDULES {
        cached_schedules.push((i as u64, LeaderSchedule::default()));
        order.push(i as u64);
    }
    LeaderScheduleCache::retain_latest(&mut cached_schedules, &mut order);
    assert_eq!(cached_schedules.len(), MAX_SCHEDULES);
    let mut keys: Vec<_> = cached_schedules.iter().map(|(k, _)| *k).collect();
    keys.sort();
    let expected: Vec<_> = (1..=MAX_SCHEDULES as u64).collect();
    let expected_order: Vec<u64> = (1..=MAX_SCHEDULES as u64).collect();
    assert_eq!(expected, keys);
    assert_eq!(expected_order, order);
}

/// Insert eleven epochs one by one, evicting after each insertion: the
/// first insertion falls out, the ten later ones stay, in order.
#[test]
fn test_lru_bound_evicts_oldest() {
    let mut cached_schedules: Vec<(u64, LeaderSchedule)> = Vec::new();
    let mut order: Vec<u64> = Vec::new();
    for epoch in 0..=10u64 {
        cached_schedules.push((epoch, LeaderSchedule::default()));
        order.push(epoch);
        LeaderScheduleCache::retain_latest(&mut cached_schedules, &mut order);
    }
    let keys: Vec<_> = cached_schedules.iter().map(|(k, _)| *k).collect();
    let expected: Vec<u64> = (1..=10).collect();
    assert_eq!(keys, expected);
    assert_eq!(order, expected);
}

#[test]
fn test_next_leader_slot() {
    let pubkey = node_pubkey(11);
    let epoch_schedule = EpochSchedule::new(16384, 0, false);
    // only epoch 0 has a fixed stake snapshot
    let bank = single_node_bank(0, epoch_schedule, pubkey, &[0]);
    let mut cache = LeaderScheduleCache::new_from_bank(&bank);

    assert_eq!(cache.slot_leader_at(bank.slot, Some(&bank)).unwrap(), pubkey);
    assert_eq!(cache.next_leader_slot(&pubkey, 0, &bank, None), Some((1, 16383)));
    assert_eq!(cache.next_leader_slot(&pubkey, 1, &bank, None), Some((2, 16383)));
    assert_eq!(
        // no schedule can be computed past the last snapshot epoch
        cache.next_leader_slot(&pubkey, 2 * 16384 - 1, &bank, None),
        None
    );
    assert_eq!(
        // a node that is not in the leader schedule
        cache.next_leader_slot(&node_pubkey(99), 0, &bank, None),
        None
    );
}

#[test]
fn test_next_leader_slot_blocktree() {
    let pubkey = node_pubkey(21);
    let epoch_schedule = EpochSchedule::new(16384, 0, false);
    let bank = single_node_bank(0, epoch_schedule, pubkey, &[0]);
    let mut cache = LeaderScheduleCache::new_from_bank(&bank);
    let mut blocktree = Blocktree::new();

    assert_eq!(cache.slot_leader_at(bank.slot, Some(&bank)).unwrap(), pubkey);
    // the next leader slot after 0 is slot 1
    assert_eq!(
        cache.next_leader_slot(&pubkey, 0, &bank, Some(&blocktree)).unwrap().0,
        1
    );

    // a shred in slot 2 does not skip the still-empty slot 1
    blocktree.record_received(2);
    assert_eq!(
        cache.next_leader_slot(&pubkey, 0, &bank, Some(&blocktree)).unwrap().0,
        1
    );

    // once slot 1 has a shred too, slots 1 and 2 are both skipped
    blocktree.record_received(1);
    assert_eq!(
        cache.next_leader_slot(&pubkey, 0, &bank, Some(&blocktree)).unwrap().0,
        3
    );

    // integrity checks
    assert_eq!(
        cache.next_leader_slot(&pubkey, 2 * 16384 - 1, &bank, Some(&blocktree)),
        None
    );
    assert_eq!(
        cache.next_leader_slot(&node_pubkey(99), 0, &bank, Some(&blocktree)),
        None
    );
}

#[test]
fn test_next_leader_slot_next_epoch() {
    let old_leader = node_pubkey(31);
    let new_leader = node_pubkey(32);
    let epoch_schedule = EpochSchedule::new(32, 0, false);
    let genesis_bank = single_node_bank(0, epoch_schedule, old_leader, &[0, 1]);
    let mut cache = LeaderScheduleCache::new_from_bank(&genesis_bank);

    // the new vote account's stake dominates from epoch 2 on
    let bank = Bank {
        slot: 2 * 32,
        epoch_schedule,
        epoch_stakes: vec![
            EpochStakes { epoch: 0, stakes: vec![(old_leader, 42)] },
            EpochStakes { epoch: 1, stakes: vec![(old_leader, 42)] },
            EpochStakes { epoch: 2, stakes: vec![(old_leader, 1), (new_leader, 1_000_000)] },
        ],
    };

    // the first slot the new node leads, by direct computation
    let schedule = cache.compute_epoch_schedule(2, &bank).unwrap();
    let mut index: u64 = 0;
    while schedule.slot_leaders[index as usize] != new_leader {
        index += 1;
        assert_ne!(index, 32);
    }
    let expected_slot = 2 * 32 + index;

    assert_eq!(
        cache.next_leader_slot(&new_leader, 0, &bank, None).unwrap().0,
        expected_slot
    );
}

/// The horizon gate: with the warm-up doubling epochs (lengths 32, 64,
/// 128, ...), rooting slot 0 confirms epochs up to 1, so slot 95 (the last
/// slot of epoch 1) answers and slot 96 (epoch 2) does not; rooting slot 95
/// advances the horizon to epoch 2, exposing slots 96..=223 but not 224.
#[test]
fn test_schedule_for_unconfirmed_epoch() {
    let leader = node_pubkey(41);
    let epoch_schedule = EpochSchedule::new(8192, 8192, true);
    let bank = single_node_bank(0, epoch_schedule, leader, &[0, 1, 2]);
    let mut cache = LeaderScheduleCache::new_from_bank(&bank);

    assert_eq!(cache.max_epoch, 1);

    // the last slot in epoch 1 is fine: epoch 1 is confirmed
    assert_eq!(bank.get_epoch_and_slot_index(95).0, 1);
    assert!(cache.slot_leader_at(95, Some(&bank)).is_some());

    // the first slot in epoch 2 is not: epoch 2 is unconfirmed
    assert_eq!(bank.get_epoch_and_slot_index(96).0, 2);
    assert!(cache.slot_leader_at(96, Some(&bank)).is_none());

    let bank2 = single_node_bank(95, epoch_schedule, leader, &[0, 1, 2]);
    assert!(bank2.epoch_stakes(2).is_some());

    // root a slot in epoch 1, confirming epoch 2
    cache.set_root(&bank2);
    assert_eq!(cache.max_epoch, 2);
    assert!(cache.slot_leader_at(96, Some(&bank2)).is_some());
    assert_eq!(bank2.get_epoch_and_slot_index(223).0, 2);
    assert!(cache.slot_leader_at(223, Some(&bank2)).is_some());
    assert_eq!(bank2.get_epoch_and_slot_index(224).0, 3);
    assert!(cache.slot_leader_at(224, Some(&bank2)).is_none());
}

/// With a horizon past the retention bound, construction keeps exactly the
/// last ten warmed epochs, in warm order.
#[test]
fn test_new_cache_large_horizon_retains_suffix() {
    let leader = node_pubkey(51);
    // offset of eleven epochs: the stakers epoch of slot 0 is 12
    let epoch_schedule = EpochSchedule::new(32, 352, false);
    let epochs: Vec<u64> = (0..=12).collect();
    let bank = single_node_bank(0, epoch_schedule, leader, &epochs);
    let mut cache = LeaderScheduleCache::new_from_bank(&bank);

    assert_eq!(cache.max_epoch, 12);
    let expected: Vec<u64> = (2..=11).collect();
    assert_eq!(cache.insertion_order, expected);

    // an evicted epoch no longer answers read-only; a retained one does
    let first_slot_epoch_1 = epoch_schedule.get_first_slot_in_epoch(1);
    let first_slot_epoch_2 = epoch_schedule.get_first_slot_in_epoch(2);
    assert!(cache.slot_leader_at(first_slot_epoch_1, None).is_none());
    assert!(cache.slot_leader_at(first_slot_epoch_2, None).is_some());
}

/// A second lookup of a cached epoch neither re-orders the insertions nor
/// touches the map: eviction order stays first-in-first-out, not recency.
#[test]
fn test_cache_hit_does_not_reorder() {
    let leader = node_pubkey(52);
    let epoch_schedule = EpochSchedule::new(8192, 8192, true);
    let bank = single_node_bank(0, epoch_schedule, leader, &[0, 1]);
    let mut cache = LeaderScheduleCache::new_from_bank(&bank);

    // rooting inserted epoch 1 first, warming appended epoch 0
    assert_eq!(cache.insertion_order, vec![1, 0]);

    let _ = cache.slot_leader_at(0, Some(&bank));
    assert_eq!(cache.insertion_order, vec![1, 0]);

    let again = cache.compute_epoch_schedule(0, &bank);
    assert!(again.is_some());
    assert_eq!(cache.insertion_order, vec![1, 0]);
    assert_eq!(cache.cached_schedules.len(), 2);
}
