use consensus_core::bank::{Bank, EpochStakes};
use consensus_core::blocktree::Blocktree;
use consensus_core::epoch_schedule::EpochSchedule;
use consensus_core::keys::{Pubkey, StateHash};
use consensus_core::leader_schedule_cache::LeaderScheduleCache;
use consensus_core::updater::github_download_url;
use consensus_core::vote_state::{Lockout, VoteState, MAX_LOCKOUT_HISTORY};

fn pk(n: u8) -> Pubkey {
    Pubkey { w0: n as u64, w1: 2, w2: 4, w3: 8 }
}

/// Tower doubling: sixteen votes at the even slots leave the bottom vote
/// with sixteen confirmations and a lockout of 65536; the tower is strictly
/// increasing and nothing was promoted to the root.
#[test]
fn test_tower_doubling() {
    let mut vote_state = VoteState::new(&pk(1), &pk(2), 0);
    for i in 0..16u64 {
        vote_state.process_slot_vote_unchecked(2 * i);
    }
    assert_eq!(vote_state.votes.len(), 16);
    assert_eq!(vote_state.votes[0].confirmation_count, 16);
    assert_eq!(vote_state.votes[0].lockout(), 65536);
    for i in 1..16 {
        assert!(vote_state.votes[i - 1].slot < vote_state.votes[i].slot);
    }
    assert_eq!(vote_state.root_slot, None);
}

/// Overflow promotes the root: the thirty-second vote pushes the oldest
/// vote (slot 2) out of the bottom of the tower, roots it, and earns the
/// first credit.
#[test]
fn test_overflow_promotes_root() {
    let mut vote_state = VoteState::new(&pk(3), &pk(4), 0);
    for i in 1..=32u64 {
        vote_state.process_slot_vote_unchecked(2 * i);
    }
    assert_eq!(vote_state.votes.len(), MAX_LOCKOUT_HISTORY);
    assert_eq!(vote_state.root_slot, Some(2));
    assert_eq!(vote_state.credits(), 1);
}

/// A leader run straddles a received slot at its front: with slot 1
/// forfeited, the run of a node that leads the whole epoch starts at 2 and
/// still ends at the epoch's last slot.
#[test]
fn test_next_leader_skips_received_slot() {
    let leader = pk(5);
    let epoch_schedule = EpochSchedule::new(16384, 0, false);
    let bank = Bank {
        slot: 0,
        epoch_schedule,
        epoch_stakes: vec![EpochStakes { epoch: 0, stakes: vec![(leader, 42)] }],
    };
    let mut cache = LeaderScheduleCache::new_from_bank(&bank);
    assert_eq!(cache.next_leader_slot(&leader, 0, &bank, None), Some((1, 16383)));

    let mut blocktree = Blocktree::new();
    blocktree.record_received(1);
    assert_eq!(
        cache.next_leader_slot(&leader, 0, &bank, Some(&blocktree)),
        Some((2, 16383))
    );
}

/// The byte round trip: any state within bounds survives serialization
/// into a fresh maximum-size buffer.
#[test]
fn test_serialize_round_trip() {
    let mut vote_state = VoteState::new(&pk(6), &pk(7), 99);
    for i in 0..40u64 {
        vote_state.process_slot_vote_unchecked(3 * i + 1);
    }
    vote_state.increment_credits(5);
    let mut buffer = vec![0u8; VoteState::size_of()];
    vote_state.serialize(&mut buffer).unwrap();
    let read_back = VoteState::deserialize(&buffer).unwrap();
    assert_eq!(read_back, vote_state);
    assert_eq!(read_back.root_slot, vote_state.root_slot);
}

/// The maximum encoded size covers a full tower, a present root, and a
/// full credit history, and no reachable state needs more.
#[test]
fn test_size_of_bounds_encoding() {
    assert_eq!(VoteState::size_of(), 2022);
    let mut vote_state = VoteState::new(&pk(8), &pk(9), 255);
    for i in 0..200u64 {
        vote_state.process_slot_vote_unchecked(i);
    }
    let mut buffer = vec![0u8; VoteState::size_of()];
    assert_eq!(vote_state.serialize(&mut buffer), Ok(()));
}

/// Truncated and malformed buffers are rejected.
#[test]
fn test_deserialize_rejects_malformed() {
    let vote_state = VoteState::new(&pk(10), &pk(11), 0);
    let mut buffer = vec![0u8; VoteState::size_of()];
    vote_state.serialize(&mut buffer).unwrap();

    // truncation below the fixed header fails
    assert_eq!(
        VoteState::deserialize(&buffer[0..7]).unwrap_err(),
        consensus_core::account::InstructionError::InvalidAccountData
    );

    // an invalid tag byte for the optional root fails: the root tag sits
    // right after the vote count and the two keys and the commission byte
    let mut broken = buffer.clone();
    broken[8 + 32 + 32 + 1] = 9;
    assert_eq!(
        VoteState::deserialize(&broken).unwrap_err(),
        consensus_core::account::InstructionError::InvalidAccountData
    );
}

/// The drawing stream is a function of the epoch seed: one epoch always
/// yields the same schedule, and different epochs diverge somewhere.
#[test]
fn test_schedule_determinism_by_epoch() {
    let a = pk(20);
    let b = pk(21);
    let epoch_schedule = EpochSchedule::new(64, 0, false);
    let bank = Bank {
        slot: 0,
        epoch_schedule,
        epoch_stakes: vec![
            EpochStakes { epoch: 0, stakes: vec![(a, 5), (b, 5)] },
            EpochStakes { epoch: 1, stakes: vec![(a, 5), (b, 5)] },
        ],
    };
    let mut cache1 = LeaderScheduleCache::new_from_bank(&bank);
    let mut cache2 = LeaderScheduleCache::new_from_bank(&bank);
    let once = cache1.compute_epoch_schedule(0, &bank).unwrap();
    let again = cache2.compute_epoch_schedule(0, &bank).unwrap();
    assert_eq!(once.slot_leaders, again.slot_leaders);

    let other_epoch = cache1.compute_epoch_schedule(1, &bank).unwrap();
    assert_ne!(once.slot_leaders, other_epoch.slot_leaders);

    // both stakers appear somewhere over 64 evenly weighted slots
    assert!(once.slot_leaders.contains(&a));
    assert!(once.slot_leaders.contains(&b));
}

/// The machine clock stands after the Unix epoch.
#[test]
fn test_timestamp_runs_forward() {
    assert!(consensus_core::updater::timestamp_secs() > 0);
}

/// Epoch arithmetic in the warm-up region: lengths double from the minimum
/// and the normal region starts where the doubling reaches the configured
/// length.
#[test]
fn test_epoch_schedule_warmup() {
    let es = EpochSchedule::new(8192, 8192, true);
    assert_eq!(es.get_slots_in_epoch(0), 32);
    assert_eq!(es.get_slots_in_epoch(1), 64);
    assert_eq!(es.get_slots_in_epoch(2), 128);
    assert_eq!(es.get_first_slot_in_epoch(1), 32);
    assert_eq!(es.get_first_slot_in_epoch(2), 96);
    assert_eq!(es.get_last_slot_in_epoch(1), 95);
    assert_eq!(es.get_epoch_and_slot_index(95), (1, 63));
    assert_eq!(es.get_epoch_and_slot_index(96), (2, 0));
    assert_eq!(es.get_epoch_and_slot_index(224).0, 3);
    assert_eq!(es.first_normal_epoch, 8);
    assert_eq!(es.first_normal_slot, 8160);
    assert_eq!(es.get_stakers_epoch(0), 1);
    assert_eq!(es.get_stakers_epoch(95), 2);
}

/// The download address of a published release.
#[test]
fn test_github_download_url() {
    let url = github_download_url("0.16.0", "x86_64-unknown-linux-gnu");
    assert_eq!(
        url,
        "https://github.com/solana-labs/solana/releases/download/v0.16.0/solana-release-x86_64-unknown-linux-gnu.tar.bz2"
    );
}

/// A stale vote (at or below the newest tower slot) and an unwitnessed
/// vote change nothing.
#[test]
fn test_stale_and_unwitnessed_votes_ignored() {
    let mut vote_state = VoteState::new(&pk(12), &pk(13), 0);
    vote_state.process_slot_vote_unchecked(10);
    let before = vote_state.clone();

    // stale: slot 10 is already the newest vote
    let stale = consensus_core::vote_state::Vote::new(10, StateHash::default());
    let witness = [(10u64, StateHash::default())];
    vote_state.process_vote(&stale, &witness, 0);
    assert_eq!(vote_state, before);

    // unwitnessed: no (slot, hash) pair matches
    let unwitnessed = consensus_core::vote_state::Vote::new(11, StateHash::default());
    let wrong_witness = [(11u64, StateHash { w0: 1, w1: 1, w2: 1, w3: 1 })];
    vote_state.process_vote(&unwitnessed, &wrong_witness, 0);
    assert_eq!(vote_state, before);
}

/// Lockout arithmetic on a single vote.
#[test]
fn test_lockout_values() {
    let l = Lockout { slot: 100, confirmation_count: 3 };
    assert_eq!(l.lockout(), 8);
    assert_eq!(l.expiration_slot(), 108);
    assert!(!l.is_expired(108));
    assert!(l.is_expired(109));
}
