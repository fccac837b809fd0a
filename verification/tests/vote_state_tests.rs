use consensus_core::account::{Account, InstructionError, KeyedAccount};
use consensus_core::keys::{Pubkey, StateHash};
use consensus_core::vote_instructions::{
    authorize_voter, create_account, create_bootstrap_leader_account, id, initialize_account,
    process_votes, withdraw, Clock,
};
use consensus_core::vote_state::{
    Lockout, Vote, VoteState, INITIAL_LOCKOUT, MAX_LOCKOUT_HISTORY,
};

const MAX_RECENT_VOTES: usize = 16;

fn test_pubkey(n: u8) -> Pubkey {
    Pubkey { w0: n as u64, w1: 0xA5A5, w2: 0, w3: 1 }
}

fn test_hash(n: u8) -> StateHash {
    StateHash { w0: n as u64, w1: 7, w2: 0, w3: 2 }
}

fn create_test_account(seed: u8) -> (Pubkey, Account) {
    let vote_pubkey = test_pubkey(seed);
    (
        vote_pubkey,
        create_account(&vote_pubkey, &test_pubkey(seed.wrapping_add(1)), 0, 100),
    )
}

fn simulate_process_vote(
    vote_pubkey: &Pubkey,
    vote_account: Account,
    vote: &Vote,
    slot_hashes: &[(u64, StateHash)],
    epoch: u64,
) -> (Result<VoteState, InstructionError>, Account) {
    let mut keyed = KeyedAccount::new(vote_pubkey, true, vote_account);
    let mut clock = Clock::default();
    clock.epoch = epoch;
    let res = process_votes(&mut keyed, slot_hashes, &clock, &[], &[*vote]);
    let account = keyed.account;
    match res {
        Ok(()) => (VoteState::deserialize(account.data.as_slice()), account),
        Err(e) => (Err(e), account),
    }
}

fn simulate_process_vote_unchecked(
    vote_pubkey: &Pubkey,
    vote_account: Account,
    vote: &Vote,
) -> (Result<VoteState, InstructionError>, Account) {
    let witness = [(vote.slot, vote.hash)];
    simulate_process_vote(vote_pubkey, vote_account, vote, &witness, 0)
}

fn check_lockouts(vote_state: &VoteState) {
    for (i, vote) in vote_state.votes.iter().enumerate() {
        let num_lockouts = vote_state.votes.len() - i;
        assert_eq!(
            vote.lockout(),
            (INITIAL_LOCKOUT as u64).pow(num_lockouts as u32)
        );
    }
}

fn recent_votes(vote_state: &VoteState) -> Vec<Vote> {
    let start = vote_state.votes.len().saturating_sub(MAX_RECENT_VOTES);
    (start..vote_state.votes.len())
        .map(|i| Vote::new(vote_state.votes.get(i).unwrap().slot, StateHash::default()))
        .collect()
}

#[test]
fn test_initialize_vote_account() {
    let vote_account_pubkey = test_pubkey(31);
    let vote_account = Account::new(100, VoteState::size_of(), &id());

    let node_pubkey = test_pubkey(32);

    // init should pass
    let mut vote_account = KeyedAccount::new(&vote_account_pubkey, false, vote_account);
    let res = initialize_account(&mut vote_account, &node_pubkey, 0);
    assert_eq!(res, Ok(()));

    // reinit should fail
    let res = initialize_account(&mut vote_account, &node_pubkey, 0);
    assert_eq!(res, Err(InstructionError::AccountAlreadyInitialized));
}

#[test]
fn test_vote_create_bootstrap_leader_account() {
    let vote_pubkey = test_pubkey(41);
    let (_vote_account, vote_state) =
        create_bootstrap_leader_account(&vote_pubkey, &test_pubkey(42), 0, 100);

    assert_eq!(vote_state.votes.len(), 1);
    assert_eq!(vote_state.votes[0], Lockout::new(&Vote::default()));
}

#[test]
fn test_vote_serialize() {
    let mut buffer: Vec<u8> = vec![0; VoteState::size_of()];
    let mut vote_state = VoteState::default();
    vote_state
        .votes
        .resize(MAX_LOCKOUT_HISTORY, Lockout::default());
    let mut short = buffer[0..4].to_vec();
    assert_eq!(
        vote_state.serialize(&mut short).unwrap_err(),
        InstructionError::AccountDataTooSmall
    );
    vote_state.serialize(&mut buffer).unwrap();
    assert_eq!(VoteState::deserialize(&buffer).unwrap(), vote_state);
}

#[test]
fn test_voter_registration() {
    let (vote_pubkey, vote_account) = create_test_account(50);

    let vote_state = VoteState::from(&vote_account).unwrap();
    assert_eq!(vote_state.authorized_voter_pubkey, vote_pubkey);
    assert!(vote_state.votes.is_empty());
}

#[test]
fn test_vote() {
    let (vote_pubkey, vote_account) = create_test_account(52);

    let vote = Vote::new(1, StateHash::default());
    let (vote_state, _account) =
        simulate_process_vote_unchecked(&vote_pubkey, vote_account, &vote);
    let vote_state = vote_state.unwrap();
    assert_eq!(vote_state.votes, vec![Lockout::new(&vote)]);
    assert_eq!(vote_state.credits(), 0);
}

#[test]
fn test_vote_slot_hashes() {
    let (vote_pubkey, vote_account) = create_test_account(54);

    let hash = test_hash(3);
    let vote = Vote::new(0, hash);

    // wrong hash
    let (vote_state, vote_account) = simulate_process_vote(
        &vote_pubkey,
        vote_account,
        &vote,
        &[(0, StateHash::default())],
        0,
    );
    assert_eq!(vote_state.unwrap().votes.len(), 0);

    // wrong slot
    let (vote_state, vote_account) =
        simulate_process_vote(&vote_pubkey, vote_account, &vote, &[(1, hash)], 0);
    assert_eq!(vote_state.unwrap().votes.len(), 0);

    // empty slot_hashes
    let (vote_state, _vote_account) =
        simulate_process_vote(&vote_pubkey, vote_account, &vote, &[], 0);
    assert_eq!(vote_state.unwrap().votes.len(), 0);
}

#[test]
fn test_vote_signature() {
    let (vote_pubkey, vote_account) = create_test_account(56);

    let vote = Vote::new(1, StateHash::default());

    // unsigned
    let mut keyed = KeyedAccount::new(&vote_pubkey, false, vote_account);
    let res = process_votes(
        &mut keyed,
        &[(vote.slot, vote.hash)],
        &Clock::default(),
        &[],
        &[vote],
    );
    assert_eq!(res, Err(InstructionError::MissingRequiredSignature));

    // signed
    let mut keyed = KeyedAccount::new(&vote_pubkey, true, keyed.account);
    let res = process_votes(
        &mut keyed,
        &[(vote.slot, vote.hash)],
        &Clock::default(),
        &[],
        &[vote],
    );
    assert_eq!(res, Ok(()));

    // another voter; handover unsigned by the current voter fails
    let authorized_voter_pubkey = test_pubkey(58);
    let mut keyed = KeyedAccount::new(&vote_pubkey, false, keyed.account);
    let res = authorize_voter(&mut keyed, &[], &authorized_voter_pubkey);
    assert_eq!(res, Err(InstructionError::MissingRequiredSignature));

    let mut keyed = KeyedAccount::new(&vote_pubkey, true, keyed.account);
    let res = authorize_voter(&mut keyed, &[], &authorized_voter_pubkey);
    assert_eq!(res, Ok(()));

    // the new authorized voter can re-authorize itself as a co-signer
    let mut keyed = KeyedAccount::new(&vote_pubkey, false, keyed.account);
    let co_signer = KeyedAccount::new(&authorized_voter_pubkey, true, Account::default());
    let res = authorize_voter(&mut keyed, &[co_signer], &authorized_voter_pubkey);
    assert_eq!(res, Ok(()));

    // not signed by the authorized voter
    let vote = Vote::new(2, StateHash::default());
    let mut keyed = KeyedAccount::new(&vote_pubkey, true, keyed.account);
    let res = process_votes(
        &mut keyed,
        &[(vote.slot, vote.hash)],
        &Clock::default(),
        &[],
        &[vote],
    );
    assert_eq!(res, Err(InstructionError::MissingRequiredSignature));

    // signed by the authorized voter
    let vote = Vote::new(2, StateHash::default());
    let mut keyed = KeyedAccount::new(&vote_pubkey, false, keyed.account);
    let co_signer = KeyedAccount::new(&authorized_voter_pubkey, true, Account::default());
    let res = process_votes(
        &mut keyed,
        &[(vote.slot, vote.hash)],
        &Clock::default(),
        &[co_signer],
        &[vote],
    );
    assert_eq!(res, Ok(()));
}

#[test]
fn test_vote_without_initialization() {
    let vote_pubkey = test_pubkey(60);
    let vote_account = Account::new(100, VoteState::size_of(), &id());

    let (res, _account) = simulate_process_vote_unchecked(
        &vote_pubkey,
        vote_account,
        &Vote::new(1, StateHash::default()),
    );
    assert_eq!(res, Err(InstructionError::UninitializedAccount));
}

#[test]
fn test_vote_lockout() {
    let (_vote_pubkey, vote_account) = create_test_account(62);

    let mut vote_state = VoteState::from(&vote_account).unwrap();

    for i in 0..(MAX_LOCKOUT_HISTORY + 1) {
        vote_state.process_slot_vote_unchecked((INITIAL_LOCKOUT * i) as u64);
    }

    // the oldest vote was popped when the tower reached its full depth
    assert_eq!(vote_state.votes.len(), MAX_LOCKOUT_HISTORY);
    assert_eq!(vote_state.root_slot, Some(0));
    check_lockouts(&vote_state);

    // one more vote that confirms the entire stack moves the root to the
    // second vote
    let top_vote = vote_state.votes.first().unwrap().slot;
    let back_expiration = vote_state.votes.last().unwrap().expiration_slot();
    vote_state.process_slot_vote_unchecked(back_expiration);
    assert_eq!(Some(top_vote), vote_state.root_slot);

    // expire everything except the first vote
    let front_expiration = vote_state.votes.first().unwrap().expiration_slot();
    vote_state.process_slot_vote_unchecked(front_expiration);
    assert_eq!(vote_state.votes.len(), 2);
}

#[test]
fn test_vote_double_lockout_after_expiration() {
    let voter_pubkey = test_pubkey(64);
    let mut vote_state = VoteState::new(&voter_pubkey, &test_pubkey(65), 0);

    for i in 0..3 {
        vote_state.process_slot_vote_unchecked(i as u64);
    }

    check_lockouts(&vote_state);

    // expire the third vote; the tower depth is unchanged, so no lockout
    // doubles
    vote_state.process_slot_vote_unchecked((2 + INITIAL_LOCKOUT + 1) as u64);
    check_lockouts(&vote_state);

    // vote again: the tower deepens, so lockouts double for everybody
    vote_state.process_slot_vote_unchecked((2 + INITIAL_LOCKOUT + 2) as u64);
    check_lockouts(&vote_state);

    // and once more
    vote_state.process_slot_vote_unchecked((2 + INITIAL_LOCKOUT + 3) as u64);
    check_lockouts(&vote_state);
}

#[test]
fn test_expire_multiple_votes() {
    let voter_pubkey = test_pubkey(66);
    let mut vote_state = VoteState::new(&voter_pubkey, &test_pubkey(67), 0);

    for i in 0..3 {
        vote_state.process_slot_vote_unchecked(i as u64);
    }

    assert_eq!(vote_state.votes[0].confirmation_count, 3);

    // expire the second and third votes
    let expire_slot = vote_state.votes[1].slot + vote_state.votes[1].lockout() + 1;
    vote_state.process_slot_vote_unchecked(expire_slot);
    assert_eq!(vote_state.votes.len(), 2);

    // the old votes expired
    assert_eq!(vote_state.votes[0].slot, 0);
    assert_eq!(vote_state.votes[1].slot, expire_slot);

    // process one more vote
    vote_state.process_slot_vote_unchecked(expire_slot + 1);

    // the confirmation count of the older first vote stands
    assert_eq!(vote_state.votes[0].confirmation_count, 3);

    // the later votes still carry increasing confirmation counts
    assert_eq!(vote_state.votes[1].confirmation_count, 2);
    assert_eq!(vote_state.votes[2].confirmation_count, 1);
}

#[test]
fn test_vote_credits() {
    let voter_pubkey = test_pubkey(68);
    let mut vote_state = VoteState::new(&voter_pubkey, &test_pubkey(69), 0);

    for i in 0..MAX_LOCKOUT_HISTORY {
        vote_state.process_slot_vote_unchecked(i as u64);
    }

    assert_eq!(vote_state.credits(), 0);

    vote_state.process_slot_vote_unchecked(MAX_LOCKOUT_HISTORY as u64 + 1);
    assert_eq!(vote_state.credits(), 1);
    vote_state.process_slot_vote_unchecked(MAX_LOCKOUT_HISTORY as u64 + 2);
    assert_eq!(vote_state.credits(), 2);
    vote_state.process_slot_vote_unchecked(MAX_LOCKOUT_HISTORY as u64 + 3);
    assert_eq!(vote_state.credits(), 3);
}

#[test]
fn test_duplicate_vote() {
    let voter_pubkey = test_pubkey(70);
    let mut vote_state = VoteState::new(&voter_pubkey, &test_pubkey(71), 0);
    vote_state.process_slot_vote_unchecked(0);
    vote_state.process_slot_vote_unchecked(1);
    vote_state.process_slot_vote_unchecked(0);
    assert_eq!(vote_state.nth_recent_vote(0).unwrap().slot, 1);
    assert_eq!(vote_state.nth_recent_vote(1).unwrap().slot, 0);
    assert!(vote_state.nth_recent_vote(2).is_none());
}

#[test]
fn test_nth_recent_vote() {
    let voter_pubkey = test_pubkey(72);
    let mut vote_state = VoteState::new(&voter_pubkey, &test_pubkey(73), 0);
    for i in 0..MAX_LOCKOUT_HISTORY {
        vote_state.process_slot_vote_unchecked(i as u64);
    }
    for i in 0..(MAX_LOCKOUT_HISTORY - 1) {
        assert_eq!(
            vote_state.nth_recent_vote(i).unwrap().slot as usize,
            MAX_LOCKOUT_HISTORY - i - 1,
        );
    }
    assert!(vote_state.nth_recent_vote(MAX_LOCKOUT_HISTORY).is_none());
}

/// two accounts with different histories can be brought to the same state
/// with one vote submission
#[test]
fn test_process_missed_votes() {
    let account_a = test_pubkey(74);
    let mut vote_state_a = VoteState::new(&account_a, &test_pubkey(75), 0);
    let account_b = test_pubkey(76);
    let mut vote_state_b = VoteState::new(&account_b, &test_pubkey(77), 0);

    // process some votes on account a
    for i in 0..5 {
        vote_state_a.process_slot_vote_unchecked(i as u64);
    }
    assert_ne!(recent_votes(&vote_state_a), recent_votes(&vote_state_b));

    // while b misses fewer than the recent-vote window, one submission
    // brings both in sync
    let votes: Vec<_> = (0..MAX_RECENT_VOTES)
        .map(|i| Vote::new(i as u64, StateHash::default()))
        .collect();
    let slot_hashes: Vec<_> = votes.iter().map(|vote| (vote.slot, vote.hash)).collect();

    vote_state_a.process_votes(&votes, &slot_hashes, 0);
    vote_state_b.process_votes(&votes, &slot_hashes, 0);
    assert_eq!(recent_votes(&vote_state_a), recent_votes(&vote_state_b));
}

#[test]
fn test_vote_state_withdraw() {
    let (vote_pubkey, vote_account) = create_test_account(78);

    // unsigned
    let mut keyed = KeyedAccount::new(&vote_pubkey, false, vote_account);
    let mut to_keyed = KeyedAccount::new(&test_pubkey(80), false, Account::default());
    let res = withdraw(&mut keyed, 0, &mut to_keyed);
    assert_eq!(res, Err(InstructionError::MissingRequiredSignature));

    // insufficient funds
    let mut keyed = KeyedAccount::new(&vote_pubkey, true, keyed.account);
    let res = withdraw(&mut keyed, 101, &mut to_keyed);
    assert_eq!(res, Err(InstructionError::InsufficientFunds));

    // all good
    let lamports = keyed.account.lamports;
    let mut to_keyed = KeyedAccount::new(&test_pubkey(81), false, Account::default());
    let res = withdraw(&mut keyed, lamports, &mut to_keyed);
    assert_eq!(res, Ok(()));
    assert_eq!(keyed.account.lamports, 0);
    assert_eq!(to_keyed.account.lamports, lamports);
}

#[test]
fn test_vote_state_epoch_credits() {
    let mut vote_state = VoteState::default();

    assert_eq!(vote_state.credits(), 0);
    assert_eq!(vote_state.epoch_credits().clone(), Vec::<(u64, u64, u64)>::new());

    let mut expected = vec![];
    let mut credits = 0;
    let epochs = (consensus_core::vote_state::MAX_EPOCH_CREDITS_HISTORY + 2) as u64;
    for epoch in 0..epochs {
        for _j in 0..epoch {
            vote_state.increment_credits(epoch);
            credits += 1;
        }
        expected.push((epoch, credits, credits - epoch));
    }
    expected.pop(); // the last epoch's record is not sealed yet
    while expected.len() > consensus_core::vote_state::MAX_EPOCH_CREDITS_HISTORY {
        expected.remove(0);
    }

    assert_eq!(vote_state.credits(), credits);
    assert_eq!(vote_state.epoch_credits().clone(), expected);
}
