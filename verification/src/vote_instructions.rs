//! The vote program's instructions: initialization, voter authorization,
//! vote submission, withdrawal, and account creation, each working over the
//! byte state held in a keyed account.

use crate::account::{Account, InstructionError, KeyedAccount};
use crate::keys::{Pubkey, StateHash};
use crate::vote_codec::{spec_deserialize, spec_serialize};
use crate::vote_state::{spec_process_votes, Vote, VoteState, VoteStateView, MAX_VOTE_SLOT};
use vstd::prelude::*;

verus! {

/// The ledger clock as an instruction sees it; vote processing reads only
/// the epoch.
#[derive(Clone, Copy, Debug, PartialEq, Eq, Structural)]
pub struct Clock {
    pub slot: u64,
    pub segment: u64,
    pub epoch: u64,
    pub stakers_epoch: u64,
}

impl Clock {
    pub fn default() -> (r: Self)
        ensures
            r == (Clock { slot: 0, segment: 0, epoch: 0, stakers_epoch: 0 }),
    {
        Clock { slot: 0, segment: 0, epoch: 0, stakers_epoch: 0 }
    }
}

/// The vote program's own address: owner of every vote account.
pub fn id() -> (r: Pubkey)
    ensures
        r == spec_id(),
{
    Pubkey { w0: 0x566f746550726f67, w1: 0x72616d4164647273, w2: 0, w3: 1 }
}

pub open spec fn spec_id() -> Pubkey {
    Pubkey { w0: 0x566f746550726f67, w1: 0x72616d4164647273, w2: 0, w3: 1 }
}

/// `who` signed the transaction: as the vote account itself or among the
/// co-signers.
pub open spec fn spec_signed_by(
    vote_account: KeyedAccount,
    other_signers: Seq<KeyedAccount>,
    who: Pubkey,
) -> bool {
    ||| (vote_account.is_signer && vote_account.key == who)
    ||| exists|i: int|
        0 <= i < other_signers.len() && (#[trigger] other_signers[i]).is_signer
            && other_signers[i].key == who
}

/// Decides `spec_signed_by`.
fn signed_by(vote_account: &KeyedAccount, other_signers: &[KeyedAccount], who: &Pubkey) -> (r:
    bool)
    ensures
        r == spec_signed_by(*vote_account, other_signers@, *who),
{
    if vote_account.is_signer && vote_account.key == *who {
        return true;
    }
    let mut i: usize = 0;
    while i < other_signers.len()
        invariant
            0 <= i <= other_signers@.len(),
            forall|j: int|
                0 <= j < i ==> !((#[trigger] other_signers@[j]).is_signer && other_signers@[j].key
                    == *who),
        decreases other_signers@.len() - i,
    {
        if other_signers[i].is_signer && other_signers[i].key == *who {
            return true;
        }
        i = i + 1;
    }
    false
}

/// Authorize `authorized_voter_pubkey` to sign votes for this account. The
/// currently authorized voter must have signed, as the account itself or as
/// a co-signer; the change is idempotent when re-authorizing the same key.
pub fn authorize_voter(
    vote_account: &mut KeyedAccount,
    other_signers: &[KeyedAccount],
    authorized_voter_pubkey: &Pubkey,
) -> (r: Result<(), InstructionError>)
    ensures
        final(vote_account).key == old(vote_account).key,
        final(vote_account).is_signer == old(vote_account).is_signer,
        final(vote_account).account.lamports == old(vote_account).account.lamports,
        final(vote_account).account.owner == old(vote_account).account.owner,
        (spec_deserialize(old(vote_account).account.data@) is None) ==> r == Err::<(),
        InstructionError>(InstructionError::InvalidAccountData) && final(vote_account).account.data
            == old(vote_account).account.data,
        spec_deserialize(old(vote_account).account.data@) matches Some(v) ==> {
            let updated = VoteStateView {
                authorized_voter_pubkey: *authorized_voter_pubkey,
                ..v
            };
            if !spec_signed_by(*old(vote_account), other_signers@, v.authorized_voter_pubkey) {
                r == Err::<(), InstructionError>(InstructionError::MissingRequiredSignature)
                    && final(vote_account).account.data@ == old(vote_account).account.data@
            } else if spec_serialize(updated).len() <= old(vote_account).account.data@.len() {
                r == Ok::<(), InstructionError>(()) && final(vote_account).account.data@
                    == spec_serialize(updated) + old(vote_account).account.data@.skip(
                    spec_serialize(updated).len() as int,
                )
            } else {
                r == Err::<(), InstructionError>(InstructionError::AccountDataTooSmall) && final(vote_account).account.data@ == old(vote_account).account.data@
            }
        },
{
    let mut vote_state: VoteState = match vote_account.state() {
        Ok(s) => s,
        Err(e) => {
            return Err(e);
        },
    };
    // the currently authorized voter must approve the handover
    if !signed_by(vote_account, other_signers, &vote_state.authorized_voter_pubkey) {
        return Err(InstructionError::MissingRequiredSignature);
    }
    vote_state.authorized_voter_pubkey = *authorized_voter_pubkey;
    vote_account.set_state(&vote_state)
}

/// Move `lamports` out of the vote account; it must have signed and hold
/// enough funds.
pub fn withdraw(vote_account: &mut KeyedAccount, lamports: u64, to_account: &mut KeyedAccount)
    -> (r: Result<(), InstructionError>)
    requires
        old(to_account).account.lamports + lamports <= u64::MAX,
    ensures
        final(vote_account).key == old(vote_account).key,
        final(vote_account).is_signer == old(vote_account).is_signer,
        final(vote_account).account.data@ == old(vote_account).account.data@,
        final(vote_account).account.owner == old(vote_account).account.owner,
        final(to_account).key == old(to_account).key,
        final(to_account).is_signer == old(to_account).is_signer,
        final(to_account).account.data@ == old(to_account).account.data@,
        final(to_account).account.owner == old(to_account).account.owner,
        !old(vote_account).is_signer ==> r == Err::<(), InstructionError>(
            InstructionError::MissingRequiredSignature,
        ) && final(vote_account).account.lamports == old(vote_account).account.lamports && final(to_account).account.lamports == old(to_account).account.lamports,
        old(vote_account).is_signer && old(vote_account).account.lamports < lamports ==> r
            == Err::<(), InstructionError>(InstructionError::InsufficientFunds) && final(vote_account).account.lamports == old(vote_account).account.lamports && final(to_account).account.lamports == old(to_account).account.lamports,
        old(vote_account).is_signer && old(vote_account).account.lamports >= lamports ==> r
            == Ok::<(), InstructionError>(()) && final(vote_account).account.lamports == old(vote_account).account.lamports - lamports && final(to_account).account.lamports == old(to_account).account.lamports + lamports,
{
    if !vote_account.is_signer {
        return Err(InstructionError::MissingRequiredSignature);
    }
    if vote_account.account.lamports < lamports {
        return Err(InstructionError::InsufficientFunds);
    }
    vote_account.account.lamports = vote_account.account.lamports - lamports;
    to_account.account.lamports = to_account.account.lamports + lamports;
    Ok(())
}

/// Initialize the vote state of a freshly created account: one-way; an
/// account whose authorized voter is already set cannot be initialized
/// again.
pub fn initialize_account(
    vote_account: &mut KeyedAccount,
    node_pubkey: &Pubkey,
    commission: u8,
) -> (r: Result<(), InstructionError>)
    ensures
        final(vote_account).key == old(vote_account).key,
        final(vote_account).is_signer == old(vote_account).is_signer,
        final(vote_account).account.lamports == old(vote_account).account.lamports,
        final(vote_account).account.owner == old(vote_account).account.owner,
        (spec_deserialize(old(vote_account).account.data@) is None) ==> r == Err::<(),
        InstructionError>(InstructionError::InvalidAccountData) && final(vote_account).account.data
            == old(vote_account).account.data,
        spec_deserialize(old(vote_account).account.data@) matches Some(v) ==> {
            let fresh = VoteStateView {
                node_pubkey: *node_pubkey,
                authorized_voter_pubkey: old(vote_account).key,
                commission,
                ..VoteStateView::spec_default()
            };
            if v.authorized_voter_pubkey != Pubkey::spec_default() {
                r == Err::<(), InstructionError>(InstructionError::AccountAlreadyInitialized)
                    && final(vote_account).account.data@ == old(vote_account).account.data@
            } else if spec_serialize(fresh).len() <= old(vote_account).account.data@.len() {
                r == Ok::<(), InstructionError>(()) && final(vote_account).account.data@
                    == spec_serialize(fresh) + old(vote_account).account.data@.skip(
                    spec_serialize(fresh).len() as int,
                )
            } else {
                r == Err::<(), InstructionError>(InstructionError::AccountDataTooSmall) && final(vote_account).account.data@ == old(vote_account).account.data@
            }
        },
{
    let vote_state: VoteState = match vote_account.state() {
        Ok(s) => s,
        Err(e) => {
            return Err(e);
        },
    };
    if !(vote_state.authorized_voter_pubkey == Pubkey::default()) {
        return Err(InstructionError::AccountAlreadyInitialized);
    }
    let key = vote_account.unsigned_key();
    let fresh = VoteState::new(&key, node_pubkey, commission);
    vote_account.set_state(&fresh)
}

/// Apply submitted votes to the account's tower. The account must be
/// initialized and the authorized voter must have signed; each vote is then
/// checked against the `(slot, hash)` witnesses and applied in order.
pub fn process_votes(
    vote_account: &mut KeyedAccount,
    slot_hashes: &[(u64, StateHash)],
    clock: &Clock,
    other_signers: &[KeyedAccount],
    votes: &[Vote],
) -> (r: Result<(), InstructionError>)
    requires
        forall|i: int| 0 <= i < votes@.len() ==> (#[trigger] votes@[i]).slot <= MAX_VOTE_SLOT,
        spec_deserialize(old(vote_account).account.data@) matches Some(v) ==> v.wf()
            && clock.epoch >= v.epoch && v.credits + votes@.len() <= u64::MAX,
    ensures
        final(vote_account).key == old(vote_account).key,
        final(vote_account).is_signer == old(vote_account).is_signer,
        final(vote_account).account.lamports == old(vote_account).account.lamports,
        final(vote_account).account.owner == old(vote_account).account.owner,
        (spec_deserialize(old(vote_account).account.data@) is None) ==> r == Err::<(),
        InstructionError>(InstructionError::InvalidAccountData) && final(vote_account).account.data
            == old(vote_account).account.data,
        spec_deserialize(old(vote_account).account.data@) matches Some(v) ==> {
            let processed = spec_process_votes(v, votes@, slot_hashes@, clock.epoch);
            if v.authorized_voter_pubkey == Pubkey::spec_default() {
                r == Err::<(), InstructionError>(InstructionError::UninitializedAccount) && final(vote_account).account.data@ == old(vote_account).account.data@
            } else if !spec_signed_by(
                *old(vote_account),
                other_signers@,
                v.authorized_voter_pubkey,
            ) {
                r == Err::<(), InstructionError>(InstructionError::MissingRequiredSignature)
                    && final(vote_account).account.data@ == old(vote_account).account.data@
            } else if spec_serialize(processed).len() <= old(vote_account).account.data@.len() {
                r == Ok::<(), InstructionError>(()) && final(vote_account).account.data@
                    == spec_serialize(processed) + old(vote_account).account.data@.skip(
                    spec_serialize(processed).len() as int,
                )
            } else {
                r == Err::<(), InstructionError>(InstructionError::AccountDataTooSmall) && final(vote_account).account.data@ == old(vote_account).account.data@
            }
        },
{
    let mut vote_state: VoteState = match vote_account.state() {
        Ok(s) => s,
        Err(e) => {
            return Err(e);
        },
    };
    if vote_state.authorized_voter_pubkey == Pubkey::default() {
        return Err(InstructionError::UninitializedAccount);
    }
    // a signer must match the authorized voter
    if !signed_by(vote_account, other_signers, &vote_state.authorized_voter_pubkey) {
        return Err(InstructionError::MissingRequiredSignature);
    }
    vote_state.process_votes(votes, slot_hashes, clock.epoch);
    vote_account.set_state(&vote_state)
}

/// Build a funded, initialized vote account owned by the vote program.
pub fn create_account(
    vote_pubkey: &Pubkey,
    node_pubkey: &Pubkey,
    commission: u8,
    lamports: u64,
) -> (r: Account)
    ensures
        r.lamports == lamports,
        r.owner == spec_id(),
        spec_deserialize(r.data@) == Some(
            VoteStateView {
                node_pubkey: *node_pubkey,
                authorized_voter_pubkey: *vote_pubkey,
                commission,
                ..VoteStateView::spec_default()
            },
        ),
        r.data@.len() == 2022,
{
    let space = VoteState::size_of();
    let program_id = id();
    let mut vote_account = Account::new(lamports, space, &program_id);
    let state = VoteState::new(vote_pubkey, node_pubkey, commission);
    proof {
        VoteState::lemma_serialized_fits(state@);
    }
    let written = state.to(&mut vote_account);
    proof {
        crate::vote_codec::lemma_round_trip(
            state@,
            Seq::new(2022, |i: int| 0u8).skip(spec_serialize(state@).len() as int),
        );
    }
    vote_account
}

/// Build the bootstrap leader's vote account: created, then credited with a
/// vote for the genesis slot so the leader schedule must select it.
pub fn create_bootstrap_leader_account(
    vote_pubkey: &Pubkey,
    node_pubkey: &Pubkey,
    commission: u8,
    vote_lamports: u64,
) -> (r: (Account, VoteState))
    ensures
        r.0.lamports == vote_lamports,
        r.0.owner == spec_id(),
        r.1@ == crate::vote_state::spec_process_vote(
            VoteStateView {
                node_pubkey: *node_pubkey,
                authorized_voter_pubkey: *vote_pubkey,
                commission,
                ..VoteStateView::spec_default()
            },
            Vote { slot: 0, hash: StateHash::spec_default() },
            seq![(0u64, StateHash::spec_default())],
            0,
        ),
        spec_deserialize(r.0.data@) == Some(r.1@),
        r.1@.wf(),
{
    let mut vote_account = create_account(vote_pubkey, node_pubkey, commission, vote_lamports);
    let mut vote_state: VoteState = match VoteState::from(&vote_account) {
        Some(s) => s,
        None => {
            // `create_account` always leaves a parsable state behind
            proof {
                assert(false);
            }
            VoteState::default()
        },
    };
    vote_state.process_slot_vote_unchecked(0);
    proof {
        VoteState::lemma_serialized_fits(vote_state@);
    }
    let ghost pre = vote_account.data@;
    let written = vote_state.to(&mut vote_account);
    proof {
        crate::vote_codec::lemma_round_trip(
            vote_state@,
            pre.skip(spec_serialize(vote_state@).len() as int),
        );
    }
    (vote_account, vote_state)
}

} // verus!
