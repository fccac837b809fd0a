//! The tower of votes: a bounded stack of lockouts with doubling semantics,
//! expiration sweeps, root promotion on overflow, and credit accrual.

use crate::keys::{Pubkey, StateHash};
use vstd::arithmetic::power2::pow2;
use vstd::prelude::*;

verus! {

/// Most votes the tower retains.
pub const MAX_LOCKOUT_HISTORY: usize = 31;

/// Base of the lockout doubling rule.
pub const INITIAL_LOCKOUT: usize = 2;

/// Most per-epoch credit records retained.
pub const MAX_EPOCH_CREDITS_HISTORY: usize = 64;

/// Largest slot number a vote may carry, so that `slot + 2^31`, the widest
/// possible lockout expiration, still fits in a `u64`.
pub const MAX_VOTE_SLOT: u64 = 0xFFFF_FFFF_7FFF_FFFFu64;

/// A vote for `slot`, witnessed by the ledger digest at that slot.
#[derive(Clone, Copy, Debug, PartialEq, Eq, Structural)]
pub struct Vote {
    pub slot: u64,
    /// digest of the ledger state at `slot`
    pub hash: StateHash,
}

impl Vote {
    pub fn new(slot: u64, hash: StateHash) -> (r: Self)
        ensures
            r == (Vote { slot, hash }),
    {
        Self { slot, hash }
    }

    pub fn default() -> (r: Self)
        ensures
            r == (Vote { slot: 0, hash: StateHash::spec_default() }),
    {
        Vote { slot: 0, hash: StateHash::default() }
    }
}

/// One rung of the tower: a vote together with how many confirmations it has
/// seen; its lockout is `2^confirmation_count` slots.
#[derive(Clone, Copy, Debug, PartialEq, Eq, Structural)]
pub struct Lockout {
    pub slot: u64,
    pub confirmation_count: u32,
}

impl Lockout {
    pub fn new(vote: &Vote) -> (r: Self)
        ensures
            r == (Lockout { slot: vote.slot, confirmation_count: 1 }),
    {
        Self { slot: vote.slot, confirmation_count: 1 }
    }

    pub fn default() -> (r: Self)
        ensures
            r == (Lockout { slot: 0, confirmation_count: 0 }),
    {
        Lockout { slot: 0, confirmation_count: 0 }
    }

    /// The number of slots this vote is locked for: `2^confirmation_count`.
    pub open spec fn spec_lockout(self) -> int {
        pow2(self.confirmation_count as nat) as int
    }

    /// The last slot covered by the lockout.
    pub open spec fn spec_expiration_slot(self) -> int {
        self.slot + self.spec_lockout()
    }

    /// The vote no longer binds at `slot`.
    pub open spec fn spec_is_expired(self, slot: u64) -> bool {
        self.spec_expiration_slot() < slot
    }

    /// The number of slots for which this vote is locked.
    pub fn lockout(&self) -> (r: u64)
        requires
            self.confirmation_count <= 63,
        ensures
            r == self.spec_lockout(),
    {
        proof {
            vstd::arithmetic::power2::lemma2_to64();
        }
        let mut r: u64 = 1;
        let mut i: u32 = 0;
        while i < self.confirmation_count
            invariant
                0 <= i <= self.confirmation_count <= 63,
                r == pow2(i as nat),
            decreases self.confirmation_count - i,
        {
            proof {
                vstd::arithmetic::power2::lemma_pow2_unfold((i + 1) as nat);
                if i + 1 <= 63 {
                    if i + 1 < 63 {
                        vstd::arithmetic::power2::lemma_pow2_strictly_increases(
                            (i + 1) as nat,
                            63,
                        );
                    }
                    vstd::arithmetic::power2::lemma2_to64_rest();
                }
            }
            r = r * 2;
            i = i + 1;
        }
        r
    }

    /// The slot at which this vote expires: no slot at or below it may be
    /// voted against a conflicting fork.
    pub fn expiration_slot(&self) -> (r: u64)
        requires
            self.confirmation_count <= 63,
            self.slot + pow2(self.confirmation_count as nat) <= u64::MAX,
        ensures
            r == self.spec_expiration_slot(),
    {
        self.slot + self.lockout()
    }

    /// Whether this vote's lockout has run out at `slot`.
    pub fn is_expired(&self, slot: u64) -> (r: bool)
        requires
            self.confirmation_count <= 63,
            self.slot + pow2(self.confirmation_count as nat) <= u64::MAX,
        ensures
            r == self.spec_is_expired(slot),
    {
        self.expiration_slot() < slot
    }
}

/// The mathematical shadow of a `VoteState`: every field as a plain value or
/// sequence. Contracts and laws are stated over this record.
pub struct VoteStateView {
    pub votes: Seq<Lockout>,
    pub node_pubkey: Pubkey,
    pub authorized_voter_pubkey: Pubkey,
    pub commission: u8,
    pub root_slot: Option<u64>,
    pub epoch: u64,
    pub credits: u64,
    pub last_epoch_credits: u64,
    pub epoch_credits: Seq<(u64, u64, u64)>,
}

/// Per-account vote state: the tower, its owner keys, the promoted root, and
/// credit accounting.
#[derive(Debug, Clone)]
pub struct VoteState {
    /// the tower, oldest vote first
    pub votes: Vec<Lockout>,
    /// identity this account votes on behalf of
    pub node_pubkey: Pubkey,
    /// who may sign vote submissions; the zero key until initialization
    pub authorized_voter_pubkey: Pubkey,
    /// fraction of 255 of rewards that go to the voter rather than stakers
    pub commission: u8,
    /// highest slot pushed out of the bottom of the tower
    pub root_slot: Option<u64>,
    /// last clock epoch seen by credit accounting
    pub epoch: u64,
    /// lifetime credits, monotonically increasing
    pub credits: u64,
    /// value of `credits` at the start of the current epoch
    pub last_epoch_credits: u64,
    /// per-epoch credit records `(epoch, credits, prev_credits)`
    pub epoch_credits: Vec<(u64, u64, u64)>,
}

impl View for VoteState {
    type V = VoteStateView;

    open spec fn view(&self) -> VoteStateView {
        VoteStateView {
            votes: self.votes@,
            node_pubkey: self.node_pubkey,
            authorized_voter_pubkey: self.authorized_voter_pubkey,
            commission: self.commission,
            root_slot: self.root_slot,
            epoch: self.epoch,
            credits: self.credits,
            last_epoch_credits: self.last_epoch_credits,
            epoch_credits: self.epoch_credits@,
        }
    }
}

impl VoteStateView {
    /// The state a fresh account starts from.
    pub open spec fn spec_default() -> VoteStateView {
        VoteStateView {
            votes: Seq::empty(),
            node_pubkey: Pubkey::spec_default(),
            authorized_voter_pubkey: Pubkey::spec_default(),
            commission: 0,
            root_slot: None,
            epoch: 0,
            credits: 0,
            last_epoch_credits: 0,
            epoch_credits: Seq::empty(),
        }
    }

    /// Shape of a healthy tower: bounded depth, confirmation counts between
    /// one and the depth bound, strictly increasing slots, and slots small
    /// enough that lockout arithmetic cannot overflow.
    pub open spec fn votes_wf(votes: Seq<Lockout>) -> bool {
        &&& votes.len() <= MAX_LOCKOUT_HISTORY
        &&& forall|i: int|
            0 <= i < votes.len() ==> 1 <= (#[trigger] votes[i]).confirmation_count
                <= MAX_LOCKOUT_HISTORY
        &&& forall|i: int, j: int|
            0 <= i < j < votes.len() ==> (#[trigger] votes[i]).slot < (#[trigger] votes[j]).slot
        &&& forall|i: int| 0 <= i < votes.len() ==> (#[trigger] votes[i]).slot <= MAX_VOTE_SLOT
    }

    /// The credit history is ordered, below the current epoch, and bounded.
    pub open spec fn credits_wf(self) -> bool {
        &&& forall|i: int, j: int|
            0 <= i < j < self.epoch_credits.len() ==> (#[trigger] self.epoch_credits[i]).0 < (
            #[trigger] self.epoch_credits[j]).0
        &&& forall|i: int|
            0 <= i < self.epoch_credits.len() ==> (#[trigger] self.epoch_credits[i]).0
                < self.epoch
        &&& self.epoch_credits.len() <= MAX_EPOCH_CREDITS_HISTORY
    }

    /// Structural invariant of the whole state (see the laws in this module):
    /// a healthy tower, a promoted root strictly below every live vote, and
    /// an ordered, bounded credit history.
    pub open spec fn wf(self) -> bool {
        &&& Self::votes_wf(self.votes)
        &&& self.root_slot matches Some(r) ==> self.votes.len() > 0 && forall|i: int|
            0 <= i < self.votes.len() ==> r < (#[trigger] self.votes[i]).slot
        &&& self.credits_wf()
    }
}

/// A lockout whose shape `votes_wf` allows cannot overflow the expiration
/// arithmetic.
pub proof fn lemma_lockout_fits(l: Lockout)
    requires
        l.confirmation_count <= MAX_LOCKOUT_HISTORY,
        l.slot <= MAX_VOTE_SLOT,
    ensures
        l.confirmation_count <= 63,
        l.slot + pow2(l.confirmation_count as nat) <= u64::MAX,
{
    vstd::arithmetic::power2::lemma2_to64();
    if (l.confirmation_count as nat) < 31 {
        vstd::arithmetic::power2::lemma_pow2_strictly_increases(
            l.confirmation_count as nat,
            31,
        );
    }
}

/// `(slot, hash)` appears among the witnesses.
pub open spec fn spec_witnessed(slot_hashes: Seq<(u64, StateHash)>, slot: u64, hash: StateHash) -> bool {
    exists|i: int|
        0 <= i < slot_hashes.len() && (#[trigger] slot_hashes[i]).0 == slot
            && slot_hashes[i].1 == hash
}

/// The expiration sweep: votes at the top of the tower whose lockouts have
/// run out at `slot` are removed, newest first.
pub open spec fn spec_pop_expired(votes: Seq<Lockout>, slot: u64) -> Seq<Lockout>
    decreases votes.len(),
{
    if votes.len() > 0 && votes.last().spec_is_expired(slot) {
        spec_pop_expired(votes.drop_last(), slot)
    } else {
        votes
    }
}

/// The doubling rule: a vote gains a confirmation exactly when the tower has
/// grown deeper than the confirmations it has already seen.
pub open spec fn spec_double_lockouts(votes: Seq<Lockout>) -> Seq<Lockout> {
    Seq::new(
        votes.len(),
        |i: int|
            if votes.len() - i > votes[i].confirmation_count {
                Lockout {
                    slot: votes[i].slot,
                    confirmation_count: (votes[i].confirmation_count + 1) as u32,
                }
            } else {
                votes[i]
            },
    )
}

/// Credit accrual: entering a new epoch seals the previous epoch's record,
/// then one credit is earned.
pub open spec fn spec_increment_credits(s: VoteStateView, epoch: u64) -> VoteStateView {
    let sealed = if epoch != s.epoch {
        let pushed = s.epoch_credits.push((s.epoch, s.credits, s.last_epoch_credits));
        VoteStateView {
            epoch,
            last_epoch_credits: s.credits,
            epoch_credits: if pushed.len() > MAX_EPOCH_CREDITS_HISTORY {
                pushed.drop_first()
            } else {
                pushed
            },
            ..s
        }
    } else {
        s
    };
    VoteStateView { credits: (sealed.credits + 1) as u64, ..sealed }
}

/// One vote against the tower: regression and unwitnessed votes are ignored;
/// otherwise expired votes are swept, a full tower promotes its oldest vote
/// to the root (earning a credit), the vote is pushed, and lockouts double.
pub open spec fn spec_process_vote(
    s: VoteStateView,
    vote: Vote,
    slot_hashes: Seq<(u64, StateHash)>,
    epoch: u64,
) -> VoteStateView {
    if s.votes.len() > 0 && s.votes.last().slot >= vote.slot {
        s
    } else if !spec_witnessed(slot_hashes, vote.slot, vote.hash) {
        s
    } else {
        let popped = spec_pop_expired(s.votes, vote.slot);
        let overflow = popped.len() == MAX_LOCKOUT_HISTORY;
        let rooted = if overflow {
            spec_increment_credits(VoteStateView { root_slot: Some(popped[0].slot), ..s }, epoch)
        } else {
            s
        };
        let remaining = if overflow {
            popped.drop_first()
        } else {
            popped
        };
        VoteStateView {
            votes: spec_double_lockouts(
                remaining.push(Lockout { slot: vote.slot, confirmation_count: 1 }),
            ),
            ..rooted
        }
    }
}

/// A sequence of votes applied in order.
pub open spec fn spec_process_votes(
    s: VoteStateView,
    votes: Seq<Vote>,
    slot_hashes: Seq<(u64, StateHash)>,
    epoch: u64,
) -> VoteStateView
    decreases votes.len(),
{
    if votes.len() == 0 {
        s
    } else {
        spec_process_votes(
            spec_process_vote(s, votes[0], slot_hashes, epoch),
            votes.drop_first(),
            slot_hashes,
            epoch,
        )
    }
}

} // verus!

verus! {

/// `spec_pop_expired` removes a suffix: the result is a prefix of the input.
pub proof fn lemma_pop_expired_is_prefix(votes: Seq<Lockout>, slot: u64)
    ensures
        spec_pop_expired(votes, slot).len() <= votes.len(),
        spec_pop_expired(votes, slot) == votes.take(spec_pop_expired(votes, slot).len() as int),
    decreases votes.len(),
{
    if votes.len() > 0 && votes.last().spec_is_expired(slot) {
        lemma_pop_expired_is_prefix(votes.drop_last(), slot);
        let p = spec_pop_expired(votes, slot);
        assert(votes.drop_last().take(p.len() as int) =~= votes.take(p.len() as int));
    } else {
        assert(votes.take(votes.len() as int) =~= votes);
    }
}

/// Credit accrual preserves the credit-history invariants, never decreases
/// the credit counter, and leaves the tower and keys alone.
pub proof fn lemma_increment_credits_wf(s: VoteStateView, epoch: u64)
    requires
        s.credits_wf(),
        epoch >= s.epoch,
        s.credits < u64::MAX,
    ensures
        spec_increment_credits(s, epoch).credits_wf(),
        spec_increment_credits(s, epoch).credits == s.credits + 1,
        spec_increment_credits(s, epoch).epoch == epoch,
        spec_increment_credits(s, epoch).votes == s.votes,
        spec_increment_credits(s, epoch).root_slot == s.root_slot,
        spec_increment_credits(s, epoch).node_pubkey == s.node_pubkey,
        spec_increment_credits(s, epoch).authorized_voter_pubkey == s.authorized_voter_pubkey,
        spec_increment_credits(s, epoch).commission == s.commission,
{
    let r = spec_increment_credits(s, epoch);
    if epoch != s.epoch {
        let pushed = s.epoch_credits.push((s.epoch, s.credits, s.last_epoch_credits));
        assert(forall|i: int, j: int|
            0 <= i < j < pushed.len() ==> (#[trigger] pushed[i]).0 < (#[trigger] pushed[j]).0);
        if pushed.len() > MAX_EPOCH_CREDITS_HISTORY {
            assert(forall|i: int|
                0 <= i < pushed.drop_first().len() ==> #[trigger] pushed.drop_first()[i]
                    == pushed[i + 1]);
        }
    }
}

/// The central preservation law of the tower: processing any single vote
/// keeps the state well formed, never shrinks the credit counter (by at most
/// one credit per vote), and never moves the clock epoch beyond `epoch`.
pub proof fn lemma_process_vote_wf(
    s: VoteStateView,
    vote: Vote,
    slot_hashes: Seq<(u64, StateHash)>,
    epoch: u64,
)
    requires
        s.wf(),
        vote.slot <= MAX_VOTE_SLOT,
        epoch >= s.epoch,
        s.credits < u64::MAX,
    ensures
        spec_process_vote(s, vote, slot_hashes, epoch).wf(),
        s.credits <= spec_process_vote(s, vote, slot_hashes, epoch).credits <= s.credits + 1,
        s.epoch <= spec_process_vote(s, vote, slot_hashes, epoch).epoch <= epoch,
{
    let r = spec_process_vote(s, vote, slot_hashes, epoch);
    if s.votes.len() > 0 && s.votes.last().slot >= vote.slot {
    } else if !spec_witnessed(slot_hashes, vote.slot, vote.hash) {
    } else {
        let popped = spec_pop_expired(s.votes, vote.slot);
        lemma_pop_expired_is_prefix(s.votes, vote.slot);
        assert(forall|i: int| 0 <= i < popped.len() ==> popped[i] == s.votes[i]);
        // every live slot is below the new vote's slot
        assert(forall|i: int| 0 <= i < s.votes.len() ==> (#[trigger] s.votes[i]).slot
            < vote.slot) by {
            if s.votes.len() > 0 {
                assert(forall|i: int|
                    0 <= i < s.votes.len() - 1 ==> (#[trigger] s.votes[i]).slot < s.votes[
                        s.votes.len() - 1
                    ].slot);
            }
        }
        let overflow = popped.len() == MAX_LOCKOUT_HISTORY;
        let rooted = if overflow {
            spec_increment_credits(VoteStateView { root_slot: Some(popped[0].slot), ..s }, epoch)
        } else {
            s
        };
        let remaining = if overflow {
            popped.drop_first()
        } else {
            popped
        };
        if overflow {
            lemma_increment_credits_wf(
                VoteStateView { root_slot: Some(popped[0].slot), ..s },
                epoch,
            );
        }
        let pushed = remaining.push(Lockout { slot: vote.slot, confirmation_count: 1 });
        let doubled = spec_double_lockouts(pushed);
        // tower shape
        assert(pushed.len() <= MAX_LOCKOUT_HISTORY);
        assert(forall|i: int|
            0 <= i < doubled.len() ==> 1 <= (#[trigger] doubled[i]).confirmation_count
                <= MAX_LOCKOUT_HISTORY);
        assert(forall|i: int, j: int|
            0 <= i < j < doubled.len() ==> (#[trigger] doubled[i]).slot < (
            #[trigger] doubled[j]).slot);
        assert(forall|i: int| 0 <= i < doubled.len() ==> (#[trigger] doubled[i]).slot
            <= MAX_VOTE_SLOT);
        // the root stays below every live vote
        if s.votes.len() > 0 {
            assert(s.root_slot matches Some(root) ==> root < s.votes[0].slot && s.votes[0].slot
                < vote.slot);
        }
        match r.root_slot {
            Some(root) => {
                if overflow {
                    assert(root == popped[0].slot);
                    assert(forall|i: int| 0 <= i < doubled.len() ==> root < (
                    #[trigger] doubled[i]).slot);
                } else {
                    assert(Some(root) == s.root_slot);
                    assert(forall|i: int| 0 <= i < s.votes.len() ==> root < (
                    #[trigger] s.votes[i]).slot);
                    assert(forall|i: int| 0 <= i < doubled.len() ==> root < (
                    #[trigger] doubled[i]).slot);
                }
            },
            None => {},
        }
    }
}

/// Applying a sequence of votes in order keeps the state well formed, the
/// credit counter non-decreasing with at most one credit per vote, and the
/// clock epoch between its old value and `epoch`.
pub proof fn lemma_process_votes_wf(
    s: VoteStateView,
    votes: Seq<Vote>,
    slot_hashes: Seq<(u64, StateHash)>,
    epoch: u64,
)
    requires
        s.wf(),
        forall|i: int| 0 <= i < votes.len() ==> (#[trigger] votes[i]).slot <= MAX_VOTE_SLOT,
        epoch >= s.epoch,
        s.credits + votes.len() <= u64::MAX,
    ensures
        spec_process_votes(s, votes, slot_hashes, epoch).wf(),
        s.credits <= spec_process_votes(s, votes, slot_hashes, epoch).credits <= s.credits
            + votes.len(),
        s.epoch <= spec_process_votes(s, votes, slot_hashes, epoch).epoch <= epoch,
    decreases votes.len(),
{
    if votes.len() == 0 {
    } else {
        lemma_process_vote_wf(s, votes[0], slot_hashes, epoch);
        let s1 = spec_process_vote(s, votes[0], slot_hashes, epoch);
        assert(forall|i: int|
            0 <= i < votes.drop_first().len() ==> (#[trigger] votes.drop_first()[i]).slot
                <= MAX_VOTE_SLOT) by {
            assert(forall|i: int|
                0 <= i < votes.drop_first().len() ==> votes.drop_first()[i] == votes[i + 1]);
        }
        lemma_process_votes_wf(s1, votes.drop_first(), slot_hashes, epoch);
    }
}

/// Law: a vote for a slot at or below the newest vote in the tower, or one
/// whose `(slot, hash)` pair is not among the witnesses, changes nothing.
pub proof fn lemma_stale_or_unwitnessed_vote_ignored(
    s: VoteStateView,
    vote: Vote,
    slot_hashes: Seq<(u64, StateHash)>,
    epoch: u64,
)
    requires
        (s.votes.len() > 0 && s.votes.last().slot >= vote.slot) || !spec_witnessed(
            slot_hashes,
            vote.slot,
            vote.hash,
        ),
    ensures
        spec_process_vote(s, vote, slot_hashes, epoch) == s,
{
}

/// Confirmation counts never exceed the tower depth below them.
pub open spec fn confirmations_within_depth(s: VoteStateView) -> bool {
    forall|i: int|
        0 <= i < s.votes.len() ==> (#[trigger] s.votes[i]).confirmation_count <= s.votes.len() - i
}

/// Law: as long as a vote does not trigger the expiration sweep, each vote's
/// confirmation count stays bounded by the depth of the tower at or above it.
/// (A sweep can break this: it shortens the tower under old, deep votes.)
pub proof fn lemma_confirmations_within_depth_preserved(
    s: VoteStateView,
    vote: Vote,
    slot_hashes: Seq<(u64, StateHash)>,
    epoch: u64,
)
    requires
        s.wf(),
        confirmations_within_depth(s),
        spec_pop_expired(s.votes, vote.slot) == s.votes,
    ensures
        confirmations_within_depth(spec_process_vote(s, vote, slot_hashes, epoch)),
{
    let r = spec_process_vote(s, vote, slot_hashes, epoch);
    if s.votes.len() > 0 && s.votes.last().slot >= vote.slot {
    } else if !spec_witnessed(slot_hashes, vote.slot, vote.hash) {
    } else {
        let popped = spec_pop_expired(s.votes, vote.slot);
        let overflow = popped.len() == MAX_LOCKOUT_HISTORY;
        let remaining = if overflow {
            popped.drop_first()
        } else {
            popped
        };
        let pushed = remaining.push(Lockout { slot: vote.slot, confirmation_count: 1 });
        if overflow {
            assert(forall|i: int|
                0 <= i < remaining.len() ==> #[trigger] remaining[i] == s.votes[i + 1]);
        }
        assert(forall|i: int|
            0 <= i < pushed.len() ==> (#[trigger] pushed[i]).confirmation_count <= pushed.len()
                - i);
        assert(forall|i: int|
            0 <= i < r.votes.len() ==> (#[trigger] r.votes[i]).confirmation_count <= r.votes.len()
                - i);
    }
}

impl VoteState {
    /// A fresh state for an account keyed by `vote_pubkey`, voting on behalf
    /// of `node_pubkey`.
    pub fn new(vote_pubkey: &Pubkey, node_pubkey: &Pubkey, commission: u8) -> (r: Self)
        ensures
            r@ == (VoteStateView {
                node_pubkey: *node_pubkey,
                authorized_voter_pubkey: *vote_pubkey,
                commission,
                ..VoteStateView::spec_default()
            }),
            r@.wf(),
            confirmations_within_depth(r@),
    {
        let r = VoteState {
            votes: Vec::new(),
            node_pubkey: *node_pubkey,
            authorized_voter_pubkey: *vote_pubkey,
            commission,
            root_slot: None,
            epoch: 0,
            credits: 0,
            last_epoch_credits: 0,
            epoch_credits: Vec::new(),
        };
        proof {
            assert(r@ =~= (VoteStateView {
                node_pubkey: *node_pubkey,
                authorized_voter_pubkey: *vote_pubkey,
                commission,
                ..VoteStateView::spec_default()
            }));
        }
        r
    }

    /// The all-default state of a freshly created, uninitialized account.
    pub fn default() -> (r: Self)
        ensures
            r@ == VoteStateView::spec_default(),
            r@.wf(),
            confirmations_within_depth(r@),
    {
        let zero = Pubkey::default();
        let r = Self::new(&zero, &zero, 0);
        proof {
            assert(r@ =~= VoteStateView::spec_default());
        }
        r
    }

    /// Lifetime credits owed to this account from the mining pool.
    pub fn credits(&self) -> (r: u64)
        ensures
            r == self@.credits,
    {
        self.credits
    }

    /// The per-epoch credit records, oldest first.
    pub fn epoch_credits(&self) -> (r: &Vec<(u64, u64, u64)>)
        ensures
            r@ == self@.epoch_credits,
    {
        &self.epoch_credits
    }

    /// The vote at `position`, counted from the newest end of the tower.
    pub fn nth_recent_vote(&self, position: usize) -> (r: Option<Lockout>)
        ensures
            r == if position < self@.votes.len() {
                Some(self@.votes[self@.votes.len() - 1 - position])
            } else {
                None::<Lockout>
            },
    {
        if position < self.votes.len() {
            Some(self.votes[self.votes.len() - 1 - position])
        } else {
            None
        }
    }

    /// Seal the previous epoch's record if the epoch advanced, then earn one
    /// credit.
    pub fn increment_credits(&mut self, epoch: u64)
        requires
            old(self)@.credits_wf(),
            epoch >= old(self)@.epoch,
            old(self)@.credits < u64::MAX,
        ensures
            final(self)@ == spec_increment_credits(old(self)@, epoch),
            final(self)@.credits_wf(),
            final(self)@.credits == old(self)@.credits + 1,
            old(self)@.wf() ==> final(self)@.wf(),
    {
        proof {
            lemma_increment_credits_wf(old(self)@, epoch);
        }
        if epoch != self.epoch {
            self.epoch_credits.push((self.epoch, self.credits, self.last_epoch_credits));
            if self.epoch_credits.len() > MAX_EPOCH_CREDITS_HISTORY {
                self.epoch_credits.remove(0);
                proof {
                    assert(self.epoch_credits@ =~= old(
                        self,
                    )@.epoch_credits.push(
                        (old(self)@.epoch, old(self)@.credits, old(self)@.last_epoch_credits),
                    ).drop_first());
                }
            }
            self.epoch = epoch;
            self.last_epoch_credits = self.credits;
        }
        self.credits = self.credits + 1;
        proof {
            assert(final(self)@ =~= spec_increment_credits(old(self)@, epoch));
        }
    }

    /// Sweep expired votes off the top of the tower.
    fn pop_expired_votes(&mut self, slot: u64)
        requires
            VoteStateView::votes_wf(old(self)@.votes),
        ensures
            final(self)@ == (VoteStateView {
                votes: spec_pop_expired(old(self)@.votes, slot),
                ..old(self)@
            }),
    {
        loop
            invariant
                VoteStateView::votes_wf(self@.votes),
                spec_pop_expired(self@.votes, slot) == spec_pop_expired(old(self)@.votes, slot),
                self@ == (VoteStateView { votes: self@.votes, ..old(self)@ }),
            ensures
                self@.votes.len() == 0 || !self@.votes.last().spec_is_expired(slot),
                spec_pop_expired(self@.votes, slot) == spec_pop_expired(old(self)@.votes, slot),
                self@ == (VoteStateView { votes: self@.votes, ..old(self)@ }),
            decreases self@.votes.len(),
        {
            let n = self.votes.len();
            if n == 0 {
                break;
            }
            let back = self.votes[n - 1];
            proof {
                lemma_lockout_fits(back);
            }
            if back.is_expired(slot) {
                proof {
                    assert(self@.votes.drop_last() =~= self@.votes.take(n - 1));
                }
                self.votes.pop();
            } else {
                break;
            }
        }
        proof {
            assert(spec_pop_expired(self@.votes, slot) == self@.votes);
            assert(final(self)@ =~= (VoteStateView {
                votes: spec_pop_expired(old(self)@.votes, slot),
                ..old(self)@
            }));
        }
    }

    /// Give each vote one more confirmation wherever the tower has grown
    /// deeper than the confirmations it has seen.
    fn double_lockouts(&mut self)
        requires
            old(self)@.votes.len() <= MAX_LOCKOUT_HISTORY,
        ensures
            final(self)@ == (VoteStateView {
                votes: spec_double_lockouts(old(self)@.votes),
                ..old(self)@
            }),
    {
        let n = self.votes.len();
        let mut k: usize = 0;
        while k < n
            invariant
                n == self.votes.len() == old(self)@.votes.len() <= MAX_LOCKOUT_HISTORY,
                0 <= k <= n,
                forall|i: int|
                    k <= i < n ==> #[trigger] self@.votes[i] == old(self)@.votes[i],
                forall|i: int|
                    0 <= i < k ==> #[trigger] self@.votes[i] == spec_double_lockouts(
                        old(self)@.votes,
                    )[i],
                self@ == (VoteStateView { votes: self@.votes, ..old(self)@ }),
            decreases n - k,
        {
            let c = self.votes[k].confirmation_count;
            if n - k > c as usize {
                let slot = self.votes[k].slot;
                self.votes.set(k, Lockout { slot, confirmation_count: c + 1 });
            }
            k = k + 1;
        }
        proof {
            assert(self@.votes =~= spec_double_lockouts(old(self)@.votes));
            assert(final(self)@ =~= (VoteStateView {
                votes: spec_double_lockouts(old(self)@.votes),
                ..old(self)@
            }));
        }
    }

    /// Process one vote against the tower: ignore regressions and votes that
    /// no `(slot, hash)` witness confirms; otherwise sweep expired votes,
    /// promote the oldest vote to the root if the tower is full (earning a
    /// credit), push the vote, and double lockouts.
    pub fn process_vote(&mut self, vote: &Vote, slot_hashes: &[(u64, StateHash)], epoch: u64)
        requires
            old(self)@.wf(),
            vote.slot <= MAX_VOTE_SLOT,
            epoch >= old(self)@.epoch,
            old(self)@.credits < u64::MAX,
        ensures
            final(self)@ == spec_process_vote(old(self)@, *vote, slot_hashes@, epoch),
            final(self)@.wf(),
            old(self)@.credits <= final(self)@.credits <= old(self)@.credits + 1,
            old(self)@.epoch <= final(self)@.epoch <= epoch,
    {
        proof {
            lemma_process_vote_wf(old(self)@, *vote, slot_hashes@, epoch);
        }
        // ignore votes for slots at or below the newest vote in the tower
        let n = self.votes.len();
        if n > 0 && self.votes[n - 1].slot >= vote.slot {
            return ;
        }
        // drop votes that no (slot, hash) witness confirms
        let mut witnessed = false;
        let mut i: usize = 0;
        while i < slot_hashes.len()
            invariant
                0 <= i <= slot_hashes@.len(),
                witnessed ==> spec_witnessed(slot_hashes@, vote.slot, vote.hash),
                !witnessed ==> forall|j: int|
                    0 <= j < i ==> !((#[trigger] slot_hashes@[j]).0 == vote.slot
                        && slot_hashes@[j].1 == vote.hash),
            decreases slot_hashes@.len() - i,
        {
            if slot_hashes[i].0 == vote.slot && slot_hashes[i].1 == vote.hash {
                witnessed = true;
            }
            i = i + 1;
        }
        if !witnessed {
            return ;
        }
        self.pop_expired_votes(vote.slot);
        proof {
            lemma_pop_expired_is_prefix(old(self)@.votes, vote.slot);
        }
        // once the tower is full, promote the oldest vote to the root
        if self.votes.len() == MAX_LOCKOUT_HISTORY {
            let popped = self.votes.remove(0);
            self.root_slot = Some(popped.slot);
            self.increment_credits(epoch);
        }
        self.votes.push(Lockout::new(vote));
        self.double_lockouts();
        proof {
            assert(final(self)@ =~= spec_process_vote(old(self)@, *vote, slot_hashes@, epoch));
        }
    }

    /// Process several votes in order.
    pub fn process_votes(&mut self, votes: &[Vote], slot_hashes: &[(u64, StateHash)], epoch: u64)
        requires
            old(self)@.wf(),
            forall|i: int| 0 <= i < votes@.len() ==> (#[trigger] votes@[i]).slot <= MAX_VOTE_SLOT,
            epoch >= old(self)@.epoch,
            old(self)@.credits + votes@.len() <= u64::MAX,
        ensures
            final(self)@ == spec_process_votes(old(self)@, votes@, slot_hashes@, epoch),
            final(self)@.wf(),
            old(self)@.credits <= final(self)@.credits <= old(self)@.credits + votes@.len(),
    {
        proof {
            lemma_process_votes_wf(old(self)@, votes@, slot_hashes@, epoch);
        }
        let mut i: usize = 0;
        while i < votes.len()
            invariant
                0 <= i <= votes@.len(),
                forall|k: int| 0 <= k < votes@.len() ==> (#[trigger] votes@[k]).slot
                    <= MAX_VOTE_SLOT,
                epoch >= self@.epoch,
                self@.wf(),
                old(self)@.credits <= self@.credits,
                self@.credits + (votes@.len() - i) <= u64::MAX,
                self@ == spec_process_votes(old(self)@, votes@.take(i as int), slot_hashes@, epoch),
            decreases votes@.len() - i,
        {
            let ghost pre = self@;
            let v = votes[i];
            self.process_vote(&v, slot_hashes, epoch);
            proof {
                lemma_process_votes_snoc(
                    old(self)@,
                    votes@.take(i as int),
                    votes@[i as int],
                    slot_hashes@,
                    epoch,
                );
                assert(votes@.take(i + 1) =~= votes@.take(i as int).push(votes@[i as int]));
            }
            i = i + 1;
        }
        proof {
            assert(votes@.take(votes@.len() as int) =~= votes@);
        }
    }

    /// Process a vote witnessed by itself: used by tests and the tower.
    pub fn process_vote_unchecked(&mut self, vote: &Vote)
        requires
            old(self)@.wf(),
            vote.slot <= MAX_VOTE_SLOT,
            old(self)@.credits < u64::MAX,
        ensures
            final(self)@ == spec_process_vote(
                old(self)@,
                *vote,
                seq![(vote.slot, vote.hash)],
                old(self)@.epoch,
            ),
            final(self)@.wf(),
    {
        let witness: Vec<(u64, StateHash)> = vec![(vote.slot, vote.hash)];
        let epoch = self.epoch;
        proof {
            assert(witness@ =~= seq![(vote.slot, vote.hash)]);
        }
        self.process_vote(vote, witness.as_slice(), epoch);
    }

    /// Process a bare slot vote with the default digest: used by tests and
    /// the bootstrap path.
    pub fn process_slot_vote_unchecked(&mut self, slot: u64)
        requires
            old(self)@.wf(),
            slot <= MAX_VOTE_SLOT,
            old(self)@.credits < u64::MAX,
        ensures
            final(self)@ == spec_process_vote(
                old(self)@,
                Vote { slot, hash: StateHash::spec_default() },
                seq![(slot, StateHash::spec_default())],
                old(self)@.epoch,
            ),
            final(self)@.wf(),
    {
        let vote = Vote::new(slot, StateHash::default());
        self.process_vote_unchecked(&vote);
    }
}

/// Folding one more vote into a processed sequence equals processing the
/// extended sequence.
pub proof fn lemma_process_votes_snoc(
    s: VoteStateView,
    votes: Seq<Vote>,
    vote: Vote,
    slot_hashes: Seq<(u64, StateHash)>,
    epoch: u64,
)
    ensures
        spec_process_votes(s, votes.push(vote), slot_hashes, epoch) == spec_process_vote(
            spec_process_votes(s, votes, slot_hashes, epoch),
            vote,
            slot_hashes,
            epoch,
        ),
    decreases votes.len(),
{
    let whole = votes.push(vote);
    if votes.len() == 0 {
        assert(whole.drop_first() =~= Seq::<Vote>::empty());
        assert(whole[0] == vote);
        assert(spec_process_votes(s, whole, slot_hashes, epoch) == spec_process_votes(
            spec_process_vote(s, vote, slot_hashes, epoch),
            whole.drop_first(),
            slot_hashes,
            epoch,
        ));
        assert(spec_process_votes(s, votes, slot_hashes, epoch) == s);
    } else {
        assert(whole.drop_first() =~= votes.drop_first().push(vote));
        assert(whole[0] == votes[0]);
        let s1 = spec_process_vote(s, votes[0], slot_hashes, epoch);
        lemma_process_votes_snoc(s1, votes.drop_first(), vote, slot_hashes, epoch);
        assert(spec_process_votes(s, whole, slot_hashes, epoch) == spec_process_votes(
            s1,
            whole.drop_first(),
            slot_hashes,
            epoch,
        ));
        assert(spec_process_votes(s, votes, slot_hashes, epoch) == spec_process_votes(
            s1,
            votes.drop_first(),
            slot_hashes,
            epoch,
        ));
    }
}

} // verus!

verus! {

impl PartialEq for VoteState {
    /// Structural equality, field by field.
    fn eq(&self, other: &Self) -> (r: bool) {
        if self.votes.len() != other.votes.len() {
            return false;
        }
        let mut i: usize = 0;
        while i < self.votes.len()
            invariant
                0 <= i <= self.votes@.len(),
                self.votes@.len() == other.votes@.len(),
                forall|j: int| 0 <= j < i ==> #[trigger] self.votes@[j] == other.votes@[j],
            decreases self.votes@.len() - i,
        {
            if !(self.votes[i] == other.votes[i]) {
                proof {
                    assert(self@.votes[i as int] != other@.votes[i as int]);
                }
                return false;
            }
            i = i + 1;
        }
        if self.epoch_credits.len() != other.epoch_credits.len() {
            return false;
        }
        let mut k: usize = 0;
        while k < self.epoch_credits.len()
            invariant
                0 <= k <= self.epoch_credits@.len(),
                self.epoch_credits@.len() == other.epoch_credits@.len(),
                forall|j: int|
                    0 <= j < k ==> #[trigger] self.epoch_credits@[j] == other.epoch_credits@[j],
            decreases self.epoch_credits@.len() - k,
        {
            let a = self.epoch_credits[k];
            let b = other.epoch_credits[k];
            if a.0 != b.0 || a.1 != b.1 || a.2 != b.2 {
                proof {
                    assert(self@.epoch_credits[k as int] != other@.epoch_credits[k as int]);
                }
                return false;
            }
            k = k + 1;
        }
        let roots_equal = match (self.root_slot, other.root_slot) {
            (None, None) => true,
            (Some(a), Some(b)) => a == b,
            _ => false,
        };
        let r = roots_equal && self.node_pubkey == other.node_pubkey
            && self.authorized_voter_pubkey == other.authorized_voter_pubkey && self.commission
            == other.commission && self.epoch == other.epoch && self.credits == other.credits
            && self.last_epoch_credits == other.last_epoch_credits;
        proof {
            if r {
                assert(self@.votes =~= other@.votes);
                assert(self@.epoch_credits =~= other@.epoch_credits);
            }
        }
        r
    }
}

impl vstd::std_specs::cmp::PartialEqSpecImpl for VoteState {
    open spec fn obeys_eq_spec() -> bool {
        true
    }

    open spec fn eq_spec(&self, other: &Self) -> bool {
        self@ == other@
    }
}

} // verus!
