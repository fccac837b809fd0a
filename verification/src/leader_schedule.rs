//! The stake-weighted leader schedule: a deterministic permutation of node
//! identities, one per slot of an epoch, drawn by a seeded stream cipher so
//! that every validator computes the same schedule.

use crate::bank::{lookup_stakes, total_stake, Bank};
use crate::keys::Pubkey;
use vstd::prelude::*;

verus! {

#[verifier::external_type_specification]
#[verifier::external_body]
pub struct ExChaCha20Rng(rand_chacha::ChaCha20Rng);

/// What the seeded cipher hands out: the draw below `bound` that follows
/// the draws whose bounds are listed in `prior`, for the stream seeded by
/// `epoch`. The cipher is deterministic, so this is a function of its
/// arguments alone; nothing more is assumed of its distribution.
pub uninterp spec fn chacha_draw(epoch: u64, prior: Seq<u64>, bound: u64) -> u64;

/// A stream of weighted-sampling draws for one epoch's schedule; it logs
/// the bound of every draw taken, which pins each draw as a function of the
/// seed and the log.
pub struct StakeRng {
    inner: rand_chacha::ChaCha20Rng,
    epoch: u64,
    drawn: Vec<u64>,
}

impl StakeRng {
    /// The epoch whose seed this stream was started from.
    pub closed spec fn spec_epoch(self) -> u64 {
        self.epoch
    }

    /// The bounds of the draws taken so far.
    pub closed spec fn spec_drawn(self) -> Seq<u64> {
        self.drawn@
    }

    /// The logged bounds, for callers outside this module.
    pub fn drawn(&self) -> (r: &Vec<u64>)
        ensures
            r@ == self.spec_drawn(),
    {
        &self.drawn
    }
}

/// Relies on rand_chacha's `ChaCha20Rng::from_seed`: seeding is a pure
/// function of the seed bytes, here the epoch in little-endian followed by
/// zero padding.
#[verifier::external_body]
fn rng_for_epoch(epoch: u64) -> (r: StakeRng)
    ensures
        r.spec_epoch() == epoch,
        r.spec_drawn() == Seq::<u64>::empty(),
{
    let mut seed = [0u8; 32];
    seed[..8].copy_from_slice(&epoch.to_le_bytes());
    StakeRng {
        inner: <rand_chacha::ChaCha20Rng as rand::SeedableRng>::from_seed(seed),
        epoch,
        drawn: Vec::new(),
    }
}

/// Relies on `rand::Rng::gen_range` over a `ChaCha20Rng`: the result lies
/// below `bound`, and is a pure function of the seed and the bounds of the
/// draws taken before, which `chacha_draw` names.
#[verifier::external_body]
fn draw(r: &mut StakeRng, bound: u64) -> (out: u64)
    requires
        0 < bound,
    ensures
        out == chacha_draw(old(r).spec_epoch(), old(r).spec_drawn(), bound),
        out < bound,
        final(r).spec_epoch() == old(r).spec_epoch(),
        final(r).spec_drawn() == old(r).spec_drawn().push(bound),
{
    r.drawn.push(bound);
    rand::Rng::gen_range(&mut r.inner, 0..bound)
}

/// The total weight seen from the front: peeling the first entry off.
pub proof fn lemma_total_stake_cons(s: Seq<(Pubkey, u64)>)
    requires
        s.len() > 0,
    ensures
        total_stake(s) == s[0].1 + total_stake(s.drop_first()),
    decreases s.len(),
{
    if s.len() == 1 {
        assert(s.drop_last() =~= Seq::<(Pubkey, u64)>::empty());
        assert(s.drop_first() =~= Seq::<(Pubkey, u64)>::empty());
    } else {
        lemma_total_stake_cons(s.drop_last());
        assert(s.drop_last().drop_first() =~= s.drop_first().drop_last());
        assert(s.drop_first().last() == s.last());
    }
}

/// Prefix sums never exceed the total.
pub proof fn lemma_total_stake_prefix(s: Seq<(Pubkey, u64)>, i: int)
    requires
        0 <= i <= s.len(),
    ensures
        0 <= total_stake(s.take(i)) <= total_stake(s),
    decreases s.len() - i,
{
    if i == s.len() {
        assert(s.take(i) =~= s);
        lemma_total_stake_nonneg(s);
    } else {
        lemma_total_stake_prefix(s, i + 1);
        lemma_total_stake_nonneg(s.take(i));
        assert(s.take(i + 1).drop_last() =~= s.take(i));
        assert(s.take(i + 1).last() == s[i]);
    }
}

/// A total weight is never negative.
pub proof fn lemma_total_stake_nonneg(s: Seq<(Pubkey, u64)>)
    ensures
        total_stake(s) >= 0,
    decreases s.len(),
{
    if s.len() > 0 {
        lemma_total_stake_nonneg(s.drop_last());
    }
}

/// Who owns the `r`-th unit of stake: the first entry whose cumulative
/// weight passes `r`.
pub open spec fn pick_index(stakes: Seq<(Pubkey, u64)>, r: int) -> int
    decreases stakes.len(),
{
    if stakes.len() == 0 {
        0
    } else if r < stakes[0].1 {
        0
    } else {
        1 + pick_index(stakes.drop_first(), r - stakes[0].1)
    }
}

/// A draw below the total weight always lands on a real entry.
pub proof fn lemma_pick_index_in_range(stakes: Seq<(Pubkey, u64)>, r: int)
    requires
        0 <= r < total_stake(stakes),
    ensures
        0 <= pick_index(stakes, r) < stakes.len(),
    decreases stakes.len(),
{
    lemma_total_stake_cons(stakes);
    if r >= stakes[0].1 {
        lemma_pick_index_in_range(stakes.drop_first(), r - stakes[0].1);
    }
}

/// The `i`-th draw of an epoch's schedule: every draw in a schedule is
/// bounded by the same total weight, and the reduction modulo that weight
/// keeps the bound at the spec level. At run time the reduction changes
/// nothing: the drawn value already lies below the bound.
pub open spec fn nth_draw(epoch: u64, total: u64, i: int) -> u64
    recommends
        total > 0,
{
    (chacha_draw(epoch, Seq::new(i as nat, |_j: int| total), total) as int % (total as int)) as u64
}

/// Every draw of a schedule lies below the total weight.
pub proof fn lemma_nth_draw_in_range(epoch: u64, total: u64, i: int)
    requires
        total > 0,
    ensures
        0 <= nth_draw(epoch, total, i) < total,
{
    let raw = chacha_draw(epoch, Seq::new(i as nat, |_j: int| total), total) as int;
    assert(0 <= raw % (total as int) < total) by (nonlinear_arith)
        requires
            raw >= 0,
            total > 0,
    ;
}

/// The schedule for `len` slots over a canonical snapshot: each slot's
/// leader is the owner of the unit of stake that the slot's draw picks.
pub open spec fn spec_leader_schedule(stakes: Seq<(Pubkey, u64)>, epoch: u64, len: int) -> Seq<
    Pubkey,
> {
    Seq::new(
        len as nat,
        |i: int|
            stakes[pick_index(
                stakes,
                nth_draw(epoch, total_stake(stakes) as u64, i) as int,
            )].0,
    )
}

/// A sole staker with positive weight leads every slot of its schedule:
/// each draw lands inside its weight, so the prefix-sum walk picks it.
pub proof fn lemma_single_staker_leads_everywhere(stakes: Seq<(Pubkey, u64)>, epoch: u64, len: int)
    requires
        stakes.len() == 1,
        0 < stakes[0].1,
        0 <= len,
    ensures
        forall|i: int|
            0 <= i < len ==> #[trigger] spec_leader_schedule(stakes, epoch, len)[i]
                == stakes[0].0,
{
    assert(stakes.drop_last() =~= Seq::<(Pubkey, u64)>::empty());
    assert(total_stake(Seq::<(Pubkey, u64)>::empty()) == 0);
    assert(stakes.last() == stakes[0]);
    assert(total_stake(stakes) == stakes[0].1);
    assert forall|i: int|
        0 <= i < len implies #[trigger] spec_leader_schedule(stakes, epoch, len)[i]
            == stakes[0].0 by {
        lemma_nth_draw_in_range(epoch, total_stake(stakes) as u64, i);
    }
}

/// `a` comes strictly before `b` in a canonical snapshot: more stake first,
/// ties broken by descending key order.
pub open spec fn pair_before(a: (Pubkey, u64), b: (Pubkey, u64)) -> bool {
    ||| a.1 > b.1
    ||| (a.1 == b.1 && b.0.spec_lt(a.0))
}

/// Distinct entries are always ordered one way or the other.
pub proof fn lemma_pair_before_total(a: (Pubkey, u64), b: (Pubkey, u64))
    requires
        a != b,
    ensures
        pair_before(a, b) || pair_before(b, a),
        !(pair_before(a, b) && pair_before(b, a)),
{
    if a.1 == b.1 {
        assert(a.0 != b.0);
    }
}

/// The canonical form of a snapshot: strictly ordered, holding exactly the
/// entries of the input (equal duplicate entries collapse into one).
pub open spec fn is_canon(input: Seq<(Pubkey, u64)>, out: Seq<(Pubkey, u64)>) -> bool {
    &&& forall|i: int, j: int| 0 <= i < j < out.len() ==> pair_before(#[trigger] out[i], #[trigger] out[j])
    &&& forall|x: (Pubkey, u64)| out.contains(x) <==> input.contains(x)
}

/// The canonical form, as a function; well defined by `lemma_canon_unique`.
pub open spec fn canon_of(input: Seq<(Pubkey, u64)>) -> Seq<(Pubkey, u64)> {
    choose|t: Seq<(Pubkey, u64)>| is_canon(input, t)
}

/// Two strictly ordered sequences holding the same entries are equal.
pub proof fn lemma_sorted_same_set_equal(a: Seq<(Pubkey, u64)>, b: Seq<(Pubkey, u64)>)
    requires
        forall|i: int, j: int| 0 <= i < j < a.len() ==> pair_before(#[trigger] a[i], #[trigger] a[j]),
        forall|i: int, j: int| 0 <= i < j < b.len() ==> pair_before(#[trigger] b[i], #[trigger] b[j]),
        forall|x: (Pubkey, u64)| a.contains(x) <==> b.contains(x),
    ensures
        a == b,
    decreases a.len(),
{
    if a.len() == 0 {
        if b.len() > 0 {
            assert(b.contains(b[0]));
        }
        assert(a =~= b);
    } else {
        assert(a.contains(a[0]));
        let k = choose|k: int| 0 <= k < b.len() && b[k] == a[0];
        assert(b.contains(b[0]));
        let m = choose|m: int| 0 <= m < a.len() && a[m] == b[0];
        // heads are equal: each head is the least element of the shared set
        if a[0] != b[0] {
            lemma_pair_before_total(a[0], b[0]);
            assert(k > 0);
            assert(m > 0);
            assert(pair_before(b[0], b[k]));
            assert(pair_before(a[0], a[m]));
            assert(false);
        }
        // the tails hold the same entries
        assert forall|x: (Pubkey, u64)|
            a.drop_first().contains(x) implies b.drop_first().contains(x) by {
            let i = choose|i: int| 0 <= i < a.drop_first().len() && a.drop_first()[i] == x;
            assert(a[i + 1] == x);
            assert(pair_before(a[0], x));
            assert(!pair_before(a[0], a[0]));
            assert(x != a[0]);
            assert(a.contains(x));
            let j = choose|j: int| 0 <= j < b.len() && b[j] == x;
            assert(j > 0);
            assert(b.drop_first()[j - 1] == x);
        }
        assert forall|x: (Pubkey, u64)|
            b.drop_first().contains(x) implies a.drop_first().contains(x) by {
            let i = choose|i: int| 0 <= i < b.drop_first().len() && b.drop_first()[i] == x;
            assert(b[i + 1] == x);
            assert(pair_before(b[0], x));
            assert(x != b[0]);
            assert(b.contains(x));
            let j = choose|j: int| 0 <= j < a.len() && a[j] == x;
            assert(j > 0);
            assert(a.drop_first()[j - 1] == x);
        }
        assert(forall|i: int, j: int|
            0 <= i < j < a.drop_first().len() ==> pair_before(
                #[trigger] a.drop_first()[i],
                #[trigger] a.drop_first()[j],
            ));
        assert(forall|i: int, j: int|
            0 <= i < j < b.drop_first().len() ==> pair_before(
                #[trigger] b.drop_first()[i],
                #[trigger] b.drop_first()[j],
            ));
        lemma_sorted_same_set_equal(a.drop_first(), b.drop_first());
        assert(b.len() == a.len());
        assert forall|i: int| 0 <= i < a.len() implies a[i] == b[i] by {
            if i > 0 {
                assert(a.drop_first()[i - 1] == b.drop_first()[i - 1]);
            }
        }
        assert(a =~= b);
    }
}

/// A snapshot has at most one canonical form.
pub proof fn lemma_canon_unique(input: Seq<(Pubkey, u64)>, a: Seq<(Pubkey, u64)>, b: Seq<
    (Pubkey, u64),
>)
    requires
        is_canon(input, a),
        is_canon(input, b),
    ensures
        a == b,
{
    lemma_sorted_same_set_equal(a, b);
}

/// Inserting into a sequence adds exactly that entry to its contents.
proof fn lemma_insert_contains(s: Seq<(Pubkey, u64)>, at: int, v: (Pubkey, u64), x: (
    Pubkey,
    u64,
))
    requires
        0 <= at <= s.len(),
    ensures
        s.insert(at, v).contains(x) <==> (s.contains(x) || x == v),
{
    let t = s.insert(at, v);
    if s.contains(x) {
        let i = choose|i: int| 0 <= i < s.len() && s[i] == x;
        if i < at {
            assert(t[i] == x);
        } else {
            assert(t[i + 1] == x);
        }
        assert(t.contains(x));
    }
    assert(t[at] == v);
    assert(t.contains(v));
    if t.contains(x) {
        let i = choose|i: int| 0 <= i < t.len() && t[i] == x;
        if i < at {
            assert(s[i] == x);
            assert(s.contains(x));
        } else if i == at {
        } else {
            assert(s[i - 1] == x);
            assert(s.contains(x));
        }
    }
}

/// Decides `pair_before`.
fn pair_before_exec(a: &(Pubkey, u64), b: &(Pubkey, u64)) -> (r: bool)
    ensures
        r == pair_before(*a, *b),
{
    a.1 > b.1 || (a.1 == b.1 && b.0.lt(&a.0))
}

/// Put a snapshot into canonical form: strictly descending by stake, ties
/// broken by descending key, equal duplicate entries collapsed.
pub fn sort_stakes(stakes: &mut Vec<(Pubkey, u64)>)
    ensures
        is_canon(old(stakes)@, final(stakes)@),
        final(stakes)@ == canon_of(old(stakes)@),
{
    let ghost input = stakes@;
    let mut out: Vec<(Pubkey, u64)> = Vec::new();
    let mut i: usize = 0;
    while i < stakes.len()
        invariant
            0 <= i <= stakes@.len(),
            stakes@ == input,
            forall|p: int, q: int|
                0 <= p < q < out@.len() ==> pair_before(#[trigger] out@[p], #[trigger] out@[q]),
            forall|x: (Pubkey, u64)| out@.contains(x) <==> input.take(i as int).contains(x),
        decreases stakes@.len() - i,
    {
        let item = stakes[i];
        let mut j: usize = 0;
        while j < out.len() && pair_before_exec(&out[j], &item)
            invariant
                0 <= j <= out@.len(),
                forall|p: int| 0 <= p < j ==> pair_before(#[trigger] out@[p], item),
            decreases out@.len() - j,
        {
            j = j + 1;
        }
        let duplicate = j < out.len() && out[j].0 == item.0 && out[j].1 == item.1;
        proof {
            assert(input.take(i + 1).drop_last() =~= input.take(i as int));
            assert(input.take(i + 1).last() == item);
            assert forall|x: (Pubkey, u64)|
                input.take(i + 1).contains(x) <==> (input.take(i as int).contains(x) || x
                    == item) by {
                if input.take(i + 1).contains(x) {
                    let p = choose|p: int| 0 <= p < i + 1 && #[trigger] input.take(i + 1)[p] == x;
                    if p < i {
                        assert(input.take(i as int)[p] == x);
                    }
                }
                if input.take(i as int).contains(x) {
                    let p = choose|p: int| 0 <= p < i && #[trigger] input.take(i as int)[p] == x;
                    assert(input.take(i + 1)[p] == x);
                }
                if x == item {
                    assert(input.take(i + 1)[i as int] == x);
                }
            }
        }
        if duplicate {
            proof {
                assert(out@[j as int] == item);
                assert(out@.contains(out@[j as int]));
                assert forall|x: (Pubkey, u64)|
                    out@.contains(x) <==> input.take(i + 1).contains(x) by {
                    assert(input.take(i + 1).contains(x) <==> (input.take(i as int).contains(x)
                        || x == item));
                }
            }
        } else {
            proof {
                if j < out@.len() {
                    lemma_pair_before_total(item, out@[j as int]);
                }
                // `item` is not yet present: it cannot sit before `j` (those
                // entries come strictly before it) nor at or after `j`
                assert(!out@.contains(item)) by {
                    if out@.contains(item) {
                        let p = choose|p: int| 0 <= p < out@.len() && out@[p] == item;
                        assert(!pair_before(item, item));
                        if p < j {
                            assert(pair_before(out@[p], item));
                            assert(false);
                        } else if p == j {
                            assert(false);
                        } else {
                            assert(pair_before(out@[j as int], out@[p]));
                            assert(pair_before(item, out@[j as int]));
                            assert(false);
                        }
                    }
                }
            }
            let ghost pre = out@;
            out.insert(j, item);
            proof {
                assert forall|x: (Pubkey, u64)|
                    out@.contains(x) <==> (pre.contains(x) || x == item) by {
                    lemma_insert_contains(pre, j as int, item, x);
                }
                assert forall|p: int, q: int|
                    0 <= p < q < out@.len() implies pair_before(out@[p], out@[q]) by {
                    if q < j {
                    } else if p < j && q == j {
                    } else if p < j && q > j {
                    } else if p == j {
                        assert(out@[q] == pre[q - 1]);
                        if q - 1 > j {
                            assert(pair_before(pre[j as int], pre[q - 1]));
                        }
                    } else {
                    }
                }
                assert forall|x: (Pubkey, u64)|
                    out@.contains(x) <==> input.take(i + 1).contains(x) by {
                    assert(out@.contains(x) <==> (pre.contains(x) || x == item));
                    assert(input.take(i + 1).contains(x) <==> (input.take(i as int).contains(x)
                        || x == item));
                }
            }
        }
        i = i + 1;
    }
    proof {
        assert(input.take(input.len() as int) =~= input);
    }
    *stakes = out;
    proof {
        assert(is_canon(input, stakes@));
        let c = canon_of(input);
        lemma_canon_unique(input, stakes@, c);
    }
}

} // verus!

verus! {

/// A built schedule: the leader of each slot index of one epoch.
#[derive(Debug)]
pub struct LeaderSchedule {
    pub slot_leaders: Vec<Pubkey>,
}

impl View for LeaderSchedule {
    type V = Seq<Pubkey>;

    open spec fn view(&self) -> Seq<Pubkey> {
        self.slot_leaders@
    }
}

impl Clone for LeaderSchedule {
    fn clone(&self) -> (r: Self)
        ensures
            r@ == self@,
    {
        let mut slot_leaders: Vec<Pubkey> = Vec::new();
        let mut i: usize = 0;
        while i < self.slot_leaders.len()
            invariant
                0 <= i <= self.slot_leaders@.len(),
                slot_leaders@ == self.slot_leaders@.take(i as int),
            decreases self.slot_leaders@.len() - i,
        {
            slot_leaders.push(self.slot_leaders[i]);
            proof {
                assert(slot_leaders@ =~= self.slot_leaders@.take(i + 1));
            }
            i = i + 1;
        }
        proof {
            assert(self.slot_leaders@.take(self.slot_leaders@.len() as int)
                =~= self.slot_leaders@);
        }
        LeaderSchedule { slot_leaders }
    }
}

impl LeaderSchedule {
    /// An empty schedule.
    pub fn default() -> (r: Self)
        ensures
            r@ == Seq::<Pubkey>::empty(),
    {
        LeaderSchedule { slot_leaders: Vec::new() }
    }

    /// Builds the schedule for `len` slots from a canonical snapshot, using
    /// the draw stream seeded by `epoch`: each slot's draw falls on a unit
    /// of stake, and that unit's owner leads the slot.
    pub fn new(ids_and_stakes: &Vec<(Pubkey, u64)>, epoch: u64, len: u64) -> (r: Self)
        requires
            0 < total_stake(ids_and_stakes@) <= u64::MAX,
            len <= usize::MAX,
        ensures
            r@ == spec_leader_schedule(ids_and_stakes@, epoch, len as int),
            r@.len() == len,
    {
        let ghost stakes = ids_and_stakes@;
        // the total weight, against which every draw is taken
        let mut total: u64 = 0;
        let mut t: usize = 0;
        proof {
            assert(stakes.take(0int) =~= Seq::<(Pubkey, u64)>::empty());
        }
        while t < ids_and_stakes.len()
            invariant
                0 <= t <= stakes.len(),
                ids_and_stakes@ == stakes,
                total_stake(stakes) <= u64::MAX,
                total == total_stake(stakes.take(t as int)),
            decreases stakes.len() - t,
        {
            proof {
                lemma_total_stake_prefix(stakes, t + 1);
                assert(stakes.take(t + 1).drop_last() =~= stakes.take(t as int));
                assert(stakes.take(t + 1).last() == stakes[t as int]);
            }
            total = total + ids_and_stakes[t].1;
            t = t + 1;
        }
        proof {
            assert(stakes.take(stakes.len() as int) =~= stakes);
        }
        let mut rng = rng_for_epoch(epoch);
        let mut slot_leaders: Vec<Pubkey> = Vec::new();
        let mut i: u64 = 0;
        while i < len
            invariant
                0 <= i <= len,
                len <= usize::MAX,
                ids_and_stakes@ == stakes,
                0 < total_stake(stakes) <= u64::MAX,
                total == total_stake(stakes),
                rng.spec_epoch() == epoch,
                rng.spec_drawn() =~= Seq::new(i as nat, |_j: int| total),
                slot_leaders@.len() == i,
                slot_leaders@ =~= spec_leader_schedule(stakes, epoch, i as int),
            decreases len - i,
        {
            let d = draw(&mut rng, total);
            proof {
                lemma_pick_index_in_range(stakes, d as int);
                assert(d as int % (total as int) == d) by (nonlinear_arith)
                    requires
                        0 <= d < total,
                ;
                assert(d == nth_draw(epoch, total, i as int));
            }
            // locate the owner of the drawn unit of stake by prefix sums
            let mut acc: u64 = d;
            let mut idx: usize = 0;
            proof {
                assert(stakes.skip(0) =~= stakes);
            }
            while idx < ids_and_stakes.len() && acc >= ids_and_stakes[idx].1
                invariant
                    ids_and_stakes@ == stakes,
                    0 <= idx <= stakes.len(),
                    0 <= acc < total_stake(stakes.skip(idx as int)),
                    pick_index(stakes, d as int) == idx + pick_index(
                        stakes.skip(idx as int),
                        acc as int,
                    ),
                decreases stakes.len() - idx,
            {
                proof {
                    lemma_total_stake_cons(stakes.skip(idx as int));
                    assert(stakes.skip(idx as int).drop_first() =~= stakes.skip(idx + 1));
                    assert(stakes.skip(idx as int)[0] == stakes[idx as int]);
                }
                acc = acc - ids_and_stakes[idx].1;
                idx = idx + 1;
            }
            proof {
                if idx == stakes.len() {
                    assert(total_stake(stakes.skip(idx as int)) == 0) by {
                        assert(stakes.skip(stakes.len() as int).len() == 0);
                    }
                    assert(false);
                }
                assert(stakes.skip(idx as int)[0] == stakes[idx as int]);
                assert(pick_index(stakes.skip(idx as int), acc as int) == 0);
            }
            slot_leaders.push(ids_and_stakes[idx].0);
            proof {
                assert(rng.spec_drawn() =~= Seq::new((i + 1) as nat, |_j: int| total));
                assert(slot_leaders@ =~= spec_leader_schedule(stakes, epoch, i as int + 1));
            }
            i = i + 1;
        }
        LeaderSchedule { slot_leaders }
    }

    /// The leader at a slot index; indexing wraps around the schedule
    /// length.
    pub fn leader_at(&self, index: u64) -> (r: Pubkey)
        requires
            self@.len() > 0,
        ensures
            r == self@[index as int % self@.len() as int],
    {
        let n = self.slot_leaders.len();
        let i = (index % (n as u64)) as usize;
        self.slot_leaders[i]
    }
}

/// What the schedule for `epoch` must be, given a bank: the canonical form
/// of that epoch's snapshot, drawn over the epoch's slot count; nothing, if
/// the bank has no snapshot for the epoch.
pub open spec fn spec_epoch_leaders(bank: Bank, epoch: u64) -> Option<Seq<Pubkey>> {
    match lookup_stakes(bank.epoch_stakes@, epoch) {
        None => None,
        Some(stakes) => Some(
            spec_leader_schedule(
                canon_of(stakes),
                epoch,
                bank.epoch_schedule.spec_slots_in_epoch(epoch as int),
            ),
        ),
    }
}

/// The canonical form keeps the total weight within the original bound and
/// keeps it positive.
pub proof fn lemma_canon_total(input: Seq<(Pubkey, u64)>, out: Seq<(Pubkey, u64)>)
    requires
        is_canon(input, out),
        0 < total_stake(input) <= u64::MAX,
    ensures
        0 < total_stake(out),
        total_stake(out) <= total_stake(input),
    decreases out.len(),
{
    lemma_canon_total_helper(input, out);
}

/// A strictly ordered selection of a sequence's entries weighs no more than
/// the sequence, and weighs something as soon as the sequence does.
proof fn lemma_canon_total_helper(input: Seq<(Pubkey, u64)>, out: Seq<(Pubkey, u64)>)
    requires
        is_canon(input, out),
        0 < total_stake(input) <= u64::MAX,
    ensures
        0 < total_stake(out),
        total_stake(out) <= total_stake(input),
{
    lemma_subset_total(out, input);
    lemma_positive_total_has_entry(input);
    let w = choose|i: int| 0 <= i < input.len() && #[trigger] input[i].1 > 0;
    assert(input.contains(input[w]));
    assert(out.contains(input[w]));
    let k = choose|k: int| 0 <= k < out.len() && out[k] == input[w];
    lemma_entry_bounds_total(out, k);
}

/// A sequence with positive total weight has an entry with positive weight.
proof fn lemma_positive_total_has_entry(s: Seq<(Pubkey, u64)>)
    requires
        total_stake(s) > 0,
    ensures
        exists|i: int| 0 <= i < s.len() && #[trigger] s[i].1 > 0,
    decreases s.len(),
{
    if s.last().1 > 0 {
        assert(s[s.len() - 1].1 > 0);
    } else {
        lemma_positive_total_has_entry(s.drop_last());
        let i = choose|i: int| 0 <= i < s.drop_last().len() && #[trigger] s.drop_last()[i].1 > 0;
        assert(s[i].1 > 0);
    }
}

/// Each entry's weight is at most the total.
proof fn lemma_entry_bounds_total(s: Seq<(Pubkey, u64)>, i: int)
    requires
        0 <= i < s.len(),
    ensures
        s[i].1 <= total_stake(s),
        total_stake(s) >= 0,
    decreases s.len(),
{
    lemma_total_stake_nonneg(s.drop_last());
    if i == s.len() - 1 {
    } else {
        lemma_entry_bounds_total(s.drop_last(), i);
        assert(s.drop_last()[i] == s[i]);
    }
}

/// A sequence of distinct entries drawn from another weighs no more than
/// its source.
proof fn lemma_subset_total(out: Seq<(Pubkey, u64)>, input: Seq<(Pubkey, u64)>)
    requires
        forall|i: int, j: int|
            0 <= i < j < out.len() ==> pair_before(#[trigger] out[i], #[trigger] out[j]),
        forall|x: (Pubkey, u64)| out.contains(x) ==> input.contains(x),
    ensures
        total_stake(out) <= total_stake(input),
    decreases out.len(),
{
    if out.len() == 0 {
        lemma_total_stake_nonneg(input);
    } else {
        let x = out.last();
        assert(out.contains(x));
        let w = choose|w: int| 0 <= w < input.len() && input[w] == x;
        let rest = input.remove(w);
        assert forall|y: (Pubkey, u64)| out.drop_last().contains(y) implies rest.contains(
            y,
        ) by {
            let i = choose|i: int| 0 <= i < out.drop_last().len() && out.drop_last()[i] == y;
            assert(out[i] == y);
            assert(!pair_before(y, y));
            assert(pair_before(out[i], out.last()));
            assert(y != x);
            assert(input.contains(y));
            let v = choose|v: int| 0 <= v < input.len() && input[v] == y;
            if v < w {
                assert(rest[v] == y);
            } else {
                assert(v != w);
                assert(rest[v - 1] == y);
            }
            assert(rest.contains(y));
        }
        assert(forall|i: int, j: int|
            0 <= i < j < out.drop_last().len() ==> pair_before(
                #[trigger] out.drop_last()[i],
                #[trigger] out.drop_last()[j],
            ));
        lemma_subset_total(out.drop_last(), rest);
        lemma_remove_total(input, w);
    }
}

/// Removing an entry subtracts exactly its weight.
proof fn lemma_remove_total(s: Seq<(Pubkey, u64)>, i: int)
    requires
        0 <= i < s.len(),
    ensures
        total_stake(s.remove(i)) == total_stake(s) - s[i].1,
    decreases s.len(),
{
    if i == s.len() - 1 {
        assert(s.remove(i) =~= s.drop_last());
    } else {
        lemma_remove_total(s.drop_last(), i);
        assert(s.remove(i).drop_last() =~= s.drop_last().remove(i));
        assert(s.remove(i).last() == s.last());
        assert(s.drop_last()[i] == s[i]);
    }
}

/// Builds the schedule for `epoch` from the bank's snapshot: the canonical
/// snapshot drawn over the epoch's slot count, or nothing when the bank has
/// no snapshot for that epoch.
pub fn leader_schedule(epoch: u64, bank: &Bank) -> (r: Option<LeaderSchedule>)
    requires
        bank.wf(),
    ensures
        (r is Some) <==> (spec_epoch_leaders(*bank, epoch) is Some),
        r matches Some(ls) ==> Some(ls@) == spec_epoch_leaders(*bank, epoch),
{
    let stakes_ref = match bank.epoch_stakes(epoch) {
        Some(s) => s,
        None => {
            return None;
        },
    };
    let ghost raw = stakes_ref@;
    proof {
        let idx = choose|i: int|
            0 <= i < bank.epoch_stakes@.len() && (#[trigger] bank.epoch_stakes@[i]).epoch
                == epoch;
        lemma_lookup_is_entry(bank.epoch_stakes@, epoch);
    }
    let mut stakes = clone_stakes(stakes_ref);
    sort_stakes(&mut stakes);
    proof {
        lemma_canon_total(raw, stakes@);
    }
    let len = bank.get_slots_in_epoch(epoch);
    proof {
        bank.epoch_schedule.lemma_slots_in_epoch_le(epoch as int);
    }
    Some(LeaderSchedule::new(&stakes, epoch, len))
}

/// A stored snapshot's weight obeys the bank invariant.
proof fn lemma_lookup_is_entry(entries: Seq<crate::bank::EpochStakes>, epoch: u64)
    requires
        lookup_stakes(entries, epoch) is Some,
        forall|i: int|
            0 <= i < entries.len() ==> 0 < total_stake((#[trigger] entries[i]).stakes@)
                <= u64::MAX,
    ensures
        0 < total_stake(lookup_stakes(entries, epoch).unwrap()) <= u64::MAX,
    decreases entries.len(),
{
    if entries.len() > 0 {
        if entries[0].epoch == epoch {
            assert(entries.contains(entries[0]));
        } else {
            assert(forall|i: int|
                0 <= i < entries.drop_first().len() ==> #[trigger] entries.drop_first()[i]
                    == entries[i + 1]);
            lemma_lookup_is_entry(entries.drop_first(), epoch);
        }
    }
}

/// A fresh copy of a snapshot.
fn clone_stakes(stakes: &Vec<(Pubkey, u64)>) -> (r: Vec<(Pubkey, u64)>)
    ensures
        r@ == stakes@,
{
    let mut out: Vec<(Pubkey, u64)> = Vec::new();
    let mut i: usize = 0;
    while i < stakes.len()
        invariant
            0 <= i <= stakes@.len(),
            out@ == stakes@.take(i as int),
        decreases stakes@.len() - i,
    {
        out.push(stakes[i]);
        proof {
            assert(out@ =~= stakes@.take(i + 1));
        }
        i = i + 1;
    }
    proof {
        assert(stakes@.take(stakes@.len() as int) =~= stakes@);
    }
    out
}

} // verus!
