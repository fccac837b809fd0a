//! The account-state byte format: a deterministic, size-bounded encoding of
//! `VoteState`, with a verified round trip between the encoder and the
//! parser. Every integer is little-endian (a key as its four words in key
//! order); a sequence carries a 64-bit count; an optional value carries a
//! one-byte tag. A parse reads a prefix and ignores trailing bytes, so a
//! state can live in a fixed-size account buffer.

use crate::account::{Account, InstructionError, KeyedAccount};
use crate::keys::Pubkey;
use crate::vote_state::{Lockout, VoteState, VoteStateView, MAX_EPOCH_CREDITS_HISTORY,
    MAX_LOCKOUT_HISTORY};
use vstd::bytes::{lemma_auto_spec_u32_to_from_le_bytes, lemma_auto_spec_u64_to_from_le_bytes,
    spec_u32_to_le_bytes, spec_u32_from_le_bytes, spec_u64_to_le_bytes, spec_u64_from_le_bytes,
    u32_from_le_bytes, u32_to_le_bytes, u64_from_le_bytes, u64_to_le_bytes};
use vstd::prelude::*;
use vstd::slice::slice_subrange;

verus! {

pub open spec fn enc_pubkey(p: Pubkey) -> Seq<u8> {
    spec_u64_to_le_bytes(p.w0) + spec_u64_to_le_bytes(p.w1) + spec_u64_to_le_bytes(p.w2)
        + spec_u64_to_le_bytes(p.w3)
}

pub open spec fn enc_lockout(l: Lockout) -> Seq<u8> {
    spec_u64_to_le_bytes(l.slot) + spec_u32_to_le_bytes(l.confirmation_count)
}

pub open spec fn enc_lockouts(s: Seq<Lockout>) -> Seq<u8>
    decreases s.len(),
{
    if s.len() == 0 {
        Seq::empty()
    } else {
        enc_lockout(s[0]) + enc_lockouts(s.drop_first())
    }
}

pub open spec fn enc_triple(t: (u64, u64, u64)) -> Seq<u8> {
    spec_u64_to_le_bytes(t.0) + spec_u64_to_le_bytes(t.1) + spec_u64_to_le_bytes(t.2)
}

pub open spec fn enc_triples(s: Seq<(u64, u64, u64)>) -> Seq<u8>
    decreases s.len(),
{
    if s.len() == 0 {
        Seq::empty()
    } else {
        enc_triple(s[0]) + enc_triples(s.drop_first())
    }
}

pub open spec fn enc_root(r: Option<u64>) -> Seq<u8> {
    match r {
        None => seq![0u8],
        Some(x) => seq![1u8] + spec_u64_to_le_bytes(x),
    }
}

/// The byte encoding of a whole vote state.
pub open spec fn spec_serialize(v: VoteStateView) -> Seq<u8> {
    spec_u64_to_le_bytes(v.votes.len() as u64) + (enc_lockouts(v.votes) + (enc_pubkey(
        v.node_pubkey,
    ) + (enc_pubkey(v.authorized_voter_pubkey) + (seq![v.commission] + (enc_root(v.root_slot) + (
    spec_u64_to_le_bytes(v.epoch) + (spec_u64_to_le_bytes(v.credits) + (spec_u64_to_le_bytes(
        v.last_epoch_credits,
    ) + (spec_u64_to_le_bytes(v.epoch_credits.len() as u64) + enc_triples(v.epoch_credits))))))))))
}

pub open spec fn p_u64(b: Seq<u8>) -> Option<(u64, Seq<u8>)> {
    if b.len() >= 8 {
        Some((spec_u64_from_le_bytes(b.take(8)), b.skip(8)))
    } else {
        None
    }
}

pub open spec fn p_u32(b: Seq<u8>) -> Option<(u32, Seq<u8>)> {
    if b.len() >= 4 {
        Some((spec_u32_from_le_bytes(b.take(4)), b.skip(4)))
    } else {
        None
    }
}

pub open spec fn p_u8(b: Seq<u8>) -> Option<(u8, Seq<u8>)> {
    if b.len() >= 1 {
        Some((b[0], b.skip(1)))
    } else {
        None
    }
}

pub open spec fn p_pubkey(b: Seq<u8>) -> Option<(Pubkey, Seq<u8>)> {
    if b.len() >= 32 {
        Some(
            (
                Pubkey {
                    w0: spec_u64_from_le_bytes(b.take(8)),
                    w1: spec_u64_from_le_bytes(b.skip(8).take(8)),
                    w2: spec_u64_from_le_bytes(b.skip(16).take(8)),
                    w3: spec_u64_from_le_bytes(b.skip(24).take(8)),
                },
                b.skip(32),
            ),
        )
    } else {
        None
    }
}

/// A missing-or-present slot: tag byte zero or one; any other tag is
/// malformed.
pub open spec fn p_root(b: Seq<u8>) -> Option<(Option<u64>, Seq<u8>)> {
    match p_u8(b) {
        None => None,
        Some((tag, rest)) => if tag == 0 {
            Some((None, rest))
        } else if tag == 1 {
            match p_u64(rest) {
                None => None,
                Some((x, rest2)) => Some((Some(x), rest2)),
            }
        } else {
            None
        },
    }
}

pub open spec fn p_lockouts(b: Seq<u8>, n: nat) -> Option<(Seq<Lockout>, Seq<u8>)>
    decreases n,
{
    if n == 0 {
        Some((Seq::empty(), b))
    } else if b.len() >= 12 {
        let l = Lockout {
            slot: spec_u64_from_le_bytes(b.take(8)),
            confirmation_count: spec_u32_from_le_bytes(b.skip(8).take(4)),
        };
        match p_lockouts(b.skip(12), (n - 1) as nat) {
            None => None,
            Some((s, rest)) => Some((seq![l] + s, rest)),
        }
    } else {
        None
    }
}

pub open spec fn p_triples(b: Seq<u8>, n: nat) -> Option<(Seq<(u64, u64, u64)>, Seq<u8>)>
    decreases n,
{
    if n == 0 {
        Some((Seq::empty(), b))
    } else if b.len() >= 24 {
        let t = (
            spec_u64_from_le_bytes(b.take(8)),
            spec_u64_from_le_bytes(b.skip(8).take(8)),
            spec_u64_from_le_bytes(b.skip(16).take(8)),
        );
        match p_triples(b.skip(24), (n - 1) as nat) {
            None => None,
            Some((s, rest)) => Some((seq![t] + s, rest)),
        }
    } else {
        None
    }
}

/// The parser for a whole vote state: a prefix of `b` must hold a complete
/// encoding; trailing bytes are ignored.
pub open spec fn spec_deserialize(b: Seq<u8>) -> Option<VoteStateView> {
    match p_u64(b) {
        None => None,
        Some((n_votes, b1)) => match p_lockouts(b1, n_votes as nat) {
            None => None,
            Some((votes, b2)) => match p_pubkey(b2) {
                None => None,
                Some((node_pubkey, b3)) => match p_pubkey(b3) {
                    None => None,
                    Some((authorized_voter_pubkey, b4)) => match p_u8(b4) {
                        None => None,
                        Some((commission, b5)) => match p_root(b5) {
                            None => None,
                            Some((root_slot, b6)) => match p_u64(b6) {
                                None => None,
                                Some((epoch, b7)) => match p_u64(b7) {
                                    None => None,
                                    Some((credits, b8)) => match p_u64(b8) {
                                        None => None,
                                        Some((last_epoch_credits, b9)) => match p_u64(b9) {
                                            None => None,
                                            Some((n_ec, b10)) => match p_triples(
                                                b10,
                                                n_ec as nat,
                                            ) {
                                                None => None,
                                                Some((epoch_credits, _rest)) => Some(
                                                    VoteStateView {
                                                        votes,
                                                        node_pubkey,
                                                        authorized_voter_pubkey,
                                                        commission,
                                                        root_slot,
                                                        epoch,
                                                        credits,
                                                        last_epoch_credits,
                                                        epoch_credits,
                                                    },
                                                ),
                                            },
                                        },
                                    },
                                },
                            },
                        },
                    },
                },
            },
        },
    }
}

/// Parsing an encoded integer gives the integer back and hands on the rest.
pub proof fn lemma_p_u64(x: u64, rest: Seq<u8>)
    ensures
        p_u64(spec_u64_to_le_bytes(x) + rest) == Some((x, rest)),
{
    lemma_auto_spec_u64_to_from_le_bytes();
    let b = spec_u64_to_le_bytes(x) + rest;
    assert(b.take(8) =~= spec_u64_to_le_bytes(x));
    assert(b.skip(8) =~= rest);
}

/// Parsing an encoded key gives the key back and hands on the rest.
pub proof fn lemma_p_pubkey(p: Pubkey, rest: Seq<u8>)
    ensures
        p_pubkey(enc_pubkey(p) + rest) == Some((p, rest)),
{
    lemma_auto_spec_u64_to_from_le_bytes();
    let b = enc_pubkey(p) + rest;
    assert(b.take(8) =~= spec_u64_to_le_bytes(p.w0));
    assert(b.skip(8).take(8) =~= spec_u64_to_le_bytes(p.w1));
    assert(b.skip(16).take(8) =~= spec_u64_to_le_bytes(p.w2));
    assert(b.skip(24).take(8) =~= spec_u64_to_le_bytes(p.w3));
    assert(b.skip(32) =~= rest);
}

/// Parsing an encoded optional root gives it back and hands on the rest.
pub proof fn lemma_p_root(r: Option<u64>, rest: Seq<u8>)
    ensures
        p_root(enc_root(r) + rest) == Some((r, rest)),
{
    lemma_auto_spec_u64_to_from_le_bytes();
    let b = enc_root(r) + rest;
    match r {
        None => {
            assert(b[0] == 0u8);
            assert(b.skip(1) =~= rest);
        },
        Some(x) => {
            assert(b[0] == 1u8);
            assert(b.skip(1) =~= spec_u64_to_le_bytes(x) + rest);
            lemma_p_u64(x, rest);
        },
    }
}

/// Parsing an encoded tower gives the tower back and hands on the rest.
pub proof fn lemma_p_lockouts(s: Seq<Lockout>, rest: Seq<u8>)
    ensures
        p_lockouts(enc_lockouts(s) + rest, s.len()) == Some((s, rest)),
    decreases s.len(),
{
    lemma_auto_spec_u64_to_from_le_bytes();
    lemma_auto_spec_u32_to_from_le_bytes();
    let b = enc_lockouts(s) + rest;
    if s.len() == 0 {
        assert(b =~= rest);
        assert(Seq::<Lockout>::empty() =~= s);
    } else {
        assert(b.take(8) =~= spec_u64_to_le_bytes(s[0].slot));
        assert(b.skip(8).take(4) =~= spec_u32_to_le_bytes(s[0].confirmation_count));
        assert(b.skip(12) =~= enc_lockouts(s.drop_first()) + rest);
        lemma_p_lockouts(s.drop_first(), rest);
        assert(seq![s[0]] + s.drop_first() =~= s);
    }
}

/// Parsing an encoded credit history gives it back and hands on the rest.
pub proof fn lemma_p_triples(s: Seq<(u64, u64, u64)>, rest: Seq<u8>)
    ensures
        p_triples(enc_triples(s) + rest, s.len()) == Some((s, rest)),
    decreases s.len(),
{
    lemma_auto_spec_u64_to_from_le_bytes();
    let b = enc_triples(s) + rest;
    if s.len() == 0 {
        assert(b =~= rest);
        assert(Seq::<(u64, u64, u64)>::empty() =~= s);
    } else {
        assert(b.take(8) =~= spec_u64_to_le_bytes(s[0].0));
        assert(b.skip(8).take(8) =~= spec_u64_to_le_bytes(s[0].1));
        assert(b.skip(16).take(8) =~= spec_u64_to_le_bytes(s[0].2));
        assert(b.skip(24) =~= enc_triples(s.drop_first()) + rest);
        lemma_p_triples(s.drop_first(), rest);
        assert(seq![s[0]] + s.drop_first() =~= s);
    }
}

/// Concatenation of byte sequences is associative.
pub proof fn lemma_add_assoc(a: Seq<u8>, b: Seq<u8>, c: Seq<u8>)
    ensures
        (a + b) + c == a + (b + c),
{
    assert((a + b) + c =~= a + (b + c));
}

/// The round trip: whatever follows an encoded state in a buffer, parsing
/// the buffer yields exactly the encoded state.
pub proof fn lemma_round_trip(v: VoteStateView, rest: Seq<u8>)
    requires
        v.votes.len() <= u64::MAX,
        v.epoch_credits.len() <= u64::MAX,
    ensures
        spec_deserialize(spec_serialize(v) + rest) == Some(v),
{
    let e_nv = spec_u64_to_le_bytes(v.votes.len() as u64);
    let e_votes = enc_lockouts(v.votes);
    let e_node = enc_pubkey(v.node_pubkey);
    let e_auth = enc_pubkey(v.authorized_voter_pubkey);
    let e_comm = seq![v.commission];
    let e_root = enc_root(v.root_slot);
    let e_epoch = spec_u64_to_le_bytes(v.epoch);
    let e_credits = spec_u64_to_le_bytes(v.credits);
    let e_last = spec_u64_to_le_bytes(v.last_epoch_credits);
    let e_nec = spec_u64_to_le_bytes(v.epoch_credits.len() as u64);
    let e_ec = enc_triples(v.epoch_credits);
    let t10 = e_nec + e_ec;
    let t9 = e_last + t10;
    let t8 = e_credits + t9;
    let t7 = e_epoch + t8;
    let t6 = e_root + t7;
    let t5 = e_comm + t6;
    let t4 = e_auth + t5;
    let t3 = e_node + t4;
    let t2 = e_votes + t3;
    let b = spec_serialize(v) + rest;
    lemma_add_assoc(e_nv, t2, rest);
    lemma_add_assoc(e_votes, t3, rest);
    lemma_add_assoc(e_node, t4, rest);
    lemma_add_assoc(e_auth, t5, rest);
    lemma_add_assoc(e_comm, t6, rest);
    lemma_add_assoc(e_root, t7, rest);
    lemma_add_assoc(e_epoch, t8, rest);
    lemma_add_assoc(e_credits, t9, rest);
    lemma_add_assoc(e_last, t10, rest);
    lemma_add_assoc(e_nec, e_ec, rest);
    lemma_p_u64(v.votes.len() as u64, t2 + rest);
    lemma_p_lockouts(v.votes, t3 + rest);
    lemma_p_pubkey(v.node_pubkey, t4 + rest);
    lemma_p_pubkey(v.authorized_voter_pubkey, t5 + rest);
    assert(p_u8(t5 + rest) == Some((v.commission, t6 + rest))) by {
        assert((t5 + rest)[0] == v.commission);
        assert((t5 + rest).skip(1) =~= t6 + rest);
    }
    lemma_p_root(v.root_slot, t7 + rest);
    lemma_p_u64(v.epoch, t8 + rest);
    lemma_p_u64(v.credits, t9 + rest);
    lemma_p_u64(v.last_epoch_credits, t10 + rest);
    lemma_p_u64(v.epoch_credits.len() as u64, e_ec + rest);
    lemma_p_triples(v.epoch_credits, rest);
    assert(spec_deserialize(b) == Some(
        VoteStateView {
            votes: v.votes,
            node_pubkey: v.node_pubkey,
            authorized_voter_pubkey: v.authorized_voter_pubkey,
            commission: v.commission,
            root_slot: v.root_slot,
            epoch: v.epoch,
            credits: v.credits,
            last_epoch_credits: v.last_epoch_credits,
            epoch_credits: v.epoch_credits,
        },
    ));
}

/// An encoded tower is twelve bytes per vote.
pub proof fn lemma_enc_lockouts_len(s: Seq<Lockout>)
    ensures
        enc_lockouts(s).len() == 12 * s.len(),
    decreases s.len(),
{
    lemma_auto_spec_u64_to_from_le_bytes();
    lemma_auto_spec_u32_to_from_le_bytes();
    if s.len() > 0 {
        lemma_enc_lockouts_len(s.drop_first());
    }
}

/// An encoded credit history is twenty-four bytes per record.
pub proof fn lemma_enc_triples_len(s: Seq<(u64, u64, u64)>)
    ensures
        enc_triples(s).len() == 24 * s.len(),
    decreases s.len(),
{
    lemma_auto_spec_u64_to_from_le_bytes();
    if s.len() > 0 {
        lemma_enc_triples_len(s.drop_first());
    }
}

/// The exact size of an encoded state.
pub proof fn lemma_serialized_len(v: VoteStateView)
    ensures
        spec_serialize(v).len() == 105 + 12 * v.votes.len() + (if v.root_slot is Some {
            9int
        } else {
            1int
        }) + 24 * v.epoch_credits.len(),
{
    lemma_auto_spec_u64_to_from_le_bytes();
    lemma_enc_lockouts_len(v.votes);
    lemma_enc_triples_len(v.epoch_credits);
}

/// Appending one vote to the tower appends its encoding.
pub proof fn lemma_enc_lockouts_snoc(s: Seq<Lockout>, l: Lockout)
    ensures
        enc_lockouts(s.push(l)) == enc_lockouts(s) + enc_lockout(l),
    decreases s.len(),
{
    if s.len() == 0 {
        assert(s.push(l).drop_first() =~= Seq::<Lockout>::empty());
        assert(s.push(l)[0] == l);
        assert(enc_lockouts(s.push(l)) == enc_lockout(l) + enc_lockouts(
            Seq::<Lockout>::empty(),
        ));
        assert(enc_lockout(l) + Seq::<u8>::empty() =~= Seq::<u8>::empty() + enc_lockout(l));
    } else {
        assert(s.push(l).drop_first() =~= s.drop_first().push(l));
        assert(s.push(l)[0] == s[0]);
        assert(enc_lockouts(s.push(l)) == enc_lockout(s[0]) + enc_lockouts(
            s.drop_first().push(l),
        ));
        lemma_enc_lockouts_snoc(s.drop_first(), l);
        assert(enc_lockout(s[0]) + (enc_lockouts(s.drop_first()) + enc_lockout(l)) =~= (
        enc_lockout(s[0]) + enc_lockouts(s.drop_first())) + enc_lockout(l));
    }
}

/// Appending one record to the history appends its encoding.
pub proof fn lemma_enc_triples_snoc(s: Seq<(u64, u64, u64)>, t: (u64, u64, u64))
    ensures
        enc_triples(s.push(t)) == enc_triples(s) + enc_triple(t),
    decreases s.len(),
{
    if s.len() == 0 {
        assert(s.push(t).drop_first() =~= Seq::<(u64, u64, u64)>::empty());
        assert(s.push(t)[0] == t);
        assert(enc_triples(s.push(t)) == enc_triple(t) + enc_triples(
            Seq::<(u64, u64, u64)>::empty(),
        ));
        assert(enc_triple(t) + Seq::<u8>::empty() =~= Seq::<u8>::empty() + enc_triple(t));
    } else {
        assert(s.push(t).drop_first() =~= s.drop_first().push(t));
        assert(s.push(t)[0] == s[0]);
        assert(enc_triples(s.push(t)) == enc_triple(s[0]) + enc_triples(s.drop_first().push(t)));
        lemma_enc_triples_snoc(s.drop_first(), t);
        assert(enc_triple(s[0]) + (enc_triples(s.drop_first()) + enc_triple(t)) =~= (enc_triple(
            s[0],
        ) + enc_triples(s.drop_first())) + enc_triple(t));
    }
}

fn push_u64(out: &mut Vec<u8>, x: u64)
    ensures
        final(out)@ == old(out)@ + spec_u64_to_le_bytes(x),
{
    let mut bytes = u64_to_le_bytes(x);
    out.append(&mut bytes);
}

fn push_u32(out: &mut Vec<u8>, x: u32)
    ensures
        final(out)@ == old(out)@ + spec_u32_to_le_bytes(x),
{
    let mut bytes = u32_to_le_bytes(x);
    out.append(&mut bytes);
}

fn push_pubkey(out: &mut Vec<u8>, p: &Pubkey)
    ensures
        final(out)@ == old(out)@ + enc_pubkey(*p),
{
    push_u64(out, p.w0);
    push_u64(out, p.w1);
    push_u64(out, p.w2);
    push_u64(out, p.w3);
    proof {
        assert(out@ =~= old(out)@ + enc_pubkey(*p));
    }
}

fn read_u64_at(input: &[u8], off: usize) -> (r: Option<(u64, usize)>)
    requires
        off <= input@.len(),
    ensures
        match r {
            Some((x, off2)) => off2 == off + 8 && off2 <= input@.len() && p_u64(
                input@.skip(off as int),
            ) == Some((x, input@.skip(off2 as int))),
            None => p_u64(input@.skip(off as int)) is None,
        },
{
    if input.len() >= 8 && off <= input.len() - 8 {
        let piece = slice_subrange(input, off, off + 8);
        let x = u64_from_le_bytes(piece);
        proof {
            assert(input@.skip(off as int).take(8) =~= input@.subrange(off as int, off + 8));
            assert(input@.skip(off as int).skip(8) =~= input@.skip(off + 8));
        }
        Some((x, off + 8))
    } else {
        None
    }
}

fn read_u32_at(input: &[u8], off: usize) -> (r: Option<(u32, usize)>)
    requires
        off <= input@.len(),
    ensures
        match r {
            Some((x, off2)) => off2 == off + 4 && off2 <= input@.len() && p_u32(
                input@.skip(off as int),
            ) == Some((x, input@.skip(off2 as int))),
            None => p_u32(input@.skip(off as int)) is None,
        },
{
    if input.len() >= 4 && off <= input.len() - 4 {
        let piece = slice_subrange(input, off, off + 4);
        let x = u32_from_le_bytes(piece);
        proof {
            assert(input@.skip(off as int).take(4) =~= input@.subrange(off as int, off + 4));
            assert(input@.skip(off as int).skip(4) =~= input@.skip(off + 4));
        }
        Some((x, off + 4))
    } else {
        None
    }
}

fn read_u8_at(input: &[u8], off: usize) -> (r: Option<(u8, usize)>)
    requires
        off <= input@.len(),
    ensures
        match r {
            Some((x, off2)) => off2 == off + 1 && off2 <= input@.len() && p_u8(
                input@.skip(off as int),
            ) == Some((x, input@.skip(off2 as int))),
            None => p_u8(input@.skip(off as int)) is None,
        },
{
    if off < input.len() {
        let x = input[off];
        proof {
            assert(input@.skip(off as int)[0] == input@[off as int]);
            assert(input@.skip(off as int).skip(1) =~= input@.skip(off + 1));
        }
        Some((x, off + 1))
    } else {
        None
    }
}

fn read_pubkey_at(input: &[u8], off: usize) -> (r: Option<(Pubkey, usize)>)
    requires
        off <= input@.len(),
    ensures
        match r {
            Some((p, off2)) => off2 == off + 32 && off2 <= input@.len() && p_pubkey(
                input@.skip(off as int),
            ) == Some((p, input@.skip(off2 as int))),
            None => p_pubkey(input@.skip(off as int)) is None,
        },
{
    if input.len() >= 32 && off <= input.len() - 32 {
        let p0 = slice_subrange(input, off, off + 8);
        let p1 = slice_subrange(input, off + 8, off + 16);
        let p2 = slice_subrange(input, off + 16, off + 24);
        let p3 = slice_subrange(input, off + 24, off + 32);
        let p = Pubkey {
            w0: u64_from_le_bytes(p0),
            w1: u64_from_le_bytes(p1),
            w2: u64_from_le_bytes(p2),
            w3: u64_from_le_bytes(p3),
        };
        proof {
            let b = input@.skip(off as int);
            assert(b.take(8) =~= input@.subrange(off as int, off + 8));
            assert(b.skip(8).take(8) =~= input@.subrange(off + 8, off + 16));
            assert(b.skip(16).take(8) =~= input@.subrange(off + 16, off + 24));
            assert(b.skip(24).take(8) =~= input@.subrange(off + 24, off + 32));
            assert(b.skip(32) =~= input@.skip(off + 32));
        }
        Some((p, off + 32))
    } else {
        None
    }
}

} // verus!

verus! {

/// A parse result with already-parsed votes in front of it.
pub open spec fn prepend_lockouts(
    acc: Seq<Lockout>,
    o: Option<(Seq<Lockout>, Seq<u8>)>,
) -> Option<(Seq<Lockout>, Seq<u8>)> {
    match o {
        None => None,
        Some((s, rest)) => Some((acc + s, rest)),
    }
}

/// A parse result with already-parsed records in front of it.
pub open spec fn prepend_triples(
    acc: Seq<(u64, u64, u64)>,
    o: Option<(Seq<(u64, u64, u64)>, Seq<u8>)>,
) -> Option<(Seq<(u64, u64, u64)>, Seq<u8>)> {
    match o {
        None => None,
        Some((s, rest)) => Some((acc + s, rest)),
    }
}

impl VoteState {
    /// The encoding of this state as a fresh byte vector.
    #[verifier::rlimit(60)]
    fn to_bytes(&self) -> (r: Vec<u8>)
        ensures
            r@ == spec_serialize(self@),
    {
        let ghost v = self@;
        let mut out: Vec<u8> = Vec::new();
        push_u64(&mut out, self.votes.len() as u64);
        let ghost a1 = out@;
        let mut i: usize = 0;
        while i < self.votes.len()
            invariant
                0 <= i <= self.votes@.len(),
                self.votes@ == v.votes,
                out@ == a1 + enc_lockouts(v.votes.take(i as int)),
            decreases self.votes@.len() - i,
        {
            let l = self.votes[i];
            push_u64(&mut out, l.slot);
            push_u32(&mut out, l.confirmation_count);
            proof {
                lemma_enc_lockouts_snoc(v.votes.take(i as int), l);
                assert(v.votes.take(i + 1) =~= v.votes.take(i as int).push(l));
                lemma_add_assoc(
                    a1,
                    enc_lockouts(v.votes.take(i as int)),
                    spec_u64_to_le_bytes(l.slot),
                );
                lemma_add_assoc(
                    a1,
                    enc_lockouts(v.votes.take(i as int)) + spec_u64_to_le_bytes(l.slot),
                    spec_u32_to_le_bytes(l.confirmation_count),
                );
                lemma_add_assoc(
                    enc_lockouts(v.votes.take(i as int)),
                    spec_u64_to_le_bytes(l.slot),
                    spec_u32_to_le_bytes(l.confirmation_count),
                );
            }
            i = i + 1;
        }
        proof {
            assert(v.votes.take(v.votes.len() as int) =~= v.votes);
        }
        let ghost a2 = out@;
        push_pubkey(&mut out, &self.node_pubkey);
        let ghost a3 = out@;
        push_pubkey(&mut out, &self.authorized_voter_pubkey);
        let ghost a4 = out@;
        out.push(self.commission);
        proof {
            assert(out@ =~= a4 + seq![v.commission]);
        }
        let ghost a5 = out@;
        match self.root_slot {
            None => {
                out.push(0u8);
                proof {
                    assert(out@ =~= a5 + enc_root(v.root_slot));
                }
            },
            Some(x) => {
                out.push(1u8);
                push_u64(&mut out, x);
                proof {
                    assert((a5 + seq![1u8]) + spec_u64_to_le_bytes(x) =~= a5 + enc_root(
                        v.root_slot,
                    ));
                }
            },
        }
        let ghost a6 = out@;
        push_u64(&mut out, self.epoch);
        let ghost a7 = out@;
        push_u64(&mut out, self.credits);
        let ghost a8 = out@;
        push_u64(&mut out, self.last_epoch_credits);
        let ghost a9 = out@;
        push_u64(&mut out, self.epoch_credits.len() as u64);
        let ghost a10 = out@;
        let mut j: usize = 0;
        while j < self.epoch_credits.len()
            invariant
                0 <= j <= self.epoch_credits@.len(),
                self.epoch_credits@ == v.epoch_credits,
                out@ == a10 + enc_triples(v.epoch_credits.take(j as int)),
            decreases self.epoch_credits@.len() - j,
        {
            let t = self.epoch_credits[j];
            push_u64(&mut out, t.0);
            push_u64(&mut out, t.1);
            push_u64(&mut out, t.2);
            proof {
                lemma_enc_triples_snoc(v.epoch_credits.take(j as int), t);
                assert(v.epoch_credits.take(j + 1) =~= v.epoch_credits.take(j as int).push(t));
                let pre = enc_triples(v.epoch_credits.take(j as int));
                lemma_add_assoc(a10, pre, spec_u64_to_le_bytes(t.0));
                lemma_add_assoc(
                    a10,
                    pre + spec_u64_to_le_bytes(t.0),
                    spec_u64_to_le_bytes(t.1),
                );
                lemma_add_assoc(
                    a10,
                    (pre + spec_u64_to_le_bytes(t.0)) + spec_u64_to_le_bytes(t.1),
                    spec_u64_to_le_bytes(t.2),
                );
                lemma_add_assoc(pre, spec_u64_to_le_bytes(t.0), spec_u64_to_le_bytes(t.1));
                lemma_add_assoc(
                    pre,
                    spec_u64_to_le_bytes(t.0) + spec_u64_to_le_bytes(t.1),
                    spec_u64_to_le_bytes(t.2),
                );
                lemma_add_assoc(
                    spec_u64_to_le_bytes(t.0),
                    spec_u64_to_le_bytes(t.1),
                    spec_u64_to_le_bytes(t.2),
                );
            }
            j = j + 1;
        }
        // reassociate the built prefix chain into the nested encoding
        proof {
            assert(v.epoch_credits.take(v.epoch_credits.len() as int) =~= v.epoch_credits);
            let e_nv = spec_u64_to_le_bytes(v.votes.len() as u64);
            let e_votes = enc_lockouts(v.votes);
            let e_node = enc_pubkey(v.node_pubkey);
            let e_auth = enc_pubkey(v.authorized_voter_pubkey);
            let e_comm = seq![v.commission];
            let e_root = enc_root(v.root_slot);
            let e_epoch = spec_u64_to_le_bytes(v.epoch);
            let e_credits = spec_u64_to_le_bytes(v.credits);
            let e_last = spec_u64_to_le_bytes(v.last_epoch_credits);
            let e_nec = spec_u64_to_le_bytes(v.epoch_credits.len() as u64);
            let e_ec = enc_triples(v.epoch_credits);
            let t10 = e_nec + e_ec;
            let t9 = e_last + t10;
            let t8 = e_credits + t9;
            let t7 = e_epoch + t8;
            let t6 = e_root + t7;
            let t5 = e_comm + t6;
            let t4 = e_auth + t5;
            let t3 = e_node + t4;
            let t2 = e_votes + t3;
            lemma_add_assoc(e_nv, e_votes, t3);
            lemma_add_assoc(a2, e_node, t4);
            lemma_add_assoc(a3, e_auth, t5);
            lemma_add_assoc(a4, e_comm, t6);
            lemma_add_assoc(a5, e_root, t7);
            lemma_add_assoc(a6, e_epoch, t8);
            lemma_add_assoc(a7, e_credits, t9);
            lemma_add_assoc(a8, e_last, t10);
            lemma_add_assoc(a9, e_nec, e_ec);
            assert(out@ == spec_serialize(v));
        }
        out
    }

    /// Writes this state over the front of `output`, leaving the tail as it
    /// was; fails without touching `output` when the buffer is too small.
    pub fn serialize(&self, output: &mut Vec<u8>) -> (r: Result<(), InstructionError>)
        ensures
            spec_serialize(self@).len() <= old(output)@.len() ==> r == Ok::<(),
            InstructionError>(()) && final(output)@ == spec_serialize(self@)
                + old(output)@.skip(spec_serialize(self@).len() as int),
            spec_serialize(self@).len() > old(output)@.len() ==> r == Err::<(),
            InstructionError>(InstructionError::AccountDataTooSmall) && final(output)@ == old(output)@,
    {
        let bytes = self.to_bytes();
        if bytes.len() > output.len() {
            return Err(InstructionError::AccountDataTooSmall);
        }
        let n = bytes.len();
        let mut merged = bytes;
        let mut i: usize = n;
        while i < output.len()
            invariant
                n <= i <= output@.len(),
                output@ == old(output)@,
                merged@ == spec_serialize(self@) + output@.subrange(n as int, i as int),
            decreases output@.len() - i,
        {
            merged.push(output[i]);
            proof {
                assert(spec_serialize(self@) + output@.subrange(n as int, i as int) + seq![
                    output@[i as int],
                ] =~= spec_serialize(self@) + output@.subrange(n as int, i + 1));
            }
            i = i + 1;
        }
        proof {
            assert(output@.subrange(n as int, output@.len() as int) =~= output@.skip(n as int));
        }
        *output = merged;
        Ok(())
    }

    /// Parses a state from the front of `input`; malformed or truncated
    /// input fails with `InvalidAccountData`.
    #[verifier::rlimit(100)]
    #[verifier::loop_isolation(false)]
    pub fn deserialize(input: &[u8]) -> (r: Result<VoteState, InstructionError>)
        ensures
            (r is Ok) <==> (spec_deserialize(input@) is Some),
            r matches Ok(v) ==> spec_deserialize(input@) == Some(v@),
            r is Err ==> r == Err::<VoteState, InstructionError>(
                InstructionError::InvalidAccountData,
            ),
    {
        let (n_votes, off1) = match read_u64_at(input, 0) {
            Some(p) => p,
            None => {
                proof {
                    assert(input@.skip(0) =~= input@);
                }
                return Err(InstructionError::InvalidAccountData);
            },
        };
        proof {
            assert(input@.skip(0) =~= input@);
        }
        let ghost b1 = input@.skip(off1 as int);
        let mut votes: Vec<Lockout> = Vec::new();
        let mut off: usize = off1;
        let mut k: u64 = 0;
        while k < n_votes
            invariant
                0 <= k <= n_votes,
                off <= input@.len(),
                prepend_lockouts(
                    votes@,
                    p_lockouts(input@.skip(off as int), (n_votes - k) as nat),
                ) == p_lockouts(b1, n_votes as nat),
            decreases n_votes - k,
        {
            let ghost b = input@.skip(off as int);
            let (slot, offa) = match read_u64_at(input, off) {
                Some(p) => p,
                None => {
                    return Err(InstructionError::InvalidAccountData);
                },
            };
            let (conf, offb) = match read_u32_at(input, offa) {
                Some(p) => p,
                None => {
                    proof {
                        assert(b.len() < 12);
                    }
                    return Err(InstructionError::InvalidAccountData);
                },
            };
            proof {
                assert(b.skip(8) =~= input@.skip(offa as int));
                assert(b.take(8) =~= input@.skip(off as int).take(8));
                assert(b.skip(12) =~= input@.skip(offb as int));
                assert(b.len() >= 12);
            }
            let l = Lockout { slot, confirmation_count: conf };
            votes.push(l);
            proof {
                let tail = p_lockouts(input@.skip(offb as int), (n_votes - k - 1) as nat);
                match tail {
                    None => {},
                    Some((s, rest)) => {
                        assert(votes@ + s =~= votes@.drop_last() + (seq![l] + s));
                    },
                }
            }
            off = offb;
            k = k + 1;
        }
        proof {
            assert(p_lockouts(input@.skip(off as int), 0) == Some(
                (Seq::<Lockout>::empty(), input@.skip(off as int)),
            ));
            assert(votes@ + Seq::<Lockout>::empty() =~= votes@);
            assert(p_lockouts(b1, n_votes as nat) == Some(
                (votes@, input@.skip(off as int)),
            ));
        }
        let (node_pubkey, off2) = match read_pubkey_at(input, off) {
            Some(p) => p,
            None => {
                return Err(InstructionError::InvalidAccountData);
            },
        };
        let (authorized_voter_pubkey, off3) = match read_pubkey_at(input, off2) {
            Some(p) => p,
            None => {
                return Err(InstructionError::InvalidAccountData);
            },
        };
        let (commission, off4) = match read_u8_at(input, off3) {
            Some(p) => p,
            None => {
                return Err(InstructionError::InvalidAccountData);
            },
        };
        let (tag, off5) = match read_u8_at(input, off4) {
            Some(p) => p,
            None => {
                return Err(InstructionError::InvalidAccountData);
            },
        };
        let (root_slot, off6) = if tag == 0 {
            (None, off5)
        } else if tag == 1 {
            match read_u64_at(input, off5) {
                Some((x, off6)) => (Some(x), off6),
                None => {
                    return Err(InstructionError::InvalidAccountData);
                },
            }
        } else {
            return Err(InstructionError::InvalidAccountData);
        };
        proof {
            assert(p_root(input@.skip(off4 as int)) == Some(
                (root_slot, input@.skip(off6 as int)),
            ));
        }
        let (epoch, off7) = match read_u64_at(input, off6) {
            Some(p) => p,
            None => {
                return Err(InstructionError::InvalidAccountData);
            },
        };
        let (credits, off8) = match read_u64_at(input, off7) {
            Some(p) => p,
            None => {
                return Err(InstructionError::InvalidAccountData);
            },
        };
        let (last_epoch_credits, off9) = match read_u64_at(input, off8) {
            Some(p) => p,
            None => {
                return Err(InstructionError::InvalidAccountData);
            },
        };
        let (n_ec, off10) = match read_u64_at(input, off9) {
            Some(p) => p,
            None => {
                return Err(InstructionError::InvalidAccountData);
            },
        };
        let ghost b10 = input@.skip(off10 as int);
        let mut epoch_credits: Vec<(u64, u64, u64)> = Vec::new();
        let mut eoff: usize = off10;
        let mut m: u64 = 0;
        while m < n_ec
            invariant
                0 <= m <= n_ec,
                eoff <= input@.len(),
                prepend_triples(
                    epoch_credits@,
                    p_triples(input@.skip(eoff as int), (n_ec - m) as nat),
                ) == p_triples(b10, n_ec as nat),
            decreases n_ec - m,
        {
            let ghost b = input@.skip(eoff as int);
            let (x0, ea) = match read_u64_at(input, eoff) {
                Some(p) => p,
                None => {
                    return Err(InstructionError::InvalidAccountData);
                },
            };
            let (x1, eb) = match read_u64_at(input, ea) {
                Some(p) => p,
                None => {
                    proof {
                        assert(b.len() < 24);
                    }
                    return Err(InstructionError::InvalidAccountData);
                },
            };
            let (x2, ec) = match read_u64_at(input, eb) {
                Some(p) => p,
                None => {
                    proof {
                        assert(b.len() < 24);
                    }
                    return Err(InstructionError::InvalidAccountData);
                },
            };
            proof {
                assert(b.skip(8) =~= input@.skip(ea as int));
                assert(b.skip(16) =~= input@.skip(eb as int));
                assert(b.take(8) =~= input@.skip(eoff as int).take(8));
                assert(b.skip(24) =~= input@.skip(ec as int));
                assert(b.len() >= 24);
            }
            let t = (x0, x1, x2);
            epoch_credits.push(t);
            proof {
                let tail = p_triples(input@.skip(ec as int), (n_ec - m - 1) as nat);
                match tail {
                    None => {},
                    Some((s, rest)) => {
                        assert(epoch_credits@ + s =~= epoch_credits@.drop_last() + (seq![t] + s));
                    },
                }
            }
            eoff = ec;
            m = m + 1;
        }
        proof {
            assert(p_triples(input@.skip(eoff as int), 0) == Some(
                (Seq::<(u64, u64, u64)>::empty(), input@.skip(eoff as int)),
            ));
            assert(epoch_credits@ + Seq::<(u64, u64, u64)>::empty() =~= epoch_credits@);
            assert(p_triples(b10, n_ec as nat) == Some(
                (epoch_credits@, input@.skip(eoff as int)),
            ));
        }
        let st = VoteState {
            votes,
            node_pubkey,
            authorized_voter_pubkey,
            commission,
            root_slot,
            epoch,
            credits,
            last_epoch_credits,
            epoch_credits,
        };
        proof {
            assert(spec_deserialize(input@) == Some(st@));
        }
        Ok(st)
    }

    /// The size of the largest possible encoded state: a full tower, a
    /// present root, and a full credit history.
    pub fn size_of() -> (r: usize)
        ensures
            r == 2022,
    {
        let mut max_state = VoteState::default();
        let mut i: usize = 0;
        while i < MAX_LOCKOUT_HISTORY
            invariant
                0 <= i <= MAX_LOCKOUT_HISTORY,
                max_state@.votes.len() == i,
                max_state@.epoch_credits.len() == 0,
            decreases MAX_LOCKOUT_HISTORY - i,
        {
            max_state.votes.push(Lockout::default());
            i = i + 1;
        }
        max_state.root_slot = Some(u64::MAX);
        let mut j: usize = 0;
        while j < MAX_EPOCH_CREDITS_HISTORY
            invariant
                0 <= j <= MAX_EPOCH_CREDITS_HISTORY,
                max_state@.votes.len() == MAX_LOCKOUT_HISTORY,
                max_state@.root_slot is Some,
                max_state@.epoch_credits.len() == j,
            decreases MAX_EPOCH_CREDITS_HISTORY - j,
        {
            max_state.epoch_credits.push((0, 0, 0));
            j = j + 1;
        }
        let bytes = max_state.to_bytes();
        proof {
            lemma_serialized_len(max_state@);
        }
        bytes.len()
    }

    /// Any state within the tower and history bounds fits in `size_of`
    /// bytes.
    pub proof fn lemma_serialized_fits(v: VoteStateView)
        requires
            v.votes.len() <= MAX_LOCKOUT_HISTORY,
            v.epoch_credits.len() <= MAX_EPOCH_CREDITS_HISTORY,
        ensures
            spec_serialize(v).len() <= 2022,
    {
        lemma_serialized_len(v);
    }

    /// Reads a state out of an account's data.
    pub fn from(account: &Account) -> (r: Option<VoteState>)
        ensures
            (r is Some) <==> (spec_deserialize(account.data@) is Some),
            r matches Some(v) ==> spec_deserialize(account.data@) == Some(v@),
    {
        match Self::deserialize(account.data.as_slice()) {
            Ok(v) => Some(v),
            Err(_) => None,
        }
    }

    /// Writes this state into an account's data.
    pub fn to(&self, account: &mut Account) -> (r: Option<()>)
        ensures
            spec_serialize(self@).len() <= old(account).data@.len() ==> r == Some(())
                && final(account).data@ == spec_serialize(self@) + old(account).data@.skip(
                spec_serialize(self@).len() as int,
            ),
            spec_serialize(self@).len() > old(account).data@.len() ==> r == None::<()> && final(account).data@
                == old(account).data@,
            final(account).lamports == old(account).lamports,
            final(account).owner == old(account).owner,
    {
        match self.serialize(&mut account.data) {
            Ok(()) => Some(()),
            Err(_) => None,
        }
    }

    /// Reads just the credit counter out of an account's data.
    pub fn credits_from(account: &Account) -> (r: Option<u64>)
        ensures
            (r is Some) <==> (spec_deserialize(account.data@) is Some),
            r matches Some(c) ==> spec_deserialize(account.data@) matches Some(v) && c
                == v.credits,
    {
        match Self::from(account) {
            Some(state) => Some(state.credits()),
            None => None,
        }
    }
}

impl KeyedAccount {
    /// The vote state held in this account's data.
    pub fn state(&self) -> (r: Result<VoteState, InstructionError>)
        ensures
            (r is Ok) <==> (spec_deserialize(self.account.data@) is Some),
            r matches Ok(v) ==> spec_deserialize(self.account.data@) == Some(v@),
            r is Err ==> r == Err::<VoteState, InstructionError>(
                InstructionError::InvalidAccountData,
            ),
    {
        VoteState::deserialize(self.account.data.as_slice())
    }

    /// Writes a vote state into this account's data.
    pub fn set_state(&mut self, state: &VoteState) -> (r: Result<(), InstructionError>)
        ensures
            spec_serialize(state@).len() <= old(self).account.data@.len() ==> r == Ok::<(),
            InstructionError>(()) && final(self).account.data@ == spec_serialize(state@)
                + old(self).account.data@.skip(spec_serialize(state@).len() as int),
            spec_serialize(state@).len() > old(self).account.data@.len() ==> r == Err::<(),
            InstructionError>(InstructionError::AccountDataTooSmall) && final(self).account.data@
                == old(self).account.data@,
            final(self).key == old(self).key,
            final(self).is_signer == old(self).is_signer,
            final(self).account.lamports == old(self).account.lamports,
            final(self).account.owner == old(self).account.owner,
    {
        state.serialize(&mut self.account.data)
    }
}

} // verus!
