//! Core of a proof-of-stake validator: epoch arithmetic, the stake-weighted
//! leader schedule with its memoizing cache, and the tower-of-votes state
//! machine that underlies consensus.

pub mod account;
pub mod bank;
pub mod blocktree;
pub mod epoch_schedule;
pub mod keys;
pub mod leader_schedule;
pub mod leader_schedule_cache;
pub mod tvu;
pub mod updater;
pub mod vote_codec;
pub mod vote_instructions;
pub mod vote_state;

pub use keys::Pubkey;
