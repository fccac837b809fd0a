//! Identity keys and state digests: opaque 32-byte values, held as four
//! 64-bit words; keys are ordered by comparing the words from first to
//! last.

use vstd::prelude::*;

verus! {

/// A node identity or account address: a 32-byte public key.
#[derive(Clone, Copy, Debug, PartialEq, Eq, Structural, Hash)]
pub struct Pubkey {
    pub w0: u64,
    pub w1: u64,
    pub w2: u64,
    pub w3: u64,
}

impl Pubkey {
    /// The all-zero key, used as the "unset" marker for authorized voters.
    pub fn default() -> (r: Self)
        ensures
            r == Self::spec_default(),
    {
        Pubkey { w0: 0, w1: 0, w2: 0, w3: 0 }
    }

    pub open spec fn spec_default() -> Self {
        Pubkey { w0: 0, w1: 0, w2: 0, w3: 0 }
    }

    /// Lexicographic order on the key's words.
    pub open spec fn spec_lt(self, other: Self) -> bool {
        ||| self.w0 < other.w0
        ||| (self.w0 == other.w0 && self.w1 < other.w1)
        ||| (self.w0 == other.w0 && self.w1 == other.w1 && self.w2 < other.w2)
        ||| (self.w0 == other.w0 && self.w1 == other.w1 && self.w2 == other.w2
            && self.w3 < other.w3)
    }

    /// Decides the order `self < other`.
    pub fn lt(&self, other: &Self) -> (r: bool)
        ensures
            r == self.spec_lt(*other),
    {
        if self.w0 != other.w0 {
            self.w0 < other.w0
        } else if self.w1 != other.w1 {
            self.w1 < other.w1
        } else if self.w2 != other.w2 {
            self.w2 < other.w2
        } else {
            self.w3 < other.w3
        }
    }
}

/// A digest of the ledger state at some slot: an opaque 32-byte value.
#[derive(Clone, Copy, Debug, PartialEq, Eq, Structural, Hash)]
pub struct StateHash {
    pub w0: u64,
    pub w1: u64,
    pub w2: u64,
    pub w3: u64,
}

impl StateHash {
    pub fn default() -> (r: Self)
        ensures
            r == Self::spec_default(),
    {
        StateHash { w0: 0, w1: 0, w2: 0, w3: 0 }
    }

    pub open spec fn spec_default() -> Self {
        StateHash { w0: 0, w1: 0, w2: 0, w3: 0 }
    }
}

} // verus!
