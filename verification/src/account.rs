//! The slice of the account model that the vote program touches: lamport
//! balances, a byte buffer for state, and the signer flag of a transaction
//! key.

use crate::keys::Pubkey;
use vstd::prelude::*;

verus! {

/// Why a vote instruction was rejected.
#[derive(Clone, Copy, Debug, PartialEq, Eq, Structural)]
pub enum InstructionError {
    GenericError,
    MissingRequiredSignature,
    AccountAlreadyInitialized,
    UninitializedAccount,
    AccountDataTooSmall,
    InvalidAccountData,
    InsufficientFunds,
}

/// An account: a balance, a state buffer, and the program that owns it.
#[derive(Debug, Clone)]
pub struct Account {
    pub lamports: u64,
    pub data: Vec<u8>,
    pub owner: Pubkey,
}

impl Account {
    /// A fresh account with `space` zeroed bytes of state.
    pub fn new(lamports: u64, space: usize, owner: &Pubkey) -> (r: Self)
        ensures
            r.lamports == lamports,
            r.data@ == Seq::new(space as nat, |i: int| 0u8),
            r.owner == *owner,
    {
        let data = vec![0u8; space];
        proof {
            assert(data@ =~= Seq::new(space as nat, |i: int| 0u8));
        }
        Account { lamports, data, owner: *owner }
    }

    /// An empty account.
    pub fn default() -> (r: Self)
        ensures
            r.lamports == 0,
            r.data@ == Seq::<u8>::empty(),
            r.owner == Pubkey::spec_default(),
    {
        proof {
            assert(Seq::new(0nat, |i: int| 0u8) =~= Seq::<u8>::empty());
        }
        Self::new(0, 0, &Pubkey::default())
    }
}

/// An account as an instruction sees it: its address, whether that address
/// signed the transaction, and the account itself.
#[derive(Debug)]
pub struct KeyedAccount {
    pub key: Pubkey,
    pub is_signer: bool,
    pub account: Account,
}

impl KeyedAccount {
    pub fn new(key: &Pubkey, is_signer: bool, account: Account) -> (r: Self)
        ensures
            r.key == *key,
            r.is_signer == is_signer,
            r.account == account,
    {
        KeyedAccount { key: *key, is_signer, account }
    }

    /// The address, if it signed the transaction.
    pub fn signer_key(&self) -> (r: Option<Pubkey>)
        ensures
            r == if self.is_signer {
                Some(self.key)
            } else {
                None::<Pubkey>
            },
    {
        if self.is_signer {
            Some(self.key)
        } else {
            None
        }
    }

    /// The address, without regard to the signer flag.
    pub fn unsigned_key(&self) -> (r: Pubkey)
        ensures
            r == self.key,
    {
        self.key
    }
}

} // verus!
