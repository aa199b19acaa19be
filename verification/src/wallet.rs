//! The account record: identifier, display name, balance and the metadata
//! authenticating its history sequence.

use vstd::prelude::*;
use vstd::string::StringSliceAdditionalSpecFns;
use vstd::utf8::encode_utf8;
use crate::bytes::{copy_bytes, push_all, u64_to_le, le_bytes};

verus! {

/// Mathematical model of an account record.
#[verifier::ext_equal]
pub ghost struct WalletV {
    /// Identifier: the owner's public key.
    pub pub_key: Seq<u8>,
    /// Display name, set once at creation.
    pub name: Seq<char>,
    /// Balance, never negative by construction.
    pub balance: u64,
    /// Number of entries in this account's history sequence.
    pub history_len: u64,
    /// Root digest of this account's history sequence.
    pub history_hash: Seq<u8>,
}

/// An account record.
pub struct Wallet {
    pub pub_key: Vec<u8>,
    pub name: String,
    pub balance: u64,
    pub history_len: u64,
    pub history_hash: Vec<u8>,
}

impl View for Wallet {
    type V = WalletV;

    open spec fn view(&self) -> WalletV {
        WalletV {
            pub_key: self.pub_key@,
            name: self.name@,
            balance: self.balance,
            history_len: self.history_len,
            history_hash: self.history_hash@,
        }
    }
}

impl Wallet {
    /// A fresh record with the given fields.
    pub fn new(
        pub_key: &Vec<u8>,
        name: &str,
        balance: u64,
        history_len: u64,
        history_hash: &Vec<u8>,
    ) -> (r: Wallet)
        ensures
            r@ == (WalletV {
                pub_key: pub_key@,
                name: name@,
                balance: balance,
                history_len: history_len,
                history_hash: history_hash@,
            }),
    {
        Wallet {
            pub_key: copy_bytes(pub_key),
            name: name.to_owned(),
            balance,
            history_len,
            history_hash: copy_bytes(history_hash),
        }
    }

    /// The owner's public key.
    pub fn pub_key(&self) -> (r: &Vec<u8>)
        ensures
            r@ == self@.pub_key,
    {
        &self.pub_key
    }

    /// The display name.
    pub fn name(&self) -> (r: &str)
        ensures
            r@ == self@.name,
    {
        self.name.as_str()
    }

    /// The current balance.
    pub fn balance(&self) -> (r: u64)
        ensures
            r == self@.balance,
    {
        self.balance
    }

    /// The current history length.
    pub fn history_len(&self) -> (r: u64)
        ensures
            r == self@.history_len,
    {
        self.history_len
    }

    /// The current history root digest.
    pub fn history_hash(&self) -> (r: &Vec<u8>)
        ensures
            r@ == self@.history_hash,
    {
        &self.history_hash
    }

    /// The record after one balance mutation: the new balance and history
    /// root, with the history length advanced by the one entry just appended.
    pub fn set_balance(self, balance: u64, history_hash: &Vec<u8>) -> (r: Wallet)
        requires
            self@.history_len < u64::MAX,
        ensures
            r@ == (WalletV {
                balance: balance,
                history_len: (self@.history_len + 1) as u64,
                history_hash: history_hash@,
                ..self@
            }),
    {
        Wallet {
            pub_key: self.pub_key,
            name: self.name,
            balance,
            history_len: self.history_len + 1,
            history_hash: copy_bytes(history_hash),
        }
    }

    /// An owned copy of the record.
    pub fn duplicate(&self) -> (r: Wallet)
        ensures
            r@ == self@,
    {
        Wallet {
            pub_key: copy_bytes(&self.pub_key),
            name: self.name.clone(),
            balance: self.balance,
            history_len: self.history_len,
            history_hash: copy_bytes(&self.history_hash),
        }
    }
}

/// Digest preimage of an account record: its name's UTF-8 bytes, balance and
/// history length in little-endian, and the history root digest.
pub open spec fn wallet_leaf(w: WalletV) -> Seq<u8> {
    encode_utf8(w.name) + le_bytes(w.balance as nat, 8) + le_bytes(w.history_len as nat, 8)
        + w.history_hash
}

/// Serialises an account record into its digest preimage.
pub fn wallet_encode(w: &Wallet) -> (r: Vec<u8>)
    ensures
        r@ == wallet_leaf(w@),
{
    let mut r = vstd::slice::slice_to_vec(w.name.as_str().as_bytes());
    proof {
        assert(r@ == encode_utf8(w@.name));
    }
    let b = u64_to_le(w.balance);
    push_all(&mut r, &b);
    let l = u64_to_le(w.history_len);
    push_all(&mut r, &l);
    push_all(&mut r, &w.history_hash);
    proof {
        assert(r@ =~= wallet_leaf(w@));
    }
    r
}

} // verus!
