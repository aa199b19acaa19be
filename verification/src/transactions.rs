//! The transaction processor: five transaction kinds, each with a `verify`
//! predicate and an `execute` transition, proved to implement the spec-level
//! transition function `step`. `verify` failures reject a transaction before
//! any mutation; `execute` validates every failure condition before writing,
//! so a failed transition leaves the schema exactly as it was.

use vstd::prelude::*;
use crate::bytes::bytes_eq;
use crate::digest::seq_root;
use crate::history::hist_of;
use crate::schema::{CurrencySchema, SchemaV, TimestampEntry, apply_balance, create_post,
    ts_put_if_absent};
use crate::store::{has_key, value_of, entries_put, lemma_put_other};
use crate::wallet::WalletV;

verus! {

/// Error codes emitted by wallet transactions during execution.
#[derive(Debug, Clone, Copy, PartialEq, Eq)]
pub enum Error {
    /// Wallet already exists. Can be emitted by `CreateWallet`.
    WalletAlreadyExists,
    /// Sender doesn't exist. Can be emitted by `Vote`.
    SenderNotFound,
    /// Receiver doesn't exist. Can be emitted by `Vote`.
    ReceiverNotFound,
    /// Insufficient currency amount. Can be emitted by `Vote`.
    InsufficientCurrencyAmount,
    /// The clock oracle has no value yet.
    TimeUnavailable,
}

/// Numeric code of an error, as carried in a block's result log.
pub open spec fn error_code(e: Error) -> u8 {
    match e {
        Error::WalletAlreadyExists => 0,
        Error::SenderNotFound => 1,
        Error::ReceiverNotFound => 2,
        Error::InsufficientCurrencyAmount => 3,
        Error::TimeUnavailable => 4,
    }
}

impl Error {
    /// The error's numeric code.
    pub fn code(&self) -> (r: u8)
        ensures
            r == error_code(*self),
    {
        match self {
            Error::WalletAlreadyExists => 0,
            Error::SenderNotFound => 1,
            Error::ReceiverNotFound => 2,
            Error::InsufficientCurrencyAmount => 3,
            Error::TimeUnavailable => 4,
        }
    }

    /// A human-readable description of the error.
    pub fn description(&self) -> (r: String)
        ensures
            r@ == match *self {
                Error::WalletAlreadyExists => "Wallet already exists"@,
                Error::SenderNotFound => "Sender doesn't exist"@,
                Error::ReceiverNotFound => "Receiver doesn't exist"@,
                Error::InsufficientCurrencyAmount => "Insufficient currency amount"@,
                Error::TimeUnavailable => "Time is unavailable"@,
            },
    {
        match self {
            Error::WalletAlreadyExists => "Wallet already exists".to_owned(),
            Error::SenderNotFound => "Sender doesn't exist".to_owned(),
            Error::ReceiverNotFound => "Receiver doesn't exist".to_owned(),
            Error::InsufficientCurrencyAmount => "Insufficient currency amount".to_owned(),
            Error::TimeUnavailable => "Time is unavailable".to_owned(),
        }
    }
}

/// The five transaction kinds of the wallet service.
pub enum WalletTransactions {
    /// Transfer `amount` of the currency from one wallet to another.
    Vote { from: Vec<u8>, to: Vec<u8>, amount: u64, seed: u64 },
    /// Create a wallet with the given `name`.
    CreateWallet { pub_key: Vec<u8>, name: String },
    /// Selection probe over the voter registry; no durable effect.
    RingSignature { from: Vec<u8>, seed: u64 },
    /// Register an account as candidate.
    AddCandidate { pub_key: Vec<u8>, seed: u64 },
    /// Register an account as voter.
    SetVoterList { pub_key: Vec<u8>, seed: u64 },
}

/// Mathematical model of a transaction.
pub ghost enum TxV {
    Vote { from: Seq<u8>, to: Seq<u8>, amount: u64, seed: u64 },
    CreateWallet { pub_key: Seq<u8>, name: Seq<char> },
    RingSignature { from: Seq<u8>, seed: u64 },
    AddCandidate { pub_key: Seq<u8>, seed: u64 },
    SetVoterList { pub_key: Seq<u8>, seed: u64 },
}

impl View for WalletTransactions {
    type V = TxV;

    open spec fn view(&self) -> TxV {
        match *self {
            WalletTransactions::Vote { from, to, amount, seed } => TxV::Vote {
                from: from@,
                to: to@,
                amount: amount,
                seed: seed,
            },
            WalletTransactions::CreateWallet { pub_key, name } => TxV::CreateWallet {
                pub_key: pub_key@,
                name: name@,
            },
            WalletTransactions::RingSignature { from, seed } => TxV::RingSignature {
                from: from@,
                seed: seed,
            },
            WalletTransactions::AddCandidate { pub_key, seed } => TxV::AddCandidate {
                pub_key: pub_key@,
                seed: seed,
            },
            WalletTransactions::SetVoterList { pub_key, seed } => TxV::SetVoterList {
                pub_key: pub_key@,
                seed: seed,
            },
        }
    }
}

/// `verify`: pure admission predicate. A transfer between identical
/// accounts never verifies; every kind requires a valid signature by its
/// author, whose outcome the envelope layer supplies.
pub open spec fn verify_spec(tx: TxV, signature_valid: bool) -> bool {
    match tx {
        TxV::Vote { from, to, .. } => from != to && signature_valid,
        _ => signature_valid,
    }
}

/// A transfer's structural precondition: distinct endpoints. Guaranteed by
/// `verify`, which the processor runs before `execute`.
pub open spec fn tx_wf(tx: TxV) -> bool {
    match tx {
        TxV::Vote { from, to, .. } => from != to,
        _ => true,
    }
}

/// What `execute` itself needs of the endpoints: only a transfer that would
/// pass every failure check must have distinct endpoints; one that fails is
/// rejected without any write whatever its endpoints.
pub open spec fn distinct_on_success(s: SchemaV, tx: TxV, time: Option<i64>) -> bool {
    match tx {
        TxV::Vote { from, to, amount, .. } => vote_ok(s, from, to, amount, time) ==> from != to,
        _ => true,
    }
}

/// All failure conditions of a transfer have been passed.
pub open spec fn vote_ok(s: SchemaV, from: Seq<u8>, to: Seq<u8>, amount: u64, time: Option<
    i64,
>) -> bool {
    &&& has_key(s.wallets, from)
    &&& has_key(s.wallets, to)
    &&& value_of(s.wallets, from).balance >= amount
    &&& time is Some
}

/// The machine limit on a transfer: crediting the receiver must not exceed
/// the balance type's range.
pub open spec fn no_overflow(s: SchemaV, tx: TxV, time: Option<i64>) -> bool {
    match tx {
        TxV::Vote { from, to, amount, .. } => vote_ok(s, from, to, amount, time) ==> value_of(
            s.wallets,
            to,
        ).balance + amount <= u64::MAX,
        _ => true,
    }
}

/// The state-transition function: what `execute` does to the schema and
/// which result it returns, for every transaction kind. On an error the
/// schema is returned unchanged: no partial effect.
pub open spec fn step(s: SchemaV, tx: TxV, txh: Seq<u8>, time: Option<i64>) -> (SchemaV, Result<
    (),
    Error,
>) {
    match tx {
        TxV::Vote { from, to, amount, .. } => {
            if !has_key(s.wallets, from) {
                (s, Err(Error::SenderNotFound))
            } else if !has_key(s.wallets, to) {
                (s, Err(Error::ReceiverNotFound))
            } else if value_of(s.wallets, from).balance < amount {
                (s, Err(Error::InsufficientCurrencyAmount))
            } else {
                match time {
                    None => (s, Err(Error::TimeUnavailable)),
                    Some(t) => {
                        let sb = value_of(s.wallets, from).balance;
                        let rb = value_of(s.wallets, to).balance;
                        let s1 = apply_balance(s, from, (sb - amount) as u64, txh);
                        let s2 = apply_balance(s1, to, (rb + amount) as u64, txh);
                        (
                            SchemaV { timestamps: ts_put_if_absent(s2.timestamps, txh, t), ..s2 },
                            Ok(()),
                        )
                    },
                }
            }
        },
        TxV::CreateWallet { pub_key, name } => {
            if has_key(s.wallets, pub_key) {
                (s, Err(Error::WalletAlreadyExists))
            } else {
                match time {
                    None => (s, Err(Error::TimeUnavailable)),
                    Some(t) => {
                        let s1 = create_post(s, pub_key, name, txh);
                        (
                            SchemaV { timestamps: ts_put_if_absent(s1.timestamps, txh, t), ..s1 },
                            Ok(()),
                        )
                    },
                }
            }
        },
        TxV::RingSignature { .. } => (s, Ok(())),
        TxV::AddCandidate { pub_key, .. } => (
            SchemaV { candidates: entries_put(s.candidates, pub_key, pub_key), ..s },
            Ok(()),
        ),
        TxV::SetVoterList { pub_key, .. } => (
            SchemaV { voters: entries_put(s.voters, pub_key, pub_key), ..s },
            Ok(()),
        ),
    }
}

/// The processor's control flow: `verify` first; a transaction that fails it
/// is not applied and no error code is recorded (`None`); otherwise the
/// transition runs.
pub open spec fn process_step(
    s: SchemaV,
    tx: TxV,
    signature_valid: bool,
    txh: Seq<u8>,
    time: Option<i64>,
) -> (SchemaV, Option<Result<(), Error>>) {
    if !verify_spec(tx, signature_valid) {
        (s, None)
    } else {
        let sr = step(s, tx, txh, time);
        (sr.0, Some(sr.1))
    }
}

/// The in-memory index sequence the selection probe signs: one index per
/// registered voter, sized to the live registry length.
pub fn selection_probe_data(schema: &CurrencySchema) -> (r: Vec<u64>)
    requires
        schema.wf(),
    ensures
        r@.len() == schema@.voters.len(),
        forall|i: int| 0 <= i < r@.len() ==> r@[i] == i,
{
    let n = schema.voters_list().len();
    let mut r: Vec<u64> = Vec::new();
    let mut i: usize = 0;
    while i < n
        invariant
            i <= n,
            n == schema@.voters.len(),
            r@.len() == i,
            forall|j: int| 0 <= j < i ==> r@[j] == j,
        decreases n - i,
    {
        r.push(i as u64);
        i = i + 1;
    }
    r
}

impl WalletTransactions {
    /// Whether the transaction is admissible, given the envelope layer's
    /// signature-check outcome.
    pub fn verify(&self, signature_valid: bool) -> (r: bool)
        ensures
            r == verify_spec(self@, signature_valid),
    {
        match self {
            WalletTransactions::Vote { from, to, .. } => !bytes_eq(from, to) && signature_valid,
            _ => signature_valid,
        }
    }

    /// Applies the transaction to the schema: all described mutations, or an
    /// error and none of them.
    pub fn execute(&self, schema: &mut CurrencySchema, tx_hash: &Vec<u8>, time: Option<i64>) -> (r:
        Result<(), Error>)
        requires
            old(schema).wf(),
            distinct_on_success(old(schema)@, self@, time),
            no_overflow(old(schema)@, self@, time),
        ensures
            final(schema).wf(),
            final(schema)@ == step(old(schema)@, self@, tx_hash@, time).0,
            r == step(old(schema)@, self@, tx_hash@, time).1,
    {
        let ghost s = old(schema)@;
        match self {
            WalletTransactions::Vote { from, to, amount, seed: _ } => {
                let sender = match schema.wallet(from) {
                    Some(w) => w,
                    None => {
                        return Err(Error::SenderNotFound);
                    },
                };
                let receiver = match schema.wallet(to) {
                    Some(w) => w,
                    None => {
                        return Err(Error::ReceiverNotFound);
                    },
                };
                if sender.balance() < *amount {
                    return Err(Error::InsufficientCurrencyAmount);
                }
                let t = match time {
                    Some(t) => t,
                    None => {
                        return Err(Error::TimeUnavailable);
                    },
                };
                let ghost sb = sender@.balance;
                proof {
                    assert(vote_ok(s, from@, to@, *amount, time));
                    assert(from@ != to@);
                }
                schema.decrease_wallet_balance(sender, *amount, tx_hash);
                proof {
                    let h = hist_of(s.histories, from@).push(tx_hash@);
                    let w = value_of(s.wallets, from@);
                    let w2 = WalletV {
                        balance: (sb - *amount) as u64,
                        history_len: (w.history_len + 1) as u64,
                        history_hash: seq_root(h),
                        ..w
                    };
                    lemma_put_other(s.wallets, from@, w2, to@);
                }
                schema.increase_wallet_balance(receiver, *amount, tx_hash);
                schema.add_timestamp(TimestampEntry::new(tx_hash, t));
                proof {
                    assert(schema@ =~= step(s, self@, tx_hash@, time).0);
                }
                Ok(())
            },
            WalletTransactions::CreateWallet { pub_key, name } => {
                match schema.wallet(pub_key) {
                    Some(_) => {
                        return Err(Error::WalletAlreadyExists);
                    },
                    None => {},
                }
                let t = match time {
                    Some(t) => t,
                    None => {
                        return Err(Error::TimeUnavailable);
                    },
                };
                schema.create_wallet(pub_key, name.as_str(), tx_hash);
                schema.add_timestamp(TimestampEntry::new(tx_hash, t));
                proof {
                    assert(schema@ =~= step(s, self@, tx_hash@, time).0);
                }
                Ok(())
            },
            WalletTransactions::RingSignature { from: _, seed: _ } => {
                // The probe enumerates the registry and signs the index
                // sequence with a fresh ephemeral key through the host's
                // crypto primitives; the signature is neither stored nor
                // returned, so no durable effect remains here.
                let _probe = selection_probe_data(schema);
                Ok(())
            },
            WalletTransactions::AddCandidate { pub_key, seed: _ } => {
                schema.append_candidate(pub_key, pub_key);
                proof {
                    assert(schema@ =~= step(s, self@, tx_hash@, time).0);
                }
                Ok(())
            },
            WalletTransactions::SetVoterList { pub_key, seed: _ } => {
                schema.append_voter(pub_key, pub_key);
                proof {
                    assert(schema@ =~= step(s, self@, tx_hash@, time).0);
                }
                Ok(())
            },
        }
    }
}

/// One full processor round: `verify`, and only where it admits the
/// transaction, `execute`. Returns `None` for a rejected transaction and
/// `Some` of the execution result otherwise.
pub fn process(
    schema: &mut CurrencySchema,
    tx: &WalletTransactions,
    signature_valid: bool,
    tx_hash: &Vec<u8>,
    time: Option<i64>,
) -> (r: Option<Result<(), Error>>)
    requires
        old(schema).wf(),
        no_overflow(old(schema)@, tx@, time),
    ensures
        final(schema).wf(),
        final(schema)@ == process_step(old(schema)@, tx@, signature_valid, tx_hash@, time).0,
        r == process_step(old(schema)@, tx@, signature_valid, tx_hash@, time).1,
{
    if !tx.verify(signature_valid) {
        return None;
    }
    proof {
        assert(distinct_on_success(old(schema)@, tx@, time));
    }
    Some(tx.execute(schema, tx_hash, time))
}

} // verus!
