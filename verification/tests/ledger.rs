//! End-to-end tests of the ledger core: the processor's five transaction
//! kinds, the error taxonomy, and the documented scenario.

use cryptocurrency::schema::{CurrencySchema, TimestampEntry};
use cryptocurrency::transactions::{process, selection_probe_data, Error, WalletTransactions};
use cryptocurrency::{CurrencyService, ServiceFactory, INITIAL_BALANCE, RING_SIGNATURE_ID,
    SERVICE_NAME};

fn key(b: u8) -> Vec<u8> {
    vec![b; 32]
}

fn txref(b: u8) -> Vec<u8> {
    vec![b; 32]
}

fn create(schema: &mut CurrencySchema, k: &[u8], name: &str, h: u8, t: i64) -> Option<Result<(), Error>> {
    let tx = WalletTransactions::CreateWallet { pub_key: k.to_vec(), name: name.to_string() };
    process(schema, &tx, true, &txref(h), Some(t))
}

fn transfer(
    schema: &mut CurrencySchema,
    from: &[u8],
    to: &[u8],
    amount: u64,
    h: u8,
    t: i64,
) -> Option<Result<(), Error>> {
    let tx = WalletTransactions::Vote { from: from.to_vec(), to: to.to_vec(), amount, seed: 0 };
    process(schema, &tx, true, &txref(h), Some(t))
}

#[test]
fn create_transfer_scenario() {
    // Create A and B (initial balance 1 each), transfer 1 from A to B, then
    // try the same transfer again: the second one must fail with
    // InsufficientCurrencyAmount and change nothing.
    let mut schema = CurrencySchema::new();
    let a = key(1);
    let b = key(2);
    assert_eq!(create(&mut schema, &a, "alice", 10, 100), Some(Ok(())));
    assert_eq!(create(&mut schema, &b, "bob", 11, 101), Some(Ok(())));
    assert_eq!(schema.wallet(&a).unwrap().balance(), INITIAL_BALANCE);
    assert_eq!(schema.wallet(&b).unwrap().balance(), INITIAL_BALANCE);

    assert_eq!(transfer(&mut schema, &a, &b, 1, 12, 102), Some(Ok(())));
    assert_eq!(schema.wallet(&a).unwrap().balance(), 0);
    assert_eq!(schema.wallet(&b).unwrap().balance(), 2);
    assert_eq!(schema.wallet(&a).unwrap().history_len(), 2);
    assert_eq!(schema.wallet(&b).unwrap().history_len(), 2);

    let before = schema.state_hash();
    assert_eq!(
        transfer(&mut schema, &a, &b, 1, 13, 103),
        Some(Err(Error::InsufficientCurrencyAmount))
    );
    assert_eq!(schema.wallet(&a).unwrap().balance(), 0);
    assert_eq!(schema.wallet(&b).unwrap().balance(), 2);
    assert_eq!(schema.wallet(&a).unwrap().history_len(), 2);
    assert_eq!(schema.wallet(&b).unwrap().history_len(), 2);
    assert_eq!(schema.state_hash(), before);
}

#[test]
fn conservation_of_balances() {
    let mut schema = CurrencySchema::new();
    let a = key(1);
    let b = key(2);
    create(&mut schema, &a, "alice", 10, 100).unwrap().unwrap();
    create(&mut schema, &b, "bob", 11, 101).unwrap().unwrap();
    let sum_before = schema.wallet(&a).unwrap().balance() + schema.wallet(&b).unwrap().balance();
    transfer(&mut schema, &a, &b, 1, 12, 102).unwrap().unwrap();
    let sum_after = schema.wallet(&a).unwrap().balance() + schema.wallet(&b).unwrap().balance();
    assert_eq!(sum_before, sum_after);
}

#[test]
fn idempotent_creation() {
    let mut schema = CurrencySchema::new();
    let a = key(7);
    assert_eq!(create(&mut schema, &a, "alice", 10, 100), Some(Ok(())));
    let root_before = schema.state_hash();
    let balance_before = schema.wallet(&a).unwrap().balance();
    let len_before = schema.wallet(&a).unwrap().history_len();
    assert_eq!(
        create(&mut schema, &a, "alice-again", 11, 101),
        Some(Err(Error::WalletAlreadyExists))
    );
    assert_eq!(schema.state_hash(), root_before);
    assert_eq!(schema.wallet(&a).unwrap().balance(), balance_before);
    assert_eq!(schema.wallet(&a).unwrap().history_len(), len_before);
}

#[test]
fn self_transfer_rejected() {
    let mut schema = CurrencySchema::new();
    let a = key(3);
    create(&mut schema, &a, "alice", 10, 100).unwrap().unwrap();
    let before = schema.state_hash();
    // A transfer whose endpoints coincide fails verify: not applied, no
    // error code recorded.
    assert_eq!(transfer(&mut schema, &a, &a, 1, 11, 101), None);
    assert_eq!(schema.state_hash(), before);
    assert_eq!(schema.wallet(&a).unwrap().balance(), INITIAL_BALANCE);
    assert_eq!(schema.wallet(&a).unwrap().history_len(), 1);
}

#[test]
fn bad_signature_rejected() {
    let mut schema = CurrencySchema::new();
    let a = key(3);
    let tx = WalletTransactions::CreateWallet { pub_key: a.clone(), name: "alice".to_string() };
    assert_eq!(process(&mut schema, &tx, false, &txref(10), Some(100)), None);
    assert!(schema.wallet(&a).is_none());
}

#[test]
fn sender_not_found() {
    let mut schema = CurrencySchema::new();
    let a = key(1);
    let b = key(2);
    create(&mut schema, &b, "bob", 10, 100).unwrap().unwrap();
    assert_eq!(transfer(&mut schema, &a, &b, 1, 11, 101), Some(Err(Error::SenderNotFound)));
}

#[test]
fn receiver_not_found() {
    let mut schema = CurrencySchema::new();
    let a = key(1);
    let b = key(2);
    create(&mut schema, &a, "alice", 10, 100).unwrap().unwrap();
    assert_eq!(transfer(&mut schema, &a, &b, 1, 11, 101), Some(Err(Error::ReceiverNotFound)));
}

#[test]
fn time_unavailable_fails_cleanly() {
    let mut schema = CurrencySchema::new();
    let a = key(1);
    let b = key(2);
    let tx = WalletTransactions::CreateWallet { pub_key: a.clone(), name: "alice".to_string() };
    assert_eq!(process(&mut schema, &tx, true, &txref(10), None), Some(Err(Error::TimeUnavailable)));
    assert!(schema.wallet(&a).is_none());

    create(&mut schema, &a, "alice", 11, 100).unwrap().unwrap();
    create(&mut schema, &b, "bob", 12, 101).unwrap().unwrap();
    let tx = WalletTransactions::Vote { from: a.clone(), to: b.clone(), amount: 1, seed: 0 };
    assert_eq!(process(&mut schema, &tx, true, &txref(13), None), Some(Err(Error::TimeUnavailable)));
    assert_eq!(schema.wallet(&a).unwrap().balance(), INITIAL_BALANCE);
    assert_eq!(schema.wallet(&a).unwrap().history_len(), 1);
}

#[test]
fn timestamp_write_once() {
    let mut schema = CurrencySchema::new();
    let h = txref(10);
    schema.add_timestamp(TimestampEntry::new(&h, 100));
    assert_eq!(schema.timestamps().get(&h), Some(&100));
    // Inserting under a reference already present is a silent no-op.
    schema.add_timestamp(TimestampEntry::new(&h, 200));
    assert_eq!(schema.timestamps().get(&h), Some(&100));
}

#[test]
fn transactions_record_timestamps() {
    let mut schema = CurrencySchema::new();
    let a = key(1);
    create(&mut schema, &a, "alice", 10, 321).unwrap().unwrap();
    assert_eq!(schema.timestamps().get(&txref(10)), Some(&321));
}

#[test]
fn history_references_transactions() {
    let mut schema = CurrencySchema::new();
    let a = key(1);
    let b = key(2);
    create(&mut schema, &a, "alice", 10, 100).unwrap().unwrap();
    create(&mut schema, &b, "bob", 11, 101).unwrap().unwrap();
    transfer(&mut schema, &a, &b, 1, 12, 102).unwrap().unwrap();
    let history = schema.wallet_history(&a);
    assert_eq!(history, vec![txref(10), txref(12)]);
    let history_b = schema.wallet_history(&b);
    assert_eq!(history_b, vec![txref(11), txref(12)]);
}

#[test]
fn replay_produces_identical_roots() {
    let run = || {
        let mut schema = CurrencySchema::new();
        let a = key(1);
        let b = key(2);
        create(&mut schema, &a, "alice", 10, 100).unwrap().unwrap();
        create(&mut schema, &b, "bob", 11, 101).unwrap().unwrap();
        transfer(&mut schema, &a, &b, 1, 12, 102).unwrap().unwrap();
        (schema.state_hash(), schema.wallet(&a).unwrap().history_hash().clone())
    };
    assert_eq!(run(), run());
}

#[test]
fn registries_and_probe() {
    let mut schema = CurrencySchema::new();
    let a = key(1);
    let b = key(2);
    let tx = WalletTransactions::SetVoterList { pub_key: a.clone(), seed: 0 };
    assert_eq!(process(&mut schema, &tx, true, &txref(10), Some(100)), Some(Ok(())));
    let tx = WalletTransactions::SetVoterList { pub_key: b.clone(), seed: 1 };
    assert_eq!(process(&mut schema, &tx, true, &txref(11), Some(101)), Some(Ok(())));
    assert_eq!(schema.voters_list().get(&a), Some(&a));
    assert_eq!(schema.voters_list().len(), 2);

    let tx = WalletTransactions::AddCandidate { pub_key: a.clone(), seed: 2 };
    assert_eq!(process(&mut schema, &tx, true, &txref(12), Some(102)), Some(Ok(())));
    assert_eq!(schema.candidates_list().get(&a), Some(&a));

    assert_eq!(selection_probe_data(&schema), vec![0u64, 1u64]);

    // The selection probe persists nothing.
    let before = (schema.state_hash(), schema.state_hash_voters_list(), schema.state_hash_timestamps());
    let tx = WalletTransactions::RingSignature { from: a.clone(), seed: 3 };
    assert_eq!(process(&mut schema, &tx, true, &txref(13), Some(103)), Some(Ok(())));
    let after = (schema.state_hash(), schema.state_hash_voters_list(), schema.state_hash_timestamps());
    assert_eq!(before, after);
}

#[test]
fn roots_are_digests_and_depend_on_state() {
    let mut schema = CurrencySchema::new();
    let empty_root = schema.state_hash();
    assert_eq!(empty_root.len(), 4);
    for digest in &empty_root {
        assert_eq!(digest.len(), 32);
    }
    let a = key(1);
    create(&mut schema, &a, "alice", 10, 100).unwrap().unwrap();
    let one_root = schema.state_hash();
    assert_eq!(one_root[0].len(), 32);
    assert_ne!(empty_root[0], one_root[0]);
    // Creating an account touches the account store and the timestamps, not
    // the registries.
    assert_eq!(empty_root[1], one_root[1]);
    assert_ne!(empty_root[2], one_root[2]);
    assert_eq!(empty_root[3], one_root[3]);
    assert_eq!(schema.state_hash_timestamps()[0].len(), 32);
    assert_eq!(schema.state_hash_voters_list()[0].len(), 32);
}

#[test]
fn failing_transfer_checks_precede_writes() {
    // Even called directly, a transfer that fails a check writes nothing —
    // here a self-transfer short of funds.
    let mut schema = CurrencySchema::new();
    let a = key(1);
    create(&mut schema, &a, "alice", 10, 100).unwrap().unwrap();
    let before = schema.state_hash();
    let tx = WalletTransactions::Vote { from: a.clone(), to: a.clone(), amount: 5, seed: 0 };
    assert_eq!(
        tx.execute(&mut schema, &txref(11), Some(101)),
        Err(Error::InsufficientCurrencyAmount)
    );
    assert_eq!(schema.state_hash(), before);
}

#[test]
fn state_commitment_independent_of_build_order() {
    // Two replicas that reach the same final mapping — here by creating the
    // same accounts in opposite orders, each with its own transaction
    // reference and time — agree on every root digest.
    let a = key(1);
    let b = key(2);
    let mut first = CurrencySchema::new();
    create(&mut first, &a, "alice", 10, 100).unwrap().unwrap();
    create(&mut first, &b, "bob", 11, 101).unwrap().unwrap();
    let mut second = CurrencySchema::new();
    create(&mut second, &b, "bob", 11, 101).unwrap().unwrap();
    create(&mut second, &a, "alice", 10, 100).unwrap().unwrap();
    assert_eq!(first.state_hash(), second.state_hash());
}

#[test]
fn error_codes_and_descriptions() {
    assert_eq!(Error::WalletAlreadyExists.code(), 0);
    assert_eq!(Error::SenderNotFound.code(), 1);
    assert_eq!(Error::ReceiverNotFound.code(), 2);
    assert_eq!(Error::InsufficientCurrencyAmount.code(), 3);
    assert_eq!(Error::TimeUnavailable.code(), 4);
    assert_eq!(Error::WalletAlreadyExists.description(), "Wallet already exists");
    assert_eq!(Error::SenderNotFound.description(), "Sender doesn't exist");
    assert_eq!(Error::ReceiverNotFound.description(), "Receiver doesn't exist");
    assert_eq!(Error::InsufficientCurrencyAmount.description(), "Insufficient currency amount");
    assert_eq!(Error::TimeUnavailable.description(), "Time is unavailable");
}

#[test]
fn transaction_log_stores_payloads() {
    let mut schema = CurrencySchema::new();
    let h = txref(10);
    schema.record_transaction(&h, vec![1, 2, 3]);
    assert_eq!(schema.transactions().get(&h), Some(&vec![1, 2, 3]));
    schema.record_transaction(&h, vec![4, 5]);
    assert_eq!(schema.transactions().get(&h), Some(&vec![4, 5]));
}

#[test]
fn service_identity() {
    let service = CurrencyService;
    assert_eq!(service.service_name(), SERVICE_NAME);
    assert_eq!(service.service_id(), RING_SIGNATURE_ID);
    let schema = CurrencySchema::new();
    assert_eq!(service.state_hash(&schema), schema.state_hash());
    let mut factory = ServiceFactory;
    assert_eq!(factory.make_service().service_name(), "cryptocurrency");
}

#[test]
fn wallet_name_kept_at_creation() {
    let mut schema = CurrencySchema::new();
    let a = key(1);
    create(&mut schema, &a, "alice", 10, 100).unwrap().unwrap();
    assert_eq!(schema.wallet(&a).unwrap().name(), "alice");
    assert_eq!(schema.wallet(&a).unwrap().pub_key(), &a);
}
