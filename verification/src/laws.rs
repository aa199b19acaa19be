//! The library's laws, each proved against the spec-level transition
//! function: idempotent creation, balance conservation, history integrity,
//! trace-free rejection, self-transfer rejection and write-once timestamps.

use vstd::prelude::*;
use crate::digest::seq_root;
use crate::history::hist_of;
use crate::schema::{SchemaV, apply_balance, create_post, ts_put_if_absent, schema_wf};
use crate::store::{has_key, value_of, idx_of, uniq, lemma_put_same, lemma_put_other};
use crate::transactions::{TxV, Error, step, process_step, verify_spec, tx_wf};
use crate::wallet::WalletV;
use crate::INITIAL_BALANCE;

verus! {

/// Sum of all stored balances.
pub open spec fn total_balance(s: Seq<(Seq<u8>, WalletV)>) -> int
    decreases s.len(),
{
    if s.len() == 0 {
        0
    } else {
        total_balance(s.drop_last()) + s.last().1.balance
    }
}

/// Replacing one entry changes the sum by exactly the balance difference.
pub proof fn lemma_total_update(s: Seq<(Seq<u8>, WalletV)>, i: int, e: (Seq<u8>, WalletV))
    requires
        0 <= i < s.len(),
    ensures
        total_balance(s.update(i, e)) == total_balance(s) - s[i].1.balance + e.1.balance,
    decreases s.len(),
{
    if i == s.len() - 1 {
        assert(s.update(i, e).drop_last() =~= s.drop_last());
        assert(s.update(i, e).last() == e);
    } else {
        assert(s.update(i, e).drop_last() =~= s.drop_last().update(i, e));
        lemma_total_update(s.drop_last(), i, e);
        assert(s.update(i, e).last() == s.last());
    }
}

/// Every stored balance is bounded by the total.
pub proof fn lemma_total_one(s: Seq<(Seq<u8>, WalletV)>, i: int)
    requires
        0 <= i < s.len(),
    ensures
        s[i].1.balance <= total_balance(s),
        total_balance(s) >= 0,
    decreases s.len(),
{
    lemma_total_nonneg(s.drop_last());
    assert(total_balance(s) == total_balance(s.drop_last()) + s.last().1.balance);
    if i == s.len() - 1 {
        assert(s[i] == s.last());
    } else {
        lemma_total_one(s.drop_last(), i);
        assert(s.drop_last()[i] == s[i]);
    }
}

/// The total is never negative.
pub proof fn lemma_total_nonneg(s: Seq<(Seq<u8>, WalletV)>)
    ensures
        total_balance(s) >= 0,
    decreases s.len(),
{
    if s.len() > 0 {
        lemma_total_nonneg(s.drop_last());
    }
}

/// Two distinct entries' balances together are bounded by the total.
pub proof fn lemma_total_pair(s: Seq<(Seq<u8>, WalletV)>, i: int, j: int)
    requires
        0 <= i < s.len(),
        0 <= j < s.len(),
        i != j,
    ensures
        s[i].1.balance + s[j].1.balance <= total_balance(s),
    decreases s.len(),
{
    let lo = if i < j {
        i
    } else {
        j
    };
    let hi = if i < j {
        j
    } else {
        i
    };
    if hi == s.len() - 1 {
        lemma_total_one(s.drop_last(), lo);
        assert(s.drop_last()[lo] == s[lo]);
    } else {
        lemma_total_pair(s.drop_last(), i, j);
        assert(s.drop_last()[i] == s[i]);
        assert(s.drop_last()[j] == s[j]);
        lemma_total_nonneg(s);
        assert(total_balance(s) == total_balance(s.drop_last()) + s.last().1.balance);
    }
}

/// What one balance mutation does to the model: the mutated record, every
/// other record, the histories and the running total.
pub proof fn lemma_apply_balance_facts(s: SchemaV, k: Seq<u8>, nb: u64, txh: Seq<u8>, k2: Seq<u8>)
    requires
        uniq(s.wallets),
        uniq(s.histories),
        has_key(s.wallets, k),
        k2 != k,
    ensures
        uniq(apply_balance(s, k, nb, txh).wallets),
        uniq(apply_balance(s, k, nb, txh).histories),
        has_key(apply_balance(s, k, nb, txh).wallets, k),
        value_of(apply_balance(s, k, nb, txh).wallets, k) == (WalletV {
            balance: nb,
            history_len: (value_of(s.wallets, k).history_len + 1) as u64,
            history_hash: seq_root(hist_of(s.histories, k).push(txh)),
            ..value_of(s.wallets, k)
        }),
        has_key(apply_balance(s, k, nb, txh).wallets, k2) == has_key(s.wallets, k2),
        has_key(s.wallets, k2) ==> value_of(apply_balance(s, k, nb, txh).wallets, k2) == value_of(
            s.wallets,
            k2,
        ),
        hist_of(apply_balance(s, k, nb, txh).histories, k) == hist_of(s.histories, k).push(txh),
        hist_of(apply_balance(s, k, nb, txh).histories, k2) == hist_of(s.histories, k2),
        total_balance(apply_balance(s, k, nb, txh).wallets) == total_balance(s.wallets) - value_of(
            s.wallets,
            k,
        ).balance + nb,
        apply_balance(s, k, nb, txh).wallets.len() == s.wallets.len(),
{
    let t = apply_balance(s, k, nb, txh);
    let h = hist_of(s.histories, k).push(txh);
    let w = value_of(s.wallets, k);
    let w2 = WalletV {
        balance: nb,
        history_len: (w.history_len + 1) as u64,
        history_hash: seq_root(h),
        ..w
    };
    lemma_put_same(s.wallets, k, w2);
    lemma_put_same(s.histories, k, h);
    lemma_put_other(s.wallets, k, w2, k2);
    lemma_put_other(s.histories, k, h, k2);
    let idx = idx_of(s.wallets, k);
    assert(0 <= idx < s.wallets.len() && s.wallets[idx].0 == k);
    assert(t.wallets == s.wallets.update(idx, (k, w2)));
    lemma_total_update(s.wallets, idx, (k, w2));
    assert(s.wallets[idx].1 == w);
}

/// Idempotent creation: creating the same account identifier twice yields
/// `WalletAlreadyExists` on the second attempt, and the state after the
/// second attempt equals the state after the first.
pub proof fn lemma_idempotent_creation(
    s: SchemaV,
    pk: Seq<u8>,
    name1: Seq<char>,
    name2: Seq<char>,
    txh1: Seq<u8>,
    txh2: Seq<u8>,
    t1: Option<i64>,
    t2: Option<i64>,
)
    requires
        uniq(s.wallets),
        step(s, TxV::CreateWallet { pub_key: pk, name: name1 }, txh1, t1).1 is Ok,
    ensures
        step(
            step(s, TxV::CreateWallet { pub_key: pk, name: name1 }, txh1, t1).0,
            TxV::CreateWallet { pub_key: pk, name: name2 },
            txh2,
            t2,
        ).0 == step(s, TxV::CreateWallet { pub_key: pk, name: name1 }, txh1, t1).0,
        step(
            step(s, TxV::CreateWallet { pub_key: pk, name: name1 }, txh1, t1).0,
            TxV::CreateWallet { pub_key: pk, name: name2 },
            txh2,
            t2,
        ).1 == Err::<(), Error>(Error::WalletAlreadyExists),
{
    let s1 = step(s, TxV::CreateWallet { pub_key: pk, name: name1 }, txh1, t1).0;
    let h = hist_of(s.histories, pk).push(txh1);
    let w = WalletV {
        pub_key: pk,
        name: name1,
        balance: INITIAL_BALANCE,
        history_len: h.len() as u64,
        history_hash: seq_root(h),
    };
    lemma_put_same(s.wallets, pk, w);
    assert(s1.wallets == create_post(s, pk, name1, txh1).wallets);
    assert(has_key(s1.wallets, pk));
}

/// Effect of creation: on an identifier with no account and no prior
/// history, `CreateWallet` succeeds whenever the oracle has a time, and
/// afterwards exactly one account exists under that identifier, carrying the
/// given name, the initial balance, and a one-entry history referencing the
/// creating transaction.
pub proof fn lemma_creation_effect(
    s: SchemaV,
    pk: Seq<u8>,
    name: Seq<char>,
    txh: Seq<u8>,
    t: i64,
)
    requires
        schema_wf(s),
        !has_key(s.wallets, pk),
    ensures
        step(s, TxV::CreateWallet { pub_key: pk, name }, txh, Some(t)).1 == Ok::<(), Error>(()),
        has_key(step(s, TxV::CreateWallet { pub_key: pk, name }, txh, Some(t)).0.wallets, pk),
        value_of(step(s, TxV::CreateWallet { pub_key: pk, name }, txh, Some(t)).0.wallets, pk)
            == (WalletV {
            pub_key: pk,
            name: name,
            balance: INITIAL_BALANCE,
            history_len: 1,
            history_hash: seq_root(seq![txh]),
        }),
        hist_of(step(s, TxV::CreateWallet { pub_key: pk, name }, txh, Some(t)).0.histories, pk)
            =~= seq![txh],
{
    assert(!has_key(s.histories, pk)) by {
        if has_key(s.histories, pk) {
            let w = idx_of(s.histories, pk);
            assert(0 <= w < s.histories.len() && s.histories[w].0 == pk);
            assert(has_key(s.wallets, s.histories[w].0));
        }
    }
    let h = hist_of(s.histories, pk).push(txh);
    assert(h =~= seq![txh]);
    let w = WalletV {
        pub_key: pk,
        name: name,
        balance: INITIAL_BALANCE,
        history_len: h.len() as u64,
        history_hash: seq_root(h),
    };
    lemma_put_same(s.wallets, pk, w);
    lemma_put_same(s.histories, pk, h);
}

/// A successful balance-affecting transition writes one timestamp entry for
/// its transaction reference, where none was recorded yet.
pub proof fn lemma_step_records_timestamp(s: SchemaV, tx: TxV, txh: Seq<u8>, t: i64)
    requires
        uniq(s.timestamps),
        !has_key(s.timestamps, txh),
        tx is Vote || tx is CreateWallet,
        step(s, tx, txh, Some(t)).1 is Ok,
    ensures
        has_key(step(s, tx, txh, Some(t)).0.timestamps, txh),
        value_of(step(s, tx, txh, Some(t)).0.timestamps, txh) == t,
{
    lemma_put_same(s.timestamps, txh, t);
}

/// Conservation, single step: a successful transfer moves exactly `amount`
/// from sender to receiver and leaves the sum of all balances unchanged.
pub proof fn lemma_transfer_conservation(
    s: SchemaV,
    from: Seq<u8>,
    to: Seq<u8>,
    amount: u64,
    seed: u64,
    txh: Seq<u8>,
    time: Option<i64>,
)
    requires
        uniq(s.wallets),
        uniq(s.histories),
        from != to,
        step(s, TxV::Vote { from, to, amount, seed }, txh, time).1 is Ok,
        value_of(s.wallets, to).balance + amount <= u64::MAX,
    ensures
        total_balance(step(s, TxV::Vote { from, to, amount, seed }, txh, time).0.wallets)
            == total_balance(s.wallets),
        value_of(step(s, TxV::Vote { from, to, amount, seed }, txh, time).0.wallets, from).balance
            == value_of(s.wallets, from).balance - amount,
        value_of(step(s, TxV::Vote { from, to, amount, seed }, txh, time).0.wallets, to).balance
            == value_of(s.wallets, to).balance + amount,
{
    let sb = value_of(s.wallets, from).balance;
    let rb = value_of(s.wallets, to).balance;
    let s1 = apply_balance(s, from, (sb - amount) as u64, txh);
    let s2 = apply_balance(s1, to, (rb + amount) as u64, txh);
    lemma_apply_balance_facts(s, from, (sb - amount) as u64, txh, to);
    lemma_apply_balance_facts(s1, to, (rb + amount) as u64, txh, from);
    assert(step(s, TxV::Vote { from, to, amount, seed }, txh, time).0.wallets == s2.wallets);
}

/// One transaction input: the decoded transaction, its reference, and the
/// oracle time at its execution.
pub ghost struct TxInput {
    pub tx: TxV,
    pub txh: Seq<u8>,
    pub time: Option<i64>,
}

/// Replaying a sequence of transactions from a state.
pub open spec fn run(s: SchemaV, inputs: Seq<TxInput>) -> SchemaV
    decreases inputs.len(),
{
    if inputs.len() == 0 {
        s
    } else {
        run(step(s, inputs[0].tx, inputs[0].txh, inputs[0].time).0, inputs.drop_first())
    }
}

/// Whether every input is a transfer between distinct accounts.
pub open spec fn all_transfers(inputs: Seq<TxInput>) -> bool {
    forall|i: int|
        0 <= i < inputs.len() ==> (#[trigger] inputs[i]).tx is Vote && tx_wf(inputs[i].tx)
}

/// Conservation, any sequence: replaying any sequence of transfers between
/// distinct accounts leaves the sum of all balances unchanged, whether each
/// transfer succeeds or fails.
pub proof fn lemma_conservation_sequence(s: SchemaV, inputs: Seq<TxInput>)
    requires
        uniq(s.wallets),
        uniq(s.histories),
        all_transfers(inputs),
        total_balance(s.wallets) <= u64::MAX,
    ensures
        total_balance(run(s, inputs).wallets) == total_balance(s.wallets),
    decreases inputs.len(),
{
    if inputs.len() > 0 {
        let tx = inputs[0].tx;
        let txh = inputs[0].txh;
        let time = inputs[0].time;
        assert(inputs[0].tx is Vote && tx_wf(inputs[0].tx));
        let s1 = step(s, tx, txh, time).0;
        if let TxV::Vote { from, to, amount, seed } = tx {
            if step(s, tx, txh, time).1 is Ok {
                let fi = idx_of(s.wallets, from);
                let ti = idx_of(s.wallets, to);
                assert(0 <= fi < s.wallets.len() && s.wallets[fi].0 == from);
                assert(0 <= ti < s.wallets.len() && s.wallets[ti].0 == to);
                assert(fi != ti);
                lemma_total_pair(s.wallets, fi, ti);
                assert(value_of(s.wallets, to).balance + amount <= u64::MAX);
                lemma_transfer_conservation(s, from, to, amount, seed, txh, time);
                let sb = value_of(s.wallets, from).balance;
                let rb = value_of(s.wallets, to).balance;
                lemma_apply_balance_facts(s, from, (sb - amount) as u64, txh, to);
                lemma_apply_balance_facts(
                    apply_balance(s, from, (sb - amount) as u64, txh),
                    to,
                    (rb + amount) as u64,
                    txh,
                    from,
                );
            }
        }
        assert(forall|i: int|
            0 <= i < inputs.drop_first().len() ==> inputs.drop_first()[i] == inputs[i + 1]);
        lemma_conservation_sequence(s1, inputs.drop_first());
    }
}

/// Whether a transaction touches account `x` when it succeeds: a transfer
/// touches both endpoints, a creation its new account.
pub open spec fn touches(tx: TxV, x: Seq<u8>) -> bool {
    match tx {
        TxV::Vote { from, to, .. } => from == x || to == x,
        TxV::CreateWallet { pub_key, .. } => pub_key == x,
        _ => false,
    }
}

/// How many inputs of a replay succeed and touch account `x`.
pub open spec fn run_count(s: SchemaV, inputs: Seq<TxInput>, x: Seq<u8>) -> nat
    decreases inputs.len(),
{
    if inputs.len() == 0 {
        0
    } else {
        let sr = step(s, inputs[0].tx, inputs[0].txh, inputs[0].time);
        (if sr.1 is Ok && touches(inputs[0].tx, x) {
            1nat
        } else {
            0nat
        }) + run_count(sr.0, inputs.drop_first(), x)
    }
}

/// What one step does to one account's history length, and that it keeps
/// keys unique.
pub proof fn lemma_step_history(s: SchemaV, tx: TxV, txh: Seq<u8>, time: Option<i64>, x: Seq<u8>)
    requires
        uniq(s.wallets),
        uniq(s.histories),
        tx_wf(tx),
    ensures
        uniq(step(s, tx, txh, time).0.wallets),
        uniq(step(s, tx, txh, time).0.histories),
        hist_of(step(s, tx, txh, time).0.histories, x).len() == hist_of(s.histories, x).len() + (
        if step(s, tx, txh, time).1 is Ok && touches(tx, x) {
            1int
        } else {
            0int
        }),
{
    let sr = step(s, tx, txh, time);
    match tx {
        TxV::Vote { from, to, amount, .. } => {
            if sr.1 is Ok {
                let sb = value_of(s.wallets, from).balance;
                let rb = value_of(s.wallets, to).balance;
                let s1 = apply_balance(s, from, (sb - amount) as u64, txh);
                lemma_apply_balance_facts(s, from, (sb - amount) as u64, txh, to);
                lemma_apply_balance_facts(s1, to, (rb + amount) as u64, txh, from);
                if x != from && x != to {
                    lemma_put_other(
                        s.histories,
                        from,
                        hist_of(s.histories, from).push(txh),
                        x,
                    );
                    lemma_put_other(
                        s1.histories,
                        to,
                        hist_of(s1.histories, to).push(txh),
                        x,
                    );
                }
            }
        },
        TxV::CreateWallet { pub_key, name } => {
            if sr.1 is Ok {
                let h = hist_of(s.histories, pub_key).push(txh);
                let w = WalletV {
                    pub_key: pub_key,
                    name: name,
                    balance: INITIAL_BALANCE,
                    history_len: h.len() as u64,
                    history_hash: seq_root(h),
                };
                lemma_put_same(s.wallets, pub_key, w);
                lemma_put_same(s.histories, pub_key, h);
                if x != pub_key {
                    lemma_put_other(s.histories, pub_key, h, x);
                }
            }
        },
        _ => {},
    }
}

/// History integrity: after replaying a sequence of transactions, account
/// `x`'s history length has grown by exactly the number of successful
/// balance-affecting transitions touching `x`.
pub proof fn lemma_history_integrity(s: SchemaV, inputs: Seq<TxInput>, x: Seq<u8>)
    requires
        uniq(s.wallets),
        uniq(s.histories),
        forall|i: int| 0 <= i < inputs.len() ==> tx_wf((#[trigger] inputs[i]).tx),
    ensures
        hist_of(run(s, inputs).histories, x).len() == hist_of(s.histories, x).len() + run_count(
            s,
            inputs,
            x,
        ),
    decreases inputs.len(),
{
    if inputs.len() > 0 {
        lemma_step_history(s, inputs[0].tx, inputs[0].txh, inputs[0].time, x);
        let s1 = step(s, inputs[0].tx, inputs[0].txh, inputs[0].time).0;
        assert(forall|i: int|
            0 <= i < inputs.drop_first().len() ==> inputs.drop_first()[i] == inputs[i + 1]);
        lemma_history_integrity(s1, inputs.drop_first(), x);
    }
}

/// Deterministic replay: the transition function is a function, so two
/// independent replays of the same transition sequence from equal states
/// produce equal states and identical history root digests.
pub proof fn lemma_replay_deterministic(s1: SchemaV, s2: SchemaV, inputs: Seq<TxInput>, x: Seq<u8>)
    requires
        s1 == s2,
    ensures
        run(s1, inputs) == run(s2, inputs),
        seq_root(hist_of(run(s1, inputs).histories, x)) == seq_root(
            hist_of(run(s2, inputs).histories, x),
        ),
{
}

/// Rejection leaves no trace: a transfer of more than the sender's balance
/// returns `InsufficientCurrencyAmount` and leaves the schema — balances,
/// history lengths, root digests — exactly as it was.
pub proof fn lemma_rejection_no_trace(
    s: SchemaV,
    from: Seq<u8>,
    to: Seq<u8>,
    amount: u64,
    seed: u64,
    txh: Seq<u8>,
    time: Option<i64>,
)
    requires
        has_key(s.wallets, from),
        has_key(s.wallets, to),
        value_of(s.wallets, from).balance < amount,
    ensures
        step(s, TxV::Vote { from, to, amount, seed }, txh, time).0 == s,
        step(s, TxV::Vote { from, to, amount, seed }, txh, time).1 == Err::<(), Error>(
            Error::InsufficientCurrencyAmount,
        ),
{
}

/// Self-transfer rejected: a transfer whose endpoints coincide fails
/// `verify`, so the processor never executes it and no state changes.
pub proof fn lemma_self_transfer_rejected(
    s: SchemaV,
    a: Seq<u8>,
    amount: u64,
    seed: u64,
    txh: Seq<u8>,
    time: Option<i64>,
    signature_valid: bool,
)
    ensures
        !verify_spec(TxV::Vote { from: a, to: a, amount, seed }, signature_valid),
        process_step(
            s,
            TxV::Vote { from: a, to: a, amount, seed },
            signature_valid,
            txh,
            time,
        ).0 == s,
        process_step(
            s,
            TxV::Vote { from: a, to: a, amount, seed },
            signature_valid,
            txh,
            time,
        ).1 is None,
{
}

/// Timestamp write-once: no transition ever changes the time recorded for a
/// transaction reference already present.
pub proof fn lemma_timestamp_write_once(
    s: SchemaV,
    tx: TxV,
    txh: Seq<u8>,
    time: Option<i64>,
    k: Seq<u8>,
)
    requires
        uniq(s.timestamps),
        has_key(s.timestamps, k),
    ensures
        has_key(step(s, tx, txh, time).0.timestamps, k),
        value_of(step(s, tx, txh, time).0.timestamps, k) == value_of(s.timestamps, k),
{
    let sr = step(s, tx, txh, time);
    assert(sr.0.timestamps == s.timestamps || sr.0.timestamps == ts_put_if_absent(
        s.timestamps,
        txh,
        time->0,
    ));
    if sr.0.timestamps != s.timestamps {
        if !has_key(s.timestamps, txh) {
            assert(txh != k);
            lemma_put_other(s.timestamps, txh, time->0, k);
        }
    }
}

} // verus!
