//! Database schema for the cryptocurrency: the authenticated account store,
//! the per-account history ledger, the plain transaction log, the voter and
//! candidate registries and the write-once timestamp registry, together with
//! the mathematical model that every mutation is proved against.

use vstd::prelude::*;
use crate::bytes::{copy_bytes, push_all, u64_to_le, le_bytes};
use crate::digest::{seq_root, empty_root, chain, lemma_seq_root_step};
use crate::history::{HistoryList, hist_of, history_append, history_len_of, history_root_of,
    history_entries_of};
use crate::store::{ProofMap, has_key, value_of, idx_of, entries_put, insert_pos, uniq,
    sorted_keys, lemma_sorted_canonical,
    lemma_put_same, lemma_put_shape,
    lemma_put_other};
use crate::wallet::{Wallet, WalletV, wallet_leaf, wallet_encode};
use crate::INITIAL_BALANCE;

verus! {

/// Timestamp entry: a transaction reference paired with the oracle time.
pub struct TimestampEntry {
    pub tx_hash: Vec<u8>,
    pub time: i64,
}

/// Mathematical model of a timestamp entry.
#[verifier::ext_equal]
pub ghost struct TimestampEntryV {
    pub tx_hash: Seq<u8>,
    pub time: i64,
}

impl View for TimestampEntry {
    type V = TimestampEntryV;

    open spec fn view(&self) -> TimestampEntryV {
        TimestampEntryV { tx_hash: self.tx_hash@, time: self.time }
    }
}

impl TimestampEntry {
    /// A timestamp entry for the given transaction reference.
    pub fn new(tx_hash: &Vec<u8>, time: i64) -> (r: TimestampEntry)
        ensures
            r@ == (TimestampEntryV { tx_hash: tx_hash@, time: time }),
    {
        TimestampEntry { tx_hash: copy_bytes(tx_hash), time }
    }

    /// The transaction reference.
    pub fn tx_hash(&self) -> (r: &Vec<u8>)
        ensures
            r@ == self@.tx_hash,
    {
        &self.tx_hash
    }

    /// The recorded time.
    pub fn time(&self) -> (r: i64)
        ensures
            r == self@.time,
    {
        self.time
    }
}

/// Mathematical model of the whole schema: each table as its ordered entry
/// sequence.
#[verifier::ext_equal]
pub ghost struct SchemaV {
    pub wallets: Seq<(Seq<u8>, WalletV)>,
    pub histories: Seq<(Seq<u8>, Seq<Seq<u8>>)>,
    pub txlog: Seq<(Seq<u8>, Seq<u8>)>,
    pub voters: Seq<(Seq<u8>, Seq<u8>)>,
    pub candidates: Seq<(Seq<u8>, Seq<u8>)>,
    pub timestamps: Seq<(Seq<u8>, i64)>,
}

/// An account record is authenticated: it is stored under its own key, its
/// history length equals the number of entries actually stored for it, and
/// its history root digest is the root of exactly that sequence.
pub open spec fn wallet_ok(s: SchemaV, e: (Seq<u8>, WalletV)) -> bool {
    &&& e.1.pub_key == e.0
    &&& e.1.history_len == hist_of(s.histories, e.0).len()
    &&& e.1.history_hash == seq_root(hist_of(s.histories, e.0))
}

/// Well-formedness of the schema model: unique keys everywhere, every
/// account record authenticated against its history, and no history
/// partition without its account.
pub open spec fn schema_wf(s: SchemaV) -> bool {
    &&& uniq(s.wallets)
    &&& uniq(s.histories)
    &&& uniq(s.txlog)
    &&& uniq(s.voters)
    &&& uniq(s.candidates)
    &&& uniq(s.timestamps)
    &&& forall|i: int| 0 <= i < s.wallets.len() ==> wallet_ok(s, #[trigger] s.wallets[i])
    &&& forall|i: int|
        0 <= i < s.histories.len() ==> has_key(s.wallets, (#[trigger] s.histories[i]).0)
}

/// Write-once insertion into the timestamp table: inserting under a key
/// already present is a silent no-op, never an overwrite.
pub open spec fn ts_put_if_absent(s: Seq<(Seq<u8>, i64)>, k: Seq<u8>, t: i64) -> Seq<
    (Seq<u8>, i64),
> {
    if has_key(s, k) {
        s
    } else {
        entries_put(s, k, t)
    }
}

/// The schema after one balance mutation of the account under `k`: one
/// history entry appended, and the record updated to the new balance with
/// its history metadata recomputed.
pub open spec fn apply_balance(s: SchemaV, k: Seq<u8>, new_balance: u64, txh: Seq<u8>) -> SchemaV {
    let h = hist_of(s.histories, k).push(txh);
    let w = value_of(s.wallets, k);
    let w2 = WalletV {
        balance: new_balance,
        history_len: (w.history_len + 1) as u64,
        history_hash: seq_root(h),
        ..w
    };
    SchemaV { wallets: entries_put(s.wallets, k, w2), histories: entries_put(s.histories, k, h), ..s }
}

/// The schema after creating the account under `pk`: a fresh record with the
/// initial balance and one appended history entry referencing the creating
/// transaction.
pub open spec fn create_post(s: SchemaV, pk: Seq<u8>, name: Seq<char>, txh: Seq<u8>) -> SchemaV {
    let h = hist_of(s.histories, pk).push(txh);
    let w = WalletV {
        pub_key: pk,
        name: name,
        balance: INITIAL_BALANCE,
        history_len: h.len() as u64,
        history_hash: seq_root(h),
    };
    SchemaV { wallets: entries_put(s.wallets, pk, w), histories: entries_put(s.histories, pk, h), ..s }
}

/// A change that leaves the account store and the histories alone preserves
/// well-formedness.
pub proof fn lemma_core_unchanged_wf(s: SchemaV, t: SchemaV)
    requires
        schema_wf(s),
        t.wallets == s.wallets,
        t.histories == s.histories,
        uniq(t.txlog),
        uniq(t.voters),
        uniq(t.candidates),
        uniq(t.timestamps),
    ensures
        schema_wf(t),
{
    assert forall|i: int| 0 <= i < t.wallets.len() implies wallet_ok(t, #[trigger] t.wallets[i]) by {
        assert(wallet_ok(s, s.wallets[i]));
    }
    assert forall|i: int| 0 <= i < t.histories.len() implies has_key(
        t.wallets,
        (#[trigger] t.histories[i]).0,
    ) by {
        assert(has_key(s.wallets, s.histories[i].0));
    }
}

/// A balance mutation preserves well-formedness.
pub proof fn lemma_apply_balance_wf(s: SchemaV, k: Seq<u8>, nb: u64, txh: Seq<u8>)
    requires
        schema_wf(s),
        has_key(s.wallets, k),
        hist_of(s.histories, k).len() + 1 <= u64::MAX,
    ensures
        schema_wf(apply_balance(s, k, nb, txh)),
{
    let t = apply_balance(s, k, nb, txh);
    let h = hist_of(s.histories, k).push(txh);
    let w = value_of(s.wallets, k);
    let w2 = WalletV {
        balance: nb,
        history_len: (w.history_len + 1) as u64,
        history_hash: seq_root(h),
        ..w
    };
    lemma_put_same(s.wallets, k, w2);
    lemma_put_same(s.histories, k, h);
    let idx = idx_of(s.wallets, k);
    assert(0 <= idx < s.wallets.len() && s.wallets[idx].0 == k);
    assert(wallet_ok(s, s.wallets[idx]));
    assert(t.wallets == s.wallets.update(idx, (k, w2)));
    assert forall|i: int| 0 <= i < t.wallets.len() implies wallet_ok(t, #[trigger] t.wallets[i]) by {
        if i == idx {
            assert(hist_of(t.histories, k) == h);
        } else {
            assert(t.wallets[i] == s.wallets[i]);
            assert(wallet_ok(s, s.wallets[i]));
            assert(s.wallets[i].0 != s.wallets[idx].0);
            lemma_put_other(s.histories, k, h, s.wallets[i].0);
            assert(hist_of(t.histories, s.wallets[i].0) == hist_of(s.histories, s.wallets[i].0));
        }
    }
    assert forall|i: int| 0 <= i < t.histories.len() implies has_key(
        t.wallets,
        (#[trigger] t.histories[i]).0,
    ) by {
        let key = t.histories[i].0;
        if has_key(s.histories, k) {
            let hidx = idx_of(s.histories, k);
            assert(0 <= hidx < s.histories.len() && s.histories[hidx].0 == k);
            assert(forall|x: int|
                0 <= x < s.histories.len() ==> (#[trigger] t.histories[x]).0
                    == s.histories[x].0);
            assert(has_key(s.wallets, s.histories[i].0));
        } else {
            lemma_put_shape(s.histories, k, h);
            let p = insert_pos(s.histories, k);
            if i == p {
                assert(key == k);
            } else {
                let si: int = if i < p {
                    i
                } else {
                    i - 1
                };
                assert(t.histories[i] == s.histories[si]);
                assert(has_key(s.wallets, s.histories[si].0));
            }
        }
        if key == k {
            assert(has_key(t.wallets, k));
        } else {
            lemma_put_other(s.wallets, k, w2, key);
        }
    }
}

/// Account creation preserves well-formedness.
pub proof fn lemma_create_wf(s: SchemaV, pk: Seq<u8>, name: Seq<char>, txh: Seq<u8>)
    requires
        schema_wf(s),
        hist_of(s.histories, pk).len() + 1 <= u64::MAX,
    ensures
        schema_wf(create_post(s, pk, name, txh)),
{
    let t = create_post(s, pk, name, txh);
    let h = hist_of(s.histories, pk).push(txh);
    let w = WalletV {
        pub_key: pk,
        name: name,
        balance: INITIAL_BALANCE,
        history_len: h.len() as u64,
        history_hash: seq_root(h),
    };
    lemma_put_same(s.wallets, pk, w);
    lemma_put_same(s.histories, pk, h);
    assert forall|i: int| 0 <= i < t.wallets.len() implies wallet_ok(t, #[trigger] t.wallets[i]) by {
        if has_key(s.wallets, pk) {
            let idx = idx_of(s.wallets, pk);
            assert(0 <= idx < s.wallets.len() && s.wallets[idx].0 == pk);
            if i == idx {
                assert(hist_of(t.histories, pk) == h);
            } else {
                assert(t.wallets[i] == s.wallets[i]);
                assert(wallet_ok(s, s.wallets[i]));
                assert(s.wallets[i].0 != s.wallets[idx].0);
                lemma_put_other(s.histories, pk, h, s.wallets[i].0);
            }
        } else {
            lemma_put_shape(s.wallets, pk, w);
            let p = insert_pos(s.wallets, pk);
            if i == p {
                assert(t.wallets[i] == (pk, w));
                assert(hist_of(t.histories, pk) == h);
            } else {
                let si: int = if i < p {
                    i
                } else {
                    i - 1
                };
                assert(t.wallets[i] == s.wallets[si]);
                assert(wallet_ok(s, s.wallets[si]));
                assert(s.wallets[si].0 != pk) by {
                    if s.wallets[si].0 == pk {
                        assert(has_key(s.wallets, pk));
                    }
                }
                lemma_put_other(s.histories, pk, h, s.wallets[si].0);
            }
        }
    }
    assert forall|i: int| 0 <= i < t.histories.len() implies has_key(
        t.wallets,
        (#[trigger] t.histories[i]).0,
    ) by {
        let key = t.histories[i].0;
        if has_key(s.histories, pk) {
            let hidx = idx_of(s.histories, pk);
            assert(0 <= hidx < s.histories.len() && s.histories[hidx].0 == pk);
            assert(forall|x: int|
                0 <= x < s.histories.len() ==> (#[trigger] t.histories[x]).0
                    == s.histories[x].0);
            assert(has_key(s.wallets, s.histories[i].0));
        } else {
            lemma_put_shape(s.histories, pk, h);
            let p = insert_pos(s.histories, pk);
            if i == p {
                assert(key == pk);
            } else {
                let si: int = if i < p {
                    i
                } else {
                    i - 1
                };
                assert(t.histories[i] == s.histories[si]);
                assert(has_key(s.wallets, s.histories[si].0));
            }
        }
        if key == pk {
            assert(has_key(t.wallets, pk));
        } else {
            lemma_put_other(s.wallets, pk, w, key);
        }
    }
}

/// Digest preimages of the account store: each entry's key followed by the
/// record's serialisation.
pub open spec fn wallet_leaves(s: Seq<(Seq<u8>, WalletV)>) -> Seq<Seq<u8>> {
    Seq::new(s.len(), |i: int| s[i].0 + wallet_leaf(s[i].1))
}

/// Root digest of the account store: a pure function of its entry sequence.
pub open spec fn wallets_root(s: Seq<(Seq<u8>, WalletV)>) -> Seq<u8> {
    seq_root(wallet_leaves(s))
}

/// Digest preimages of a key-to-key registry.
pub open spec fn registry_leaves(s: Seq<(Seq<u8>, Seq<u8>)>) -> Seq<Seq<u8>> {
    Seq::new(s.len(), |i: int| s[i].0 + s[i].1)
}

/// Root digest of a key-to-key registry.
pub open spec fn registry_root(s: Seq<(Seq<u8>, Seq<u8>)>) -> Seq<u8> {
    seq_root(registry_leaves(s))
}

/// Digest preimages of the timestamp registry.
pub open spec fn ts_leaves(s: Seq<(Seq<u8>, i64)>) -> Seq<Seq<u8>> {
    Seq::new(s.len(), |i: int| s[i].0 + le_bytes((s[i].1 as u64) as nat, 8))
}

/// Root digest of the timestamp registry.
pub open spec fn ts_root(s: Seq<(Seq<u8>, i64)>) -> Seq<u8> {
    seq_root(ts_leaves(s))
}

/// State commitment is canonical: two key-sorted account stores holding the
/// same key-to-record mapping — however each was built — are the same entry
/// sequence, and so produce the same root digest. The same holds of the
/// registry and timestamp roots through `lemma_sorted_canonical`.
pub proof fn lemma_wallets_root_canonical(
    s1: Seq<(Seq<u8>, WalletV)>,
    s2: Seq<(Seq<u8>, WalletV)>,
)
    requires
        sorted_keys(s1),
        sorted_keys(s2),
        forall|k: Seq<u8>| #![trigger has_key(s1, k)] has_key(s1, k) == has_key(s2, k),
        forall|k: Seq<u8>|
            #![trigger value_of(s1, k)]
            has_key(s1, k) ==> value_of(s1, k) == value_of(s2, k),
    ensures
        s1 == s2,
        wallets_root(s1) == wallets_root(s2),
{
    lemma_sorted_canonical(s1, s2);
}

/// Database schema for the cryptocurrency.
pub struct CurrencySchema {
    pub wallets: ProofMap<Wallet>,
    pub histories: ProofMap<HistoryList>,
    pub txlog: ProofMap<Vec<u8>>,
    pub voters: ProofMap<Vec<u8>>,
    pub candidates: ProofMap<Vec<u8>>,
    pub timestamps: ProofMap<i64>,
}

impl View for CurrencySchema {
    type V = SchemaV;

    open spec fn view(&self) -> SchemaV {
        SchemaV {
            wallets: self.wallets@,
            histories: self.histories@,
            txlog: self.txlog@,
            voters: self.voters@,
            candidates: self.candidates@,
            timestamps: self.timestamps@,
        }
    }
}

impl CurrencySchema {
    /// Representation and model are both well-formed.
    pub open spec fn wf(&self) -> bool {
        &&& self.wallets.wf()
        &&& self.histories.wf()
        &&& self.txlog.wf()
        &&& self.voters.wf()
        &&& self.candidates.wf()
        &&& self.timestamps.wf()
        &&& schema_wf(self@)
    }

    /// Constructs an empty schema.
    pub fn new() -> (r: Self)
        ensures
            r.wf(),
            r@.wallets.len() == 0,
            r@.histories.len() == 0,
            r@.txlog.len() == 0,
            r@.voters.len() == 0,
            r@.candidates.len() == 0,
            r@.timestamps.len() == 0,
    {
        CurrencySchema {
            wallets: ProofMap::new(),
            histories: ProofMap::new(),
            txlog: ProofMap::new(),
            voters: ProofMap::new(),
            candidates: ProofMap::new(),
            timestamps: ProofMap::new(),
        }
    }

    /// The account store.
    pub fn wallets(&self) -> (r: &ProofMap<Wallet>)
        ensures
            r@ == self@.wallets,
            self.wf() ==> r.wf(),
    {
        &self.wallets
    }

    /// The transaction log: transaction reference to original encoded payload.
    pub fn transactions(&self) -> (r: &ProofMap<Vec<u8>>)
        ensures
            r@ == self@.txlog,
            self.wf() ==> r.wf(),
    {
        &self.txlog
    }

    /// The voter registry.
    pub fn voters_list(&self) -> (r: &ProofMap<Vec<u8>>)
        ensures
            r@ == self@.voters,
            self.wf() ==> r.wf(),
    {
        &self.voters
    }

    /// The candidate registry.
    pub fn candidates_list(&self) -> (r: &ProofMap<Vec<u8>>)
        ensures
            r@ == self@.candidates,
            self.wf() ==> r.wf(),
    {
        &self.candidates
    }

    /// The timestamp registry.
    pub fn timestamps(&self) -> (r: &ProofMap<i64>)
        ensures
            r@ == self@.timestamps,
            self.wf() ==> r.wf(),
    {
        &self.timestamps
    }

    /// Returns the account record for the given public key, if any.
    pub fn wallet(&self, pub_key: &Vec<u8>) -> (r: Option<Wallet>)
        requires
            self.wf(),
        ensures
            match r {
                Some(w) => has_key(self@.wallets, pub_key@) && w@ == value_of(
                    self@.wallets,
                    pub_key@,
                ),
                None => !has_key(self@.wallets, pub_key@),
            },
    {
        match self.wallets.get(pub_key) {
            Some(w) => Some(w.duplicate()),
            None => None,
        }
    }

    /// Returns the history of the account with the given public key.
    pub fn wallet_history(&self, public_key: &Vec<u8>) -> (r: Vec<Vec<u8>>)
        requires
            self.wf(),
        ensures
            r@.len() == hist_of(self@.histories, public_key@).len(),
            forall|i: int|
                0 <= i < r@.len() ==> (#[trigger] r@[i])@ == hist_of(
                    self@.histories,
                    public_key@,
                )[i],
    {
        history_entries_of(&self.histories, public_key)
    }

    /// Returns the state hash of the service database: one root digest per
    /// authenticated structure, in this fixed order — accounts, voter
    /// registry, timestamps, candidate registry. (Per-account histories are
    /// committed through each account record's history root.)
    pub fn state_hash(&self) -> (r: Vec<Vec<u8>>)
        requires
            self.wf(),
        ensures
            r@.len() == 4,
            r@[0]@ == wallets_root(self@.wallets),
            r@[1]@ == registry_root(self@.voters),
            r@[2]@ == ts_root(self@.timestamps),
            r@[3]@ == registry_root(self@.candidates),
    {
        let mut r: Vec<Vec<u8>> = Vec::new();
        r.push(compute_wallets_root(&self.wallets));
        r.push(compute_registry_root(&self.voters));
        r.push(compute_ts_root(&self.timestamps));
        r.push(compute_registry_root(&self.candidates));
        r
    }

    /// Returns the state hash of the timestamping table.
    pub fn state_hash_timestamps(&self) -> (r: Vec<Vec<u8>>)
        requires
            self.wf(),
        ensures
            r@.len() == 1,
            r@[0]@ == ts_root(self@.timestamps),
    {
        let mut r: Vec<Vec<u8>> = Vec::new();
        r.push(compute_ts_root(&self.timestamps));
        r
    }

    /// Returns the state hash of the voter registry.
    pub fn state_hash_voters_list(&self) -> (r: Vec<Vec<u8>>)
        requires
            self.wf(),
        ensures
            r@.len() == 1,
            r@[0]@ == registry_root(self@.voters),
    {
        let mut r: Vec<Vec<u8>> = Vec::new();
        r.push(compute_registry_root(&self.voters));
        r
    }

    /// Increase balance of the wallet and append a new record to its history.
    pub fn increase_wallet_balance(&mut self, wallet: Wallet, amount: u64, transaction: &Vec<u8>)
        requires
            old(self).wf(),
            has_key(old(self)@.wallets, wallet@.pub_key),
            value_of(old(self)@.wallets, wallet@.pub_key) == wallet@,
            wallet@.balance + amount <= u64::MAX,
        ensures
            final(self).wf(),
            final(self)@ == apply_balance(
                old(self)@,
                wallet@.pub_key,
                (wallet@.balance + amount) as u64,
                transaction@,
            ),
    {
        let ghost s = old(self)@;
        let pk = copy_bytes(wallet.pub_key());
        history_append(&mut self.histories, &pk, transaction);
        let n = history_len_of(&self.histories, &pk);
        let root = history_root_of(&self.histories, &pk);
        proof {
            lemma_put_same(s.histories, pk@, hist_of(s.histories, pk@).push(transaction@));
            let idx = idx_of(s.wallets, wallet@.pub_key);
            assert(0 <= idx < s.wallets.len() && s.wallets[idx].0 == wallet@.pub_key);
            assert(wallet_ok(s, s.wallets[idx]));
            assert(wallet@.history_len == hist_of(s.histories, pk@).len());
            assert(n == hist_of(s.histories, pk@).len() + 1);
            assert(wallet@.history_len < u64::MAX);
        }
        let balance = wallet.balance();
        let w2 = wallet.set_balance(balance + amount, &root);
        self.wallets.put(pk, w2);
        proof {
            lemma_apply_balance_wf(s, w2@.pub_key, w2@.balance, transaction@);
            assert(self@ =~= apply_balance(
                s,
                w2@.pub_key,
                w2@.balance,
                transaction@,
            ));
        }
    }

    /// Decrease balance of the wallet and append a new record to its history.
    pub fn decrease_wallet_balance(&mut self, wallet: Wallet, amount: u64, transaction: &Vec<u8>)
        requires
            old(self).wf(),
            has_key(old(self)@.wallets, wallet@.pub_key),
            value_of(old(self)@.wallets, wallet@.pub_key) == wallet@,
            amount <= wallet@.balance,
        ensures
            final(self).wf(),
            final(self)@ == apply_balance(
                old(self)@,
                wallet@.pub_key,
                (wallet@.balance - amount) as u64,
                transaction@,
            ),
    {
        let ghost s = old(self)@;
        let pk = copy_bytes(wallet.pub_key());
        history_append(&mut self.histories, &pk, transaction);
        let n = history_len_of(&self.histories, &pk);
        let root = history_root_of(&self.histories, &pk);
        proof {
            lemma_put_same(s.histories, pk@, hist_of(s.histories, pk@).push(transaction@));
            let idx = idx_of(s.wallets, wallet@.pub_key);
            assert(0 <= idx < s.wallets.len() && s.wallets[idx].0 == wallet@.pub_key);
            assert(wallet_ok(s, s.wallets[idx]));
            assert(wallet@.history_len == hist_of(s.histories, pk@).len());
            assert(n == hist_of(s.histories, pk@).len() + 1);
            assert(wallet@.history_len < u64::MAX);
        }
        let balance = wallet.balance();
        let w2 = wallet.set_balance(balance - amount, &root);
        self.wallets.put(pk, w2);
        proof {
            lemma_apply_balance_wf(s, w2@.pub_key, w2@.balance, transaction@);
            assert(self@ =~= apply_balance(
                s,
                w2@.pub_key,
                w2@.balance,
                transaction@,
            ));
        }
    }

    /// Create a new wallet with the initial balance and append the first
    /// record to its history.
    pub fn create_wallet(&mut self, key: &Vec<u8>, name: &str, transaction: &Vec<u8>)
        requires
            old(self).wf(),
        ensures
            final(self).wf(),
            final(self)@ == create_post(old(self)@, key@, name@, transaction@),
    {
        let ghost s = old(self)@;
        history_append(&mut self.histories, key, transaction);
        let n = history_len_of(&self.histories, key);
        let root = history_root_of(&self.histories, key);
        proof {
            lemma_put_same(s.histories, key@, hist_of(s.histories, key@).push(transaction@));
            assert(n == hist_of(s.histories, key@).len() + 1);
        }
        let wallet = Wallet::new(key, name, INITIAL_BALANCE, n as u64, &root);
        self.wallets.put(copy_bytes(key), wallet);
        proof {
            lemma_create_wf(s, key@, name@, transaction@);
            assert(self@ =~= create_post(s, key@, name@, transaction@));
        }
    }

    /// Records a transaction's original encoded payload in the plain log.
    pub fn record_transaction(&mut self, tx_hash: &Vec<u8>, payload: Vec<u8>)
        requires
            old(self).wf(),
        ensures
            final(self).wf(),
            final(self)@ == (SchemaV {
                txlog: entries_put(old(self)@.txlog, tx_hash@, payload@),
                ..old(self)@
            }),
    {
        let ghost s = old(self)@;
        self.txlog.put(copy_bytes(tx_hash), payload);
        proof {
            lemma_put_same(s.txlog, tx_hash@, payload@);
            lemma_core_unchanged_wf(s, self@);
            assert(self@ =~= (SchemaV { txlog: entries_put(s.txlog, tx_hash@, payload@), ..s }));
        }
    }

    /// Adds the timestamp entry to the database, unless its transaction
    /// reference is already present: write-once, never an overwrite.
    pub fn add_timestamp(&mut self, timestamp_entry: TimestampEntry)
        requires
            old(self).wf(),
        ensures
            final(self).wf(),
            final(self)@ == (SchemaV {
                timestamps: ts_put_if_absent(
                    old(self)@.timestamps,
                    timestamp_entry@.tx_hash,
                    timestamp_entry@.time,
                ),
                ..old(self)@
            }),
    {
        let ghost s = old(self)@;
        if self.timestamps.contains_key(&timestamp_entry.tx_hash) {
            proof {
                assert(self@ =~= (SchemaV {
                    timestamps: ts_put_if_absent(
                        s.timestamps,
                        timestamp_entry@.tx_hash,
                        timestamp_entry@.time,
                    ),
                    ..s
                }));
            }
            return ;
        }
        self.timestamps.put(timestamp_entry.tx_hash, timestamp_entry.time);
        proof {
            lemma_put_same(s.timestamps, timestamp_entry@.tx_hash, timestamp_entry@.time);
            lemma_core_unchanged_wf(s, self@);
            assert(self@ =~= (SchemaV {
                timestamps: ts_put_if_absent(
                    s.timestamps,
                    timestamp_entry@.tx_hash,
                    timestamp_entry@.time,
                ),
                ..s
            }));
        }
    }

    /// Registers an account in the voter registry.
    pub fn append_voter(&mut self, key: &Vec<u8>, sec_key: &Vec<u8>)
        requires
            old(self).wf(),
        ensures
            final(self).wf(),
            final(self)@ == (SchemaV {
                voters: entries_put(old(self)@.voters, key@, sec_key@),
                ..old(self)@
            }),
    {
        let ghost s = old(self)@;
        self.voters.put(copy_bytes(key), copy_bytes(sec_key));
        proof {
            lemma_put_same(s.voters, key@, sec_key@);
            lemma_core_unchanged_wf(s, self@);
            assert(self@ =~= (SchemaV { voters: entries_put(s.voters, key@, sec_key@), ..s }));
        }
    }

    /// Registers an account in the candidate registry.
    pub fn append_candidate(&mut self, key: &Vec<u8>, sec_key: &Vec<u8>)
        requires
            old(self).wf(),
        ensures
            final(self).wf(),
            final(self)@ == (SchemaV {
                candidates: entries_put(old(self)@.candidates, key@, sec_key@),
                ..old(self)@
            }),
    {
        let ghost s = old(self)@;
        self.candidates.put(copy_bytes(key), copy_bytes(sec_key));
        proof {
            lemma_put_same(s.candidates, key@, sec_key@);
            lemma_core_unchanged_wf(s, self@);
            assert(self@ =~= (SchemaV {
                candidates: entries_put(s.candidates, key@, sec_key@),
                ..s
            }));
        }
    }
}

/// Root digest of the account store, computed over its entry sequence.
pub fn compute_wallets_root(m: &ProofMap<Wallet>) -> (r: Vec<u8>)
    requires
        m.wf(),
    ensures
        r@ == wallets_root(m@),
        r@.len() == 32,
{
    let ghost leaves = wallet_leaves(m@);
    proof {
        assert(leaves.take(0) =~= Seq::<Seq<u8>>::empty());
    }
    let mut r = empty_root();
    let mut i: usize = 0;
    while i < m.keys.len()
        invariant
            m.wf(),
            i <= m@.len(),
            leaves == wallet_leaves(m@),
            r@ == seq_root(leaves.take(i as int)),
            r@.len() == 32,
        decreases m@.len() - i,
    {
        let mut leaf = copy_bytes(&m.keys[i]);
        let enc = wallet_encode(&m.vals[i]);
        push_all(&mut leaf, &enc);
        proof {
            assert(leaf@ == leaves[i as int]);
            lemma_seq_root_step(leaves, i as int);
        }
        r = chain(&r, &leaf);
        i = i + 1;
    }
    proof {
        assert(leaves.take(leaves.len() as int) =~= leaves);
    }
    r
}

/// Root digest of a key-to-key registry, computed over its entry sequence.
pub fn compute_registry_root(m: &ProofMap<Vec<u8>>) -> (r: Vec<u8>)
    requires
        m.wf(),
    ensures
        r@ == registry_root(m@),
        r@.len() == 32,
{
    let ghost leaves = registry_leaves(m@);
    proof {
        assert(leaves.take(0) =~= Seq::<Seq<u8>>::empty());
    }
    let mut r = empty_root();
    let mut i: usize = 0;
    while i < m.keys.len()
        invariant
            m.wf(),
            i <= m@.len(),
            leaves == registry_leaves(m@),
            r@ == seq_root(leaves.take(i as int)),
            r@.len() == 32,
        decreases m@.len() - i,
    {
        let mut leaf = copy_bytes(&m.keys[i]);
        push_all(&mut leaf, &m.vals[i]);
        proof {
            assert(leaf@ == leaves[i as int]);
            lemma_seq_root_step(leaves, i as int);
        }
        r = chain(&r, &leaf);
        i = i + 1;
    }
    proof {
        assert(leaves.take(leaves.len() as int) =~= leaves);
    }
    r
}

/// Root digest of the timestamp registry, computed over its entry sequence.
pub fn compute_ts_root(m: &ProofMap<i64>) -> (r: Vec<u8>)
    requires
        m.wf(),
    ensures
        r@ == ts_root(m@),
        r@.len() == 32,
{
    let ghost leaves = ts_leaves(m@);
    proof {
        assert(leaves.take(0) =~= Seq::<Seq<u8>>::empty());
    }
    let mut r = empty_root();
    let mut i: usize = 0;
    while i < m.keys.len()
        invariant
            m.wf(),
            i <= m@.len(),
            leaves == ts_leaves(m@),
            r@ == seq_root(leaves.take(i as int)),
            r@.len() == 32,
        decreases m@.len() - i,
    {
        let mut leaf = copy_bytes(&m.keys[i]);
        let t: i64 = m.vals[i];
        let tu: u64 = #[verifier::truncate] (t as u64);
        let enc = u64_to_le(tu);
        push_all(&mut leaf, &enc);
        proof {
            assert(leaf@ == leaves[i as int]);
            lemma_seq_root_step(leaves, i as int);
        }
        r = chain(&r, &leaf);
        i = i + 1;
    }
    proof {
        assert(leaves.take(leaves.len() as int) =~= leaves);
    }
    r
}

} // verus!
