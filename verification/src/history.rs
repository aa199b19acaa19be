//! Per-account tamper-evident history: an append-only sequence of
//! transaction references for each account identifier, each sequence
//! summarised by a chained root digest.

use vstd::prelude::*;
use crate::bytes::copy_bytes;
use crate::digest::{seq_root, empty_root, chain, lemma_seq_root_step};
use crate::store::{ProofMap, has_key, value_of, entries_put, lemma_put_same, lemma_put_shape};

verus! {

/// One account's history: the ordered transaction references appended so far.
pub struct HistoryList {
    pub entries: Vec<Vec<u8>>,
}

impl View for HistoryList {
    type V = Seq<Seq<u8>>;

    open spec fn view(&self) -> Seq<Seq<u8>> {
        Seq::new(self.entries@.len() as nat, |i: int| self.entries@[i]@)
    }
}

/// The history sequence recorded for `k`: empty when no entry was ever
/// appended for that identifier.
pub open spec fn hist_of(s: Seq<(Seq<u8>, Seq<Seq<u8>>)>, k: Seq<u8>) -> Seq<Seq<u8>> {
    if has_key(s, k) {
        value_of(s, k)
    } else {
        Seq::<Seq<u8>>::empty()
    }
}

/// Appends one transaction reference to the history of `k`. Append-only:
/// no operation removes or updates an entry.
pub fn history_append(m: &mut ProofMap<HistoryList>, k: &Vec<u8>, entry: &Vec<u8>)
    requires
        old(m).wf(),
    ensures
        final(m).wf(),
        final(m)@ == entries_put(old(m)@, k@, hist_of(old(m)@, k@).push(entry@)),
{
    let ghost s = m@;
    proof {
        lemma_put_same(s, k@, hist_of(s, k@).push(entry@));
    }
    match m.locate(k) {
        Ok(i) => {
            let mut l = HistoryList { entries: Vec::new() };
            m.vals.set_and_swap(i, &mut l);
            l.entries.push(copy_bytes(entry));
            proof {
                assert(l@ =~= value_of(s, k@).push(entry@));
            }
            m.vals.set(i, l);
            proof {
                assert(m@ =~= s.update(i as int, (k@, hist_of(s, k@).push(entry@))));
            }
        },
        Err(p) => {
            let mut e: Vec<Vec<u8>> = Vec::new();
            e.push(copy_bytes(entry));
            let l = HistoryList { entries: e };
            proof {
                assert(l@ =~= hist_of(s, k@).push(entry@));
            }
            let ghost old_keys = m.keys@;
            let ghost old_vals = m.vals@;
            let kk = copy_bytes(k);
            m.keys.insert(p, kk);
            m.vals.insert(p, l);
            proof {
                lemma_put_shape(s, k@, hist_of(s, k@).push(entry@));
                old_keys.insert_ensures(p as int, kk);
                old_vals.insert_ensures(p as int, l);
                assert forall|x: int| 0 <= x < m@.len() implies m@[x] == entries_put(
                    s,
                    k@,
                    hist_of(s, k@).push(entry@),
                )[x] by {
                    if x < p {
                        assert(m.keys@[x] == old_keys[x]);
                        assert(m.vals@[x] == old_vals[x]);
                    } else if x > p {
                        assert(m.keys@[x] == old_keys[x - 1]);
                        assert(m.vals@[x] == old_vals[x - 1]);
                    }
                }
                assert(m@ =~= entries_put(s, k@, hist_of(s, k@).push(entry@)));
            }
        },
    }
}

/// Number of entries appended so far for `k`.
pub fn history_len_of(m: &ProofMap<HistoryList>, k: &Vec<u8>) -> (r: usize)
    requires
        m.wf(),
    ensures
        r == hist_of(m@, k@).len(),
{
    match m.get(k) {
        Some(l) => l.entries.len(),
        None => 0,
    }
}

/// Chained root digest of one history sequence.
pub fn list_root(l: &HistoryList) -> (r: Vec<u8>)
    ensures
        r@ == seq_root(l@),
        r@.len() == 32,
{
    let mut r = empty_root();
    proof {
        assert(l@.take(0) =~= Seq::<Seq<u8>>::empty());
    }
    let mut i: usize = 0;
    while i < l.entries.len()
        invariant
            i <= l@.len(),
            l@.len() == l.entries@.len(),
            r@ == seq_root(l@.take(i as int)),
            r@.len() == 32,
        decreases l@.len() - i,
    {
        r = chain(&r, &l.entries[i]);
        proof {
            lemma_seq_root_step(l@, i as int);
        }
        i = i + 1;
    }
    proof {
        assert(l@.take(l@.len() as int) =~= l@);
    }
    r
}

/// Root digest of the history recorded for `k`: a pure function of the
/// ordered sequence of entries appended so far for that identifier.
pub fn history_root_of(m: &ProofMap<HistoryList>, k: &Vec<u8>) -> (r: Vec<u8>)
    requires
        m.wf(),
    ensures
        r@ == seq_root(hist_of(m@, k@)),
        r@.len() == 32,
{
    match m.get(k) {
        Some(l) => list_root(l),
        None => empty_root(),
    }
}

/// An owned copy of the history recorded for `k`.
pub fn history_entries_of(m: &ProofMap<HistoryList>, k: &Vec<u8>) -> (r: Vec<Vec<u8>>)
    requires
        m.wf(),
    ensures
        r@.len() == hist_of(m@, k@).len(),
        forall|i: int| 0 <= i < r@.len() ==> (#[trigger] r@[i])@ == hist_of(m@, k@)[i],
{
    let ghost h = hist_of(m@, k@);
    let mut r: Vec<Vec<u8>> = Vec::new();
    match m.get(k) {
        Some(l) => {
            let mut i: usize = 0;
            while i < l.entries.len()
                invariant
                    i <= l@.len(),
                    l@.len() == l.entries@.len(),
                    l@ == h,
                    r@.len() == i,
                    forall|j: int| 0 <= j < i ==> (#[trigger] r@[j])@ == h[j],
                decreases l@.len() - i,
            {
                r.push(copy_bytes(&l.entries[i]));
                i = i + 1;
            }
        },
        None => {},
    }
    r
}

} // verus!
