//! The key-value store underlying every schema table: a key-sorted sequence
//! of entries with unique keys, viewed as `Seq<(Seq<u8>, V::V)>`. Keeping the
//! entries sorted by key makes the sequence — and so every root digest over
//! it — a pure function of the stored key-to-value mapping: two stores built
//! from the same multiset of insertions agree entry for entry
//! (`lemma_sorted_canonical`), and iteration order is fixed by key ordering.

use vstd::prelude::*;
use crate::bytes::{bytes_eq, lex_less, lex_lt, lemma_lex_connex, lemma_lex_asym, lemma_lex_trans};

verus! {

/// No two entries share a key.
pub open spec fn uniq<T>(s: Seq<(Seq<u8>, T)>) -> bool {
    forall|i: int, j: int| 0 <= i < j < s.len() ==> (#[trigger] s[i]).0 != (#[trigger] s[j]).0
}

/// Keys are strictly ascending in lexicographic order.
pub open spec fn sorted_keys<T>(s: Seq<(Seq<u8>, T)>) -> bool {
    forall|i: int, j: int|
        0 <= i < j < s.len() ==> lex_lt((#[trigger] s[i]).0, (#[trigger] s[j]).0)
}

/// Some entry carries key `k`.
pub open spec fn has_key<T>(s: Seq<(Seq<u8>, T)>, k: Seq<u8>) -> bool {
    exists|i: int| 0 <= i < s.len() && (#[trigger] s[i]).0 == k
}

/// Index of the entry carrying key `k`, where one exists.
pub open spec fn idx_of<T>(s: Seq<(Seq<u8>, T)>, k: Seq<u8>) -> int {
    choose|i: int| 0 <= i < s.len() && (#[trigger] s[i]).0 == k
}

/// Value stored under key `k`, where one exists.
pub open spec fn value_of<T>(s: Seq<(Seq<u8>, T)>, k: Seq<u8>) -> T {
    s[idx_of(s, k)].1
}

/// Where a missing key belongs: before the first entry whose key follows it.
pub open spec fn insert_pos<T>(s: Seq<(Seq<u8>, T)>, k: Seq<u8>) -> int
    decreases s.len(),
{
    if s.len() == 0 {
        0
    } else if lex_lt(k, s[0].0) {
        0
    } else {
        1 + insert_pos(s.skip(1), k)
    }
}

/// Last-write-wins insertion: replaces in place, or inserts at the key's
/// sorted position.
pub open spec fn entries_put<T>(s: Seq<(Seq<u8>, T)>, k: Seq<u8>, v: T) -> Seq<(Seq<u8>, T)> {
    if has_key(s, k) {
        s.update(idx_of(s, k), (k, v))
    } else {
        s.subrange(0, insert_pos(s, k)) + seq![(k, v)] + s.subrange(insert_pos(s, k), s.len() as int)
    }
}

/// Strictly sorted keys are unique.
pub proof fn lemma_sorted_uniq<T>(s: Seq<(Seq<u8>, T)>)
    requires
        sorted_keys(s),
    ensures
        uniq(s),
{
    assert forall|i: int, j: int| 0 <= i < j < s.len() implies (#[trigger] s[i]).0 != (
    #[trigger] s[j]).0 by {
        lemma_lex_asym(s[i].0, s[j].0);
    }
}

/// With unique keys, an entry's index is determined by its key.
pub proof fn lemma_idx_of<T>(s: Seq<(Seq<u8>, T)>, k: Seq<u8>, i: int)
    requires
        uniq(s),
        0 <= i < s.len(),
        s[i].0 == k,
    ensures
        has_key(s, k),
        idx_of(s, k) == i,
        value_of(s, k) == s[i].1,
{
    assert(has_key(s, k));
    let j = idx_of(s, k);
    assert(0 <= j < s.len() && s[j].0 == k);
    if i != j {
        assert(false);
    }
}

/// The insertion position is always within the sequence.
pub proof fn lemma_insert_pos_bounds<T>(s: Seq<(Seq<u8>, T)>, k: Seq<u8>)
    ensures
        0 <= insert_pos(s, k) <= s.len(),
    decreases s.len(),
{
    if s.len() != 0 && !lex_lt(k, s[0].0) {
        lemma_insert_pos_bounds(s.skip(1), k);
    }
}

/// On sorted entries, the insertion position of a missing key splits the
/// entries into keys that precede it and keys that follow it.
pub proof fn lemma_insert_pos<T>(s: Seq<(Seq<u8>, T)>, k: Seq<u8>)
    requires
        sorted_keys(s),
        !has_key(s, k),
    ensures
        0 <= insert_pos(s, k) <= s.len(),
        forall|i: int| 0 <= i < insert_pos(s, k) ==> lex_lt((#[trigger] s[i]).0, k),
        forall|i: int| insert_pos(s, k) <= i < s.len() ==> lex_lt(k, (#[trigger] s[i]).0),
    decreases s.len(),
{
    lemma_insert_pos_bounds(s, k);
    if s.len() == 0 {
    } else if lex_lt(k, s[0].0) {
        assert forall|i: int| 0 <= i < s.len() implies lex_lt(k, (#[trigger] s[i]).0) by {
            if i > 0 {
                lemma_lex_trans(k, s[0].0, s[i].0);
            }
        }
    } else {
        assert(s[0].0 != k) by {
            if s[0].0 == k {
                assert(has_key(s, k));
            }
        }
        lemma_lex_connex(k, s[0].0);
        let t = s.skip(1);
        assert(forall|i: int| 0 <= i < t.len() ==> #[trigger] t[i] == s[i + 1]);
        assert(sorted_keys(t));
        assert(!has_key(t, k)) by {
            if has_key(t, k) {
                let w = idx_of(t, k);
                assert(0 <= w < t.len() && t[w].0 == k);
                assert(has_key(s, k));
            }
        }
        lemma_insert_pos(t, k);
        let p = insert_pos(s, k);
        assert forall|i: int| 0 <= i < p implies lex_lt((#[trigger] s[i]).0, k) by {
            if i > 0 {
                assert(t[i - 1] == s[i]);
            }
        }
        assert forall|i: int| p <= i < s.len() implies lex_lt(k, (#[trigger] s[i]).0) by {
            assert(t[i - 1] == s[i]);
        }
    }
}

/// Any position with that splitting property is the insertion position.
pub proof fn lemma_insert_pos_unique<T>(s: Seq<(Seq<u8>, T)>, k: Seq<u8>, p: int)
    requires
        sorted_keys(s),
        !has_key(s, k),
        0 <= p <= s.len(),
        forall|i: int| 0 <= i < p ==> lex_lt((#[trigger] s[i]).0, k),
        forall|i: int| p <= i < s.len() ==> lex_lt(k, (#[trigger] s[i]).0),
    ensures
        p == insert_pos(s, k),
{
    lemma_insert_pos(s, k);
    let q = insert_pos(s, k);
    if p < q {
        lemma_lex_asym(s[p].0, k);
        assert(false);
    } else if q < p {
        lemma_lex_asym(s[q].0, k);
        assert(false);
    }
}

/// Shape of a miss insertion: entries before the position keep their index,
/// the new entry sits at the position, later entries shift up by one.
pub proof fn lemma_put_shape<T>(s: Seq<(Seq<u8>, T)>, k: Seq<u8>, v: T)
    requires
        !has_key(s, k),
    ensures
        0 <= insert_pos(s, k) <= s.len(),
        entries_put(s, k, v).len() == s.len() + 1,
        forall|x: int|
            0 <= x < insert_pos(s, k) ==> #[trigger] entries_put(s, k, v)[x] == s[x],
        entries_put(s, k, v)[insert_pos(s, k)] == (k, v),
        forall|x: int|
            insert_pos(s, k) < x < s.len() + 1 ==> #[trigger] entries_put(s, k, v)[x] == s[x - 1],
{
    lemma_insert_pos_bounds(s, k);
}

/// Insertion stores the given value under the given key, keeps keys unique,
/// and keeps them sorted.
pub proof fn lemma_put_same<T>(s: Seq<(Seq<u8>, T)>, k: Seq<u8>, v: T)
    requires
        uniq(s),
    ensures
        uniq(entries_put(s, k, v)),
        has_key(entries_put(s, k, v), k),
        value_of(entries_put(s, k, v), k) == v,
        entries_put(s, k, v).len() == if has_key(s, k) {
            s.len()
        } else {
            s.len() + 1
        },
        sorted_keys(s) ==> sorted_keys(entries_put(s, k, v)),
{
    let p = entries_put(s, k, v);
    if has_key(s, k) {
        let i = idx_of(s, k);
        assert(0 <= i < s.len() && s[i].0 == k);
        assert(forall|x: int| 0 <= x < s.len() ==> (#[trigger] p[x]).0 == s[x].0);
        assert(uniq(p));
        assert(sorted_keys(s) ==> sorted_keys(p));
        lemma_idx_of(p, k, i);
    } else {
        lemma_put_shape(s, k, v);
        let q = insert_pos(s, k);
        assert(forall|x: int| 0 <= x < s.len() ==> (#[trigger] s[x]).0 != k) by {
            if exists|x: int| 0 <= x < s.len() && (#[trigger] s[x]).0 == k {
                assert(has_key(s, k));
            }
        }
        assert forall|x: int, y: int| 0 <= x < y < p.len() implies (#[trigger] p[x]).0 != (
        #[trigger] p[y]).0 by {
            if x == q {
                assert(p[y] == s[y - 1]);
            } else if y == q {
                assert(p[x] == s[x]);
            } else {
                let sx: int = if x < q {
                    x
                } else {
                    x - 1
                };
                let sy: int = if y < q {
                    y
                } else {
                    y - 1
                };
                assert(p[x] == s[sx]);
                assert(p[y] == s[sy]);
                assert(s[sx].0 != s[sy].0);
            }
        }
        lemma_idx_of(p, k, q);
        if sorted_keys(s) {
            lemma_insert_pos(s, k);
            assert forall|x: int, y: int| 0 <= x < y < p.len() implies lex_lt(
                (#[trigger] p[x]).0,
                (#[trigger] p[y]).0,
            ) by {
                if x == q {
                    assert(p[y] == s[y - 1]);
                } else if y == q {
                    assert(p[x] == s[x]);
                } else {
                    let sx: int = if x < q {
                        x
                    } else {
                        x - 1
                    };
                    let sy: int = if y < q {
                        y
                    } else {
                        y - 1
                    };
                    assert(p[x] == s[sx]);
                    assert(p[y] == s[sy]);
                    assert(lex_lt(s[sx].0, s[sy].0));
                }
            }
        }
    }
}

/// Insertion under one key leaves every other key's presence and value alone.
pub proof fn lemma_put_other<T>(s: Seq<(Seq<u8>, T)>, k: Seq<u8>, v: T, k2: Seq<u8>)
    requires
        uniq(s),
        k2 != k,
    ensures
        has_key(entries_put(s, k, v), k2) == has_key(s, k2),
        has_key(s, k2) ==> value_of(entries_put(s, k, v), k2) == value_of(s, k2),
{
    let p = entries_put(s, k, v);
    lemma_put_same(s, k, v);
    if has_key(s, k) {
        assert(forall|x: int| 0 <= x < s.len() ==> (#[trigger] p[x]).0 == s[x].0);
        if has_key(s, k2) {
            let j = idx_of(s, k2);
            assert(0 <= j < s.len() && s[j].0 == k2);
            assert(p[j].0 == k2);
            assert(p[j].1 == s[j].1);
            lemma_idx_of(p, k2, j);
            lemma_idx_of(s, k2, j);
        } else {
            if has_key(p, k2) {
                let j = idx_of(p, k2);
                assert(0 <= j < p.len() && p[j].0 == k2);
                assert(s[j].0 == k2);
                assert(false);
            }
        }
    } else {
        lemma_put_shape(s, k, v);
        let q = insert_pos(s, k);
        if has_key(s, k2) {
            let j = idx_of(s, k2);
            assert(0 <= j < s.len() && s[j].0 == k2);
            let tj: int = if j < q {
                j
            } else {
                j + 1
            };
            assert(p[tj] == s[j]);
            lemma_idx_of(p, k2, tj);
            lemma_idx_of(s, k2, j);
        } else {
            if has_key(p, k2) {
                let j = idx_of(p, k2);
                assert(0 <= j < p.len() && p[j].0 == k2);
                if j < q {
                    assert(p[j] == s[j]);
                    assert(has_key(s, k2));
                } else if j > q {
                    assert(p[j] == s[j - 1]);
                    assert(has_key(s, k2));
                }
                assert(false);
            }
        }
    }
}

/// Canonical representation: two key-sorted stores that hold the same
/// key-to-value mapping are the same entry sequence — so every digest
/// computed over their entries agrees, however the common state was built.
pub proof fn lemma_sorted_canonical<T>(s1: Seq<(Seq<u8>, T)>, s2: Seq<(Seq<u8>, T)>)
    requires
        sorted_keys(s1),
        sorted_keys(s2),
        forall|k: Seq<u8>| #![trigger has_key(s1, k)] has_key(s1, k) == has_key(s2, k),
        forall|k: Seq<u8>|
            #![trigger value_of(s1, k)]
            has_key(s1, k) ==> value_of(s1, k) == value_of(s2, k),
    ensures
        s1 == s2,
    decreases s1.len(),
{
    lemma_sorted_uniq(s1);
    lemma_sorted_uniq(s2);
    if s1.len() == 0 {
        if s2.len() > 0 {
            assert(has_key(s2, s2[0].0));
            assert(has_key(s1, s2[0].0));
            let w = idx_of(s1, s2[0].0);
            assert(0 <= w < s1.len());
            assert(false);
        }
        assert(s1 =~= s2);
    } else if s2.len() == 0 {
        assert(has_key(s1, s1[0].0));
        assert(has_key(s2, s1[0].0));
        let w = idx_of(s2, s1[0].0);
        assert(0 <= w < s2.len());
        assert(false);
    } else {
        assert(s1[0].0 == s2[0].0) by {
            if s1[0].0 != s2[0].0 {
                lemma_lex_connex(s1[0].0, s2[0].0);
                if lex_lt(s1[0].0, s2[0].0) {
                    assert(has_key(s1, s1[0].0));
                    assert(has_key(s2, s1[0].0));
                    let j = idx_of(s2, s1[0].0);
                    assert(0 <= j < s2.len() && s2[j].0 == s1[0].0);
                    assert(j > 0);
                    lemma_lex_asym(s1[0].0, s2[0].0);
                    assert(false);
                } else {
                    assert(has_key(s2, s2[0].0));
                    assert(has_key(s1, s2[0].0));
                    let j = idx_of(s1, s2[0].0);
                    assert(0 <= j < s1.len() && s1[j].0 == s2[0].0);
                    assert(j > 0);
                    lemma_lex_asym(s2[0].0, s1[0].0);
                    assert(false);
                }
            }
        }
        lemma_idx_of(s1, s1[0].0, 0);
        lemma_idx_of(s2, s2[0].0, 0);
        assert(value_of(s1, s1[0].0) == value_of(s2, s1[0].0));
        assert(s1[0].1 == s2[0].1);
        let t1 = s1.skip(1);
        let t2 = s2.skip(1);
        assert(forall|i: int| 0 <= i < t1.len() ==> #[trigger] t1[i] == s1[i + 1]);
        assert(forall|i: int| 0 <= i < t2.len() ==> #[trigger] t2[i] == s2[i + 1]);
        assert(sorted_keys(t1));
        assert(sorted_keys(t2));
        lemma_sorted_uniq(t1);
        lemma_sorted_uniq(t2);
        assert forall|k: Seq<u8>| #![trigger has_key(t1, k)] has_key(t1, k) == has_key(
            t2,
            k,
        ) by {
            if has_key(t1, k) {
                let w = idx_of(t1, k);
                assert(0 <= w < t1.len() && t1[w].0 == k);
                lemma_idx_of(s1, k, w + 1);
                assert(has_key(s2, k));
                let j = idx_of(s2, k);
                assert(0 <= j < s2.len() && s2[j].0 == k);
                assert(j != 0);
                assert(t2[j - 1].0 == k);
                assert(has_key(t2, k));
            }
            if has_key(t2, k) {
                let w = idx_of(t2, k);
                assert(0 <= w < t2.len() && t2[w].0 == k);
                lemma_idx_of(s2, k, w + 1);
                assert(has_key(s1, k));
                let j = idx_of(s1, k);
                assert(0 <= j < s1.len() && s1[j].0 == k);
                assert(j != 0);
                assert(t1[j - 1].0 == k);
                assert(has_key(t1, k));
            }
        }
        assert forall|k: Seq<u8>|
            #![trigger value_of(t1, k)]
            has_key(t1, k) implies value_of(t1, k) == value_of(t2, k) by {
            let w = idx_of(t1, k);
            assert(0 <= w < t1.len() && t1[w].0 == k);
            lemma_idx_of(t1, k, w);
            lemma_idx_of(s1, k, w + 1);
            assert(value_of(t1, k) == value_of(s1, k));
            assert(has_key(t2, k));
            let j = idx_of(t2, k);
            assert(0 <= j < t2.len() && t2[j].0 == k);
            lemma_idx_of(t2, k, j);
            lemma_idx_of(s2, k, j + 1);
            assert(value_of(t2, k) == value_of(s2, k));
        }
        lemma_sorted_canonical(t1, t2);
        assert forall|i: int| 0 <= i < s1.len() implies s1[i] == s2[i] by {
            if i > 0 {
                assert(t1[i - 1] == s1[i]);
                assert(t2[i - 1] == s2[i]);
            }
        }
        assert(s1 =~= s2);
    }
}

/// An authenticated table: entries sorted by key, keys unique.
pub struct ProofMap<V> {
    pub keys: Vec<Vec<u8>>,
    pub vals: Vec<V>,
}

impl<V: View> View for ProofMap<V> {
    type V = Seq<(Seq<u8>, <V as View>::V)>;

    open spec fn view(&self) -> Seq<(Seq<u8>, <V as View>::V)> {
        Seq::new(self.keys@.len() as nat, |i: int| (self.keys@[i]@, self.vals@[i]@))
    }
}

impl<V: View> ProofMap<V> {
    /// The representation holds one value per key, and keys are sorted and
    /// unique.
    pub open spec fn wf(&self) -> bool {
        self.keys@.len() == self.vals@.len() && uniq(self@) && sorted_keys(self@)
    }

    /// An empty table.
    pub fn new() -> (r: Self)
        ensures
            r.wf(),
            r@ == Seq::<(Seq<u8>, <V as View>::V)>::empty(),
    {
        let r = ProofMap { keys: Vec::new(), vals: Vec::new() };
        proof {
            assert(r@ =~= Seq::<(Seq<u8>, <V as View>::V)>::empty());
        }
        r
    }

    /// Number of stored entries.
    pub fn len(&self) -> (r: usize)
        ensures
            r == self@.len(),
    {
        self.keys.len()
    }

    /// Index of the entry with key `k`, or the position where it would be
    /// inserted to keep keys sorted.
    pub(crate) fn locate(&self, k: &Vec<u8>) -> (r: Result<usize, usize>)
        requires
            self.wf(),
        ensures
            match r {
                Ok(i) => i < self@.len() && self@[i as int].0 == k@ && has_key(self@, k@)
                    && idx_of(self@, k@) == i,
                Err(p) => !has_key(self@, k@) && p <= self@.len() && p == insert_pos(self@, k@),
            },
    {
        let mut i: usize = 0;
        while i < self.keys.len()
            invariant
                self.wf(),
                i <= self.keys@.len(),
                forall|j: int| 0 <= j < i ==> lex_lt((#[trigger] self@[j]).0, k@),
            decreases self.keys@.len() - i,
        {
            if bytes_eq(&self.keys[i], k) {
                proof {
                    lemma_idx_of(self@, k@, i as int);
                }
                return Ok(i);
            }
            if lex_less(k, &self.keys[i]) {
                proof {
                    assert(!has_key(self@, k@)) by {
                        if has_key(self@, k@) {
                            let w = idx_of(self@, k@);
                            assert(0 <= w < self@.len() && self@[w].0 == k@);
                            if w < i {
                                lemma_lex_asym(k@, k@);
                            } else if w > i {
                                assert(lex_lt(self@[i as int].0, self@[w].0));
                                lemma_lex_asym(k@, self@[i as int].0);
                            }
                            assert(false);
                        }
                    }
                    assert forall|j: int| i <= j < self@.len() implies lex_lt(
                        k@,
                        (#[trigger] self@[j]).0,
                    ) by {
                        if j > i {
                            lemma_lex_trans(k@, self@[i as int].0, self@[j].0);
                        }
                    }
                    lemma_insert_pos_unique(self@, k@, i as int);
                }
                return Err(i);
            }
            proof {
                lemma_lex_connex(self@[i as int].0, k@);
            }
            i = i + 1;
        }
        proof {
            assert(!has_key(self@, k@)) by {
                if has_key(self@, k@) {
                    let w = idx_of(self@, k@);
                    assert(0 <= w < self@.len() && self@[w].0 == k@);
                    lemma_lex_asym(k@, k@);
                }
            }
            lemma_insert_pos_unique(self@, k@, self.keys@.len() as int);
        }
        Err(self.keys.len())
    }

    /// Whether a value is stored under key `k`.
    pub fn contains_key(&self, k: &Vec<u8>) -> (r: bool)
        requires
            self.wf(),
        ensures
            r == has_key(self@, k@),
    {
        match self.locate(k) {
            Ok(_) => true,
            Err(_) => false,
        }
    }

    /// The value stored under key `k`, if any.
    pub fn get(&self, k: &Vec<u8>) -> (r: Option<&V>)
        requires
            self.wf(),
        ensures
            match r {
                Some(v) => has_key(self@, k@) && v@ == value_of(self@, k@),
                None => !has_key(self@, k@),
            },
    {
        match self.locate(k) {
            Ok(i) => Some(&self.vals[i]),
            Err(_) => None,
        }
    }

    /// Idempotent-overwrite insertion: last write wins, keys stay sorted.
    pub fn put(&mut self, k: Vec<u8>, v: V)
        requires
            old(self).wf(),
        ensures
            final(self).wf(),
            final(self)@ == entries_put(old(self)@, k@, v@),
    {
        let ghost s = self@;
        proof {
            lemma_put_same(s, k@, v@);
        }
        match self.locate(&k) {
            Ok(i) => {
                self.keys.set(i, k);
                self.vals.set(i, v);
                proof {
                    assert(self@ =~= s.update(idx_of(s, k@), (k@, v@)));
                }
            },
            Err(p) => {
                self.keys.insert(p, k);
                self.vals.insert(p, v);
                proof {
                    lemma_put_shape(s, k@, v@);
                    old(self).keys@.insert_ensures(p as int, k);
                    old(self).vals@.insert_ensures(p as int, v);
                    assert forall|x: int| 0 <= x < self@.len() implies self@[x] == entries_put(
                        s,
                        k@,
                        v@,
                    )[x] by {
                        if x < p {
                            assert(self.keys@[x] == old(self).keys@[x]);
                            assert(self.vals@[x] == old(self).vals@[x]);
                        } else if x > p {
                            assert(self.keys@[x] == old(self).keys@[x - 1]);
                            assert(self.vals@[x] == old(self).vals@[x - 1]);
                        }
                    }
                    assert(self@ =~= entries_put(s, k@, v@));
                }
            },
        }
    }
}

} // verus!
