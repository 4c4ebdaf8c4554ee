//! The backing key-value store: an ordered map from byte buffers to byte
//! buffers with point operations, atomic batch application, and a retain
//! sweep that keeps exactly a given set of keys.

use vstd::prelude::*;

use crate::ivec::IVec;
use crate::order::{lex_lt, lemma_lex_transitive, lemma_lex_trichotomy};

verus! {

/// Size and key-count statistics of the store.
#[derive(Clone, Copy, Debug)]
pub struct DBStats {
    pub db_size: usize,
    pub keys: usize,
}

/// Errors of the store layer.
#[derive(Debug)]
pub enum DBError {
    NotFoundErr,
    SchemaError,
}

/// Iteration direction.
pub enum Direction {
    Forward,
    Reverse,
}

/// Where iteration looks: the first entry, the last, or relative to a key.
pub enum IteratorMode {
    Start,
    End,
    From(IVec, Direction),
}

/// A set of writes applied atomically; a pair with `None` removes the key.
pub struct Batch {
    pub(crate) writes: Vec<(IVec, Option<IVec>)>,
}

/// The shape of a batch: key bytes with the written value, `None` for a
/// removal.
pub open spec fn batch_view(s: Seq<(IVec, Option<IVec>)>) -> Seq<(Seq<u8>, Option<Seq<u8>>)> {
    s.map(
        |i: int, p: (IVec, Option<IVec>)|
            (
                p.0@,
                match p.1 {
                    None => None,
                    Some(v) => Some(v@),
                },
            ),
    )
}

impl Batch {
    /// The writes, in order; a later write to a key wins.
    pub closed spec fn view(self) -> Seq<(Seq<u8>, Option<Seq<u8>>)> {
        batch_view(self.writes@)
    }

    /// An empty batch.
    pub fn new() -> (r: Batch)
        ensures
            r@ == Seq::<(Seq<u8>, Option<Seq<u8>>)>::empty(),
    {
        let b = Batch { writes: Vec::new() };
        proof {
            assert(b@ =~= Seq::<(Seq<u8>, Option<Seq<u8>>)>::empty());
        }
        b
    }

    /// Record a write of `value` under `key`.
    pub fn insert(&mut self, key: IVec, value: IVec)
        ensures
            final(self)@ == old(self)@.push((key@, Some(value@))),
    {
        self.writes.push((key, Some(value)));
        proof {
            assert(self@ =~= old(self)@.push((key@, Some(value@))));
        }
    }

    /// Record a removal of `key`.
    pub fn remove(&mut self, key: IVec)
        ensures
            final(self)@ == old(self)@.push((key@, None)),
    {
        self.writes.push((key, None));
        proof {
            assert(self@ =~= old(self)@.push((key@, None::<Seq<u8>>)));
        }
    }
}

/// The map a sorted entry list denotes.
pub open spec fn kv_map(s: Seq<(IVec, IVec)>) -> Map<Seq<u8>, Seq<u8>>
    decreases s.len(),
{
    if s.len() == 0 {
        Map::empty()
    } else {
        kv_map(s.drop_last()).insert(s.last().0@, s.last().1@)
    }
}

/// Entries strictly sorted by key bytes.
pub open spec fn kv_sorted(s: Seq<(IVec, IVec)>) -> bool {
    forall|i: int, j: int| 0 <= i < j < s.len() ==> lex_lt(s[i].0@, s[j].0@)
}

/// Every key of an entry is in the denoted map, with that entry's value,
/// as long as keys are distinct.
pub proof fn lemma_kv_map_index(s: Seq<(IVec, IVec)>, i: int)
    requires
        forall|p: int, q: int| 0 <= p < q < s.len() ==> s[p].0@ != s[q].0@,
        0 <= i < s.len(),
    ensures
        kv_map(s).contains_key(s[i].0@),
        kv_map(s)[s[i].0@] == s[i].1@,
    decreases s.len(),
{
    if i < s.len() - 1 {
        lemma_kv_map_index(s.drop_last(), i);
        assert(s.drop_last()[i] == s[i]);
        assert(s[i].0@ != s.last().0@);
    }
}

/// A key no entry carries is not in the denoted map.
pub proof fn lemma_kv_map_absent(s: Seq<(IVec, IVec)>, k: Seq<u8>)
    requires
        forall|i: int| 0 <= i < s.len() ==> s[i].0@ != k,
    ensures
        !kv_map(s).contains_key(k),
    decreases s.len(),
{
    if s.len() > 0 {
        lemma_kv_map_absent(s.drop_last(), k);
    }
}

/// A key of the denoted map is the key of some entry.
pub proof fn lemma_kv_map_domain(s: Seq<(IVec, IVec)>, k: Seq<u8>)
    requires
        kv_map(s).contains_key(k),
    ensures
        exists|i: int| 0 <= i < s.len() && s[i].0@ == k,
    decreases s.len(),
{
    if s.len() > 0 && s.last().0@ != k {
        lemma_kv_map_domain(s.drop_last(), k);
        let i = choose|i: int| 0 <= i < s.drop_last().len() && s.drop_last()[i].0@ == k;
        assert(s[i].0@ == k);
    } else if s.len() > 0 {
        assert(s[s.len() - 1].0@ == k);
    }
}

/// Inserting a fresh key at any position inserts it into the denoted map.
pub proof fn lemma_kv_map_insert(s: Seq<(IVec, IVec)>, pos: int, e: (IVec, IVec))
    requires
        0 <= pos <= s.len(),
        forall|i: int| 0 <= i < s.len() ==> s[i].0@ != e.0@,
    ensures
        kv_map(s.insert(pos, e)) == kv_map(s).insert(e.0@, e.1@),
    decreases s.len(),
{
    if pos == s.len() {
        assert(s.insert(pos, e).drop_last() =~= s);
        assert(s.insert(pos, e).last() == e);
    } else {
        assert(s.insert(pos, e).drop_last() =~= s.drop_last().insert(pos, e));
        assert(s.insert(pos, e).last() == s.last());
        lemma_kv_map_insert(s.drop_last(), pos, e);
        assert(kv_map(s.drop_last()).insert(e.0@, e.1@).insert(s.last().0@, s.last().1@)
            =~= kv_map(s.drop_last()).insert(s.last().0@, s.last().1@).insert(e.0@, e.1@));
    }
}

/// Replacing the entry that carries a key overwrites it in the denoted map.
pub proof fn lemma_kv_map_update(s: Seq<(IVec, IVec)>, pos: int, e: (IVec, IVec))
    requires
        0 <= pos < s.len(),
        s[pos].0@ == e.0@,
        forall|p: int, q: int| 0 <= p < q < s.len() ==> s[p].0@ != s[q].0@,
    ensures
        kv_map(s.update(pos, e)) == kv_map(s).insert(e.0@, e.1@),
    decreases s.len(),
{
    if pos == s.len() - 1 {
        assert(s.update(pos, e).drop_last() =~= s.drop_last());
        assert(s.update(pos, e).last() == e);
        assert(kv_map(s.drop_last()).insert(e.0@, e.1@) =~= kv_map(s.drop_last()).insert(
            s.last().0@,
            s.last().1@,
        ).insert(e.0@, e.1@));
    } else {
        assert(s.update(pos, e).drop_last() =~= s.drop_last().update(pos, e));
        assert(s.update(pos, e).last() == s.last());
        lemma_kv_map_update(s.drop_last(), pos, e);
        assert(s[pos].0@ != s.last().0@);
        assert(kv_map(s.drop_last()).insert(e.0@, e.1@).insert(s.last().0@, s.last().1@)
            =~= kv_map(s.drop_last()).insert(s.last().0@, s.last().1@).insert(e.0@, e.1@));
    }
}

/// Removing the entry that carries a key removes it from the denoted map.
pub proof fn lemma_kv_map_remove(s: Seq<(IVec, IVec)>, pos: int)
    requires
        0 <= pos < s.len(),
        forall|p: int, q: int| 0 <= p < q < s.len() ==> s[p].0@ != s[q].0@,
    ensures
        kv_map(s.remove(pos)) == kv_map(s).remove(s[pos].0@),
    decreases s.len(),
{
    if pos == s.len() - 1 {
        assert(s.remove(pos) =~= s.drop_last());
        lemma_kv_map_absent_of_distinct(s, pos);
        assert(kv_map(s.drop_last()) =~= kv_map(s.drop_last()).insert(
            s.last().0@,
            s.last().1@,
        ).remove(s.last().0@));
    } else {
        assert(s.remove(pos).drop_last() =~= s.drop_last().remove(pos));
        assert(s.remove(pos).last() == s.last());
        lemma_kv_map_remove(s.drop_last(), pos);
        assert(s[pos].0@ != s.last().0@);
        assert(kv_map(s.drop_last()).remove(s[pos].0@).insert(s.last().0@, s.last().1@)
            =~= kv_map(s.drop_last()).insert(s.last().0@, s.last().1@).remove(s[pos].0@));
    }
}

/// With distinct keys, the map denoted by all entries but the one at `pos`
/// does not contain that entry's key.
proof fn lemma_kv_map_absent_of_distinct(s: Seq<(IVec, IVec)>, pos: int)
    requires
        0 <= pos < s.len(),
        pos == s.len() - 1,
        forall|p: int, q: int| 0 <= p < q < s.len() ==> s[p].0@ != s[q].0@,
    ensures
        !kv_map(s.drop_last()).contains_key(s[pos].0@),
{
    assert forall|i: int| 0 <= i < s.drop_last().len() implies s.drop_last()[i].0@ != s[pos].0@ by {
        assert(s[i].0@ != s[pos].0@);
    }
    lemma_kv_map_absent(s.drop_last(), s[pos].0@);
}

/// With distinct keys, the denoted map has exactly one key per entry.
pub proof fn lemma_kv_map_len(s: Seq<(IVec, IVec)>)
    requires
        forall|p: int, q: int| 0 <= p < q < s.len() ==> s[p].0@ != s[q].0@,
    ensures
        kv_map(s).len() == s.len(),
        kv_map(s).dom().finite(),
    decreases s.len(),
{
    if s.len() > 0 {
        lemma_kv_map_len(s.drop_last());
        assert forall|i: int|
            0 <= i < s.drop_last().len() implies s.drop_last()[i].0@ != s.last().0@ by {
            assert(s[i].0@ != s[s.len() - 1].0@);
        }
        lemma_kv_map_absent(s.drop_last(), s.last().0@);
    }
}

/// The single logical ordered map backing the Merkle engine.
pub struct DB {
    inner: Vec<(IVec, IVec)>,
}

impl DB {
    /// The entries in key order.
    pub closed spec fn seq_view(self) -> Seq<(IVec, IVec)> {
        self.inner@
    }

    /// The map held.
    pub closed spec fn view(self) -> Map<Seq<u8>, Seq<u8>> {
        kv_map(self.inner@)
    }

    /// Entries sorted strictly by key: the store's invariant.
    pub closed spec fn inv(self) -> bool {
        kv_sorted(self.inner@)
    }

    /// A sorted store holds exactly one map key per entry.
    pub proof fn lemma_len(self)
        requires
            self.inv(),
        ensures
            self@.len() == self.seq_view().len(),
            self@.dom().finite(),
    {
        assert forall|p: int, q: int|
            0 <= p < q < self.inner@.len() implies self.inner@[p].0@ != self.inner@[q].0@ by {
            lemma_lex_trichotomy(self.inner@[p].0@, self.inner@[q].0@);
        }
        lemma_kv_map_len(self.inner@);
    }

    /// Keys of a sorted store are distinct.
    pub proof fn lemma_distinct(self)
        requires
            self.inv(),
        ensures
            forall|p: int, q: int|
                0 <= p < q < self.seq_view().len() ==> self.seq_view()[p].0@
                    != self.seq_view()[q].0@,
    {
        assert forall|p: int, q: int|
            0 <= p < q < self.seq_view().len() implies self.seq_view()[p].0@
            != self.seq_view()[q].0@ by {
            lemma_lex_trichotomy(self.seq_view()[p].0@, self.seq_view()[q].0@);
        }
    }

    /// An empty store.
    pub fn new() -> (r: DB)
        ensures
            r.inv(),
            r@ == Map::<Seq<u8>, Seq<u8>>::empty(),
            r.seq_view().len() == 0,
    {
        let db = DB { inner: Vec::new() };
        proof {
            assert(db@ =~= Map::<Seq<u8>, Seq<u8>>::empty());
        }
        db
    }

    /// The number of keys held.
    pub fn len(&self) -> (r: usize)
        ensures
            r == self.seq_view().len(),
    {
        self.inner.len()
    }

    /// The value under `key`, if any.
    pub fn get(&self, key: &[u8]) -> (r: Option<Vec<u8>>)
        requires
            self.inv(),
        ensures
            match r {
                Some(v) => self@.contains_key(key@) && v@ == self@[key@],
                None => !self@.contains_key(key@),
            },
    {
        proof {
            assert forall|p: int, q: int|
                0 <= p < q < self.inner@.len() implies self.inner@[p].0@
                != self.inner@[q].0@ by {
                lemma_lex_trichotomy(self.inner@[p].0@, self.inner@[q].0@);
            }
        }
        let n = self.inner.len();
        let mut i: usize = 0;
        while i < n
            invariant
                i <= n,
                n == self.inner@.len(),
                self.inv(),
                forall|p: int, q: int|
                    0 <= p < q < self.inner@.len() ==> self.inner@[p].0@ != self.inner@[q].0@,
                forall|j: int| 0 <= j < i ==> self.inner@[j].0@ != key@,
            decreases n - i,
        {
            let cmp = crate::order::bytes_cmp(self.inner[i].0.as_slice(), key);
            if cmp == 0 {
                proof {
                    lemma_kv_map_index(self.inner@, i as int);
                }
                return Some(self.inner[i].1.to_vec());
            }
            i = i + 1;
        }
        proof {
            lemma_kv_map_absent(self.inner@, key@);
        }
        None
    }

    /// Whether the store holds `key`.
    pub fn contains(&self, key: &[u8]) -> (r: bool)
        requires
            self.inv(),
        ensures
            r == self@.contains_key(key@),
    {
        self.get(key).is_some()
    }

    /// Store `value` under `key`, overwriting an existing value.
    pub fn put(&mut self, key: IVec, value: IVec)
        requires
            old(self).inv(),
        ensures
            final(self).inv(),
            final(self)@ == old(self)@.insert(key@, value@),
            final(self).seq_view().len() <= old(self).seq_view().len() + 1,
    {
        proof {
            assert forall|p: int, q: int|
                0 <= p < q < self.inner@.len() implies self.inner@[p].0@
                != self.inner@[q].0@ by {
                lemma_lex_trichotomy(self.inner@[p].0@, self.inner@[q].0@);
            }
        }
        let ghost s0 = self.inner@;
        let n = self.inner.len();
        let mut i: usize = 0;
        let mut found: bool = false;
        loop
            invariant_except_break
                !found,
            invariant
                i <= n,
                *self == *old(self),
                n == s0.len(),
                s0 == self.inner@,
                kv_sorted(s0),
                forall|p: int, q: int| 0 <= p < q < s0.len() ==> s0[p].0@ != s0[q].0@,
                forall|j: int| 0 <= j < i ==> lex_lt(s0[j].0@, key@),
            ensures
                i <= n,
                found ==> i < n && s0[i as int].0@ == key@,
                !found ==> i == n || lex_lt(key@, s0[i as int].0@),
            decreases n - i,
        {
            if i == n {
                break ;
            }
            let cmp = self.inner[i].0.compare(&key);
            if cmp == 0 {
                found = true;
                break ;
            }
            if cmp == 1 {
                break ;
            }
            i = i + 1;
        }
        if found {
            proof {
                lemma_kv_map_update(s0, i as int, (key, value));
            }
            self.inner.remove(i);
            self.inner.insert(i, (key, value));
            proof {
                assert(self.inner@ =~= s0.update(i as int, (key, value)));
                assert forall|p: int, q: int|
                    0 <= p < q < self.inner@.len() implies lex_lt(
                    self.inner@[p].0@,
                    self.inner@[q].0@,
                ) by {
                    assert(s0[p].0@ == if p == i {
                        key@
                    } else {
                        self.inner@[p].0@
                    } || true);
                    if p != i && q != i {
                        assert(lex_lt(s0[p].0@, s0[q].0@));
                    } else if p == i {
                        assert(lex_lt(s0[p].0@, s0[q].0@));
                    } else {
                        assert(lex_lt(s0[p].0@, s0[q].0@));
                    }
                }
            }
        } else {
            proof {
                if i < n {
                    lemma_lex_trichotomy(key@, s0[i as int].0@);
                }
                assert forall|j: int| 0 <= j < s0.len() implies s0[j].0@ != key@ by {
                    lemma_lex_trichotomy(key@, s0[j].0@);
                    if j >= i {
                        if j > i && i < n {
                            lemma_lex_transitive(key@, s0[i as int].0@, s0[j].0@);
                        }
                    }
                }
                lemma_kv_map_insert(s0, i as int, (key, value));
            }
            self.inner.insert(i, (key, value));
            proof {
                assert(self.inner@ =~= s0.insert(i as int, (key, value)));
                assert forall|p: int, q: int|
                    0 <= p < q < self.inner@.len() implies lex_lt(
                    self.inner@[p].0@,
                    self.inner@[q].0@,
                ) by {
                    if q < i {
                        assert(lex_lt(s0[p].0@, s0[q].0@));
                    } else if p >= i + 1 {
                        assert(lex_lt(s0[p - 1].0@, s0[q - 1].0@));
                    } else if q == i && p < i {
                        assert(lex_lt(s0[p].0@, key@));
                    } else if p == i {
                        assert(lex_lt(key@, s0[q - 1].0@)) by {
                            if q - 1 > i {
                                lemma_lex_transitive(key@, s0[i as int].0@, s0[q - 1].0@);
                            }
                        }
                    } else {
                        assert(lex_lt(s0[p].0@, key@));
                    }
                }
            }
        }
    }

    /// Remove `key` and what it held, if present.
    pub fn delete(&mut self, key: &IVec)
        requires
            old(self).inv(),
        ensures
            final(self).inv(),
            final(self)@ == old(self)@.remove(key@),
            final(self).seq_view().len() <= old(self).seq_view().len(),
    {
        proof {
            assert forall|p: int, q: int|
                0 <= p < q < self.inner@.len() implies self.inner@[p].0@
                != self.inner@[q].0@ by {
                lemma_lex_trichotomy(self.inner@[p].0@, self.inner@[q].0@);
            }
        }
        let ghost s0 = self.inner@;
        let n = self.inner.len();
        let mut i: usize = 0;
        while i < n
            invariant
                i <= n,
                *self == *old(self),
                n == s0.len(),
                s0 == self.inner@,
                kv_sorted(s0),
                forall|p: int, q: int| 0 <= p < q < s0.len() ==> s0[p].0@ != s0[q].0@,
                forall|j: int| 0 <= j < i ==> s0[j].0@ != key@,
            decreases n - i,
        {
            let cmp = self.inner[i].0.compare(key);
            if cmp == 0 {
                proof {
                    lemma_kv_map_remove(s0, i as int);
                }
                self.inner.remove(i);
                proof {
                    assert(self.inner@ =~= s0.remove(i as int));
                    assert forall|p: int, q: int|
                        0 <= p < q < self.inner@.len() implies lex_lt(
                        self.inner@[p].0@,
                        self.inner@[q].0@,
                    ) by {
                        if q < i {
                            assert(lex_lt(s0[p].0@, s0[q].0@));
                        } else if p >= i {
                            assert(lex_lt(s0[p + 1].0@, s0[q + 1].0@));
                        } else {
                            assert(lex_lt(s0[p].0@, s0[q + 1].0@));
                        }
                    }
                }
                return ;
            }
            i = i + 1;
        }
        proof {
            lemma_kv_map_absent(s0, key@);
            assert(kv_map(s0) =~= kv_map(s0).remove(key@));
        }
    }
}

/// The map after a batch: each write applied in order, a write with `None`
/// removing its key.
pub open spec fn spec_apply_batch(
    m: Map<Seq<u8>, Seq<u8>>,
    w: Seq<(Seq<u8>, Option<Seq<u8>>)>,
) -> Map<Seq<u8>, Seq<u8>>
    decreases w.len(),
{
    if w.len() == 0 {
        m
    } else {
        let m2 = spec_apply_batch(m, w.drop_last());
        match w.last().1 {
            None => m2.remove(w.last().0),
            Some(v) => m2.insert(w.last().0, v),
        }
    }
}

/// Whether `k` is one of the byte strings of `keep`.
pub open spec fn keep_has(keep: Seq<Vec<u8>>, k: Seq<u8>) -> bool {
    exists|i: int| 0 <= i < keep.len() && keep[i]@ == k
}

/// The total bytes held, keys and values together.
pub open spec fn kv_size(s: Seq<(IVec, IVec)>) -> nat
    decreases s.len(),
{
    if s.len() == 0 {
        0
    } else {
        kv_size(s.drop_last()) + s.last().0@.len() + s.last().1@.len()
    }
}

impl DB {
    /// Apply a batch atomically: the store afterwards holds exactly the
    /// batch folded over the store before.
    pub fn write_batch(&mut self, batch: Batch) -> (r: Result<(), DBError>)
        requires
            old(self).inv(),
        ensures
            final(self).inv(),
            final(self)@ == spec_apply_batch(old(self)@, batch@),
            r is Ok,
    {
        let n = batch.writes.len();
        let mut i: usize = 0;
        while i < n
            invariant
                i <= n,
                n == batch.writes@.len(),
                batch@.len() == n,
                self.inv(),
                self@ == spec_apply_batch(old(self)@, batch@.take(i as int)),
                forall|j: int|
                    0 <= j < n ==> batch@[j] == (
                    batch.writes@[j].0@,
                    match batch.writes@[j].1 {
                        None => None::<Seq<u8>>,
                        Some(v) => Some(v@),
                    },
                ),
            decreases n - i,
        {
            let entry = &batch.writes[i];
            match &entry.1 {
                Some(v) => {
                    self.put(entry.0.duplicate(), v.duplicate());
                }
                None => {
                    self.delete(&entry.0);
                }
            }
            proof {
                assert(batch@.take(i as int + 1).drop_last() =~= batch@.take(i as int));
                assert(batch@.take(i as int + 1).last() == batch@[i as int]);
            }
            i = i + 1;
        }
        proof {
            assert(batch@.take(n as int) =~= batch@);
        }
        Ok(())
    }

    /// Whether any byte string of `keep` equals `k`.
    fn member_of(keep: &Vec<Vec<u8>>, k: &IVec) -> (r: bool)
        ensures
            r == keep_has(keep@, k@),
    {
        let n = keep.len();
        let mut i: usize = 0;
        while i < n
            invariant
                i <= n,
                n == keep@.len(),
                forall|j: int| 0 <= j < i ==> keep@[j]@ != k@,
            decreases n - i,
        {
            if crate::order::bytes_cmp(keep[i].as_slice(), k.as_slice()) == 0 {
                return true;
            }
            i = i + 1;
        }
        false
    }

    /// Remove every key that is not in `pred`; what stays keeps its value.
    pub fn retain(&mut self, pred: Vec<Vec<u8>>) -> (r: Result<(), DBError>)
        requires
            old(self).inv(),
        ensures
            final(self).inv(),
            forall|k: Seq<u8>|
                #[trigger] final(self)@.contains_key(k) <==> (old(self)@.contains_key(k)
                    && keep_has(pred@, k)),
            forall|k: Seq<u8>|
                final(self)@.contains_key(k) ==> final(self)@[k] == old(self)@[k],
            final(self).seq_view().len() <= old(self).seq_view().len(),
            r is Ok,
    {
        proof {
            assert forall|p: int, q: int|
                0 <= p < q < self.inner@.len() implies self.inner@[p].0@
                != self.inner@[q].0@ by {
                lemma_lex_trichotomy(self.inner@[p].0@, self.inner@[q].0@);
            }
        }
        let ghost s0 = self.inner@;
        let n = self.inner.len();
        let mut kept: Vec<(IVec, IVec)> = Vec::new();
        let mut i: usize = 0;
        while i < n
            invariant
                i <= n,
                old(self).inner@ == s0,
                n == s0.len(),
                s0 == self.inner@,
                kv_sorted(s0),
                kept@.len() <= i,
                retain_inv(s0, pred@, kept@, i as int),
            decreases n - i,
        {
            let e = &self.inner[i];
            if DB::member_of(&pred, &e.0) {
                let ghost pre = kept@;
                kept.push((e.0.duplicate(), e.1.duplicate()));
                proof {
                    lemma_retain_step_keep(s0, pred@, pre, kept@, i as int);
                }
            } else {
                proof {
                    lemma_retain_step_skip(s0, pred@, kept@, i as int);
                }
            }
            i = i + 1;
        }
        proof {
            lemma_retain_result(s0, pred@, kept@);
        }
        self.inner = kept;
        Ok(())
    }

    /// The number of bytes the store holds, saturating at the machine
    /// limit.
    pub fn db_size(&self) -> (r: usize)
        ensures
            kv_size(self.seq_view()) <= usize::MAX ==> r == kv_size(self.seq_view()),
            kv_size(self.seq_view()) > usize::MAX ==> r == usize::MAX,
    {
        let n = self.inner.len();
        let mut total: usize = 0;
        let mut i: usize = 0;
        while i < n
            invariant
                i <= n,
                n == self.inner@.len(),
                kv_size(self.inner@.take(i as int)) <= usize::MAX ==> total == kv_size(
                    self.inner@.take(i as int),
                ),
                kv_size(self.inner@.take(i as int)) > usize::MAX ==> total == usize::MAX,
            decreases n - i,
        {
            let e = &self.inner[i];
            let klen = e.0.len();
            let vlen = e.1.len();
            if total > usize::MAX - klen {
                total = usize::MAX;
            } else {
                total = total + klen;
            }
            if total > usize::MAX - vlen {
                total = usize::MAX;
            } else {
                total = total + vlen;
            }
            proof {
                assert(self.inner@.take(i as int + 1).drop_last() =~= self.inner@.take(i as int));
                assert(self.inner@.take(i as int + 1).last() == self.inner@[i as int]);
            }
            i = i + 1;
        }
        proof {
            assert(self.inner@.take(n as int) =~= self.inner@);
        }
        total
    }

    /// Size and key-count statistics.
    pub fn get_mem_use_stats(&self) -> (r: Result<DBStats, DBError>)
        ensures
            match r {
                Ok(st) => st.keys == self.seq_view().len() && (kv_size(self.seq_view())
                    <= usize::MAX ==> st.db_size == kv_size(self.seq_view())),
                Err(_) => false,
            },
    {
        Ok(DBStats { db_size: self.db_size(), keys: self.inner.len() })
    }

    /// The entry the given mode sees: the first entry of the store, the
    /// last, the first whose key is at or above a key, or the last entry
    /// when any key is at or above it.
    pub fn iter(&self, mode: IteratorMode) -> (r: Option<(IVec, IVec)>)
        requires
            self.inv(),
        ensures
            (match mode {
                IteratorMode::Start => self.seq_view().len() > 0,
                IteratorMode::End => self.seq_view().len() > 0,
                IteratorMode::From(k, _) => exists|i: int|
                    0 <= i < self.seq_view().len() && !lex_lt(
                        #[trigger] self.seq_view()[i].0@,
                        k@,
                    ),
            }) == (r is Some),
            match mode {
                IteratorMode::Start => r matches Some(p) ==> p.0@ == self.seq_view()[0].0@
                    && p.1@ == self.seq_view()[0].1@,
                IteratorMode::End => r matches Some(p) ==> p.0@ == self.seq_view().last().0@
                    && p.1@ == self.seq_view().last().1@,
                IteratorMode::From(k, Direction::Forward) => r matches Some(p) ==> exists|i: int|
                    0 <= i < self.seq_view().len() && #[trigger] self.seq_view()[i].0@ == p.0@
                        && self.seq_view()[i].1@ == p.1@ && !lex_lt(self.seq_view()[i].0@, k@)
                        && (forall|j: int| 0 <= j < i ==> lex_lt(
                        #[trigger] self.seq_view()[j].0@,
                        k@,
                    )),
                IteratorMode::From(k, Direction::Reverse) => r matches Some(p) ==> p.0@
                    == self.seq_view().last().0@ && p.1@ == self.seq_view().last().1@,
            },
    {
        let n = self.inner.len();
        match mode {
            IteratorMode::Start => {
                if n == 0 {
                    None
                } else {
                    let e = &self.inner[0];
                    proof {
                        assert(self.seq_view()[0].0@ == e.0@ && self.seq_view()[0].1@ == e.1@);
                    }
                    Some((e.0.duplicate(), e.1.duplicate()))
                }
            }
            IteratorMode::End => {
                if n == 0 {
                    None
                } else {
                    let e = &self.inner[n - 1];
                    proof {
                        assert(self.seq_view()[n - 1].0@ == e.0@ && self.seq_view()[n - 1].1@
                            == e.1@);
                    }
                    Some((e.0.duplicate(), e.1.duplicate()))
                }
            }
            IteratorMode::From(k, dir) => {
                let k = &k;
                let mut i: usize = 0;
                while i < n
                    invariant
                        i <= n,
                        self.inv(),
                        n == self.inner@.len(),
                        mode is From,
                        mode->From_0@ == k@,
                        mode->From_1 == dir,
                        forall|j: int| 0 <= j < i ==> lex_lt(#[trigger] self.inner@[j].0@, k@),
                    decreases n - i,
                {
                    let cmp = self.inner[i].0.compare(k);
                    if cmp != -1 {
                        match dir {
                            Direction::Forward => {
                                let e = &self.inner[i];
                                proof {
                                    lemma_lex_trichotomy(e.0@, k@);
                                    assert(self.seq_view()[i as int].0@ == e.0@
                                        && self.seq_view()[i as int].1@ == e.1@);
                                    assert(!lex_lt(self.seq_view()[i as int].0@, k@));
                                    assert forall|j: int| 0 <= j < i implies lex_lt(
                                        #[trigger] self.seq_view()[j].0@,
                                        k@,
                                    ) by {
                                        assert(lex_lt(self.inner@[j].0@, k@));
                                    }
                                    assert(exists|i2: int|
                                        0 <= i2 < self.seq_view().len() && !lex_lt(
                                            #[trigger] self.seq_view()[i2].0@,
                                            k@,
                                        ));
                                }
                                return Some((e.0.duplicate(), e.1.duplicate()));
                            }
                            Direction::Reverse => {
                                let e = &self.inner[n - 1];
                                proof {
                                    lemma_lex_trichotomy(self.inner@[i as int].0@, k@);
                                    assert(!lex_lt(self.seq_view()[i as int].0@, k@));
                                    assert(self.seq_view()[n - 1].0@ == e.0@ && self.seq_view()[n
                                        - 1].1@ == e.1@);
                                    assert(self.seq_view().last() == self.seq_view()[n - 1]);
                                    assert(exists|i2: int|
                                        0 <= i2 < self.seq_view().len() && !lex_lt(
                                            #[trigger] self.seq_view()[i2].0@,
                                            k@,
                                        ));
                                }
                                return Some((e.0.duplicate(), e.1.duplicate()));
                            }
                        }
                    }
                    i = i + 1;
                }
                proof {
                    assert forall|j: int|
                        0 <= j < self.seq_view().len() implies lex_lt(
                        #[trigger] self.seq_view()[j].0@,
                        k@,
                    ) by {
                        assert(lex_lt(self.inner@[j].0@, k@));
                    }
                }
                None
            }
        }
    }

    /// The first entry whose key is at or above `prefix`, if any key is.
    pub fn scan_prefix(&self, prefix: &IVec) -> (r: Option<(IVec, IVec)>)
        requires
            self.inv(),
        ensures
            (exists|i: int|
                0 <= i < self.seq_view().len() && !lex_lt(
                    #[trigger] self.seq_view()[i].0@,
                    prefix@,
                )) == (r is Some),
            r matches Some(p) ==> exists|i: int|
                0 <= i < self.seq_view().len() && #[trigger] self.seq_view()[i].0@ == p.0@
                    && self.seq_view()[i].1@ == p.1@ && !lex_lt(self.seq_view()[i].0@, prefix@)
                    && (forall|j: int| 0 <= j < i ==> lex_lt(
                    #[trigger] self.seq_view()[j].0@,
                    prefix@,
                )),
    {
        self.iter(IteratorMode::From(prefix.duplicate(), Direction::Forward))
    }
}

/// Entry `j` of the kept list is one of the first `i` source entries, and
/// one that the keep set names.
pub open spec fn kept_from_source(
    s0: Seq<(IVec, IVec)>,
    pred: Seq<Vec<u8>>,
    kept: Seq<(IVec, IVec)>,
    i: int,
    j: int,
) -> bool {
    exists|p: int|
        0 <= p < i && s0[p].0@ == kept[j].0@ && s0[p].1@ == kept[j].1@ && keep_has(
            pred,
            s0[p].0@,
        )
}

/// Source entry `p` has a representative in the kept list.
pub open spec fn source_is_kept(
    s0: Seq<(IVec, IVec)>,
    kept: Seq<(IVec, IVec)>,
    p: int,
) -> bool {
    exists|j: int| 0 <= j < kept.len() && kept[j].0@ == s0[p].0@
}

/// The running facts of the retain sweep after `i` source entries: the
/// entries written so far are exactly the kept prefix entries, in order.
pub open spec fn retain_inv(
    s0: Seq<(IVec, IVec)>,
    pred: Seq<Vec<u8>>,
    kept: Seq<(IVec, IVec)>,
    i: int,
) -> bool {
    &&& kv_sorted(kept)
    &&& (forall|j: int| 0 <= j < kept.len() ==> #[trigger] kept_from_source(s0, pred, kept, i, j))
    &&& (forall|p: int|
        0 <= p < i && keep_has(pred, #[trigger] s0[p].0@) ==> source_is_kept(s0, kept, p))
    &&& (forall|j: int, r2: int|
        0 <= j < kept.len() && i <= r2 < s0.len() ==> lex_lt(
            #[trigger] kept[j].0@,
            #[trigger] s0[r2].0@,
        ))
}

/// One retain step that keeps the entry at `i`.
proof fn lemma_retain_step_keep(
    s0: Seq<(IVec, IVec)>,
    pred: Seq<Vec<u8>>,
    pre: Seq<(IVec, IVec)>,
    post: Seq<(IVec, IVec)>,
    i: int,
)
    requires
        kv_sorted(s0),
        0 <= i < s0.len(),
        retain_inv(s0, pred, pre, i),
        keep_has(pred, s0[i].0@),
        post.len() == pre.len() + 1,
        forall|j: int| 0 <= j < pre.len() ==> post[j] == pre[j],
        post.last().0@ == s0[i].0@,
        post.last().1@ == s0[i].1@,
    ensures
        retain_inv(s0, pred, post, i + 1),
{
    let last = post.len() - 1;
    assert forall|j: int| 0 <= j < post.len() implies #[trigger] kept_from_source(
        s0,
        pred,
        post,
        i + 1,
        j,
    ) by {
        if j < pre.len() {
            assert(kept_from_source(s0, pred, pre, i, j));
            let p = choose|p: int|
                0 <= p < i && s0[p].0@ == pre[j].0@ && s0[p].1@ == pre[j].1@ && keep_has(
                    pred,
                    s0[p].0@,
                );
            assert(0 <= p < i + 1 && s0[p].0@ == post[j].0@ && s0[p].1@ == post[j].1@
                && keep_has(pred, s0[p].0@));
        } else {
            assert(0 <= i < i + 1 && s0[i].0@ == post[j].0@ && s0[i].1@ == post[j].1@
                && keep_has(pred, s0[i].0@));
        }
    }
    assert forall|p: int|
        0 <= p < i + 1 && keep_has(pred, #[trigger] s0[p].0@) implies source_is_kept(
        s0,
        post,
        p,
    ) by {
        if p < i {
            assert(source_is_kept(s0, pre, p));
            let j = choose|j: int| 0 <= j < pre.len() && pre[j].0@ == s0[p].0@;
            assert(0 <= j < post.len() && post[j].0@ == s0[p].0@);
        } else {
            assert(0 <= last < post.len() && post[last].0@ == s0[p].0@);
        }
    }
    assert forall|p2: int, q2: int| 0 <= p2 < q2 < post.len() implies lex_lt(
        post[p2].0@,
        post[q2].0@,
    ) by {
        if q2 < last {
            assert(lex_lt(pre[p2].0@, pre[q2].0@));
        } else {
            assert(lex_lt(pre[p2].0@, s0[i].0@));
        }
    }
    assert forall|j: int, r2: int|
        0 <= j < post.len() && i + 1 <= r2 < s0.len() implies lex_lt(
        #[trigger] post[j].0@,
        #[trigger] s0[r2].0@,
    ) by {
        if j < pre.len() {
            assert(lex_lt(pre[j].0@, s0[r2].0@));
        } else {
            assert(lex_lt(s0[i].0@, s0[r2].0@));
        }
    }
}

/// One retain step that drops the entry at `i`.
proof fn lemma_retain_step_skip(
    s0: Seq<(IVec, IVec)>,
    pred: Seq<Vec<u8>>,
    kept: Seq<(IVec, IVec)>,
    i: int,
)
    requires
        kv_sorted(s0),
        0 <= i < s0.len(),
        retain_inv(s0, pred, kept, i),
        !keep_has(pred, s0[i].0@),
    ensures
        retain_inv(s0, pred, kept, i + 1),
{
    assert forall|j: int| 0 <= j < kept.len() implies #[trigger] kept_from_source(
        s0,
        pred,
        kept,
        i + 1,
        j,
    ) by {
        assert(kept_from_source(s0, pred, kept, i, j));
        let p = choose|p: int|
            0 <= p < i && s0[p].0@ == kept[j].0@ && s0[p].1@ == kept[j].1@ && keep_has(
                pred,
                s0[p].0@,
            );
        assert(0 <= p < i + 1 && s0[p].0@ == kept[j].0@ && s0[p].1@ == kept[j].1@ && keep_has(
            pred,
            s0[p].0@,
        ));
    }
    assert forall|p: int|
        0 <= p < i + 1 && keep_has(pred, #[trigger] s0[p].0@) implies source_is_kept(
        s0,
        kept,
        p,
    ) by {
        if p < i {
            assert(source_is_kept(s0, kept, p));
        }
    }
    assert forall|j: int, r2: int|
        0 <= j < kept.len() && i + 1 <= r2 < s0.len() implies lex_lt(
        #[trigger] kept[j].0@,
        #[trigger] s0[r2].0@,
    ) by {
        assert(i <= r2 < s0.len());
    }
}

/// What the finished sweep denotes: exactly the retained part of the map.
proof fn lemma_retain_result(s0: Seq<(IVec, IVec)>, pred: Seq<Vec<u8>>, kept: Seq<(IVec, IVec)>)
    requires
        kv_sorted(s0),
        retain_inv(s0, pred, kept, s0.len() as int),
    ensures
        forall|k: Seq<u8>|
            #[trigger] kv_map(kept).contains_key(k) <==> (kv_map(s0).contains_key(k) && keep_has(
                pred,
                k,
            )),
        forall|k: Seq<u8>|
            kv_map(kept).contains_key(k) ==> kv_map(kept)[k] == kv_map(s0)[k],
{
    let n = s0.len() as int;
    assert forall|p: int, q: int| 0 <= p < q < s0.len() implies s0[p].0@ != s0[q].0@ by {
        lemma_lex_trichotomy(s0[p].0@, s0[q].0@);
    }
    assert forall|p: int, q: int| 0 <= p < q < kept.len() implies kept[p].0@ != kept[q].0@ by {
        lemma_lex_trichotomy(kept[p].0@, kept[q].0@);
    }
    assert forall|k: Seq<u8>|
        #[trigger] kv_map(kept).contains_key(k) implies (kv_map(s0).contains_key(k) && keep_has(
        pred,
        k,
    ) && kv_map(kept)[k] == kv_map(s0)[k]) by {
        lemma_kv_map_domain(kept, k);
        let j = choose|j: int| 0 <= j < kept.len() && kept[j].0@ == k;
        lemma_kv_map_index(kept, j);
        assert(kept_from_source(s0, pred, kept, n, j));
        let p = choose|p: int|
            0 <= p < n && s0[p].0@ == kept[j].0@ && s0[p].1@ == kept[j].1@ && keep_has(
                pred,
                s0[p].0@,
            );
        lemma_kv_map_index(s0, p);
    }
    assert forall|k: Seq<u8>|
        kv_map(s0).contains_key(k) && keep_has(pred, k) implies #[trigger] kv_map(
        kept,
    ).contains_key(k) by {
        lemma_kv_map_domain(s0, k);
        let p = choose|p: int| 0 <= p < s0.len() && s0[p].0@ == k;
        assert(keep_has(pred, s0[p].0@));
        assert(source_is_kept(s0, kept, p));
        let j = choose|j: int| 0 <= j < kept.len() && kept[j].0@ == s0[p].0@;
        lemma_kv_map_index(kept, j);
    }
}

} // verus!
