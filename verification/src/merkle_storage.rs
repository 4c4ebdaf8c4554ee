//! The Merkle storage engine: a hierarchical key/value namespace with
//! git-like history.  Edits work on a staging tree; a commit hashes the
//! staging tree, writes every entry reachable from the new commit to the
//! backing store in one batch, and moves the head; checkout replaces the
//! staging tree with a committed one; garbage collection keeps exactly
//! what the head still reaches.

use vstd::prelude::*;

use crate::bytes::clone_bytes;
use hex;
use crate::codec::{decode_entry, encode_entry, spec_decode_entry, spec_encode_entry};
use crate::database::{spec_apply_batch, Batch, DBStats, DB};
use crate::entry::{nodes_view, Commit, Entry, EntryV, Node, NodeKind, NodeV};
use crate::hash::{
    hash_commit, hash_stage_child, hash_stage_tree, spec_blob_hash, spec_commit_hash,
    spec_dir_hash, stage_child_hash, EntryHash,
};
use crate::tree::{
    apply_change, child_lookup, child_view, dir_get, entries_view, lemma_apply_is_dir,
    lemma_apply_wf, lemma_entries_view, lemma_find_wf, path_view, seg_bytes, spec_apply,
    spec_find, stage_lookup, wf_dir, ChildV, StageChild, StageTree,
};

verus! {

/// A path: an ordered sequence of segments.
pub type ContextKey = Vec<String>;

/// Opaque stored bytes.
pub type ContextValue = Vec<u8>;

/// What a navigation step found or sought.
#[derive(Clone, Copy, PartialEq, Eq, Structural, Debug)]
pub enum StructureKind {
    Tree,
    Blob,
    Commit,
    TreeOrBlob,
}

/// The engine's errors.
#[derive(Debug)]
pub enum MerkleError {
    /// Propagated from the backing store.
    DBError { error: crate::database::DBError },
    /// An entry's bytes do not decode.
    SerializationError,
    /// No root could be retrieved for a commit.
    CommitRootNotFound,
    /// A commit was requested without a predecessor.
    MissingAncestorCommit,
    /// The path holds a tree, not a value.
    ValueIsNotABlob { key: ContextKey },
    /// Navigation found the wrong kind of entry.
    FoundUnexpectedStructure { sought: StructureKind, found: StructureKind },
    /// A hash that nothing in the store carries.
    EntryNotFound { hash: EntryHash },
    /// No value under the key.
    ValueNotFound { key: ContextKey },
    /// An empty key cannot address a value.
    KeyEmpty,
    /// A byte string that is not a 32-byte hash.
    HashConversionError,
}

/// An owned copy of a context key.
fn clone_key(key: &ContextKey) -> (r: ContextKey)
    ensures
        r@ == key@,
{
    let mut r: Vec<String> = Vec::new();
    let n = key.len();
    let mut i: usize = 0;
    while i < n
        invariant
            i <= n,
            n == key@.len(),
            r@ == key@.take(i as int),
        decreases n - i,
    {
        r.push(key[i].clone());
        proof {
            assert(r@ =~= key@.take(i as int + 1));
        }
        i = i + 1;
    }
    proof {
        assert(key@.take(n as int) =~= key@);
    }
    r
}

/// The 32-byte content address of an entry, as an owned key for the store.
fn hash_key(h: &EntryHash) -> (r: crate::ivec::IVec)
    ensures
        r@ == h@,
{
    crate::ivec::IVec::from_vec(vstd::slice::slice_to_vec(h.as_slice()))
}

/// What a hash resolves to in the store.
pub ghost enum Resolved {
    Missing,
    Corrupt,
    Entry(EntryV),
}

/// Resolve a hash against the store: absent, undecodable, or an entry.
pub open spec fn resolve(store: Map<Seq<u8>, Seq<u8>>, h: Seq<u8>) -> Resolved {
    if !store.contains_key(h) {
        Resolved::Missing
    } else {
        match spec_decode_entry(store[h]) {
            None => Resolved::Corrupt,
            Some(e) => Resolved::Entry(e),
        }
    }
}

/// The storage engine.
pub struct MerkleStorage {
    db: DB,
    stage: StageTree,
    last_commit_hash: Option<EntryHash>,
    perf: MerklePerfStats,
}

/// Per-operation latency counters, in nanoseconds.
#[derive(Clone, Copy, Debug)]
pub struct OperationLatencies {
    pub cumul_op_exec_time: u64,
    pub op_exec_times: u64,
    pub avg_exec_time: u64,
    pub op_exec_time_min: u64,
    pub op_exec_time_max: u64,
}

impl OperationLatencies {
    /// Fresh counters: nothing recorded yet.
    pub fn new() -> (r: OperationLatencies)
        ensures
            r.cumul_op_exec_time == 0,
            r.op_exec_times == 0,
            r.avg_exec_time == 0,
            r.op_exec_time_min == u64::MAX,
            r.op_exec_time_max == 0,
    {
        OperationLatencies {
            cumul_op_exec_time: 0,
            op_exec_times: 0,
            avg_exec_time: 0,
            op_exec_time_min: u64::MAX,
            op_exec_time_max: 0,
        }
    }
}

/// Latency statistics by operation name, and per path below the data
/// directory.
#[derive(Clone, Debug)]
pub struct MerklePerfStats {
    pub global: Vec<(String, OperationLatencies)>,
    pub perpath: Vec<(String, Vec<(String, OperationLatencies)>)>,
}

/// Store statistics together with the engine's latency statistics.
#[derive(Clone, Debug)]
pub struct MerkleStorageStats {
    pub db_stats: DBStats,
    pub perf_stats: MerklePerfStats,
}

impl MerkleStorage {
    /// The shape of the staging tree.
    pub closed spec fn stage_view(self) -> Seq<(Seq<u8>, ChildV)> {
        entries_view(self.stage.entries@)
    }

    /// The backing store's map.
    pub closed spec fn store_view(self) -> Map<Seq<u8>, Seq<u8>> {
        self.db@
    }

    /// The current head, if any.
    pub closed spec fn last_commit_view(self) -> Option<Seq<u8>> {
        match self.last_commit_hash {
            None => None,
            Some(h) => Some(h@),
        }
    }

    /// Well-formedness: the staging tree is sorted throughout and the
    /// store's entries are in key order.
    pub closed spec fn inv(self) -> bool {
        &&& wf_dir(self.stage_view())
        &&& self.db.inv()
    }

    /// A fresh engine over a backing store: empty staging tree, no head.
    pub fn new(db: DB) -> (r: MerkleStorage)
        requires
            db.inv(),
        ensures
            r.inv(),
            r.stage_view() == Seq::<(Seq<u8>, ChildV)>::empty(),
            r.store_view() == db@,
            r.last_commit_view() == None::<Seq<u8>>,
    {
        MerkleStorage {
            db,
            stage: StageTree::empty(),
            last_commit_hash: None,
            perf: MerklePerfStats { global: Vec::new(), perpath: Vec::new() },
        }
    }

    /// The current head, if any.
    pub fn get_last_commit_hash(&self) -> (r: Option<EntryHash>)
        ensures
            match r {
                None => self.last_commit_view() == None::<Seq<u8>>,
                Some(h) => self.last_commit_view() == Some(h@),
            },
    {
        self.last_commit_hash
    }

    /// The value stored at a non-empty key in the staging tree.
    pub fn get(&self, key: &ContextKey) -> (r: Result<ContextValue, MerkleError>)
        requires
            self.inv(),
        ensures
            match r {
                Ok(v) => key@.len() > 0 && child_lookup(
                    ChildV::Dir(self.stage_view()),
                    path_view(key@),
                ) == Some(ChildV::Blob(v@)),
                Err(MerkleError::KeyEmpty) => key@.len() == 0,
                Err(MerkleError::ValueNotFound { key: k2 }) => key@.len() > 0 && k2@ == key@
                    && child_lookup(ChildV::Dir(self.stage_view()), path_view(key@))
                    == None::<ChildV>,
                Err(MerkleError::ValueIsNotABlob { key: k2 }) => key@.len() > 0 && k2@ == key@
                    && (child_lookup(ChildV::Dir(self.stage_view()), path_view(key@)) matches Some(
                    ChildV::Dir(_),
                )),
                Err(_) => false,
            },
    {
        if key.len() == 0 {
            return Err(MerkleError::KeyEmpty);
        }
        match stage_lookup(&self.stage, key) {
            Some(StageChild::Blob(b)) => Ok(clone_bytes(b)),
            Some(StageChild::Subtree(_)) => Err(
                MerkleError::ValueIsNotABlob { key: clone_key(key) },
            ),
            None => Err(MerkleError::ValueNotFound { key: clone_key(key) }),
        }
    }

    /// Stage `value` under a non-empty `key`: the path edit of the staging
    /// tree, recalculated up the spine.
    pub fn set(&mut self, key: &ContextKey, value: &ContextValue) -> (r: Result<
        (),
        MerkleError,
    >)
        requires
            old(self).inv(),
        ensures
            final(self).inv(),
            final(self).store_view() == old(self).store_view(),
            final(self).last_commit_view() == old(self).last_commit_view(),
            match r {
                Ok(_) => key@.len() > 0 && ChildV::Dir(final(self).stage_view()) == spec_apply(
                    old(self).stage_view(),
                    path_view(key@),
                    Some(ChildV::Blob(value@)),
                ),
                Err(MerkleError::KeyEmpty) => key@.len() == 0 && final(self).stage_view() == old(self).stage_view(),
                Err(_) => false,
            },
    {
        if key.len() == 0 {
            return Err(MerkleError::KeyEmpty);
        }
        proof {
            assert(path_view(key@).take(key@.len() as int) =~= path_view(key@));
        }
        let change = StageChild::Blob(clone_bytes(value));
        let result = apply_change(&self.stage, key, key.len(), Some(change));
        proof {
            lemma_apply_wf(
                self.stage_view(),
                path_view(key@),
                Some(ChildV::Blob(value@)),
            );
            lemma_apply_is_dir(
                self.stage_view(),
                path_view(key@),
                Some(ChildV::Blob(value@)),
            );
        }
        match result {
            StageChild::Subtree(t) => {
                self.stage = t;
                Ok(())
            }
            StageChild::Blob(_) => {
                proof {
                    assert(false);
                }
                Err(MerkleError::KeyEmpty)
            }
        }
    }

    /// Remove the child at `key` from the staging tree, pruning directories
    /// that become empty; an empty key changes nothing.
    pub fn delete(&mut self, key: &ContextKey) -> (r: Result<(), MerkleError>)
        requires
            old(self).inv(),
        ensures
            final(self).inv(),
            final(self).store_view() == old(self).store_view(),
            final(self).last_commit_view() == old(self).last_commit_view(),
            r is Ok,
            key@.len() == 0 ==> final(self).stage_view() == old(self).stage_view(),
            key@.len() > 0 ==> ChildV::Dir(final(self).stage_view()) == spec_apply(
                old(self).stage_view(),
                path_view(key@),
                None,
            ),
    {
        if key.len() == 0 {
            return Ok(());
        }
        proof {
            assert(path_view(key@).take(key@.len() as int) =~= path_view(key@));
        }
        let result = apply_change(&self.stage, key, key.len(), None);
        proof {
            lemma_apply_wf(self.stage_view(), path_view(key@), None);
            lemma_apply_is_dir(self.stage_view(), path_view(key@), None);
        }
        match result {
            StageChild::Subtree(t) => {
                self.stage = t;
                Ok(())
            }
            StageChild::Blob(_) => {
                proof {
                    assert(false);
                }
                Ok(())
            }
        }
    }

    /// Copy the subtree at `from_key` to `to_key`: a missing or broken
    /// source copies the empty directory.
    pub fn copy(&mut self, from_key: &ContextKey, to_key: &ContextKey) -> (r: Result<
        (),
        MerkleError,
    >)
        requires
            old(self).inv(),
        ensures
            final(self).inv(),
            final(self).store_view() == old(self).store_view(),
            final(self).last_commit_view() == old(self).last_commit_view(),
            r is Ok,
            ChildV::Dir(final(self).stage_view()) == spec_apply(
                old(self).stage_view(),
                path_view(to_key@),
                Some(ChildV::Dir(spec_find(old(self).stage_view(), path_view(from_key@)))),
            ),
    {
        proof {
            assert(path_view(from_key@).take(from_key@.len() as int) =~= path_view(from_key@));
            assert(path_view(to_key@).take(to_key@.len() as int) =~= path_view(to_key@));
        }
        let source = self.stage.subtree_copy(from_key, from_key.len());
        let ghost change = Some(ChildV::Dir(spec_find(self.stage_view(), path_view(from_key@))));
        let result = apply_change(
            &self.stage,
            to_key,
            to_key.len(),
            Some(StageChild::Subtree(source)),
        );
        proof {
            lemma_find_wf(self.stage_view(), path_view(from_key@));
            lemma_apply_wf(self.stage_view(), path_view(to_key@), change);
            lemma_apply_is_dir(self.stage_view(), path_view(to_key@), change);
        }
        match result {
            StageChild::Subtree(t) => {
                self.stage = t;
                Ok(())
            }
            StageChild::Blob(_) => {
                proof {
                    assert(false);
                }
                Ok(())
            }
        }
    }

    /// The hash of the staging root: what a commit made now would record
    /// as its root hash.
    pub fn stage_root_hash(&self) -> (r: EntryHash)
        ensures
            r@ == spec_dir_hash(self.stage_view()),
    {
        hash_stage_tree(&self.stage)
    }
}

/// After `set(key, value)`, `get(key)` finds exactly `value`: the
/// set-then-get law, stated over the staging tree's shape.
pub proof fn lemma_set_then_get(
    stage: Seq<(Seq<u8>, ChildV)>,
    key: Seq<Seq<u8>>,
    value: Seq<u8>,
)
    requires
        key.len() > 0,
    ensures
        child_lookup(spec_apply(stage, key, Some(ChildV::Blob(value))), key) == Some(
            ChildV::Blob(value),
        ),
{
    crate::tree::lemma_apply_insert_lookup(stage, key, ChildV::Blob(value));
}

/// After `delete(key)`, `get(key)` finds nothing — except in the one case
/// where pruning empties the whole root, which the engine leaves exactly
/// as it was.
pub proof fn lemma_delete_then_get(stage: Seq<(Seq<u8>, ChildV)>, key: Seq<Seq<u8>>)
    requires
        key.len() > 0,
        wf_dir(stage),
    ensures
        child_lookup(spec_apply(stage, key, None), key) == None::<ChildV> || spec_apply(
            stage,
            key,
            None,
        ) == ChildV::Dir(stage),
{
    crate::tree::lemma_apply_remove_lookup(stage, key);
}

/// After `copy(from, to)`, every strictly longer path below `to` reads
/// what the same continuation below `from` read before the copy.
pub proof fn lemma_copy_then_get(
    stage: Seq<(Seq<u8>, ChildV)>,
    from: Seq<Seq<u8>>,
    to: Seq<Seq<u8>>,
    suffix: Seq<Seq<u8>>,
)
    requires
        to.len() > 0,
        suffix.len() > 0,
    ensures
        child_lookup(
            spec_apply(stage, to, Some(ChildV::Dir(spec_find(stage, from)))),
            to + suffix,
        ) == child_lookup(ChildV::Dir(stage), from + suffix),
{
    crate::tree::lemma_copy_lookup(stage, from, to, suffix);
}

/// The batch rows that persist one staging child: the child's own record
/// first, then (for a directory) each child's rows in entry order.
pub open spec fn persist_writes(c: ChildV) -> Seq<(Seq<u8>, Option<Seq<u8>>)>
    decreases c, 1int,
{
    match c {
        ChildV::Blob(b) => seq![
            (spec_blob_hash(b), Some(spec_encode_entry(EntryV::Blob(b)))),
        ],
        ChildV::Dir(s) => seq![
            (spec_dir_hash(s), Some(spec_encode_entry(EntryV::Tree(dir_nodes(s))))),
        ] + dir_writes(s),
    }
}

/// The batch rows of a directory's children, in entry order.
pub open spec fn dir_writes(s: Seq<(Seq<u8>, ChildV)>) -> Seq<(Seq<u8>, Option<Seq<u8>>)>
    decreases s, 2int,
{
    if s.len() == 0 {
        Seq::empty()
    } else {
        dir_writes(s.drop_last()) + persist_writes(s.last().1)
    }
}

/// The persisted edge list of a staging directory: each child by its kind
/// and hash.
pub open spec fn dir_nodes(s: Seq<(Seq<u8>, ChildV)>) -> Seq<(Seq<u8>, NodeV)>
    decreases s.len(),
{
    if s.len() == 0 {
        Seq::empty()
    } else {
        dir_nodes(s.drop_last()).push(
            (s.last().0, NodeV { is_leaf: s.last().1 is Blob, hash: stage_child_hash(s.last().1) }),
        )
    }
}

/// `dir_nodes` maps the directory index by index.
pub proof fn lemma_dir_nodes(s: Seq<(Seq<u8>, ChildV)>)
    ensures
        dir_nodes(s).len() == s.len(),
        forall|i: int|
            0 <= i < s.len() ==> dir_nodes(s)[i] == (
            s[i].0,
            NodeV { is_leaf: s[i].1 is Blob, hash: stage_child_hash(s[i].1) },
            ),
    decreases s.len(),
{
    if s.len() > 0 {
        lemma_dir_nodes(s.drop_last());
    }
}

/// Everything a commit writes: the commit record, then every entry of the
/// staging tree.
pub open spec fn commit_writes(
    stage: Seq<(Seq<u8>, ChildV)>,
    ch: Seq<u8>,
    c: crate::entry::CommitV,
) -> Seq<(Seq<u8>, Option<Seq<u8>>)> {
    seq![(ch, Some(spec_encode_entry(EntryV::Commit(c))))] + persist_writes(ChildV::Dir(stage))
}

/// Append the rows that persist `c` to the batch.
fn push_child_writes(batch: &mut Batch, c: &StageChild)
    ensures
        final(batch)@ == old(batch)@ + persist_writes(child_view(*c)),
    decreases *c,
{
    match c {
        StageChild::Blob(b) => {
            let h = crate::hash::hash_blob(b);
            let bytes = encode_entry(&Entry::Blob(clone_bytes(b)));
            batch.insert(hash_key(&h), crate::ivec::IVec::from_vec(bytes));
            proof {
                assert(batch@ =~= old(batch)@ + persist_writes(child_view(*c)));
            }
        }
        StageChild::Subtree(t) => {
            push_tree_writes(batch, t);
        }
    }
}

/// Append the rows that persist the tree node `t` and everything below it.
fn push_tree_writes(batch: &mut Batch, t: &StageTree)
    ensures
        final(batch)@ == old(batch)@ + persist_writes(ChildV::Dir(t.view())),
    decreases *t,
{
    let ghost v = t.view();
    proof {
        lemma_entries_view(t.entries@);
    }
    let h = hash_stage_tree(t);
    let n = t.entries.len();
    let mut nodes: Vec<(String, Node)> = Vec::new();
    let mut i: usize = 0;
    while i < n
        invariant
            i <= n,
            n == t.entries@.len(),
            v == t.view(),
            v.len() == n,
            forall|j: int|
                0 <= j < n ==> v[j] == (
                seg_bytes(t.entries@[j].name@),
                child_view(t.entries@[j].child),
                ),
            nodes_view(nodes@) == dir_nodes(v).take(i as int),
        decreases n - i,
    {
        let e = &t.entries[i];
        let child_hash = hash_stage_child(&e.child);
        let kind = if matches!(&e.child, StageChild::Blob(_)) {
            NodeKind::Leaf
        } else {
            NodeKind::NonLeaf
        };
        let ghost pre = nodes@;
        let node = Node { node_kind: kind, entry_hash: child_hash };
        nodes.push((e.name.clone(), node));
        proof {
            crate::entry::lemma_nodes_view(nodes@);
            crate::entry::lemma_nodes_view(pre);
            lemma_dir_nodes(v);
            assert(node@ == (NodeV { is_leaf: v[i as int].1 is Blob, hash: stage_child_hash(v[i as int].1) }));
            assert forall|j: int| 0 <= j < nodes@.len() implies nodes_view(nodes@)[j]
                == dir_nodes(v).take(i as int + 1)[j] by {
                if j < pre.len() {
                    assert(nodes@[j] == pre[j]);
                    assert(nodes_view(pre)[j] == dir_nodes(v).take(i as int)[j]);
                } else {
                    assert(nodes@[j] == (e.name, node));
                }
            }
            assert(nodes_view(nodes@) =~= dir_nodes(v).take(i as int + 1));
        }
        i = i + 1;
    }
    proof {
        lemma_dir_nodes(v);
        assert(dir_nodes(v).take(n as int) =~= dir_nodes(v));
    }
    let bytes = encode_entry(&Entry::Tree(nodes));
    batch.insert(hash_key(&h), crate::ivec::IVec::from_vec(bytes));
    let ghost after_record = batch@;
    let mut i2: usize = 0;
    while i2 < n
        invariant
            i2 <= n,
            n == t.entries@.len(),
            v == t.view(),
            v.len() == n,
            forall|j: int|
                0 <= j < n ==> v[j] == (
                seg_bytes(t.entries@[j].name@),
                child_view(t.entries@[j].child),
                ),
            batch@ == after_record + dir_writes(v.take(i2 as int)),
        decreases n - i2,
    {
        push_child_writes(batch, &t.entries[i2].child);
        proof {
            assert(v.take(i2 as int + 1).drop_last() =~= v.take(i2 as int));
            assert(v.take(i2 as int + 1).last() == v[i2 as int]);
            assert(batch@ =~= after_record + dir_writes(v.take(i2 as int + 1)));
        }
        i2 = i2 + 1;
    }
    proof {
        assert(v.take(n as int) =~= v);
        assert(batch@ =~= old(batch)@ + persist_writes(ChildV::Dir(v)));
    }
}

impl MerkleStorage {
    /// Commit the staging tree: hash it, form the commit record with the
    /// current head as parent, write the record and every staged entry to
    /// the store in one batch, and move the head to the new commit.  The
    /// staging tree itself is kept, so editing continues on top.
    pub fn commit(&mut self, time: u64, author: String, message: String) -> (r: Result<
        EntryHash,
        MerkleError,
    >)
        requires
            old(self).inv(),
        ensures
            final(self).inv(),
            final(self).stage_view() == old(self).stage_view(),
            match r {
                Ok(h) => {
                    let ch = spec_commit_hash(
                        spec_dir_hash(old(self).stage_view()),
                        old(self).last_commit_view(),
                        time,
                        author@,
                        message@,
                    );
                    &&& h@ == ch
                    &&& final(self).last_commit_view() == Some(ch)
                    &&& final(self).store_view() == spec_apply_batch(
                        old(self).store_view(),
                        commit_writes(
                            old(self).stage_view(),
                            ch,
                            crate::entry::CommitV {
                                parent: old(self).last_commit_view(),
                                root: spec_dir_hash(old(self).stage_view()),
                                time,
                                author: author@,
                                message: message@,
                            },
                        ),
                    )
                },
                Err(_) => false,
            },
    {
        let root_hash = hash_stage_tree(&self.stage);
        let ch = hash_commit(&root_hash, &self.last_commit_hash, time, &author, &message);
        let record = Entry::Commit(
            Commit {
                parent_commit_hash: self.last_commit_hash,
                root_hash,
                time,
                author,
                message,
            },
        );
        let mut batch = Batch::new();
        let bytes = encode_entry(&record);
        batch.insert(hash_key(&ch), crate::ivec::IVec::from_vec(bytes));
        let ghost after_record = batch@;
        push_tree_writes(&mut batch, &self.stage);
        proof {
            assert(batch@ =~= commit_writes(
                self.stage_view(),
                ch@,
                crate::entry::CommitV {
                    parent: self.last_commit_view(),
                    root: spec_dir_hash(self.stage_view()),
                    time,
                    author: record->Commit_0.author@,
                    message: record->Commit_0.message@,
                },
            ));
        }
        match self.db.write_batch(batch) {
            Ok(_) => {}
            Err(error) => {
                return Err(MerkleError::DBError { error });
            }
        }
        self.last_commit_hash = Some(ch);
        Ok(ch)
    }
}

/// A commit's hash is a function of the staging tree's shape, the head and
/// the metadata alone: engines in equal states commit to equal hashes, so
/// identical action sequences yield identical commit hashes on every run.
pub proof fn lemma_commit_deterministic(
    a: MerkleStorage,
    b: MerkleStorage,
    time: u64,
    author: Seq<char>,
    message: Seq<char>,
)
    requires
        a.stage_view() == b.stage_view(),
        a.last_commit_view() == b.last_commit_view(),
    ensures
        spec_commit_hash(
            spec_dir_hash(a.stage_view()),
            a.last_commit_view(),
            time,
            author,
            message,
        ) == spec_commit_hash(
            spec_dir_hash(b.stage_view()),
            b.last_commit_view(),
            time,
            author,
            message,
        ),
{
}

/// The edge named `name` in a persisted edge list, by first match.
pub open spec fn node_get(s: Seq<(Seq<u8>, NodeV)>, name: Seq<u8>) -> Option<NodeV>
    decreases s.len(),
{
    if s.len() == 0 {
        None
    } else if s[0].0 == name {
        Some(s[0].1)
    } else {
        node_get(s.drop_first(), name)
    }
}

/// Lookup finds the first edge that carries the sought name.
pub proof fn lemma_node_get_found(s: Seq<(Seq<u8>, NodeV)>, name: Seq<u8>, i: int)
    requires
        0 <= i < s.len(),
        s[i].0 == name,
        forall|j: int| 0 <= j < i ==> s[j].0 != name,
    ensures
        node_get(s, name) == Some(s[i].1),
    decreases i,
{
    if i > 0 {
        lemma_node_get_found(s.drop_first(), name, i - 1);
    }
}

/// Lookup misses a name that no edge carries.
pub proof fn lemma_node_get_absent(s: Seq<(Seq<u8>, NodeV)>, name: Seq<u8>)
    requires
        forall|i: int| 0 <= i < s.len() ==> s[i].0 != name,
    ensures
        node_get(s, name) == None::<NodeV>,
    decreases s.len(),
{
    if s.len() > 0 {
        lemma_node_get_absent(s.drop_first(), name);
    }
}

/// What a walk of a committed tree yields.
pub ghost enum GetOutcome {
    Found(Seq<u8>),
    KeyEmpty,
    NotFound,
    NotABlob,
    Missing(Seq<u8>),
    Corrupt,
    Unexpected(StructureKind, StructureKind),
}

/// Walk `path` down a persisted edge list, resolving every step against
/// the store: absence and values crossed along the way yield `NotFound`,
/// the final step must reach a stored value.
pub open spec fn spec_tree_walk(
    store: Map<Seq<u8>, Seq<u8>>,
    nodes: Seq<(Seq<u8>, NodeV)>,
    path: Seq<Seq<u8>>,
) -> GetOutcome
    decreases path.len(),
{
    if path.len() == 0 {
        GetOutcome::NotFound
    } else {
        match node_get(nodes, path[0]) {
            None => GetOutcome::NotFound,
            Some(node) => {
                if path.len() == 1 {
                    match resolve(store, node.hash) {
                        Resolved::Missing => GetOutcome::Missing(node.hash),
                        Resolved::Corrupt => GetOutcome::Corrupt,
                        Resolved::Entry(EntryV::Blob(b)) => GetOutcome::Found(b),
                        Resolved::Entry(_) => GetOutcome::NotABlob,
                    }
                } else {
                    match resolve(store, node.hash) {
                        Resolved::Missing => GetOutcome::Missing(node.hash),
                        Resolved::Corrupt => GetOutcome::Corrupt,
                        Resolved::Entry(EntryV::Tree(n2)) => spec_tree_walk(
                            store,
                            n2,
                            path.drop_first(),
                        ),
                        Resolved::Entry(EntryV::Blob(_)) => GetOutcome::NotFound,
                        Resolved::Entry(EntryV::Commit(_)) => GetOutcome::Unexpected(
                            StructureKind::Tree,
                            StructureKind::Commit,
                        ),
                    }
                }
            },
        }
    }
}

/// What reading `path` in the history snapshot addressed by the commit
/// hash `ch` yields.
pub open spec fn spec_get_history(
    store: Map<Seq<u8>, Seq<u8>>,
    ch: Seq<u8>,
    path: Seq<Seq<u8>>,
) -> GetOutcome {
    match resolve(store, ch) {
        Resolved::Missing => GetOutcome::Missing(ch),
        Resolved::Corrupt => GetOutcome::Corrupt,
        Resolved::Entry(EntryV::Tree(_)) => GetOutcome::Unexpected(
            StructureKind::Commit,
            StructureKind::Tree,
        ),
        Resolved::Entry(EntryV::Blob(_)) => GetOutcome::Unexpected(
            StructureKind::Commit,
            StructureKind::Blob,
        ),
        Resolved::Entry(EntryV::Commit(c)) => {
            if path.len() == 0 {
                GetOutcome::KeyEmpty
            } else {
                match resolve(store, c.root) {
                    Resolved::Missing => GetOutcome::Missing(c.root),
                    Resolved::Corrupt => GetOutcome::Corrupt,
                    Resolved::Entry(EntryV::Tree(nodes)) => spec_tree_walk(store, nodes, path),
                    Resolved::Entry(EntryV::Blob(_)) => GetOutcome::Unexpected(
                        StructureKind::Tree,
                        StructureKind::Blob,
                    ),
                    Resolved::Entry(EntryV::Commit(_)) => GetOutcome::Unexpected(
                        StructureKind::Tree,
                        StructureKind::Commit,
                    ),
                }
            }
        },
    }
}

/// Fetch and decode the entry stored under a hash.
fn db_resolve(db: &DB, h: &EntryHash) -> (r: Result<Entry, MerkleError>)
    requires
        db.inv(),
    ensures
        match r {
            Ok(e) => resolve(db@, h@) == Resolved::Entry(e@),
            Err(MerkleError::EntryNotFound { hash }) => hash@ == h@ && resolve(db@, h@)
                == Resolved::Missing,
            Err(MerkleError::SerializationError) => resolve(db@, h@) == Resolved::Corrupt,
            Err(_) => false,
        },
{
    match db.get(h.as_slice()) {
        None => Err(MerkleError::EntryNotFound { hash: *h }),
        Some(bytes) => match decode_entry(&bytes) {
            None => Err(MerkleError::SerializationError),
            Some(e) => Ok(e),
        },
    }
}

/// The edge named like `name`, by first match.
fn find_node<'a>(nodes: &'a Vec<(String, Node)>, name: &str) -> (r: Option<&'a Node>)
    ensures
        match r {
            Some(node) => node_get(nodes_view(nodes@), seg_bytes(name@)) == Some(node@),
            None => node_get(nodes_view(nodes@), seg_bytes(name@)) == None::<NodeV>,
        },
{
    proof {
        crate::entry::lemma_nodes_view(nodes@);
    }
    let ghost v = nodes_view(nodes@);
    let ghost target = seg_bytes(name@);
    let n = nodes.len();
    let mut i: usize = 0;
    while i < n
        invariant
            i <= n,
            n == nodes@.len(),
            v == nodes_view(nodes@),
            v.len() == n,
            target == seg_bytes(name@),
            forall|j: int| 0 <= j < n ==> v[j] == (seg_bytes(nodes@[j].0@), nodes@[j].1@),
            forall|j: int| 0 <= j < i ==> v[j].0 != target,
        decreases n - i,
    {
        let cmp = crate::order::bytes_cmp(nodes[i].0.as_str().as_bytes(), name.as_bytes());
        if cmp == 0 {
            proof {
                lemma_node_get_found(v, target, i as int);
            }
            return Some(&nodes[i].1);
        }
        i = i + 1;
    }
    proof {
        lemma_node_get_absent(v, target);
    }
    None
}

impl MerkleStorage {
    /// The value stored at `key` in the history snapshot addressed by
    /// `commit_hash`, read entirely from the backing store.
    pub fn get_history(&self, commit_hash: &EntryHash, key: &ContextKey) -> (r: Result<
        ContextValue,
        MerkleError,
    >)
        requires
            self.inv(),
        ensures
            ({
                let outcome = spec_get_history(
                    self.store_view(),
                    commit_hash@,
                    path_view(key@),
                );
                match r {
                    Ok(v) => outcome == GetOutcome::Found(v@),
                    Err(MerkleError::KeyEmpty) => outcome == GetOutcome::KeyEmpty,
                    Err(MerkleError::ValueNotFound { key: k2 }) => k2@ == key@ && outcome
                        == GetOutcome::NotFound,
                    Err(MerkleError::ValueIsNotABlob { key: k2 }) => k2@ == key@ && outcome
                        == GetOutcome::NotABlob,
                    Err(MerkleError::EntryNotFound { hash }) => outcome == GetOutcome::Missing(
                        hash@,
                    ),
                    Err(MerkleError::SerializationError) => outcome == GetOutcome::Corrupt,
                    Err(MerkleError::FoundUnexpectedStructure { sought, found }) => outcome
                        == GetOutcome::Unexpected(sought, found),
                    Err(_) => false,
                }
            }),
    {
        let ghost store = self.store_view();
        let ghost path = path_view(key@);
        let commit = match db_resolve(&self.db, commit_hash) {
            Ok(Entry::Commit(c)) => c,
            Ok(Entry::Tree(_)) => {
                return Err(
                    MerkleError::FoundUnexpectedStructure {
                        sought: StructureKind::Commit,
                        found: StructureKind::Tree,
                    },
                );
            },
            Ok(Entry::Blob(_)) => {
                return Err(
                    MerkleError::FoundUnexpectedStructure {
                        sought: StructureKind::Commit,
                        found: StructureKind::Blob,
                    },
                );
            },
            Err(e) => {
                return Err(e);
            },
        };
        if key.len() == 0 {
            return Err(MerkleError::KeyEmpty);
        }
        let mut nodes = match db_resolve(&self.db, &commit.root_hash) {
            Ok(Entry::Tree(nodes)) => nodes,
            Ok(Entry::Blob(_)) => {
                return Err(
                    MerkleError::FoundUnexpectedStructure {
                        sought: StructureKind::Tree,
                        found: StructureKind::Blob,
                    },
                );
            },
            Ok(Entry::Commit(_)) => {
                return Err(
                    MerkleError::FoundUnexpectedStructure {
                        sought: StructureKind::Tree,
                        found: StructureKind::Commit,
                    },
                );
            },
            Err(e) => {
                return Err(e);
            },
        };
        let n = key.len();
        proof {
            assert(path.subrange(0, n as int) =~= path);
        }
        let mut idx: usize = 0;
        loop
            invariant
                idx < n,
                n == key@.len(),
                path == path_view(key@),
                path.len() == n,
                store == self.store_view(),
                self.inv(),
                spec_get_history(store, commit_hash@, path) == spec_tree_walk(
                    store,
                    nodes_view(nodes@),
                    path.subrange(idx as int, n as int),
                ),
            decreases n - idx,
        {
            let seg: &String = &key[idx];
            proof {
                assert(*seg == key@[idx as int]);
                assert(path.subrange(idx as int, n as int)[0] == path[idx as int]);
                assert(path[idx as int] == seg_bytes(key@[idx as int]@));
            }
            let node = match find_node(&nodes, seg.as_str()) {
                Some(node) => node,
                None => {
                    return Err(MerkleError::ValueNotFound { key: clone_key(key) });
                },
            };
            if idx == n - 1 {
                match db_resolve(&self.db, &node.entry_hash) {
                    Ok(Entry::Blob(b)) => {
                        return Ok(b);
                    },
                    Ok(_) => {
                        return Err(MerkleError::ValueIsNotABlob { key: clone_key(key) });
                    },
                    Err(e) => {
                        return Err(e);
                    },
                }
            }
            let next = db_resolve(&self.db, &node.entry_hash);
            proof {
                assert(path.subrange(idx as int, n as int).drop_first() =~= path.subrange(
                    idx as int + 1,
                    n as int,
                ));
            }
            match next {
                Ok(Entry::Tree(n2)) => {
                    nodes = n2;
                },
                Ok(Entry::Blob(_)) => {
                    return Err(MerkleError::ValueNotFound { key: clone_key(key) });
                },
                Ok(Entry::Commit(_)) => {
                    return Err(
                        MerkleError::FoundUnexpectedStructure {
                            sought: StructureKind::Tree,
                            found: StructureKind::Commit,
                        },
                    );
                },
                Err(e) => {
                    return Err(e);
                },
            }
            idx = idx + 1;
        }
    }
}

/// Why materialization of a committed tree stopped.
pub ghost enum MatErr {
    Missing(Seq<u8>),
    Corrupt,
    UnexpectedCommit,
    OutOfFuel,
}

/// Materialize the child stored under `h`: a stored value stays a value,
/// a tree is rebuilt with every child materialized in turn.  `fuel`
/// bounds the depth, so that a corrupted, cyclic store cannot make the
/// walk spin.
pub open spec fn mat_entry(store: Map<Seq<u8>, Seq<u8>>, h: Seq<u8>, fuel: nat) -> Result<
    ChildV,
    MatErr,
>
    decreases fuel, 0int,
{
    if fuel == 0 {
        Err(MatErr::OutOfFuel)
    } else {
        match resolve(store, h) {
            Resolved::Missing => Err(MatErr::Missing(h)),
            Resolved::Corrupt => Err(MatErr::Corrupt),
            Resolved::Entry(EntryV::Blob(b)) => Ok(ChildV::Blob(b)),
            Resolved::Entry(EntryV::Commit(_)) => Err(MatErr::UnexpectedCommit),
            Resolved::Entry(EntryV::Tree(nodes)) => match mat_nodes(
                store,
                nodes,
                (fuel - 1) as nat,
            ) {
                Ok(s) => Ok(ChildV::Dir(s)),
                Err(e) => Err(e),
            },
        }
    }
}

/// Materialize a persisted edge list, in order.
pub open spec fn mat_nodes(
    store: Map<Seq<u8>, Seq<u8>>,
    nodes: Seq<(Seq<u8>, NodeV)>,
    fuel: nat,
) -> Result<Seq<(Seq<u8>, ChildV)>, MatErr>
    decreases fuel, nodes.len() + 1,
{
    if nodes.len() == 0 {
        Ok(Seq::empty())
    } else {
        match mat_nodes(store, nodes.drop_last(), fuel) {
            Err(e) => Err(e),
            Ok(rest) => match mat_entry(store, nodes.last().1.hash, fuel) {
                Err(e) => Err(e),
                Ok(c) => Ok(rest.push((nodes.last().0, c))),
            },
        }
    }
}

/// Materialize the child under `h`, mirroring `mat_entry`; the built tree
/// is well formed.
#[verifier::rlimit(100)]
fn build_child(db: &DB, h: &EntryHash, fuel: usize) -> (r: Result<StageChild, MerkleError>)
    requires
        db.inv(),
    ensures
        match r {
            Ok(c) => mat_entry(db@, h@, fuel as nat) == Ok::<ChildV, MatErr>(child_view(c))
                && crate::tree::wf_child(child_view(c)),
            // A spent depth budget means a reference chain longer than the
            // store itself: a cycle, which only a corrupted store can hold.
            // No root can be retrieved from it, hence the error chosen.
            Err(MerkleError::EntryNotFound { hash }) => mat_entry(db@, h@, fuel as nat) == Err::<
                ChildV,
                MatErr,
            >(MatErr::Missing(hash@)),
            Err(MerkleError::SerializationError) => mat_entry(db@, h@, fuel as nat) == Err::<
                ChildV,
                MatErr,
            >(MatErr::Corrupt),
            Err(MerkleError::FoundUnexpectedStructure { sought, found }) => sought
                == StructureKind::Tree && found == StructureKind::Commit && mat_entry(
                db@,
                h@,
                fuel as nat,
            ) == Err::<ChildV, MatErr>(MatErr::UnexpectedCommit),
            Err(MerkleError::CommitRootNotFound) => mat_entry(db@, h@, fuel as nat) == Err::<
                ChildV,
                MatErr,
            >(MatErr::OutOfFuel),
            Err(_) => false,
        },
    decreases fuel,
{
    if fuel == 0 {
        return Err(MerkleError::CommitRootNotFound);
    }
    let entry = match db_resolve(db, h) {
        Ok(e) => e,
        Err(e) => {
            proof {
                if resolve(db@, h@) is Missing {
                    assert(mat_entry(db@, h@, fuel as nat) == Err::<ChildV, MatErr>(
                        MatErr::Missing(h@),
                    ));
                }
                if resolve(db@, h@) is Corrupt {
                    assert(mat_entry(db@, h@, fuel as nat) == Err::<ChildV, MatErr>(
                        MatErr::Corrupt,
                    ));
                }
            }
            return Err(e);
        },
    };
    match entry {
        Entry::Blob(b) => Ok(StageChild::Blob(b)),
        Entry::Commit(_) => Err(
            MerkleError::FoundUnexpectedStructure {
                sought: StructureKind::Tree,
                found: StructureKind::Commit,
            },
        ),
        Entry::Tree(nodes) => {
            proof {
                crate::entry::lemma_nodes_view(nodes@);
            }
            let ghost v = nodes_view(nodes@);
            let n = nodes.len();
            let mut entries: Vec<crate::tree::StageEntry> = Vec::new();
            let mut i: usize = 0;
            while i < n
                invariant
                    i <= n,
                    n == nodes@.len(),
                    db.inv(),
                    fuel >= 1,
                    resolve(db@, h@) == Resolved::Entry(EntryV::Tree(v)),
                    v == nodes_view(nodes@),
                    v.len() == n,
                    crate::entry::nodes_sorted(v),
                    forall|j: int|
                        0 <= j < n ==> v[j] == (seg_bytes(nodes@[j].0@), nodes@[j].1@),
                    entries_view(entries@).len() == i,
                    mat_nodes(db@, v.take(i as int), (fuel - 1) as nat) == Ok::<
                        Seq<(Seq<u8>, ChildV)>,
                        MatErr,
                    >(entries_view(entries@)),
                    forall|j: int|
                        0 <= j < entries_view(entries@).len()
                            ==> (#[trigger] entries_view(entries@)[j]).0 == v[j].0
                            && crate::tree::wf_child(entries_view(entries@)[j].1),
                decreases n - i,
            {
                let child = match build_child(db, &nodes[i].1.entry_hash, fuel - 1) {
                    Ok(c) => c,
                    Err(e) => {
                        proof {
                            assert(v.take(i as int + 1).drop_last() =~= v.take(i as int));
                            assert(v.take(i as int + 1).last() == v[i as int]);
                            assert(v.take(n as int) =~= v);
                            lemma_mat_nodes_prefix_err(db@, v, i as int + 1, (fuel - 1) as nat);
                            assert(mat_entry(db@, h@, fuel as nat) == Err::<ChildV, MatErr>(
                                mat_nodes(db@, v, (fuel - 1) as nat)->Err_0,
                            ));
                        }
                        return Err(e);
                    },
                };
                let ghost pre = entries@;
                entries.push(crate::tree::StageEntry { name: nodes[i].0.clone(), child });
                proof {
                    assert(entries@.drop_last() =~= pre);
                    assert(v.take(i as int + 1).drop_last() =~= v.take(i as int));
                    assert(v.take(i as int + 1).last() == v[i as int]);
                    crate::tree::lemma_entries_view(entries@);
                    crate::tree::lemma_entries_view(pre);
                    assert(entries_view(entries@) =~= entries_view(pre).push(
                        (v[i as int].0, child_view(child)),
                    ));
                }
                i = i + 1;
            }
            proof {
                assert(v.take(n as int) =~= v);
                assert(mat_entry(db@, h@, fuel as nat) == Ok::<ChildV, MatErr>(
                    ChildV::Dir(entries_view(entries@)),
                ));
                crate::tree::lemma_entries_view(entries@);
                assert forall|p: int, q: int|
                    0 <= p < q < entries_view(entries@).len() implies crate::order::lex_lt(
                    entries_view(entries@)[p].0,
                    entries_view(entries@)[q].0,
                ) by {
                    assert(entries_view(entries@)[p].0 == v[p].0);
                    assert(entries_view(entries@)[q].0 == v[q].0);
                }
                assert(wf_dir(entries_view(entries@)));
            }
            Ok(StageChild::Subtree(StageTree { entries }))
        },
    }
}

/// A failed step fails the whole edge-list materialization with the same
/// error.
proof fn lemma_mat_nodes_prefix_err(
    store: Map<Seq<u8>, Seq<u8>>,
    v: Seq<(Seq<u8>, NodeV)>,
    upto: int,
    fuel: nat,
)
    requires
        0 < upto <= v.len(),
        mat_nodes(store, v.take(upto - 1), fuel) is Ok,
        mat_entry(store, v[upto - 1].1.hash, fuel) is Err,
    ensures
        mat_nodes(store, v, fuel) == Err::<Seq<(Seq<u8>, ChildV)>, MatErr>(
            mat_entry(store, v[upto - 1].1.hash, fuel)->Err_0,
        ),
    decreases v.len(),
{
    if upto == v.len() {
        assert(v.drop_last() =~= v.take(upto - 1));
    } else {
        assert(v.drop_last().take(upto - 1) =~= v.take(upto - 1));
        assert(v.drop_last()[upto - 1] == v[upto - 1]);
        lemma_mat_nodes_prefix_err(store, v.drop_last(), upto, fuel);
    }
}

/// How much depth a materialization may use: one level per store entry.
pub open spec fn mat_fuel(store: Map<Seq<u8>, Seq<u8>>) -> nat {
    if store.len() + 1 <= usize::MAX {
        (store.len() + 1) as nat
    } else {
        usize::MAX as nat
    }
}

/// What a checkout yields: the rebuilt staging directory, or why it
/// stopped.
pub ghost enum CheckoutOutcome {
    Done(Seq<(Seq<u8>, ChildV)>),
    Missing(Seq<u8>),
    Corrupt,
    Unexpected(StructureKind, StructureKind),
    Cycle,
}

/// The outcome of checking out the commit addressed by `ch`: the commit
/// must resolve, and its root tree must materialize fully within the
/// store's depth budget.
pub open spec fn spec_checkout(store: Map<Seq<u8>, Seq<u8>>, ch: Seq<u8>) -> CheckoutOutcome {
    match resolve(store, ch) {
        Resolved::Missing => CheckoutOutcome::Missing(ch),
        Resolved::Corrupt => CheckoutOutcome::Corrupt,
        Resolved::Entry(EntryV::Tree(_)) => CheckoutOutcome::Unexpected(
            StructureKind::Commit,
            StructureKind::Tree,
        ),
        Resolved::Entry(EntryV::Blob(_)) => CheckoutOutcome::Unexpected(
            StructureKind::Commit,
            StructureKind::Blob,
        ),
        Resolved::Entry(EntryV::Commit(c)) => match mat_entry(store, c.root, mat_fuel(store)) {
            Ok(ChildV::Dir(s)) => CheckoutOutcome::Done(s),
            Ok(ChildV::Blob(_)) => CheckoutOutcome::Unexpected(
                StructureKind::Tree,
                StructureKind::Blob,
            ),
            Err(MatErr::Missing(h)) => CheckoutOutcome::Missing(h),
            Err(MatErr::Corrupt) => CheckoutOutcome::Corrupt,
            Err(MatErr::UnexpectedCommit) => CheckoutOutcome::Unexpected(
                StructureKind::Tree,
                StructureKind::Commit,
            ),
            Err(MatErr::OutOfFuel) => CheckoutOutcome::Cycle,
        },
    }
}

impl MerkleStorage {
    /// Flush the staging area and move to the commit addressed by
    /// `context_hash`: its root tree, rebuilt from the store, becomes the
    /// staging tree and the head moves to that commit.  Uncommitted edits
    /// are discarded.
    pub fn checkout(&mut self, context_hash: &EntryHash) -> (r: Result<(), MerkleError>)
        requires
            old(self).inv(),
        ensures
            final(self).inv(),
            final(self).store_view() == old(self).store_view(),
            ({
                let outcome = spec_checkout(old(self).store_view(), context_hash@);
                match r {
                    Ok(_) => outcome == CheckoutOutcome::Done(final(self).stage_view())
                        && final(self).last_commit_view() == Some(context_hash@),
                    Err(e) => final(self).stage_view() == old(self).stage_view() && final(self).last_commit_view() == old(self).last_commit_view() && (match e {
                        MerkleError::EntryNotFound { hash } => outcome
                            == CheckoutOutcome::Missing(hash@),
                        MerkleError::SerializationError => outcome == CheckoutOutcome::Corrupt,
                        MerkleError::FoundUnexpectedStructure { sought, found } => outcome
                            == CheckoutOutcome::Unexpected(sought, found),
                        MerkleError::CommitRootNotFound => outcome == CheckoutOutcome::Cycle,
                        _ => false,
                    }),
                }
            }),
    {
        let ghost store = self.store_view();
        let commit = match db_resolve(&self.db, context_hash) {
            Ok(Entry::Commit(c)) => c,
            Ok(Entry::Tree(_)) => {
                return Err(
                    MerkleError::FoundUnexpectedStructure {
                        sought: StructureKind::Commit,
                        found: StructureKind::Tree,
                    },
                );
            },
            Ok(Entry::Blob(_)) => {
                return Err(
                    MerkleError::FoundUnexpectedStructure {
                        sought: StructureKind::Commit,
                        found: StructureKind::Blob,
                    },
                );
            },
            Err(e) => {
                return Err(e);
            },
        };
        let n = self.db.len();
        proof {
            self.db.lemma_len();
        }
        let fuel = if n == usize::MAX {
            n
        } else {
            n + 1
        };
        proof {
            assert(fuel as nat == mat_fuel(self.store_view()));
        }
        match build_child(&self.db, &commit.root_hash, fuel) {
            Ok(StageChild::Subtree(t)) => {
                self.stage = t;
                self.last_commit_hash = Some(*context_hash);
                Ok(())
            },
            Ok(StageChild::Blob(_)) => Err(
                MerkleError::FoundUnexpectedStructure {
                    sought: StructureKind::Tree,
                    found: StructureKind::Blob,
                },
            ),
            Err(e) => Err(e),
        }
    }
}

/// The hashes a persisted edge list points at, in order.
pub open spec fn node_hashes(nodes: Seq<(Seq<u8>, NodeV)>) -> Seq<Seq<u8>>
    decreases nodes.len(),
{
    if nodes.len() == 0 {
        Seq::empty()
    } else {
        node_hashes(nodes.drop_last()).push(nodes.last().1.hash)
    }
}

/// `node_hashes` maps the edge list index by index.
pub proof fn lemma_node_hashes(nodes: Seq<(Seq<u8>, NodeV)>)
    ensures
        node_hashes(nodes).len() == nodes.len(),
        forall|i: int| 0 <= i < nodes.len() ==> node_hashes(nodes)[i] == nodes[i].1.hash,
    decreases nodes.len(),
{
    if nodes.len() > 0 {
        lemma_node_hashes(nodes.drop_last());
    }
}

/// The hashes an entry points at: a tree's edges, a commit's root,
/// nothing for a stored value.
pub open spec fn entry_children(e: EntryV) -> Seq<Seq<u8>> {
    match e {
        EntryV::Blob(_) => Seq::empty(),
        EntryV::Tree(nodes) => node_hashes(nodes),
        EntryV::Commit(c) => seq![c.root],
    }
}

/// `a` points at `b`: `a` resolves and `b` is among its children.
pub open spec fn has_edge(store: Map<Seq<u8>, Seq<u8>>, a: Seq<u8>, b: Seq<u8>) -> bool {
    &&& resolve(store, a) is Entry
    &&& exists|i: int|
        0 <= i < entry_children(resolve(store, a)->Entry_0).len() && entry_children(
            resolve(store, a)->Entry_0,
        )[i] == b
}

/// `h` lies at the end of a chain of `n` edges from `root`.
pub open spec fn reaches(store: Map<Seq<u8>, Seq<u8>>, root: Seq<u8>, h: Seq<u8>, n: nat) -> bool
    decreases n,
{
    if n == 0 {
        h == root
    } else {
        exists|m: Seq<u8>| reaches(store, root, m, (n - 1) as nat) && has_edge(store, m, h)
    }
}

/// What the mark phase keeps: a hash that resolves and that some chain
/// from the root reaches.
pub open spec fn spec_marked(store: Map<Seq<u8>, Seq<u8>>, root: Seq<u8>, h: Seq<u8>) -> bool {
    &&& resolve(store, h) is Entry
    &&& exists|n: nat| reaches(store, root, h, n)
}

/// Any resolvable hash on a chain from the root is marked, so garbage
/// collection keeps it.
pub proof fn lemma_reachable_marked(
    store: Map<Seq<u8>, Seq<u8>>,
    root: Seq<u8>,
    h: Seq<u8>,
    n: nat,
)
    requires
        reaches(store, root, h, n),
        resolve(store, h) is Entry,
    ensures
        spec_marked(store, root, h),
{
}

/// No more distinct keys than the map holds.
proof fn lemma_distinct_keys_bound(keys: Seq<Seq<u8>>, m: Map<Seq<u8>, Seq<u8>>)
    requires
        forall|p: int, q: int| 0 <= p < q < keys.len() ==> keys[p] != keys[q],
        forall|i: int| 0 <= i < keys.len() ==> m.contains_key(#[trigger] keys[i]),
        m.dom().finite(),
    ensures
        keys.len() <= m.len(),
    decreases keys.len(),
{
    if keys.len() > 0 {
        let k = keys.last();
        let m2 = m.remove(k);
        assert forall|i: int|
            0 <= i < keys.drop_last().len() implies m2.contains_key(
            #[trigger] keys.drop_last()[i],
        ) by {
            assert(keys[i] != k);
            assert(m.contains_key(keys[i]));
        }
        lemma_distinct_keys_bound(keys.drop_last(), m2);
        assert(m2.len() == m.len() - 1);
    }
}

/// The bytes of the keys a mark list holds.
pub open spec fn keys_of(l: Seq<Vec<u8>>) -> Seq<Seq<u8>> {
    l.map(|i: int, v: Vec<u8>| v@)
}

/// Whether a hash list carries `k`.
pub open spec fn hash_list_has(l: Seq<EntryHash>, k: Seq<u8>) -> bool {
    exists|i: int| 0 <= i < l.len() && l[i]@ == k
}

/// Whether any byte string of `keep` equals the hash `h`.
fn keep_member(keep: &Vec<Vec<u8>>, h: &EntryHash) -> (r: bool)
    ensures
        r == crate::database::keep_has(keep@, h@),
{
    let n = keep.len();
    let mut i: usize = 0;
    while i < n
        invariant
            i <= n,
            n == keep@.len(),
            forall|j: int| 0 <= j < i ==> keep@[j]@ != h@,
        decreases n - i,
    {
        if crate::order::bytes_cmp(keep[i].as_slice(), h.as_slice()) == 0 {
            return true;
        }
        i = i + 1;
    }
    false
}

/// Dropping a worklist element that the kept list already covers, or that
/// does not resolve, keeps the mark loop's facts.
proof fn lemma_stack_shrink(
    store: Map<Seq<u8>, Seq<u8>>,
    rootb: Seq<u8>,
    keep: Seq<Vec<u8>>,
    popped: Seq<EntryHash>,
    stack: Seq<EntryHash>,
    hb: Seq<u8>,
)
    requires
        popped.len() > 0,
        stack == popped.drop_last(),
        popped.last()@ == hb,
        crate::database::keep_has(keep, hb) || !(resolve(store, hb) is Entry),
        forall|j: int, c: Seq<u8>|
            0 <= j < keep.len() && #[trigger] has_edge(store, keep[j]@, c)
                ==> crate::database::keep_has(keep, c) || hash_list_has(popped, c) || !(resolve(
                store,
                c,
            ) is Entry),
        resolve(store, rootb) is Entry ==> crate::database::keep_has(keep, rootb)
            || hash_list_has(popped, rootb),
    ensures
        forall|j: int, c: Seq<u8>|
            0 <= j < keep.len() && #[trigger] has_edge(store, keep[j]@, c)
                ==> crate::database::keep_has(keep, c) || hash_list_has(stack, c) || !(resolve(
                store,
                c,
            ) is Entry),
        resolve(store, rootb) is Entry ==> crate::database::keep_has(keep, rootb)
            || hash_list_has(stack, rootb),
{
    assert forall|j: int, c: Seq<u8>|
        0 <= j < keep.len() && #[trigger] has_edge(store, keep[j]@, c) implies
        crate::database::keep_has(keep, c) || hash_list_has(stack, c) || !(resolve(
        store,
        c,
    ) is Entry) by {
        if hash_list_has(popped, c) && !crate::database::keep_has(keep, c) && resolve(
            store,
            c,
        ) is Entry {
            let jj = choose|jj: int| 0 <= jj < popped.len() && popped[jj]@ == c;
            if jj < popped.len() - 1 {
                assert(stack[jj]@ == c);
                assert(hash_list_has(stack, c));
            } else {
                assert(c == hb);
            }
        }
    }
    if resolve(store, rootb) is Entry && !crate::database::keep_has(keep, rootb) {
        let jj = choose|jj: int| 0 <= jj < popped.len() && popped[jj]@ == rootb;
        if jj < popped.len() - 1 {
            assert(stack[jj]@ == rootb);
            assert(hash_list_has(stack, rootb));
        } else {
            assert(rootb == hb);
        }
    }
}

/// One mark step: moving a resolvable hash from the worklist to the kept
/// set and queueing its children keeps the kept set closed under edges,
/// up to the worklist and unresolvable hashes, and keeps the root covered.
#[verifier::rlimit(100)]
proof fn lemma_mark_step_closure(
    store: Map<Seq<u8>, Seq<u8>>,
    rootb: Seq<u8>,
    pre_keep: Seq<Vec<u8>>,
    keep: Seq<Vec<u8>>,
    popped: Seq<EntryHash>,
    pre_stack: Seq<EntryHash>,
    stack: Seq<EntryHash>,
    hb: Seq<u8>,
    ev: EntryV,
)
    requires
        popped.len() > 0,
        popped.last()@ == hb,
        pre_stack == popped.drop_last(),
        resolve(store, hb) == Resolved::Entry(ev),
        keep.len() == pre_keep.len() + 1,
        forall|j: int| 0 <= j < pre_keep.len() ==> keep[j] == pre_keep[j],
        keep[keep.len() - 1]@ == hb,
        stack.len() == pre_stack.len() + entry_children(ev).len(),
        forall|j: int| 0 <= j < pre_stack.len() ==> stack[j] == pre_stack[j],
        forall|j: int|
            pre_stack.len() <= j < stack.len() ==> #[trigger] stack[j]@ == entry_children(ev)[j
                - pre_stack.len()],
        forall|j: int, c: Seq<u8>|
            0 <= j < pre_keep.len() && #[trigger] has_edge(store, pre_keep[j]@, c)
                ==> crate::database::keep_has(pre_keep, c) || hash_list_has(popped, c) || !(
            resolve(store, c) is Entry),
        resolve(store, rootb) is Entry ==> crate::database::keep_has(pre_keep, rootb)
            || hash_list_has(popped, rootb),
    ensures
        forall|j: int, c: Seq<u8>|
            0 <= j < keep.len() && #[trigger] has_edge(store, keep[j]@, c)
                ==> crate::database::keep_has(keep, c) || hash_list_has(stack, c) || !(resolve(
                store,
                c,
            ) is Entry),
        resolve(store, rootb) is Entry ==> crate::database::keep_has(keep, rootb)
            || hash_list_has(stack, rootb),
{
    let last = keep.len() - 1;
    assert forall|j: int, c: Seq<u8>|
        0 <= j < keep.len() && #[trigger] has_edge(store, keep[j]@, c) implies
        crate::database::keep_has(keep, c) || hash_list_has(stack, c) || !(resolve(
        store,
        c,
    ) is Entry) by {
        if j == last {
            assert(keep[j]@ == hb);
            let i2 = choose|i2: int|
                0 <= i2 < entry_children(ev).len() && entry_children(ev)[i2] == c;
            assert(stack[pre_stack.len() + i2]@ == c);
            assert(hash_list_has(stack, c));
        } else {
            assert(keep[j] == pre_keep[j]);
            assert(has_edge(store, pre_keep[j]@, c));
            if crate::database::keep_has(pre_keep, c) {
                let jj = choose|jj: int| 0 <= jj < pre_keep.len() && pre_keep[jj]@ == c;
                assert(keep[jj]@ == c);
                assert(crate::database::keep_has(keep, c));
            } else if hash_list_has(popped, c) {
                let jj = choose|jj: int| 0 <= jj < popped.len() && popped[jj]@ == c;
                if jj < popped.len() - 1 {
                    assert(stack[jj] == pre_stack[jj]);
                    assert(pre_stack[jj] == popped[jj]);
                    assert(hash_list_has(stack, c));
                } else {
                    assert(c == hb);
                    assert(keep[last]@ == c);
                    assert(crate::database::keep_has(keep, c));
                }
            }
        }
    }
    if resolve(store, rootb) is Entry {
        if crate::database::keep_has(pre_keep, rootb) {
            let jj = choose|jj: int| 0 <= jj < pre_keep.len() && pre_keep[jj]@ == rootb;
            assert(keep[jj]@ == rootb);
            assert(crate::database::keep_has(keep, rootb));
        } else {
            let jj = choose|jj: int| 0 <= jj < popped.len() && popped[jj]@ == rootb;
            if jj < popped.len() - 1 {
                assert(stack[jj] == pre_stack[jj]);
                assert(pre_stack[jj] == popped[jj]);
                assert(hash_list_has(stack, rootb));
            } else {
                assert(keep[last]@ == rootb);
                assert(crate::database::keep_has(keep, rootb));
            }
        }
    }
}

/// After the mark loop, the kept set is closed under edges and holds the
/// root, so it covers every marked hash.
proof fn lemma_closure_covers(
    store: Map<Seq<u8>, Seq<u8>>,
    root: Seq<u8>,
    keep: Seq<Vec<u8>>,
    h: Seq<u8>,
    n: nat,
)
    requires
        reaches(store, root, h, n),
        resolve(store, h) is Entry,
        resolve(store, root) is Entry ==> crate::database::keep_has(keep, root),
        forall|j: int, c: Seq<u8>|
            0 <= j < keep.len() && #[trigger] has_edge(store, keep[j]@, c)
                ==> crate::database::keep_has(keep, c) || !(resolve(store, c) is Entry),
    ensures
        crate::database::keep_has(keep, h),
    decreases n,
{
    if n == 0 {
        assert(h == root);
    } else {
        let m = choose|m: Seq<u8>| reaches(store, root, m, (n - 1) as nat) && has_edge(
            store,
            m,
            h,
        );
        assert(resolve(store, m) is Entry);
        lemma_closure_covers(store, root, keep, m, (n - 1) as nat);
        let j = choose|j: int| 0 <= j < keep.len() && keep[j]@ == m;
        assert(has_edge(store, keep[j]@, h));
    }
}

impl MerkleStorage {
    /// Mark and sweep, rooted at the head: walk the entry graph through
    /// the store, collect every hash the walk resolves, and drop every
    /// other key.  Nothing the head still reaches is lost; what stays
    /// keeps its value.  Without a head, everything is dropped.
    #[verifier::rlimit(100)]
    pub fn gc(&mut self) -> (r: Result<(), MerkleError>)
        requires
            old(self).inv(),
        ensures
            final(self).inv(),
            r is Ok,
            final(self).stage_view() == old(self).stage_view(),
            final(self).last_commit_view() == old(self).last_commit_view(),
            forall|k: Seq<u8>|
                #[trigger] final(self).store_view().contains_key(k) ==> old(self).store_view().contains_key(k) && final(self).store_view()[k] == old(self).store_view()[k],
            old(self).last_commit_view() matches Some(root) ==> forall|k: Seq<u8>|
                spec_marked(old(self).store_view(), root, k) ==> #[trigger] final(self).store_view().contains_key(k),
            old(self).last_commit_view() is None ==> forall|k: Seq<u8>|
                !(#[trigger] final(self).store_view().contains_key(k)),
    {
        let ghost store = self.store_view();
        proof {
            self.db.lemma_len();
        }
        let root = match &self.last_commit_hash {
            None => {
                let _ignored = self.db.retain(Vec::new());
                proof {
                    assert forall|k: Seq<u8>|
                        !(#[trigger] self.store_view().contains_key(k)) by {
                        assert(!crate::database::keep_has(Seq::<Vec<u8>>::empty(), k));
                    }
                }
                return Ok(());
            },
            Some(h) => *h,
        };
        let ghost rootb = root@;
        let mut keep: Vec<Vec<u8>> = Vec::new();
        let mut stack: Vec<EntryHash> = Vec::new();
        stack.push(root);
        proof {
            assert(stack@[0]@ == rootb);
            assert(hash_list_has(stack@, rootb));
        }
        loop
            invariant
                *self == *old(self),
                store == self.store_view(),
                self.inv(),
                store.dom().finite(),
                store.len() == self.db.seq_view().len(),
                forall|p: int, q: int| 0 <= p < q < keep@.len() ==> keep@[p]@ != keep@[q]@,
                forall|j: int| 0 <= j < keep@.len() ==> store.contains_key(#[trigger] keep@[j]@),
                forall|j: int, c: Seq<u8>|
                    0 <= j < keep@.len() && #[trigger] has_edge(store, keep@[j]@, c)
                        ==> crate::database::keep_has(keep@, c) || hash_list_has(stack@, c) || !(
                    resolve(store, c) is Entry),
                resolve(store, rootb) is Entry ==> crate::database::keep_has(keep@, rootb)
                    || hash_list_has(stack@, rootb),
                keep@.len() <= store.len(),
            ensures
                stack@.len() == 0,
            decreases store.len() + 1 - keep@.len(), stack@.len(),
        {
            let ghost popped = stack@;
            let h = match stack.pop() {
                None => {
                    break ;
                },
                Some(h) => h,
            };
            proof {
                assert(stack@ =~= popped.drop_last());
                assert(popped.last() == h);
            }
            let already = keep_member(&keep, &h);
            if already {
                proof {
                    lemma_stack_shrink(store, rootb, keep@, popped, stack@, h@);
                }
            } else {
                let resolved = db_resolve(&self.db, &h);
                match resolved {
                    Err(_) => {
                        proof {
                            lemma_stack_shrink(store, rootb, keep@, popped, stack@, h@);
                        }
                    },
                    Ok(entry) => {
                        let ghost pre_keep = keep@;
                        let ghost pre_stack = stack@;
                        let hv = vstd::slice::slice_to_vec(h.as_slice());
                        keep.push(hv);
                        match &entry {
                            Entry::Blob(_) => {},
                            Entry::Commit(c) => {
                                stack.push(c.root_hash);
                            },
                            Entry::Tree(nodes) => {
                                proof {
                                    crate::entry::lemma_nodes_view(nodes@);
                                    lemma_node_hashes(nodes_view(nodes@));
                                }
                                let nn = nodes.len();
                                let ghost mid_stack = stack@;
                                let mut t: usize = 0;
                                while t < nn
                                    invariant
                                        t <= nn,
                                        nn == nodes@.len(),
                                        stack@.len() == mid_stack.len() + t,
                                        forall|j: int|
                                            0 <= j < mid_stack.len() ==> stack@[j]
                                                == mid_stack[j],
                                        forall|j: int|
                                            0 <= j < t ==> stack@[mid_stack.len() + j]
                                                == nodes@[j].1.entry_hash,
                                    decreases nn - t,
                                {
                                    stack.push(nodes[t].1.entry_hash);
                                    t = t + 1;
                                }
                            },
                        }
                        proof {
                            let hb = h@;
                            let ev = entry@;
                            assert(keep@[keep@.len() - 1]@ == hb);
                            assert forall|j: int|
                                pre_stack.len() <= j < stack@.len() implies #[trigger] stack@[j]@
                                == entry_children(ev)[j - pre_stack.len()] by {
                                match ev {
                                    EntryV::Blob(_) => {
                                        assert(false);
                                    },
                                    EntryV::Commit(cv) => {
                                        assert(stack@[j]@ == cv.root);
                                        assert(entry_children(ev) =~= seq![cv.root]);
                                    },
                                    EntryV::Tree(nv) => {
                                        lemma_node_hashes(nv);
                                        assert(stack@[j]@ == node_hashes(nv)[j
                                            - pre_stack.len()]);
                                    },
                                }
                            }
                            assert(stack@.len() == pre_stack.len() + entry_children(
                                ev,
                            ).len()) by {
                                match ev {
                                    EntryV::Blob(_) => {},
                                    EntryV::Commit(cv) => {
                                        assert(entry_children(ev) =~= seq![cv.root]);
                                    },
                                    EntryV::Tree(nv) => {
                                        lemma_node_hashes(nv);
                                    },
                                }
                            }
                            lemma_mark_step_closure(
                                store,
                                rootb,
                                pre_keep,
                                keep@,
                                popped,
                                pre_stack,
                                stack@,
                                hb,
                                ev,
                            );

                            assert forall|p: int, q: int|
                                0 <= p < q < keep@.len() implies keep@[p]@ != keep@[q]@ by {
                                if q == keep@.len() - 1 {
                                    assert(keep@[p]@ == pre_keep[p]@);
                                    assert(!crate::database::keep_has(pre_keep, hb));
                                } else {
                                    assert(keep@[p] == pre_keep[p] && keep@[q] == pre_keep[q]);
                                }
                            }
                            assert forall|j: int|
                                0 <= j < keep@.len() implies store.contains_key(
                                #[trigger] keep@[j]@,
                            ) by {
                                if j < pre_keep.len() {
                                    assert(keep@[j] == pre_keep[j]);
                                }
                            }
                            assert forall|i2: int|
                                0 <= i2 < keys_of(keep@).len() implies store.contains_key(
                                #[trigger] keys_of(keep@)[i2],
                            ) by {
                                assert(keys_of(keep@)[i2] == keep@[i2]@);
                            }
                            lemma_distinct_keys_bound(keys_of(keep@), store);
                            assert(keys_of(keep@).len() == keep@.len());
                        }
                    },
                }
            }
        }
        let ghost keepv = keep@;
        let _ignored = self.db.retain(keep);
        proof {
            assert forall|k: Seq<u8>|
                spec_marked(store, rootb, k) implies #[trigger] self.store_view().contains_key(
                k,
            ) by {
                let n = choose|n: nat| #[trigger] reaches(store, rootb, k, n);
                lemma_closure_covers(store, rootb, keepv, k, n);
            }
        }
        Ok(())
    }
}

/// The key/value pairs below a child, in depth-first entry order: a value
/// under its full path, a directory walked entry by entry.
pub open spec fn collect_child(c: ChildV, base: Seq<Seq<u8>>) -> Seq<(Seq<Seq<u8>>, Seq<u8>)>
    decreases c, 0int,
{
    match c {
        ChildV::Blob(b) => seq![(base, b)],
        ChildV::Dir(s) => collect_dir(s, base),
    }
}

/// The key/value pairs below a directory's entries, in order.
pub open spec fn collect_dir(
    s: Seq<(Seq<u8>, ChildV)>,
    base: Seq<Seq<u8>>,
) -> Seq<(Seq<Seq<u8>>, Seq<u8>)>
    decreases s, 1int,
{
    if s.len() == 0 {
        Seq::empty()
    } else {
        collect_dir(s.drop_last(), base) + collect_child(s.last().1, base.push(s.last().0))
    }
}

/// The shape of a collected pair list: each key as its segment bytes.
pub open spec fn pairs_view(s: Seq<(ContextKey, ContextValue)>) -> Seq<(Seq<Seq<u8>>, Seq<u8>)>
    decreases s.len(),
{
    if s.len() == 0 {
        Seq::empty()
    } else {
        pairs_view(s.drop_last()).push((path_view(s.last().0@), s.last().1@))
    }
}

/// `pairs_view` maps the list index by index.
pub proof fn lemma_pairs_view(s: Seq<(ContextKey, ContextValue)>)
    ensures
        pairs_view(s).len() == s.len(),
        forall|i: int|
            0 <= i < s.len() ==> pairs_view(s)[i] == (path_view(s[i].0@), s[i].1@),
    decreases s.len(),
{
    if s.len() > 0 {
        lemma_pairs_view(s.drop_last());
    }
}

/// Append every key/value pair below `c` to `out`, keys rooted at `base`.
fn collect_into(c: &StageChild, base: &ContextKey, out: &mut Vec<(ContextKey, ContextValue)>)
    ensures
        pairs_view(final(out)@) == pairs_view(old(out)@) + collect_child(
            child_view(*c),
            path_view(base@),
        ),
    decreases *c,
{
    match c {
        StageChild::Blob(b) => {
            let ghost pre = out@;
            out.push((clone_key(base), clone_bytes(b)));
            proof {
                assert(out@.drop_last() =~= pre);
                lemma_pairs_view(out@);
                lemma_pairs_view(pre);
                assert(pairs_view(out@) =~= pairs_view(pre) + collect_child(
                    child_view(*c),
                    path_view(base@),
                ));
            }
        },
        StageChild::Subtree(t) => {
            collect_tree_into(t, base, out);
        },
    }
}

/// Append every key/value pair below the tree node `t` to `out`.
fn collect_tree_into(t: &StageTree, base: &ContextKey, out: &mut Vec<(ContextKey, ContextValue)>)
    ensures
        pairs_view(final(out)@) == pairs_view(old(out)@) + collect_dir(
            t.view(),
            path_view(base@),
        ),
    decreases *t,
{
    let ghost v = t.view();
    proof {
        crate::tree::lemma_entries_view(t.entries@);
    }
    let n = t.entries.len();
    let mut i: usize = 0;
    while i < n
        invariant
            i <= n,
            n == t.entries@.len(),
            v == t.view(),
            v.len() == n,
            forall|j: int|
                0 <= j < n ==> v[j] == (
                seg_bytes(t.entries@[j].name@),
                child_view(t.entries@[j].child),
                ),
            pairs_view(out@) == pairs_view(old(out)@) + collect_dir(
                v.take(i as int),
                path_view(base@),
            ),
        decreases n - i,
    {
        let e = &t.entries[i];
        let mut child_base = clone_key(base);
        child_base.push(e.name.clone());
        proof {
            assert(path_view(child_base@) =~= path_view(base@).push(seg_bytes(e.name@)));
        }
        collect_into(&e.child, &child_base, out);
        proof {
            assert(v.take(i as int + 1).drop_last() =~= v.take(i as int));
            assert(v.take(i as int + 1).last() == v[i as int]);
            assert(pairs_view(out@) =~= pairs_view(old(out)@) + collect_dir(
                v.take(i as int + 1),
                path_view(base@),
            ));
        }
        i = i + 1;
    }
    proof {
        assert(v.take(n as int) =~= v);
    }
}

impl MerkleStorage {
    /// Every key/value pair below `prefix` in the staging tree, keys in
    /// full, in depth-first entry order; `None` where nothing lies below
    /// the prefix.
    pub fn get_by_prefix(&self, prefix: &ContextKey) -> (r: Result<
        Option<Vec<(ContextKey, ContextValue)>>,
        MerkleError,
    >)
        requires
            self.inv(),
        ensures
            r is Ok,
            ({
                let pairs = collect_dir(
                    spec_find(self.stage_view(), path_view(prefix@)),
                    path_view(prefix@),
                );
                match r {
                    Ok(None) => pairs.len() == 0,
                    Ok(Some(v)) => pairs_view(v@) == pairs && v@.len() > 0,
                    Err(_) => false,
                }
            }),
    {
        proof {
            assert(path_view(prefix@).take(prefix@.len() as int) =~= path_view(prefix@));
        }
        let sub = self.stage.subtree_copy(prefix, prefix.len());
        let root_child = StageChild::Subtree(sub);
        let mut out: Vec<(ContextKey, ContextValue)> = Vec::new();
        proof {
            assert(pairs_view(out@) =~= Seq::<(Seq<Seq<u8>>, Seq<u8>)>::empty());
        }
        collect_into(&root_child, prefix, &mut out);
        proof {
            lemma_pairs_view(out@);
            assert(pairs_view(out@) =~= collect_child(
                child_view(root_child),
                path_view(prefix@),
            ));
        }
        if out.len() == 0 {
            Ok(None)
        } else {
            Ok(Some(out))
        }
    }
}

/// What locating the subtree at a prefix yields: the hash of the tree
/// there, emptiness (an absent segment or a value crossed on the way),
/// or why the walk stopped.
pub ghost enum HashAtOutcome {
    Found(Seq<u8>),
    Empty,
    Missing(Seq<u8>),
    Corrupt,
    UnexpectedCommit,
}

/// Walk a non-empty `path` down from a tree's edge list, returning the
/// hash of the tree the full path addresses.
pub open spec fn spec_hash_at(
    store: Map<Seq<u8>, Seq<u8>>,
    nodes: Seq<(Seq<u8>, NodeV)>,
    path: Seq<Seq<u8>>,
) -> HashAtOutcome
    decreases path.len(),
{
    if path.len() == 0 {
        HashAtOutcome::Empty
    } else {
        match node_get(nodes, path[0]) {
            None => HashAtOutcome::Empty,
            Some(node) => match resolve(store, node.hash) {
                Resolved::Missing => HashAtOutcome::Missing(node.hash),
                Resolved::Corrupt => HashAtOutcome::Corrupt,
                Resolved::Entry(EntryV::Blob(_)) => HashAtOutcome::Empty,
                Resolved::Entry(EntryV::Commit(_)) => HashAtOutcome::UnexpectedCommit,
                Resolved::Entry(EntryV::Tree(n2)) => {
                    if path.len() == 1 {
                        HashAtOutcome::Found(node.hash)
                    } else {
                        spec_hash_at(store, n2, path.drop_first())
                    }
                },
            },
        }
    }
}

/// What locating and rebuilding the subtree at a prefix yields.
pub ghost enum SubtreeOutcome {
    Tree(Seq<(Seq<u8>, ChildV)>),
    Empty,
    Missing(Seq<u8>),
    Corrupt,
    Unexpected(StructureKind, StructureKind),
    Cycle,
}

/// The subtree at `prefix` in the snapshot addressed by the commit hash
/// `ch`: resolve the commit and its root tree, locate the subtree at the
/// prefix, and rebuild it from the store.
pub open spec fn spec_subtree(
    store: Map<Seq<u8>, Seq<u8>>,
    ch: Seq<u8>,
    prefix: Seq<Seq<u8>>,
) -> SubtreeOutcome {
    match resolve(store, ch) {
        Resolved::Missing => SubtreeOutcome::Missing(ch),
        Resolved::Corrupt => SubtreeOutcome::Corrupt,
        Resolved::Entry(EntryV::Tree(_)) => SubtreeOutcome::Unexpected(
            StructureKind::Commit,
            StructureKind::Tree,
        ),
        Resolved::Entry(EntryV::Blob(_)) => SubtreeOutcome::Unexpected(
            StructureKind::Commit,
            StructureKind::Blob,
        ),
        Resolved::Entry(EntryV::Commit(c)) => match resolve(store, c.root) {
            Resolved::Missing => SubtreeOutcome::Missing(c.root),
            Resolved::Corrupt => SubtreeOutcome::Corrupt,
            Resolved::Entry(EntryV::Blob(_)) => SubtreeOutcome::Unexpected(
                StructureKind::Tree,
                StructureKind::Blob,
            ),
            Resolved::Entry(EntryV::Commit(_)) => SubtreeOutcome::Unexpected(
                StructureKind::Tree,
                StructureKind::Commit,
            ),
            Resolved::Entry(EntryV::Tree(nodes)) => {
                let located = if prefix.len() == 0 {
                    HashAtOutcome::Found(c.root)
                } else {
                    spec_hash_at(store, nodes, prefix)
                };
                match located {
                    HashAtOutcome::Empty => SubtreeOutcome::Empty,
                    HashAtOutcome::Missing(h) => SubtreeOutcome::Missing(h),
                    HashAtOutcome::Corrupt => SubtreeOutcome::Corrupt,
                    HashAtOutcome::UnexpectedCommit => SubtreeOutcome::Unexpected(
                        StructureKind::Tree,
                        StructureKind::Commit,
                    ),
                    HashAtOutcome::Found(sh) => match mat_entry(store, sh, mat_fuel(store)) {
                        Ok(ChildV::Dir(s)) => SubtreeOutcome::Tree(s),
                        Ok(ChildV::Blob(_)) => SubtreeOutcome::Unexpected(
                            StructureKind::Tree,
                            StructureKind::Blob,
                        ),
                        Err(MatErr::Missing(h)) => SubtreeOutcome::Missing(h),
                        Err(MatErr::Corrupt) => SubtreeOutcome::Corrupt,
                        Err(MatErr::UnexpectedCommit) => SubtreeOutcome::Unexpected(
                            StructureKind::Tree,
                            StructureKind::Commit,
                        ),
                        Err(MatErr::OutOfFuel) => SubtreeOutcome::Cycle,
                    },
                }
            },
        },
    }
}

/// What a prefix query over a committed snapshot yields.
pub ghost enum PrefixOutcome {
    Pairs(Seq<(Seq<Seq<u8>>, Seq<u8>)>),
    Missing(Seq<u8>),
    Corrupt,
    Unexpected(StructureKind, StructureKind),
    Cycle,
}

/// The key/value pairs below `prefix` in the snapshot addressed by `ch`:
/// the rebuilt subtree, collected.
pub open spec fn spec_prefix_pairs(
    store: Map<Seq<u8>, Seq<u8>>,
    ch: Seq<u8>,
    prefix: Seq<Seq<u8>>,
) -> PrefixOutcome {
    match spec_subtree(store, ch, prefix) {
        SubtreeOutcome::Tree(s) => PrefixOutcome::Pairs(collect_dir(s, prefix)),
        SubtreeOutcome::Empty => PrefixOutcome::Pairs(Seq::empty()),
        SubtreeOutcome::Missing(h) => PrefixOutcome::Missing(h),
        SubtreeOutcome::Corrupt => PrefixOutcome::Corrupt,
        SubtreeOutcome::Unexpected(a, b) => PrefixOutcome::Unexpected(a, b),
        SubtreeOutcome::Cycle => PrefixOutcome::Cycle,
    }
}

impl MerkleStorage {
    /// The hash of the subtree at a non-empty `prefix` below the tree with
    /// edge list `nodes`, walked through the store.
    fn hash_at(&self, nodes: Vec<(String, Node)>, prefix: &ContextKey) -> (r: Result<
        Option<EntryHash>,
        MerkleError,
    >)
        requires
            self.inv(),
            prefix@.len() > 0,
        ensures
            match r {
                Ok(Some(h)) => spec_hash_at(
                    self.store_view(),
                    nodes_view(nodes@),
                    path_view(prefix@),
                ) == HashAtOutcome::Found(h@),
                Ok(None) => spec_hash_at(
                    self.store_view(),
                    nodes_view(nodes@),
                    path_view(prefix@),
                ) == HashAtOutcome::Empty,
                Err(MerkleError::EntryNotFound { hash }) => spec_hash_at(
                    self.store_view(),
                    nodes_view(nodes@),
                    path_view(prefix@),
                ) == HashAtOutcome::Missing(hash@),
                Err(MerkleError::SerializationError) => spec_hash_at(
                    self.store_view(),
                    nodes_view(nodes@),
                    path_view(prefix@),
                ) == HashAtOutcome::Corrupt,
                Err(MerkleError::FoundUnexpectedStructure { sought, found }) => sought
                    == StructureKind::Tree && found == StructureKind::Commit && spec_hash_at(
                    self.store_view(),
                    nodes_view(nodes@),
                    path_view(prefix@),
                ) == HashAtOutcome::UnexpectedCommit,
                Err(_) => false,
            },
    {
        let ghost store = self.store_view();
        let ghost path = path_view(prefix@);
        let n = prefix.len();
        proof {
            assert(path.subrange(0, n as int) =~= path);
        }
        let mut cur = nodes;
        let mut idx: usize = 0;
        loop
            invariant
                idx < n,
                n == prefix@.len(),
                path == path_view(prefix@),
                path.len() == n,
                store == self.store_view(),
                self.inv(),
                spec_hash_at(store, nodes_view(nodes@), path) == spec_hash_at(
                    store,
                    nodes_view(cur@),
                    path.subrange(idx as int, n as int),
                ),
            decreases n - idx,
        {
            let seg: &String = &prefix[idx];
            proof {
                assert(*seg == prefix@[idx as int]);
                assert(path.subrange(idx as int, n as int)[0] == path[idx as int]);
                assert(path[idx as int] == seg_bytes(prefix@[idx as int]@));
            }
            let node = match find_node(&cur, seg.as_str()) {
                Some(node) => *node,
                None => {
                    return Ok(None);
                },
            };
            let resolved = db_resolve(&self.db, &node.entry_hash);
            proof {
                assert(path.subrange(idx as int, n as int).drop_first() =~= path.subrange(
                    idx as int + 1,
                    n as int,
                ));
            }
            match resolved {
                Ok(Entry::Tree(n2)) => {
                    if idx == n - 1 {
                        return Ok(Some(node.entry_hash));
                    }
                    cur = n2;
                },
                Ok(Entry::Blob(_)) => {
                    return Ok(None);
                },
                Ok(Entry::Commit(_)) => {
                    return Err(
                        MerkleError::FoundUnexpectedStructure {
                            sought: StructureKind::Tree,
                            found: StructureKind::Commit,
                        },
                    );
                },
                Err(e) => {
                    return Err(e);
                },
            }
            idx = idx + 1;
        }
    }

    /// Resolve a commit and its root tree, and rebuild the subtree at
    /// `prefix` from the store.
    fn subtree_of_commit(&self, context_hash: &EntryHash, prefix: &ContextKey) -> (r: Result<
        Option<StageTree>,
        MerkleError,
    >)
        requires
            self.inv(),
        ensures
            ({
                let outcome = spec_subtree(self.store_view(), context_hash@, path_view(prefix@));
                match r {
                    Ok(Some(t)) => wf_dir(t.view()) && outcome == SubtreeOutcome::Tree(t.view()),
                    Ok(None) => outcome == SubtreeOutcome::Empty,
                    Err(MerkleError::EntryNotFound { hash }) => outcome == SubtreeOutcome::Missing(
                        hash@,
                    ),
                    Err(MerkleError::SerializationError) => outcome == SubtreeOutcome::Corrupt,
                    Err(MerkleError::FoundUnexpectedStructure { sought, found }) => outcome
                        == SubtreeOutcome::Unexpected(sought, found),
                    Err(MerkleError::CommitRootNotFound) => outcome == SubtreeOutcome::Cycle,
                    Err(_) => false,
                }
            }),
    {
        let commit = match db_resolve(&self.db, context_hash) {
            Ok(Entry::Commit(c)) => c,
            Ok(Entry::Tree(_)) => {
                return Err(
                    MerkleError::FoundUnexpectedStructure {
                        sought: StructureKind::Commit,
                        found: StructureKind::Tree,
                    },
                );
            },
            Ok(Entry::Blob(_)) => {
                return Err(
                    MerkleError::FoundUnexpectedStructure {
                        sought: StructureKind::Commit,
                        found: StructureKind::Blob,
                    },
                );
            },
            Err(e) => {
                return Err(e);
            },
        };
        let root_nodes = match db_resolve(&self.db, &commit.root_hash) {
            Ok(Entry::Tree(nodes)) => nodes,
            Ok(Entry::Blob(_)) => {
                return Err(
                    MerkleError::FoundUnexpectedStructure {
                        sought: StructureKind::Tree,
                        found: StructureKind::Blob,
                    },
                );
            },
            Ok(Entry::Commit(_)) => {
                return Err(
                    MerkleError::FoundUnexpectedStructure {
                        sought: StructureKind::Tree,
                        found: StructureKind::Commit,
                    },
                );
            },
            Err(e) => {
                return Err(e);
            },
        };
        let sub_hash = if prefix.len() == 0 {
            commit.root_hash
        } else {
            match self.hash_at(root_nodes, prefix) {
                Ok(Some(h)) => h,
                Ok(None) => {
                    return Ok(None);
                },
                Err(e) => {
                    return Err(e);
                },
            }
        };
        let n = self.db.len();
        proof {
            self.db.lemma_len();
        }
        let fuel = if n == usize::MAX {
            n
        } else {
            n + 1
        };
        proof {
            assert(fuel as nat == mat_fuel(self.store_view()));
        }
        match build_child(&self.db, &sub_hash, fuel) {
            Ok(StageChild::Subtree(t)) => Ok(Some(t)),
            Ok(StageChild::Blob(_)) => Err(
                MerkleError::FoundUnexpectedStructure {
                    sought: StructureKind::Tree,
                    found: StructureKind::Blob,
                },
            ),
            Err(e) => Err(e),
        }
    }

    /// Every key/value pair below `prefix` in the snapshot addressed by
    /// `context_hash`, keys in full, in depth-first entry order; `None`
    /// where nothing lies below the prefix.
    pub fn get_key_values_by_prefix(&self, context_hash: &EntryHash, prefix: &ContextKey) -> (r:
        Result<Option<Vec<(ContextKey, ContextValue)>>, MerkleError>)
        requires
            self.inv(),
        ensures
            ({
                let outcome = spec_prefix_pairs(
                    self.store_view(),
                    context_hash@,
                    path_view(prefix@),
                );
                match r {
                    Ok(None) => outcome matches PrefixOutcome::Pairs(pairs) && pairs.len() == 0,
                    Ok(Some(v)) => v@.len() > 0 && (outcome matches PrefixOutcome::Pairs(pairs)
                        && pairs_view(v@) == pairs),
                    Err(MerkleError::EntryNotFound { hash }) => outcome == PrefixOutcome::Missing(
                        hash@,
                    ),
                    Err(MerkleError::SerializationError) => outcome == PrefixOutcome::Corrupt,
                    Err(MerkleError::FoundUnexpectedStructure { sought, found }) => outcome
                        == PrefixOutcome::Unexpected(sought, found),
                    Err(MerkleError::CommitRootNotFound) => outcome == PrefixOutcome::Cycle,
                    Err(_) => false,
                }
            }),
    {
        let sub = match self.subtree_of_commit(context_hash, prefix) {
            Ok(Some(t)) => t,
            Ok(None) => {
                return Ok(None);
            },
            Err(e) => {
                return Err(e);
            },
        };
        let mut out: Vec<(ContextKey, ContextValue)> = Vec::new();
        proof {
            assert(pairs_view(out@) =~= Seq::<(Seq<Seq<u8>>, Seq<u8>)>::empty());
        }
        collect_tree_into(&sub, prefix, &mut out);
        proof {
            lemma_pairs_view(out@);
        }
        if out.len() == 0 {
            Ok(None)
        } else {
            Ok(Some(out))
        }
    }
}

/// The lowercase hex digit of a value below sixteen.
pub open spec fn hex_digit(n: u8) -> char {
    if n < 10 {
        (48 + n) as char
    } else {
        (87 + n) as char
    }
}

/// The lowercase hex encoding of a byte sequence: two digits per byte,
/// high digit first.
pub open spec fn hex_of(b: Seq<u8>) -> Seq<char>
    decreases b.len(),
{
    if b.len() == 0 {
        Seq::empty()
    } else {
        hex_of(b.drop_last()).push(hex_digit(b.last() / 16)).push(hex_digit(b.last() % 16))
    }
}

/// Relies on hex::encode: the lowercase hex encoding of the bytes, two
/// digits per byte, high digit first.
#[verifier::external_body]
fn hex_encode(b: &[u8]) -> (r: String)
    ensures
        r@ == hex_of(b@),
{
    hex::encode(b)
}

/// A tree in string form: directories as named children in sorted order,
/// values as lowercase hex, `Null` where a depth limit cut the tree off.
#[derive(Debug, PartialEq, Eq)]
pub enum StringTreeEntry {
    Tree(Vec<(String, StringTreeEntry)>),
    Blob(String),
    Null,
}

/// The shape of a tree in string form: names as their UTF-8 bytes,
/// values as hex characters.
pub ghost enum StringTreeV {
    Tree(Seq<(Seq<u8>, StringTreeV)>),
    Blob(Seq<char>),
    Null,
}

/// The shape of one string-form entry.
pub open spec fn st_view(e: StringTreeEntry) -> StringTreeV
    decreases e,
{
    match e {
        StringTreeEntry::Tree(children) => StringTreeV::Tree(st_list_view(children@)),
        StringTreeEntry::Blob(s) => StringTreeV::Blob(s@),
        StringTreeEntry::Null => StringTreeV::Null,
    }
}

/// The shape of a string-form child list, in order.
pub open spec fn st_list_view(s: Seq<(String, StringTreeEntry)>) -> Seq<(Seq<u8>, StringTreeV)>
    decreases s,
{
    if s.len() == 0 {
        Seq::empty()
    } else {
        st_list_view(s.drop_last()).push((seg_bytes(s.last().0@), st_view(s.last().1)))
    }
}

/// One level less of depth budget; a missing budget never runs out.
pub open spec fn dec_depth(depth: Option<nat>) -> Option<nat> {
    match depth {
        None => None,
        Some(d) => Some((d - 1) as nat),
    }
}

/// The string form of a child: `Null` at depth zero, hex for a value,
/// and a directory's children each rendered one level shallower.
pub open spec fn string_tree_of(c: ChildV, depth: Option<nat>) -> StringTreeV
    decreases c, 0int,
{
    if depth == Some(0nat) {
        StringTreeV::Null
    } else {
        match c {
            ChildV::Blob(b) => StringTreeV::Blob(hex_of(b)),
            ChildV::Dir(s) => StringTreeV::Tree(string_tree_dir(s, dec_depth(depth))),
        }
    }
}

/// The string forms of a directory's children, in order.
pub open spec fn string_tree_dir(s: Seq<(Seq<u8>, ChildV)>, depth: Option<nat>) -> Seq<
    (Seq<u8>, StringTreeV),
>
    decreases s, 1int,
{
    if s.len() == 0 {
        Seq::empty()
    } else {
        string_tree_dir(s.drop_last(), depth).push(
            (s.last().0, string_tree_of(s.last().1, depth)),
        )
    }
}

/// Render a child in string form, within the depth budget.
fn to_string_tree(c: &StageChild, depth: Option<usize>) -> (r: StringTreeEntry)
    ensures
        st_view(r) == string_tree_of(
            child_view(*c),
            match depth {
                None => None,
                Some(d) => Some(d as nat),
            },
        ),
    decreases *c,
{
    let depth_exhausted = match depth {
        Some(d0) => d0 == 0,
        None => false,
    };
    if depth_exhausted {
        return StringTreeEntry::Null;
    }
    match c {
        StageChild::Blob(b) => StringTreeEntry::Blob(hex_encode(b.as_slice())),
        StageChild::Subtree(t) => {
            let next_depth = match depth {
                None => None,
                Some(d) => Some(d - 1),
            };
            StringTreeEntry::Tree(to_string_tree_list(t, next_depth))
        },
    }
}

/// Render a tree node's children in string form.
fn to_string_tree_list(t: &StageTree, depth: Option<usize>) -> (r: Vec<(String, StringTreeEntry)>)
    ensures
        st_list_view(r@) == string_tree_dir(
            t.view(),
            match depth {
                None => None,
                Some(d) => Some(d as nat),
            },
        ),
    decreases *t,
{
    let ghost v = t.view();
    let ghost d = (match depth {
        None => None,
        Some(dd) => Some(dd as nat),
    });
    proof {
        crate::tree::lemma_entries_view(t.entries@);
    }
    let n = t.entries.len();
    let mut out: Vec<(String, StringTreeEntry)> = Vec::new();
    let mut i: usize = 0;
    while i < n
        invariant
            i <= n,
            n == t.entries@.len(),
            v == t.view(),
            v.len() == n,
            d == (match depth {
                None => None,
                Some(dd) => Some(dd as nat),
            }),
            forall|j: int|
                0 <= j < n ==> v[j] == (
                seg_bytes(t.entries@[j].name@),
                child_view(t.entries@[j].child),
                ),
            st_list_view(out@) == string_tree_dir(v.take(i as int), d),
        decreases n - i,
    {
        let e = &t.entries[i];
        let rendered = to_string_tree(&e.child, depth);
        let ghost pre = out@;
        out.push((e.name.clone(), rendered));
        proof {
            assert(out@.drop_last() =~= pre);
            assert(v.take(i as int + 1).drop_last() =~= v.take(i as int));
            assert(v.take(i as int + 1).last() == v[i as int]);
            assert(st_list_view(out@) =~= string_tree_dir(v.take(i as int + 1), d));
        }
        i = i + 1;
    }
    proof {
        assert(v.take(n as int) =~= v);
    }
    out
}


/// What rendering the tree below a prefix yields.
pub ghost enum RenderOutcome {
    Rendered(StringTreeV),
    Missing(Seq<u8>),
    Corrupt,
    Unexpected(StructureKind, StructureKind),
    Cycle,
}

/// The string form of the subtree at `prefix` in the snapshot addressed
/// by `ch`, within a non-zero depth budget: the rebuilt subtree, rendered.
pub open spec fn spec_prefix_render(
    store: Map<Seq<u8>, Seq<u8>>,
    ch: Seq<u8>,
    prefix: Seq<Seq<u8>>,
    depth: Option<nat>,
) -> RenderOutcome {
    match spec_subtree(store, ch, prefix) {
        SubtreeOutcome::Tree(s) => RenderOutcome::Rendered(string_tree_of(ChildV::Dir(s), depth)),
        SubtreeOutcome::Empty => RenderOutcome::Rendered(
            string_tree_of(ChildV::Dir(Seq::empty()), depth),
        ),
        SubtreeOutcome::Missing(h) => RenderOutcome::Missing(h),
        SubtreeOutcome::Corrupt => RenderOutcome::Corrupt,
        SubtreeOutcome::Unexpected(a, b) => RenderOutcome::Unexpected(a, b),
        SubtreeOutcome::Cycle => RenderOutcome::Cycle,
    }
}

impl MerkleStorage {
    /// The tree below `prefix` in the snapshot addressed by
    /// `context_hash`, in string form: directory names as keys in sorted
    /// order, values as lowercase hex, cut off at `depth` levels (`None`
    /// renders all of it; depth zero renders `Null`).
    pub fn get_context_tree_by_prefix(
        &self,
        context_hash: &EntryHash,
        prefix: &ContextKey,
        depth: Option<usize>,
    ) -> (r: Result<StringTreeEntry, MerkleError>)
        requires
            self.inv(),
        ensures
            ({
                let d = (match depth {
                    None => None,
                    Some(dd) => Some(dd as nat),
                });
                let outcome = spec_prefix_render(
                    self.store_view(),
                    context_hash@,
                    path_view(prefix@),
                    d,
                );
                match r {
                    Ok(st) => {
                        if d == Some(0nat) {
                            st == StringTreeEntry::Null
                        } else {
                            outcome == RenderOutcome::Rendered(st_view(st))
                        }
                    },
                    Err(MerkleError::EntryNotFound { hash }) => d != Some(0nat) && outcome
                        == RenderOutcome::Missing(hash@),
                    Err(MerkleError::SerializationError) => d != Some(0nat) && outcome
                        == RenderOutcome::Corrupt,
                    Err(MerkleError::FoundUnexpectedStructure { sought, found }) => d != Some(
                        0nat,
                    ) && outcome == RenderOutcome::Unexpected(sought, found),
                    Err(MerkleError::CommitRootNotFound) => d != Some(0nat) && outcome
                        == RenderOutcome::Cycle,
                    Err(_) => false,
                }
            }),
    {
        let depth_exhausted = match depth {
            Some(d0) => d0 == 0,
            None => false,
        };
        if depth_exhausted {
            return Ok(StringTreeEntry::Null);
        }
        let sub = match self.subtree_of_commit(context_hash, prefix) {
            Ok(Some(t)) => t,
            Ok(None) => StageTree::empty(),
            Err(e) => {
                return Err(e);
            },
        };
        let ghost sv = sub.view();
        let rendered = StringTreeEntry::Tree(to_string_tree_list(&sub, match depth {
            None => None,
            Some(d) => Some(d - 1),
        }));
        proof {
            let d = (match depth {
                None => None,
                Some(dd) => Some(dd as nat),
            });
            assert(st_view(rendered) == string_tree_of(ChildV::Dir(sv), d));
        }
        Ok(rendered)
    }
}

/// The shape of a latency list: operation names as characters.
pub open spec fn lat_view(s: Seq<(String, OperationLatencies)>) -> Seq<
    (Seq<char>, OperationLatencies),
>
    decreases s.len(),
{
    if s.len() == 0 {
        Seq::empty()
    } else {
        lat_view(s.drop_last()).push((s.last().0@, s.last().1))
    }
}

/// `lat_view` maps the list index by index.
pub proof fn lemma_lat_view(s: Seq<(String, OperationLatencies)>)
    ensures
        lat_view(s).len() == s.len(),
        forall|i: int| 0 <= i < s.len() ==> lat_view(s)[i] == (s[i].0@, s[i].1),
    decreases s.len(),
{
    if s.len() > 0 {
        lemma_lat_view(s.drop_last());
    }
}

/// Counters after recording one duration: the total and the count grow,
/// saturating at the machine limit; the extremes widen.
pub open spec fn recorded(l: OperationLatencies, d: u64) -> OperationLatencies {
    OperationLatencies {
        cumul_op_exec_time: if l.cumul_op_exec_time + d > u64::MAX {
            u64::MAX
        } else {
            (l.cumul_op_exec_time + d) as u64
        },
        op_exec_times: if l.op_exec_times == u64::MAX {
            u64::MAX
        } else {
            (l.op_exec_times + 1) as u64
        },
        avg_exec_time: l.avg_exec_time,
        op_exec_time_min: if d < l.op_exec_time_min {
            d
        } else {
            l.op_exec_time_min
        },
        op_exec_time_max: if d > l.op_exec_time_max {
            d
        } else {
            l.op_exec_time_max
        },
    }
}

/// A latency list after recording a duration under a name: the first
/// entry with that name updated, or a fresh entry appended.
pub open spec fn lat_upd(
    s: Seq<(Seq<char>, OperationLatencies)>,
    op: Seq<char>,
    d: u64,
) -> Seq<(Seq<char>, OperationLatencies)>
    decreases s.len(),
{
    if s.len() == 0 {
        seq![(op, recorded(fresh_latencies(), d))]
    } else if s[0].0 == op {
        seq![(s[0].0, recorded(s[0].1, d))] + s.drop_first()
    } else {
        seq![s[0]] + lat_upd(s.drop_first(), op, d)
    }
}

/// Fresh counters: nothing recorded yet.
pub open spec fn fresh_latencies() -> OperationLatencies {
    OperationLatencies {
        cumul_op_exec_time: 0,
        op_exec_times: 0,
        avg_exec_time: 0,
        op_exec_time_min: u64::MAX,
        op_exec_time_max: 0,
    }
}

/// Record `d` nanoseconds under `name` in a latency list.
fn record_latency(list: &mut Vec<(String, OperationLatencies)>, name: &String, d: u64)
    ensures
        lat_view(final(list)@) == lat_upd(lat_view(old(list)@), name@, d),
{
    proof {
        lemma_lat_view(list@);
    }
    let ghost v0 = lat_view(list@);
    let n = list.len();
    let mut i: usize = 0;
    while i < n
        invariant
            i <= n,
            *list == *old(list),
            n == list@.len(),
            v0 == lat_view(list@),
            v0.len() == n,
            forall|j: int| 0 <= j < n ==> v0[j] == (list@[j].0@, list@[j].1),
            forall|j: int| 0 <= j < i ==> v0[j].0 != name@,
        decreases n - i,
    {
        if crate::order::bytes_cmp(list[i].0.as_str().as_bytes(), name.as_str().as_bytes())
            == 0 {
            proof {
                vstd::utf8::encode_utf8_decode_utf8(list@[i as int].0@);
                vstd::utf8::encode_utf8_decode_utf8(name@);
                assert(list@[i as int].0@ == name@);
            }
            let entry = list.remove(i);
            let updated_entry = merge_latency(entry.1, d);
            list.insert(i, (entry.0, updated_entry));
            proof {
                lemma_lat_view(list@);
                lemma_lat_upd_at(v0, name@, d, i as int);
                assert(lat_view(list@) =~= lat_upd(v0, name@, d));
            }
            return ;
        }
        i = i + 1;
    }
    let fresh = OperationLatencies::new();
    let updated_entry = merge_latency(fresh, d);
    list.push((name.clone(), updated_entry));
    proof {
        lemma_lat_view(list@);
        lemma_lat_upd_append(v0, name@, d);
        assert(lat_view(list@) =~= lat_upd(v0, name@, d));
    }
}

/// The counters after one recording.
fn merge_latency(l: OperationLatencies, d: u64) -> (r: OperationLatencies)
    ensures
        r == recorded(l, d),
{
    OperationLatencies {
        cumul_op_exec_time: if l.cumul_op_exec_time > u64::MAX - d {
            u64::MAX
        } else {
            l.cumul_op_exec_time + d
        },
        op_exec_times: if l.op_exec_times == u64::MAX {
            u64::MAX
        } else {
            l.op_exec_times + 1
        },
        avg_exec_time: l.avg_exec_time,
        op_exec_time_min: if d < l.op_exec_time_min {
            d
        } else {
            l.op_exec_time_min
        },
        op_exec_time_max: if d > l.op_exec_time_max {
            d
        } else {
            l.op_exec_time_max
        },
    }
}

/// Where the recorded name stands at position `k` (everything before it
/// named otherwise), the update rewrites exactly that position.
proof fn lemma_lat_upd_at(s: Seq<(Seq<char>, OperationLatencies)>, op: Seq<char>, d: u64, k: int)
    requires
        0 <= k < s.len(),
        s[k].0 == op,
        forall|j: int| 0 <= j < k ==> s[j].0 != op,
    ensures
        lat_upd(s, op, d) == s.update(k, (s[k].0, recorded(s[k].1, d))),
    decreases k,
{
    if k == 0 {
        assert(seq![(s[0].0, recorded(s[0].1, d))] + s.drop_first() =~= s.update(
            0,
            (s[0].0, recorded(s[0].1, d)),
        ));
    } else {
        lemma_lat_upd_at(s.drop_first(), op, d, k - 1);
        assert(s.drop_first()[k - 1] == s[k]);
        assert(seq![s[0]] + s.drop_first().update(k - 1, (s[k].0, recorded(s[k].1, d)))
            =~= s.update(k, (s[k].0, recorded(s[k].1, d))));
    }
}

/// Where no entry carries the recorded name, the update appends one.
proof fn lemma_lat_upd_append(s: Seq<(Seq<char>, OperationLatencies)>, op: Seq<char>, d: u64)
    requires
        forall|j: int| 0 <= j < s.len() ==> s[j].0 != op,
    ensures
        lat_upd(s, op, d) == s.push((op, recorded(fresh_latencies(), d))),
    decreases s.len(),
{
    if s.len() == 0 {
        assert(lat_upd(s, op, d) =~= s.push((op, recorded(fresh_latencies(), d))));
    } else {
        lemma_lat_upd_append(s.drop_first(), op, d);
        assert(seq![s[0]] + s.drop_first().push((op, recorded(fresh_latencies(), d)))
            =~= s.push((op, recorded(fresh_latencies(), d))));
    }
}

impl MerkleStorage {
    /// The recorded latency statistics.
    pub closed spec fn perf_view(self) -> MerklePerfStats {
        self.perf
    }

    /// Record one operation's duration: always under its name in the
    /// global statistics and, for a key below the data directory, also
    /// under the key's second segment.
    pub fn update_execution_stats(&mut self, op: String, path: Option<&ContextKey>, duration_ns: u64)
        ensures
            final(self).stage_view() == old(self).stage_view(),
            final(self).store_view() == old(self).store_view(),
            final(self).last_commit_view() == old(self).last_commit_view(),
            old(self).inv() ==> final(self).inv(),
            lat_view(final(self).perf_view().global@) == lat_upd(
                lat_view(old(self).perf_view().global@),
                op@,
                duration_ns,
            ),
    {
        record_latency(&mut self.perf.global, &op, duration_ns);
        match path {
            None => {},
            Some(key) => {
                if key.len() > 1 && crate::order::bytes_cmp(
                    key[0].as_str().as_bytes(),
                    "data".as_bytes(),
                ) == 0 {
                    let node = key[1].clone();
                    let n = self.perf.perpath.len();
                    let mut i: usize = 0;
                    let mut found: bool = false;
                    loop
                        invariant_except_break
                            !found,
                        invariant
                            i <= n,
                            n == self.perf.perpath@.len(),
                        ensures
                            found ==> i < n,
                        decreases n - i,
                    {
                        if i == n {
                            break ;
                        }
                        if crate::order::bytes_cmp(
                            self.perf.perpath[i].0.as_str().as_bytes(),
                            node.as_str().as_bytes(),
                        ) == 0 {
                            found = true;
                            break ;
                        }
                        i = i + 1;
                    }
                    if found {
                        let mut entry = self.perf.perpath.remove(i);
                        record_latency(&mut entry.1, &op, duration_ns);
                        self.perf.perpath.insert(i, entry);
                    } else {
                        let mut inner: Vec<(String, OperationLatencies)> = Vec::new();
                        record_latency(&mut inner, &op, duration_ns);
                        self.perf.perpath.push((node, inner));
                    }
                }
            },
        }
    }

    /// Store statistics beside the recorded latencies, each average
    /// filled in from its total and count.
    pub fn get_merkle_stats(&self) -> (r: Result<MerkleStorageStats, MerkleError>)
        requires
            self.inv(),
        ensures
            match r {
                Ok(st) => {
                    &&& st.db_stats.keys == self.store_view().len()
                    &&& st.perf_stats.global@.len() == self.perf_view().global@.len()
                    &&& forall|i: int|
                        0 <= i < st.perf_stats.global@.len()
                            ==> (#[trigger] st.perf_stats.global@[i]).0@
                            == self.perf_view().global@[i].0@ && st.perf_stats.global@[i].1
                            == with_avg(self.perf_view().global@[i].1)
                },
                Err(_) => false,
            },
    {
        proof {
            self.db.lemma_len();
        }
        let db_stats = match self.db.get_mem_use_stats() {
            Ok(st) => st,
            Err(error) => {
                return Err(MerkleError::DBError { error });
            },
        };
        let mut global: Vec<(String, OperationLatencies)> = Vec::new();
        let n = self.perf.global.len();
        let mut i: usize = 0;
        while i < n
            invariant
                i <= n,
                n == self.perf.global@.len(),
                global@.len() == i,
                forall|j: int|
                    0 <= j < i ==> (#[trigger] global@[j]).0@ == self.perf.global@[j].0@
                        && global@[j].1 == with_avg(self.perf.global@[j].1),
            decreases n - i,
        {
            let e = &self.perf.global[i];
            global.push((e.0.clone(), fill_avg(e.1)));
            i = i + 1;
        }
        let mut perpath: Vec<(String, Vec<(String, OperationLatencies)>)> = Vec::new();
        let m = self.perf.perpath.len();
        let mut k: usize = 0;
        while k < m
            invariant
                k <= m,
                m == self.perf.perpath@.len(),
            decreases m - k,
        {
            let node = &self.perf.perpath[k];
            let mut inner: Vec<(String, OperationLatencies)> = Vec::new();
            let nn = node.1.len();
            let mut j: usize = 0;
            while j < nn
                invariant
                    j <= nn,
                    nn == node.1@.len(),
                decreases nn - j,
            {
                let e = &node.1[j];
                inner.push((e.0.clone(), fill_avg(e.1)));
                j = j + 1;
            }
            perpath.push((node.0.clone(), inner));
            k = k + 1;
        }
        Ok(
            MerkleStorageStats {
                db_stats,
                perf_stats: MerklePerfStats { global, perpath },
            },
        )
    }
}

/// Counters with the average filled in from the total and the count.
pub open spec fn with_avg(l: OperationLatencies) -> OperationLatencies {
    OperationLatencies {
        cumul_op_exec_time: l.cumul_op_exec_time,
        op_exec_times: l.op_exec_times,
        avg_exec_time: if l.op_exec_times > 0 {
            (l.cumul_op_exec_time / l.op_exec_times) as u64
        } else {
            0
        },
        op_exec_time_min: l.op_exec_time_min,
        op_exec_time_max: l.op_exec_time_max,
    }
}

/// Fill the average in from the total and the count.
fn fill_avg(l: OperationLatencies) -> (r: OperationLatencies)
    ensures
        r == with_avg(l),
{
    OperationLatencies {
        cumul_op_exec_time: l.cumul_op_exec_time,
        op_exec_times: l.op_exec_times,
        avg_exec_time: if l.op_exec_times > 0 {
            l.cumul_op_exec_time / l.op_exec_times
        } else {
            0
        },
        op_exec_time_min: l.op_exec_time_min,
        op_exec_time_max: l.op_exec_time_max,
    }
}

/// A materialized edge list matches its source edge for edge: same names
/// in the same order, each child materialized from its edge's hash.
proof fn lemma_mat_nodes_pointwise(
    store: Map<Seq<u8>, Seq<u8>>,
    nodes: Seq<(Seq<u8>, NodeV)>,
    fuel: nat,
    s: Seq<(Seq<u8>, ChildV)>,
)
    requires
        mat_nodes(store, nodes, fuel) == Ok::<Seq<(Seq<u8>, ChildV)>, MatErr>(s),
    ensures
        s.len() == nodes.len(),
        forall|j: int|
            0 <= j < nodes.len() ==> (#[trigger] s[j]).0 == nodes[j].0 && mat_entry(
                store,
                nodes[j].1.hash,
                fuel,
            ) == Ok::<ChildV, MatErr>(s[j].1),
    decreases nodes.len(),
{
    if nodes.len() > 0 {
        let rest = mat_nodes(store, nodes.drop_last(), fuel)->Ok_0;
        lemma_mat_nodes_pointwise(store, nodes.drop_last(), fuel, rest);
        assert forall|j: int|
            0 <= j < nodes.len() implies (#[trigger] s[j]).0 == nodes[j].0 && mat_entry(
            store,
            nodes[j].1.hash,
            fuel,
        ) == Ok::<ChildV, MatErr>(s[j].1) by {
            if j < nodes.len() - 1 {
                assert(s[j] == rest[j]);
                assert(nodes.drop_last()[j] == nodes[j]);
            }
        }
    }
}

/// First-match lookup lands on the same position in an edge list and in
/// its materialized form.
proof fn lemma_get_align(
    nodes: Seq<(Seq<u8>, NodeV)>,
    s: Seq<(Seq<u8>, ChildV)>,
    name: Seq<u8>,
)
    requires
        s.len() == nodes.len(),
        forall|j: int| 0 <= j < nodes.len() ==> (#[trigger] s[j]).0 == nodes[j].0,
    ensures
        match node_get(nodes, name) {
            None => dir_get(s, name) == None::<ChildV>,
            Some(nv) => exists|k: int|
                0 <= k < nodes.len() && #[trigger] nodes[k].0 == name && nodes[k].1 == nv
                    && dir_get(s, name) == Some(s[k].1),
        },
    decreases nodes.len(),
{
    if nodes.len() == 0 {
    } else if nodes[0].0 == name {
        assert(s[0].0 == name);
        assert(nodes[0].0 == name && nodes[0].1 == node_get(nodes, name)->0 && dir_get(s, name)
            == Some(s[0].1));
    } else {
        assert(s[0].0 != name);
        assert forall|j: int|
            0 <= j < nodes.drop_first().len() implies (#[trigger] s.drop_first()[j]).0
            == nodes.drop_first()[j].0 by {
            assert(s.drop_first()[j] == s[j + 1]);
            assert(nodes.drop_first()[j] == nodes[j + 1]);
        }
        lemma_get_align(nodes.drop_first(), s.drop_first(), name);
        match node_get(nodes, name) {
            None => {},
            Some(nv) => {
                let k = choose|k: int|
                    0 <= k < nodes.drop_first().len() && #[trigger] nodes.drop_first()[k].0
                        == name && nodes.drop_first()[k].1 == nv && dir_get(
                        s.drop_first(),
                        name,
                    ) == Some(s.drop_first()[k].1);
                assert(nodes[k + 1].0 == name && nodes[k + 1].1 == nv && dir_get(s, name)
                    == Some(s[k + 1].1));
            },
        }
    }
}

/// What reading a path in a rebuilt tree yields, as a history outcome.
pub open spec fn lookup_as_outcome(r: Option<ChildV>) -> GetOutcome {
    match r {
        Some(ChildV::Blob(b)) => GetOutcome::Found(b),
        Some(ChildV::Dir(_)) => GetOutcome::NotABlob,
        None => GetOutcome::NotFound,
    }
}

/// Walking a path through the store and reading it in the fully rebuilt
/// tree agree.
proof fn lemma_mat_walk(
    store: Map<Seq<u8>, Seq<u8>>,
    nodes: Seq<(Seq<u8>, NodeV)>,
    s: Seq<(Seq<u8>, ChildV)>,
    path: Seq<Seq<u8>>,
    fuel: nat,
)
    requires
        mat_nodes(store, nodes, fuel) == Ok::<Seq<(Seq<u8>, ChildV)>, MatErr>(s),
        path.len() > 0,
    ensures
        spec_tree_walk(store, nodes, path) == lookup_as_outcome(
            child_lookup(ChildV::Dir(s), path),
        ),
    decreases path.len(),
{
    lemma_mat_nodes_pointwise(store, nodes, fuel, s);
    lemma_get_align(nodes, s, path[0]);
    match node_get(nodes, path[0]) {
        None => {
            assert(dir_get(s, path[0]) == None::<ChildV>);
            assert(child_lookup(ChildV::Dir(s), path) == None::<ChildV>);
        },
        Some(nv) => {
            let k = choose|k: int|
                0 <= k < nodes.len() && #[trigger] nodes[k].0 == path[0] && nodes[k].1 == nv
                    && dir_get(s, path[0]) == Some(s[k].1);
            let cv = s[k].1;
            assert(mat_entry(store, nodes[k].1.hash, fuel) == Ok::<ChildV, MatErr>(cv));
            assert(nv == nodes[k].1);
            assert(fuel >= 1) by {
                if fuel == 0 {
                    assert(mat_entry(store, nodes[k].1.hash, fuel) == Err::<ChildV, MatErr>(
                        MatErr::OutOfFuel,
                    ));
                }
            }
            assert(child_lookup(ChildV::Dir(s), path) == child_lookup(cv, path.drop_first()));
            match resolve(store, nv.hash) {
                Resolved::Missing => {
                    assert(false);
                },
                Resolved::Corrupt => {
                    assert(false);
                },
                Resolved::Entry(EntryV::Commit(_)) => {
                    assert(false);
                },
                Resolved::Entry(EntryV::Blob(b)) => {
                    assert(cv == ChildV::Blob(b));
                    if path.len() == 1 {
                        assert(path.drop_first() =~= Seq::<Seq<u8>>::empty());
                        assert(child_lookup(cv, path.drop_first()) == Some(cv));
                    } else {
                        assert(path.drop_first().len() > 0);
                        assert(child_lookup(cv, path.drop_first()) == None::<ChildV>);
                    }
                },
                Resolved::Entry(EntryV::Tree(n2)) => {
                    assert(mat_nodes(store, n2, (fuel - 1) as nat) is Ok);
                    let s2 = mat_nodes(store, n2, (fuel - 1) as nat)->Ok_0;
                    assert(cv == ChildV::Dir(s2));
                    if path.len() == 1 {
                        assert(path.drop_first() =~= Seq::<Seq<u8>>::empty());
                        assert(child_lookup(cv, path.drop_first()) == Some(cv));
                    } else {
                        lemma_mat_walk(store, n2, s2, path.drop_first(), (fuel - 1) as nat);
                        assert(child_lookup(cv, path.drop_first()) == child_lookup(
                            ChildV::Dir(s2),
                            path.drop_first(),
                        ));
                        assert(spec_tree_walk(store, nodes, path) == spec_tree_walk(
                            store,
                            n2,
                            path.drop_first(),
                        ));
                    }
                },
            }
        },
    }
}

/// After a checkout that succeeded, reading any non-empty key in the new
/// staging tree and reading it from the checked-out commit's history
/// agree: found values coincide, and so do the not-found and
/// not-a-value outcomes.
pub proof fn lemma_checkout_get_history(
    store: Map<Seq<u8>, Seq<u8>>,
    ch: Seq<u8>,
    s: Seq<(Seq<u8>, ChildV)>,
    path: Seq<Seq<u8>>,
)
    requires
        spec_checkout(store, ch) == CheckoutOutcome::Done(s),
        path.len() > 0,
    ensures
        spec_get_history(store, ch, path) == lookup_as_outcome(
            child_lookup(ChildV::Dir(s), path),
        ),
{
    let c = resolve(store, ch)->Entry_0->Commit_0;
    let fuel = mat_fuel(store);
    assert(mat_entry(store, c.root, fuel) == Ok::<ChildV, MatErr>(ChildV::Dir(s)));
    assert(fuel >= 1);
    match resolve(store, c.root) {
        Resolved::Entry(EntryV::Tree(nodes)) => {
            lemma_mat_walk(store, nodes, s, path, (fuel - 1) as nat);
        },
        _ => {
            assert(false);
        },
    }
}

} // verus!
