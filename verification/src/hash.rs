//! Canonical entry encodings and their 32-byte Blake2b digests.
//!
//! Every entry is addressed by the digest of a canonical byte sequence:
//! big-endian 64-bit lengths throughout, tree entries in their sorted
//! order, an eight-byte kind tag before each tree edge.  The encodings
//! must be bit-exact: commit hashes are checked against externally
//! supplied reference hashes.

use vstd::prelude::*;

use crate::bytes::{push_bytes, push_u64_be, u64_be};
use crate::tree::{child_view, seg_bytes, ChildV, StageChild, StageTree};

use blake2::digest::{Update, VariableOutput};
use blake2::VarBlake2b;

verus! {

/// A 32-byte content address.
pub type EntryHash = [u8; 32];

/// What the Blake2b digest of a byte sequence is.  The digest is a
/// function of the input alone; nothing more is assumed of it.
pub uninterp spec fn blake2b_hash(input: Seq<u8>) -> Seq<u8>;

/// Relies on the blake2 crate's variable-output Blake2b with a 32-byte
/// output: the digest depends on the input bytes alone.
#[verifier::external_body]
pub fn blake2b_digest(input: &[u8]) -> (r: EntryHash)
    ensures
        r@ == blake2b_hash(input@),
{
    let mut hasher = VarBlake2b::new(32).unwrap();
    hasher.update(input);
    let out = hasher.finalize_boxed();
    let mut r = [0u8; 32];
    r.copy_from_slice(&out);
    r
}

/// The eight-byte tag hashed before a tree edge: all zeroes for an edge to
/// a subtree, a leading 0xFF for an edge to a stored value.
pub open spec fn kind_tag(is_leaf: bool) -> Seq<u8> {
    if is_leaf {
        seq![255u8, 0u8, 0u8, 0u8, 0u8, 0u8, 0u8, 0u8]
    } else {
        seq![0u8, 0u8, 0u8, 0u8, 0u8, 0u8, 0u8, 0u8]
    }
}

/// The canonical bytes of a stored value: its length, then its bytes.
pub open spec fn blob_hash_input(b: Seq<u8>) -> Seq<u8> {
    u64_be(b.len() as u64) + b
}

/// The hash of a stored value.
pub open spec fn spec_blob_hash(b: Seq<u8>) -> Seq<u8> {
    blake2b_hash(blob_hash_input(b))
}

/// The hash of a staging child.
pub open spec fn stage_child_hash(c: ChildV) -> Seq<u8>
    decreases c, 0int,
{
    match c {
        ChildV::Blob(b) => spec_blob_hash(b),
        ChildV::Dir(s) => blake2b_hash(dir_hash_input(s)),
    }
}

/// The canonical bytes of one tree edge: kind tag, one length byte, the
/// segment bytes, the constant hash length, the child's hash.
pub open spec fn node_hash_bytes(name: Seq<u8>, c: ChildV) -> Seq<u8>
    decreases c, 1int,
{
    kind_tag(c is Blob) + seq![(name.len() % 256) as u8] + name + u64_be(32) + stage_child_hash(c)
}

/// The canonical bytes of a directory's edges, in entry order.
pub open spec fn dir_hash_body(s: Seq<(Seq<u8>, ChildV)>) -> Seq<u8>
    decreases s, 2int,
{
    if s.len() == 0 {
        Seq::empty()
    } else {
        dir_hash_body(s.drop_last()) + node_hash_bytes(s.last().0, s.last().1)
    }
}

/// The canonical bytes of a directory: its entry count, then its edges.
pub open spec fn dir_hash_input(s: Seq<(Seq<u8>, ChildV)>) -> Seq<u8>
    decreases s, 3int,
{
    u64_be(s.len() as u64) + dir_hash_body(s)
}

/// The hash of a directory.
pub open spec fn spec_dir_hash(s: Seq<(Seq<u8>, ChildV)>) -> Seq<u8> {
    blake2b_hash(dir_hash_input(s))
}

/// The canonical bytes of a commit: the root hash behind its constant
/// length, the parent block, the time, then author and message, each
/// behind its byte length.
pub open spec fn commit_hash_input(
    root_hash: Seq<u8>,
    parent: Option<Seq<u8>>,
    time: u64,
    author: Seq<char>,
    message: Seq<char>,
) -> Seq<u8> {
    let author_bytes = vstd::utf8::encode_utf8(author);
    let message_bytes = vstd::utf8::encode_utf8(message);
    u64_be(32) + root_hash + (match parent {
        None => u64_be(0),
        Some(p) => u64_be(1) + u64_be(32) + p,
    }) + u64_be(time) + u64_be(author_bytes.len() as u64) + author_bytes + u64_be(
        message_bytes.len() as u64,
    ) + message_bytes
}

/// The hash of a commit.
pub open spec fn spec_commit_hash(
    root_hash: Seq<u8>,
    parent: Option<Seq<u8>>,
    time: u64,
    author: Seq<char>,
    message: Seq<char>,
) -> Seq<u8> {
    blake2b_hash(commit_hash_input(root_hash, parent, time, author, message))
}

/// Hash a stored value.
pub fn hash_blob(b: &Vec<u8>) -> (r: EntryHash)
    ensures
        r@ == spec_blob_hash(b@),
{
    let mut input: Vec<u8> = Vec::new();
    push_u64_be(&mut input, b.len() as u64);
    push_bytes(&mut input, b.as_slice());
    proof {
        assert(input@ =~= blob_hash_input(b@));
    }
    blake2b_digest(input.as_slice())
}

/// Hash a staging child.
pub fn hash_stage_child(c: &StageChild) -> (r: EntryHash)
    ensures
        r@ == stage_child_hash(child_view(*c)),
    decreases *c,
{
    match c {
        StageChild::Blob(b) => hash_blob(b),
        StageChild::Subtree(t) => hash_stage_tree(t),
    }
}

/// Hash a staging tree node: entry count, then each edge in sorted order.
pub fn hash_stage_tree(t: &StageTree) -> (r: EntryHash)
    ensures
        r@ == spec_dir_hash(t.view()),
    decreases *t,
{
    let ghost v = t.view();
    proof {
        crate::tree::lemma_entries_view(t.entries@);
    }
    let n = t.entries.len();
    let mut input: Vec<u8> = Vec::new();
    push_u64_be(&mut input, n as u64);
    let mut i: usize = 0;
    while i < n
        invariant
            i <= n,
            n == t.entries@.len(),
            v == t.view(),
            v.len() == n,
            forall|j: int|
                0 <= j < n ==> v[j] == (
                crate::tree::seg_bytes(t.entries@[j].name@),
                child_view(t.entries@[j].child),
                ),
            input@ == u64_be(n as u64) + dir_hash_body(v.take(i as int)),
        decreases n - i,
    {
        let e = &t.entries[i];
        let ghost pre = input@;
        if matches!(&e.child, StageChild::Blob(_)) {
            input.push(255);
        } else {
            input.push(0);
        }
        for k in 1..8
            invariant
                input@ == pre + kind_tag(child_view(e.child) is Blob).take(k as int),
        {
            input.push(0);
            proof {
                assert(input@ =~= pre + kind_tag(child_view(e.child) is Blob).take(k as int + 1));
            }
        }
        proof {
            assert(kind_tag(child_view(e.child) is Blob).take(8) =~= kind_tag(
                child_view(e.child) is Blob,
            ));
        }
        let name_bytes = e.name.as_str().as_bytes();
        input.push((name_bytes.len() % 256) as u8);
        push_bytes(&mut input, name_bytes);
        push_u64_be(&mut input, 32);
        let child_hash = hash_stage_child(&e.child);
        push_bytes(&mut input, child_hash.as_slice());
        proof {
            assert(v.take(i as int + 1).drop_last() =~= v.take(i as int));
            assert(v.take(i as int + 1).last() == v[i as int]);
            assert(v[i as int] == (seg_bytes(e.name@), child_view(e.child)));
            assert(node_hash_bytes(v[i as int].0, v[i as int].1) == kind_tag(
                v[i as int].1 is Blob,
            ) + seq![(v[i as int].0.len() % 256) as u8] + v[i as int].0 + u64_be(32)
                + stage_child_hash(v[i as int].1));
            assert(dir_hash_body(v.take(i as int + 1)) == dir_hash_body(v.take(i as int))
                + node_hash_bytes(v[i as int].0, v[i as int].1));
            assert(input@ =~= u64_be(n as u64) + dir_hash_body(v.take(i as int + 1)));
        }
        i = i + 1;
    }
    proof {
        assert(v.take(n as int) =~= v);
        assert(input@ =~= dir_hash_input(v));
    }
    blake2b_digest(input.as_slice())
}

/// Hash a commit.
pub fn hash_commit(
    root_hash: &EntryHash,
    parent: &Option<EntryHash>,
    time: u64,
    author: &String,
    message: &String,
) -> (r: EntryHash)
    ensures
        r@ == spec_commit_hash(
            root_hash@,
            match *parent {
                None => None,
                Some(p) => Some(p@),
            },
            time,
            author@,
            message@,
        ),
{
    let mut input: Vec<u8> = Vec::new();
    push_u64_be(&mut input, 32);
    push_bytes(&mut input, root_hash.as_slice());
    match parent {
        None => {
            push_u64_be(&mut input, 0);
        }
        Some(p) => {
            push_u64_be(&mut input, 1);
            push_u64_be(&mut input, 32);
            push_bytes(&mut input, p.as_slice());
        }
    }
    push_u64_be(&mut input, time);
    let author_bytes = author.as_str().as_bytes();
    push_u64_be(&mut input, author_bytes.len() as u64);
    push_bytes(&mut input, author_bytes);
    let message_bytes = message.as_str().as_bytes();
    push_u64_be(&mut input, message_bytes.len() as u64);
    push_bytes(&mut input, message_bytes);
    proof {
        assert(input@ =~= commit_hash_input(
            root_hash@,
            match *parent {
                None => None,
                Some(p) => Some(p@),
            },
            time,
            author@,
            message@,
        ));
    }
    blake2b_digest(input.as_slice())
}

} // verus!
