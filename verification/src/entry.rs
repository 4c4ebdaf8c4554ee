//! The persisted form of the store's content: blobs, trees of named edges,
//! and commits, each written under its own 32-byte hash.

use vstd::prelude::*;

use crate::hash::EntryHash;
use crate::tree::seg_bytes;

verus! {

/// Whether a tree edge points at a stored value or at a subtree.
#[derive(Clone, Copy)]
pub enum NodeKind {
    NonLeaf,
    Leaf,
}

/// A tree edge: the kind of the child and the hash it is stored under.
#[derive(Clone, Copy)]
pub struct Node {
    pub node_kind: NodeKind,
    pub entry_hash: EntryHash,
}

/// A named snapshot pointing at a root tree.
pub struct Commit {
    pub parent_commit_hash: Option<EntryHash>,
    pub root_hash: EntryHash,
    pub time: u64,
    pub author: String,
    pub message: String,
}

/// One unit of content addressing.
pub enum Entry {
    Tree(Vec<(String, Node)>),
    Blob(Vec<u8>),
    Commit(Commit),
}

/// The shape of a tree edge.
pub ghost struct NodeV {
    pub is_leaf: bool,
    pub hash: Seq<u8>,
}

/// The shape of a commit.
pub ghost struct CommitV {
    pub parent: Option<Seq<u8>>,
    pub root: Seq<u8>,
    pub time: u64,
    pub author: Seq<char>,
    pub message: Seq<char>,
}

/// The shape of a persisted entry; segment names appear as their UTF-8
/// bytes.
pub ghost enum EntryV {
    Tree(Seq<(Seq<u8>, NodeV)>),
    Blob(Seq<u8>),
    Commit(CommitV),
}

impl Node {
    pub open spec fn view(self) -> NodeV {
        NodeV { is_leaf: self.node_kind is Leaf, hash: self.entry_hash@ }
    }
}

impl Commit {
    pub open spec fn view(self) -> CommitV {
        CommitV {
            parent: match self.parent_commit_hash {
                None => None,
                Some(p) => Some(p@),
            },
            root: self.root_hash@,
            time: self.time,
            author: self.author@,
            message: self.message@,
        }
    }
}

/// The shape of a persisted tree's edge list.
pub open spec fn nodes_view(s: Seq<(String, Node)>) -> Seq<(Seq<u8>, NodeV)>
    decreases s.len(),
{
    if s.len() == 0 {
        Seq::empty()
    } else {
        nodes_view(s.drop_last()).push((seg_bytes(s.last().0@), s.last().1@))
    }
}

/// `nodes_view` maps the edge list index by index.
pub proof fn lemma_nodes_view(s: Seq<(String, Node)>)
    ensures
        nodes_view(s).len() == s.len(),
        forall|i: int|
            0 <= i < s.len() ==> nodes_view(s)[i] == (seg_bytes(s[i].0@), s[i].1@),
    decreases s.len(),
{
    if s.len() > 0 {
        lemma_nodes_view(s.drop_last());
    }
}

impl Entry {
    pub open spec fn view(self) -> EntryV {
        match self {
            Entry::Tree(nodes) => EntryV::Tree(nodes_view(nodes@)),
            Entry::Blob(b) => EntryV::Blob(b@),
            Entry::Commit(c) => EntryV::Commit(c@),
        }
    }
}

/// Edges strictly sorted by segment bytes: the canonical order, part of
/// the hashing contract.
pub open spec fn nodes_sorted(s: Seq<(Seq<u8>, NodeV)>) -> bool {
    forall|i: int, j: int| 0 <= i < j < s.len() ==> crate::order::lex_lt(s[i].0, s[j].0)
}

} // verus!
