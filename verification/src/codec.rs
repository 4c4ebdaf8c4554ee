//! The byte codec for persisted entries: what the backing store holds under
//! each hash.  `spec_decode_entry` accepts exactly the canonical encodings
//! that `spec_encode_entry` produces: lengths as big-endian 64-bit values,
//! names as valid UTF-8, tree edges strictly sorted, no trailing bytes.
//!
//! This format is internal to the store: the hashes that address entries
//! are computed over the separate canonical encodings of the hashing
//! layer, never over these bytes, so the store's value layout is free to
//! be this crate's own.

use vstd::prelude::*;

use crate::bytes::{be_u64, push_bytes, push_u64_be, u64_be};
use crate::entry::{nodes_sorted, nodes_view, Commit, CommitV, Entry, EntryV, Node, NodeKind, NodeV};
use crate::hash::EntryHash;
use crate::tree::seg_bytes;
use vstd::utf8::{encode_utf8, valid_utf8};

verus! {

/// The encoded bytes of one tree edge.
pub open spec fn encode_node(name: Seq<u8>, n: NodeV) -> Seq<u8> {
    u64_be(name.len() as u64) + name + seq![
        if n.is_leaf {
            1u8
        } else {
            0u8
        },
    ] + n.hash
}

/// The encoded bytes of a tree's edges, in order.
pub open spec fn encode_nodes(s: Seq<(Seq<u8>, NodeV)>) -> Seq<u8>
    decreases s.len(),
{
    if s.len() == 0 {
        Seq::empty()
    } else {
        encode_nodes(s.drop_last()) + encode_node(s.last().0, s.last().1)
    }
}

/// The encoded bytes of a commit's fields.
pub open spec fn encode_commit(c: CommitV) -> Seq<u8> {
    let author_bytes = encode_utf8(c.author);
    let message_bytes = encode_utf8(c.message);
    (match c.parent {
        None => seq![0u8],
        Some(p) => seq![1u8] + p,
    }) + c.root + u64_be(c.time) + u64_be(author_bytes.len() as u64) + author_bytes + u64_be(
        message_bytes.len() as u64,
    ) + message_bytes
}

/// The encoded bytes of a persisted entry: a one-byte tag, then the
/// entry's fields.
pub open spec fn spec_encode_entry(e: EntryV) -> Seq<u8> {
    match e {
        EntryV::Tree(nodes) => seq![0u8] + u64_be(nodes.len() as u64) + encode_nodes(nodes),
        EntryV::Blob(b) => seq![1u8] + u64_be(b.len() as u64) + b,
        EntryV::Commit(c) => seq![2u8] + encode_commit(c),
    }
}

/// Read a big-endian 64-bit length at `i`.
pub open spec fn parse_u64(b: Seq<u8>, i: int) -> Option<(u64, int)> {
    if 0 <= i && i + 8 <= b.len() {
        Some(
            (
                be_u64(
                    b[i],
                    b[i + 1],
                    b[i + 2],
                    b[i + 3],
                    b[i + 4],
                    b[i + 5],
                    b[i + 6],
                    b[i + 7],
                ),
                i + 8,
            ),
        )
    } else {
        None
    }
}

/// Read a 32-byte hash at `i`.
pub open spec fn parse_hash(b: Seq<u8>, i: int) -> Option<(Seq<u8>, int)> {
    if 0 <= i && i + 32 <= b.len() {
        Some((b.subrange(i, i + 32), i + 32))
    } else {
        None
    }
}

/// Read one tree edge at `i`: name length, name bytes (valid UTF-8), one
/// kind byte, the child hash.
pub open spec fn parse_node(b: Seq<u8>, i: int) -> Option<((Seq<u8>, NodeV), int)> {
    match parse_u64(b, i) {
        None => None,
        Some((nlen, i1)) => {
            if i1 + nlen <= b.len() {
                let name = b.subrange(i1, i1 + nlen);
                let i2 = i1 + nlen as int;
                if valid_utf8(name) && i2 < b.len() && (b[i2] == 0 || b[i2] == 1) {
                    match parse_hash(b, i2 + 1) {
                        None => None,
                        Some((h, i3)) => Some(
                            ((name, NodeV { is_leaf: b[i2] == 1, hash: h }), i3),
                        ),
                    }
                } else {
                    None
                }
            } else {
                None
            }
        },
    }
}

/// Read `count` tree edges from `i`.
pub open spec fn parse_nodes(b: Seq<u8>, i: int, count: nat) -> Option<
    (Seq<(Seq<u8>, NodeV)>, int),
>
    decreases count,
{
    if count == 0 {
        Some((Seq::empty(), i))
    } else {
        match parse_node(b, i) {
            None => None,
            Some((node, i1)) => match parse_nodes(b, i1, (count - 1) as nat) {
                None => None,
                Some((rest, i2)) => Some((seq![node] + rest, i2)),
            },
        }
    }
}

/// Read a commit's fields at `i`: the parent block, the root hash, the
/// time, then author and message, each valid UTF-8 behind its length.
pub open spec fn parse_commit(b: Seq<u8>, i: int) -> Option<(CommitV, int)> {
    if !(0 <= i && i < b.len() && (b[i] == 0 || b[i] == 1)) {
        None
    } else {
        let parent_res: Option<(Option<Seq<u8>>, int)> = if b[i] == 0 {
            Some((None, i + 1))
        } else {
            match parse_hash(b, i + 1) {
                None => None,
                Some((p, j)) => Some((Some(p), j)),
            }
        };
        match parent_res {
            None => None,
            Some((parent, j0)) => match parse_hash(b, j0) {
                None => None,
                Some((root, j1)) => match parse_u64(b, j1) {
                    None => None,
                    Some((time, j2)) => match parse_u64(b, j2) {
                        None => None,
                        Some((alen, j3)) => {
                            if j3 + alen <= b.len() && valid_utf8(b.subrange(j3, j3 + alen)) {
                                let author = b.subrange(j3, j3 + alen);
                                let j4 = j3 + alen as int;
                                match parse_u64(b, j4) {
                                    None => None,
                                    Some((mlen, j5)) => {
                                        if j5 + mlen <= b.len() && valid_utf8(
                                            b.subrange(j5, j5 + mlen),
                                        ) {
                                            let message = b.subrange(j5, j5 + mlen);
                                            Some(
                                                (
                                                    CommitV {
                                                        parent,
                                                        root,
                                                        time,
                                                        author: vstd::utf8::decode_utf8(author),
                                                        message: vstd::utf8::decode_utf8(message),
                                                    },
                                                    j5 + mlen as int,
                                                ),
                                            )
                                        } else {
                                            None
                                        }
                                    },
                                }
                            } else {
                                None
                            }
                        },
                    },
                },
            },
        }
    }
}

/// The entry a byte sequence encodes, where it is exactly one canonical
/// encoding; nothing otherwise.
pub open spec fn spec_decode_entry(b: Seq<u8>) -> Option<EntryV> {
    if b.len() == 0 {
        None
    } else if b[0] == 0 {
        match parse_u64(b, 1) {
            None => None,
            Some((count, i)) => match parse_nodes(b, i, count as nat) {
                None => None,
                Some((nodes, j)) => {
                    if j == b.len() && nodes_sorted(nodes) {
                        Some(EntryV::Tree(nodes))
                    } else {
                        None
                    }
                },
            },
        }
    } else if b[0] == 1 {
        match parse_u64(b, 1) {
            None => None,
            Some((blen, i)) => {
                if i + blen == b.len() {
                    Some(EntryV::Blob(b.subrange(i, i + blen)))
                } else {
                    None
                }
            },
        }
    } else if b[0] == 2 {
        match parse_commit(b, 1) {
            None => None,
            Some((c, j)) => {
                if j == b.len() {
                    Some(EntryV::Commit(c))
                } else {
                    None
                }
            },
        }
    } else {
        None
    }
}

/// Relies on String::from_utf8: it succeeds exactly on valid UTF-8 and
/// the resulting string's bytes are the input bytes.
#[verifier::external_body]
fn string_from_utf8(v: Vec<u8>) -> (r: Option<String>)
    ensures
        match r {
            Some(s) => valid_utf8(v@) && encode_utf8(s@) == v@,
            None => !valid_utf8(v@),
        },
{
    String::from_utf8(v).ok()
}

/// Encode a persisted entry into its canonical bytes.
pub fn encode_entry(e: &Entry) -> (r: Vec<u8>)
    ensures
        r@ == spec_encode_entry(e@),
{
    let mut out: Vec<u8> = Vec::new();
    match e {
        Entry::Tree(nodes) => {
            out.push(0);
            push_u64_be(&mut out, nodes.len() as u64);
            let ghost v = nodes_view(nodes@);
            proof {
                crate::entry::lemma_nodes_view(nodes@);
            }
            let n = nodes.len();
            let mut i: usize = 0;
            while i < n
                invariant
                    i <= n,
                    n == nodes@.len(),
                    v == nodes_view(nodes@),
                    v.len() == n,
                    forall|j: int|
                        0 <= j < n ==> v[j] == (seg_bytes(nodes@[j].0@), nodes@[j].1@),
                    out@ == seq![0u8] + u64_be(n as u64) + encode_nodes(v.take(i as int)),
                decreases n - i,
            {
                let name_bytes = nodes[i].0.as_str().as_bytes();
                push_u64_be(&mut out, name_bytes.len() as u64);
                push_bytes(&mut out, name_bytes);
                match nodes[i].1.node_kind {
                    NodeKind::Leaf => out.push(1),
                    NodeKind::NonLeaf => out.push(0),
                }
                push_bytes(&mut out, nodes[i].1.entry_hash.as_slice());
                proof {
                    assert(v[i as int] == (seg_bytes(nodes@[i as int].0@), nodes@[i as int].1@));
                    assert(v.take(i as int + 1).drop_last() =~= v.take(i as int));
                    assert(v.take(i as int + 1).last() == v[i as int]);
                    assert(out@ =~= seq![0u8] + u64_be(n as u64) + encode_nodes(
                        v.take(i as int + 1),
                    ));
                }
                i = i + 1;
            }
            proof {
                assert(v.take(n as int) =~= v);
            }
        }
        Entry::Blob(b) => {
            out.push(1);
            push_u64_be(&mut out, b.len() as u64);
            push_bytes(&mut out, b.as_slice());
            proof {
                assert(out@ =~= spec_encode_entry(e@));
            }
        }
        Entry::Commit(c) => {
            out.push(2);
            match &c.parent_commit_hash {
                None => out.push(0),
                Some(p) => {
                    out.push(1);
                    push_bytes(&mut out, p.as_slice());
                }
            }
            push_bytes(&mut out, c.root_hash.as_slice());
            push_u64_be(&mut out, c.time);
            let author_bytes = c.author.as_str().as_bytes();
            push_u64_be(&mut out, author_bytes.len() as u64);
            push_bytes(&mut out, author_bytes);
            let message_bytes = c.message.as_str().as_bytes();
            push_u64_be(&mut out, message_bytes.len() as u64);
            push_bytes(&mut out, message_bytes);
            proof {
                assert(out@ =~= spec_encode_entry(e@));
            }
        }
    }
    proof {
        assert(out@ =~= spec_encode_entry(e@));
    }
    out
}

/// Read a big-endian 64-bit length at `i`.
fn read_u64(b: &Vec<u8>, i: usize) -> (r: Option<(u64, usize)>)
    ensures
        match r {
            Some(p) => parse_u64(b@, i as int) == Some((p.0, p.1 as int)),
            None => parse_u64(b@, i as int) == None::<(u64, int)>,
        },
{
    if b.len() >= 8 && i <= b.len() - 8 {
        let v = ((b[i] as u64) << 56) | ((b[i + 1] as u64) << 48) | ((b[i + 2] as u64) << 40) | ((
        b[i + 3] as u64) << 32) | ((b[i + 4] as u64) << 24) | ((b[i + 5] as u64) << 16) | ((b[i
            + 6] as u64) << 8) | (b[i + 7] as u64);
        Some((v, i + 8))
    } else {
        None
    }
}

/// Read a 32-byte hash at `i`.
fn read_hash(b: &Vec<u8>, i: usize) -> (r: Option<(EntryHash, usize)>)
    ensures
        match r {
            Some(p) => parse_hash(b@, i as int) == Some((p.0@, p.1 as int)),
            None => parse_hash(b@, i as int) == None::<(Seq<u8>, int)>,
        },
{
    if b.len() >= 32 && i <= b.len() - 32 {
        let mut h = [0u8; 32];
        let mut k: usize = 0;
        while k < 32
            invariant
                k <= 32,
                i + 32 <= b.len(),
                forall|m: int| 0 <= m < k ==> h@[m] == b@[i + m],
            decreases 32 - k,
        {
            h[k] = b[i + k];
            k = k + 1;
        }
        proof {
            assert(h@ =~= b@.subrange(i as int, i as int + 32));
        }
        Some((h, i + 32))
    } else {
        None
    }
}

/// Read `len` bytes at `i`.
fn read_bytes(b: &Vec<u8>, i: usize, len: u64) -> (r: Option<(Vec<u8>, usize)>)
    requires
        i <= b@.len(),
    ensures
        match r {
            Some(p) => i + len <= b@.len() && p.0@ == b@.subrange(i as int, i + len) && p.1 == i
                + len,
            None => i + len > b@.len(),
        },
{
    if len <= (b.len() - i) as u64 {
        let l = len as usize;
        let s = vstd::slice::slice_subrange(b.as_slice(), i, i + l);
        Some((vstd::slice::slice_to_vec(s), i + l))
    } else {
        None
    }
}

/// In a list whose adjacent edges are in order, any earlier edge is below
/// any later one.
proof fn lemma_adjacent_sorted(s: Seq<(Seq<u8>, NodeV)>, i: int, j: int)
    requires
        forall|k: int| 1 <= k < s.len() ==> #[trigger] crate::order::lex_lt(s[k - 1].0, s[k].0),
        0 <= i < j < s.len(),
    ensures
        crate::order::lex_lt(s[i].0, s[j].0),
    decreases j - i,
{
    if j > i + 1 {
        lemma_adjacent_sorted(s, i, j - 1);
        crate::order::lemma_lex_transitive(s[i].0, s[j - 1].0, s[j].0);
    } else {
        assert(crate::order::lex_lt(s[j - 1].0, s[j].0));
    }
}

/// Read one tree edge at `i`.
fn read_node(b: &Vec<u8>, i: usize) -> (r: Option<((String, Node), usize)>)
    ensures
        match r {
            Some(p) => parse_node(b@, i as int) == Some(
                ((seg_bytes(p.0.0@), p.0.1@), p.1 as int),
            ),
            None => parse_node(b@, i as int) == None::<((Seq<u8>, NodeV), int)>,
        },
{
    let (nlen, i1) = match read_u64(b, i) {
        Some(p) => p,
        None => {
            return None;
        },
    };
    let (name_vec, i2) = match read_bytes(b, i1, nlen) {
        Some(p) => p,
        None => {
            return None;
        },
    };
    let name = match string_from_utf8(name_vec) {
        Some(s) => s,
        None => {
            return None;
        },
    };
    if i2 == b.len() {
        return None;
    }
    let kb = b[i2];
    if kb > 1 {
        return None;
    }
    let (h, i3) = match read_hash(b, i2 + 1) {
        Some(p) => p,
        None => {
            return None;
        },
    };
    let node = Node {
        node_kind: if kb == 1 {
            NodeKind::Leaf
        } else {
            NodeKind::NonLeaf
        },
        entry_hash: h,
    };
    Some(((name, node), i3))
}

/// Decode a persisted entry from its canonical bytes; `None` on anything
/// that is not exactly one canonical encoding.
pub fn decode_entry(b: &Vec<u8>) -> (r: Option<Entry>)
    ensures
        match r {
            Some(e) => spec_decode_entry(b@) == Some(e@),
            None => spec_decode_entry(b@) == None::<EntryV>,
        },
{
    if b.len() == 0 {
        return None;
    }
    let tag = b[0];
    if tag == 0 {
        let (count, start) = match read_u64(b, 1) {
            Some(p) => p,
            None => {
                return None;
            },
        };
        let mut nodes: Vec<(String, Node)> = Vec::new();
        let mut i: usize = start;
        let mut k: u64 = 0;
        loop
            invariant
                k <= count,
                i <= b.len(),
                nodes@.len() == k,
                b@.len() > 0,
                b@[0] == 0,
                parse_u64(b@, 1) == Some((count, start as int)),
                parse_nodes(b@, start as int, count as nat) == (match parse_nodes(
                    b@,
                    i as int,
                    (count - k) as nat,
                ) {
                    Some((rest, end)) => Some((nodes_view(nodes@) + rest, end)),
                    None => None,
                }),
            ensures
                k == count,
            decreases count - k,
        {
            if k == count {
                break ;
            }
            let ghost pre_nodes = nodes_view(nodes@);
            let ghost rem = (count - k) as nat;
            let (pair, i3) = match read_node(b, i) {
                Some(p) => p,
                None => {
                    proof {
                        assert(parse_nodes(b@, i as int, rem) == None::<
                            (Seq<(Seq<u8>, NodeV)>, int),
                        >);
                        assert(parse_u64(b@, 1) == Some((count, start as int)));
                        assert(parse_nodes(b@, start as int, count as nat) == None::<
                            (Seq<(Seq<u8>, NodeV)>, int),
                        >);
                        assert(spec_decode_entry(b@) == None::<EntryV>);
                    }
                    return None;
                },
            };
            let ghost pv = (seg_bytes(pair.0@), pair.1@);
            proof {
                assert(i3 <= b.len()) by {
                    assert(parse_node(b@, i as int) is Some);
                }
            }
            let ghost before_push = nodes@;
            nodes.push(pair);
            proof {
                assert(nodes@.drop_last() =~= before_push);
                assert(nodes@.last() == pair);
                assert(nodes_view(nodes@) =~= pre_nodes.push(pv));
                if parse_nodes(b@, i3 as int, (rem - 1) as nat) is Some {
                    let rest2 = parse_nodes(b@, i3 as int, (rem - 1) as nat).unwrap().0;
                    assert(nodes_view(nodes@) + rest2 =~= pre_nodes + (seq![pv] + rest2));
                }
            }
            i = i3;
            k = k + 1;
        }
        proof {
            assert(parse_nodes(b@, i as int, 0nat) == Some(
                (Seq::<(Seq<u8>, NodeV)>::empty(), i as int),
            ));
            assert(nodes_view(nodes@) + Seq::<(Seq<u8>, NodeV)>::empty() =~= nodes_view(nodes@));
        }
        if i != b.len() {
            proof {
                assert(parse_u64(b@, 1) == Some((count, start as int)));
                assert(parse_nodes(b@, start as int, count as nat) == Some(
                    (nodes_view(nodes@), i as int),
                ));
                assert(spec_decode_entry(b@) == None::<EntryV>);
            }
            return None;
        }
        let n = nodes.len();
        let ghost v = nodes_view(nodes@);
        proof {
            crate::entry::lemma_nodes_view(nodes@);
        }
        let mut j: usize = 1;
        while j < n
            invariant
                1 <= j <= n || n == 0,
                n == nodes@.len(),
                v == nodes_view(nodes@),
                v.len() == n,
                forall|m: int|
                    0 <= m < n ==> v[m] == (seg_bytes(nodes@[m].0@), nodes@[m].1@),
                b@.len() > 0,
                b@[0] == 0,
                parse_u64(b@, 1) == Some((count, start as int)),
                parse_nodes(b@, start as int, count as nat) == Some((v, b@.len() as int)),
                forall|m: int| 1 <= m < j ==> #[trigger] crate::order::lex_lt(v[m - 1].0, v[m].0),
            decreases n - j,
        {
            let cmp = crate::order::bytes_cmp(
                nodes[j - 1].0.as_str().as_bytes(),
                nodes[j].0.as_str().as_bytes(),
            );
            if cmp != -1 {
                proof {
                    assert(v[j - 1] == (seg_bytes(nodes@[j - 1].0@), nodes@[j - 1].1@));
                    assert(!crate::order::lex_lt(v[j - 1].0, v[j as int].0));
                    assert(!nodes_sorted(v));
                }
                return None;
            }
            j = j + 1;
        }
        proof {
            assert forall|p: int, q: int| 0 <= p < q < v.len() implies crate::order::lex_lt(
                v[p].0,
                v[q].0,
            ) by {
                lemma_adjacent_sorted(v, p, q);
            }
            assert(nodes_sorted(v));
        }
        Some(Entry::Tree(nodes))
    } else if tag == 1 {
        let (blen, i) = match read_u64(b, 1) {
            Some(p) => p,
            None => {
                return None;
            },
        };
        let (bytes, i2) = match read_bytes(b, i, blen) {
            Some(p) => p,
            None => {
                return None;
            },
        };
        if i2 != b.len() {
            return None;
        }
        Some(Entry::Blob(bytes))
    } else if tag == 2 {
        if b.len() == 1 {
            return None;
        }
        let flag = b[1];
        if flag > 1 {
            return None;
        }
        let (parent, j0): (Option<EntryHash>, usize) = if flag == 1 {
            match read_hash(b, 2) {
                Some(p) => (Some(p.0), p.1),
                None => {
                    return None;
                },
            }
        } else {
            (None, 2)
        };
        let (root, j1) = match read_hash(b, j0) {
            Some(p) => p,
            None => {
                return None;
            },
        };
        let (time, j2) = match read_u64(b, j1) {
            Some(p) => p,
            None => {
                return None;
            },
        };
        let (alen, j3) = match read_u64(b, j2) {
            Some(p) => p,
            None => {
                return None;
            },
        };
        let (author_vec, j4) = match read_bytes(b, j3, alen) {
            Some(p) => p,
            None => {
                return None;
            },
        };
        let author = match string_from_utf8(author_vec) {
            Some(s) => s,
            None => {
                return None;
            },
        };
        let (mlen, j5) = match read_u64(b, j4) {
            Some(p) => p,
            None => {
                return None;
            },
        };
        let (message_vec, j6) = match read_bytes(b, j5, mlen) {
            Some(p) => p,
            None => {
                return None;
            },
        };
        let message = match string_from_utf8(message_vec) {
            Some(s) => s,
            None => {
                return None;
            },
        };
        if j6 != b.len() {
            return None;
        }
        proof {
            vstd::utf8::encode_utf8_decode_utf8(author@);
            vstd::utf8::encode_utf8_decode_utf8(message@);
        }
        Some(
            Entry::Commit(
                Commit { parent_commit_hash: parent, root_hash: root, time, author, message },
            ),
        )
    } else {
        None
    }
}

/// An entry the canonical encoding can carry and read back: tree edges
/// sorted with valid UTF-8 names and 32-byte hashes, every length within
/// 64 bits.
pub open spec fn entry_bounded(e: EntryV) -> bool {
    match e {
        EntryV::Blob(b) => b.len() < 0x1_0000_0000_0000_0000,
        EntryV::Tree(nodes) => {
            &&& nodes_sorted(nodes)
            &&& nodes.len() < 0x1_0000_0000_0000_0000
            &&& (forall|j: int|
                0 <= j < nodes.len() ==> valid_utf8(#[trigger] nodes[j].0) && nodes[j].0.len()
                    < 0x1_0000_0000_0000_0000 && nodes[j].1.hash.len() == 32)
        },
        EntryV::Commit(c) => {
            &&& c.root.len() == 32
            &&& (c.parent matches Some(p) ==> p.len() == 32)
            &&& encode_utf8(c.author).len() < 0x1_0000_0000_0000_0000
            &&& encode_utf8(c.message).len() < 0x1_0000_0000_0000_0000
        },
    }
}

/// Eight big-endian bytes at `i` read back as the number they encode.
proof fn lemma_read_u64_at(all: Seq<u8>, i: int, n: u64)
    requires
        0 <= i,
        i + 8 <= all.len(),
        all.subrange(i, i + 8) == u64_be(n),
    ensures
        parse_u64(all, i) == Some((n, i + 8)),
{
    crate::bytes::lemma_u64_be_round_trip(n);
    assert(all[i] == u64_be(n)[0] && all[i + 1] == u64_be(n)[1] && all[i + 2] == u64_be(n)[2]
        && all[i + 3] == u64_be(n)[3] && all[i + 4] == u64_be(n)[4] && all[i + 5] == u64_be(n)[5]
        && all[i + 6] == u64_be(n)[6] && all[i + 7] == u64_be(n)[7]) by {
        assert forall|k: int| 0 <= k < 8 implies all[i + k] == u64_be(n)[k] by {
            assert(all.subrange(i, i + 8)[k] == all[i + k]);
        }
    }
}

/// The encoding of the first edge starts the encoding of an edge list.
proof fn lemma_encode_nodes_head(nodes: Seq<(Seq<u8>, NodeV)>)
    requires
        nodes.len() > 0,
    ensures
        encode_nodes(nodes) == encode_node(nodes[0].0, nodes[0].1) + encode_nodes(
            nodes.drop_first(),
        ),
    decreases nodes.len(),
{
    if nodes.len() == 1 {
        assert(nodes.drop_last() =~= Seq::<(Seq<u8>, NodeV)>::empty());
        assert(nodes.drop_first() =~= Seq::<(Seq<u8>, NodeV)>::empty());
        assert(encode_node(nodes[0].0, nodes[0].1) + encode_nodes(nodes.drop_first())
            =~= encode_node(nodes.last().0, nodes.last().1));
        assert(encode_nodes(nodes) =~= encode_node(nodes.last().0, nodes.last().1));
    } else {
        lemma_encode_nodes_head(nodes.drop_last());
        assert(nodes.drop_last()[0] == nodes[0]);
        assert(nodes.drop_last().drop_first() =~= nodes.drop_first().drop_last());
        assert(nodes.drop_first().last() == nodes.last());
        assert(encode_nodes(nodes) == (encode_node(nodes[0].0, nodes[0].1) + encode_nodes(
            nodes.drop_first().drop_last(),
        )) + encode_node(nodes.last().0, nodes.last().1));
        assert((encode_node(nodes[0].0, nodes[0].1) + encode_nodes(
            nodes.drop_first().drop_last(),
        )) + encode_node(nodes.last().0, nodes.last().1) =~= encode_node(nodes[0].0, nodes[0].1)
            + (encode_nodes(nodes.drop_first().drop_last()) + encode_node(
            nodes.last().0,
            nodes.last().1,
        )));
    }
}

/// One encoded edge at `i` reads back as itself.
#[verifier::rlimit(100)]
#[verifier::spinoff_prover]
proof fn lemma_parse_one_node(all: Seq<u8>, i: int, name: Seq<u8>, nv: NodeV)
    requires
        0 <= i,
        i + 8 + name.len() + 33 <= all.len(),
        all.subrange(i, i + 8 + name.len() as int + 33) == encode_node(name, nv),
        valid_utf8(name),
        name.len() < 0x1_0000_0000_0000_0000,
        nv.hash.len() == 32,
    ensures
        parse_node(all, i) == Some(((name, nv), i + 8 + name.len() + 33)),
{
    let enc = encode_node(name, nv);
    let nl = name.len() as int;
    assert(enc.len() == 8 + nl + 33);
    assert forall|k: int| 0 <= k < enc.len() implies all[i + k] == enc[k] by {
        assert(all.subrange(i, i + 8 + nl + 33)[k] == all[i + k]);
    }
    assert(enc.subrange(0, 8) =~= u64_be(name.len() as u64));
    assert(all.subrange(i, i + 8) =~= u64_be(name.len() as u64));
    lemma_read_u64_at(all, i, name.len() as u64);
    let i1 = i + 8;
    let kind_seq = seq![
        if nv.is_leaf {
            1u8
        } else {
            0u8
        },
    ];
    assert(all.subrange(i1, i1 + nl) =~= name) by {
        assert forall|k: int| 0 <= k < nl implies all.subrange(i1, i1 + nl)[k] == name[k] by {
            assert(all[i1 + k] == enc[8 + k]);
            assert((u64_be(name.len() as u64) + name)[8 + k] == name[k]);
            assert(((u64_be(name.len() as u64) + name) + kind_seq)[8 + k] == name[k]);
            assert(enc[8 + k] == name[k]);
        }
    }
    let i2 = i1 + nl;
    assert(all[i2] == enc[8 + nl]);
    assert(enc[8 + nl] == (if nv.is_leaf {
        1u8
    } else {
        0u8
    })) by {
        assert(((u64_be(name.len() as u64) + name) + kind_seq)[8 + nl] == kind_seq[0]);
    }
    assert(parse_hash(all, i2 + 1) == Some::<(Seq<u8>, int)>(
        (all.subrange(i2 + 1, i2 + 33), i2 + 33),
    ));
    assert(all.subrange(i2 + 1, i2 + 33) =~= nv.hash) by {
        assert forall|k: int| 0 <= k < 32 implies all.subrange(i2 + 1, i2 + 33)[k]
            == nv.hash[k] by {
            assert(all[i2 + 1 + k] == enc[8 + nl + 1 + k]);
            assert(enc[8 + nl + 1 + k] == nv.hash[k]);
        }
    }
    assert((NodeV { is_leaf: all[i2] == 1, hash: all.subrange(i2 + 1, i2 + 33) }) == nv);
}

/// A slice of a located chunk equals the chunk's own slice.
proof fn lemma_chunk(all: Seq<u8>, i: int, whole: Seq<u8>, a: int, b: int)
    requires
        0 <= i,
        i + whole.len() <= all.len(),
        all.subrange(i, i + whole.len() as int) == whole,
        0 <= a <= b <= whole.len(),
    ensures
        all.subrange(i + a, i + b) =~= whole.subrange(a, b),
{
    assert forall|k: int| 0 <= k < b - a implies all.subrange(i + a, i + b)[k]
        == whole.subrange(a, b)[k] by {
        assert(all.subrange(i, i + whole.len() as int)[a + k] == all[i + a + k]);
    }
}

/// Splitting a located edge-list encoding: the first edge's bytes, then
/// the remaining edges' bytes, filling the input.
#[verifier::rlimit(100)]
#[verifier::spinoff_prover]
proof fn lemma_nodes_layout(all: Seq<u8>, i: int, nodes: Seq<(Seq<u8>, NodeV)>)
    requires
        0 <= i,
        nodes.len() > 0,
        nodes[0].1.hash.len() == 32,
        all.len() == i + encode_nodes(nodes).len(),
        all.subrange(i, all.len() as int) == encode_nodes(nodes),
    ensures
        i + 8 + nodes[0].0.len() + 33 <= all.len(),
        all.subrange(i, i + 8 + nodes[0].0.len() as int + 33) == encode_node(
            nodes[0].0,
            nodes[0].1,
        ),
        all.len() == (i + 8 + nodes[0].0.len() as int + 33) + encode_nodes(
            nodes.drop_first(),
        ).len(),
        all.subrange(i + 8 + nodes[0].0.len() as int + 33, all.len() as int) == encode_nodes(
            nodes.drop_first(),
        ),
{
    lemma_encode_nodes_head(nodes);
    let head = encode_node(nodes[0].0, nodes[0].1);
    let tail = encode_nodes(nodes.drop_first());
    let whole = encode_nodes(nodes);
    assert(head.len() == 8 + nodes[0].0.len() + 33);
    assert(whole.len() == head.len() + tail.len());
    assert(whole.subrange(0, head.len() as int) =~= head);
    assert(whole.subrange(head.len() as int, whole.len() as int) =~= tail);
    lemma_chunk(all, i, whole, 0, head.len() as int);
    assert(all.subrange(i + 0, i + head.len() as int) == all.subrange(
        i,
        i + 8 + nodes[0].0.len() as int + 33,
    ));
    lemma_chunk(all, i, whole, head.len() as int, whole.len() as int);
    assert(all.subrange(i + head.len() as int, i + whole.len() as int) == all.subrange(
        i + 8 + nodes[0].0.len() as int + 33,
        all.len() as int,
    ));
}

/// One parsed edge followed by parsed remaining edges parse as the list.
#[verifier::spinoff_prover]
proof fn lemma_parse_nodes_cons(
    all: Seq<u8>,
    i: int,
    i1: int,
    end: int,
    head: (Seq<u8>, NodeV),
    rest: Seq<(Seq<u8>, NodeV)>,
)
    requires
        parse_node(all, i) == Some((head, i1)),
        parse_nodes(all, i1, rest.len() as nat) == Some((rest, end)),
    ensures
        parse_nodes(all, i, (rest.len() + 1) as nat) == Some((seq![head] + rest, end)),
{
    assert(((rest.len() + 1) as nat - 1) as nat == rest.len() as nat);
}

/// An encoded edge list that fills the rest of the input reads back as
/// itself, consuming everything.
#[verifier::rlimit(100)]
#[verifier::spinoff_prover]
proof fn lemma_parse_encoded_nodes(all: Seq<u8>, i: int, nodes: Seq<(Seq<u8>, NodeV)>)
    requires
        0 <= i,
        all.len() == i + encode_nodes(nodes).len(),
        all.subrange(i, all.len() as int) == encode_nodes(nodes),
        forall|j: int|
            0 <= j < nodes.len() ==> valid_utf8(#[trigger] nodes[j].0) && nodes[j].0.len()
                < 0x1_0000_0000_0000_0000 && nodes[j].1.hash.len() == 32,
    ensures
        parse_nodes(all, i, nodes.len() as nat) == Some((nodes, all.len() as int)),
    decreases nodes.len(),
{
    if nodes.len() == 0 {
        assert(nodes =~= Seq::<(Seq<u8>, NodeV)>::empty());
    } else {
        lemma_nodes_layout(all, i, nodes);
        lemma_parse_one_node(all, i, nodes[0].0, nodes[0].1);
        let i1 = i + 8 + nodes[0].0.len() as int + 33;
        assert forall|j: int|
            0 <= j < nodes.drop_first().len() implies valid_utf8(
            #[trigger] nodes.drop_first()[j].0,
        ) && nodes.drop_first()[j].0.len() < 0x1_0000_0000_0000_0000
            && nodes.drop_first()[j].1.hash.len() == 32 by {
            assert(nodes.drop_first()[j] == nodes[j + 1]);
        }
        lemma_parse_encoded_nodes(all, i1, nodes.drop_first());
        lemma_parse_nodes_cons(
            all,
            i,
            i1,
            all.len() as int,
            (nodes[0].0, nodes[0].1),
            nodes.drop_first(),
        );
        assert((nodes.drop_first().len() + 1) as nat == nodes.len() as nat);
        assert(seq![(nodes[0].0, nodes[0].1)] + nodes.drop_first() =~= nodes);
    }
}

/// A stored value's encoding reads back as itself.
#[verifier::rlimit(100)]
#[verifier::spinoff_prover]
proof fn lemma_blob_round_trip(bytes: Seq<u8>)
    requires
        bytes.len() < 0x1_0000_0000_0000_0000,
    ensures
        spec_decode_entry(spec_encode_entry(EntryV::Blob(bytes))) == Some(EntryV::Blob(bytes)),
{
    let b = spec_encode_entry(EntryV::Blob(bytes));
    assert(b[0] == 1);
    assert(b.subrange(1, 9) =~= u64_be(bytes.len() as u64));
    lemma_read_u64_at(b, 1, bytes.len() as u64);
    assert(b.subrange(9, 9 + bytes.len() as int) =~= bytes);
}

/// A tree's encoding reads back as itself.
#[verifier::rlimit(100)]
#[verifier::spinoff_prover]
proof fn lemma_tree_round_trip(nodes: Seq<(Seq<u8>, NodeV)>)
    requires
        entry_bounded(EntryV::Tree(nodes)),
    ensures
        spec_decode_entry(spec_encode_entry(EntryV::Tree(nodes))) == Some(EntryV::Tree(nodes)),
{
    let b = spec_encode_entry(EntryV::Tree(nodes));
    assert(b[0] == 0);
    assert(b.subrange(1, 9) =~= u64_be(nodes.len() as u64));
    lemma_read_u64_at(b, 1, nodes.len() as u64);
    assert(b.subrange(9, b.len() as int) =~= encode_nodes(nodes));
    lemma_parse_encoded_nodes(b, 9, nodes);
    assert((nodes.len() as u64) as nat == nodes.len() as nat);
}

/// A commit's encoding reads back as itself.
#[verifier::rlimit(100)]
#[verifier::spinoff_prover]
proof fn lemma_commit_round_trip(c: CommitV)
    requires
        entry_bounded(EntryV::Commit(c)),
    ensures
        spec_decode_entry(spec_encode_entry(EntryV::Commit(c))) == Some(EntryV::Commit(c)),
{
    let b = spec_encode_entry(EntryV::Commit(c));
    let author_bytes = encode_utf8(c.author);
    let message_bytes = encode_utf8(c.message);
    assert(b[0] == 2);
    let j0: int = match c.parent {
        None => 2,
        Some(_) => 34,
    };
    match c.parent {
        None => {
            assert(b[1] == 0);
        },
        Some(p) => {
            assert(b[1] == 1);
            assert(parse_hash(b, 2) == Some((b.subrange(2, 34), 34int)));
            assert(b.subrange(2, 34) =~= p);
        },
    }
    assert(parse_hash(b, j0) == Some::<(Seq<u8>, int)>((b.subrange(j0, j0 + 32), j0 + 32)));
    assert(b.subrange(j0, j0 + 32) =~= c.root);
    let j1 = j0 + 32;
    assert(b.subrange(j1, j1 + 8) =~= u64_be(c.time));
    lemma_read_u64_at(b, j1, c.time);
    let j2 = j1 + 8;
    assert(b.subrange(j2, j2 + 8) =~= u64_be(author_bytes.len() as u64));
    lemma_read_u64_at(b, j2, author_bytes.len() as u64);
    let j3 = j2 + 8;
    assert(b.subrange(j3, j3 + author_bytes.len() as int) =~= author_bytes);
    vstd::utf8::encode_utf8_valid_utf8(c.author);
    vstd::utf8::encode_utf8_decode_utf8(c.author);
    let j4 = j3 + author_bytes.len() as int;
    assert(b.subrange(j4, j4 + 8) =~= u64_be(message_bytes.len() as u64));
    lemma_read_u64_at(b, j4, message_bytes.len() as u64);
    let j5 = j4 + 8;
    assert(b.subrange(j5, j5 + message_bytes.len() as int) =~= message_bytes);
    vstd::utf8::encode_utf8_valid_utf8(c.message);
    vstd::utf8::encode_utf8_decode_utf8(c.message);
    assert(j5 + message_bytes.len() as int == b.len());
    assert((CommitV {
        parent: c.parent,
        root: b.subrange(j0, j0 + 32),
        time: c.time,
        author: vstd::utf8::decode_utf8(b.subrange(j3, j3 + author_bytes.len() as int)),
        message: vstd::utf8::decode_utf8(b.subrange(j5, j5 + message_bytes.len() as int)),
    }) == c);
}

/// The canonical encoding reads back as the entry it was written from:
/// the codec's round trip.
pub proof fn lemma_entry_round_trip(e: EntryV)
    requires
        entry_bounded(e),
    ensures
        spec_decode_entry(spec_encode_entry(e)) == Some(e),
{
    match e {
        EntryV::Blob(bytes) => {
            lemma_blob_round_trip(bytes);
        },
        EntryV::Tree(nodes) => {
            lemma_tree_round_trip(nodes);
        },
        EntryV::Commit(c) => {
            lemma_commit_round_trip(c);
        },
    }
}

} // verus!
