//! The fixed header of the binary action-log file: three big-endian
//! 32-bit counters.

use vstd::prelude::*;

use crate::bytes::{be_u32, push_bytes, push_u32_be, u32_be};

verus! {

/// The 12-byte header: the highest block level written, the total action
/// count, the total block count.
#[derive(Clone, Copy, Debug)]
pub struct ActionsFileHeader {
    pub block_height: u32,
    pub actions_count: u32,
    pub block_count: u32,
}

/// The 12 bytes a header writes.
pub open spec fn header_bytes(h: ActionsFileHeader) -> Seq<u8> {
    u32_be(h.block_height) + u32_be(h.actions_count) + u32_be(h.block_count)
}

impl ActionsFileHeader {
    /// A fresh header: nothing written yet.
    pub fn new() -> (r: ActionsFileHeader)
        ensures
            r.block_height == 0,
            r.actions_count == 0,
            r.block_count == 0,
    {
        ActionsFileHeader { block_height: 0, actions_count: 0, block_count: 0 }
    }

    /// The header's 12 bytes.
    pub fn to_vec(&self) -> (r: Vec<u8>)
        ensures
            r@ == header_bytes(*self),
    {
        let mut out: Vec<u8> = Vec::new();
        push_u32_be(&mut out, self.block_height);
        push_u32_be(&mut out, self.actions_count);
        push_u32_be(&mut out, self.block_count);
        proof {
            assert(out@ =~= header_bytes(*self));
        }
        out
    }

    /// A writer accepts a block only above the current height (or into an
    /// empty file); this is the header after recording it.
    pub fn updated(&self, block_level: u32, actions: u32) -> (r: Result<
        ActionsFileHeader,
        ActionsFileHeader,
    >)
        ensures
            (block_level <= self.block_height && self.block_count > 0) <==> (r is Err),
            r matches Err(h) ==> h == *self,
            r matches Ok(h) ==> h == spec_updated_header(*self, block_level, actions),
    {
        if block_level <= self.block_height && self.block_count > 0 {
            Err(*self)
        } else {
            Ok(
                ActionsFileHeader {
                    block_height: block_level,
                    actions_count: self.actions_count.wrapping_add(actions),
                    block_count: self.block_count.wrapping_add(1),
                },
            )
        }
    }
}

/// The header after recording one block: the height becomes the block's
/// level, the counters grow, wrapping at 32 bits.
pub open spec fn spec_updated_header(
    h: ActionsFileHeader,
    block_level: u32,
    actions: u32,
) -> ActionsFileHeader {
    ActionsFileHeader {
        block_height: block_level,
        actions_count: if h.actions_count + actions > u32::MAX {
            (h.actions_count + actions - 0x1_0000_0000) as u32
        } else {
            (h.actions_count + actions) as u32
        },
        block_count: if h.block_count + 1 > u32::MAX {
            (h.block_count + 1 - 0x1_0000_0000) as u32
        } else {
            (h.block_count + 1) as u32
        },
    }
}

/// The 12-byte header read back from its bytes.
pub fn header_of(b: &[u8]) -> (r: ActionsFileHeader)
    requires
        b@.len() == 12,
    ensures
        header_bytes(r) == b@,
{
    let block_height = ((b[0] as u32) << 24) | ((b[1] as u32) << 16) | ((b[2] as u32) << 8) | (
    b[3] as u32);
    let actions_count = ((b[4] as u32) << 24) | ((b[5] as u32) << 16) | ((b[6] as u32) << 8) | (
    b[7] as u32);
    let block_count = ((b[8] as u32) << 24) | ((b[9] as u32) << 16) | ((b[10] as u32) << 8) | (
    b[11] as u32);
    let r = ActionsFileHeader { block_height, actions_count, block_count };
    proof {
        crate::bytes::lemma_be_u32_round_trip(b@[0], b@[1], b@[2], b@[3]);
        crate::bytes::lemma_be_u32_round_trip(b@[4], b@[5], b@[6], b@[7]);
        crate::bytes::lemma_be_u32_round_trip(b@[8], b@[9], b@[10], b@[11]);
        assert(header_bytes(r) =~= b@);
    }
    r
}

/// One frame of the body: a 4-byte big-endian length, then that many
/// payload bytes.
pub open spec fn frame_bytes(payload: Seq<u8>) -> Seq<u8> {
    u32_be(payload.len() as u32) + payload
}

/// The frame at `cursor`, and the cursor after it.  `None` where fewer
/// than four bytes remain, the length prefix is zero, or the payload is
/// cut short: the reader treats all three as the end of the stream.
pub open spec fn spec_frame(file: Seq<u8>, cursor: int) -> Option<(Seq<u8>, int)> {
    if !(0 <= cursor && cursor + 4 <= file.len()) {
        None
    } else {
        let len = be_u32(file[cursor], file[cursor + 1], file[cursor + 2], file[cursor + 3]);
        if len == 0 {
            None
        } else if cursor + 4 + len <= file.len() {
            Some((file.subrange(cursor + 4, cursor + 4 + len), cursor + 4 + len))
        } else {
            None
        }
    }
}

/// Read one frame at `cursor`.
pub fn next_frame(file: &Vec<u8>, cursor: usize) -> (r: Option<(Vec<u8>, usize)>)
    ensures
        match r {
            Some(p) => spec_frame(file@, cursor as int) == Some((p.0@, p.1 as int)),
            None => spec_frame(file@, cursor as int) is None,
        },
{
    if file.len() < 4 || cursor > file.len() - 4 {
        return None;
    }
    let len = ((file[cursor] as u32) << 24) | ((file[cursor + 1] as u32) << 16) | ((file[cursor
        + 2] as u32) << 8) | (file[cursor + 3] as u32);
    if len == 0 {
        return None;
    }
    if len as usize > file.len() - (cursor + 4) {
        return None;
    }
    let start = cursor + 4;
    let end = start + (len as usize);
    let payload = vstd::slice::slice_to_vec(
        vstd::slice::slice_subrange(file.as_slice(), start, end),
    );
    Some((payload, end))
}

/// Every frame from `cursor` on, with the position where reading stops.
pub open spec fn parse_frames(file: Seq<u8>, cursor: int) -> (Seq<Seq<u8>>, int)
    decreases file.len() - cursor,
{
    match spec_frame(file, cursor) {
        None => (Seq::empty(), cursor),
        Some((p, next)) => {
            let (rest, end) = parse_frames(file, next);
            (seq![p] + rest, end)
        },
    }
}

/// A body is cleanly framed when reading frames from its start consumes
/// exactly the whole body.
pub open spec fn cleanly_framed(body: Seq<u8>) -> bool {
    parse_frames(body, 0).1 == body.len()
}

/// A frame wholly inside a prefix reads the same after the file grows.
proof fn lemma_frame_prefix(body: Seq<u8>, ext: Seq<u8>, c: int)
    requires
        spec_frame(body, c) is Some,
    ensures
        spec_frame(body + ext, c) == spec_frame(body, c),
{
    let total = body + ext;
    let len = be_u32(body[c], body[c + 1], body[c + 2], body[c + 3]);
    assert(total[c] == body[c] && total[c + 1] == body[c + 1] && total[c + 2] == body[c + 2]
        && total[c + 3] == body[c + 3]);
    assert(total.subrange(c + 4, c + 4 + len) =~= body.subrange(c + 4, c + 4 + len));
}

/// Reading a cleanly framed body inside a longer file yields the body's
/// frames and then reads on from the body's end.
proof fn lemma_parse_frames_prefix(body: Seq<u8>, ext: Seq<u8>, c: int)
    requires
        0 <= c <= body.len(),
        parse_frames(body, c).1 == body.len(),
    ensures
        parse_frames(body + ext, c).0 =~= parse_frames(body, c).0 + parse_frames(
            body + ext,
            body.len() as int,
        ).0,
        parse_frames(body + ext, c).1 == parse_frames(body + ext, body.len() as int).1,
    decreases body.len() - c,
{
    match spec_frame(body, c) {
        None => {
            assert(parse_frames(body, c).1 == c);
        },
        Some((p, next)) => {
            lemma_frame_prefix(body, ext, c);
            lemma_parse_frames_prefix(body, ext, next);
            assert(parse_frames(body + ext, c).0 =~= seq![p] + parse_frames(body + ext, next).0);
        },
    }
}

/// Appending one frame to a cleanly framed body appends exactly its
/// payload to the frames read back, and the result is cleanly framed
/// again: the byte-level round trip of the log.
pub proof fn lemma_frames_round_trip(body: Seq<u8>, payload: Seq<u8>)
    requires
        cleanly_framed(body),
        1 <= payload.len() < 0x1_0000_0000,
    ensures
        parse_frames(body + frame_bytes(payload), 0).0 =~= parse_frames(body, 0).0.push(payload),
        cleanly_framed(body + frame_bytes(payload)),
{
    let ext = frame_bytes(payload);
    let total = body + ext;
    let b = body.len() as int;
    crate::bytes::lemma_u32_be_round_trip(payload.len() as u32);
    assert(total[b] == ext[0] && total[b + 1] == ext[1] && total[b + 2] == ext[2] && total[b + 3]
        == ext[3]);
    assert(be_u32(total[b], total[b + 1], total[b + 2], total[b + 3]) == payload.len() as u32);
    assert(total.subrange(b + 4, b + 4 + payload.len() as int) =~= payload);
    assert(spec_frame(total, b) == Some((payload, total.len() as int)));
    assert(spec_frame(total, total.len() as int) is None);
    assert(parse_frames(total, total.len() as int) == (Seq::<Seq<u8>>::empty(), total.len() as int));
    assert(parse_frames(total, b).0 =~= seq![payload]);
    assert(parse_frames(total, b).1 == total.len() as int);
    lemma_parse_frames_prefix(body, ext, 0);
    assert(parse_frames(total, 0).0 =~= parse_frames(body, 0).0 + seq![payload]);
    assert(parse_frames(body, 0).0 + seq![payload] =~= parse_frames(body, 0).0.push(payload));
}

/// An in-memory image of an action-log file: the header and the framed
/// body that follow it on disk.
pub struct ActionsFile {
    pub header: ActionsFileHeader,
    pub body: Vec<u8>,
}

impl ActionsFile {
    /// The body holds whole frames and nothing else.
    pub open spec fn inv(self) -> bool {
        cleanly_framed(self.body@)
    }

    /// An empty log.
    pub fn new() -> (r: ActionsFile)
        ensures
            r.inv(),
            r.header == (ActionsFileHeader { block_height: 0, actions_count: 0, block_count: 0 }),
            r.body@ == Seq::<u8>::empty(),
            parse_frames(r.body@, 0).0 == Seq::<Seq<u8>>::empty(),
    {
        let f = ActionsFile { header: ActionsFileHeader::new(), body: Vec::new() };
        proof {
            assert(spec_frame(f.body@, 0) is None);
        }
        f
    }

    /// Record one block: reject a stale level (at or below the recorded
    /// height while blocks exist) leaving header and body untouched;
    /// otherwise append one frame and update the header.
    pub fn update(&mut self, block_level: u32, actions_count: u32, payload: &Vec<u8>) -> (r:
        Result<u32, ()>)
        requires
            old(self).inv(),
            1 <= payload@.len() < 0x1_0000_0000,
            block_level < u32::MAX,
        ensures
            final(self).inv(),
            (block_level <= old(self).header.block_height && old(self).header.block_count > 0)
                <==> (r is Err),
            r is Err ==> *final(self) == *old(self),
            r matches Ok(next) ==> next == block_level + 1 && final(self).header
                == spec_updated_header(old(self).header, block_level, actions_count) && final(self).body@ == old(self).body@ + frame_bytes(payload@) && parse_frames(
                final(self).body@,
                0,
            ).0 =~= parse_frames(old(self).body@, 0).0.push(payload@),
    {
        let accepted = self.header.updated(block_level, actions_count);
        match accepted {
            Err(_) => Err(()),
            Ok(h) => {
                let ghost body0 = self.body@;
                push_u32_be(&mut self.body, payload.len() as u32);
                push_bytes(&mut self.body, payload.as_slice());
                proof {
                    assert(self.body@ =~= body0 + frame_bytes(payload@));
                    lemma_frames_round_trip(body0, payload@);
                }
                self.header = h;
                Ok(block_level + 1)
            },
        }
    }
}

} // verus!
