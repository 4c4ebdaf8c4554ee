//! An owned byte buffer, ordered lexicographically: the key and value type
//! of the backing store.

use vstd::prelude::*;

use crate::order::{bytes_cmp, lex_lt};

verus! {

/// An ordered sequence of bytes.
pub struct IVec {
    bytes: Vec<u8>,
}

impl IVec {
    /// The bytes this buffer holds.
    pub closed spec fn view(self) -> Seq<u8> {
        self.bytes@
    }

    /// Wrap an owned byte vector; the conversion changes nothing.
    pub fn from_vec(v: Vec<u8>) -> (r: IVec)
        ensures
            r@ == v@,
    {
        IVec { bytes: v }
    }

    /// The bytes as an owned vector; the conversion changes nothing.
    pub fn to_vec(&self) -> (r: Vec<u8>)
        ensures
            r@ == self@,
    {
        crate::bytes::clone_bytes(&self.bytes)
    }

    /// The bytes as a slice.
    pub fn as_slice(&self) -> (r: &[u8])
        ensures
            r@ == self@,
    {
        self.bytes.as_slice()
    }

    /// The number of bytes held.
    pub fn len(&self) -> (r: usize)
        ensures
            r == self@.len(),
    {
        self.bytes.len()
    }

    /// An owned copy.
    pub fn duplicate(&self) -> (r: IVec)
        ensures
            r@ == self@,
    {
        IVec { bytes: crate::bytes::clone_bytes(&self.bytes) }
    }

    /// Three-way lexicographic comparison.
    pub fn compare(&self, other: &IVec) -> (r: i32)
        ensures
            r == -1 || r == 0 || r == 1,
            (r == -1) <==> lex_lt(self@, other@),
            (r == 0) <==> (self@ == other@),
            (r == 1) <==> lex_lt(other@, self@),
    {
        bytes_cmp(self.bytes.as_slice(), other.bytes.as_slice())
    }
}

} // verus!
