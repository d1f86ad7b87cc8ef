//! A byte reader that tracks its own position.

use vstd::prelude::*;
use vstd::slice::{slice_subrange, slice_to_vec};

verus! {

/// The mathematical value of a positioned reader: the bytes it reads from
/// and the current logical position within them.
pub ghost struct BufReaderView {
    pub data: Seq<u8>,
    pub pos: int,
}

/// A reader over the bytes of a data file that keeps track of the current
/// position within them.
///
/// Asking a plain buffered reader for its offset empties its buffer, so the
/// position is tracked explicitly instead: it starts at zero, advances on
/// every read, and is reset only by a seek. Asking for the position never
/// disturbs anything.
pub struct BufReaderWithPos {
    pos: usize,
    data: Vec<u8>,
}

impl View for BufReaderWithPos {
    type V = BufReaderView;

    closed spec fn view(&self) -> BufReaderView {
        BufReaderView { data: self.data@, pos: self.pos as int }
    }
}

impl BufReaderWithPos {
    /// A reader over `data`, positioned at offset 0.
    pub fn new(data: Vec<u8>) -> (r: Self)
        ensures
            r@.data == data@,
            r@.pos == 0,
    {
        BufReaderWithPos { pos: 0, data }
    }

    /// Return the current position within the underlying bytes.
    pub fn pos(&self) -> (r: u64)
        ensures
            r == self@.pos,
    {
        self.pos as u64
    }

    /// The bytes the reader reads from.
    pub fn get_ref(&self) -> (r: &Vec<u8>)
        ensures
            r@ == self@.data,
    {
        &self.data
    }

    /// Move the position to `pos`.
    pub fn seek(&mut self, pos: u64)
        requires
            pos <= old(self)@.data.len(),
        ensures
            final(self)@.data == old(self)@.data,
            final(self)@.pos == pos,
    {
        let n = self.data.len();
        proof {
            assert(pos <= n);
        }
        self.pos = pos as usize;
    }

    /// Read exactly `n` bytes at the current position, advancing it.
    pub fn read_exact(&mut self, n: usize) -> (r: Vec<u8>)
        requires
            old(self)@.pos + n <= old(self)@.data.len(),
        ensures
            final(self)@.data == old(self)@.data,
            final(self)@.pos == old(self)@.pos + n,
            r@ == old(self)@.data.subrange(old(self)@.pos, old(self)@.pos + n),
    {
        let end = self.data.len();
        proof {
            assert(self.pos + n <= end);
        }
        let r = slice_to_vec(slice_subrange(self.data.as_slice(), self.pos, self.pos + n));
        self.pos = self.pos + n;
        r
    }
}

} // verus!
