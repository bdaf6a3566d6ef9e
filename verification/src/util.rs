//! The reusable output buffer the codec serializes into: a byte region of
//! fixed physical capacity and a settable logical length, so that encoding
//! a message needs no fresh allocation on the hot path.

use vstd::prelude::*;
use vstd::assert_seqs_equal;

verus! {

/// A byte container with a fixed physical capacity and an explicit logical
/// length. Serialization writes into it in place and then declares how many
/// bytes were produced. The caller sizes it to the maximum message size;
/// writing past the capacity is a precondition violation, not a runtime
/// error.
pub struct MsgBuffer {
    buf: Vec<u8>,
    len: usize,
}

impl MsgBuffer {
    /// The buffer invariant: the logical length never exceeds the capacity.
    pub closed spec fn wf(self) -> bool {
        self.len <= self.buf@.len()
    }

    /// The fixed physical capacity.
    pub closed spec fn spec_capacity(self) -> int {
        self.buf@.len() as int
    }

    /// The full physical contents, logical or not.
    pub closed spec fn contents(self) -> Seq<u8> {
        self.buf@
    }

    /// The declared logical length.
    pub closed spec fn spec_length(self) -> int {
        self.len as int
    }

    /// The logical message: the first `len` bytes of the contents.
    pub closed spec fn message(self) -> Seq<u8> {
        self.buf@.take(self.len as int)
    }

    /// Relations between the abstract fields of the buffer, for callers
    /// that reason about it from outside this module.
    pub proof fn lemma_props(self)
        ensures
            self.spec_capacity() == self.contents().len(),
            self.message() == self.contents().take(self.spec_length()),
            self.wf() ==> self.spec_length() <= self.spec_capacity(),
    {
    }

    /// Creates a zeroed buffer of the given physical capacity with logical
    /// length zero.
    pub fn new(capacity: usize) -> (r: MsgBuffer)
        ensures
            r.wf(),
            r.spec_capacity() == capacity,
            r.spec_length() == 0,
    {
        MsgBuffer { buf: vec![0u8; capacity], len: 0 }
    }

    /// The fixed physical capacity.
    pub fn capacity(&self) -> (r: usize)
        ensures
            r == self.spec_capacity(),
    {
        self.buf.len()
    }

    /// The declared logical length.
    pub fn length(&self) -> (r: usize)
        ensures
            r == self.spec_length(),
    {
        self.len
    }

    /// Writes one byte at physical position `i`, leaving the logical length
    /// unchanged.
    pub fn put(&mut self, i: usize, b: u8)
        requires
            old(self).wf(),
            i < old(self).spec_capacity(),
        ensures
            final(self).wf(),
            final(self).contents() == old(self).contents().update(i as int, b),
            final(self).spec_length() == old(self).spec_length(),
            final(self).spec_capacity() == old(self).spec_capacity(),
    {
        self.buf[i] = b;
    }

    /// Declares how many bytes of the contents form the logical message.
    pub fn set_length(&mut self, len: usize)
        requires
            old(self).wf(),
            len <= old(self).spec_capacity(),
        ensures
            final(self).wf(),
            final(self).contents() == old(self).contents(),
            final(self).spec_length() == len,
            final(self).spec_capacity() == old(self).spec_capacity(),
    {
        self.len = len;
    }

    /// Copies the logical message out, for callers that need an owned value.
    pub fn message_vec(&self) -> (r: Vec<u8>)
        requires
            self.wf(),
        ensures
            r@ == self.message(),
    {
        let mut r: Vec<u8> = Vec::new();
        let mut i: usize = 0;
        while i < self.len
            invariant
                self.wf(),
                i <= self.len,
                r@ == self.buf@.take(i as int),
            decreases self.len - i,
        {
            let b = self.buf[i];
            r.push(b);
            proof {
                assert_seqs_equal!(r@, self.buf@.take(i + 1));
            }
            i += 1;
        }
        r
    }
}

} // verus!
