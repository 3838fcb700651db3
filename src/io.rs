use vstd::prelude::*;

verus! {

/// Outcome of reading from a [`Readable`] source.
#[derive(Debug, PartialEq)]
pub enum ReadResult<'r> {
    /// The operation was successful; holds the populated prefix of the buffer.
    Read(&'r [u8]),
    /// The operation was not successful and cannot be polled again.
    Error,
}

/// A source of bytes that fills a caller's buffer, usable without `std::io`.
pub trait Readable {
    /// Fills a prefix of `buf` with the next bytes and returns that prefix.
    fn read<'r>(&self, buf: &'r mut [u8]) -> (r: ReadResult<'r>)
        ensures
            r matches ReadResult::Read(got) ==> got@.len() <= old(buf)@.len(),
    ;
}

impl<'a> Readable for &'a [u8] {
    /// Copies the first `min(buf.len(), self.len())` bytes of the slice into `buf`.
    fn read<'r>(&self, buf: &'r mut [u8]) -> (r: ReadResult<'r>)
        ensures
            r matches ReadResult::Read(got) ==> got@.len() <= old(buf)@.len(),
            r matches ReadResult::Read(got) && got@ == self@.subrange(
                0,
                if old(buf)@.len() < self@.len() {
                    old(buf)@.len() as int
                } else {
                    self@.len() as int
                },
            ) && final(buf)@ == got@.add(old(buf)@.subrange(got@.len() as int, old(buf)@.len() as int)),
    {
        let len: usize = if buf.len() < self.len() { buf.len() } else { self.len() };
        let mut i: usize = 0;
        while i < len
            invariant
                i <= len,
                len <= buf.len(),
                len <= self.len(),
                buf@.len() == old(buf)@.len(),
                forall|j: int| 0 <= j < i ==> buf@[j] == self@[j],
                forall|j: int| len <= j < buf@.len() ==> buf@[j] == old(buf)@[j],
            decreases len - i,
        {
            buf[i] = self[i];
            i = i + 1;
        }
        proof {
            assert(buf@ =~= self@.subrange(0, len as int).add(old(buf)@.subrange(len as int, old(buf)@.len() as int)));
        }
        let filled: &'r [u8] = buf;
        let got: &'r [u8] = vstd::slice::slice_subrange(filled, 0, len);
        ReadResult::Read(got)
    }
}

} // verus!
