//! Readers and writers over byte slices.
use vstd::prelude::*;

verus! {

/// Reads the bytes of a slice in order.
pub struct ByteReader<'a> {
    bytes: &'a [u8],
    ptr: usize,
}

impl<'a> ByteReader<'a> {
    #[verifier::type_invariant]
    closed spec fn wf(self) -> bool {
        self.ptr <= self.bytes@.len()
    }

    /// The bytes being read.
    pub closed spec fn data(&self) -> Seq<u8> {
        self.bytes@
    }

    /// The number of bytes read so far.
    pub closed spec fn pos(&self) -> nat {
        self.ptr as nat
    }

    /// Wraps the given slice in a ByteReader. This ByteReader reads the underlying bytes,
    /// starting at position 0.
    pub fn wrap(bytes: &'a [u8]) -> (r: ByteReader<'a>)
        ensures
            r.data() == bytes@,
            r.pos() == 0,
    {
        ByteReader { bytes, ptr: 0 }
    }

    /// Reads as many of the remaining bytes as fit into `buf`, into its beginning, and
    /// returns how many that was: 0 at the end of the data or for an empty `buf`.
    pub fn read(&mut self, buf: &mut [u8]) -> (r: usize)
        ensures
            r == if old(self).data().len() - old(self).pos() < old(buf)@.len() {
                old(self).data().len() - old(self).pos()
            } else {
                old(buf)@.len() as int
            },
            final(buf)@ == old(self).data().subrange(old(self).pos() as int, old(self).pos() + r) + old(buf)@.skip(
                r as int,
            ),
            final(self).data() == old(self).data(),
            final(self).pos() == old(self).pos() + r,
    {
        proof {
            use_type_invariant(&*self);
        }
        let remaining = self.bytes.len() - self.ptr;
        let len = if remaining < buf.len() {
            remaining
        } else {
            buf.len()
        };
        let ghost b0 = buf@;
        let ghost nbytes = self.bytes.len();
        let mut i: usize = 0;
        while i < len
            invariant
                i <= len,
                self.bytes@.len() == nbytes,
                nbytes <= usize::MAX,
                len <= buf@.len(),
                buf@.len() == b0.len(),
                self.ptr + len <= self.bytes@.len(),
                forall|k: int| 0 <= k < b0.len() ==> #[trigger] buf@[k] == if k < i {
                    self.bytes@[self.ptr + k]
                } else {
                    b0[k]
                },
            decreases len - i,
        {
            buf[i] = self.bytes[self.ptr + i];
            i = i + 1;
        }
        self.ptr = self.ptr + len;
        proof {
            assert(buf@ =~= old(self).data().subrange(old(self).pos() as int, old(self).pos() + len) + b0.skip(
                len as int,
            ));
        }
        len
    }
}

/// The reason a write into a `ByteWriter` failed.
#[derive(PartialEq, Eq, Structural, Clone, Copy, Debug)]
pub enum WriteError {
    /// The bytes would not fit in what is left of the buffer.
    UnexpectedEof,
}

/// Writes to a mutable byte buffer, from its beginning on.
pub struct ByteWriter<'a> {
    v: &'a mut [u8],
    ptr: usize,
}

impl<'a> ByteWriter<'a> {
    /// The buffer, as it stands.
    pub closed spec fn buffer(&self) -> Seq<u8> {
        self.v@
    }

    /// The number of bytes written so far.
    pub closed spec fn written(&self) -> nat {
        self.ptr as nat
    }

    /// The writer is within its buffer.
    pub closed spec fn wf(&self) -> bool {
        self.ptr <= self.v@.len()
    }

    /// Wraps the given slice in a ByteWriter. This ByteWriter writes to the underlying bytes,
    /// starting at position 0.
    pub fn wrap(underlying: &'a mut [u8]) -> (r: ByteWriter<'a>)
        ensures
            r.wf(),
            r.buffer() == old(underlying)@,
            r.written() == 0,
    {
        ByteWriter { v: underlying, ptr: 0 }
    }

    /// The number of bytes written to so far.
    pub fn len(&self) -> (r: usize)
        ensures
            r == self.written(),
    {
        self.ptr
    }

    /// Writes `input` after what was written so far, if it fits, and returns its length;
    /// fails, changing nothing, if it does not.
    pub fn write(&mut self, input: &[u8]) -> (r: Result<usize, WriteError>)
        requires
            old(self).wf(),
        ensures
            final(self).wf(),
            input@.len() > old(self).buffer().len() - old(self).written() ==> r == Err::<usize, WriteError>(
                WriteError::UnexpectedEof,
            ) && *final(self) == *old(self),
            input@.len() <= old(self).buffer().len() - old(self).written() ==> {
                &&& r == Ok::<usize, WriteError>(input@.len() as usize)
                &&& final(self).written() == old(self).written() + input@.len()
                &&& final(self).buffer() == old(self).buffer().take(old(self).written() as int) + input@
                    + old(self).buffer().skip((old(self).written() + input@.len()) as int)
            },
    {
        if input.len() > self.v.len() - self.ptr {
            return Err(WriteError::UnexpectedEof);
        }
        let ghost b0 = self.v@;
        let ghost nv = self.v.len();
        let mut i: usize = 0;
        while i < input.len()
            invariant
                i <= input@.len(),
                b0.len() == nv,
                nv <= usize::MAX,
                b0 == old(self).buffer(),
                self.ptr == old(self).written(),
                self.ptr + input@.len() <= b0.len(),
                self.v@.len() == b0.len(),
                forall|k: int| 0 <= k < b0.len() ==> #[trigger] self.v@[k] == if self.ptr <= k < self.ptr + i {
                    input@[k - self.ptr]
                } else {
                    b0[k]
                },
            decreases input@.len() - i,
        {
            self.v[self.ptr + i] = input[i];
            i = i + 1;
        }
        self.ptr = self.ptr + input.len();
        proof {
            assert(self.v@ =~= b0.take(old(self).written() as int) + input@ + b0.skip((old(self).written() + input@.len()) as int));
        }
        Ok(input.len())
    }

    /// Nothing is buffered: flushing does nothing.
    pub fn flush(&mut self) -> (r: Result<(), WriteError>)
        ensures
            r is Ok,
            *final(self) == *old(self),
    {
        Ok(())
    }
}

} // verus!
