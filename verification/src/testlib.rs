//! A key-value sink with a single slot: the empty key.
use vstd::prelude::*;
use bytebuffer::ByteBuffer;
use crate::data::range::Range;

verus! {

#[verifier::external_type_specification]
#[verifier::external_body]
pub struct ExByteBuffer(ByteBuffer);

/// The bytes that a `ByteBuffer` holds.
pub uninterp spec fn buffer_data(b: ByteBuffer) -> Seq<u8>;

/// The position of a `ByteBuffer`'s read cursor, in bytes.
pub uninterp spec fn buffer_rpos(b: ByteBuffer) -> int;

/// Whether a `ByteBuffer` has read part of a byte bit by bit, so that its next byte read
/// starts one byte past the read cursor.
pub uninterp spec fn buffer_bit_pending(b: ByteBuffer) -> bool;

/// Where the next byte read of `b` starts.
pub open spec fn read_start(b: ByteBuffer) -> int {
    buffer_rpos(b) + if buffer_bit_pending(b) {
        1int
    } else {
        0int
    }
}

/// `ByteBuffer::from_bytes`: a buffer holding a copy of `bytes`, its read cursor at the
/// start and no bit read pending.
#[verifier::external_body]
fn buffer_from_bytes(bytes: &[u8]) -> (b: ByteBuffer)
    ensures
        buffer_data(b) == bytes@,
        buffer_rpos(b) == 0,
        !buffer_bit_pending(b),
{
    ByteBuffer::from_bytes(bytes)
}

/// `ByteBuffer::len`: the number of bytes held.
#[verifier::external_body]
fn buffer_len(b: &ByteBuffer) -> (n: usize)
    ensures
        n == buffer_data(*b).len(),
{
    b.len()
}

/// `ByteBuffer::set_rpos`: moves the read cursor to `pos`, or to the end of the data where
/// `pos` lies past it; the data and any pending bit read stay.
#[verifier::external_body]
fn buffer_set_rpos(b: &mut ByteBuffer, pos: usize)
    ensures
        buffer_data(*final(b)) == buffer_data(*old(b)),
        buffer_rpos(*final(b)) == if pos <= buffer_data(*old(b)).len() {
            pos as int
        } else {
            buffer_data(*old(b)).len() as int
        },
        buffer_bit_pending(*final(b)) == buffer_bit_pending(*old(b)),
{
    b.set_rpos(pos)
}

/// `ByteBuffer::read_bytes`: ends a pending bit read, then returns the `size` bytes that
/// follow and moves the read cursor past them. The call panics where fewer bytes remain,
/// which `requires` leaves out.
#[verifier::external_body]
fn buffer_read_bytes(b: &mut ByteBuffer, size: usize) -> (r: Vec<u8>)
    requires
        0 <= read_start(*old(b)),
        read_start(*old(b)) + size <= buffer_data(*old(b)).len(),
    ensures
        r@ == buffer_data(*old(b)).subrange(read_start(*old(b)), read_start(*old(b)) + size),
        buffer_data(*final(b)) == buffer_data(*old(b)),
        buffer_rpos(*final(b)) == read_start(*old(b)) + size,
        !buffer_bit_pending(*final(b)),
{
    b.read_bytes(size)
}

/// Why a sink refused a value.
#[derive(Debug, PartialEq, Eq, Structural)]
pub enum SinkError {
    /// The sink holds no value under this key.
    KeyNotSupported,
}

/// A key-value sink with only one supported key, the empty one, under which it keeps the
/// last value put. A sink derived from it by `subtree` or `subrange` keeps nothing.
pub struct NullKeyDummyKvSink {
    ok: bool,
    buf: Option<Option<ByteBuffer>>,
}

impl NullKeyDummyKvSink {
    #[verifier::type_invariant]
    spec fn buffer_readable(self) -> bool {
        self.buf matches Some(Some(b)) ==> !buffer_bit_pending(b)
    }

    /// The sink answers for the empty key.
    pub closed spec fn accepts_empty_key(&self) -> bool {
        self.ok
    }

    /// The sink has a slot in which a value can be kept.
    pub closed spec fn has_slot(&self) -> bool {
        self.buf is Some
    }

    /// The value kept, if any.
    pub closed spec fn stored(&self) -> Option<Seq<u8>> {
        match self.buf {
            Some(Some(b)) => Some(buffer_data(b)),
            _ => None,
        }
    }

    /// The sink answers for the key `k`.
    pub open spec fn key_ok(&self, k: Seq<u8>) -> bool {
        self.accepts_empty_key() && k.len() == 0
    }

    /// An empty sink that answers for the empty key.
    pub fn new() -> (r: Self)
        ensures
            r.accepts_empty_key(),
            r.has_slot(),
            r.stored() is None,
    {
        NullKeyDummyKvSink { ok: true, buf: Some(None) }
    }

    fn check_key(&self, k: &[u8]) -> (r: bool)
        ensures
            r == self.key_ok(k@),
    {
        self.ok && k.len() == 0
    }

    /// The value kept under `k`: the last value put, where `k` is the empty key and the
    /// sink answers for it; `None` otherwise. The sink keeps what it holds.
    pub fn get(&mut self, k: &[u8]) -> (r: Option<Vec<u8>>)
        ensures
            final(self).accepts_empty_key() == old(self).accepts_empty_key(),
            final(self).has_slot() == old(self).has_slot(),
            final(self).stored() == old(self).stored(),
            r is Some <==> (old(self).key_ok(k@) && old(self).stored() is Some),
            r matches Some(v) ==> old(self).stored() == Some(v@),
    {
        proof {
            use_type_invariant(&*self);
        }
        if !self.check_key(k) {
            return None;
        }
        let mut taken: Option<Option<ByteBuffer>> = None;
        std::mem::swap(&mut taken, &mut self.buf);
        let ghost before = taken;
        let (r, back) = match taken {
            Some(Some(mut b)) => {
                let len = buffer_len(&b);
                buffer_set_rpos(&mut b, 0);
                let bytes = buffer_read_bytes(&mut b, len);
                proof {
                    assert(bytes@ =~= buffer_data(b));
                }
                (Some(bytes), Some(Some(b)))
            },
            other => (None, other),
        };
        self.buf = back;
        r
    }

    /// A sink for the keys under `k`: it answers for the empty key only where `k` is empty,
    /// and keeps nothing.
    pub fn subtree(&mut self, k: &[u8]) -> (r: Self)
        ensures
            r.accepts_empty_key() == (k@.len() == 0),
            !r.has_slot(),
            r.stored() is None,
    {
        NullKeyDummyKvSink { ok: k.len() == 0, buf: None }
    }

    /// A sink for the keys in `range`: it answers for no key and keeps nothing.
    pub fn subrange(&mut self, range: Range) -> (r: Self)
        ensures
            !r.accepts_empty_key(),
            !r.has_slot(),
            r.stored() is None,
    {
        NullKeyDummyKvSink { ok: false, buf: None }
    }

    /// The largest value the sink takes, in bytes.
    pub fn max_value_size(&self) -> (r: u64)
        ensures
            r == 65536,
    {
        65536
    }

    /// Keeps a copy of `v` under `k`. Succeeds exactly where the sink answers for `k` and has
    /// a slot; the value then kept is `v`. Otherwise nothing changes.
    pub fn put_small(&mut self, k: &[u8], v: &[u8]) -> (r: Result<(), SinkError>)
        ensures
            final(self).accepts_empty_key() == old(self).accepts_empty_key(),
            final(self).has_slot() == old(self).has_slot(),
            r is Ok <==> (old(self).key_ok(k@) && old(self).has_slot()),
            r is Ok ==> final(self).stored() == Some(v@),
            r is Err ==> final(self).stored() == old(self).stored() && r == Err::<(), SinkError>(
                SinkError::KeyNotSupported,
            ),
    {
        if !self.check_key(k) {
            return Err(SinkError::KeyNotSupported);
        }
        if self.buf.is_none() {
            return Err(SinkError::KeyNotSupported);
        }
        let b = buffer_from_bytes(v);
        self.buf = Some(Some(b));
        Ok(())
    }
}

} // verus!
