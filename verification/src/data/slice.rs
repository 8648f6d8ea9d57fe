//! Borrowed byte slices viewed as keys and data.
use vstd::prelude::*;
use crate::data::traits::Key;
use crate::data::traits::Datum;
use crate::data::traits::DataWrite;

verus! {

/// A borrowed slice of bytes, usable as a key or as a datum.
pub struct SliceDatum<'a> {
    data: &'a [u8],
}

impl<'a> View for SliceDatum<'a> {
    type V = Seq<u8>;

    closed spec fn view(&self) -> Seq<u8> {
        self.data@
    }
}

impl<'a> SliceDatum<'a> {
    pub fn new(slice: &'a [u8]) -> (r: SliceDatum<'a>)
        ensures
            r@ == slice@,
    {
        SliceDatum { data: slice }
    }

    /// An iterator over the bytes of this datum, by value.
    pub fn iter(&self) -> (r: SliceDatumIterator<'a>)
        ensures
            r.remaining() == self@,
    {
        SliceDatumIterator::new(self.data)
    }
}

impl<'a> Key for SliceDatum<'a> {
    open spec fn key_view(&self) -> Seq<u8> {
        self@
    }

    fn bytes(&self) -> (r: &[u8]) {
        self.data
    }
}

impl<'a> Datum for SliceDatum<'a> {
    open spec fn datum_view(&self) -> Seq<u8> {
        self@
    }

    fn len(&self) -> (r: usize) {
        self.data.len()
    }

    fn write_bytes<W: DataWrite>(&self, w: W) -> (r: W::Result) {
        w.write(self.data)
    }
}

/// A mutably borrowed slice of bytes, usable as a datum.
pub struct SliceDatumMut<'a> {
    data: &'a mut [u8],
}

impl<'a> SliceDatumMut<'a> {
    /// Wraps a slice, which must not be longer than a datum may be.
    pub fn new(slice: &'a mut [u8]) -> (r: SliceDatumMut<'a>)
        requires
            old(slice)@.len() <= u16::MAX,
        ensures
            r.datum_view() == old(slice)@,
    {
        SliceDatumMut { data: slice }
    }

    /// The wrapped slice.
    pub fn unwrap(&mut self) -> (r: &mut [u8])
        ensures
            r@ == old(self).datum_view(),
            final(self).datum_view() == final(r)@,
    {
        self.data
    }
}

impl<'a> Datum for SliceDatumMut<'a> {
    closed spec fn datum_view(&self) -> Seq<u8> {
        self.data@
    }

    fn len(&self) -> (r: usize) {
        self.data.len()
    }

    fn write_bytes<W: DataWrite>(&self, w: W) -> (r: W::Result) {
        w.write(self.data)
    }
}

/// An iterator over the bytes of a slice that yields `u8` rather than `&u8`.
pub struct SliceDatumIterator<'a> {
    wrapped: &'a [u8],
    pos: usize,
}

impl<'a> SliceDatumIterator<'a> {
    /// The bytes this iterator has yet to yield.
    pub closed spec fn remaining(&self) -> Seq<u8> {
        self.wrapped@.skip(self.pos as int)
    }

    pub closed spec fn wf(&self) -> bool {
        self.pos <= self.wrapped@.len()
    }

    fn new(data: &'a [u8]) -> (r: SliceDatumIterator<'a>)
        ensures
            r.remaining() == data@,
            r.wf(),
    {
        let r = SliceDatumIterator { wrapped: data, pos: 0 };
        proof {
            assert(r.remaining() =~= data@);
        }
        r
    }

    /// Yields the next byte, or `None` once every byte has been yielded.
    pub fn next(&mut self) -> (r: Option<u8>)
        requires
            old(self).wf(),
        ensures
            final(self).wf(),
            old(self).remaining().len() == 0 ==> r is None && final(self).remaining() == old(self).remaining(),
            old(self).remaining().len() > 0 ==> r == Some(old(self).remaining()[0])
                && final(self).remaining() == old(self).remaining().drop_first(),
    {
        if self.pos < self.wrapped.len() {
            let b = self.wrapped[self.pos];
            self.pos = self.pos + 1;
            proof {
                assert(self.remaining() =~= old(self).remaining().drop_first());
            }
            Some(b)
        } else {
            None
        }
    }
}

} // verus!
