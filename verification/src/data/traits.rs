//! The traits by which keys and values are handed to the trees.
use vstd::prelude::*;
use crate::data::slice::SliceDatum;
use vstd::string::StringSliceAdditionalSpecFns;

verus! {

/// A key: anything that can be quickly viewed as a slice of bytes.
pub trait Key {
    /// The bytes of this key.
    spec fn key_view(&self) -> Seq<u8>;

    fn bytes(&self) -> (r: &[u8])
        ensures
            r@ == self.key_view(),
    ;
}

/// A sink that a datum writes its bytes into, once.
pub trait DataWrite: Sized {
    type Result;

    /// `r` is what this sink gives back after being handed the bytes `buf`.
    spec fn writes(&self, buf: Seq<u8>, r: Self::Result) -> bool;

    fn write(self, buf: &[u8]) -> (r: Self::Result)
        ensures
            self.writes(buf@, r),
    ;
}

/// A value: a run of bytes that can be measured and streamed into a `DataWrite`.
pub trait Datum {
    /// The bytes of this datum.
    spec fn datum_view(&self) -> Seq<u8>;

    fn len(&self) -> (r: usize)
        ensures
            r == self.datum_view().len(),
    ;

    fn write_bytes<W: DataWrite>(&self, w: W) -> (r: W::Result)
        ensures
            w.writes(self.datum_view(), r),
    ;

    /// Copies the bytes of this datum into a fresh buffer.
    fn box_copy(&self) -> (r: Vec<u8>)
        ensures
            r@ == self.datum_view(),
    {
        self.write_bytes(ByteDataWrite)
    }
}

/// A `DataWrite` that copies the bytes it is handed into a fresh buffer.
pub struct ByteDataWrite;

impl DataWrite for ByteDataWrite {
    type Result = Vec<u8>;

    open spec fn writes(&self, buf: Seq<u8>, r: Vec<u8>) -> bool {
        r@ == buf
    }

    fn write(self, buf: &[u8]) -> (r: Vec<u8>) {
        vstd::slice::slice_to_vec(buf)
    }
}

/// Something that can be turned into a datum.
pub trait IntoDatum {
    /// The datum type. In general, this will be bounded by the IntoDatum's lifetime.
    type D: Datum;

    /// The bytes the datum will hold.
    spec fn source_view(&self) -> Seq<u8>;

    fn into_datum(self) -> (r: Self::D)
        ensures
            r.datum_view() == self.source_view(),
    ;
}

impl<'a> IntoDatum for &'a [u8] {
    type D = SliceDatum<'a>;

    open spec fn source_view(&self) -> Seq<u8> {
        (*self)@
    }

    fn into_datum(self) -> (r: SliceDatum<'a>) {
        SliceDatum::new(self)
    }
}

impl<'a> IntoDatum for &'a str {
    type D = SliceDatum<'a>;

    open spec fn source_view(&self) -> Seq<u8> {
        (*self).spec_bytes()
    }

    fn into_datum(self) -> (r: SliceDatum<'a>) {
        self.as_bytes().into_datum()
    }
}

impl Key for [u8] {
    open spec fn key_view(&self) -> Seq<u8> {
        self@
    }

    fn bytes(&self) -> (r: &[u8]) {
        self
    }
}

impl Key for Vec<u8> {
    open spec fn key_view(&self) -> Seq<u8> {
        self@
    }

    fn bytes(&self) -> (r: &[u8]) {
        self.as_slice()
    }
}

impl Datum for Vec<u8> {
    open spec fn datum_view(&self) -> Seq<u8> {
        self@
    }

    fn len(&self) -> (r: usize) {
        Vec::len(self)
    }

    fn write_bytes<W: DataWrite>(&self, w: W) -> (r: W::Result) {
        w.write(self.as_slice())
    }
}

} // verus!
