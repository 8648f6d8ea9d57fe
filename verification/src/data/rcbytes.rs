//! Reference-counted byte boxes, similar to `Rc<[u8]>`.
use vstd::prelude::*;
use crate::data::rcslice::RcSlice;
use crate::data::rcslice::WeakSlice;
use crate::data::traits::Key;
use crate::data::traits::Datum;
use crate::data::traits::DataWrite;

verus! {

/// A reference-counted box of bytes. Similar to `Rc<[u8]>`.
pub struct RcBytes {
    data: RcSlice<u8>,
}

/// The name the tree modules use for reference-counted bytes.
pub type ByteRc = RcBytes;

impl View for RcBytes {
    type V = Seq<u8>;

    closed spec fn view(&self) -> Seq<u8> {
        self.data@
    }
}

impl RcBytes {
    /// Copies the given bytes into a new reference-counted box.
    pub fn new(b: &[u8]) -> (r: RcBytes)
        ensures
            r@ == b@,
    {
        RcBytes { data: RcSlice::from_vec(vstd::slice::slice_to_vec(b)) }
    }

    /// Copies the bytes of a key into a new reference-counted box.
    pub fn from_key<K: Key + ?Sized>(k: &K) -> (r: RcBytes)
        ensures
            r@ == k.key_view(),
    {
        Self::new(k.bytes())
    }

    /// Copies the bytes of a datum into a new reference-counted box.
    pub fn from_value<V: Datum>(v: &V) -> (r: RcBytes)
        ensures
            r@ == v.datum_view(),
    {
        RcBytes { data: RcSlice::from_vec(v.box_copy()) }
    }

    /// The bytes in this box.
    pub fn as_slice(&self) -> (r: &[u8])
        ensures
            r@ == self@,
    {
        self.data.as_slice()
    }

    /// A weak reference to these bytes.
    pub fn downgrade(&self) -> (r: WeakBytes)
        ensures
            r.len_spec() == self@.len(),
            r.contents() == self@,
    {
        WeakBytes { data: self.data.downgrade() }
    }
}

impl Clone for RcBytes {
    fn clone(&self) -> (r: Self)
        ensures
            r == *self,
    {
        RcBytes { data: self.data.clone() }
    }
}

impl std::ops::Deref for RcBytes {
    type Target = [u8];

    fn deref(&self) -> (r: &[u8])
        ensures
            r@ == self@,
    {
        self.as_slice()
    }
}

impl Key for RcBytes {
    open spec fn key_view(&self) -> Seq<u8> {
        self@
    }

    fn bytes(&self) -> (r: &[u8]) {
        self.as_slice()
    }
}

impl Datum for RcBytes {
    open spec fn datum_view(&self) -> Seq<u8> {
        self@
    }

    fn len(&self) -> (r: usize) {
        self.data.len()
    }

    fn write_bytes<W: DataWrite>(&self, w: W) -> (r: W::Result) {
        w.write(self.as_slice())
    }
}

/// A weak reference to a reference-counted box of bytes. Similar to `Weak<[u8]>`.
pub struct WeakBytes {
    data: WeakSlice<u8>,
}

impl WeakBytes {
    /// The length of the bytes this weak reference was made from.
    pub closed spec fn len_spec(&self) -> nat {
        self.data.len_spec()
    }

    /// The bytes this weak reference was made from.
    pub closed spec fn contents(&self) -> Seq<u8> {
        self.data.contents()
    }

    /// The bytes, if they are still alive.
    pub fn upgrade(&self) -> (r: Option<RcBytes>)
        ensures
            r matches Some(b) ==> b@.len() == self.len_spec() && b@ == self.contents(),
    {
        match self.data.upgrade() {
            Some(d) => Some(RcBytes { data: d }),
            None => None,
        }
    }
}

impl Clone for WeakBytes {
    fn clone(&self) -> (r: Self)
        ensures
            r.len_spec() == self.len_spec(),
            r.contents() == self.contents(),
    {
        WeakBytes { data: self.data.clone() }
    }
}

} // verus!
