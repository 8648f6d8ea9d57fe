//! Key/value pairs as stored in tree nodes, tagged with the transaction that froze them.
use vstd::prelude::*;
use crate::counter::Counter;
use crate::data::rcbytes::RcBytes;
use crate::data::rcbytes::WeakBytes;
use crate::data::traits::Datum;

verus! {

/// A key/value pair of reference-counted bytes.
pub struct Bucket {
    k: RcBytes,
    v: RcBytes,
}

impl Bucket {
    pub closed spec fn key_view(&self) -> Seq<u8> {
        self.k@
    }

    pub closed spec fn value_view(&self) -> Seq<u8> {
        self.v@
    }

    /// A bucket holding copies of the given key and value.
    pub fn new<V: Datum>(k: &[u8], v: &V) -> (r: Bucket)
        ensures
            r.key_view() == k@,
            r.value_view() == v.datum_view(),
    {
        Bucket { k: RcBytes::new(k), v: RcBytes::from_value(v) }
    }

    /// Weak references to the key and value of this bucket.
    pub fn downgrade(&self) -> (r: WeakBucket)
        ensures
            r.key_len() == self.key_view().len(),
            r.value_len() == self.value_view().len(),
            r.key_contents() == self.key_view(),
            r.value_contents() == self.value_view(),
    {
        WeakBucket { k: self.k.downgrade(), v: self.v.downgrade() }
    }
}

impl Clone for Bucket {
    fn clone(&self) -> (r: Self)
        ensures
            r == *self,
    {
        Bucket { k: self.k.clone(), v: self.v.clone() }
    }
}

/// A bucket in a node: transient while it may still change, persistent once a snapshot has
/// frozen it, in which case it carries the transaction counter of that snapshot.
pub enum BucketRef {
    Transient(Bucket),
    Persistent(Bucket, Counter),
}

impl BucketRef {
    pub open spec fn bucket(&self) -> Bucket {
        match *self {
            BucketRef::Transient(b) => b,
            BucketRef::Persistent(b, _) => b,
        }
    }

    pub open spec fn key_view(&self) -> Seq<u8> {
        self.bucket().key_view()
    }

    pub open spec fn value_view(&self) -> Seq<u8> {
        self.bucket().value_view()
    }

    /// The counter of the snapshot that froze this bucket, if one has.
    pub open spec fn stamp(&self) -> Option<u64> {
        match *self {
            BucketRef::Transient(_) => None,
            BucketRef::Persistent(_, c) => Some(c@),
        }
    }

    pub open spec fn is_persistent(&self) -> bool {
        self is Persistent
    }

    /// This bucket once frozen by the snapshot with counter `txid`.
    pub open spec fn immuted(self, txid: Counter) -> BucketRef {
        match self {
            BucketRef::Transient(b) => BucketRef::Persistent(b, txid),
            BucketRef::Persistent(b, c) => BucketRef::Persistent(b, c),
        }
    }

    /// A transient bucket holding copies of the given key and value.
    pub fn new_transient<V: Datum>(k: &[u8], v: &V) -> (r: BucketRef)
        ensures
            r.key_view() == k@,
            r.value_view() == v.datum_view(),
            r.stamp() is None,
    {
        BucketRef::Transient(Bucket::new(k, v))
    }

    /// A transient bucket holding copies of the given key and value bytes.
    pub fn transient_from_bytes(k: &[u8], v: &[u8]) -> (r: BucketRef)
        ensures
            r.key_view() == k@,
            r.value_view() == v@,
            r.stamp() is None,
    {
        BucketRef::Transient(Bucket { k: RcBytes::new(k), v: RcBytes::new(v) })
    }

    pub fn key(&self) -> (r: &[u8])
        ensures
            r@ == self.key_view(),
    {
        match self {
            BucketRef::Transient(b) => b.k.as_slice(),
            BucketRef::Persistent(b, _) => b.k.as_slice(),
        }
    }

    pub fn value(&self) -> (r: &RcBytes)
        ensures
            r@ == self.value_view(),
    {
        match self {
            BucketRef::Transient(b) => &b.v,
            BucketRef::Persistent(b, _) => &b.v,
        }
    }

    /// The counter of the snapshot that froze this bucket. Only persistent buckets have one.
    pub fn txid(&self) -> (r: Counter)
        requires
            self.is_persistent(),
        ensures
            self.stamp() == Some(r@),
    {
        match self {
            BucketRef::Persistent(_, txid) => *txid,
            BucketRef::Transient(_) => vstd::pervasive::unreached(),
        }
    }

    /// Makes this BucketRef immutable, if it wasn't already.
    pub fn immute(&mut self, txid: Counter)
        ensures
            *final(self) == old(self).immuted(txid),
    {
        let newself = match self {
            BucketRef::Transient(b) => BucketRef::Persistent(b.clone(), txid),
            BucketRef::Persistent(b, old_txid) => BucketRef::Persistent(b.clone(), *old_txid),
        };
        *self = newself;
    }

    /// Another reference to this persistent bucket.
    pub fn shallow_clone(&self) -> (r: BucketRef)
        requires
            self.is_persistent(),
        ensures
            r == *self,
    {
        match self {
            BucketRef::Persistent(b, txid) => BucketRef::Persistent(b.clone(), *txid),
            BucketRef::Transient(_) => vstd::pervasive::unreached(),
        }
    }

    /// Weak references to the key and value of this bucket, keeping its tag.
    pub fn downgrade(&self) -> (r: WeakBucketRef)
        ensures
            r.stamp() == self.stamp(),
            r.weak_bucket().key_len() == self.key_view().len(),
            r.weak_bucket().value_len() == self.value_view().len(),
            r.weak_bucket().key_contents() == self.key_view(),
            r.weak_bucket().value_contents() == self.value_view(),
    {
        match self {
            BucketRef::Transient(b) => WeakBucketRef::Transient(b.downgrade()),
            BucketRef::Persistent(b, txid) => WeakBucketRef::Persistent(b.downgrade(), *txid),
        }
    }
}

impl Clone for BucketRef {
    fn clone(&self) -> (r: Self)
        ensures
            r == *self,
    {
        match self {
            BucketRef::Transient(b) => BucketRef::Transient(b.clone()),
            BucketRef::Persistent(b, txid) => BucketRef::Persistent(b.clone(), *txid),
        }
    }
}

/// Weak references to the key and value of a bucket.
pub struct WeakBucket {
    k: WeakBytes,
    v: WeakBytes,
}

impl WeakBucket {
    pub closed spec fn key_len(&self) -> nat {
        self.k.len_spec()
    }

    pub closed spec fn value_len(&self) -> nat {
        self.v.len_spec()
    }

    /// The key bytes the weak reference was made from.
    pub closed spec fn key_contents(&self) -> Seq<u8> {
        self.k.contents()
    }

    /// The value bytes the weak reference was made from.
    pub closed spec fn value_contents(&self) -> Seq<u8> {
        self.v.contents()
    }
}

impl Clone for WeakBucket {
    fn clone(&self) -> (r: Self)
        ensures
            r.key_len() == self.key_len(),
            r.value_len() == self.value_len(),
            r.key_contents() == self.key_contents(),
            r.value_contents() == self.value_contents(),
    {
        WeakBucket { k: self.k.clone(), v: self.v.clone() }
    }
}

/// A weak counterpart of `BucketRef`.
pub enum WeakBucketRef {
    Transient(WeakBucket),
    Persistent(WeakBucket, Counter),
}

impl WeakBucketRef {
    pub open spec fn weak_bucket(&self) -> WeakBucket {
        match *self {
            WeakBucketRef::Transient(b) => b,
            WeakBucketRef::Persistent(b, _) => b,
        }
    }

    pub open spec fn stamp(&self) -> Option<u64> {
        match *self {
            WeakBucketRef::Transient(_) => None,
            WeakBucketRef::Persistent(_, c) => Some(c@),
        }
    }

    /// The key, if it is still alive.
    pub fn key(&self) -> (r: Option<RcBytes>)
        ensures
            r matches Some(k) ==> k@.len() == self.weak_bucket().key_len() && k@ == self.weak_bucket().key_contents(),
    {
        match self {
            WeakBucketRef::Transient(b) => b.k.upgrade(),
            WeakBucketRef::Persistent(b, _) => b.k.upgrade(),
        }
    }

    /// The value, if it is still alive.
    pub fn value(&self) -> (r: Option<RcBytes>)
        ensures
            r matches Some(v) ==> v@.len() == self.weak_bucket().value_len() && v@ == self.weak_bucket().value_contents(),
    {
        match self {
            WeakBucketRef::Transient(b) => b.v.upgrade(),
            WeakBucketRef::Persistent(b, _) => b.v.upgrade(),
        }
    }

    /// The counter of the snapshot that froze the bucket. Only persistent buckets have one.
    pub fn txid(&self) -> (r: Counter)
        requires
            self is Persistent,
        ensures
            self.stamp() == Some(r@),
    {
        match self {
            WeakBucketRef::Persistent(_, txid) => *txid,
            WeakBucketRef::Transient(_) => vstd::pervasive::unreached(),
        }
    }
}

} // verus!
