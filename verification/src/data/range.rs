//! Ranges of keys.
use vstd::prelude::*;
use crate::data::order::bytes_lt;
use crate::data::order::compare_keys;
use crate::data::order::KeyOrder;
use crate::data::traits::Key;

verus! {

/// A range of keys, each end exclusive or inclusive.
pub struct Range {
    open_left: bool,
    open_right: bool,
    left: Vec<u8>,
    right: Vec<u8>,
}

/// `a` sorts before `b`, or is `b`.
pub open spec fn bytes_le(a: Seq<u8>, b: Seq<u8>) -> bool {
    bytes_lt(a, b) || a == b
}

impl Range {
    pub closed spec fn left_view(&self) -> Seq<u8> {
        self.left@
    }

    pub closed spec fn right_view(&self) -> Seq<u8> {
        self.right@
    }

    /// The left end is excluded.
    pub closed spec fn excludes_left(&self) -> bool {
        self.open_left
    }

    /// The right end is excluded.
    pub closed spec fn excludes_right(&self) -> bool {
        self.open_right
    }

    /// `k` lies in the range.
    pub open spec fn contains_spec(&self, k: Seq<u8>) -> bool {
        &&& if self.excludes_left() {
            bytes_lt(self.left_view(), k)
        } else {
            bytes_le(self.left_view(), k)
        }
        &&& if self.excludes_right() {
            bytes_lt(k, self.right_view())
        } else {
            bytes_le(k, self.right_view())
        }
    }

    /// The range of keys strictly between `left` and `right`, which must be in order.
    pub fn open(left: Box<[u8]>, right: Box<[u8]>) -> (r: Self)
        requires
            bytes_lt(left@, right@),
        ensures
            r.left_view() == left@,
            r.right_view() == right@,
            r.excludes_left() && r.excludes_right(),
    {
        Range { open_left: true, open_right: true, left: left.into_vec(), right: right.into_vec() }
    }

    /// The range of keys after `left` and up to `right`, which must be in order.
    pub fn left_open(left: Box<[u8]>, right: Box<[u8]>) -> (r: Self)
        requires
            bytes_lt(left@, right@),
        ensures
            r.left_view() == left@,
            r.right_view() == right@,
            r.excludes_left() && !r.excludes_right(),
    {
        Range { open_left: true, open_right: false, left: left.into_vec(), right: right.into_vec() }
    }

    /// The range of keys from `left` and before `right`, which must be in order.
    pub fn right_open(left: Box<[u8]>, right: Box<[u8]>) -> (r: Self)
        requires
            bytes_lt(left@, right@),
        ensures
            r.left_view() == left@,
            r.right_view() == right@,
            !r.excludes_left() && r.excludes_right(),
    {
        Range { open_left: false, open_right: true, left: left.into_vec(), right: right.into_vec() }
    }

    /// The range of keys from `left` up to `right`. This is the only range whose ends may be
    /// equal.
    pub fn closed(left: Box<[u8]>, right: Box<[u8]>) -> (r: Self)
        requires
            bytes_le(left@, right@),
        ensures
            r.left_view() == left@,
            r.right_view() == right@,
            !r.excludes_left() && !r.excludes_right(),
    {
        Range { open_left: false, open_right: false, left: left.into_vec(), right: right.into_vec() }
    }

    /// Whether the range holds `k`.
    pub fn contains<K: Key + ?Sized>(&self, k: &K) -> (r: bool)
        ensures
            r == self.contains_spec(k.key_view()),
    {
        match compare_keys(k.bytes(), self.left.as_slice()) {
            KeyOrder::Less => {
                proof {
                    crate::data::order::lemma_bytes_lt_asymmetric(k.key_view(), self.left@);
                }
                return false;
            },
            KeyOrder::Equal => {
                if self.open_left {
                    proof {
                        crate::data::order::lemma_bytes_lt_irreflexive(self.left@);
                    }
                    return false;
                }
            },
            KeyOrder::Greater => {},
        }
        match compare_keys(k.bytes(), self.right.as_slice()) {
            KeyOrder::Less => true,
            KeyOrder::Equal => {
                proof {
                    crate::data::order::lemma_bytes_lt_irreflexive(self.right@);
                }
                !self.open_right
            },
            KeyOrder::Greater => {
                proof {
                    crate::data::order::lemma_bytes_lt_asymmetric(k.key_view(), self.right@);
                    crate::data::order::lemma_bytes_lt_irreflexive(self.right@);
                }
                false
            },
        }
    }
}

} // verus!
