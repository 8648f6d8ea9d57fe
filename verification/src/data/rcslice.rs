//! A thread-local reference-counted slice type.
//!
//! An `RcSlice` is like `&[T]` without a lifetime: the allocation only disappears once every
//! `RcSlice` sharing it has disappeared. Holding a short subslice of a long `RcSlice` keeps the
//! whole allocation alive.
use std::cmp::Ordering;
use std::rc::Rc;
use vstd::prelude::*;
use crate::data::weak::WeakVec;
use crate::data::weak::rc_downgrade;
use crate::data::weak::weak_clone;
use crate::data::weak::weak_upgrade;
use vstd::std_specs::cmp::PartialEqSpecImpl;
use vstd::std_specs::cmp::PartialOrdSpecImpl;
use vstd::std_specs::cmp::PartialEqSpec;
use vstd::std_specs::cmp::PartialOrdSpec;
use vstd::std_specs::cmp::OrdSpec;
use crate::data::seq_util::skip_from;
use crate::data::seq_util::at;
use crate::data::seq_util::lemma_skip_from_step;
use crate::data::seq_util::lemma_skip_from_zero;

verus! {

/// A reference-counted slice type.
///
/// This is exactly like `&[T]` except without lifetimes, so the
/// allocation only disappears once all `RcSlice`s have disappeared.
pub struct RcSlice<T> {
    counts: Rc<Vec<T>>,
    lo: usize,
    hi: usize,
}

/// A non-owning reference-counted slice type.
///
/// This is to `RcSlice` as `std::rc::Weak` is to `std::rc::Rc`.
#[verifier::reject_recursive_types(T)]
pub struct WeakSlice<T> {
    counts: WeakVec<T>,
    lo: usize,
    hi: usize,
}

impl<T> View for RcSlice<T> {
    type V = Seq<T>;

    closed spec fn view(&self) -> Seq<T> {
        self.counts@.subrange(self.lo as int, self.hi as int)
    }
}

impl<T> RcSlice<T> {
    #[verifier::type_invariant]
    spec fn inv(self) -> bool {
        self.lo <= self.hi <= self.counts@.len()
    }

    /// Construct a new `RcSlice` containing the elements of `slice`.
    ///
    /// This reuses the allocation of `slice`.
    pub fn new(slice: Box<[T]>) -> (r: RcSlice<T>)
        ensures
            r@ == slice@,
    {
        let v = slice.into_vec();
        let n = v.len();
        let r = RcSlice { counts: Rc::new(v), lo: 0, hi: n };
        proof {
            assert(r@ =~= slice@);
        }
        r
    }

    /// Construct a new `RcSlice` holding the elements of `v`.
    pub fn from_vec(v: Vec<T>) -> (r: RcSlice<T>)
        ensures
            r@ == v@,
    {
        let n = v.len();
        let ghost s = v@;
        let r = RcSlice { counts: Rc::new(v), lo: 0, hi: n };
        proof {
            assert(r@ =~= s);
        }
        r
    }

    /// The elements of this slice.
    pub fn as_slice(&self) -> (r: &[T])
        ensures
            r@ == self@,
    {
        proof {
            use_type_invariant(self);
        }
        vstd::slice::slice_subrange(self.counts.as_slice(), self.lo, self.hi)
    }

    /// The number of elements of this slice.
    pub fn len(&self) -> (r: usize)
        ensures
            r == self@.len(),
    {
        proof {
            use_type_invariant(self);
        }
        self.hi - self.lo
    }

    /// Downgrade self into a weak slice.
    pub fn downgrade(&self) -> (r: WeakSlice<T>)
        ensures
            r.len_spec() == self@.len(),
            r.contents() == self@,
    {
        proof {
            use_type_invariant(self);
        }
        WeakSlice { counts: rc_downgrade(&self.counts), lo: self.lo, hi: self.hi }
    }

    /// Construct a new `RcSlice` that only points to elements at
    /// indices `lo` (inclusive) through `hi` (exclusive).
    ///
    /// This consumes `self` to avoid unnecessary reference-count
    /// modifications.
    pub fn slice(self, lo: usize, hi: usize) -> (r: RcSlice<T>)
        requires
            lo <= hi <= self@.len(),
        ensures
            r@ == self@.subrange(lo as int, hi as int),
    {
        proof {
            use_type_invariant(&self);
        }
        let r = RcSlice { counts: self.counts, lo: self.lo + lo, hi: self.lo + hi };
        proof {
            assert(r@ =~= self@.subrange(lo as int, hi as int));
        }
        r
    }

    /// Construct a new `RcSlice` that only points to elements at
    /// indices up to `hi` (exclusive).
    pub fn slice_to(self, hi: usize) -> (r: RcSlice<T>)
        requires
            hi <= self@.len(),
        ensures
            r@ == self@.subrange(0, hi as int),
    {
        self.slice(0, hi)
    }

    /// Construct a new `RcSlice` that only points to elements at
    /// indices starting at `lo` (inclusive).
    pub fn slice_from(self, lo: usize) -> (r: RcSlice<T>)
        requires
            lo <= self@.len(),
        ensures
            r@ == self@.subrange(lo as int, self@.len() as int),
    {
        let hi = self.len();
        self.slice(lo, hi)
    }

    /// The `Debug` rendering of the elements, such as `[1, 2]`.
    #[verifier::external_body]
    pub fn debug_string(&self) -> String
        where T: std::fmt::Debug
    {
        format!("{:?}", self.as_slice())
    }
}

impl<T> Clone for RcSlice<T> {
    fn clone(&self) -> (r: Self)
        ensures
            r == *self,
    {
        proof {
            use_type_invariant(self);
        }
        RcSlice { counts: Rc::clone(&self.counts), lo: self.lo, hi: self.hi }
    }
}

impl<T> std::ops::Deref for RcSlice<T> {
    type Target = [T];

    fn deref(&self) -> (r: &[T])
        ensures
            r@ == self@,
    {
        self.as_slice()
    }
}

impl<T> WeakSlice<T> {
    #[verifier::type_invariant]
    spec fn within(self) -> bool {
        self.lo <= self.hi <= self.counts.contents().len()
    }

    /// The elements of the slice this weak slice was made from.
    pub closed spec fn contents(&self) -> Seq<T> {
        self.counts.contents().subrange(self.lo as int, self.hi as int)
    }

    /// The length of the slice this weak slice was made from.
    pub closed spec fn len_spec(&self) -> nat {
        (self.hi - self.lo) as nat
    }

    /// Where the slice starts in the allocation it was made from.
    pub closed spec fn start_spec(&self) -> int {
        self.lo as int
    }

    /// Where the slice ends in the allocation it was made from.
    pub closed spec fn end_spec(&self) -> int {
        self.hi as int
    }

    /// The slice this weak slice stands for, over `counts`, what upgrading its weak pointer
    /// gave back: `None` where that is `None`, or where the allocation is too short to hold
    /// the slice.
    fn attach(&self, counts: Option<Rc<Vec<T>>>) -> (r: Option<RcSlice<T>>)
        ensures
            r is Some <==> (counts matches Some(c) && self.start_spec() <= self.end_spec() <= c@.len()),
            r matches Some(s) ==> s@ == counts->0@.subrange(self.start_spec(), self.end_spec()),
    {
        match counts {
            Some(counts) => {
                if self.lo <= self.hi && self.hi <= counts.len() {
                    Some(RcSlice { counts, lo: self.lo, hi: self.hi })
                } else {
                    None
                }
            },
            None => None,
        }
    }

    /// Attempt to upgrade `self` to a strongly-counted `RcSlice`.
    ///
    /// Returns `None` if this is not possible (the data has already
    /// been freed).
    pub fn upgrade(&self) -> (r: Option<RcSlice<T>>)
        ensures
            r matches Some(s) ==> s@.len() == self.len_spec() && s@ == self.contents(),
    {
        proof {
            use_type_invariant(self);
        }
        self.attach(weak_upgrade(&self.counts))
    }
}

impl<T> Clone for WeakSlice<T> {
    fn clone(&self) -> (r: Self)
        ensures
            r.len_spec() == self.len_spec(),
            r.contents() == self.contents(),
    {
        proof {
            use_type_invariant(self);
        }
        WeakSlice { counts: weak_clone(&self.counts), lo: self.lo, hi: self.hi }
    }
}

/// Element-wise equality of two sequences, by the elements' own equality.
pub open spec fn seq_eq_spec<T: PartialEqSpec>(a: Seq<T>, b: Seq<T>) -> bool {
    &&& a.len() == b.len()
    &&& forall|i: int| 0 <= i < a.len() ==> (#[trigger] a[i]).eq_spec(&b[i])
}

/// Lexicographic partial comparison of two sequences by the elements' own partial order,
/// as slices compare: the first pair of elements that is not equal decides, and otherwise
/// the shorter sequence is less.
pub open spec fn seq_partial_cmp_spec<T: PartialOrdSpec>(a: Seq<T>, b: Seq<T>) -> Option<Ordering>
    decreases a.len(),
{
    if a.len() == 0 {
        if b.len() == 0 {
            Some(Ordering::Equal)
        } else {
            Some(Ordering::Less)
        }
    } else if b.len() == 0 {
        Some(Ordering::Greater)
    } else {
        match a[0].partial_cmp_spec(&b[0]) {
            Some(Ordering::Equal) => seq_partial_cmp_spec(a.drop_first(), b.drop_first()),
            other => other,
        }
    }
}

/// Lexicographic total comparison of two sequences by the elements' own total order.
pub open spec fn seq_total_cmp_spec<T: OrdSpec>(a: Seq<T>, b: Seq<T>) -> Ordering
    decreases a.len(),
{
    if a.len() == 0 {
        if b.len() == 0 {
            Ordering::Equal
        } else {
            Ordering::Less
        }
    } else if b.len() == 0 {
        Ordering::Greater
    } else {
        match a[0].cmp_spec(&b[0]) {
            Ordering::Equal => seq_total_cmp_spec(a.drop_first(), b.drop_first()),
            other => other,
        }
    }
}

impl<T: PartialEq> PartialEq for RcSlice<T> {
    fn eq(&self, other: &RcSlice<T>) -> (r: bool) {
        let a = self.as_slice();
        let b = other.as_slice();
        if a.len() != b.len() {
            return false;
        }
        let mut i: usize = 0;
        while i < a.len()
            invariant
                a@ == self@,
                b@ == other@,
                a@.len() == b@.len(),
                i <= a@.len(),
                T::obeys_eq_spec() ==> forall|j: int| 0 <= j < i ==> (#[trigger] a@[j]).eq_spec(&b@[j]),
            decreases a@.len() - i,
        {
            if !(a[i] == b[i]) {
                return false;
            }
            i = i + 1;
        }
        true
    }
}

impl<T: PartialEq> PartialEqSpecImpl for RcSlice<T> {
    open spec fn obeys_eq_spec() -> bool {
        T::obeys_eq_spec()
    }

    open spec fn eq_spec(&self, other: &RcSlice<T>) -> bool {
        seq_eq_spec(self@, other@)
    }
}

impl<T: Eq> Eq for RcSlice<T> {
}

impl<T: PartialOrd> PartialOrd for RcSlice<T> {
    fn partial_cmp(&self, other: &RcSlice<T>) -> (r: Option<Ordering>) {
        let a = self.as_slice();
        let b = other.as_slice();
        let mut i: usize = 0;
        proof {
            lemma_skip_from_zero(a@);
            lemma_skip_from_zero(b@);
        }
        while i < a.len() && i < b.len()
            invariant
                a@ == self@,
                b@ == other@,
                i <= a@.len(),
                i <= b@.len(),
                T::obeys_partial_cmp_spec() ==> seq_partial_cmp_spec(self@, other@) == seq_partial_cmp_spec(
                    skip_from(a@, i),
                    skip_from(b@, i),
                ),
            decreases a@.len() - i,
        {
            proof {
                lemma_skip_from_step(a@, i);
                lemma_skip_from_step(b@, i);
            }
            let c = a[i].partial_cmp(&b[i]);
            match c {
                Some(Ordering::Equal) => {},
                _ => {
                    return c;
                },
            }
            i = i + 1;
        }
        if a.len() < b.len() {
            Some(Ordering::Less)
        } else if b.len() < a.len() {
            Some(Ordering::Greater)
        } else {
            Some(Ordering::Equal)
        }
    }
}

impl<T: PartialOrd> PartialOrdSpecImpl for RcSlice<T> {
    open spec fn obeys_partial_cmp_spec() -> bool {
        T::obeys_partial_cmp_spec()
    }

    open spec fn partial_cmp_spec(&self, other: &RcSlice<T>) -> Option<Ordering> {
        seq_partial_cmp_spec(self@, other@)
    }
}

impl<T: Ord> RcSlice<T> {
    /// Total lexicographic comparison, as slices compare.
    pub fn cmp(&self, other: &RcSlice<T>) -> (r: Ordering)
        ensures
            T::obeys_cmp_spec() ==> r == seq_total_cmp_spec(self@, other@),
    {
        let a = self.as_slice();
        let b = other.as_slice();
        let mut i: usize = 0;
        proof {
            lemma_skip_from_zero(a@);
            lemma_skip_from_zero(b@);
        }
        while i < a.len() && i < b.len()
            invariant
                a@ == self@,
                b@ == other@,
                i <= a@.len(),
                i <= b@.len(),
                T::obeys_cmp_spec() ==> seq_total_cmp_spec(self@, other@) == seq_total_cmp_spec(
                    skip_from(a@, i),
                    skip_from(b@, i),
                ),
            decreases a@.len() - i,
        {
            proof {
                lemma_skip_from_step(a@, i);
                lemma_skip_from_step(b@, i);
            }
            let c = a[i].cmp(&b[i]);
            match c {
                Ordering::Equal => {},
                _ => {
                    return c;
                },
            }
            i = i + 1;
        }
        if a.len() < b.len() {
            Ordering::Less
        } else if b.len() < a.len() {
            Ordering::Greater
        } else {
            Ordering::Equal
        }
    }
}

} // verus!
