//! Weak pointers to shared vectors, each with the elements its vector held when it was made.
use std::rc::Rc;
use std::rc::Weak;
use vstd::prelude::*;

verus! {

/// `std::rc::Weak<Vec<T>>`, held opaquely: Verus cannot declare `Weak` itself.
#[verifier::external_body]
#[verifier::reject_recursive_types(T)]
pub struct WeakHandle<T> {
    inner: Weak<Vec<T>>,
}

/// A weak pointer to a shared vector, together with the elements the vector held when the
/// pointer was made. Its fields are private to this module, where only `rc_downgrade` and
/// `weak_clone` make one, so the elements always belong to the vector pointed to.
#[verifier::reject_recursive_types(T)]
pub struct WeakVec<T> {
    handle: WeakHandle<T>,
    model: Ghost<Seq<T>>,
}

impl<T> WeakVec<T> {
    /// The elements of the vector when the pointer was made.
    pub closed spec fn contents(&self) -> Seq<T> {
        self.model@
    }
}

/// Calls `std::rc::Rc::downgrade`, which makes a new weak pointer to the allocation of `rc`.
/// The pointer is recorded with the elements `rc` holds now.
#[verifier::external_body]
pub(crate) fn rc_downgrade<T>(rc: &Rc<Vec<T>>) -> (w: WeakVec<T>)
    ensures
        w.contents() == rc@,
{
    WeakVec { handle: WeakHandle { inner: Rc::downgrade(rc) }, model: Ghost(rc@) }
}

/// Calls `std::rc::Weak::clone`, which makes another weak pointer to the same allocation.
#[verifier::external_body]
pub(crate) fn weak_clone<T>(w: &WeakVec<T>) -> (r: WeakVec<T>)
    ensures
        r.contents() == w.contents(),
{
    WeakVec { handle: WeakHandle { inner: w.handle.inner.clone() }, model: Ghost(w.model@) }
}

/// Calls `std::rc::Weak::upgrade`, which gives a strong pointer to the allocation if it is
/// still alive and `None` if it has been dropped. A strong pointer it gives holds the elements
/// recorded with `w`: while a weak pointer exists, `Rc::get_mut` refuses to hand out the
/// vector and `Rc::make_mut` moves it to a new allocation, away from the weak pointers, so
/// the allocation a weak pointer reaches never changes. Whether it is still alive depends on
/// other owners, so nothing is claimed of when the result is `Some`.
#[verifier::external_body]
pub(crate) fn weak_upgrade<T>(w: &WeakVec<T>) -> (r: Option<Rc<Vec<T>>>)
    ensures
        r matches Some(rc) ==> rc@ == w.contents(),
{
    w.handle.inner.upgrade()
}

} // verus!
