//! Pseudo higher-kinded types. See `PHKT`.
use vstd::prelude::*;

verus! {

/// A pseudo higher-kinded type.
///
/// A PHKT is any generic type whose generic argument can be swapped for a different one.
/// A `PHKT<U>` names, as `T`, the same generic type applied to `U`, and, as `C`, the argument
/// it is applied to now. This makes extension traits such as a functor over `Vec` possible.
pub trait PHKT<U> {
    type C;
    type T;
}

impl<T, U> PHKT<U> for Vec<T> {
    type C = T;
    type T = Vec<U>;
}

} // verus!
