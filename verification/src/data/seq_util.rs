//! Small spec helpers that index sequences by machine-sized positions.
use vstd::prelude::*;

verus! {

/// The elements of `s` from position `i` on.
pub open spec fn skip_from<T>(s: Seq<T>, i: usize) -> Seq<T> {
    s.skip(i as int)
}

/// The element of `s` at position `i`.
pub open spec fn at<T>(s: Seq<T>, i: usize) -> T {
    s[i as int]
}

/// Dropping the first element of the elements from position `i` on gives the elements from
/// position `i + 1` on.
pub proof fn lemma_skip_from_step<T>(s: Seq<T>, i: usize)
    requires
        i < s.len(),
        i + 1 <= usize::MAX,
    ensures
        skip_from(s, i).len() > 0,
        skip_from(s, i)[0] == at(s, i),
        skip_from(s, i).drop_first() == skip_from(s, (i + 1) as usize),
{
    assert(skip_from(s, i).drop_first() =~= skip_from(s, (i + 1) as usize));
}

/// Skipping nothing leaves the sequence unchanged.
pub proof fn lemma_skip_from_zero<T>(s: Seq<T>)
    ensures
        skip_from(s, 0) == s,
{
    assert(skip_from(s, 0) =~= s);
}

} // verus!
