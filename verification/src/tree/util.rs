//! Rotations and swaps of slices, used to shift the contents of nodes.
use vstd::prelude::*;

verus! {

/// `s` rotated right by `pos`: its last `pos` elements moved to the front.
pub open spec fn rotated_right<T>(s: Seq<T>, pos: int) -> Seq<T> {
    s.skip(s.len() - pos) + s.take(s.len() - pos)
}

/// `s` rotated left by `pos`: its first `pos` elements moved to the back.
pub open spec fn rotated_left<T>(s: Seq<T>, pos: int) -> Seq<T> {
    s.skip(pos) + s.take(pos)
}

/// Reverses the elements of `arr` in `lo..hi`.
fn reverse_range<T>(arr: &mut [T], lo: usize, hi: usize)
    requires
        lo <= hi <= old(arr)@.len(),
    ensures
        final(arr)@.len() == old(arr)@.len(),
        forall|k: int|
            0 <= k < old(arr)@.len() ==> #[trigger] final(arr)@[k] == if lo <= k < hi {
                old(arr)@[lo + hi - 1 - k]
            } else {
                old(arr)@[k]
            },
{
    let ghost orig = arr@;
    let mut i = lo;
    let mut j = hi;
    while i < j && i < j - 1
        invariant
            lo <= i <= j <= hi,
            i - lo == hi - j,
            hi <= orig.len(),
            arr@.len() == orig.len(),
            forall|k: int|
                0 <= k < orig.len() ==> #[trigger] arr@[k] == if lo <= k < i || j <= k < hi {
                    orig[lo + hi - 1 - k]
                } else {
                    orig[k]
                },
        decreases j - i,
    {
        let (left, right) = arr.split_at_mut(j - 1);
        std::mem::swap(&mut left[i], &mut right[0]);
        i = i + 1;
        j = j - 1;
    }
}

/// Rotates `arr` right by `pos`: the array [1, 2, 3] rotated by 1 becomes [3, 1, 2].
pub fn rotate_right<T>(arr: &mut [T], pos: usize)
    requires
        pos <= old(arr)@.len(),
    ensures
        final(arr)@ == rotated_right(old(arr)@, pos as int),
{
    // The 'swapping hands' algorithm: reverse the whole, then each of the two parts.
    let ghost orig = arr@;
    let len = arr.len();
    reverse_range(arr, 0, len);
    reverse_range(arr, 0, pos);
    reverse_range(arr, pos, len);
    proof {
        assert(arr@ =~= rotated_right(orig, pos as int));
    }
}

/// Rotates `arr` left by `pos`: the array [1, 2, 3] rotated by 1 becomes [2, 3, 1].
pub fn rotate_left<T>(arr: &mut [T], pos: usize)
    requires
        pos <= old(arr)@.len(),
    ensures
        final(arr)@ == rotated_left(old(arr)@, pos as int),
{
    let len = arr.len() - pos;
    rotate_right(arr, len);
    proof {
        assert(rotated_right(old(arr)@, len as int) =~= rotated_left(old(arr)@, pos as int));
    }
}

/// Swaps the contents of two slices of the same length.
pub fn swap<T>(a: &mut [T], b: &mut [T])
    requires
        old(a)@.len() == old(b)@.len(),
    ensures
        final(a)@ == old(b)@,
        final(b)@ == old(a)@,
{
    let ghost a0 = a@;
    let ghost b0 = b@;
    let mut i: usize = 0;
    while i < a.len()
        invariant
            a@.len() == a0.len(),
            b@.len() == b0.len(),
            a0.len() == b0.len(),
            i <= a0.len(),
            forall|k: int| 0 <= k < a0.len() ==> #[trigger] a@[k] == if k < i { b0[k] } else { a0[k] },
            forall|k: int| 0 <= k < a0.len() ==> #[trigger] b@[k] == if k < i { a0[k] } else { b0[k] },
        decreases a0.len() - i,
    {
        std::mem::swap(&mut a[i], &mut b[i]);
        i = i + 1;
    }
    proof {
        assert(a@ =~= b0);
        assert(b@ =~= a0);
    }
}

/// Inserts `item` at the beginning of `arr`, moving each element over by one; the element
/// that falls off the end is swapped into `item`.
pub fn rotate_in<T>(item: &mut T, arr: &mut [T])
    requires
        old(arr)@.len() > 0,
    ensures
        final(arr)@ == seq![*old(item)] + old(arr)@.take(old(arr)@.len() - 1),
        *final(item) == old(arr)@.last(),
{
    rotate_right(arr, 1);
    std::mem::swap(item, &mut arr[0]);
    proof {
        assert(final(arr)@ =~= seq![*old(item)] + old(arr)@.take(old(arr)@.len() - 1));
    }
}

/// Removes the first element of `arr` into `item`, moving each element back by one; `item`
/// goes in at the end.
pub fn rotate_out<T>(arr: &mut [T], item: &mut T)
    requires
        old(arr)@.len() > 0,
    ensures
        final(arr)@ == old(arr)@.skip(1).push(*old(item)),
        *final(item) == old(arr)@[0],
{
    std::mem::swap(item, &mut arr[0]);
    rotate_left(arr, 1);
    proof {
        assert(final(arr)@ =~= old(arr)@.skip(1).push(*old(item)));
    }
}

/// Inserts the source slice at the beginning of the destination slice, moving each element
/// over by the length of the source; the elements that fall off the end of the destination
/// are swapped into the source, in order.
pub fn rotate_in_slice<T>(src: &mut [T], dst: &mut [T])
    requires
        old(src)@.len() <= old(dst)@.len(),
    ensures
        final(dst)@ == old(src)@ + old(dst)@.take(old(dst)@.len() - old(src)@.len()),
        final(src)@ == old(dst)@.skip(old(dst)@.len() - old(src)@.len()),
{
    let srclen = src.len();
    rotate_right(dst, srclen);
    let (front, _back) = dst.split_at_mut(srclen);
    swap(src, front);
    proof {
        assert(final(dst)@ =~= old(src)@ + old(dst)@.take(old(dst)@.len() - old(src)@.len()));
        assert(final(src)@ =~= old(dst)@.skip(old(dst)@.len() - old(src)@.len()));
    }
}

/// Removes the first elements of the source slice into the destination slice, moving the
/// other elements back; the destination's elements go in at the end of the source.
pub fn rotate_out_slice<T>(src: &mut [T], dst: &mut [T])
    requires
        old(dst)@.len() <= old(src)@.len(),
    ensures
        final(src)@ == old(src)@.skip(old(dst)@.len() as int) + old(dst)@,
        final(dst)@ == old(src)@.take(old(dst)@.len() as int),
{
    let dstlen = dst.len();
    {
        let (front, _back) = src.split_at_mut(dstlen);
        swap(front, dst);
    }
    rotate_left(src, dstlen);
    proof {
        assert(final(src)@ =~= old(src)@.skip(old(dst)@.len() as int) + old(dst)@);
        assert(final(dst)@ =~= old(src)@.take(old(dst)@.len() as int));
    }
}

/// Rotating left by what was rotated right gives back the slice it started from.
pub proof fn law_rotate_left_undoes_rotate_right<T>(s: Seq<T>, pos: int)
    requires
        0 <= pos <= s.len(),
    ensures
        rotated_left(rotated_right(s, pos), pos) == s,
        rotated_right(rotated_left(s, pos), pos) == s,
{
    assert(rotated_left(rotated_right(s, pos), pos) =~= s);
    assert(rotated_right(rotated_left(s, pos), pos) =~= s);
}

/// Rotating an element in and then out gives back the slice and the element.
pub proof fn law_rotate_out_undoes_rotate_in<T>(s: Seq<T>, item: T)
    requires
        s.len() > 0,
    ensures
        ({
            let arr1 = seq![item] + s.take(s.len() - 1);
            let item1 = s.last();
            arr1.skip(1).push(item1) == s && arr1[0] == item
        }),
{
    let arr1 = seq![item] + s.take(s.len() - 1);
    assert(arr1.skip(1).push(s.last()) =~= s);
}

} // verus!
