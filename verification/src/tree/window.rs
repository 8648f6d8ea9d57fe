//! Stamps measured on the counter circle from a base counter: a tree whose stamps all lie
//! within a quarter of the circle from some counter compares them as it would integers,
//! wherever on the circle that quarter lies.
use vstd::prelude::*;
use crate::counter::circle_distance;
use crate::tree::bucketref::BucketRef;
use crate::tree::flat::flat_range;
use crate::tree::flat::lemma_child_lower;
use crate::tree::flat::node_flat;
use crate::tree::flat::node_height;
use crate::tree::flat::ref_node;
use crate::tree::flat::sep;
use crate::tree::freeze::bucket_stamp_le;
use crate::tree::freeze::node_stamped;
use crate::tree::freeze::ref_stamped;
use crate::tree::freeze::lemma_node_stamped;
use crate::tree::memnode::MemNode;
use crate::tree::noderef::FatNodeRef;

verus! {

/// The bucket is transient, or frozen with a counter at most `t` past `w` on the circle.
pub open spec fn bucket_within(b: BucketRef, w: u64, t: int) -> bool {
    match b.stamp() {
        Some(x) => circle_distance(w, x) <= t,
        None => true,
    }
}

/// Every bucket and node of the subtree is frozen at most `t` past `w` on the circle, and
/// every frozen node no earlier, so measured, than anything below it.
pub open spec fn node_within(n: MemNode, w: u64, t: int) -> bool
    decreases n, 0int,
{
    &&& forall|i: int| 0 <= i < n.buckets@.len() ==> bucket_within(#[trigger] n.buckets@[i], w, t)
    &&& children_within(n.children@, n.children@.len() as int, w, t)
}

/// The same, for the first `j` children.
pub open spec fn children_within(cs: Seq<FatNodeRef>, j: int, w: u64, t: int) -> bool
    decreases cs, j,
{
    if 0 < j <= cs.len() {
        children_within(cs, j - 1, w, t) && ref_within(cs[j - 1], w, t)
    } else {
        true
    }
}

/// The same, for the node a pointer points to.
pub open spec fn ref_within(r: FatNodeRef, w: u64, t: int) -> bool
    decreases r, 0int,
{
    match r {
        FatNodeRef::Transient(rc) => node_within(*rc, w, t),
        FatNodeRef::Persistent(p) => circle_distance(w, p.txid@) <= t && node_within(
            p.node,
            w,
            circle_distance(w, p.txid@),
        ),
    }
}

proof fn lemma_children_within(cs: Seq<FatNodeRef>, j: int, w: u64, t: int)
    ensures
        children_within(cs, j, w, t) <==> (forall|i: int| 0 <= i < j && i < cs.len() ==> ref_within(#[trigger] cs[i], w, t))
            || j > cs.len(),
    decreases j,
{
    if 0 < j <= cs.len() {
        lemma_children_within(cs, j - 1, w, t);
        if children_within(cs, j, w, t) {
            assert forall|i: int| 0 <= i < j && i < cs.len() implies ref_within(#[trigger] cs[i], w, t) by {
                if i < j - 1 {
                } else {
                }
            }
        }
        if forall|i: int| 0 <= i < j && i < cs.len() ==> ref_within(#[trigger] cs[i], w, t) {
            assert forall|i: int| 0 <= i < j - 1 && i < cs.len() implies ref_within(#[trigger] cs[i], w, t) by {
            }
            assert(ref_within(cs[j - 1], w, t));
        }
    }
}

/// What `node_within` asks of the buckets and children of a node.
pub proof fn lemma_node_within(n: MemNode, w: u64, t: int)
    ensures
        node_within(n, w, t) <==> (forall|i: int| 0 <= i < n.buckets@.len() ==> bucket_within(#[trigger] n.buckets@[i], w, t))
            && (forall|i: int| 0 <= i < n.children@.len() ==> ref_within(#[trigger] n.children@[i], w, t)),
{
    lemma_children_within(n.children@, n.children@.len() as int, w, t);
}

/// Every bucket below a node within `t` of `w` is within `t` of `w`.
pub proof fn lemma_within_flat(n: MemNode, w: u64, t: int)
    requires
        node_within(n, w, t),
    ensures
        forall|i: int| 0 <= i < node_flat(n).len() ==> bucket_within(#[trigger] node_flat(n)[i], w, t),
    decreases node_height(n), 1int, 0int,
{
    lemma_node_within(n, w, t);
    if n.children@.len() > 0 {
        lemma_within_range(n, w, t, n.children@.len() as int);
        assert(node_flat(n) == flat_range(n.children@, n.buckets@, 0, n.children@.len() as int));
    } else {
        assert forall|i: int| 0 <= i < node_flat(n).len() implies bucket_within(#[trigger] node_flat(n)[i], w, t) by {
            assert(node_flat(n)[i] == n.buckets@[i]);
        }
    }
}

proof fn lemma_within_range(n: MemNode, w: u64, t: int, j: int)
    requires
        node_within(n, w, t),
        0 <= j <= n.children@.len(),
    ensures
        forall|i: int| 0 <= i < flat_range(n.children@, n.buckets@, 0, j).len()
            ==> bucket_within(#[trigger] flat_range(n.children@, n.buckets@, 0, j)[i], w, t),
    decreases node_height(n), 0int, j,
{
    let cs = n.children@;
    let bs = n.buckets@;
    lemma_node_within(n, w, t);
    if j > 0 {
        lemma_within_range(n, w, t, j - 1);
        let c = cs[j - 1];
        lemma_child_lower(n, j - 1);
        assert(ref_within(c, w, t));
        let cn = ref_node(c);
        let tc: int = match c {
            FatNodeRef::Transient(_) => t,
            FatNodeRef::Persistent(p) => circle_distance(w, p.txid@),
        };
        lemma_within_flat(cn, w, tc);
        let a = flat_range(cs, bs, 0, j - 1);
        let f = flat_range(cs, bs, 0, j);
        assert(f == a + crate::tree::flat::ref_flat(c) + sep(bs, j - 1));
        assert(crate::tree::flat::ref_flat(c) == node_flat(cn));
        assert forall|i: int| 0 <= i < f.len() implies bucket_within(#[trigger] f[i], w, t) by {
            if i < a.len() {
                assert(f[i] == a[i]);
            } else if i < a.len() + crate::tree::flat::ref_flat(c).len() {
                assert(f[i] == node_flat(cn)[i - a.len()]);
                assert(bucket_within(node_flat(cn)[i - a.len()], w, tc));
            } else {
                assert(f[i] == bs[j - 1]);
            }
        }
    }
}

/// Stamps bounded by `t` as integers are within `t` of counter 0.
pub proof fn lemma_stamped_within_zero(n: MemNode, t: int)
    requires
        node_stamped(n, t),
    ensures
        node_within(n, 0, t),
    decreases node_height(n), 1int, 0int,
{
    lemma_node_stamped(n, t);
    lemma_node_within(n, 0, t);
    assert forall|i: int| 0 <= i < n.buckets@.len() implies bucket_within(#[trigger] n.buckets@[i], 0, t) by {
        assert(bucket_stamp_le(n.buckets@[i], t));
    }
    assert forall|i: int| 0 <= i < n.children@.len() implies ref_within(#[trigger] n.children@[i], 0, t) by {
        lemma_child_stamped_within_zero(n, i, t);
    }
}

proof fn lemma_child_stamped_within_zero(n: MemNode, i: int, t: int)
    requires
        0 <= i < n.children@.len(),
        node_stamped(n, t),
    ensures
        ref_within(n.children@[i], 0, t),
    decreases node_height(n), 0int, i,
{
    lemma_node_stamped(n, t);
    lemma_child_lower(n, i);
    let c = n.children@[i];
    assert(ref_stamped(c, t));
    let tc: int = match c {
        FatNodeRef::Transient(_) => t,
        FatNodeRef::Persistent(p) => p.txid@ as int,
    };
    lemma_stamped_within_zero(ref_node(c), tc);
}

/// The same, for a pointer.
pub proof fn lemma_ref_stamped_within_zero(r: FatNodeRef, t: int)
    requires
        ref_stamped(r, t),
    ensures
        ref_within(r, 0, t),
{
    let tr: int = match r {
        FatNodeRef::Transient(_) => t,
        FatNodeRef::Persistent(p) => p.txid@ as int,
    };
    lemma_stamped_within_zero(ref_node(r), tr);
}

/// What `ref_within` asks of the node below a persistent pointer.
pub proof fn lemma_persistent_within(r: FatNodeRef, w: u64, t: int)
    requires
        ref_within(r, w, t),
        r is Persistent,
    ensures
        node_within(ref_node(r), w, circle_distance(w, r->Persistent_0.txid@)),
{
}

} // verus!
