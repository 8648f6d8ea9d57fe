//! The persistent B-tree: lookups, insertion with path copying, snapshots and differences.
use std::rc::Rc;
use vstd::prelude::*;
use crate::data::order::bytes_lt;
use crate::data::order::lemma_bytes_lt_irreflexive;
use crate::data::order::lemma_bytes_lt_transitive;
use crate::data::traits::Datum;
use crate::tree::bucketref::BucketRef;
use crate::tree::flat::contents;
use crate::tree::flat::flat_range;
use crate::tree::flat::inserted;
use crate::tree::flat::inserted_at;
use crate::tree::flat::key_absent;
use crate::tree::flat::lemma_bucket_in_flat;
use crate::tree::flat::lemma_child_lower;
use crate::tree::flat::lemma_children_wf_intro;
use crate::tree::flat::lemma_contents_insert;
use crate::tree::flat::lemma_flat_decompose;
use crate::tree::flat::lemma_flat_update;
use crate::tree::flat::lemma_inserted_sorted;
use crate::tree::flat::lemma_node_wf_children;
use crate::tree::flat::lemma_ref_flat;
use crate::tree::flat::lemma_same_node;
use crate::tree::flat::lemma_segment_bounds;
use crate::tree::flat::lemma_sorted_subrange;
use crate::tree::flat::node_flat;
use crate::tree::flat::node_height;
use crate::tree::flat::node_wf;
use crate::tree::flat::ref_flat;
use crate::tree::flat::ref_node;
use crate::tree::flat::ref_tree_wf;
use crate::tree::flat::ref_wf;
use crate::tree::flat::sep;
use crate::tree::flat::sorted_buckets;
use crate::tree::flat::tree_wf;
use crate::tree::memnode::insert_result_flat;
use crate::tree::memnode::InsertResult;
use crate::tree::memnode::MemNode;
use crate::tree::noderef::FatNodeRef;
use crate::tree::noderef::NodeRef;
use crate::tree::noderef::PersistentNode;
use crate::counter::Counter;
use crate::counter::circle_lt_spec;
use crate::data::rcbytes::ByteRc;
use crate::tree::freeze::bucket_stamp_le;
use crate::tree::freeze::lemma_frozen_flat;
use crate::tree::freeze::lemma_node_stamped;
use crate::tree::freeze::lemma_node_stamped_mono;
use crate::tree::freeze::node_stamped;
use crate::tree::window::bucket_within;
use crate::tree::window::lemma_node_within;
use crate::tree::window::lemma_persistent_within;
use crate::tree::window::lemma_within_flat;
use crate::tree::window::ref_within;
use crate::counter::circle_distance;
use crate::counter::lemma_circle_window;
use crate::tree::freeze::ref_stamped;

verus! {

/// `new` is `old` with a fresh transient bucket holding `k` and `v` inserted in key order.
pub open spec fn inserted_entry(old: Seq<BucketRef>, new: Seq<BucketRef>, k: Seq<u8>, v: Seq<u8>) -> bool {
    exists|b: BucketRef|
        #![trigger inserted(old, new, b)]
        b.key_view() == k && b.value_view() == v && b.stamp() is None && inserted(old, new, b)
}

/// The buckets a split of a child adds to its parent.
pub open spec fn split_flat(r: InsertResult) -> Seq<BucketRef> {
    match r {
        InsertResult::Done => Seq::empty(),
        InsertResult::Flushed(b, n2) => seq![b] + node_flat(n2),
    }
}

/// Where a key that fits between buckets `idx - 1` and `idx` of a sorted inner node lies:
/// in the buckets of child `idx`, which lie between those same buckets.
pub proof fn lemma_child_segment(n: MemNode, idx: int, k: Seq<u8>)
    requires
        tree_wf(n),
        !n.is_leaf_spec(),
        0 <= idx <= n.buckets@.len(),
        n.key_fits_at(idx, k),
    ensures
        ({
            let cs = n.children@;
            let bs = n.buckets@;
            let a = flat_range(cs, bs, 0, idx);
            let c = ref_flat(cs[idx]);
            let t = sep(bs, idx) + flat_range(cs, bs, idx + 1, cs.len() as int);
            &&& node_flat(n) == a + c + t
            &&& n.child_end(idx) == a.len() + c.len()
            &&& sorted_buckets(c)
            &&& forall|i: int| 0 <= i < a.len() ==> bytes_lt(#[trigger] a[i].key_view(), k)
            &&& forall|i: int| 0 <= i < t.len() ==> bytes_lt(k, #[trigger] t[i].key_view())
            &&& forall|i: int| 0 <= i < c.len() ==> n.key_fits_at(idx, #[trigger] c[i].key_view())
        }),
{
    let cs = n.children@;
    let bs = n.buckets@;
    let m = cs.len() as int;
    let a = flat_range(cs, bs, 0, idx);
    let c = ref_flat(cs[idx]);
    let t = sep(bs, idx) + flat_range(cs, bs, idx + 1, m);
    let f = node_flat(n);
    lemma_flat_decompose(cs, bs, idx);
    assert(f =~= a + c + t);
    if idx > 0 {
        assert(bytes_lt(bs[idx - 1].key_view(), k));
    }
    if idx < bs.len() {
        assert(bytes_lt(k, bs[idx].key_view()));
    }
    lemma_segment_bounds(cs, bs, idx, k);
    assert(c =~= f.subrange(a.len() as int, (a.len() + c.len()) as int));
    lemma_sorted_subrange(f, a.len() as int, (a.len() + c.len()) as int);
    assert forall|i: int| 0 <= i < c.len() implies n.key_fits_at(idx, #[trigger] c[i].key_view()) by {
        let y = c[i].key_view();
        assert forall|j: int| 0 <= j < idx implies bytes_lt(#[trigger] bs[j].key_view(), y) by {
            if j < idx - 1 {
                lemma_bytes_lt_transitive(bs[j].key_view(), bs[idx - 1].key_view(), y);
            }
        }
        assert forall|j: int| idx <= j < bs.len() implies bytes_lt(y, #[trigger] bs[j].key_view()) by {
            if j > idx {
                lemma_bytes_lt_transitive(y, bs[idx].key_view(), bs[j].key_view());
            }
        }
    }
}

/// Pointing child `idx` of a node to another well-formed node.
proof fn lemma_parent_updated(old_node: MemNode, mid: MemNode, idx: int, newref: FatNodeRef)
    requires
        node_wf(old_node),
        !old_node.is_leaf_spec(),
        0 <= idx < old_node.children@.len(),
        ref_wf(newref),
        mid.bucket_count == old_node.bucket_count,
        mid.buckets@ == old_node.buckets@,
        mid.children@ == old_node.children@.update(idx, newref),
    ensures
        node_wf(mid),
        !mid.is_leaf_spec(),
        node_flat(mid) == flat_range(old_node.children@, old_node.buckets@, 0, idx) + ref_flat(newref) + (sep(
            old_node.buckets@,
            idx,
        ) + flat_range(old_node.children@, old_node.buckets@, idx + 1, old_node.children@.len() as int)),
        mid.child_end(idx) == flat_range(old_node.children@, old_node.buckets@, 0, idx).len() + ref_flat(newref).len(),
{
    let cs = old_node.children@;
    let bs = old_node.buckets@;
    assert forall|i: int| 0 <= i < mid.children@.len() implies ref_wf(#[trigger] mid.children@[i]) by {
        if i != idx {
            lemma_node_wf_children(old_node, i);
        }
    }
    lemma_children_wf_intro(mid.children@, mid.children@.len() as int);
    lemma_flat_update(cs, bs, idx, newref);
    crate::tree::flat::lemma_flat_range_shift(cs, bs, mid.children@, bs, 0, idx, 0);
    assert(node_flat(mid) =~= flat_range(cs, bs, 0, idx) + ref_flat(newref) + (sep(bs, idx) + flat_range(
        cs,
        bs,
        idx + 1,
        cs.len() as int,
    )));
}

/// Putting an inserted child segment back between the buckets around it.
proof fn lemma_reassembled(
    f: Seq<BucketRef>,
    a: Seq<BucketRef>,
    c: Seq<BucketRef>,
    t: Seq<BucketRef>,
    c2: Seq<BucketRef>,
    b: BucketRef,
    p: int,
)
    requires
        f == a + c + t,
        inserted_at(c, c2, b, p),
        forall|i: int| 0 <= i < a.len() ==> bytes_lt(#[trigger] a[i].key_view(), b.key_view()),
        forall|i: int| 0 <= i < t.len() ==> bytes_lt(b.key_view(), #[trigger] t[i].key_view()),
    ensures
        inserted_at(f, a + c2 + t, b, a.len() + p),
        inserted(f, a + c2 + t, b),
{
    let q = a.len() + p;
    assert(a + c2 + t =~= f.insert(q, b));
    assert forall|i: int| 0 <= i < q implies bytes_lt(#[trigger] f[i].key_view(), b.key_view()) by {
        if i >= a.len() {
            assert(f[i] == c[i - a.len()]);
        } else {
            assert(f[i] == a[i]);
        }
    }
    assert forall|i: int| q <= i < f.len() implies bytes_lt(b.key_view(), #[trigger] f[i].key_view()) by {
        if i < a.len() + c.len() {
            assert(f[i] == c[i - a.len()]);
        } else {
            assert(f[i] == t[i - a.len() - c.len()]);
        }
    }
    assert(inserted_at(f, a + c2 + t, b, q));
}

/// A modifiable copy of a node stamped no later than `t`.
proof fn lemma_heated_stamped(r: FatNodeRef, n: MemNode, t: int)
    requires
        ref_stamped(r, t),
        crate::tree::flat::same_node(n, ref_node(r)),
    ensures
        node_stamped(n, t),
{
    let m = ref_node(r);
    let tm: int = match r {
        FatNodeRef::Transient(_) => t,
        FatNodeRef::Persistent(p) => p.txid@ as int,
    };
    lemma_node_stamped(m, tm);
    lemma_node_stamped(n, tm);
    lemma_node_stamped_mono(n, tm, t);
}

/// Pointing child `idx` of a node stamped no later than `t` to another such node.
proof fn lemma_stamped_update(old_node: MemNode, mid: MemNode, idx: int, newref: FatNodeRef, t: int)
    requires
        node_stamped(old_node, t),
        ref_stamped(newref, t),
        0 <= idx < old_node.children@.len(),
        mid.buckets@ == old_node.buckets@,
        mid.children@ == old_node.children@.update(idx, newref),
    ensures
        node_stamped(mid, t),
{
    lemma_node_stamped(old_node, t);
    lemma_node_stamped(mid, t);
    assert forall|i: int| 0 <= i < mid.children@.len() implies ref_stamped(#[trigger] mid.children@[i], t) by {
        if i != idx {
            assert(mid.children@[i] == old_node.children@[i]);
        }
    }
}

/// Stamps through an insertion into child `idx` of `old_node`: the child was copied into
/// `cn0` and became `cn2`, which `mid` points to; finishing the insertion made `fin`.
proof fn lemma_child_insert_stamps(
    old_node: MemNode,
    idx: int,
    cn0: MemNode,
    cn2: MemNode,
    cr: InsertResult,
    newref: FatNodeRef,
    mid: MemNode,
    fin: MemNode,
    r: InsertResult,
)
    requires
        0 <= idx < old_node.children@.len(),
        crate::tree::flat::same_node(cn0, ref_node(old_node.children@[idx])),
        forall|t: int|
            #![trigger node_stamped(cn2, t)]
            node_stamped(cn0, t) ==> node_stamped(cn2, t) && (cr matches InsertResult::Flushed(b2, n2)
                ==> bucket_stamp_le(b2, t) && node_stamped(n2, t)),
        ref_node(newref) == cn2,
        newref is Transient,
        mid.buckets@ == old_node.buckets@,
        mid.children@ == old_node.children@.update(idx, newref),
        forall|t: int|
            #![trigger node_stamped(fin, t)]
            node_stamped(mid, t) && (cr matches InsertResult::Flushed(b, n2) ==> bucket_stamp_le(b, t)
                && node_stamped(n2, t)) ==> node_stamped(fin, t) && (r matches InsertResult::Flushed(b3, n3)
                ==> bucket_stamp_le(b3, t) && node_stamped(n3, t)),
    ensures
        forall|t: int|
            #![trigger node_stamped(fin, t)]
            node_stamped(old_node, t) ==> node_stamped(fin, t) && (r matches InsertResult::Flushed(b2, n2)
                ==> bucket_stamp_le(b2, t) && node_stamped(n2, t)),
{
    assert forall|t: int|
        #![trigger node_stamped(fin, t)]
        node_stamped(old_node, t) implies node_stamped(fin, t) && (r matches InsertResult::Flushed(b2, n2)
            ==> bucket_stamp_le(b2, t) && node_stamped(n2, t)) by {
        lemma_node_stamped(old_node, t);
        assert(ref_stamped(old_node.children@[idx], t));
        lemma_heated_stamped(old_node.children@[idx], cn0, t);
        assert(node_stamped(cn2, t));
        assert(ref_stamped(newref, t));
        lemma_stamped_update(old_node, mid, idx, newref, t);
        assert(node_stamped(mid, t));
        assert(node_stamped(fin, t));
    }
}

/// The bucket a child split off, after a key that fits at `idx` of `mid` was inserted into
/// it, fits there too.
proof fn lemma_flushed_fits(
    c: Seq<BucketRef>,
    c2: Seq<BucketRef>,
    k: Seq<u8>,
    vv: Seq<u8>,
    cn2: MemNode,
    cr: InsertResult,
    mid: MemNode,
    idx: int,
)
    requires
        inserted_entry(c, c2, k, vv),
        c2 == insert_result_flat(cn2, cr),
        forall|i: int| 0 <= i < c.len() ==> mid.key_fits_at(idx, #[trigger] c[i].key_view()),
        mid.key_fits_at(idx, k),
    ensures
        cr matches InsertResult::Flushed(b2, _) ==> mid.key_fits_at(idx, b2.key_view()),
{
    if cr is Flushed {
        let b = choose|b: BucketRef|
            #![trigger inserted(c, c2, b)]
            b.key_view() == k && b.value_view() == vv && b.stamp() is None && inserted(c, c2, b);
        let p = choose|p: int| inserted_at(c, c2, b, p);
        let q = node_flat(cn2).len() as int;
        assert(c2[q] == cr->0);
        assert(c2 == c.insert(p, b));
        assert(q < c2.len());
        if q < p {
            assert(c2[q] == c[q]);
        } else if q > p {
            assert(c2[q] == c[q - 1]);
        }
    }
}

/// The buckets of a node after an insertion into child `idx`, which held `c` and now holds
/// `cn2` and what it split off.
proof fn lemma_child_insert_flat(
    f: Seq<BucketRef>,
    a: Seq<BucketRef>,
    c: Seq<BucketRef>,
    rest: Seq<BucketRef>,
    k: Seq<u8>,
    vv: Seq<u8>,
    cn2: MemNode,
    cr: InsertResult,
    mid: MemNode,
    idx: int,
    fin: Seq<BucketRef>,
)
    requires
        f == a + c + rest,
        inserted_entry(c, insert_result_flat(cn2, cr), k, vv),
        node_flat(mid) == a + node_flat(cn2) + rest,
        mid.child_end(idx) == a.len() + node_flat(cn2).len(),
        fin == node_flat(mid).take(mid.child_end(idx)) + split_flat(cr) + node_flat(mid).skip(mid.child_end(idx)),
        forall|i: int| 0 <= i < a.len() ==> bytes_lt(#[trigger] a[i].key_view(), k),
        forall|i: int| 0 <= i < rest.len() ==> bytes_lt(k, #[trigger] rest[i].key_view()),
    ensures
        inserted_entry(f, fin, k, vv),
{
    let c2 = insert_result_flat(cn2, cr);
    let b = choose|b: BucketRef|
        #![trigger inserted(c, c2, b)]
        b.key_view() == k && b.value_view() == vv && b.stamp() is None && inserted(c, c2, b);
    let p = choose|p: int| inserted_at(c, c2, b, p);
    let mf = node_flat(mid);
    let ce = mid.child_end(idx);
    assert(mf.take(ce) =~= a + node_flat(cn2));
    assert(mf.skip(ce) =~= rest);
    assert(c2 =~= node_flat(cn2) + split_flat(cr));
    assert(fin =~= a + c2 + rest);
    lemma_reassembled(f, a, c, rest, c2, b, p);
}

/// Finishes an insertion into child `idx` of `node`, which already points to the child's
/// new node: when the child was split, the bucket and node split off go into `node` right
/// after it, which may split `node` in turn.
fn insert_helper(node: &mut MemNode, idx: u16, child_result: InsertResult) -> (r: InsertResult)
    requires
        node_wf(*old(node)),
        !old(node).is_leaf_spec(),
        idx <= old(node).bucket_count,
        child_result matches InsertResult::Flushed(b, n2) ==> node_wf(n2) && old(node).key_fits_at(
            idx as int,
            b.key_view(),
        ),
    ensures
        node_wf(*final(node)),
        !final(node).is_leaf_spec(),
        r matches InsertResult::Flushed(_, n3) ==> node_wf(n3) && !n3.is_leaf_spec(),
        insert_result_flat(*final(node), r) == node_flat(*old(node)).take(old(node).child_end(idx as int))
            + split_flat(child_result) + node_flat(*old(node)).skip(old(node).child_end(idx as int)),
        forall|t: int|
            #![trigger node_stamped(*final(node), t)]
            node_stamped(*old(node), t) && (child_result matches InsertResult::Flushed(b, n2) ==> bucket_stamp_le(b, t)
                && node_stamped(n2, t)) ==> node_stamped(*final(node), t) && (r matches InsertResult::Flushed(b3, n3)
                ==> bucket_stamp_le(b3, t) && node_stamped(n3, t)),
{
    let ghost f = node_flat(*node);
    let ghost p = node.child_end(idx as int);
    proof {
        lemma_flat_decompose(node.children@, node.buckets@, idx as int);
        assert(0 <= p <= f.len());
    }
    match child_result {
        InsertResult::Done => {
            proof {
                assert(f =~= f.take(p) + Seq::<BucketRef>::empty() + f.skip(p));
            }
            InsertResult::Done
        },
        InsertResult::Flushed(b, n2) => {
            let right = FatNodeRef::new_transient(n2);
            proof {
                lemma_ref_flat(right);
            }
            let r = node.insert_at(idx, b, Some(right));
            proof {
                assert(f.take(p) + seq![b] + node_flat(n2) + f.skip(p) =~= f.take(p) + (seq![b] + node_flat(n2))
                    + f.skip(p));
            }
            r
        },
    }
}

/// Inserts a bucket holding `k` and `v` into the subtree of `node`, which does not hold `k`,
/// copying the persistent or shared nodes on the way down and splitting full nodes on the
/// way back up.
fn insert_into<D: Datum>(node: &mut MemNode, k: &[u8], v: &D) -> (r: InsertResult)
    requires
        tree_wf(*old(node)),
        key_absent(node_flat(*old(node)), k@),
    ensures
        node_wf(*final(node)),
        final(node).is_leaf_spec() == old(node).is_leaf_spec(),
        r matches InsertResult::Flushed(_, n2) ==> node_wf(n2) && n2.is_leaf_spec() == old(node).is_leaf_spec(),
        inserted_entry(node_flat(*old(node)), insert_result_flat(*final(node), r), k@, v.datum_view()),
        forall|t: int|
            #![trigger node_stamped(*final(node), t)]
            node_stamped(*old(node), t) ==> node_stamped(*final(node), t) && (r matches InsertResult::Flushed(b2, n2)
                ==> bucket_stamp_le(b2, t) && node_stamped(n2, t)),
    decreases node_height(*old(node)), 1int,
{
    let ghost old_node = *node;
    let ghost f = node_flat(old_node);
    let idx = match node.find(k) {
        Ok(i) => {
            proof {
                lemma_bucket_in_flat(old_node, i as int);
                let j = choose|j: int| 0 <= j < f.len() && f[j] == old_node.buckets@[i as int];
                assert(f[j].key_view() == k@);
            }
            vstd::pervasive::unreached()
        },
        Err(i) => i,
    };
    if node.is_leaf() {
        let b = BucketRef::new_transient(k, v);
        let r = node.insert_at(idx, b, None);
        proof {
            let p = idx as int;
            assert(f == old_node.buckets@);
            assert(f.take(p) + seq![b] + Seq::<BucketRef>::empty() + f.skip(p) =~= f.insert(p, b));
            assert(inserted_at(f, f.insert(p, b), b, p));
            assert(inserted(f, f.insert(p, b), b));
        }
        r
    } else {
        insert_into_child(node, idx, k, v)
    }
}

/// Inserts a bucket holding `k` and `v` into child `idx` of the inner node `node`, where
/// `k` belongs.
#[verifier::rlimit(60)]
fn insert_into_child<D: Datum>(node: &mut MemNode, idx: u16, k: &[u8], v: &D) -> (r: InsertResult)
    requires
        tree_wf(*old(node)),
        key_absent(node_flat(*old(node)), k@),
        !old(node).is_leaf_spec(),
        idx <= old(node).buckets@.len(),
        old(node).key_fits_at(idx as int, k@),
    ensures
        node_wf(*final(node)),
        final(node).is_leaf_spec() == old(node).is_leaf_spec(),
        r matches InsertResult::Flushed(_, n2) ==> node_wf(n2) && n2.is_leaf_spec() == old(node).is_leaf_spec(),
        inserted_entry(node_flat(*old(node)), insert_result_flat(*final(node), r), k@, v.datum_view()),
        forall|t: int|
            #![trigger node_stamped(*final(node), t)]
            node_stamped(*old(node), t) ==> node_stamped(*final(node), t) && (r matches InsertResult::Flushed(b2, n2)
                ==> bucket_stamp_le(b2, t) && node_stamped(n2, t)),
    decreases node_height(*old(node)), 0int,
{
    let ghost old_node = *node;
    let ghost f = node_flat(old_node);
    let ghost cs = old_node.children@;
    let ghost bs = old_node.buckets@;
    let ghost a = flat_range(cs, bs, 0, idx as int);
    let ghost c = ref_flat(cs[idx as int]);
    let ghost rest = sep(bs, idx as int) + flat_range(cs, bs, idx + 1, cs.len() as int);
    proof {
        lemma_child_segment(old_node, idx as int, k@);
        lemma_node_wf_children(old_node, idx as int);
        lemma_child_lower(old_node, idx as int);
        lemma_ref_flat(cs[idx as int]);
    }
    let mut child = FatNodeRef::new_transient(MemNode::empty());
    std::mem::swap(&mut node.children[idx as usize], &mut child);
    let (hot, _) = child.heat();
    let mut cn = hot.into_node();
    let ghost cn0 = cn;
    proof {
        lemma_same_node(cn, ref_node(cs[idx as int]));
        assert forall|i: int| 0 <= i < c.len() implies #[trigger] c[i].key_view() != k@ by {
            assert(c[i] == f[a.len() + i]);
        }
    }
    let cr = insert_into(&mut cn, k, v);
    let ghost cn2 = cn;
    let ghost c2 = insert_result_flat(cn2, cr);
    let newchild = FatNodeRef::new_transient(cn);
    let ghost newref = newchild;
    node.children.set(idx as usize, newchild);
    let ghost mid = *node;
    proof {
        assert(mid.children@ =~= cs.update(idx as int, newref));
        lemma_parent_updated(old_node, mid, idx as int, newref);
        lemma_ref_flat(newref);
        lemma_flushed_fits(c, c2, k@, v.datum_view(), cn2, cr, mid, idx as int);
    }
    let r = insert_helper(node, idx, cr);
    proof {
        lemma_child_insert_flat(f, a, c, rest, k@, v.datum_view(), cn2, cr, mid, idx as int, insert_result_flat(*node, r));
        lemma_child_insert_stamps(old_node, idx as int, cn0, cn2, cr, newref, mid, *node, r);
    }
    r
}

/// Inserts `k`, which the tree does not hold, with value `v` into the tree `top`, returning
/// the new top node. Nodes on the way to the new bucket are copied when persistent or shared
/// and modified in place otherwise; the rest of the tree is shared with `top`.
pub fn insert<D: Datum>(top: FatNodeRef, k: &[u8], v: &D) -> (r: FatNodeRef)
    requires
        ref_tree_wf(top),
        key_absent(ref_flat(top), k@),
    ensures
        ref_tree_wf(r),
        r is Transient,
        inserted_entry(ref_flat(top), ref_flat(r), k@, v.datum_view()),
        contents(ref_flat(r)) == contents(ref_flat(top)).insert(k@, v.datum_view()),
        forall|t: int| ref_stamped(top, t) ==> #[trigger] ref_stamped(r, t),
{
    let ghost old_flat = ref_flat(top);
    let ghost old_top = top;
    proof {
        lemma_ref_flat(top);
    }
    let (hot, _) = top.heat();
    let mut n = hot.into_node();
    let ghost n0 = n;
    proof {
        lemma_same_node(n, ref_node(top));
    }
    let res = insert_into(&mut n, k, v);
    let ghost n1 = n;
    let ghost nf = insert_result_flat(n, res);
    let r = match res {
        InsertResult::Done => FatNodeRef::new_transient(n),
        InsertResult::Flushed(b, n2) => {
            let left = FatNodeRef::new_transient(n);
            let right = FatNodeRef::new_transient(n2);
            proof {
                lemma_ref_flat(left);
                lemma_ref_flat(right);
            }
            FatNodeRef::new_transient(MemNode::new_from_two(left, b, right))
        },
    };
    proof {
        lemma_ref_flat(r);
        let b = choose|b: BucketRef|
            #![trigger inserted(old_flat, nf, b)]
            b.key_view() == k@ && b.value_view() == v.datum_view() && b.stamp() is None && inserted(old_flat, nf, b);
        let p = choose|p: int| inserted_at(old_flat, nf, b, p);
        assert(ref_flat(r) == nf);
        lemma_inserted_sorted(old_flat, nf, b, p);
        lemma_contents_insert(old_flat, b, p);
        assert forall|t: int| ref_stamped(old_top, t) implies #[trigger] ref_stamped(r, t) by {
            lemma_heated_stamped(old_top, n0, t);
            assert(node_stamped(n1, t));
            if res is Flushed {
                let top_node = ref_node(r);
                lemma_node_stamped(top_node, t);
                assert(top_node.children@[0] == FatNodeRef::Transient(Rc::new(n1)));
            }
        }
    }
    r
}

/// The bucket of `s` with key `k`, if there is one.
pub open spec fn bucket_with_key(s: Seq<BucketRef>, k: Seq<u8>) -> Option<BucketRef> {
    if exists|i: int| 0 <= i < s.len() && #[trigger] s[i].key_view() == k {
        Some(s[choose|i: int| 0 <= i < s.len() && #[trigger] s[i].key_view() == k])
    } else {
        None
    }
}

/// The value under `k` among the buckets of `s` frozen after the transaction `trailing`.
pub open spec fn recent_value(s: Seq<BucketRef>, k: Seq<u8>, trailing: u64) -> Option<Seq<u8>> {
    match bucket_with_key(s, k) {
        Some(b) => match b.stamp() {
            Some(x) => if circle_lt_spec(trailing, x) {
                Some(b.value_view())
            } else {
                None
            },
            None => None,
        },
        None => None,
    }
}

/// The contents of a sequence hold a key exactly when one of its buckets has it, and then
/// the value of that bucket.
pub proof fn lemma_contents_bucket(s: Seq<BucketRef>, k: Seq<u8>)
    ensures
        contents(s).dom().contains(k) == bucket_with_key(s, k) is Some,
        bucket_with_key(s, k) matches Some(b) ==> contents(s)[k] == b.value_view() && b.key_view() == k
            && exists|i: int| 0 <= i < s.len() && s[i] == b,
{
}

/// In a sorted sequence, the bucket with the key of bucket `j` is bucket `j`.
pub proof fn lemma_bucket_with_key_at(s: Seq<BucketRef>, j: int)
    requires
        sorted_buckets(s),
        0 <= j < s.len(),
    ensures
        bucket_with_key(s, s[j].key_view()) == Some(s[j]),
{
    let k = s[j].key_view();
    assert(s[j].key_view() == k);
    let i = choose|i: int| 0 <= i < s.len() && #[trigger] s[i].key_view() == k;
    if i < j {
        assert(bytes_lt(s[i].key_view(), s[j].key_view()));
        lemma_bytes_lt_irreflexive(k);
    } else if i > j {
        assert(bytes_lt(s[j].key_view(), s[i].key_view()));
        lemma_bytes_lt_irreflexive(k);
    }
}

/// When no bucket outside `lo..hi` of a sorted sequence has key `k`, the bucket with key
/// `k` is the one of that piece.
proof fn lemma_key_in_segment(f: Seq<BucketRef>, lo: int, hi: int, k: Seq<u8>)
    requires
        sorted_buckets(f),
        0 <= lo <= hi <= f.len(),
        forall|i: int| 0 <= i < f.len() && !(lo <= i < hi) ==> #[trigger] f[i].key_view() != k,
    ensures
        bucket_with_key(f, k) == bucket_with_key(f.subrange(lo, hi), k),
{
    let g = f.subrange(lo, hi);
    lemma_sorted_subrange(f, lo, hi);
    if exists|i: int| 0 <= i < f.len() && #[trigger] f[i].key_view() == k {
        let i = choose|i: int| 0 <= i < f.len() && #[trigger] f[i].key_view() == k;
        assert(g[i - lo] == f[i]);
        lemma_bucket_with_key_at(f, i);
        lemma_bucket_with_key_at(g, i - lo);
    } else {
        assert forall|j: int| 0 <= j < g.len() implies #[trigger] g[j].key_view() != k by {
            assert(g[j] == f[j + lo]);
        }
    }
}

/// No bucket of a sorted inner node outside child `idx` has a key that fits there, so the
/// bucket with such a key is one of that child's.
proof fn lemma_key_in_child(n: MemNode, idx: int, k: Seq<u8>)
    requires
        tree_wf(n),
        !n.is_leaf_spec(),
        0 <= idx <= n.buckets@.len(),
        n.key_fits_at(idx, k),
    ensures
        bucket_with_key(node_flat(n), k) == bucket_with_key(ref_flat(n.children@[idx]), k),
        ref_tree_wf(n.children@[idx]),
        node_height(ref_node(n.children@[idx])) < node_height(n),
{
    let cs = n.children@;
    let bs = n.buckets@;
    let a = flat_range(cs, bs, 0, idx);
    let c = ref_flat(cs[idx]);
    let t = sep(bs, idx) + flat_range(cs, bs, idx + 1, cs.len() as int);
    let f = node_flat(n);
    lemma_child_segment(n, idx, k);
    lemma_node_wf_children(n, idx);
    lemma_child_lower(n, idx);
    assert forall|i: int| 0 <= i < f.len() && !(a.len() <= i < a.len() + c.len()) implies #[trigger] f[i].key_view() != k by {
        if i < a.len() {
            assert(f[i] == a[i]);
            lemma_bytes_lt_irreflexive(k);
        } else {
            assert(f[i] == t[i - a.len() - c.len()]);
            lemma_bytes_lt_irreflexive(k);
        }
    }
    lemma_key_in_segment(f, a.len() as int, (a.len() + c.len()) as int, k);
    assert(f.subrange(a.len() as int, (a.len() + c.len()) as int) =~= c);
}

/// No bucket of a leaf has a key that fits between two of its buckets.
proof fn lemma_key_not_in_leaf(n: MemNode, idx: int, k: Seq<u8>)
    requires
        n.is_leaf_spec(),
        0 <= idx <= n.buckets@.len(),
        n.key_fits_at(idx, k),
    ensures
        bucket_with_key(node_flat(n), k) is None,
{
    assert forall|i: int| 0 <= i < node_flat(n).len() implies #[trigger] node_flat(n)[i].key_view() != k by {
        assert(node_flat(n)[i] == n.buckets@[i]);
        lemma_bytes_lt_irreflexive(k);
    }
}

/// The bucket a node finds its key in is the bucket of the subtree with that key.
proof fn lemma_found_in_node(n: MemNode, idx: int)
    requires
        tree_wf(n),
        0 <= idx < n.buckets@.len(),
    ensures
        bucket_with_key(node_flat(n), n.buckets@[idx].key_view()) == Some(n.buckets@[idx]),
{
    lemma_bucket_in_flat(n, idx);
    let j = choose|j: int| 0 <= j < node_flat(n).len() && node_flat(n)[j] == n.buckets@[idx];
    lemma_bucket_with_key_at(node_flat(n), j);
}

/// Looks `k` up in the tree `n`.
pub fn get(n: NodeRef, k: &[u8]) -> (r: Option<ByteRc>)
    requires
        ref_tree_wf(n.fat()),
    ensures
        r is Some == contents(ref_flat(n.fat())).dom().contains(k@),
        r matches Some(v) ==> v@ == contents(ref_flat(n.fat()))[k@],
{
    let ghost top = ref_flat(n.fat());
    let mut cur = n;
    loop
        invariant
            ref_tree_wf(cur.fat()),
            bucket_with_key(ref_flat(cur.fat()), k@) == bucket_with_key(top, k@),
            top == ref_flat(n.fat()),
        decreases node_height(ref_node(cur.fat())),
    {
        proof {
            lemma_ref_flat(cur.fat());
            lemma_contents_bucket(top, k@);
        }
        let node = cur.node();
        match node.find(k) {
            Ok(idx) => {
                let v = node.value(idx).clone();
                proof {
                    lemma_found_in_node(*node, idx as int);
                }
                return Some(v);
            },
            Err(idx) => {
                if node.is_leaf() {
                    proof {
                        lemma_key_not_in_leaf(*node, idx as int, k@);
                    }
                    return None;
                }
                proof {
                    lemma_key_in_child(*node, idx as int, k@);
                    lemma_ref_flat(node.children@[idx as int]);
                }
                let next = node.child_ref(idx).noderef();
                cur = next;
            },
        }
    }
}

/// The highest counter below the point where counters wrap around in comparisons.
pub open spec fn stamp_bound() -> int {
    0x3FFF_FFFF_FFFF_FFFF
}

/// Looks `k` up among the buckets of the persistent tree `n` frozen after the transaction
/// `trailing_txid`, skipping every persistent node frozen no later than that. Whatever it
/// finds is such a bucket; and it finds it whenever there is one, as long as `trailing_txid`
/// and every counter in the tree lie within a quarter of the counter circle from some
/// counter `w`, each node no earlier there than what lies below it.
pub fn get_recent(n: NodeRef, k: &[u8], trailing_txid: Counter) -> (r: Option<ByteRc>)
    requires
        ref_tree_wf(n.fat()),
        n is Persistent,
    ensures
        r matches Some(v) ==> recent_value(ref_flat(n.fat()), k@, trailing_txid@) == Some(v@),
        (exists|w: u64| circle_distance(w, trailing_txid@) <= stamp_bound() && ref_within(n.fat(), w, stamp_bound()))
            ==> match r {
            Some(v) => recent_value(ref_flat(n.fat()), k@, trailing_txid@) == Some(v@),
            None => recent_value(ref_flat(n.fat()), k@, trailing_txid@) is None,
        },
{
    let ghost top = ref_flat(n.fat());
    let ghost win = exists|w: u64| circle_distance(w, trailing_txid@) <= stamp_bound() && ref_within(n.fat(), w, stamp_bound());
    let ghost w: u64 = choose|w: u64| circle_distance(w, trailing_txid@) <= stamp_bound() && ref_within(n.fat(), w, stamp_bound());
    let mut cur = n;
    loop
        invariant
            ref_tree_wf(cur.fat()),
            cur is Persistent,
            bucket_with_key(ref_flat(cur.fat()), k@) == bucket_with_key(top, k@),
            top == ref_flat(n.fat()),
            win == (exists|w: u64| circle_distance(w, trailing_txid@) <= stamp_bound() && ref_within(n.fat(), w, stamp_bound())),
            win ==> circle_distance(w, trailing_txid@) <= stamp_bound() && ref_within(cur.fat(), w, stamp_bound()),
        decreases node_height(ref_node(cur.fat())),
    {
        proof {
            lemma_ref_flat(cur.fat());
        }
        let stamp = cur.apply_persistent(PersistentNode::txid);
        if !trailing_txid.circle_lt(stamp) {
            proof {
                if win {
                    let pn = ref_node(cur.fat());
                    let ds = circle_distance(w, stamp@);
                    lemma_persistent_within(cur.fat(), w, stamp_bound());
                    lemma_circle_window(w, trailing_txid@, stamp@);
                    lemma_within_flat(pn, w, ds);
                    if let Some(b) = bucket_with_key(top, k@) {
                        lemma_contents_bucket(ref_flat(cur.fat()), k@);
                        let i = choose|i: int| 0 <= i < ref_flat(cur.fat()).len() && ref_flat(cur.fat())[i] == b;
                        assert(bucket_within(node_flat(pn)[i], w, ds));
                        lemma_frozen_flat(pn);
                        assert(node_flat(pn)[i].is_persistent());
                        lemma_circle_window(w, trailing_txid@, b.stamp()->0);
                    }
                }
            }
            return None;
        }
        let node = cur.node();
        match node.find(k) {
            Ok(idx) => {
                let b = node.bucket_ref(idx);
                proof {
                    lemma_found_in_node(*node, idx as int);
                    lemma_frozen_flat(*node);
                    crate::tree::flat::lemma_bucket_in_flat(*node, idx as int);
                }
                if trailing_txid.circle_lt(b.txid()) {
                    return Some(b.value().clone());
                } else {
                    return None;
                }
            },
            Err(idx) => {
                if node.is_leaf() {
                    proof {
                        lemma_key_not_in_leaf(*node, idx as int, k@);
                    }
                    return None;
                }
                proof {
                    lemma_key_in_child(*node, idx as int, k@);
                    lemma_ref_flat(node.children@[idx as int]);
                    assert(node.children@[idx as int] is Persistent);
                    if win {
                        lemma_persistent_within(cur.fat(), w, stamp_bound());
                        lemma_node_within(*node, w, circle_distance(w, stamp@));
                    }
                }
                let next = node.child_ref(idx).noderef();
                cur = next;
            },
        }
    }
}

/// The key of every bucket of a sequence is in its contents.
pub proof fn lemma_in_contents(s: Seq<BucketRef>, i: int)
    requires
        0 <= i < s.len(),
    ensures
        contents(s).dom().contains(s[i].key_view()),
{
    assert(s[i].key_view() == s[i].key_view());
}

/// The contents of a single bucket.
pub proof fn lemma_contents_one(b: BucketRef)
    ensures
        contents(seq![b]) == Map::<Seq<u8>, Seq<u8>>::empty().insert(b.key_view(), b.value_view()),
{
    let e = Seq::<BucketRef>::empty();
    assert(e.insert(0, b) =~= seq![b]);
    lemma_contents_insert(e, b, 0);
    assert(contents(e) =~= Map::<Seq<u8>, Seq<u8>>::empty());
}

} // verus!
