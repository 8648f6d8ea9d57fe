//! A stack of nodes from the top of a tree down to a bucket: the state of a cursor.
use vstd::prelude::*;
use crate::data::order::bytes_lt;
use crate::data::order::lemma_bytes_lt_asymmetric;
use crate::data::order::lemma_bytes_lt_irreflexive;
use crate::tree::bucketref::BucketRef;
use crate::tree::flat::contents;
use crate::tree::flat::flat_range;
use crate::tree::flat::lemma_child_lower;
use crate::tree::flat::lemma_bucket_in_flat;
use crate::tree::flat::lemma_flat_decompose;
use crate::tree::flat::lemma_flat_range_concat;
use crate::tree::flat::lemma_flat_range_empty;
use crate::tree::flat::lemma_flat_range_one;
use crate::tree::flat::lemma_node_wf_children;
use crate::tree::flat::lemma_ref_flat;
use crate::tree::flat::lemma_sorted_subrange;
use crate::tree::flat::node_flat;
use crate::tree::flat::node_height;
use crate::tree::flat::ref_flat;
use crate::tree::flat::ref_node;
use crate::tree::flat::ref_tree_wf;
use crate::tree::flat::sep;
use crate::tree::flat::sorted_buckets;
use crate::tree::flat::tree_wf;
use crate::tree::memnode::MemNode;
use crate::tree::noderef::NodeRef;
use crate::tree::noderef::FatNodeRef;

verus! {

/// A node and an index into it: a bucket, or the child before that bucket.
pub type NodeCursor = (NodeRef, u16);

/// The node of an entry.
pub open spec fn entry_node(e: NodeCursor) -> MemNode {
    ref_node(e.0.fat())
}

/// `b` is at the child of `a`'s node that `a`'s index names.
pub open spec fn steps_to(a: NodeCursor, b: NodeCursor) -> bool {
    &&& !entry_node(a).is_leaf_spec()
    &&& (a.1 as int) < entry_node(a).children@.len()
    &&& b.0.fat() == entry_node(a).children@[a.1 as int]
}

/// Where the buckets of the child an entry names start among the buckets of its node.
pub open spec fn child_start(e: NodeCursor) -> int {
    flat_range(entry_node(e).children@, entry_node(e).buckets@, 0, e.1 as int).len() as int
}

/// Where the buckets of the node of entry `j` start among the buckets of the first node.
pub open spec fn base(s: Seq<NodeCursor>, j: int) -> int
    decreases j,
{
    if 0 < j <= s.len() {
        base(s, j - 1) + child_start(s[j - 1])
    } else {
        0
    }
}

/// The position, among the buckets of the first node, of the bucket the last entry names:
/// past all the buckets of its child for an inner node.
pub open spec fn position(s: Seq<NodeCursor>) -> int {
    base(s, s.len() - 1) + entry_node(s.last()).child_end(s.last().1 as int)
}

/// A path down a well-formed tree, each entry at the child its predecessor names, the last
/// one at a bucket or just past the last bucket of its node.
pub open spec fn stack_wf(s: Seq<NodeCursor>) -> bool {
    &&& s.len() >= 1
    &&& ref_tree_wf(s[0].0.fat())
    &&& forall|i: int, j: int| 0 <= i && j == i + 1 && j < s.len() ==> #[trigger] steps_to(s[i], s[j])
    &&& s.last().1 <= entry_node(s.last()).buckets@.len()
}

/// The buckets of the tree a stack walks down.
pub open spec fn root_flat(s: Seq<NodeCursor>) -> Seq<BucketRef> {
    ref_flat(s[0].0.fat())
}

/// `p` is the number of buckets of `s` whose keys sort before `k`.
pub open spec fn lower_bound(s: Seq<BucketRef>, k: Seq<u8>, p: int) -> bool {
    &&& 0 <= p <= s.len()
    &&& forall|i: int| 0 <= i < p ==> bytes_lt(#[trigger] s[i].key_view(), k)
    &&& forall|i: int| p <= i < s.len() ==> !bytes_lt(#[trigger] s[i].key_view(), k)
}

/// The buckets of a node are laid out in the buckets of the first node, at its base.
proof fn lemma_embed(s: Seq<NodeCursor>, j: int)
    requires
        s.len() >= 1,
        ref_tree_wf(s[0].0.fat()),
        forall|i: int, k: int| 0 <= i && k == i + 1 && k < s.len() ==> #[trigger] steps_to(s[i], s[k]),
        0 <= j < s.len(),
    ensures
        ref_tree_wf(s[j].0.fat()),
        0 <= base(s, j),
        base(s, j) + node_flat(entry_node(s[j])).len() <= root_flat(s).len(),
        root_flat(s).subrange(base(s, j), base(s, j) + node_flat(entry_node(s[j])).len()) == node_flat(
            entry_node(s[j]),
        ),
    decreases j,
{
    lemma_ref_flat(s[j].0.fat());
    if j == 0 {
        assert(root_flat(s).subrange(0, root_flat(s).len() as int) =~= root_flat(s));
    } else {
        lemma_embed(s, j - 1);
        assert(steps_to(s[j - 1], s[j]));
        let n = entry_node(s[j - 1]);
        let idx = s[j - 1].1 as int;
        let cs = n.children@;
        let bs = n.buckets@;
        lemma_ref_flat(s[j - 1].0.fat());
        lemma_flat_decompose(cs, bs, idx);
        lemma_node_wf_children(n, idx);
        let a = flat_range(cs, bs, 0, idx);
        let c = ref_flat(cs[idx]);
        let f = node_flat(n);
        assert(f == flat_range(cs, bs, 0, cs.len() as int));
        assert(c =~= f.subrange(a.len() as int, (a.len() + c.len()) as int));
        lemma_sorted_subrange(f, a.len() as int, (a.len() + c.len()) as int);
        lemma_ref_flat(cs[idx]);
        let b0 = base(s, j - 1);
        assert(root_flat(s).subrange(base(s, j), base(s, j) + c.len()) =~= f.subrange(
            a.len() as int,
            (a.len() + c.len()) as int,
        )) by {
            assert forall|x: int| 0 <= x < c.len() implies root_flat(s).subrange(base(s, j), base(s, j) + c.len())[x]
                == #[trigger] f.subrange(a.len() as int, (a.len() + c.len()) as int)[x] by {
                assert(root_flat(s).subrange(b0, b0 + f.len())[a.len() + x] == f[a.len() + x]);
            }
        }
    }
}

/// The bucket at the position of a stack whose last entry names a bucket.
proof fn lemma_current(s: Seq<NodeCursor>)
    requires
        stack_wf(s),
        (s.last().1 as int) < entry_node(s.last()).buckets@.len(),
    ensures
        0 <= position(s) < root_flat(s).len(),
        root_flat(s)[position(s)] == entry_node(s.last()).buckets@[s.last().1 as int],
        sorted_buckets(root_flat(s)),
{
    let j = s.len() - 1;
    lemma_embed(s, j);
    let n = entry_node(s[j]);
    let idx = s[j].1 as int;
    let f = node_flat(n);
    lemma_ref_flat(s[j].0.fat());
    lemma_ref_flat(s[0].0.fat());
    if n.is_leaf_spec() {
        assert(f[idx] == n.buckets@[idx]);
    } else {
        let cs = n.children@;
        let bs = n.buckets@;
        lemma_flat_decompose(cs, bs, idx);
        assert(sep(bs, idx) =~= seq![bs[idx]]);
        assert(f[n.child_end(idx)] == bs[idx]);
    }
    let b0 = base(s, j);
    assert(root_flat(s).subrange(b0, b0 + f.len())[n.child_end(idx)] == f[n.child_end(idx)]);
}

/// Past the last bucket of a node, the position is the end of its buckets.
proof fn lemma_child_end_full(n: MemNode)
    requires
        tree_wf(n),
    ensures
        n.child_end(n.buckets@.len() as int) == node_flat(n).len(),
{
    if !n.is_leaf_spec() {
        let cs = n.children@;
        let bs = n.buckets@;
        let m = bs.len() as int;
        lemma_flat_decompose(cs, bs, m);
        assert(sep(bs, m) =~= Seq::<BucketRef>::empty());
        lemma_flat_range_empty(cs, bs, m + 1);
    }
}

/// Dropping a last entry that is past the last bucket of its node leaves the position as it
/// was: just past the buckets of the child the entry before names.
proof fn lemma_pop_end(s: Seq<NodeCursor>)
    requires
        stack_wf(s),
        s.len() >= 2,
        s.last().1 == entry_node(s.last()).buckets@.len(),
    ensures
        stack_wf(s.drop_last()),
        s.drop_last()[0] == s[0],
        position(s.drop_last()) == position(s),
{
    let t = s.drop_last();
    let j = s.len() - 1;
    assert(steps_to(s[j - 1], s[j]));
    lemma_embed(s, j);
    lemma_child_end_full(entry_node(s[j]));
    let n = entry_node(s[j - 1]);
    let idx = s[j - 1].1 as int;
    assert(t.last() == s[j - 1]);
    assert forall|i: int, k: int| 0 <= i && k == i + 1 && k < t.len() implies #[trigger] steps_to(t[i], t[k]) by {
        assert(steps_to(s[i], s[k]));
    }
    lemma_ref_flat(s[j].0.fat());
    lemma_embed(s, j - 1);
    lemma_ref_flat(s[j - 1].0.fat());
    assert(t[0] == s[0]);
    assert(base(t, j - 1) == base(s, j - 1)) by {
        lemma_base_prefix(s, t, j - 1);
    }
}

/// The bases of a stack depend only on the entries below them.
proof fn lemma_base_prefix(s: Seq<NodeCursor>, t: Seq<NodeCursor>, j: int)
    requires
        0 <= j <= t.len(),
        j <= s.len(),
        forall|i: int| 0 <= i < j ==> s[i] == t[i],
    ensures
        base(s, j) == base(t, j),
    decreases j,
{
    if j > 0 {
        lemma_base_prefix(s, t, j - 1);
    }
}

/// The state of a descent from `n` towards key `k`: the stack walked so far, ending above
/// `cur`, whose buckets are the piece of the tree's buckets `root` where `k` belongs.
pub open spec fn descent_inv(s: Seq<NodeCursor>, cur: NodeRef, n: NodeRef, root: Seq<BucketRef>, k: Seq<u8>) -> bool {
    let b = base(s, s.len() as int);
    let len = ref_flat(cur.fat()).len();
    &&& ref_tree_wf(cur.fat())
    &&& s.len() == 0 ==> cur == n
    &&& s.len() > 0 ==> s[0].0 == n && steps_to(s.last(), (cur, 0u16))
    &&& forall|i: int, j: int| 0 <= i && j == i + 1 && j < s.len() ==> #[trigger] steps_to(s[i], s[j])
    &&& 0 <= b
    &&& b + len <= root.len()
    &&& root.subrange(b, b + len) == ref_flat(cur.fat())
    &&& forall|i: int| 0 <= i < b ==> bytes_lt(#[trigger] root[i].key_view(), k)
    &&& forall|i: int| b + len <= i < root.len() ==> bytes_lt(k, #[trigger] root[i].key_view())
}

proof fn lemma_descent_start(n: NodeRef, k: Seq<u8>)
    requires
        ref_tree_wf(n.fat()),
    ensures
        descent_inv(Seq::empty(), n, n, ref_flat(n.fat()), k),
{
    let root = ref_flat(n.fat());
    assert(root.subrange(0, root.len() as int) =~= root);
}

/// Pushing the entry for the node the descent is at.
proof fn lemma_pushed(s: Seq<NodeCursor>, e: NodeCursor, cur: NodeRef, n: NodeRef, root: Seq<BucketRef>, k: Seq<u8>)
    requires
        descent_inv(s, cur, n, root, k),
        ref_tree_wf(n.fat()),
        root == ref_flat(n.fat()),
        e.0 == cur,
        e.1 <= entry_node(e).buckets@.len(),
    ensures
        stack_wf(s.push(e)),
        s.push(e)[0].0 == n,
        root_flat(s.push(e)) == root,
        base(s.push(e), s.len() as int) == base(s, s.len() as int),
{
    let t = s.push(e);
    if s.len() > 0 {
        assert(t[0] == s[0]);
    }
    assert forall|i: int, j: int| 0 <= i && j == i + 1 && j < t.len() implies #[trigger] steps_to(t[i], t[j]) by {
        if j < s.len() {
            assert(steps_to(s[i], s[j]));
        } else {
            assert(t[i] == s.last());
        }
    }
    lemma_base_prefix(s, t, s.len() as int);
}

/// The descent found a bucket with key `k`.
proof fn lemma_found_lower_bound(root: Seq<BucketRef>, k: Seq<u8>, p: int)
    requires
        sorted_buckets(root),
        0 <= p < root.len(),
        root[p].key_view() == k,
    ensures
        lower_bound(root, k, p),
        contents(root).dom().contains(k),
{
    assert forall|i: int| p <= i < root.len() implies !bytes_lt(#[trigger] root[i].key_view(), k) by {
        if i > p {
            lemma_bytes_lt_asymmetric(root[p].key_view(), root[i].key_view());
        } else {
            lemma_bytes_lt_irreflexive(k);
        }
    }
}

/// The descent reached a leaf without finding `k`.
proof fn lemma_leaf_lower_bound(s: Seq<NodeCursor>, e: NodeCursor, cur: NodeRef, n: NodeRef, root: Seq<BucketRef>, k: Seq<u8>)
    requires
        descent_inv(s, cur, n, root, k),
        ref_tree_wf(n.fat()),
        root == ref_flat(n.fat()),
        e.0 == cur,
        entry_node(e).is_leaf_spec(),
        e.1 <= entry_node(e).buckets@.len(),
        entry_node(e).key_fits_at(e.1 as int, k),
    ensures
        lower_bound(root, k, position(s.push(e))),
        !contents(root).dom().contains(k),
{
    let t = s.push(e);
    let nd = entry_node(e);
    let b = base(s, s.len() as int);
    let idx = e.1 as int;
    lemma_pushed(s, e, cur, n, root, k);
    lemma_ref_flat(cur.fat());
    assert(node_flat(nd) == nd.buckets@);
    let len = nd.buckets@.len();
    assert(position(t) == b + idx);
    assert forall|i: int| 0 <= i < root.len() implies #[trigger] root[i].key_view() != k && (i < b + idx ==> bytes_lt(
        root[i].key_view(),
        k,
    )) && (i >= b + idx ==> !bytes_lt(root[i].key_view(), k)) by {
        lemma_bytes_lt_irreflexive(k);
        if b <= i < b + len {
            assert(root[i] == root.subrange(b, b + len)[i - b]);
            assert(root[i] == nd.buckets@[i - b]);
            if i >= b + idx {
                lemma_bytes_lt_asymmetric(k, root[i].key_view());
            }
        } else if i >= b + len {
            lemma_bytes_lt_asymmetric(k, root[i].key_view());
        }
    }
}

/// The descent goes on into the child where `k` belongs.
proof fn lemma_descend(
    s: Seq<NodeCursor>,
    e: NodeCursor,
    cur: NodeRef,
    c: NodeRef,
    n: NodeRef,
    root: Seq<BucketRef>,
    k: Seq<u8>,
)
    requires
        descent_inv(s, cur, n, root, k),
        ref_tree_wf(n.fat()),
        root == ref_flat(n.fat()),
        e.0 == cur,
        !entry_node(e).is_leaf_spec(),
        e.1 <= entry_node(e).buckets@.len(),
        entry_node(e).key_fits_at(e.1 as int, k),
        c.fat() == entry_node(e).children@[e.1 as int],
    ensures
        descent_inv(s.push(e), c, n, root, k),
        node_height(ref_node(c.fat())) < node_height(ref_node(cur.fat())),
{
    let t = s.push(e);
    let nd = entry_node(e);
    let idx = e.1 as int;
    let cs = nd.children@;
    let bs = nd.buckets@;
    let b = base(s, s.len() as int);
    lemma_pushed(s, e, cur, n, root, k);
    lemma_ref_flat(cur.fat());
    lemma_ref_flat(c.fat());
    crate::tree::btree::lemma_child_segment(nd, idx, k);
    lemma_node_wf_children(nd, idx);
    lemma_child_lower(nd, idx);
    let a = flat_range(cs, bs, 0, idx);
    let cf = ref_flat(cs[idx]);
    let rest = sep(bs, idx) + flat_range(cs, bs, idx + 1, cs.len() as int);
    let f = node_flat(nd);
    assert(base(t, t.len() as int) == b + a.len());
    assert(t.last() == e);
    assert forall|i: int, j: int| 0 <= i && j == i + 1 && j < t.len() implies #[trigger] steps_to(t[i], t[j]) by {
        assert(stack_wf(t));
    }
    assert(root.subrange(b + a.len(), b + a.len() + cf.len()) =~= cf) by {
        assert forall|x: int| 0 <= x < cf.len() implies #[trigger] root.subrange(b + a.len(), b + a.len() + cf.len())[x] == cf[x] by {
            assert(root.subrange(b, b + f.len())[a.len() + x] == f[a.len() + x]);
        }
    }
    lemma_sorted_subrange(root, b + a.len(), b + a.len() + cf.len());
    assert forall|i: int| 0 <= i < b + a.len() implies bytes_lt(#[trigger] root[i].key_view(), k) by {
        if i >= b {
            assert(root.subrange(b, b + f.len())[i - b] == f[i - b]);
            assert(f[i - b] == a[i - b]);
        }
    }
    assert forall|i: int| b + a.len() + cf.len() <= i < root.len() implies bytes_lt(k, #[trigger] root[i].key_view()) by {
        if i < b + f.len() {
            assert(root.subrange(b, b + f.len())[i - b] == f[i - b]);
            assert(f[i - b] == rest[i - b - a.len() - cf.len()]);
        }
    }
}

/// The node of the last entry of a well-formed stack is a well-formed node of the tree.
proof fn lemma_top_wf(s: Seq<NodeCursor>)
    requires
        stack_wf(s),
    ensures
        crate::tree::flat::node_wf(entry_node(s.last())),
        entry_node(s.last()).bucket_count == entry_node(s.last()).buckets@.len(),
        ref_tree_wf(s.last().0.fat()),
{
    lemma_embed(s, s.len() - 1);
    lemma_ref_flat(s.last().0.fat());
}

/// The first bucket of a well-formed tree: that of a leaf is its first bucket; that of an
/// inner node is the first bucket of its first child, itself a well-formed tree.
pub proof fn lemma_first_bucket(r: FatNodeRef)
    requires
        ref_tree_wf(r),
    ensures
        ref_flat(r).len() > 0,
        ref_node(r).is_leaf_spec() ==> ref_flat(r)[0] == ref_node(r).buckets@[0],
        !ref_node(r).is_leaf_spec() ==> ref_tree_wf(ref_node(r).children@[0]) && ref_flat(ref_node(r).children@[0]).len()
            > 0 && ref_flat(r)[0] == ref_flat(ref_node(r).children@[0])[0],
{
    let n = ref_node(r);
    lemma_ref_flat(r);
    lemma_bucket_in_flat(n, 0);
    if !n.is_leaf_spec() {
        let cs = n.children@;
        let bs = n.buckets@;
        let c = cs[0];
        lemma_node_wf_children(n, 0);
        lemma_flat_range_concat(cs, bs, 0, 1, cs.len() as int);
        lemma_flat_range_one(cs, bs, 0);
        let fc = ref_flat(c);
        let f = node_flat(n);
        lemma_ref_flat(c);
        lemma_bucket_in_flat(ref_node(c), 0);
        assert(f.subrange(0, fc.len() as int) =~= fc);
        lemma_sorted_subrange(f, 0, fc.len() as int);
        assert(f[0] == fc[0]);
    }
}

/// Every child of a well-formed tree is a well-formed tree.
pub proof fn lemma_child_tree_wf(r: FatNodeRef, i: int)
    requires
        ref_tree_wf(r),
        0 <= i < ref_node(r).children@.len(),
    ensures
        ref_tree_wf(ref_node(r).children@[i]),
{
    let n = ref_node(r);
    let cs = n.children@;
    let bs = n.buckets@;
    lemma_ref_flat(r);
    lemma_node_wf_children(n, i);
    lemma_flat_decompose(cs, bs, i);
    let a = flat_range(cs, bs, 0, i);
    let c = ref_flat(cs[i]);
    let f = node_flat(n);
    assert(f.subrange(a.len() as int, (a.len() + c.len()) as int) =~= c);
    lemma_sorted_subrange(f, a.len() as int, (a.len() + c.len()) as int);
}

/// A path down a well-formed tree, at a bucket, meets what `advance` asks of a stack.
pub proof fn lemma_stack_advances(s: Seq<NodeCursor>)
    requires
        stack_wf(s),
        (s.last().1 as int) < entry_node(s.last()).buckets@.len(),
    ensures
        forall|i: int| 0 <= i < s.len() ==> #[trigger] entry_node(s[i]).bucket_count == entry_node(s[i]).buckets@.len(),
        s.last().1 < u16::MAX,
        !entry_node(s.last()).is_leaf_spec() ==> (s.last().1 as int) + 1 < entry_node(s.last()).children@.len()
            && ref_tree_wf(entry_node(s.last()).children@[s.last().1 + 1]),
{
    lemma_stack_counts(s);
    lemma_top_wf(s);
    if !entry_node(s.last()).is_leaf_spec() {
        lemma_child_tree_wf(s.last().0.fat(), s.last().1 + 1);
    }
}

/// Every node of a path down a well-formed tree holds as many buckets as it counts.
pub proof fn lemma_stack_counts(s: Seq<NodeCursor>)
    requires
        stack_wf(s),
    ensures
        forall|i: int| 0 <= i < s.len() ==> #[trigger] entry_node(s[i]).bucket_count == entry_node(s[i]).buckets@.len(),
{
    assert forall|i: int| 0 <= i < s.len() implies #[trigger] entry_node(s[i]).bucket_count == entry_node(s[i]).buckets@.len() by {
        lemma_embed(s, i);
        lemma_ref_flat(s[i].0.fat());
    }
}

/// A one-entry stack past the last bucket of its node is past the last bucket of the tree.
proof fn lemma_single_end(s: Seq<NodeCursor>)
    requires
        stack_wf(s),
        s.len() == 1,
        s.last().1 == entry_node(s.last()).buckets@.len(),
    ensures
        position(s) == root_flat(s).len(),
{
    lemma_top_wf(s);
    lemma_child_end_full(entry_node(s[0]));
    lemma_ref_flat(s[0].0.fat());
}

/// A stack with a node hanging below its last entry, at the child that entry names.
pub open spec fn hanging(s: Seq<NodeCursor>, nref: NodeRef) -> bool {
    &&& s.len() >= 1
    &&& ref_tree_wf(s[0].0.fat())
    &&& forall|i: int, j: int| 0 <= i && j == i + 1 && j < s.len() ==> #[trigger] steps_to(s[i], s[j])
    &&& steps_to(s.last(), (nref, 0u16))
}

/// Moving the index of the last entry, at a leaf, to the next bucket moves the position on
/// by one.
proof fn lemma_bumped_leaf(s0: Seq<NodeCursor>, s1: Seq<NodeCursor>)
    requires
        stack_wf(s0),
        entry_node(s0.last()).is_leaf_spec(),
        (s0.last().1 as int) < entry_node(s0.last()).buckets@.len(),
        s1 == s0.drop_last().push((s0.last().0, (s0.last().1 + 1) as u16)),
    ensures
        stack_wf(s1),
        s1[0].0 == s0[0].0,
        root_flat(s1) == root_flat(s0),
        position(s1) == position(s0) + 1,
{
    let j = s0.len() - 1;
    lemma_top_wf(s0);
    assert forall|i: int, k: int| 0 <= i && k == i + 1 && k < s1.len() implies #[trigger] steps_to(s1[i], s1[k]) by {
        assert(steps_to(s0[i], s0[k]));
        if k == j {
            assert(s1[k].0 == s0[k].0);
        }
    }
    if j == 0 {
        assert(s1[0].0 == s0[0].0);
    } else {
        assert(s1[0] == s0[0]);
    }
    assert(entry_node(s1.last()) == entry_node(s0.last()));
    lemma_base_prefix(s0, s1, j);
}

/// Moving the index of the last entry, at an inner node, to the next child leaves the child
/// after its bucket hanging below it, at the position after that bucket.
proof fn lemma_bumped_inner(s0: Seq<NodeCursor>, s1: Seq<NodeCursor>, nref: NodeRef)
    requires
        stack_wf(s0),
        !entry_node(s0.last()).is_leaf_spec(),
        (s0.last().1 as int) < entry_node(s0.last()).buckets@.len(),
        s1 == s0.drop_last().push((s0.last().0, (s0.last().1 + 1) as u16)),
        nref.fat() == entry_node(s0.last()).children@[s0.last().1 + 1],
    ensures
        hanging(s1, nref),
        s1[0].0 == s0[0].0,
        base(s1, s1.len() as int) == position(s0) + 1,
{
    let j = s0.len() - 1;
    lemma_top_wf(s0);
    let nd = entry_node(s0.last());
    let idx = s0.last().1 as int;
    let cs = nd.children@;
    let bs = nd.buckets@;
    assert forall|i: int, k: int| 0 <= i && k == i + 1 && k < s1.len() implies #[trigger] steps_to(s1[i], s1[k]) by {
        assert(steps_to(s0[i], s0[k]));
        if k == j {
            assert(s1[k].0 == s0[k].0);
        }
    }
    if j == 0 {
        assert(s1[0].0 == s0[0].0);
    } else {
        assert(s1[0] == s0[0]);
    }
    assert(entry_node(s1.last()) == nd);
    lemma_base_prefix(s0, s1, j);
    lemma_flat_range_concat(cs, bs, 0, idx, idx + 1);
    lemma_flat_range_one(cs, bs, idx);
    assert(sep(bs, idx) =~= seq![bs[idx]]);
}

/// Hanging a leaf below a stack makes a stack at the first bucket of the leaf.
proof fn lemma_hang_leaf(s: Seq<NodeCursor>, e: NodeCursor)
    requires
        hanging(s, e.0),
        e.1 == 0,
        entry_node(e).is_leaf_spec(),
    ensures
        stack_wf(s.push(e)),
        s.push(e)[0] == s[0],
        position(s.push(e)) == base(s, s.len() as int),
        0 < entry_node(e).buckets@.len(),
{
    let t = s.push(e);
    assert forall|i: int, j: int| 0 <= i && j == i + 1 && j < t.len() implies #[trigger] steps_to(t[i], t[j]) by {
        if j < s.len() {
            assert(steps_to(s[i], s[j]));
        } else {
            assert(t[i] == s.last());
        }
    }
    assert(t[0] == s[0]);
    lemma_base_prefix(s, t, s.len() as int);
    lemma_embed(t, t.len() - 1);
    lemma_ref_flat(e.0.fat());
}

/// Hanging an inner node below a stack, at its first child, leaves that child hanging.
proof fn lemma_hang_inner(s: Seq<NodeCursor>, e: NodeCursor, c: NodeRef)
    requires
        hanging(s, e.0),
        e.1 == 0,
        !entry_node(e).is_leaf_spec(),
        c.fat() == entry_node(e).children@[0],
    ensures
        hanging(s.push(e), c),
        s.push(e)[0] == s[0],
        base(s.push(e), s.len() + 1int) == base(s, s.len() as int),
        node_height(ref_node(c.fat())) < node_height(entry_node(e)),
{
    let t = s.push(e);
    assert forall|i: int, j: int| 0 <= i && j == i + 1 && j < t.len() implies #[trigger] steps_to(t[i], t[j]) by {
        if j < s.len() {
            assert(steps_to(s[i], s[j]));
        } else {
            assert(t[i] == s.last());
        }
    }
    assert(t[0] == s[0]);
    lemma_base_prefix(s, t, s.len() as int);
    assert(stack_wf(t) || true);
    lemma_embed_hanging(s, e);
    lemma_child_lower(entry_node(e), 0);
    lemma_flat_range_empty(entry_node(e).children@, entry_node(e).buckets@, 0);
}

/// The node hanging below a stack is a well-formed node of the tree.
proof fn lemma_embed_hanging(s: Seq<NodeCursor>, e: NodeCursor)
    requires
        hanging(s, e.0),
    ensures
        ref_tree_wf(e.0.fat()),
        crate::tree::flat::node_wf(entry_node(e)),
{
    let t = s.push(e);
    assert forall|i: int, j: int| 0 <= i && j == i + 1 && j < t.len() implies #[trigger] steps_to(t[i], t[j]) by {
        if j < s.len() {
            assert(steps_to(s[i], s[j]));
        } else {
            assert(t[i] == s.last());
        }
    }
    assert(t[0] == s[0]);
    lemma_embed(t, t.len() - 1);
    lemma_ref_flat(e.0.fat());
}

/// A stack of nodes with an index in each: the path from the top of a tree down to a bucket.
pub struct NodeStack {
    entries: Vec<NodeCursor>,
}

impl View for NodeStack {
    type V = Seq<NodeCursor>;

    closed spec fn view(&self) -> Seq<NodeCursor> {
        self.entries@
    }
}

impl NodeStack {
    pub fn empty() -> (r: NodeStack)
        ensures
            r@ == Seq::<NodeCursor>::empty(),
    {
        NodeStack { entries: Vec::new() }
    }

    pub fn push(&mut self, node: NodeRef, child_index: u16)
        ensures
            final(self)@ == old(self)@.push((node, child_index)),
    {
        self.entries.push((node, child_index));
    }

    pub fn pop(&mut self) -> (r: Option<NodeCursor>)
        ensures
            old(self)@.len() == 0 ==> r is None && final(self)@ == old(self)@,
            old(self)@.len() > 0 ==> r == Some(old(self)@.last()) && final(self)@ == old(self)@.drop_last(),
    {
        self.entries.pop()
    }

    pub fn peek(&self) -> (r: Option<&NodeCursor>)
        ensures
            self@.len() == 0 ==> r is None,
            self@.len() > 0 ==> r == Some(&self@.last()),
    {
        if self.is_empty() {
            None
        } else {
            Some(&self.entries[self.entries.len() - 1])
        }
    }

    pub fn is_empty(&self) -> (r: bool)
        ensures
            r == (self@.len() == 0),
    {
        self.entries.len() == 0
    }

    /// The node of the first entry, or the given node if there is none.
    pub fn head_or(&self, head_maybe: &NodeRef) -> (r: NodeRef)
        ensures
            self@.len() == 0 ==> r == *head_maybe,
            self@.len() > 0 ==> r == self@[0].0,
    {
        if self.entries.len() == 0 {
            head_maybe.clone()
        } else {
            self.entries[0].0.clone()
        }
    }

    /// The stack from the top node `n` down to key `k`, and whether the tree holds `k`. When
    /// it does, the stack ends at its bucket; otherwise it ends at a leaf, at the first bucket
    /// whose key sorts after `k`, which may be past the last bucket of the leaf.
    pub fn construct(n: NodeRef, k: &[u8]) -> (r: (NodeStack, bool))
        requires
            ref_tree_wf(n.fat()),
        ensures
            stack_wf(r.0@),
            r.0@[0].0 == n,
            lower_bound(ref_flat(n.fat()), k@, position(r.0@)),
            r.1 == contents(ref_flat(n.fat())).dom().contains(k@),
            r.1 ==> (r.0@.last().1 as int) < entry_node(r.0@.last()).buckets@.len(),
            !r.1 ==> entry_node(r.0@.last()).is_leaf_spec(),
    {
        let ghost root = ref_flat(n.fat());
        let mut stack = NodeStack::empty();
        let mut cur = n.clone();
        let found;
        proof {
            lemma_descent_start(n, k@);
        }
        loop
            invariant_except_break
                descent_inv(stack@, cur, n, root, k@),
            invariant
                root == ref_flat(n.fat()),
                ref_tree_wf(n.fat()),
                sorted_buckets(root),
            ensures
                stack_wf(stack@),
                stack@[0].0 == n,
                lower_bound(root, k@, position(stack@)),
                found == contents(root).dom().contains(k@),
                found ==> (stack@.last().1 as int) < entry_node(stack@.last()).buckets@.len(),
                !found ==> entry_node(stack@.last()).is_leaf_spec(),
            decreases node_height(ref_node(cur.fat())),
        {
            let ghost old_stack = stack@;
            let ghost old_cur = cur;
            proof {
                lemma_ref_flat(cur.fat());
            }
            let node = cur.node();
            match node.find(k) {
                Ok(idx) => {
                    stack.push(cur.clone(), idx);
                    proof {
                        lemma_pushed(old_stack, stack@.last(), old_cur, n, root, k@);
                        lemma_current(stack@);
                        lemma_found_lower_bound(root, k@, position(stack@));
                    }
                    found = true;
                    break;
                },
                Err(idx) => {
                    let leaf = node.is_leaf();
                    let next = if leaf {
                        None
                    } else {
                        Some(node.child_ref(idx).noderef())
                    };
                    stack.push(cur.clone(), idx);
                    proof {
                        lemma_pushed(old_stack, stack@.last(), old_cur, n, root, k@);
                    }
                    match next {
                        None => {
                            proof {
                                lemma_leaf_lower_bound(old_stack, stack@.last(), old_cur, n, root, k@);
                            }
                            found = false;
                            break;
                        },
                        Some(c) => {
                            proof {
                                lemma_descend(old_stack, stack@.last(), old_cur, c, n, root, k@);
                            }
                            cur = c;
                        },
                    }
                },
            }
        }
        (stack, found)
    }

    /// Peeks mutably at the top of the stack.
    pub fn peek_mut(&mut self) -> (r: Option<&mut NodeCursor>)
        ensures
            old(self)@.len() == 0 ==> r is None && final(self)@ == old(self)@,
            old(self)@.len() > 0 ==> (r matches Some(m) && *m == old(self)@.last() && final(self)@ == old(self)@.update(
                old(self)@.len() - 1,
                *final(m),
            )),
    {
        if self.entries.len() == 0 {
            None
        } else {
            let idx = self.entries.len() - 1;
            Some(&mut self.entries[idx])
        }
    }

    /// Moves the index of the last entry on by one.
    fn bump_top(&mut self)
        requires
            old(self)@.len() > 0,
            old(self)@.last().1 < u16::MAX,
        ensures
            final(self)@ == old(self)@.drop_last().push((old(self)@.last().0, (old(self)@.last().1 + 1) as u16)),
    {
        let (node, idx) = self.entries.pop().unwrap();
        self.entries.push((node, idx + 1));
    }

    /// Goes up until the last entry names a bucket, and returns that bucket; returns `None`
    /// when the stack runs out. Entries whose index is past
    /// the buckets of their node are popped; the first that names a bucket stays on top. On a
    /// path down a tree the position stays the same, and `None` means the walk is past the
    /// last bucket of the tree.
    pub fn ascend_maybe(&mut self) -> (r: Option<BucketRef>)
        requires
            old(self)@.len() > 0,
            forall|i: int| 0 <= i < old(self)@.len() ==> #[trigger] entry_node(old(self)@[i]).bucket_count
                == entry_node(old(self)@[i]).buckets@.len(),
        ensures
            final(self)@.len() <= old(self)@.len(),
            final(self)@ == old(self)@.take(final(self)@.len() as int),
            forall|i: int|
                final(self)@.len() <= i < old(self)@.len() ==> (#[trigger] old(self)@[i]).1 >= entry_node(
                    old(self)@[i],
                ).buckets@.len(),
            (r is Some) == (final(self)@.len() > 0),
            final(self)@.len() > 0 ==> (final(self)@.last().1 as int) < entry_node(final(self)@.last()).buckets@.len()
                && r == Some(entry_node(final(self)@.last()).buckets@[final(self)@.last().1 as int]),
            (old(self)@.last().1 as int) < entry_node(old(self)@.last()).buckets@.len() ==> final(self)@ == old(
                self,
            )@,
            stack_wf(old(self)@) ==> {
                &&& (r is Some) == (position(old(self)@) < root_flat(old(self)@).len())
                &&& r matches Some(b) ==> (stack_wf(final(self)@) && final(self)@[0].0 == old(self)@[0].0 && position(
                    final(self)@,
                ) == position(old(self)@) && 0 <= position(old(self)@) && b == root_flat(old(self)@)[position(
                    old(self)@,
                )])
            },
    {
        let ghost s0 = self@;
        let ghost wf0 = stack_wf(s0);
        let n = self.entries.len();
        let (top_node, top_idx) = (&self.entries[n - 1].0, self.entries[n - 1].1);
        if top_idx < top_node.node().bucket_count() {
            let b = top_node.node().bucket_ref(top_idx).clone();
            proof {
                assert(self@.take(self@.len() as int) =~= self@);
                if wf0 {
                    lemma_current(self@);
                }
            }
            return Some(b);
        }
        proof {
            if wf0 {
                lemma_top_wf(self@);
            }
            assert(self@.take(self@.len() as int) =~= self@);
        }
        loop
            invariant
                s0 == old(self)@,
                1 <= self@.len() <= s0.len(),
                self@ == s0.take(self@.len() as int),
                forall|i: int| self@.len() - 1 <= i < s0.len() ==> (#[trigger] s0[i]).1 >= entry_node(s0[i]).buckets@.len(),
                forall|i: int| 0 <= i < s0.len() ==> #[trigger] entry_node(s0[i]).bucket_count == entry_node(s0[i]).buckets@.len(),
                wf0 == stack_wf(s0),
                wf0 ==> {
                    &&& stack_wf(self@)
                    &&& self@[0].0 == s0[0].0
                    &&& position(self@) == position(s0)
                    &&& self@.last().1 == entry_node(self@.last()).buckets@.len()
                },
            decreases self@.len(),
        {
            let ghost s1 = self@;
            proof {
                if wf0 {
                    lemma_top_wf(self@);
                    if self@.len() >= 2 {
                        lemma_pop_end(self@);
                    } else {
                        lemma_single_end(self@);
                    }
                }
            }
            self.pop();
            proof {
                assert(self@ =~= s0.take(self@.len() as int));
            }
            if self.is_empty() {
                return None;
            }
            let ghost k = self@.len() - 1;
            proof {
                assert(self@[k] == s0[k]);
                if wf0 {
                    lemma_top_wf(self@);
                }
            }
            let n = self.entries.len();
            let (top_node, top_idx) = (&self.entries[n - 1].0, self.entries[n - 1].1);
            if top_idx < top_node.node().bucket_count() {
                let b = top_node.node().bucket_ref(top_idx).clone();
                proof {
                    if wf0 {
                        lemma_current(self@);
                    }
                }
                return Some(b);
            }
            proof {
                if wf0 {
                    assert(self@.last().1 <= entry_node(self@.last()).buckets@.len());
                }
            }
        }
    }

    /// Goes down to the first bucket after the one the last entry names, which is in an inner
    /// node: it moves that entry on to the next bucket and pushes the leftmost path down the
    /// child before it, ending at a leaf, whose first bucket it returns. On a path down a tree
    /// that is the next bucket of the tree.
    fn descend(&mut self) -> (r: BucketRef)
        requires
            old(self)@.len() > 0,
            !entry_node(old(self)@.last()).is_leaf_spec(),
            old(self)@.last().1 < u16::MAX,
            (old(self)@.last().1 as int) + 1 < entry_node(old(self)@.last()).children@.len(),
            ref_tree_wf(entry_node(old(self)@.last()).children@[old(self)@.last().1 + 1]),
        ensures
            final(self)@.len() > old(self)@.len(),
            final(self)@.take(old(self)@.len() - 1) == old(self)@.drop_last(),
            final(self)@[old(self)@.len() - 1] == (old(self)@.last().0, (old(self)@.last().1 + 1) as u16),
            entry_node(final(self)@.last()).is_leaf_spec(),
            final(self)@.last().1 == 0,
            0 < entry_node(final(self)@.last()).buckets@.len(),
            r == entry_node(final(self)@.last()).buckets@[0],
            r == ref_flat(entry_node(old(self)@.last()).children@[old(self)@.last().1 + 1])[0],
            stack_wf(old(self)@) && (old(self)@.last().1 as int) < entry_node(old(self)@.last()).buckets@.len() ==> {
                &&& stack_wf(final(self)@)
                &&& final(self)@[0].0 == old(self)@[0].0
                &&& position(final(self)@) == position(old(self)@) + 1
                &&& (final(self)@.last().1 as int) < entry_node(final(self)@.last()).buckets@.len()
                &&& r == root_flat(old(self)@)[position(final(self)@)]
            },
    {
        let ghost s0 = self@;
        let ghost wf0 = stack_wf(s0) && (s0.last().1 as int) < entry_node(s0.last()).buckets@.len();
        proof {
            if wf0 {
                lemma_top_wf(self@);
            }
        }
        let n = self.entries.len();
        let idx = self.entries[n - 1].1;
        let mut nref = self.entries[n - 1].0.node().child_ref(idx + 1).noderef();
        let ghost target = ref_flat(entry_node(s0.last()).children@[s0.last().1 + 1])[0];
        self.bump_top();
        let ghost s1 = self@;
        proof {
            if wf0 {
                lemma_bumped_inner(s0, self@, nref);
            }
            lemma_first_bucket(nref.fat());
            assert(self@.take(s0.len() as int) =~= s1);
        }
        loop
            invariant
                s0 == old(self)@,
                s1 == s0.drop_last().push((s0.last().0, (s0.last().1 + 1) as u16)),
                self@.len() >= s0.len(),
                self@.take(s0.len() as int) == s1,
                ref_tree_wf(nref.fat()),
                ref_flat(nref.fat()).len() > 0,
                ref_flat(nref.fat())[0] == target,
                target == ref_flat(entry_node(s0.last()).children@[s0.last().1 + 1])[0],
                wf0 == (stack_wf(s0) && (s0.last().1 as int) < entry_node(s0.last()).buckets@.len()),
                wf0 ==> {
                    &&& hanging(self@, nref)
                    &&& self@[0].0 == s0[0].0
                    &&& base(self@, self@.len() as int) == position(s0) + 1
                },
            decreases node_height(ref_node(nref.fat())),
        {
            proof {
                lemma_ref_flat(nref.fat());
                lemma_first_bucket(nref.fat());
                if wf0 {
                    lemma_embed_hanging(self@, (nref, 0u16));
                }
            }
            if nref.node().is_leaf() {
                let b = nref.node().bucket_ref(0).clone();
                let ghost sa = self@;
                self.push(nref, 0);
                proof {
                    if wf0 {
                        lemma_hang_leaf(sa, self@.last());
                        lemma_current(self@);
                    }
                    assert(self@.take(s0.len() as int) =~= s1);
                    assert(self@.take(s0.len() - 1) =~= s0.drop_last());
                    assert(self@[s0.len() - 1] == s1[s0.len() - 1]);
                }
                return b;
            }
            let nref2 = nref.node().child_ref(0).noderef();
            let ghost sa = self@;
            self.push(nref, 0);
            proof {
                if wf0 {
                    lemma_hang_inner(sa, self@.last(), nref2);
                }
                lemma_child_lower(ref_node(nref.fat()), 0);
                assert(self@.take(s0.len() as int) =~= s1);
            }
            nref = nref2;
        }
    }

    /// Moves to the bucket after the one the stack is at, and returns it. At a leaf it moves
    /// the last entry on by one and goes up as `ascend_maybe` does; at an inner node it goes
    /// down as `descend` does. On a path down a tree it returns the next bucket of the tree,
    /// or `None`, with the stack emptied, when the stack was at the last one.
    pub fn advance(&mut self) -> (r: Option<BucketRef>)
        requires
            old(self)@.len() > 0,
            forall|i: int| 0 <= i < old(self)@.len() ==> #[trigger] entry_node(old(self)@[i]).bucket_count
                == entry_node(old(self)@[i]).buckets@.len(),
            old(self)@.last().1 < u16::MAX,
            !entry_node(old(self)@.last()).is_leaf_spec() ==> (old(self)@.last().1 as int) + 1 < entry_node(
                old(self)@.last(),
            ).children@.len() && ref_tree_wf(entry_node(old(self)@.last()).children@[old(self)@.last().1 + 1]),
        ensures
            entry_node(old(self)@.last()).is_leaf_spec() ==> {
                let sb = old(self)@.drop_last().push((old(self)@.last().0, (old(self)@.last().1 + 1) as u16));
                &&& final(self)@.len() <= sb.len()
                &&& final(self)@ == sb.take(final(self)@.len() as int)
                &&& forall|i: int|
                    final(self)@.len() <= i < sb.len() ==> (#[trigger] sb[i]).1 >= entry_node(sb[i]).buckets@.len()
                &&& (r is Some) == (final(self)@.len() > 0)
                &&& final(self)@.len() > 0 ==> (final(self)@.last().1 as int) < entry_node(final(self)@.last()).buckets@.len()
                    && r == Some(entry_node(final(self)@.last()).buckets@[final(self)@.last().1 as int])
            },
            !entry_node(old(self)@.last()).is_leaf_spec() ==> {
                &&& r == Some(ref_flat(entry_node(old(self)@.last()).children@[old(self)@.last().1 + 1])[0])
                &&& final(self)@.len() > old(self)@.len()
                &&& final(self)@.take(old(self)@.len() - 1) == old(self)@.drop_last()
                &&& final(self)@[old(self)@.len() - 1] == (old(self)@.last().0, (old(self)@.last().1 + 1) as u16)
                &&& entry_node(final(self)@.last()).is_leaf_spec()
                &&& final(self)@.last().1 == 0
            },
            stack_wf(old(self)@) && (old(self)@.last().1 as int) < entry_node(old(self)@.last()).buckets@.len() ==> {
                &&& (r is Some) == (position(old(self)@) + 1 < root_flat(old(self)@).len())
                &&& r matches Some(b) ==> (stack_wf(final(self)@) && final(self)@[0].0 == old(self)@[0].0 && position(
                    final(self)@,
                ) == position(old(self)@) + 1 && (final(self)@.last().1 as int) < entry_node(final(self)@.last()).buckets@.len()
                    && 0 <= position(final(self)@) && b == root_flat(old(self)@)[position(final(self)@)])
                &&& r matches Some(b) ==> bytes_lt(root_flat(old(self)@)[position(old(self)@)].key_view(), b.key_view())
                &&& r is None ==> final(self)@.len() == 0
            },
    {
        let ghost s0 = self@;
        let ghost wf0 = stack_wf(s0) && (s0.last().1 as int) < entry_node(s0.last()).buckets@.len();
        proof {
            if wf0 {
                lemma_top_wf(self@);
                lemma_current(self@);
            }
        }
        let n = self.entries.len();
        let is_leaf = self.entries[n - 1].0.node().is_leaf();
        if is_leaf {
            self.bump_top();
            proof {
                if wf0 {
                    lemma_bumped_leaf(s0, self@);
                }
                assert forall|i: int| 0 <= i < self@.len() implies #[trigger] entry_node(self@[i]).bucket_count
                    == entry_node(self@[i]).buckets@.len() by {
                    if i < s0.len() - 1 {
                        assert(self@[i] == s0[i]);
                    } else {
                        assert(entry_node(self@[i]) == entry_node(s0[i]));
                    }
                }
            }
            self.ascend_maybe()
        } else {
            let b = self.descend();
            proof {
                if wf0 {
                    lemma_current(self@);
                }
            }
            Some(b)
        }
    }
}

} // verus!
