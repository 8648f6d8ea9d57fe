//! An in-memory, modifiable node.
use vstd::prelude::*;
use crate::data::order::bytes_lt;
use crate::data::order::compare_keys;
use crate::data::order::KeyOrder;
use crate::data::order::lemma_bytes_lt_transitive;
use crate::data::rcbytes::ByteRc;
use crate::tree::bucketref::BucketRef;
use crate::tree::flat::ref_flat;
use crate::tree::flat::node_flat;
use crate::tree::flat::flat_range;
use crate::tree::flat::sep;
use crate::tree::flat::local_wf;
use crate::tree::flat::sorted_buckets;
use crate::tree::flat::node_wf;
use crate::tree::flat::ref_wf;
use crate::tree::flat::inserted_at;
use crate::tree::flat::lemma_node_wf_children;
use crate::tree::flat::lemma_children_wf_intro;
use crate::tree::flat::lemma_flat_range_concat;
use crate::tree::flat::lemma_flat_range_one;
use crate::tree::flat::lemma_flat_range_empty;
use crate::tree::flat::lemma_flat_split;
use crate::tree::flat::lemma_flat_insert;
use crate::tree::flat::lemma_flat_decompose;
use crate::tree::flat::lemma_sorted_subrange;
use crate::tree::flat::lemma_inserted_sorted;
use crate::tree::noderef::FatNodeRef;
use crate::tree::noderef::HotHandle;
use std::rc::Rc;
use crate::counter::Counter;
use crate::tree::flat::frozen;
use crate::tree::flat::node_height;
use crate::tree::flat::lemma_child_lower;
use crate::tree::freeze::immuted_seq;
use crate::tree::freeze::lemma_immuted_keys;
use crate::tree::freeze::lemma_immuted_range;
use crate::tree::freeze::lemma_node_stamped;
use crate::tree::freeze::bucket_stamp_le;
use crate::tree::freeze::node_stamped;
use crate::tree::freeze::ref_stamped;

verus! {

/// The max number of children of a node; a node holds at most one bucket less.
pub const NODE_CAPACITY: u16 = 16;

/// A simple optional pointer.
pub struct MemPtr<T> {
    v: Option<T>,
}

impl<T> View for MemPtr<T> {
    type V = Option<T>;

    closed spec fn view(&self) -> Option<T> {
        self.v
    }
}

impl<T> MemPtr<T> {
    pub fn empty() -> (r: Self)
        ensures
            r@ is None,
    {
        MemPtr { v: None }
    }

    pub fn is_empty(&self) -> (r: bool)
        ensures
            r == self@ is None,
    {
        self.v.is_none()
    }

    pub fn wrap(t: T) -> (r: Self)
        ensures
            r@ == Some(t),
    {
        MemPtr { v: Some(t) }
    }

    /// The pointee. The pointer must not be empty.
    pub fn unwrap(self) -> (r: T)
        requires
            self@ is Some,
        ensures
            Some(r) == self@,
    {
        self.v.unwrap()
    }
}

/// The result of inserting into a MemNode. Occasionally, nodes need to "split"
/// into separate nodes.
pub enum InsertResult {
    /// The node had room.
    Done,
    Flushed(BucketRef, MemNode),
}

/// The buckets of an optional child.
pub open spec fn opt_flat(rc: Option<FatNodeRef>) -> Seq<BucketRef> {
    match rc {
        Some(c) => ref_flat(c),
        None => Seq::empty(),
    }
}

/// The buckets a node and the result of inserting into it hold together.
pub open spec fn insert_result_flat(n: MemNode, r: InsertResult) -> Seq<BucketRef> {
    match r {
        InsertResult::Done => node_flat(n),
        InsertResult::Flushed(b, n2) => node_flat(n) + seq![b] + node_flat(n2),
    }
}

/// A node of the tree: between 1 and `NODE_CAPACITY - 1` buckets in increasing key order and,
/// unless it is a leaf, one child more than it has buckets.
pub struct MemNode {
    pub bucket_count: u16,
    pub buckets: Vec<BucketRef>,
    pub children: Vec<FatNodeRef>,
}

proof fn lemma_node_wf_all_children(n: MemNode)
    requires
        node_wf(n),
    ensures
        forall|i: int| 0 <= i < n.children@.len() ==> ref_wf(#[trigger] n.children@[i]),
{
    assert forall|i: int| 0 <= i < n.children@.len() implies ref_wf(#[trigger] n.children@[i]) by {
        lemma_node_wf_children(n, i);
    }
}

proof fn lemma_child_end_bound(n: MemNode, idx: int)
    requires
        local_wf(n),
        0 <= idx <= n.buckets@.len(),
    ensures
        0 <= n.child_end(idx) <= node_flat(n).len(),
{
    if !n.is_leaf_spec() {
        lemma_flat_decompose(n.children@, n.buckets@, idx);
    }
}

/// Inserting a bucket, and perhaps a child after child `idx`, that are stamped no later than
/// `t` into a node stamped no later than `t`.
proof fn lemma_stamped_after_insert(
    old_node: MemNode,
    new_node: MemNode,
    idx: int,
    b: BucketRef,
    rc: Option<FatNodeRef>,
    t: int,
)
    requires
        node_stamped(old_node, t),
        bucket_stamp_le(b, t),
        rc matches Some(c) ==> ref_stamped(c, t),
        0 <= idx <= old_node.buckets@.len(),
        rc is Some ==> idx + 1 <= old_node.children@.len(),
        new_node.buckets@ == old_node.buckets@.insert(idx, b),
        new_node.children@ == match rc {
            Some(c) => old_node.children@.insert(idx + 1, c),
            None => old_node.children@,
        },
    ensures
        node_stamped(new_node, t),
{
    lemma_node_stamped(old_node, t);
    lemma_node_stamped(new_node, t);
    assert forall|i: int| 0 <= i < new_node.buckets@.len() implies bucket_stamp_le(#[trigger] new_node.buckets@[i], t) by {
        if i < idx {
            assert(new_node.buckets@[i] == old_node.buckets@[i]);
        } else if i > idx {
            assert(new_node.buckets@[i] == old_node.buckets@[i - 1]);
        }
    }
    assert forall|i: int| 0 <= i < new_node.children@.len() implies ref_stamped(#[trigger] new_node.children@[i], t) by {
        if rc is Some {
            if i < idx + 1 {
                assert(new_node.children@[i] == old_node.children@[i]);
            } else if i > idx + 1 {
                assert(new_node.children@[i] == old_node.children@[i - 1]);
            }
        }
    }
}

/// The halves of a split node stamped no later than `t`, and the bucket between them.
proof fn lemma_stamped_split(old_node: MemNode, left: MemNode, right: MemNode, t: int)
    requires
        node_stamped(old_node, t),
        old_node.buckets@.len() == 15,
        old_node.children@.len() == 0 || old_node.children@.len() == 16,
        left.buckets@ == old_node.buckets@.take(7),
        right.buckets@ == old_node.buckets@.skip(8),
        old_node.is_leaf_spec() ==> left.is_leaf_spec() && right.is_leaf_spec(),
        !old_node.is_leaf_spec() ==> left.children@ == old_node.children@.take(8) && right.children@
            == old_node.children@.skip(8),
    ensures
        node_stamped(left, t),
        node_stamped(right, t),
        bucket_stamp_le(old_node.buckets@[7], t),
{
    lemma_node_stamped(old_node, t);
    lemma_node_stamped(left, t);
    lemma_node_stamped(right, t);
    assert forall|i: int| 0 <= i < right.buckets@.len() implies bucket_stamp_le(#[trigger] right.buckets@[i], t) by {
        assert(right.buckets@[i] == old_node.buckets@[i + 8]);
    }
    if !old_node.is_leaf_spec() {
        assert forall|i: int| 0 <= i < right.children@.len() implies ref_stamped(#[trigger] right.children@[i], t) by {
            assert(right.children@[i] == old_node.children@[i + 8]);
        }
    }
}

/// The children of a node after `right_child`, if any, is put just after child `idx`.
pub open spec fn children_after_insert(cs: Seq<FatNodeRef>, idx: int, right_child: Option<FatNodeRef>) -> Seq<FatNodeRef> {
    match right_child {
        Some(c) => cs.insert(idx + 1, c),
        None => cs,
    }
}

/// Inserting into the right half of a split full node: the halves and the middle bucket
/// make up the node's buckets with the new one inserted, and likewise its children.
proof fn lemma_split_insert_right(
    ob: Seq<BucketRef>,
    oc: Seq<FatNodeRef>,
    lb: Seq<BucketRef>,
    rb: Seq<BucketRef>,
    lc: Seq<FatNodeRef>,
    rc: Seq<FatNodeRef>,
    idx: int,
    b: BucketRef,
    right_child: Option<FatNodeRef>,
)
    requires
        ob.len() == 15,
        8 <= idx <= 15,
        lb == ob.take(7),
        rb == ob.skip(8).insert(idx - 8, b),
        (oc.len() == 0 && lc.len() == 0 && rc.len() == 0 && right_child is None) || (oc.len() == 16 && lc
            == oc.take(8) && rc == children_after_insert(oc.skip(8), idx - 8, right_child)),
    ensures
        lb + seq![ob[7]] + rb == ob.insert(idx, b),
        lc + rc == children_after_insert(oc, idx, right_child),
{
    assert(lb + seq![ob[7]] + rb =~= ob.insert(idx, b));
    assert(lc + rc =~= children_after_insert(oc, idx, right_child));
}

/// Inserting into the left half of a split full node: the halves and the middle bucket
/// make up the node's buckets with the new one inserted, and likewise its children.
proof fn lemma_split_insert_left(
    ob: Seq<BucketRef>,
    oc: Seq<FatNodeRef>,
    lb: Seq<BucketRef>,
    rb: Seq<BucketRef>,
    lc: Seq<FatNodeRef>,
    rc: Seq<FatNodeRef>,
    idx: int,
    b: BucketRef,
    right_child: Option<FatNodeRef>,
)
    requires
        ob.len() == 15,
        0 <= idx <= 7,
        lb == ob.take(7).insert(idx, b),
        rb == ob.skip(8),
        (oc.len() == 0 && lc.len() == 0 && rc.len() == 0 && right_child is None) || (oc.len() == 16 && lc
            == children_after_insert(oc.take(8), idx, right_child) && rc == oc.skip(8)),
    ensures
        lb + seq![ob[7]] + rb == ob.insert(idx, b),
        lc + rc == children_after_insert(oc, idx, right_child),
{
    assert(lb + seq![ob[7]] + rb =~= ob.insert(idx, b));
    assert(lc + rc =~= children_after_insert(oc, idx, right_child));
}

/// The bytes of an optional byte slice.
pub open spec fn opt_bytes(o: Option<&[u8]>) -> Option<Seq<u8>> {
    match o {
        Some(s) => Some(s@),
        None => None,
    }
}

/// What `check_invariants_helper` checks of a node: its bucket count; that its keys are in
/// strictly ascending order; that its first and last keys lie within the
/// given bounds; that an inner node has buckets and one child more than it has buckets; and,
/// when asked, the same of every child, within the keys around it.
pub open spec fn node_checks(n: MemNode, lo: Option<Seq<u8>>, hi: Option<Seq<u8>>, recurse: bool) -> bool
    decreases n, 0int,
{
    let bs = n.buckets@;
    &&& n.bucket_count == bs.len()
    &&& bs.len() <= 15
    &&& forall|i: int, j: int| 0 <= i && j == i + 1 && j < bs.len() ==> bytes_lt(#[trigger] bs[i].key_view(), #[trigger] bs[j].key_view())
    &&& lo matches Some(l) ==> bs.len() > 0 && bytes_lt(l, bs[0].key_view())
    &&& hi matches Some(h) ==> bs.len() > 0 && bytes_lt(bs.last().key_view(), h)
    &&& n.children@.len() == 0 || (bs.len() >= 1 && n.children@.len() == bs.len() + 1)
    &&& recurse ==> children_checks(n.children@, bs, n.children@.len() as int)
}

/// The first `j` children pass the checks, each within the keys around it.
pub open spec fn children_checks(cs: Seq<FatNodeRef>, bs: Seq<BucketRef>, j: int) -> bool
    decreases cs, j,
{
    if 0 < j <= cs.len() {
        children_checks(cs, bs, j - 1) && ref_checks(cs[j - 1], child_lower(bs, j - 1), child_upper(bs, j - 1))
    } else {
        true
    }
}

/// The node a pointer points to passes the checks, recursively.
pub open spec fn ref_checks(r: FatNodeRef, lo: Option<Seq<u8>>, hi: Option<Seq<u8>>) -> bool
    decreases r, 0int,
{
    match r {
        FatNodeRef::Transient(rc) => node_checks(*rc, lo, hi, true),
        FatNodeRef::Persistent(p) => node_checks(p.node, lo, hi, true),
    }
}

/// The key before child `i`: none for the first child.
pub open spec fn child_lower(bs: Seq<BucketRef>, i: int) -> Option<Seq<u8>> {
    if i == 0 {
        None
    } else {
        Some(bs[i - 1].key_view())
    }
}

/// The key after child `i`: none for the last child.
pub open spec fn child_upper(bs: Seq<BucketRef>, i: int) -> Option<Seq<u8>> {
    if i >= bs.len() {
        None
    } else {
        Some(bs[i].key_view())
    }
}

proof fn lemma_children_checks_prefix(cs: Seq<FatNodeRef>, bs: Seq<BucketRef>, j: int, k: int)
    requires
        0 <= j <= k <= cs.len(),
        children_checks(cs, bs, k),
    ensures
        children_checks(cs, bs, j),
    decreases k - j,
{
    if j < k {
        lemma_children_checks_prefix(cs, bs, j, k - 1);
    }
}

pub proof fn lemma_children_checks(cs: Seq<FatNodeRef>, bs: Seq<BucketRef>, j: int)
    requires
        0 <= j < cs.len(),
    ensures
        children_checks(cs, bs, j + 1) == (children_checks(cs, bs, j) && ref_checks(
            cs[j],
            child_lower(bs, j),
            child_upper(bs, j),
        )),
{
}

/// The buckets and shape of a node after inserting a bucket at `idx` and, for an inner
/// node, a child after child `idx`.
proof fn lemma_inserted_unchecked(old_node: MemNode, new_node: MemNode, idx: int, b: BucketRef, rc: Option<FatNodeRef>)
    requires
        node_wf(old_node),
        old_node.bucket_count < 15,
        0 <= idx <= old_node.bucket_count,
        old_node.is_leaf_spec() == rc is None,
        rc matches Some(c) ==> ref_wf(c),
        old_node.key_fits_at(idx, b.key_view()),
        new_node.bucket_count == old_node.bucket_count + 1,
        new_node.buckets@ == old_node.buckets@.insert(idx, b),
        new_node.children@ == match rc {
            Some(c) => old_node.children@.insert(idx + 1, c),
            None => old_node.children@,
        },
    ensures
        node_wf(new_node),
        node_flat(new_node) == node_flat(old_node).take(old_node.child_end(idx)) + seq![b] + opt_flat(rc)
            + node_flat(old_node).skip(old_node.child_end(idx)),
{
    let bs = old_node.buckets@;
    lemma_node_wf_all_children(old_node);
    match rc {
        Some(c) => {
            let cs = old_node.children@;
            let n = cs.len() as int;
            assert(cs.update(idx, cs[idx]) =~= cs);
            lemma_flat_insert(cs, bs, idx, cs[idx], b, c);
            lemma_flat_decompose(cs, bs, idx);
            let pre = flat_range(cs, bs, 0, idx) + ref_flat(cs[idx]);
            let post = sep(bs, idx) + flat_range(cs, bs, idx + 1, n);
            let f = node_flat(old_node);
            assert(f =~= pre + post);
            assert(f.take(pre.len() as int) =~= pre);
            assert(f.skip(pre.len() as int) =~= post);
            assert(cs.update(idx, cs[idx]).insert(idx + 1, c) =~= new_node.children@);
            assert(node_flat(new_node) =~= pre + seq![b] + ref_flat(c) + post);
            assert forall|i: int| 0 <= i < new_node.children@.len() implies ref_wf(#[trigger] new_node.children@[i]) by {
                if i <= idx {
                    assert(new_node.children@[i] == cs[i]);
                } else if i > idx + 1 {
                    assert(new_node.children@[i] == cs[i - 1]);
                }
            }
            lemma_children_wf_intro(new_node.children@, new_node.children@.len() as int);
        },
        None => {
            assert(new_node.buckets@ =~= bs.take(idx) + seq![b] + bs.skip(idx));
        },
    }
    assert(inserted_at(bs, new_node.buckets@, b, idx));
    lemma_inserted_sorted(bs, new_node.buckets@, b, idx);
}

impl MemNode {
    pub open spec fn is_leaf_spec(&self) -> bool {
        self.children@.len() == 0
    }

    /// The position in the node's buckets just after the buckets of child `idx` (for a leaf,
    /// just before bucket `idx`).
    pub open spec fn child_end(&self, idx: int) -> int {
        if self.is_leaf_spec() {
            idx
        } else {
            (flat_range(self.children@, self.buckets@, 0, idx).len() + ref_flat(self.children@[idx]).len()) as int
        }
    }

    /// `k` sorts after the keys of buckets before `idx` and before the keys of the others.
    pub open spec fn key_fits_at(&self, idx: int, k: Seq<u8>) -> bool {
        &&& forall|j: int| 0 <= j < idx ==> bytes_lt(#[trigger] self.buckets@[j].key_view(), k)
        &&& forall|j: int| idx <= j < self.buckets@.len() ==> bytes_lt(k, #[trigger] self.buckets@[j].key_view())
    }

    /* Constructors */
    /// A node holding nothing; not a valid node of a tree until buckets are added.
    pub fn empty() -> (r: MemNode)
        ensures
            r.bucket_count == 0,
            r.buckets@.len() == 0,
            r.children@.len() == 0,
    {
        MemNode { bucket_count: 0, buckets: Vec::new(), children: Vec::new() }
    }

    /// A leaf holding one bucket.
    pub fn new_from_one(b: BucketRef) -> (r: MemNode)
        ensures
            node_wf(r),
            r.is_leaf_spec(),
            node_flat(r) == seq![b],
            r.buckets@ == seq![b],
    {
        let mut buckets = Vec::new();
        buckets.push(b);
        let r = MemNode { bucket_count: 1, buckets, children: Vec::new() };
        proof {
            assert(r.buckets@ =~= seq![b]);
        }
        r
    }

    /// A node with one bucket between two children.
    pub fn new_from_two(n1: FatNodeRef, b1: BucketRef, n2: FatNodeRef) -> (r: MemNode)
        requires
            ref_wf(n1),
            ref_wf(n2),
        ensures
            node_wf(r),
            !r.is_leaf_spec(),
            node_flat(r) == ref_flat(n1) + seq![b1] + ref_flat(n2),
            r.buckets@ == seq![b1],
            r.children@ == seq![n1, n2],
    {
        let mut buckets = Vec::new();
        buckets.push(b1);
        let mut children = Vec::new();
        children.push(n1);
        children.push(n2);
        let r = MemNode { bucket_count: 1, buckets, children };
        proof {
            let cs = r.children@;
            let bs = r.buckets@;
            assert(cs =~= seq![n1, n2]);
            assert(bs =~= seq![b1]);
            lemma_flat_range_concat(cs, bs, 0, 1, 2);
            lemma_flat_range_one(cs, bs, 0);
            lemma_flat_range_one(cs, bs, 1);
            lemma_flat_range_empty(cs, bs, 0);
            assert(sep(bs, 0) =~= seq![b1]);
            assert(sep(bs, 1) =~= Seq::<BucketRef>::empty());
            assert(node_flat(r) =~= ref_flat(n1) + seq![b1] + ref_flat(n2));
            lemma_children_wf_intro(cs, 2);
        }
        r
    }

    /// Creates a copy of this MemNode, sharing its buckets and its children, which must all
    /// be persistent: a hot child cannot be shared.
    pub fn fork(&self) -> (r: MemNode)
        requires
            forall|i: int| 0 <= i < self.children@.len() ==> #[trigger] self.children@[i] is Persistent,
        ensures
            r.bucket_count == self.bucket_count,
            r.buckets@ == self.buckets@,
            r.children@ == self.children@,
    {
        self.fork_shared()
    }

    /// Creates a copy of this MemNode, sharing its buckets and children, transient ones
    /// included: a transient node is only ever changed once nothing else shares it.
    pub(crate) fn fork_shared(&self) -> (r: MemNode)
        ensures
            r.bucket_count == self.bucket_count,
            r.buckets@ == self.buckets@,
            r.children@ == self.children@,
    {
        let mut children: Vec<FatNodeRef> = Vec::new();
        let mut i: usize = 0;
        while i < self.children.len()
            invariant
                i <= self.children@.len(),
                children@ == self.children@.take(i as int),
            decreases self.children@.len() - i,
        {
            children.push(self.children[i].share());
            proof {
                assert(children@ =~= self.children@.take(i + 1));
            }
            i = i + 1;
        }
        proof {
            assert(children@ =~= self.children@);
        }
        let buckets = self.buckets.clone();
        proof {
            assert(buckets@ =~= self.buckets@);
        }
        MemNode { bucket_count: self.bucket_count, buckets, children }
    }

    /// Freezes this node for the snapshot with counter `txid`: every bucket and every child
    /// becomes persistent, recursively; whatever was frozen already keeps its counter.
    pub fn cool(&mut self, txid: Counter)
        requires
            node_wf(*old(self)),
        ensures
            node_wf(*final(self)),
            frozen(*final(self)),
            final(self).bucket_count == old(self).bucket_count,
            final(self).buckets@ == immuted_seq(old(self).buckets@, txid),
            final(self).children@.len() == old(self).children@.len(),
            node_flat(*final(self)) == immuted_seq(node_flat(*old(self)), txid),
            node_stamped(*old(self), txid@ as int) ==> node_stamped(*final(self), txid@ as int),
        decreases node_height(*old(self)), 0int,
    {
        let ghost old_node = *self;
        let ghost t = txid@ as int;
        proof {
            lemma_node_wf_all_children(old_node);
            lemma_node_stamped(old_node, t);
        }
        let mut i: usize = 0;
        while i < self.buckets.len()
            invariant
                old_node == *old(self),
                i <= self.buckets@.len(),
                self.buckets@.len() == old_node.buckets@.len(),
                self.bucket_count == old_node.bucket_count,
                self.children@ == old_node.children@,
                forall|j: int| 0 <= j < i ==> #[trigger] self.buckets@[j] == old_node.buckets@[j].immuted(txid),
                forall|j: int| i <= j < self.buckets@.len() ==> #[trigger] self.buckets@[j] == old_node.buckets@[j],
            decreases old_node.buckets@.len() - i,
        {
            self.buckets[i].immute(txid);
            i = i + 1;
        }
        proof {
            assert(self.buckets@ =~= immuted_seq(old_node.buckets@, txid));
        }
        let mut i: usize = 0;
        while i < self.children.len()
            invariant
                old_node == *old(self),
                t == txid@ as int,
                i <= self.children@.len(),
                self.children@.len() == old_node.children@.len(),
                self.bucket_count == old_node.bucket_count,
                self.buckets@ == immuted_seq(old_node.buckets@, txid),
                forall|j: int| 0 <= j < old_node.children@.len() ==> ref_wf(#[trigger] old_node.children@[j]),
                forall|j: int| 0 <= j < i ==> {
                    &&& ref_wf(#[trigger] self.children@[j])
                    &&& self.children@[j] is Persistent
                    &&& ref_flat(self.children@[j]) == immuted_seq(ref_flat(old_node.children@[j]), txid)
                    &&& (ref_stamped(old_node.children@[j], t) ==> ref_stamped(self.children@[j], t))
                },
                forall|j: int| i <= j < self.children@.len() ==> #[trigger] self.children@[j] == old_node.children@[j],
            decreases old_node.children@.len() - i,
        {
            proof {
                lemma_child_lower(old_node, i as int);
            }
            let ghost before = self.children@;
            self.children[i].immute(txid);
            proof {
                assert forall|j: int| 0 <= j < i implies #[trigger] self.children@[j] == before[j] by {}
            }
            i = i + 1;
        }
        proof {
            let bs = old_node.buckets@;
            let cs = old_node.children@;
            lemma_immuted_keys(bs, txid);
            lemma_children_wf_intro(self.children@, self.children@.len() as int);
            if cs.len() > 0 {
                lemma_immuted_range(cs, self.children@, bs, txid, cs.len() as int);
            }
            lemma_node_stamped(*self, t);
        }
    }

    /* Fast accessors */
    pub fn bucket_count(&self) -> (r: u16)
        ensures
            r == self.bucket_count,
    {
        self.bucket_count
    }

    pub fn child_count(&self) -> (r: u16)
        requires
            local_wf(*self),
        ensures
            r == self.children@.len(),
    {
        if self.is_leaf() {
            0
        } else {
            self.bucket_count + 1
        }
    }

    pub fn bucket_ref(&self, idx: u16) -> (r: &BucketRef)
        requires
            idx < self.buckets@.len(),
        ensures
            *r == self.buckets@[idx as int],
    {
        &self.buckets[idx as usize]
    }

    pub fn key(&self, idx: u16) -> (r: &[u8])
        requires
            idx < self.buckets@.len(),
        ensures
            r@ == self.buckets@[idx as int].key_view(),
    {
        self.buckets[idx as usize].key()
    }

    /// Gets the value associated at a particular index.
    pub fn value(&self, idx: u16) -> (r: &ByteRc)
        requires
            idx < self.buckets@.len(),
        ensures
            r@ == self.buckets@[idx as int].value_view(),
    {
        self.buckets[idx as usize].value()
    }

    pub fn child_ref(&self, idx: u16) -> (r: &FatNodeRef)
        requires
            idx < self.children@.len(),
        ensures
            *r == self.children@[idx as int],
    {
        &self.children[idx as usize]
    }

    /* Basic helpers */
    pub fn is_leaf(&self) -> (r: bool)
        ensures
            r == self.is_leaf_spec(),
    {
        self.children.len() == 0
    }

    /* Insert helpers */
    /// Returns Ok(i) if bucket[i]'s key is equal to the given key.
    /// Returns Err(i) where bucket[i] has the first key greater than the given key.
    pub fn find(&self, k: &[u8]) -> (r: Result<u16, u16>)
        requires
            sorted_buckets(self.buckets@),
            self.buckets@.len() <= u16::MAX,
        ensures
            r matches Ok(i) ==> i < self.buckets@.len() && self.buckets@[i as int].key_view() == k@,
            r matches Err(i) ==> i <= self.buckets@.len() && self.key_fits_at(i as int, k@),
    {
        let mut lo: usize = 0;
        let mut hi: usize = self.buckets.len();
        while lo < hi
            invariant
                sorted_buckets(self.buckets@),
                self.buckets@.len() <= u16::MAX,
                0 <= lo <= hi <= self.buckets@.len(),
                forall|j: int| 0 <= j < lo ==> bytes_lt(#[trigger] self.buckets@[j].key_view(), k@),
                forall|j: int| hi <= j < self.buckets@.len() ==> bytes_lt(k@, #[trigger] self.buckets@[j].key_view()),
            decreases hi - lo,
        {
            let mid = lo + (hi - lo) / 2;
            match compare_keys(self.buckets[mid].key(), k) {
                KeyOrder::Less => {
                    proof {
                        assert forall|j: int| 0 <= j < mid + 1 implies bytes_lt(#[trigger] self.buckets@[j].key_view(), k@) by {
                            if j < mid {
                                lemma_bytes_lt_transitive(self.buckets@[j].key_view(), self.buckets@[mid as int].key_view(), k@);
                            }
                        }
                    }
                    lo = mid + 1;
                },
                KeyOrder::Greater => {
                    proof {
                        assert forall|j: int| mid <= j < self.buckets@.len() implies bytes_lt(k@, #[trigger] self.buckets@[j].key_view()) by {
                            if j > mid {
                                lemma_bytes_lt_transitive(k@, self.buckets@[mid as int].key_view(), self.buckets@[j].key_view());
                            }
                        }
                    }
                    hi = mid;
                },
                KeyOrder::Equal => {
                    return Ok(mid as u16);
                },
            }
        }
        Err(lo as u16)
    }

    fn needs_split(&self) -> (r: bool)
        ensures
            r == (self.bucket_count == NODE_CAPACITY - 1),
    {
        self.bucket_count == NODE_CAPACITY - 1
    }

    /// Splits this full node down the middle: the buckets and children before the middle
    /// bucket stay, the middle bucket is returned for the parent, and the buckets and
    /// children after it move to the returned node.
    pub fn split(&mut self) -> (r: (BucketRef, MemNode))
        requires
            node_wf(*old(self)),
            old(self).bucket_count == NODE_CAPACITY - 1,
        ensures
            node_wf(*final(self)),
            node_wf(r.1),
            final(self).bucket_count == 7,
            r.1.bucket_count == 7,
            final(self).buckets@ == old(self).buckets@.take(7),
            r.0 == old(self).buckets@[7],
            r.1.buckets@ == old(self).buckets@.skip(8),
            final(self).is_leaf_spec() == old(self).is_leaf_spec(),
            r.1.is_leaf_spec() == old(self).is_leaf_spec(),
            !old(self).is_leaf_spec() ==> final(self).children@ == old(self).children@.take(8)
                && r.1.children@ == old(self).children@.skip(8),
            node_flat(*old(self)) == node_flat(*final(self)) + seq![r.0] + node_flat(r.1),
    {
        let ghost old_node = *self;
        proof {
            lemma_node_wf_all_children(old_node);
        }
        let bucket_count = self.bucket_count as usize;
        let split_idx = bucket_count / 2;
        let right_buckets = self.buckets.split_off(split_idx + 1);
        let bp = self.buckets.pop().unwrap();
        let right_children = if self.is_leaf() {
            Vec::new()
        } else {
            self.children.split_off(split_idx + 1)
        };
        let n2 = MemNode { bucket_count: self.bucket_count - split_idx as u16 - 1, buckets: right_buckets, children: right_children };
        self.bucket_count = split_idx as u16;
        proof {
            let bs = old_node.buckets@;
            let cs = old_node.children@;
            assert(self.buckets@ =~= bs.take(7));
            assert(n2.buckets@ =~= bs.skip(8));
            lemma_sorted_subrange(bs, 0, 7);
            lemma_sorted_subrange(bs, 8, 15);
            assert(bs.take(7) =~= bs.subrange(0, 7));
            assert(bs.skip(8) =~= bs.subrange(8, 15));
            if !old_node.is_leaf_spec() {
                assert(self.children@ =~= cs.take(8));
                assert(n2.children@ =~= cs.skip(8));
                lemma_children_wf_intro(self.children@, 8);
                assert forall|i: int| 0 <= i < 8 implies ref_wf(#[trigger] n2.children@[i]) by {
                    assert(n2.children@[i] == cs[i + 8]);
                }
                lemma_children_wf_intro(n2.children@, 8);
                lemma_flat_split(cs, bs, 7);
            } else {
                assert(bs =~= bs.take(7) + seq![bs[7]] + bs.skip(8));
            }
        }
        (bp, n2)
    }

    /// Inserts bucket `b` at position `idx`, and `right_child` just after child `idx`.
    fn insert_unchecked(&mut self, idx: u16, b: BucketRef, right_child: Option<FatNodeRef>)
        requires
            node_wf(*old(self)),
            old(self).bucket_count < NODE_CAPACITY - 1,
            idx <= old(self).bucket_count,
            old(self).is_leaf_spec() == right_child is None,
            right_child matches Some(c) ==> ref_wf(c),
            old(self).key_fits_at(idx as int, b.key_view()),
        ensures
            node_wf(*final(self)),
            final(self).bucket_count == old(self).bucket_count + 1,
            final(self).is_leaf_spec() == old(self).is_leaf_spec(),
            node_flat(*final(self)) == node_flat(*old(self)).take(old(self).child_end(idx as int)) + seq![b]
                + opt_flat(right_child) + node_flat(*old(self)).skip(old(self).child_end(idx as int)),
            final(self).buckets@ == old(self).buckets@.insert(idx as int, b),
            final(self).children@ == match right_child {
                Some(c) => old(self).children@.insert(idx + 1, c),
                None => old(self).children@,
            },
    {
        let ghost old_node = *self;
        self.buckets.insert(idx as usize, b);
        match right_child {
            Some(nptr) => {
                self.children.insert(idx as usize + 1, nptr);
            },
            None => {},
        }
        self.bucket_count = self.bucket_count + 1;
        proof {
            lemma_inserted_unchecked(old_node, *self, idx as int, b, right_child);
        }
    }

    /// Points child `idx` to the node held by the given HotHandle.
    pub fn reassign_child(&mut self, idx: u16, n: HotHandle)
        requires
            idx < old(self).children@.len(),
        ensures
            final(self).children@ == old(self).children@.update(idx as int, FatNodeRef::Transient(Rc::new(n.node()))),
            final(self).buckets@ == old(self).buckets@,
            final(self).bucket_count == old(self).bucket_count,
    {
        self.children[idx as usize].reassign(n);
    }

    /* Invariants */
    /// Checks the shape of this node and the order of its keys, within the given bounds,
    /// and, when `recurse` holds, of the whole subtree; returns whether they hold.
    pub fn check_invariants_helper(
        &self,
        parent_lower_bound: Option<&[u8]>,
        parent_upper_bound: Option<&[u8]>,
        is_hot: bool,
        recurse: bool,
    ) -> (r: bool)
        ensures
            r == node_checks(*self, opt_bytes(parent_lower_bound), opt_bytes(parent_upper_bound), recurse),
        decreases node_height(*self),
    {
        let count = self.bucket_count;
        // The bucket count.
        if count as usize != self.buckets.len() || count > NODE_CAPACITY - 1 {
            return false;
        }
        // The order of the keys.
        let mut i: usize = 1;
        while i < self.buckets.len()
            invariant
                1 <= i,
                i <= self.buckets@.len() || self.buckets@.len() < 1,
                forall|a: int, b: int| 0 <= a && b == a + 1 && b < i && b < self.buckets@.len() ==> bytes_lt(
                    #[trigger] self.buckets@[a].key_view(),
                    #[trigger] self.buckets@[b].key_view(),
                ),
            decreases self.buckets@.len() - i,
        {
            match compare_keys(self.buckets[i - 1].key(), self.buckets[i].key()) {
                KeyOrder::Less => {},
                _ => {
                    proof {
                        assert(!bytes_lt(self.buckets@[i - 1].key_view(), self.buckets@[i as int].key_view()));
                    }
                    return false;
                },
            }
            i = i + 1;
        }
        // The bounds.
        match parent_lower_bound {
            Some(lo) => {
                if count == 0 {
                    return false;
                }
                match compare_keys(lo, self.key(0)) {
                    KeyOrder::Less => {},
                    _ => {
                        return false;
                    },
                }
            },
            None => {},
        }
        match parent_upper_bound {
            Some(hi) => {
                if count == 0 {
                    return false;
                }
                match compare_keys(self.key(count - 1), hi) {
                    KeyOrder::Less => {},
                    _ => {
                        return false;
                    },
                }
            },
            None => {},
        }
        // The children.
        if !(self.is_leaf() || count >= 1) {
            return false;
        }
        if !(self.children.len() == 0 || self.children.len() == count as usize + 1) {
            return false;
        }
        if recurse {
            let mut i: usize = 0;
            while i < self.children.len()
                invariant
                    i <= self.children@.len(),
                    recurse,
                    count == self.bucket_count,
                    self.children@.len() == 0 || self.children@.len() == self.buckets@.len() + 1,
                    self.bucket_count == self.buckets@.len(),
                    children_checks(self.children@, self.buckets@, i as int),
                decreases self.children@.len() - i,
            {
                let lower = if i == 0 {
                    None
                } else {
                    Some(self.key((i - 1) as u16))
                };
                let upper = if i == count as usize {
                    None
                } else {
                    Some(self.key(i as u16))
                };
                proof {
                    lemma_child_lower(*self, i as int);
                    lemma_children_checks(self.children@, self.buckets@, i as int);
                }
                if !self.children[i].node().check_invariants_helper(lower, upper, is_hot, recurse) {
                    proof {
                        if children_checks(self.children@, self.buckets@, self.children@.len() as int) {
                            lemma_children_checks_prefix(self.children@, self.buckets@, i + 1, self.children@.len() as int);
                        }
                    }
                    return false;
                }
                i = i + 1;
            }
        }
        true
    }

    /// Inserts bucket `b` at position `idx`, and `right_child` just after child `idx`,
    /// splitting this node first if it is full. Flushing is the only operation that creates
    /// new nodes, and it does not change the depth of any leaf.
    #[verifier::rlimit(60)]
    pub fn insert_at(&mut self, idx: u16, b: BucketRef, right_child: Option<FatNodeRef>) -> (r: InsertResult)
        requires
            node_wf(*old(self)),
            idx <= old(self).bucket_count,
            old(self).is_leaf_spec() == right_child is None,
            right_child matches Some(c) ==> ref_wf(c),
            old(self).key_fits_at(idx as int, b.key_view()),
        ensures
            node_wf(*final(self)),
            final(self).is_leaf_spec() == old(self).is_leaf_spec(),
            r matches InsertResult::Flushed(_, n2) ==> node_wf(n2) && n2.is_leaf_spec() == old(self).is_leaf_spec(),
            insert_result_flat(*final(self), r) == node_flat(*old(self)).take(old(self).child_end(idx as int)) + seq![b]
                + opt_flat(right_child) + node_flat(*old(self)).skip(old(self).child_end(idx as int)),
            forall|t: int|
                #![trigger node_stamped(*final(self), t)]
                node_stamped(*old(self), t) && bucket_stamp_le(b, t) && (right_child matches Some(c) ==> ref_stamped(c, t))
                    ==> node_stamped(*final(self), t) && (r matches InsertResult::Flushed(b2, n2) ==> bucket_stamp_le(b2, t)
                    && node_stamped(n2, t)),
            old(self).bucket_count < NODE_CAPACITY - 1 ==> {
                &&& r is Done
                &&& final(self).buckets@ == old(self).buckets@.insert(idx as int, b)
                &&& final(self).children@ == children_after_insert(old(self).children@, idx as int, right_child)
            },
            old(self).bucket_count == NODE_CAPACITY - 1 ==> (r matches InsertResult::Flushed(bp, n2) && {
                &&& bp == old(self).buckets@[7]
                &&& final(self).buckets@ + seq![bp] + n2.buckets@ == old(self).buckets@.insert(idx as int, b)
                &&& final(self).buckets@.len() == if idx <= 7 { 8int } else { 7int }
                &&& final(self).children@ + n2.children@ == children_after_insert(old(self).children@, idx as int, right_child)
            }),
    {
        let ghost old_node = *self;
        if self.needs_split() {
            let (bp, mut node2) = self.split();
            let ghost left = *self;
            let ghost right = node2;
            let idx2 = idx as i32 - self.bucket_count() as i32 - 1;
            proof {
                let bs = old_node.buckets@;
                let cs = old_node.children@;
                let f = node_flat(old_node);
                let p = old_node.child_end(idx as int);
                if !old_node.is_leaf_spec() {
                    lemma_flat_split(cs, bs, 7);
                }
                if idx2 >= 0 {
                    if !old_node.is_leaf_spec() {
                        lemma_flat_range_concat(cs, bs, 0, 8, idx as int);
                    }
                    lemma_child_end_bound(right, idx2 as int);
                    assert(right.key_fits_at(idx2 as int, b.key_view())) by {
                        assert forall|j: int| 0 <= j < idx2 implies bytes_lt(#[trigger] right.buckets@[j].key_view(), b.key_view()) by {
                            assert(right.buckets@[j] == bs[j + 8]);
                        }
                        assert forall|j: int| idx2 <= j < right.buckets@.len() implies bytes_lt(b.key_view(), #[trigger] right.buckets@[j].key_view()) by {
                            assert(right.buckets@[j] == bs[j + 8]);
                        }
                    }
                    assert(right.child_end(idx2 as int) == p - (node_flat(left).len() + 1));
                } else {
                    assert(left.key_fits_at(idx as int, b.key_view())) by {
                        assert forall|j: int| 0 <= j < idx implies bytes_lt(#[trigger] left.buckets@[j].key_view(), b.key_view()) by {
                            assert(left.buckets@[j] == bs[j]);
                        }
                    }
                    assert(left.child_end(idx as int) == p);
                    lemma_child_end_bound(left, idx as int);
                }
            }
            if idx2 >= 0 {
                node2.insert_unchecked(idx2 as u16, b, right_child);
                proof {
                    lemma_split_insert_right(old_node.buckets@, old_node.children@, self.buckets@, node2.buckets@,
                        self.children@, node2.children@, idx as int, b, right_child);
                    let f = node_flat(old_node);
                    let p = old_node.child_end(idx as int);
                    let lf = node_flat(left);
                    let rf = node_flat(right);
                    let q = p - (lf.len() + 1);
                    assert(f =~= lf + seq![bp] + rf);
                    assert(f.take(p) =~= lf + seq![bp] + rf.take(q));
                    assert(f.skip(p) =~= rf.skip(q));
                    assert(insert_result_flat(*self, InsertResult::Flushed(bp, node2)) =~= f.take(p) + seq![b] + opt_flat(right_child) + f.skip(p));
                }
            } else {
                self.insert_unchecked(idx, b, right_child);
                proof {
                    lemma_split_insert_left(old_node.buckets@, old_node.children@, self.buckets@, node2.buckets@,
                        self.children@, node2.children@, idx as int, b, right_child);
                    let f = node_flat(old_node);
                    let p = old_node.child_end(idx as int);
                    let lf = node_flat(left);
                    let rf = node_flat(right);
                    assert(f =~= lf + seq![bp] + rf);
                    assert(f.take(p) =~= lf.take(p));
                    assert(f.skip(p) =~= lf.skip(p) + seq![bp] + rf);
                    assert(insert_result_flat(*self, InsertResult::Flushed(bp, node2)) =~= f.take(p) + seq![b] + opt_flat(right_child) + f.skip(p));
                }
            }
            proof {
                assert forall|t: int|
                    #![trigger node_stamped(*self, t)]
                    node_stamped(old_node, t) && bucket_stamp_le(b, t) && (right_child matches Some(c) ==> ref_stamped(c, t))
                        implies node_stamped(*self, t) && bucket_stamp_le(bp, t) && node_stamped(node2, t) by {
                    lemma_stamped_split(old_node, left, right, t);
                    if idx2 >= 0 {
                        lemma_stamped_after_insert(right, node2, idx2 as int, b, right_child, t);
                    } else {
                        lemma_stamped_after_insert(left, *self, idx as int, b, right_child, t);
                    }
                }
            }
            InsertResult::Flushed(bp, node2)
        } else {
            self.insert_unchecked(idx, b, right_child);
            proof {
                assert forall|t: int|
                    #![trigger node_stamped(*self, t)]
                    node_stamped(old_node, t) && bucket_stamp_le(b, t) && (right_child matches Some(c) ==> ref_stamped(c, t))
                        implies node_stamped(*self, t) by {
                    lemma_stamped_after_insert(old_node, *self, idx as int, b, right_child, t);
                }
            }
            InsertResult::Done
        }
    }
}

} // verus!
