//! The abstract contents of a subtree: its buckets in order, children before and after the
//! buckets that separate them.
use vstd::prelude::*;
use crate::data::order::bytes_lt;
use crate::data::order::lemma_bytes_lt_transitive;
use crate::data::order::lemma_bytes_lt_irreflexive;
use crate::tree::bucketref::BucketRef;
use crate::tree::memnode::MemNode;
use crate::tree::noderef::FatNodeRef;

verus! {

/// The node a pointer points to.
pub open spec fn ref_node(r: FatNodeRef) -> MemNode {
    match r {
        FatNodeRef::Transient(rc) => *rc,
        FatNodeRef::Persistent(p) => p.node,
    }
}

/// The bucket that follows child `t`, if there is one.
pub open spec fn sep(bs: Seq<BucketRef>, t: int) -> Seq<BucketRef> {
    if 0 <= t < bs.len() {
        seq![bs[t]]
    } else {
        Seq::empty()
    }
}

/// The buckets of a node in order.
pub open spec fn node_flat(n: MemNode) -> Seq<BucketRef>
    decreases n, 0int,
{
    if n.children@.len() == 0 {
        n.buckets@
    } else {
        flat_range(n.children@, n.buckets@, 0, n.children@.len() as int)
    }
}

/// The buckets of children `i..j` together with the buckets that follow them.
pub open spec fn flat_range(cs: Seq<FatNodeRef>, bs: Seq<BucketRef>, i: int, j: int) -> Seq<BucketRef>
    decreases cs, j - i,
{
    if i < j && 0 <= j - 1 < cs.len() {
        flat_range(cs, bs, i, j - 1) + ref_flat(cs[j - 1]) + sep(bs, j - 1)
    } else {
        Seq::empty()
    }
}

/// The buckets of the subtree a pointer points to, in order.
pub open spec fn ref_flat(r: FatNodeRef) -> Seq<BucketRef>
    decreases r, 0int,
{
    match r {
        FatNodeRef::Transient(rc) => node_flat(*rc),
        FatNodeRef::Persistent(p) => node_flat(p.node),
    }
}

/// Keys strictly increase along the sequence.
pub open spec fn sorted_buckets(s: Seq<BucketRef>) -> bool {
    forall|i: int, j: int|
        0 <= i < j < s.len() ==> bytes_lt(#[trigger] s[i].key_view(), #[trigger] s[j].key_view())
}

/// No bucket of the sequence has key `k`.
pub open spec fn key_absent(s: Seq<BucketRef>, k: Seq<u8>) -> bool {
    forall|i: int| 0 <= i < s.len() ==> #[trigger] s[i].key_view() != k
}

/// The map from keys to values that a sequence of buckets holds.
pub open spec fn contents(s: Seq<BucketRef>) -> Map<Seq<u8>, Seq<u8>> {
    Map::new(
        |k: Seq<u8>| exists|i: int| 0 <= i < s.len() && #[trigger] s[i].key_view() == k,
        |k: Seq<u8>| s[choose|i: int| 0 <= i < s.len() && #[trigger] s[i].key_view() == k].value_view(),
    )
}

/// The node's own shape: bucket count, child count and bucket order.
pub open spec fn local_wf(n: MemNode) -> bool {
    &&& n.bucket_count == n.buckets@.len()
    &&& 1 <= n.buckets@.len() <= 15
    &&& (n.children@.len() == 0 || n.children@.len() == n.buckets@.len() + 1)
    &&& sorted_buckets(n.buckets@)
}

/// Every bucket of the node is persistent and every child pointer is persistent.
pub open spec fn frozen(n: MemNode) -> bool {
    &&& forall|i: int| 0 <= i < n.buckets@.len() ==> (#[trigger] n.buckets@[i]).is_persistent()
    &&& forall|i: int| 0 <= i < n.children@.len() ==> (#[trigger] n.children@[i]) is Persistent
}

/// The node and every node below it has the right shape, and persistent nodes only point to
/// persistent nodes.
pub open spec fn node_wf(n: MemNode) -> bool
    decreases n, 0int,
{
    local_wf(n) && children_wf(n.children@, n.children@.len() as int)
}

/// The first `j` children are well formed.
pub open spec fn children_wf(cs: Seq<FatNodeRef>, j: int) -> bool
    decreases cs, j,
{
    if 0 < j <= cs.len() {
        children_wf(cs, j - 1) && ref_wf(cs[j - 1])
    } else {
        true
    }
}

/// The subtree a pointer points to is well formed.
pub open spec fn ref_wf(r: FatNodeRef) -> bool
    decreases r, 0int,
{
    match r {
        FatNodeRef::Transient(rc) => node_wf(*rc),
        FatNodeRef::Persistent(p) => node_wf(p.node) && frozen(p.node),
    }
}

/// A well-formed node whose buckets, across the whole subtree, are in increasing key order.
pub open spec fn tree_wf(n: MemNode) -> bool {
    node_wf(n) && sorted_buckets(node_flat(n))
}

/// The same, for the node a pointer points to.
pub open spec fn ref_tree_wf(r: FatNodeRef) -> bool {
    ref_wf(r) && sorted_buckets(ref_flat(r))
}

pub proof fn lemma_ref_flat(r: FatNodeRef)
    ensures
        ref_flat(r) == node_flat(ref_node(r)),
        ref_wf(r) ==> node_wf(ref_node(r)),
{
}

pub proof fn lemma_children_wf(cs: Seq<FatNodeRef>, j: int, i: int)
    requires
        children_wf(cs, j),
        0 <= i < j <= cs.len(),
    ensures
        ref_wf(cs[i]),
    decreases j,
{
    if i < j - 1 {
        lemma_children_wf(cs, j - 1, i);
    }
}

pub proof fn lemma_children_wf_intro(cs: Seq<FatNodeRef>, j: int)
    requires
        0 <= j <= cs.len(),
        forall|i: int| 0 <= i < j ==> ref_wf(#[trigger] cs[i]),
    ensures
        children_wf(cs, j),
    decreases j,
{
    if j > 0 {
        lemma_children_wf_intro(cs, j - 1);
    }
}

pub proof fn lemma_node_wf_children(n: MemNode, i: int)
    requires
        node_wf(n),
        0 <= i < n.children@.len(),
    ensures
        ref_wf(n.children@[i]),
{
    lemma_children_wf(n.children@, n.children@.len() as int, i);
}

pub proof fn lemma_flat_range_empty(cs: Seq<FatNodeRef>, bs: Seq<BucketRef>, i: int)
    ensures
        flat_range(cs, bs, i, i) == Seq::<BucketRef>::empty(),
{
}

pub proof fn lemma_flat_range_one(cs: Seq<FatNodeRef>, bs: Seq<BucketRef>, i: int)
    requires
        0 <= i < cs.len(),
    ensures
        flat_range(cs, bs, i, i + 1) == ref_flat(cs[i]) + sep(bs, i),
{
    assert(flat_range(cs, bs, i, i) == Seq::<BucketRef>::empty());
    assert(flat_range(cs, bs, i, i + 1) =~= ref_flat(cs[i]) + sep(bs, i));
}

pub proof fn lemma_flat_range_concat(cs: Seq<FatNodeRef>, bs: Seq<BucketRef>, i: int, j: int, k: int)
    requires
        0 <= i <= j <= k <= cs.len(),
    ensures
        flat_range(cs, bs, i, k) == flat_range(cs, bs, i, j) + flat_range(cs, bs, j, k),
    decreases k - j,
{
    if j == k {
        assert(flat_range(cs, bs, i, k) =~= flat_range(cs, bs, i, j) + flat_range(cs, bs, j, k));
    } else {
        lemma_flat_range_concat(cs, bs, i, j, k - 1);
        assert(flat_range(cs, bs, i, k) =~= flat_range(cs, bs, i, j) + flat_range(cs, bs, j, k));
    }
}

pub proof fn lemma_flat_range_shift(
    cs: Seq<FatNodeRef>,
    bs: Seq<BucketRef>,
    cs2: Seq<FatNodeRef>,
    bs2: Seq<BucketRef>,
    i: int,
    j: int,
    d: int,
)
    requires
        0 <= i <= j <= cs.len(),
        0 <= i + d,
        j + d <= cs2.len(),
        forall|t: int| i <= t < j ==> cs[t] == #[trigger] cs2[t + d],
        forall|t: int| i <= t < j ==> sep(bs, t) == #[trigger] sep(bs2, t + d),
    ensures
        flat_range(cs, bs, i, j) == flat_range(cs2, bs2, i + d, j + d),
    decreases j - i,
{
    if i < j {
        lemma_flat_range_shift(cs, bs, cs2, bs2, i, j - 1, d);
        assert(cs[j - 1] == cs2[j - 1 + d]);
        assert(sep(bs, j - 1) == sep(bs2, j - 1 + d));
        assert(flat_range(cs2, bs2, i + d, j + d) =~= flat_range(cs2, bs2, i + d, j - 1 + d) + ref_flat(cs2[j - 1 + d]) + sep(bs2, j - 1 + d));
    }
}

/// The buckets of a whole node with children `cs` and buckets `bs`, split around child `idx`.
pub proof fn lemma_flat_decompose(cs: Seq<FatNodeRef>, bs: Seq<BucketRef>, idx: int)
    requires
        0 <= idx < cs.len(),
    ensures
        flat_range(cs, bs, 0, cs.len() as int) == flat_range(cs, bs, 0, idx) + ref_flat(cs[idx])
            + sep(bs, idx) + flat_range(cs, bs, idx + 1, cs.len() as int),
{
    lemma_flat_range_concat(cs, bs, 0, idx, cs.len() as int);
    lemma_flat_range_concat(cs, bs, idx, idx + 1, cs.len() as int);
    lemma_flat_range_one(cs, bs, idx);
    assert(flat_range(cs, bs, 0, cs.len() as int) =~= flat_range(cs, bs, 0, idx) + ref_flat(cs[idx])
        + sep(bs, idx) + flat_range(cs, bs, idx + 1, cs.len() as int));
}

/// Replacing child `idx` replaces its buckets in the node's buckets.
pub proof fn lemma_flat_update(cs: Seq<FatNodeRef>, bs: Seq<BucketRef>, idx: int, c: FatNodeRef)
    requires
        0 <= idx < cs.len(),
    ensures
        flat_range(cs.update(idx, c), bs, 0, cs.len() as int) == flat_range(cs, bs, 0, idx)
            + ref_flat(c) + sep(bs, idx) + flat_range(cs, bs, idx + 1, cs.len() as int),
{
    let cs2 = cs.update(idx, c);
    lemma_flat_decompose(cs2, bs, idx);
    lemma_flat_range_shift(cs, bs, cs2, bs, 0, idx, 0);
    lemma_flat_range_shift(cs, bs, cs2, bs, idx + 1, cs.len() as int, 0);
}

/// Replacing child `idx` by `c` and inserting bucket `b` and child `rc` after it.
pub proof fn lemma_flat_insert(
    cs: Seq<FatNodeRef>,
    bs: Seq<BucketRef>,
    idx: int,
    c: FatNodeRef,
    b: BucketRef,
    rc: FatNodeRef,
)
    requires
        0 <= idx < cs.len(),
        cs.len() == bs.len() + 1,
    ensures
        flat_range(cs.update(idx, c).insert(idx + 1, rc), bs.insert(idx, b), 0, cs.len() + 1int)
            == flat_range(cs, bs, 0, idx) + ref_flat(c) + seq![b] + ref_flat(rc) + sep(bs, idx)
            + flat_range(cs, bs, idx + 1, cs.len() as int),
{
    let cs2 = cs.update(idx, c).insert(idx + 1, rc);
    let bs2 = bs.insert(idx, b);
    let n = cs.len() as int;
    lemma_flat_range_concat(cs2, bs2, 0, idx, n + 1);
    lemma_flat_range_concat(cs2, bs2, idx, idx + 1, n + 1);
    lemma_flat_range_concat(cs2, bs2, idx + 1, idx + 2, n + 1);
    lemma_flat_range_one(cs2, bs2, idx);
    lemma_flat_range_one(cs2, bs2, idx + 1);
    assert(sep(bs2, idx) =~= seq![b]);
    assert(sep(bs2, idx + 1) =~= sep(bs, idx));
    assert forall|t: int| 0 <= t < idx implies sep(bs, t) == #[trigger] sep(bs2, t + 0) by {
        assert(sep(bs, t) =~= sep(bs2, t));
    }
    lemma_flat_range_shift(cs, bs, cs2, bs2, 0, idx, 0);
    assert forall|t: int| idx + 1 <= t < n implies sep(bs, t) == #[trigger] sep(bs2, t + 1) by {
        assert(sep(bs, t) =~= sep(bs2, t + 1));
    }
    assert forall|t: int| idx + 1 <= t < n implies cs[t] == #[trigger] cs2[t + 1] by {
    }
    lemma_flat_range_shift(cs, bs, cs2, bs2, idx + 1, n, 1);
    assert(flat_range(cs2, bs2, 0, n + 1) =~= flat_range(cs, bs, 0, idx) + ref_flat(c) + seq![b]
        + ref_flat(rc) + sep(bs, idx) + flat_range(cs, bs, idx + 1, n));
}

/// Splitting the children and buckets of a node around bucket `s`.
pub proof fn lemma_flat_split(cs: Seq<FatNodeRef>, bs: Seq<BucketRef>, s: int)
    requires
        cs.len() == bs.len() + 1,
        0 <= s < bs.len(),
    ensures
        flat_range(cs, bs, 0, cs.len() as int) == flat_range(cs.take(s + 1), bs.take(s), 0, s + 1)
            + seq![bs[s]] + flat_range(cs.skip(s + 1), bs.skip(s + 1), 0, cs.len() - (s + 1)),
        flat_range(cs, bs, 0, s + 1) == flat_range(cs.take(s + 1), bs.take(s), 0, s + 1) + seq![bs[s]],
        forall|i: int| 0 <= i <= s ==> #[trigger] flat_range(cs, bs, 0, i) == flat_range(cs.take(s + 1), bs.take(s), 0, i),
        forall|i: int| s + 1 <= i <= cs.len() ==> #[trigger] flat_range(cs, bs, s + 1, i) == flat_range(cs.skip(s + 1), bs.skip(s + 1), 0, i - (s + 1)),
{
    let n = cs.len() as int;
    let csl = cs.take(s + 1);
    let bsl = bs.take(s);
    let csr = cs.skip(s + 1);
    let bsr = bs.skip(s + 1);
    assert forall|i: int| 0 <= i <= s + 1 implies #[trigger] flat_range(cs, bs, 0, i) == flat_range(csl, bsl, 0, i) + (if i == s + 1 { seq![bs[s]] } else { Seq::empty() }) by {
        if i <= s {
            assert forall|t: int| 0 <= t < i implies sep(bs, t) == #[trigger] sep(bsl, t + 0) by {
                assert(sep(bs, t) =~= sep(bsl, t));
            }
            lemma_flat_range_shift(cs, bs, csl, bsl, 0, i, 0);
            assert(flat_range(cs, bs, 0, i) =~= flat_range(csl, bsl, 0, i) + Seq::<BucketRef>::empty());
        } else {
            assert forall|t: int| 0 <= t < s implies sep(bs, t) == #[trigger] sep(bsl, t + 0) by {
                assert(sep(bs, t) =~= sep(bsl, t));
            }
            lemma_flat_range_shift(cs, bs, csl, bsl, 0, s, 0);
            lemma_flat_range_concat(cs, bs, 0, s, s + 1);
            lemma_flat_range_one(cs, bs, s);
            lemma_flat_range_concat(csl, bsl, 0, s, s + 1);
            lemma_flat_range_one(csl, bsl, s);
            assert(sep(bsl, s) =~= Seq::<BucketRef>::empty());
            assert(sep(bs, s) =~= seq![bs[s]]);
            assert(flat_range(cs, bs, 0, i) =~= flat_range(csl, bsl, 0, i) + seq![bs[s]]);
        }
    }
    assert(flat_range(cs, bs, 0, s + 1) == flat_range(csl, bsl, 0, s + 1) + seq![bs[s]]);
    assert forall|i: int| s + 1 <= i <= cs.len() implies #[trigger] flat_range(cs, bs, s + 1, i) == flat_range(csr, bsr, 0, i - (s + 1)) by {
        assert forall|t: int| 0 <= t < i - (s + 1) implies sep(bsr, t) == #[trigger] sep(bs, t + (s + 1)) by {
            assert(sep(bsr, t) =~= sep(bs, t + (s + 1)));
        }
        assert forall|t: int| 0 <= t < i - (s + 1) implies csr[t] == #[trigger] cs[t + (s + 1)] by {
        }
        lemma_flat_range_shift(csr, bsr, cs, bs, 0, i - (s + 1), s + 1);
    }
    lemma_flat_range_concat(cs, bs, 0, s + 1, n);
    assert(flat_range(cs, bs, 0, n) =~= flat_range(csl, bsl, 0, s + 1) + seq![bs[s]]
        + flat_range(csr, bsr, 0, n - (s + 1)));
}

/// A contiguous part of a sorted sequence is sorted.
pub proof fn lemma_sorted_subrange(s: Seq<BucketRef>, i: int, j: int)
    requires
        sorted_buckets(s),
        0 <= i <= j <= s.len(),
    ensures
        sorted_buckets(s.subrange(i, j)),
{
    assert forall|a: int, b: int| 0 <= a < b < s.subrange(i, j).len() implies bytes_lt(
        #[trigger] s.subrange(i, j)[a].key_view(),
        #[trigger] s.subrange(i, j)[b].key_view(),
    ) by {
        assert(s.subrange(i, j)[a] == s[i + a]);
        assert(s.subrange(i, j)[b] == s[i + b]);
    }
}

/// `new` is `old` with `b` inserted at the place its key belongs.
pub open spec fn inserted_at(old: Seq<BucketRef>, new: Seq<BucketRef>, b: BucketRef, p: int) -> bool {
    &&& 0 <= p <= old.len()
    &&& new == old.insert(p, b)
    &&& forall|i: int| 0 <= i < p ==> bytes_lt(#[trigger] old[i].key_view(), b.key_view())
    &&& forall|i: int| p <= i < old.len() ==> bytes_lt(b.key_view(), #[trigger] old[i].key_view())
}

/// `new` is `old` with `b` inserted in key order.
pub open spec fn inserted(old: Seq<BucketRef>, new: Seq<BucketRef>, b: BucketRef) -> bool {
    exists|p: int| inserted_at(old, new, b, p)
}

/// Inserting a bucket where its key belongs keeps a sequence sorted.
pub proof fn lemma_inserted_sorted(old: Seq<BucketRef>, new: Seq<BucketRef>, b: BucketRef, p: int)
    requires
        sorted_buckets(old),
        inserted_at(old, new, b, p),
    ensures
        sorted_buckets(new),
{
    assert forall|i: int, j: int| 0 <= i < j < new.len() implies bytes_lt(
        #[trigger] new[i].key_view(),
        #[trigger] new[j].key_view(),
    ) by {
        if j < p {
            assert(new[i] == old[i] && new[j] == old[j]);
        } else if j == p {
            assert(new[j] == b && new[i] == old[i]);
        } else if i < p {
            assert(new[i] == old[i] && new[j] == old[j - 1]);
            lemma_bytes_lt_transitive(old[i].key_view(), b.key_view(), old[j - 1].key_view());
        } else if i == p {
            assert(new[i] == b && new[j] == old[j - 1]);
        } else {
            assert(new[i] == old[i - 1] && new[j] == old[j - 1]);
        }
    }
}

/// The contents of a sequence after inserting a bucket whose key it lacks.
pub proof fn lemma_contents_insert(old: Seq<BucketRef>, b: BucketRef, p: int)
    requires
        0 <= p <= old.len(),
        key_absent(old, b.key_view()),
        sorted_buckets(old),
        sorted_buckets(old.insert(p, b)),
    ensures
        contents(old.insert(p, b)) == contents(old).insert(b.key_view(), b.value_view()),
{
    let new = old.insert(p, b);
    let k = b.key_view();
    lemma_contents_lookup_sorted(new, p);
    assert forall|k2: Seq<u8>| #[trigger] contents(new).dom().contains(k2) <==> contents(old).insert(k, b.value_view()).dom().contains(k2) by {
        if contents(new).dom().contains(k2) {
            let i = choose|i: int| 0 <= i < new.len() && #[trigger] new[i].key_view() == k2;
            if i < p {
                assert(old[i].key_view() == k2);
            } else if i > p {
                assert(old[i - 1].key_view() == k2);
            }
        }
        if contents(old).dom().contains(k2) {
            let i = choose|i: int| 0 <= i < old.len() && #[trigger] old[i].key_view() == k2;
            if i < p {
                assert(new[i].key_view() == k2);
            } else {
                assert(new[i + 1].key_view() == k2);
            }
        }
        if k2 == k {
            assert(new[p].key_view() == k2);
        }
    }
    assert forall|k2: Seq<u8>| #[trigger] contents(new).dom().contains(k2) implies contents(new)[k2] == contents(old).insert(k, b.value_view())[k2] by {
        let i = choose|i: int| 0 <= i < new.len() && #[trigger] new[i].key_view() == k2;
        lemma_contents_lookup_sorted(new, i);
        if i < p {
            lemma_contents_lookup_sorted(old, i);
            assert(new[i] == old[i]);
        } else if i > p {
            lemma_contents_lookup_sorted(old, i - 1);
            assert(new[i] == old[i - 1]);
        } else {
            assert(new[i] == b);
        }
    }
    assert(contents(new) =~= contents(old).insert(k, b.value_view()));
}

/// In a sorted sequence, the contents map the key of each bucket to its value.
pub proof fn lemma_contents_lookup_sorted(s: Seq<BucketRef>, i: int)
    requires
        sorted_buckets(s),
        0 <= i < s.len(),
    ensures
        contents(s).dom().contains(s[i].key_view()),
        contents(s)[s[i].key_view()] == s[i].value_view(),
{
    let k = s[i].key_view();
    assert(contents(s).dom().contains(k));
    let j = choose|j: int| 0 <= j < s.len() && #[trigger] s[j].key_view() == k;
    if j < i {
        assert(bytes_lt(s[j].key_view(), s[i].key_view()));
        lemma_bytes_lt_irreflexive(k);
    } else if j > i {
        assert(bytes_lt(s[i].key_view(), s[j].key_view()));
        lemma_bytes_lt_irreflexive(k);
    }
}

/// The number of levels below a node.
pub open spec fn node_height(n: MemNode) -> nat
    decreases n, 0int,
{
    if n.children@.len() == 0 {
        0
    } else {
        1 + children_height(n.children@, n.children@.len() as int)
    }
}

/// The greatest height among the first `j` children.
pub open spec fn children_height(cs: Seq<FatNodeRef>, j: int) -> nat
    decreases cs, j,
{
    if 0 < j <= cs.len() {
        let a = children_height(cs, j - 1);
        let b = ref_height(cs[j - 1]);
        if a < b {
            b
        } else {
            a
        }
    } else {
        0
    }
}

/// The height of the node a pointer points to.
pub open spec fn ref_height(r: FatNodeRef) -> nat
    decreases r, 0int,
{
    match r {
        FatNodeRef::Transient(rc) => node_height(*rc),
        FatNodeRef::Persistent(p) => node_height(p.node),
    }
}

pub proof fn lemma_children_height(cs: Seq<FatNodeRef>, j: int, i: int)
    requires
        0 <= i < j <= cs.len(),
    ensures
        ref_height(cs[i]) <= children_height(cs, j),
    decreases j,
{
    if i < j - 1 {
        lemma_children_height(cs, j - 1, i);
    }
}

/// A child is lower than its parent.
pub proof fn lemma_child_lower(n: MemNode, i: int)
    requires
        0 <= i < n.children@.len(),
    ensures
        node_height(ref_node(n.children@[i])) < node_height(n),
{
    lemma_children_height(n.children@, n.children@.len() as int, i);
}

/// Two nodes with the same buckets and children.
pub open spec fn same_node(a: MemNode, b: MemNode) -> bool {
    &&& a.bucket_count == b.bucket_count
    &&& a.buckets@ == b.buckets@
    &&& a.children@ == b.children@
}

/// Everything about a node that the specifications look at is determined by its buckets
/// and children.
pub proof fn lemma_same_node(a: MemNode, b: MemNode)
    requires
        same_node(a, b),
    ensures
        node_flat(a) == node_flat(b),
        node_wf(a) == node_wf(b),
        node_height(a) == node_height(b),
        frozen(a) == frozen(b),
        tree_wf(a) == tree_wf(b),
{
}

/// Where, in the buckets of a sorted node, the keys of child `idx` lie: after bucket
/// `idx - 1` and before bucket `idx`; and where a key that fits between those buckets lies.
pub proof fn lemma_segment_bounds(cs: Seq<FatNodeRef>, bs: Seq<BucketRef>, idx: int, k: Seq<u8>)
    requires
        cs.len() == bs.len() + 1,
        0 <= idx < cs.len(),
        sorted_buckets(flat_range(cs, bs, 0, cs.len() as int)),
        idx > 0 ==> bytes_lt(bs[idx - 1].key_view(), k),
        idx < bs.len() ==> bytes_lt(k, bs[idx].key_view()),
    ensures
        forall|i: int| 0 <= i < flat_range(cs, bs, 0, idx).len() ==> bytes_lt(#[trigger] flat_range(cs, bs, 0, idx)[i].key_view(), k),
        forall|i: int| 0 <= i < (sep(bs, idx) + flat_range(cs, bs, idx + 1, cs.len() as int)).len()
            ==> bytes_lt(k, #[trigger] (sep(bs, idx) + flat_range(cs, bs, idx + 1, cs.len() as int))[i].key_view()),
        forall|i: int| 0 <= i < ref_flat(cs[idx]).len() ==> (idx > 0 ==> bytes_lt(bs[idx - 1].key_view(), #[trigger] ref_flat(cs[idx])[i].key_view())),
        forall|i: int| 0 <= i < ref_flat(cs[idx]).len() ==> (idx < bs.len() ==> bytes_lt(#[trigger] ref_flat(cs[idx])[i].key_view(), bs[idx].key_view())),
{
    let n = cs.len() as int;
    let a = flat_range(cs, bs, 0, idx);
    let c = ref_flat(cs[idx]);
    let t = sep(bs, idx) + flat_range(cs, bs, idx + 1, n);
    let f = flat_range(cs, bs, 0, n);
    lemma_flat_decompose(cs, bs, idx);
    assert(f =~= a + c + t);
    if idx > 0 {
        lemma_flat_range_concat(cs, bs, 0, idx - 1, idx);
        lemma_flat_range_one(cs, bs, idx - 1);
        assert(sep(bs, idx - 1) =~= seq![bs[idx - 1]]);
        assert(a.len() >= 1 && a[a.len() - 1] == bs[idx - 1]);
        assert(f[a.len() - 1] == bs[idx - 1]);
        assert forall|i: int| 0 <= i < a.len() implies bytes_lt(#[trigger] a[i].key_view(), k) by {
            assert(f[i] == a[i]);
            if i < a.len() - 1 {
                lemma_bytes_lt_transitive(a[i].key_view(), bs[idx - 1].key_view(), k);
            }
        }
        assert forall|i: int| 0 <= i < c.len() implies bytes_lt(bs[idx - 1].key_view(), #[trigger] c[i].key_view()) by {
            assert(f[a.len() + i] == c[i]);
        }
    }
    if idx < bs.len() {
        assert(sep(bs, idx) =~= seq![bs[idx]]);
        assert(t[0] == bs[idx]);
        assert(f[(a.len() + c.len()) as int] == bs[idx]);
        assert forall|i: int| 0 <= i < t.len() implies bytes_lt(k, #[trigger] t[i].key_view()) by {
            assert(f[a.len() + c.len() + i] == t[i]);
            if i > 0 {
                lemma_bytes_lt_transitive(k, bs[idx].key_view(), t[i].key_view());
            }
        }
        assert forall|i: int| 0 <= i < c.len() implies bytes_lt(#[trigger] c[i].key_view(), bs[idx].key_view()) by {
            assert(f[a.len() + i] == c[i]);
        }
    } else {
        assert(sep(bs, idx) =~= Seq::<BucketRef>::empty());
        lemma_flat_range_empty(cs, bs, n);
        assert(t.len() == 0);
    }
}

/// Each bucket of a node appears among the node's buckets in order.
pub proof fn lemma_bucket_in_flat(n: MemNode, i: int)
    requires
        local_wf(n),
        0 <= i < n.buckets@.len(),
    ensures
        exists|j: int| 0 <= j < node_flat(n).len() && node_flat(n)[j] == n.buckets@[i],
{
    if n.children@.len() > 0 {
        let cs = n.children@;
        let bs = n.buckets@;
        lemma_flat_decompose(cs, bs, i);
        assert(sep(bs, i) =~= seq![bs[i]]);
        let j = (flat_range(cs, bs, 0, i).len() + ref_flat(cs[i]).len()) as int;
        assert(node_flat(n)[j] == bs[i]);
    } else {
        assert(node_flat(n)[i] == n.buckets@[i]);
    }
}

/// In a sorted inner node, the keys of child `idx` lie between bucket `idx - 1` and bucket
/// `idx`.
pub proof fn lemma_child_bounds(n: MemNode, idx: int)
    requires
        tree_wf(n),
        n.children@.len() > 0,
        0 <= idx < n.children@.len(),
    ensures
        forall|i: int| 0 <= i < ref_flat(n.children@[idx]).len() ==> (idx > 0 ==> bytes_lt(
            n.buckets@[idx - 1].key_view(),
            #[trigger] ref_flat(n.children@[idx])[i].key_view(),
        )),
        forall|i: int| 0 <= i < ref_flat(n.children@[idx]).len() ==> (idx < n.buckets@.len() ==> bytes_lt(
            #[trigger] ref_flat(n.children@[idx])[i].key_view(),
            n.buckets@[idx].key_view(),
        )),
        sorted_buckets(ref_flat(n.children@[idx])),
        ref_tree_wf(n.children@[idx]),
{
    let cs = n.children@;
    let bs = n.buckets@;
    let m = cs.len() as int;
    let a = flat_range(cs, bs, 0, idx);
    let c = ref_flat(cs[idx]);
    let t = sep(bs, idx) + flat_range(cs, bs, idx + 1, m);
    let f = node_flat(n);
    lemma_flat_decompose(cs, bs, idx);
    assert(f =~= a + c + t);
    lemma_node_wf_children(n, idx);
    assert(c =~= f.subrange(a.len() as int, (a.len() + c.len()) as int));
    lemma_sorted_subrange(f, a.len() as int, (a.len() + c.len()) as int);
    if idx > 0 {
        lemma_flat_range_concat(cs, bs, 0, idx - 1, idx);
        lemma_flat_range_one(cs, bs, idx - 1);
        assert(sep(bs, idx - 1) =~= seq![bs[idx - 1]]);
        assert(f[a.len() - 1] == bs[idx - 1]);
        assert forall|i: int| 0 <= i < c.len() implies bytes_lt(bs[idx - 1].key_view(), #[trigger] c[i].key_view()) by {
            assert(f[a.len() + i] == c[i]);
        }
    }
    if idx < bs.len() {
        assert(sep(bs, idx) =~= seq![bs[idx]]);
        assert(f[(a.len() + c.len()) as int] == bs[idx]);
        assert forall|i: int| 0 <= i < c.len() implies bytes_lt(#[trigger] c[i].key_view(), bs[idx].key_view()) by {
            assert(f[a.len() + i] == c[i]);
        }
    }
}

} // verus!
