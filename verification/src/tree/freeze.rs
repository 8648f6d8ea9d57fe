//! Freezing subtrees for snapshots, and the transaction counters frozen buckets and nodes
//! are stamped with.
use vstd::prelude::*;
use crate::counter::Counter;
use crate::tree::bucketref::BucketRef;
use crate::tree::flat::contents;
use crate::tree::flat::flat_range;
use crate::tree::flat::lemma_contents_lookup_sorted;
use crate::tree::flat::frozen;
use crate::tree::flat::lemma_child_lower;
use crate::tree::flat::lemma_node_wf_children;
use crate::tree::flat::node_flat;
use crate::tree::flat::node_height;
use crate::tree::flat::node_wf;
use crate::tree::flat::ref_flat;
use crate::tree::flat::ref_node;
use crate::tree::flat::sep;
use crate::tree::flat::sorted_buckets;
use crate::tree::memnode::MemNode;
use crate::tree::noderef::FatNodeRef;

verus! {

/// The buckets of `s`, each frozen with counter `txid` unless it was frozen already.
pub open spec fn immuted_seq(s: Seq<BucketRef>, txid: Counter) -> Seq<BucketRef> {
    s.map_values(|b: BucketRef| b.immuted(txid))
}

/// Freezing a sequence piece by piece.
pub proof fn lemma_immuted_concat(a: Seq<BucketRef>, b: Seq<BucketRef>, txid: Counter)
    ensures
        immuted_seq(a + b, txid) == immuted_seq(a, txid) + immuted_seq(b, txid),
{
    assert(immuted_seq(a + b, txid) =~= immuted_seq(a, txid) + immuted_seq(b, txid));
}

/// Freezing keeps every key and value, and so the order of the keys.
pub proof fn lemma_immuted_keys(s: Seq<BucketRef>, txid: Counter)
    ensures
        immuted_seq(s, txid).len() == s.len(),
        forall|i: int| 0 <= i < s.len() ==> (#[trigger] immuted_seq(s, txid)[i]).key_view() == s[i].key_view()
            && immuted_seq(s, txid)[i].value_view() == s[i].value_view(),
        sorted_buckets(s) ==> sorted_buckets(immuted_seq(s, txid)),
{
    let f = immuted_seq(s, txid);
    if sorted_buckets(s) {
        assert forall|i: int, j: int| 0 <= i < j < f.len() implies
            crate::data::order::bytes_lt(#[trigger] f[i].key_view(), #[trigger] f[j].key_view()) by {
            assert(f[i].key_view() == s[i].key_view());
            assert(f[j].key_view() == s[j].key_view());
        }
    }
}

/// A sequence whose buckets are all frozen is left as it is by freezing.
pub proof fn lemma_immuted_frozen(s: Seq<BucketRef>, txid: Counter)
    requires
        forall|i: int| 0 <= i < s.len() ==> (#[trigger] s[i]).is_persistent(),
    ensures
        immuted_seq(s, txid) == s,
{
    assert(immuted_seq(s, txid) =~= s);
}

/// Freezing every child and every bucket of a node freezes its buckets in order.
pub proof fn lemma_immuted_range(
    cs: Seq<FatNodeRef>,
    cs2: Seq<FatNodeRef>,
    bs: Seq<BucketRef>,
    txid: Counter,
    j: int,
)
    requires
        0 <= j <= cs.len(),
        cs2.len() == cs.len(),
        forall|t: int| 0 <= t < j ==> ref_flat(#[trigger] cs2[t]) == immuted_seq(ref_flat(cs[t]), txid),
    ensures
        flat_range(cs2, immuted_seq(bs, txid), 0, j) == immuted_seq(flat_range(cs, bs, 0, j), txid),
    decreases j,
{
    let bs2 = immuted_seq(bs, txid);
    if j > 0 {
        lemma_immuted_range(cs, cs2, bs, txid, j - 1);
        assert(ref_flat(cs2[j - 1]) == immuted_seq(ref_flat(cs[j - 1]), txid));
        assert(sep(bs2, j - 1) =~= immuted_seq(sep(bs, j - 1), txid));
        lemma_immuted_concat(flat_range(cs, bs, 0, j - 1), ref_flat(cs[j - 1]), txid);
        lemma_immuted_concat(flat_range(cs, bs, 0, j - 1) + ref_flat(cs[j - 1]), sep(bs, j - 1), txid);
    } else {
        assert(immuted_seq(Seq::<BucketRef>::empty(), txid) =~= Seq::<BucketRef>::empty());
    }
}

/// Every bucket below a frozen node is frozen.
pub proof fn lemma_frozen_flat(n: MemNode)
    requires
        node_wf(n),
        frozen(n),
    ensures
        forall|i: int| 0 <= i < node_flat(n).len() ==> (#[trigger] node_flat(n)[i]).is_persistent(),
    decreases node_height(n), 1int, 0int,
{
    if n.children@.len() > 0 {
        lemma_frozen_range(n, n.children@.len() as int);
        assert(node_flat(n) == flat_range(n.children@, n.buckets@, 0, n.children@.len() as int));
    } else {
        assert forall|i: int| 0 <= i < node_flat(n).len() implies (#[trigger] node_flat(n)[i]).is_persistent() by {
            assert(node_flat(n)[i] == n.buckets@[i]);
        }
    }
}

proof fn lemma_frozen_range(n: MemNode, j: int)
    requires
        node_wf(n),
        frozen(n),
        n.children@.len() > 0,
        0 <= j <= n.children@.len(),
    ensures
        forall|i: int| 0 <= i < flat_range(n.children@, n.buckets@, 0, j).len()
            ==> (#[trigger] flat_range(n.children@, n.buckets@, 0, j)[i]).is_persistent(),
    decreases node_height(n), 0int, j,
{
    let cs = n.children@;
    let bs = n.buckets@;
    if j > 0 {
        lemma_frozen_range(n, j - 1);
        let c = cs[j - 1];
        lemma_node_wf_children(n, j - 1);
        lemma_child_lower(n, j - 1);
        assert(c is Persistent);
        lemma_frozen_flat(ref_node(c));
        crate::tree::flat::lemma_ref_flat(c);
        let a = flat_range(cs, bs, 0, j - 1);
        let f = flat_range(cs, bs, 0, j);
        assert(f == a + ref_flat(c) + sep(bs, j - 1));
        assert forall|i: int| 0 <= i < f.len() implies (#[trigger] f[i]).is_persistent() by {
            if i < a.len() {
                assert(f[i] == a[i]);
            } else if i < a.len() + ref_flat(c).len() {
                assert(f[i] == node_flat(ref_node(c))[i - a.len()]);
            } else {
                assert(f[i] == bs[j - 1]);
                assert(bs[j - 1].is_persistent());
            }
        }
    }
}

/// A bucket that is transient or frozen no later than `t`.
pub open spec fn bucket_stamp_le(b: BucketRef, t: int) -> bool {
    match b.stamp() {
        Some(x) => x <= t,
        None => true,
    }
}

/// Every bucket of the sequence is transient or frozen no later than `t`.
pub open spec fn stamps_le(s: Seq<BucketRef>, t: int) -> bool {
    forall|i: int| 0 <= i < s.len() ==> bucket_stamp_le(#[trigger] s[i], t)
}

/// Every bucket and node of the subtree is frozen no later than `t`, and every frozen node
/// no earlier than anything below it.
pub open spec fn node_stamped(n: MemNode, t: int) -> bool
    decreases n, 0int,
{
    &&& forall|i: int| 0 <= i < n.buckets@.len() ==> bucket_stamp_le(#[trigger] n.buckets@[i], t)
    &&& children_stamped(n.children@, n.children@.len() as int, t)
}

/// The same, for the first `j` children.
pub open spec fn children_stamped(cs: Seq<FatNodeRef>, j: int, t: int) -> bool
    decreases cs, j,
{
    if 0 < j <= cs.len() {
        children_stamped(cs, j - 1, t) && ref_stamped(cs[j - 1], t)
    } else {
        true
    }
}

/// The same, for the node a pointer points to.
pub open spec fn ref_stamped(r: FatNodeRef, t: int) -> bool
    decreases r, 0int,
{
    match r {
        FatNodeRef::Transient(rc) => node_stamped(*rc, t),
        FatNodeRef::Persistent(p) => p.txid@ <= t && node_stamped(p.node, p.txid@ as int),
    }
}

pub proof fn lemma_children_stamped(cs: Seq<FatNodeRef>, j: int, t: int)
    ensures
        children_stamped(cs, j, t) <==> (forall|i: int| 0 <= i < j && i < cs.len() ==> ref_stamped(#[trigger] cs[i], t))
            || j > cs.len(),
    decreases j,
{
    if 0 < j <= cs.len() {
        lemma_children_stamped(cs, j - 1, t);
        if children_stamped(cs, j, t) {
            assert forall|i: int| 0 <= i < j && i < cs.len() implies ref_stamped(#[trigger] cs[i], t) by {
                if i < j - 1 {
                } else {
                }
            }
        }
        if forall|i: int| 0 <= i < j && i < cs.len() ==> ref_stamped(#[trigger] cs[i], t) {
            assert forall|i: int| 0 <= i < j - 1 && i < cs.len() implies ref_stamped(#[trigger] cs[i], t) by {
            }
            assert(ref_stamped(cs[j - 1], t));
        }
    }
}

/// What `node_stamped` asks of the buckets and children of a node.
pub proof fn lemma_node_stamped(n: MemNode, t: int)
    ensures
        node_stamped(n, t) <==> (forall|i: int| 0 <= i < n.buckets@.len() ==> bucket_stamp_le(#[trigger] n.buckets@[i], t))
            && (forall|i: int| 0 <= i < n.children@.len() ==> ref_stamped(#[trigger] n.children@[i], t)),
{
    lemma_children_stamped(n.children@, n.children@.len() as int, t);
}

/// A later bound holds too.
pub proof fn lemma_node_stamped_mono(n: MemNode, t1: int, t2: int)
    requires
        node_stamped(n, t1),
        t1 <= t2,
    ensures
        node_stamped(n, t2),
    decreases node_height(n), 1int, 0int,
{
    lemma_node_stamped(n, t1);
    lemma_node_stamped(n, t2);
    assert forall|i: int| 0 <= i < n.children@.len() implies ref_stamped(#[trigger] n.children@[i], t2) by {
        lemma_ref_stamped_mono(n, i, t1, t2);
    }
}

proof fn lemma_ref_stamped_mono(n: MemNode, i: int, t1: int, t2: int)
    requires
        0 <= i < n.children@.len(),
        ref_stamped(n.children@[i], t1),
        t1 <= t2,
    ensures
        ref_stamped(n.children@[i], t2),
    decreases node_height(n), 0int, i,
{
    lemma_child_lower(n, i);
    if n.children@[i] is Transient {
        lemma_node_stamped_mono(ref_node(n.children@[i]), t1, t2);
    }
}

/// Every bucket below a node stamped no later than `t` is stamped no later than `t`.
pub proof fn lemma_stamped_flat(n: MemNode, t: int)
    requires
        node_stamped(n, t),
    ensures
        forall|i: int| 0 <= i < node_flat(n).len() ==> bucket_stamp_le(#[trigger] node_flat(n)[i], t),
    decreases node_height(n), 1int, 0int,
{
    lemma_node_stamped(n, t);
    if n.children@.len() > 0 {
        lemma_stamped_range(n, t, n.children@.len() as int);
        assert(node_flat(n) == flat_range(n.children@, n.buckets@, 0, n.children@.len() as int));
    } else {
        assert forall|i: int| 0 <= i < node_flat(n).len() implies bucket_stamp_le(#[trigger] node_flat(n)[i], t) by {
            assert(node_flat(n)[i] == n.buckets@[i]);
        }
    }
}

proof fn lemma_stamped_range(n: MemNode, t: int, j: int)
    requires
        node_stamped(n, t),
        0 <= j <= n.children@.len(),
    ensures
        forall|i: int| 0 <= i < flat_range(n.children@, n.buckets@, 0, j).len()
            ==> bucket_stamp_le(#[trigger] flat_range(n.children@, n.buckets@, 0, j)[i], t),
    decreases node_height(n), 0int, j,
{
    let cs = n.children@;
    let bs = n.buckets@;
    lemma_node_stamped(n, t);
    if j > 0 {
        lemma_stamped_range(n, t, j - 1);
        let c = cs[j - 1];
        lemma_child_lower(n, j - 1);
        assert(ref_stamped(c, t));
        let cn = ref_node(c);
        let tc: int = match c {
            FatNodeRef::Transient(_) => t,
            FatNodeRef::Persistent(p) => p.txid@ as int,
        };
        lemma_stamped_flat(cn, tc);
        let a = flat_range(cs, bs, 0, j - 1);
        let f = flat_range(cs, bs, 0, j);
        assert(f == a + ref_flat(c) + sep(bs, j - 1));
        assert(ref_flat(c) == node_flat(cn));
        assert forall|i: int| 0 <= i < f.len() implies bucket_stamp_le(#[trigger] f[i], t) by {
            if i < a.len() {
                assert(f[i] == a[i]);
            } else if i < a.len() + ref_flat(c).len() {
                assert(f[i] == node_flat(cn)[i - a.len()]);
                assert(bucket_stamp_le(node_flat(cn)[i - a.len()], tc));
            } else {
                assert(f[i] == bs[j - 1]);
            }
        }
    }
}

/// A later bound holds too, for a pointer.
pub proof fn lemma_ref_stamped_le(r: FatNodeRef, t1: int, t2: int)
    requires
        ref_stamped(r, t1),
        t1 <= t2,
    ensures
        ref_stamped(r, t2),
{
    if r is Transient {
        lemma_node_stamped_mono(ref_node(r), t1, t2);
    }
}

/// Freezing a sorted sequence keeps its contents.
pub proof fn lemma_immuted_contents(s: Seq<BucketRef>, txid: Counter)
    requires
        sorted_buckets(s),
    ensures
        contents(immuted_seq(s, txid)) == contents(s),
{
    let f = immuted_seq(s, txid);
    lemma_immuted_keys(s, txid);
    assert forall|k: Seq<u8>| #[trigger] contents(f).dom().contains(k) <==> contents(s).dom().contains(k) by {
        if contents(f).dom().contains(k) {
            let i = choose|i: int| 0 <= i < f.len() && #[trigger] f[i].key_view() == k;
            assert(s[i].key_view() == k);
        }
        if contents(s).dom().contains(k) {
            let i = choose|i: int| 0 <= i < s.len() && #[trigger] s[i].key_view() == k;
            assert(f[i].key_view() == k);
        }
    }
    assert forall|k: Seq<u8>| #[trigger] contents(f).dom().contains(k) implies contents(f)[k] == contents(s)[k] by {
        let i = choose|i: int| 0 <= i < f.len() && #[trigger] f[i].key_view() == k;
        lemma_contents_lookup_sorted(f, i);
        lemma_contents_lookup_sorted(s, i);
    }
    assert(contents(f) =~= contents(s));
}

/// Every bucket below a pointer stamped no later than `t` is stamped no later than `t`.
pub proof fn lemma_stamped_flat_ref(r: FatNodeRef, t: int)
    requires
        ref_stamped(r, t),
    ensures
        forall|i: int| 0 <= i < ref_flat(r).len() ==> bucket_stamp_le(#[trigger] ref_flat(r)[i], t),
{
    crate::tree::flat::lemma_ref_flat(r);
    let tr: int = match r {
        FatNodeRef::Transient(_) => t,
        FatNodeRef::Persistent(p) => p.txid@ as int,
    };
    lemma_stamped_flat(ref_node(r), tr);
}

} // verus!
