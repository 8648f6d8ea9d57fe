//! Byte maps and the persistent B-tree that implements them, with its snapshots and the
//! differences between snapshots.
use vstd::prelude::*;
use crate::counter::Counter;
use crate::counter::counter_modulus;
use crate::data::rcbytes::ByteRc;
use crate::data::traits::Datum;
use crate::data::traits::Key;
use crate::tree::btree::get;
use crate::tree::btree::get_recent;
use crate::tree::btree::insert;
use crate::tree::btree::recent_value;
use crate::tree::btree::stamp_bound;
use crate::tree::bucketref::BucketRef;
use crate::tree::flat::contents;
use crate::tree::flat::key_absent;
use crate::tree::flat::lemma_ref_flat;
use crate::tree::flat::ref_flat;
use crate::tree::flat::ref_node;
use crate::tree::flat::ref_tree_wf;
use crate::tree::freeze::immuted_seq;
use crate::tree::freeze::lemma_immuted_keys;
use crate::tree::freeze::ref_stamped;
use crate::tree::freeze::bucket_stamp_le;
use crate::tree::freeze::stamps_le;
use crate::tree::flat::sorted_buckets;
use crate::tree::flat::inserted;
use crate::tree::flat::inserted_at;
use crate::tree::flat::lemma_contents_insert;
use crate::tree::btree::inserted_entry;
use crate::counter::lemma_circle_order_without_wrap;
use crate::data::order::bytes_lt;
use crate::tree::noderef::NodeRef;
use crate::tree::nodestack::NodeStack;
use crate::tree::nodestack::entry_node;
use crate::tree::nodestack::lower_bound;
use crate::tree::nodestack::position;
use crate::tree::nodestack::root_flat;
use crate::tree::nodestack::stack_wf;
use crate::tree::memnode::MemNode;
use crate::tree::window::ref_within;
use crate::counter::circle_distance;
use crate::tree::noderef::FatNodeRef;

verus! {

/// A map from byte keys to byte values.
pub trait ByteMap {
    /// The type of a value handed out by `get`.
    type Get: Datum;

    /// The map this object stands for.
    spec fn map_view(&self) -> Map<Seq<u8>, Seq<u8>>;

    /// `get` finds every key of `map_view`, not only answers correctly for the ones it finds.
    spec fn finds_all(&self) -> bool;

    /// Looks a key up. Takes `&mut self` because a lookup may record a read.
    fn get<K: Key + ?Sized>(&mut self, k: &K) -> (r: Option<Self::Get>)
        ensures
            final(self).map_view() == old(self).map_view(),
            final(self).finds_all() == old(self).finds_all(),
            r matches Some(v) ==> old(self).map_view().dom().contains(k.key_view()) && v.datum_view()
                == old(self).map_view()[k.key_view()],
            old(self).finds_all() ==> (r is Some == old(self).map_view().dom().contains(k.key_view())),
    ;

    /// Checks the invariants of the data structure; returns whether they hold.
    fn check_invariants(&self) -> (r: bool);
}

/// A map that also takes insertions.
pub trait MutableByteMap: ByteMap {
    /// Inserts `k`, which the map does not hold yet, with value `v`.
    fn insert<K: Key + ?Sized, V: Datum>(&mut self, k: &K, v: &V)
        requires
            !old(self).map_view().dom().contains(k.key_view()),
        ensures
            final(self).map_view() == old(self).map_view().insert(k.key_view(), v.datum_view()),
            old(self).finds_all() ==> final(self).finds_all(),
    ;
}

/// The key/value pairs of a sequence of buckets.
pub open spec fn pairs(s: Seq<BucketRef>) -> Seq<(Seq<u8>, Seq<u8>)> {
    s.map_values(|b: BucketRef| (b.key_view(), b.value_view()))
}

/// `p` is the number of entries of `es` whose keys sort before `k`.
pub open spec fn key_lower_bound(es: Seq<(Seq<u8>, Seq<u8>)>, k: Seq<u8>, p: int) -> bool {
    &&& 0 <= p <= es.len()
    &&& forall|i: int| 0 <= i < p ==> bytes_lt(#[trigger] es[i].0, k)
    &&& forall|i: int| p <= i < es.len() ==> !bytes_lt(#[trigger] es[i].0, k)
}

/// The entries of `es` from the first whose key does not sort before `k` on.
pub open spec fn entries_from(es: Seq<(Seq<u8>, Seq<u8>)>, k: Seq<u8>) -> Seq<(Seq<u8>, Seq<u8>)> {
    es.skip(choose|p: int| key_lower_bound(es, k, p))
}

/// A position in the entries of a map, in key order.
pub trait Cursor {
    /// The type of a value handed out by `value`.
    type Get: Datum;

    /// The entries from the current one on.
    spec fn entries(&self) -> Seq<(Seq<u8>, Seq<u8>)>;

    /// The key of the current entry, if there is one.
    fn key(&self) -> (r: Option<ByteRc>)
        ensures
            r is Some == (self.entries().len() > 0),
            r matches Some(k) ==> k@ == self.entries()[0].0,
    ;

    /// The value of the current entry, if there is one.
    fn value(&self) -> (r: Option<Self::Get>)
        ensures
            r is Some == (self.entries().len() > 0),
            r matches Some(v) ==> v.datum_view() == self.entries()[0].1,
    ;

    /// Moves on to the next entry; tells whether there is one.
    fn advance(&mut self) -> (r: bool)
        requires
            old(self).entries().len() > 0,
        ensures
            final(self).entries() == old(self).entries().drop_first(),
            r == (final(self).entries().len() > 0),
    ;
}

/// A map whose entries can be walked in key order.
pub trait NavigableByteMap: ByteMap {
    type Cursor: Cursor;

    /// The entries of the map in key order.
    spec fn ordered_entries(&self) -> Seq<(Seq<u8>, Seq<u8>)>;

    /// A cursor at the first entry whose key does not sort before `k`.
    fn cursor(&self, k: &[u8]) -> (r: Self::Cursor)
        ensures
            r.entries() == entries_from(self.ordered_entries(), k@),
    ;

    /// A cursor at the first entry.
    fn start_cursor(&self) -> (r: Self::Cursor)
        ensures
            r.entries() == self.ordered_entries(),
    {
        let empty: [u8; 0] = [];
        let r = self.cursor(empty.as_slice());
        proof {
            lemma_entries_from_start(self.ordered_entries(), empty@);
        }
        r
    }
}

/// Nothing sorts before the empty key.
proof fn lemma_entries_from_start(es: Seq<(Seq<u8>, Seq<u8>)>, k: Seq<u8>)
    requires
        k.len() == 0,
    ensures
        entries_from(es, k) == es,
{
    assert(key_lower_bound(es, k, 0));
    let p = choose|p: int| key_lower_bound(es, k, p);
    if p > 0 {
        assert(bytes_lt(es[0].0, k));
    }
    assert(es.skip(0) =~= es);
}

/// A snapshot of a map. Each snapshot has a transaction counter.
pub trait ByteMapSnapshot: NavigableByteMap {
    type Diff: ByteMap;

    /// The counter a snapshot was taken at.
    spec fn txid_view(&self) -> u64;

    /// This snapshot's transaction counter.
    fn txid(&self) -> (r: Counter)
        ensures
            r@ == self.txid_view(),
    ;

    /// The data of this snapshot committed after the transaction with counter `past`.
    fn diff(&self, past: Counter) -> (r: Self::Diff);
}

/// A map supporting snapshots.
pub trait FunctionalByteMap: MutableByteMap {
    type Snap: ByteMapSnapshot;

    /// Takes a snapshot: a map that keeps the current contents whatever later becomes of
    /// this one.
    fn snap(&mut self) -> (r: Self::Snap)
        ensures
            r.map_view() == old(self).map_view(),
            final(self).map_view() == old(self).map_view(),
            r.finds_all(),
            old(self).finds_all() ==> final(self).finds_all(),
    ;
}

/// The counter a snapshot taken after the one with counter `c` gets.
pub open spec fn next_counter(c: u64) -> u64 {
    ((c + 1) % counter_modulus()) as u64
}

/// A simple in-memory persistent B-tree.
pub struct PersistentBTree {
    head: Option<FatNodeRef>,
    /// The counter of the next snapshot; the transient data of this tree will be frozen with it.
    leading_txid: Counter,
}

impl PersistentBTree {
    #[verifier::type_invariant]
    closed spec fn wf(self) -> bool {
        self.head matches Some(h) ==> ref_tree_wf(h)
    }

    /// The buckets of the tree in key order.
    pub closed spec fn flat(&self) -> Seq<BucketRef> {
        match self.head {
            Some(h) => ref_flat(h),
            None => Seq::empty(),
        }
    }

    /// The counter of the next snapshot.
    pub closed spec fn leading(&self) -> Counter {
        self.leading_txid
    }

    /// The value of the counter of the next snapshot.
    pub closed spec fn txid_view(&self) -> u64 {
        self.leading_txid@
    }

    /// Every node and bucket of the tree, frozen or not, is a frozen node of this tree:
    /// the head is persistent, or there is none.
    pub closed spec fn is_frozen(&self) -> bool {
        self.head matches Some(h) ==> h is Persistent
    }

    /// The counters of the tree and its buckets are at most its own counter, which is at most
    /// `stamp_bound()`: no counter has wrapped around.
    pub closed spec fn counters_in_order(&self) -> bool {
        &&& self.leading_txid@ <= stamp_bound()
        &&& self.head matches Some(h) ==> ref_stamped(h, self.leading_txid@ as int)
    }

    /// What was written to the tree since it was last frozen: the entries of its transient
    /// buckets.
    pub closed spec fn written_since_frozen(&self) -> Map<Seq<u8>, Seq<u8>> {
        transient_contents(self.flat())
    }

    /// Every counter in the tree lies within a quarter of the counter circle from `w`, each
    /// node no earlier there than what lies below it.
    pub closed spec fn counters_within(&self, w: u64) -> bool {
        self.head matches Some(h) ==> ref_within(h, w, stamp_bound())
    }

    /// Every frozen bucket of the tree was frozen with a counter at most `c`.
    pub closed spec fn frozen_no_later_than(&self, c: int) -> bool {
        stamps_le(self.flat(), c)
    }

    pub fn new() -> (r: PersistentBTree)
        ensures
            r.written_since_frozen() == Map::<Seq<u8>, Seq<u8>>::empty(),
            forall|c: int| #[trigger] r.frozen_no_later_than(c),
            r@ == Map::<Seq<u8>, Seq<u8>>::empty(),
            r.flat() == Seq::<BucketRef>::empty(),
            r.txid_view() == 0,
            r.counters_in_order(),
    {
        PersistentBTree { head: None, leading_txid: Counter::new(0) }
    }

    /// The counter of the next snapshot.
    pub fn txid(&self) -> (r: Counter)
        ensures
            r@ == self.txid_view(),
    {
        self.leading_txid
    }

    /// Looks `k` up among the buckets this frozen tree froze after the transaction with
    /// counter `trailing_txid`.
    fn get_recent<K: Key + ?Sized>(&self, k: &K, trailing_txid: Counter) -> (r: Option<ByteRc>)
        requires
            self.is_frozen(),
        ensures
            r matches Some(v) ==> recent_value(self.flat(), k.key_view(), trailing_txid@) == Some(v@),
            (exists|w: u64| circle_distance(w, trailing_txid@) <= stamp_bound() && self.counters_within(w)) ==> match r {
                Some(v) => recent_value(self.flat(), k.key_view(), trailing_txid@) == Some(v@),
                None => recent_value(self.flat(), k.key_view(), trailing_txid@) is None,
            },
    {
        proof {
            use_type_invariant(self);
        }
        match &self.head {
            Some(h) => {
                proof {
                    if exists|w: u64| circle_distance(w, trailing_txid@) <= stamp_bound() && self.counters_within(w) {
                        let w = choose|w: u64| circle_distance(w, trailing_txid@) <= stamp_bound() && self.counters_within(w);
                        assert(ref_within(*h, w, stamp_bound()));
                    }
                }
                get_recent(h.noderef(), k.bytes(), trailing_txid)
            },
            None => None,
        }
    }

    /// A cursor at the first bucket whose key does not sort before `k`.
    fn cursor(&self, k: &[u8]) -> (r: BTreeCursor)
        ensures
            pairs(r.rest()) == entries_from(pairs(self.flat()), k@),
            exists|p: int| 0 <= p <= self.flat().len() && r.rest() == self.flat().skip(p),
            sorted_buckets(self.flat()),
    {
        proof {
            use_type_invariant(self);
        }
        let r = match &self.head {
            Some(strongref) => BTreeCursor::construct(strongref.noderef(), k),
            None => BTreeCursor::empty(),
        };
        proof {
            let f = self.flat();
            if self.head is None {
                assert(lower_bound(f, k@, 0));
                assert(f.skip(0) =~= r.rest());
            }
            let p = choose|p: int| lower_bound(f, k@, p) && r.rest() == f.skip(p);
            lemma_entries_from_pairs(f, k@, p);
        }
        r
    }

    /// Looks `k` up.
    fn lookup<K: Key + ?Sized>(&self, k: &K) -> (r: Option<ByteRc>)
        ensures
            r is Some == self@.dom().contains(k.key_view()),
            r matches Some(v) ==> v@ == self@[k.key_view()],
    {
        proof {
            use_type_invariant(self);
        }
        match &self.head {
            Some(h) => get(h.noderef(), k.bytes()),
            None => None,
        }
    }

    /// Freezes this tree and returns a tree sharing its nodes. Does not advance the counter.
    pub fn shallow_clone(&mut self) -> (r: PersistentBTree)
        ensures
            final(self)@ == old(self)@,
            r@ == old(self)@,
            final(self).flat() == immuted_seq(old(self).flat(), old(self).leading()),
            r.flat() == final(self).flat(),
            final(self).txid_view() == old(self).txid_view(),
            r.txid_view() == old(self).txid_view(),
            final(self).is_frozen(),
            r.is_frozen(),
            old(self).counters_in_order() ==> final(self).counters_in_order() && r.counters_in_order(),
    {
        proof {
            use_type_invariant(&*self);
        }
        let ghost old_flat = self.flat();
        let txid = self.leading_txid;
        let mut taken = None;
        std::mem::swap(&mut taken, &mut self.head);
        let cloned_head = match taken {
            Some(mut strongref) => {
                strongref.immute(txid);
                proof {
                    lemma_ref_flat(strongref);
                    lemma_immuted_keys(old_flat, txid);
                    crate::tree::freeze::lemma_immuted_contents(old_flat, txid);
                }
                let c = strongref.shallow_clone();
                self.head = Some(strongref);
                Some(c)
            },
            None => None,
        };
        PersistentBTree { head: cloned_head, leading_txid: self.leading_txid }
    }

    /// Another tree sharing the nodes of this frozen tree.
    fn persistent_clone(&self) -> (r: PersistentBTree)
        requires
            self.is_frozen(),
        ensures
            r@ == self@,
            r.flat() == self.flat(),
            r.txid_view() == self.txid_view(),
            r.is_frozen(),
            self.counters_in_order() ==> r.counters_in_order(),
            forall|w: u64| #[trigger] self.counters_within(w) ==> r.counters_within(w),
    {
        proof {
            use_type_invariant(self);
        }
        let head = match &self.head {
            Some(strongref) => Some(strongref.shallow_clone()),
            None => None,
        };
        PersistentBTree { head, leading_txid: self.leading_txid }
    }
}

/// A cursor over the buckets of a tree, from a given key on.
pub struct BTreeCursor {
    stack: NodeStack,
    current_bucket: Option<BucketRef>,
}

impl BTreeCursor {
    #[verifier::type_invariant]
    closed spec fn wf(self) -> bool {
        self.current_bucket matches Some(b) ==> {
            &&& stack_wf(self.stack@)
            &&& (self.stack@.last().1 as int) < entry_node(self.stack@.last()).buckets@.len()
            &&& 0 <= position(self.stack@) < root_flat(self.stack@).len()
            &&& b == root_flat(self.stack@)[position(self.stack@)]
        }
    }

    /// The buckets from the current one on.
    pub closed spec fn rest(&self) -> Seq<BucketRef> {
        match self.current_bucket {
            Some(_) => root_flat(self.stack@).skip(position(self.stack@)),
            None => Seq::empty(),
        }
    }

    /// A cursor over the tree `head` at the first bucket whose key does not sort before `k`.
    fn construct(head: NodeRef, k: &[u8]) -> (r: BTreeCursor)
        requires
            ref_tree_wf(head.fat()),
        ensures
            exists|p: int| lower_bound(ref_flat(head.fat()), k@, p) && r.rest() == ref_flat(head.fat()).skip(p),
    {
        let ghost f = ref_flat(head.fat());
        let (mut stack, _) = NodeStack::construct(head, k);
        let ghost s0 = stack@;
        let ghost p = position(s0);
        proof {
            crate::tree::nodestack::lemma_stack_counts(s0);
        }
        let bucket = stack.ascend_maybe();
        let r = BTreeCursor { stack, current_bucket: bucket };
        proof {
            if bucket is None {
                assert(f.skip(p) =~= Seq::<BucketRef>::empty());
            }
            assert(lower_bound(f, k@, p) && r.rest() == f.skip(p));
        }
        r
    }

    fn empty() -> (r: BTreeCursor)
        ensures
            r.rest() == Seq::<BucketRef>::empty(),
    {
        BTreeCursor { stack: NodeStack::empty(), current_bucket: None }
    }
}

impl Cursor for BTreeCursor {
    type Get = ByteRc;

    closed spec fn entries(&self) -> Seq<(Seq<u8>, Seq<u8>)> {
        pairs(self.rest())
    }

    fn key(&self) -> (r: Option<ByteRc>) {
        proof {
            use_type_invariant(self);
        }
        match &self.current_bucket {
            Some(b) => {
                proof {
                    assert(self.rest()[0] == *b);
                }
                Some(ByteRc::new(b.key()))
            },
            None => None,
        }
    }

    fn value(&self) -> (r: Option<ByteRc>) {
        proof {
            use_type_invariant(self);
        }
        match &self.current_bucket {
            Some(b) => {
                proof {
                    assert(self.rest()[0] == *b);
                }
                Some(b.value().clone())
            },
            None => None,
        }
    }

    fn advance(&mut self) -> (r: bool) {
        proof {
            use_type_invariant(&*self);
        }
        let ghost old_rest = self.rest();
        let mut me = BTreeCursor::empty();
        std::mem::swap(self, &mut me);
        let BTreeCursor { mut stack, current_bucket } = me;
        let ghost s0 = stack@;
        let ghost f = root_flat(s0);
        let ghost p = position(s0);
        proof {
            assert(current_bucket is Some);
            assert(old_rest == f.skip(p));
            crate::tree::nodestack::lemma_stack_advances(s0);
        }
        let next = stack.advance();
        let r = next.is_some();
        *self = BTreeCursor { stack, current_bucket: next };
        proof {
            assert(f.skip(p).drop_first() =~= f.skip(p + 1));
            if next is None {
                assert(f.skip(p + 1) =~= Seq::<BucketRef>::empty());
            } else {
                assert(root_flat(stack@) == f);
                assert(self.rest() == f.skip(p + 1));
            }
            assert(pairs(f.skip(p)).drop_first() =~= pairs(f.skip(p + 1)));
        }
        r
    }
}

impl View for PersistentBTree {
    type V = Map<Seq<u8>, Seq<u8>>;

    closed spec fn view(&self) -> Map<Seq<u8>, Seq<u8>> {
        contents(self.flat())
    }
}

impl ByteMap for PersistentBTree {
    type Get = ByteRc;

    open spec fn map_view(&self) -> Map<Seq<u8>, Seq<u8>> {
        self@
    }

    open spec fn finds_all(&self) -> bool {
        true
    }

    fn get<K: Key + ?Sized>(&mut self, k: &K) -> (r: Option<ByteRc>)
        ensures
            *final(self) == *old(self),
    {
        self.lookup(k)
    }

    /// The invariants always hold.
    fn check_invariants(&self) -> (r: bool)
        ensures
            r,
    {
        proof {
            use_type_invariant(self);
        }
        match &self.head {
            Some(strongref) => {
                proof {
                    lemma_ref_flat(*strongref);
                    crate::tree::noderef::lemma_wf_checks(ref_node(*strongref), None, None);
                }
                strongref.check_invariants()
            },
            None => true,
        }
    }
}

impl MutableByteMap for PersistentBTree {
    fn insert<K: Key + ?Sized, V: Datum>(&mut self, k: &K, v: &V)
        ensures
            final(self).txid_view() == old(self).txid_view(),
            old(self).counters_in_order() ==> final(self).counters_in_order(),
            final(self).written_since_frozen() == old(self).written_since_frozen().insert(k.key_view(), v.datum_view()),
            forall|c: int| #[trigger] old(self).frozen_no_later_than(c) ==> final(self).frozen_no_later_than(c),
    {
        proof {
            use_type_invariant(&*self);
        }
        let mut taken = None;
        std::mem::swap(&mut taken, &mut self.head);
        let newhead = match taken {
            Some(strongref) => {
                proof {
                    lemma_ref_flat(strongref);
                    assert forall|i: int| 0 <= i < ref_flat(strongref).len() implies #[trigger] ref_flat(
                        strongref,
                    )[i].key_view() != k.key_view() by {
                        crate::tree::btree::lemma_in_contents(ref_flat(strongref), i);
                    }
                }
                let r = insert(strongref, k.bytes(), v);
                proof {
                    lemma_ref_flat(r);
                    lemma_inserted_history(ref_flat(strongref), ref_flat(r), k.key_view(), v.datum_view());
                }
                r
            },
            None => {
                let b = BucketRef::new_transient(k.bytes(), v);
                let n = FatNodeRef::new_transient(MemNode::new_from_one(b));
                proof {
                    lemma_ref_flat(n);
                    crate::tree::btree::lemma_contents_one(b);
                    crate::tree::freeze::lemma_node_stamped(ref_node(n), self.leading_txid@ as int);
                    let e = Seq::<BucketRef>::empty();
                    assert(e.insert(0, b) =~= seq![b]);
                    lemma_transient_insert(e, b, 0);
                    assert(transient_contents(e) =~= Map::<Seq<u8>, Seq<u8>>::empty());
                }
                n
            },
        };
        self.head = Some(newhead);
    }
}

/// The data of a frozen tree committed after a given transaction.
pub struct PersistentDiff {
    v: PersistentBTree,
    rear_counter: Counter,
}

impl PersistentDiff {
    #[verifier::type_invariant]
    closed spec fn wf(self) -> bool {
        self.v.is_frozen()
    }

    /// The tree this difference is taken from.
    pub closed spec fn tree(&self) -> PersistentBTree {
        self.v
    }

    /// The counter of the transaction after which the data counts.
    pub closed spec fn rear_view(&self) -> u64 {
        self.rear_counter@
    }
}

/// The values of the buckets of `s` frozen after the transaction `trailing`.
pub open spec fn recent_map(s: Seq<BucketRef>, trailing: u64) -> Map<Seq<u8>, Seq<u8>> {
    Map::new(|k: Seq<u8>| recent_value(s, k, trailing) is Some, |k: Seq<u8>| recent_value(s, k, trailing)->0)
}

impl ByteMap for PersistentDiff {
    type Get = ByteRc;

    open spec fn map_view(&self) -> Map<Seq<u8>, Seq<u8>> {
        recent_map(self.tree().flat(), self.rear_view())
    }

    open spec fn finds_all(&self) -> bool {
        exists|w: u64| circle_distance(w, self.rear_view()) <= stamp_bound() && self.tree().counters_within(w)
    }

    fn get<K: Key + ?Sized>(&mut self, k: &K) -> (r: Option<ByteRc>)
        ensures
            *final(self) == *old(self),
    {
        proof {
            use_type_invariant(&*self);
        }
        self.v.get_recent(k, self.rear_counter)
    }

    /// The invariants always hold.
    fn check_invariants(&self) -> (r: bool)
        ensures
            r,
    {
        self.v.check_invariants()
    }
}

/// A frozen tree serves as a snapshot, as long as nothing writes to it.
pub struct PersistentSnap {
    v: PersistentBTree,
}

impl PersistentSnap {
    #[verifier::type_invariant]
    closed spec fn wf(self) -> bool {
        self.v.is_frozen()
    }

    /// The frozen tree.
    pub closed spec fn tree(&self) -> PersistentBTree {
        self.v
    }
}

impl ByteMap for PersistentSnap {
    type Get = ByteRc;

    open spec fn map_view(&self) -> Map<Seq<u8>, Seq<u8>> {
        self.tree()@
    }

    open spec fn finds_all(&self) -> bool {
        true
    }

    fn get<K: Key + ?Sized>(&mut self, k: &K) -> (r: Option<ByteRc>)
        ensures
            *final(self) == *old(self),
    {
        self.v.lookup(k)
    }

    /// The invariants always hold.
    fn check_invariants(&self) -> (r: bool)
        ensures
            r,
    {
        self.v.check_invariants()
    }
}

impl NavigableByteMap for PersistentSnap {
    type Cursor = BTreeCursor;

    open spec fn ordered_entries(&self) -> Seq<(Seq<u8>, Seq<u8>)> {
        pairs(self.tree().flat())
    }

    /// The cursor also gives its keys in strictly ascending order.
    fn cursor(&self, k: &[u8]) -> (r: BTreeCursor)
        ensures
            forall|i: int, j: int|
                0 <= i < j < r.entries().len() ==> bytes_lt(#[trigger] r.entries()[i].0, #[trigger] r.entries()[j].0),
    {
        let r = self.v.cursor(k);
        proof {
            assert(r.entries() == pairs(r.rest()));
            assert(self.ordered_entries() == pairs(self.v.flat()));
            let f = self.v.flat();
            let p = choose|p: int| 0 <= p <= f.len() && r.rest() == f.skip(p);
            assert forall|i: int, j: int|
                0 <= i < j < r.entries().len() implies bytes_lt(#[trigger] r.entries()[i].0, #[trigger] r.entries()[j].0) by {
                assert(r.rest()[i] == f[p + i]);
                assert(r.rest()[j] == f[p + j]);
            }
        }
        r
    }
}

impl ByteMapSnapshot for PersistentSnap {
    type Diff = PersistentDiff;

    open spec fn txid_view(&self) -> u64 {
        self.tree().txid_view()
    }

    fn txid(&self) -> (r: Counter) {
        self.v.txid()
    }

    fn diff(&self, past: Counter) -> (r: PersistentDiff)
        ensures
            r.tree()@ == self.tree()@,
            r.tree().flat() == self.tree().flat(),
            r.rear_view() == past@,
            self.tree().counters_in_order() ==> r.tree().counters_in_order(),
            forall|w: u64| #[trigger] self.tree().counters_within(w) ==> r.tree().counters_within(w),
    {
        proof {
            use_type_invariant(self);
        }
        PersistentDiff { v: self.v.persistent_clone(), rear_counter: past }
    }
}

impl FunctionalByteMap for PersistentBTree {
    type Snap = PersistentSnap;

    fn snap(&mut self) -> (r: PersistentSnap)
        ensures
            r.tree().flat() == final(self).flat(),
            r.tree().txid_view() == old(self).txid_view(),
            final(self).txid_view() == next_counter(old(self).txid_view()),
            final(self).flat() == immuted_seq(old(self).flat(), old(self).leading()),
            old(self).counters_in_order() ==> r.tree().counters_in_order(),
            old(self).counters_in_order() && old(self).txid_view() < stamp_bound() ==> final(self).counters_in_order(),
            final(self).written_since_frozen() == Map::<Seq<u8>, Seq<u8>>::empty(),
            old(self).counters_in_order() ==> final(self).frozen_no_later_than(old(self).txid_view() as int),
    {
        let clone = self.shallow_clone();
        // The counter moves on even when nothing was written since the last snapshot.
        let next = self.leading_txid.inc();
        proof {
            use_type_invariant(&*self);
            if self.head is Some && self.counters_in_order() && self.leading_txid@ < stamp_bound() {
                crate::tree::freeze::lemma_ref_stamped_le(self.head->0, self.leading_txid@ as int, next@ as int);
            }
        }
        proof {
            lemma_frozen_history(old(self).flat(), old(self).leading());
            if old(self).counters_in_order() && old(self).head is Some {
                crate::tree::freeze::lemma_stamped_flat_ref(old(self).head->0, old(self).txid_view() as int);
            }
        }
        self.leading_txid = next;
        PersistentSnap { v: clone }
    }
}

/// The entries of the transient buckets of `s`: the ones no snapshot has frozen yet.
pub open spec fn transient_contents(s: Seq<BucketRef>) -> Map<Seq<u8>, Seq<u8>> {
    Map::new(
        |k: Seq<u8>| exists|i: int| 0 <= i < s.len() && #[trigger] s[i].key_view() == k && s[i].stamp() is None,
        |k: Seq<u8>| contents(s)[k],
    )
}

/// Inserting a transient bucket adds its entry to the transient entries.
proof fn lemma_transient_insert(old: Seq<BucketRef>, b: BucketRef, p: int)
    requires
        0 <= p <= old.len(),
        key_absent(old, b.key_view()),
        sorted_buckets(old),
        sorted_buckets(old.insert(p, b)),
        b.stamp() is None,
    ensures
        transient_contents(old.insert(p, b)) == transient_contents(old).insert(b.key_view(), b.value_view()),
{
    let new = old.insert(p, b);
    let k = b.key_view();
    lemma_contents_insert(old, b, p);
    let tn = transient_contents(new);
    let to = transient_contents(old).insert(k, b.value_view());
    assert forall|k2: Seq<u8>| #[trigger] tn.dom().contains(k2) <==> to.dom().contains(k2) by {
        if tn.dom().contains(k2) {
            let i = choose|i: int| 0 <= i < new.len() && #[trigger] new[i].key_view() == k2 && new[i].stamp() is None;
            if i < p {
                assert(old[i].key_view() == k2);
            } else if i > p {
                assert(old[i - 1].key_view() == k2);
            }
        }
        if transient_contents(old).dom().contains(k2) {
            let i = choose|i: int| 0 <= i < old.len() && #[trigger] old[i].key_view() == k2 && old[i].stamp() is None;
            if i < p {
                assert(new[i].key_view() == k2);
            } else {
                assert(new[i + 1].key_view() == k2);
            }
        }
        if k2 == k {
            assert(new[p].key_view() == k2);
        }
    }
    assert(tn =~= to);
}

/// What an insertion does to the transient entries and to the counters of frozen buckets.
proof fn lemma_inserted_history(old: Seq<BucketRef>, new: Seq<BucketRef>, k: Seq<u8>, v: Seq<u8>)
    requires
        sorted_buckets(old),
        sorted_buckets(new),
        key_absent(old, k),
        inserted_entry(old, new, k, v),
    ensures
        transient_contents(new) == transient_contents(old).insert(k, v),
        forall|c: int| #[trigger] stamps_le(old, c) ==> stamps_le(new, c),
{
    let b = choose|b: BucketRef|
        #![trigger inserted(old, new, b)]
        b.key_view() == k && b.value_view() == v && b.stamp() is None && inserted(old, new, b);
    let p = choose|p: int| inserted_at(old, new, b, p);
    lemma_transient_insert(old, b, p);
    assert forall|c: int| #[trigger] stamps_le(old, c) implies stamps_le(new, c) by {
        assert forall|i: int| 0 <= i < new.len() implies bucket_stamp_le(#[trigger] new[i], c) by {
            if i < p {
                assert(new[i] == old[i]);
            } else if i > p {
                assert(new[i] == old[i - 1]);
            }
        }
    }
}

/// A difference taken, since a counter at most `stamp_bound()`, of a tree whose counters are
/// in order finds every key it holds.
pub proof fn law_diff_in_order_finds_all(d: PersistentDiff)
    requires
        d.tree().counters_in_order(),
        d.rear_view() <= stamp_bound(),
    ensures
        d.finds_all(),
{
    let t = d.tree();
    if let Some(h) = t.head {
        crate::tree::freeze::lemma_ref_stamped_le(h, t.leading_txid@ as int, stamp_bound());
        crate::tree::window::lemma_ref_stamped_within_zero(h, stamp_bound());
    }
    assert(circle_distance(0, d.rear_view()) <= stamp_bound());
    assert(t.counters_within(0));
}

/// Freezing leaves no transient entries.
proof fn lemma_frozen_history(s: Seq<BucketRef>, txid: Counter)
    ensures
        transient_contents(immuted_seq(s, txid)) == Map::<Seq<u8>, Seq<u8>>::empty(),
{
    assert(transient_contents(immuted_seq(s, txid)) =~= Map::<Seq<u8>, Seq<u8>>::empty());
}

/// The difference, since the transaction `c1`, of a snapshot taken with counter `c2` of a
/// tree whose buckets were all frozen with counters at most `c1`, holds exactly what was
/// written to the tree since it was last frozen. `c1 < c2 <= stamp_bound()`, where counters
/// compare as integers.
pub proof fn law_diff_holds_writes_since(s: Seq<BucketRef>, c1: Counter, c2: Counter)
    requires
        sorted_buckets(s),
        c1@ < c2@,
        c2@ <= stamp_bound(),
        stamps_le(s, c1@ as int),
    ensures
        recent_map(immuted_seq(s, c2), c1@) == transient_contents(s),
{
    let f = immuted_seq(s, c2);
    lemma_immuted_keys(s, c2);
    let rm = recent_map(f, c1@);
    let tc = transient_contents(s);
    assert forall|k: Seq<u8>| #[trigger] rm.dom().contains(k) <==> tc.dom().contains(k) by {
        lemma_history_key(s, c1, c2, k);
    }
    assert forall|k: Seq<u8>| #[trigger] rm.dom().contains(k) implies rm[k] == tc[k] by {
        lemma_history_key(s, c1, c2, k);
    }
    assert(rm =~= tc);
}

proof fn lemma_history_key(s: Seq<BucketRef>, c1: Counter, c2: Counter, k: Seq<u8>)
    requires
        sorted_buckets(s),
        c1@ < c2@,
        c2@ <= stamp_bound(),
        stamps_le(s, c1@ as int),
    ensures
        recent_value(immuted_seq(s, c2), k, c1@) is Some <==> transient_contents(s).dom().contains(k),
        transient_contents(s).dom().contains(k) ==> recent_value(immuted_seq(s, c2), k, c1@) == Some(
            transient_contents(s)[k],
        ),
{
    let f = immuted_seq(s, c2);
    lemma_immuted_keys(s, c2);
    if exists|i: int| 0 <= i < s.len() && #[trigger] s[i].key_view() == k {
        let i = choose|i: int| 0 <= i < s.len() && #[trigger] s[i].key_view() == k;
        assert(f[i].key_view() == k);
        crate::tree::btree::lemma_bucket_with_key_at(f, i);
        crate::tree::btree::lemma_bucket_with_key_at(s, i);
        crate::tree::flat::lemma_contents_lookup_sorted(s, i);
        lemma_circle_order_without_wrap(c1@, c2@);
        if s[i].stamp() is Some {
            lemma_circle_order_without_wrap(c1@, s[i].stamp()->0);
            assert(bucket_stamp_le(s[i], c1@ as int));
            if transient_contents(s).dom().contains(k) {
                let j = choose|j: int| 0 <= j < s.len() && #[trigger] s[j].key_view() == k && s[j].stamp() is None;
                crate::tree::btree::lemma_bucket_with_key_at(s, j);
            }
        } else {
            assert(transient_contents(s).dom().contains(k));
        }
    } else {
        assert forall|i: int| 0 <= i < f.len() implies #[trigger] f[i].key_view() != k by {
            assert(f[i].key_view() == s[i].key_view());
        }
    }
}

/// Entries from a key on, read off buckets or off their pairs.
proof fn lemma_entries_from_pairs(s: Seq<BucketRef>, k: Seq<u8>, p: int)
    requires
        lower_bound(s, k, p),
    ensures
        entries_from(pairs(s), k) == pairs(s.skip(p)),
{
    let es = pairs(s);
    assert forall|p: int| #[trigger] key_lower_bound(es, k, p) == lower_bound(s, k, p) by {
        if key_lower_bound(es, k, p) {
            assert forall|i: int| 0 <= i < p implies bytes_lt(#[trigger] s[i].key_view(), k) by {
                assert(es[i].0 == s[i].key_view());
            }
            assert forall|i: int| p <= i < s.len() implies !bytes_lt(#[trigger] s[i].key_view(), k) by {
                assert(es[i].0 == s[i].key_view());
            }
        }
        if lower_bound(s, k, p) {
            assert forall|i: int| 0 <= i < p implies bytes_lt(#[trigger] es[i].0, k) by {
                assert(es[i].0 == s[i].key_view());
            }
            assert forall|i: int| p <= i < es.len() implies !bytes_lt(#[trigger] es[i].0, k) by {
                assert(es[i].0 == s[i].key_view());
            }
        }
    }
    assert(key_lower_bound(es, k, p));
    let p1 = choose|q: int| key_lower_bound(es, k, q);
    if p1 < p {
        assert(bytes_lt(es[p1].0, k));
    } else if p1 > p {
        assert(bytes_lt(es[p].0, k));
    }
    assert(es.skip(p1) =~= pairs(s.skip(p)));
}

} // verus!
