//! An optional pointer to the top node of a tree: the head of a tree.
use vstd::prelude::*;
use crate::counter::Counter;
use crate::data::rcbytes::ByteRc;
use crate::data::traits::Datum;
use crate::tree::btree::inserted_entry;
use crate::tree::bucketref::BucketRef;
use crate::tree::flat::contents;
use crate::tree::flat::key_absent;
use crate::tree::flat::lemma_ref_flat;
use crate::tree::flat::ref_flat;
use crate::tree::flat::ref_node;
use crate::tree::flat::ref_tree_wf;
use crate::tree::freeze::immuted_seq;
use crate::tree::memnode::MemNode;
use crate::tree::memnode::node_checks;
use crate::tree::noderef::FatNodeRef;

verus! {

/// An optional pointer to the top node of a tree.
pub struct NodePtr {
    v: Option<FatNodeRef>,
}

impl NodePtr {
    /// The pointer.
    pub closed spec fn ptr(&self) -> Option<FatNodeRef> {
        self.v
    }

    /// The buckets of the tree, in order.
    pub open spec fn flat(&self) -> Seq<BucketRef> {
        match self.ptr() {
            Some(r) => ref_flat(r),
            None => Seq::empty(),
        }
    }

    /// The tree, if there is one, is well formed and its keys are in order.
    pub open spec fn wf(&self) -> bool {
        self.ptr() matches Some(r) ==> ref_tree_wf(r)
    }

    /// A pointer to a new transient node.
    pub fn new_transient(p: MemNode) -> (r: Self)
        ensures
            r.ptr() == Some(FatNodeRef::Transient(std::rc::Rc::new(p))),
    {
        Self::wrap(FatNodeRef::new_transient(p))
    }

    pub fn wrap(p: FatNodeRef) -> (r: Self)
        ensures
            r.ptr() == Some(p),
    {
        NodePtr { v: Some(p) }
    }

    pub fn empty() -> (r: Self)
        ensures
            r.ptr() is None,
    {
        NodePtr { v: None }
    }

    pub fn is_empty(&self) -> (r: bool)
        ensures
            r == self.ptr() is None,
    {
        self.v.is_none()
    }

    pub fn deref(&self) -> (r: Option<&FatNodeRef>)
        ensures
            r matches Some(p) ==> self.ptr() == Some(*p),
            r is None ==> self.ptr() is None,
    {
        self.v.as_ref()
    }

    /// The pointer, which must be there.
    pub fn unwrap(&self) -> (r: &FatNodeRef)
        requires
            self.ptr() is Some,
        ensures
            self.ptr() == Some(*r),
    {
        self.v.as_ref().unwrap()
    }

    pub fn deref_mut(&mut self) -> (r: Option<&mut FatNodeRef>)
        ensures
            old(self).ptr() is None ==> r is None && final(self).ptr() is None,
            old(self).ptr() is Some ==> (r matches Some(p) && old(self).ptr() == Some(*p) && final(self).ptr() == Some(
                *final(p),
            )),
    {
        match &mut self.v {
            Some(p) => Some(p),
            None => None,
        }
    }

    /// The pointer, which must be there, to modify.
    pub fn unwrap_mut(&mut self) -> (r: &mut FatNodeRef)
        requires
            old(self).ptr() is Some,
        ensures
            old(self).ptr() == Some(*r),
            final(self).ptr() == Some(*final(r)),
    {
        match &mut self.v {
            Some(p) => p,
            None => vstd::pervasive::unreached(),
        }
    }

    /// Freezes the tree for the snapshot with counter `txid`.
    pub fn cool(&mut self, txid: Counter)
        requires
            old(self).wf(),
        ensures
            final(self).wf(),
            final(self).flat() == immuted_seq(old(self).flat(), txid),
            final(self).ptr() matches Some(r) ==> r is Persistent,
            final(self).ptr() is Some == old(self).ptr() is Some,
    {
        let ghost old_flat = self.flat();
        match &mut self.v {
            Some(noderef) => {
                noderef.immute(txid);
                proof {
                    crate::tree::freeze::lemma_immuted_keys(old_flat, txid);
                }
            },
            None => {},
        }
        proof {
            if self.ptr() is None {
                assert(immuted_seq(old_flat, txid) =~= Seq::<BucketRef>::empty());
            }
        }
    }

    /// Another pointer to the same frozen tree.
    pub fn shallow_clone(&self) -> (r: Self)
        requires
            self.ptr() matches Some(p) ==> p is Persistent,
        ensures
            r.ptr() == self.ptr(),
    {
        match self.v.as_ref() {
            Some(noderef) => Self::wrap(noderef.shallow_clone()),
            None => Self::empty(),
        }
    }

    /// Inserts `k`, which the tree does not hold, with value `v`.
    pub fn insert<D: Datum>(self, k: &[u8], v: &D) -> (r: Self)
        requires
            self.wf(),
            key_absent(self.flat(), k@),
        ensures
            r.wf(),
            r.ptr() is Some,
            inserted_entry(self.flat(), r.flat(), k@, v.datum_view()),
            contents(r.flat()) == contents(self.flat()).insert(k@, v.datum_view()),
    {
        match self.v {
            Some(noderef) => Self::wrap(crate::tree::btree::insert(noderef, k, v)),
            None => {
                let b = BucketRef::new_transient(k, v);
                let r = Self::new_transient(MemNode::new_from_one(b));
                proof {
                    let p = r.ptr()->0;
                    lemma_ref_flat(p);
                    crate::tree::btree::lemma_contents_one(b);
                    let e = Seq::<BucketRef>::empty();
                    assert(e.insert(0, b) =~= seq![b]);
                    assert(crate::tree::flat::inserted_at(e, seq![b], b, 0));
                    assert(crate::tree::flat::inserted(e, seq![b], b));
                    assert(contents(e) =~= Map::<Seq<u8>, Seq<u8>>::empty());
                }
                r
            },
        }
    }

    /// Looks `k` up.
    pub fn get(&mut self, k: &[u8]) -> (r: Option<ByteRc>)
        requires
            old(self).wf(),
        ensures
            *final(self) == *old(self),
            r is Some == contents(old(self).flat()).dom().contains(k@),
            r matches Some(v) ==> v@ == contents(old(self).flat())[k@],
    {
        match self.v.as_ref() {
            Some(nref) => crate::tree::btree::get(nref.noderef(), k),
            None => None,
        }
    }

    /// Checks the invariants of the tree; returns whether they hold.
    pub fn check_invariants(&self) -> (r: bool)
        ensures
            r == (self.ptr() matches Some(p) ==> node_checks(ref_node(p), None, None, true)),
    {
        match self.v.as_ref() {
            Some(nref) => nref.check_invariants(),
            None => true,
        }
    }
}

} // verus!
