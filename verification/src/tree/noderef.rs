//! Tagged pointers to nodes: transient nodes may still be modified in place, persistent
//! nodes are frozen and shared with snapshots.
use std::rc::Rc;
use vstd::prelude::*;
use crate::counter::Counter;
use crate::tree::flat::ref_node;
use crate::tree::flat::same_node;
use crate::tree::memnode::MemNode;
use crate::tree::flat::lemma_same_node;
use crate::tree::flat::node_flat;
use crate::tree::flat::ref_flat;
use crate::tree::flat::ref_height;
use crate::tree::flat::ref_wf;
use crate::tree::freeze::immuted_seq;
use crate::tree::freeze::lemma_frozen_flat;
use crate::tree::freeze::lemma_immuted_frozen;
use crate::tree::freeze::ref_stamped;
use crate::data::order::bytes_lt;
use crate::tree::flat::tree_wf;
use crate::tree::flat::node_height;
use crate::tree::flat::lemma_bucket_in_flat;
use crate::tree::flat::lemma_child_bounds;
use crate::tree::flat::lemma_child_lower;
use crate::tree::flat::lemma_ref_flat;
use crate::tree::memnode::node_checks;
use crate::tree::memnode::children_checks;
use crate::tree::memnode::ref_checks;
use crate::tree::memnode::child_lower;
use crate::tree::memnode::child_upper;
use crate::tree::memnode::lemma_children_checks;
use crate::tree::memnode::opt_bytes;

verus! {

/// A node frozen by the snapshot with counter `txid`.
pub struct PersistentNode {
    pub txid: Counter,
    /// Persistent nodes reuse the in-memory node layout.
    pub node: MemNode,
}

impl PersistentNode {
    /// A modifiable copy of this node.
    pub fn fork(&self) -> (r: MemNode)
        ensures
            same_node(r, self.node),
    {
        self.node.fork_shared()
    }

    pub fn txid(&self) -> (r: Counter)
        ensures
            r == self.txid,
    {
        self.txid
    }
}

/// A pointer to a node, owned by its parent node or by the tree.
pub enum FatNodeRef {
    Transient(Rc<MemNode>),
    Persistent(Rc<PersistentNode>),
}

/// A cheap handle to a node, used to walk a tree.
pub enum NodeRef {
    Transient(Rc<MemNode>),
    Persistent(Rc<PersistentNode>),
}

/// A node that may be modified: either the node a transient pointer held (when nothing else
/// shared it), or a fresh copy of a shared or persistent node.
pub enum HotHandle {
    Existing(MemNode),
    New(MemNode),
}

impl HotHandle {
    pub open spec fn node(&self) -> MemNode {
        match *self {
            HotHandle::Existing(n) => n,
            HotHandle::New(n) => n,
        }
    }

    /// The modifiable node.
    pub fn into_node(self) -> (r: MemNode)
        ensures
            r == self.node(),
    {
        match self {
            HotHandle::Existing(n) => n,
            HotHandle::New(n) => n,
        }
    }

    /// Does something to the referenced MemNode: `f` takes the node and hands back the node
    /// to keep, together with its result.
    pub fn apply_mut<F, R>(&mut self, f: F) -> (r: R)
        where F: FnOnce(MemNode) -> (MemNode, R)
        requires
            f.requires((old(self).node(),)),
        ensures
            f.ensures((old(self).node(),), (final(self).node(), r)),
            (*final(self) is Existing) == (*old(self) is Existing),
    {
        let mut taken = HotHandle::New(MemNode::empty());
        std::mem::swap(self, &mut taken);
        match taken {
            HotHandle::Existing(n) => {
                let (n2, r) = f(n);
                *self = HotHandle::Existing(n2);
                r
            },
            HotHandle::New(n) => {
                let (n2, r) = f(n);
                *self = HotHandle::New(n2);
                r
            },
        }
    }
}

/// Makes the node behind a transient pointer modifiable: the node itself when nothing else
/// shares it, a copy otherwise.
fn heat_transient(rc: Rc<MemNode>) -> (r: (HotHandle, bool))
    ensures
        same_node(r.0.node(), *rc),
        r.1 == r.0 is New,
        r.0 is Existing ==> r.0.node() == *rc,
{
    match Rc::try_unwrap(rc) {
        Ok(n) => (HotHandle::Existing(n), false),
        Err(rc) => (HotHandle::New(rc.fork_shared()), true),
    }
}

impl FatNodeRef {
    /* Constructors */
    pub fn new_transient(n: MemNode) -> (r: Self)
        ensures
            r == FatNodeRef::Transient(Rc::new(n)),
            ref_node(r) == n,
    {
        FatNodeRef::Transient(Rc::new(n))
    }

    /// Another pointer to the same node.
    pub fn share(&self) -> (r: FatNodeRef)
        ensures
            r == *self,
    {
        match self {
            FatNodeRef::Transient(rc) => FatNodeRef::Transient(Rc::clone(rc)),
            FatNodeRef::Persistent(rc) => FatNodeRef::Persistent(Rc::clone(rc)),
        }
    }

    /* Accessors */
    /// The node this pointer points to.
    pub fn node(&self) -> (r: &MemNode)
        ensures
            *r == ref_node(*self),
    {
        match self {
            FatNodeRef::Transient(rc) => &**rc,
            FatNodeRef::Persistent(rc) => &rc.node,
        }
    }

    pub fn apply<F, R>(&self, f: F) -> (r: R)
        where F: FnOnce(&MemNode) -> R
        requires
            f.requires((&ref_node(*self),)),
        ensures
            f.ensures((&ref_node(*self),), r),
    {
        f(self.node())
    }

    /// Applies `f` to this persistent node.
    pub fn apply_persistent<F, R>(&self, f: F) -> (r: R)
        where F: FnOnce(&PersistentNode) -> R
        requires
            *self is Persistent,
            self matches FatNodeRef::Persistent(p) && f.requires((&*p,)),
        ensures
            self matches FatNodeRef::Persistent(p) && f.ensures((&*p,), r),
    {
        match self {
            FatNodeRef::Persistent(rc) => f(&**rc),
            FatNodeRef::Transient(_) => vstd::pervasive::unreached(),
        }
    }

    /// A handle to the same node.
    pub fn noderef(&self) -> (r: NodeRef)
        ensures
            r.fat() == *self,
    {
        match self {
            FatNodeRef::Transient(rc) => NodeRef::Transient(Rc::clone(rc)),
            FatNodeRef::Persistent(rc) => NodeRef::Persistent(Rc::clone(rc)),
        }
    }

    /// Makes the node modifiable, consuming this pointer; the flag tells whether it was
    /// copied.
    pub fn heat(self) -> (r: (HotHandle, bool))
        ensures
            same_node(r.0.node(), ref_node(self)),
            r.1 == r.0 is New,
            self is Persistent ==> r.1,
            r.0 is Existing ==> r.0.node() == ref_node(self),
    {
        match self {
            FatNodeRef::Transient(rc) => heat_transient(rc),
            FatNodeRef::Persistent(rc) => (HotHandle::New(rc.fork()), true),
        }
    }

    /// Reassigns this pointer to the node held by the given HotHandle.
    pub fn reassign(&mut self, h: HotHandle)
        ensures
            *final(self) == FatNodeRef::Transient(Rc::new(h.node())),
    {
        *self = FatNodeRef::Transient(Rc::new(h.into_node()));
    }

    /// Freezes the subtree of this pointer for the snapshot with counter `txid`: a transient
    /// node becomes a persistent node stamped with `txid`, its buckets and children frozen
    /// too; a persistent node is left as it is.
    pub fn immute(&mut self, txid: Counter)
        requires
            ref_wf(*old(self)),
        ensures
            ref_wf(*final(self)),
            *final(self) is Persistent,
            ref_flat(*final(self)) == immuted_seq(ref_flat(*old(self)), txid),
            *old(self) is Persistent ==> *final(self) == *old(self),
            ref_stamped(*old(self), txid@ as int) ==> ref_stamped(*final(self), txid@ as int),
        decreases ref_height(*old(self)), 1int,
    {
        let ghost old_ref = *self;
        let mut taken = FatNodeRef::Transient(Rc::new(MemNode::empty()));
        std::mem::swap(self, &mut taken);
        match taken {
            FatNodeRef::Transient(rc) => {
                let ghost old_node = ref_node(old_ref);
                let mut n = match Rc::try_unwrap(rc) {
                    Ok(n) => n,
                    Err(rc) => rc.fork_shared(),
                };
                proof {
                    lemma_same_node(n, old_node);
                }
                n.cool(txid);
                *self = FatNodeRef::Persistent(Rc::new(PersistentNode { txid, node: n }));
            },
            FatNodeRef::Persistent(p) => {
                proof {
                    lemma_frozen_flat(ref_node(old_ref));
                    lemma_immuted_frozen(node_flat(ref_node(old_ref)), txid);
                }
                *self = FatNodeRef::Persistent(p);
            },
        }
    }

    /// Another pointer to this persistent node.
    pub fn shallow_clone(&self) -> (r: FatNodeRef)
        requires
            *self is Persistent,
        ensures
            r == *self,
    {
        match self {
            FatNodeRef::Persistent(rc) => FatNodeRef::Persistent(Rc::clone(rc)),
            FatNodeRef::Transient(_) => vstd::pervasive::unreached(),
        }
    }

    /// Checks the invariants of the whole subtree of this pointer; returns whether they hold.
    pub fn check_invariants(&self) -> (r: bool)
        ensures
            r == node_checks(ref_node(*self), None, None, true),
    {
        self.check_invariants_helper(None, None, self.is_transient(), true)
    }

    /// Checks that this pointer is not transient below a persistent node, and the invariants
    /// of its node within the given bounds; returns whether they hold.
    pub fn check_invariants_helper(
        &self,
        parent_lower_bound: Option<&[u8]>,
        parent_upper_bound: Option<&[u8]>,
        is_transient: bool,
        recurse: bool,
    ) -> (r: bool)
        ensures
            r == (!(!is_transient && *self is Transient) && node_checks(
                ref_node(*self),
                opt_bytes(parent_lower_bound),
                opt_bytes(parent_upper_bound),
                recurse,
            )),
    {
        if !is_transient && self.is_transient() {
            false
        } else {
            self.node().check_invariants_helper(parent_lower_bound, parent_upper_bound, self.is_transient(), recurse)
        }
    }

    pub fn is_transient(&self) -> (r: bool)
        ensures
            r == *self is Transient,
    {
        match self {
            FatNodeRef::Transient(_) => true,
            FatNodeRef::Persistent(_) => false,
        }
    }
}

impl NodeRef {
    /// The pointer this handle stands for.
    pub open spec fn fat(&self) -> FatNodeRef {
        match *self {
            NodeRef::Transient(rc) => FatNodeRef::Transient(rc),
            NodeRef::Persistent(rc) => FatNodeRef::Persistent(rc),
        }
    }

    /// A strong pointer to the node.
    pub fn upgrade(&self) -> (r: FatNodeRef)
        ensures
            r == self.fat(),
    {
        match self {
            NodeRef::Transient(rc) => FatNodeRef::Transient(Rc::clone(rc)),
            NodeRef::Persistent(rc) => FatNodeRef::Persistent(Rc::clone(rc)),
        }
    }

    /// The node this handle points to.
    pub fn node(&self) -> (r: &MemNode)
        ensures
            *r == ref_node(self.fat()),
    {
        match self {
            NodeRef::Transient(rc) => &**rc,
            NodeRef::Persistent(rc) => &rc.node,
        }
    }

    pub fn apply<F, R>(&self, f: F) -> (r: R)
        where F: FnOnce(&MemNode) -> R
        requires
            f.requires((&ref_node(self.fat()),)),
        ensures
            f.ensures((&ref_node(self.fat()),), r),
    {
        f(self.node())
    }

    /// Applies `f` to this persistent node.
    pub fn apply_persistent<F, R>(&self, f: F) -> (r: R)
        where F: FnOnce(&PersistentNode) -> R
        requires
            self matches NodeRef::Persistent(p) && f.requires((&*p,)),
        ensures
            self matches NodeRef::Persistent(p) && f.ensures((&*p,), r),
    {
        match self {
            NodeRef::Persistent(rc) => f(&**rc),
            NodeRef::Transient(_) => vstd::pervasive::unreached(),
        }
    }

    /// Returns a modifiable node, consuming this handle, together with whether the node had
    /// to be copied (it is copied when persistent or shared).
    pub fn heat(self) -> (r: (HotHandle, bool))
        ensures
            same_node(r.0.node(), ref_node(self.fat())),
            r.1 == r.0 is New,
            self is Persistent ==> r.1,
            r.0 is Existing ==> r.0.node() == ref_node(self.fat()),
    {
        match self {
            NodeRef::Transient(rc) => heat_transient(rc),
            NodeRef::Persistent(rc) => (HotHandle::New(rc.fork()), true),
        }
    }
}

impl Clone for NodeRef {
    fn clone(&self) -> (r: Self)
        ensures
            r == *self,
    {
        match self {
            NodeRef::Transient(rc) => NodeRef::Transient(Rc::clone(rc)),
            NodeRef::Persistent(rc) => NodeRef::Persistent(Rc::clone(rc)),
        }
    }
}

/// A well-formed subtree whose keys lie within the given bounds passes the checks.
pub proof fn lemma_wf_checks(n: MemNode, lo: Option<Seq<u8>>, hi: Option<Seq<u8>>)
    requires
        tree_wf(n),
        lo matches Some(l) ==> forall|i: int| 0 <= i < node_flat(n).len() ==> bytes_lt(l, #[trigger] node_flat(n)[i].key_view()),
        hi matches Some(h) ==> forall|i: int| 0 <= i < node_flat(n).len() ==> bytes_lt(#[trigger] node_flat(n)[i].key_view(), h),
    ensures
        node_checks(n, lo, hi, true),
    decreases node_height(n), 1int, 0int,
{
    let bs = n.buckets@;
    lemma_bucket_in_flat(n, 0);
    lemma_bucket_in_flat(n, bs.len() - 1);
    if n.children@.len() > 0 {
        lemma_wf_children_checks(n, n.children@.len() as int);
    }
}

proof fn lemma_wf_children_checks(n: MemNode, j: int)
    requires
        tree_wf(n),
        n.children@.len() > 0,
        0 <= j <= n.children@.len(),
    ensures
        children_checks(n.children@, n.buckets@, j),
    decreases node_height(n), 0int, j,
{
    if j > 0 {
        lemma_wf_children_checks(n, j - 1);
        let i = j - 1;
        let c = n.children@[i];
        lemma_child_bounds(n, i);
        lemma_child_lower(n, i);
        lemma_ref_flat(c);
        lemma_wf_checks(ref_node(c), child_lower(n.buckets@, i), child_upper(n.buckets@, i));
        assert(ref_checks(c, child_lower(n.buckets@, i), child_upper(n.buckets@, i)));
        lemma_children_checks(n.children@, n.buckets@, i);
    }
}

} // verus!
