use htree::counter::Counter;
use htree::data::traits::Datum;
use htree::tree::bucketref::BucketRef;
use htree::tree::memnode::InsertResult;
use htree::tree::memnode::MemNode;
use htree::tree::nodeptr::NodePtr;
use htree::tree::noderef::FatNodeRef;
use htree::tree::nodestack::NodeStack;

fn key_of(i: u32) -> Vec<u8> {
    format!("k{:04}", i).into_bytes()
}

#[test]
fn node_splits_when_full() {
    let mut n = MemNode::new_from_one(BucketRef::transient_from_bytes(&key_of(0), b"v"));
    for i in 1..15u32 {
        match n.insert_at(i as u16, BucketRef::transient_from_bytes(&key_of(i), b"v"), None) {
            InsertResult::Done => {},
            InsertResult::Flushed(_, _) => panic!("split too early"),
        }
    }
    assert_eq!(n.bucket_count(), 15);
    match n.insert_at(15, BucketRef::transient_from_bytes(&key_of(15), b"v"), None) {
        InsertResult::Done => panic!("a full node must split"),
        InsertResult::Flushed(mid, right) => {
            assert_eq!(n.bucket_count(), 7);
            assert_eq!(mid.key(), key_of(7).as_slice());
            assert_eq!(right.bucket_count(), 8);
            assert_eq!(right.key(7), key_of(15).as_slice());
        },
    }
    assert!(n.check_invariants_helper(None, None, true, true));
}

#[test]
fn find_locates_keys_and_gaps() {
    let mut n = MemNode::new_from_one(BucketRef::transient_from_bytes(&key_of(10), b"a"));
    let _ = n.insert_at(1, BucketRef::transient_from_bytes(&key_of(20), b"b"), None);
    assert_eq!(n.find(&key_of(10)), Ok(0));
    assert_eq!(n.find(&key_of(20)), Ok(1));
    assert_eq!(n.find(&key_of(5)), Err(0));
    assert_eq!(n.find(&key_of(15)), Err(1));
    assert_eq!(n.find(&key_of(25)), Err(2));
}

#[test]
fn out_of_order_keys_fail_the_check() {
    let mut n = MemNode::new_from_one(BucketRef::transient_from_bytes(&key_of(10), b"a"));
    let _ = n.insert_at(1, BucketRef::transient_from_bytes(&key_of(20), b"b"), None);
    assert!(n.check_invariants_helper(None, None, true, true));
    assert!(!n.check_invariants_helper(Some(key_of(15).as_slice()), None, true, true));
    assert!(!n.check_invariants_helper(None, Some(key_of(15).as_slice()), true, true));
    assert!(n.check_invariants_helper(Some(key_of(1).as_slice()), Some(key_of(30).as_slice()), true, true));
    // The first two keys are compared too.
    let mut m = MemNode::new_from_one(BucketRef::transient_from_bytes(b"b", b"2"));
    let _ = m.insert_at(1, BucketRef::transient_from_bytes(b"a", b"1"), None);
    assert!(!m.check_invariants_helper(None, None, true, false));
}

#[test]
fn freezing_stamps_buckets() {
    let mut r = FatNodeRef::new_transient(MemNode::new_from_one(BucketRef::transient_from_bytes(b"k", b"v")));
    assert!(r.is_transient());
    r.immute(Counter::new(3));
    assert!(!r.is_transient());
    assert_eq!(r.node().bucket_ref(0).txid().value(), 3);
    // Freezing again keeps the first counter.
    r.immute(Counter::new(4));
    assert_eq!(r.node().bucket_ref(0).txid().value(), 3);
    assert!(r.check_invariants());
}

#[test]
fn node_ptr_inserts_and_gets() {
    let mut p = NodePtr::empty();
    assert!(p.is_empty());
    for i in 0..40u32 {
        p = p.insert(&key_of(i), &key_of(i + 100));
    }
    assert!(!p.is_empty());
    assert!(p.check_invariants());
    for i in 0..40u32 {
        assert_eq!(p.get(&key_of(i)).map(|v| v.box_copy()), Some(key_of(i + 100)));
    }
    assert!(p.get(&key_of(40)).is_none());
    p.cool(Counter::new(1));
    let q = p.shallow_clone();
    let mut q = q;
    assert_eq!(q.get(&key_of(3)).map(|v| v.box_copy()), Some(key_of(103)));
}

#[test]
fn node_stack_walks_a_tree_in_order() {
    let mut p = NodePtr::empty();
    for i in 0..100u32 {
        p = p.insert(&key_of(i * 2), &b"v".to_vec());
    }
    let top = p.unwrap().noderef();
    let (mut stack, found) = NodeStack::construct(top.clone(), &key_of(40));
    assert!(found);
    let first = stack.ascend_maybe().unwrap();
    assert_eq!(first.key(), key_of(40).as_slice());
    let second = stack.advance().unwrap();
    assert_eq!(second.key(), key_of(42).as_slice());
    let (mut stack, found) = NodeStack::construct(top, &key_of(41));
    assert!(!found);
    assert_eq!(stack.ascend_maybe().unwrap().key(), key_of(42).as_slice());
    let mut count = 1;
    while stack.advance().is_some() {
        count += 1;
    }
    assert_eq!(count, 100 - 21);
    assert!(stack.is_empty());
}

#[test]
fn find_in_an_empty_node_gives_the_first_gap() {
    let n = MemNode::empty();
    assert_eq!(n.find(b"any"), Err(0));
}

#[test]
fn a_full_node_splits_around_its_middle_bucket() {
    let mut n = MemNode::new_from_one(BucketRef::transient_from_bytes(&key_of(0), b"v"));
    for i in 1..15u32 {
        let _ = n.insert_at(i as u16, BucketRef::transient_from_bytes(&key_of(2 * i), b"v"), None);
    }
    // Keys 0, 2, ..., 28; key 5 goes between 4 and 6, into the left half.
    match n.insert_at(3, BucketRef::transient_from_bytes(&key_of(5), b"v"), None) {
        InsertResult::Done => panic!("a full node must split"),
        InsertResult::Flushed(mid, right) => {
            assert_eq!(mid.key(), key_of(14).as_slice());
            assert_eq!(n.bucket_count(), 8);
            assert_eq!(n.key(3), key_of(5).as_slice());
            assert_eq!(right.bucket_count(), 7);
            assert_eq!(right.key(0), key_of(16).as_slice());
        },
    }
}

#[test]
fn weak_bucket_gives_back_its_key_and_value() {
    let b = BucketRef::transient_from_bytes(b"k", b"v");
    let w = b.downgrade();
    assert_eq!(w.key().unwrap().as_slice(), b"k");
    assert_eq!(w.value().unwrap().as_slice(), b"v");
    assert_eq!(w.key().unwrap().as_slice(), b.key());
}

#[test]
fn ascend_pops_entries_past_their_buckets() {
    let mut a = MemNode::new_from_one(BucketRef::transient_from_bytes(b"a", b"1"));
    let _ = a.insert_at(1, BucketRef::transient_from_bytes(b"b", b"2"), None);
    let b = MemNode::new_from_one(BucketRef::transient_from_bytes(b"z", b"9"));
    let mut stack = NodeStack::empty();
    stack.push(FatNodeRef::new_transient(a).noderef(), 1);
    stack.push(FatNodeRef::new_transient(b).noderef(), 1);
    // The top entry is past its only bucket: it is popped, and bucket 1 of the node below
    // is returned, its entry left on top.
    assert_eq!(stack.ascend_maybe().unwrap().key(), b"b");
    assert_eq!(stack.peek().unwrap().1, 1);
}

#[test]
fn fork_copies_a_leaf() {
    let mut n = MemNode::new_from_one(BucketRef::transient_from_bytes(b"a", b"1"));
    let _ = n.insert_at(1, BucketRef::transient_from_bytes(b"b", b"2"), None);
    let m = n.fork();
    assert_eq!(m.bucket_count(), 2);
    assert_eq!(m.key(0), b"a");
    assert_eq!(m.key(1), b"b");
    assert!(m.is_leaf());
}
