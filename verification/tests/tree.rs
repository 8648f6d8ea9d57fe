use htree::counter::Counter;
use htree::data::traits::Datum;
use htree::data::traits::IntoDatum;
use htree::tree::persistent::ByteMap;
use htree::tree::persistent::ByteMapSnapshot;
use htree::tree::persistent::Cursor;
use htree::tree::persistent::FunctionalByteMap;
use htree::tree::persistent::MutableByteMap;
use htree::tree::persistent::NavigableByteMap;
use htree::tree::persistent::PersistentBTree;

fn test_get_str<T: ByteMap>(t: &mut T, key: &str, val: Option<&str>) {
    let got = t.get(key.as_bytes()).map(|x| x.box_copy());
    assert_eq!(got.as_ref().map(|v| v.as_slice()), val.map(str::as_bytes));
}

fn smoke_test_insert<T: MutableByteMap>(t: &mut T) {
    t.insert("foo".as_bytes(), &"bar".into_datum());
    assert!(t.check_invariants());
    t.insert("fop".as_bytes(), &"baz".into_datum());
    assert!(t.check_invariants());
}

fn smoke_test_get<T: MutableByteMap>(t: &mut T) {
    t.insert("foo".as_bytes(), &"bar".into_datum());
    test_get_str(t, "foo", Some("bar"));
    test_get_str(t, "foooo", None);
    test_get_str(t, "fop", None);
    test_get_str(t, "fo", None);
    test_get_str(t, "poo", None);
    assert!(t.check_invariants());

    t.insert("fop".as_bytes(), &"baz".into_datum());
    test_get_str(t, "foo", Some("bar"));
    test_get_str(t, "foooo", None);
    test_get_str(t, "fop", Some("baz"));
    test_get_str(t, "fo", None);
    test_get_str(t, "poo", None);
    assert!(t.check_invariants());
}

fn smoke_test_snapshot<T: FunctionalByteMap>(t: &mut T) {
    t.insert("foo".as_bytes(), &"bar".into_datum());
    test_get_str(t, "foo", Some("bar"));
    assert!(t.check_invariants());

    let mut t0 = t.snap();
    test_get_str(t, "foo", Some("bar"));
    test_get_str(&mut t0, "foo", Some("bar"));
    assert!(t.check_invariants());
    assert!(t0.check_invariants());

    t.insert("fop".as_bytes(), &"baz".into_datum());
    test_get_str(t, "foo", Some("bar"));
    test_get_str(&mut t0, "foo", Some("bar"));
    test_get_str(t, "fop", Some("baz"));
    test_get_str(&mut t0, "fop", None);
    assert!(t.check_invariants());
    assert!(t0.check_invariants());
}

fn smoke_test_diffs<T: FunctionalByteMap>(t: &mut T) {
    t.insert("foo0".as_bytes(), &"bar0".into_datum());
    let t0 = t.snap();
    t.insert("foo1".as_bytes(), &"bar1".into_datum());
    let t1 = t.snap();
    t.insert("foo2".as_bytes(), &"bar2".into_datum());
    let t2 = t.snap();
    t.insert("foo3".as_bytes(), &"bar3".into_datum());

    let c1 = t1.txid();
    let mut snap12 = t2.diff(c1);
    test_get_str(&mut snap12, "foo0", None);
    test_get_str(&mut snap12, "foo1", None);
    test_get_str(&mut snap12, "foo2", Some("bar2"));
    test_get_str(&mut snap12, "foo3", None);

    let c0 = t0.txid();
    let mut snap02 = t2.diff(c0);
    test_get_str(&mut snap02, "foo0", None);
    test_get_str(&mut snap02, "foo1", Some("bar1"));
    test_get_str(&mut snap02, "foo2", Some("bar2"));
    test_get_str(&mut snap02, "foo3", None);

    let mut snap01 = t1.diff(c0);
    test_get_str(&mut snap01, "foo0", None);
    test_get_str(&mut snap01, "foo1", Some("bar1"));
    test_get_str(&mut snap01, "foo2", None);
    test_get_str(&mut snap01, "foo3", None);
}

#[test]
fn pbtree_smoke_test_insert() {
    smoke_test_insert(&mut PersistentBTree::new());
}

#[test]
fn pbtree_smoke_test_get() {
    smoke_test_get(&mut PersistentBTree::new());
}

#[test]
fn pbtree_smoke_test_snapshot() {
    smoke_test_snapshot(&mut PersistentBTree::new());
}

#[test]
fn pbtree_smoke_test_diffs() {
    smoke_test_diffs(&mut PersistentBTree::new());
}

/// A key that sorts like `i`.
fn key_of(i: u32) -> Vec<u8> {
    format!("key{:06}", i).into_bytes()
}

fn value_of(i: u32) -> Vec<u8> {
    format!("value{}", i * 7).into_bytes()
}

#[test]
fn many_inserts_split_nodes_and_stay_findable() {
    let mut t = PersistentBTree::new();
    // Insert in a scrambled order so that splits happen at every position.
    let n: u32 = 600;
    for step in 0..n {
        let i = (step * 269) % n;
        t.insert(&key_of(i), &value_of(i));
    }
    assert!(t.check_invariants());
    for i in 0..n {
        let got = t.get(&key_of(i)).map(|v| v.box_copy());
        assert_eq!(got, Some(value_of(i)));
    }
    assert!(t.get(&key_of(n)).is_none());
    assert!(t.get("key".as_bytes()).is_none());
}

#[test]
fn snapshot_is_not_affected_by_later_inserts() {
    let mut t = PersistentBTree::new();
    for i in 0..100u32 {
        t.insert(&key_of(2 * i), &value_of(i));
    }
    let mut s = t.snap();
    for i in 0..100u32 {
        t.insert(&key_of(2 * i + 1), &value_of(i));
    }
    for i in 0..100u32 {
        assert_eq!(s.get(&key_of(2 * i)).map(|v| v.box_copy()), Some(value_of(i)));
        assert!(s.get(&key_of(2 * i + 1)).is_none());
        assert_eq!(t.get(&key_of(2 * i + 1)).map(|v| v.box_copy()), Some(value_of(i)));
    }
    assert!(s.check_invariants());
    assert!(t.check_invariants());
}

#[test]
fn snapshot_counters_advance() {
    let mut t = PersistentBTree::new();
    assert_eq!(t.txid().value(), 0);
    t.insert("a".as_bytes(), &"1".into_datum());
    let s0 = t.snap();
    assert_eq!(s0.txid().value(), 0);
    assert_eq!(t.txid().value(), 1);
    let s1 = t.snap();
    assert_eq!(s1.txid().value(), 1);
    assert_eq!(t.txid().value(), 2);
}

#[test]
fn diff_over_many_keys_holds_what_was_written_since() {
    let mut t = PersistentBTree::new();
    for i in 0..200u32 {
        t.insert(&key_of(i), &value_of(i));
    }
    let before = t.snap();
    for i in 200..400u32 {
        t.insert(&key_of(i), &value_of(i));
    }
    let after = t.snap();
    let mut d = after.diff(before.txid());
    for i in 0..200u32 {
        assert!(d.get(&key_of(i)).is_none());
    }
    for i in 200..400u32 {
        assert_eq!(d.get(&key_of(i)).map(|v| v.box_copy()), Some(value_of(i)));
    }
    assert!(d.check_invariants());
}

#[test]
fn cursor_walks_keys_in_order_from_a_key() {
    let mut t = PersistentBTree::new();
    for step in 0..300u32 {
        let i = (step * 7) % 300;
        t.insert(&key_of(2 * i), &value_of(i));
    }
    let s = t.snap();
    // Start between two keys: at the first key after it.
    let mut c = s.cursor(&key_of(101));
    let mut expected = 51u32;
    loop {
        assert_eq!(c.key().map(|k| k.box_copy()), Some(key_of(2 * expected)));
        assert_eq!(c.value().map(|v| v.box_copy()), Some(value_of(expected)));
        expected += 1;
        if !c.advance() {
            break;
        }
    }
    assert_eq!(expected, 300);
    assert!(c.key().is_none());
    assert!(c.value().is_none());

    // From the start.
    let mut c = s.start_cursor();
    let mut count = 0u32;
    loop {
        assert_eq!(c.key().map(|k| k.box_copy()), Some(key_of(2 * count)));
        count += 1;
        if !c.advance() {
            break;
        }
    }
    assert_eq!(count, 300);

    // From an existing key, and past the end.
    let c = s.cursor(&key_of(20));
    assert_eq!(c.key().map(|k| k.box_copy()), Some(key_of(20)));
    let c = s.cursor(&key_of(600));
    assert!(c.key().is_none());
}

#[test]
fn cursor_of_an_empty_snapshot_is_empty() {
    let mut t = PersistentBTree::new();
    let s = t.snap();
    assert!(s.start_cursor().key().is_none());
}

#[test]
fn counter_orders_on_the_circle() {
    let a = Counter::new(5);
    let b = Counter::new(6);
    assert!(a.circle_lt(b));
    assert!(!b.circle_lt(a));
    assert!(!a.circle_lt(a));
    assert!(a.circle_lt_eq(a));
    assert!(Counter::new(u64::MAX).circle_lt(Counter::new(0)));
    assert_eq!(Counter::new(u64::MAX).inc().value(), 0);
    assert_eq!(Counter::new(0x0102030405060708).to_bytes(), [1, 2, 3, 4, 5, 6, 7, 8]);
    // The distance must stay under u64::MAX / 2 - 1.
    let zero = Counter::new(0);
    assert!(zero.circle_lt(Counter::new(u64::MAX / 2 - 2)));
    assert!(!zero.circle_lt(Counter::new(u64::MAX / 2 - 1)));
    assert!(zero.circle_lt_eq(Counter::new(u64::MAX / 2 - 2)));
    assert!(!zero.circle_lt_eq(Counter::new(u64::MAX / 2 - 1)));
}

#[test]
fn counter_shows_in_decimal() {
    assert_eq!(Counter::new(0).to_string(), "0");
    assert_eq!(Counter::new(120).to_string(), "120");
    assert_eq!(Counter::new(u64::MAX).to_string(), u64::MAX.to_string());
}

#[test]
fn diff_from_just_before_zero_holds_everything() {
    let mut t = PersistentBTree::new();
    for i in 0..50u32 {
        t.insert(&key_of(i), &value_of(i));
    }
    let s = t.snap();
    // Counter u64::MAX lies just before counter 0 on the circle.
    let mut d = s.diff(Counter::new(u64::MAX));
    for i in 0..50u32 {
        assert_eq!(d.get(&key_of(i)).map(|v| v.box_copy()), Some(value_of(i)));
    }
    let mut e = s.diff(Counter::new(0));
    assert!(e.get(&key_of(3)).is_none());
}
