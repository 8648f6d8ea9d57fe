use htree::data::range::Range;
use htree::testlib::NullKeyDummyKvSink;
use htree::testlib::SinkError;

#[test]
fn test_null_key_dummy_kv_sink() {
    let mut s = NullKeyDummyKvSink::new();

    s.put_small(&[], "asdf".as_ref()).ok().unwrap();
    let r = s.get(&[]).unwrap();
    assert!(String::from_utf8_lossy(&*r).into_owned() == "asdf");
    let r = s.get(&[]).unwrap();
    assert!(String::from_utf8_lossy(&*r).into_owned() == "asdf");

    s.put_small(&[], "ghjk".as_ref()).ok().unwrap();
    let r = s.get(&[]).unwrap();
    assert!(String::from_utf8_lossy(&*r).into_owned() == "ghjk");
    let r = s.get(&[]).unwrap();
    assert!(String::from_utf8_lossy(&*r).into_owned() == "ghjk");
}

#[test]
fn sink_empty_until_put() {
    let mut s = NullKeyDummyKvSink::new();
    assert!(s.get(&[]).is_none());
    s.put_small(&[], &[]).ok().unwrap();
    assert_eq!(s.get(&[]), Some(Vec::new()));
}

#[test]
fn sink_refuses_other_keys() {
    let mut s = NullKeyDummyKvSink::new();
    assert_eq!(s.put_small(&[1], &[7, 8]), Err(SinkError::KeyNotSupported));
    assert!(s.get(&[]).is_none());
    s.put_small(&[], &[7, 8]).ok().unwrap();
    assert!(s.get(&[1]).is_none());
    assert_eq!(s.get(&[]), Some(vec![7, 8]));
}

#[test]
fn sink_subtree_and_subrange_keep_nothing() {
    let mut s = NullKeyDummyKvSink::new();
    let mut t = s.subtree(&[]);
    assert_eq!(t.put_small(&[], &[1]), Err(SinkError::KeyNotSupported));
    assert!(t.get(&[]).is_none());
    let mut u = s.subtree(&[3]);
    assert_eq!(u.put_small(&[], &[1]), Err(SinkError::KeyNotSupported));
    let range = Range::closed(vec![1u8].into_boxed_slice(), vec![2u8].into_boxed_slice());
    let mut w = s.subrange(range);
    assert_eq!(w.put_small(&[], &[1]), Err(SinkError::KeyNotSupported));
    assert_eq!(s.max_value_size(), 65536);
}
