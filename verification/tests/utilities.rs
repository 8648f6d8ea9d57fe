use htree::bench::duration_unit;
use htree::bench::per_iteration_nanos;
use htree::bench::BenchResult;
use htree::bench::Bencher;
use htree::bench::DurationUnit;
use htree::counter::Counter;
use htree::data::range::Range;
use htree::data::rcbytes::RcBytes;
use htree::data::traits::Datum;
use htree::data::util::ByteReader;
use htree::data::util::ByteWriter;
use htree::data::util::WriteError;
use htree::tree::util::rotate_in;
use htree::tree::util::rotate_in_slice;
use htree::tree::util::rotate_left;
use htree::tree::util::rotate_out;
use htree::tree::util::rotate_out_slice;
use htree::tree::util::rotate_right;
use htree::tree::util::swap;

#[test]
fn rotate_right_moves_the_tail_to_the_front() {
    let mut a = [1, 2, 3];
    rotate_right(&mut a, 1);
    assert_eq!(a, [3, 1, 2]);
    let mut b = ['a', 'b', 'c', 'd', 'e'];
    rotate_right(&mut b, 2);
    assert_eq!(b, ['d', 'e', 'a', 'b', 'c']);
    let mut c: [u8; 0] = [];
    rotate_right(&mut c, 0);
    let mut d = [1, 2, 3];
    rotate_right(&mut d, 3);
    assert_eq!(d, [1, 2, 3]);
}

#[test]
fn rotate_left_undoes_rotate_right() {
    let mut a = [1, 2, 3, 4, 5, 6, 7];
    rotate_left(&mut a, 1);
    assert_eq!(a, [2, 3, 4, 5, 6, 7, 1]);
    for pos in 0..8 {
        let mut b = [1, 2, 3, 4, 5, 6, 7];
        rotate_right(&mut b, pos);
        rotate_left(&mut b, pos);
        assert_eq!(b, [1, 2, 3, 4, 5, 6, 7]);
    }
}

#[test]
fn swap_exchanges_slices() {
    let mut a = [1, 2, 3];
    let mut b = [4, 5, 6];
    swap(&mut a, &mut b);
    assert_eq!(a, [4, 5, 6]);
    assert_eq!(b, [1, 2, 3]);
}

#[test]
fn rotate_in_and_out() {
    let mut arr = [1, 2, 3, 4];
    let mut item = 0;
    rotate_in(&mut item, &mut arr);
    assert_eq!(arr, [0, 1, 2, 3]);
    assert_eq!(item, 4);
    rotate_out(&mut arr, &mut item);
    assert_eq!(arr, [1, 2, 3, 4]);
    assert_eq!(item, 0);
}

#[test]
fn rotate_slices_in_and_out() {
    let mut src = [8, 9];
    let mut dst = [1, 2, 3, 4, 5];
    rotate_in_slice(&mut src, &mut dst);
    assert_eq!(dst, [8, 9, 1, 2, 3]);
    assert_eq!(src, [4, 5]);
    let mut out = [0, 0];
    rotate_out_slice(&mut dst, &mut out);
    assert_eq!(dst, [1, 2, 3, 0, 0]);
    assert_eq!(out, [8, 9]);
}

#[test]
fn ranges_hold_what_lies_between_their_ends() {
    let b = |s: &str| -> Box<[u8]> { s.as_bytes().to_vec().into_boxed_slice() };
    let open = Range::open(b("b"), b("d"));
    assert!(!open.contains("a".as_bytes()));
    assert!(!open.contains("b".as_bytes()));
    assert!(open.contains("ba".as_bytes()));
    assert!(open.contains("c".as_bytes()));
    assert!(!open.contains("d".as_bytes()));
    assert!(!open.contains("e".as_bytes()));

    let left_open = Range::left_open(b("b"), b("d"));
    assert!(!left_open.contains("b".as_bytes()));
    assert!(left_open.contains("d".as_bytes()));

    let right_open = Range::right_open(b("b"), b("d"));
    assert!(right_open.contains("b".as_bytes()));
    assert!(!right_open.contains("d".as_bytes()));

    let closed = Range::closed(b("b"), b("b"));
    assert!(closed.contains("b".as_bytes()));
    assert!(!closed.contains("ba".as_bytes()));
    assert!(!closed.contains("a".as_bytes()));
}

#[test]
fn byte_reader_reads_in_pieces() {
    let data = [1u8, 2, 3, 4, 5];
    let mut r = ByteReader::wrap(&data);
    let mut buf = [0u8; 2];
    assert_eq!(r.read(&mut buf), 2);
    assert_eq!(buf, [1, 2]);
    assert_eq!(r.read(&mut buf), 2);
    assert_eq!(buf, [3, 4]);
    let mut big = [9u8; 4];
    assert_eq!(r.read(&mut big), 1);
    assert_eq!(big, [5, 9, 9, 9]);
    // At the end of the data, and into an empty buffer, nothing is read.
    assert_eq!(r.read(&mut big), 0);
    assert_eq!(big, [5, 9, 9, 9]);
    let mut fresh = ByteReader::wrap(&data);
    let mut empty: [u8; 0] = [];
    assert_eq!(fresh.read(&mut empty), 0);
    assert_eq!(fresh.read(&mut buf), 2);
    assert_eq!(buf, [1, 2]);
}

#[test]
fn byte_writer_writes_until_full() {
    let mut buf = [0u8; 5];
    {
        let mut w = ByteWriter::wrap(&mut buf);
        assert_eq!(w.write(&[1, 2]), Ok(2));
        assert_eq!(w.len(), 2);
        assert_eq!(w.write(&[3, 4, 5, 6]), Err(WriteError::UnexpectedEof));
        assert_eq!(w.len(), 2);
        assert_eq!(w.write(&[3, 4, 5]), Ok(3));
        assert_eq!(w.len(), 5);
        assert_eq!(w.flush(), Ok(()));
        assert_eq!(w.write(&[]), Ok(0));
        assert_eq!(w.len(), 5);
    }
    assert_eq!(buf, [1, 2, 3, 4, 5]);
}

#[test]
fn counter_is_a_big_endian_datum() {
    let c = Counter::new(0x0102030405060708);
    assert_eq!(c.len(), 8);
    assert_eq!(c.box_copy(), vec![1, 2, 3, 4, 5, 6, 7, 8]);
    assert_eq!(Counter::new(7).bytes(), [0, 0, 0, 0, 0, 0, 0, 7]);
}

#[test]
fn rc_bytes_copy_their_source() {
    let b = RcBytes::new("hello".as_bytes());
    assert_eq!(b.as_slice(), "hello".as_bytes());
    let c = b.clone();
    assert_eq!(c.as_slice(), "hello".as_bytes());
    let w = b.downgrade();
    assert_eq!(w.upgrade().map(|x| x.box_copy()), Some("hello".as_bytes().to_vec()));
    drop(b);
    drop(c);
    assert!(w.upgrade().is_none());
}

#[test]
fn durations_pick_their_unit() {
    assert_eq!(duration_unit(999), DurationUnit::Nanos);
    assert_eq!(duration_unit(1000), DurationUnit::Micros);
    assert_eq!(duration_unit(999_999), DurationUnit::Micros);
    assert_eq!(duration_unit(1_000_000), DurationUnit::Millis);
    assert_eq!(duration_unit(1_000_000_000), DurationUnit::Seconds);
    assert_eq!(DurationUnit::Millis.nanos(), 1_000_000);
    assert_eq!(DurationUnit::Seconds.suffix(), "s ");
}

#[test]
fn bencher_records_the_count() {
    let mut b = Bencher::new();
    assert!(matches!(b.result(), BenchResult::NotRun));
    let total = b.bench(42, || (0..1000u64).sum::<u64>());
    assert_eq!(total, 499500);
    match b.result() {
        BenchResult::Timed(Some(ns), count) => {
            assert!(ns >= 0);
            assert_eq!(count, 42);
        },
        _ => panic!("expected a timing"),
    }
}

#[test]
fn per_iteration_time_rounds_down() {
    assert_eq!(per_iteration_nanos(1000, 3), Some(333));
    assert_eq!(per_iteration_nanos(1000, 0), None);
    assert_eq!(per_iteration_nanos(1000, 1u64 << 40), None);
}
