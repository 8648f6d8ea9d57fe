use std::cell::Cell;
use std::cmp::Ordering;
use std::rc::Rc;

use htree::data::rcslice::RcSlice;
use htree::data::rcslice::WeakSlice;

#[test]
fn rcslice_clone() {
    let x = RcSlice::new(Box::new([Cell::new(false)]));
    let y = x.clone();

    assert_eq!(x[0].get(), false);
    assert_eq!(y[0].get(), false);

    x[0].set(true);
    assert_eq!(x[0].get(), true);
    assert_eq!(y[0].get(), true);
}

#[test]
fn rcslice_test_upgrade_downgrade() {
    let x = RcSlice::new(Box::new([1]));
    let y: WeakSlice<_> = x.downgrade();

    assert!(y.upgrade() == Some(x.clone()));

    drop(x);

    assert!(y.upgrade().is_none())
}

#[test]
fn rcslice_test_total_cmp() {
    let x = RcSlice::new(Box::new([1, 2, 3]));
    let y = RcSlice::new(Box::new([1, 2, 3]));
    let z = RcSlice::new(Box::new([1, 2, 4]));
    assert!(x == x);
    assert!(x == y);
    assert!(x != z);
    assert!(y != z);

    assert!(x < z);
    assert!(x <= z);
    assert!(!(x > z));
    assert!(!(x >= z));

    assert!(!(z < x));
    assert!(!(z <= x));
    assert!(z > x);
    assert!(z >= x);

    assert_eq!(x.partial_cmp(&x), Some(Ordering::Equal));
    assert_eq!(x.partial_cmp(&y), Some(Ordering::Equal));
    assert_eq!(x.partial_cmp(&z), Some(Ordering::Less));
    assert_eq!(z.partial_cmp(&y), Some(Ordering::Greater));

    assert_eq!(x.cmp(&x), Ordering::Equal);
    assert_eq!(x.cmp(&y), Ordering::Equal);
    assert_eq!(x.cmp(&z), Ordering::Less);
    assert_eq!(z.cmp(&y), Ordering::Greater);
}

#[test]
fn rcslice_test_partial_cmp() {
    let x = RcSlice::new(Box::new([1.0, f64::NAN]));
    let y = RcSlice::new(Box::new([1.0, f64::NAN]));
    let z = RcSlice::new(Box::new([2.0, f64::NAN]));
    let w = RcSlice::new(Box::new([f64::NAN, 1.0]));
    assert!(!(x == y));
    assert!(x != y);

    assert!(!(x < y));
    assert!(!(x <= y));
    assert!(!(x > y));
    assert!(!(x >= y));

    assert!(x < z);
    assert!(x <= z);
    assert!(!(x > z));
    assert!(!(x >= z));

    assert!(!(z < w));
    assert!(!(z <= w));
    assert!(!(z > w));
    assert!(!(z >= w));

    assert_eq!(x.partial_cmp(&x), None);
    assert_eq!(x.partial_cmp(&y), None);
    assert_eq!(x.partial_cmp(&z), Some(Ordering::Less));
    assert_eq!(z.partial_cmp(&x), Some(Ordering::Greater));

    assert_eq!(x.partial_cmp(&w), None);
    assert_eq!(y.partial_cmp(&w), None);
    assert_eq!(z.partial_cmp(&w), None);
    assert_eq!(w.partial_cmp(&w), None);
}

#[test]
fn rcslice_test_show() {
    let x = RcSlice::new(Box::new([1, 2]));
    assert_eq!(x.debug_string(), "[1, 2]");

    let y: RcSlice<i32> = RcSlice::new(Box::new([]));
    assert_eq!(y.debug_string(), "[]");
}

#[test]
fn test_slice() {
    let x = RcSlice::new(Box::new([1, 2, 3]));
    let real = [1, 2, 3];
    for i in 0..(3 + 1) {
        for j in i..(3 + 1) {
            let slice: RcSlice<_> = x.clone().slice(i, j);
            assert_eq!(&*slice, &real[i..j]);
        }
        assert_eq!(&*x.clone().slice_to(i), &real[..i]);
        assert_eq!(&*x.clone().slice_from(i), &real[i..]);
    }
}

struct Foo(Rc<Cell<i32>>);

impl Drop for Foo {
    fn drop(&mut self) {
        let n = self.0.get();
        self.0.set(n + 1);
    }
}

#[test]
fn rcslice_test_drop() {
    let drop_flag = Rc::new(Cell::new(0));

    let whole = RcSlice::new(Box::new([Foo(drop_flag.clone()), Foo(drop_flag.clone())]));

    drop(whole);
    assert_eq!(drop_flag.get(), 2);

    drop_flag.set(0);

    let whole = RcSlice::new(Box::new([Foo(drop_flag.clone()), Foo(drop_flag.clone())]));
    let part = whole.slice(1, 2);
    drop(part);
    assert_eq!(drop_flag.get(), 2);
}

#[test]
fn upgrading_a_subslice_gives_back_its_elements() {
    let x = RcSlice::new(Box::new([1, 2, 3])).slice(1, 3);
    let w = x.downgrade();
    let y = w.upgrade().unwrap();
    assert_eq!(&*y, &[2, 3]);
    assert_eq!(&*w.clone().upgrade().unwrap(), &[2, 3]);
}
