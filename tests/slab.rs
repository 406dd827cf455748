use slab_alloc::Slab;
use slab_alloc::SLAB_SIZE;
use std::rc::Rc;

#[test]
fn basic_usage() {
    let mut slab = Slab::new();

    let x = slab.allocate(42).unwrap();
    assert_eq!(*slab.get(x).unwrap(), 42);

    slab.deallocate(x);

    let y = slab.allocate(99).unwrap();
    assert_eq!(*slab.get(y).unwrap(), 99);
}

#[test]
fn capacity_is_thirty_two() {
    assert_eq!(SLAB_SIZE, 32);
}

#[test]
fn allocation_fails_when_full_and_returns_value() {
    let mut slab: Slab<String> = Slab::new();
    for k in 0..SLAB_SIZE {
        assert_eq!(slab.allocate(format!("v{}", k)), Ok(k));
    }
    let back = slab.allocate(String::from("extra"));
    assert_eq!(back, Err(String::from("extra")));
}

#[test]
fn round_trip_reads_back_value() {
    let mut slab: Slab<(u8, i64)> = Slab::new();
    let h = slab.allocate((3, -17)).unwrap();
    assert_eq!(slab.get(h), Some(&(3, -17)));
}

#[test]
fn freed_slot_is_reused() {
    let mut slab: Slab<i32> = Slab::new();
    let a = slab.allocate(1).unwrap();
    let b = slab.allocate(2).unwrap();
    assert_eq!((a, b), (0, 1));
    slab.deallocate(a);
    assert_eq!(slab.get(a), None);
    let c = slab.allocate(3).unwrap();
    assert_eq!(c, a);
    assert_eq!(slab.get(c), Some(&3));
    assert_eq!(slab.get(b), Some(&2));
}

#[test]
fn first_fit_takes_lowest_free_slot() {
    let mut slab: Slab<i32> = Slab::new();
    assert_eq!(slab.allocate(10), Ok(0));
    assert_eq!(slab.allocate(11), Ok(1));
    assert_eq!(slab.allocate(12), Ok(2));

    let mut other: Slab<i32> = Slab::new();
    assert_eq!(other.allocate(10), Ok(0));
    assert_eq!(other.allocate(11), Ok(1));
    other.deallocate(0);
    assert_eq!(other.allocate(12), Ok(0));
    assert_eq!(other.allocate(13), Ok(2));
}

#[test]
fn bad_deallocate_is_a_no_op() {
    let mut slab: Slab<i32> = Slab::new();
    let a = slab.allocate(5).unwrap();
    let b = slab.allocate(6).unwrap();
    slab.deallocate(SLAB_SIZE);
    slab.deallocate(usize::MAX);
    slab.deallocate(7);
    assert_eq!(slab.get(a), Some(&5));
    assert_eq!(slab.get(b), Some(&6));

    slab.deallocate(a);
    slab.deallocate(a);
    assert_eq!(slab.get(a), None);
    assert_eq!(slab.get(b), Some(&6));
    assert_eq!(slab.allocate(8), Ok(0));
    assert_eq!(slab.allocate(9), Ok(2));
}

#[test]
fn end_to_end_scenario() {
    let mut slab: Slab<i32> = Slab::new();
    let x = slab.allocate(42).unwrap();
    assert_eq!(slab.get(x), Some(&42));
    slab.deallocate(x);
    let y = slab.allocate(99).unwrap();
    assert_eq!(slab.get(y), Some(&99));
}

#[test]
fn full_then_empty() {
    let mut slab: Slab<i32> = Slab::new();
    let mut handles = Vec::new();
    for k in 0..32 {
        handles.push(slab.allocate(1000 + k).unwrap());
    }
    assert_eq!(slab.allocate(-1), Err(-1));
    for (k, h) in handles.iter().enumerate() {
        assert_eq!(slab.get(*h), Some(&(1000 + k as i32)));
    }
    for h in handles {
        slab.deallocate(h);
    }
    assert_eq!(slab.allocate(77), Ok(0));
    assert_eq!(slab.get(0), Some(&77));
}

#[test]
fn get_out_of_range_and_free() {
    let slab: Slab<i32> = Slab::new();
    assert_eq!(slab.get(0), None);
    assert_eq!(slab.get(SLAB_SIZE), None);
    assert_eq!(slab.get(usize::MAX), None);
}

#[test]
fn get_mut_writes_in_place() {
    let mut slab: Slab<Vec<u8>> = Slab::new();
    let h = slab.allocate(vec![1, 2]).unwrap();
    slab.get_mut(h).unwrap().push(3);
    assert_eq!(slab.get(h), Some(&vec![1, 2, 3]));
    assert!(slab.get_mut(h + 1).is_none());
    assert!(slab.get_mut(SLAB_SIZE).is_none());
}

#[test]
fn deallocate_drops_value() {
    let shared = Rc::new(5);
    let mut slab: Slab<Rc<i32>> = Slab::new();
    let h = slab.allocate(Rc::clone(&shared)).unwrap();
    assert_eq!(Rc::strong_count(&shared), 2);
    slab.deallocate(h);
    assert_eq!(Rc::strong_count(&shared), 1);
    let h2 = slab.allocate(Rc::clone(&shared)).unwrap();
    assert_eq!(h2, 0);
    drop(slab);
    assert_eq!(Rc::strong_count(&shared), 1);
}
