use combigen::accumulate::{accumulate, accumulate_from};
use combigen::lazy_buffer::LazyBuffer;
use combigen::size_hint::{sat_add, sat_mul, sat_pow2, sat_sub};
use combigen::vec_items::{CollectToVec, MapSlice, VecItems};

#[test]
fn accumulate_running_sum() {
    let mut a = accumulate(vec![1, 2, 3], |acc: &i32, x: i32| *acc + x);
    assert_eq!(a.next(), Some(1));
    assert_eq!(a.next(), Some(3));
    assert_eq!(a.next(), Some(6));
    assert_eq!(a.next(), None);
    assert_eq!(a.next(), None);
}

#[test]
fn accumulate_of_empty_source() {
    let mut a = accumulate(Vec::<i32>::new(), |acc: &i32, x: i32| *acc + x);
    assert_eq!(a.next(), None);
    assert_eq!(a.next(), None);
}

#[test]
fn accumulate_size_hint() {
    let mut a = accumulate(vec![1, 2, 3], |acc: &i32, x: i32| *acc * x);
    assert_eq!(a.size_hint(), (3, Some(3)));
    a.next();
    assert_eq!(a.size_hint(), (2, Some(2)));
    a.next();
    a.next();
    assert_eq!(a.next(), None);
    assert_eq!(a.size_hint(), (0, Some(0)));
}

#[test]
fn accumulate_from_prepends_start_value() {
    let mut a = accumulate_from(vec![1, 2, 3], 0, |acc: &i32, x: i32| *acc + x);
    assert_eq!(a.next(), Some(0));
    assert_eq!(a.next(), Some(1));
    assert_eq!(a.next(), Some(3));
    assert_eq!(a.next(), Some(6));
    assert_eq!(a.next(), None);
    assert_eq!(a.next(), None);
}

#[test]
fn accumulate_from_empty_source_yields_start() {
    let mut a = accumulate_from(Vec::<i32>::new(), 9, |acc: &i32, x: i32| *acc + x);
    assert_eq!(a.next(), Some(9));
    assert_eq!(a.next(), None);
}

#[test]
fn accumulate_from_size_hint() {
    let mut a = accumulate_from(vec![5, 6], 1, |acc: &i32, x: i32| *acc - x);
    assert_eq!(a.size_hint(), (3, Some(3)));
    a.next();
    assert_eq!(a.size_hint(), (2, Some(2)));
}

#[test]
fn lazy_buffer_pulls_one_at_a_time() {
    let mut b = LazyBuffer::new(vec![10, 20, 30]);
    assert_eq!(b.len(), 0);
    assert_eq!(b.src_len(), 3);
    assert!(b.get_next());
    assert_eq!(b.len(), 1);
    assert_eq!(b.get(0), 10);
    b.prefill(2);
    assert_eq!(b.len(), 2);
    b.prefill(9);
    assert_eq!(b.len(), 3);
    assert!(!b.get_next());
    assert_eq!(b.get(2), 30);
}

#[test]
fn collect_to_vec_copies_window() {
    let mut s = CollectToVec;
    let out: Vec<i32> = s.new_item(&vec![4, 5, 6]);
    assert_eq!(out, vec![4, 5, 6]);
}

#[test]
fn map_slice_applies_transform() {
    let mut s = MapSlice::with_capacity(|w: &Vec<i32>| w.iter().product::<i32>(), 3);
    assert_eq!(s.new_item(&vec![2, 3, 4]), 24);
    assert_eq!(s.new_item(&vec![5]), 5);
}

#[test]
fn saturating_bound_arithmetic() {
    assert_eq!(sat_add(2, 3), 5);
    assert_eq!(sat_add(usize::MAX - 1, 7), usize::MAX);
    assert_eq!(sat_sub(5, 2), 3);
    assert_eq!(sat_sub(2, 5), 0);
    assert_eq!(sat_mul(6, 7), 42);
    assert_eq!(sat_mul(usize::MAX / 2, 3), usize::MAX);
    assert_eq!(sat_mul(usize::MAX, 0), 0);
    assert_eq!(sat_pow2(0), 1);
    assert_eq!(sat_pow2(10), 1024);
    assert_eq!(sat_pow2(9999), usize::MAX);
}
