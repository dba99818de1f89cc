use lazyseq::reduce::{fold, triangle};
use lazyseq::sources::VecSource;

#[test]
fn fold_with_increment_counts() {
    let s = VecSource::new(vec![5u64, 6, 7, 8, 9, 10]);
    assert_eq!(fold(s, 0u64, |n: u64, _i: u64| n + 1), 6);
}

#[test]
fn fold_with_addition_sums() {
    let s = VecSource::new(vec![5u64, 6, 7, 8, 9, 10]);
    assert_eq!(fold(s, 0u64, |n: u64, i: u64| n + i), 45);
}

#[test]
fn fold_with_multiplication_takes_the_product() {
    let s = VecSource::new(vec![5u64, 6, 7, 8, 9, 10]);
    assert_eq!(fold(s, 1u64, |n: u64, i: u64| n * i), 151200);
}

#[test]
fn fold_over_nothing_keeps_the_start() {
    let s = VecSource::new(Vec::<u64>::new());
    assert_eq!(fold(s, 42u64, |n: u64, i: u64| n + i), 42);
}

#[test]
fn triangle_sums_up_to_n() {
    assert_eq!(triangle(4), 10);
    assert_eq!(triangle(20), 210);
}

#[test]
fn triangle_of_nothing_is_zero() {
    assert_eq!(triangle(0), 0);
    assert_eq!(triangle(-3), 0);
}

#[test]
fn triangle_at_the_top_of_its_range() {
    assert_eq!(triangle(46340), 1_073_720_970);
}
