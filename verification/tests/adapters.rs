use std::cell::RefCell;

use lazyseq::combine::{Chain, Rev, Zip};
use lazyseq::sequence::{DoubleEnded, Sequence};
use lazyseq::sources::{Counter, Flicker, VecSource};
use lazyseq::stateful::{Enumerate, Fuse, Peekable, Scan, SkipWhile, TakeWhile};
use lazyseq::transform::{FilterMapped, Filtered, FlatMapped, Inspect, Mapped};

#[test]
fn map_transforms_every_value() {
    let s = VecSource::new(vec![1u64, 2, 3]);
    let mut m = Mapped::new(s, |x: u64| 2 * x);
    assert_eq!(m.pull(), Some(2));
    assert_eq!(m.pull(), Some(4));
    assert_eq!(m.pull(), Some(6));
    assert_eq!(m.pull(), None);
}

#[test]
fn inspect_observes_without_changing() {
    let seen: RefCell<Vec<u64>> = RefCell::new(Vec::new());
    let s = VecSource::new(vec![7u64, 8]);
    let mut m = Inspect::new(s, |x: u64| {
        seen.borrow_mut().push(x);
    });
    assert_eq!(m.pull(), Some(7));
    assert_eq!(m.pull(), Some(8));
    assert_eq!(m.pull(), None);
    assert_eq!(*seen.borrow(), vec![7, 8]);
}

#[test]
fn filter_keeps_only_matches() {
    let s = VecSource::new(vec![4u64, 20, 12, 8, 6]);
    let mut m = Filtered::new(s, |x: u64| x > 9);
    assert_eq!(m.pull(), Some(20));
    assert_eq!(m.pull(), Some(12));
    assert_eq!(m.pull(), None);
}

#[test]
fn filter_map_drops_failed_conversions() {
    let s = VecSource::new(vec!["1", "frond", "289", "evens"]);
    let mut m = FilterMapped::new(s, |w: &str| w.parse::<u64>().ok());
    assert_eq!(m.pull(), Some(1));
    assert_eq!(m.pull(), Some(289));
    assert_eq!(m.pull(), None);
}

#[test]
fn flat_map_expands_each_value() {
    let s = VecSource::new(vec![1u64, 2, 3]);
    let mut m = FlatMapped::new(s, |x: u64| {
        let mut inner = Vec::new();
        let mut i = 0;
        while i < x {
            inner.push(x);
            i += 1;
        }
        inner
    });
    assert_eq!(m.pull(), Some(1));
    assert_eq!(m.pull(), Some(2));
    assert_eq!(m.pull(), Some(2));
    assert_eq!(m.pull(), Some(3));
    assert_eq!(m.pull(), Some(3));
    assert_eq!(m.pull(), Some(3));
    assert_eq!(m.pull(), None);
}

#[test]
fn flat_map_skips_empty_expansions() {
    let s = VecSource::new(vec![0u64, 2, 0, 0]);
    let mut m = FlatMapped::new(s, |x: u64| if x == 0 { Vec::new() } else { vec![x] });
    assert_eq!(m.pull(), Some(2));
    assert_eq!(m.pull(), None);
}

#[test]
fn take_while_halts_at_first_failure() {
    let s = VecSource::new(vec![1u64, 3, 5, 4, 7, 2]);
    let mut m = TakeWhile::new(s, |x: u64| x % 2 == 1);
    assert_eq!(m.pull(), Some(1));
    assert_eq!(m.pull(), Some(3));
    assert_eq!(m.pull(), Some(5));
    assert_eq!(m.pull(), None);
    assert_eq!(m.pull(), None);
}

#[test]
fn skip_while_passes_from_first_failure() {
    let s = VecSource::new(vec![1u64, 3, 5, 4, 7, 2]);
    let mut m = SkipWhile::new(s, |x: u64| x % 2 == 1);
    assert_eq!(m.pull(), Some(4));
    assert_eq!(m.pull(), Some(7));
    assert_eq!(m.pull(), Some(2));
    assert_eq!(m.pull(), None);
}

#[test]
fn take_and_skip_partition_a_run() {
    let values = vec![1u64, 3, 5, 4, 7, 2];
    let is_odd = |x: u64| x % 2 == 1;
    let mut head = TakeWhile::new(VecSource::new(values.clone()), is_odd);
    let mut tail = SkipWhile::new(VecSource::new(values.clone()), is_odd);
    let mut rebuilt = Vec::new();
    while let Some(x) = head.pull() {
        rebuilt.push(x);
    }
    while let Some(x) = tail.pull() {
        rebuilt.push(x);
    }
    assert_eq!(rebuilt, values);
}

#[test]
fn scan_sums_until_past_ten() {
    let s = Counter::new(0, 10);
    let mut m = Scan::new(s, 0u64, |sum: u64, item: u64| {
        let total = sum + item;
        if total > 10 {
            (total, None)
        } else {
            (total, Some(item * item))
        }
    });
    assert_eq!(m.pull(), Some(0));
    assert_eq!(m.pull(), Some(1));
    assert_eq!(m.pull(), Some(4));
    assert_eq!(m.pull(), Some(9));
    assert_eq!(m.pull(), Some(16));
    assert_eq!(m.pull(), None);
    assert_eq!(m.pull(), None);
}

#[test]
fn peek_caches_the_next_value() {
    let s = VecSource::new(vec![226u64, 153]);
    let mut m = Peekable::new(s);
    assert_eq!(m.peek(), Some(226));
    assert_eq!(m.peek(), Some(226));
    assert_eq!(m.pull(), Some(226));
    assert_eq!(m.pull(), Some(153));
    assert_eq!(m.peek(), None);
    assert_eq!(m.pull(), None);
}

#[test]
fn enumerate_pairs_with_a_counter() {
    let s = VecSource::new(vec![10u64, 20, 30, 40]);
    let mut m = Enumerate::new(s);
    assert_eq!(m.pull(), Some((0, 10)));
    assert_eq!(m.pull(), Some((1, 20)));
    assert_eq!(m.pull(), Some((2, 30)));
    assert_eq!(m.pull(), Some((3, 40)));
    assert_eq!(m.pull(), None);
}

#[test]
fn fuse_makes_exhaustion_permanent() {
    let mut not_flaky = Fuse::new(Flicker::new("totaly the last item"));
    assert_eq!(not_flaky.pull(), Some("totaly the last item"));
    assert_eq!(not_flaky.pull(), None);
    assert_eq!(not_flaky.pull(), None);
    assert_eq!(not_flaky.pull(), None);
}

#[test]
fn zip_stops_at_the_shorter_side() {
    let numbers = Counter::new(0, u64::MAX);
    let letters = VecSource::new(vec!["A", "B", "C", "D"]);
    let mut m = Zip::new(numbers, letters);
    assert_eq!(m.pull(), Some((0, "A")));
    assert_eq!(m.pull(), Some((1, "B")));
    assert_eq!(m.pull(), Some((2, "C")));
    assert_eq!(m.pull(), Some((3, "D")));
    assert_eq!(m.pull(), None);
}

#[test]
fn chain_joins_two_runs() {
    let first = Counter::new(1, 4);
    let second = VecSource::new(vec![20u64, 30, 40]);
    let mut m = Chain::new(first, second);
    assert_eq!(m.pull(), Some(1));
    assert_eq!(m.pull(), Some(2));
    assert_eq!(m.pull(), Some(3));
    assert_eq!(m.pull(), Some(20));
    assert_eq!(m.pull(), Some(30));
    assert_eq!(m.pull(), Some(40));
    assert_eq!(m.pull(), None);
}

#[test]
fn rev_walks_from_the_back() {
    let meals = VecSource::new(vec!["breakfast", "lunch", "dinner"]);
    let mut m = Rev::new(meals);
    assert_eq!(m.pull(), Some("dinner"));
    assert_eq!(m.pull(), Some("lunch"));
    assert_eq!(m.pull(), Some("breakfast"));
    assert_eq!(m.pull(), None);
}

#[test]
fn take_while_can_halt_at_once() {
    let s = VecSource::new(vec![2u64, 1, 3]);
    let mut m = TakeWhile::new(s, |x: u64| x % 2 == 1);
    assert_eq!(m.pull(), None);
    assert_eq!(m.pull(), None);
}

#[test]
fn skip_while_can_drop_everything() {
    let s = VecSource::new(vec![1u64, 3, 5]);
    let mut m = SkipWhile::new(s, |x: u64| x % 2 == 1);
    assert_eq!(m.pull(), None);
    assert_eq!(m.pull(), None);
}

#[test]
fn zip_stops_when_the_first_side_does() {
    let letters = VecSource::new(vec!["A", "B"]);
    let numbers = Counter::new(0, u64::MAX);
    let mut m = Zip::new(letters, numbers);
    assert_eq!(m.pull(), Some(("A", 0)));
    assert_eq!(m.pull(), Some(("B", 1)));
    assert_eq!(m.pull(), None);
}

#[test]
fn chain_over_an_empty_first_side() {
    let first = VecSource::new(Vec::<u64>::new());
    let second = VecSource::new(vec![9u64]);
    let mut m = Chain::new(first, second);
    assert_eq!(m.pull(), Some(9));
    assert_eq!(m.pull(), None);
}

#[test]
fn adapters_compose() {
    let evens = Filtered::new(Counter::new(0, 10), |x: u64| x % 2 == 0);
    let squares = Mapped::new(evens, |x: u64| x * x);
    let mut numbered = Enumerate::new(squares);
    assert_eq!(numbered.pull(), Some((0, 0)));
    assert_eq!(numbered.pull(), Some((1, 4)));
    assert_eq!(numbered.pull(), Some((2, 16)));
    assert_eq!(numbered.pull(), Some((3, 36)));
    assert_eq!(numbered.pull(), Some((4, 64)));
    assert_eq!(numbered.pull(), None);
}

#[test]
fn rev_is_double_ended_too() {
    let meals = VecSource::new(vec!["breakfast", "lunch", "dinner"]);
    let mut m = Rev::new(meals);
    assert_eq!(m.pull_back(), Some("breakfast"));
    assert_eq!(m.pull(), Some("dinner"));
    assert_eq!(m.pull_back(), Some("lunch"));
    assert_eq!(m.pull(), None);
    assert_eq!(m.pull_back(), None);
}
