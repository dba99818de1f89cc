use lazyseq::sequence::{DoubleEnded, Sequence};
use lazyseq::sources::{Counter, Cycle, Flicker, VecSource};

#[test]
fn vec_source_in_order() {
    let mut s = VecSource::new(vec![4u64, 20, 12, 8, 6]);
    assert_eq!(s.pull(), Some(4));
    assert_eq!(s.pull(), Some(20));
    assert_eq!(s.pull(), Some(12));
    assert_eq!(s.pull(), Some(8));
    assert_eq!(s.pull(), Some(6));
    assert_eq!(s.pull(), None);
    assert_eq!(s.pull(), None);
}

#[test]
fn vec_source_both_ends() {
    let mut s = VecSource::new(vec!["head", "thorax", "abdomen"]);
    assert_eq!(s.pull(), Some("head"));
    assert_eq!(s.pull_back(), Some("abdomen"));
    assert_eq!(s.pull(), Some("thorax"));
    assert_eq!(s.pull_back(), None);
    assert_eq!(s.pull(), None);
}

#[test]
fn vec_source_owned_values() {
    let mut s = VecSource::new(vec![String::from("Earth"), String::from("Mars")]);
    assert_eq!(s.pull(), Some(String::from("Earth")));
    assert_eq!(s.pull_back(), Some(String::from("Mars")));
    assert_eq!(s.pull(), None);
}

#[test]
fn counter_counts() {
    let mut c = Counter::new(0, 3);
    assert_eq!(c.pull(), Some(0));
    assert_eq!(c.pull(), Some(1));
    assert_eq!(c.pull(), Some(2));
    assert_eq!(c.pull(), None);
    assert_eq!(c.pull(), None);
}

#[test]
fn counter_from_the_back() {
    let mut c = Counter::new(5, 8);
    assert_eq!(c.pull_back(), Some(7));
    assert_eq!(c.pull(), Some(5));
    assert_eq!(c.pull_back(), Some(6));
    assert_eq!(c.pull(), None);
    assert_eq!(c.pull_back(), None);
}

#[test]
fn cycle_four_directions() {
    let mut spin = Cycle::new(vec!["North", "East", "South", "West"]);
    assert_eq!(spin.pull(), Some("North"));
    assert_eq!(spin.pull(), Some("East"));
    assert_eq!(spin.pull(), Some("South"));
    assert_eq!(spin.pull(), Some("West"));
    assert_eq!(spin.pull(), Some("North"));
    assert_eq!(spin.pull(), Some("East"));
}

#[test]
fn cycle_of_nothing_is_exhausted() {
    let mut c = Cycle::new(Vec::<u64>::new());
    assert_eq!(c.pull(), None);
    assert_eq!(c.pull(), None);
}

#[test]
fn cycled_source_replays_whats_left() {
    let mut s = VecSource::new(vec![1u64, 2, 3]);
    assert_eq!(s.pull(), Some(1));
    let mut c = s.cycled();
    assert_eq!(c.pull(), Some(2));
    assert_eq!(c.pull(), Some(3));
    assert_eq!(c.pull(), Some(2));
    assert_eq!(c.pull(), Some(3));
    assert_eq!(c.pull(), Some(2));
}

#[test]
fn flicker_resumes_after_exhaustion() {
    let mut flaky = Flicker::new("totaly the last item");
    assert_eq!(flaky.pull(), Some("totaly the last item"));
    assert_eq!(flaky.pull(), None);
    assert_eq!(flaky.pull(), Some("totaly the last item"));
    assert_eq!(flaky.pull(), None);
}
