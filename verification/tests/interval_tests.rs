use log_tags::base::{Comparator, Interval, ReadIntervals};

#[test]
fn interval_empty_and_len() {
    assert!(Interval(3, 3).is_empty());
    assert!(!Interval(3, 5).is_empty());
    assert_eq!(Interval(3, 8).len(), 5);
    assert_eq!(Interval(0, 0).len(), 0);
}

#[test]
fn interval_missing_before_prefix() {
    let cache = Interval(4, 9);
    assert_eq!(cache.missing_before(Interval(1, 6)), Interval(1, 4));
    assert_eq!(cache.missing_before(Interval(5, 12)), Interval(4, 4));
    assert!(cache.missing_before(Interval(6, 7)).is_empty());
}

#[test]
fn interval_missing_after_suffix() {
    let cache = Interval(0, 5);
    assert_eq!(cache.missing_after(Interval(2, 9)), Interval(5, 9));
    assert_eq!(cache.missing_after(Interval(1, 4)), Interval(5, 5));
    assert!(cache.missing_after(Interval(0, 5)).is_empty());
}

#[test]
fn interval_contains_iff_nothing_missing() {
    // containment agrees with the two missing sides over a sweep of cases
    let a = Interval(2, 8);
    for lo in 0..10usize {
        for hi in lo..11usize {
            let b = Interval(lo, hi);
            let expected = b.is_empty()
                || (a.missing_before(b).is_empty() && a.missing_after(b).is_empty());
            assert_eq!(a.contains(b), expected);
        }
    }
    assert!(a.contains(Interval(2, 8)));
    assert!(a.contains(Interval(5, 5)));
    assert!(!a.contains(Interval(1, 3)));
    assert!(!a.contains(Interval(7, 9)));
}

#[test]
fn interval_degenerate_empty_cache() {
    // an empty cache anchored at zero: the prefix side stays empty and the
    // suffix side pulls the whole request
    let cache = Interval(0, 0);
    assert!(cache.missing_before(Interval(0, 7)).is_empty());
    assert_eq!(cache.missing_after(Interval(0, 7)), Interval(0, 7));
}

#[test]
fn interval_iter_walks_indices() {
    let mut it = Interval(2, 5).iter();
    assert_eq!(it.next(), Some(2));
    assert_eq!(it.next(), Some(3));
    assert_eq!(it.next(), Some(4));
    assert_eq!(it.next(), None);
    assert_eq!(it.next(), None);
}

#[test]
fn read_intervals_double_and_cap() {
    let mut ri = ReadIntervals::new(5, 1024);
    assert_eq!(ri.next(), Interval(0, 5));
    assert_eq!(ri.next(), Interval(5, 15));
    assert_eq!(ri.next(), Interval(15, 35));
    let mut capped = ReadIntervals::new(2000, 8);
    assert_eq!(capped.next(), Interval(0, 8));
    assert_eq!(capped.next(), Interval(8, 16));
}

#[test]
fn read_intervals_zero_request() {
    let mut ri = ReadIntervals::new(0, 1024);
    assert_eq!(ri.next(), Interval(0, 0));
    assert_eq!(ri.next(), Interval(0, 0));
}

#[test]
fn comparator_values_exist() {
    let all = [
        Comparator::Equal,
        Comparator::NotEqual,
        Comparator::GreaterThan,
        Comparator::GreaterThanEqual,
        Comparator::LessThan,
        Comparator::LessThanEqual,
    ];
    assert_eq!(all.len(), 6);
    assert!(matches!(all[0], Comparator::Equal));
}

#[test]
fn text_order_is_lexicographic() {
    assert!(log_tags::text::str_lt("abc", "abd"));
    assert!(log_tags::text::str_lt("ab", "abc"));
    assert!(!log_tags::text::str_lt("abc", "abc"));
    assert!(!log_tags::text::str_lt("b", "abc"));
    assert!(log_tags::text::str_eq("same", "same"));
    assert!(!log_tags::text::str_eq("same", "sam"));
}

#[test]
fn decimal_rendering_exact() {
    assert_eq!(log_tags::text::dec_string(0).as_str(), "0");
    assert_eq!(log_tags::text::dec_string(7).as_str(), "7");
    assert_eq!(log_tags::text::dec_string(10).as_str(), "10");
    assert_eq!(log_tags::text::dec_string(90217).as_str(), "90217");
}
