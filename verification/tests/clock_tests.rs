use std::cmp;

use vlc::clock::Clock;

#[test]
fn clock_inc() {
    let mut c = Clock::new();
    c.inc(0);
    c.inc(0);
    assert_eq!(c.get(0), 2);
}

#[test]
fn clock_cmp() {
    let mut c1 = Clock::new();
    c1.inc(0);
    let c2 = c1.clone();
    let mut c3 = Clock::new();
    c3.inc(1);

    assert_eq!(c1, c2);
    assert_eq!(c1.partial_cmp(&c3), None);
    assert_eq!(c2.partial_cmp(&c3), None);

    c1.inc(0);
    assert_eq!(c2.partial_cmp(&c1), Some(cmp::Ordering::Less));
    assert_eq!(c3.partial_cmp(&c1), None);
}

#[test]
fn clock_merge() {
    let mut c1 = Clock::new();
    c1.inc(0);
    let mut c2 = Clock::new();
    c2.inc(1);
    let mut c3 = Clock::new();
    c3.inc(2);

    assert_eq!(c1.partial_cmp(&c2), None);
    assert_eq!(c1.partial_cmp(&c3), None);
    assert_eq!(c2.partial_cmp(&c3), None);

    c1.merge(&vec![&c2, &c3]);
    assert_eq!(c2.partial_cmp(&c1), Some(cmp::Ordering::Less));
    assert_eq!(c1.partial_cmp(&c2), Some(cmp::Ordering::Greater));
    assert_eq!(c3.partial_cmp(&c1), Some(cmp::Ordering::Less));
    assert_eq!(c1.partial_cmp(&c3), Some(cmp::Ordering::Greater));
}

#[test]
fn clock_get_creates_dimension() {
    let mut c = Clock::new();
    assert_eq!(c.get(7), 0);
    c.inc(7);
    assert_eq!(c.get(7), 1);
}

#[test]
fn clock_clear_resets() {
    let mut c = Clock::new();
    c.inc(3);
    c.inc(4);
    assert!(!c.is_genesis());
    c.clear();
    assert!(c.is_genesis());
    assert_eq!(c.get(3), 0);
}

#[test]
fn clock_is_genesis_zero_entries() {
    let mut c = Clock::new();
    assert!(c.is_genesis());
    assert_eq!(c.get(5), 0);
    assert!(c.is_genesis());
    c.inc(5);
    assert!(!c.is_genesis());
}

#[test]
fn clock_diff_floors_at_zero() {
    let mut a = Clock::new();
    a.inc(1);
    a.inc(1);
    a.inc(1);
    a.inc(2);
    let mut b = Clock::new();
    b.inc(1);
    b.inc(2);
    b.inc(2);
    b.inc(3);

    let d = a.diff(&b);
    let mut expected = Clock::new();
    expected.inc(1);
    expected.inc(1);
    assert_eq!(expected.get(2), 0);
    assert_eq!(d, expected);
}

#[test]
fn clock_base_common_takes_minimum() {
    let mut a = Clock::new();
    a.inc(1);
    a.inc(1);
    a.inc(2);
    let mut b = Clock::new();
    b.inc(1);

    let base = a.base_common(&b);
    let mut expected = Clock::new();
    expected.inc(1);
    assert_eq!(expected.get(2), 0);
    assert_eq!(base, expected);
}

#[test]
fn clock_index_key_renders_entries() {
    let mut c = Clock::new();
    c.inc(10);
    c.inc(10);
    c.inc(255);
    assert_eq!(c.index_key(), "10-2-255-1-");
    assert_eq!(Clock::new().index_key(), "");
}
