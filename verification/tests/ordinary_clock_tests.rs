use bincode::Options;
use sha2::{Digest, Sha256};
use std::cmp::Ordering;

use vlc::nitro_clock::NitroEnclavesClock;
use vlc::ordinary_clock::{Clock, LamportClock, OrdinaryClock};

#[test]
fn default_is_genesis() {
    assert!(OrdinaryClock::default().is_genesis());
}

#[test]
fn test_clock_base_func() {
    let oc1 = OrdinaryClock::from_entries(&vec![(1, 10), (2, 0), (3, 5)]);
    let oc2 = OrdinaryClock::from_entries(&vec![(1, 0), (2, 20), (3, 2)]);
    let oc3 = OrdinaryClock::from_entries(&vec![(1, 7), (2, 15), (4, 8)]);

    let clocks = vec![oc1, oc2, oc3];
    let base_clock = OrdinaryClock::base(&clocks);
    println!("{:?}", base_clock);
    assert_eq!(
        base_clock,
        OrdinaryClock::from_entries(&vec![(1, 0), (2, 0), (3, 2), (4, 8)])
    );
}

#[test]
fn ordinary_clock_clock_sha256() {
    let entries: Vec<(u64, u64)> = (0..4).map(|i| (i as u64, 0)).collect();
    let mut clock = OrdinaryClock::from_entries(&entries);
    clock = clock.update(&vec![OrdinaryClock::default()], 0);
    println!("{:?}, {:?}", clock, clock.calculate_sha256());
}

#[test]
fn merge_is_commutative_and_associative() {
    let a = OrdinaryClock::from_entries(&vec![(1, 4), (3, 1)]);
    let b = OrdinaryClock::from_entries(&vec![(1, 2), (2, 9)]);
    let c = OrdinaryClock::from_entries(&vec![(3, 7)]);

    assert_eq!(a.merge(&b), b.merge(&a));
    assert_eq!(a.merge(&b).merge(&c), a.merge(&b.merge(&c)));
    assert_eq!(a.merge(&a), a);
    assert_eq!(a.merge(&OrdinaryClock::new()), a);
}

#[test]
fn merge_dominates_both_inputs() {
    let a = OrdinaryClock::from_entries(&vec![(1, 4), (3, 1)]);
    let b = OrdinaryClock::from_entries(&vec![(1, 2), (2, 9)]);
    let m = a.merge(&b);
    assert_eq!(m, OrdinaryClock::from_entries(&vec![(1, 4), (2, 9), (3, 1)]));
    assert!(matches!(
        m.partial_cmp(&a),
        Some(Ordering::Equal) | Some(Ordering::Greater)
    ));
    assert!(matches!(
        m.partial_cmp(&b),
        Some(Ordering::Equal) | Some(Ordering::Greater)
    ));
}

#[test]
fn update_advances_exactly_one() {
    let a = OrdinaryClock::from_entries(&vec![(1, 4), (2, 2)]);
    let dep = OrdinaryClock::from_entries(&vec![(1, 1), (3, 6)]);
    let updated = a.update(&vec![dep], 2);

    assert_eq!(updated.get(2), Some(3));
    assert_eq!(updated.get(1), Some(4));
    assert_eq!(updated.get(3), Some(6));
    assert_eq!(updated.partial_cmp(&a), Some(Ordering::Greater));
    assert!(!updated.is_genesis());
}

#[test]
fn update_on_fresh_dimension_starts_at_one() {
    let genesis = OrdinaryClock::new();
    let updated = genesis.update(&vec![], 9);
    assert_eq!(updated.get(9), Some(1));
    assert!(!updated.is_genesis());
}

#[test]
fn zero_dimension_never_constrains_comparison() {
    let with_zero = OrdinaryClock::from_entries(&vec![(1, 1), (2, 0)]);
    let without = OrdinaryClock::from_entries(&vec![(1, 1)]);
    assert_eq!(with_zero.partial_cmp(&without), Some(Ordering::Equal));
    assert_eq!(without.partial_cmp(&with_zero), Some(Ordering::Equal));
}

#[test]
fn concurrent_clocks_are_incomparable() {
    let a = OrdinaryClock::from_entries(&vec![(1, 1)]);
    let b = OrdinaryClock::from_entries(&vec![(2, 1)]);
    assert_eq!(a.partial_cmp(&b), None);
}

#[test]
fn dep_cmp_compares_one_dimension() {
    let a = OrdinaryClock::from_entries(&vec![(1, 5)]);
    let b = OrdinaryClock::from_entries(&vec![(1, 7), (2, 1)]);
    assert_eq!(a.dep_cmp(&b, 1), Ordering::Less);
    assert_eq!(b.dep_cmp(&a, 1), Ordering::Greater);
    assert_eq!(a.dep_cmp(&b, 2), Ordering::Less);
    assert_eq!(b.dep_cmp(&a, 2), Ordering::Greater);
    assert_eq!(a.dep_cmp(&b, 3), Ordering::Equal);
    let c = OrdinaryClock::from_entries(&vec![(1, 5)]);
    assert_eq!(a.dep_cmp(&c, 1), Ordering::Equal);
}

#[test]
fn reduce_sums_counters() {
    let a = OrdinaryClock::from_entries(&vec![(1, 5), (2, 7), (9, 1)]);
    assert_eq!(a.reduce(), 13);
    assert_eq!(OrdinaryClock::new().reduce(), 0);
    let scalar: LamportClock = 42;
    assert_eq!(scalar.reduce(), 42);
    let attested = NitroEnclavesClock::from_genesis(OrdinaryClock::new()).unwrap();
    assert_eq!(attested.reduce(), 0);
}

#[test]
fn fingerprint_ignores_insertion_order() {
    let forward = OrdinaryClock::from_entries(&vec![(1, 10), (2, 20), (3, 30)]);
    let backward = OrdinaryClock::from_entries(&vec![(3, 30), (2, 20), (1, 10)]);
    assert_eq!(forward, backward);
    assert_eq!(forward.calculate_sha256(), backward.calculate_sha256());
}

#[test]
fn fingerprint_matches_reference_digest() {
    let clock = OrdinaryClock::from_entries(&vec![(1, 10), (2, 20)]);
    let bytes = bincode::options()
        .serialize(&vec![(1u64, 10u64), (2u64, 20u64)])
        .unwrap();
    let mut hasher = Sha256::new();
    hasher.update(bytes);
    let expected: [u8; 32] = hasher.finalize().into();
    assert_eq!(clock.calculate_sha256(), expected);
}

#[test]
fn fingerprints_distinguish_clocks() {
    let a = OrdinaryClock::from_entries(&vec![(1, 1)]);
    let b = OrdinaryClock::from_entries(&vec![(1, 2)]);
    assert_ne!(a.calculate_sha256(), b.calculate_sha256());
    assert_eq!(OrdinaryClock::new().calculate_sha256().len(), 32);
}

#[test]
fn from_entries_keeps_last_binding() {
    let c = OrdinaryClock::from_entries(&vec![(1, 3), (1, 9)]);
    assert_eq!(c.get(1), Some(9));
    assert_eq!(c.len(), 1);
}
