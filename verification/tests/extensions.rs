use easy_timer::cache::{get_cached_timestamp, init, update_cached_timestamp, CachedClock};
use easy_timer::extensions::{Data, Extensions, TypeKey};
use std::sync::Arc;

#[test]
fn lookup_finds_what_was_inserted() {
    let mut e: Extensions<String> = Extensions::new();
    let key = TypeKey::of(10, "alloc::string::String");
    assert!(!e.contains(&key));
    assert!(e.get(&key).is_none());
    e.insert(key, "a".to_string());
    assert!(e.contains(&key));
    assert_eq!(e.get_data(&key).get_ref(), "a");
    assert_eq!(e.get(&key).unwrap().get_ref(), "a");
    assert!(!e.contains(&TypeKey::of(11, "alloc::string::String")));
}

#[test]
fn second_insert_replaces_the_first() {
    let mut e: Extensions<i32> = Extensions::new();
    let key = TypeKey::of(1, "i32");
    e.insert(key, 1);
    e.insert(TypeKey::of(2, "other"), 7);
    e.insert(key, 2);
    assert_eq!(*e.get_data(&key).get_ref(), 2);
    assert_eq!(*e.get_data(&TypeKey::of(2, "other")).get_ref(), 7);
}

#[test]
fn key_is_its_identifier() {
    let a = TypeKey::of(5, "one name");
    let b = TypeKey::of(5, "another name");
    let c = TypeKey::of(6, "one name");
    assert!(a == b);
    assert!(a != c);
    assert_eq!(a.id(), 5);
    assert_eq!(a.name(), "one name");
    let mut e: Extensions<u8> = Extensions::new();
    e.insert(a, 1);
    assert_eq!(*e.get_data(&b).get_ref(), 1);
    assert!(!e.contains(&c));
}

#[test]
fn handles_share_one_value() {
    let mut e: Extensions<Vec<u8>> = Extensions::new();
    let key = TypeKey::of(3, "bytes");
    e.insert(key, vec![1, 2, 3]);
    let first = e.get_data(&key);
    let second = e.get_data(&key);
    let third = second.clone();
    assert_eq!(first.get_ref(), &vec![1, 2, 3]);
    let (a, b, c) = (first.into_inner(), second.into_inner(), third.into_inner());
    assert!(Arc::ptr_eq(&a, &b));
    assert!(Arc::ptr_eq(&b, &c));
    assert_eq!(Arc::strong_count(&a), 4);
}

#[test]
fn data_wraps_a_shared_pointer() {
    let d = Data::new(5u64);
    assert_eq!(*d.get_ref(), 5);
    assert_eq!(**d, 5);
    assert_eq!(Arc::strong_count(&d), 1);
    let arc = Arc::new("x".to_string());
    let from = Data::from_arc(arc.clone());
    assert_eq!(from.get_ref(), "x");
    assert!(Arc::ptr_eq(&from.into_inner(), &arc));
}

#[test]
fn cached_clock_shows_what_it_was_set_to() {
    let mut clock = CachedClock::at(1_700_000_000);
    assert_eq!(get_cached_timestamp(&clock), 1_700_000_000);
    clock.set(42);
    assert_eq!(get_cached_timestamp(&clock), 42);
    clock.set(-1);
    assert_eq!(get_cached_timestamp(&clock), 0);
    clock.set(i64::MAX);
    assert_eq!(get_cached_timestamp(&clock), 253_402_300_799);
    clock.set(253_402_300_799);
    assert_eq!(get_cached_timestamp(&clock), 253_402_300_799);
    clock.set(253_402_300_800);
    assert_eq!(get_cached_timestamp(&clock), 253_402_300_799);
}

#[test]
fn cached_clock_reads_the_present() {
    let mut clock = init();
    let first = get_cached_timestamp(&clock);
    // Later than 2020-09-13, when the epoch clock passed 1.6 billion.
    assert!(first > 1_600_000_000);
    clock.set(0);
    update_cached_timestamp(&mut clock);
    assert!(get_cached_timestamp(&clock) >= first);
}
