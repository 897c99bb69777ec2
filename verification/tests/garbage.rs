use gc_collections::garbage::counted::GcCounted;
use gc_collections::garbage::map::GcMap;
use gc_collections::garbage::set::GcSet;
use gc_collections::garbage::{Duration, InvalidDuration};

fn ms(v: u64) -> Duration {
    Duration::try_new(v).unwrap()
}

#[test]
fn duration_rejects_zero() {
    assert!(matches!(Duration::try_new(0), Err(InvalidDuration)));
}

#[test]
fn duration_keeps_nonzero_count() {
    let d = Duration::try_new(250).unwrap();
    assert_eq!(d.get(), 250);
    assert_eq!(Duration::try_new(u64::MAX).unwrap().get(), u64::MAX);
}

#[test]
fn set_then_get_returns_value() {
    let mut m: GcMap<String, u64> = GcMap::new(ms(3000), ms(1000));
    m.set_value("a".to_string(), 7, 500);
    assert_eq!(m.get_value(&"a".to_string()), Some(&7));
    assert_eq!(m.get_value(&"b".to_string()), None);
}

#[test]
fn overwrite_returns_latest_value() {
    // Uniqueness: two writes of one key leave one occurrence, the newer one.
    let mut m: GcMap<String, u64> = GcMap::new(ms(3000), ms(1000));
    m.set_value("a".to_string(), 1, 500);
    m.set_value("a".to_string(), 2, 2500);
    assert_eq!(m.get_value(&"a".to_string()), Some(&2));
    // Sweeping the slot of the first write must not resurrect or drop the
    // key: its only occurrence now lives in the slot of the second write.
    m.gc(5500);
    assert_eq!(m.get_value(&"a".to_string()), Some(&2));
}

#[test]
fn same_interval_routes_to_same_slot() {
    // Two timestamps inside one width-1000 interval are indistinguishable
    // for eviction: both entries go when their shared slot goes.
    let mut m: GcMap<String, u64> = GcMap::new(ms(3000), ms(1000));
    m.set_value("early".to_string(), 1, 1001);
    m.set_value("late".to_string(), 2, 1999);
    m.gc(4999);
    assert_eq!(m.get_value(&"early".to_string()), Some(&1));
    assert_eq!(m.get_value(&"late".to_string()), Some(&2));
    m.gc(5000);
    assert_eq!(m.get_value(&"early".to_string()), None);
    assert_eq!(m.get_value(&"late".to_string()), None);
}

#[test]
fn expiration_only_happens_via_gc() {
    // Lazy expiration: without a sweep, a lookup long past the
    // time-to-live still answers.
    let mut m: GcMap<String, u64> = GcMap::new(ms(3000), ms(1000));
    m.set_value("a".to_string(), 9, 500);
    assert_eq!(m.get_value(&"a".to_string()), Some(&9));
    m.set_value("much_later".to_string(), 1, 1_000_000_000);
    assert_eq!(m.get_value(&"a".to_string()), Some(&9));
}

#[test]
fn gc_one_width_past_ttl_evicts() {
    let t = 500;
    let ttl = 3000;
    let width = 1000;
    let mut m: GcMap<String, u64> = GcMap::new(ms(ttl), ms(width));
    m.set_value("a".to_string(), 1, t);
    m.gc(t + ttl + width);
    assert_eq!(m.get_value(&"a".to_string()), None);
}

#[test]
fn gc_inside_ttl_does_not_evict() {
    let t = 500;
    let ttl = 3000;
    let width = 1000;
    let mut m: GcMap<String, u64> = GcMap::new(ms(ttl), ms(width));
    m.set_value("a".to_string(), 1, t);
    m.gc(t + ttl - width);
    assert_eq!(m.get_value(&"a".to_string()), Some(&1));
}

#[test]
fn early_gc_saturates_and_removes_nothing() {
    // Underflow safety: sweeping a fresh store, or before one whole
    // time-to-live has elapsed, must not panic and must keep everything.
    let mut m: GcMap<String, u64> = GcMap::new(ms(3000), ms(1000));
    m.gc(0);
    m.gc(100);
    m.set_value("a".to_string(), 1, 500);
    m.gc(700);
    m.gc(2999);
    assert_eq!(m.get_value(&"a".to_string()), Some(&1));
}

#[test]
fn remove_then_set_starts_fresh() {
    let mut m: GcMap<String, u64> = GcMap::new(ms(3000), ms(1000));
    m.set_value("a".to_string(), 1, 500);
    m.remove_value(&"a".to_string());
    assert_eq!(m.get_value(&"a".to_string()), None);
    m.set_value("a".to_string(), 5, 700);
    assert_eq!(m.get_value(&"a".to_string()), Some(&5));
    // Removing an absent key is a no-op.
    m.remove_value(&"missing".to_string());
    assert_eq!(m.get_value(&"a".to_string()), Some(&5));
}

#[test]
fn concrete_two_key_scenario() {
    // TTL 3000, width 1000: "a" lands in slot 0, "b" in slot 1. A sweep at
    // 3400 sees cutoff 0 and keeps both; a sweep at 4600 sees cutoff 1 and
    // drops only slot 0.
    let mut m: GcMap<String, u64> = GcMap::new(ms(3000), ms(1000));
    m.set_value("a".to_string(), 1, 500);
    m.set_value("b".to_string(), 2, 1200);
    m.gc(3400);
    assert_eq!(m.get_value(&"a".to_string()), Some(&1));
    assert_eq!(m.get_value(&"b".to_string()), Some(&2));
    m.gc(4600);
    assert_eq!(m.get_value(&"a".to_string()), None);
    assert_eq!(m.get_value(&"b".to_string()), Some(&2));
}

#[test]
fn integer_keys_work_the_same() {
    let mut m: GcMap<u64, i64> = GcMap::new(ms(2000), ms(500));
    m.set_value(42, -5, 0);
    m.set_value(43, 6, 2499);
    assert_eq!(m.get_value(&42), Some(&-5));
    m.gc(3000);
    assert_eq!(m.get_value(&42), None);
    assert_eq!(m.get_value(&43), Some(&6));
}

#[test]
fn set_membership_and_refresh() {
    let mut s: GcSet<String> = GcSet::new(ms(3000), ms(1000));
    assert!(!s.contains(&"a".to_string()));
    s.set_key("a".to_string(), 500);
    assert!(s.contains(&"a".to_string()));
    // Touching the key moves it forward: it survives a sweep that would
    // have dropped its original slot.
    s.set_key("a".to_string(), 3500);
    s.gc(4600);
    assert!(s.contains(&"a".to_string()));
    s.gc(7500);
    assert!(!s.contains(&"a".to_string()));
}

#[test]
fn set_remove_key() {
    let mut s: GcSet<u64> = GcSet::new(ms(3000), ms(1000));
    s.set_key(1, 100);
    s.set_key(2, 100);
    s.remove_key(&1);
    assert!(!s.contains(&1));
    assert!(s.contains(&2));
}

#[test]
fn counted_counts_and_decays() {
    let mut c: GcCounted<String> = GcCounted::new(ms(3000), ms(1000));
    assert_eq!(c.get_count(&"x".to_string()), 0);
    c.increment("x".to_string(), 500);
    assert_eq!(c.get_count(&"x".to_string()), 1);
    c.increment("x".to_string(), 1200);
    assert_eq!(c.get_count(&"x".to_string()), 2);
    // The second touch moved the count to slot 1, so a sweep that clears
    // slot 0 keeps it whole.
    c.gc(4600);
    assert_eq!(c.get_count(&"x".to_string()), 2);
    // Once the key goes untouched past its time-to-live the count decays
    // to nothing rather than to a smaller number.
    c.gc(5600);
    assert_eq!(c.get_count(&"x".to_string()), 0);
}

#[test]
fn counted_remove_resets_count() {
    let mut c: GcCounted<u64> = GcCounted::new(ms(3000), ms(1000));
    c.increment(7, 100);
    c.increment(7, 200);
    assert_eq!(c.get_count(&7), 2);
    c.remove_key(&7);
    assert_eq!(c.get_count(&7), 0);
}
