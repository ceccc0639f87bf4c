//! What sandboxes resolved.

use microkitchen::broker::bindings::{BindingStore, Chain, TTL_CAP, TTL_FLOOR};
use microkitchen::ip::IpAddr;

const SECS: u64 = 1_000_000_000;
const NOW: u64 = 1_000 * SECS;

fn ip(s: &str) -> IpAddr {
    IpAddr::parse(s).unwrap()
}

fn chain(names: &[&str]) -> Chain {
    names.iter().map(|s| s.to_string()).collect()
}

#[test]
fn keeps_chains_per_lookup() {
    let now = NOW;
    let mut store = BindingStore::default();
    let cdn = chain(&["api.example.com", "example.map.cdn.net"]);
    store.record(ip("192.0.2.1"), cdn.clone(), 30 * SECS, now);
    store.record(ip("192.0.2.1"), cdn.clone(), 30 * SECS, now);
    store.record(ip("192.0.2.1"), chain(&["other.example.com"]), 30 * SECS, now);
    assert_eq!(
        store.lookup(ip("192.0.2.1"), now),
        vec![cdn, chain(&["other.example.com"])]
    );
    assert!(store.lookup(ip("192.0.2.2"), now).is_empty());
    assert_eq!(
        store.lookup(ip("::ffff:192.0.2.1"), now).len(),
        2,
        "mapped addresses are canonical"
    );
    assert_eq!(
        store.snapshot(now)[0].1,
        chain(&["api.example.com", "example.map.cdn.net", "other.example.com"])
    );
}

#[test]
fn ttl_has_a_floor_and_a_cap() {
    let now = NOW;
    let mut store = BindingStore::default();
    store.record(ip("192.0.2.1"), chain(&["a.com"]), 5 * SECS, now);
    let before_floor = now + TTL_FLOOR - SECS;
    assert_eq!(store.lookup(ip("192.0.2.1"), before_floor).len(), 1);

    let mut store = BindingStore::default();
    store.record(ip("192.0.2.1"), chain(&["a.com"]), 10 * 24 * 3600 * SECS, now);
    let after_cap = now + TTL_CAP + SECS;
    assert!(store.lookup(ip("192.0.2.1"), after_cap).is_empty());
}

#[test]
fn lookups_refresh_bindings() {
    let now = NOW;
    let mut store = BindingStore::default();
    store.record(ip("192.0.2.1"), chain(&["a.com"]), 0, now);
    let later = now + TTL_FLOOR - SECS;
    assert_eq!(store.lookup(ip("192.0.2.1"), later).len(), 1);
    let even_later = later + TTL_FLOOR - SECS;
    assert_eq!(store.lookup(ip("192.0.2.1"), even_later).len(), 1);
}

#[test]
fn evicts_least_recently_seen() {
    let now = NOW;
    let mut store = BindingStore::new(2);
    store.record(ip("192.0.2.1"), chain(&["a.com"]), 0, now);
    store.record(ip("192.0.2.2"), chain(&["b.com"]), 0, now + SECS);
    store.lookup(ip("192.0.2.1"), now + 2 * SECS);
    store.record(ip("192.0.2.3"), chain(&["c.com"]), 0, now + 3 * SECS);
    assert_eq!(store.len(), 2);
    assert!(store.lookup(ip("192.0.2.2"), now + 4 * SECS).is_empty());
}

#[test]
fn stores_are_independent() {
    let now = NOW;
    let mut a = BindingStore::default();
    let b = BindingStore::default();
    a.record(ip("192.0.2.1"), chain(&["a.com"]), 0, now);
    assert!(b.snapshot(now).is_empty());
    assert!(b.is_empty());
    assert!(!a.is_empty());
}

#[test]
fn snapshots_are_sorted_and_live() {
    let now = NOW;
    let mut store = BindingStore::default();
    store.record(ip("192.0.2.9"), chain(&["z.com"]), 0, now);
    store.record(ip("192.0.2.1"), chain(&["a.com"]), 2 * 3600 * SECS, now);
    store.record(ip("192.0.2.1"), Vec::new(), 0, now);
    let all = store.snapshot(now);
    assert_eq!(all.len(), 2);
    assert_eq!(all[0].0, ip("192.0.2.1"));
    assert_eq!(all[0].2, 2 * 3600 * SECS);
    assert_eq!(all[1].2, TTL_FLOOR);
    let later = store.snapshot(now + TTL_FLOOR);
    assert_eq!(later.len(), 1, "expired bindings are not shown");
}
