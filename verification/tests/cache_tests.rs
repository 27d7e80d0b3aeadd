use join_proxy::cache::MemCache;

fn b(s: &str) -> Vec<u8> {
    s.as_bytes().to_vec()
}

#[test]
fn put_then_get_within_window() {
    let mut c = MemCache::new();
    c.put(&b("k"), b("v"), 100);
    assert_eq!(c.get(&b("k"), 50, 120), Some(b("v")));
}

#[test]
fn get_of_absent_key() {
    let mut c = MemCache::new();
    c.put(&b("k"), b("v"), 100);
    assert_eq!(c.get(&b("other"), 50, 120), None);
}

#[test]
fn read_is_idempotent_within_window() {
    let mut c = MemCache::new();
    c.put(&b("k"), b("v"), 100);
    let first = c.get(&b("k"), 50, 110);
    let second = c.get(&b("k"), 50, 140);
    assert_eq!(first, Some(b("v")));
    assert_eq!(first, second);
}

#[test]
fn freshness_expiry() {
    let mut c = MemCache::new();
    c.put(&b("k"), b("v"), 100);
    // exactly at the edge of the window the write still counts
    assert_eq!(c.get(&b("k"), 50, 150), Some(b("v")));
    // one past the window it behaves as absent
    assert_eq!(c.get(&b("k"), 50, 151), None);
    // and the sweep removed it for good
    assert_eq!(c.get(&b("k"), 1000, 151), None);
}

#[test]
fn write_from_the_future_is_not_fresh() {
    let mut c = MemCache::new();
    c.put(&b("k"), b("v"), 200);
    assert_eq!(c.get(&b("k"), 50, 100), None);
}

#[test]
fn overwrite_expiry_keeps_newer_value() {
    let mut c = MemCache::new();
    // V1 at time 0, overwritten by V2 at time 5
    c.put(&b("k"), b("v1"), 0);
    c.put(&b("k"), b("v2"), 5);
    // at time 12 with window 10, V1's original write would be stale,
    // but the key holds V2 written at 5, so the read must return V2
    assert_eq!(c.get(&b("k"), 10, 12), Some(b("v2")));
    // once V2's own write time leaves the window, the key is gone
    assert_eq!(c.get(&b("k"), 10, 16), None);
}

#[test]
fn sweep_drops_only_stale_entries() {
    let mut c = MemCache::new();
    c.put(&b("old"), b("x"), 0);
    c.put(&b("new"), b("y"), 100);
    // this read sweeps with window 50 at time 120: "old" goes, "new" stays
    assert_eq!(c.get(&b("new"), 50, 120), Some(b("y")));
    assert_eq!(c.get(&b("old"), 1000, 120), None);
    assert_eq!(c.get(&b("new"), 1000, 120), Some(b("y")));
}

#[test]
fn clear_empties_store() {
    let mut c = MemCache::new();
    c.put(&b("k"), b("v"), 100);
    c.clear();
    assert_eq!(c.get(&b("k"), 1000, 100), None);
}
