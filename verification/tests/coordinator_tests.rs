use join_proxy::cache::MemCache;
use join_proxy::coordinator::{FetchOutcome, JoinCoordinator, Resolution};
use join_proxy::errors::FetchError;
use join_proxy::fingerprint::{fingerprint, RequestDescriptor};

fn b(s: &str) -> Vec<u8> {
    s.as_bytes().to_vec()
}

fn key_of(path: &str, arg: &str, body: &str) -> Vec<u8> {
    let d = RequestDescriptor {
        path: b(path),
        argument: b(arg),
        body: b(body),
        host: b("example.test"),
        port: b(""),
    };
    fingerprint(&d)
}

#[test]
fn single_flight_three_concurrent_requests() {
    let mut cache = MemCache::new();
    let mut co = JoinCoordinator::new();
    let k = key_of("/same", "x", "y");

    // three requests for one fingerprint, issued before any completes
    let r1 = co.resolve(&mut cache, &k, 1000, 0, 1);
    let r2 = co.resolve(&mut cache, &k, 1000, 0, 2);
    let r3 = co.resolve(&mut cache, &k, 1000, 0, 3);

    let mut miss_count = 0;
    let mut hit_count = 0;
    for r in [&r1, &r2, &r3] {
        match r {
            Resolution::Lead => miss_count += 1,
            Resolution::Follow => hit_count += 1,
            Resolution::Hit(_) => hit_count += 1,
        }
    }
    assert_eq!(miss_count, 1);
    assert_eq!(hit_count, 2);
    assert!(matches!(r1, Resolution::Lead));

    // the one leader fetches once and publishes; both followers are
    // released with the leader's one outcome
    let ws = co.publish(&mut cache, &k, &FetchOutcome::Success(b("resp")), 5);
    assert_eq!(ws, vec![2, 3]);

    // a later identical request is served from the published value
    match co.resolve(&mut cache, &k, 1000, 6, 4) {
        Resolution::Hit(v) => assert_eq!(v, b("resp")),
        _ => panic!("expected a cache hit after the leader published"),
    }
}

#[test]
fn failure_is_not_cached() {
    let mut cache = MemCache::new();
    let mut co = JoinCoordinator::new();
    let k = key_of("/fails", "", "");

    assert!(matches!(co.resolve(&mut cache, &k, 1000, 0, 1), Resolution::Lead));
    let ws = co.publish(
        &mut cache,
        &k,
        &FetchOutcome::Failure(FetchError::Unreachable),
        1,
    );
    assert!(ws.is_empty());

    // the failure did not poison the cache: the next request leads afresh
    assert!(matches!(co.resolve(&mut cache, &k, 1000, 2, 2), Resolution::Lead));
}

#[test]
fn upstream_error_variants_are_kept_apart() {
    let mut cache = MemCache::new();
    let mut co = JoinCoordinator::new();
    for (i, err) in [
        FetchError::Unreachable,
        FetchError::UpstreamStatus(502),
        FetchError::Malformed,
    ]
    .into_iter()
    .enumerate()
    {
        let k = key_of("/err", &i.to_string(), "");
        assert!(matches!(co.resolve(&mut cache, &k, 1000, 0, 1), Resolution::Lead));
        co.publish(&mut cache, &k, &FetchOutcome::Failure(err), 1);
        // surfaced verbatim, never converted into a synthetic success
        assert_eq!(err, err.clone());
        assert!(matches!(co.resolve(&mut cache, &k, 1000, 2, 2), Resolution::Lead));
        co.publish(&mut cache, &k, &FetchOutcome::Failure(err), 3);
    }
    assert_ne!(FetchError::UpstreamStatus(502), FetchError::UpstreamStatus(404));
}

#[test]
fn follower_timeout_abandons_and_rejoins() {
    let mut cache = MemCache::new();
    let mut co = JoinCoordinator::new();
    let k = key_of("/slow", "", "");

    assert!(matches!(co.resolve(&mut cache, &k, 1000, 0, 1), Resolution::Lead));
    assert!(matches!(co.resolve(&mut cache, &k, 1000, 0, 2), Resolution::Follow));
    assert_eq!(co.waiter_count(&k), 1);

    // the follower waits past its bound and abandons the call
    co.abandon(&k, 2);
    assert_eq!(co.waiter_count(&k), 0);

    // its retry finds the call still in flight and joins again
    assert!(matches!(co.resolve(&mut cache, &k, 1000, 50, 2), Resolution::Follow));
    assert_eq!(co.waiter_count(&k), 1);

    let ws = co.publish(&mut cache, &k, &FetchOutcome::Success(b("late")), 60);
    assert_eq!(ws, vec![2]);
}

#[test]
fn unrelated_keys_lead_independently() {
    let mut cache = MemCache::new();
    let mut co = JoinCoordinator::new();
    let k1 = key_of("/a", "", "");
    let k2 = key_of("/b", "", "");

    // a slow fetch for one key never blocks resolution of another
    assert!(matches!(co.resolve(&mut cache, &k1, 1000, 0, 1), Resolution::Lead));
    assert!(matches!(co.resolve(&mut cache, &k2, 1000, 0, 2), Resolution::Lead));
    assert_eq!(co.waiter_count(&k1), 0);
    assert_eq!(co.waiter_count(&k2), 0);
}

#[test]
fn stale_value_triggers_a_new_fetch() {
    let mut cache = MemCache::new();
    let mut co = JoinCoordinator::new();
    let k = key_of("/ttl", "", "");

    assert!(matches!(co.resolve(&mut cache, &k, 100, 0, 1), Resolution::Lead));
    co.publish(&mut cache, &k, &FetchOutcome::Success(b("v")), 0);
    match co.resolve(&mut cache, &k, 100, 50, 2) {
        Resolution::Hit(v) => assert_eq!(v, b("v")),
        _ => panic!("expected a hit within the window"),
    }
    // more than the window has elapsed since the write: not a hit
    assert!(matches!(co.resolve(&mut cache, &k, 100, 101, 3), Resolution::Lead));
}

#[test]
fn clear_forgets_in_flight_calls() {
    let mut cache = MemCache::new();
    let mut co = JoinCoordinator::new();
    let k = key_of("/c", "", "");
    assert!(matches!(co.resolve(&mut cache, &k, 1000, 0, 1), Resolution::Lead));
    co.clear();
    assert!(matches!(co.resolve(&mut cache, &k, 1000, 0, 2), Resolution::Lead));
}
