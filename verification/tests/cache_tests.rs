use stmt_cache::cache::StatementCache;
use stmt_cache::model::{CacheError, PrepareOutcome};
use stmt_cache::signature::Signature;

fn sig(text: &[u8], types: &[u32]) -> Signature {
    Signature::new(text.to_vec(), types.to_vec())
}

/// Drives one full preparation of `s`, asserting it was a miss, and returns
/// the number of prepare round trips it issued (always one).
fn prepare(c: &mut StatementCache, s: &Signature, handle: u64) -> u32 {
    match c.get_or_prepare(s) {
        Ok(PrepareOutcome::MustPrepare) => {}
        other => panic!("expected MustPrepare, got {:?}", other),
    }
    c.complete_prepare(s, handle);
    1
}

#[test]
fn sequential_calls_share_handle() {
    let mut c = StatementCache::new();
    let s = sig(b"SELECT name FROM users WHERE id = $1", &[]);
    let mut round_trips: u32 = 0;

    round_trips += prepare(&mut c, &s, 11);
    match c.get_or_prepare(&s) {
        Ok(PrepareOutcome::Cached(h)) => assert_eq!(h, 11),
        other => panic!("expected a cache hit, got {:?}", other),
    }
    // The second call issued no round trip: exactly one preparation in all.
    assert_eq!(round_trips, 1);
    assert_eq!(c.cached_count(), 1);
}

#[test]
fn distinct_signatures_independent() {
    let mut c = StatementCache::new();
    let s1 = sig(b"SELECT 1", &[]);
    let s2 = sig(b"SELECT 2", &[]);

    prepare(&mut c, &s1, 1);
    assert_eq!(c.lookup(&s1), Some(1));

    // Preparing s2 neither evicts nor aliases s1.
    prepare(&mut c, &s2, 2);
    assert_eq!(c.lookup(&s1), Some(1));
    assert_eq!(c.lookup(&s2), Some(2));
    assert_eq!(c.cached_count(), 2);
}

#[test]
fn same_text_different_types_are_distinct_keys() {
    let mut c = StatementCache::new();
    let untyped = sig(b"SELECT $1", &[]);
    let typed = sig(b"SELECT $1", &[23]);

    prepare(&mut c, &untyped, 5);
    // The typed variant is a different signature: it misses.
    match c.get_or_prepare(&typed) {
        Ok(PrepareOutcome::MustPrepare) => {}
        other => panic!("expected MustPrepare, got {:?}", other),
    }
    c.complete_prepare(&typed, 6);
    assert_eq!(c.lookup(&untyped), Some(5));
    assert_eq!(c.lookup(&typed), Some(6));
}

#[test]
fn concurrent_same_signature_single_flight() {
    let mut c = StatementCache::new();
    let s = sig(b"SELECT count(*) FROM t", &[]);
    let mut round_trips: u32 = 0;

    // First of the concurrent callers is told to prepare...
    match c.get_or_prepare(&s) {
        Ok(PrepareOutcome::MustPrepare) => round_trips += 1,
        other => panic!("expected MustPrepare, got {:?}", other),
    }
    // ...every later caller, while that round trip is in flight, waits.
    for _ in 0..8 {
        match c.get_or_prepare(&s) {
            Ok(PrepareOutcome::AwaitInFlight) => {}
            other => panic!("expected AwaitInFlight, got {:?}", other),
        }
    }
    assert_eq!(c.pending_count(), 1);

    // The single preparation completes; all callers now share its handle.
    c.complete_prepare(&s, 42);
    for _ in 0..8 {
        match c.get_or_prepare(&s) {
            Ok(PrepareOutcome::Cached(h)) => assert_eq!(h, 42),
            other => panic!("expected a cache hit, got {:?}", other),
        }
    }
    assert_eq!(round_trips, 1);
}

#[test]
fn invalidate_forces_new_prepare() {
    let mut c = StatementCache::new();
    let s = sig(b"SELECT now()", &[]);

    prepare(&mut c, &s, 3);
    assert_eq!(c.lookup(&s), Some(3));

    c.invalidate_all();
    assert_eq!(c.lookup(&s), None);
    assert_eq!(c.cached_count(), 0);

    // A previously cached signature triggers a new round trip.
    match c.get_or_prepare(&s) {
        Ok(PrepareOutcome::MustPrepare) => {}
        other => panic!("expected MustPrepare, got {:?}", other),
    }
    c.complete_prepare(&s, 4);
    assert_eq!(c.lookup(&s), Some(4));
}

#[test]
fn failed_preparation_is_not_cached() {
    let mut c = StatementCache::new();
    let malformed = sig(b"SELEC 1", &[]);
    let corrected = sig(b"SELECT 1", &[]);

    // The backend rejects the malformed text; the failure is not memoized.
    match c.get_or_prepare(&malformed) {
        Ok(PrepareOutcome::MustPrepare) => {}
        other => panic!("expected MustPrepare, got {:?}", other),
    }
    c.abandon_prepare(&malformed);
    assert_eq!(c.lookup(&malformed), None);
    assert_eq!(c.cached_count(), 0);

    // A retry with corrected text (a different signature) succeeds and is cached.
    prepare(&mut c, &corrected, 9);
    assert_eq!(c.lookup(&corrected), Some(9));

    // Retrying the identical malformed signature attempts preparation again:
    // no remembered failure short-circuits it.
    match c.get_or_prepare(&malformed) {
        Ok(PrepareOutcome::MustPrepare) => {}
        other => panic!("expected MustPrepare, got {:?}", other),
    }
}

#[test]
fn cancelled_preparation_leaves_no_half_entry() {
    let mut c = StatementCache::new();
    let s1 = sig(b"SELECT a FROM t", &[]);
    let s2 = sig(b"SELECT b FROM t", &[]);

    prepare(&mut c, &s1, 1);

    // The caller preparing s2 is cancelled before the round trip finishes.
    match c.get_or_prepare(&s2) {
        Ok(PrepareOutcome::MustPrepare) => {}
        other => panic!("expected MustPrepare, got {:?}", other),
    }
    c.abandon_prepare(&s2);

    // No waiter can see a handle for s2, and s1 is untouched.
    assert_eq!(c.lookup(&s2), None);
    assert_eq!(c.pending_count(), 0);
    assert_eq!(c.lookup(&s1), Some(1));
}

#[test]
fn select_one_example() {
    let mut c = StatementCache::new();
    let plain = sig(b"SELECT 1", &[]);

    // ("SELECT 1", []) prepared once yields a handle...
    match c.get_or_prepare(&plain) {
        Ok(PrepareOutcome::MustPrepare) => {}
        other => panic!("expected MustPrepare, got {:?}", other),
    }
    c.complete_prepare(&plain, 100);

    // ...the identical signature returns it without a new network call...
    match c.get_or_prepare(&plain) {
        Ok(PrepareOutcome::Cached(h)) => assert_eq!(h, 100),
        other => panic!("expected a cache hit, got {:?}", other),
    }

    // ...and ("SELECT 1", [INT4]) yields a distinct handle.
    let int4 = sig(b"SELECT 1", &[23]);
    match c.get_or_prepare(&int4) {
        Ok(PrepareOutcome::MustPrepare) => {}
        other => panic!("expected MustPrepare, got {:?}", other),
    }
    c.complete_prepare(&int4, 101);
    assert_eq!(c.lookup(&int4), Some(101));
    assert_eq!(c.lookup(&plain), Some(100));
    assert_ne!(c.lookup(&plain), c.lookup(&int4));
}

#[test]
fn closed_cache_reports_connection_closed() {
    let mut c = StatementCache::new();
    let s = sig(b"SELECT 1", &[]);

    prepare(&mut c, &s, 2);
    c.close();
    assert!(c.is_closed());

    // No statement outlives its owning connection.
    assert_eq!(c.lookup(&s), None);
    assert_eq!(c.cached_count(), 0);
    assert_eq!(c.pending_count(), 0);

    match c.get_or_prepare(&s) {
        Err(CacheError::ConnectionClosed) => {}
        other => panic!("expected ConnectionClosed, got {:?}", other),
    }
}

#[test]
fn empty_signature_is_a_valid_key() {
    let mut c = StatementCache::new();
    let empty = sig(b"", &[]);

    prepare(&mut c, &empty, 7);
    assert_eq!(c.lookup(&empty), Some(7));

    // Empty text with a declared type is a different key.
    let typed = sig(b"", &[25]);
    assert_eq!(c.lookup(&typed), None);
}

#[test]
fn pending_state_is_observable() {
    let mut c = StatementCache::new();
    let s = sig(b"SELECT 1", &[]);

    assert!(!c.is_pending(&s));
    match c.get_or_prepare(&s) {
        Ok(PrepareOutcome::MustPrepare) => {}
        other => panic!("expected MustPrepare, got {:?}", other),
    }
    assert!(c.is_pending(&s));
    assert_eq!(c.pending_count(), 1);
    assert_eq!(c.cached_count(), 0);

    c.complete_prepare(&s, 1);
    assert!(!c.is_pending(&s));
    assert_eq!(c.pending_count(), 0);
    assert_eq!(c.cached_count(), 1);
}

#[test]
fn signature_equality_is_structural() {
    let a = sig(b"SELECT 1", &[23, 25]);
    let b = sig(b"SELECT 1", &[23, 25]);
    let c = sig(b"SELECT 1", &[25, 23]);
    let d = sig(b"SELECT 2", &[23, 25]);

    assert!(a.same_key(&b));
    assert!(b.same_key(&a));
    assert!(!a.same_key(&c));
    assert!(!a.same_key(&d));

    let copy = a.duplicate();
    assert!(copy.same_key(&a));
}
