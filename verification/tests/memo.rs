//! The per-cycle memoization cache: reuse within one cycle, inheritance
//! across one boundary, and eviction of unrequested keys.

use silkenweb::memo::Memo;

#[test]
fn second_request_in_a_cycle_reuses_the_first() {
    let mut m: Memo<i32> = Memo::new();
    let mut calls = 0;
    let a = m.cache(0, 7, || {
        calls += 1;
        41
    });
    let b = m.cache(0, 7, || {
        calls += 1;
        99
    });
    assert_eq!(a, 41);
    assert_eq!(b, 41);
    assert_eq!(calls, 1);
}

#[test]
fn a_requested_key_survives_one_boundary() {
    let mut m: Memo<i32> = Memo::new();
    let a = m.cache(0, 1, || 10);
    m.end_cycle();
    let b = m.cache(0, 1, || 20);
    assert_eq!(a, 10);
    assert_eq!(b, 10);
}

#[test]
fn an_unrequested_key_is_dropped_at_the_boundary() {
    let mut m: Memo<i32> = Memo::new();
    let _ = m.cache(0, 1, || 10);
    m.end_cycle();
    // Cycle passes without requesting key 1.
    let _ = m.cache(0, 2, || 20);
    m.end_cycle();
    // Key 1 was not carried forward, so it is recomputed.
    let b = m.cache(0, 1, || 30);
    assert_eq!(b, 30);
}

#[test]
fn distinct_tables_do_not_share_keys() {
    let mut m: Memo<i32> = Memo::new();
    let a = m.cache(1, 5, || 100);
    let b = m.cache(2, 5, || 200);
    assert_eq!(a, 100);
    assert_eq!(b, 200);
    assert_eq!(m.cache(1, 5, || 0), 100);
    assert_eq!(m.cache(2, 5, || 0), 200);
}

#[test]
fn the_boundary_swap_is_queued_on_first_touch() {
    let mut m: Memo<i32> = Memo::new();
    let _ = m.cache(0, 1, || 1);
    m.end_cycle();
    let _ = m.cache(0, 1, || 2);
    let b = m.cache(0, 1, || 3);
    // Still within one cycle: the inherited value is served.
    assert_eq!(b, 1);
    m.end_cycle();
    m.end_cycle();
    // Two boundaries without a request empty the cache entirely.
    let c = m.cache(0, 1, || 4);
    assert_eq!(c, 4);
}
