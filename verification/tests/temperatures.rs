use mvsqlite::temperature::{backoff_millis, PageTemperatureTracker, JITTER_HALF, JITTER_ONE};

const TTL: u128 = 5_000_000_000;

#[test]
fn cold_pages_cause_no_delay() {
    let t = PageTemperatureTracker::default();
    assert_eq!(t.suggested_backoff(&[1, 2, 3]), 0);
    assert_eq!(t.max_heat_at(&[], 0), 0);
}

#[test]
fn conflicts_heat_pages_up_to_a_limit() {
    let mut t = PageTemperatureTracker::default();
    t.record_conflict_at(&[1, 2], 10);
    t.record_conflict_at(&[2], 20);
    assert_eq!(t.max_heat_at(&[1], 20), 1);
    assert_eq!(t.max_heat_at(&[2], 20), 2);
    assert_eq!(t.max_heat_at(&[1, 2, 3], 20), 2);
    for _ in 0..150 {
        t.record_conflict_at(&[2], 30);
    }
    assert_eq!(t.max_heat_at(&[2], 30), 100);
}

#[test]
fn heat_is_forgotten_after_a_while() {
    let mut t = PageTemperatureTracker::default();
    t.record_conflict_at(&[1], 10);
    assert_eq!(t.max_heat_at(&[1], 10 + TTL - 1), 1);
    assert_eq!(t.max_heat_at(&[1], 10 + TTL), 0);
    t.record_conflict_at(&[1], 10 + TTL);
    assert_eq!(t.max_heat_at(&[1], 10 + TTL), 2);
}

#[test]
fn success_cools_its_pages_down() {
    let mut t = PageTemperatureTracker::default();
    t.record_conflict_at(&[1, 2, 3], 10);
    t.record_success(&[1, 3, 9]);
    assert_eq!(t.max_heat_at(&[1, 3], 10), 0);
    assert_eq!(t.max_heat_at(&[2], 10), 1);
}

#[test]
fn too_many_pages_make_the_tracker_start_over() {
    let mut t = PageTemperatureTracker::default();
    let pages: Vec<u32> = (0..10_000).collect();
    t.record_conflict_at(&pages, 10);
    assert_eq!(t.max_heat_at(&[5], 10), 1);
    t.record_conflict_at(&[20_000], 11);
    assert_eq!(t.max_heat_at(&[5, 20_000], 11), 0);
}

#[test]
fn delay_grows_with_heat() {
    assert_eq!(backoff_millis(0, JITTER_ONE), 0);
    assert_eq!(backoff_millis(20, JITTER_HALF), 10);
    assert_eq!(backoff_millis(100, JITTER_HALF), 10);
    assert_eq!(backoff_millis(20, JITTER_ONE - 1), 19);
    assert_eq!(backoff_millis(7, JITTER_HALF), 3);
    assert_eq!(backoff_millis(1, JITTER_ONE - 1), 0);
}

#[test]
fn recent_conflicts_delay_a_commit() {
    let mut t = PageTemperatureTracker::default();
    for _ in 0..20 {
        t.record_conflict(&[7]);
    }
    for _ in 0..50 {
        let delay = t.suggested_backoff(&[3, 7]);
        assert!((10..20).contains(&delay));
    }
    t.record_success(&[7]);
    assert_eq!(t.suggested_backoff(&[3, 7]), 0);
}
