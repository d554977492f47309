use liminal_db::window::TimedQueue;

const HIT_RETENTION_MS: u64 = 120_000;
const MAX_TOKEN_HITS: usize = 512;

#[test]
fn recent_for_respects_window() {
    // (node, strength, latency_ms)
    let mut hits: TimedQueue<(u64, f32, u32)> = TimedQueue::new();
    hits.record(100, (1, 0.8, 120), HIT_RETENTION_MS, MAX_TOKEN_HITS);
    hits.record(600, (2, 0.6, 80), HIT_RETENTION_MS, MAX_TOKEN_HITS);
    let recent = hits.recent_for(1_200, 700);
    assert_eq!(recent.len(), 1);
    assert_eq!(recent[0].1 .0, 2);
    assert_eq!(recent[0].1 .2, 80);
}

#[test]
fn old_entries_and_overflow_are_dropped() {
    let mut q: TimedQueue<u32> = TimedQueue::new();
    q.record(0, 1, 100, 3);
    q.record(50, 2, 100, 3);
    q.record(120, 3, 100, 3);
    // the entry at 0 is 120 ms old: dropped
    assert_eq!(q.recent_for(120, 1_000), vec![(50, 2), (120, 3)]);
    q.record(130, 4, 100, 3);
    q.record(140, 5, 100, 3);
    assert_eq!(q.len(), 3);
    assert_eq!(q.recent_for(140, 1_000), vec![(120, 3), (130, 4), (140, 5)]);
    assert_eq!(q.recent_for(140, 15), vec![(130, 4), (140, 5)]);
    assert!(q.recent_for(1_000, 10).is_empty());
}

#[test]
fn a_zero_cap_keeps_nothing() {
    let mut q: TimedQueue<u8> = TimedQueue::new();
    q.record(5, 1, 10, 0);
    assert_eq!(q.len(), 0);
}
