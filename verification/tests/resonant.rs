use liminal_db::resonant::{DreamReport, SyncEvent, SyncLog, SyncReport};

fn dream(protected: u32) -> DreamReport {
    DreamReport { strengthened: 2, weakened: 1, pruned: 0, protected, rewired: 0, took_ms: 5 }
}

fn collective(shared: u32, aligned: u32, protected: u32) -> SyncReport {
    SyncReport { groups: 1, shared, aligned, protected, took_ms: 3 }
}

#[test]
fn a_new_log_is_empty_with_zero_totals() {
    let log = SyncLog::new();
    assert!(log.is_empty());
    assert_eq!(log.total_protected(), 0);
    assert_eq!(log.total_aligned(), 0);
    assert_eq!(log.total_shared(), 0);
}

#[test]
fn totals_add_up_dreams_and_collectives() {
    let mut log = SyncLog::new();
    log.record_dream(10, &dream(3));
    log.record_collective(20, &collective(5, 7, 2));
    log.record_build("abc".to_string(), 30, 9);
    log.record_apply(Some("abc".to_string()), 40, 9);
    log.record_tick(50);
    log.record_collective(60, &collective(1, 1, 1));
    assert!(!log.is_empty());
    assert_eq!(log.total_protected(), 6);
    assert_eq!(log.total_aligned(), 8);
    assert_eq!(log.total_shared(), 6);
    assert_eq!(
        log.entries()[0],
        SyncEvent::Dream { at_ms: 10, strengthened: 2, weakened: 1, protected: 3 }
    );
    assert_eq!(log.entries()[4], SyncEvent::Tick { at_ms: 50 });
}

#[test]
fn the_log_keeps_the_last_forty_eight_entries() {
    let mut log = SyncLog::new();
    for t in 0..60u64 {
        log.record_tick(t);
    }
    assert_eq!(log.entries().len(), 48);
    assert_eq!(log.entries()[0], SyncEvent::Tick { at_ms: 12 });
    assert_eq!(log.entries()[47], SyncEvent::Tick { at_ms: 59 });
}

#[test]
fn truncated_keeps_the_newest_entries() {
    let mut log = SyncLog::new();
    for t in 0..5u64 {
        log.record_tick(t);
    }
    let short = log.truncated(2);
    assert_eq!(short.entries().len(), 2);
    assert_eq!(short.entries()[0], SyncEvent::Tick { at_ms: 3 });
    assert_eq!(log.truncated(10).entries().len(), 5);
    assert!(log.truncated(0).is_empty());
    assert_eq!(log.entries().len(), 5);
}

#[test]
fn ticks_keep_the_last_forty_eight() {
    let mut log = SyncLog::new();
    for i in 0..50u64 {
        log.record_tick(i);
    }
    let expected: Vec<SyncEvent> = (2..50u64).map(|at_ms| SyncEvent::Tick { at_ms }).collect();
    assert_eq!(log.entries().clone(), expected);
    let mut default_log = SyncLog::default();
    for i in 0..50u64 {
        default_log.record_tick(i);
    }
    assert_eq!(default_log.entries().clone(), expected);
}
