use liminal_db::views::{ViewFilter, ViewRegistry};

#[test]
fn view_tick_emits_when_due() {
    let mut registry = ViewRegistry::new();
    let now = 1_000u64;
    let id = registry.add_view("cpu".into(), 1_000, 500, now);
    assert_eq!(id, 1);
    let due = registry.take_due(now + 500);
    assert_eq!(due.len(), 1);
    assert_eq!(due[0].id, 1);
    assert_eq!(due[0].pattern, "cpu");
    assert_eq!(due[0].last_emit, now + 500);
    let next = registry.take_due(now + 700);
    assert!(next.is_empty());
}

#[test]
fn a_new_view_is_due_one_interval_after_it_was_added() {
    let mut registry = ViewRegistry::new();
    registry.add_view("mem".into(), 2_000, 300, 100);
    // last_emit saturates at 0: due from 300 on
    assert!(registry.take_due(299).is_empty());
    assert_eq!(registry.take_due(300).len(), 1);
    assert!(registry.take_due(599).is_empty());
    assert_eq!(registry.take_due(600).len(), 1);
}

#[test]
fn ids_increase_and_removal_reports_presence() {
    let mut registry = ViewRegistry::new();
    let a = registry.add_view("a".into(), 10, 10, 0);
    let b = registry.add_view("b".into(), 10, 10, 0);
    let c = registry.add_view("c".into(), 10, 10, 0);
    assert_eq!((a, b, c), (1, 2, 3));
    assert!(registry.remove_view(b));
    assert!(!registry.remove_view(b));
    assert!(!registry.remove_view(42));
    let ids: Vec<u64> = registry.list().iter().map(|v| v.id).collect();
    assert_eq!(ids, vec![1, 3]);
    let d = registry.add_view("d".into(), 10, 10, 0);
    assert_eq!(d, 4);
}

#[test]
fn take_due_returns_due_views_in_id_order() {
    let mut registry = ViewRegistry::new();
    registry.add_view("slow".into(), 10, 1_000, 5_000);
    registry.add_view("fast".into(), 10, 100, 5_000);
    registry.add_view("mid".into(), 10, 500, 5_000);
    let due = registry.take_due(5_100);
    let names: Vec<&str> = due.iter().map(|v| v.pattern.as_str()).collect();
    assert_eq!(names, vec!["slow", "fast", "mid"]);
    let due = registry.take_due(6_000);
    let names: Vec<&str> = due.iter().map(|v| v.pattern.as_str()).collect();
    assert_eq!(names, vec!["fast", "mid"]);
}

#[test]
fn default_filter_lets_everything_through() {
    let f = ViewFilter::new();
    assert_eq!(f, ViewFilter::default());
    assert_eq!(f.min_strength, None);
    assert_eq!(f.min_salience, None);
    assert_eq!(f.adreno, None);
}
