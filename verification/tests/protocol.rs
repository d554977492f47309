use std::sync::atomic::{AtomicU32, Ordering};

use liminal_db::protocol::{
    adjust_tick, event_from_field_log, parse_introspect_target, event_from_impulse_log, hint_label, next_tick, EventId, FieldLogEvent,
    FieldLogLine, IntrospectRequest, IntrospectTarget, Outbox,
};
use liminal_db::types::{impulse_kind_from_code, Hint, ImpulseKind};

#[test]
fn slow_tick_adds_fifty_up_to_four_hundred() {
    assert_eq!(next_tick(200, Hint::SlowTick), 250);
    assert_eq!(next_tick(380, Hint::SlowTick), 400);
    assert_eq!(next_tick(u32::MAX, Hint::SlowTick), 400);
}

#[test]
fn fast_tick_takes_ten_down_to_one_hundred() {
    assert_eq!(next_tick(200, Hint::FastTick), 190);
    assert_eq!(next_tick(105, Hint::FastTick), 100);
    assert_eq!(next_tick(100, Hint::FastTick), 100);
    assert_eq!(next_tick(40, Hint::FastTick), 40);
    assert_eq!(next_tick(200, Hint::TrimField), 200);
    assert_eq!(next_tick(200, Hint::WakeSeeds), 200);
}

#[test]
fn adjust_tick_stores_and_returns_the_next_tick() {
    let tick = AtomicU32::new(380);
    assert_eq!(adjust_tick(&tick, &Hint::SlowTick), 400);
    assert_eq!(tick.load(Ordering::SeqCst), 400);
    assert_eq!(adjust_tick(&tick, &Hint::SlowTick), 400);
    assert_eq!(adjust_tick(&tick, &Hint::FastTick), 390);
    assert_eq!(tick.load(Ordering::SeqCst), 390);
}

#[test]
fn hint_labels() {
    assert_eq!(hint_label(&Hint::SlowTick), "slow_tick");
    assert_eq!(hint_label(&Hint::FastTick), "fast_tick");
    assert_eq!(hint_label(&Hint::TrimField), "trim_field");
    assert_eq!(hint_label(&Hint::WakeSeeds), "wake_seeds");
}

#[test]
fn impulse_codes() {
    assert_eq!(impulse_kind_from_code(0), ImpulseKind::Affect);
    assert_eq!(impulse_kind_from_code(1), ImpulseKind::Query);
    assert_eq!(impulse_kind_from_code(2), ImpulseKind::Write);
    assert_eq!(impulse_kind_from_code(9), ImpulseKind::Query);
}

#[test]
fn introspect_requests() {
    let r = IntrospectRequest::new(IntrospectTarget::Influence);
    assert_eq!(r.top, None);
    let r = r.with_top(Some(3));
    assert_eq!(r, IntrospectRequest { target: IntrospectTarget::Influence, top: Some(3) });
}

#[test]
fn event_ids() {
    assert_eq!(EventId::from(5u64), EventId::Num(5));
    assert_eq!(EventId::from_text("system"), EventId::Text("system".to_string()));
}

#[test]
fn outbox_take_then_restore_gives_back_the_package() {
    let mut out: Outbox<u32, &str> = Outbox::new();
    assert!(out.take().is_none());
    out.push_event(1);
    out.push_event(2);
    out.set_metrics("m1");
    let pk = out.take().unwrap();
    assert_eq!(pk.events, vec![1, 2]);
    assert_eq!(pk.metrics, Some("m1"));
    assert!(out.take().is_none());
    out.push_event(3);
    out.restore(pk);
    let again = out.take().unwrap();
    assert_eq!(again.events, vec![1, 2, 3]);
    assert_eq!(again.metrics, Some("m1"));
}

#[test]
fn restore_keeps_newer_metrics() {
    let mut out: Outbox<u32, u32> = Outbox::new();
    out.set_metrics(1);
    let pk = out.take().unwrap();
    out.set_metrics(2);
    out.restore(pk);
    assert_eq!(out.take().unwrap().metrics, Some(2));
}

#[test]
fn impulse_log_lines() {
    let h = event_from_impulse_log("  n12 boosted cpu/load  ").unwrap();
    assert_eq!(h.id, 12);
    assert_eq!(h.message, "boosted cpu/load");
    assert!(event_from_impulse_log("n12").is_none());
    assert!(event_from_impulse_log("nx boosted").is_none());
    assert!(event_from_impulse_log("m12 boosted").is_none());
}

#[test]
fn field_log_sleep_dead_divide() {
    match event_from_field_log("SLEEP n7") {
        FieldLogLine::Event(FieldLogEvent::Sleep { id }) => assert_eq!(id, 7),
        _ => panic!("expected sleep"),
    }
    match event_from_field_log("  DEAD n9 ") {
        FieldLogLine::Event(FieldLogEvent::Dead { id }) => assert_eq!(id, 9),
        _ => panic!("expected dead"),
    }
    match event_from_field_log("DIVIDE parent=n3 -> child=n11 (aff 0.50 -> 0.45)") {
        FieldLogLine::Event(FieldLogEvent::Divide { parent, child, aff_before, aff_after }) => {
            assert_eq!((parent, child), (3, 11));
            assert_eq!(aff_before.parse::<f32>().unwrap(), 0.5);
            assert_eq!(aff_after.parse::<f32>().unwrap(), 0.45);
        }
        _ => panic!("expected divide"),
    }
    assert!(matches!(event_from_field_log("DIVIDE parent=n3 -> child=n11 (aff x -> 0.45)"), FieldLogLine::Unrecognized));
    assert!(matches!(event_from_field_log("SLEEP nX"), FieldLogLine::Unrecognized));
    assert!(matches!(event_from_field_log("hello"), FieldLogLine::Unrecognized));
}

#[test]
fn field_log_collective_dream_keeps_numeric_fields() {
    match event_from_field_log("COLLECTIVE_DREAM groups=3 shared=12 took=40ms bad=x") {
        FieldLogLine::Event(FieldLogEvent::CollectiveDream { meta }) => {
            assert_eq!(
                meta,
                vec![("groups".to_string(), 3), ("shared".to_string(), 12), ("took".to_string(), 40)]
            );
        }
        _ => panic!("expected collective dream"),
    }
}

#[test]
fn field_log_json_lines_are_handed_on() {
    match event_from_field_log(r#" {"ev":"spawn","id":4} "#) {
        FieldLogLine::Json(text) => assert_eq!(text, r#"{"ev":"spawn","id":4}"#),
        _ => panic!("expected json"),
    }
}

#[test]
fn introspect_targets_read_in_any_case() {
    assert_eq!(parse_introspect_target("Awaken"), Some(IntrospectTarget::Awaken));
    assert_eq!(parse_introspect_target("MODEL"), Some(IntrospectTarget::Model));
    assert_eq!(parse_introspect_target("influence"), Some(IntrospectTarget::Influence));
    assert_eq!(parse_introspect_target("tEnSiOn"), Some(IntrospectTarget::Tension));
    assert_eq!(parse_introspect_target("epochs"), None);
    assert_eq!(parse_introspect_target(""), None);
}
