use liminal_db::nlu::{classify_intent, decide_intent, IntentKind, IntentProbe, NluError};

fn read(text: &str) -> (IntentKind, String) {
    let m = classify_intent(text).unwrap();
    (m.kind, m.target)
}

#[test]
fn commands_in_english() {
    assert_eq!(read("boost cpu/load"), (IntentKind::Boost, "cpu/load".to_string()));
    assert_eq!(read("  Deprioritize   mem  "), (IntentKind::Deprioritize, "mem".to_string()));
    assert_eq!(read("snapshot all"), (IntentKind::Snapshot, "all".to_string()));
    assert_eq!(read("dream now"), (IntentKind::DreamNow, String::new()));
    assert_eq!(read("SYNC   NOW"), (IntentKind::SyncNow, String::new()));
    assert_eq!(read("awaken now"), (IntentKind::AwakenNow, String::new()));
    assert_eq!(read("set target 0.7"), (IntentKind::SetTarget, "0.7".to_string()));
    assert_eq!(read("set target 1.0"), (IntentKind::SetTarget, "1.0".to_string()));
    assert_eq!(read("explain latency"), (IntentKind::Explain, "latency".to_string()));
    assert_eq!(read("how are you?"), (IntentKind::Ask, String::new()));
}

#[test]
fn commands_in_russian() {
    assert_eq!(read("усиль cpu"), (IntentKind::Boost, "cpu".to_string()));
    assert_eq!(read("сон сейчас"), (IntentKind::DreamNow, String::new()));
    assert_eq!(read("установи цель 0.5"), (IntentKind::SetTarget, "0.5".to_string()));
    assert_eq!(read("как ты"), (IntentKind::Ask, String::new()));
}

#[test]
fn unknown_or_blank_text_is_unrecognized() {
    assert!(matches!(classify_intent(""), Err(NluError::Unrecognized)));
    assert!(matches!(classify_intent("   "), Err(NluError::Unrecognized)));
    assert!(matches!(classify_intent("set target 1.5"), Err(NluError::Unrecognized)));
    assert!(matches!(classify_intent("make coffee"), Err(NluError::Unrecognized)));
    assert_eq!(NluError::Unrecognized.message(), "unrecognized intent");
}

#[test]
fn the_first_pattern_in_order_wins() {
    let probe = IntentProbe {
        boost: None,
        deprioritize: None,
        snapshot: Some("  s  ".to_string()),
        dream_now: true,
        sync_now: false,
        awaken_now: false,
        set_target: Some("0.3".to_string()),
        explain: Some("e".to_string()),
        ask: true,
    };
    let m = decide_intent(&probe).unwrap();
    assert_eq!(m.kind, IntentKind::Snapshot);
    assert_eq!(m.target, "s");
    let none = IntentProbe {
        boost: None,
        deprioritize: None,
        snapshot: None,
        dream_now: false,
        sync_now: false,
        awaken_now: false,
        set_target: None,
        explain: None,
        ask: false,
    };
    assert!(matches!(decide_intent(&none), Err(NluError::Unrecognized)));
}
