use liminal_db::lql::{parse_lql, LqlAst};
use liminal_db::views::ViewFilter;

fn threshold(t: &Option<String>) -> Option<f32> {
    t.as_deref().map(|text| text.parse::<f32>().unwrap())
}

#[test]
fn parse_select_basic() {
    let ast = parse_lql("SELECT cpu/load WINDOW 1500").unwrap();
    assert_eq!(
        ast,
        LqlAst::Select {
            pattern: "cpu/load".into(),
            window_ms: Some(1500),
            filter: ViewFilter::default(),
        }
    );
}

#[test]
fn parse_select_with_where() {
    let ast = parse_lql("SELECT cpu/load WHERE strength>=0.7 WINDOW 1200").unwrap();
    match ast {
        LqlAst::Select { pattern, window_ms, filter } => {
            assert_eq!(pattern, "cpu/load");
            assert_eq!(window_ms, Some(1200));
            assert_eq!(threshold(&filter.min_strength), Some(0.7));
            assert_eq!(filter.min_salience, None);
            assert_eq!(filter.adreno, None);
        }
        _ => panic!("unexpected AST variant"),
    }
}

#[test]
fn parse_subscribe_every() {
    let ast = parse_lql("SUBSCRIBE mem/free WINDOW 2000 EVERY 1000").unwrap();
    assert_eq!(
        ast,
        LqlAst::Subscribe {
            pattern: "mem/free".into(),
            window_ms: Some(2000),
            every_ms: Some(1000),
            filter: ViewFilter::default(),
        }
    );
}

#[test]
fn parse_unsubscribe() {
    let ast = parse_lql("UNSUBSCRIBE 42").unwrap();
    assert_eq!(ast, LqlAst::Unsubscribe { id: 42 });
}

#[test]
fn reject_invalid_strength() {
    let err = parse_lql("SELECT cpu WHERE strength>=1.5").unwrap_err();
    assert!(err.to_string().contains("strength"));
}

#[test]
fn reject_unknown_command() {
    let err = parse_lql("FOO bar").unwrap_err();
    assert!(err.to_string().contains("unknown"));
}

#[test]
fn parse_select_with_extended_filters() {
    let ast = parse_lql("SELECT cpu/load WHERE salience>=0.7 AND adreno=true WINDOW 5000")
        .expect("parse select");
    match ast {
        LqlAst::Select { pattern, window_ms, filter } => {
            assert_eq!(pattern, "cpu/load");
            assert_eq!(window_ms, Some(5_000));
            assert_eq!(threshold(&filter.min_salience), Some(0.7));
            assert_eq!(filter.adreno, Some(true));
        }
        _ => panic!("unexpected AST variant"),
    }
}

#[test]
fn parse_subscribe_with_adreno_filter() {
    let ast = parse_lql("SUBSCRIBE * WHERE adreno=false WINDOW 1000 EVERY 5000")
        .expect("parse subscribe");
    match ast {
        LqlAst::Subscribe { pattern, window_ms, every_ms, filter } => {
            assert_eq!(pattern, "*");
            assert_eq!(window_ms, Some(1_000));
            assert_eq!(every_ms, Some(5_000));
            assert_eq!(filter.adreno, Some(false));
        }
        _ => panic!("unexpected AST variant"),
    }
}

#[test]
fn parse_introspect_model_without_top() {
    let ast = parse_lql("INTROSPECT model").expect("parse introspect");
    assert_eq!(ast, LqlAst::IntrospectModel { top_n: None });
}

#[test]
fn parse_introspect_influence_with_top() {
    let ast = parse_lql("INTROSPECT influence TOP 7").expect("parse introspect");
    assert_eq!(ast, LqlAst::IntrospectInfluence { top_n: Some(7) });
}

#[test]
fn parse_introspect_rejects_invalid_top() {
    let err = parse_lql("INTROSPECT model TOP 0").unwrap_err();
    assert!(err.to_string().contains("TOP"));
}

#[test]
fn parse_introspect_rejects_unknown_target() {
    let err = parse_lql("INTROSPECT foo").unwrap_err();
    assert!(err.to_string().contains("unexpected"));
}

#[test]
fn lql_keywords_are_case_insensitive_and_messages_exact() {
    let ast = parse_lql("  select cpu where strength>=1 and adreno=TRUE window 10 ").unwrap();
    match ast {
        LqlAst::Select { pattern, window_ms, filter } => {
            assert_eq!(pattern, "cpu");
            assert_eq!(window_ms, Some(10));
            assert_eq!(filter.min_strength.as_deref(), Some("1"));
            assert_eq!(filter.adreno, Some(true));
        }
        _ => panic!("unexpected AST variant"),
    }
    assert_eq!(parse_lql("   ").unwrap_err().to_string(), "empty LQL query");
    assert_eq!(parse_lql("frob x").unwrap_err().to_string(), "unknown LQL command: FROB");
    assert_eq!(parse_lql("SELECT").unwrap_err().to_string(), "SELECT requires a pattern");
    assert_eq!(
        parse_lql("SELECT a WHERE").unwrap_err().to_string(),
        "WHERE requires a condition"
    );
    assert_eq!(
        parse_lql("SELECT a WHERE adreno=yes").unwrap_err().to_string(),
        "adreno must be true or false"
    );
    assert_eq!(
        parse_lql("SELECT a WHERE strength>=0.5 salience>=0.1").unwrap_err().to_string(),
        "expected AND between WHERE clauses"
    );
    assert_eq!(
        parse_lql("SELECT a WHERE strength>=x").unwrap_err().to_string(),
        "invalid strength threshold"
    );
    assert_eq!(
        parse_lql("SELECT a WHERE salience>=-0.5").unwrap_err().to_string(),
        "salience must be within 0.0..=1.0"
    );
    assert_eq!(
        parse_lql("SELECT a WHERE color=red").unwrap_err().to_string(),
        "unsupported WHERE clause"
    );
    assert_eq!(
        parse_lql("SELECT a WINDOW").unwrap_err().to_string(),
        "WINDOW requires milliseconds value"
    );
    assert_eq!(parse_lql("SELECT a WINDOW -1").unwrap_err().to_string(), "invalid WINDOW value");
    assert_eq!(
        parse_lql("SELECT a WINDOW 4294967296").unwrap_err().to_string(),
        "invalid WINDOW value"
    );
    assert_eq!(
        parse_lql("SUBSCRIBE a EVERY 0").unwrap_err().to_string(),
        "EVERY must be greater than zero"
    );
    assert_eq!(
        parse_lql("SELECT a EVERY 5").unwrap_err().to_string(),
        "unexpected token in SELECT: EVERY"
    );
    assert_eq!(
        parse_lql("UNSUBSCRIBE 1 2").unwrap_err().to_string(),
        "UNSUBSCRIBE takes exactly one argument"
    );
    assert_eq!(parse_lql("UNSUBSCRIBE x").unwrap_err().to_string(), "invalid view id");
    assert_eq!(
        parse_lql("INTROSPECT epoch").unwrap_err().to_string(),
        "INTROSPECT EPOCH requires an id"
    );
    assert_eq!(parse_lql("INTROSPECT epoch +9").unwrap(), LqlAst::IntrospectEpoch { id: 9 });
    assert_eq!(
        parse_lql("INTROSPECT tension top").unwrap_err().to_string(),
        "TOP requires a numeric value"
    );
    assert_eq!(
        parse_lql("INTROSPECT epochs limit 3").unwrap_err().to_string(),
        "unexpected token in INTROSPECT: limit"
    );
}

#[test]
fn thresholds_follow_f32_rounding() {
    let ok = |q: &str| parse_lql(q).is_ok();
    assert!(ok("SELECT a WHERE strength>=1.0000000596"));
    assert!(!ok("SELECT a WHERE strength>=1.0000000597"));
    assert!(ok("SELECT a WHERE strength>=-0.000"));
    assert!(ok("SELECT a WHERE strength>=.5"));
    assert!(ok("SELECT a WHERE strength>=+1."));
    assert!(!ok("SELECT a WHERE strength>=."));
    assert_eq!(
        parse_lql("SELECT a WHERE strength>=inf").unwrap_err().to_string(),
        "strength must be within 0.0..=1.0"
    );
    assert_eq!(
        parse_lql("SELECT a WHERE strength>=NaN").unwrap_err().to_string(),
        "strength must be within 0.0..=1.0"
    );
}

#[test]
fn keywords_read_in_any_ascii_case() {
    let pairs = [
        ("SELECT cpu/load WHERE strength>=0.5 AND salience>=0.2 WINDOW 500", "select cpu/load where strength>=0.5 and salience>=0.2 window 500"),
        ("SUBSCRIBE cpu WINDOW 100 EVERY 50", "Subscribe cpu Window 100 eVeRy 50"),
        ("UNSUBSCRIBE 7", "unsubscribe 7"),
        ("INTROSPECT MODEL TOP 3", "introspect model top 3"),
        ("SELECT cpu WHERE", "select cpu where"),
        ("SELECT cpu WINDOW 0", "select cpu window 0"),
    ];
    for (a, b) in pairs {
        let ra = parse_lql(a);
        let rb = parse_lql(b);
        assert_eq!(ra.is_err(), rb.is_err(), "{a} / {b}");
        assert_eq!(ra.ok(), rb.ok(), "{a} / {b}");
    }
    assert!(parse_lql("SELECT cpu WINDOW 0").is_err());
    assert!(parse_lql("   ").is_err());
}
