use liminal_db::field::{derive_seed_bytes, parse_command_words, reflex_token_matches, tokenize};
use liminal_db::types::ImpulseKind;

#[test]
fn patterns_split_into_lowercase_tokens() {
    assert_eq!(tokenize("cpu/Load.avg"), vec!["cpu", "load", "avg"]);
    assert_eq!(tokenize("//a::B..c/"), vec!["a", "b", "c"]);
    assert!(tokenize("/:.").is_empty());
    assert_eq!(tokenize("ДАННЫЕ/x y"), vec!["данные", "x y"]);
}

#[test]
fn reflex_tokens_match_whole_rule_or_one_token() {
    assert!(reflex_token_matches("cpu/load", "cpu/load"));
    assert!(reflex_token_matches("cpu/load", "load"));
    assert!(reflex_token_matches("CPU/Load", "cpu"));
    assert!(!reflex_token_matches("cpu/load", "LOAD"));
    assert!(!reflex_token_matches("cpu/load", "mem"));
    assert!(!reflex_token_matches("cpu/load", "cpu/"));
}

#[test]
fn seed_bytes_repeat_the_text_with_a_stride() {
    let b = derive_seed_bytes("ab");
    for i in 0..32usize {
        let base = if i % 2 == 0 { b'a' } else { b'b' };
        assert_eq!(b[i], base.wrapping_add((i * 37) as u8), "{i}");
    }
    assert_eq!(derive_seed_bytes(""), [0u8; 32]);
    assert_eq!(derive_seed_bytes("x")[7], b'x'.wrapping_add(259u32 as u8));
}

#[test]
fn console_commands() {
    let c = parse_command_words("q cpu/load 0.7").unwrap();
    assert_eq!(c.kind, ImpulseKind::Query);
    assert_eq!(c.pattern, "cpu/load");
    assert_eq!(c.strength.as_deref(), Some("0.7"));
    let c = parse_command_words("  W   memory/seed ").unwrap();
    assert_eq!(c.kind, ImpulseKind::Write);
    assert_eq!(c.strength, None);
    let c = parse_command_words("a x y z").unwrap();
    assert_eq!(c.kind, ImpulseKind::Affect);
    assert_eq!(c.strength.as_deref(), Some("y"));
    assert!(parse_command_words("q").is_none());
    assert!(parse_command_words("x cpu 0.5").is_none());
    assert!(parse_command_words("").is_none());
}
