use liminal_db::text::{parse_u64, split_whitespace, trim_chars, u64_to_padded_string, u64_to_string};
use liminal_db::threshold::{classify, float_literal_ok, ThresholdClass};

fn chars(s: &str) -> Vec<char> {
    s.chars().collect()
}

fn class(s: &str) -> ThresholdClass {
    classify(&chars(s))
}

#[test]
fn thresholds_in_the_unit_interval() {
    for s in ["0", "0.0", "1", "1.0", "0.7", ".5", "0.", "+0.25", "-0", "-0.000", "1.0000000596"] {
        assert_eq!(class(s), ThresholdClass::InRange, "{s}");
        let v: f32 = s.parse().unwrap();
        assert!((0.0..=1.0).contains(&v), "{s}");
    }
}

#[test]
fn thresholds_outside_the_unit_interval() {
    for s in ["1.5", "2", "5.", "-0.1", "inf", "-Infinity", "NaN", "1.0000001"] {
        assert_eq!(class(s), ThresholdClass::OutOfRange, "{s}");
        let v: f32 = s.parse().unwrap();
        assert!(!(0.0..=1.0).contains(&v), "{s}");
    }
}

#[test]
fn malformed_thresholds() {
    for s in ["", "abc", ".", "+", "1.2.3", "0x1", "1,5"] {
        assert_eq!(class(s), ThresholdClass::Malformed, "{s}");
        assert!(s.parse::<f32>().is_err(), "{s}");
    }
}

fn expected(s: &str) -> ThresholdClass {
    match s.parse::<f32>() {
        Err(_) => ThresholdClass::Malformed,
        Ok(v) if (0.0..=1.0).contains(&v) => ThresholdClass::InRange,
        Ok(_) => ThresholdClass::OutOfRange,
    }
}

#[test]
fn thresholds_agree_with_f32_parsing() {
    let cases = [
        "0.7", "1e0", "1E-1", "10e-1", "100e-2", "0.1e1", ".5e1", "5e-1", "1e+0", "0e99999999999999999999999999",
        "1e-50", "1e-99999999999999999999999999", "-1e-99999999999999999999999999", "1e39", "1e99999999999999999999999999",
        "-1e-46", "-1e-45", "-7e-46", "-7.1e-46",
        "-7.00649232162408535461864791644958065640130970938257885878534141944895541342930300743319094181060791015625e-46",
        "-7.00649232162408535461864791644958065640130970938257885878534141944895541342930300743319094181060791015626e-46",
        "1.000000059604644775390625", "1.000000059604644775390626", "1.0000000596046447753906249999",
        "1000000059604644775390625e-24", "1000000059604644775390626e-24", "0.0000000000000000000000000000000000001e37",
        "00000000000000000000001e-22", "-0.0e5", "-0", "2e-1", "0.99999999999", "+1.0", "1e", "e1", "1e+", "1.e2",
        ".e2", "1..2", "--1", "+-1", "inf", "-INF", "NaN", "infinity", "1_0", "",
    ];
    for s in cases {
        assert_eq!(class(s), expected(s), "{s}");
    }
}

#[test]
fn float_literals_follow_str_parse() {
    for s in ["1", "1.5", "-2e3", "1E-7", ".5e1", "inf", "NAN", "+infinity", "0.", "3e+2"] {
        assert!(float_literal_ok(&chars(s)), "{s}");
        assert!(s.parse::<f32>().is_ok(), "{s}");
    }
    for s in ["", "e3", "1e", "1e+", "..", "1_0", " 1", "infinit"] {
        assert!(!float_literal_ok(&chars(s)), "{s}");
        assert!(s.parse::<f32>().is_err(), "{s}");
    }
}

#[test]
fn unsigned_numbers_parse_as_str_parse_does() {
    assert_eq!(parse_u64(&chars("42")), Some(42));
    assert_eq!(parse_u64(&chars("+7")), Some(7));
    assert_eq!(parse_u64(&chars("18446744073709551615")), Some(u64::MAX));
    assert_eq!(parse_u64(&chars("18446744073709551616")), None);
    assert_eq!(parse_u64(&chars("")), None);
    assert_eq!(parse_u64(&chars("-1")), None);
    assert_eq!(parse_u64(&chars("1 ")), None);
}

#[test]
fn words_and_trimming() {
    assert_eq!(split_whitespace("  a\tbb \n c  "), vec!["a", "bb", "c"]);
    assert!(split_whitespace("   ").is_empty());
    assert_eq!(trim_chars(&chars("\u{3000} x y \n")), chars("x y"));
}

#[test]
fn decimal_rendering() {
    assert_eq!(u64_to_string(0), "0");
    assert_eq!(u64_to_string(u64::MAX), "18446744073709551615");
    assert_eq!(u64_to_padded_string(42, 8), "00000042");
    assert_eq!(u64_to_padded_string(123456789, 8), "123456789");
}
