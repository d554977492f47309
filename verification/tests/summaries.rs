use liminal_db::summaries::top_salient_tokens;

fn entries(v: &[(&str, usize)]) -> Vec<(String, usize)> {
    v.iter().map(|(t, n)| (t.to_string(), *n)).collect()
}

#[test]
fn top_three_by_cells_then_token() {
    let counts = entries(&[("mem", 2), ("cpu", 5), ("io", 2), ("net", 7), ("disk", 2)]);
    assert_eq!(top_salient_tokens(&counts), vec!["net", "cpu", "disk"]);
}

#[test]
fn fewer_than_three_tokens() {
    assert!(top_salient_tokens(&Vec::new()).is_empty());
    let counts = entries(&[("b", 1), ("a", 1)]);
    assert_eq!(top_salient_tokens(&counts), vec!["a", "b"]);
}

#[test]
fn tokens_order_like_rust_strings() {
    let counts = entries(&[("ab", 1), ("a", 1), ("B", 1), ("é", 1)]);
    let mut expected: Vec<String> = counts.iter().map(|(t, _)| t.clone()).collect();
    expected.sort();
    expected.truncate(3);
    assert_eq!(top_salient_tokens(&counts), expected);
}
