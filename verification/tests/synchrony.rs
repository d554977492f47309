use liminal_db::synchrony::{assemble_groups, build_adjacency, extract_components, group_id, rank_components};

#[test]
fn components_of_the_cofiring_graph() {
    let adj = build_adjacency(&vec![(1, 2), (2, 3), (4, 5), (6, 6), (7, 8), (8, 7)]);
    let comps = extract_components(&adj);
    assert_eq!(comps, vec![vec![1, 2, 3], vec![4, 5], vec![7, 8]]);
}

#[test]
fn isolated_pairs_and_cycles() {
    let adj = build_adjacency(&vec![(10, 20), (20, 30), (30, 10), (40, 50)]);
    let mut comps = extract_components(&adj);
    for c in comps.iter_mut() {
        c.sort();
    }
    assert_eq!(comps, vec![vec![10, 20, 30], vec![40, 50]]);
    assert!(extract_components(&build_adjacency(&vec![])).is_empty());
    assert!(extract_components(&build_adjacency(&vec![(9, 9)])).is_empty());
}

#[test]
fn ranking_is_a_stable_sort_by_size() {
    let comps = vec![vec![1, 2], vec![3, 4, 5], vec![6, 7], vec![8, 9, 10, 11], vec![12, 13]];
    let ranked = rank_components(&comps);
    assert_eq!(
        ranked,
        vec![vec![8, 9, 10, 11], vec![3, 4, 5], vec![1, 2], vec![6, 7], vec![12, 13]]
    );
}

#[test]
fn groups_take_the_first_ranks_with_tokens() {
    let ranked = vec![vec![1, 2, 3], vec![4, 5], vec![6, 7], vec![8, 9]];
    let tokens = vec![
        vec!["cpu".to_string()],
        vec![],
        vec!["mem".to_string(), "io".to_string()],
        vec!["net".to_string()],
    ];
    let groups = assemble_groups(&ranked, &tokens, 3, 5);
    assert_eq!(groups.len(), 2);
    assert_eq!(groups[0].id, 5 * 65536);
    assert_eq!(groups[0].nodes, vec![1, 2, 3]);
    assert_eq!(groups[1].id, 5 * 65536 + 2);
    assert_eq!(groups[1].tokens, vec!["mem".to_string(), "io".to_string()]);
    assert_eq!(group_id(u64::MAX, 1), u64::MAX.wrapping_shl(16).wrapping_add(1));
}
