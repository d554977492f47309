use liminal_db::usage::{UsageStat, UsageTable};

#[test]
fn hits_count_and_stamp() {
    let mut t = UsageTable::new();
    t.hit(1, 2, 10);
    t.hit(1, 2, 20);
    t.hit(2, 1, 30);
    assert_eq!(t.get(1, 2), Some(UsageStat { hits: 2, last_used_ms: 20 }));
    assert_eq!(t.get(2, 1), Some(UsageStat { hits: 1, last_used_ms: 30 }));
    assert_eq!(t.get(3, 4), None);
}

#[test]
fn registered_links_start_unused() {
    let mut t = UsageTable::new();
    t.register(5, 6, 100);
    assert_eq!(t.get(5, 6), Some(UsageStat { hits: 0, last_used_ms: 100 }));
    t.hit(5, 6, 150);
    t.register(5, 6, 200);
    assert_eq!(t.get(5, 6), Some(UsageStat { hits: 1, last_used_ms: 150 }));
    t.unregister(5, 6);
    assert_eq!(t.get(5, 6), None);
}

#[test]
fn a_full_route_table_forgets_the_least_used() {
    let mut t = UsageTable::new();
    t.hit_route(1, 2, 10, 2);
    t.hit_route(1, 2, 11, 2);
    t.hit_route(3, 4, 12, 2);
    t.hit_route(5, 6, 13, 2);
    // (3,4) and (5,6) have one hit each; (3,4) is older
    assert_eq!(t.get(3, 4), None);
    assert!(t.get(1, 2).is_some());
    assert!(t.get(5, 6).is_some());
}

#[test]
fn purging_a_cell_drops_its_links() {
    let mut t = UsageTable::new();
    t.hit(1, 2, 1);
    t.hit(2, 3, 1);
    t.hit(3, 4, 1);
    t.purge(2);
    assert_eq!(t.get(1, 2), None);
    assert_eq!(t.get(2, 3), None);
    assert!(t.get(3, 4).is_some());
}
