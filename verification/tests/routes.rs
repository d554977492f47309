use liminal_db::replay::{CellCore, FieldCore, FieldDelta, Vitals};
use liminal_db::routes::{record_route_sequence, ROUTE_CAP};
use liminal_db::types::NodeState;
use liminal_db::usage::{UsageStat, UsageTable};

fn cell(id: u64, links: &[u64]) -> CellCore {
    let v = Vitals {
        seed_affinity: 0,
        seed_metabolism: 0,
        metabolism: 0,
        affinity: 0,
        energy: 0,
        salience: 0,
        adreno_tag: false,
        last_recall_ms: 0,
    };
    CellCore { id, state: NodeState::Active, links: links.to_vec(), last_response_ms: 0, core_pattern: "p".to_string(), vitals: v }
}

fn field() -> FieldCore<u8> {
    let mut f: FieldCore<u8> = FieldCore::new();
    f.apply_delta::<()>(FieldDelta::Spawn(cell(1, &[2])));
    f.apply_delta::<()>(FieldDelta::Spawn(cell(2, &[])));
    f.apply_delta::<()>(FieldDelta::Tick { now_ms: 750 });
    f
}

#[test]
fn steps_count_links_followed_and_routes_taken() {
    let f = field();
    let mut links = UsageTable::new();
    let mut routes = UsageTable::new();
    record_route_sequence(&f, &mut links, &mut routes, &[1, 2, 1]);
    assert_eq!(links.get(1, 2), Some(UsageStat { hits: 1, last_used_ms: 750 }));
    assert_eq!(links.get(2, 1), None);
    assert_eq!(routes.get(1, 2), Some(UsageStat { hits: 1, last_used_ms: 750 }));
    assert_eq!(routes.get(2, 1), Some(UsageStat { hits: 1, last_used_ms: 750 }));
    record_route_sequence(&f, &mut links, &mut routes, &[1, 2]);
    assert_eq!(links.get(1, 2), Some(UsageStat { hits: 2, last_used_ms: 750 }));
    assert_eq!(routes.get(1, 2), Some(UsageStat { hits: 2, last_used_ms: 750 }));
}

#[test]
fn a_single_node_records_nothing() {
    let f = field();
    let mut links = UsageTable::new();
    let mut routes = UsageTable::new();
    record_route_sequence(&f, &mut links, &mut routes, &[1]);
    record_route_sequence(&f, &mut links, &mut routes, &[]);
    assert_eq!(routes.get(1, 2), None);
    assert_eq!(links.get(1, 2), None);
}

#[test]
fn routes_beyond_the_cap_forget_the_least_used() {
    let f = field();
    let mut links = UsageTable::new();
    let mut routes = UsageTable::new();
    record_route_sequence(&f, &mut links, &mut routes, &[1, 2]);
    record_route_sequence(&f, &mut links, &mut routes, &[1, 2]);
    for i in 0..ROUTE_CAP as u64 {
        record_route_sequence(&f, &mut links, &mut routes, &[100 + i, 200 + i]);
    }
    assert_eq!(routes.get(1, 2), Some(UsageStat { hits: 2, last_used_ms: 750 }));
    assert_eq!(routes.get(100, 200), None);
    assert_eq!(routes.get(101, 201), Some(UsageStat { hits: 1, last_used_ms: 750 }));
}
