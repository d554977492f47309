use liminal_db::journal::ReflexFire;
use liminal_db::replay::{CellCore, FieldCore, FieldDelta, LinkEvent, RuleCore, Vitals};
use liminal_db::resonant::{DreamReport, SyncEvent, SyncReport};
use liminal_db::types::NodeState;

fn vitals(affinity: f32) -> Vitals {
    Vitals {
        seed_affinity: affinity.to_bits(),
        seed_metabolism: 0.6f32.to_bits(),
        metabolism: 0.6f32.to_bits(),
        affinity: affinity.to_bits(),
        energy: 1.0f32.to_bits(),
        salience: 0.0f32.to_bits(),
        adreno_tag: false,
        last_recall_ms: 0,
    }
}

fn cell(id: u64, pattern: &str, links: &[u64]) -> CellCore {
    CellCore {
        id,
        state: NodeState::Active,
        links: links.to_vec(),
        last_response_ms: 0,
        core_pattern: pattern.to_string(),
        vitals: vitals(0.5),
    }
}

type Delta = FieldDelta<u8, &'static str>;

fn spawn(f: &mut FieldCore<u8>, c: CellCore) -> Vec<LinkEvent> {
    f.apply_delta::<&'static str>(FieldDelta::Spawn(c)).links
}

fn sorted(mut v: Vec<u64>) -> Vec<u64> {
    v.sort();
    v.dedup();
    v
}

#[test]
fn spawn_adds_cell_and_registers_its_links() {
    let mut f: FieldCore<u8> = FieldCore::new();
    let ev = spawn(&mut f, cell(7, "cpu/Load.avg", &[3, 4]));
    assert_eq!(ev, vec![LinkEvent::Register { from: 7, to: 3 }, LinkEvent::Register { from: 7, to: 4 }]);
    let c = f.cell(7).unwrap();
    assert_eq!(c.links, vec![3, 4]);
    assert_eq!(c.core_pattern, "cpu/Load.avg");
    assert_eq!(f.next_id(), 8);
    assert_eq!(f.lookup_token("load"), vec![7]);
    assert_eq!(f.lookup_token("avg"), vec![7]);
    assert!(f.lookup_token("Load").is_empty());
    assert!(f.cell(8).is_none());
}

#[test]
fn spawn_of_a_lower_id_keeps_next_id() {
    let mut f: FieldCore<u8> = FieldCore::new();
    spawn(&mut f, cell(10, "a", &[]));
    spawn(&mut f, cell(2, "b", &[]));
    assert_eq!(f.next_id(), 11);
}

#[test]
fn respawn_replaces_cell_and_its_index_entries() {
    let mut f: FieldCore<u8> = FieldCore::new();
    spawn(&mut f, cell(1, "alpha/beta", &[]));
    spawn(&mut f, cell(2, "beta", &[]));
    spawn(&mut f, cell(1, "gamma", &[]));
    assert_eq!(sorted(f.lookup_token("beta")), vec![2]);
    assert_eq!(f.lookup_token("gamma"), vec![1]);
    assert!(f.lookup_token("alpha").is_empty());
}

#[test]
fn divide_links_parent_to_child_once() {
    let mut f: FieldCore<u8> = FieldCore::new();
    spawn(&mut f, cell(1, "root", &[]));
    let ev = f
        .apply_delta::<&'static str>(FieldDelta::Divide { parent: 1, child: cell(2, "root/leaf", &[5]) })
        .links;
    assert_eq!(ev, vec![LinkEvent::Register { from: 1, to: 2 }, LinkEvent::Register { from: 2, to: 5 }]);
    assert_eq!(f.cell(1).unwrap().links, vec![2]);
    assert_eq!(f.next_id(), 3);
    let again = f
        .apply_delta::<&'static str>(FieldDelta::Divide { parent: 1, child: cell(2, "root/leaf", &[]) })
        .links;
    assert!(again.is_empty());
    assert_eq!(f.cell(1).unwrap().links, vec![2]);
}

#[test]
fn divide_from_a_missing_parent_only_adds_the_child() {
    let mut f: FieldCore<u8> = FieldCore::new();
    let ev = f
        .apply_delta::<&'static str>(FieldDelta::Divide { parent: 9, child: cell(4, "x", &[]) })
        .links;
    assert!(ev.is_empty());
    assert!(f.cell(9).is_none());
    assert!(f.cell(4).is_some());
}

#[test]
fn link_and_unlink_report_changes_only() {
    let mut f: FieldCore<u8> = FieldCore::new();
    spawn(&mut f, cell(1, "a", &[]));
    let d: Delta = FieldDelta::Link { from: 1, to: 2 };
    assert_eq!(f.apply_delta(d).links, vec![LinkEvent::Register { from: 1, to: 2 }]);
    let d: Delta = FieldDelta::Link { from: 1, to: 2 };
    assert!(f.apply_delta(d).links.is_empty());
    let d: Delta = FieldDelta::Link { from: 8, to: 2 };
    assert!(f.apply_delta(d).links.is_empty());
    let d: Delta = FieldDelta::Unlink { from: 1, to: 2 };
    assert_eq!(f.apply_delta(d).links, vec![LinkEvent::Unregister { from: 1, to: 2 }]);
    let d: Delta = FieldDelta::Unlink { from: 1, to: 2 };
    assert!(f.apply_delta(d).links.is_empty());
    assert!(f.cell(1).unwrap().links.is_empty());
}

#[test]
fn dream_prune_always_unregisters_and_rewire_links() {
    let mut f: FieldCore<u8> = FieldCore::new();
    spawn(&mut f, cell(1, "a", &[2]));
    let d: Delta = FieldDelta::DreamPrune { from: 1, to: 2 };
    assert_eq!(f.apply_delta(d).links, vec![LinkEvent::Unregister { from: 1, to: 2 }]);
    assert!(f.cell(1).unwrap().links.is_empty());
    let d: Delta = FieldDelta::DreamPrune { from: 1, to: 2 };
    assert_eq!(f.apply_delta(d).links, vec![LinkEvent::Unregister { from: 1, to: 2 }]);
    let d: Delta = FieldDelta::DreamRewire { from: 1, to: 3 };
    assert_eq!(f.apply_delta(d).links, vec![LinkEvent::Register { from: 1, to: 3 }]);
    assert_eq!(f.cell(1).unwrap().links, vec![3]);
}

#[test]
fn dead_removes_cell_then_reregisters_and_purges() {
    let mut f: FieldCore<u8> = FieldCore::new();
    spawn(&mut f, cell(1, "cpu/load", &[2]));
    spawn(&mut f, cell(2, "cpu/temp", &[1, 3]));
    let d: Delta = FieldDelta::Dead { id: 1 };
    let ev = f.apply_delta(d).links;
    assert_eq!(
        ev,
        vec![
            LinkEvent::Register { from: 2, to: 1 },
            LinkEvent::Register { from: 2, to: 3 },
            LinkEvent::Purge { id: 1 },
        ]
    );
    assert!(f.cell(1).is_none());
    assert_eq!(f.lookup_token("cpu"), vec![2]);
    assert!(f.lookup_token("load").is_empty());
    let d: Delta = FieldDelta::Dead { id: 42 };
    assert_eq!(f.apply_delta(d).links.last(), Some(&LinkEvent::Purge { id: 42 }));
}

#[test]
fn sleep_affinity_and_energy_touch_only_their_cell() {
    let mut f: FieldCore<u8> = FieldCore::new();
    spawn(&mut f, cell(1, "a", &[]));
    spawn(&mut f, cell(2, "b", &[]));
    let d: Delta = FieldDelta::Sleep { id: 1 };
    f.apply_delta(d);
    assert_eq!(f.cell(1).unwrap().state, NodeState::Sleep);
    assert_eq!(f.cell(2).unwrap().state, NodeState::Active);
    let d: Delta = FieldDelta::Affinity { id: 2, affinity: 0.9f32.to_bits() };
    f.apply_delta(d);
    let v = f.cell(2).unwrap().vitals;
    assert_eq!(f32::from_bits(v.affinity), 0.9);
    assert_eq!(f32::from_bits(v.seed_affinity), 0.9);
    let d: Delta = FieldDelta::Energy {
        id: 2,
        energy: 0.25f32.to_bits(),
        metabolism: 0.75f32.to_bits(),
        state: NodeState::Idle,
        last_response_ms: 1234,
    };
    f.apply_delta(d);
    let c = f.cell(2).unwrap();
    assert_eq!(c.state, NodeState::Idle);
    assert_eq!(c.last_response_ms, 1234);
    assert_eq!(f32::from_bits(c.vitals.energy), 0.25);
    assert_eq!(f32::from_bits(c.vitals.metabolism), 0.75);
    assert_eq!(f32::from_bits(c.vitals.affinity), 0.9);
    let d: Delta = FieldDelta::Sleep { id: 77 };
    f.apply_delta(d);
    assert!(f.cell(77).is_none());
}

#[test]
fn reflex_rules_are_stored_with_lowercase_tokens() {
    let mut f: FieldCore<u8> = FieldCore::new();
    let d: Delta = FieldDelta::ReflexAdd(RuleCore { id: 4, token: "CPU/Load".to_string(), body: 1 });
    f.apply_delta(d);
    assert_eq!(f.rule_token(4), Some("cpu/load".to_string()));
    assert_eq!(f.next_reflex_id(), 5);
    let d: Delta = FieldDelta::ReflexAdd(RuleCore { id: 2, token: "Mem".to_string(), body: 2 });
    f.apply_delta(d);
    assert_eq!(f.next_reflex_id(), 5);
    let d: Delta = FieldDelta::ReflexRemove { id: 4 };
    f.apply_delta(d);
    assert_eq!(f.rule_token(4), None);
    assert_eq!(f.rule_token(2), Some("mem".to_string()));
    let d: Delta = FieldDelta::ReflexFire(ReflexFire { id: 2, at_ms: 5, matched: 3 });
    let out = f.apply_delta(d);
    assert!(out.links.is_empty() && out.tuning.is_none());
}

#[test]
fn report_rings_keep_the_last_sixteen() {
    let mut f: FieldCore<u8> = FieldCore::new();
    for i in 0..20u64 {
        let report = DreamReport { strengthened: i as u32, ..DreamReport::default() };
        let d: Delta = FieldDelta::DreamReport { now_ms: i * 10, report };
        f.apply_delta(d);
        let d: Delta = FieldDelta::CollectiveDreamReport { now_ms: i, report: SyncReport::default() };
        f.apply_delta(d);
    }
    assert_eq!(f.dream_reports().len(), 16);
    assert_eq!(f.dream_reports()[0].0, 40);
    assert_eq!(f.dream_reports()[15].1.strengthened, 19);
    assert_eq!(f.last_dream_ms(), 190);
    assert_eq!(f.sync_reports().len(), 16);
    assert_eq!(f.sync_reports()[0].0, 4);
}

#[test]
fn model_and_awakening_deltas_fill_the_sync_log() {
    let mut f: FieldCore<u8> = FieldCore::new();
    let d: Delta = FieldDelta::ModelBuild { hash: "h1".to_string(), cell_count: 3, now_ms: 100 };
    f.apply_delta(d);
    let d: Delta = FieldDelta::AwakenTick { now_ms: 150, hash: Some("h1".to_string()) };
    f.apply_delta(d);
    assert_eq!(f.last_applied(), Some("h1".to_string()));
    assert_eq!(f.last_awaken_tick(), 150);
    let d: Delta = FieldDelta::AwakenApply { config: "cfg", hash: Some("h2".to_string()), now_ms: 200, cell_count: 3 };
    let out = f.apply_delta(d);
    assert_eq!(out.tuning, Some("cfg"));
    assert_eq!(f.last_applied(), Some("h2".to_string()));
    let d: Delta = FieldDelta::AwakenTick { now_ms: 250, hash: Some("h3".to_string()) };
    f.apply_delta(d);
    assert_eq!(f.last_applied(), Some("h2".to_string()));
    let d: Delta = FieldDelta::AwakenApply { config: "off", hash: None, now_ms: 300, cell_count: 0 };
    f.apply_delta(d);
    assert_eq!(f.last_applied(), None);
    assert_eq!(
        f.sync_log().entries().clone(),
        vec![
            SyncEvent::Build { at_ms: 100, hash: "h1".to_string(), cell_count: 3 },
            SyncEvent::Tick { at_ms: 150 },
            SyncEvent::Apply { at_ms: 200, hash: Some("h2".to_string()), cell_count: 3 },
            SyncEvent::Tick { at_ms: 250 },
        ]
    );
}

#[test]
fn tick_and_tuning() {
    let mut f: FieldCore<u8> = FieldCore::new();
    let d: Delta = FieldDelta::Tick { now_ms: 5000 };
    f.apply_delta(d);
    assert_eq!(f.now_ms(), 5000);
    let d: Delta = FieldDelta::Tuning("trs");
    let out = f.apply_delta(d);
    assert_eq!(out.tuning, Some("trs"));
    assert!(out.links.is_empty());
}

fn journal() -> Vec<Delta> {
    vec![
        FieldDelta::Spawn(cell(1, "liminal/root", &[])),
        FieldDelta::Divide { parent: 1, child: cell(2, "liminal/leaf", &[]) },
        FieldDelta::Link { from: 2, to: 1 },
        FieldDelta::Tick { now_ms: 400 },
        FieldDelta::ModelBuild { hash: "m".to_string(), cell_count: 2, now_ms: 400 },
        FieldDelta::AwakenTick { now_ms: 420, hash: Some("m".to_string()) },
        FieldDelta::Dead { id: 1 },
    ]
}

fn summary(f: &FieldCore<u8>) -> (Option<Vec<u64>>, Option<Vec<u64>>, u64, u64, Vec<SyncEvent>, Option<String>) {
    (
        f.cell(1).map(|c| c.links),
        f.cell(2).map(|c| c.links),
        f.next_id(),
        f.now_ms(),
        f.sync_log().entries().clone(),
        f.last_applied(),
    )
}

#[test]
fn replay_in_parts_matches_replay_whole() {
    let mut whole: FieldCore<u8> = FieldCore::new();
    let outs = whole.replay(journal());
    assert_eq!(outs.len(), 7);
    let mut parts: FieldCore<u8> = FieldCore::new();
    let mut first = journal();
    let second = first.split_off(4);
    parts.replay(first);
    parts.replay(second);
    assert_eq!(summary(&whole), summary(&parts));
    assert_eq!(summary(&whole), (None, Some(vec![1]), 3, 400, vec![
        SyncEvent::Build { at_ms: 400, hash: "m".to_string(), cell_count: 2 },
        SyncEvent::Tick { at_ms: 420 },
    ], Some("m".to_string())));
}

#[test]
fn spawn_then_dead_leaves_no_cell() {
    let mut f: FieldCore<u8> = FieldCore::new();
    spawn(&mut f, cell(3, "x/y", &[1]));
    let d: Delta = FieldDelta::Dead { id: 3 };
    f.apply_delta(d);
    assert!(f.cell(3).is_none());
    assert!(f.lookup_token("x").is_empty());
}

#[test]
fn link_then_unlink_restores_links() {
    let mut f: FieldCore<u8> = FieldCore::new();
    spawn(&mut f, cell(1, "a", &[5]));
    let d: Delta = FieldDelta::Link { from: 1, to: 6 };
    f.apply_delta(d);
    let d: Delta = FieldDelta::Unlink { from: 1, to: 6 };
    f.apply_delta(d);
    assert_eq!(f.cell(1).unwrap().links, vec![5]);
}

#[test]
fn replaying_what_a_field_recorded_restores_it() {
    let mut live: FieldCore<u8> = FieldCore::new();
    let mut journal: Vec<Delta> = Vec::new();
    let first: Delta = FieldDelta::Spawn(cell(1, "liminal/root", &[2]));
    live.apply_delta(FieldDelta::<u8, &'static str>::Spawn(cell(1, "liminal/root", &[2])));
    journal.push(first);
    let tick: Delta = FieldDelta::Tick { now_ms: 400 };
    live.apply_delta(FieldDelta::<u8, &'static str>::Tick { now_ms: 400 });
    journal.push(tick);
    journal.push(live.record_model_build("abc".to_string(), 1));
    journal.push(live.apply_awakening_model("cfg"));
    journal.push(live.awaken_tick());
    journal.push(live.record_sync_report(410, SyncReport::default()));
    let pruned: Option<Delta> = live.prune_link(1, 2);
    assert!(pruned.is_some());
    journal.push(pruned.unwrap());
    let missing: Option<Delta> = live.prune_link(1, 2);
    assert!(missing.is_none());
    let gone: Option<Delta> = live.remove_reflex(9);
    assert!(gone.is_none());

    let mut restored: FieldCore<u8> = FieldCore::new();
    restored.replay(journal);
    assert_eq!(summary(&restored), summary(&live));
    assert_eq!(restored.last_awaken_tick(), live.last_awaken_tick());
    assert_eq!(restored.sync_reports().len(), 1);
    assert_eq!(
        live.sync_log().entries().clone(),
        vec![
            SyncEvent::Build { at_ms: 400, hash: "abc".to_string(), cell_count: 1 },
            SyncEvent::Apply { at_ms: 400, hash: Some("abc".to_string()), cell_count: 1 },
            SyncEvent::Tick { at_ms: 400 },
        ]
    );
}

#[test]
fn removing_a_rule_records_its_removal() {
    let mut f: FieldCore<u8> = FieldCore::new();
    let d: Delta = FieldDelta::ReflexAdd(RuleCore { id: 3, token: "x".to_string(), body: 0 });
    f.apply_delta(d);
    let removed: Option<Delta> = f.remove_reflex(3);
    assert!(matches!(removed, Some(FieldDelta::ReflexRemove { id: 3 })));
    assert_eq!(f.rule_token(3), None);
}

#[test]
fn replaying_a_live_session_reproduces_its_log_and_model() {
    let mut live: FieldCore<u8> = FieldCore::new();
    let mut journal: Vec<Delta> = Vec::new();
    let (root, spawn_delta) = live.add_root("liminal/root".to_string(), vitals(0.5));
    assert_eq!(root, 1);
    journal.push(spawn_delta);
    journal.push(live.advance_clock(200));
    journal.push(live.record_model_build("m1".to_string(), 1));
    journal.push(live.apply_awakening_model("cfg"));
    let (second, spawn_again) = live.add_root("liminal/followup".to_string(), vitals(0.4));
    assert_eq!(second, 2);
    journal.push(spawn_again);
    journal.push(live.advance_clock(400));
    journal.push(live.awaken_tick());

    let mut restored: FieldCore<u8> = FieldCore::new();
    restored.replay(journal);
    assert_eq!(summary(&restored), summary(&live));
    assert_eq!(restored.last_awaken_tick(), live.last_awaken_tick());
    assert_eq!(restored.now_ms(), 600);
    assert_eq!(restored.lookup_token("followup"), vec![2]);
    assert_eq!(restored.next_id(), live.next_id());
}
