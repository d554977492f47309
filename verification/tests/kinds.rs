use liminal_db::journal::{LinkDelta, ReflexFire, StateDelta, TickDelta};
use liminal_db::lql::LqlUnsubscribeResult;
use liminal_db::mirror::{EpochKind, SymmetryStatus};
use liminal_db::sal::SalOpts;
use liminal_db::seeds::{grow_stage, lifetime_ms, plant_id, ttl_remaining, CommitOutcome, SeedKind, SeedStage};

#[test]
fn seed_kinds_round_trip_through_their_names() {
    for k in [
        SeedKind::BoostToken,
        SeedKind::CooldownToken,
        SeedKind::SpawnCluster,
        SeedKind::ViewWatch,
        SeedKind::PolicyBundle,
        SeedKind::Script,
    ] {
        assert_eq!(k.as_str().parse::<SeedKind>(), Ok(k));
    }
    assert_eq!(SeedKind::PolicyBundle.as_str(), "PolicyBundle");
    assert_eq!("Bogus".parse::<SeedKind>(), Err("unknown seed kind: Bogus".to_string()));
    assert_eq!(SeedKind::parse("boosttoken"), Err("unknown seed kind: boosttoken".to_string()));
}

#[test]
fn labels() {
    assert_eq!(SeedStage::Planted.as_str(), "Planted");
    assert_eq!(SeedStage::Aborted.as_str(), "Aborted");
    assert_eq!(EpochKind::Dream.as_str(), "dream");
    assert_eq!(EpochKind::Collective.as_str(), "collective");
    assert_eq!(EpochKind::Awaken.as_str(), "awaken");
    assert_eq!(SymmetryStatus::default().as_str(), "ok");
    assert_eq!(SymmetryStatus::Drift.as_str(), "drift");
    assert_eq!(SymmetryStatus::Overload.as_str(), "overload");
}

#[test]
fn plain_records() {
    let o = SalOpts::default();
    assert!(!o.read_only && !o.create_if_missing);
    let r = LqlUnsubscribeResult { id: 4, removed: true };
    assert_eq!(r, LqlUnsubscribeResult { id: 4, removed: true });
    let c = CommitOutcome { variant_id: "v1".to_string(), planted_seeds: vec![3, 4] };
    assert_eq!(c.planted_seeds.len(), 2);
    let t = TickDelta { now_ms: 5 };
    let s = StateDelta { id: 2 };
    let l = LinkDelta { from: 1, to: 2 };
    let f = ReflexFire { id: 9, at_ms: 100, matched: 3 };
    assert_eq!((t.now_ms, s.id, l.from, l.to, f.matched), (5, 2, 1, 2, 3));
}

#[test]
fn seeds_grow_with_time() {
    assert_eq!(grow_stage(SeedStage::Planted, 999), SeedStage::Planted);
    assert_eq!(grow_stage(SeedStage::Planted, 1_000), SeedStage::Sprouting);
    assert_eq!(grow_stage(SeedStage::Planted, 10_000), SeedStage::Blooming);
    assert_eq!(grow_stage(SeedStage::Sprouting, 9_999), SeedStage::Sprouting);
    assert_eq!(grow_stage(SeedStage::Harvested, 50_000), SeedStage::Harvested);
    assert_eq!(lifetime_ms(100, 50), 0);
    assert_eq!(lifetime_ms(100, 350), 250);
    assert_eq!(ttl_remaining(100, 1_000, 350), 750);
    assert_eq!(ttl_remaining(100, 1_000, 5_000), 0);
}

#[test]
fn planted_seeds_get_fresh_ids() {
    assert_eq!(plant_id(1, 0), (1, 2));
    assert_eq!(plant_id(5, 3), (3, 5));
    assert_eq!(plant_id(5, 9), (9, 10));
    assert_eq!(plant_id(7, u64::MAX), (u64::MAX, u64::MAX));
}
