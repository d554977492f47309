use liminal_db::life::{slowed_tick, LoopState};
use liminal_db::types::Hint;

#[test]
fn periodic_work_comes_due() {
    let mut s = LoopState::new(300);
    let mut partials = 0;
    let mut metrics = 0;
    for i in 0..20u64 {
        assert_eq!(s.begin_iteration(), 300);
        let (p, m) = s.after_tick(i * 300);
        partials += p as u32;
        metrics += m as u32;
    }
    // 6000 ms of ticks: one partial snapshot (at 5100 ms), metrics every 4 ticks (1200 ms)
    assert_eq!(partials, 1);
    assert_eq!(metrics, 5);
}

#[test]
fn a_dream_slows_one_sleep() {
    let mut s = LoopState::new(200);
    assert!(s.idle_long_enough(31_000, 30));
    let slow = slowed_tick(200, (200.0f32 * 1.15).round() as u64);
    assert_eq!(slow, 230);
    s.start_dream(31_000, slow);
    assert!(!s.idle_long_enough(60_000, 30));
    assert_eq!(s.begin_iteration(), 230);
    s.after_tick(31_230);
    assert_eq!(s.begin_iteration(), 200);
    assert_eq!(s.begin_iteration(), 200);
}

#[test]
fn shared_phases_restore_their_tick() {
    let mut s = LoopState::new(200);
    assert!(s.shared_phase_allowed(10_000, 9_000, 1_000));
    assert!(!s.shared_phase_allowed(50_000, 9_000, 1_000));
    assert!(!s.shared_phase_allowed(10_000, 0, 1_000));
    s.start_shared_phase(10_000, 4_000, slowed_tick(200, 220));
    assert_eq!(s.tick_ms, 220);
    assert!(!s.shared_phase_allowed(11_000, 10_500, 1_000));
    s.after_tick(13_999);
    assert_eq!(s.tick_ms, 220);
    s.after_tick(14_000);
    assert_eq!(s.tick_ms, 200);
    assert!(!s.shared.active);
    assert!(!s.shared_phase_allowed(14_500, 14_000, 1_000));
    assert!(s.shared_phase_allowed(15_000, 14_000, 1_000));
}

#[test]
fn tick_adjustments() {
    let mut s = LoopState::new(200);
    s.apply_trs(-500);
    assert_eq!(s.tick_ms, 80);
    s.apply_trs(1_000);
    assert_eq!(s.tick_ms, 450);
    s.apply_hint_ticks(&[Hint::FastTick, Hint::FastTick, Hint::TrimField]);
    assert_eq!(s.tick_ms, 430);
    s.apply_hint_ticks(&[Hint::SlowTick]);
    assert_eq!(s.tick_ms, 400);
    assert_eq!(slowed_tick(790, 909), 800);
    assert_eq!(slowed_tick(50, 50), 80);
    assert_eq!(slowed_tick(u64::MAX - 1, 3), 800);
}
