//! The decisions of the field's life loop: when a slowed tick returns to
//! its old value, when a shared dream phase ends, when partial snapshots
//! and metrics are due, and how the tick moves under the control loop, the
//! hints and the dream phases. The loop itself, which sleeps and drives the
//! field, runs outside.
use vstd::prelude::*;

use crate::types::Hint;

verus! {

/// What the loop remembers of the last dream.
#[derive(Debug, Clone, Copy, PartialEq, Eq, Structural)]
pub struct DreamState {
    pub last_start_ms: u64,
    /// The tick to return to once the slowed tick has run once.
    pub restore_tick: Option<u64>,
    pub slowed_once: bool,
}

/// What the loop remembers of the shared (collective) dream phase.
#[derive(Debug, Clone, Copy, PartialEq, Eq, Structural)]
pub struct SharedDreamState {
    pub active: bool,
    pub phase_until: u64,
    pub last_phase_end: u64,
    /// The tick to return to when the phase ends.
    pub restore_tick: Option<u64>,
}

/// The loop's own state between iterations.
#[derive(Debug, Clone, Copy, PartialEq, Eq, Structural)]
pub struct LoopState {
    pub tick_ms: u64,
    pub elapsed_since_metrics: u64,
    pub elapsed_since_partial: u64,
    pub dream: DreamState,
    pub shared: SharedDreamState,
}

/// Partial snapshots are due every 5 s of ticks, metrics every second.
pub const PARTIAL_EVERY_MS: u64 = 5_000;
pub const METRICS_EVERY_MS: u64 = 1_000;

/// The largest tick the loop's counters can carry.
pub const MAX_TICK_MS: u64 = 18_446_744_073_709_546_615;

pub open spec fn tick_ok(t: u64) -> bool {
    t <= MAX_TICK_MS
}

pub open spec fn restore_ok(o: Option<u64>) -> bool {
    match o {
        Some(t) => tick_ok(t),
        None => true,
    }
}

impl LoopState {
    /// The counters stay below their periods between iterations, and every
    /// tick the state holds fits the counters.
    pub open spec fn wf(&self) -> bool {
        &&& self.elapsed_since_metrics < METRICS_EVERY_MS
        &&& self.elapsed_since_partial < PARTIAL_EVERY_MS
        &&& tick_ok(self.tick_ms)
        &&& restore_ok(self.dream.restore_tick)
        &&& restore_ok(self.shared.restore_tick)
    }
}

pub open spec fn spec_new(tick_ms: u64) -> LoopState {
    LoopState {
        tick_ms,
        elapsed_since_metrics: 0,
        elapsed_since_partial: 0,
        dream: DreamState { last_start_ms: 0, restore_tick: None, slowed_once: false },
        shared: SharedDreamState { active: false, phase_until: 0, last_phase_end: 0, restore_tick: None },
    }
}

/// Before sleeping: a tick slowed for a dream returns to its old value once
/// it has run once. Gives the state and the time to sleep.
pub open spec fn spec_begin(s: LoopState) -> (LoopState, u64) {
    let s1 = match s.dream.restore_tick {
        Some(original) => if s.dream.slowed_once {
            LoopState { tick_ms: original, dream: DreamState { restore_tick: None, slowed_once: false, ..s.dream }, ..s }
        } else {
            s
        },
        None => s,
    };
    let s2 = if s1.dream.restore_tick is Some && !s1.dream.slowed_once {
        LoopState { dream: DreamState { slowed_once: true, ..s1.dream }, ..s1 }
    } else {
        s1
    };
    (s2, s1.tick_ms)
}

/// After the field ticked, at `now_ms`: a shared phase that ran out ends and
/// gives back its tick; the tick counts towards the periodic work. Gives
/// the state and whether a partial snapshot and metrics are due (each
/// counter restarts when its work is due).
pub open spec fn spec_after_tick(s: LoopState, now_ms: u64) -> (LoopState, bool, bool) {
    let s1 = if s.shared.active && now_ms >= s.shared.phase_until {
        let ended = SharedDreamState { active: false, last_phase_end: now_ms, restore_tick: None, ..s.shared };
        match s.shared.restore_tick {
            Some(original) => LoopState { tick_ms: original, shared: ended, ..s },
            None => LoopState { shared: ended, ..s },
        }
    } else {
        s
    };
    let m = s1.elapsed_since_metrics + s1.tick_ms;
    let p = s1.elapsed_since_partial + s1.tick_ms;
    let partial_due = p >= PARTIAL_EVERY_MS;
    let metrics_due = m >= METRICS_EVERY_MS;
    (
        LoopState {
            elapsed_since_metrics: if metrics_due { 0 } else { m as u64 },
            elapsed_since_partial: if partial_due { 0 } else { p as u64 },
            ..s1
        },
        partial_due,
        metrics_due,
    )
}

/// The tick after the control loop asks for `adjust_ms` more: clamped to
/// 80..=450.
pub open spec fn spec_trs_tick(tick_ms: u64, adjust_ms: i32) -> u64 {
    let t = (tick_ms as i64) + adjust_ms;
    if t < 80 {
        80
    } else if t > 450 {
        450
    } else {
        t as u64
    }
}

/// The tick after one hint: slowing adds 50 up to 400, speeding takes 10
/// off down to 100 (a tick at or below 100 stays), other hints keep it.
pub open spec fn spec_hint_tick(tick_ms: u64, hint: Hint) -> u64 {
    match hint {
        Hint::SlowTick => if tick_ms + 50 > 400 {
            400
        } else {
            (tick_ms + 50) as u64
        },
        Hint::FastTick => if tick_ms > 100 {
            if tick_ms - 10 < 100 {
                100
            } else {
                (tick_ms - 10) as u64
            }
        } else {
            tick_ms
        },
        _ => tick_ms,
    }
}

/// The tick a dream phase runs at: the scaled tick when it is slower,
/// else five more, within 80..=800.
pub open spec fn spec_slowed_tick(tick_ms: u64, scaled: u64) -> u64 {
    let s = if scaled <= tick_ms {
        if tick_ms + 5 > u64::MAX { u64::MAX } else { (tick_ms + 5) as u64 }
    } else {
        scaled
    };
    if s < 80 {
        80
    } else if s > 800 {
        800
    } else {
        s
    }
}

pub open spec fn spec_start_dream(s: LoopState, now_ms: u64, slowed: u64) -> LoopState {
    LoopState {
        tick_ms: slowed,
        dream: DreamState {
            last_start_ms: now_ms,
            restore_tick: Some(
                match s.dream.restore_tick {
                    Some(t) => t,
                    None => s.tick_ms,
                },
            ),
            slowed_once: false,
        },
        ..s
    }
}

pub open spec fn spec_start_shared_phase(s: LoopState, now_ms: u64, phase_len_ms: u32, slowed: u64) -> LoopState {
    let baseline = match s.dream.restore_tick {
        Some(t) => t,
        None => match s.shared.restore_tick {
            Some(t) => t,
            None => s.tick_ms,
        },
    };
    LoopState {
        tick_ms: slowed,
        shared: SharedDreamState {
            active: true,
            phase_until: if now_ms + phase_len_ms > u64::MAX { u64::MAX } else { (now_ms + phase_len_ms) as u64 },
            restore_tick: Some(baseline),
            ..s.shared
        },
        ..s
    }
}

impl LoopState {
    pub fn new(tick_ms: u64) -> (s: LoopState)
        requires
            tick_ok(tick_ms),
        ensures
            s == spec_new(tick_ms),
            s.wf(),
    {
        LoopState {
            tick_ms,
            elapsed_since_metrics: 0,
            elapsed_since_partial: 0,
            dream: DreamState { last_start_ms: 0, restore_tick: None, slowed_once: false },
            shared: SharedDreamState { active: false, phase_until: 0, last_phase_end: 0, restore_tick: None },
        }
    }

    /// Before sleeping: gives how long to sleep.
    pub fn begin_iteration(&mut self) -> (sleep_ms: u64)
        requires
            old(self).wf(),
        ensures
            final(self).wf(),
            (*final(self), sleep_ms) == spec_begin(*old(self)),
    {
        if let Some(original) = self.dream.restore_tick {
            if self.dream.slowed_once {
                self.tick_ms = original;
                self.dream.restore_tick = None;
                self.dream.slowed_once = false;
            }
        }
        let sleep_ms = self.tick_ms;
        if self.dream.restore_tick.is_some() && !self.dream.slowed_once {
            self.dream.slowed_once = true;
        }
        sleep_ms
    }

    /// After the field ticked at `now_ms`: gives whether a partial
    /// snapshot and metrics are due.
    pub fn after_tick(&mut self, now_ms: u64) -> (due: (bool, bool))
        requires
            old(self).wf(),
        ensures
            final(self).wf(),
            (*final(self), due.0, due.1) == spec_after_tick(*old(self), now_ms),
    {
        if self.shared.active && now_ms >= self.shared.phase_until {
            self.shared.active = false;
            self.shared.last_phase_end = now_ms;
            if let Some(original) = self.shared.restore_tick {
                self.tick_ms = original;
            }
            self.shared.restore_tick = None;
        }
        let m = self.elapsed_since_metrics + self.tick_ms;
        let p = self.elapsed_since_partial + self.tick_ms;
        let partial_due = p >= PARTIAL_EVERY_MS;
        let metrics_due = m >= METRICS_EVERY_MS;
        self.elapsed_since_metrics = if metrics_due { 0 } else { m };
        self.elapsed_since_partial = if partial_due { 0 } else { p };
        (partial_due, metrics_due)
    }

    /// Applies the control loop's tick adjustment.
    pub fn apply_trs(&mut self, adjust_ms: i32)
        requires
            old(self).wf(),
            i64::MIN <= (old(self).tick_ms as i64) + adjust_ms <= i64::MAX,
        ensures
            final(self).wf(),
            *final(self) == (LoopState { tick_ms: spec_trs_tick(old(self).tick_ms, adjust_ms), ..*old(self) }),
            old(self).tick_ms <= i64::MAX ==> final(self).tick_ms == clamp_tick(old(self).tick_ms + adjust_ms),
    {
        proof {
            if self.tick_ms <= i64::MAX {
                lemma_trs_tick_clamped(self.tick_ms, adjust_ms);
            }
        }
        let t: i64 = (self.tick_ms as i64) + (adjust_ms as i64);
        self.tick_ms = if t < 80 {
            80
        } else if t > 450 {
            450
        } else {
            t as u64
        };
    }

    /// Moves the tick by the hints, in order.
    pub fn apply_hint_ticks(&mut self, hints: &[Hint])
        requires
            old(self).wf(),
        ensures
            final(self).wf(),
            *final(self) == (LoopState { tick_ms: hints@.fold_left(old(self).tick_ms, |t: u64, h: Hint| spec_hint_tick(t, h)), ..*old(self) }),
    {
        let ghost start = *self;
        let mut i: usize = 0;
        while i < hints.len()
            invariant
                start.wf(),
                i <= hints@.len(),
                *self == (LoopState { tick_ms: hints@.take(i as int).fold_left(start.tick_ms, |t: u64, h: Hint| spec_hint_tick(t, h)), ..start }),
                tick_ok(self.tick_ms),
            decreases hints.len() - i,
        {
            proof {
                assert(hints@.take(i + 1).drop_last() =~= hints@.take(i as int));
            }
            let t = self.tick_ms;
            self.tick_ms = match hints[i] {
                Hint::SlowTick => if t + 50 > 400 {
                    400
                } else {
                    t + 50
                },
                Hint::FastTick => if t > 100 {
                    if t - 10 < 100 {
                        100
                    } else {
                        t - 10
                    }
                } else {
                    t
                },
                _ => t,
            };
            i += 1;
        }
        assert(hints@.take(hints@.len() as int) =~= hints@);
    }

    /// Whether the last dream started more than `min_idle_s` seconds before
    /// `now_ms`.
    pub fn idle_long_enough(&self, now_ms: u64, min_idle_s: u32) -> (r: bool)
        ensures
            r == ((if now_ms >= self.dream.last_start_ms { now_ms - self.dream.last_start_ms } else { 0 }) > min_idle_s * 1000),
    {
        now_ms.saturating_sub(self.dream.last_start_ms) > (min_idle_s as u64) * 1000
    }

    /// Starts a dream at `now_ms`: the tick slows to `slowed` for one
    /// iteration and then returns to the tick from before the dream.
    pub fn start_dream(&mut self, now_ms: u64, slowed: u64)
        requires
            old(self).wf(),
            tick_ok(slowed),
        ensures
            final(self).wf(),
            *final(self) == spec_start_dream(*old(self), now_ms, slowed),
    {
        let original = match self.dream.restore_tick {
            Some(t) => t,
            None => self.tick_ms,
        };
        self.dream = DreamState { last_start_ms: now_ms, restore_tick: Some(original), slowed_once: false };
        self.tick_ms = slowed;
    }

    /// Whether a shared dream phase may start: none is running, a dream ran
    /// in the last 30 s, and the last phase ended at least `phase_gap_ms`
    /// ago.
    pub fn shared_phase_allowed(&self, now_ms: u64, last_dream_at: u64, phase_gap_ms: u32) -> (r: bool)
        ensures
            r == (!self.shared.active && last_dream_at > 0 && ((if now_ms >= last_dream_at { now_ms - last_dream_at } else { 0 }) <= 30_000)
                && ((if now_ms >= self.shared.last_phase_end { now_ms - self.shared.last_phase_end } else { 0 }) >= phase_gap_ms)),
    {
        !self.shared.active && last_dream_at > 0 && now_ms.saturating_sub(last_dream_at) <= 30_000
            && now_ms.saturating_sub(self.shared.last_phase_end) >= phase_gap_ms as u64
    }

    /// Starts a shared phase at `now_ms` for `phase_len_ms`: the tick slows to
    /// `slowed` until the phase ends and then returns to the tick from
    /// before any dream.
    pub fn start_shared_phase(&mut self, now_ms: u64, phase_len_ms: u32, slowed: u64)
        requires
            old(self).wf(),
            tick_ok(slowed),
        ensures
            final(self).wf(),
            *final(self) == spec_start_shared_phase(*old(self), now_ms, phase_len_ms, slowed),
    {
        let baseline = match self.dream.restore_tick {
            Some(t) => t,
            None => match self.shared.restore_tick {
                Some(t) => t,
                None => self.tick_ms,
            },
        };
        self.shared.active = true;
        self.shared.phase_until = now_ms.saturating_add(phase_len_ms as u64);
        self.shared.restore_tick = Some(baseline);
        self.tick_ms = slowed;
    }
}

/// The tick a dream phase runs at, from the tick scaled up by the phase's
/// factor.
pub fn slowed_tick(tick_ms: u64, scaled: u64) -> (r: u64)
    ensures
        r == spec_slowed_tick(tick_ms, scaled),
        80 <= r <= 800,
{
    let s = if scaled <= tick_ms { tick_ms.saturating_add(5) } else { scaled };
    if s < 80 {
        80
    } else if s > 800 {
        800
    } else {
        s
    }
}

/// A dream slows exactly one sleep: the iteration after the dream sleeps
/// the slowed tick, the one after it the tick from before the dream.
pub proof fn lemma_dream_slows_one_sleep(s: LoopState, now_ms: u64, slowed: u64, later_ms: u64)
    requires
        s.wf(),
        !s.shared.active,
        s.dream.restore_tick is None,
    ensures
        ({
            let d = spec_start_dream(s, now_ms, slowed);
            let (b1, sleep1) = spec_begin(d);
            let (a1, _, _) = spec_after_tick(b1, later_ms);
            let (_, sleep2) = spec_begin(a1);
            sleep1 == slowed && sleep2 == s.tick_ms
        }),
{
}

/// A shared phase gives its tick back once it has run out.
pub proof fn lemma_shared_phase_restores_tick(s: LoopState, now_ms: u64, len: u32, slowed: u64, later_ms: u64)
    requires
        s.wf(),
        s.dream.restore_tick is None,
        s.shared.restore_tick is None,
        later_ms >= now_ms + len,
    ensures
        ({
            let p = spec_start_shared_phase(s, now_ms, len, slowed);
            let (a, _, _) = spec_after_tick(p, later_ms);
            a.tick_ms == s.tick_ms && !a.shared.active && a.shared.last_phase_end == later_ms
        }),
{
}


/// `t` kept within 80..=450.
pub open spec fn clamp_tick(t: int) -> int {
    if t < 80 {
        80
    } else if t > 450 {
        450
    } else {
        t
    }
}

/// The control loop moves the tick by exactly what it asks, kept within
/// 80..=450: inside that range the new tick is the old one plus the
/// adjustment, and below or above it the nearer bound.
pub proof fn lemma_trs_tick_clamped(tick_ms: u64, adjust_ms: i32)
    requires
        tick_ms <= i64::MAX,
    ensures
        ({
            let want = tick_ms + adjust_ms;
            let r = spec_trs_tick(tick_ms, adjust_ms);
            &&& 80 <= r <= 450
            &&& (80 <= want <= 450 ==> r == want)
            &&& (want < 80 ==> r == 80)
            &&& (want > 450 ==> r == 450)
            &&& r == clamp_tick(want)
        }),
{
    assert((tick_ms as i64) as int == tick_ms as int);
}

/// A hint moves the tick as it says: slowing adds 50 without passing 400,
/// speeding takes 10 off a tick above 100 without going under 100, and
/// every other hint leaves the tick alone.
pub proof fn lemma_hint_tick_moves(tick_ms: u64, hint: Hint)
    ensures
        ({
            let r = spec_hint_tick(tick_ms, hint);
            &&& hint is SlowTick ==> r == (if tick_ms + 50 <= 400 { tick_ms + 50 } else { 400 })
            &&& hint is FastTick && tick_ms <= 100 ==> r == tick_ms
            &&& hint is FastTick && tick_ms > 100 ==> r == (if tick_ms - 10 >= 100 { tick_ms - 10 } else { 100 })
            &&& !(hint is SlowTick || hint is FastTick) ==> r == tick_ms
        }),
{
}

/// A dream phase runs slower: at the scaled tick when that is slower, else
/// five more than now, always within 80..=800, and slower than now unless
/// held at 800.
pub proof fn lemma_slowed_tick_bounds(tick_ms: u64, scaled: u64)
    ensures
        ({
            let r = spec_slowed_tick(tick_ms, scaled);
            &&& 80 <= r <= 800
            &&& scaled > tick_ms && 80 <= scaled <= 800 ==> r == scaled
            &&& scaled <= tick_ms && 80 <= tick_ms + 5 <= 800 ==> r == tick_ms + 5
            &&& r > tick_ms || r == 800
        }),
{
}


/// After a tick: a shared phase whose time has come ends, gives back the
/// tick it slowed and records when it ended; the tick then counts towards
/// the periodic work, and a partial snapshot is due once 5 s of ticks have
/// gathered, metrics once 1 s has, each count restarting when its work is
/// due. The dream state is untouched.
pub proof fn lemma_after_tick_counts(s: LoopState, now_ms: u64)
    ensures
        ({
            let (s2, partial_due, metrics_due) = spec_after_tick(s, now_ms);
            let ended = s.shared.active && now_ms >= s.shared.phase_until;
            let tick = if ended && s.shared.restore_tick is Some {
                s.shared.restore_tick->0
            } else {
                s.tick_ms
            };
            &&& s2.tick_ms == tick
            &&& partial_due <==> s.elapsed_since_partial + tick >= 5000
            &&& metrics_due <==> s.elapsed_since_metrics + tick >= 1000
            &&& s2.elapsed_since_partial == (if partial_due { 0 } else { s.elapsed_since_partial + tick })
            &&& s2.elapsed_since_metrics == (if metrics_due { 0 } else { s.elapsed_since_metrics + tick })
            &&& ended ==> (!s2.shared.active && s2.shared.last_phase_end == now_ms && s2.shared.restore_tick is None
                && s2.shared.phase_until == s.shared.phase_until)
            &&& !ended ==> s2.shared == s.shared
            &&& s2.dream == s.dream
        }),
{
}

/// Before sleeping: a tick slowed for a dream that has already run once
/// returns to the tick it replaced, and the loop sleeps that long; a tick
/// slowed but not yet run is slept once at its slowed value; with no dream
/// pending nothing changes.
pub proof fn lemma_begin_sleeps(s: LoopState)
    ensures
        ({
            let (s2, sleep_ms) = spec_begin(s);
            &&& (s.dream.restore_tick is Some && s.dream.slowed_once) ==> (sleep_ms == s.dream.restore_tick->0
                && s2.tick_ms == sleep_ms && s2.dream.restore_tick is None && !s2.dream.slowed_once)
            &&& (s.dream.restore_tick is Some && !s.dream.slowed_once) ==> (sleep_ms == s.tick_ms && s2.tick_ms
                == s.tick_ms && s2.dream.restore_tick == s.dream.restore_tick && s2.dream.slowed_once)
            &&& s.dream.restore_tick is None ==> (sleep_ms == s.tick_ms && s2 == s)
            &&& s2.shared == s.shared && s2.elapsed_since_metrics == s.elapsed_since_metrics
                && s2.elapsed_since_partial == s.elapsed_since_partial
        }),
{
}

/// Starting a dream runs at the slowed tick, remembers when it started and
/// the tick to return to: the one already remembered, else the tick now.
pub proof fn lemma_start_dream_remembers(s: LoopState, now_ms: u64, slowed: u64)
    ensures
        ({
            let s2 = spec_start_dream(s, now_ms, slowed);
            &&& s2.tick_ms == slowed
            &&& s2.dream.last_start_ms == now_ms
            &&& s2.dream.restore_tick == Some(if s.dream.restore_tick is Some { s.dream.restore_tick->0 } else { s.tick_ms })
            &&& !s2.dream.slowed_once
            &&& s2.shared == s.shared
        }),
{
}

/// Starting a shared phase runs at the slowed tick until `phase_len_ms`
/// from now, and remembers the tick to return to: a dream's remembered
/// tick, else the phase's own, else the tick now.
pub proof fn lemma_start_shared_phase_remembers(s: LoopState, now_ms: u64, phase_len_ms: u32, slowed: u64)
    ensures
        ({
            let s2 = spec_start_shared_phase(s, now_ms, phase_len_ms, slowed);
            &&& s2.tick_ms == slowed
            &&& s2.shared.active
            &&& s2.shared.phase_until == (if now_ms + phase_len_ms <= u64::MAX { now_ms + phase_len_ms } else { u64::MAX as int })
            &&& s2.shared.restore_tick == Some(
                if s.dream.restore_tick is Some {
                    s.dream.restore_tick->0
                } else if s.shared.restore_tick is Some {
                    s.shared.restore_tick->0
                } else {
                    s.tick_ms
                },
            )
            &&& s2.dream == s.dream
            &&& s2.shared.last_phase_end == s.shared.last_phase_end
        }),
{
}

} // verus!
