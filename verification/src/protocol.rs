//! The bridge protocol: configuration, introspection requests, event ids,
//! tick adjustment, the outbox of pending events, and the reading of the
//! field's text logs into events.
use vstd::prelude::*;
use std::sync::atomic::AtomicU32;
use std::sync::atomic::Ordering;

use crate::text::{
    chars_eq_ignore_ascii_case, chars_of, eq_ignore_ascii_case, find_char, find_str, occurs_at, first_index_of, first_occurrence, has_prefix, parse_u64,
    parse_uint, split_whitespace, string_of, strip_prefix, trim, trim_chars, trim_end_all,
    trim_end_matches, words,
};
use crate::threshold::{float_literal_ok, is_float_literal};
use crate::types::Hint;

verus! {

/// Settings a host hands the bridge.
#[derive(Debug, Clone, PartialEq, Eq)]
pub struct BridgeConfig {
    pub tick_ms: u32,
    pub store_path: Option<String>,
    pub snap_interval: Option<u32>,
    pub snap_maxwal: Option<u32>,
    pub ws_port: Option<u16>,
    pub ws_format: Option<String>,
}

/// What an introspection asks about.
#[derive(Debug, Clone, Copy, PartialEq, Eq, Structural)]
pub enum IntrospectTarget {
    Awaken,
    Model,
    Influence,
    Tension,
}

/// An introspection request, optionally limited to the top entries.
#[derive(Debug, Clone, Copy, PartialEq, Eq, Structural)]
pub struct IntrospectRequest {
    pub target: IntrospectTarget,
    pub top: Option<u32>,
}

impl IntrospectRequest {
    pub fn new(target: IntrospectTarget) -> (r: IntrospectRequest)
        ensures
            r.target == target,
            r.top is None,
    {
        IntrospectRequest { target, top: None }
    }

    pub fn with_top(self, value: Option<u32>) -> (r: IntrospectRequest)
        ensures
            r.target == self.target,
            r.top == value,
    {
        let mut s = self;
        s.top = value;
        s
    }
}

/// The target an introspection label names, in any ASCII case.
pub open spec fn spec_introspect_target(label: Seq<char>) -> Option<IntrospectTarget> {
    if eq_ignore_ascii_case(label, "awaken"@) {
        Some(IntrospectTarget::Awaken)
    } else if eq_ignore_ascii_case(label, "model"@) {
        Some(IntrospectTarget::Model)
    } else if eq_ignore_ascii_case(label, "influence"@) {
        Some(IntrospectTarget::Influence)
    } else if eq_ignore_ascii_case(label, "tension"@) {
        Some(IntrospectTarget::Tension)
    } else {
        None
    }
}

/// Each label names its own target, in any ASCII case, and no other label
/// names one.
pub proof fn lemma_introspect_target_labels(label: Seq<char>)
    ensures
        (spec_introspect_target(label) == Some(IntrospectTarget::Awaken)) <==> eq_ignore_ascii_case(label, "awaken"@),
        (spec_introspect_target(label) == Some(IntrospectTarget::Model)) <==> eq_ignore_ascii_case(label, "model"@),
        (spec_introspect_target(label) == Some(IntrospectTarget::Influence)) <==> eq_ignore_ascii_case(
            label,
            "influence"@,
        ),
        (spec_introspect_target(label) == Some(IntrospectTarget::Tension)) <==> eq_ignore_ascii_case(
            label,
            "tension"@,
        ),
{
    reveal_strlit("awaken");
    reveal_strlit("model");
    reveal_strlit("influence");
    reveal_strlit("tension");
}

/// Reads an introspection target from a stream command.
pub fn parse_introspect_target(label: &str) -> (r: Option<IntrospectTarget>)
    ensures
        r == spec_introspect_target(label@),
{
    let cs = chars_of(label);
    if chars_eq_ignore_ascii_case(cs.as_slice(), "awaken") {
        Some(IntrospectTarget::Awaken)
    } else if chars_eq_ignore_ascii_case(cs.as_slice(), "model") {
        Some(IntrospectTarget::Model)
    } else if chars_eq_ignore_ascii_case(cs.as_slice(), "influence") {
        Some(IntrospectTarget::Influence)
    } else if chars_eq_ignore_ascii_case(cs.as_slice(), "tension") {
        Some(IntrospectTarget::Tension)
    } else {
        None
    }
}

/// The id an event carries: a number or a text.
#[derive(Debug, Clone, PartialEq)]
pub enum EventId {
    Num(u64),
    Text(String),
}

impl EventId {
    /// A text id.
    pub fn from_text(value: &str) -> (e: EventId)
        ensures
            e matches EventId::Text(t) && t@ == value@,
    {
        EventId::Text(value.to_string())
    }
}

impl From<u64> for EventId {
    fn from(value: u64) -> (e: EventId) {
        EventId::Num(value)
    }
}

impl vstd::std_specs::convert::FromSpecImpl<u64> for EventId {
    open spec fn obeys_from_spec() -> bool {
        true
    }

    open spec fn from_spec(v: u64) -> EventId {
        EventId::Num(v)
    }
}

// ---------------------------------------------------------------------------
// Tick adjustment
// ---------------------------------------------------------------------------

/// The tick after a hint: slowing adds 50 ms up to 400, speeding takes
/// 10 ms off down to 100 (a tick at or below 100 stays), other hints keep
/// it.
pub open spec fn spec_next_tick(tick: u32, hint: Hint) -> u32 {
    match hint {
        Hint::SlowTick => if tick + 50 > 400 {
            400
        } else {
            (tick + 50) as u32
        },
        Hint::FastTick => if tick > 100 {
            if tick - 10 < 100 {
                100
            } else {
                (tick - 10) as u32
            }
        } else {
            tick
        },
        _ => tick,
    }
}

/// A hint moves the tick as it says: slowing adds 50 ms without passing
/// 400, speeding takes 10 ms off a tick above 100 without going under 100,
/// and every other hint leaves the tick alone.
pub proof fn lemma_next_tick_moves(tick: u32, hint: Hint)
    ensures
        ({
            let r = spec_next_tick(tick, hint);
            &&& hint is SlowTick ==> r == (if tick + 50 <= 400 { tick + 50 } else { 400 })
            &&& hint is FastTick && tick <= 100 ==> r == tick
            &&& hint is FastTick && tick > 100 ==> r == (if tick - 10 >= 100 { tick - 10 } else { 100 })
            &&& !(hint is SlowTick || hint is FastTick) ==> r == tick
        }),
{
}

/// The tick after `hint`.
pub fn next_tick(tick: u32, hint: Hint) -> (r: u32)
    ensures
        r == spec_next_tick(tick, hint),
{
    match hint {
        Hint::SlowTick => {
            let t = tick.saturating_add(50);
            if t > 400 {
                400
            } else {
                t
            }
        },
        Hint::FastTick => {
            if tick > 100 {
                let t = tick - 10;
                if t < 100 {
                    100
                } else {
                    t
                }
            } else {
                tick
            }
        },
        _ => tick,
    }
}

/// `AtomicU32::fetch_update` with [`next_tick`]: atomically replaces the
/// tick by its successor under `hint` and returns the tick it replaced.
/// Nothing is promised of that value: other threads move the tick too.
#[verifier::external_body]
fn swap_in_next_tick(current: &AtomicU32, hint: Hint) -> (previous: u32) {
    match current.fetch_update(Ordering::SeqCst, Ordering::SeqCst, |tick| Some(next_tick(tick, hint))) {
        Ok(previous) => previous,
        Err(previous) => previous,
    }
}

/// Atomically moves the shared tick by `hint` and returns the new tick.
pub fn adjust_tick(current: &AtomicU32, hint: &Hint) -> (r: u32)
    ensures
        exists|previous: u32| r == spec_next_tick(previous, *hint),
{
    let previous = swap_in_next_tick(current, *hint);
    next_tick(previous, *hint)
}

/// Adjusting never leaves a slowed or sped-up tick outside 100..=400 once
/// it started there, and other hints leave it alone.
pub proof fn lemma_tick_stays_in_band(tick: u32, hint: Hint)
    requires
        100 <= tick <= 400,
    ensures
        100 <= spec_next_tick(tick, hint) <= 400,
        hint == Hint::SlowTick ==> spec_next_tick(tick, hint) >= tick,
        hint == Hint::FastTick ==> spec_next_tick(tick, hint) <= tick,
        (hint == Hint::TrimField || hint == Hint::WakeSeeds) ==> spec_next_tick(tick, hint) == tick,
{
}

/// The label of a hint in events.
pub fn hint_label(hint: &Hint) -> (s: &'static str)
    ensures
        s@ == match *hint {
            Hint::SlowTick => "slow_tick"@,
            Hint::FastTick => "fast_tick"@,
            Hint::TrimField => "trim_field"@,
            Hint::WakeSeeds => "wake_seeds"@,
        },
{
    match hint {
        Hint::SlowTick => "slow_tick",
        Hint::FastTick => "fast_tick",
        Hint::TrimField => "trim_field",
        Hint::WakeSeeds => "wake_seeds",
    }
}

// ---------------------------------------------------------------------------
// The outbox
// ---------------------------------------------------------------------------

/// What the outbox hands over: pending events and the latest metrics.
pub struct Package<E, M> {
    pub events: Vec<E>,
    pub metrics: Option<M>,
}

/// Events and metrics waiting to be sent.
pub struct Outbox<E, M> {
    events: Vec<E>,
    metrics: Option<M>,
}

pub struct OutboxModel<E, M> {
    pub events: Seq<E>,
    pub metrics: Option<M>,
}

impl<E, M> Outbox<E, M> {
    pub closed spec fn model(&self) -> OutboxModel<E, M> {
        OutboxModel { events: self.events@, metrics: self.metrics }
    }

    /// Nothing pending.
    pub fn new() -> (o: Outbox<E, M>)
        ensures
            o.model().events == Seq::<E>::empty(),
            o.model().metrics is None,
    {
        Outbox { events: Vec::new(), metrics: None }
    }

    pub fn push_event(&mut self, event: E)
        ensures
            final(self).model().events == old(self).model().events.push(event),
            final(self).model().metrics == old(self).model().metrics,
    {
        self.events.push(event);
    }

    pub fn set_metrics(&mut self, metrics: M)
        ensures
            final(self).model().events == old(self).model().events,
            final(self).model().metrics == Some(metrics),
    {
        self.metrics = Some(metrics);
    }

    /// Hands over everything pending, or nothing when nothing is.
    pub fn take(&mut self) -> (p: Option<Package<E, M>>)
        ensures
            (old(self).model().events.len() == 0 && old(self).model().metrics is None) ==> {
                &&& p is None
                &&& final(self).model() == old(self).model()
            },
            !(old(self).model().events.len() == 0 && old(self).model().metrics is None) ==> {
                &&& p matches Some(pk) && pk.events@ == old(self).model().events && pk.metrics
                    == old(self).model().metrics
                &&& final(self).model().events == Seq::<E>::empty()
                &&& final(self).model().metrics is None
            },
    {
        if self.events.len() == 0 && self.metrics.is_none() {
            return None;
        }
        let mut events: Vec<E> = Vec::new();
        std::mem::swap(&mut events, &mut self.events);
        let metrics = self.metrics.take();
        Some(Package { events, metrics })
    }

    /// Puts a package back in front of whatever is pending; its metrics
    /// count only when none are pending.
    pub fn restore(&mut self, package: Package<E, M>)
        ensures
            final(self).model().events == package.events@ + old(self).model().events,
            final(self).model().metrics == if old(self).model().metrics is None {
                package.metrics
            } else {
                old(self).model().metrics
            },
    {
        let Package { events, metrics } = package;
        let mut front = events;
        let mut rest: Vec<E> = Vec::new();
        std::mem::swap(&mut rest, &mut self.events);
        front.append(&mut rest);
        self.events = front;
        if self.metrics.is_none() {
            self.metrics = metrics;
        }
    }
}

/// Taking what is pending and putting it back restores the outbox.
pub proof fn lemma_restore_undoes_take<E, M>(before: OutboxModel<E, M>, pk_events: Seq<E>, pk_metrics: Option<M>)
    requires
        !(before.events.len() == 0 && before.metrics is None),
        pk_events == before.events,
        pk_metrics == before.metrics,
    ensures
        ({
            let emptied = OutboxModel::<E, M> { events: Seq::<E>::empty(), metrics: None };
            let restored = OutboxModel::<E, M> {
                events: pk_events + emptied.events,
                metrics: if emptied.metrics is None {
                    pk_metrics
                } else {
                    emptied.metrics
                },
            };
            restored == before
        }),
{
    assert(pk_events + Seq::<E>::empty() =~= before.events);
}

// ---------------------------------------------------------------------------
// Text logs
// ---------------------------------------------------------------------------

/// A hint found in an impulse log line `n<id> <message>`.
pub struct ImpulseLogHint {
    pub id: u64,
    pub message: String,
}

/// What an impulse log line says: the id after a leading `n` up to the
/// first space, and the trimmed rest.
pub open spec fn spec_impulse_log(log: Seq<char>) -> Option<(u64, Seq<char>)> {
    let t = trim(log);
    if t.len() > 0 && t[0] == 'n' {
        let s = t.drop_first();
        match first_index_of(s, ' ') {
            None => None,
            Some(k) => match parse_uint(s.take(k), u64::MAX as nat) {
                None => None,
                Some(id) => Some((id as u64, trim(s.skip(k + 1)))),
            },
        }
    } else {
        None
    }
}

/// Reads an impulse log line.
pub fn event_from_impulse_log(log: &str) -> (r: Option<ImpulseLogHint>)
    ensures
        match (r, spec_impulse_log(log@)) {
            (Some(h), Some((id, msg))) => h.id == id && h.message@ == msg,
            (None, None) => true,
            _ => false,
        },
{
    let cs = chars_of(log);
    let t = trim_chars(cs.as_slice());
    if t.len() == 0 || t[0] != 'n' {
        return None;
    }
    let rest = vstd::slice::slice_to_vec(vstd::slice::slice_subrange(t.as_slice(), 1, t.len()));
    assert(rest@ =~= t@.drop_first());
    let k = match find_char(rest.as_slice(), ' ') {
        Some(k) => k,
        None => {
            return None;
        },
    };
    let id_part = vstd::slice::slice_to_vec(vstd::slice::slice_subrange(rest.as_slice(), 0, k));
    assert(id_part@ =~= rest@.take(k as int));
    let id = match parse_u64(id_part.as_slice()) {
        Some(v) => v,
        None => {
            return None;
        },
    };
    let tail = vstd::slice::slice_to_vec(vstd::slice::slice_subrange(rest.as_slice(), k + 1, rest.len()));
    assert(tail@ =~= rest@.skip(k + 1));
    let msg = trim_chars(tail.as_slice());
    Some(ImpulseLogHint { id, message: string_of(msg.as_slice()) })
}

/// An event read from a field log line that is not JSON.
pub enum FieldLogEvent {
    /// `DIVIDE parent=n<p> -> child=n<c> (aff <a> -> <b>)`; the affinities
    /// are kept as the `f32` literals the line wrote.
    Divide { parent: u64, child: u64, aff_before: String, aff_after: String },
    /// `SLEEP n<id>`.
    Sleep { id: u64 },
    /// `DEAD n<id>`.
    Dead { id: u64 },
    /// `COLLECTIVE_DREAM k=v ...`: the numeric fields, in order, with any
    /// `ms` suffix dropped.
    CollectiveDream { meta: Vec<(String, u64)> },
}

/// How a field log line reads.
pub enum FieldLogLine {
    /// The line is a JSON object; its event is what the JSON describes.
    Json(String),
    Event(FieldLogEvent),
    Unrecognized,
}

pub enum FieldLogModel {
    Json(Seq<char>),
    Divide { parent: u64, child: u64, aff_before: Seq<char>, aff_after: Seq<char> },
    Sleep { id: u64 },
    Dead { id: u64 },
    CollectiveDream { meta: Seq<(Seq<char>, u64)> },
    Unrecognized,
}

pub open spec fn field_line_view(l: FieldLogLine) -> FieldLogModel {
    match l {
        FieldLogLine::Json(t) => FieldLogModel::Json(t@),
        FieldLogLine::Event(FieldLogEvent::Divide { parent, child, aff_before, aff_after }) => FieldLogModel::Divide {
            parent,
            child,
            aff_before: aff_before@,
            aff_after: aff_after@,
        },
        FieldLogLine::Event(FieldLogEvent::Sleep { id }) => FieldLogModel::Sleep { id },
        FieldLogLine::Event(FieldLogEvent::Dead { id }) => FieldLogModel::Dead { id },
        FieldLogLine::Event(FieldLogEvent::CollectiveDream { meta }) => FieldLogModel::CollectiveDream {
            meta: Seq::new(meta@.len(), |i: int| (meta@[i].0@, meta@[i].1)),
        },
        FieldLogLine::Unrecognized => FieldLogModel::Unrecognized,
    }
}

/// The numeric `key=value` fields among the words of a collective dream
/// line.
pub open spec fn collective_meta(ws: Seq<Seq<char>>) -> Seq<(Seq<char>, u64)>
    decreases ws.len(),
{
    if ws.len() == 0 {
        seq![]
    } else {
        let rest = collective_meta(ws.drop_first());
        let w = ws[0];
        match first_index_of(w, '=') {
            None => rest,
            Some(k) => match parse_uint(trim_end_all(w.skip(k + 1), "ms"@), u64::MAX as nat) {
                None => rest,
                Some(v) => seq![(w.take(k), v as u64)] + rest,
            },
        }
    }
}

/// The affinity part `<a> -> <b>` of a divide line.
#[verifier::opaque]
pub open spec fn divide_affinities(parent: u64, child: u64, aff: Seq<char>) -> FieldLogModel {
    match first_occurrence(aff, "->"@) {
        None => FieldLogModel::Unrecognized,
        Some(k4) => {
            let before = trim(aff.take(k4));
            let after = trim(aff.skip(k4 + "->"@.len()));
            if is_float_literal(before) && is_float_literal(after) {
                FieldLogModel::Divide { parent, child, aff_before: before, aff_after: after }
            } else {
                FieldLogModel::Unrecognized
            }
        },
    }
}

/// A divide line after ` (aff `... is cut at the first `)`.
#[verifier::opaque]
pub open spec fn divide_after_child(parent: u64, child: Option<nat>, rest3: Seq<char>) -> FieldLogModel {
    match (child, first_index_of(rest3, ')')) {
        (Some(c), Some(k3)) => divide_affinities(parent, c as u64, rest3.take(k3)),
        _ => FieldLogModel::Unrecognized,
    }
}

/// A divide line after ` -> child=n`: the child id runs up to ` (aff `.
#[verifier::opaque]
pub open spec fn divide_after_parent(parent: Option<nat>, rest2: Seq<char>) -> FieldLogModel {
    let p2 = " (aff "@;
    match (parent, first_occurrence(rest2, p2)) {
        (Some(p), Some(k2)) => divide_after_child(
            p as u64,
            parse_uint(rest2.take(k2), u64::MAX as nat),
            rest2.skip(k2 + p2.len()),
        ),
        _ => FieldLogModel::Unrecognized,
    }
}

/// The pieces of a divide line after its prefix: the parent id runs up to
/// ` -> child=n`.
#[verifier::opaque]
pub open spec fn spec_divide(rest: Seq<char>) -> FieldLogModel {
    let p1 = " -> child=n"@;
    match first_occurrence(rest, p1) {
        None => FieldLogModel::Unrecognized,
        Some(k1) => divide_after_parent(
            parse_uint(rest.take(k1), u64::MAX as nat),
            rest.skip(k1 + p1.len()),
        ),
    }
}

/// How a field log line reads.
pub open spec fn spec_field_log(log: Seq<char>) -> FieldLogModel {
    let t = trim(log);
    if t.len() > 0 && t[0] == '{' {
        FieldLogModel::Json(t)
    } else if has_prefix(t, "DIVIDE parent=n"@) {
        spec_divide(t.skip("DIVIDE parent=n"@.len() as int))
    } else if has_prefix(t, "SLEEP n"@) {
        match parse_uint(t.skip("SLEEP n"@.len() as int), u64::MAX as nat) {
            Some(id) => FieldLogModel::Sleep { id: id as u64 },
            None => FieldLogModel::Unrecognized,
        }
    } else if has_prefix(t, "DEAD n"@) {
        match parse_uint(t.skip("DEAD n"@.len() as int), u64::MAX as nat) {
            Some(id) => FieldLogModel::Dead { id: id as u64 },
            None => FieldLogModel::Unrecognized,
        }
    } else if has_prefix(t, "COLLECTIVE_DREAM "@) {
        FieldLogModel::CollectiveDream {
            meta: collective_meta(words(t.skip("COLLECTIVE_DREAM "@.len() as int))),
        }
    } else {
        FieldLogModel::Unrecognized
    }
}

proof fn lemma_affinities_shape(parent: u64, child: u64, aff: Seq<char>)
    ensures
        divide_affinities(parent, child, aff) is Divide || divide_affinities(parent, child, aff) is Unrecognized,
{
    reveal(divide_affinities);
}

proof fn lemma_after_child_shape(parent: u64, child: Option<nat>, rest3: Seq<char>)
    ensures
        divide_after_child(parent, child, rest3) is Divide || divide_after_child(parent, child, rest3) is Unrecognized,
{
    reveal(divide_after_child);
    match (child, first_index_of(rest3, ')')) {
        (Some(c), Some(k3)) => lemma_affinities_shape(parent, c as u64, rest3.take(k3)),
        _ => {},
    }
}

proof fn lemma_after_parent_shape(parent: Option<nat>, rest2: Seq<char>)
    ensures
        divide_after_parent(parent, rest2) is Divide || divide_after_parent(parent, rest2) is Unrecognized,
{
    reveal(divide_after_parent);
    let p2 = " (aff "@;
    match (parent, first_occurrence(rest2, p2)) {
        (Some(p), Some(k2)) => lemma_after_child_shape(
            p as u64,
            parse_uint(rest2.take(k2), u64::MAX as nat),
            rest2.skip(k2 + p2.len()),
        ),
        _ => {},
    }
}

/// The body of a `DIVIDE` line reads as a division or not at all.
proof fn lemma_divide_shape(rest: Seq<char>)
    ensures
        spec_divide(rest) is Divide || spec_divide(rest) is Unrecognized,
{
    reveal(spec_divide);
    let p1 = " -> child=n"@;
    match first_occurrence(rest, p1) {
        None => {},
        Some(k1) => lemma_after_parent_shape(parse_uint(rest.take(k1), u64::MAX as nat), rest.skip(k1 + p1.len())),
    }
}

/// A field log line is read by its opening: `{` starts a JSON event kept
/// whole; `SLEEP n<id>` and `DEAD n<id>` report that cell asleep or dead;
/// only `DIVIDE parent=n...` reports a division and only
/// `COLLECTIVE_DREAM ...` a collective dream.
pub proof fn lemma_field_log_kinds(log: Seq<char>)
    ensures
        ({
            let t = trim(log);
            let r = spec_field_log(log);
            &&& (r is Json) <==> (t.len() > 0 && t[0] == '{')
            &&& r is Json ==> r == FieldLogModel::Json(t)
            &&& r is Sleep ==> (has_prefix(t, "SLEEP n"@) && parse_uint(t.skip(7), u64::MAX as nat) is Some
                && r->Sleep_id == parse_uint(t.skip(7), u64::MAX as nat)->0)
            &&& r is Dead ==> (has_prefix(t, "DEAD n"@) && parse_uint(t.skip(6), u64::MAX as nat) is Some
                && r->Dead_id == parse_uint(t.skip(6), u64::MAX as nat)->0)
            &&& (has_prefix(t, "SLEEP n"@) && parse_uint(t.skip(7), u64::MAX as nat) is Some) ==> r is Sleep
            &&& (has_prefix(t, "DEAD n"@) && parse_uint(t.skip(6), u64::MAX as nat) is Some) ==> r is Dead
            &&& r is Divide ==> has_prefix(t, "DIVIDE parent=n"@)
            &&& r is CollectiveDream ==> has_prefix(t, "COLLECTIVE_DREAM "@)
        }),
{
    reveal_strlit("SLEEP n");
    reveal_strlit("DEAD n");
    reveal_strlit("DIVIDE parent=n");
    reveal_strlit("COLLECTIVE_DREAM ");
    let t = trim(log);
    assert("SLEEP n"@.len() == 7 && "SLEEP n"@[0] == 'S');
    assert("DEAD n"@.len() == 6 && "DEAD n"@[0] == 'D' && "DEAD n"@[1] == 'E');
    assert("DIVIDE parent=n"@[0] == 'D' && "DIVIDE parent=n"@[1] == 'I');
    assert("COLLECTIVE_DREAM "@[0] == 'C');
    if has_prefix(t, "SLEEP n"@) {
        assert(t.take(7)[0] == t[0]);
    }
    if has_prefix(t, "DEAD n"@) {
        assert(t.take(6)[0] == t[0] && t.take(6)[1] == t[1]);
    }
    if has_prefix(t, "DIVIDE parent=n"@) {
        assert(t.take(15)[0] == t[0] && t.take(15)[1] == t[1]);
        lemma_divide_shape(t.skip(15));
    }
    if has_prefix(t, "COLLECTIVE_DREAM "@) {
        assert(t.take(17)[0] == t[0]);
    }
}

fn subrange_of(v: &Vec<char>, a: usize, b: usize) -> (r: Vec<char>)
    requires
        a <= b <= v@.len(),
    ensures
        r@ == v@.subrange(a as int, b as int),
{
    vstd::slice::slice_to_vec(vstd::slice::slice_subrange(v.as_slice(), a, b))
}

#[verifier::rlimit(40)]
fn read_affinities(parent: u64, child: u64, aff: &Vec<char>) -> (r: FieldLogLine)
    ensures
        field_line_view(r) == divide_affinities(parent, child, aff@),
{
    proof {
        reveal(divide_affinities);
    }
    let k4 = match find_str(aff.as_slice(), "->") {
        Some(k) => k,
        None => {
            return FieldLogLine::Unrecognized;
        },
    };
    let arrow = "->".unicode_len();
    assert(occurs_at(aff@, "->"@, k4 as int));
    assert(k4 + arrow <= aff.len());
    let before_raw = subrange_of(aff, 0, k4);
    assert(before_raw@ =~= aff@.take(k4 as int));
    let after_raw = subrange_of(aff, k4 + arrow, aff.len());
    assert(after_raw@ =~= aff@.skip(k4 + "->"@.len()));
    let before = trim_chars(before_raw.as_slice());
    let after = trim_chars(after_raw.as_slice());
    if float_literal_ok(before.as_slice()) && float_literal_ok(after.as_slice()) {
        FieldLogLine::Event(
            FieldLogEvent::Divide {
                parent,
                child,
                aff_before: string_of(before.as_slice()),
                aff_after: string_of(after.as_slice()),
            },
        )
    } else {
        FieldLogLine::Unrecognized
    }
}

#[verifier::rlimit(80)]
fn read_child(parent: u64, rest2: &Vec<char>) -> (r: FieldLogLine)
    ensures
        field_line_view(r) == divide_after_parent(Some(parent as nat), rest2@),
{
    proof {
        reveal(divide_after_parent);
        reveal(divide_after_child);
    }
    let p2 = " (aff ";
    let k2 = match find_str(rest2.as_slice(), p2) {
        Some(k) => k,
        None => {
            return FieldLogLine::Unrecognized;
        },
    };
    let p2n = p2.unicode_len();
    assert(occurs_at(rest2@, p2@, k2 as int));
    assert(k2 + p2n <= rest2.len());
    let rest3 = subrange_of(rest2, k2 + p2n, rest2.len());
    assert(rest3@ =~= rest2@.skip(k2 + p2@.len()));
    let child_part = subrange_of(rest2, 0, k2);
    assert(child_part@ =~= rest2@.take(k2 as int));
    let child = match parse_u64(child_part.as_slice()) {
        Some(v) => v,
        None => {
            return FieldLogLine::Unrecognized;
        },
    };
    let k3 = match find_char(rest3.as_slice(), ')') {
        Some(k) => k,
        None => {
            return FieldLogLine::Unrecognized;
        },
    };
    let aff = subrange_of(&rest3, 0, k3);
    assert(aff@ =~= rest3@.take(k3 as int));
    read_affinities(parent, child, &aff)
}

fn read_divide(rest: &Vec<char>) -> (r: FieldLogLine)
    ensures
        field_line_view(r) == spec_divide(rest@),
{
    proof {
        reveal(spec_divide);
        reveal(divide_after_parent);
    }
    let p1 = " -> child=n";
    let k1 = match find_str(rest.as_slice(), p1) {
        Some(k) => k,
        None => {
            return FieldLogLine::Unrecognized;
        },
    };
    let p1n = p1.unicode_len();
    assert(occurs_at(rest@, p1@, k1 as int));
    assert(k1 + p1n <= rest.len());
    let rest2 = subrange_of(rest, k1 + p1n, rest.len());
    assert(rest2@ =~= rest@.skip(k1 + p1@.len()));
    let parent_part = subrange_of(rest, 0, k1);
    assert(parent_part@ =~= rest@.take(k1 as int));
    match parse_u64(parent_part.as_slice()) {
        Some(parent) => read_child(parent, &rest2),
        None => FieldLogLine::Unrecognized,
    }
}

fn read_collective(ws: &Vec<String>, i: usize) -> (meta: Vec<(String, u64)>)
    requires
        i <= ws@.len(),
    ensures
        Seq::new(meta@.len(), |k: int| (meta@[k].0@, meta@[k].1)) == collective_meta(
            Seq::new(ws@.len(), |k: int| ws@[k]@).skip(i as int),
        ),
    decreases ws@.len() - i,
{
    let ghost all = Seq::new(ws@.len(), |k: int| ws@[k]@);
    if i == ws.len() {
        assert(all.skip(i as int) =~= Seq::<Seq<char>>::empty());
        let v: Vec<(String, u64)> = Vec::new();
        assert(Seq::new(v@.len(), |k: int| (v@[k].0@, v@[k].1)) =~= Seq::<(Seq<char>, u64)>::empty());
        return v;
    }
    let rest = read_collective(ws, i + 1);
    assert(all.skip(i as int).drop_first() =~= all.skip(i + 1));
    assert(all.skip(i as int)[0] == ws@[i as int]@);
    let w = chars_of(ws[i].as_str());
    let k = match find_char(w.as_slice(), '=') {
        Some(k) => k,
        None => {
            return rest;
        },
    };
    assert(k < w.len());
    let raw = subrange_of(&w, k + 1, w.len());
    assert(raw@ =~= w@.skip(k + 1));
    let cleaned = trim_end_matches(raw.as_slice(), "ms");
    match parse_u64(cleaned.as_slice()) {
        Some(v) => {
            let key_chars = subrange_of(&w, 0, k);
            assert(key_chars@ =~= w@.take(k as int));
            let key = string_of(key_chars.as_slice());
            let mut out: Vec<(String, u64)> = Vec::new();
            out.push((key, v));
            let ghost rest_view = Seq::new(rest@.len(), |j: int| (rest@[j].0@, rest@[j].1));
            let ghost head = (key_chars@, v);
            let mut j: usize = 0;
            while j < rest.len()
                invariant
                    j <= rest@.len(),
                    out@.len() == j + 1,
                    (out@[0].0@, out@[0].1) == head,
                    forall|q: int| 0 <= q < j ==> (#[trigger] out@[q + 1].0@, out@[q + 1].1) == (rest@[q].0@, rest@[q].1),
                decreases rest.len() - j,
            {
                let e = (rest[j].0.clone(), rest[j].1);
                out.push(e);
                j += 1;
            }
            let ghost outv = Seq::new(out@.len(), |q: int| (out@[q].0@, out@[q].1));
            assert forall|q: int| 0 <= q < out@.len() implies #[trigger] outv[q] == (seq![head] + rest_view)[q] by {
                if q > 0 {
                    assert((out@[(q - 1) + 1].0@, out@[(q - 1) + 1].1) == (rest@[q - 1].0@, rest@[q - 1].1));
                }
            }
            assert(Seq::new(out@.len(), |q: int| (out@[q].0@, out@[q].1)) =~= seq![head] + rest_view);
            out
        },
        None => rest,
    }
}

/// Reads a field log line into an event. A JSON line is handed back as
/// text for the caller to decode.
pub fn event_from_field_log(log: &str) -> (r: FieldLogLine)
    ensures
        field_line_view(r) == spec_field_log(log@),
{
    let cs = chars_of(log);
    let t = trim_chars(cs.as_slice());
    if t.len() > 0 && t[0] == '{' {
        return FieldLogLine::Json(string_of(t.as_slice()));
    }
    if let Some(rest) = strip_prefix(t.as_slice(), "DIVIDE parent=n") {
        return read_divide(&rest);
    }
    if let Some(rest) = strip_prefix(t.as_slice(), "SLEEP n") {
        return match parse_u64(rest.as_slice()) {
            Some(id) => FieldLogLine::Event(FieldLogEvent::Sleep { id }),
            None => FieldLogLine::Unrecognized,
        };
    }
    if let Some(rest) = strip_prefix(t.as_slice(), "DEAD n") {
        return match parse_u64(rest.as_slice()) {
            Some(id) => FieldLogLine::Event(FieldLogEvent::Dead { id }),
            None => FieldLogLine::Unrecognized,
        };
    }
    if let Some(rest) = strip_prefix(t.as_slice(), "COLLECTIVE_DREAM ") {
        let text = string_of(rest.as_slice());
        let ws = split_whitespace(text.as_str());
        let meta = read_collective(&ws, 0);
        proof {
            let all = Seq::new(ws@.len(), |k: int| ws@[k]@);
            assert(all.skip(0) =~= words(rest@));
        }
        return FieldLogLine::Event(FieldLogEvent::CollectiveDream { meta });
    }
    FieldLogLine::Unrecognized
}

} // verus!
