//! The replayable core of the cluster field: its cells and their links, the
//! token index, the reflex rules, the dream and synchronisation report
//! rings, the synchronisation log and the resonant model's hashes, and how
//! each journal delta changes them. Replaying a journal is applying its
//! deltas in order.
//!
//! Float measures of a cell travel as their `f32` bit patterns and are only
//! copied. Deltas that tune float state (the rate regulator, dream and sync
//! settings, link scores, route biases) are handed back to the caller
//! untouched; the link tracking that the caller keeps for scores and usage
//! is told which links to register, unregister or purge.
use vstd::prelude::*;
use crate::field::{pattern_tokens, tokenize, to_lowercase};
use crate::journal::ReflexFire;
use crate::keyed::{
    distinct_keys, holds_key, keyed_map, lemma_keyed_at, lemma_keyed_update, lemma_keyed_push,
    lemma_keyed_remove, insert_id, remove_id,
};
use crate::resonant::{DreamReport, SyncReport, SyncLog, SyncLogView, SyncEventView, ModelFrame, spec_push, keep_last};
use crate::text::str_eq;
use crate::types::NodeState;

verus! {

/// How many dream reports, and how many collective reports, are kept.
pub const REPORT_RING: usize = 16;

/// The float measures of a cell, as `f32` bit patterns, and the two plain
/// marks kept beside them.
#[derive(Debug, Clone, Copy, PartialEq, Eq, Structural)]
pub struct Vitals {
    pub seed_affinity: u32,
    pub seed_metabolism: u32,
    pub metabolism: u32,
    pub affinity: u32,
    pub energy: u32,
    pub salience: u32,
    pub adreno_tag: bool,
    pub last_recall_ms: u64,
}

/// A cell as the journal carries it.
#[derive(Debug, Clone)]
pub struct CellCore {
    pub id: u64,
    pub state: NodeState,
    pub links: Vec<u64>,
    pub last_response_ms: u64,
    pub core_pattern: String,
    pub vitals: Vitals,
}

#[verifier::ext_equal]
pub struct CellView {
    pub state: NodeState,
    pub links: Set<u64>,
    pub last_response_ms: u64,
    pub core_pattern: Seq<char>,
    pub vitals: Vitals,
}

impl View for CellCore {
    type V = CellView;

    open spec fn view(&self) -> CellView {
        CellView {
            state: self.state,
            links: self.links@.to_set(),
            last_response_ms: self.last_response_ms,
            core_pattern: self.core_pattern@,
            vitals: self.vitals,
        }
    }
}

/// A reflex rule: the token it watches and the rest of it, which the
/// replay carries unchanged.
#[derive(Debug, Clone)]
pub struct RuleCore<R> {
    pub id: u64,
    pub token: String,
    pub body: R,
}

pub open spec fn cell_key() -> spec_fn(CellCore) -> u64 {
    |c: CellCore| c.id
}

pub open spec fn cell_val() -> spec_fn(CellCore) -> CellView {
    |c: CellCore| c@
}

pub open spec fn rule_key<R>() -> spec_fn(RuleCore<R>) -> u64 {
    |r: RuleCore<R>| r.id
}

pub open spec fn rule_val<R>() -> spec_fn(RuleCore<R>) -> (Seq<char>, R) {
    |r: RuleCore<R>| (r.token@, r.body)
}

/// What the caller's link tracking (usage counts and scores) must do.
#[derive(Debug, Clone, Copy, PartialEq, Eq, Structural)]
pub enum LinkEvent {
    /// Start tracking `from -> to`, unless it is tracked.
    Register { from: u64, to: u64 },
    /// Stop tracking `from -> to`.
    Unregister { from: u64, to: u64 },
    /// Stop tracking every link that starts or ends at `id`.
    Purge { id: u64 },
}

/// One journal entry. `R` is the rest of a reflex rule; `T` is a tuning
/// delta of float state, handed back to the caller.
pub enum FieldDelta<R, T> {
    Tick { now_ms: u64 },
    Spawn(CellCore),
    Divide { parent: u64, child: CellCore },
    Sleep { id: u64 },
    Dead { id: u64 },
    Link { from: u64, to: u64 },
    Unlink { from: u64, to: u64 },
    Affinity { id: u64, affinity: u32 },
    Energy { id: u64, energy: u32, metabolism: u32, state: NodeState, last_response_ms: u64 },
    ReflexAdd(RuleCore<R>),
    ReflexRemove { id: u64 },
    ReflexFire(ReflexFire),
    DreamPrune { from: u64, to: u64 },
    DreamRewire { from: u64, to: u64 },
    DreamReport { now_ms: u64, report: DreamReport },
    CollectiveDreamReport { now_ms: u64, report: SyncReport },
    ModelBuild { hash: String, cell_count: u32, now_ms: u64 },
    AwakenApply { config: T, hash: Option<String>, now_ms: u64, cell_count: u32 },
    AwakenTick { now_ms: u64, hash: Option<String> },
    Tuning(T),
}

/// What applying a delta asks of the caller: the link tracking to do, and
/// the tuning to apply to float state.
pub struct Replayed<T> {
    pub links: Vec<LinkEvent>,
    pub tuning: Option<T>,
}

#[verifier::ext_equal]
pub struct FieldView<R> {
    pub now_ms: u64,
    pub ticks_since_impulse: u64,
    pub cells: Map<u64, CellView>,
    pub next_id: u64,
    pub rules: Map<u64, (Seq<char>, R)>,
    pub next_reflex_id: u64,
    pub dream_reports: Seq<(u64, DreamReport)>,
    pub sync_reports: Seq<(u64, SyncReport)>,
    pub last_dream_ms: u64,
    pub last_awaken_tick: u64,
    pub sync_log: SyncLogView,
    pub last_build: Option<(Seq<char>, u32, u64)>,
    pub last_applied: Option<Seq<char>>,
}

/// The replayable state of the field.
pub struct FieldCore<R> {
    now_ms: u64,
    ticks_since_impulse: u64,
    cells: Vec<CellCore>,
    index: Vec<(String, Vec<u64>)>,
    next_id: u64,
    rules: Vec<RuleCore<R>>,
    next_reflex_id: u64,
    dream_reports: Vec<(u64, DreamReport)>,
    sync_reports: Vec<(u64, SyncReport)>,
    last_dream_ms: u64,
    last_awaken_tick: u64,
    sync_log: SyncLog,
    last_build: Option<ModelFrame>,
    last_applied: Option<String>,
}

pub open spec fn opt_text(o: Option<String>) -> Option<Seq<char>> {
    match o {
        Some(s) => Some(s@),
        None => None,
    }
}

pub open spec fn frame_view(f: Option<ModelFrame>) -> Option<(Seq<char>, u32, u64)> {
    match f {
        Some(m) => Some((m.hash@, m.cell_count, m.created_ms)),
        None => None,
    }
}

impl<R> View for FieldCore<R> {
    type V = FieldView<R>;

    closed spec fn view(&self) -> FieldView<R> {
        FieldView {
            now_ms: self.now_ms,
            ticks_since_impulse: self.ticks_since_impulse,
            cells: keyed_map(self.cells@, cell_key(), cell_val()),
            next_id: self.next_id,
            rules: keyed_map(self.rules@, rule_key(), rule_val()),
            next_reflex_id: self.next_reflex_id,
            dream_reports: self.dream_reports@,
            sync_reports: self.sync_reports@,
            last_dream_ms: self.last_dream_ms,
            last_awaken_tick: self.last_awaken_tick,
            sync_log: self.sync_log@,
            last_build: frame_view(self.last_build),
            last_applied: opt_text(self.last_applied),
        }
    }
}

/// Some index entry for token `t` lists `id`.
pub open spec fn index_has(ix: Seq<(String, Vec<u64>)>, t: Seq<char>, id: u64) -> bool {
    exists|i: int| #![trigger ix[i]] 0 <= i < ix.len() && ix[i].0@ == t && ix[i].1@.contains(id)
}

/// Cell `id` exists and `t` is one of its pattern's tokens.
pub open spec fn indexed(cells: Map<u64, CellView>, t: Seq<char>, id: u64) -> bool {
    cells.contains_key(id) && pattern_tokens(cells[id].core_pattern).contains(t)
}

/// The cells have distinct ids, and no cell links to the same cell twice.
pub open spec fn cells_ok(cells: Seq<CellCore>) -> bool {
    &&& distinct_keys(cells, cell_key())
    &&& forall|i: int| 0 <= i < cells.len() ==> (#[trigger] cells[i]).links@.no_duplicates()
}

/// The index lists exactly the cells under each of their tokens.
pub open spec fn index_ok(ix: Seq<(String, Vec<u64>)>, cells: Seq<CellCore>) -> bool {
    forall|t: Seq<char>, id: u64|
        #![trigger index_has(ix, t, id)]
        #![trigger indexed(keyed_map(cells, cell_key(), cell_val()), t, id)]
        index_has(ix, t, id) <==> indexed(keyed_map(cells, cell_key(), cell_val()), t, id)
}

impl<R> FieldCore<R> {
    /// The cells, index, rules and rings are consistent.
    pub closed spec fn wf(&self) -> bool {
        &&& cells_ok(self.cells@)
        &&& index_ok(self.index@, self.cells@)
        &&& distinct_keys(self.rules@, rule_key())
        &&& self.dream_reports@.len() <= REPORT_RING
        &&& self.sync_reports@.len() <= REPORT_RING
    }
}

/// The vector `l` without `id`.
fn without_id(l: &Vec<u64>, id: u64) -> (r: Vec<u64>)
    ensures
        forall|x: u64| r@.contains(x) <==> (l@.contains(x) && x != id),
{
    let mut r: Vec<u64> = Vec::new();
    let mut i: usize = 0;
    while i < l.len()
        invariant
            i <= l@.len(),
            forall|x: u64| r@.contains(x) <==> (exists|k: int| 0 <= k < i && l@[k] == x) && x != id,
        decreases l.len() - i,
    {
        let ghost before = r@;
        if l[i] != id {
            r.push(l[i]);
        }
        assert forall|x: u64| r@.contains(x) <==> (exists|k: int| 0 <= k < i + 1 && l@[k] == x) && x != id by {
            if r@.contains(x) {
                let p = choose|p: int| 0 <= p < r@.len() && r@[p] == x;
                if p < before.len() {
                    assert(before[p] == x);
                    assert(before.contains(x));
                }
            }
            if (exists|k: int| 0 <= k < i + 1 && l@[k] == x) && x != id {
                let k = choose|k: int| 0 <= k < i + 1 && l@[k] == x;
                if k < i {
                    assert(before.contains(x));
                    let p = choose|p: int| 0 <= p < before.len() && before[p] == x;
                    assert(r@[p] == x);
                } else {
                    assert(r@[r@.len() - 1] == x);
                }
            }
            if before.contains(x) {
                let p = choose|p: int| 0 <= p < before.len() && before[p] == x;
                assert(r@[p] == x);
            }
        }
        i += 1;
    }
    assert forall|x: u64| l@.contains(x) <==> (exists|k: int| 0 <= k < l@.len() && l@[k] == x) by {}
    r
}

/// Takes `id` out of every index entry.
fn index_drop(ix: &mut Vec<(String, Vec<u64>)>, id: u64)
    ensures
        forall|t: Seq<char>, x: u64| #[trigger] index_has(final(ix)@, t, x) <==> (index_has(old(ix)@, t, x) && x != id),
{
    let mut src: Vec<(String, Vec<u64>)> = Vec::new();
    std::mem::swap(ix, &mut src);
    let ghost orig = src@;
    let mut i: usize = 0;
    while i < src.len()
        invariant
            src@ == orig,
            i <= orig.len(),
            ix@.len() == i,
            forall|k: int| #![trigger ix@[k]] 0 <= k < i ==> ix@[k].0@ == orig[k].0@ && (forall|x: u64|
                ix@[k].1@.contains(x) <==> (orig[k].1@.contains(x) && x != id)),
        decreases src.len() - i,
    {
        let key = src[i].0.clone();
        let kept = without_id(&src[i].1, id);
        ix.push((key, kept));
        i += 1;
    }
    assert forall|t: Seq<char>, x: u64| #[trigger] index_has(ix@, t, x) <==> (index_has(orig, t, x) && x != id) by {
        if index_has(ix@, t, x) {
            let k = choose|k: int| #![trigger ix@[k]] 0 <= k < ix@.len() && ix@[k].0@ == t && ix@[k].1@.contains(x);
            assert(orig[k].0@ == t && orig[k].1@.contains(x));
        }
        if index_has(orig, t, x) && x != id {
            let k = choose|k: int| #![trigger orig[k]] 0 <= k < orig.len() && orig[k].0@ == t && orig[k].1@.contains(x);
            assert(ix@[k].0@ == t && ix@[k].1@.contains(x));
        }
    }
}

/// Lists `id` under `token`.
fn index_add(ix: &mut Vec<(String, Vec<u64>)>, token: String, id: u64)
    ensures
        forall|t: Seq<char>, x: u64| #[trigger] index_has(final(ix)@, t, x) <==> (index_has(old(ix)@, t, x) || (t
            == token@ && x == id)),
{
    let ghost orig = ix@;
    let mut j: usize = 0;
    while j < ix.len()
        invariant
            ix@ == orig,
            orig == old(ix)@,
            j <= ix@.len(),
        decreases ix.len() - j,
    {
        if str_eq(ix[j].0.as_str(), token.as_str()) {
            assert(orig[j as int].0@ == token@);
            let (key, mut list) = ix.remove(j);
            list.push(id);
            ix.insert(j, (key, list));
            assert(ix@ =~= orig.update(j as int, ix@[j as int]));
            assert forall|t: Seq<char>, x: u64| #[trigger] index_has(ix@, t, x) <==> (index_has(orig, t, x) || (t
                == token@ && x == id)) by {
                if index_has(ix@, t, x) {
                    let k = choose|k: int| #![trigger ix@[k]] 0 <= k < ix@.len() && ix@[k].0@ == t && ix@[k].1@.contains(x);
                    if k != j {
                        assert(orig[k] == ix@[k]);
                    } else if x == id {
                        assert(t == token@);
                    } else {
                        let p = choose|p: int| 0 <= p < ix@[k].1@.len() && ix@[k].1@[p] == x;
                        assert(orig[k].1@[p] == x);
                        assert(orig[k].1@.contains(x));
                    }
                }
                if index_has(orig, t, x) {
                    let k = choose|k: int| #![trigger orig[k]] 0 <= k < orig.len() && orig[k].0@ == t && orig[k].1@.contains(x);
                    if k != j {
                        assert(orig[k] == ix@[k]);
                    } else {
                        let p = choose|p: int| 0 <= p < orig[k].1@.len() && orig[k].1@[p] == x;
                        assert(ix@[k].1@[p] == x);
                        assert(ix@[k].1@.contains(x));
                    }
                }
                if t == token@ && x == id {
                    assert(ix@[j as int].1@[ix@[j as int].1@.len() - 1] == id);
                    assert(ix@[j as int].1@.contains(id));
                }
            }
            return;
        }
        j += 1;
    }
    let ghost tok = token@;
    let mut list: Vec<u64> = Vec::new();
    list.push(id);
    ix.push((token, list));
    assert forall|t: Seq<char>, x: u64| #[trigger] index_has(ix@, t, x) <==> (index_has(orig, t, x) || (t == tok
        && x == id)) by {
        if index_has(ix@, t, x) {
            let k = choose|k: int| #![trigger ix@[k]] 0 <= k < ix@.len() && ix@[k].0@ == t && ix@[k].1@.contains(x);
            if k < orig.len() {
                assert(orig[k] == ix@[k]);
            } else {
                assert(ix@[k].1@ == seq![id]);
            }
        }
        if index_has(orig, t, x) {
            let k = choose|k: int| #![trigger orig[k]] 0 <= k < orig.len() && orig[k].0@ == t && orig[k].1@.contains(x);
            assert(orig[k] == ix@[k]);
        }
        if t == tok && x == id {
            let k = orig.len() as int;
            assert(ix@[k].1@[0] == id);
            assert(ix@[k].1@.contains(id));
        }
    }
}

/// Lists `id` under each token of `pattern`.
fn index_add_tokens(ix: &mut Vec<(String, Vec<u64>)>, pattern: &str, id: u64)
    ensures
        forall|t: Seq<char>, x: u64| #[trigger] index_has(final(ix)@, t, x) <==> (index_has(old(ix)@, t, x) || (x
            == id && pattern_tokens(pattern@).contains(t))),
{
    let ghost orig = ix@;
    let toks = tokenize(pattern);
    let ghost pt = pattern_tokens(pattern@);
    let mut i: usize = 0;
    while i < toks.len()
        invariant
            i <= toks@.len(),
            toks@.len() == pt.len(),
            forall|k: int| 0 <= k < toks@.len() ==> #[trigger] toks@[k]@ == pt[k],
            forall|t: Seq<char>, x: u64| #[trigger] index_has(ix@, t, x) <==> (index_has(orig, t, x) || (x == id
                && exists|k: int| 0 <= k < i && pt[k] == t)),
        decreases toks.len() - i,
    {
        let tok = toks[i].clone();
        index_add(ix, tok, id);
        assert forall|t: Seq<char>, x: u64| #[trigger] index_has(ix@, t, x) <==> (index_has(orig, t, x) || (x == id
            && exists|k: int| 0 <= k < i + 1 && pt[k] == t)) by {
            if x == id && exists|k: int| 0 <= k < i + 1 && pt[k] == t {
                let k = choose|k: int| 0 <= k < i + 1 && pt[k] == t;
                if k < i {
                } else {
                    assert(toks@[k]@ == t);
                }
            }
        }
        i += 1;
    }
    assert forall|t: Seq<char>, x: u64| #[trigger] index_has(ix@, t, x) <==> (index_has(orig, t, x) || (x == id
        && pt.contains(t))) by {
        if pt.contains(t) {
            let k = choose|k: int| 0 <= k < pt.len() && pt[k] == t;
            assert(exists|k: int| 0 <= k < toks@.len() && pt[k] == t);
        }
        if exists|k: int| 0 <= k < toks@.len() && pt[k] == t {
            let k = choose|k: int| 0 <= k < toks@.len() && pt[k] == t;
            assert(pt.contains(t));
        }
    }
}


/// `id + 1` when it passes `cur`, else `cur`: the next free id after `id`
/// was seen.
pub open spec fn bump(cur: u64, id: u64) -> u64 {
    if id + 1 <= cur {
        cur
    } else {
        (id + 1) as u64
    }
}

/// Cell `from` exists and does not link to `to` yet.
pub open spec fn newly_linked(cells: Map<u64, CellView>, from: u64, to: u64) -> bool {
    cells.contains_key(from) && !cells[from].links.contains(to)
}

/// Cell `from` exists and links to `to`.
pub open spec fn linked(cells: Map<u64, CellView>, from: u64, to: u64) -> bool {
    cells.contains_key(from) && cells[from].links.contains(to)
}

/// The cells after `from` links to `to`, when `from` exists.
pub open spec fn with_link(cells: Map<u64, CellView>, from: u64, to: u64) -> Map<u64, CellView> {
    if cells.contains_key(from) {
        cells.insert(from, CellView { links: cells[from].links.insert(to), ..cells[from] })
    } else {
        cells
    }
}

/// The cells after `from` stops linking to `to`, when `from` exists.
pub open spec fn without_link(cells: Map<u64, CellView>, from: u64, to: u64) -> Map<u64, CellView> {
    if cells.contains_key(from) {
        cells.insert(from, CellView { links: cells[from].links.remove(to), ..cells[from] })
    } else {
        cells
    }
}

/// The cells after `id`, when it exists, takes state `st`.
pub open spec fn with_state(cells: Map<u64, CellView>, id: u64, st: NodeState) -> Map<u64, CellView> {
    if cells.contains_key(id) {
        cells.insert(id, CellView { state: st, ..cells[id] })
    } else {
        cells
    }
}

/// The cells after `id`, when it exists, takes affinity `a` (and its seed
/// with it).
pub open spec fn with_affinity(cells: Map<u64, CellView>, id: u64, a: u32) -> Map<u64, CellView> {
    if cells.contains_key(id) {
        cells.insert(
            id,
            CellView { vitals: Vitals { affinity: a, seed_affinity: a, ..cells[id].vitals }, ..cells[id] },
        )
    } else {
        cells
    }
}

/// The cells after `id`, when it exists, takes the given energy,
/// metabolism, state and response time.
pub open spec fn with_energy(
    cells: Map<u64, CellView>,
    id: u64,
    energy: u32,
    metabolism: u32,
    st: NodeState,
    last_response_ms: u64,
) -> Map<u64, CellView> {
    if cells.contains_key(id) {
        cells.insert(
            id,
            CellView {
                state: st,
                last_response_ms,
                vitals: Vitals { energy, metabolism, ..cells[id].vitals },
                ..cells[id]
            },
        )
    } else {
        cells
    }
}

/// A ring after `x` joins it: the last [`REPORT_RING`] entries.
pub open spec fn ring_push<A>(s: Seq<A>, x: A) -> Seq<A> {
    keep_last(s.push(x), REPORT_RING as nat)
}

/// The events that start tracking each link of cell `from`, in order.
pub open spec fn registrations(from: u64, links: Seq<u64>) -> Seq<LinkEvent> {
    links.map_values(|to: u64| LinkEvent::Register { from, to })
}

/// `ev` registers exactly the links of `cells`: each event registers one
/// of them, and each of them is registered.
pub open spec fn registers_all(cells: Map<u64, CellView>, ev: Seq<LinkEvent>) -> bool {
    &&& forall|k: int|
        0 <= k < ev.len() ==> (#[trigger] ev[k] matches LinkEvent::Register { from, to } && linked(
            cells,
            from,
            to,
        ))
    &&& forall|from: u64, to: u64| #[trigger] linked(cells, from, to) ==> ev.contains(LinkEvent::Register { from, to })
}

/// A delta that the replay can take: ids that leave room for the next one,
/// and links without repeats.
pub open spec fn delta_ok<R, T>(d: FieldDelta<R, T>) -> bool {
    match d {
        FieldDelta::Spawn(c) => c.id < u64::MAX && c.links@.no_duplicates(),
        FieldDelta::Divide { child, .. } => child.id < u64::MAX && child.links@.no_duplicates(),
        FieldDelta::ReflexAdd(r) => r.id < u64::MAX,
        _ => true,
    }
}

/// The state after one delta.
pub open spec fn spec_apply_delta<R, T>(s: FieldView<R>, d: FieldDelta<R, T>) -> FieldView<R> {
    match d {
        FieldDelta::Tick { now_ms } => FieldView { now_ms, ticks_since_impulse: 0, ..s },
        FieldDelta::Spawn(c) => FieldView { cells: s.cells.insert(c.id, c@), next_id: bump(s.next_id, c.id), ..s },
        FieldDelta::Divide { parent, child } => FieldView {
            cells: with_link(s.cells, parent, child.id).insert(child.id, child@),
            next_id: bump(s.next_id, child.id),
            ..s
        },
        FieldDelta::Sleep { id } => FieldView { cells: with_state(s.cells, id, NodeState::Sleep), ..s },
        FieldDelta::Dead { id } => FieldView { cells: s.cells.remove(id), ..s },
        FieldDelta::Link { from, to } => FieldView { cells: with_link(s.cells, from, to), ..s },
        FieldDelta::Unlink { from, to } => FieldView { cells: without_link(s.cells, from, to), ..s },
        FieldDelta::Affinity { id, affinity } => FieldView { cells: with_affinity(s.cells, id, affinity), ..s },
        FieldDelta::Energy { id, energy, metabolism, state, last_response_ms } => FieldView {
            cells: with_energy(s.cells, id, energy, metabolism, state, last_response_ms),
            ..s
        },
        FieldDelta::ReflexAdd(r) => FieldView {
            rules: s.rules.insert(r.id, (crate::field::str_lower(r.token@), r.body)),
            next_reflex_id: bump(s.next_reflex_id, r.id),
            ..s
        },
        FieldDelta::ReflexRemove { id } => FieldView { rules: s.rules.remove(id), ..s },
        FieldDelta::ReflexFire(_) => s,
        FieldDelta::DreamPrune { from, to } => FieldView { cells: without_link(s.cells, from, to), ..s },
        FieldDelta::DreamRewire { from, to } => FieldView { cells: with_link(s.cells, from, to), ..s },
        FieldDelta::DreamReport { now_ms, report } => FieldView {
            dream_reports: ring_push(s.dream_reports, (now_ms, report)),
            last_dream_ms: now_ms,
            ..s
        },
        FieldDelta::CollectiveDreamReport { now_ms, report } => FieldView {
            sync_reports: ring_push(s.sync_reports, (now_ms, report)),
            ..s
        },
        FieldDelta::ModelBuild { hash, cell_count, now_ms } => FieldView {
            last_build: Some((hash@, cell_count, now_ms)),
            sync_log: spec_push(s.sync_log, SyncEventView::Build { at_ms: now_ms, hash: hash@, cell_count }),
            ..s
        },
        FieldDelta::AwakenApply { hash, now_ms, cell_count, .. } => FieldView {
            last_applied: opt_text(hash),
            sync_log: match hash {
                Some(h) => spec_push(s.sync_log, SyncEventView::Apply { at_ms: now_ms, hash: Some(h@), cell_count }),
                None => s.sync_log,
            },
            ..s
        },
        FieldDelta::AwakenTick { now_ms, hash } => FieldView {
            last_awaken_tick: now_ms,
            sync_log: spec_push(s.sync_log, SyncEventView::Tick { at_ms: now_ms }),
            last_applied: if hash is Some && s.last_applied is None {
                opt_text(hash)
            } else {
                s.last_applied
            },
            ..s
        },
        FieldDelta::Tuning(_) => s,
    }
}

/// The link tracking that a delta asks for, given the state before it.
pub open spec fn link_events_ok<R, T>(s: FieldView<R>, d: FieldDelta<R, T>, ev: Seq<LinkEvent>) -> bool {
    match d {
        FieldDelta::Spawn(c) => ev == registrations(c.id, c.links@),
        FieldDelta::Divide { parent, child } => ev == (if newly_linked(s.cells, parent, child.id) {
            seq![LinkEvent::Register { from: parent, to: child.id }]
        } else {
            Seq::<LinkEvent>::empty()
        }) + registrations(child.id, child.links@),
        FieldDelta::Link { from, to } => ev == if newly_linked(s.cells, from, to) {
            seq![LinkEvent::Register { from, to }]
        } else {
            Seq::<LinkEvent>::empty()
        },
        FieldDelta::DreamRewire { from, to } => ev == if newly_linked(s.cells, from, to) {
            seq![LinkEvent::Register { from, to }]
        } else {
            Seq::<LinkEvent>::empty()
        },
        FieldDelta::Unlink { from, to } => ev == if linked(s.cells, from, to) {
            seq![LinkEvent::Unregister { from, to }]
        } else {
            Seq::<LinkEvent>::empty()
        },
        FieldDelta::DreamPrune { from, to } => ev == seq![LinkEvent::Unregister { from, to }],
        FieldDelta::Dead { id } => {
            &&& ev.len() >= 1
            &&& ev.last() == LinkEvent::Purge { id }
            &&& registers_all(s.cells.remove(id), ev.drop_last())
        },
        _ => ev.len() == 0,
    }
}

/// The tuning a delta hands back.
pub open spec fn spec_tuning<R, T>(d: FieldDelta<R, T>) -> Option<T> {
    match d {
        FieldDelta::AwakenApply { config, .. } => Some(config),
        FieldDelta::Tuning(t) => Some(t),
        _ => None,
    }
}

/// Replacing a cell by one with the same id and pattern keeps the cells and
/// the index consistent.
proof fn lemma_cells_replaced(orig: Seq<CellCore>, ix: Seq<(String, Vec<u64>)>, i: int, c: CellCore)
    requires
        cells_ok(orig),
        index_ok(ix, orig),
        0 <= i < orig.len(),
        c.id == orig[i].id,
        c.core_pattern@ == orig[i].core_pattern@,
        c.links@.no_duplicates(),
    ensures
        cells_ok(orig.update(i, c)),
        index_ok(ix, orig.update(i, c)),
        keyed_map(orig, cell_key(), cell_val()).contains_key(c.id),
        keyed_map(orig, cell_key(), cell_val())[c.id] == orig[i]@,
        keyed_map(orig.update(i, c), cell_key(), cell_val()) == keyed_map(orig, cell_key(), cell_val()).insert(
            c.id,
            c@,
        ),
{
    let now = orig.update(i, c);
    lemma_keyed_at(orig, cell_key(), cell_val(), i);
    lemma_keyed_update(orig, cell_key(), cell_val(), i, c);
    assert forall|k: int| 0 <= k < now.len() implies (#[trigger] now[k]).links@.no_duplicates() by {
        if k != i {
            assert(now[k] == orig[k]);
        }
    }
    let m0 = keyed_map(orig, cell_key(), cell_val());
    let m1 = keyed_map(now, cell_key(), cell_val());
    assert forall|t: Seq<char>, x: u64| indexed(m1, t, x) <==> indexed(m0, t, x) by {
        if x == c.id {
            assert(m1[x] == c@);
        }
    }
}

impl<R> FieldCore<R> {
    /// An empty field: no cells, no rules, ids from 1, an empty log.
    pub fn new() -> (f: FieldCore<R>)
        ensures
            f.wf(),
            f@.cells == Map::<u64, CellView>::empty(),
            f@.rules == Map::<u64, (Seq<char>, R)>::empty(),
            f@.next_id == 1,
            f@.next_reflex_id == 1,
            f@.now_ms == 0,
            f@.ticks_since_impulse == 0,
            f@.dream_reports == Seq::<(u64, DreamReport)>::empty(),
            f@.sync_reports == Seq::<(u64, SyncReport)>::empty(),
            f@.last_dream_ms == 0,
            f@.last_awaken_tick == 0,
            f@.sync_log.entries == Seq::<SyncEventView>::empty(),
            f@.sync_log.capacity == 48,
            f@.last_build is None,
            f@.last_applied is None,
    {
        let f = FieldCore {
            now_ms: 0,
            ticks_since_impulse: 0,
            cells: Vec::new(),
            index: Vec::new(),
            next_id: 1,
            rules: Vec::new(),
            next_reflex_id: 1,
            dream_reports: Vec::new(),
            sync_reports: Vec::new(),
            last_dream_ms: 0,
            last_awaken_tick: 0,
            sync_log: SyncLog::new(),
            last_build: None,
            last_applied: None,
        };
        assert(f@.cells =~= Map::<u64, CellView>::empty());
        assert(f@.rules =~= Map::<u64, (Seq<char>, R)>::empty());
        assert forall|t: Seq<char>, id: u64| !index_has(f.index@, t, id) && !indexed(f@.cells, t, id) by {}
        f
    }

    fn find_cell(&self, id: u64) -> (r: Option<usize>)
        requires
            cells_ok(self.cells@),
        ensures
            match r {
                Some(i) => i < self.cells@.len() && self.cells@[i as int].id == id && self@.cells.contains_key(id),
                None => !self@.cells.contains_key(id),
            },
    {
        let mut i: usize = 0;
        while i < self.cells.len()
            invariant
                cells_ok(self.cells@),
                i <= self.cells@.len(),
                forall|k: int| 0 <= k < i ==> #[trigger] self.cells@[k].id != id,
            decreases self.cells.len() - i,
        {
            if self.cells[i].id == id {
                proof {
                    lemma_keyed_at(self.cells@, cell_key(), cell_val(), i as int);
                }
                return Some(i);
            }
            i += 1;
        }
        assert(!holds_key(self.cells@, cell_key(), id));
        None
    }
}


/// The events that register each link of cell `from`, in order.
fn registrations_of(from: u64, links: &Vec<u64>) -> (ev: Vec<LinkEvent>)
    ensures
        ev@ == registrations(from, links@),
{
    let mut ev: Vec<LinkEvent> = Vec::new();
    let mut i: usize = 0;
    while i < links.len()
        invariant
            i <= links@.len(),
            ev@ == registrations(from, links@.take(i as int)),
        decreases links.len() - i,
    {
        ev.push(LinkEvent::Register { from, to: links[i] });
        assert(registrations(from, links@.take(i + 1)) =~= registrations(from, links@.take(i as int)).push(
            LinkEvent::Register { from, to: links@[i as int] },
        ));
        i += 1;
    }
    assert(links@.take(links@.len() as int) =~= links@);
    ev
}

/// A copy of a vector of ids.
fn copy_ids(v: &Vec<u64>) -> (r: Vec<u64>)
    ensures
        r@ == v@,
{
    let mut r: Vec<u64> = Vec::new();
    let mut k: usize = 0;
    while k < v.len()
        invariant
            k <= v@.len(),
            r@ == v@.take(k as int),
        decreases v.len() - k,
    {
        r.push(v[k]);
        assert(v@.take(k + 1) =~= v@.take(k as int).push(v@[k as int]));
        k += 1;
    }
    assert(v@.take(v@.len() as int) =~= v@);
    r
}

/// Keeps the last [`REPORT_RING`] entries after pushing `x`.
fn push_ring<A>(v: &mut Vec<A>, x: A)
    requires
        old(v)@.len() <= REPORT_RING,
    ensures
        final(v)@ == ring_push(old(v)@, x),
        final(v)@.len() <= REPORT_RING,
{
    let ghost pushed = old(v)@.push(x);
    v.push(x);
    if v.len() > REPORT_RING {
        v.remove(0);
        assert(v@ =~= pushed.skip(1));
    }
}

impl<R> FieldCore<R> {
    /// Puts cell `c` in place of the one with its id, or adds it, and lists
    /// it under its pattern's tokens; gives the registrations of its links.
    fn attach(&mut self, c: CellCore) -> (ev: Vec<LinkEvent>)
        requires
            old(self).wf(),
            c.links@.no_duplicates(),
        ensures
            final(self).wf(),
            final(self)@ == (FieldView { cells: old(self)@.cells.insert(c.id, c@), ..old(self)@ }),
            ev@ == registrations(c.id, c.links@),
    {
        let ev = registrations_of(c.id, &c.links);
        let id = c.id;
        let pattern = c.core_pattern.clone();
        let ghost cc = c;
        let ghost orig = self.cells@;
        let ghost ix0 = self.index@;
        let ghost m0 = keyed_map(orig, cell_key(), cell_val());
        match self.find_cell(id) {
            Some(i) => {
                self.cells.set(i, c);
                proof {
                    lemma_keyed_update(orig, cell_key(), cell_val(), i as int, cc);
                    assert forall|k: int| 0 <= k < self.cells@.len() implies (#[trigger] self.cells@[k]).links@.no_duplicates() by {
                        if k != i {
                            assert(self.cells@[k] == orig[k]);
                        }
                    }
                }
            },
            None => {
                self.cells.push(c);
                proof {
                    lemma_keyed_push(orig, cell_key(), cell_val(), cc);
                    assert forall|k: int| 0 <= k < self.cells@.len() implies (#[trigger] self.cells@[k]).links@.no_duplicates() by {
                        if k < orig.len() {
                            assert(self.cells@[k] == orig[k]);
                        }
                    }
                }
            },
        }
        index_drop(&mut self.index, id);
        index_add_tokens(&mut self.index, pattern.as_str(), id);
        proof {
            let m1 = keyed_map(self.cells@, cell_key(), cell_val());
            assert(m1 == m0.insert(id, cc@));
            assert forall|t: Seq<char>, x: u64| index_has(self.index@, t, x) <==> indexed(m1, t, x) by {
                assert(index_has(ix0, t, x) <==> indexed(m0, t, x));
                if x != id {
                    assert(indexed(m1, t, x) == indexed(m0, t, x));
                }
            }
        }
        ev
    }

    /// Lets `c` stand in for the cell at `i`: the same id and pattern,
    /// other state or links.
    fn replace_at(&mut self, i: usize, c: CellCore)
        requires
            old(self).wf(),
            i < old(self).cells@.len(),
            c.id == old(self).cells@[i as int].id,
            c.core_pattern@ == old(self).cells@[i as int].core_pattern@,
            c.links@.no_duplicates(),
        ensures
            final(self).wf(),
            final(self)@ == (FieldView { cells: old(self)@.cells.insert(c.id, c@), ..old(self)@ }),
    {
        let ghost orig = self.cells@;
        let ghost cc = c;
        self.cells.set(i, c);
        proof {
            lemma_cells_replaced(orig, self.index@, i as int, cc);
        }
    }

    /// A copy of the cell at `i`.
    fn cell_at(&self, i: usize) -> (c: CellCore)
        requires
            i < self.cells@.len(),
        ensures
            c.id == self.cells@[i as int].id,
            c.state == self.cells@[i as int].state,
            c.links@ == self.cells@[i as int].links@,
            c.last_response_ms == self.cells@[i as int].last_response_ms,
            c.core_pattern@ == self.cells@[i as int].core_pattern@,
            c.vitals == self.cells@[i as int].vitals,
    {
        let src = &self.cells[i];
        let links = copy_ids(&src.links);
        CellCore {
            id: src.id,
            state: src.state,
            links,
            last_response_ms: src.last_response_ms,
            core_pattern: src.core_pattern.clone(),
            vitals: src.vitals,
        }
    }

    /// Links `from` to `to` when `from` exists; says whether the link is new.
    fn link(&mut self, from: u64, to: u64) -> (added: bool)
        requires
            old(self).wf(),
        ensures
            final(self).wf(),
            final(self)@ == (FieldView { cells: with_link(old(self)@.cells, from, to), ..old(self)@ }),
            added == newly_linked(old(self)@.cells, from, to),
    {
        match self.find_cell(from) {
            Some(i) => {
                let ghost old_view = self@;
                proof {
                    lemma_keyed_at(self.cells@, cell_key(), cell_val(), i as int);
                }
                let mut c = self.cell_at(i);
                let added = insert_id(&mut c.links, to);
                self.replace_at(i, c);
                assert(self@.cells =~= with_link(old_view.cells, from, to));
                added
            },
            None => false,
        }
    }

    /// Unlinks `from` from `to` when `from` exists; says whether the link
    /// was there.
    fn unlink(&mut self, from: u64, to: u64) -> (removed: bool)
        requires
            old(self).wf(),
        ensures
            final(self).wf(),
            final(self)@ == (FieldView { cells: without_link(old(self)@.cells, from, to), ..old(self)@ }),
            removed == linked(old(self)@.cells, from, to),
    {
        match self.find_cell(from) {
            Some(i) => {
                let ghost old_view = self@;
                proof {
                    lemma_keyed_at(self.cells@, cell_key(), cell_val(), i as int);
                }
                let mut c = self.cell_at(i);
                let removed = remove_id(&mut c.links, to);
                self.replace_at(i, c);
                assert(self@.cells =~= without_link(old_view.cells, from, to));
                removed
            },
            None => false,
        }
    }
}


/// Pushing keeps what a sequence holds, and adds the new item.
proof fn lemma_push_contains(s: Seq<LinkEvent>, x: LinkEvent)
    ensures
        s.push(x).contains(x),
        forall|y: LinkEvent| s.contains(y) ==> #[trigger] s.push(x).contains(y),
{
    assert(s.push(x)[s.len() as int] == x);
    assert forall|y: LinkEvent| s.contains(y) implies #[trigger] s.push(x).contains(y) by {
        let k = choose|k: int| 0 <= k < s.len() && s[k] == y;
        assert(s.push(x)[k] == y);
    }
}

impl<R> FieldCore<R> {
    /// The registrations of every link of every cell.
    fn all_registrations(&self) -> (ev: Vec<LinkEvent>)
        requires
            cells_ok(self.cells@),
        ensures
            registers_all(self@.cells, ev@),
    {
        let ghost cs = self.cells@;
        let mut ev: Vec<LinkEvent> = Vec::new();
        let mut i: usize = 0;
        while i < self.cells.len()
            invariant
                cs == self.cells@,
                cells_ok(cs),
                i <= cs.len(),
                forall|k: int|
                    0 <= k < ev@.len() ==> (#[trigger] ev@[k] matches LinkEvent::Register { from, to } && exists|
                        p: int,
                    | #![trigger cs[p]] 0 <= p < i && cs[p].id == from && cs[p].links@.contains(to)),
                forall|p: int, q: int|
                    0 <= p < i && 0 <= q < cs[p].links@.len() ==> ev@.contains(
                        LinkEvent::Register { from: cs[p].id, to: #[trigger] cs[p].links@[q] },
                    ),
            decreases self.cells.len() - i,
        {
            let c = &self.cells[i];
            let mut j: usize = 0;
            while j < c.links.len()
                invariant
                    cs == self.cells@,
                    c == cs[i as int],
                    i < cs.len(),
                    j <= c.links@.len(),
                    forall|k: int|
                        0 <= k < ev@.len() ==> (#[trigger] ev@[k] matches LinkEvent::Register { from, to } && exists|
                            p: int,
                        | #![trigger cs[p]] 0 <= p <= i && cs[p].id == from && cs[p].links@.contains(to)),
                    forall|p: int, q: int|
                        0 <= p < i && 0 <= q < cs[p].links@.len() ==> ev@.contains(
                            LinkEvent::Register { from: cs[p].id, to: #[trigger] cs[p].links@[q] },
                        ),
                    forall|q: int|
                        0 <= q < j ==> ev@.contains(LinkEvent::Register { from: cs[i as int].id, to: #[trigger] cs[i as int].links@[q] }),
                decreases c.links.len() - j,
            {
                let e = LinkEvent::Register { from: c.id, to: c.links[j] };
                let ghost before = ev@;
                ev.push(e);
                proof {
                    lemma_push_contains(before, e);
                    assert(cs[i as int].links@.contains(c.links@[j as int]));
                    assert forall|k: int| 0 <= k < ev@.len() implies (#[trigger] ev@[k] matches LinkEvent::Register { from, to } && exists|
                        p: int,
                    | #![trigger cs[p]] 0 <= p <= i && cs[p].id == from && cs[p].links@.contains(to)) by {
                        if k < before.len() {
                            assert(ev@[k] == before[k]);
                        } else {
                            assert(ev@[k] == e);
                            assert(cs[i as int].id == c.id);
                        }
                    }
                }
                j += 1;
            }
            i += 1;
        }
        proof {
            let m = keyed_map(cs, cell_key(), cell_val());
            assert forall|k: int| 0 <= k < ev@.len() implies (#[trigger] ev@[k] matches LinkEvent::Register { from, to } && linked(
                m,
                from,
                to,
            )) by {
                if let LinkEvent::Register { from, to } = ev@[k] {
                    let p = choose|p: int| #![trigger cs[p]] 0 <= p < cs.len() && cs[p].id == from && cs[p].links@.contains(to);
                    lemma_keyed_at(cs, cell_key(), cell_val(), p);
                    assert(m[from].links.contains(to));
                }
            }
            assert forall|from: u64, to: u64| #[trigger] linked(m, from, to) implies ev@.contains(LinkEvent::Register { from, to }) by {
                let p = crate::keyed::key_position(cs, cell_key(), from);
                lemma_keyed_at(cs, cell_key(), cell_val(), p);
                assert(cs[p].links@.to_set().contains(to));
                let q = choose|q: int| 0 <= q < cs[p].links@.len() && cs[p].links@[q] == to;
                assert(ev@.contains(LinkEvent::Register { from: cs[p].id, to: cs[p].links@[q] }));
            }
        }
        ev
    }

    /// Removes cell `id` and takes it out of the index; gives the
    /// re-registration of every remaining link, then the purge of `id`.
    fn kill(&mut self, id: u64) -> (ev: Vec<LinkEvent>)
        requires
            old(self).wf(),
        ensures
            final(self).wf(),
            final(self)@ == (FieldView { cells: old(self)@.cells.remove(id), ..old(self)@ }),
            ev@.len() >= 1,
            ev@.last() == (LinkEvent::Purge { id }),
            registers_all(old(self)@.cells.remove(id), ev@.drop_last()),
    {
        let ghost orig = self.cells@;
        let ghost ix0 = self.index@;
        let ghost m0 = keyed_map(orig, cell_key(), cell_val());
        match self.find_cell(id) {
            Some(i) => {
                self.cells.remove(i);
                proof {
                    lemma_keyed_at(orig, cell_key(), cell_val(), i as int);
                    lemma_keyed_remove(orig, cell_key(), cell_val(), i as int);
                    assert forall|k: int| 0 <= k < self.cells@.len() implies (#[trigger] self.cells@[k]).links@.no_duplicates() by {
                        let ok = if k < i { k } else { k + 1 };
                        assert(self.cells@[k] == orig[ok]);
                    }
                }
            },
            None => {
                assert(m0.remove(id) =~= m0);
            },
        }
        index_drop(&mut self.index, id);
        proof {
            let m1 = keyed_map(self.cells@, cell_key(), cell_val());
            assert(m1 == m0.remove(id));
            assert forall|t: Seq<char>, x: u64| index_has(self.index@, t, x) <==> indexed(m1, t, x) by {
                assert(index_has(ix0, t, x) <==> indexed(m0, t, x));
            }
        }
        let mut ev = self.all_registrations();
        let ghost regs = ev@;
        ev.push(LinkEvent::Purge { id });
        assert(ev@.drop_last() =~= regs);
        ev
    }

    /// Puts cell `id`, when it exists, in state `st`.
    fn set_cell_state(&mut self, id: u64, st: NodeState)
        requires
            old(self).wf(),
        ensures
            final(self).wf(),
            final(self)@ == (FieldView { cells: with_state(old(self)@.cells, id, st), ..old(self)@ }),
    {
        if let Some(i) = self.find_cell(id) {
            let ghost old_view = self@;
            proof {
                lemma_keyed_at(self.cells@, cell_key(), cell_val(), i as int);
            }
            let mut c = self.cell_at(i);
            c.state = st;
            self.replace_at(i, c);
            assert(self@.cells =~= with_state(old_view.cells, id, st));
        }
    }

    /// Gives cell `id`, when it exists, affinity `a`, and its seed too.
    fn set_cell_affinity(&mut self, id: u64, a: u32)
        requires
            old(self).wf(),
        ensures
            final(self).wf(),
            final(self)@ == (FieldView { cells: with_affinity(old(self)@.cells, id, a), ..old(self)@ }),
    {
        if let Some(i) = self.find_cell(id) {
            let ghost old_view = self@;
            proof {
                lemma_keyed_at(self.cells@, cell_key(), cell_val(), i as int);
            }
            let mut c = self.cell_at(i);
            c.vitals = Vitals { affinity: a, seed_affinity: a, ..c.vitals };
            self.replace_at(i, c);
            assert(self@.cells =~= with_affinity(old_view.cells, id, a));
        }
    }

    /// Gives cell `id`, when it exists, the energy, metabolism, state and
    /// response time of an energy delta.
    fn set_cell_energy(&mut self, id: u64, energy: u32, metabolism: u32, st: NodeState, last_response_ms: u64)
        requires
            old(self).wf(),
        ensures
            final(self).wf(),
            final(self)@ == (FieldView {
                cells: with_energy(old(self)@.cells, id, energy, metabolism, st, last_response_ms),
                ..old(self)@
            }),
    {
        if let Some(i) = self.find_cell(id) {
            let ghost old_view = self@;
            proof {
                lemma_keyed_at(self.cells@, cell_key(), cell_val(), i as int);
            }
            let mut c = self.cell_at(i);
            c.state = st;
            c.last_response_ms = last_response_ms;
            c.vitals = Vitals { energy, metabolism, ..c.vitals };
            self.replace_at(i, c);
            assert(self@.cells =~= with_energy(old_view.cells, id, energy, metabolism, st, last_response_ms));
        }
    }

    fn find_rule(&self, id: u64) -> (r: Option<usize>)
        requires
            distinct_keys(self.rules@, rule_key()),
        ensures
            match r {
                Some(i) => i < self.rules@.len() && self.rules@[i as int].id == id,
                None => !holds_key(self.rules@, rule_key(), id),
            },
    {
        let mut i: usize = 0;
        while i < self.rules.len()
            invariant
                i <= self.rules@.len(),
                forall|k: int| 0 <= k < i ==> #[trigger] self.rules@[k].id != id,
            decreases self.rules.len() - i,
        {
            if self.rules[i].id == id {
                return Some(i);
            }
            i += 1;
        }
        None
    }

    /// Adds rule `r`, its token lowercased, in place of any with its id.
    fn add_rule(&mut self, r: RuleCore<R>)
        requires
            old(self).wf(),
            r.id < u64::MAX,
        ensures
            final(self).wf(),
            final(self)@ == (FieldView {
                rules: old(self)@.rules.insert(r.id, (crate::field::str_lower(r.token@), r.body)),
                next_reflex_id: bump(old(self)@.next_reflex_id, r.id),
                ..old(self)@
            }),
    {
        let RuleCore { id, token, body } = r;
        let lowered = to_lowercase(token.as_str());
        let rule = RuleCore { id, token: lowered, body };
        let ghost rr = rule;
        let ghost orig = self.rules@;
        if self.next_reflex_id <= id {
            self.next_reflex_id = id + 1;
        }
        match self.find_rule(id) {
            Some(i) => {
                self.rules.set(i, rule);
                proof {
                    lemma_keyed_update(orig, rule_key(), rule_val(), i as int, rr);
                }
            },
            None => {
                self.rules.push(rule);
                proof {
                    lemma_keyed_push(orig, rule_key(), rule_val(), rr);
                }
            },
        }
    }

    /// Removes rule `id`, if there is one.
    fn remove_rule(&mut self, id: u64)
        requires
            old(self).wf(),
        ensures
            final(self).wf(),
            final(self)@ == (FieldView { rules: old(self)@.rules.remove(id), ..old(self)@ }),
    {
        let ghost orig = self.rules@;
        match self.find_rule(id) {
            Some(i) => {
                self.rules.remove(i);
                proof {
                    lemma_keyed_remove(orig, rule_key(), rule_val(), i as int);
                }
            },
            None => {
                assert(keyed_map(orig, rule_key(), rule_val()).remove(id) =~= keyed_map(orig, rule_key(), rule_val()));
            },
        }
    }
}


impl<R> FieldCore<R> {
    /// Applies one journal delta: the cell, link, rule, report, model and
    /// log changes it records. Gives back the link tracking it asks of the
    /// caller and, for a tuning delta, the tuning itself.
    pub fn apply_delta<T>(&mut self, delta: FieldDelta<R, T>) -> (out: Replayed<T>)
        requires
            old(self).wf(),
            delta_ok(delta),
        ensures
            final(self).wf(),
            final(self)@ == spec_apply_delta(old(self)@, delta),
            link_events_ok(old(self)@, delta, out.links@),
            out.tuning == spec_tuning(delta),
    {
        let ghost s0 = self@;
        match delta {
            FieldDelta::Tick { now_ms } => {
                self.now_ms = now_ms;
                self.ticks_since_impulse = 0;
                Replayed { links: Vec::new(), tuning: None }
            },
            FieldDelta::Spawn(c) => {
                let id = c.id;
                let ev = self.attach(c);
                if self.next_id <= id {
                    self.next_id = id + 1;
                }
                Replayed { links: ev, tuning: None }
            },
            FieldDelta::Divide { parent, child } => {
                let child_id = child.id;
                let added = self.link(parent, child_id);
                let mut ev: Vec<LinkEvent> = Vec::new();
                if added {
                    ev.push(LinkEvent::Register { from: parent, to: child_id });
                }
                let mut rest = self.attach(child);
                let ghost first = ev@;
                let ghost second = rest@;
                ev.append(&mut rest);
                assert(ev@ == first + second);
                if self.next_id <= child_id {
                    self.next_id = child_id + 1;
                }
                Replayed { links: ev, tuning: None }
            },
            FieldDelta::Sleep { id } => {
                self.set_cell_state(id, NodeState::Sleep);
                Replayed { links: Vec::new(), tuning: None }
            },
            FieldDelta::Dead { id } => {
                let ev = self.kill(id);
                Replayed { links: ev, tuning: None }
            },
            FieldDelta::Link { from, to } => {
                let mut ev: Vec<LinkEvent> = Vec::new();
                if self.link(from, to) {
                    ev.push(LinkEvent::Register { from, to });
                }
                Replayed { links: ev, tuning: None }
            },
            FieldDelta::Unlink { from, to } => {
                let mut ev: Vec<LinkEvent> = Vec::new();
                if self.unlink(from, to) {
                    ev.push(LinkEvent::Unregister { from, to });
                }
                Replayed { links: ev, tuning: None }
            },
            FieldDelta::Affinity { id, affinity } => {
                self.set_cell_affinity(id, affinity);
                Replayed { links: Vec::new(), tuning: None }
            },
            FieldDelta::Energy { id, energy, metabolism, state, last_response_ms } => {
                self.set_cell_energy(id, energy, metabolism, state, last_response_ms);
                Replayed { links: Vec::new(), tuning: None }
            },
            FieldDelta::ReflexAdd(r) => {
                self.add_rule(r);
                Replayed { links: Vec::new(), tuning: None }
            },
            FieldDelta::ReflexRemove { id } => {
                self.remove_rule(id);
                Replayed { links: Vec::new(), tuning: None }
            },
            FieldDelta::ReflexFire(_) => Replayed { links: Vec::new(), tuning: None },
            FieldDelta::DreamPrune { from, to } => {
                self.unlink(from, to);
                let mut ev: Vec<LinkEvent> = Vec::new();
                ev.push(LinkEvent::Unregister { from, to });
                Replayed { links: ev, tuning: None }
            },
            FieldDelta::DreamRewire { from, to } => {
                let mut ev: Vec<LinkEvent> = Vec::new();
                if self.link(from, to) {
                    ev.push(LinkEvent::Register { from, to });
                }
                Replayed { links: ev, tuning: None }
            },
            FieldDelta::DreamReport { now_ms, report } => {
                push_ring(&mut self.dream_reports, (now_ms, report));
                self.last_dream_ms = now_ms;
                Replayed { links: Vec::new(), tuning: None }
            },
            FieldDelta::CollectiveDreamReport { now_ms, report } => {
                push_ring(&mut self.sync_reports, (now_ms, report));
                Replayed { links: Vec::new(), tuning: None }
            },
            FieldDelta::ModelBuild { hash, cell_count, now_ms } => {
                self.last_build = Some(ModelFrame { hash: hash.clone(), cell_count, created_ms: now_ms });
                self.sync_log.record_build(hash, now_ms, cell_count);
                Replayed { links: Vec::new(), tuning: None }
            },
            FieldDelta::AwakenApply { config, hash, now_ms, cell_count } => {
                match hash {
                    Some(h) => {
                        self.last_applied = Some(h.clone());
                        self.sync_log.record_apply(Some(h), now_ms, cell_count);
                    },
                    None => {
                        self.last_applied = None;
                    },
                }
                Replayed { links: Vec::new(), tuning: Some(config) }
            },
            FieldDelta::AwakenTick { now_ms, hash } => {
                self.last_awaken_tick = now_ms;
                self.sync_log.record_tick(now_ms);
                if let Some(h) = hash {
                    if self.last_applied.is_none() {
                        self.last_applied = Some(h);
                    }
                }
                Replayed { links: Vec::new(), tuning: None }
            },
            FieldDelta::Tuning(t) => Replayed { links: Vec::new(), tuning: Some(t) },
        }
    }
}


/// The state after a journal of deltas, applied in order.
pub open spec fn spec_replay<R, T>(s: FieldView<R>, ds: Seq<FieldDelta<R, T>>) -> FieldView<R>
    decreases ds.len(),
{
    if ds.len() == 0 {
        s
    } else {
        spec_apply_delta(spec_replay(s, ds.drop_last()), ds.last())
    }
}

/// Every delta of a journal can be replayed.
pub open spec fn journal_ok<R, T>(ds: Seq<FieldDelta<R, T>>) -> bool {
    forall|i: int| 0 <= i < ds.len() ==> delta_ok(#[trigger] ds[i])
}

/// Replaying a journal in two parts, the second from the state the first
/// left, gives the state that replaying it whole gives: a snapshot taken
/// after the first part and the rest of the journal restore the field.
pub proof fn lemma_replay_in_parts<R, T>(s: FieldView<R>, a: Seq<FieldDelta<R, T>>, b: Seq<FieldDelta<R, T>>)
    ensures
        spec_replay(s, a + b) == spec_replay(spec_replay(s, a), b),
    decreases b.len(),
{
    if b.len() == 0 {
        assert(a + b =~= a);
    } else {
        lemma_replay_in_parts(s, a, b.drop_last());
        assert((a + b).drop_last() =~= a + b.drop_last());
        assert((a + b).last() == b.last());
    }
}

/// A cell that is spawned and then dies leaves the cells as they were
/// without it.
pub proof fn lemma_spawn_then_dead<R, T>(s: FieldView<R>, c: CellCore)
    ensures
        spec_replay(s, seq![FieldDelta::<R, T>::Spawn(c), FieldDelta::<R, T>::Dead { id: c.id }]).cells
            == s.cells.remove(c.id),
{
    let ds = seq![FieldDelta::<R, T>::Spawn(c), FieldDelta::<R, T>::Dead { id: c.id }];
    reveal_with_fuel(spec_replay, 3);
    assert(ds.drop_last() =~= seq![FieldDelta::<R, T>::Spawn(c)]);
    assert(ds.drop_last().drop_last() =~= Seq::<FieldDelta<R, T>>::empty());
    assert(s.cells.insert(c.id, c@).remove(c.id) =~= s.cells.remove(c.id));
}

/// Linking two cells that were not linked and then unlinking them leaves
/// the cells as they were.
pub proof fn lemma_link_then_unlink<R, T>(s: FieldView<R>, from: u64, to: u64)
    requires
        !linked(s.cells, from, to),
    ensures
        spec_replay(s, seq![FieldDelta::<R, T>::Link { from, to }, FieldDelta::<R, T>::Unlink { from, to }]).cells
            == s.cells,
{
    let ds = seq![FieldDelta::<R, T>::Link { from, to }, FieldDelta::<R, T>::Unlink { from, to }];
    reveal_with_fuel(spec_replay, 3);
    assert(ds.drop_last() =~= seq![FieldDelta::<R, T>::Link { from, to }]);
    assert(ds.drop_last().drop_last() =~= Seq::<FieldDelta<R, T>>::empty());
    if s.cells.contains_key(from) {
        let c = s.cells[from];
        assert(c.links.insert(to).remove(to) =~= c.links);
        assert(without_link(with_link(s.cells, from, to), from, to) =~= s.cells);
    }
}

impl<R> FieldCore<R> {
    /// Replays a journal: applies its deltas in order, and gives what each
    /// asked of the caller.
    pub fn replay<T>(&mut self, deltas: Vec<FieldDelta<R, T>>) -> (out: Vec<Replayed<T>>)
        requires
            old(self).wf(),
            journal_ok(deltas@),
        ensures
            final(self).wf(),
            final(self)@ == spec_replay(old(self)@, deltas@),
            out@.len() == deltas@.len(),
    {
        let ghost s0 = self@;
        let ghost all = deltas@;
        assert(all.len() == deltas.len());
        let mut rest = deltas;
        let mut out: Vec<Replayed<T>> = Vec::new();
        let mut i: usize = 0;
        while rest.len() > 0
            invariant
                self.wf(),
                journal_ok(all),
                i <= all.len(),
                all.len() == i + rest@.len(),
                all.len() <= usize::MAX,
                rest@ == all.skip(i as int),
                out@.len() == i,
                self@ == spec_replay(s0, all.take(i as int)),
            decreases rest.len(),
        {
            let d = rest.remove(0);
            assert(d == all[i as int]);
            let r = self.apply_delta(d);
            out.push(r);
            assert(all.take(i + 1).drop_last() =~= all.take(i as int));
            assert(all.take(i + 1).last() == all[i as int]);
            i += 1;
            assert(rest@ =~= all.skip(i as int));
        }
        assert(all.take(all.len() as int) =~= all);
        out
    }
}


impl<R> FieldCore<R> {
    /// The cells listed under `token` in the index.
    pub fn lookup_token(&self, token: &str) -> (ids: Vec<u64>)
        requires
            self.wf(),
        ensures
            forall|id: u64| ids@.contains(id) <==> indexed(self@.cells, token@, id),
    {
        let mut ids: Vec<u64> = Vec::new();
        let mut i: usize = 0;
        while i < self.index.len()
            invariant
                i <= self.index@.len(),
                forall|id: u64| ids@.contains(id) <==> exists|k: int| #![trigger self.index@[k]] 0 <= k < i
                    && self.index@[k].0@ == token@ && self.index@[k].1@.contains(id),
            decreases self.index.len() - i,
        {
            if str_eq(self.index[i].0.as_str(), token) {
                let ghost base = ids@;
                let mut more = copy_ids(&self.index[i].1);
                ids.append(&mut more);
                let ghost list = self.index@[i as int].1@;
                assert(ids@ == base + list);
                assert forall|id: u64| ids@.contains(id) <==> exists|k: int| #![trigger self.index@[k]] 0 <= k < i + 1
                    && self.index@[k].0@ == token@ && self.index@[k].1@.contains(id) by {
                    if ids@.contains(id) {
                        let p = choose|p: int| 0 <= p < ids@.len() && ids@[p] == id;
                        if p < base.len() {
                            assert(base[p] == id);
                            assert(base.contains(id));
                        } else {
                            assert(list[p - base.len()] == id);
                            assert(list.contains(id));
                        }
                    }
                    if exists|k: int| #![trigger self.index@[k]] 0 <= k < i + 1 && self.index@[k].0@ == token@
                        && self.index@[k].1@.contains(id) {
                        let k = choose|k: int| #![trigger self.index@[k]] 0 <= k < i + 1 && self.index@[k].0@ == token@
                            && self.index@[k].1@.contains(id);
                        if k == i {
                            let q = choose|q: int| 0 <= q < list.len() && list[q] == id;
                            assert(ids@[base.len() + q] == id);
                        } else {
                            assert(base.contains(id));
                            let p = choose|p: int| 0 <= p < base.len() && base[p] == id;
                            assert(ids@[p] == id);
                        }
                    }
                }
            }
            i += 1;
        }
        assert forall|id: u64| ids@.contains(id) <==> indexed(self@.cells, token@, id) by {
            assert(index_has(self.index@, token@, id) <==> indexed(self@.cells, token@, id));
        }
        ids
    }

    /// A copy of cell `id`, if it exists.
    pub fn cell(&self, id: u64) -> (c: Option<CellCore>)
        requires
            self.wf(),
        ensures
            match c {
                Some(c) => self@.cells.contains_key(id) && c.id == id && c@ == self@.cells[id],
                None => !self@.cells.contains_key(id),
            },
    {
        match self.find_cell(id) {
            Some(i) => {
                proof {
                    lemma_keyed_at(self.cells@, cell_key(), cell_val(), i as int);
                }
                let c = self.cell_at(i);
                assert(c@ =~= self.cells@[i as int]@);
                Some(c)
            },
            None => None,
        }
    }

    /// Whether cell `from` exists and links to `to`.
    pub fn has_link(&self, from: u64, to: u64) -> (b: bool)
        requires
            self.wf(),
        ensures
            b == linked(self@.cells, from, to),
    {
        match self.find_cell(from) {
            Some(i) => {
                proof {
                    lemma_keyed_at(self.cells@, cell_key(), cell_val(), i as int);
                }
                let links = &self.cells[i].links;
                let mut k: usize = 0;
                while k < links.len()
                    invariant
                        i < self.cells@.len(),
                        links == self.cells@[i as int].links,
                        self@.cells.contains_key(from),
                        self@.cells[from] == self.cells@[i as int]@,
                        k <= links@.len(),
                        forall|q: int| 0 <= q < k ==> links@[q] != to,
                    decreases links.len() - k,
                {
                    if links[k] == to {
                        assert(links@.to_set().contains(to)) by {
                            assert(links@[k as int] == to);
                        }
                        return true;
                    }
                    k += 1;
                }
                assert(!links@.to_set().contains(to));
                false
            },
            None => false,
        }
    }

    /// The token that rule `id` watches, if there is such a rule.
    pub fn rule_token(&self, id: u64) -> (t: Option<String>)
        requires
            self.wf(),
        ensures
            match t {
                Some(t) => self@.rules.contains_key(id) && t@ == self@.rules[id].0,
                None => !self@.rules.contains_key(id),
            },
    {
        match self.find_rule(id) {
            Some(i) => {
                proof {
                    lemma_keyed_at(self.rules@, rule_key(), rule_val(), i as int);
                }
                Some(self.rules[i].token.clone())
            },
            None => None,
        }
    }

    pub fn now_ms(&self) -> (t: u64)
        ensures
            t == self@.now_ms,
    {
        self.now_ms
    }

    pub fn next_id(&self) -> (n: u64)
        ensures
            n == self@.next_id,
    {
        self.next_id
    }

    pub fn next_reflex_id(&self) -> (n: u64)
        ensures
            n == self@.next_reflex_id,
    {
        self.next_reflex_id
    }

    pub fn last_dream_ms(&self) -> (t: u64)
        ensures
            t == self@.last_dream_ms,
    {
        self.last_dream_ms
    }

    pub fn last_awaken_tick(&self) -> (t: u64)
        ensures
            t == self@.last_awaken_tick,
    {
        self.last_awaken_tick
    }

    /// The dream reports kept, oldest first.
    pub fn dream_reports(&self) -> (r: &Vec<(u64, DreamReport)>)
        ensures
            r@ == self@.dream_reports,
    {
        &self.dream_reports
    }

    /// The collective reports kept, oldest first.
    pub fn sync_reports(&self) -> (r: &Vec<(u64, SyncReport)>)
        ensures
            r@ == self@.sync_reports,
    {
        &self.sync_reports
    }

    pub fn sync_log(&self) -> (l: &SyncLog)
        ensures
            l@ == self@.sync_log,
    {
        &self.sync_log
    }

    /// The hash of the model last applied, if any.
    pub fn last_applied(&self) -> (h: Option<String>)
        ensures
            opt_text(h) == self@.last_applied,
    {
        match &self.last_applied {
            Some(h) => Some(h.clone()),
            None => None,
        }
    }
}


/// A journal that a field recorded: each delta, replayed on the state
/// before it, gives the state after it.
pub open spec fn recorded<R, T>(states: Seq<FieldView<R>>, ds: Seq<FieldDelta<R, T>>) -> bool {
    &&& states.len() == ds.len() + 1
    &&& forall|i: int| 0 <= i < ds.len() ==> spec_apply_delta(states[i], #[trigger] ds[i]) == states[i + 1]
}

/// Replaying the deltas a field recorded, from the state it started in,
/// gives the state it ended in.
pub proof fn lemma_replay_recorded<R, T>(states: Seq<FieldView<R>>, ds: Seq<FieldDelta<R, T>>)
    requires
        recorded(states, ds),
    ensures
        spec_replay(states[0], ds) == states.last(),
    decreases ds.len(),
{
    if ds.len() > 0 {
        let n = ds.len() - 1;
        assert(recorded(states.drop_last(), ds.drop_last())) by {
            assert forall|i: int| 0 <= i < ds.drop_last().len() implies spec_apply_delta(
                states.drop_last()[i],
                #[trigger] ds.drop_last()[i],
            ) == states.drop_last()[i + 1] by {
                assert(ds.drop_last()[i] == ds[i]);
            }
        }
        lemma_replay_recorded(states.drop_last(), ds.drop_last());
        assert(spec_apply_delta(states[n], ds[n]) == states[n + 1]);
    }
}

/// `d` journals a model with hash `hash` over `n` cells built at `now`.
pub open spec fn is_model_build<R, T>(d: FieldDelta<R, T>, hash: Seq<char>, n: u32, now: u64) -> bool {
    d matches FieldDelta::ModelBuild { hash: h, cell_count: c, now_ms } && h@ == hash && c == n && now_ms == now
}

/// How many cells a model step counts: all of them, at most `u32::MAX`.
pub open spec fn counted_cells<R>(s: FieldView<R>) -> u32 {
    if s.cells.dom().len() < u32::MAX {
        s.cells.dom().len() as u32
    } else {
        u32::MAX
    }
}

/// `d` journals applying the last built model of `s` with settings `config`.
pub open spec fn is_awaken_apply<R, T>(d: FieldDelta<R, T>, config: T, s: FieldView<R>) -> bool {
    d matches FieldDelta::AwakenApply { config: c, hash, now_ms, cell_count } && c == config && opt_text(hash) == (
    match s.last_build {
        Some(b) => Some(b.0),
        None => None,
    }) && now_ms == s.now_ms && cell_count == counted_cells(s)
}

/// `d` journals an awakening tick of `s`.
pub open spec fn is_awaken_tick<R, T>(d: FieldDelta<R, T>, s: FieldView<R>) -> bool {
    d matches FieldDelta::AwakenTick { now_ms, hash } && now_ms == s.now_ms && opt_text(hash) == s.last_applied
}

impl<R> FieldCore<R> {
    /// Records a built resonant model with hash `hash` over `cell_count`
    /// cells at the field's time; gives the delta that journals it.
    pub fn record_model_build<T>(&mut self, hash: String, cell_count: u32) -> (d: FieldDelta<R, T>)
        requires
            old(self).wf(),
        ensures
            final(self).wf(),
            is_model_build(d, hash@, cell_count, old(self)@.now_ms),
            delta_ok(d),
            spec_apply_delta(old(self)@, d) == final(self)@,
    {
        let now = self.now_ms;
        self.last_build = Some(ModelFrame { hash: hash.clone(), cell_count, created_ms: now });
        self.sync_log.record_build(hash.clone(), now, cell_count);
        FieldDelta::ModelBuild { hash, cell_count, now_ms: now }
    }

    /// Applies the last built model, if any: the log records it and it
    /// becomes the applied one; gives the delta that journals it, with the
    /// awakening settings `config`.
    pub fn apply_awakening_model<T>(&mut self, config: T) -> (d: FieldDelta<R, T>)
        requires
            old(self).wf(),
        ensures
            final(self).wf(),
            is_awaken_apply(d, config, old(self)@),
            delta_ok(d),
            spec_apply_delta(old(self)@, d) == final(self)@,
    {
        let hash: Option<String> = match &self.last_build {
            Some(frame) => Some(frame.hash.clone()),
            None => None,
        };
        let n = self.cells.len();
        let cell_count: u32 = if n < 4294967295usize {
            n as u32
        } else {
            4294967295u32
        };
        proof {
            lemma_cells_count(self.cells@);
        }
        match &hash {
            Some(h) => {
                self.sync_log.record_apply(Some(h.clone()), self.now_ms, cell_count);
                self.last_applied = Some(h.clone());
            },
            None => {
                self.last_applied = None;
            },
        }
        FieldDelta::AwakenApply { config, hash, now_ms: self.now_ms, cell_count }
    }

    /// One awakening tick at the field's time: the log records it; gives
    /// the delta that journals it, with the applied model's hash.
    pub fn awaken_tick<T>(&mut self) -> (d: FieldDelta<R, T>)
        requires
            old(self).wf(),
        ensures
            final(self).wf(),
            is_awaken_tick(d, old(self)@),
            delta_ok(d),
            spec_apply_delta(old(self)@, d) == final(self)@,
    {
        let now = self.now_ms;
        self.last_awaken_tick = now;
        self.sync_log.record_tick(now);
        let hash = self.last_applied();
        FieldDelta::AwakenTick { now_ms: now, hash }
    }

    /// Removes rule `id`; when there was one, gives the delta that journals
    /// it.
    pub fn remove_reflex<T>(&mut self, id: u64) -> (d: Option<FieldDelta<R, T>>)
        requires
            old(self).wf(),
        ensures
            final(self).wf(),
            final(self)@ == (FieldView { rules: old(self)@.rules.remove(id), ..old(self)@ }),
            d is Some <==> old(self)@.rules.contains_key(id),
            (d matches Some(x) ==> (x == FieldDelta::<R, T>::ReflexRemove { id } && spec_apply_delta(old(self)@, x)
                == final(self)@)),
    {
        let ghost m0 = self@.rules;
        let present = self.find_rule(id).is_some();
        proof {
            if present {
                let i = choose|i: int| 0 <= i < self.rules@.len() && self.rules@[i].id == id;
                lemma_keyed_at(self.rules@, rule_key(), rule_val(), i);
            }
        }
        self.remove_rule(id);
        if present {
            Some(FieldDelta::ReflexRemove { id })
        } else {
            None
        }
    }

    /// Unlinks `from` from `to`; when the link was there, gives the delta
    /// that journals it (the caller stops tracking the link).
    pub fn prune_link<T>(&mut self, from: u64, to: u64) -> (d: Option<FieldDelta<R, T>>)
        requires
            old(self).wf(),
        ensures
            final(self).wf(),
            final(self)@ == (FieldView { cells: without_link(old(self)@.cells, from, to), ..old(self)@ }),
            d is Some <==> linked(old(self)@.cells, from, to),
            (d matches Some(x) ==> (x == FieldDelta::<R, T>::Unlink { from, to } && spec_apply_delta(old(self)@, x)
                == final(self)@)),
    {
        if self.unlink(from, to) {
            Some(FieldDelta::Unlink { from, to })
        } else {
            None
        }
    }

    /// Keeps a collective report in its ring; gives the delta that journals
    /// it.
    pub fn record_sync_report<T>(&mut self, now_ms: u64, report: SyncReport) -> (d: FieldDelta<R, T>)
        requires
            old(self).wf(),
        ensures
            final(self).wf(),
            final(self)@ == (FieldView { sync_reports: ring_push(old(self)@.sync_reports, (now_ms, report)), ..old(self)@ }),
            d == (FieldDelta::<R, T>::CollectiveDreamReport { now_ms, report }),
            spec_apply_delta(old(self)@, d) == final(self)@,
    {
        push_ring(&mut self.sync_reports, (now_ms, report));
        FieldDelta::CollectiveDreamReport { now_ms, report }
    }
}

/// With distinct ids, there are as many cells as ids.
proof fn lemma_cells_count(cells: Seq<CellCore>)
    requires
        distinct_keys(cells, cell_key()),
    ensures
        keyed_map(cells, cell_key(), cell_val()).dom().len() == cells.len(),
        keyed_map(cells, cell_key(), cell_val()).dom().finite(),
    decreases cells.len(),
{
    let m = keyed_map(cells, cell_key(), cell_val());
    if cells.len() == 0 {
        assert(m.dom() =~= Set::<u64>::empty());
    } else {
        let init = cells.drop_last();
        let last = cells.last();
        assert(distinct_keys(init, cell_key())) by {
            assert forall|i: int, j: int|
                #![trigger init[i], init[j]]
                0 <= i < init.len() && 0 <= j < init.len() && i != j implies cell_key()(init[i]) != cell_key()(
                    init[j],
                ) by {
                assert(init[i] == cells[i] && init[j] == cells[j]);
            }
        }
        lemma_cells_count(init);
        assert(!holds_key(init, cell_key(), last.id)) by {
            if holds_key(init, cell_key(), last.id) {
                let k = crate::keyed::key_position(init, cell_key(), last.id);
                assert(cells[k] == init[k]);
                assert(cell_key()(cells[k]) == cell_key()(cells[cells.len() - 1]));
            }
        }
        lemma_keyed_push(init, cell_key(), cell_val(), last);
        assert(init.push(last) =~= cells);
        let mi = keyed_map(init, cell_key(), cell_val());
        assert(m.dom() =~= mi.dom().insert(last.id));
    }
}


/// `s` with its count of ticks since the last impulse set aside.
pub open spec fn except_ticks<R>(s: FieldView<R>) -> FieldView<R> {
    FieldView { ticks_since_impulse: 0, ..s }
}

/// A delta's effect does not depend on the count of ticks since the last
/// impulse.
pub proof fn lemma_apply_ignores_ticks<R, T>(s: FieldView<R>, d: FieldDelta<R, T>)
    ensures
        except_ticks(spec_apply_delta(s, d)) == except_ticks(spec_apply_delta(except_ticks(s), d)),
{
}

/// A journal that a live field recorded, its tick counter aside: each
/// delta, replayed on the state before it, gives the state after it but for
/// that counter.
pub open spec fn recorded_live<R, T>(states: Seq<FieldView<R>>, ds: Seq<FieldDelta<R, T>>) -> bool {
    &&& states.len() == ds.len() + 1
    &&& forall|i: int|
        0 <= i < ds.len() ==> except_ticks(spec_apply_delta(states[i], #[trigger] ds[i])) == except_ticks(
            states[i + 1],
        )
}

/// Replaying what a live field recorded, from the state it started in,
/// gives the state it ended in, its count of ticks since the last impulse
/// aside.
pub proof fn lemma_replay_recorded_live<R, T>(states: Seq<FieldView<R>>, ds: Seq<FieldDelta<R, T>>)
    requires
        recorded_live(states, ds),
    ensures
        except_ticks(spec_replay(states[0], ds)) == except_ticks(states.last()),
    decreases ds.len(),
{
    if ds.len() > 0 {
        let n = ds.len() - 1;
        assert(recorded_live(states.drop_last(), ds.drop_last())) by {
            assert forall|i: int| 0 <= i < ds.drop_last().len() implies except_ticks(
                spec_apply_delta(states.drop_last()[i], #[trigger] ds.drop_last()[i]),
            ) == except_ticks(states.drop_last()[i + 1]) by {
                assert(ds.drop_last()[i] == ds[i]);
            }
        }
        lemma_replay_recorded_live(states.drop_last(), ds.drop_last());
        let before = spec_replay(states[0], ds.drop_last());
        lemma_apply_ignores_ticks(before, ds[n]);
        lemma_apply_ignores_ticks(states[n], ds[n]);
        assert(except_ticks(before) == except_ticks(states[n]));
    }
}

impl<R> FieldCore<R> {
    /// Adds a root cell for `core_pattern` with the next id: active, with no
    /// links and no response yet, and the measures of its seed; gives its id
    /// and the delta that journals it.
    pub fn add_root<T>(&mut self, core_pattern: String, vitals: Vitals) -> (r: (u64, FieldDelta<R, T>))
        requires
            old(self).wf(),
            old(self)@.next_id < u64::MAX,
        ensures
            final(self).wf(),
            r.0 == old(self)@.next_id,
            r.1 matches FieldDelta::Spawn(c) && c.id == r.0 && c.state == NodeState::Active && c.links@.len() == 0
                && c.last_response_ms == 0 && c.core_pattern@ == core_pattern@ && c.vitals == vitals,
            delta_ok(r.1),
            spec_apply_delta(old(self)@, r.1) == final(self)@,
    {
        let id = self.next_id;
        let pattern = core_pattern.clone();
        let cell = CellCore {
            id,
            state: NodeState::Active,
            links: Vec::new(),
            last_response_ms: 0,
            core_pattern,
            vitals,
        };
        let snapshot = CellCore { id, state: NodeState::Active, links: Vec::new(), last_response_ms: 0, core_pattern: pattern, vitals };
        assert(cell.links@.no_duplicates());
        let ghost cv = cell@;
        self.next_id = id + 1;
        let _ = self.attach(cell);
        assert(snapshot@ =~= cv);
        (id, FieldDelta::Spawn(snapshot))
    }

    /// Moves the field's clock on by `dt_ms`, at most to `u64::MAX`; gives
    /// the delta that journals it. Replaying it also restarts the count of
    /// ticks since the last impulse, which the live tick counts on.
    pub fn advance_clock<T>(&mut self, dt_ms: u64) -> (d: FieldDelta<R, T>)
        requires
            old(self).wf(),
        ensures
            final(self).wf(),
            final(self)@ == (FieldView {
                now_ms: if old(self)@.now_ms + dt_ms <= u64::MAX { (old(self)@.now_ms + dt_ms) as u64 } else { u64::MAX },
                ..old(self)@
            }),
            d == (FieldDelta::<R, T>::Tick { now_ms: final(self)@.now_ms }),
            except_ticks(spec_apply_delta(old(self)@, d)) == except_ticks(final(self)@),
    {
        self.now_ms = self.now_ms.saturating_add(dt_ms);
        FieldDelta::Tick { now_ms: self.now_ms }
    }
}


/// What each delta leaves, whatever the state before: a tick sets the
/// clock; a spawned cell is there as journalled, with ids past it; a sleep
/// puts an existing cell to sleep and touches no other; a death removes
/// the cell; a link makes an existing cell link to its target and an
/// unlink or prune makes it stop; affinity and energy deltas set those
/// measures; an added rule is there with its token lowercased and rule ids
/// past it; a removed rule is gone; a report is the newest in its ring;
/// a built model is the last one and the log's newest entry; an awakening
/// tick sets its time.
pub proof fn lemma_delta_effects<R, T>(s: FieldView<R>, d: FieldDelta<R, T>)
    requires
        delta_ok(d),
    ensures
        ({
            let t = spec_apply_delta(s, d);
            &&& d matches FieldDelta::Tick { now_ms } ==> t.now_ms == now_ms && t.ticks_since_impulse == 0
                && t.cells == s.cells
            &&& d matches FieldDelta::Spawn(c) ==> t.cells.contains_key(c.id) && t.cells[c.id] == c@ && t.next_id
                > c.id && t.next_id >= s.next_id
            &&& d matches FieldDelta::Sleep { id } ==> t.cells.dom() == s.cells.dom() && (s.cells.contains_key(id)
                ==> t.cells[id].state == NodeState::Sleep && t.cells[id].links == s.cells[id].links) && (forall|
                k: u64,
            | k != id && s.cells.contains_key(k) ==> #[trigger] t.cells[k] == s.cells[k])
            &&& d matches FieldDelta::Dead { id } ==> !t.cells.contains_key(id) && (forall|k: u64|
                k != id && s.cells.contains_key(k) ==> t.cells.contains_key(k) && #[trigger] t.cells[k] == s.cells[k])
            &&& d matches FieldDelta::Link { from, to } ==> (s.cells.contains_key(from) ==> t.cells[from].links
                == s.cells[from].links.insert(to)) && t.cells.dom() == s.cells.dom()
            &&& d matches FieldDelta::DreamRewire { from, to } ==> (s.cells.contains_key(from) ==> t.cells[from].links
                == s.cells[from].links.insert(to)) && t.cells.dom() == s.cells.dom()
            &&& d matches FieldDelta::Unlink { from, to } ==> (s.cells.contains_key(from) ==> t.cells[from].links
                == s.cells[from].links.remove(to)) && t.cells.dom() == s.cells.dom()
            &&& d matches FieldDelta::DreamPrune { from, to } ==> (s.cells.contains_key(from) ==> t.cells[from].links
                == s.cells[from].links.remove(to)) && t.cells.dom() == s.cells.dom()
            &&& d matches FieldDelta::Affinity { id, affinity } ==> (s.cells.contains_key(id)
                ==> t.cells[id].vitals.affinity == affinity && t.cells[id].vitals.seed_affinity == affinity
                && t.cells[id].vitals.energy == s.cells[id].vitals.energy && t.cells[id].state == s.cells[id].state)
            &&& d matches FieldDelta::Energy { id, energy, metabolism, state, last_response_ms } ==> (
            s.cells.contains_key(id) ==> t.cells[id].vitals.energy == energy && t.cells[id].vitals.metabolism
                == metabolism && t.cells[id].state == state && t.cells[id].last_response_ms == last_response_ms
                && t.cells[id].vitals.affinity == s.cells[id].vitals.affinity)
            &&& d matches FieldDelta::ReflexAdd(r) ==> t.rules.contains_key(r.id) && t.rules[r.id]
                == (crate::field::str_lower(r.token@), r.body) && t.next_reflex_id > r.id && t.next_reflex_id
                >= s.next_reflex_id
            &&& d matches FieldDelta::ReflexRemove { id } ==> !t.rules.contains_key(id)
            &&& d matches FieldDelta::DreamReport { now_ms, report } ==> t.dream_reports.last() == (now_ms, report)
                && t.last_dream_ms == now_ms
            &&& d matches FieldDelta::CollectiveDreamReport { now_ms, report } ==> t.sync_reports.last() == (
            now_ms,
            report,
            )
            &&& d matches FieldDelta::ModelBuild { hash, cell_count, now_ms } ==> t.last_build == Some(
                (hash@, cell_count, now_ms),
            ) && t.sync_log.entries.last() == (SyncEventView::Build { at_ms: now_ms, hash: hash@, cell_count })
            &&& d matches FieldDelta::AwakenTick { now_ms, hash } ==> t.last_awaken_tick == now_ms
                && t.sync_log.entries.last() == (SyncEventView::Tick { at_ms: now_ms })
            &&& (d is ReflexFire || d is Tuning) ==> t == s
        }),
{
    match d {
        FieldDelta::DreamReport { now_ms, report } => {
            let p = s.dream_reports.push((now_ms, report));
            assert(p.last() == (now_ms, report));
            if p.len() > REPORT_RING {
                assert(p.skip(p.len() - REPORT_RING).last() == p.last());
            }
        },
        FieldDelta::CollectiveDreamReport { now_ms, report } => {
            let p = s.sync_reports.push((now_ms, report));
            if p.len() > REPORT_RING {
                assert(p.skip(p.len() - REPORT_RING).last() == p.last());
            }
        },
        FieldDelta::ModelBuild { hash, cell_count, now_ms } => {
            let e = SyncEventView::Build { at_ms: now_ms, hash: hash@, cell_count };
            let p = s.sync_log.entries.push(e);
            let cap = crate::resonant::effective_capacity(s.sync_log.capacity);
            if p.len() > cap {
                assert(p.skip(p.len() - cap).last() == p.last());
            }
        },
        FieldDelta::AwakenTick { now_ms, hash } => {
            let e = SyncEventView::Tick { at_ms: now_ms };
            let p = s.sync_log.entries.push(e);
            let cap = crate::resonant::effective_capacity(s.sync_log.capacity);
            if p.len() > cap {
                assert(p.skip(p.len() - cap).last() == p.last());
            }
        },
        FieldDelta::Dead { id } => {
            assert(spec_apply_delta(s, d).cells == s.cells.remove(id));
        },
        _ => {},
    }
}

} // verus!
