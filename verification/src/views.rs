//! Views: standing subscriptions of the field, with their emit schedule,
//! and the filters that `WHERE` clauses build.
use vstd::prelude::*;

verus! {

/// Conditions that a hit must meet to count in a view. Thresholds are kept
/// as the decimal literals the query wrote (see `threshold`).
#[derive(Debug, Clone, PartialEq, Default)]
pub struct ViewFilter {
    pub min_strength: Option<String>,
    pub min_salience: Option<String>,
    pub adreno: Option<bool>,
}

/// The abstract value of a [`ViewFilter`].
pub struct FilterView {
    pub min_strength: Option<Seq<char>>,
    pub min_salience: Option<Seq<char>>,
    pub adreno: Option<bool>,
}

pub open spec fn opt_string_view(o: Option<String>) -> Option<Seq<char>> {
    match o {
        Some(s) => Some(s@),
        None => None,
    }
}

impl View for ViewFilter {
    type V = FilterView;

    open spec fn view(&self) -> FilterView {
        FilterView {
            min_strength: opt_string_view(self.min_strength),
            min_salience: opt_string_view(self.min_salience),
            adreno: self.adreno,
        }
    }
}

impl ViewFilter {
    /// The filter that lets every hit through.
    pub fn new() -> (f: ViewFilter)
        ensures
            f@.min_strength is None,
            f@.min_salience is None,
            f@.adreno is None,
    {
        ViewFilter { min_strength: None, min_salience: None, adreno: None }
    }
}

/// How often a node was hit in a view's window.
#[derive(Debug, Clone, Copy, PartialEq, Eq)]
pub struct NodeHitStat {
    pub id: u64,
    pub hits: u32,
}

/// A standing view: a pattern watched over a window, emitted every
/// `every_ms` milliseconds.
#[derive(Debug, Clone)]
pub struct ViewEntry {
    pub id: u64,
    pub pattern: String,
    pub window_ms: u32,
    pub every_ms: u32,
    pub last_emit: u64,
}

pub struct ViewModel {
    pub id: u64,
    pub pattern: Seq<char>,
    pub window_ms: u32,
    pub every_ms: u32,
    pub last_emit: u64,
}

impl View for ViewEntry {
    type V = ViewModel;

    open spec fn view(&self) -> ViewModel {
        ViewModel {
            id: self.id,
            pattern: self.pattern@,
            window_ms: self.window_ms,
            every_ms: self.every_ms,
            last_emit: self.last_emit,
        }
    }
}

/// `now_ms` is at least `every_ms` after the last emission (time never
/// runs backwards: an emission in the future counts as just now).
pub open spec fn is_due(v: ViewModel, now_ms: u64) -> bool {
    (if now_ms >= v.last_emit { now_ms - v.last_emit } else { 0 }) >= v.every_ms
}

pub open spec fn emitted_at(v: ViewModel, now_ms: u64) -> ViewModel {
    ViewModel { last_emit: now_ms, ..v }
}

impl ViewEntry {
    fn should_emit(&self, now_ms: u64) -> (b: bool)
        ensures
            b == is_due(self@, now_ms),
    {
        now_ms.saturating_sub(self.last_emit) >= self.every_ms as u64
    }

    fn copy(&self) -> (c: ViewEntry)
        ensures
            c@ == self@,
    {
        ViewEntry {
            id: self.id,
            pattern: self.pattern.clone(),
            window_ms: self.window_ms,
            every_ms: self.every_ms,
            last_emit: self.last_emit,
        }
    }
}

pub struct RegistryModel {
    pub next_id: u64,
    pub views: Seq<ViewModel>,
}

/// The standing views of a field, in the order of their ids.
pub struct ViewRegistry {
    next_id: u64,
    views: Vec<ViewEntry>,
}

pub open spec fn ids_increasing(s: Seq<ViewModel>) -> bool {
    forall|i: int, j: int| 0 <= i < j < s.len() ==> #[trigger] s[i].id < #[trigger] s[j].id
}

impl ViewRegistry {
    pub closed spec fn model(&self) -> RegistryModel {
        RegistryModel {
            next_id: self.next_id,
            views: Seq::new(self.views@.len(), |i: int| self.views@[i]@),
        }
    }

    /// Views are held in increasing id order, all below the next id.
    pub open spec fn wf(&self) -> bool {
        &&& ids_increasing(self.model().views)
        &&& forall|i: int| 0 <= i < self.model().views.len() ==> #[trigger] self.model().views[i].id < self.model().next_id
    }

    /// No views; the first id handed out is 1.
    pub fn new() -> (r: ViewRegistry)
        ensures
            r.wf(),
            r.model().next_id == 1,
            r.model().views == Seq::<ViewModel>::empty(),
    {
        let r = ViewRegistry { next_id: 1, views: Vec::new() };
        assert(r.model().views =~= Seq::<ViewModel>::empty());
        r
    }

    /// Adds a view and returns its id. Its last emission is set
    /// `every_ms` before `now_ms` (or at 0), so that it is due as soon as
    /// a full interval has passed since the start of time.
    pub fn add_view(&mut self, pattern: String, window_ms: u32, every_ms: u32, now_ms: u64) -> (id: u64)
        requires
            old(self).wf(),
            old(self).model().next_id < u64::MAX,
        ensures
            final(self).wf(),
            id == old(self).model().next_id,
            final(self).model().next_id == id + 1,
            final(self).model().views == old(self).model().views.push(
                ViewModel {
                    id,
                    pattern: pattern@,
                    window_ms,
                    every_ms,
                    last_emit: if now_ms >= every_ms { (now_ms - every_ms) as u64 } else { 0 },
                },
            ),
    {
        let ghost before = self.model().views;
        let id = self.next_id;
        self.next_id = self.next_id + 1;
        let last_emit = now_ms.saturating_sub(every_ms as u64);
        let view = ViewEntry { id, pattern, window_ms, every_ms, last_emit };
        let ghost vv = view@;
        self.views.push(view);
        assert(self.model().views =~= before.push(vv));
        id
    }

    /// Removes the view `id`; says whether there was one.
    pub fn remove_view(&mut self, id: u64) -> (removed: bool)
        requires
            old(self).wf(),
        ensures
            final(self).wf(),
            final(self).model().next_id == old(self).model().next_id,
            removed == exists|i: int| 0 <= i < old(self).model().views.len() && #[trigger] old(self).model().views[i].id == id,
            final(self).model().views == old(self).model().views.filter(|v: ViewModel| v.id != id),
    {
        let ghost before = self.model().views;
        let ghost keep = |v: ViewModel| v.id != id;
        let mut kept: Vec<ViewEntry> = Vec::new();
        let mut removed = false;
        let mut i: usize = 0;
        while i < self.views.len()
            invariant
                before == self.model().views,
                wf_parts(before, self.model().next_id),
                keep == (|v: ViewModel| v.id != id),
                i <= self.views@.len(),
                Seq::new(kept@.len(), |k: int| kept@[k]@) == before.take(i as int).filter(keep),
                removed == exists|k: int| 0 <= k < i && #[trigger] before[k].id == id,
            decreases self.views.len() - i,
        {
            proof {
                reveal_with_fuel(Seq::<_>::filter, 1);
                assert(before.take(i + 1).drop_last() =~= before.take(i as int));
            }
            let ghost kept_before = Seq::new(kept@.len(), |k: int| kept@[k]@);
            assert(before[i as int] == self.views@[i as int]@);
            let ghost was = removed;
            if self.views[i].id == id {
                removed = true;
                assert(before[i as int].id == id);
            } else {
                assert(before[i as int].id != id);
                assert((exists|k: int| 0 <= k < i + 1 && #[trigger] before[k].id == id) == was) by {
                    if exists|k: int| 0 <= k < i + 1 && #[trigger] before[k].id == id {
                        let k = choose|k: int| 0 <= k < i + 1 && #[trigger] before[k].id == id;
                        assert(k < i);
                    }
                }
                let c = self.views[i].copy();
                kept.push(c);
                assert(Seq::new(kept@.len(), |k: int| kept@[k]@) =~= kept_before.push(before[i as int]));
            }
            i += 1;
        }
        assert(before.take(before.len() as int) =~= before);
        self.views = kept;
        proof {
            let now_views = self.model().views;
            lemma_filter_keeps_order(before, keep);
            assert(now_views == before.filter(keep));
        }
        removed
    }

    /// The due views, as they are once emitted at `now_ms`, in id order.
    fn due_views(&self, now_ms: u64) -> (due: Vec<ViewEntry>)
        ensures
            Seq::new(due@.len(), |k: int| due@[k]@) == self.model().views.filter(|v: ViewModel| is_due(v, now_ms)).map_values(|v: ViewModel| emitted_at(v, now_ms)),
    {
        let ghost before = self.model().views;
        let ghost pred = |v: ViewModel| is_due(v, now_ms);
        let ghost upd = |v: ViewModel| emitted_at(v, now_ms);
        let mut due: Vec<ViewEntry> = Vec::new();
        let mut i: usize = 0;
        while i < self.views.len()
            invariant
                before == self.model().views,
                pred == (|v: ViewModel| is_due(v, now_ms)),
                upd == (|v: ViewModel| emitted_at(v, now_ms)),
                i <= self.views@.len(),
                Seq::new(due@.len(), |k: int| due@[k]@) == before.take(i as int).filter(pred).map_values(upd),
            decreases self.views.len() - i,
        {
            proof {
                reveal_with_fuel(Seq::<_>::filter, 1);
                assert(before.take(i + 1).drop_last() =~= before.take(i as int));
                assert(before[i as int] == self.views@[i as int]@);
            }
            let ghost due_before = Seq::new(due@.len(), |k: int| due@[k]@);
            if self.views[i].should_emit(now_ms) {
                let mut v = self.views[i].copy();
                v.last_emit = now_ms;
                due.push(v);
                proof {
                    let f = before.take(i as int).filter(pred);
                    assert(before.take(i + 1).filter(pred) == f.push(before[i as int]));
                    assert(f.push(before[i as int]).map_values(upd) =~= f.map_values(upd).push(upd(before[i as int])));
                    assert(Seq::new(due@.len(), |k: int| due@[k]@) =~= due_before.push(upd(before[i as int])));
                }
            } else {
                proof {
                    assert(before.take(i + 1).filter(pred) == before.take(i as int).filter(pred));
                }
            }
            i += 1;
        }
        assert(before.take(before.len() as int) =~= before);
        due
    }

    /// Marks every due view as emitted at `now_ms`.
    fn mark_emitted(&mut self, now_ms: u64)
        requires
            old(self).wf(),
        ensures
            final(self).wf(),
            final(self).model().next_id == old(self).model().next_id,
            final(self).model().views.len() == old(self).model().views.len(),
            forall|i: int| 0 <= i < old(self).model().views.len() ==> #[trigger] final(self).model().views[i] == if is_due(old(self).model().views[i], now_ms) {
                emitted_at(old(self).model().views[i], now_ms)
            } else {
                old(self).model().views[i]
            },
    {
        let ghost before = self.model().views;
        let mut i: usize = 0;
        while i < self.views.len()
            invariant
                before.len() == self.views@.len(),
                wf_parts(before, self.next_id),
                self.next_id == old(self).model().next_id,
                before == old(self).model().views,
                i <= self.views@.len(),
                forall|k: int| 0 <= k < i ==> #[trigger] self.views@[k]@ == if is_due(before[k], now_ms) {
                    emitted_at(before[k], now_ms)
                } else {
                    before[k]
                },
                forall|k: int| i <= k < self.views@.len() ==> #[trigger] self.views@[k]@ == before[k],
            decreases self.views.len() - i,
        {
            assert(self.views@[i as int]@ == before[i as int]);
            if self.views[i].should_emit(now_ms) {
                let mut v = self.views[i].copy();
                v.last_emit = now_ms;
                self.views.set(i, v);
            }
            i += 1;
        }
        proof {
            assert forall|a: int, b: int| 0 <= a < b < self.model().views.len() implies #[trigger] self.model().views[a].id < #[trigger] self.model().views[b].id by {
                assert(self.model().views[a].id == before[a].id);
                assert(self.model().views[b].id == before[b].id);
            }
            assert forall|a: int| 0 <= a < self.model().views.len() implies #[trigger] self.model().views[a].id < self.model().next_id by {
                assert(self.model().views[a].id == before[a].id);
            }
            assert forall|a: int| 0 <= a < before.len() implies #[trigger] self.model().views[a] == if is_due(before[a], now_ms) {
                emitted_at(before[a], now_ms)
            } else {
                before[a]
            } by {
                assert(self.model().views[a] == self.views@[a]@);
            }
        }
    }

    /// Marks every due view as emitted at `now_ms` and returns those views,
    /// in id order.
    pub fn take_due(&mut self, now_ms: u64) -> (due: Vec<ViewEntry>)
        requires
            old(self).wf(),
        ensures
            final(self).wf(),
            final(self).model().next_id == old(self).model().next_id,
            final(self).model().views.len() == old(self).model().views.len(),
            forall|i: int| 0 <= i < old(self).model().views.len() ==> #[trigger] final(self).model().views[i] == if is_due(old(self).model().views[i], now_ms) {
                emitted_at(old(self).model().views[i], now_ms)
            } else {
                old(self).model().views[i]
            },
            Seq::new(due@.len(), |k: int| due@[k]@) == old(self).model().views.filter(|v: ViewModel| is_due(v, now_ms)).map_values(|v: ViewModel| emitted_at(v, now_ms)),
    {
        let due = self.due_views(now_ms);
        self.mark_emitted(now_ms);
        due
    }

    /// The views, in id order.
    pub fn list(&self) -> (l: Vec<ViewEntry>)
        ensures
            Seq::new(l@.len(), |k: int| l@[k]@) == self.model().views,
    {
        let mut l: Vec<ViewEntry> = Vec::new();
        let mut i: usize = 0;
        while i < self.views.len()
            invariant
                i <= self.views@.len(),
                l@.len() == i,
                forall|k: int| 0 <= k < i ==> #[trigger] l@[k]@ == self.views@[k]@,
            decreases self.views.len() - i,
        {
            l.push(self.views[i].copy());
            i += 1;
        }
        assert(Seq::new(l@.len(), |k: int| l@[k]@) =~= self.model().views);
        l
    }
}

pub open spec fn wf_parts(s: Seq<ViewModel>, next_id: u64) -> bool {
    &&& ids_increasing(s)
    &&& forall|i: int| 0 <= i < s.len() ==> #[trigger] s[i].id < next_id
}

/// Filtering keeps a subsequence: ids stay increasing and below the bound.
proof fn lemma_filter_keeps_order(s: Seq<ViewModel>, keep: spec_fn(ViewModel) -> bool)
    ensures
        forall|next_id: u64| wf_parts(s, next_id) ==> wf_parts(s.filter(keep), next_id),
    decreases s.len(),
{
    reveal_with_fuel(Seq::<_>::filter, 1);
    if s.len() > 0 {
        let t = s.drop_last();
        lemma_filter_keeps_order(t, keep);
        assert forall|next_id: u64| wf_parts(s, next_id) implies wf_parts(s.filter(keep), next_id) by {
            assert(wf_parts(t, next_id));
            let ft = t.filter(keep);
            assert forall|k: int| 0 <= k < ft.len() implies #[trigger] ft[k].id < s.last().id by {
                assert(ft.contains(ft[k]));
                t.lemma_filter_contains_rev(keep, ft[k]);
                let j = choose|j: int| 0 <= j < t.len() && t[j] == ft[k];
                assert(s[j] == t[j]);
            }
        }
    }
}

/// A view is due once its interval has passed since its last emission (an
/// emission in the future counts as just now), and emitting it changes
/// only its time of last emission.
pub proof fn lemma_due_after_interval(v: ViewModel, now_ms: u64)
    ensures
        now_ms >= v.last_emit ==> (is_due(v, now_ms) <==> now_ms >= v.last_emit + v.every_ms),
        now_ms < v.last_emit ==> (is_due(v, now_ms) <==> v.every_ms == 0),
        emitted_at(v, now_ms).last_emit == now_ms,
        emitted_at(v, now_ms).id == v.id && emitted_at(v, now_ms).pattern == v.pattern
            && emitted_at(v, now_ms).window_ms == v.window_ms && emitted_at(v, now_ms).every_ms == v.every_ms,
{
}

/// A view just emitted at `now_ms` is not due again before a full interval
/// has passed.
pub proof fn lemma_not_due_again_within_interval(v: ViewModel, now_ms: u64, later: u64)
    requires
        now_ms <= later,
        later - now_ms < v.every_ms,
    ensures
        !is_due(emitted_at(v, now_ms), later),
{
}

} // verus!
