//! The synchronisation log: a bounded history of dream, collective, model
//! build, model apply and tick events, with running totals.
use vstd::prelude::*;

verus! {

/// What one dream cycle did.
#[derive(Debug, Clone, Copy, Default, PartialEq, Eq)]
pub struct DreamReport {
    pub strengthened: u32,
    pub weakened: u32,
    pub pruned: u32,
    pub protected: u32,
    pub rewired: u32,
    pub took_ms: u32,
}

/// What one collective synchronisation did.
#[derive(Debug, Clone, Copy, Default, PartialEq, Eq)]
pub struct SyncReport {
    pub groups: u16,
    pub shared: u32,
    pub aligned: u32,
    pub protected: u32,
    pub took_ms: u32,
}

/// A group of cells that fired together, with their shared tokens.
#[derive(Debug, Clone, PartialEq)]
pub struct SyncGroup {
    pub id: u64,
    pub nodes: Vec<u64>,
    pub tokens: Vec<String>,
}

/// A built resonant model: its hash, the cells it covered, and when.
#[derive(Debug, Clone, PartialEq, Default)]
pub struct ModelFrame {
    pub hash: String,
    pub cell_count: u32,
    pub created_ms: u64,
}

/// An entry of the synchronisation log.
#[derive(Debug, Clone, PartialEq)]
pub enum SyncEvent {
    Dream { at_ms: u64, strengthened: u32, weakened: u32, protected: u32 },
    Collective { at_ms: u64, shared: u32, aligned: u32, protected: u32 },
    Build { at_ms: u64, hash: String, cell_count: u32 },
    Apply { at_ms: u64, hash: Option<String>, cell_count: u32 },
    Tick { at_ms: u64 },
}

pub enum SyncEventView {
    Dream { at_ms: u64, strengthened: u32, weakened: u32, protected: u32 },
    Collective { at_ms: u64, shared: u32, aligned: u32, protected: u32 },
    Build { at_ms: u64, hash: Seq<char>, cell_count: u32 },
    Apply { at_ms: u64, hash: Option<Seq<char>>, cell_count: u32 },
    Tick { at_ms: u64 },
}

impl View for SyncEvent {
    type V = SyncEventView;

    open spec fn view(&self) -> SyncEventView {
        match self {
            SyncEvent::Dream { at_ms, strengthened, weakened, protected } => SyncEventView::Dream {
                at_ms: *at_ms,
                strengthened: *strengthened,
                weakened: *weakened,
                protected: *protected,
            },
            SyncEvent::Collective { at_ms, shared, aligned, protected } => SyncEventView::Collective {
                at_ms: *at_ms,
                shared: *shared,
                aligned: *aligned,
                protected: *protected,
            },
            SyncEvent::Build { at_ms, hash, cell_count } => SyncEventView::Build {
                at_ms: *at_ms,
                hash: hash@,
                cell_count: *cell_count,
            },
            SyncEvent::Apply { at_ms, hash, cell_count } => SyncEventView::Apply {
                at_ms: *at_ms,
                hash: match hash {
                    Some(h) => Some(h@),
                    None => None,
                },
                cell_count: *cell_count,
            },
            SyncEvent::Tick { at_ms } => SyncEventView::Tick { at_ms: *at_ms },
        }
    }
}

impl SyncEvent {
    fn copy(&self) -> (e: SyncEvent)
        ensures
            e@ == self@,
    {
        match self {
            SyncEvent::Dream { at_ms, strengthened, weakened, protected } => SyncEvent::Dream {
                at_ms: *at_ms,
                strengthened: *strengthened,
                weakened: *weakened,
                protected: *protected,
            },
            SyncEvent::Collective { at_ms, shared, aligned, protected } => SyncEvent::Collective {
                at_ms: *at_ms,
                shared: *shared,
                aligned: *aligned,
                protected: *protected,
            },
            SyncEvent::Build { at_ms, hash, cell_count } => SyncEvent::Build {
                at_ms: *at_ms,
                hash: hash.clone(),
                cell_count: *cell_count,
            },
            SyncEvent::Apply { at_ms, hash, cell_count } => SyncEvent::Apply {
                at_ms: *at_ms,
                hash: match hash {
                    Some(h) => Some(h.clone()),
                    None => None,
                },
                cell_count: *cell_count,
            },
            SyncEvent::Tick { at_ms } => SyncEvent::Tick { at_ms: *at_ms },
        }
    }
}

/// The protected count of an event (dreams and collectives carry one).
pub open spec fn protected_of(e: SyncEventView) -> nat {
    match e {
        SyncEventView::Dream { protected, .. } => protected as nat,
        SyncEventView::Collective { protected, .. } => protected as nat,
        _ => 0,
    }
}

pub open spec fn aligned_of(e: SyncEventView) -> nat {
    match e {
        SyncEventView::Collective { aligned, .. } => aligned as nat,
        _ => 0,
    }
}

pub open spec fn shared_of(e: SyncEventView) -> nat {
    match e {
        SyncEventView::Collective { shared, .. } => shared as nat,
        _ => 0,
    }
}

pub open spec fn sum_of(s: Seq<SyncEventView>, f: spec_fn(SyncEventView) -> nat) -> nat
    decreases s.len(),
{
    if s.len() == 0 {
        0
    } else {
        sum_of(s.drop_last(), f) + f(s.last())
    }
}

/// The last `n` entries of `s` (all of them when there are fewer).
pub open spec fn keep_last<A>(s: Seq<A>, n: nat) -> Seq<A> {
    if s.len() > n {
        s.skip(s.len() - n)
    } else {
        s
    }
}

/// The capacity a log works with: a log made without one keeps 48 entries.
pub open spec fn effective_capacity(capacity: nat) -> nat {
    if capacity == 0 {
        48
    } else {
        capacity
    }
}

pub struct SyncLogView {
    pub entries: Seq<SyncEventView>,
    pub capacity: nat,
}

/// A bounded log of synchronisation events: once full, the oldest entries
/// give way.
#[derive(Debug, PartialEq)]
pub struct SyncLog {
    entries: Vec<SyncEvent>,
    capacity: usize,
}

impl View for SyncLog {
    type V = SyncLogView;

    closed spec fn view(&self) -> SyncLogView {
        SyncLogView {
            entries: Seq::new(self.entries@.len(), |i: int| self.entries@[i]@),
            capacity: self.capacity as nat,
        }
    }
}

impl Clone for SyncLog {
    fn clone(&self) -> (l: SyncLog)
        ensures
            l@ == self@,
    {
        proof {
            use_type_invariant(self);
        }
        let mut kept: Vec<SyncEvent> = Vec::new();
        let mut i: usize = 0;
        while i < self.entries.len()
            invariant
                i <= self.entries@.len(),
                kept@.len() == i,
                forall|k: int| 0 <= k < i ==> #[trigger] kept@[k]@ == self.entries@[k]@,
            decreases self.entries.len() - i,
        {
            kept.push(self.entries[i].copy());
            i += 1;
        }
        let l = SyncLog { entries: kept, capacity: self.capacity };
        assert(l@.entries =~= self@.entries);
        l
    }
}

impl Default for SyncLog {
    /// An empty log without a capacity yet; its first push gives it 48.
    fn default() -> (l: SyncLog)
        ensures
            l@.entries == Seq::<SyncEventView>::empty(),
            l@.capacity == 0,
            log_ok(l@),
    {
        let l = SyncLog { entries: Vec::new(), capacity: 0 };
        assert(l@.entries =~= Seq::<SyncEventView>::empty());
        l
    }
}

/// The log after pushing `e`.
pub open spec fn spec_push(l: SyncLogView, e: SyncEventView) -> SyncLogView {
    let cap = effective_capacity(l.capacity);
    SyncLogView { entries: keep_last(l.entries.push(e), cap), capacity: cap }
}

impl SyncLog {
    /// An empty log that keeps the last 48 entries.
    pub fn new() -> (l: SyncLog)
        ensures
            l@.entries == Seq::<SyncEventView>::empty(),
            l@.capacity == 48,
            log_ok(l@),
    {
        let l = SyncLog { entries: Vec::new(), capacity: 48 };
        assert(l@.entries =~= Seq::<SyncEventView>::empty());
        l
    }

    /// Every log keeps 48 entries, or has no capacity yet, and holds no more
    /// than 48.
    #[verifier::type_invariant]
    spec fn bounded(self) -> bool {
        &&& (self.capacity == 0 || self.capacity == 48)
        &&& self.entries@.len() <= 48
    }

    fn push(&mut self, event: SyncEvent)
        ensures
            final(self)@ == spec_push(old(self)@, event@),
    {
        proof {
            use_type_invariant(&*self);
        }
        let ghost before = self@;
        let ghost ev = event@;
        let cap: usize = 48;
        let mut all: Vec<SyncEvent> = Vec::new();
        std::mem::swap(&mut all, &mut self.entries);
        all.push(event);
        let ghost pushed = before.entries.push(ev);
        assert(Seq::new(all@.len(), |i: int| all@[i]@) =~= pushed);
        if all.len() > cap {
            let cut = all.len() - cap;
            let mut kept: Vec<SyncEvent> = Vec::new();
            let mut i: usize = cut;
            while i < all.len()
                invariant
                    cut <= i <= all@.len(),
                    kept@.len() == i - cut,
                    forall|k: int| 0 <= k < kept@.len() ==> #[trigger] kept@[k]@ == all@[cut + k]@,
                decreases all.len() - i,
            {
                let e = all[i].copy();
                kept.push(e);
                i += 1;
            }
            assert(Seq::new(kept@.len(), |i: int| kept@[i]@) =~= keep_last(pushed, 48));
            self.entries = kept;
        } else {
            assert(pushed =~= keep_last(pushed, 48));
            self.entries = all;
        }
        self.capacity = cap;
    }

    pub fn record_dream(&mut self, at_ms: u64, report: &DreamReport)
        ensures
            final(self)@ == spec_push(
                old(self)@,
                SyncEventView::Dream {
                    at_ms,
                    strengthened: report.strengthened,
                    weakened: report.weakened,
                    protected: report.protected,
                },
            ),
    {
        self.push(
            SyncEvent::Dream {
                at_ms,
                strengthened: report.strengthened,
                weakened: report.weakened,
                protected: report.protected,
            },
        );
    }

    pub fn record_collective(&mut self, at_ms: u64, report: &SyncReport)
        ensures
            final(self)@ == spec_push(
                old(self)@,
                SyncEventView::Collective {
                    at_ms,
                    shared: report.shared,
                    aligned: report.aligned,
                    protected: report.protected,
                },
            ),
    {
        self.push(
            SyncEvent::Collective {
                at_ms,
                shared: report.shared,
                aligned: report.aligned,
                protected: report.protected,
            },
        );
    }

    pub fn record_build(&mut self, hash: String, at_ms: u64, cell_count: u32)
        ensures
            final(self)@ == spec_push(old(self)@, SyncEventView::Build { at_ms, hash: hash@, cell_count }),
    {
        self.push(SyncEvent::Build { at_ms, hash, cell_count });
    }

    pub fn record_apply(&mut self, hash: Option<String>, at_ms: u64, cell_count: u32)
        ensures
            final(self)@ == spec_push(
                old(self)@,
                SyncEventView::Apply {
                    at_ms,
                    hash: match hash {
                        Some(h) => Some(h@),
                        None => None,
                    },
                    cell_count,
                },
            ),
    {
        self.push(SyncEvent::Apply { at_ms, hash, cell_count });
    }

    /// Records a tick: the entries become the last `min(n + 1, 48)` of the
    /// `n` old ones followed by the tick.
    pub fn record_tick(&mut self, at_ms: u64)
        ensures
            final(self)@ == spec_push(old(self)@, SyncEventView::Tick { at_ms }),
            ({
                let all = old(self)@.entries.push(SyncEventView::Tick { at_ms });
                let n: int = if all.len() < 48 { all.len() as int } else { 48 };
                final(self)@.entries == all.subrange(all.len() - n, all.len() as int)
            }),
            log_ok(final(self)@),
    {
        proof {
            use_type_invariant(&*self);
            let all = self@.entries.push(SyncEventView::Tick { at_ms });
            if all.len() <= 48 {
                assert(all.subrange(0, all.len() as int) =~= all);
            } else {
                assert(all.skip(all.len() - 48) =~= all.subrange(all.len() - 48, all.len() as int));
            }
        }
        self.push(SyncEvent::Tick { at_ms });
    }


    /// The entries, oldest first.
    pub fn entries(&self) -> (v: &Vec<SyncEvent>)
        ensures
            log_ok(self@),
            v@.len() == self@.entries.len(),
            forall|i: int| 0 <= i < v@.len() ==> #[trigger] v@[i]@ == self@.entries[i],
    {
        proof {
            use_type_invariant(self);
        }
        &self.entries
    }

    fn total(&self, which: u8) -> (t: u32)
        requires
            which <= 2,
            sum_of(
                self@.entries,
                if which == 0 {
                    |e: SyncEventView| protected_of(e)
                } else if which == 1 {
                    |e: SyncEventView| aligned_of(e)
                } else {
                    |e: SyncEventView| shared_of(e)
                },
            ) <= u32::MAX,
        ensures
            t == sum_of(
                self@.entries,
                if which == 0 {
                    |e: SyncEventView| protected_of(e)
                } else if which == 1 {
                    |e: SyncEventView| aligned_of(e)
                } else {
                    |e: SyncEventView| shared_of(e)
                },
            ),
    {
        let ghost f = if which == 0 {
            |e: SyncEventView| protected_of(e)
        } else if which == 1 {
            |e: SyncEventView| aligned_of(e)
        } else {
            |e: SyncEventView| shared_of(e)
        };
        let ghost s = self@.entries;
        let mut t: u32 = 0;
        let mut i: usize = 0;
        while i < self.entries.len()
            invariant
                which <= 2,
                s == self@.entries,
                s.len() == self.entries@.len(),
                forall|k: int| 0 <= k < s.len() ==> #[trigger] s[k] == self.entries@[k]@,
                f == (if which == 0 {
                    |e: SyncEventView| protected_of(e)
                } else if which == 1 {
                    |e: SyncEventView| aligned_of(e)
                } else {
                    |e: SyncEventView| shared_of(e)
                }),
                sum_of(s, f) <= u32::MAX,
                i <= s.len(),
                t == sum_of(s.take(i as int), f),
            decreases self.entries.len() - i,
        {
            proof {
                assert(s.take(i + 1).drop_last() =~= s.take(i as int));
                lemma_sum_prefix(s, f, i + 1);
            }
            let v: u32 = match &self.entries[i] {
                SyncEvent::Dream { protected, .. } => if which == 0 {
                    *protected
                } else {
                    0
                },
                SyncEvent::Collective { protected, aligned, shared, .. } => if which == 0 {
                    *protected
                } else if which == 1 {
                    *aligned
                } else {
                    *shared
                },
                _ => 0,
            };
            assert(v == f(s[i as int]));
            t = t + v;
            i += 1;
        }
        assert(s.take(s.len() as int) =~= s);
        t
    }

    /// Protected cells over all dream and collective entries.
    pub fn total_protected(&self) -> (t: u32)
        requires
            sum_of(self@.entries, |e: SyncEventView| protected_of(e)) <= u32::MAX,
        ensures
            t == sum_of(self@.entries, |e: SyncEventView| protected_of(e)),
    {
        self.total(0)
    }

    /// Aligned cells over all collective entries.
    pub fn total_aligned(&self) -> (t: u32)
        requires
            sum_of(self@.entries, |e: SyncEventView| aligned_of(e)) <= u32::MAX,
        ensures
            t == sum_of(self@.entries, |e: SyncEventView| aligned_of(e)),
    {
        self.total(1)
    }

    /// Shared tokens over all collective entries.
    pub fn total_shared(&self) -> (t: u32)
        requires
            sum_of(self@.entries, |e: SyncEventView| shared_of(e)) <= u32::MAX,
        ensures
            t == sum_of(self@.entries, |e: SyncEventView| shared_of(e)),
    {
        self.total(2)
    }

    pub fn is_empty(&self) -> (b: bool)
        ensures
            b == (self@.entries.len() == 0),
    {
        self.entries.len() == 0
    }

    /// A copy that keeps only the last `limit` entries.
    pub fn truncated(&self, limit: usize) -> (l: SyncLog)
        ensures
            l@.entries == keep_last(self@.entries, limit as nat),
            l@.capacity == self@.capacity,
    {
        proof {
            use_type_invariant(self);
        }
        let cut = if self.entries.len() > limit { self.entries.len() - limit } else { 0 };
        let mut kept: Vec<SyncEvent> = Vec::new();
        let mut i: usize = cut;
        while i < self.entries.len()
            invariant
                cut <= i <= self.entries@.len(),
                kept@.len() == i - cut,
                forall|k: int| 0 <= k < kept@.len() ==> #[trigger] kept@[k]@ == self.entries@[cut + k]@,
            decreases self.entries.len() - i,
        {
            let e = self.entries[i].copy();
            kept.push(e);
            i += 1;
        }
        let l = SyncLog { entries: kept, capacity: self.capacity };
        assert(l@.entries =~= keep_last(self@.entries, limit as nat));
        l
    }
}

proof fn lemma_sum_prefix(s: Seq<SyncEventView>, f: spec_fn(SyncEventView) -> nat, k: int)
    requires
        0 <= k <= s.len(),
    ensures
        sum_of(s.take(k), f) <= sum_of(s, f),
    decreases s.len() - k,
{
    if k < s.len() {
        lemma_sum_prefix(s, f, k + 1);
        assert(s.take(k + 1).drop_last() =~= s.take(k));
    } else {
        assert(s.take(k) =~= s);
    }
}

/// The log never holds more than its capacity after a push, and the newest
/// entry is the one just pushed.
pub proof fn lemma_push_bounded(l: SyncLogView, e: SyncEventView)
    requires
        l.entries.len() <= effective_capacity(l.capacity),
    ensures
        spec_push(l, e).entries.len() <= effective_capacity(l.capacity),
        spec_push(l, e).entries.last() == e,
        spec_push(l, e).entries.len() == if l.entries.len() < effective_capacity(l.capacity) {
            l.entries.len() + 1
        } else {
            l.entries.len()
        },
{
}


/// A log as the library makes them: it keeps 48 entries, or has no
/// capacity yet (a default log, which takes 48 at its first push), and
/// holds no more than 48 entries.
pub open spec fn log_ok(l: SyncLogView) -> bool {
    &&& (l.capacity == 0 || l.capacity == 48)
    &&& l.entries.len() <= 48
}

/// Every push keeps a log as the library makes them.
pub proof fn lemma_push_keeps_log_ok(l: SyncLogView, e: SyncEventView)
    requires
        log_ok(l),
    ensures
        log_ok(spec_push(l, e)),
{
}

} // verus!
