//! Usage counts of links and routes between cells: how often each was
//! taken and when last, with the least used route forgotten once the table
//! is full.
use vstd::prelude::*;

verus! {

/// How often a link or route was taken, and when last.
#[derive(Debug, Clone, Copy, PartialEq, Eq, Structural)]
pub struct UsageStat {
    pub hits: u64,
    pub last_used_ms: u64,
}

/// `a` is used less than `b`: fewer hits, or as many and longer ago.
pub open spec fn used_less(a: UsageStat, b: UsageStat) -> bool {
    a.hits < b.hits || (a.hits == b.hits && a.last_used_ms < b.last_used_ms)
}

/// Counts keyed by `(from, to)`, each key once, in the order first seen.
pub struct UsageTable {
    entries: Vec<((u64, u64), UsageStat)>,
}

pub open spec fn keys_unique(s: Seq<((u64, u64), UsageStat)>) -> bool {
    forall|i: int, j: int| 0 <= i < j < s.len() ==> s[i].0 != s[j].0
}

/// The position of the entry for `key`, if any.
pub open spec fn position_of(s: Seq<((u64, u64), UsageStat)>, key: (u64, u64)) -> Option<int> {
    if exists|i: int| 0 <= i < s.len() && s[i].0 == key {
        Some(choose|i: int| 0 <= i < s.len() && s[i].0 == key)
    } else {
        None
    }
}

/// The entry that eviction removes: the least used, the first of those
/// in listing order.
pub open spec fn is_eviction_choice(s: Seq<((u64, u64), UsageStat)>, i: int) -> bool {
    &&& 0 <= i < s.len()
    &&& forall|j: int| 0 <= j < s.len() ==> !used_less(#[trigger] s[j].1, s[i].1)
    &&& forall|j: int| 0 <= j < i ==> used_less(s[i].1, #[trigger] s[j].1)
}

/// The table after one more hit on `key` at `now`.
pub open spec fn spec_hit(s: Seq<((u64, u64), UsageStat)>, key: (u64, u64), now: u64) -> Seq<((u64, u64), UsageStat)> {
    match position_of(s, key) {
        Some(i) => s.update(
            i,
            (key, UsageStat { hits: if s[i].1.hits == u64::MAX { u64::MAX } else { (s[i].1.hits + 1) as u64 }, last_used_ms: now }),
        ),
        None => s.push((key, UsageStat { hits: 1, last_used_ms: now })),
    }
}

impl UsageTable {
    pub closed spec fn view(&self) -> Seq<((u64, u64), UsageStat)> {
        self.entries@
    }

    pub open spec fn wf(&self) -> bool {
        keys_unique(self.view())
    }

    pub fn new() -> (t: UsageTable)
        ensures
            t.wf(),
            t.view() == Seq::<((u64, u64), UsageStat)>::empty(),
    {
        UsageTable { entries: Vec::new() }
    }

    fn find(&self, key: (u64, u64)) -> (r: Option<usize>)
        requires
            self.wf(),
        ensures
            match r {
                Some(i) => position_of(self.view(), key) == Some(i as int),
                None => position_of(self.view(), key) is None,
            },
    {
        let mut i: usize = 0;
        while i < self.entries.len()
            invariant
                self.wf(),
                i <= self.entries@.len(),
                forall|k: int| 0 <= k < i ==> self.entries@[k].0 != key,
            decreases self.entries.len() - i,
        {
            if self.entries[i].0.0 == key.0 && self.entries[i].0.1 == key.1 {
                proof {
                    assert(self.entries@[i as int].0 == key);
                    let c = choose|c: int| 0 <= c < self.entries@.len() && self.entries@[c].0 == key;
                    assert(c == i);
                }
                return Some(i);
            }
            i += 1;
        }
        None
    }

    /// The counts for `key`, if it was taken.
    pub fn get(&self, from: u64, to: u64) -> (r: Option<UsageStat>)
        requires
            self.wf(),
        ensures
            match position_of(self.view(), (from, to)) {
                Some(i) => r == Some(self.view()[i].1),
                None => r is None,
            },
    {
        match self.find((from, to)) {
            Some(i) => Some(self.entries[i].1),
            None => None,
        }
    }

    /// Counts one more use of `from -> to` at `now`.
    pub fn hit(&mut self, from: u64, to: u64, now: u64)
        requires
            old(self).wf(),
        ensures
            final(self).wf(),
            final(self).view() == spec_hit(old(self).view(), (from, to), now),
    {
        let key = (from, to);
        match self.find(key) {
            Some(i) => {
                let old_stat = self.entries[i].1;
                let hits = old_stat.hits.saturating_add(1);
                self.entries.set(i, (key, UsageStat { hits, last_used_ms: now }));
            },
            None => {
                let ghost before = self.entries@;
                self.entries.push((key, UsageStat { hits: 1, last_used_ms: now }));
                assert forall|a: int, b: int| 0 <= a < b < self.entries@.len() implies self.entries@[a].0 != self.entries@[b].0 by {
                    if b == before.len() {
                        assert(before[a].0 != key);
                    }
                }
            },
        }
    }

    /// Records a link that exists, with no use yet, unless it is known.
    pub fn register(&mut self, from: u64, to: u64, now: u64)
        requires
            old(self).wf(),
        ensures
            final(self).wf(),
            final(self).view() == match position_of(old(self).view(), (from, to)) {
                Some(_) => old(self).view(),
                None => old(self).view().push(((from, to), UsageStat { hits: 0, last_used_ms: now })),
            },
    {
        let key = (from, to);
        if self.find(key).is_none() {
            let ghost before = self.entries@;
            self.entries.push((key, UsageStat { hits: 0, last_used_ms: now }));
            assert forall|a: int, b: int| 0 <= a < b < self.entries@.len() implies self.entries@[a].0 != self.entries@[b].0 by {
                if b == before.len() {
                    assert(before[a].0 != key);
                }
            }
        }
    }

    fn remove_at(&mut self, i: usize)
        requires
            old(self).wf(),
            i < old(self).view().len(),
        ensures
            final(self).wf(),
            final(self).view() == old(self).view().remove(i as int),
    {
        self.entries.remove(i);
        assert forall|a: int, b: int| 0 <= a < b < self.entries@.len() implies self.entries@[a].0 != self.entries@[b].0 by {
            let oa = if a < i { a } else { a + 1 };
            let ob = if b < i { b } else { b + 1 };
            assert(self.entries@[a] == old(self).entries@[oa]);
            assert(self.entries@[b] == old(self).entries@[ob]);
        }
    }

    /// Forgets `from -> to`.
    pub fn unregister(&mut self, from: u64, to: u64)
        requires
            old(self).wf(),
        ensures
            final(self).wf(),
            final(self).view() == match position_of(old(self).view(), (from, to)) {
                Some(i) => old(self).view().remove(i),
                None => old(self).view(),
            },
    {
        if let Some(i) = self.find((from, to)) {
            self.remove_at(i);
        }
    }

    /// Counts one more use of the route `from -> to` at `now`, then, when
    /// the table holds more than `cap` routes, forgets the least used one.
    pub fn hit_route(&mut self, from: u64, to: u64, now: u64, cap: usize)
        requires
            old(self).wf(),
        ensures
            final(self).wf(),
            ({
                let s = spec_hit(old(self).view(), (from, to), now);
                if s.len() > cap {
                    exists|i: int| is_eviction_choice(s, i) && final(self).view() == s.remove(i)
                } else {
                    final(self).view() == s
                }
            }),
    {
        self.hit(from, to, now);
        if self.entries.len() > cap {
            let i = self.least_used();
            self.remove_at(i);
        }
    }

    fn least_used(&self) -> (i: usize)
        requires
            self.view().len() > 0,
        ensures
            is_eviction_choice(self.view(), i as int),
    {
        let mut best: usize = 0;
        let mut k: usize = 1;
        while k < self.entries.len()
            invariant
                0 <= best < k <= self.entries@.len(),
                forall|j: int| 0 <= j < k ==> !used_less(#[trigger] self.entries@[j].1, self.entries@[best as int].1),
                forall|j: int| 0 <= j < best ==> used_less(self.entries@[best as int].1, #[trigger] self.entries@[j].1),
            decreases self.entries.len() - k,
        {
            let a = self.entries[k].1;
            let b = self.entries[best].1;
            if a.hits < b.hits || (a.hits == b.hits && a.last_used_ms < b.last_used_ms) {
                best = k;
            }
            k += 1;
        }
        best
    }

    /// Forgets every entry that starts or ends at `id`.
    pub fn purge(&mut self, id: u64)
        requires
            old(self).wf(),
        ensures
            final(self).wf(),
            final(self).view() == old(self).view().filter(|e: ((u64, u64), UsageStat)| e.0.0 != id && e.0.1 != id),
    {
        let ghost before = self.entries@;
        let ghost keep = |e: ((u64, u64), UsageStat)| e.0.0 != id && e.0.1 != id;
        let mut kept: Vec<((u64, u64), UsageStat)> = Vec::new();
        let mut i: usize = 0;
        while i < self.entries.len()
            invariant
                before == self.entries@,
                keep == (|e: ((u64, u64), UsageStat)| e.0.0 != id && e.0.1 != id),
                i <= before.len(),
                kept@ == before.take(i as int).filter(keep),
            decreases self.entries.len() - i,
        {
            proof {
                reveal_with_fuel(Seq::<_>::filter, 1);
                assert(before.take(i + 1).drop_last() =~= before.take(i as int));
            }
            let e = self.entries[i];
            if e.0.0 != id && e.0.1 != id {
                kept.push(e);
            }
            i += 1;
        }
        assert(before.take(before.len() as int) =~= before);
        self.entries = kept;
        assert forall|a: int, b: int| 0 <= a < b < self.entries@.len() implies self.entries@[a].0 != self.entries@[b].0 by {
            lemma_filter_unique(before, keep);
        }
    }
}

/// The counts recorded for `key`, if any.
pub open spec fn stat_of(s: Seq<((u64, u64), UsageStat)>, key: (u64, u64)) -> Option<UsageStat> {
    match position_of(s, key) {
        Some(i) => Some(s[i].1),
        None => None,
    }
}

/// With distinct keys, the entry found for a key is the one that holds it.
proof fn lemma_position_unique(s: Seq<((u64, u64), UsageStat)>, key: (u64, u64), i: int)
    requires
        keys_unique(s),
        0 <= i < s.len(),
        s[i].0 == key,
    ensures
        position_of(s, key) == Some(i),
{
    let j = choose|j: int| 0 <= j < s.len() && s[j].0 == key;
    if j < i {
        assert(s[j].0 != s[i].0);
    } else if i < j {
        assert(s[i].0 != s[j].0);
    }
}

/// One more use of `key` at `now` counts one more hit for it (a first use
/// counts one; the count stops at `u64::MAX`) and stamps it `now`; every
/// other key keeps its counts.
pub proof fn lemma_hit_counts_one_use(s: Seq<((u64, u64), UsageStat)>, key: (u64, u64), now: u64)
    requires
        keys_unique(s),
    ensures
        ({
            let t = spec_hit(s, key, now);
            &&& keys_unique(t)
            &&& stat_of(t, key) == Some(
                UsageStat {
                    hits: match stat_of(s, key) {
                        Some(st) => if st.hits == u64::MAX { u64::MAX } else { (st.hits + 1) as u64 },
                        None => 1,
                    },
                    last_used_ms: now,
                },
            )
            &&& forall|k: (u64, u64)| k != key ==> #[trigger] stat_of(t, k) == stat_of(s, k)
        }),
{
    let t = spec_hit(s, key, now);
    match position_of(s, key) {
        Some(i) => {
            assert(0 <= i < s.len() && s[i].0 == key);
            assert forall|a: int, b: int| 0 <= a < b < t.len() implies t[a].0 != t[b].0 by {
                assert(t[a].0 == s[a].0 && t[b].0 == s[b].0);
            }
            lemma_position_unique(t, key, i);
            assert forall|k: (u64, u64)| k != key implies #[trigger] stat_of(t, k) == stat_of(s, k) by {
                if exists|j: int| 0 <= j < s.len() && s[j].0 == k {
                    let j = choose|j: int| 0 <= j < s.len() && s[j].0 == k;
                    lemma_position_unique(s, k, j);
                    assert(t[j] == s[j]);
                    lemma_position_unique(t, k, j);
                } else {
                    assert(!exists|j: int| 0 <= j < t.len() && t[j].0 == k) by {
                        if exists|j: int| 0 <= j < t.len() && t[j].0 == k {
                            let j = choose|j: int| 0 <= j < t.len() && t[j].0 == k;
                            assert(s[j].0 == k);
                        }
                    }
                }
            }
        },
        None => {
            assert(!exists|j: int| 0 <= j < s.len() && s[j].0 == key);
            assert forall|a: int, b: int| 0 <= a < b < t.len() implies t[a].0 != t[b].0 by {
                if b == s.len() {
                    assert(s[a].0 != key);
                } else {
                    assert(t[a] == s[a] && t[b] == s[b]);
                }
            }
            lemma_position_unique(t, key, s.len() as int);
            assert forall|k: (u64, u64)| k != key implies #[trigger] stat_of(t, k) == stat_of(s, k) by {
                if exists|j: int| 0 <= j < s.len() && s[j].0 == k {
                    let j = choose|j: int| 0 <= j < s.len() && s[j].0 == k;
                    lemma_position_unique(s, k, j);
                    assert(t[j] == s[j]);
                    lemma_position_unique(t, k, j);
                } else {
                    assert(!exists|j: int| 0 <= j < t.len() && t[j].0 == k) by {
                        if exists|j: int| 0 <= j < t.len() && t[j].0 == k {
                            let j = choose|j: int| 0 <= j < t.len() && t[j].0 == k;
                            if j < s.len() {
                                assert(s[j].0 == k);
                            }
                        }
                    }
                }
            }
        },
    }
}

/// Filtering keeps keys distinct.
proof fn lemma_filter_unique(s: Seq<((u64, u64), UsageStat)>, keep: spec_fn(((u64, u64), UsageStat)) -> bool)
    requires
        keys_unique(s),
    ensures
        keys_unique(s.filter(keep)),
    decreases s.len(),
{
    reveal_with_fuel(Seq::<_>::filter, 1);
    if s.len() > 0 {
        let init = s.drop_last();
        assert(keys_unique(init));
        lemma_filter_unique(init, keep);
        let fi = init.filter(keep);
        if keep(s.last()) {
            assert(s.filter(keep) =~= fi.push(s.last()));
            assert forall|a: int| 0 <= a < fi.len() implies fi[a].0 != s.last().0 by {
                assert(fi.contains(fi[a]));
                init.lemma_filter_contains_rev(keep, fi[a]);
                let j = choose|j: int| 0 <= j < init.len() && init[j] == fi[a];
                assert(s[j] == init[j]);
            }
        }
    }
}

} // verus!
