//! Time-stamped queues with a retention window and a length cap, as the
//! field keeps them for recent token hits and reflex counters.
use vstd::prelude::*;

verus! {

/// How long ago `ts` was at `now`, zero for a time not yet past.
pub open spec fn age(now: u64, ts: u64) -> int {
    if now >= ts { now - ts } else { 0 }
}

/// Number of leading entries older than `retention` at `now`.
pub open spec fn stale_prefix_len<T>(s: Seq<(u64, T)>, now: u64, retention: u64) -> nat
    decreases s.len(),
{
    if s.len() == 0 || age(now, s[0].0) <= retention {
        0
    } else {
        1 + stale_prefix_len(s.drop_first(), now, retention)
    }
}

/// Number of trailing entries stamped at or after `cutoff`.
pub open spec fn fresh_suffix_len<T>(s: Seq<(u64, T)>, cutoff: u64) -> nat
    decreases s.len(),
{
    if s.len() == 0 || s.last().0 < cutoff {
        0
    } else {
        1 + fresh_suffix_len(s.drop_last(), cutoff)
    }
}

pub proof fn lemma_stale_prefix_len_bound<T>(s: Seq<(u64, T)>, now: u64, retention: u64)
    ensures
        stale_prefix_len(s, now, retention) <= s.len(),
    decreases s.len(),
{
    if s.len() > 0 {
        lemma_stale_prefix_len_bound(s.drop_first(), now, retention);
    }
}

pub proof fn lemma_fresh_suffix_len_bound<T>(s: Seq<(u64, T)>, cutoff: u64)
    ensures
        fresh_suffix_len(s, cutoff) <= s.len(),
    decreases s.len(),
{
    if s.len() > 0 {
        lemma_fresh_suffix_len_bound(s.drop_last(), cutoff);
    }
}

/// The entries after recording `item` at `now`: appended at the end, then
/// the entries older than `retention` dropped from the front, then the
/// oldest dropped until at most `cap` remain.
pub open spec fn spec_record<T>(s: Seq<(u64, T)>, now: u64, item: T, retention: u64, cap: nat) -> Seq<(u64, T)> {
    let t = s.push((now, item));
    let u = t.skip(stale_prefix_len(t, now, retention) as int);
    if u.len() > cap {
        u.skip(u.len() - cap)
    } else {
        u
    }
}

/// Entries stamped in the window of `window` ms that ends at `now`: the
/// newest entries back to the first one older than the window.
pub open spec fn spec_recent<T>(s: Seq<(u64, T)>, now: u64, window: u64) -> Seq<(u64, T)> {
    let cutoff = if now >= window { (now - window) as u64 } else { 0 };
    s.skip(s.len() - fresh_suffix_len(s, cutoff))
}

/// A queue of time-stamped entries, oldest first.
pub struct TimedQueue<T> {
    entries: Vec<(u64, T)>,
}

impl<T: Copy> TimedQueue<T> {
    pub closed spec fn view(&self) -> Seq<(u64, T)> {
        self.entries@
    }

    pub fn new() -> (q: TimedQueue<T>)
        ensures
            q.view() == Seq::<(u64, T)>::empty(),
    {
        TimedQueue { entries: Vec::new() }
    }

    pub fn len(&self) -> (n: usize)
        ensures
            n == self.view().len(),
    {
        self.entries.len()
    }

    fn drop_front(&mut self, n: usize)
        requires
            n <= old(self).view().len(),
        ensures
            final(self).view() == old(self).view().skip(n as int),
    {
        let mut kept: Vec<(u64, T)> = Vec::new();
        let mut i: usize = n;
        while i < self.entries.len()
            invariant
                n <= i <= self.entries@.len(),
                kept@ == self.entries@.subrange(n as int, i as int),
            decreases self.entries.len() - i,
        {
            kept.push(self.entries[i]);
            assert(self.entries@.subrange(n as int, i + 1) =~= self.entries@.subrange(n as int, i as int).push(self.entries@[i as int]));
            i += 1;
        }
        assert(self.entries@.subrange(n as int, self.entries@.len() as int) =~= self.entries@.skip(n as int));
        self.entries = kept;
    }

    /// Records `item` at `now`, then forgets what is older than
    /// `retention` and what exceeds `cap`.
    pub fn record(&mut self, now: u64, item: T, retention: u64, cap: usize)
        ensures
            final(self).view() == spec_record(old(self).view(), now, item, retention, cap as nat),
    {
        let ghost t = self.entries@.push((now, item));
        self.entries.push((now, item));
        let mut k: usize = 0;
        proof {
            lemma_stale_prefix_len_bound(t, now, retention);
            assert(t.skip(0) =~= t);
        }
        while k < self.entries.len() && now.saturating_sub(self.entries[k].0) > retention
            invariant
                self.entries@ == t,
                k <= t.len(),
                stale_prefix_len(t, now, retention) == k + stale_prefix_len(t.skip(k as int), now, retention),
            decreases self.entries.len() - k,
        {
            assert(t.skip(k as int).drop_first() =~= t.skip(k + 1));
            k += 1;
        }
        proof {
            if k < t.len() {
                assert(t.skip(k as int)[0] == t[k as int]);
            } else {
                assert(t.skip(k as int).len() == 0);
            }
            assert(stale_prefix_len(t.skip(k as int), now, retention) == 0);
        }
        self.drop_front(k);
        if self.entries.len() > cap {
            let extra = self.entries.len() - cap;
            self.drop_front(extra);
        }
    }

    /// The entries of the last `window` ms up to `now`, oldest first.
    pub fn recent_for(&self, now: u64, window: u64) -> (r: Vec<(u64, T)>)
        ensures
            r@ == spec_recent(self.view(), now, window),
    {
        let cutoff = now.saturating_sub(window);
        let ghost s = self.entries@;
        let mut j: usize = self.entries.len();
        proof {
            lemma_fresh_suffix_len_bound(s, cutoff);
            assert(s.take(s.len() as int) =~= s);
        }
        while j > 0 && self.entries[j - 1].0 >= cutoff
            invariant
                s == self.entries@,
                j <= s.len(),
                fresh_suffix_len(s, cutoff) == (s.len() - j) + fresh_suffix_len(s.take(j as int), cutoff),
            decreases j,
        {
            assert(s.take(j as int).drop_last() =~= s.take(j - 1));
            j -= 1;
        }
        proof {
            if j > 0 {
                assert(s.take(j as int).last() == s[j - 1]);
            }
            assert(fresh_suffix_len(s.take(j as int), cutoff) == 0);
        }
        let mut r: Vec<(u64, T)> = Vec::new();
        let mut i: usize = j;
        while i < self.entries.len()
            invariant
                s == self.entries@,
                j <= i <= s.len(),
                r@ == s.subrange(j as int, i as int),
            decreases self.entries.len() - i,
        {
            r.push(self.entries[i]);
            assert(s.subrange(j as int, i + 1) =~= s.subrange(j as int, i as int).push(s[i as int]));
            i += 1;
        }
        assert(s.subrange(j as int, s.len() as int) =~= s.skip(j as int));
        r
    }
}

/// Recording never leaves more than `cap` entries and keeps the new entry
/// last when `cap` allows any; when stamps never decrease and none lies
/// after `now`, nothing older than `retention` is kept.
pub proof fn lemma_record_bounded<T>(s: Seq<(u64, T)>, now: u64, item: T, retention: u64, cap: nat)
    ensures
        spec_record(s, now, item, retention, cap).len() <= cap,
        cap > 0 ==> spec_record(s, now, item, retention, cap).last() == (now, item),
        (forall|i: int, j: int| 0 <= i < j < s.len() ==> s[i].0 <= s[j].0) && (forall|i: int|
            0 <= i < s.len() ==> s[i].0 <= now) ==> forall|i: int|
            0 <= i < spec_record(s, now, item, retention, cap).len() ==> age(
                now,
                #[trigger] spec_record(s, now, item, retention, cap)[i].0,
            ) <= retention,
{
    let t = s.push((now, item));
    lemma_stale_prefix_len_bound(t, now, retention);
    let k = stale_prefix_len(t, now, retention);
    let u = t.skip(k as int);
    lemma_stale_first_fresh(t, now, retention);
    if k == t.len() {
        assert(age(now, t[t.len() - 1].0) > retention);
        assert(t[t.len() - 1].0 == now);
    }
    assert(u.last() == (now, item));
    let r = spec_record(s, now, item, retention, cap);
    if (forall|i: int, j: int| 0 <= i < j < s.len() ==> s[i].0 <= s[j].0) && (forall|i: int|
        0 <= i < s.len() ==> s[i].0 <= now) {
        assert forall|i: int| 0 <= i < u.len() implies age(now, #[trigger] u[i].0) <= retention by {
            assert(u[i] == t[k + i]);
            assert(t[k as int].0 <= t[k + i].0) by {
                if i > 0 {
                    if k + i < s.len() {
                        assert(t[k as int] == s[k as int] && t[k + i] == s[k + i]);
                    } else {
                        assert(t[k as int] == s[k as int]);
                    }
                }
            }
            assert(t[k + i].0 <= now) by {
                if k + i < s.len() {
                    assert(t[k + i] == s[k + i]);
                }
            }
        }
        assert forall|i: int| 0 <= i < r.len() implies age(now, #[trigger] r[i].0) <= retention by {
            if u.len() > cap {
                assert(r[i] == u[u.len() - cap + i]);
            } else {
                assert(r[i] == u[i]);
            }
        }
    }
    if u.len() > cap {
        let v = u.skip(u.len() - cap);
        if cap > 0 {
            assert(v.last() == u.last());
        }
    }
}

proof fn lemma_stale_first_fresh<T>(t: Seq<(u64, T)>, now: u64, retention: u64)
    ensures
        stale_prefix_len(t, now, retention) < t.len() ==> age(now, t[stale_prefix_len(t, now, retention) as int].0) <= retention,
        stale_prefix_len(t, now, retention) <= t.len(),
        forall|i: int| 0 <= i < stale_prefix_len(t, now, retention) ==> age(now, #[trigger] t[i].0) > retention,
    decreases t.len(),
{
    lemma_stale_prefix_len_bound(t, now, retention);
    if t.len() > 0 && age(now, t[0].0) > retention {
        lemma_stale_first_fresh(t.drop_first(), now, retention);
        assert forall|i: int| 0 <= i < stale_prefix_len(t, now, retention) implies age(now, #[trigger] t[i].0) > retention by {
            if i > 0 {
                assert(t[i] == t.drop_first()[i - 1]);
            }
        }
    }
}

} // verus!
