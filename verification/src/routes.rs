//! The usage records of the routes an impulse took: each step along a
//! linked pair counts as a use of that link, and every step counts as a use
//! of that route, the least used route forgotten once there are too many.
use vstd::prelude::*;
use crate::replay::{linked, CellView, FieldCore};
use crate::usage::{is_eviction_choice, spec_hit, used_less, UsageStat, UsageTable};

verus! {

/// How many routes are remembered.
pub const ROUTE_CAP: usize = 2048;

/// The entry that eviction removes from `s`.
pub open spec fn eviction_index(s: Seq<((u64, u64), UsageStat)>) -> int {
    choose|i: int| is_eviction_choice(s, i)
}

/// At most one entry is the eviction choice.
pub proof fn lemma_eviction_choice_unique(s: Seq<((u64, u64), UsageStat)>, i: int, j: int)
    requires
        is_eviction_choice(s, i),
        is_eviction_choice(s, j),
    ensures
        i == j,
{
    if i < j {
        assert(used_less(s[j].1, s[i].1));
        assert(!used_less(s[j].1, s[i].1));
    } else if j < i {
        assert(used_less(s[i].1, s[j].1));
        assert(!used_less(s[i].1, s[j].1));
    }
}

/// The route table after one more use of `key` at `now`.
pub open spec fn spec_route_hit(s: Seq<((u64, u64), UsageStat)>, key: (u64, u64), now: u64) -> Seq<
    ((u64, u64), UsageStat),
> {
    let t = spec_hit(s, key, now);
    if t.len() > ROUTE_CAP {
        t.remove(eviction_index(t))
    } else {
        t
    }
}

/// The link and route tables after the first `k` steps of `seq`.
pub open spec fn spec_route_sequence(
    cells: Map<u64, CellView>,
    links: Seq<((u64, u64), UsageStat)>,
    routes: Seq<((u64, u64), UsageStat)>,
    seq: Seq<u64>,
    now: u64,
    k: nat,
) -> (Seq<((u64, u64), UsageStat)>, Seq<((u64, u64), UsageStat)>)
    decreases k,
{
    if k == 0 {
        (links, routes)
    } else {
        let (l, r) = spec_route_sequence(cells, links, routes, seq, now, (k - 1) as nat);
        let from = seq[k - 1];
        let to = seq[k as int];
        (
            if linked(cells, from, to) {
                spec_hit(l, (from, to), now)
            } else {
                l
            },
            spec_route_hit(r, (from, to), now),
        )
    }
}

/// Records the steps of `sequence` at the field's time: a use of each link
/// it follows and of each route it takes.
pub fn record_route_sequence<R>(
    field: &FieldCore<R>,
    links: &mut UsageTable,
    routes: &mut UsageTable,
    sequence: &[u64],
)
    requires
        field.wf(),
        old(links).wf(),
        old(routes).wf(),
    ensures
        final(links).wf(),
        final(routes).wf(),
        ({
            let steps: nat = if sequence@.len() == 0 { 0 } else { (sequence@.len() - 1) as nat };
            (final(links).view(), final(routes).view()) == spec_route_sequence(
                field@.cells,
                old(links).view(),
                old(routes).view(),
                sequence@,
                field@.now_ms,
                steps,
            )
        }),
{
    let now = field.now_ms();
    let ghost l0 = links.view();
    let ghost r0 = routes.view();
    if sequence.len() < 2 {
        return;
    }
    let mut k: usize = 1;
    while k < sequence.len()
        invariant
            field.wf(),
            links.wf(),
            routes.wf(),
            now == field@.now_ms,
            1 <= k <= sequence@.len(),
            (links.view(), routes.view()) == spec_route_sequence(field@.cells, l0, r0, sequence@, now, (k - 1) as nat),
        decreases sequence.len() - k,
    {
        let from = sequence[k - 1];
        let to = sequence[k];
        if field.has_link(from, to) {
            links.hit(from, to, now);
        }
        let ghost before = routes.view();
        routes.hit_route(from, to, now, ROUTE_CAP);
        proof {
            let t = spec_hit(before, (from, to), now);
            if t.len() > ROUTE_CAP {
                let i = choose|i: int| is_eviction_choice(t, i) && routes.view() == t.remove(i);
                lemma_eviction_choice_unique(t, i, eviction_index(t));
            }
        }
        k += 1;
    }
}

} // verus!
