//! Groups of cells that fire together: the co-firing graph and its
//! connected components.
use vstd::prelude::*;

use crate::resonant::SyncGroup;

verus! {

/// A co-firing graph: each node with the nodes it fired together with.
/// Built by [`build_adjacency`], which keeps it well formed: every node is
/// listed once, and every edge goes both ways.
pub struct Adjacency {
    keys: Vec<u64>,
    neighbours: Vec<Vec<u64>>,
}

/// The abstract value of an [`Adjacency`]: the nodes in listing order and
/// the neighbours of each.
pub struct AdjModel {
    pub keys: Seq<u64>,
    pub nbrs: Seq<Seq<u64>>,
}

/// `u` is listed with `v` among its neighbours.
pub open spec fn edge(m: AdjModel, u: u64, v: u64) -> bool {
    exists|i: int| 0 <= i < m.keys.len() && m.keys[i] == u && #[trigger] m.nbrs[i].contains(v)
}

pub open spec fn unique_keys(m: AdjModel) -> bool {
    forall|i: int, j: int| 0 <= i < j < m.keys.len() ==> m.keys[i] != m.keys[j]
}

pub open spec fn symmetric(m: AdjModel) -> bool {
    forall|u: u64, v: u64| edge(m, u, v) ==> edge(m, v, u)
}

/// A walk along edges.
pub open spec fn is_path(m: AdjModel, p: Seq<u64>) -> bool {
    p.len() >= 1 && forall|i: int| 0 <= i < p.len() - 1 ==> edge(m, #[trigger] p[i], p[i + 1])
}

/// `y` can be reached from `x` along edges.
pub open spec fn reaches(m: AdjModel, x: u64, y: u64) -> bool {
    exists|p: Seq<u64>| #[trigger] is_path(m, p) && p[0] == x && p.last() == y
}

/// No edge leaves the nodes of `s`.
pub open spec fn closed(m: AdjModel, s: Seq<u64>) -> bool {
    forall|u: u64, v: u64| s.contains(u) && #[trigger] edge(m, u, v) ==> s.contains(v)
}

/// `gs` lists the connected components of more than one node: each group
/// is connected from its first node, closed under edges and free of
/// repeats; no two groups share a node; and every listed node with an
/// edge to another node is in a group.
pub open spec fn component_listing(m: AdjModel, gs: Seq<Seq<u64>>) -> bool {
    &&& forall|i: int| 0 <= i < gs.len() ==> (#[trigger] gs[i]).len() > 1 && gs[i].no_duplicates()
    &&& forall|i: int| 0 <= i < gs.len() ==> closed(m, #[trigger] gs[i])
    &&& forall|i: int, x: u64| 0 <= i < gs.len() && #[trigger] gs[i].contains(x) ==> reaches(m, gs[i][0], x)
    &&& forall|i: int, j: int, x: u64| 0 <= i < j < gs.len() && #[trigger] gs[i].contains(x) ==> !(#[trigger] gs[j].contains(x))
    &&& forall|u: u64, v: u64| m.keys.contains(u) && u != v && #[trigger] edge(m, u, v) ==> exists|i: int| 0 <= i < gs.len() && #[trigger] gs[i].contains(u)
}

/// One more edge at the end of a walk.
pub proof fn lemma_reach_step(m: AdjModel, x: u64, y: u64, z: u64)
    requires
        reaches(m, x, y),
        edge(m, y, z),
    ensures
        reaches(m, x, z),
{
    let p = choose|p: Seq<u64>| #[trigger] is_path(m, p) && p[0] == x && p.last() == y;
    let q = p.push(z);
    assert forall|i: int| 0 <= i < q.len() - 1 implies edge(m, #[trigger] q[i], q[i + 1]) by {
        if i < p.len() - 1 {
            assert(q[i] == p[i] && q[i + 1] == p[i + 1]);
        } else {
            assert(q[i] == y);
        }
    }
    assert(is_path(m, q));
}

/// Walks compose.
pub proof fn lemma_reach_trans(m: AdjModel, x: u64, y: u64, z: u64)
    requires
        reaches(m, x, y),
        reaches(m, y, z),
    ensures
        reaches(m, x, z),
{
    let p = choose|p: Seq<u64>| #[trigger] is_path(m, p) && p[0] == x && p.last() == y;
    let q = choose|q: Seq<u64>| #[trigger] is_path(m, q) && q[0] == y && q.last() == z;
    let r = p + q.drop_first();
    assert forall|i: int| 0 <= i < r.len() - 1 implies edge(m, #[trigger] r[i], r[i + 1]) by {
        if i < p.len() - 1 {
            assert(r[i] == p[i] && r[i + 1] == p[i + 1]);
        } else if i == p.len() - 1 {
            assert(r[i] == y);
            assert(r[i + 1] == q[1]);
            assert(q[0] == y);
            assert(edge(m, q[0], q[1]));
        } else {
            let j = i - p.len() + 1;
            assert(r[i] == q[j] && r[i + 1] == q[j + 1]);
            assert(edge(m, q[j], q[j + 1]));
        }
    }
    if q.len() == 1 {
        assert(r =~= p);
    } else {
        assert(r.last() == q.last());
    }
    assert(is_path(m, r));
}

/// In a symmetric graph every walk can be walked back.
pub proof fn lemma_reach_symmetric(m: AdjModel, x: u64, y: u64)
    requires
        symmetric(m),
        reaches(m, x, y),
    ensures
        reaches(m, y, x),
{
    let p = choose|p: Seq<u64>| #[trigger] is_path(m, p) && p[0] == x && p.last() == y;
    let r = p.reverse();
    assert forall|i: int| 0 <= i < r.len() - 1 implies edge(m, #[trigger] r[i], r[i + 1]) by {
        let a = p.len() - 1 - i;
        assert(r[i] == p[a] && r[i + 1] == p[a - 1]);
        assert(edge(m, p[a - 1], p[a]));
    }
    assert(is_path(m, r));
}

/// What a closed set holds, it holds with everything reachable from it.
pub proof fn lemma_closed_keeps_reach(m: AdjModel, s: Seq<u64>, x: u64, y: u64)
    requires
        closed(m, s),
        s.contains(x),
        reaches(m, x, y),
    ensures
        s.contains(y),
{
    let p = choose|p: Seq<u64>| #[trigger] is_path(m, p) && p[0] == x && p.last() == y;
    lemma_closed_keeps_path(m, s, p, p.len() - 1);
}

proof fn lemma_closed_keeps_path(m: AdjModel, s: Seq<u64>, p: Seq<u64>, k: int)
    requires
        closed(m, s),
        is_path(m, p),
        s.contains(p[0]),
        0 <= k < p.len(),
    ensures
        s.contains(p[k]),
    decreases k,
{
    if k > 0 {
        lemma_closed_keeps_path(m, s, p, k - 1);
        assert(edge(m, p[k - 1], p[k]));
    }
}

/// Two listed nodes reach one another exactly when they are in the same
/// group: the groups are the graph's connected components.
pub proof fn lemma_groups_are_components(m: AdjModel, gs: Seq<Seq<u64>>, i: int, j: int, x: u64, y: u64)
    requires
        symmetric(m),
        component_listing(m, gs),
        0 <= i < gs.len(),
        0 <= j < gs.len(),
        gs[i].contains(x),
        gs[j].contains(y),
    ensures
        reaches(m, x, y) <==> i == j,
{
    if i == j {
        assert(reaches(m, gs[i][0], x));
        assert(reaches(m, gs[i][0], y));
        lemma_reach_symmetric(m, gs[i][0], x);
        lemma_reach_trans(m, x, gs[i][0], y);
    } else if reaches(m, x, y) {
        assert(closed(m, gs[i]));
        lemma_closed_keeps_reach(m, gs[i], x, y);
        if i < j {
            assert(!gs[j].contains(y));
        } else {
            assert(!gs[i].contains(y));
        }
    }
}

proof fn lemma_reach_self(m: AdjModel, x: u64)
    ensures
        reaches(m, x, x),
{
    let p = seq![x];
    assert(is_path(m, p));
}

proof fn lemma_seen_bound(seen: Seq<u64>, keys: Seq<u64>)
    requires
        seen.no_duplicates(),
        forall|x: u64| seen.contains(x) ==> keys.contains(x),
    ensures
        seen.len() <= keys.len(),
{
    broadcast use vstd::seq_lib::seq_to_set_is_finite;
    seen.unique_seq_to_set();
    keys.lemma_cardinality_of_set();
    assert(seen.to_set().subset_of(keys.to_set()));
    vstd::set_lib::lemma_len_subset(seen.to_set(), keys.to_set());
}

impl Adjacency {
    pub closed spec fn model(&self) -> AdjModel {
        AdjModel { keys: self.keys@, nbrs: Seq::new(self.neighbours@.len(), |i: int| self.neighbours@[i]@) }
    }

    pub closed spec fn wf(&self) -> bool {
        &&& self.keys@.len() == self.neighbours@.len()
        &&& unique_keys(self.model())
    }

    fn key_index(&self, u: u64) -> (r: Option<usize>)
        requires
            self.wf(),
        ensures
            r matches Some(i) ==> i < self.keys@.len() && self.keys@[i as int] == u,
            r is None ==> !self.keys@.contains(u),
    {
        let mut i: usize = 0;
        while i < self.keys.len()
            invariant
                i <= self.keys@.len(),
                forall|k: int| 0 <= k < i ==> self.keys@[k] != u,
            decreases self.keys.len() - i,
        {
            if self.keys[i] == u {
                return Some(i);
            }
            i += 1;
        }
        None
    }

    /// Lists `v` among the neighbours of `u`.
    fn add_edge(&mut self, u: u64, v: u64)
        requires
            old(self).wf(),
        ensures
            final(self).wf(),
            forall|a: u64, b: u64| #[trigger] edge(final(self).model(), a, b) <==> (edge(old(self).model(), a, b) || (a == u && b == v)),
    {
        let ghost m0 = self.model();
        match self.key_index(u) {
            Some(i) => {
                let mut list = self.neighbours[i].clone();
                assert(list@ =~= m0.nbrs[i as int]) by {
                    assert forall|k: int| 0 <= k < list@.len() implies list@[k] == m0.nbrs[i as int][k] by {
                        assert(cloned::<u64>(self.neighbours@[i as int]@[k], list@[k]));
                    }
                }
                list.push(v);
                self.neighbours.set(i, list);
                let ghost m1 = self.model();
                assert(m1.keys == m0.keys);
                assert(m1.nbrs =~= m0.nbrs.update(i as int, m0.nbrs[i as int].push(v)));
                assert forall|a: u64, b: u64| #[trigger] edge(m1, a, b) <==> (edge(m0, a, b) || (a == u && b == v)) by {
                    if edge(m1, a, b) {
                        let j = choose|j: int| 0 <= j < m1.keys.len() && m1.keys[j] == a && #[trigger] m1.nbrs[j].contains(b);
                        if j != i {
                            assert(m0.nbrs[j].contains(b));
                        } else if b != v {
                            let k = choose|k: int| 0 <= k < m1.nbrs[j].len() && m1.nbrs[j][k] == b;
                            assert(m0.nbrs[j][k] == b);
                            assert(m0.nbrs[j].contains(b));
                        }
                    }
                    if edge(m0, a, b) {
                        let j = choose|j: int| 0 <= j < m0.keys.len() && m0.keys[j] == a && #[trigger] m0.nbrs[j].contains(b);
                        let k = choose|k: int| 0 <= k < m0.nbrs[j].len() && m0.nbrs[j][k] == b;
                        assert(m1.nbrs[j][k] == b);
                        assert(m1.nbrs[j].contains(b));
                    }
                    if a == u && b == v {
                        assert(m1.nbrs[i as int][m0.nbrs[i as int].len() as int] == v);
                        assert(m1.nbrs[i as int].contains(v));
                    }
                }
            },
            None => {
                self.keys.push(u);
                let mut list: Vec<u64> = Vec::new();
                list.push(v);
                self.neighbours.push(list);
                let ghost m1 = self.model();
                let ghost n = m0.keys.len() as int;
                assert(m1.keys =~= m0.keys.push(u));
                assert(m1.nbrs =~= m0.nbrs.push(seq![v]));
                assert forall|a: u64, b: u64| #[trigger] edge(m1, a, b) <==> (edge(m0, a, b) || (a == u && b == v)) by {
                    if edge(m1, a, b) {
                        let j = choose|j: int| 0 <= j < m1.keys.len() && m1.keys[j] == a && #[trigger] m1.nbrs[j].contains(b);
                        if j < n {
                            assert(m0.nbrs[j].contains(b));
                        } else {
                            assert(m1.nbrs[j] == seq![v]);
                        }
                    }
                    if edge(m0, a, b) {
                        let j = choose|j: int| 0 <= j < m0.keys.len() && m0.keys[j] == a && #[trigger] m0.nbrs[j].contains(b);
                        assert(m1.nbrs[j] == m0.nbrs[j]);
                    }
                    if a == u && b == v {
                        assert(m1.nbrs[n][0] == v);
                        assert(m1.nbrs[n].contains(v));
                    }
                }
            },
        }
    }
}

fn contains_u64(v: &Vec<u64>, x: u64) -> (r: bool)
    ensures
        r == v@.contains(x),
{
    let mut i: usize = 0;
    while i < v.len()
        invariant
            i <= v@.len(),
            forall|k: int| 0 <= k < i ==> v@[k] != x,
        decreases v.len() - i,
    {
        if v[i] == x {
            assert(v@[i as int] == x);
            return true;
        }
        i += 1;
    }
    false
}

pub open spec fn groups_view(g: Seq<Vec<u64>>) -> Seq<Seq<u64>> {
    Seq::new(g.len(), |i: int| g[i]@)
}

/// The connected components of more than one node, each listed in the
/// order a depth-first walk from its first node visits them, in the order
/// of their first nodes in the graph's listing.
pub fn extract_components(adj: &Adjacency) -> (groups: Vec<Vec<u64>>)
    requires
        adj.wf(),
        symmetric(adj.model()),
    ensures
        component_listing(adj.model(), groups_view(groups@)),
{
    let ghost m = adj.model();
    let mut seen: Vec<u64> = Vec::new();
    let mut groups: Vec<Vec<u64>> = Vec::new();
    let mut k: usize = 0;
    while k < adj.keys.len()
        invariant
            adj.wf(),
            symmetric(m),
            m == adj.model(),
            k <= adj.keys@.len(),
            seen@.no_duplicates(),
            forall|x: u64| seen@.contains(x) ==> m.keys.contains(x),
            closed(m, seen@),
            forall|kk: int| 0 <= kk < k ==> seen@.contains(#[trigger] m.keys[kk]),
            forall|i: int, x: u64| 0 <= i < groups@.len() && #[trigger] groups@[i]@.contains(x) ==> seen@.contains(x),
            forall|u: u64, v: u64| seen@.contains(u) && u != v && #[trigger] edge(m, u, v) ==> exists|i: int| 0 <= i < groups@.len() && #[trigger] groups@[i]@.contains(u),
            forall|i: int| 0 <= i < groups@.len() ==> (#[trigger] groups@[i]@).len() > 1 && groups@[i]@.no_duplicates(),
            forall|i: int| 0 <= i < groups@.len() ==> closed(m, #[trigger] groups@[i]@),
            forall|i: int, x: u64| 0 <= i < groups@.len() && #[trigger] groups@[i]@.contains(x) ==> reaches(m, groups@[i]@[0], x),
            forall|i: int, j: int, x: u64| 0 <= i < j < groups@.len() && #[trigger] groups@[i]@.contains(x) ==> !(#[trigger] groups@[j]@.contains(x)),
        decreases adj.keys.len() - k,
    {
        let node = adj.keys[k];
        assert(m.keys[k as int] == node);
        if !contains_u64(&seen, node) {
            let ghost seen0 = seen@;
            let mut queue: Vec<u64> = Vec::new();
            queue.push(node);
            let mut component: Vec<u64> = Vec::new();
            proof {
                lemma_reach_self(m, node);
                assert(seen@ =~= seen0 + component@);
            }
            while queue.len() > 0
                invariant
                    adj.wf(),
                    symmetric(m),
                    m == adj.model(),
                    m.keys.contains(node),
                    !seen0.contains(node),
                    closed(m, seen0),
                    forall|x: u64| seen0.contains(x) ==> m.keys.contains(x),
                    seen0.no_duplicates(),
                    seen@ == seen0 + component@,
                    seen@.no_duplicates(),
                    forall|x: u64| seen@.contains(x) ==> m.keys.contains(x),
                    forall|x: u64| queue@.contains(x) ==> m.keys.contains(x) && reaches(m, node, x),
                    forall|x: u64| component@.contains(x) ==> reaches(m, node, x),
                    component@.len() == 0 ==> queue@ == seq![node],
                    component@.len() > 0 ==> component@[0] == node,
                    forall|x: u64, v: u64| component@.contains(x) && #[trigger] edge(m, x, v) ==> seen@.contains(v) || queue@.contains(v),
                decreases m.keys.len() - seen@.len(), queue@.len(),
            {
                let ghost q0 = queue@;
                let current = queue.pop().unwrap();
                assert(q0 =~= queue@.push(current));
                assert(q0.contains(current)) by {
                    assert(q0[q0.len() - 1] == current);
                }
                assert forall|x: u64| queue@.contains(x) implies q0.contains(x) by {
                    let i = choose|i: int| 0 <= i < queue@.len() && queue@[i] == x;
                    assert(q0[i] == x);
                }
                if !contains_u64(&seen, current) {
                    proof {
                        lemma_seen_bound(seen@, m.keys);
                    }
                    let ghost s1 = seen@;
                    let ghost c1 = component@;
                    seen.push(current);
                    component.push(current);
                    proof {
                        assert(seen@ =~= seen0 + component@);
                        assert forall|x: u64| seen@.contains(x) implies s1.contains(x) || x == current by {
                            let i = choose|i: int| 0 <= i < seen@.len() && seen@[i] == x;
                            if i < s1.len() {
                                assert(s1[i] == x);
                            }
                        }
                        assert forall|x: u64| component@.contains(x) implies c1.contains(x) || x == current by {
                            let i = choose|i: int| 0 <= i < component@.len() && component@[i] == x;
                            if i < c1.len() {
                                assert(c1[i] == x);
                            }
                        }
                        assert forall|x: u64| s1.contains(x) implies seen@.contains(x) by {
                            let i = choose|i: int| 0 <= i < s1.len() && s1[i] == x;
                            assert(seen@[i] == x);
                        }
                        assert forall|x: u64| c1.contains(x) implies component@.contains(x) by {
                            let i = choose|i: int| 0 <= i < c1.len() && c1[i] == x;
                            assert(component@[i] == x);
                        }
                        assert(seen@[seen@.len() - 1] == current);
                        assert(component@[component@.len() - 1] == current);
                        if c1.len() == 0 {
                            assert(current == node);
                        } else {
                            assert(component@[0] == c1[0]);
                        }
                    }
                    match adj.key_index(current) {
                        Some(idx) => {
                            let list = &adj.neighbours[idx];
                            assert(m.nbrs[idx as int] == list@);
                            let mut j: usize = 0;
                            while j < list.len()
                                invariant
                                    adj.wf(),
                                    symmetric(m),
                                    m == adj.model(),
                                    idx < m.keys.len(),
                                    m.keys[idx as int] == current,
                                    m.nbrs[idx as int] == list@,
                                    reaches(m, node, current),
                                    j <= list@.len(),
                                    forall|x: u64| queue@.contains(x) ==> m.keys.contains(x) && reaches(m, node, x),
                                    forall|x: u64| q0.contains(x) && x != current ==> queue@.contains(x),
                                    forall|jj: int| 0 <= jj < j ==> seen@.contains(#[trigger] list@[jj]) || queue@.contains(list@[jj]),
                                decreases list.len() - j,
                            {
                                let next = list[j];
                                assert(m.nbrs[idx as int].contains(next)) by {
                                    assert(m.nbrs[idx as int][j as int] == next);
                                }
                                assert(edge(m, current, next));
                                if !contains_u64(&seen, next) {
                                    let ghost qb = queue@;
                                    queue.push(next);
                                    proof {
                                        lemma_reach_step(m, node, current, next);
                                        assert(edge(m, next, current));
                                        assert(m.keys.contains(next)) by {
                                            let i = choose|i: int| 0 <= i < m.keys.len() && m.keys[i] == next && #[trigger] m.nbrs[i].contains(current);
                                        }
                                        assert forall|x: u64| queue@.contains(x) implies qb.contains(x) || x == next by {
                                            let i = choose|i: int| 0 <= i < queue@.len() && queue@[i] == x;
                                            if i < qb.len() {
                                                assert(qb[i] == x);
                                            }
                                        }
                                        assert forall|x: u64| qb.contains(x) implies queue@.contains(x) by {
                                            let i = choose|i: int| 0 <= i < qb.len() && qb[i] == x;
                                            assert(queue@[i] == x);
                                        }
                                        assert(queue@[queue@.len() - 1] == next);
                                    }
                                }
                                j += 1;
                            }
                            proof {
                                assert forall|v: u64| #[trigger] edge(m, current, v) implies seen@.contains(v) || queue@.contains(v) by {
                                    let i = choose|i: int| 0 <= i < m.keys.len() && m.keys[i] == current && #[trigger] m.nbrs[i].contains(v);
                                    assert(i == idx);
                                    let jj = choose|jj: int| 0 <= jj < list@.len() && list@[jj] == v;
                                    assert(seen@.contains(list@[jj]) || queue@.contains(list@[jj]));
                                }
                            }
                        },
                        None => {
                            proof {
                                assert forall|v: u64| #[trigger] edge(m, current, v) implies false by {
                                    let i = choose|i: int| 0 <= i < m.keys.len() && m.keys[i] == current && #[trigger] m.nbrs[i].contains(v);
                                    assert(m.keys.contains(current));
                                }
                            }
                        },
                    }
                    proof {
                        assert(seen@.no_duplicates()) by {
                            assert forall|a: int, b: int| 0 <= a < seen@.len() && 0 <= b < seen@.len() && a != b implies seen@[a] != seen@[b] by {
                                if a < s1.len() && b < s1.len() {
                                    assert(seen@[a] == s1[a] && seen@[b] == s1[b]);
                                } else if a < s1.len() {
                                    assert(s1.contains(seen@[a]));
                                } else if b < s1.len() {
                                    assert(s1.contains(seen@[b]));
                                }
                            }
                        }
                        lemma_seen_bound(seen@, m.keys);
                        assert forall|x: u64, v: u64| component@.contains(x) && #[trigger] edge(m, x, v) implies seen@.contains(v) || queue@.contains(v) by {
                            if x != current {
                                assert(c1.contains(x));
                                assert(s1.contains(v) || q0.contains(v));
                                if q0.contains(v) && v != current {
                                    assert(queue@.contains(v));
                                }
                            }
                        }
                    }
                } else {
                    proof {
                        assert forall|x: u64, v: u64| component@.contains(x) && #[trigger] edge(m, x, v) implies seen@.contains(v) || queue@.contains(v) by {
                            if q0.contains(v) && v != current {
                                assert(queue@.contains(v));
                            }
                        }
                        if component@.len() == 0 {
                            assert(seen@ =~= seen0);
                            assert(current == node);
                        }
                    }
                }
            }
            proof {
                assert forall|x: u64, v: u64| component@.contains(x) && #[trigger] edge(m, x, v) implies component@.contains(v) by {
                    assert(seen@.contains(v));
                    let i = choose|i: int| 0 <= i < seen@.len() && seen@[i] == v;
                    if i < seen0.len() {
                        assert(seen0.contains(v));
                        assert(edge(m, v, x));
                        assert(seen0.contains(x));
                        let a = choose|a: int| 0 <= a < seen0.len() && seen0[a] == x;
                        let b = choose|b: int| 0 <= b < component@.len() && component@[b] == x;
                        assert(seen@[a] == x);
                        assert(seen@[seen0.len() + b] == x);
                    } else {
                        assert(component@[i - seen0.len()] == v);
                    }
                }
            }
            let ghost comp = component@;
            let ghost g0 = groups@;
            proof {
                assert(comp.no_duplicates()) by {
                    assert forall|a: int, b: int| 0 <= a < comp.len() && 0 <= b < comp.len() && a != b implies comp[a] != comp[b] by {
                        assert(seen@[seen0.len() + a] == comp[a]);
                        assert(seen@[seen0.len() + b] == comp[b]);
                    }
                }
                assert forall|x: u64| comp.contains(x) implies !seen0.contains(x) by {
                    let b = choose|b: int| 0 <= b < comp.len() && comp[b] == x;
                    if seen0.contains(x) {
                        let a = choose|a: int| 0 <= a < seen0.len() && seen0[a] == x;
                        assert(seen@[a] == x);
                        assert(seen@[seen0.len() + b] == x);
                    }
                }
                assert forall|x: u64| seen@.contains(x) implies seen0.contains(x) || comp.contains(x) by {
                    let i = choose|i: int| 0 <= i < seen@.len() && seen@[i] == x;
                    if i < seen0.len() {
                        assert(seen0[i] == x);
                    } else {
                        assert(comp[i - seen0.len()] == x);
                    }
                }
                assert forall|x: u64| seen0.contains(x) || comp.contains(x) implies seen@.contains(x) by {
                    if seen0.contains(x) {
                        let i = choose|i: int| 0 <= i < seen0.len() && seen0[i] == x;
                        assert(seen@[i] == x);
                    } else {
                        let i = choose|i: int| 0 <= i < comp.len() && comp[i] == x;
                        assert(seen@[seen0.len() + i] == x);
                    }
                }
                assert(comp.len() > 0);
                assert(comp.contains(node)) by {
                    assert(comp[0] == node);
                }
                assert forall|u: u64, v: u64| comp.contains(u) && u != v && #[trigger] edge(m, u, v) implies comp.len() > 1 by {
                    assert(comp.contains(v));
                    let a = choose|a: int| 0 <= a < comp.len() && comp[a] == u;
                    let b = choose|b: int| 0 <= b < comp.len() && comp[b] == v;
                    assert(a != b);
                }
            }
            if component.len() > 1 {
                groups.push(component);
                proof {
                    assert(groups@ == g0.push(groups@[g0.len() as int]));
                    assert(groups@[g0.len() as int]@ == comp);
                    assert forall|i: int| 0 <= i < g0.len() implies groups@[i] == g0[i] by {}
                }
            }
            proof {
                assert forall|u: u64, v: u64| seen@.contains(u) && #[trigger] edge(m, u, v) implies seen@.contains(v) by {
                    if seen0.contains(u) {
                        assert(seen0.contains(v));
                    } else {
                        assert(comp.contains(v));
                    }
                }
                assert forall|u: u64, v: u64| seen@.contains(u) && u != v && #[trigger] edge(m, u, v) implies exists|i: int| 0 <= i < groups@.len() && #[trigger] groups@[i]@.contains(u) by {
                    if seen0.contains(u) {
                        let i = choose|i: int| 0 <= i < g0.len() && #[trigger] g0[i]@.contains(u);
                        assert(groups@[i] == g0[i]);
                    } else {
                        assert(comp.len() > 1);
                        assert(groups@[g0.len() as int]@.contains(u));
                    }
                }
                assert forall|i: int, x: u64| 0 <= i < groups@.len() && #[trigger] groups@[i]@.contains(x) implies seen@.contains(x) by {
                    if i < g0.len() {
                        assert(groups@[i] == g0[i]);
                        assert(seen0.contains(x));
                    }
                }
                assert forall|i: int, j: int, x: u64| 0 <= i < j < groups@.len() && #[trigger] groups@[i]@.contains(x) implies !(#[trigger] groups@[j]@.contains(x)) by {
                    assert(groups@[i] == g0[i]);
                    if j < g0.len() {
                        assert(groups@[j] == g0[j]);
                    } else {
                        assert(seen0.contains(x));
                    }
                }
                assert forall|kk: int| 0 <= kk < k + 1 implies seen@.contains(#[trigger] m.keys[kk]) by {
                    if kk < k {
                        assert(seen0.contains(m.keys[kk]));
                    }
                }
            }
        }
        k += 1;
    }
    proof {
        let gs = groups_view(groups@);
        assert forall|u: u64, v: u64| m.keys.contains(u) && u != v && #[trigger] edge(m, u, v) implies exists|i: int| 0 <= i < gs.len() && #[trigger] gs[i].contains(u) by {
            let kk = choose|kk: int| 0 <= kk < m.keys.len() && m.keys[kk] == u;
            assert(seen@.contains(m.keys[kk]));
            let i = choose|i: int| 0 <= i < groups@.len() && #[trigger] groups@[i]@.contains(u);
            assert(gs[i] == groups@[i]@);
        }
    }
    groups
}

/// An edge that a list of co-firing pairs gives, either way round.
pub open spec fn paired(pairs: Seq<(u64, u64)>, a: u64, b: u64) -> bool {
    exists|j: int| 0 <= j < pairs.len() && (#[trigger] pairs[j] == (a, b) || pairs[j] == (b, a))
}

/// The graph of co-firing pairs: every pair joins its two nodes, both ways.
pub fn build_adjacency(pairs: &Vec<(u64, u64)>) -> (adj: Adjacency)
    ensures
        adj.wf(),
        forall|a: u64, b: u64| #[trigger] edge(adj.model(), a, b) <==> paired(pairs@, a, b),
        symmetric(adj.model()),
{
    let mut adj = Adjacency { keys: Vec::new(), neighbours: Vec::new() };
    assert(adj.model().keys =~= Seq::<u64>::empty());
    let mut i: usize = 0;
    while i < pairs.len()
        invariant
            i <= pairs@.len(),
            adj.wf(),
            forall|a: u64, b: u64| #[trigger] edge(adj.model(), a, b) <==> paired(pairs@.take(i as int), a, b),
        decreases pairs.len() - i,
    {
        let (u, v) = pairs[i];
        adj.add_edge(u, v);
        adj.add_edge(v, u);
        let ghost t0 = pairs@.take(i as int);
        let ghost t1 = pairs@.take(i + 1);
        assert forall|a: u64, b: u64| #[trigger] edge(adj.model(), a, b) <==> paired(t1, a, b) by {
            assert(t1[i as int] == (u, v));
            if paired(t0, a, b) {
                let j = choose|j: int| 0 <= j < t0.len() && (#[trigger] t0[j] == (a, b) || t0[j] == (b, a));
                assert(t1[j] == t0[j]);
            }
            if paired(t1, a, b) {
                let j = choose|j: int| 0 <= j < t1.len() && (#[trigger] t1[j] == (a, b) || t1[j] == (b, a));
                if j < i {
                    assert(t0[j] == t1[j]);
                }
            }
        }
        i += 1;
    }
    assert(pairs@.take(pairs@.len() as int) =~= pairs@);
    adj
}

// ---------------------------------------------------------------------------
// Ranking and naming the groups
// ---------------------------------------------------------------------------

/// Component `i` ranks before component `j`: it is larger, or as large and
/// listed earlier.
pub open spec fn ranks_before(c: Seq<Seq<u64>>, i: int, j: int) -> bool {
    c[i].len() > c[j].len() || (c[i].len() == c[j].len() && i < j)
}

/// `order` lists each index of `c` once, largest component first, ties in
/// their listing order.
pub open spec fn is_rank_order(c: Seq<Seq<u64>>, order: Seq<int>) -> bool {
    &&& order.len() == c.len()
    &&& forall|k: int| 0 <= k < order.len() ==> 0 <= #[trigger] order[k] < c.len()
    &&& forall|k1: int, k2: int| 0 <= k1 < k2 < order.len() ==> ranks_before(c, #[trigger] order[k1], #[trigger] order[k2])
}

pub open spec fn components_view(c: Seq<Vec<u64>>) -> Seq<Seq<u64>> {
    Seq::new(c.len(), |i: int| c[i]@)
}

fn clone_nodes(v: &Vec<u64>) -> (r: Vec<u64>)
    ensures
        r@ == v@,
{
    let r = v.clone();
    assert(r@ =~= v@) by {
        assert forall|k: int| 0 <= k < r@.len() implies r@[k] == v@[k] by {
            assert(cloned::<u64>(v@[k], r@[k]));
        }
    }
    r
}

/// Orders components largest first, keeping the listing order among
/// components of one size (a stable sort by descending size).
pub fn rank_components(components: &Vec<Vec<u64>>) -> (ranked: Vec<Vec<u64>>)
    ensures
        exists|order: Seq<int>| #[trigger] is_rank_order(components_view(components@), order) && ranked@.len()
            == order.len() && forall|k: int| 0 <= k < order.len() ==> #[trigger] ranked@[k]@
            == components@[order[k]]@,
{
    let ghost c = components_view(components@);
    let mut order: Vec<usize> = Vec::new();
    let mut i: usize = 0;
    while i < components.len()
        invariant
            c == components_view(components@),
            i <= components@.len(),
            order@.len() == i,
            forall|k: int| 0 <= k < order@.len() ==> #[trigger] order@[k] < i,
            forall|k1: int, k2: int| 0 <= k1 < k2 < order@.len() ==> ranks_before(c, #[trigger] order@[k1] as int, #[trigger] order@[k2] as int),
        decreases components.len() - i,
    {
        let len_i = components[i].len();
        let mut p: usize = 0;
        while p < order.len() && components[order[p]].len() >= len_i
            invariant
                c == components_view(components@),
                i < components@.len(),
                len_i == c[i as int].len(),
                p <= order@.len(),
                forall|k: int| 0 <= k < order@.len() ==> #[trigger] order@[k] < i,
                forall|k: int| 0 <= k < p ==> ranks_before(c, #[trigger] order@[k] as int, i as int),
            decreases order.len() - p,
        {
            assert(c[order@[p as int] as int] == components@[order@[p as int] as int]@);
            p += 1;
        }
        proof {
            if p < order@.len() {
                assert(c[order@[p as int] as int] == components@[order@[p as int] as int]@);
                assert(ranks_before(c, i as int, order@[p as int] as int));
            }
        }
        let ghost before = order@;
        order.insert(p, i);
        proof {
            assert forall|k: int| 0 <= k < order@.len() implies #[trigger] order@[k] < i + 1 by {
                if k < p {
                    assert(order@[k] == before[k]);
                } else if k > p {
                    assert(order@[k] == before[k - 1]);
                }
            }
            assert forall|k1: int, k2: int| 0 <= k1 < k2 < order@.len() implies ranks_before(c, #[trigger] order@[k1] as int, #[trigger] order@[k2] as int) by {
                if k2 < p {
                    assert(order@[k1] == before[k1] && order@[k2] == before[k2]);
                } else if k2 == p {
                    assert(order@[k1] == before[k1]);
                } else if k1 < p {
                    assert(order@[k1] == before[k1] && order@[k2] == before[k2 - 1]);
                } else if k1 == p {
                    assert(order@[k2] == before[k2 - 1]);
                    assert(ranks_before(c, i as int, before[p as int] as int));
                    if k2 - 1 > p {
                        assert(ranks_before(c, before[p as int] as int, before[k2 - 1] as int));
                    }
                } else {
                    assert(order@[k1] == before[k1 - 1] && order@[k2] == before[k2 - 1]);
                }
            }
        }
        i += 1;
    }
    let mut ranked: Vec<Vec<u64>> = Vec::new();
    let mut k: usize = 0;
    while k < order.len()
        invariant
            c == components_view(components@),
            order@.len() == components@.len(),
            forall|j: int| 0 <= j < order@.len() ==> #[trigger] order@[j] < components@.len(),
            k <= order@.len(),
            ranked@.len() == k,
            forall|j: int| 0 <= j < k ==> #[trigger] ranked@[j]@ == components@[order@[j] as int]@,
        decreases order.len() - k,
    {
        ranked.push(clone_nodes(&components[order[k]]));
        k += 1;
    }
    let ghost ord = Seq::new(order@.len(), |j: int| order@[j] as int);
    assert(is_rank_order(c, ord));
    ranked
}

/// The id of the `idx`-th group found at `now_ms`: the time shifted up by
/// 16 bits, plus the index, both wrapping at 2^64.
pub open spec fn spec_group_id(now_ms: u64, idx: u64) -> u64 {
    (((now_ms as int * 65536) % 0x1_0000_0000_0000_0000 + idx as int) % 0x1_0000_0000_0000_0000) as u64
}

pub fn group_id(now_ms: u64, idx: u64) -> (id: u64)
    ensures
        id == spec_group_id(now_ms, idx),
{
    now_ms.wrapping_mul(65536).wrapping_add(idx)
}

pub open spec fn strings_view(v: Seq<String>) -> Seq<Seq<char>> {
    Seq::new(v.len(), |i: int| v[i]@)
}

/// The groups of the first `n` ranked components: each of the first
/// `max_groups` components whose token list is not empty, with its id.
pub open spec fn spec_groups(
    ranked: Seq<Seq<u64>>,
    tokens: Seq<Seq<Seq<char>>>,
    max_groups: nat,
    now_ms: u64,
    n: nat,
) -> Seq<(u64, Seq<u64>, Seq<Seq<char>>)>
    decreases n,
{
    if n == 0 {
        seq![]
    } else {
        let rest = spec_groups(ranked, tokens, max_groups, now_ms, (n - 1) as nat);
        let idx = n - 1;
        if idx < max_groups && tokens[idx].len() > 0 {
            rest.push((spec_group_id(now_ms, idx as u64), ranked[idx], tokens[idx]))
        } else {
            rest
        }
    }
}

pub open spec fn group_view(g: SyncGroup) -> (u64, Seq<u64>, Seq<Seq<char>>) {
    (g.id, g.nodes@, strings_view(g.tokens@))
}

fn clone_strings(v: &Vec<String>) -> (r: Vec<String>)
    ensures
        strings_view(r@) == strings_view(v@),
{
    let mut r: Vec<String> = Vec::new();
    let mut i: usize = 0;
    while i < v.len()
        invariant
            i <= v@.len(),
            r@.len() == i,
            forall|k: int| 0 <= k < i ==> #[trigger] r@[k]@ == v@[k]@,
        decreases v.len() - i,
    {
        r.push(v[i].clone());
        i += 1;
    }
    assert(strings_view(r@) =~= strings_view(v@));
    r
}

/// Names the ranked components as synchronisation groups: at most
/// `max_groups` of them are considered, those without shared tokens are
/// skipped, and each keeps its rank in its id.
pub fn assemble_groups(ranked: &Vec<Vec<u64>>, tokens: &Vec<Vec<String>>, max_groups: u16, now_ms: u64) -> (groups: Vec<SyncGroup>)
    requires
        tokens@.len() == ranked@.len(),
    ensures
        Seq::new(groups@.len(), |k: int| group_view(groups@[k])) == spec_groups(
            components_view(ranked@),
            Seq::new(tokens@.len(), |i: int| strings_view(tokens@[i]@)),
            max_groups as nat,
            now_ms,
            ranked@.len(),
        ),
{
    let ghost rv = components_view(ranked@);
    let ghost tv = Seq::new(tokens@.len(), |i: int| strings_view(tokens@[i]@));
    let mut groups: Vec<SyncGroup> = Vec::new();
    let mut idx: usize = 0;
    while idx < ranked.len()
        invariant
            tokens@.len() == ranked@.len(),
            rv == components_view(ranked@),
            tv == Seq::new(tokens@.len(), |i: int| strings_view(tokens@[i]@)),
            idx <= ranked@.len(),
            Seq::new(groups@.len(), |k: int| group_view(groups@[k])) == spec_groups(rv, tv, max_groups as nat, now_ms, idx as nat),
        decreases ranked.len() - idx,
    {
        let ghost before = Seq::new(groups@.len(), |k: int| group_view(groups@[k]));
        if idx < max_groups as usize && tokens[idx].len() > 0 {
            assert(tv[idx as int] == strings_view(tokens@[idx as int]@));
            let g = SyncGroup {
                id: group_id(now_ms, idx as u64),
                nodes: clone_nodes(&ranked[idx]),
                tokens: clone_strings(&tokens[idx]),
            };
            groups.push(g);
            assert(Seq::new(groups@.len(), |k: int| group_view(groups@[k])) =~= before.push(group_view(g)));
        } else {
            assert(tv[idx as int].len() == tokens@[idx as int]@.len());
        }
        idx += 1;
    }
    groups
}

} // verus!
