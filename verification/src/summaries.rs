//! The most salient tokens of the field's status: the tokens held by the
//! most cells, ties broken by the tokens' order.
use vstd::prelude::*;

use crate::text::chars_of;

verus! {

/// `a` sorts before `b` as Rust orders strings (by code points, a proper
/// prefix first).
pub open spec fn seq_lt(a: Seq<char>, b: Seq<char>) -> bool
    decreases a.len(),
{
    if a.len() == 0 {
        b.len() > 0
    } else if b.len() == 0 {
        false
    } else if a[0] != b[0] {
        a[0] < b[0]
    } else {
        seq_lt(a.drop_first(), b.drop_first())
    }
}

pub proof fn lemma_seq_lt_trans(a: Seq<char>, b: Seq<char>, c: Seq<char>)
    requires
        seq_lt(a, b),
        seq_lt(b, c),
    ensures
        seq_lt(a, c),
    decreases a.len(),
{
    if a.len() > 0 && b.len() > 0 && c.len() > 0 && a[0] == b[0] && b[0] == c[0] {
        lemma_seq_lt_trans(a.drop_first(), b.drop_first(), c.drop_first());
    }
}

pub proof fn lemma_seq_lt_total(a: Seq<char>, b: Seq<char>)
    ensures
        seq_lt(a, b) || seq_lt(b, a) || a == b,
    decreases a.len(),
{
    if a.len() > 0 && b.len() > 0 && a[0] == b[0] {
        lemma_seq_lt_total(a.drop_first(), b.drop_first());
        if a.drop_first() == b.drop_first() {
            assert(a =~= seq![a[0]] + a.drop_first());
            assert(b =~= seq![b[0]] + b.drop_first());
        }
    } else if a.len() == 0 && b.len() == 0 {
        assert(a =~= b);
    }
}

pub proof fn lemma_seq_lt_irreflexive(a: Seq<char>)
    ensures
        !seq_lt(a, a),
    decreases a.len(),
{
    if a.len() > 0 {
        lemma_seq_lt_irreflexive(a.drop_first());
    }
}

pub proof fn lemma_seq_lt_asymmetric(a: Seq<char>, b: Seq<char>)
    requires
        seq_lt(a, b),
    ensures
        !seq_lt(b, a),
    decreases a.len(),
{
    if a.len() > 0 && b.len() > 0 && a[0] == b[0] {
        lemma_seq_lt_asymmetric(a.drop_first(), b.drop_first());
    }
}

/// Entry `i` ranks before entry `j`: held by more cells, or by as many
/// with a smaller token, or equal and listed earlier.
pub open spec fn token_before(c: Seq<(Seq<char>, usize)>, i: int, j: int) -> bool {
    c[i].1 > c[j].1 || (c[i].1 == c[j].1 && (seq_lt(c[i].0, c[j].0) || (c[i].0 == c[j].0 && i < j)))
}

proof fn lemma_token_before_trans(c: Seq<(Seq<char>, usize)>, i: int, j: int, k: int)
    requires
        token_before(c, i, j),
        token_before(c, j, k),
    ensures
        token_before(c, i, k),
{
    if c[i].1 == c[j].1 && c[j].1 == c[k].1 {
        if seq_lt(c[i].0, c[j].0) && seq_lt(c[j].0, c[k].0) {
            lemma_seq_lt_trans(c[i].0, c[j].0, c[k].0);
        }
    }
}

proof fn lemma_token_before_total(c: Seq<(Seq<char>, usize)>, i: int, j: int)
    requires
        i != j,
    ensures
        token_before(c, i, j) || token_before(c, j, i),
{
    lemma_seq_lt_total(c[i].0, c[j].0);
}

pub open spec fn entries_view(v: Seq<(String, usize)>) -> Seq<(Seq<char>, usize)> {
    Seq::new(v.len(), |i: int| (v[i].0@, v[i].1))
}

/// `order` lists each index of `c` once, in ranking order.
pub open spec fn is_token_order(c: Seq<(Seq<char>, usize)>, order: Seq<int>) -> bool {
    &&& order.len() == c.len()
    &&& forall|k: int| 0 <= k < order.len() ==> 0 <= #[trigger] order[k] < c.len()
    &&& forall|k1: int, k2: int| 0 <= k1 < k2 < order.len() ==> token_before(c, #[trigger] order[k1], #[trigger] order[k2])
}

fn str_less(a: &str, b: &str) -> (r: bool)
    ensures
        r == seq_lt(a@, b@),
{
    let x = chars_of(a);
    let y = chars_of(b);
    let mut i: usize = 0;
    assert(x@.skip(0) =~= x@);
    assert(y@.skip(0) =~= y@);
    while i < x.len() && i < y.len() && x[i] == y[i]
        invariant
            i <= x@.len(),
            i <= y@.len(),
            seq_lt(a@, b@) == seq_lt(x@.skip(i as int), y@.skip(i as int)),
            x@ == a@,
            y@ == b@,
        decreases x.len() - i,
    {
        assert(x@.skip(i as int).drop_first() =~= x@.skip(i + 1));
        assert(y@.skip(i as int).drop_first() =~= y@.skip(i + 1));
        i += 1;
    }
    if i == x.len() {
        assert(x@.skip(i as int).len() == 0);
        i < y.len()
    } else if i == y.len() {
        assert(y@.skip(i as int).len() == 0);
        false
    } else {
        assert(x@.skip(i as int)[0] == x@[i as int]);
        assert(y@.skip(i as int)[0] == y@[i as int]);
        x[i] < y[i]
    }
}

/// The tokens held by the most cells, at most three: `(token, cells)`
/// entries ranked by cells, most first, then by token.
pub fn top_salient_tokens(counts: &Vec<(String, usize)>) -> (top: Vec<String>)
    ensures
        exists|order: Seq<int>| #[trigger] is_token_order(entries_view(counts@), order) && top@.len() == (if order.len()
            < 3 { order.len() } else { 3 }) && forall|k: int| 0 <= k < top@.len() ==> #[trigger] top@[k]@
            == counts@[order[k]].0@,
{
    let ghost c = entries_view(counts@);
    let mut order: Vec<usize> = Vec::new();
    let mut i: usize = 0;
    while i < counts.len()
        invariant
            c == entries_view(counts@),
            i <= counts@.len(),
            order@.len() == i,
            forall|k: int| 0 <= k < order@.len() ==> #[trigger] order@[k] < i,
            forall|k1: int, k2: int| 0 <= k1 < k2 < order@.len() ==> token_before(c, #[trigger] order@[k1] as int, #[trigger] order@[k2] as int),
        decreases counts.len() - i,
    {
        let mut p: usize = 0;
        while p < order.len() && !(counts[i].1 > counts[order[p]].1 || (counts[i].1 == counts[order[p]].1 && str_less(
            counts[i].0.as_str(),
            counts[order[p]].0.as_str(),
        )))
            invariant
                c == entries_view(counts@),
                i < counts@.len(),
                p <= order@.len(),
                forall|k: int| 0 <= k < order@.len() ==> #[trigger] order@[k] < i,
                forall|k: int| 0 <= k < p ==> token_before(c, #[trigger] order@[k] as int, i as int),
            decreases order.len() - p,
        {
            proof {
                lemma_token_before_total(c, i as int, order@[p as int] as int);
            }
            p += 1;
        }
        let ghost before = order@;
        order.insert(p, i);
        proof {
            assert forall|k: int| 0 <= k < order@.len() implies #[trigger] order@[k] < i + 1 by {
                if k < p {
                    assert(order@[k] == before[k]);
                } else if k > p {
                    assert(order@[k] == before[k - 1]);
                }
            }
            assert forall|k1: int, k2: int| 0 <= k1 < k2 < order@.len() implies token_before(c, #[trigger] order@[k1] as int, #[trigger] order@[k2] as int) by {
                if k2 < p {
                    assert(order@[k1] == before[k1] && order@[k2] == before[k2]);
                } else if k2 == p {
                    assert(order@[k1] == before[k1]);
                } else if k1 < p {
                    assert(order@[k1] == before[k1] && order@[k2] == before[k2 - 1]);
                } else if k1 == p {
                    assert(order@[k2] == before[k2 - 1]);
                    assert(token_before(c, i as int, before[p as int] as int));
                    if k2 - 1 > p {
                        lemma_token_before_trans(c, i as int, before[p as int] as int, before[k2 - 1] as int);
                    }
                } else {
                    assert(order@[k1] == before[k1 - 1] && order@[k2] == before[k2 - 1]);
                }
            }
        }
        i += 1;
    }
    let n: usize = if order.len() < 3 { order.len() } else { 3 };
    let mut top: Vec<String> = Vec::new();
    let mut k: usize = 0;
    while k < n
        invariant
            c == entries_view(counts@),
            order@.len() == counts@.len(),
            forall|j: int| 0 <= j < order@.len() ==> #[trigger] order@[j] < counts@.len(),
            n <= order@.len(),
            k <= n,
            top@.len() == k,
            forall|j: int| 0 <= j < k ==> #[trigger] top@[j]@ == counts@[order@[j] as int].0@,
        decreases n - k,
    {
        top.push(counts[order[k]].0.clone());
        k += 1;
    }
    let ghost ord = Seq::new(order@.len(), |j: int| order@[j] as int);
    assert(is_token_order(c, ord));
    top
}

} // verus!
