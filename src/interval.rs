use vstd::prelude::*;

verus! {

/// A half-open interval `[start, end)` of timestamps, in seconds.
pub type Interval = (i64, i64);

/// Some interval of `s` contains the instant `t`.
pub open spec fn covers(s: Seq<Interval>, t: int) -> bool {
    exists|i: int| 0 <= i < s.len() && #[trigger] s[i].0 <= t && t < s[i].1
}

/// Each interval is non-empty and lies in `[reference, horizon)`, and the intervals
/// ascend with a gap between any two of them.
pub open spec fn ordered_gaps(free: Seq<Interval>, reference: int, horizon: int) -> bool {
    &&& forall|j: int|
        0 <= j < free.len() ==> reference <= #[trigger] free[j].0 && free[j].0 < free[j].1
            && free[j].1 <= horizon
    &&& forall|j: int, k: int| 0 <= j < k < free.len() ==> #[trigger] free[j].1 < #[trigger] free[k].0
}

/// Some interval of the set `busy` contains the instant `t`.
pub open spec fn busy_at(busy: Set<Interval>, t: int) -> bool {
    exists|x: Interval| #[trigger] busy.contains(x) && x.0 <= t && t < x.1
}

/// `free` is the complement of `busy` within `[reference, horizon)`, written as its
/// maximal intervals in ascending order.
pub open spec fn is_free_of(free: Seq<Interval>, busy: Set<Interval>, reference: int, horizon: int) -> bool {
    &&& ordered_gaps(free, reference, horizon)
    &&& forall|t: int| reference <= t < horizon ==> (covers(free, t) <==> !busy_at(busy, t))
}

pub open spec fn sorted_by_start(s: Seq<Interval>) -> bool {
    forall|j: int, k: int| 0 <= j < k < s.len() ==> #[trigger] s[j].0 <= #[trigger] s[k].0
}

/// The intervals of `v`, ordered by start.
pub fn sort_by_start(v: &Vec<Interval>) -> (r: Vec<Interval>)
    ensures
        sorted_by_start(r@),
        r@.len() == v@.len(),
        r@.to_multiset() == v@.to_multiset(),
        forall|x: Interval| r@.contains(x) <==> v@.contains(x),
{
    let mut r: Vec<Interval> = Vec::new();
    let mut i: usize = 0;
    assert(r@ =~= v@.subrange(0, 0));
    while i < v.len()
        invariant
            i <= v.len(),
            r@.len() == i,
            sorted_by_start(r@),
            r@.to_multiset() == v@.subrange(0, i as int).to_multiset(),
            forall|x: Interval| r@.contains(x) <==> v@.subrange(0, i as int).contains(x),
        decreases v.len() - i,
    {
        let x = v[i];
        let mut p: usize = 0;
        while p < r.len() && r[p].0 <= x.0
            invariant
                p <= r.len(),
                sorted_by_start(r@),
                forall|j: int| 0 <= j < p ==> #[trigger] r@[j].0 <= x.0,
            decreases r.len() - p,
        {
            p = p + 1;
        }
        let ghost before = r@;
        r.insert(p, x);
        proof {
            vstd::seq_lib::to_multiset_insert(before, p as int, x);
            vstd::seq_lib::to_multiset_build(v@.subrange(0, i as int), x);
            assert(v@.subrange(0, i + 1) =~= v@.subrange(0, i as int).push(x));
            assert(forall|j: int| p <= j < before.len() ==> x.0 < #[trigger] before[j].0) by {
                if p < before.len() {
                    assert forall|j: int| p <= j < before.len() implies x.0 < #[trigger] before[j].0 by {
                        assert(before[p as int].0 <= before[j].0 || j == p);
                    }
                }
            }
            assert(r@ =~= before.subrange(0, p as int).push(x) + before.subrange(p as int, before.len() as int));
            assert forall|y: Interval| r@.contains(y) <==> v@.subrange(0, i + 1).contains(y) by {
                if r@.contains(y) {
                    let k = choose|k: int| 0 <= k < r@.len() && #[trigger] r@[k] == y;
                    if k < p {
                        assert(before[k] == y);
                    } else if k > p {
                        assert(before[k - 1] == y);
                    }
                    if y != x {
                        assert(before.contains(y));
                        assert(v@.subrange(0, i as int).contains(y));
                        let m = choose|m: int| 0 <= m < i && #[trigger] v@.subrange(0, i as int)[m] == y;
                        assert(v@.subrange(0, i + 1)[m] == y);
                    } else {
                        assert(v@.subrange(0, i + 1)[i as int] == y);
                    }
                }
                if v@.subrange(0, i + 1).contains(y) {
                    let m = choose|m: int| 0 <= m < i + 1 && #[trigger] v@.subrange(0, i + 1)[m] == y;
                    if m < i {
                        assert(v@.subrange(0, i as int)[m] == y);
                        assert(before.contains(y));
                        let k = choose|k: int| 0 <= k < before.len() && #[trigger] before[k] == y;
                        if k < p {
                            assert(r@[k] == y);
                        } else {
                            assert(r@[k + 1] == y);
                        }
                    } else {
                        assert(r@[p as int] == y);
                    }
                }
            }
        }
        i = i + 1;
    }
    assert(v@.subrange(0, v@.len() as int) =~= v@);
    r
}

/// The free intervals of `busy` from `reference` up to `horizon`: the instants of
/// `[reference, horizon)` that no busy interval contains, as maximal intervals in
/// ascending order. Overlapping and nested busy intervals are absorbed; an empty
/// or reversed busy interval covers nothing.
pub fn compute_free(busy: &Vec<Interval>, reference: i64, horizon: i64) -> (free: Vec<Interval>)
    ensures
        is_free_of(free@, busy@.to_set(), reference as int, horizon as int),
{
    let sorted = sort_by_start(busy);
    let mut free: Vec<Interval> = Vec::new();
    let mut cursor: i64 = reference;
    let mut i: usize = 0;
    while i < sorted.len()
        invariant
            i <= sorted.len(),
            sorted_by_start(sorted@),
            reference <= cursor,
            ordered_gaps(free@, reference as int, horizon as int),
            free@.len() > 0 ==> free@.last().1 < cursor,
            forall|j: int, k: int|
                0 <= j < free@.len() && i <= k < sorted@.len() ==> #[trigger] free@[j].1
                    <= #[trigger] sorted@[k].0,
            forall|t: int|
                reference <= t < horizon && t < cursor ==> (covers(free@, t) <==> !covers(
                    sorted@.subrange(0, i as int),
                    t,
                )),
            forall|t: int| covers(sorted@.subrange(0, i as int), t) ==> t < cursor,
        decreases sorted.len() - i,
    {
        let (start, end) = sorted[i];
        let ghost old_free = free@;
        let ghost old_cursor = cursor;
        let ghost prefix = sorted@.subrange(0, i as int);
        let ghost next = sorted@.subrange(0, i + 1);
        assert(next =~= prefix.push((start, end)));
        if start < end {
            if start > cursor {
                let gap_end = if start < horizon {
                    start
                } else {
                    horizon
                };
                if cursor < gap_end {
                    free.push((cursor, gap_end));
                    proof {
                        assert forall|j: int, k: int| 0 <= j < k < free@.len() implies #[trigger] free@[j].1
                            < #[trigger] free@[k].0 by {
                            if k < old_free.len() {
                                assert(free@[j] == old_free[j] && free@[k] == old_free[k]);
                            } else if j < old_free.len() - 1 {
                                assert(free@[j] == old_free[j]);
                                assert(old_free[j].1 < old_free[old_free.len() - 1].0);
                            } else {
                                assert(free@[j] == old_free[j]);
                            }
                        }
                    }
                }
            }
            if end > cursor {
                cursor = end;
            }
        }
        proof {
            assert forall|t: int| covers(next, t) implies t < cursor by {
                let m = choose|m: int| 0 <= m < next.len() && #[trigger] next[m].0 <= t && t < next[m].1;
                if m < i {
                    assert(prefix[m] == next[m]);
                    assert(prefix[m].0 <= t && t < prefix[m].1);
                    assert(covers(prefix, t));
                } else {
                    assert(next[m] == (start, end));
                }
            }
            assert forall|t: int|
                reference <= t < horizon && t < cursor implies (covers(free@, t) <==> !covers(
                next,
                t,
            )) by {
                if t < old_cursor {
                    if covers(old_free, t) {
                        let j = choose|j: int|
                            0 <= j < old_free.len() && #[trigger] old_free[j].0 <= t && t < old_free[j].1;
                        assert(free@[j] == old_free[j]);
                        assert(old_free[j].1 <= sorted@[i as int].0);
                        assert(!covers(prefix, t));
                        if covers(next, t) {
                            let m = choose|m: int| 0 <= m < next.len() && #[trigger] next[m].0 <= t && t < next[m].1;
                            if m < i {
                                assert(prefix[m] == next[m]);
                            }
                        }
                    } else {
                        let m = choose|m: int| 0 <= m < prefix.len() && #[trigger] prefix[m].0 <= t && t < prefix[m].1;
                        assert(next[m] == prefix[m]);
                        if covers(free@, t) {
                            let j = choose|j: int|
                                0 <= j < free@.len() && #[trigger] free@[j].0 <= t && t < free@[j].1;
                            if j < old_free.len() {
                                assert(free@[j] == old_free[j]);
                            }
                        }
                    }
                } else {
                    assert(!covers(prefix, t));
                    if start <= t {
                        assert(next[i as int].0 <= t && t < next[i as int].1);
                        if covers(free@, t) {
                            let j = choose|j: int|
                                0 <= j < free@.len() && #[trigger] free@[j].0 <= t && t < free@[j].1;
                            if j < old_free.len() {
                                assert(free@[j] == old_free[j]);
                            }
                        }
                    } else {
                        assert(free@.last() == (old_cursor as i64, if start < horizon { start } else { horizon }));
                        assert(free@[free@.len() - 1].0 <= t && t < free@[free@.len() - 1].1);
                        if covers(next, t) {
                            let m = choose|m: int| 0 <= m < next.len() && #[trigger] next[m].0 <= t && t < next[m].1;
                            if m < i {
                                assert(prefix[m] == next[m]);
                            }
                        }
                    }
                }
            }
        }
        i = i + 1;
    }
    let ghost swept = free@;
    let ghost last_cursor = cursor;
    if cursor < horizon {
        free.push((cursor, horizon));
    }
    proof {
        assert(sorted@.subrange(0, sorted@.len() as int) =~= sorted@);
        if last_cursor < horizon {
            assert forall|j: int, k: int| 0 <= j < k < free@.len() implies #[trigger] free@[j].1
                < #[trigger] free@[k].0 by {
                if k < swept.len() {
                    assert(free@[j] == swept[j] && free@[k] == swept[k]);
                } else if j < swept.len() - 1 {
                    assert(free@[j] == swept[j]);
                    assert(swept[j].1 < swept[swept.len() - 1].0);
                } else {
                    assert(free@[j] == swept[j]);
                }
            }
        }
        assert forall|t: int| reference <= t < horizon implies (covers(free@, t) <==> !busy_at(busy@.to_set(), t)) by {
            if busy_at(busy@.to_set(), t) {
                let x = choose|x: Interval| #[trigger] busy@.to_set().contains(x) && x.0 <= t && t < x.1;
                let m = choose|m: int| 0 <= m < busy@.len() && #[trigger] busy@[m] == x;
                assert(busy@[m].0 <= t && t < busy@[m].1);
            }
            if covers(busy@, t) {
                let m = choose|m: int| 0 <= m < busy@.len() && #[trigger] busy@[m].0 <= t && t < busy@[m].1;
                assert(busy@.to_set().contains(busy@[m]));
            }
            if covers(busy@, t) {
                let m = choose|m: int| 0 <= m < busy@.len() && #[trigger] busy@[m].0 <= t && t < busy@[m].1;
                assert(sorted@.contains(busy@[m]));
                let k = choose|k: int| 0 <= k < sorted@.len() && #[trigger] sorted@[k] == busy@[m];
                assert(sorted@[k].0 <= t && t < sorted@[k].1);
            }
            if covers(sorted@, t) {
                let k = choose|k: int| 0 <= k < sorted@.len() && #[trigger] sorted@[k].0 <= t && t < sorted@[k].1;
                assert(busy@.contains(sorted@[k]));
                let m = choose|m: int| 0 <= m < busy@.len() && #[trigger] busy@[m] == sorted@[k];
                assert(busy@[m].0 <= t && t < busy@[m].1);
            }
            if t < last_cursor {
                if covers(free@, t) {
                    let j = choose|j: int| 0 <= j < free@.len() && #[trigger] free@[j].0 <= t && t < free@[j].1;
                    if j < swept.len() {
                        assert(free@[j] == swept[j]);
                    }
                }
                if covers(swept, t) {
                    let j = choose|j: int| 0 <= j < swept.len() && #[trigger] swept[j].0 <= t && t < swept[j].1;
                    assert(free@[j] == swept[j]);
                }
            } else {
                assert(free@[free@.len() - 1].0 <= t && t < free@[free@.len() - 1].1);
            }
        }
    }
    free
}

proof fn lemma_step(a: Seq<Interval>, b: Seq<Interval>, reference: int, horizon: int, m: int)
    requires
        ordered_gaps(a, reference, horizon),
        ordered_gaps(b, reference, horizon),
        forall|t: int| covers(a, t) == covers(b, t),
        0 <= m < a.len(),
        m <= b.len(),
        forall|k: int| 0 <= k < m ==> a[k] == b[k],
    ensures
        m < b.len(),
        b[m].0 <= a[m].0,
        b[m].0 == a[m].0 ==> b[m].1 <= a[m].1,
{
    let t = a[m].0 as int;
    assert(a[m].0 <= t && t < a[m].1);
    assert(covers(a, t));
    let j = choose|j: int| 0 <= j < b.len() && #[trigger] b[j].0 <= t && t < b[j].1;
    if j < m {
        assert(a[j] == b[j]);
        assert(a[j].1 < a[m].0);
    }
    assert(m < b.len());
    if j > m {
        assert(b[m].1 < b[j].0);
    }
    if b[m].0 == a[m].0 && b[m].1 > a[m].1 {
        let u = a[m].1 as int;
        assert(b[m].0 <= u && u < b[m].1);
        assert(covers(b, u));
        let i = choose|i: int| 0 <= i < a.len() && #[trigger] a[i].0 <= u && u < a[i].1;
        if i < m {
            assert(a[i].1 < a[m].0);
        } else if i > m {
            assert(a[m].1 < a[i].0);
        }
    }
}

proof fn lemma_equal_from(a: Seq<Interval>, b: Seq<Interval>, reference: int, horizon: int, m: int)
    requires
        ordered_gaps(a, reference, horizon),
        ordered_gaps(b, reference, horizon),
        forall|t: int| covers(a, t) == covers(b, t),
        0 <= m <= a.len(),
        m <= b.len(),
        forall|k: int| 0 <= k < m ==> a[k] == b[k],
    ensures
        a == b,
    decreases a.len() + b.len() - 2 * m,
{
    if m < a.len() {
        lemma_step(a, b, reference, horizon, m);
        lemma_step(b, a, reference, horizon, m);
        lemma_equal_from(a, b, reference, horizon, m + 1);
    } else if m < b.len() {
        lemma_step(b, a, reference, horizon, m);
    } else {
        assert(a =~= b);
    }
}

/// The free intervals are a function of the busy intervals, the reference and the
/// horizon alone: two results that both meet the contract of `compute_free` for the
/// same inputs are equal, so computing them twice gives the same sequence.
pub proof fn lemma_free_is_unique(
    busy: Set<Interval>,
    reference: int,
    horizon: int,
    a: Seq<Interval>,
    b: Seq<Interval>,
)
    requires
        is_free_of(a, busy, reference, horizon),
        is_free_of(b, busy, reference, horizon),
    ensures
        a == b,
{
    assert forall|t: int| covers(a, t) == covers(b, t) by {
        if covers(a, t) {
            let j = choose|j: int| 0 <= j < a.len() && #[trigger] a[j].0 <= t && t < a[j].1;
            assert(reference <= a[j].0 && a[j].1 <= horizon);
        }
        if covers(b, t) {
            let j = choose|j: int| 0 <= j < b.len() && #[trigger] b[j].0 <= t && t < b[j].1;
            assert(reference <= b[j].0 && b[j].1 <= horizon);
        }
    }
    lemma_equal_from(a, b, reference, horizon, 0);
}

} // verus!
