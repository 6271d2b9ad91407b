use vstd::prelude::*;
use crate::pane::{Pane, GAP, MAX_COORD, MAX_PANES, panes_wf};

verus! {

/// The pane's top edge lies within `GAP` of `top`.
pub open spec fn near(p: Pane, top: int) -> bool {
    top - GAP < p.pos.1 < top + GAP
}

/// Height of the shortest pane among `panes` whose top is near `top`.
pub open spec fn shortest_near(panes: Seq<Pane>, top: int) -> Option<int>
    decreases panes.len(),
{
    if panes.len() == 0 {
        None
    } else {
        let p = panes.last();
        let rest = shortest_near(panes.drop_last(), top);
        if !near(p, top) {
            rest
        } else {
            match rest {
                Some(h) if h <= p.size.1 => Some(h),
                _ => Some(p.size.1 as int),
            }
        }
    }
}

/// Where the scan looks for the row after the first `k` rows of `bounds`.
pub open spec fn next_top(bounds: Seq<(i64, i64)>, k: int) -> int {
    if k == 0 { 0 } else { bounds[k - 1].1 + GAP }
}

/// `bounds` is the result of the row scan: the first row starts at 0, each
/// row ends at its start plus the height of the shortest pane near that
/// start, the next row starts `GAP` below, and no pane is near the place
/// where the scan stopped.
pub open spec fn is_row_scan(panes: Seq<Pane>, bounds: Seq<(i64, i64)>) -> bool {
    &&& forall|k: int| 0 <= k < bounds.len() ==> (#[trigger] bounds[k]).0 == next_top(bounds, k)
    &&& forall|k: int| 0 <= k < bounds.len() ==>
            shortest_near(panes, (#[trigger] bounds[k]).0 as int) == Some(bounds[k].1 - bounds[k].0)
    &&& shortest_near(panes, next_top(bounds, bounds.len() as int)).is_none()
}

pub(crate) proof fn lemma_shortest_near_facts(panes: Seq<Pane>, top: int)
    requires
        forall|i: int| 0 <= i < panes.len() ==> (#[trigger] panes[i]).wf(),
    ensures
        shortest_near(panes, top).is_none() <==> forall|i: int| 0 <= i < panes.len() ==> !near(#[trigger] panes[i], top),
        shortest_near(panes, top) matches Some(h) ==> 0 <= h <= MAX_COORD
            && exists|i: int| 0 <= i < panes.len() && near(#[trigger] panes[i], top) && panes[i].size.1 == h,
    decreases panes.len(),
{
    if panes.len() > 0 {
        let rest = panes.drop_last();
        lemma_shortest_near_facts(rest, top);
        assert forall|i: int| 0 <= i < rest.len() implies rest[i] == panes[i] by {}
        let l = panes.len() - 1;
        assert(panes[l] == panes.last());
        if let Some(h) = shortest_near(rest, top) {
            let i = choose|i: int| 0 <= i < rest.len() && near(#[trigger] rest[i], top) && rest[i].size.1 == h;
            assert(panes[i] == rest[i]);
        }
    }
}

/// Scans the panes from the top and returns the rows as `(top, bottom)`
/// intervals: each row starts where the previous one ended plus `GAP`, and is
/// as tall as the shortest pane whose top lies within `GAP` of its start.
pub fn row_boundaries(panes: &Vec<Pane>) -> (bounds: Vec<(i64, i64)>)
    requires
        panes_wf(panes@),
    ensures
        is_row_scan(panes@, bounds@),
        forall|k: int| 0 <= k < bounds.len() ==> 0 <= (#[trigger] bounds@[k]).0 <= bounds@[k].1 <= 2 * MAX_COORD + GAP,
{
    let mut bounds: Vec<(i64, i64)> = Vec::new();
    let mut top: i64 = 0;
    loop
        invariant
            0 <= top <= 2 * MAX_COORD + 2 * GAP,
            top == next_top(bounds@, bounds.len() as int),
            forall|k: int| 0 <= k < bounds.len() ==> (#[trigger] bounds@[k]).0 == next_top(bounds@, k),
            forall|k: int| 0 <= k < bounds.len() ==>
                shortest_near(panes@, (#[trigger] bounds@[k]).0 as int) == Some(bounds@[k].1 - bounds@[k].0),
            panes_wf(panes@),
            forall|k: int| 0 <= k < bounds.len() ==> 0 <= (#[trigger] bounds@[k]).0 <= bounds@[k].1 <= 2 * MAX_COORD + GAP,
        decreases 2 * MAX_COORD + 2 * GAP - top,
    {
        let mut shortest: Option<i64> = None;
        let mut i: usize = 0;
        while i < panes.len()
            invariant
                i <= panes.len(),
                panes_wf(panes@),
                0 <= top <= 2 * MAX_COORD + 2 * GAP,
                shortest_near(panes@.subrange(0, i as int), top as int) == match shortest {
                    Some(h) => Some(h as int),
                    None => None::<int>,
                },
            decreases panes.len() - i,
        {
            let p = panes[i];
            assert(panes@.subrange(0, i + 1).drop_last() =~= panes@.subrange(0, i as int));
            assert(p.wf());
            if top - GAP < p.pos.1 && p.pos.1 < top + GAP {
                match shortest {
                    Some(h) if h <= p.size.1 => {},
                    _ => {
                        shortest = Some(p.size.1);
                    },
                }
            }
            i = i + 1;
        }
        assert(panes@.subrange(0, panes.len() as int) =~= panes@);
        match shortest {
            None => {
                return bounds;
            },
            Some(h) => {
                proof {
                    lemma_shortest_near_facts(panes@, top as int);
                    let j = choose|j: int| 0 <= j < panes.len() && near(#[trigger] panes@[j], top as int)
                        && panes@[j].size.1 == h;
                    assert(panes@[j].wf());
                }
                let bottom = top + h;
                let ghost old_bounds = bounds@;
                bounds.push((top, bottom));
                assert forall|k: int| 0 <= k < old_bounds.len() implies next_top(bounds@, k) == next_top(old_bounds, k) by {}
                top = bottom + GAP;
            },
        }
    }
}

} // verus!

verus! {

/// The pane takes part in the row `[top, bottom]`: its top or its bottom edge
/// lies in it, ends included.
pub open spec fn in_band(p: Pane, bound: (i64, i64)) -> bool {
    ||| bound.0 <= p.pos.1 <= bound.1
    ||| bound.0 <= p.pos.1 + p.size.1 <= bound.1
}

/// Pane `a` comes before pane `b` in a row: further left, or at the same `x`
/// with a lower index.
pub open spec fn before(panes: Seq<Pane>, a: int, b: int) -> bool {
    ||| panes[a].pos.0 < panes[b].pos.0
    ||| (panes[a].pos.0 == panes[b].pos.0 && a < b)
}

/// `row` lists, each once and from left to right, the indices of exactly
/// those panes that take part in `bound`.
pub open spec fn is_row(panes: Seq<Pane>, bound: (i64, i64), row: Seq<usize>) -> bool {
    &&& forall|k: int| 0 <= k < row.len() ==> (#[trigger] row[k]) < panes.len()
    &&& forall|j: int, k: int| 0 <= j < k < row.len() ==> before(panes, #[trigger] row[j] as int, #[trigger] row[k] as int)
    &&& forall|i: int| 0 <= i < panes.len() ==> (in_band(#[trigger] panes[i], bound) <==> row.contains(i as usize))
}

/// Selects the panes whose top or bottom edge lies in `bound` and returns
/// their indices ordered by `x`; panes at the same `x` keep their order.
pub fn panes_in_row(panes: &Vec<Pane>, bound: (i64, i64)) -> (row: Vec<usize>)
    requires
        panes_wf(panes@),
        0 <= bound.0 <= bound.1 <= 4 * MAX_COORD,
    ensures
        is_row(panes@, bound, row@),
        row.len() <= panes.len(),
{
    let mut row: Vec<usize> = Vec::new();
    let mut i: usize = 0;
    while i < panes.len()
        invariant
            i <= panes.len(),
            row.len() <= i,
            panes_wf(panes@),
            forall|k: int| 0 <= k < row.len() ==> (#[trigger] row@[k]) < i,
            forall|j: int, k: int| 0 <= j < k < row.len() ==> before(panes@, #[trigger] row@[j] as int, #[trigger] row@[k] as int),
            forall|m: int| 0 <= m < i ==> (in_band(#[trigger] panes@[m], bound) <==> row@.contains(m as usize)),
        decreases panes.len() - i,
    {
        let p = panes[i];
        assert(p.wf());
        let top_in = bound.0 <= p.pos.1 && p.pos.1 <= bound.1;
        let bottom_in = bound.0 <= p.pos.1 + p.size.1 && p.pos.1 + p.size.1 <= bound.1;
        if top_in || bottom_in {
            let mut j: usize = 0;
            while j < row.len() && panes[row[j]].pos.0 <= p.pos.0
                invariant
                    j <= row.len(),
                    i < panes.len(),
                    p == panes@[i as int],
                    forall|k: int| 0 <= k < row.len() ==> (#[trigger] row@[k]) < i,
                    forall|k: int| 0 <= k < j ==> panes@[#[trigger] row@[k] as int].pos.0 <= p.pos.0,
                decreases row.len() - j,
            {
                j = j + 1;
            }
            let ghost old_row = row@;
            row.insert(j, i);
            assert(row@ =~= old_row.subrange(0, j as int).push(i).add(old_row.subrange(j as int, old_row.len() as int)));
            assert forall|k: int| 0 <= k < row.len() implies (#[trigger] row@[k]) < i + 1 by {
                if k < j { assert(row@[k] == old_row[k]); } else if k > j { assert(row@[k] == old_row[k - 1]); }
            }
            assert forall|a: int, b: int| 0 <= a < b < row.len() implies before(panes@, #[trigger] row@[a] as int, #[trigger] row@[b] as int) by {
                if b < j {
                    assert(row@[a] == old_row[a] && row@[b] == old_row[b]);
                } else if b == j {
                    assert(row@[a] == old_row[a]);
                } else if a == j {
                    assert(row@[b] == old_row[b - 1]);
                    assert(panes@[old_row[b - 1] as int].pos.0 > p.pos.0 || b - 1 < j);
                } else if a < j {
                    assert(row@[a] == old_row[a] && row@[b] == old_row[b - 1]);
                } else {
                    assert(row@[a] == old_row[a - 1] && row@[b] == old_row[b - 1]);
                }
            }
            assert forall|m: int| 0 <= m < i + 1 implies (in_band(#[trigger] panes@[m], bound) <==> row@.contains(m as usize)) by {
                if m < i {
                    if old_row.contains(m as usize) {
                        let k = choose|k: int| 0 <= k < old_row.len() && old_row[k] == m as usize;
                        if k < j { assert(row@[k] == m as usize); } else { assert(row@[k + 1] == m as usize); }
                    }
                    if row@.contains(m as usize) {
                        let k = choose|k: int| 0 <= k < row.len() && row@[k] == m as usize;
                        if k < j { assert(old_row[k] == m as usize); } else if k > j { assert(old_row[k - 1] == m as usize); }
                    }
                } else {
                    assert(row@[j as int] == i);
                }
            }
        } else {
            assert forall|m: int| 0 <= m < i + 1 implies (in_band(#[trigger] panes@[m], bound) <==> row@.contains(m as usize)) by {
                if m == i {
                    if row@.contains(m as usize) {
                        let k = choose|k: int| 0 <= k < row.len() && row@[k] == m as usize;
                    }
                }
            }
        }
        i = i + 1;
    }
    row
}

} // verus!
