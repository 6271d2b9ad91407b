use vstd::prelude::*;
use crate::pane::{Pane, GAP, panes_wf};
use crate::rows::{is_row_scan, near, next_top, shortest_near};
use crate::constraints::{
    satisfies, satisfies_required, pos_at, size_at, packed, keeps_width, keeps_ratio, flex_space,
    new_flex_space, required_layout, preferred_layout, fixed_space,
};
use crate::layout::{Layout, plans};

verus! {

proof fn lemma_row_height(panes: Seq<Pane>, bounds: Seq<(i64, i64)>, k: int)
    requires
        panes_wf(panes),
        is_row_scan(panes, bounds),
        0 <= k < bounds.len(),
    ensures
        bounds[k].0 <= bounds[k].1,
        bounds[k].0 == next_top(bounds, k),
        exists|i: int| 0 <= i < panes.len() && near(#[trigger] panes[i], bounds[k].0 as int)
            && panes[i].size.1 == bounds[k].1 - bounds[k].0,
{
    assert(bounds[k].0 == next_top(bounds, k));
    assert(shortest_near(panes, bounds[k].0 as int) == Some(bounds[k].1 - bounds[k].0));
    crate::rows::lemma_shortest_near_facts(panes, bounds[k].0 as int);
}

proof fn lemma_rows_apart(panes: Seq<Pane>, bounds: Seq<(i64, i64)>, j: int, k: int)
    requires
        panes_wf(panes),
        is_row_scan(panes, bounds),
        0 <= j < k < bounds.len(),
    ensures
        bounds[j].1 + GAP <= bounds[k].0,
    decreases k - j,
{
    lemma_row_height(panes, bounds, k);
    if j < k - 1 {
        lemma_rows_apart(panes, bounds, j, k - 1);
        lemma_row_height(panes, bounds, k - 1);
    }
}

/// The rows that the scan finds run downwards without overlap: each row ends
/// no higher than it starts, and each starts more than `GAP` below the end of
/// every row before it.
pub proof fn lemma_rows_ordered(panes: Seq<Pane>, bounds: Seq<(i64, i64)>)
    requires
        panes_wf(panes),
        is_row_scan(panes, bounds),
    ensures
        forall|k: int| 0 <= k < bounds.len() ==> (#[trigger] bounds[k]).0 <= bounds[k].1,
        forall|j: int, k: int| 0 <= j < k < bounds.len() ==> (#[trigger] bounds[j]).1 + GAP <= (#[trigger] bounds[k]).0,
{
    assert forall|k: int| 0 <= k < bounds.len() implies (#[trigger] bounds[k]).0 <= bounds[k].1 by {
        lemma_row_height(panes, bounds, k);
    }
    assert forall|j: int, k: int| 0 <= j < k < bounds.len() implies (#[trigger] bounds[j]).1 + GAP <= (#[trigger] bounds[k]).0 by {
        lemma_rows_apart(panes, bounds, j, k);
    }
}

/// Where every pane is at least `GAP` tall, a pane's top lies within `GAP`
/// of the start of at most one row.
pub proof fn lemma_top_in_one_row(panes: Seq<Pane>, bounds: Seq<(i64, i64)>)
    requires
        panes_wf(panes),
        is_row_scan(panes, bounds),
        forall|i: int| 0 <= i < panes.len() ==> (#[trigger] panes[i]).size.1 >= GAP,
    ensures
        forall|i: int, j: int, k: int| 0 <= i < panes.len() && 0 <= j < k < bounds.len()
            ==> !(near(#[trigger] panes[i], (#[trigger] bounds[j]).0 as int) && near(panes[i], (#[trigger] bounds[k]).0 as int)),
{
    assert forall|i: int, j: int, k: int| 0 <= i < panes.len() && 0 <= j < k < bounds.len()
        implies !(near(#[trigger] panes[i], (#[trigger] bounds[j]).0 as int) && near(panes[i], (#[trigger] bounds[k]).0 as int)) by {
        lemma_rows_apart(panes, bounds, j, k);
        lemma_row_height(panes, bounds, j);
    }
}

/// In every solution of the required constraints of a resize, each
/// non-empty row starts at 0, its neighbours are exactly `GAP` apart, and
/// its last pane ends at the container width. (`sol / d` is the solution.)
pub proof fn lemma_rows_packed_and_spanning(width: int, panes: Seq<Pane>, l: Layout, sol: Seq<(int, int)>, d: int, k: int)
    requires
        plans(width, panes, l),
        satisfies_required(l.constraints@, sol, d),
        0 <= k < l.rows.len(),
        l.rows@[k]@.len() > 0,
    ensures
        pos_at(l.rows@[k]@, sol, 0) == 0,
        forall|j: int| 0 <= j < l.rows@[k]@.len() - 1 ==> pos_at(l.rows@[k]@, sol, j + 1)
            == pos_at(l.rows@[k]@, sol, j) + size_at(l.rows@[k]@, sol, j) + GAP * d,
        pos_at(l.rows@[k]@, sol, l.rows@[k]@.len() - 1) + size_at(l.rows@[k]@, sol, l.rows@[k]@.len() - 1) == width * d,
{
    let r = l.rows@[k]@;
    assert(required_layout(width, panes, r, sol, d));
    assert forall|j: int| 0 <= j < r.len() - 1 implies pos_at(r, sol, j + 1) == pos_at(r, sol, j) + size_at(r, sol, j) + GAP * d by {
        assert(packed(r, sol, d, j));
    }
}

/// In every solution of the required constraints of a resize, a fixed pane
/// of a row that holds more than one pane keeps its width exactly.
pub proof fn lemma_fixed_width_kept(width: int, panes: Seq<Pane>, l: Layout, sol: Seq<(int, int)>, d: int, k: int, j: int)
    requires
        plans(width, panes, l),
        satisfies_required(l.constraints@, sol, d),
        0 <= k < l.rows.len(),
        l.rows@[k]@.len() > 1,
        0 <= j < l.rows@[k]@.len(),
        !panes[l.rows@[k]@[j] as int].flex,
    ensures
        size_at(l.rows@[k]@, sol, j) == panes[l.rows@[k]@[j] as int].size.0 * d,
{
    let r = l.rows@[k]@;
    assert(required_layout(width, panes, r, sol, d));
    assert(keeps_width(panes, r, sol, d, j));
}

/// In every solution of the required constraints of a resize, a pane alone
/// in its row spans the whole container width, fixed or not.
pub proof fn lemma_lone_pane_spans(width: int, panes: Seq<Pane>, l: Layout, sol: Seq<(int, int)>, d: int, k: int)
    requires
        plans(width, panes, l),
        satisfies_required(l.constraints@, sol, d),
        0 <= k < l.rows.len(),
        l.rows@[k]@.len() == 1,
    ensures
        pos_at(l.rows@[k]@, sol, 0) == 0,
        size_at(l.rows@[k]@, sol, 0) == width * d,
{
    assert(required_layout(width, panes, l.rows@[k]@, sol, d));
}

/// In every solution of all the constraints of a resize, two flexible panes
/// of one row keep the ratio of their old widths, where the row's flexible
/// panes had room: `new_a * old_b == new_b * old_a`.
pub proof fn lemma_flex_ratio_kept(width: int, panes: Seq<Pane>, l: Layout, sol: Seq<(int, int)>, d: int, k: int, a: int, b: int)
    requires
        plans(width, panes, l),
        satisfies(l.constraints@, sol, d),
        0 <= k < l.rows.len(),
        flex_space(panes, l.rows@[k]@) != 0,
        0 <= a < l.rows@[k]@.len(),
        0 <= b < l.rows@[k]@.len(),
        panes[l.rows@[k]@[a] as int].flex,
        panes[l.rows@[k]@[b] as int].flex,
    ensures
        size_at(l.rows@[k]@, sol, a) * panes[l.rows@[k]@[b] as int].size.0
            == size_at(l.rows@[k]@, sol, b) * panes[l.rows@[k]@[a] as int].size.0,
{
    let r = l.rows@[k]@;
    assert(preferred_layout(width, panes, r, sol, d));
    assert(keeps_ratio(width, panes, r, sol, d, a));
    assert(keeps_ratio(width, panes, r, sol, d, b));
    let xa = size_at(r, sol, a);
    let xb = size_at(r, sol, b);
    let wa = panes[r[a] as int].size.0 as int;
    let wb = panes[r[b] as int].size.0 as int;
    let f = flex_space(panes, r);
    let nf = new_flex_space(width, panes, r);
    assert(xa * f == wa * nf * d);
    assert(xb * f == wb * nf * d);
    assert(xa * wb == xb * wa) by (nonlinear_arith)
        requires xa * f == wa * nf * d, xb * f == wb * nf * d, f != 0;
}

/// Sum of the widths that `sol` gives the first `k` panes of the row.
pub open spec fn sizes_sum(row: Seq<usize>, sol: Seq<(int, int)>, k: int) -> int
    decreases k,
{
    if k <= 0 { 0 } else { sizes_sum(row, sol, k - 1) + size_at(row, sol, k - 1) }
}

proof fn lemma_positions_sum(width: int, panes: Seq<Pane>, row: Seq<usize>, sol: Seq<(int, int)>, d: int, k: int)
    requires
        required_layout(width, panes, row, sol, d),
        0 <= k < row.len(),
    ensures
        pos_at(row, sol, k) == sizes_sum(row, sol, k) + GAP * d * k,
    decreases k,
{
    if k > 0 {
        lemma_positions_sum(width, panes, row, sol, d, k - 1);
        assert(packed(row, sol, d, k - 1));
        assert(GAP * d * k == GAP * d * (k - 1) + GAP * d) by (nonlinear_arith);
        assert(sizes_sum(row, sol, k) == sizes_sum(row, sol, k - 1) + size_at(row, sol, k - 1));
    } else {
        assert(GAP * d * k == 0) by (nonlinear_arith) requires k == 0;
        assert(sizes_sum(row, sol, k) == 0);
    }
}

proof fn lemma_spaces_split(panes: Seq<Pane>, row: Seq<usize>, sol: Seq<(int, int)>, k: int)
    requires
        0 <= k <= row.len(),
        forall|j: int| 0 <= j < row.len() ==> panes[#[trigger] row[j] as int].size.0 == size_at(row, sol, j),
    ensures
        flex_space(panes, row.subrange(0, k)) + fixed_space(panes, row.subrange(0, k)) == sizes_sum(row, sol, k),
    decreases k,
{
    if k > 0 {
        lemma_spaces_split(panes, row, sol, k - 1);
        let sub = row.subrange(0, k);
        assert(sub.drop_last() =~= row.subrange(0, k - 1));
        assert(sub.last() == row[k - 1]);
    }
}

/// Resizing twice to the same width gives the same layout. Take a solution
/// `sol` of a row's constraints, and the panes `panes2` that carry its widths.
/// Then `sol` also solves the row's constraints for `panes2`, and every
/// solution `sol2 / d` of those is `sol` itself. This needs the flexible
/// panes of the second pass to have room, unless the row has none.
pub proof fn lemma_resize_idempotent(
    width: int,
    panes: Seq<Pane>,
    panes2: Seq<Pane>,
    row: Seq<usize>,
    sol: Seq<(int, int)>,
    sol2: Seq<(int, int)>,
    d: int,
)
    requires
        row.len() >= 1,
        forall|j: int| 0 <= j < row.len() ==> panes2[#[trigger] row[j] as int].flex == panes[row[j] as int].flex
            && panes2[row[j] as int].size.0 == size_at(row, sol, j),
        required_layout(width, panes, row, sol, 1),
        preferred_layout(width, panes, row, sol, 1),
        d > 0,
        required_layout(width, panes2, row, sol2, d),
        preferred_layout(width, panes2, row, sol2, d),
        flex_space(panes2, row) != 0 || forall|j: int| 0 <= j < row.len() ==> !panes[#[trigger] row[j] as int].flex,
    ensures
        required_layout(width, panes2, row, sol, 1),
        preferred_layout(width, panes2, row, sol, 1),
        forall|j: int| 0 <= j < row.len() ==> #[trigger] pos_at(row, sol2, j) == pos_at(row, sol, j) * d
            && size_at(row, sol2, j) == size_at(row, sol, j) * d,
{
    let n = row.len() as int;
    assert forall|j: int| 0 <= j < n implies panes2[#[trigger] row[j] as int].size.0 == size_at(row, sol, j) by {}
    lemma_positions_sum(width, panes, row, sol, 1, n - 1);
    lemma_spaces_split(panes2, row, sol, n);
    assert(row.subrange(0, n) =~= row);
    let f2 = flex_space(panes2, row);
    assert(new_flex_space(width, panes2, row) == f2);
    // The first result solves the second pass.
    assert forall|j: int| 0 <= j < n && !panes2[row[j] as int].flex implies #[trigger] keeps_width(panes2, row, sol, 1, j) by {}
    assert forall|j: int| 0 <= j < n && panes2[row[j] as int].flex implies #[trigger] keeps_ratio(width, panes2, row, sol, 1, j) by {}
    // Every solution of the second pass has the same widths ...
    assert forall|j: int| 0 <= j < n implies #[trigger] size_at(row, sol2, j) == size_at(row, sol, j) * d by {
        if !panes2[row[j] as int].flex {
            if n > 1 {
                assert(keeps_width(panes2, row, sol2, d, j));
            } else {
                assert(j == 0);
            }
        } else {
            assert(panes[row[j] as int].flex);
            assert(keeps_ratio(width, panes2, row, sol2, d, j));
            let x2 = size_at(row, sol2, j);
            let x = size_at(row, sol, j);
            assert(x2 * f2 == x * f2 * d);
            assert(x2 == x * d) by (nonlinear_arith)
                requires x2 * f2 == x * f2 * d, f2 != 0;
        }
    }
    // ... and so the same positions.
    lemma_scaled_positions(width, panes, panes2, row, sol, sol2, d, n - 1);
    assert forall|j: int| 0 <= j < n implies #[trigger] pos_at(row, sol2, j) == pos_at(row, sol, j) * d by {
        lemma_scaled_positions(width, panes, panes2, row, sol, sol2, d, j);
    }
}

proof fn lemma_scaled_positions(
    width: int,
    panes: Seq<Pane>,
    panes2: Seq<Pane>,
    row: Seq<usize>,
    sol: Seq<(int, int)>,
    sol2: Seq<(int, int)>,
    d: int,
    k: int,
)
    requires
        0 <= k < row.len(),
        required_layout(width, panes, row, sol, 1),
        required_layout(width, panes2, row, sol2, d),
        forall|j: int| 0 <= j < row.len() ==> #[trigger] size_at(row, sol2, j) == size_at(row, sol, j) * d,
    ensures
        pos_at(row, sol2, k) == pos_at(row, sol, k) * d,
    decreases k,
{
    if k > 0 {
        lemma_scaled_positions(width, panes, panes2, row, sol, sol2, d, k - 1);
        assert(packed(row, sol, 1, k - 1));
        assert(packed(row, sol2, d, k - 1));
        let p = pos_at(row, sol, k - 1);
        let x = size_at(row, sol, k - 1);
        assert(size_at(row, sol2, k - 1) == x * d);
        assert((p + x + GAP) * d == p * d + x * d + GAP * d) by (nonlinear_arith);
    }
}

} // verus!
