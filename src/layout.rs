use vstd::prelude::*;
use crate::pane::{Pane, MAX_COORD, panes_wf};
use crate::rows::{row_boundaries, panes_in_row, is_row_scan, is_row};
use crate::constraints::{
    Constraint, constrain_row, satisfies, satisfies_required, required_layout, preferred_layout, row_wf,
};

verus! {

/// Everything one resize hands to the solver: the row intervals, the panes of
/// each row (indices into the snapshot, left to right), and the constraints
/// of all rows together.
pub struct Layout {
    pub bounds: Vec<(i64, i64)>,
    pub rows: Vec<Vec<usize>>,
    pub constraints: Vec<Constraint>,
}

/// The required constraints of every non-empty row among the first `n`.
pub open spec fn rows_required(width: int, panes: Seq<Pane>, rows: Seq<Vec<usize>>, n: int, sol: Seq<(int, int)>, d: int) -> bool {
    forall|k: int| 0 <= k < n && rows[k]@.len() > 0 ==> required_layout(width, panes, #[trigger] rows[k]@, sol, d)
}

/// All the constraints of every non-empty row among the first `n`.
pub open spec fn rows_settled(width: int, panes: Seq<Pane>, rows: Seq<Vec<usize>>, n: int, sol: Seq<(int, int)>, d: int) -> bool {
    forall|k: int| 0 <= k < n && rows[k]@.len() > 0 ==> required_layout(width, panes, #[trigger] rows[k]@, sol, d)
        && preferred_layout(width, panes, rows[k]@, sol, d)
}

proof fn lemma_concat(a: Seq<Constraint>, b: Seq<Constraint>, sol: Seq<(int, int)>, d: int)
    ensures
        satisfies(a + b, sol, d) <==> satisfies(a, sol, d) && satisfies(b, sol, d),
        satisfies_required(a + b, sol, d) <==> satisfies_required(a, sol, d) && satisfies_required(b, sol, d),
{
    let s = a + b;
    assert forall|i: int| 0 <= i < a.len() implies s[i] == a[i] by {}
    assert forall|i: int| 0 <= i < b.len() implies s[a.len() + i] == b[i] by {}
    if satisfies(a, sol, d) && satisfies(b, sol, d) {
        assert forall|i: int| 0 <= i < s.len() implies #[trigger] crate::constraints::holds(s[i], sol, d) by {
            if i >= a.len() { assert(s[i] == b[i - a.len()]); }
        }
    }
    if satisfies_required(a, sol, d) && satisfies_required(b, sol, d) {
        assert forall|i: int| 0 <= i < s.len() && (#[trigger] s[i]).strength == crate::constraints::Strength::Required
            implies crate::constraints::holds(s[i], sol, d) by {
            if i >= a.len() { assert(s[i] == b[i - a.len()]); }
        }
    }
    if satisfies(s, sol, d) {
        assert forall|i: int| 0 <= i < b.len() implies #[trigger] crate::constraints::holds(b[i], sol, d) by {
            assert(s[a.len() + i] == b[i]);
        }
    }
    if satisfies_required(s, sol, d) {
        assert forall|i: int| 0 <= i < b.len() && (#[trigger] b[i]).strength == crate::constraints::Strength::Required
            implies crate::constraints::holds(b[i], sol, d) by {
            assert(s[a.len() + i] == b[i]);
        }
    }
}

/// `l` is what a resize of `panes` to `width` plans: the row scan, the panes
/// of each row, and constraints that hold exactly where each non-empty row is
/// laid out as its constraints ask.
pub open spec fn plans(width: int, panes: Seq<Pane>, l: Layout) -> bool {
    &&& is_row_scan(panes, l.bounds@)
    &&& l.rows.len() == l.bounds.len()
    &&& forall|k: int| 0 <= k < l.rows.len() ==> is_row(panes, l.bounds@[k], #[trigger] l.rows@[k]@)
    &&& forall|sol: Seq<(int, int)>, d: int| #[trigger] satisfies_required(l.constraints@, sol, d)
            <==> rows_required(width, panes, l.rows@, l.rows.len() as int, sol, d)
    &&& forall|sol: Seq<(int, int)>, d: int| #[trigger] satisfies(l.constraints@, sol, d)
            <==> rows_settled(width, panes, l.rows@, l.rows.len() as int, sol, d)
}

/// Detects the rows of the snapshot, orders the panes of each, and builds the
/// constraints that place them across the container width `width`. A row in
/// which no pane takes part gets no constraint.
pub fn plan_resize(width: i64, panes: &Vec<Pane>) -> (l: Layout)
    requires
        panes_wf(panes@),
        0 <= width <= MAX_COORD,
    ensures
        plans(width as int, panes@, l),
{
    let bounds = row_boundaries(panes);
    let mut rows: Vec<Vec<usize>> = Vec::new();
    let mut constraints: Vec<Constraint> = Vec::new();
    let mut k: usize = 0;
    while k < bounds.len()
        invariant
            panes_wf(panes@),
            0 <= width <= MAX_COORD,
            is_row_scan(panes@, bounds@),
            forall|j: int| 0 <= j < bounds.len() ==> 0 <= (#[trigger] bounds@[j]).0 <= bounds@[j].1 <= 2 * MAX_COORD + 10,
            k <= bounds.len(),
            rows.len() == k,
            forall|j: int| 0 <= j < k ==> is_row(panes@, bounds@[j], #[trigger] rows@[j]@),
            forall|sol: Seq<(int, int)>, d: int| #[trigger] satisfies_required(constraints@, sol, d)
                <==> rows_required(width as int, panes@, rows@, k as int, sol, d),
            forall|sol: Seq<(int, int)>, d: int| #[trigger] satisfies(constraints@, sol, d)
                <==> rows_settled(width as int, panes@, rows@, k as int, sol, d),
        decreases bounds.len() - k,
    {
        assert(0 <= bounds@[k as int].0 <= bounds@[k as int].1 <= 2 * MAX_COORD + 10);
        let row = panes_in_row(panes, bounds[k]);
        let ghost old_rows = rows@;
        let ghost old_cs = constraints@;
        let ghost mut new_cs: Seq<Constraint> = Seq::empty();
        if row.len() > 0 {
            let mut cs = constrain_row(width, panes, &row);
            proof {
                new_cs = cs@;
            }
            constraints.append(&mut cs);
        }
        assert(constraints@ =~= old_cs + new_cs);
        rows.push(row);
        let ghost r = rows@[k as int]@;
        assert forall|j: int| 0 <= j < k implies rows@[j] == old_rows[j] by {}
        assert forall|sol: Seq<(int, int)>, d: int| #[trigger] satisfies_required(constraints@, sol, d)
            <==> rows_required(width as int, panes@, rows@, k + 1, sol, d) by {
            lemma_concat(old_cs, new_cs, sol, d);
            assert(satisfies_required(old_cs, sol, d) <==> rows_required(width as int, panes@, old_rows, k as int, sol, d));
            assert(satisfies_required(new_cs, sol, d) <==> (r.len() > 0 ==> required_layout(width as int, panes@, r, sol, d)));
            if rows_required(width as int, panes@, rows@, k + 1, sol, d) {
                assert forall|j: int| 0 <= j < k && old_rows[j]@.len() > 0
                    implies required_layout(width as int, panes@, #[trigger] old_rows[j]@, sol, d) by {
                    assert(rows@[j] == old_rows[j]);
                }
            }
            if satisfies_required(constraints@, sol, d) {
                assert forall|j: int| 0 <= j < k + 1 && rows@[j]@.len() > 0
                    implies required_layout(width as int, panes@, #[trigger] rows@[j]@, sol, d) by {
                    if j < k { assert(rows@[j] == old_rows[j]); }
                }
            }
        }
        assert forall|sol: Seq<(int, int)>, d: int| #[trigger] satisfies(constraints@, sol, d)
            <==> rows_settled(width as int, panes@, rows@, k + 1, sol, d) by {
            lemma_concat(old_cs, new_cs, sol, d);
            assert(satisfies(old_cs, sol, d) <==> rows_settled(width as int, panes@, old_rows, k as int, sol, d));
            assert(satisfies(new_cs, sol, d) <==> (r.len() > 0 ==> required_layout(width as int, panes@, r, sol, d)
                && preferred_layout(width as int, panes@, r, sol, d)));
            if rows_settled(width as int, panes@, rows@, k + 1, sol, d) {
                assert forall|j: int| 0 <= j < k && old_rows[j]@.len() > 0
                    implies required_layout(width as int, panes@, #[trigger] old_rows[j]@, sol, d)
                    && preferred_layout(width as int, panes@, old_rows[j]@, sol, d) by {
                    assert(rows@[j] == old_rows[j]);
                }
            }
            if satisfies(constraints@, sol, d) {
                assert forall|j: int| 0 <= j < k + 1 && rows@[j]@.len() > 0
                    implies required_layout(width as int, panes@, #[trigger] rows@[j]@, sol, d)
                    && preferred_layout(width as int, panes@, rows@[j]@, sol, d) by {
                    if j < k { assert(rows@[j] == old_rows[j]); }
                }
            }
        }
        k = k + 1;
    }
    Layout { bounds, rows, constraints }
}

} // verus!
