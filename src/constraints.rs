use vstd::prelude::*;
use crate::pane::{Pane, GAP, MAX_COORD, MAX_PANES, panes_wf};

verus! {

/// How firmly a constraint binds: a required one always holds in a solution,
/// a strong one holds unless a required one stands against it.
#[derive(Clone, Copy, Debug, PartialEq, Eq, Structural)]
pub enum Strength {
    Required,
    Strong,
}

/// A solver variable: the horizontal position or the width of the pane with
/// the given index.
#[derive(Clone, Copy, Debug, PartialEq, Eq, Structural)]
pub enum Var {
    Pos(usize),
    Size(usize),
}

/// `coef * var`.
#[derive(Clone, Copy, Debug)]
pub struct Term {
    pub var: Var,
    pub coef: i128,
}

/// The linear equation `sum of terms == constant`, with its strength.
#[derive(Clone, Debug)]
pub struct Constraint {
    pub terms: Vec<Term>,
    pub constant: i128,
    pub strength: Strength,
}

/// The value of `v` in an assignment that gives pane `i` the position
/// `sol[i].0 / d` and the width `sol[i].1 / d`, for a common denominator `d`.
pub open spec fn value(sol: Seq<(int, int)>, v: Var) -> int {
    match v {
        Var::Pos(i) => sol[i as int].0,
        Var::Size(i) => sol[i as int].1,
    }
}

/// The left-hand side of an equation, scaled by the assignment's denominator.
pub open spec fn lhs(terms: Seq<Term>, sol: Seq<(int, int)>) -> int
    decreases terms.len(),
{
    if terms.len() == 0 {
        0
    } else {
        lhs(terms.drop_last(), sol) + terms.last().coef * value(sol, terms.last().var)
    }
}

/// The equation holds for the assignment `sol / d`.
pub open spec fn holds(c: Constraint, sol: Seq<(int, int)>, d: int) -> bool {
    lhs(c.terms@, sol) == c.constant * d
}

/// Every constraint of `cs` holds for `sol / d`.
pub open spec fn satisfies(cs: Seq<Constraint>, sol: Seq<(int, int)>, d: int) -> bool {
    forall|i: int| 0 <= i < cs.len() ==> holds(#[trigger] cs[i], sol, d)
}

/// Every required constraint of `cs` holds for `sol / d`.
pub open spec fn satisfies_required(cs: Seq<Constraint>, sol: Seq<(int, int)>, d: int) -> bool {
    forall|i: int| 0 <= i < cs.len() && (#[trigger] cs[i]).strength == Strength::Required ==> holds(cs[i], sol, d)
}

/// Sum of the widths of the flexible panes of `row`.
pub open spec fn flex_space(panes: Seq<Pane>, row: Seq<usize>) -> int
    decreases row.len(),
{
    if row.len() == 0 {
        0
    } else {
        let p = panes[row.last() as int];
        flex_space(panes, row.drop_last()) + if p.flex { p.size.0 as int } else { 0 }
    }
}

/// Sum of the widths of the fixed panes of `row`.
pub open spec fn fixed_space(panes: Seq<Pane>, row: Seq<usize>) -> int
    decreases row.len(),
{
    if row.len() == 0 {
        0
    } else {
        let p = panes[row.last() as int];
        fixed_space(panes, row.drop_last()) + if p.flex { 0 } else { p.size.0 as int }
    }
}

/// Room that the flexible panes of `row` share at the new container width.
pub open spec fn new_flex_space(width: int, panes: Seq<Pane>, row: Seq<usize>) -> int {
    width - GAP * (row.len() - 1) - fixed_space(panes, row)
}

pub open spec fn pos_at(row: Seq<usize>, sol: Seq<(int, int)>, k: int) -> int {
    sol[row[k] as int].0
}

pub open spec fn size_at(row: Seq<usize>, sol: Seq<(int, int)>, k: int) -> int {
    sol[row[k] as int].1
}

/// Pane `k + 1` of the row starts `GAP` after pane `k` ends.
pub open spec fn packed(row: Seq<usize>, sol: Seq<(int, int)>, d: int, k: int) -> bool {
    pos_at(row, sol, k + 1) == pos_at(row, sol, k) + size_at(row, sol, k) + GAP * d
}

/// Pane `k` of the row keeps its old width.
pub open spec fn keeps_width(panes: Seq<Pane>, row: Seq<usize>, sol: Seq<(int, int)>, d: int, k: int) -> bool {
    size_at(row, sol, k) == panes[row[k] as int].size.0 * d
}

/// Pane `k` of the row takes the same share of the new flexible room as its
/// old width took of the old one.
pub open spec fn keeps_ratio(width: int, panes: Seq<Pane>, row: Seq<usize>, sol: Seq<(int, int)>, d: int, k: int) -> bool {
    size_at(row, sol, k) * flex_space(panes, row) == panes[row[k] as int].size.0 * new_flex_space(width, panes, row) * d
}

/// What the required constraints of a row ask: the first pane starts at 0,
/// neighbours are `GAP` apart, the last pane ends at `width`, and, where the
/// row holds more than one pane, each fixed pane keeps its width.
pub open spec fn required_layout(width: int, panes: Seq<Pane>, row: Seq<usize>, sol: Seq<(int, int)>, d: int) -> bool {
    let n = row.len() as int;
    &&& pos_at(row, sol, 0) == 0
    &&& forall|k: int| 0 <= k < n - 1 ==> #[trigger] packed(row, sol, d, k)
    &&& pos_at(row, sol, n - 1) + size_at(row, sol, n - 1) == width * d
    &&& n > 1 ==> forall|k: int| 0 <= k < n && !panes[row[k] as int].flex ==> #[trigger] keeps_width(panes, row, sol, d, k)
}

/// What the strong constraints of a row ask: a lone fixed pane keeps its
/// width, and where the flexible panes had room, each keeps its share of it.
pub open spec fn preferred_layout(width: int, panes: Seq<Pane>, row: Seq<usize>, sol: Seq<(int, int)>, d: int) -> bool {
    &&& (row.len() == 1 && !panes[row[0] as int].flex) ==> keeps_width(panes, row, sol, d, 0)
    &&& flex_space(panes, row) != 0 ==> forall|k: int| 0 <= k < row.len() && panes[row[k] as int].flex
            ==> #[trigger] keeps_ratio(width, panes, row, sol, d, k)
}

/// The indices of `row` point into `panes`, and the row is not empty.
pub open spec fn row_wf(panes: Seq<Pane>, row: Seq<usize>) -> bool {
    &&& 1 <= row.len() <= MAX_PANES
    &&& forall|k: int| 0 <= k < row.len() ==> (#[trigger] row[k]) < panes.len()
}

proof fn lemma_unit_term(t: Term, sol: Seq<(int, int)>)
    ensures
        t.coef == 1 ==> t.coef * value(sol, t.var) == value(sol, t.var),
        t.coef == -1 ==> t.coef * value(sol, t.var) == -value(sol, t.var),
{
}

proof fn lemma_lhs1(t0: Term, sol: Seq<(int, int)>)
    ensures
        lhs(seq![t0], sol) == t0.coef * value(sol, t0.var),
{
    assert(seq![t0].drop_last() =~= Seq::<Term>::empty());
    reveal_with_fuel(lhs, 2);
}

proof fn lemma_lhs2(t0: Term, t1: Term, sol: Seq<(int, int)>)
    ensures
        lhs(seq![t0, t1], sol) == t0.coef * value(sol, t0.var) + t1.coef * value(sol, t1.var),
{
    assert(seq![t0, t1].drop_last() =~= seq![t0]);
    lemma_lhs1(t0, sol);
}

proof fn lemma_lhs3(t0: Term, t1: Term, t2: Term, sol: Seq<(int, int)>)
    ensures
        lhs(seq![t0, t1, t2], sol) == t0.coef * value(sol, t0.var) + t1.coef * value(sol, t1.var)
            + t2.coef * value(sol, t2.var),
{
    assert(seq![t0, t1, t2].drop_last() =~= seq![t0, t1]);
    lemma_lhs2(t0, t1, sol);
}

/// `coef * v == constant`.
fn scaled_eq(v: Var, coef: i128, constant: i128, strength: Strength) -> (c: Constraint)
    ensures
        c.strength == strength,
        forall|sol: Seq<(int, int)>, d: int| #[trigger] holds(c, sol, d) <==> coef * value(sol, v) == constant * d,
        coef == 1 ==> forall|sol: Seq<(int, int)>, d: int| #[trigger] holds(c, sol, d) <==> value(sol, v) == constant * d,
{
    let c = Constraint { terms: vec![Term { var: v, coef }], constant, strength };
    assert forall|sol: Seq<(int, int)>, d: int| #[trigger] holds(c, sol, d) <==> coef * value(sol, v) == constant * d by {
        lemma_lhs1(c.terms@[0], sol);
        assert(c.terms@ =~= seq![c.terms@[0]]);
        lemma_unit_term(c.terms@[0], sol);
    }
    c
}

/// Pane `r` starts `GAP` after pane `l` ends (required).
fn packing(l: usize, r: usize) -> (c: Constraint)
    ensures
        c.strength == Strength::Required,
        forall|sol: Seq<(int, int)>, d: int| #[trigger] holds(c, sol, d) <==> sol[r as int].0 == sol[l as int].0 + sol[l as int].1 + GAP * d,
{
    let c = Constraint {
        terms: vec![Term { var: Var::Pos(l), coef: 1 }, Term { var: Var::Size(l), coef: 1 }, Term { var: Var::Pos(r), coef: -1 }],
        constant: -(GAP as i128),
        strength: Strength::Required,
    };
    assert forall|sol: Seq<(int, int)>, d: int| #[trigger] holds(c, sol, d) <==> sol[r as int].0 == sol[l as int].0 + sol[l as int].1 + GAP * d by {
        lemma_lhs3(c.terms@[0], c.terms@[1], c.terms@[2], sol);
        lemma_unit_term(c.terms@[0], sol);
        lemma_unit_term(c.terms@[1], sol);
        lemma_unit_term(c.terms@[2], sol);
        let k = c.constant as int;
        assert(k * d == -(GAP * d)) by (nonlinear_arith)
            requires k == -GAP;
        assert(c.terms@ =~= seq![c.terms@[0], c.terms@[1], c.terms@[2]]);
    }
    c
}

/// Pane `i` ends at `width` (required).
fn span(i: usize, width: i64) -> (c: Constraint)
    ensures
        c.strength == Strength::Required,
        forall|sol: Seq<(int, int)>, d: int| #[trigger] holds(c, sol, d) <==> sol[i as int].0 + sol[i as int].1 == width * d,
{
    let c = Constraint {
        terms: vec![Term { var: Var::Pos(i), coef: 1 }, Term { var: Var::Size(i), coef: 1 }],
        constant: width as i128,
        strength: Strength::Required,
    };
    assert forall|sol: Seq<(int, int)>, d: int| #[trigger] holds(c, sol, d) <==> sol[i as int].0 + sol[i as int].1 == width * d by {
        lemma_lhs2(c.terms@[0], c.terms@[1], sol);
        assert(c.terms@ =~= seq![c.terms@[0], c.terms@[1]]);
        lemma_unit_term(c.terms@[0], sol);
        lemma_unit_term(c.terms@[1], sol);
    }
    c
}

proof fn lemma_space_bounds(panes: Seq<Pane>, row: Seq<usize>)
    requires
        panes_wf(panes),
        forall|k: int| 0 <= k < row.len() ==> (#[trigger] row[k]) < panes.len(),
    ensures
        0 <= flex_space(panes, row) <= row.len() * MAX_COORD,
        0 <= fixed_space(panes, row) <= row.len() * MAX_COORD,
    decreases row.len(),
{
    if row.len() > 0 {
        let rest = row.drop_last();
        assert forall|k: int| 0 <= k < rest.len() implies (#[trigger] rest[k]) < panes.len() by {
            assert(rest[k] == row[k]);
        }
        lemma_space_bounds(panes, rest);
        assert(panes[row.last() as int].wf());
        assert((rest.len() + 1) * MAX_COORD == rest.len() * MAX_COORD + MAX_COORD) by (nonlinear_arith);
    }
}

proof fn lemma_push(cs: Seq<Constraint>, c: Constraint, sol: Seq<(int, int)>, d: int)
    ensures
        satisfies(cs.push(c), sol, d) <==> satisfies(cs, sol, d) && holds(c, sol, d),
        satisfies_required(cs.push(c), sol, d) <==> satisfies_required(cs, sol, d)
            && (c.strength == Strength::Required ==> holds(c, sol, d)),
{
    let s = cs.push(c);
    assert(s[cs.len() as int] == c);
    assert forall|i: int| 0 <= i < cs.len() implies s[i] == cs[i] by {}
    if satisfies(s, sol, d) {
        assert(holds(s[cs.len() as int], sol, d));
        assert forall|i: int| 0 <= i < cs.len() implies holds(#[trigger] cs[i], sol, d) by {
            assert(holds(s[i], sol, d));
        }
    }
    if satisfies_required(s, sol, d) {
        assert forall|i: int| 0 <= i < cs.len() && (#[trigger] cs[i]).strength == Strength::Required implies holds(cs[i], sol, d) by {
            assert(s[i] == cs[i]);
        }
        if c.strength == Strength::Required {
            assert(s[cs.len() as int].strength == Strength::Required);
        }
    }
}

/// Pane `j` of the row meets what the required constraints ask of its width.
spec fn width_required(panes: Seq<Pane>, row: Seq<usize>, sol: Seq<(int, int)>, d: int, j: int) -> bool {
    row.len() > 1 && !panes[row[j] as int].flex ==> keeps_width(panes, row, sol, d, j)
}

/// Pane `j` of the row meets what all the constraints ask of its width.
spec fn width_settled(width: int, panes: Seq<Pane>, row: Seq<usize>, sol: Seq<(int, int)>, d: int, j: int) -> bool {
    &&& !panes[row[j] as int].flex ==> keeps_width(panes, row, sol, d, j)
    &&& panes[row[j] as int].flex && flex_space(panes, row) != 0 ==> keeps_ratio(width, panes, row, sol, d, j)
}

/// The start and packing constraints of the row, up to pane `k`.
spec fn chained(row: Seq<usize>, sol: Seq<(int, int)>, d: int, k: int) -> bool {
    &&& pos_at(row, sol, 0) == 0
    &&& forall|j: int| 0 <= j < k ==> #[trigger] packed(row, sol, d, j)
}

/// Builds the constraints of one row at the container width `width`. The
/// first pane starts at 0, neighbours are `GAP` apart and the last pane ends
/// at `width` (all required). A fixed pane keeps its width: required where
/// the row holds several panes, strong where it stands alone, so that the
/// full span wins. A flexible pane keeps its share of the flexible room
/// (strong); where the flexible panes had no room, no share is asked.
pub fn constrain_row(width: i64, panes: &Vec<Pane>, row: &Vec<usize>) -> (cs: Vec<Constraint>)
    requires
        panes_wf(panes@),
        row_wf(panes@, row@),
        0 <= width <= MAX_COORD,
    ensures
        forall|sol: Seq<(int, int)>, d: int| #[trigger] satisfies_required(cs@, sol, d)
            <==> required_layout(width as int, panes@, row@, sol, d),
        forall|sol: Seq<(int, int)>, d: int| #[trigger] satisfies(cs@, sol, d)
            <==> required_layout(width as int, panes@, row@, sol, d) && preferred_layout(width as int, panes@, row@, sol, d),
{
    let n = row.len();
    let ghost r = row@;
    let ghost ps = panes@;
    let mut cs: Vec<Constraint> = Vec::new();
    let first = scaled_eq(Var::Pos(row[0]), 1, 0, Strength::Required);
    proof {
        assert forall|sol: Seq<(int, int)>, d: int| #[trigger] satisfies(cs@.push(first), sol, d) <==> chained(r, sol, d, 0) by {
            lemma_push(cs@, first, sol, d);
        }
        assert forall|sol: Seq<(int, int)>, d: int| #[trigger] satisfies_required(cs@.push(first), sol, d) <==> chained(r, sol, d, 0) by {
            lemma_push(cs@, first, sol, d);
        }
    }
    cs.push(first);

    let mut k: usize = 0;
    while k + 1 < n
        invariant
            row@ == r,
            panes@ == ps,
            row_wf(ps, r),
            n == r.len(),
            k < n,
            forall|sol: Seq<(int, int)>, d: int| #[trigger] satisfies(cs@, sol, d) <==> chained(r, sol, d, k as int),
            forall|sol: Seq<(int, int)>, d: int| #[trigger] satisfies_required(cs@, sol, d) <==> chained(r, sol, d, k as int),
        decreases n - k,
    {
        let c = packing(row[k], row[k + 1]);
        let ghost old_cs = cs@;
        cs.push(c);
        assert forall|sol: Seq<(int, int)>, d: int| #[trigger] satisfies(cs@, sol, d) <==> chained(r, sol, d, k + 1) by {
            lemma_push(old_cs, c, sol, d);
            assert(satisfies(old_cs, sol, d) <==> chained(r, sol, d, k as int));
            assert(holds(c, sol, d) <==> packed(r, sol, d, k as int));
        }
        assert forall|sol: Seq<(int, int)>, d: int| #[trigger] satisfies_required(cs@, sol, d) <==> chained(r, sol, d, k + 1) by {
            lemma_push(old_cs, c, sol, d);
            assert(satisfies_required(old_cs, sol, d) <==> chained(r, sol, d, k as int));
            assert(holds(c, sol, d) <==> packed(r, sol, d, k as int));
        }
        k = k + 1;
    }

    let mut flex: i128 = 0;
    let mut fixed: i128 = 0;
    let mut k: usize = 0;
    while k < n
        invariant
            row@ == r,
            panes@ == ps,
            panes_wf(ps),
            row_wf(ps, r),
            n == r.len(),
            k <= n,
            flex == flex_space(ps, r.subrange(0, k as int)),
            fixed == fixed_space(ps, r.subrange(0, k as int)),
            0 <= flex <= k * MAX_COORD,
            0 <= fixed <= k * MAX_COORD,
        decreases n - k,
    {
        let p = panes[row[k]];
        proof {
            let sub = r.subrange(0, k + 1);
            assert(sub.drop_last() =~= r.subrange(0, k as int));
            assert forall|j: int| 0 <= j < sub.len() implies (#[trigger] sub[j]) < ps.len() by {
                assert(sub[j] == r[j]);
            }
            lemma_space_bounds(ps, sub);
            assert((k + 1) * MAX_COORD <= MAX_PANES * MAX_COORD) by (nonlinear_arith)
                requires k + 1 <= MAX_PANES;
        }
        if p.flex {
            flex = flex + p.size.0 as i128;
        } else {
            fixed = fixed + p.size.0 as i128;
        }
        k = k + 1;
    }
    proof {
        assert(r.subrange(0, n as int) =~= r);
        assert(n * MAX_COORD <= MAX_PANES * MAX_COORD) by (nonlinear_arith)
            requires n <= MAX_PANES;
    }
    let new_flex: i128 = width as i128 - (GAP as i128) * (n as i128 - 1) - fixed;
    assert(new_flex == new_flex_space(width as int, ps, r));

    let ghost base_cs = cs@;
    let mut k: usize = 0;
    while k < n
        invariant
            row@ == r,
            panes@ == ps,
            panes_wf(ps),
            row_wf(ps, r),
            n == r.len(),
            k <= n,
            flex == flex_space(ps, r),
            new_flex == new_flex_space(width as int, ps, r),
            0 <= flex <= MAX_PANES * MAX_COORD,
            -(MAX_PANES * MAX_COORD) - GAP * MAX_PANES <= new_flex <= MAX_COORD,
            forall|sol: Seq<(int, int)>, d: int| #[trigger] satisfies(cs@, sol, d) <==> chained(r, sol, d, n - 1)
                && forall|j: int| 0 <= j < k ==> #[trigger] width_settled(width as int, ps, r, sol, d, j),
            forall|sol: Seq<(int, int)>, d: int| #[trigger] satisfies_required(cs@, sol, d) <==> chained(r, sol, d, n - 1)
                && forall|j: int| 0 <= j < k ==> #[trigger] width_required(ps, r, sol, d, j),
        decreases n - k,
    {
        let i = row[k];
        let p = panes[i];
        assert(p.wf());
        let ghost old_cs = cs@;
        if p.flex {
            if flex != 0 {
                let w = p.size.0 as i128;
                assert(w * new_flex <= MAX_COORD * (MAX_PANES * MAX_COORD + GAP * MAX_PANES)) by (nonlinear_arith)
                    requires 0 <= w <= MAX_COORD, -(MAX_PANES * MAX_COORD) - GAP * MAX_PANES <= new_flex <= MAX_COORD;
                assert(w * new_flex >= -MAX_COORD * (MAX_PANES * MAX_COORD + GAP * MAX_PANES)) by (nonlinear_arith)
                    requires 0 <= w <= MAX_COORD, -(MAX_PANES * MAX_COORD) - GAP * MAX_PANES <= new_flex <= MAX_COORD;
                let c = scaled_eq(Var::Size(i), flex, w * new_flex, Strength::Strong);
                cs.push(c);
                assert forall|sol: Seq<(int, int)>, d: int| #[trigger] satisfies(cs@, sol, d) <==> chained(r, sol, d, n - 1)
                    && forall|j: int| 0 <= j < k + 1 ==> #[trigger] width_settled(width as int, ps, r, sol, d, j) by {
                    lemma_push(old_cs, c, sol, d);
                    let x = size_at(r, sol, k as int);
                    let fl = flex as int;
                    assert(fl * x == x * fl) by (nonlinear_arith);
                    assert(holds(c, sol, d) <==> width_settled(width as int, ps, r, sol, d, k as int));
                }
                assert forall|sol: Seq<(int, int)>, d: int| #[trigger] satisfies_required(cs@, sol, d) <==> chained(r, sol, d, n - 1)
                    && forall|j: int| 0 <= j < k + 1 ==> #[trigger] width_required(ps, r, sol, d, j) by {
                    lemma_push(old_cs, c, sol, d);
                    assert(width_required(ps, r, sol, d, k as int));
                }
            } else {
                assert forall|sol: Seq<(int, int)>, d: int| #[trigger] satisfies(cs@, sol, d) <==> chained(r, sol, d, n - 1)
                    && forall|j: int| 0 <= j < k + 1 ==> #[trigger] width_settled(width as int, ps, r, sol, d, j) by {
                    assert(width_settled(width as int, ps, r, sol, d, k as int));
                }
                assert forall|sol: Seq<(int, int)>, d: int| #[trigger] satisfies_required(cs@, sol, d) <==> chained(r, sol, d, n - 1)
                    && forall|j: int| 0 <= j < k + 1 ==> #[trigger] width_required(ps, r, sol, d, j) by {
                    assert(width_required(ps, r, sol, d, k as int));
                }
            }
        } else {
            let strength = if n > 1 { Strength::Required } else { Strength::Strong };
            let c = scaled_eq(Var::Size(i), 1, p.size.0 as i128, strength);
            cs.push(c);
            assert forall|sol: Seq<(int, int)>, d: int| #[trigger] satisfies(cs@, sol, d) <==> chained(r, sol, d, n - 1)
                && forall|j: int| 0 <= j < k + 1 ==> #[trigger] width_settled(width as int, ps, r, sol, d, j) by {
                lemma_push(old_cs, c, sol, d);
                assert(holds(c, sol, d) <==> width_settled(width as int, ps, r, sol, d, k as int));
            }
            assert forall|sol: Seq<(int, int)>, d: int| #[trigger] satisfies_required(cs@, sol, d) <==> chained(r, sol, d, n - 1)
                && forall|j: int| 0 <= j < k + 1 ==> #[trigger] width_required(ps, r, sol, d, j) by {
                lemma_push(old_cs, c, sol, d);
                assert((c.strength == Strength::Required ==> holds(c, sol, d)) <==> width_required(ps, r, sol, d, k as int));
            }
        }
        k = k + 1;
    }

    let last = span(row[n - 1], width);
    let ghost old_cs = cs@;
    cs.push(last);
    assert forall|sol: Seq<(int, int)>, d: int| #[trigger] satisfies_required(cs@, sol, d)
        <==> required_layout(width as int, ps, r, sol, d) by {
        lemma_push(old_cs, last, sol, d);
        if required_layout(width as int, ps, r, sol, d) {
            assert forall|j: int| 0 <= j < n implies #[trigger] width_required(ps, r, sol, d, j) by {
                if n > 1 && !ps[r[j] as int].flex {
                    assert(keeps_width(ps, r, sol, d, j));
                }
            }
        }
        if satisfies_required(cs@, sol, d) {
            assert forall|j: int| 0 <= j < n && !ps[r[j] as int].flex && n > 1 implies #[trigger] keeps_width(ps, r, sol, d, j) by {
                assert(width_required(ps, r, sol, d, j));
            }
        }
    }
    assert forall|sol: Seq<(int, int)>, d: int| #[trigger] satisfies(cs@, sol, d)
        <==> required_layout(width as int, ps, r, sol, d) && preferred_layout(width as int, ps, r, sol, d) by {
        lemma_push(old_cs, last, sol, d);
        if required_layout(width as int, ps, r, sol, d) && preferred_layout(width as int, ps, r, sol, d) {
            assert forall|j: int| 0 <= j < n implies #[trigger] width_settled(width as int, ps, r, sol, d, j) by {
                if !ps[r[j] as int].flex {
                    if n > 1 {
                        assert(keeps_width(ps, r, sol, d, j));
                    }
                } else if flex_space(ps, r) != 0 {
                    assert(keeps_ratio(width as int, ps, r, sol, d, j));
                }
            }
        }
        if satisfies(cs@, sol, d) {
            assert forall|j: int| 0 <= j < n && !ps[r[j] as int].flex && n > 1 implies #[trigger] keeps_width(ps, r, sol, d, j) by {
                assert(width_settled(width as int, ps, r, sol, d, j));
            }
            assert forall|j: int| 0 <= j < n && ps[r[j] as int].flex && flex_space(ps, r) != 0
                implies #[trigger] keeps_ratio(width as int, ps, r, sol, d, j) by {
                assert(width_settled(width as int, ps, r, sol, d, j));
            }
            if n == 1 && !ps[r[0] as int].flex {
                assert(width_settled(width as int, ps, r, sol, d, 0));
            }
        }
    }
    cs
}

} // verus!
