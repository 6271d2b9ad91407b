use cassowary::strength::{REQUIRED, STRONG};
use cassowary::{Expression, RelationalOperator, Solver, Variable};
use layout_solver::{
    apply_solution, constrain_row, panes_in_row, plan_resize, row_boundaries, update_by_id, Layout, Pane, Strength,
    Var, GAP,
};

fn pane(id: u32, x: i64, y: i64, w: i64, h: i64, flex: bool) -> Pane {
    Pane { id, pos: (x, y), size: (w, h), flex }
}

/// Solves the planned constraints with cassowary and rounds each value to
/// the nearest unit; `None` where the required constraints conflict.
fn solve(n: usize, layout: &Layout) -> Option<Vec<(i64, i64)>> {
    let vars: Vec<(Variable, Variable)> = (0..n).map(|_| (Variable::new(), Variable::new())).collect();
    let mut solver = Solver::new();
    for c in &layout.constraints {
        let terms = c
            .terms
            .iter()
            .map(|t| cassowary::Term {
                variable: match t.var {
                    Var::Pos(i) => vars[i].0,
                    Var::Size(i) => vars[i].1,
                },
                coefficient: t.coef as f64,
            })
            .collect();
        let strength = match c.strength {
            Strength::Required => REQUIRED,
            Strength::Strong => STRONG,
        };
        let expr = Expression::new(terms, -(c.constant as f64));
        if solver.add_constraint(cassowary::Constraint::new(expr, RelationalOperator::Equal, strength)).is_err() {
            return None;
        }
    }
    Some(
        vars.iter()
            .map(|(p, s)| (solver.get_value(*p).round() as i64, solver.get_value(*s).round() as i64))
            .collect(),
    )
}

fn resize(width: i64, panes: &[Pane]) -> Option<Vec<Pane>> {
    let panes = panes.to_vec();
    let layout = plan_resize(width, &panes);
    let sol = solve(panes.len(), &layout)?;
    Some(apply_solution(&panes, &layout.rows, &sol))
}

/// The five panes of the demo layout, listed bottom-up.
fn demo() -> Vec<Pane> {
    let mut panes = vec![
        pane(1, 0, 0, 300, 600 + GAP, true),
        pane(2, 300 + GAP, 0, 600 + GAP, 300, false),
        pane(3, 300 + GAP, 300 + GAP, 300, 300, true),
        pane(4, 600 + 2 * GAP, 300 + GAP, 300, 600 + GAP, true),
        pane(5, 0, 600 + 2 * GAP, 600 + GAP, 300, false),
    ];
    panes.reverse();
    panes
}

#[test]
fn demo_rows_are_found() {
    let bounds = row_boundaries(&demo());
    assert_eq!(bounds, vec![(0, 300), (310, 610), (620, 920)]);
}

#[test]
fn row_boundaries_ascend_without_overlap() {
    let bounds = row_boundaries(&demo());
    for k in 0..bounds.len() {
        assert!(bounds[k].0 <= bounds[k].1);
        if k + 1 < bounds.len() {
            assert!(bounds[k].1 + GAP <= bounds[k + 1].0);
        }
    }
    for p in demo() {
        let hits = bounds.iter().filter(|b| (p.pos.1 - b.0).abs() < GAP).count();
        assert_eq!(hits, 1);
    }
}

#[test]
fn row_boundaries_of_no_panes() {
    assert!(row_boundaries(&Vec::new()).is_empty());
}

#[test]
fn row_start_tolerates_offsets_under_gap() {
    let panes = vec![pane(1, 0, 0, 100, 200, true), pane(2, 110, 9, 100, 50, true), pane(3, 0, 65, 100, 40, true)];
    assert_eq!(row_boundaries(&panes), vec![(0, 50), (60, 100)]);
}

#[test]
fn panes_in_row_selects_by_edges_and_orders_by_x() {
    let panes = demo();
    // indices after the reversal: 0 -> id 5, 1 -> id 4, 2 -> id 3, 3 -> id 2, 4 -> id 1
    assert_eq!(panes_in_row(&panes, (0, 300)), vec![4, 3]);
    assert_eq!(panes_in_row(&panes, (310, 610)), vec![4, 2, 1]);
    assert_eq!(panes_in_row(&panes, (620, 920)), vec![0, 1]);
}

#[test]
fn constrain_row_counts() {
    let panes = vec![pane(1, 0, 0, 100, 50, true), pane(2, 110, 0, 200, 50, false), pane(3, 320, 0, 300, 50, true)];
    let cs = constrain_row(800, &panes, &vec![0, 1, 2]);
    // start, two packings, three widths, span
    assert_eq!(cs.len(), 7);
    let strong = cs.iter().filter(|c| c.strength == Strength::Strong).count();
    assert_eq!(strong, 2);
}

#[test]
fn constrain_row_skips_ratios_without_flexible_room() {
    let panes = vec![pane(1, 0, 0, 100, 50, false), pane(2, 110, 0, 200, 50, false)];
    let cs = constrain_row(310, &panes, &vec![0, 1]);
    assert_eq!(cs.len(), 5);
    assert!(cs.iter().all(|c| c.strength == Strength::Required));
}

#[test]
fn flex_and_fixed_row_resized_wider() {
    let panes = vec![pane(1, 0, 0, 300, 610, true), pane(2, 310, 0, 610, 300, false)];
    let out = resize(1220, &panes).unwrap();
    assert_eq!(out[1].size.0, 610);
    assert_eq!(out[0].size.0, 600);
    assert_eq!(out[0].pos.0, 0);
    assert_eq!(out[1].pos.0, 610);
}

#[test]
fn lone_fixed_pane_takes_full_width() {
    let panes = vec![pane(7, 0, 0, 900, 300, false)];
    let out = resize(1500, &panes).unwrap();
    assert_eq!(out[0].pos.0, 0);
    assert_eq!(out[0].size.0, 1500);
}

#[test]
fn flexible_ratio_is_kept() {
    let panes = vec![pane(1, 0, 0, 100, 50, true), pane(2, 110, 0, 300, 50, true)];
    // new flexible room: 210 - 10 = 200
    let out = resize(210, &panes).unwrap();
    assert_eq!(out[0].size.0, 50);
    assert_eq!(out[1].size.0, 150);
    assert_eq!(out[0].size.0 * 300, out[1].size.0 * 100);
}

#[test]
fn fixed_width_is_exact() {
    let panes = vec![pane(1, 0, 0, 100, 50, true), pane(2, 110, 0, 250, 50, false), pane(3, 370, 0, 100, 50, true)];
    let out = resize(1000, &panes).unwrap();
    assert_eq!(out[1].size.0, 250);
}

#[test]
fn rows_are_packed_and_span_the_width() {
    let panes = vec![pane(1, 0, 0, 100, 50, true), pane(2, 110, 0, 250, 50, false), pane(3, 370, 0, 100, 50, true)];
    let out = resize(1000, &panes).unwrap();
    assert_eq!(out[0].pos.0, 0);
    assert_eq!(out[1].pos.0, out[0].pos.0 + out[0].size.0 + GAP);
    assert_eq!(out[2].pos.0, out[1].pos.0 + out[1].size.0 + GAP);
    assert_eq!(out[2].pos.0 + out[2].size.0, 1000);
    assert_eq!(out[0].size.0, 365);
    assert_eq!(out[2].size.0, 365);
}

#[test]
fn resizing_twice_gives_the_same_layout() {
    let panes = vec![pane(1, 0, 0, 100, 50, true), pane(2, 110, 0, 250, 50, false), pane(3, 370, 0, 300, 50, true)];
    let once = resize(1070, &panes).unwrap();
    let twice = resize(1070, &once).unwrap();
    assert_eq!(once, twice);
    let again = resize(1070, &panes).unwrap();
    assert_eq!(once, again);
}

#[test]
fn vertical_extent_and_identity_pass_through() {
    let out = resize(1220, &demo()).unwrap();
    for (a, b) in demo().iter().zip(out.iter()) {
        assert_eq!(a.id, b.id);
        assert_eq!(a.pos.1, b.pos.1);
        assert_eq!(a.size.1, b.size.1);
        assert_eq!(a.flex, b.flex);
    }
}

#[test]
fn fixed_panes_wider_than_container_are_unsatisfiable() {
    let panes = vec![pane(1, 0, 0, 500, 50, false), pane(2, 510, 0, 500, 50, false)];
    assert!(resize(800, &panes).is_none());
}

#[test]
fn no_panes_give_no_panes() {
    let layout = plan_resize(500, &Vec::new());
    assert!(layout.rows.is_empty());
    assert!(layout.constraints.is_empty());
    assert_eq!(resize(500, &[]).unwrap(), Vec::new());
}

#[test]
fn apply_solution_writes_only_placed_panes() {
    let panes = vec![pane(1, 0, 0, 100, 50, true), pane(2, 5, 700, 100, 50, true)];
    let out = apply_solution(&panes, &vec![vec![0]], &vec![(3, 40), (8, 90)]);
    assert_eq!(out[0], pane(1, 3, 0, 40, 50, true));
    assert_eq!(out[1], panes[1]);
}

#[test]
fn update_by_id_matches_by_identity() {
    let live = vec![pane(2, 0, 0, 1, 1, true), pane(1, 0, 0, 1, 1, true)];
    let updated = vec![pane(1, 10, 0, 20, 1, true), pane(2, 30, 0, 40, 1, true)];
    let out = update_by_id(&live, &updated).unwrap();
    assert_eq!(out, vec![updated[1], updated[0]]);
}

#[test]
fn update_by_id_refuses_a_missing_pane() {
    let live = vec![pane(2, 0, 0, 1, 1, true), pane(3, 0, 0, 1, 1, true)];
    let updated = vec![pane(2, 30, 0, 40, 1, true)];
    assert!(update_by_id(&live, &updated).is_none());
}
