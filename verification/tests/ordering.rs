use geosolve::constraints::{Constraint, ElementKind, Measure, Polarity, TargetedConstraint};
use geosolve::figure::{Figure, PID};
use geosolve::order::{order_bfs, OrderError};

fn measure(x: f64) -> Measure {
    Measure { bits: x.to_bits() }
}

fn distance(x: f64) -> Constraint {
    Constraint::Element(measure(x), ElementKind::Distance)
}

fn at(p: PID, x: f64) -> TargetedConstraint {
    TargetedConstraint::Distance(p, measure(x))
}

fn points(fig: &mut Figure, n: usize) -> Vec<PID> {
    (0..n).map(|_| fig.new_point()).collect()
}

#[test]
fn two_points_one_distance_order() {
    let mut fig = Figure::new();
    let a = fig.new_point();
    let b = fig.new_point();
    fig.add_constraint(distance(10.0), vec![a, b]);
    let order = order_bfs(&fig).unwrap();
    assert_eq!(order, vec![(a, vec![]), (b, vec![at(a, 10.0)])]);
}

#[test]
fn triangle_order() {
    let mut fig = Figure::new();
    let p = points(&mut fig, 3);
    let (a, b, c) = (p[0], p[1], p[2]);
    fig.add_constraint(distance(1.0), vec![a, b]);
    fig.add_constraint(distance(1.0), vec![b, c]);
    fig.add_constraint(distance(1.0), vec![c, a]);
    let order = order_bfs(&fig).unwrap();
    assert_eq!(
        order,
        vec![(a, vec![]), (b, vec![at(a, 1.0)]), (c, vec![at(a, 1.0), at(b, 1.0)])]
    );
}

#[test]
fn empty_figure_has_no_order() {
    let fig = Figure::new();
    assert_eq!(order_bfs(&fig), Err(OrderError::OrderIncomplete { covered: 0, total: 0 }));
}

#[test]
fn lone_point_has_no_order() {
    let mut fig = Figure::new();
    fig.new_point();
    assert_eq!(order_bfs(&fig), Err(OrderError::OrderIncomplete { covered: 0, total: 1 }));
}

#[test]
fn points_without_constraints_have_no_order() {
    let mut fig = Figure::new();
    points(&mut fig, 3);
    assert_eq!(order_bfs(&fig), Err(OrderError::OrderIncomplete { covered: 0, total: 3 }));
}

#[test]
fn point_with_one_operation_stays_out() {
    let mut fig = Figure::new();
    let p = points(&mut fig, 3);
    fig.add_constraint(distance(1.0), vec![p[0], p[1]]);
    fig.add_constraint(distance(1.0), vec![p[1], p[2]]);
    assert_eq!(order_bfs(&fig), Err(OrderError::OrderIncomplete { covered: 2, total: 3 }));
}

#[test]
fn two_clusters_leave_two_trees() {
    let mut fig = Figure::new();
    let p = points(&mut fig, 4);
    fig.add_constraint(distance(1.0), vec![p[0], p[1]]);
    fig.add_constraint(distance(1.0), vec![p[2], p[3]]);
    assert_eq!(order_bfs(&fig), Err(OrderError::OrderIncomplete { covered: 2, total: 4 }));
}

#[test]
fn covered_is_the_largest_tree() {
    let mut fig = Figure::new();
    let p = points(&mut fig, 4);
    let (a, b, c, d) = (p[0], p[1], p[2], p[3]);
    fig.add_constraint(distance(1.0), vec![a, b]);
    fig.add_constraint(distance(1.0), vec![a, c]);
    fig.add_constraint(distance(1.0), vec![c, d]);
    fig.add_constraint(distance(1.0), vec![a, d]);
    // {a, b} and {a, c, d}: b hangs on a alone
    assert_eq!(order_bfs(&fig), Err(OrderError::OrderIncomplete { covered: 3, total: 4 }));
}

#[test]
fn larger_tree_replaces_the_trees_within_it() {
    let mut fig = Figure::new();
    let p = points(&mut fig, 4);
    let (a, b, c, d) = (p[0], p[1], p[2], p[3]);
    fig.add_constraint(distance(1.0), vec![a, b]);
    fig.add_constraint(distance(2.0), vec![a, c]);
    fig.add_constraint(distance(3.0), vec![c, d]);
    fig.add_constraint(distance(4.0), vec![a, d]);
    fig.add_constraint(Constraint::Element(measure(0.5), ElementKind::Angle), vec![c, d, b]);
    // From a and b nothing more is reached; from a and c everything is.
    let order = order_bfs(&fig).unwrap();
    assert_eq!(
        order,
        vec![
            (a, vec![]),
            (c, vec![at(a, 2.0)]),
            (d, vec![at(a, 4.0), at(c, 3.0)]),
            (b, vec![at(a, 1.0), TargetedConstraint::AngleEnd(d, c, measure(0.5))]),
        ]
    );
}

#[test]
fn order_visits_every_point_once() {
    let mut fig = Figure::new();
    let p = points(&mut fig, 6);
    fig.add_constraint(distance(1.0), vec![p[3], p[1]]);
    fig.add_constraint(distance(1.0), vec![p[3], p[0]]);
    fig.add_constraint(distance(1.0), vec![p[1], p[0]]);
    fig.add_constraint(Constraint::Collinear, vec![p[0], p[1], p[2], p[4]]);
    fig.add_constraint(distance(2.0), vec![p[2], p[3]]);
    fig.add_constraint(distance(3.0), vec![p[4], p[3]]);
    fig.add_constraint(Constraint::Perpendicular, vec![p[0], p[1], p[4], p[5]]);
    fig.add_constraint(distance(1.0), vec![p[5], p[2]]);
    let order = order_bfs(&fig).unwrap();
    assert_eq!(order.len(), 6);
    let mut seen = vec![false; 6];
    for (i, (pid, ops)) in order.iter().enumerate() {
        assert!(!seen[*pid]);
        seen[*pid] = true;
        let discretizing = ops.iter().filter(|op| op.discretizing()).count();
        match i {
            0 => assert!(ops.is_empty()),
            1 => assert!(ops.len() == 1 && discretizing == 1),
            _ => {
                assert_eq!(discretizing, 2);
                assert!(ops[0].discretizing() && ops[1].discretizing());
            }
        }
    }
    assert!(seen.iter().all(|s| *s));
    assert_eq!(order[0].0, p[0]);
    assert_eq!(order[1], (p[3], vec![at(p[0], 1.0)]));
}

#[test]
fn constraint_gives_a_point_one_operation() {
    let mut fig = Figure::new();
    let p = points(&mut fig, 3);
    let (a, b, c) = (p[0], p[1], p[2]);
    fig.add_constraint(distance(1.0), vec![a, b]);
    // both the line a-c and the line b-c end in c
    fig.add_constraint(Constraint::Parallel, vec![a, b, a, c, b, c]);
    assert_eq!(order_bfs(&fig), Err(OrderError::OrderIncomplete { covered: 2, total: 3 }));
    fig.add_constraint(distance(2.0), vec![b, c]);
    let order = order_bfs(&fig).unwrap();
    assert_eq!(order[2], (c, vec![TargetedConstraint::Parallel(a, b, a), at(b, 2.0)]));
}

#[test]
fn chirality_does_not_make_a_point_known() {
    let mut fig = Figure::new();
    let p = points(&mut fig, 4);
    let (a, b, c, d) = (p[0], p[1], p[2], p[3]);
    fig.add_constraint(distance(1.0), vec![a, b]);
    fig.add_constraint(distance(1.0), vec![a, c]);
    fig.add_constraint(distance(1.0), vec![b, c]);
    fig.add_constraint(distance(1.0), vec![a, d]);
    fig.add_constraint(
        Constraint::Chirality(vec![Polarity::Pro, Polarity::Pro]),
        vec![a, b, c, a, b, d],
    );
    assert_eq!(order_bfs(&fig), Err(OrderError::OrderIncomplete { covered: 3, total: 4 }));
}

#[test]
fn operations_that_discretize_come_first() {
    let mut fig = Figure::new();
    let p = points(&mut fig, 4);
    let (a, b, c, d) = (p[0], p[1], p[2], p[3]);
    fig.add_constraint(distance(1.0), vec![a, b]);
    fig.add_constraint(distance(1.0), vec![a, c]);
    fig.add_constraint(distance(1.0), vec![b, c]);
    fig.add_constraint(
        Constraint::Chirality(vec![Polarity::Anti, Polarity::Pro]),
        vec![a, b, c, b, d, a],
    );
    fig.add_constraint(distance(1.0), vec![a, d]);
    fig.add_constraint(distance(1.0), vec![b, d]);
    let order = order_bfs(&fig).unwrap();
    assert_eq!(
        order[3],
        (
            d,
            vec![
                at(a, 1.0),
                at(b, 1.0),
                TargetedConstraint::Chirality(Polarity::Anti, a, b, c, a, b),
            ]
        )
    );
}

#[test]
fn malformed_constraint_contributes_nothing() {
    let mut fig = Figure::new();
    let p = points(&mut fig, 3);
    fig.add_constraint(distance(1.0), vec![p[0], p[1]]);
    fig.add_constraint(distance(1.0), vec![p[0], p[1], p[2]]);
    fig.add_constraint(Constraint::Parallel, vec![p[0], p[1], p[2]]);
    assert_eq!(order_bfs(&fig), Err(OrderError::OrderIncomplete { covered: 2, total: 3 }));
}
