use geosolve::constraints::{Constraint, ElementKind, Measure, Polarity};
use geosolve::figure::Figure;

fn distance(x: f64) -> Constraint {
    Constraint::Element(Measure { bits: x.to_bits() }, ElementKind::Distance)
}

#[test]
fn new_figure_is_empty() {
    let fig = Figure::new();
    assert_eq!(fig.point_count(), 0);
    assert_eq!(fig.constraint_count(), 0);
    let fig = Figure::default();
    assert_eq!(fig.point_count(), 0);
    assert_eq!(fig.constraint_count(), 0);
}

#[test]
fn points_are_numbered_in_order() {
    let mut fig = Figure::new();
    assert_eq!(fig.new_point(), 0);
    assert_eq!(fig.new_point(), 1);
    assert_eq!(fig.new_point(), 2);
    assert_eq!(fig.point_count(), 3);
    assert!(fig.constraints_of(0).is_empty());
    assert!(fig.constraints_of(2).is_empty());
}

#[test]
fn constraint_is_entered_for_each_point() {
    let mut fig = Figure::new();
    let a = fig.new_point();
    let b = fig.new_point();
    let c = fig.new_point();
    fig.add_constraint(distance(3.0), vec![a, b]);
    fig.add_constraint(Constraint::Collinear, vec![c, b]);
    assert_eq!(fig.constraint_count(), 2);
    assert_eq!(fig.constraints_of(a), &[0]);
    assert_eq!(fig.constraints_of(b), &[0, 1]);
    assert_eq!(fig.constraints_of(c), &[1]);
    assert_eq!(fig.points_of(0), &[a, b]);
    assert_eq!(fig.points_of(1), &[c, b]);
    assert!(matches!(fig.constraint(0), Constraint::Element(_, ElementKind::Distance)));
    assert!(matches!(fig.constraint(1), Constraint::Collinear));
}

#[test]
fn repeated_point_is_entered_once() {
    let mut fig = Figure::new();
    let a = fig.new_point();
    let b = fig.new_point();
    fig.add_constraint(Constraint::Parallel, vec![a, b, a, a, b, a]);
    assert_eq!(fig.constraints_of(a), &[0]);
    assert_eq!(fig.constraints_of(b), &[0]);
    assert_eq!(fig.points_of(0), &[a, b, a, a, b, a]);
}

#[test]
fn constraint_without_points_touches_none() {
    let mut fig = Figure::new();
    let a = fig.new_point();
    fig.add_constraint(Constraint::Chirality(vec![Polarity::Pro]), vec![]);
    assert_eq!(fig.constraint_count(), 1);
    assert!(fig.constraints_of(a).is_empty());
    assert!(fig.points_of(0).is_empty());
}

#[test]
fn arity_is_not_validated() {
    let mut fig = Figure::new();
    let a = fig.new_point();
    fig.add_constraint(distance(1.0), vec![a, a, a]);
    assert_eq!(fig.points_of(0).len(), 3);
    assert_eq!(fig.constraints_of(a), &[0]);
}

#[test]
fn clone_holds_the_same() {
    let mut fig = Figure::new();
    let a = fig.new_point();
    let b = fig.new_point();
    fig.add_constraint(distance(3.0), vec![a, b]);
    fig.add_constraint(Constraint::Chirality(vec![Polarity::Anti]), vec![a, b, a]);
    let mut copy = fig.clone();
    assert_eq!(copy.point_count(), 2);
    assert_eq!(copy.constraint_count(), 2);
    assert_eq!(copy.constraints_of(a), &[0, 1]);
    assert_eq!(copy.points_of(1), &[a, b, a]);
    assert!(matches!(
        copy.constraint(0),
        Constraint::Element(m, ElementKind::Distance) if m.bits == 3f64.to_bits()
    ));
    assert!(matches!(
        copy.constraint(1).clone(),
        Constraint::Chirality(p) if p == vec![Polarity::Anti]
    ));
    copy.new_point();
    assert_eq!(fig.point_count(), 2);
}
