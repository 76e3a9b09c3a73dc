use geosolve::constraints::Polarity::{Anti, Pro};
use geosolve::constraints::{Constraint, ElementKind, Measure, Polarity, TargetedConstraint};
use geosolve::targeting::{
    angle, chirality, collinear, distance, parallel, perpendicular, targets,
};

fn m(x: f64) -> Measure {
    Measure { bits: x.to_bits() }
}

#[test]
fn distance_targets_the_unknown_end() {
    let r = m(10.0);
    assert_eq!(distance(r, &[3, 5], &[true, false]), vec![(5, TargetedConstraint::Distance(3, r))]);
    assert_eq!(distance(r, &[3, 5], &[false, true]), vec![(3, TargetedConstraint::Distance(5, r))]);
    assert_eq!(distance(r, &[3, 5], &[true, true]), vec![]);
    assert_eq!(distance(r, &[3, 5], &[false, false]), vec![]);
}

#[test]
fn distance_of_wrong_arity_has_no_target() {
    let r = m(10.0);
    assert_eq!(distance(r, &[3], &[false]), vec![]);
    assert_eq!(distance(r, &[3, 5, 6], &[true, false, false]), vec![]);
    assert_eq!(distance(r, &[3, 5], &[true]), vec![]);
    assert_eq!(distance(r, &[], &[]), vec![]);
}

#[test]
fn angle_targets_each_position() {
    let a = m(0.5);
    assert_eq!(
        angle(a, &[1, 2, 3], &[true, true, false]),
        vec![(3, TargetedConstraint::AngleEnd(2, 1, a))]
    );
    assert_eq!(
        angle(a, &[1, 2, 3], &[false, true, true]),
        vec![(1, TargetedConstraint::AngleEnd(2, 3, a))]
    );
    assert_eq!(
        angle(a, &[1, 2, 3], &[true, false, true]),
        vec![(2, TargetedConstraint::AngleVertex(1, 3, a))]
    );
}

#[test]
fn angle_needs_two_known() {
    let a = m(0.5);
    assert_eq!(angle(a, &[1, 2, 3], &[true, false, false]), vec![]);
    assert_eq!(angle(a, &[1, 2, 3], &[false, true, false]), vec![]);
    assert_eq!(angle(a, &[1, 2, 3], &[false, false, true]), vec![]);
    assert_eq!(angle(a, &[1, 2, 3], &[false, false, false]), vec![]);
    assert_eq!(angle(a, &[1, 2, 3], &[true, true, true]), vec![]);
    assert_eq!(angle(a, &[1, 2], &[true, false]), vec![]);
}

#[test]
fn parallel_uses_the_first_known_line() {
    // lines (0,1) (2,3) (4,5) (6,7): the second and the fourth are known,
    // the first and the third have one end known
    let pts = [0, 1, 2, 3, 4, 5, 6, 7];
    let known = [false, true, true, true, true, false, true, true];
    assert_eq!(
        parallel(&pts, &known),
        vec![
            (0, TargetedConstraint::Parallel(2, 3, 1)),
            (5, TargetedConstraint::Parallel(2, 3, 4)),
        ]
    );
}

#[test]
fn parallel_without_known_line_has_no_target() {
    assert_eq!(parallel(&[0, 1, 2, 3], &[true, false, false, true]), vec![]);
    assert_eq!(parallel(&[0, 1, 2, 3], &[false, false, false, false]), vec![]);
}

#[test]
fn parallel_skips_lines_without_known_end() {
    assert_eq!(parallel(&[0, 1, 2, 3], &[true, true, false, false]), vec![]);
    assert_eq!(parallel(&[0, 1, 2, 3], &[true, true, true, true]), vec![]);
}

#[test]
fn parallel_of_odd_length_has_no_target() {
    assert_eq!(parallel(&[0, 1, 2], &[true, true, false]), vec![]);
    assert_eq!(parallel(&[0, 1, 2, 3], &[true, true, false]), vec![]);
}

#[test]
fn perpendicular_alternates() {
    // reference: line 1; line 0 and line 2 are turned, line 3 is not
    let pts = [0, 1, 2, 3, 4, 5, 6, 7];
    let known = [true, false, true, true, false, true, true, false];
    assert_eq!(
        perpendicular(&pts, &known),
        vec![
            (1, TargetedConstraint::Perpendicular(2, 3, 0)),
            (4, TargetedConstraint::Perpendicular(2, 3, 5)),
            (7, TargetedConstraint::Parallel(2, 3, 6)),
        ]
    );
}

#[test]
fn perpendicular_pair() {
    assert_eq!(
        perpendicular(&[0, 1, 1, 2], &[true, true, true, false]),
        vec![(2, TargetedConstraint::Perpendicular(0, 1, 1))]
    );
}

#[test]
fn collinear_targets_every_unknown_point() {
    let pts = [9, 4, 6, 2, 7];
    let known = [false, true, false, true, true];
    assert_eq!(
        collinear(&pts, &known),
        vec![(9, TargetedConstraint::Collinear(4, 2)), (6, TargetedConstraint::Collinear(4, 2))]
    );
}

#[test]
fn collinear_needs_two_known() {
    assert_eq!(collinear(&[9, 4, 6], &[false, true, false]), vec![]);
    assert_eq!(collinear(&[9, 4, 6], &[false, false, false]), vec![]);
    assert_eq!(collinear(&[9, 4, 6], &[true, true, true]), vec![]);
    assert_eq!(collinear(&[9, 4, 6], &[true, true]), vec![]);
}

#[test]
fn chirality_names_the_known_points_in_cyclic_order() {
    let pols = [Pro, Pro, Anti, Anti];
    let pts = [0, 1, 2, 3, 4, 5, 6, 7, 8, 9, 10, 11];
    let known = [
        true, true, true, // reference
        true, true, false, // last unknown
        true, false, true, // middle unknown
        false, true, true, // first unknown
    ];
    assert_eq!(
        chirality(&pols, &pts, &known),
        vec![
            (5, TargetedConstraint::Chirality(Pro, 0, 1, 2, 3, 4)),
            (7, TargetedConstraint::Chirality(Anti, 0, 1, 2, 8, 6)),
            (9, TargetedConstraint::Chirality(Anti, 0, 1, 2, 10, 11)),
        ]
    );
}

#[test]
fn chirality_takes_the_first_known_triple() {
    let pols = [Anti, Pro, Anti];
    let pts = [0, 1, 2, 3, 4, 5, 6, 7, 8];
    let known = [true, false, true, true, true, true, true, true, true];
    assert_eq!(
        chirality(&pols, &pts, &known),
        vec![(1, TargetedConstraint::Chirality(Anti, 3, 4, 5, 2, 0))]
    );
}

#[test]
fn chirality_without_reference_or_of_wrong_length() {
    assert_eq!(chirality(&[Pro, Pro], &[0, 1, 2, 3, 4, 5], &[true, true, false, true, false, true]), vec![]);
    assert_eq!(chirality(&[Pro], &[0, 1, 2, 3, 4, 5], &[true, true, true, true, true, false]), vec![]);
    assert_eq!(chirality(&[Pro, Pro], &[0, 1, 2, 3, 4], &[true, true, true, true, false]), vec![]);
    assert_eq!(chirality(&[Pro, Pro], &[0, 1, 2, 3, 4, 5], &[true, true, true, false, false, true]), vec![]);
}

#[test]
fn targets_dispatches_on_the_constraint() {
    let r = m(2.0);
    assert_eq!(
        targets(&Constraint::Element(r, ElementKind::Distance), &[0, 1], &[true, false]),
        vec![(1, TargetedConstraint::Distance(0, r))]
    );
    assert_eq!(
        targets(&Constraint::Element(r, ElementKind::Angle), &[0, 1, 2], &[true, false, true]),
        vec![(1, TargetedConstraint::AngleVertex(0, 2, r))]
    );
    assert_eq!(
        targets(&Constraint::Parallel, &[0, 1, 2, 3], &[true, true, false, true]),
        vec![(2, TargetedConstraint::Parallel(0, 1, 3))]
    );
    assert_eq!(
        targets(&Constraint::Perpendicular, &[0, 1, 2, 3], &[true, true, false, true]),
        vec![(2, TargetedConstraint::Perpendicular(0, 1, 3))]
    );
    assert_eq!(
        targets(&Constraint::Collinear, &[0, 1, 2], &[true, true, false]),
        vec![(2, TargetedConstraint::Collinear(0, 1))]
    );
    assert_eq!(
        targets(
            &Constraint::Chirality(vec![Polarity::Pro, Polarity::Anti]),
            &[0, 1, 2, 0, 1, 3],
            &[true, true, true, true, true, false]
        ),
        vec![(3, TargetedConstraint::Chirality(Polarity::Anti, 0, 1, 2, 0, 1))]
    );
    // an element of the wrong arity yields nothing
    assert_eq!(
        targets(&Constraint::Element(r, ElementKind::Distance), &[0, 1, 2], &[true, false, true]),
        vec![]
    );
}

#[test]
fn only_chirality_does_not_discretize() {
    let r = m(1.0);
    assert!(TargetedConstraint::Distance(0, r).discretizing());
    assert!(TargetedConstraint::AngleEnd(0, 1, r).discretizing());
    assert!(TargetedConstraint::AngleVertex(0, 1, r).discretizing());
    assert!(TargetedConstraint::Parallel(0, 1, 2).discretizing());
    assert!(TargetedConstraint::Perpendicular(0, 1, 2).discretizing());
    assert!(TargetedConstraint::Collinear(0, 1).discretizing());
    assert!(!TargetedConstraint::Chirality(Polarity::Pro, 0, 1, 2, 3, 4).discretizing());
}
