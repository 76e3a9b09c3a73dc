//! The constraints a figure is declared with, and the directed operations
//! that place one point from points already known.

use vstd::prelude::*;
use crate::figure::PID;

verus! {

/// The measure of a distance or of an angle: a double-precision number, held
/// as its IEEE-754 bit pattern. The library carries measures from a
/// declaration to the operations derived from it and never computes with them.
#[derive(Clone, Copy, Debug, PartialEq, Eq, Structural)]
pub struct Measure {
    pub bits: u64,
}

/// What an [`Constraint::Element`] measures.
#[derive(Clone, Copy, Debug, PartialEq, Eq, Structural)]
pub enum ElementKind {
    /// The distance between two points.
    Distance,
    /// The angle `a`-vertex-`b` between three points.
    Angle,
}

/// The relative sign of an angular turn.
#[derive(Clone, Copy, Debug, PartialEq, Eq, Structural)]
pub enum Polarity {
    Pro,
    Anti,
}

/// A symmetric relationship between the points it is declared on.
#[derive(Debug)]
pub enum Constraint {
    /// A measured distance (two points) or angle (three points: `a`, vertex, `b`).
    Element(Measure, ElementKind),
    /// The lines given by consecutive pairs of points are parallel.
    Parallel,
    /// Each line given by a pair of points is perpendicular to the line before it.
    Perpendicular,
    /// All the points lie on one line.
    Collinear,
    /// Consecutive triples of points turn the same way where their
    /// polarities are equal, and opposite ways where they differ.
    Chirality(Vec<Polarity>),
}

/// What a constraint says.
pub enum ConstraintView {
    /// A measured distance or angle.
    Element(Measure, ElementKind),
    /// A parallelism.
    Parallel,
    /// A perpendicularity.
    Perpendicular,
    /// A collinearity.
    Collinear,
    /// A chirality with the polarities of its triples.
    Chirality(Seq<Polarity>),
}

impl View for Constraint {
    type V = ConstraintView;

    open spec fn view(&self) -> ConstraintView {
        match *self {
            Constraint::Element(m, kind) => ConstraintView::Element(m, kind),
            Constraint::Parallel => ConstraintView::Parallel,
            Constraint::Perpendicular => ConstraintView::Perpendicular,
            Constraint::Collinear => ConstraintView::Collinear,
            Constraint::Chirality(polarities) => ConstraintView::Chirality(polarities@),
        }
    }
}

impl Clone for Constraint {
    fn clone(&self) -> (copy: Constraint)
        ensures
            copy@ == self@,
    {
        match self {
            Constraint::Element(m, kind) => Constraint::Element(*m, *kind),
            Constraint::Parallel => Constraint::Parallel,
            Constraint::Perpendicular => Constraint::Perpendicular,
            Constraint::Collinear => Constraint::Collinear,
            Constraint::Chirality(polarities) => {
                let mut copy: Vec<Polarity> = Vec::new();
                let mut i: usize = 0;
                while i < polarities.len()
                    invariant
                        i <= polarities@.len(),
                        copy@ == polarities@.take(i as int),
                    decreases polarities@.len() - i,
                {
                    copy.push(polarities[i]);
                    i += 1;
                    assert(copy@ =~= polarities@.take(i as int));
                }
                assert(copy@ =~= polarities@);
                Constraint::Chirality(copy)
            },
        }
    }
}

/// A constraint directed at one unknown point: every point it names is
/// known, and it yields the locus on which the target must lie.
#[derive(Clone, Copy, Debug, PartialEq, Eq, Structural)]
pub enum TargetedConstraint {
    /// On the circle around the known point, with the measure as radius.
    Distance(PID, Measure),
    /// On one of the two rays from the vertex at the measured angle from
    /// the direction vertex-to-other. Fields: vertex, other, measure.
    AngleEnd(PID, PID, Measure),
    /// The vertex of an inscribed angle of the given measure over the chord
    /// between the two points.
    AngleVertex(PID, PID, Measure),
    /// On the line through the third point, parallel to the line through
    /// the first two.
    Parallel(PID, PID, PID),
    /// On the line through the third point, perpendicular to the line
    /// through the first two.
    Perpendicular(PID, PID, PID),
    /// On the line through the two points.
    Collinear(PID, PID),
    /// In the halfplane beside the line from the fourth to the fifth point
    /// on which the turn has the sign of the turn of the first three points,
    /// or the opposite sign where the polarity is `Anti`.
    Chirality(Polarity, PID, PID, PID, PID, PID),
}

impl TargetedConstraint {
    /// Whether the locus is one-dimensional, so that two such operations
    /// leave finitely many positions. Only a chirality, which yields a
    /// halfplane, is not.
    pub open spec fn is_discretizing(self) -> bool {
        !(self is Chirality)
    }

    /// Whether the operation names the point `q`.
    pub open spec fn binds(self, q: PID) -> bool {
        match self {
            TargetedConstraint::Distance(a, _) => q == a,
            TargetedConstraint::AngleEnd(v, o, _) => q == v || q == o,
            TargetedConstraint::AngleVertex(a, b, _) => q == a || q == b,
            TargetedConstraint::Parallel(a, b, o) => q == a || q == b || q == o,
            TargetedConstraint::Perpendicular(a, b, o) => q == a || q == b || q == o,
            TargetedConstraint::Collinear(a, b) => q == a || q == b,
            TargetedConstraint::Chirality(_, a, b, c, d, e) => {
                q == a || q == b || q == c || q == d || q == e
            },
        }
    }

    /// Whether the locus is one-dimensional.
    pub fn discretizing(&self) -> (r: bool)
        ensures
            r == self.is_discretizing(),
    {
        match self {
            TargetedConstraint::Chirality(..) => false,
            _ => true,
        }
    }
}

} // verus!
