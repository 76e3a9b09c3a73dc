//! Whole figures, from declaration to coordinates. The library orders the
//! figure and runs the search; the geometry that the search asks for is
//! worked out here.

use std::f64::consts::PI;

use geosolve::constraints::{Constraint, ElementKind, Measure, Polarity, TargetedConstraint};
use geosolve::figure::{Figure, PID};
use geosolve::order::{order_bfs, OrderError};
use geosolve::solve::{Action, Event, Search, SolveError};

const EPSILON: f64 = 1e-9;

type V = (f64, f64);

#[derive(Clone, Copy, Debug)]
enum Geo {
    Point(V),
    Linear(V, V, f64),
    Circle(V, f64),
    All,
    Half(V, V),
}

fn plus(a: V, b: V) -> V {
    (a.0 + b.0, a.1 + b.1)
}

fn minus(a: V, b: V) -> V {
    (a.0 - b.0, a.1 - b.1)
}

fn scale(a: V, t: f64) -> V {
    (a.0 * t, a.1 * t)
}

fn dot(a: V, b: V) -> f64 {
    a.0 * b.0 + a.1 * b.1
}

fn cross(a: V, b: V) -> f64 {
    a.0 * b.1 - a.1 * b.0
}

fn mag(a: V) -> f64 {
    dot(a, a).sqrt()
}

fn perp(a: V) -> V {
    (-a.1, a.0)
}

fn rot(a: V, angle: f64) -> V {
    let (s, c) = angle.sin_cos();
    (a.0 * c - a.1 * s, a.0 * s + a.1 * c)
}

fn unit(from: V, to: V) -> Result<(V, f64), SolveError> {
    let d = mag(minus(to, from));
    if d == 0.0 || !d.is_finite() {
        Err(SolveError::SolveNumerical)
    } else {
        Ok((scale(minus(to, from), 1.0 / d), d))
    }
}

fn number(m: Measure) -> f64 {
    f64::from_bits(m.bits)
}

fn measure(x: f64) -> Measure {
    Measure { bits: x.to_bits() }
}

fn dist(p: V, g: Geo) -> f64 {
    match g {
        Geo::Point(q) => mag(minus(q, p)),
        Geo::Linear(o, v, l) => mag(minus(plus(o, scale(v, dot(minus(p, o), v).max(l))), p)),
        Geo::Circle(c, r) => mag(minus(c, p)) - r,
        Geo::All => 0.0,
        Geo::Half(o, n) => (-dot(minus(p, o), n)).max(0.0),
    }
}

fn pick(g: Geo) -> V {
    match g {
        Geo::Point(p) => p,
        Geo::Linear(o, v, l) => plus(o, scale(v, l.max(0.0) + 1.0)),
        Geo::Circle(c, r) => plus(c, (r, 0.0)),
        Geo::All => (0.0, 0.0),
        Geo::Half(o, n) => plus(o, n),
    }
}

fn intersect(g0: Geo, g1: Geo) -> Vec<Geo> {
    match (g0, g1) {
        (g, Geo::Point(p)) | (Geo::Point(p), g) => {
            if dist(p, g).abs() <= EPSILON {
                vec![Geo::Point(p)]
            } else {
                vec![]
            }
        }
        (Geo::All, g) | (g, Geo::All) => vec![g],
        (Geo::Half(..), g) | (g, Geo::Half(..)) => vec![g],
        (Geo::Linear(o0, v0, l0), Geo::Linear(o1, v1, l1)) => {
            let b = minus(o1, o0);
            let a = cross((v0.0, -v1.0), (v0.1, -v1.1));
            if a == 0.0 {
                return vec![];
            }
            let t0 = cross((b.0, -v1.0), (b.1, -v1.1)) / a;
            let t1 = cross((v0.0, b.0), (v0.1, b.1)) / a;
            if t0 >= l0 && t1 >= l1 {
                vec![Geo::Point(plus(o0, scale(v0, t0)))]
            } else {
                vec![]
            }
        }
        (Geo::Circle(c, r), Geo::Linear(o, v, l)) | (Geo::Linear(o, v, l), Geo::Circle(c, r)) => {
            let o_c = minus(o, c);
            let v_o_c = dot(v, o_c);
            let delta = v_o_c * v_o_c - (dot(o_c, o_c) - r * r);
            let ts = if delta < 0.0 {
                vec![]
            } else if delta.abs() <= EPSILON {
                vec![-v_o_c]
            } else {
                vec![-v_o_c + delta.sqrt(), -v_o_c - delta.sqrt()]
            };
            ts.into_iter().filter(|t| *t >= l).map(|t| Geo::Point(plus(o, scale(v, t)))).collect()
        }
        (Geo::Circle(c0, r0), Geo::Circle(c1, r1)) => {
            let d = mag(minus(c1, c0));
            if d == 0.0 || d < (r0 - r1).abs() || d > r0 + r1 {
                return vec![];
            }
            let dir = scale(minus(c1, c0), 1.0 / d);
            let a = (r0 * r0 - r1 * r1 + d * d) / (2.0 * d);
            let c = plus(c0, scale(dir, a));
            if (d - (r0 + r1)).abs() <= EPSILON {
                return vec![Geo::Point(c)];
            }
            let h = scale(perp(dir), (r0 * r0 - a * a).sqrt());
            vec![Geo::Point(plus(c, h)), Geo::Point(minus(c, h))]
        }
    }
}

fn meet(g0: Vec<Geo>, g1: Vec<Geo>) -> Vec<Geo> {
    let mut out = Vec::new();
    for a in &g0 {
        for b in &g1 {
            out.extend(intersect(*a, *b));
        }
    }
    out
}

fn geo(op: &TargetedConstraint, pos: &[V]) -> Result<Vec<Geo>, SolveError> {
    Ok(match *op {
        TargetedConstraint::Distance(c, m) => vec![Geo::Circle(pos[c], number(m))],
        TargetedConstraint::AngleEnd(vertex, other, m) => {
            let (base, _) = unit(pos[vertex], pos[other])?;
            vec![
                Geo::Linear(pos[vertex], rot(base, number(m)), 0.0),
                Geo::Linear(pos[vertex], rot(base, -number(m)), 0.0),
            ]
        }
        TargetedConstraint::AngleVertex(p0, p1, m) => {
            let (v, d) = unit(pos[p0], pos[p1])?;
            let r = d / 2.0 / number(m).sin();
            let mid = scale(plus(pos[p0], pos[p1]), 0.5);
            let a = r * number(m).cos();
            if a.abs() <= EPSILON {
                vec![Geo::Circle(mid, r)]
            } else {
                let off = scale(perp(v), a);
                vec![Geo::Circle(plus(mid, off), r), Geo::Circle(minus(mid, off), r)]
            }
        }
        TargetedConstraint::Parallel(p0, p1, o) => {
            vec![Geo::Linear(pos[o], unit(pos[p0], pos[p1])?.0, f64::NEG_INFINITY)]
        }
        TargetedConstraint::Perpendicular(p0, p1, o) => {
            vec![Geo::Linear(pos[o], perp(unit(pos[p0], pos[p1])?.0), f64::NEG_INFINITY)]
        }
        TargetedConstraint::Collinear(p0, p1) => {
            vec![Geo::Linear(pos[p0], unit(pos[p0], pos[p1])?.0, f64::NEG_INFINITY)]
        }
        TargetedConstraint::Chirality(pol, p0, p1, p2, p3, p4) => {
            let turn = cross(minus(pos[p1], pos[p0]), minus(pos[p2], pos[p1])).signum();
            let n = scale(perp(unit(pos[p3], pos[p4])?.0), turn);
            let n = if pol == Polarity::Anti { scale(n, -1.0) } else { n };
            vec![Geo::Half(pos[p4], n)]
        }
    })
}

fn candidates(ops: &[TargetedConstraint], pos: &[V]) -> Result<Vec<V>, SolveError> {
    let mut loci = Vec::new();
    for op in ops {
        loci.push(geo(op, pos)?);
    }
    let halves: Vec<Geo> =
        loci.iter().flatten().copied().filter(|g| matches!(g, Geo::Half(..))).collect();
    let left = loci.into_iter().reduce(meet).unwrap_or(vec![Geo::All]);
    Ok(left
        .into_iter()
        .map(pick)
        .filter(|p| halves.iter().all(|h| dist(*p, *h).abs() <= EPSILON))
        .collect())
}

fn solve_brute(order: &[(PID, Vec<TargetedConstraint>)]) -> Result<Vec<V>, SolveError> {
    let mut pos = vec![(0.0, 0.0); order.len()];
    let mut found: Vec<Vec<V>> = vec![Vec::new(); order.len()];
    let mut search = Search::new(order.len());
    let mut action = search.pending();
    loop {
        let event = match action {
            Action::Solved => return Ok(pos),
            Action::Failed(e) => return Err(e),
            Action::Evaluate(i) => match candidates(&order[i].1, &pos) {
                Ok(list) => {
                    found[i] = list;
                    Event::Candidates(found[i].len())
                }
                Err(_) => Event::Degenerate,
            },
            Action::Place(i, k) => {
                pos[order[i].0] = found[i][k];
                Event::Placed
            }
        };
        (search, action) = search.step(event);
    }
}

fn close(a: f64, b: f64) -> bool {
    (a - b).abs() <= EPSILON
}

fn close_to(a: V, b: V) -> bool {
    close(a.0, b.0) && close(a.1, b.1)
}

fn distance(x: f64) -> Constraint {
    Constraint::Element(measure(x), ElementKind::Distance)
}

#[test]
fn two_points_one_distance() {
    let mut fig = Figure::new();
    let a = fig.new_point();
    let b = fig.new_point();
    fig.add_constraint(distance(10.0), vec![a, b]);
    let order = order_bfs(&fig).unwrap();
    let pos = solve_brute(&order).unwrap();
    assert!(close_to(pos[a], (0.0, 0.0)));
    assert!(close(mag(pos[b]), 10.0));
    assert!(close_to(pos[b], (10.0, 0.0)));
}

#[test]
fn equilateral_triangle() {
    let mut fig = Figure::new();
    let a = fig.new_point();
    let b = fig.new_point();
    let c = fig.new_point();
    fig.add_constraint(distance(1.0), vec![a, b]);
    fig.add_constraint(distance(1.0), vec![b, c]);
    fig.add_constraint(distance(1.0), vec![c, a]);
    let pos = solve_brute(&order_bfs(&fig).unwrap()).unwrap();
    assert!(close_to(pos[a], (0.0, 0.0)));
    assert!(close_to(pos[b], (1.0, 0.0)));
    assert!(close(mag(minus(pos[c], pos[a])), 1.0));
    assert!(close(mag(minus(pos[c], pos[b])), 1.0));
    assert!(close(pos[c].0, 0.5));
    assert!(close(pos[c].1.abs(), 3f64.sqrt() / 2.0));
}

#[test]
fn right_angle_via_perpendicular() {
    let mut fig = Figure::new();
    let a = fig.new_point();
    let b = fig.new_point();
    let c = fig.new_point();
    fig.add_constraint(distance(1.0), vec![a, b]);
    fig.add_constraint(distance(1.0), vec![b, c]);
    fig.add_constraint(Constraint::Perpendicular, vec![a, b, b, c]);
    let order = order_bfs(&fig).unwrap();
    assert_eq!(
        order[2],
        (
            c,
            vec![
                TargetedConstraint::Distance(b, measure(1.0)),
                TargetedConstraint::Perpendicular(a, b, b),
            ]
        )
    );
    let pos = solve_brute(&order).unwrap();
    assert!(close(mag(minus(pos[c], pos[b])), 1.0));
    assert!(close(dot(minus(pos[b], pos[a]), minus(pos[c], pos[b])), 0.0));
}

#[test]
fn parallelogram() {
    let mut fig = Figure::new();
    let a = fig.new_point();
    let b = fig.new_point();
    let c = fig.new_point();
    let d = fig.new_point();
    fig.add_constraint(distance(2.0), vec![a, b]);
    fig.add_constraint(distance(1.0), vec![b, c]);
    fig.add_constraint(Constraint::Parallel, vec![a, b, d, c]);
    fig.add_constraint(Constraint::Parallel, vec![a, d, b, c]);
    // Neither c nor d gets two discretizing operations before the other is
    // known, so no tree holds more than the two ends of a distance.
    assert_eq!(order_bfs(&fig), Err(OrderError::OrderIncomplete { covered: 2, total: 4 }));
    // Once c is held by a right angle at b as well, every point is reached.
    fig.add_constraint(Constraint::Perpendicular, vec![a, b, b, c]);
    let order = order_bfs(&fig).unwrap();
    assert_eq!(
        order[3],
        (d, vec![TargetedConstraint::Parallel(a, b, c), TargetedConstraint::Parallel(b, c, a)])
    );
    let pos = solve_brute(&order).unwrap();
    assert!(close(mag(minus(pos[b], pos[a])), 2.0));
    assert!(close(mag(minus(pos[c], pos[b])), 1.0));
    assert!(close_to(minus(pos[d], pos[a]), minus(pos[c], pos[b])));
}

#[test]
fn inscribed_angle() {
    let mut fig = Figure::new();
    let a = fig.new_point();
    let b = fig.new_point();
    let v = fig.new_point();
    fig.add_constraint(distance(2.0), vec![a, b]);
    fig.add_constraint(Constraint::Element(measure(PI / 2.0), ElementKind::Angle), vec![a, v, b]);
    // The vertex has the one operation of the angle and no second one.
    assert_eq!(order_bfs(&fig), Err(OrderError::OrderIncomplete { covered: 2, total: 3 }));
    let order = vec![
        (a, vec![]),
        (b, vec![TargetedConstraint::Distance(a, measure(2.0))]),
        (v, vec![TargetedConstraint::AngleVertex(a, b, measure(PI / 2.0))]),
    ];
    let pos = solve_brute(&order).unwrap();
    let mid = scale(plus(pos[a], pos[b]), 0.5);
    assert!(close(mag(minus(pos[v], mid)), 1.0));
    let (va, vb) = (minus(pos[a], pos[v]), minus(pos[b], pos[v]));
    if mag(va) > EPSILON && mag(vb) > EPSILON {
        let angle = (dot(va, vb) / (mag(va) * mag(vb))).acos();
        assert!(close(angle, PI / 2.0));
    }
}

fn kite(second: Polarity) -> Vec<V> {
    let mut fig = Figure::new();
    let a = fig.new_point();
    let b = fig.new_point();
    let c = fig.new_point();
    let d = fig.new_point();
    fig.add_constraint(distance(2.0), vec![a, b]);
    fig.add_constraint(distance(2f64.sqrt()), vec![a, c]);
    fig.add_constraint(distance(2f64.sqrt()), vec![b, c]);
    fig.add_constraint(distance(5f64.sqrt()), vec![a, d]);
    fig.add_constraint(Constraint::Chirality(vec![Polarity::Pro, second]), vec![a, b, c, a, b, d]);
    fig.add_constraint(distance(5f64.sqrt()), vec![b, d]);
    let order = order_bfs(&fig).unwrap();
    let relative = if second == Polarity::Pro { Polarity::Pro } else { Polarity::Anti };
    assert_eq!(
        order[3],
        (
            d,
            vec![
                TargetedConstraint::Distance(a, measure(5f64.sqrt())),
                TargetedConstraint::Distance(b, measure(5f64.sqrt())),
                TargetedConstraint::Chirality(relative, a, b, c, a, b),
            ]
        )
    );
    solve_brute(&order).unwrap()
}

#[test]
fn chirality_selects_a_branch() {
    let same = kite(Polarity::Pro);
    assert!(close(same[2].0, 1.0) && close(same[2].1.abs(), 1.0));
    assert!(close(same[3].0, 1.0) && close(same[3].1.abs(), 2.0));
    assert!(same[2].1 * same[3].1 > 0.0);
    let opposite = kite(Polarity::Anti);
    assert!(close(opposite[3].0, 1.0) && close(opposite[3].1.abs(), 2.0));
    assert!(opposite[2].1 * opposite[3].1 < 0.0);
    // the same figure, the same choice
    assert_eq!(kite(Polarity::Anti), opposite);
}

#[test]
fn coincident_baseline_is_a_numerical_failure() {
    // b is at distance zero from a, so the line a-b has no direction
    let order = vec![
        (0, vec![]),
        (1, vec![TargetedConstraint::Distance(0, measure(0.0))]),
        (
            2,
            vec![
                TargetedConstraint::Distance(0, measure(1.0)),
                TargetedConstraint::Collinear(0, 1),
            ],
        ),
    ];
    assert_eq!(solve_brute(&order), Err(SolveError::SolveNumerical));
}

#[test]
fn disjoint_circles_have_no_solution() {
    let order = vec![
        (0, vec![]),
        (1, vec![TargetedConstraint::Distance(0, measure(10.0))]),
        (
            2,
            vec![
                TargetedConstraint::Distance(0, measure(1.0)),
                TargetedConstraint::Distance(1, measure(1.0)),
            ],
        ),
    ];
    assert_eq!(solve_brute(&order), Err(SolveError::SolveNoSolution));
}

#[test]
fn point_on_locus_meets_to_itself() {
    let p = (3.0, 4.0);
    for g in [
        Geo::Point(p),
        Geo::Circle((0.0, 0.0), 5.0),
        Geo::Linear((0.0, 0.0), (0.6, 0.8), 0.0),
        Geo::All,
        Geo::Half((0.0, 0.0), (1.0, 0.0)),
    ] {
        assert!(dist(p, g).abs() <= EPSILON);
        let met = meet(vec![Geo::Point(p)], vec![g]);
        assert_eq!(met.len(), 1);
        assert!(matches!(met[0], Geo::Point(q) if q == p));
        let met = meet(vec![g], vec![Geo::Point(p)]);
        assert_eq!(met.len(), 1);
        assert!(matches!(met[0], Geo::Point(q) if q == p));
    }
}

#[test]
fn circle_and_line_meet_by_the_discriminant() {
    let circle = Geo::Circle((0.0, 0.0), 1.0);
    let line = |y: f64| Geo::Linear((0.0, y), (1.0, 0.0), f64::NEG_INFINITY);
    assert_eq!(meet(vec![circle], vec![line(2.0)]).len(), 0);
    assert_eq!(meet(vec![circle], vec![line(1.0)]).len(), 1);
    assert_eq!(meet(vec![circle], vec![line(0.5)]).len(), 2);
    assert_eq!(meet(vec![line(0.5)], vec![circle]).len(), 2);
}

#[test]
fn circles_meet_by_their_distance() {
    let at = |x: f64, r: f64| Geo::Circle((x, 0.0), r);
    assert_eq!(meet(vec![at(0.0, 1.0)], vec![at(3.0, 1.0)]).len(), 0);
    assert_eq!(meet(vec![at(0.0, 3.0)], vec![at(1.0, 1.0)]).len(), 0);
    assert_eq!(meet(vec![at(0.0, 1.0)], vec![at(2.0, 1.0)]).len(), 1);
    assert_eq!(meet(vec![at(0.0, 1.0)], vec![at(1.0, 1.0)]).len(), 2);
    assert_eq!(meet(vec![at(1.0, 1.0)], vec![at(0.0, 1.0)]).len(), 2);
}
