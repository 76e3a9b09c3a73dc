//! Targeting: from a constraint, the points it is declared on and what is
//! known of each of them, the operations that place a point not yet known.
//!
//! The knowledge is one flag per entry of the point tuple. A constraint
//! whose tuple has the wrong length for its kind, or a knowledge of another
//! length than the tuple, yields no target.

use vstd::prelude::*;
use crate::constraints::{
    Constraint, ConstraintView, ElementKind, Measure, Polarity, TargetedConstraint,
};
use crate::figure::PID;

verus! {

/// A target: the point to place and the operation that places it.
pub type Target = (PID, TargetedConstraint);

/// The values that `f` yields on `0..n`, in that order, without the
/// positions on which it yields nothing.
pub open spec fn gather<T>(n: nat, f: spec_fn(int) -> Option<T>) -> Seq<T>
    decreases n,
{
    if n == 0 {
        Seq::empty()
    } else {
        match f(n - 1) {
            Some(x) => gather((n - 1) as nat, f).push(x),
            None => gather((n - 1) as nat, f),
        }
    }
}

/// The least position in `0..n` on which `p` holds.
pub open spec fn first_where(n: nat, p: spec_fn(int) -> bool) -> Option<int>
    decreases n,
{
    if n == 0 {
        None
    } else {
        match first_where((n - 1) as nat, p) {
            Some(i) => Some(i),
            None => if p(n - 1) {
                Some(n - 1)
            } else {
                None
            },
        }
    }
}

/// Every value gathered comes from a position below `n`.
pub proof fn lemma_gather_source<T>(n: nat, f: spec_fn(int) -> Option<T>, k: int)
    requires
        0 <= k < gather(n, f).len(),
    ensures
        exists|i: int| 0 <= i < n && #[trigger] f(i) == Some(gather(n, f)[k]),
    decreases n,
{
    if n > 0 {
        let before = gather((n - 1) as nat, f);
        if k < before.len() {
            lemma_gather_source((n - 1) as nat, f, k);
            let i = choose|i: int| 0 <= i < n - 1 && #[trigger] f(i) == Some(before[k]);
            assert(f(i) == Some(gather(n, f)[k]));
        } else {
            assert(f(n - 1) == Some(gather(n, f)[k]));
        }
    }
}

/// What `first_where` finds is a position on which `p` holds, and none before it does.
pub proof fn lemma_first_where(n: nat, p: spec_fn(int) -> bool)
    ensures
        match first_where(n, p) {
            Some(i) => 0 <= i < n && p(i) && forall|j: int| 0 <= j < i ==> !#[trigger] p(j),
            None => forall|j: int| 0 <= j < n ==> !#[trigger] p(j),
        },
    decreases n,
{
    if n > 0 {
        lemma_first_where((n - 1) as nat, p);
    }
}

/// The targets of a distance between `pts[0]` and `pts[1]`: the end that is
/// not known, where the other is.
pub open spec fn distance_targets(m: Measure, pts: Seq<PID>, known: Seq<bool>) -> Seq<Target> {
    if pts.len() != 2 || known.len() != 2 {
        Seq::empty()
    } else if known[0] && !known[1] {
        seq![(pts[1], TargetedConstraint::Distance(pts[0], m))]
    } else if !known[0] && known[1] {
        seq![(pts[0], TargetedConstraint::Distance(pts[1], m))]
    } else {
        Seq::empty()
    }
}

/// The targets of an angle at the vertex `pts[1]` between `pts[0]` and
/// `pts[2]`: the one point that is not known, where the other two are.
pub open spec fn angle_targets(m: Measure, pts: Seq<PID>, known: Seq<bool>) -> Seq<Target> {
    if pts.len() != 3 || known.len() != 3 {
        Seq::empty()
    } else if known[0] && known[1] && !known[2] {
        seq![(pts[2], TargetedConstraint::AngleEnd(pts[1], pts[0], m))]
    } else if !known[0] && known[1] && known[2] {
        seq![(pts[0], TargetedConstraint::AngleEnd(pts[1], pts[2], m))]
    } else if known[0] && !known[1] && known[2] {
        seq![(pts[1], TargetedConstraint::AngleVertex(pts[0], pts[2], m))]
    } else {
        Seq::empty()
    }
}

/// Whether both ends of line `i` are known.
pub open spec fn line_known(known: Seq<bool>) -> spec_fn(int) -> bool {
    |i: int| known[2 * i] && known[2 * i + 1]
}

/// The operation that holds a point on the line through `origin` that is
/// parallel (`turned` false) or perpendicular (`turned` true) to the line
/// from `k0` to `k1`.
pub open spec fn line_op(turned: bool, k0: PID, k1: PID, origin: PID) -> TargetedConstraint {
    if turned {
        TargetedConstraint::Perpendicular(k0, k1, origin)
    } else {
        TargetedConstraint::Parallel(k0, k1, origin)
    }
}

/// What line `i` contributes, given the reference line `r`: where exactly
/// one of its ends is known, the other end is the target. With `alternate`
/// each line is perpendicular to the one before it, so that line `i` is
/// parallel to the reference where both numbers are even or both odd.
pub open spec fn line_target(alternate: bool, pts: Seq<PID>, known: Seq<bool>, r: int) -> spec_fn(
    int,
) -> Option<Target> {
    |i: int|
        {
            let turned = alternate && i % 2 != r % 2;
            if known[2 * i] && !known[2 * i + 1] {
                Some((pts[2 * i + 1], line_op(turned, pts[2 * r], pts[2 * r + 1], pts[2 * i])))
            } else if !known[2 * i] && known[2 * i + 1] {
                Some((pts[2 * i], line_op(turned, pts[2 * r], pts[2 * r + 1], pts[2 * i + 1])))
            } else {
                None
            }
        }
}

/// The targets of a constraint on the directions of lines, `pts` giving the
/// lines as pairs. The first line with both ends known is the reference;
/// without one there is no target.
pub open spec fn line_targets(alternate: bool, pts: Seq<PID>, known: Seq<bool>) -> Seq<Target> {
    if pts.len() % 2 != 0 || known.len() != pts.len() {
        Seq::empty()
    } else {
        match first_where(pts.len() / 2, line_known(known)) {
            Some(r) => gather(pts.len() / 2, line_target(alternate, pts, known, r)),
            None => Seq::empty(),
        }
    }
}

/// Point `i`, where it is known.
pub open spec fn known_point(pts: Seq<PID>, known: Seq<bool>) -> spec_fn(int) -> Option<PID> {
    |i: int|
        if known[i] {
            Some(pts[i])
        } else {
            None
        }
}

/// The known points of `pts`, in order.
pub open spec fn known_points(pts: Seq<PID>, known: Seq<bool>) -> Seq<PID> {
    gather(pts.len(), known_point(pts, known))
}

/// What point `i` contributes to a collinearity through `l0` and `l1`.
pub open spec fn collinear_target(pts: Seq<PID>, known: Seq<bool>, l0: PID, l1: PID) -> spec_fn(
    int,
) -> Option<Target> {
    |i: int|
        if known[i] {
            None
        } else {
            Some((pts[i], TargetedConstraint::Collinear(l0, l1)))
        }
}

/// The targets of a collinearity: every point not known, on the line
/// through the first two known points; none where fewer than two are known.
pub open spec fn collinear_targets(pts: Seq<PID>, known: Seq<bool>) -> Seq<Target> {
    if known.len() != pts.len() || known_points(pts, known).len() < 2 {
        Seq::empty()
    } else {
        gather(
            pts.len(),
            collinear_target(pts, known, known_points(pts, known)[0], known_points(pts, known)[1]),
        )
    }
}

/// Whether all three points of triple `i` are known.
pub open spec fn triple_known(known: Seq<bool>) -> spec_fn(int) -> bool {
    |i: int| known[3 * i] && known[3 * i + 1] && known[3 * i + 2]
}

/// The polarity of triple `i` relative to triple `r`.
pub open spec fn relative_polarity(pols: Seq<Polarity>, r: int, i: int) -> Polarity {
    if pols[i] == pols[r] {
        Polarity::Pro
    } else {
        Polarity::Anti
    }
}

/// What triple `i` contributes, given the reference triple `r`: where
/// exactly one of its points is not known, that point is the target. The
/// two known points are named in the cyclic order of the triple, the one
/// that follows the target first.
pub open spec fn triple_target(pols: Seq<Polarity>, pts: Seq<PID>, known: Seq<bool>, r: int)
    -> spec_fn(int) -> Option<Target> {
    |i: int|
        {
            let pol = relative_polarity(pols, r, i);
            let (k0, k1, k2) = (pts[3 * r], pts[3 * r + 1], pts[3 * r + 2]);
            let (a, b, c) = (pts[3 * i], pts[3 * i + 1], pts[3 * i + 2]);
            if known[3 * i] && known[3 * i + 1] && !known[3 * i + 2] {
                Some((c, TargetedConstraint::Chirality(pol, k0, k1, k2, a, b)))
            } else if known[3 * i] && !known[3 * i + 1] && known[3 * i + 2] {
                Some((b, TargetedConstraint::Chirality(pol, k0, k1, k2, c, a)))
            } else if !known[3 * i] && known[3 * i + 1] && known[3 * i + 2] {
                Some((a, TargetedConstraint::Chirality(pol, k0, k1, k2, b, c)))
            } else {
                None
            }
        }
}

/// The targets of a chirality, `pts` giving the triples and `pols` one
/// polarity for each. The first triple with all points known is the
/// reference; without one there is no target.
pub open spec fn chirality_targets(pols: Seq<Polarity>, pts: Seq<PID>, known: Seq<bool>) -> Seq<
    Target,
> {
    if pts.len() != 3 * pols.len() || known.len() != pts.len() {
        Seq::empty()
    } else {
        match first_where(pols.len(), triple_known(known)) {
            Some(r) => gather(pols.len(), triple_target(pols, pts, known, r)),
            None => Seq::empty(),
        }
    }
}

/// The targets of the constraint `c` declared on `pts`, where `known` says
/// of each entry of `pts` whether that point is known.
pub open spec fn spec_targets(c: ConstraintView, pts: Seq<PID>, known: Seq<bool>) -> Seq<Target> {
    match c {
        ConstraintView::Element(m, ElementKind::Distance) => distance_targets(m, pts, known),
        ConstraintView::Element(m, ElementKind::Angle) => angle_targets(m, pts, known),
        ConstraintView::Parallel => line_targets(false, pts, known),
        ConstraintView::Perpendicular => line_targets(true, pts, known),
        ConstraintView::Collinear => collinear_targets(pts, known),
        ConstraintView::Chirality(pols) => chirality_targets(pols, pts, known),
    }
}

/// Whether `t` stands in `pts` at a position that is not known.
pub open spec fn names_unknown(pts: Seq<PID>, known: Seq<bool>, t: PID) -> bool {
    exists|i: int| #![trigger pts[i]] 0 <= i < pts.len() && pts[i] == t && !known[i]
}

/// Whether `q` stands in `pts` at a position that is known.
pub open spec fn names_known(pts: Seq<PID>, known: Seq<bool>, q: PID) -> bool {
    exists|i: int| #![trigger pts[i]] 0 <= i < pts.len() && pts[i] == q && known[i]
}

/// Whether `target` places a point of `pts` that is not known from known
/// points of `pts` only.
pub open spec fn directed(pts: Seq<PID>, known: Seq<bool>, target: Target) -> bool {
    &&& names_unknown(pts, known, target.0)
    &&& forall|q: PID| #[trigger] target.1.binds(q) ==> names_known(pts, known, q)
}

proof fn lemma_line_targets_directed(alternate: bool, pts: Seq<PID>, known: Seq<bool>, k: int)
    requires
        0 <= k < line_targets(alternate, pts, known).len(),
    ensures
        directed(pts, known, line_targets(alternate, pts, known)[k]),
{
    let count = pts.len() / 2;
    lemma_first_where(count, line_known(known));
    let r = first_where(count, line_known(known))->0;
    let f = line_target(alternate, pts, known, r);
    lemma_gather_source(count, f, k);
    let i = choose|i: int| 0 <= i < count && #[trigger] f(i) == Some(gather(count, f)[k]);
    let target = gather(count, f)[k];
    assert(line_known(known)(r));
    assert(pts[2 * r] == pts[2 * r] && known[2 * r]);
    assert(pts[2 * r + 1] == pts[2 * r + 1] && known[2 * r + 1]);
    if known[2 * i] {
        assert(target.0 == pts[2 * i + 1]);
        assert(pts[2 * i] == pts[2 * i]);
    } else {
        assert(target.0 == pts[2 * i]);
        assert(pts[2 * i + 1] == pts[2 * i + 1]);
    }
}

proof fn lemma_collinear_targets_directed(pts: Seq<PID>, known: Seq<bool>, k: int)
    requires
        0 <= k < collinear_targets(pts, known).len(),
    ensures
        directed(pts, known, collinear_targets(pts, known)[k]),
{
    let n = pts.len();
    let g = known_point(pts, known);
    let line = known_points(pts, known);
    lemma_gather_source(n, g, 0);
    lemma_gather_source(n, g, 1);
    let i0 = choose|i: int| 0 <= i < n && #[trigger] g(i) == Some(line[0]);
    let i1 = choose|i: int| 0 <= i < n && #[trigger] g(i) == Some(line[1]);
    assert(pts[i0] == line[0] && known[i0]);
    assert(pts[i1] == line[1] && known[i1]);
    let f = collinear_target(pts, known, line[0], line[1]);
    lemma_gather_source(n, f, k);
    let i = choose|i: int| 0 <= i < n && #[trigger] f(i) == Some(gather(n, f)[k]);
    assert(pts[i] == gather(n, f)[k].0 && !known[i]);
}

proof fn lemma_chirality_targets_directed(
    pols: Seq<Polarity>,
    pts: Seq<PID>,
    known: Seq<bool>,
    k: int,
)
    requires
        0 <= k < chirality_targets(pols, pts, known).len(),
    ensures
        directed(pts, known, chirality_targets(pols, pts, known)[k]),
{
    let count = pols.len();
    lemma_first_where(count, triple_known(known));
    let r = first_where(count, triple_known(known))->0;
    let f = triple_target(pols, pts, known, r);
    lemma_gather_source(count, f, k);
    let i = choose|i: int| 0 <= i < count && #[trigger] f(i) == Some(gather(count, f)[k]);
    let target = gather(count, f)[k];
    assert(triple_known(known)(r));
    assert(pts[3 * r] == pts[3 * r] && known[3 * r]);
    assert(pts[3 * r + 1] == pts[3 * r + 1] && known[3 * r + 1]);
    assert(pts[3 * r + 2] == pts[3 * r + 2] && known[3 * r + 2]);
    assert(pts[3 * i] == pts[3 * i]);
    assert(pts[3 * i + 1] == pts[3 * i + 1]);
    assert(pts[3 * i + 2] == pts[3 * i + 2]);
}

/// Every target is a point of the tuple that is not known, and its
/// operation names only points of the tuple that are known.
pub proof fn lemma_targets_directed(c: ConstraintView, pts: Seq<PID>, known: Seq<bool>, k: int)
    requires
        0 <= k < spec_targets(c, pts, known).len(),
    ensures
        directed(pts, known, spec_targets(c, pts, known)[k]),
{
    match c {
        ConstraintView::Element(m, ElementKind::Distance) => {
            assert(pts[0] == pts[0]);
            assert(pts[1] == pts[1]);
        },
        ConstraintView::Element(m, ElementKind::Angle) => {
            assert(pts[0] == pts[0]);
            assert(pts[1] == pts[1]);
            assert(pts[2] == pts[2]);
        },
        ConstraintView::Parallel => lemma_line_targets_directed(false, pts, known, k),
        ConstraintView::Perpendicular => lemma_line_targets_directed(true, pts, known, k),
        ConstraintView::Collinear => lemma_collinear_targets_directed(pts, known, k),
        ConstraintView::Chirality(pols) => lemma_chirality_targets_directed(pols, pts, known, k),
    }
}

/// The targets of a distance of measure `m` between the two points of `points`.
pub fn distance(m: Measure, points: &[PID], knowledge: &[bool]) -> (out: Vec<Target>)
    ensures
        out@ == distance_targets(m, points@, knowledge@),
{
    let mut out: Vec<Target> = Vec::new();
    if points.len() == 2 && knowledge.len() == 2 {
        if knowledge[0] && !knowledge[1] {
            out.push((points[1], TargetedConstraint::Distance(points[0], m)));
        } else if !knowledge[0] && knowledge[1] {
            out.push((points[0], TargetedConstraint::Distance(points[1], m)));
        }
    }
    assert(out@ =~= distance_targets(m, points@, knowledge@));
    out
}

/// The targets of an angle of measure `m` at `points[1]` between `points[0]`
/// and `points[2]`.
pub fn angle(m: Measure, points: &[PID], knowledge: &[bool]) -> (out: Vec<Target>)
    ensures
        out@ == angle_targets(m, points@, knowledge@),
{
    let mut out: Vec<Target> = Vec::new();
    if points.len() == 3 && knowledge.len() == 3 {
        let (a, v, b) = (knowledge[0], knowledge[1], knowledge[2]);
        if a && v && !b {
            out.push((points[2], TargetedConstraint::AngleEnd(points[1], points[0], m)));
        } else if !a && v && b {
            out.push((points[0], TargetedConstraint::AngleEnd(points[1], points[2], m)));
        } else if a && !v && b {
            out.push((points[1], TargetedConstraint::AngleVertex(points[0], points[2], m)));
        }
    }
    assert(out@ =~= angle_targets(m, points@, knowledge@));
    out
}

/// The targets of a constraint on the directions of the lines that
/// `points` gives as pairs: parallel throughout, or with `alternate` each
/// perpendicular to the one before.
fn lines(alternate: bool, points: &[PID], knowledge: &[bool]) -> (out: Vec<Target>)
    ensures
        out@ == line_targets(alternate, points@, knowledge@),
{
    let mut out: Vec<Target> = Vec::new();
    let n = points.len();
    if n % 2 != 0 || knowledge.len() != n {
        return out;
    }
    let count = n / 2;
    let mut reference: Option<usize> = None;
    let mut i: usize = 0;
    while i < count
        invariant
            i <= count,
            count == n / 2,
            n % 2 == 0,
            n == points@.len(),
            n == knowledge@.len(),
            match reference {
                Some(r) => r < i && first_where(i as nat, line_known(knowledge@)) == Some(
                    r as int,
                ),
                None => first_where(i as nat, line_known(knowledge@)) is None,
            },
        decreases count - i,
    {
        if reference.is_none() && knowledge[2 * i] && knowledge[2 * i + 1] {
            reference = Some(i);
        }
        i += 1;
    }
    let r = match reference {
        Some(r) => r,
        None => {
            return out;
        },
    };
    let k0 = points[2 * r];
    let k1 = points[2 * r + 1];
    let mut i: usize = 0;
    while i < count
        invariant
            i <= count,
            r < count,
            count == n / 2,
            n % 2 == 0,
            n == points@.len(),
            n == knowledge@.len(),
            k0 == points@[2 * r],
            k1 == points@[2 * r + 1],
            out@ == gather(i as nat, line_target(alternate, points@, knowledge@, r as int)),
        decreases count - i,
    {
        let turned = alternate && i % 2 != r % 2;
        let (a, b) = (knowledge[2 * i], knowledge[2 * i + 1]);
        if a && !b {
            let op = if turned {
                TargetedConstraint::Perpendicular(k0, k1, points[2 * i])
            } else {
                TargetedConstraint::Parallel(k0, k1, points[2 * i])
            };
            out.push((points[2 * i + 1], op));
        } else if !a && b {
            let op = if turned {
                TargetedConstraint::Perpendicular(k0, k1, points[2 * i + 1])
            } else {
                TargetedConstraint::Parallel(k0, k1, points[2 * i + 1])
            };
            out.push((points[2 * i], op));
        }
        i += 1;
    }
    out
}

/// The targets of a parallelism of the lines that `points` gives as pairs.
pub fn parallel(points: &[PID], knowledge: &[bool]) -> (out: Vec<Target>)
    ensures
        out@ == line_targets(false, points@, knowledge@),
{
    lines(false, points, knowledge)
}

/// The targets of a perpendicularity of the lines that `points` gives as
/// pairs, each line perpendicular to the one before it.
pub fn perpendicular(points: &[PID], knowledge: &[bool]) -> (out: Vec<Target>)
    ensures
        out@ == line_targets(true, points@, knowledge@),
{
    lines(true, points, knowledge)
}

/// The targets of a collinearity of `points`.
pub fn collinear(points: &[PID], knowledge: &[bool]) -> (out: Vec<Target>)
    ensures
        out@ == collinear_targets(points@, knowledge@),
{
    let mut out: Vec<Target> = Vec::new();
    let n = points.len();
    if knowledge.len() != n {
        return out;
    }
    let mut line: Vec<PID> = Vec::new();
    let mut i: usize = 0;
    while i < n
        invariant
            i <= n,
            n == points@.len(),
            n == knowledge@.len(),
            line@ == gather(i as nat, known_point(points@, knowledge@)),
        decreases n - i,
    {
        if knowledge[i] {
            line.push(points[i]);
        }
        i += 1;
    }
    if line.len() < 2 {
        return out;
    }
    let l0 = line[0];
    let l1 = line[1];
    let mut i: usize = 0;
    while i < n
        invariant
            i <= n,
            n == points@.len(),
            n == knowledge@.len(),
            out@ == gather(i as nat, collinear_target(points@, knowledge@, l0, l1)),
        decreases n - i,
    {
        if !knowledge[i] {
            out.push((points[i], TargetedConstraint::Collinear(l0, l1)));
        }
        i += 1;
    }
    out
}

/// The targets of a chirality of the triples that `points` gives, with one
/// polarity in `polarities` for each triple.
pub fn chirality(polarities: &[Polarity], points: &[PID], knowledge: &[bool]) -> (out: Vec<Target>)
    ensures
        out@ == chirality_targets(polarities@, points@, knowledge@),
{
    let mut out: Vec<Target> = Vec::new();
    let n = points.len();
    let count = polarities.len();
    if n % 3 != 0 || n / 3 != count || knowledge.len() != n {
        return out;
    }
    let mut reference: Option<usize> = None;
    let mut i: usize = 0;
    while i < count
        invariant
            i <= count,
            n == 3 * count,
            count == polarities@.len(),
            n == points@.len(),
            n == knowledge@.len(),
            match reference {
                Some(r) => r < i && first_where(i as nat, triple_known(knowledge@)) == Some(
                    r as int,
                ),
                None => first_where(i as nat, triple_known(knowledge@)) is None,
            },
        decreases count - i,
    {
        if reference.is_none() && knowledge[3 * i] && knowledge[3 * i + 1] && knowledge[3 * i + 2] {
            reference = Some(i);
        }
        i += 1;
    }
    let r = match reference {
        Some(r) => r,
        None => {
            return out;
        },
    };
    let (k0, k1, k2) = (points[3 * r], points[3 * r + 1], points[3 * r + 2]);
    let mut i: usize = 0;
    while i < count
        invariant
            i <= count,
            r < count,
            n == 3 * count,
            count == polarities@.len(),
            n == points@.len(),
            n == knowledge@.len(),
            k0 == points@[3 * r],
            k1 == points@[3 * r + 1],
            k2 == points@[3 * r + 2],
            out@ == gather(
                i as nat,
                triple_target(polarities@, points@, knowledge@, r as int),
            ),
        decreases count - i,
    {
        let pol = if polarities[i] == polarities[r] {
            Polarity::Pro
        } else {
            Polarity::Anti
        };
        let (a, b, c) = (points[3 * i], points[3 * i + 1], points[3 * i + 2]);
        let (ka, kb, kc) = (knowledge[3 * i], knowledge[3 * i + 1], knowledge[3 * i + 2]);
        if ka && kb && !kc {
            out.push((c, TargetedConstraint::Chirality(pol, k0, k1, k2, a, b)));
        } else if ka && !kb && kc {
            out.push((b, TargetedConstraint::Chirality(pol, k0, k1, k2, c, a)));
        } else if !ka && kb && kc {
            out.push((a, TargetedConstraint::Chirality(pol, k0, k1, k2, b, c)));
        }
        i += 1;
    }
    out
}

/// The targets of `constraint`, declared on `points`, where `knowledge`
/// says of each entry of `points` whether that point is known.
pub fn targets(constraint: &Constraint, points: &[PID], knowledge: &[bool]) -> (out: Vec<Target>)
    ensures
        out@ == spec_targets(constraint@, points@, knowledge@),
{
    match constraint {
        Constraint::Element(m, ElementKind::Distance) => distance(*m, points, knowledge),
        Constraint::Element(m, ElementKind::Angle) => angle(*m, points, knowledge),
        Constraint::Parallel => parallel(points, knowledge),
        Constraint::Perpendicular => perpendicular(points, knowledge),
        Constraint::Collinear => collinear(points, knowledge),
        Constraint::Chirality(polarities) => chirality(polarities.as_slice(), points, knowledge),
    }
}

} // verus!
