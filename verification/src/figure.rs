//! The figure: points, constraints, and the index between them.

use vstd::prelude::*;
use itertools::Itertools;
use crate::constraints::{Constraint, ConstraintView};

verus! {

/// Identifies a point of a figure. Points are numbered in the order in which
/// they are created.
pub type PID = usize;

/// Identifies a constraint of a figure. Constraints are numbered in the
/// order in which they are added.
pub type CID = usize;

/// A geometric figure: points, and constraints declared on tuples of them.
#[derive(Debug)]
pub struct Figure {
    pub(crate) constraints: Vec<(Constraint, Vec<PID>)>,
    pub(crate) points: Vec<Vec<CID>>,
}

/// What a figure holds.
pub struct FigureView {
    /// The constraints in the order in which they were added, each with the
    /// points it was declared on.
    pub constraints: Seq<(ConstraintView, Seq<PID>)>,
    /// For each point, the constraints that name it.
    pub points: Seq<Seq<CID>>,
}

impl View for Figure {
    type V = FigureView;

    closed spec fn view(&self) -> FigureView {
        FigureView {
            constraints: Seq::new(
                self.constraints@.len(),
                |c: int| (self.constraints@[c].0@, self.constraints@[c].1@),
            ),
            points: Seq::new(self.points@.len(), |p: int| self.points@[p]@),
        }
    }
}

/// Whether the point `p` stands in `pts`.
pub open spec fn mentions(pts: Seq<PID>, p: int) -> bool {
    exists|i: int| 0 <= i < pts.len() && #[trigger] pts[i] == p
}

/// Whether the values of `s` grow strictly.
pub open spec fn increasing(s: Seq<CID>) -> bool {
    forall|i: int, j: int| 0 <= i < j < s.len() ==> s[i] < s[j]
}

impl FigureView {
    /// The figure without points and constraints.
    pub open spec fn empty() -> FigureView {
        FigureView { constraints: Seq::empty(), points: Seq::empty() }
    }

    /// Whether constraint `c` exists and is declared on point `p`.
    pub open spec fn names(self, c: CID, p: int) -> bool {
        c < self.constraints.len() && mentions(self.constraints[c as int].1, p)
    }

    /// The ids fit the machine, every constraint is declared on points of
    /// the figure, and the list kept for each point holds, in growing order,
    /// exactly the constraints declared on it.
    pub open spec fn well_formed(self) -> bool {
        &&& self.points.len() <= usize::MAX
        &&& self.constraints.len() <= usize::MAX
        &&& forall|c: int, i: int|
            0 <= c < self.constraints.len() && 0 <= i < self.constraints[c].1.len()
                ==> #[trigger] self.constraints[c].1[i] < self.points.len()
        &&& forall|p: int| 0 <= p < self.points.len() ==> increasing(#[trigger] self.points[p])
        &&& forall|p: int, c: CID|
            0 <= p < self.points.len() ==> (#[trigger] self.points[p].contains(c) <==> self.names(
                c,
                p,
            ))
    }

    /// The figure with one more point, on which no constraint is declared.
    pub open spec fn with_point(self) -> FigureView {
        FigureView { constraints: self.constraints, points: self.points.push(Seq::empty()) }
    }

    /// The figure with the constraint `c` added, declared on `pts`.
    pub open spec fn with_constraint(self, c: ConstraintView, pts: Seq<PID>) -> FigureView {
        FigureView {
            constraints: self.constraints.push((c, pts)),
            points: Seq::new(
                self.points.len(),
                |p: int|
                    if mentions(pts, p) {
                        self.points[p].push(self.constraints.len() as CID)
                    } else {
                        self.points[p]
                    },
            ),
        }
    }

    /// A new point leaves the figure well formed.
    pub proof fn lemma_with_point(self)
        requires
            self.well_formed(),
            self.points.len() < usize::MAX,
        ensures
            self.with_point().well_formed(),
    {
        let w = self.with_point();
        assert forall|p: int, c: CID| 0 <= p < w.points.len() implies (
        #[trigger] w.points[p].contains(c) <==> w.names(c, p)) by {
            if p < self.points.len() {
                assert(self.points[p].contains(c) <==> self.names(c, p));
            } else {
                if w.names(c, p) {
                    let pts = self.constraints[c as int].1;
                    let i = choose|i: int| 0 <= i < pts.len() && #[trigger] pts[i] == p;
                    assert(self.constraints[c as int].1[i] < self.points.len());
                }
            }
        }
    }

    /// A new constraint on points of the figure leaves it well formed.
    pub proof fn lemma_with_constraint(self, c: ConstraintView, pts: Seq<PID>)
        requires
            self.well_formed(),
            self.constraints.len() < usize::MAX,
            forall|i: int| 0 <= i < pts.len() ==> pts[i] < self.points.len(),
        ensures
            self.with_constraint(c, pts).well_formed(),
    {
        let w = self.with_constraint(c, pts);
        let cid = self.constraints.len() as CID;
        assert forall|d: int, i: int|
            0 <= d < w.constraints.len() && 0 <= i < w.constraints[d].1.len() implies #[trigger] w.constraints[d].1[i]
            < w.points.len() by {
            if d < self.constraints.len() {
                assert(self.constraints[d].1[i] < self.points.len());
            }
        }
        assert forall|p: int, d: CID| 0 <= p < w.points.len() implies (
        #[trigger] w.points[p].contains(d) <==> w.names(d, p)) by {
            let before = self.points[p];
            assert(before.contains(d) <==> self.names(d, p));
            if mentions(pts, p) {
                let after = before.push(cid);
                assert(w.points[p] == after);
                if after.contains(d) {
                    let k = choose|k: int| 0 <= k < after.len() && after[k] == d;
                    if k < before.len() {
                        assert(before[k] == d);
                    }
                }
                if w.names(d, p) {
                    if d == cid {
                        assert(after[before.len() as int] == d);
                    } else {
                        let k = choose|k: int| 0 <= k < before.len() && before[k] == d;
                        assert(after[k] == d);
                    }
                }
            }
        }
        assert forall|p: int| 0 <= p < w.points.len() implies increasing(#[trigger] w.points[p]) by {
            let before = self.points[p];
            assert(increasing(before));
            if mentions(pts, p) {
                let after = before.push(cid);
                assert forall|i: int, j: int| 0 <= i < j < after.len() implies after[i] < after[j] by {
                    if j == before.len() {
                        assert(before.contains(before[i]));
                        assert(self.names(before[i], p));
                    }
                }
            }
        }
    }
}

/// The values of `s` in the order of their first occurrence, each once.
pub open spec fn first_occurrences(s: Seq<PID>) -> Seq<PID>
    decreases s.len(),
{
    if s.len() == 0 {
        Seq::empty()
    } else if s.drop_last().contains(s.last()) {
        first_occurrences(s.drop_last())
    } else {
        first_occurrences(s.drop_last()).push(s.last())
    }
}

/// `first_occurrences` keeps exactly the values of `s` and repeats none.
pub proof fn lemma_first_occurrences(s: Seq<PID>)
    ensures
        first_occurrences(s).no_duplicates(),
        forall|p: PID| first_occurrences(s).contains(p) <==> s.contains(p),
    decreases s.len(),
{
    if s.len() > 0 {
        let init = s.drop_last();
        lemma_first_occurrences(init);
        let f = first_occurrences(init);
        let g = first_occurrences(s);
        assert forall|p: PID| g.contains(p) <==> s.contains(p) by {
            if s.contains(p) {
                let i = choose|i: int| 0 <= i < s.len() && s[i] == p;
                if i < init.len() {
                    assert(init[i] == p);
                    assert(init.contains(p));
                    assert(f.contains(p));
                    let j = choose|j: int| 0 <= j < f.len() && f[j] == p;
                    assert(g[j] == p);
                } else if init.contains(p) {
                    assert(f.contains(p));
                } else {
                    assert(g[f.len() as int] == p);
                }
            }
            if g.contains(p) {
                let j = choose|j: int| 0 <= j < g.len() && g[j] == p;
                if j < f.len() {
                    assert(f[j] == p);
                    assert(f.contains(p));
                    assert(init.contains(p));
                    let i = choose|i: int| 0 <= i < init.len() && init[i] == p;
                    assert(s[i] == p);
                } else {
                    assert(s[s.len() - 1] == p);
                }
            }
        }
        assert forall|i: int, j: int| 0 <= i < g.len() && 0 <= j < g.len() && i != j implies g[i]
            != g[j] by {
            if i < f.len() && j < f.len() {
                assert(f[i] != f[j]);
            } else if i < f.len() {
                assert(f.contains(f[i]));
            } else if j < f.len() {
                assert(f.contains(f[j]));
            }
        }
    }
}

/// Calls `Itertools::unique` on the points of the vector. That adaptor is
/// stable: it yields the items in the order in which they occur and keeps,
/// of equal items, the first. The contract states this and is not proved.
#[verifier::external_body]
fn unique(points: &Vec<PID>) -> (firsts: Vec<PID>)
    ensures
        firsts@ == first_occurrences(points@),
{
    points.iter().unique().copied().collect()
}

impl Figure {
    #[verifier::type_invariant]
    spec fn valid(self) -> bool {
        self@.well_formed()
    }

    /// A figure without points and constraints.
    pub fn new() -> (figure: Figure)
        ensures
            figure@ == FigureView::empty(),
    {
        let figure = Figure { constraints: Vec::new(), points: Vec::new() };
        assert(figure@.constraints =~= Seq::empty());
        assert(figure@.points =~= Seq::empty());
        figure
    }

    /// Adds a point and returns its id: the number of points before.
    pub fn new_point(&mut self) -> (pid: PID)
        ensures
            pid == old(self)@.points.len(),
            final(self)@ == old(self)@.with_point(),
            final(self)@.well_formed(),
    {
        proof {
            use_type_invariant(&*self);
        }
        let mut taken = Figure::new();
        std::mem::swap(self, &mut taken);
        let Figure { constraints, mut points } = taken;
        points.push(Vec::new());
        let count = points.len();
        proof {
            let grown = (Figure { constraints, points })@;
            assert(grown.constraints =~= old(self)@.constraints);
            assert(grown.points =~~= old(self)@.points.push(Seq::empty()));
            old(self)@.lemma_with_point();
        }
        *self = Figure { constraints, points };
        count - 1
    }

    /// Adds a constraint, declared on `points`, whose order and number
    /// depend on the kind of constraint. Its id, the number of constraints
    /// before, is entered once in the list of each point named.
    pub fn add_constraint(&mut self, constraint: Constraint, points: Vec<PID>)
        requires
            forall|i: int| 0 <= i < points@.len() ==> points@[i] < old(self)@.points.len(),
        ensures
            final(self)@ == old(self)@.with_constraint(constraint@, points@),
            final(self)@.well_formed(),
    {
        proof {
            use_type_invariant(&*self);
        }
        let mut taken = Figure::new();
        std::mem::swap(self, &mut taken);
        let Figure { constraints: mut held, points: mut lists } = taken;
        let ghost was = lists@;
        let cid = held.len();
        let firsts = unique(&points);
        let ghost n = lists@.len();
        proof {
            lemma_first_occurrences(points@);
            assert forall|j: int| 0 <= j < firsts@.len() implies firsts@[j] < n by {
                assert(firsts@.contains(firsts@[j]));
                assert(points@.contains(firsts@[j]));
            }
        }
        let mut i: usize = 0;
        while i < firsts.len()
            invariant
                i <= firsts@.len(),
                firsts@.no_duplicates(),
                forall|j: int| 0 <= j < firsts@.len() ==> firsts@[j] < n,
                lists@.len() == n,
                was.len() == n,
                forall|p: int|
                    0 <= p < n ==> (#[trigger] lists@[p])@ == if mentions(firsts@.take(i as int), p) {
                        was[p]@.push(cid)
                    } else {
                        was[p]@
                    },
            decreases firsts@.len() - i,
        {
            let pid = firsts[i];
            let ghost before = lists@;
            lists[pid].push(cid);
            proof {
                let taken = firsts@.take(i as int);
                let next = firsts@.take(i + 1);
                assert(!mentions(taken, pid as int)) by {
                    if mentions(taken, pid as int) {
                        let j = choose|j: int| 0 <= j < taken.len() && #[trigger] taken[j] == pid;
                        assert(firsts@[j] == firsts@[i as int]);
                    }
                }
                assert(next =~= taken.push(pid));
                assert forall|p: int| 0 <= p < n implies (#[trigger] lists@[p])@ == if mentions(next, p) {
                    was[p]@.push(cid)
                } else {
                    was[p]@
                } by {
                    if p == pid {
                        assert(next[i as int] == p);
                    } else {
                        assert(lists@[p] == before[p]);
                        if mentions(taken, p) {
                            let j = choose|j: int| 0 <= j < taken.len() && #[trigger] taken[j] == p;
                            assert(next[j] == p);
                        }
                        if mentions(next, p) {
                            let j = choose|j: int| 0 <= j < next.len() && #[trigger] next[j] == p;
                            assert(taken[j] == p);
                        }
                    }
                }
            }
            i += 1;
        }
        let ghost declared = points@;
        let ghost said = constraint@;
        held.push((constraint, points));
        let count = held.len();
        proof {
            let grown = (Figure { constraints: held, points: lists })@;
            let want = old(self)@.with_constraint(said, declared);
            assert(firsts@.take(firsts@.len() as int) =~= firsts@);
            assert(grown.constraints =~= want.constraints);
            assert forall|p: int| 0 <= p < n implies grown.points[p] == want.points[p] by {
                assert(grown.points[p] == lists@[p]@);
                assert(old(self)@.points[p] == was[p]@);
                if mentions(firsts@, p) {
                    let j = choose|j: int| 0 <= j < firsts@.len() && #[trigger] firsts@[j] == p;
                    assert(firsts@.contains(firsts@[j]));
                    assert(declared.contains(firsts@[j]));
                    let k = choose|k: int| 0 <= k < declared.len() && declared[k] == firsts@[j];
                    assert(declared[k] == p);
                }
                if mentions(declared, p) {
                    let k = choose|k: int| 0 <= k < declared.len() && #[trigger] declared[k] == p;
                    assert(declared.contains(declared[k]));
                    assert(firsts@.contains(declared[k]));
                    let j = choose|j: int| 0 <= j < firsts@.len() && firsts@[j] == declared[k];
                    assert(firsts@[j] == p);
                }
            }
            assert(grown.points =~= want.points);
            old(self)@.lemma_with_constraint(said, declared);
        }
        *self = Figure { constraints: held, points: lists };
    }

    /// The number of points.
    pub fn point_count(&self) -> (n: usize)
        ensures
            n == self@.points.len(),
            self@.well_formed(),
    {
        proof {
            use_type_invariant(self);
        }
        self.points.len()
    }

    /// The number of constraints.
    pub fn constraint_count(&self) -> (n: usize)
        ensures
            n == self@.constraints.len(),
            self@.well_formed(),
    {
        proof {
            use_type_invariant(self);
        }
        self.constraints.len()
    }

    /// The constraints declared on the point `p`.
    pub fn constraints_of(&self, p: PID) -> (cids: &[CID])
        requires
            p < self@.points.len(),
        ensures
            cids@ == self@.points[p as int],
    {
        self.points[p].as_slice()
    }

    /// The constraint `c`.
    pub fn constraint(&self, c: CID) -> (constraint: &Constraint)
        requires
            c < self@.constraints.len(),
        ensures
            constraint@ == self@.constraints[c as int].0,
    {
        &self.constraints[c].0
    }

    /// The points on which the constraint `c` is declared.
    pub fn points_of(&self, c: CID) -> (pids: &[PID])
        requires
            c < self@.constraints.len(),
        ensures
            pids@ == self@.constraints[c as int].1,
    {
        self.constraints[c].1.as_slice()
    }
}

/// A copy of the ids.
fn copy_ids(ids: &Vec<usize>) -> (copy: Vec<usize>)
    ensures
        copy@ == ids@,
{
    let mut copy: Vec<usize> = Vec::new();
    let mut i: usize = 0;
    while i < ids.len()
        invariant
            i <= ids@.len(),
            copy@ == ids@.take(i as int),
        decreases ids@.len() - i,
    {
        copy.push(ids[i]);
        i += 1;
        assert(copy@ =~= ids@.take(i as int));
    }
    assert(copy@ =~= ids@);
    copy
}

impl Clone for Figure {
    fn clone(&self) -> (copy: Figure)
        ensures
            copy@ == self@,
    {
        proof {
            use_type_invariant(self);
        }
        let mut constraints: Vec<(Constraint, Vec<PID>)> = Vec::new();
        let mut c: usize = 0;
        while c < self.constraints.len()
            invariant
                c <= self.constraints@.len(),
                constraints@.len() == c,
                forall|d: int|
                    0 <= d < c ==> (#[trigger] constraints@[d]).0@ == self.constraints@[d].0@
                        && constraints@[d].1@ == self.constraints@[d].1@,
            decreases self.constraints@.len() - c,
        {
            let entry = &self.constraints[c];
            constraints.push((entry.0.clone(), copy_ids(&entry.1)));
            c += 1;
        }
        let mut points: Vec<Vec<CID>> = Vec::new();
        let mut p: usize = 0;
        while p < self.points.len()
            invariant
                p <= self.points@.len(),
                points@.len() == p,
                forall|q: int| 0 <= q < p ==> (#[trigger] points@[q])@ == self.points@[q]@,
            decreases self.points@.len() - p,
        {
            points.push(copy_ids(&self.points[p]));
            p += 1;
        }
        proof {
            let copied = (Figure { constraints, points })@;
            assert(copied.constraints =~= self@.constraints);
            assert(copied.points =~= self@.points);
        }
        Figure { constraints, points }
    }
}

impl Default for Figure {
    fn default() -> (figure: Figure)
        ensures
            figure@ == FigureView::empty(),
    {
        Figure::new()
    }
}

} // verus!
