//! A tree grows until nothing is left to take: every operation that a
//! constraint yields under what the tree knows at its end has been offered.

use vstd::prelude::*;
use crate::constraints::{ConstraintView, TargetedConstraint};
use crate::figure::{FigureView, CID, PID};
use crate::order::{alone, lemma_count_true_bound, Growth};
use crate::targeting::{lemma_targets_directed, spec_targets, Target};

verus! {

/// Under a knowledge in which no point is known, a constraint yields
/// nothing.
pub proof fn lemma_nothing_from_nothing(c: ConstraintView, pts: Seq<PID>, mask: Seq<bool>)
    requires
        forall|i: int| 0 <= i < pts.len() ==> !#[trigger] mask[i],
    ensures
        spec_targets(c, pts, mask).len() == 0,
{
    let emitted = spec_targets(c, pts, mask);
    if emitted.len() > 0 {
        lemma_targets_directed(c, pts, mask, 0);
        let op = emitted[0].1;
        let q: PID = match op {
            TargetedConstraint::Distance(a, _) => a,
            TargetedConstraint::AngleEnd(v, _, _) => v,
            TargetedConstraint::AngleVertex(a, _, _) => a,
            TargetedConstraint::Parallel(a, _, _) => a,
            TargetedConstraint::Perpendicular(a, _, _) => a,
            TargetedConstraint::Collinear(a, _) => a,
            TargetedConstraint::Chirality(_, a, _, _, _, _) => a,
        };
        assert(op.binds(q));
        let j = choose|j: int| #![trigger pts[j]] 0 <= j < pts.len() && pts[j] == q && mask[j];
        assert(!mask[j]);
    }
}

impl Growth {
    /// Whether every target that constraint `c` yields under what is known
    /// has an operation from it.
    pub open spec fn used(self, fig: FigureView, c: CID) -> bool {
        let (constraint, pts) = fig.constraints[c as int];
        let emitted = spec_targets(constraint, pts, self.knowledge(pts));
        forall|k: int| 0 <= k < emitted.len() ==> self.sources[(#[trigger] emitted[k]).0 as int].contains(c)
    }

    /// Whether the point `q` is among the first `h` points of the order.
    pub open spec fn expanded(self, q: PID, h: int) -> bool {
        exists|j: int| 0 <= j < h && j < self.order.len() && #[trigger] self.order[j] == q
    }

    /// Whether every known point of constraint `c` is the point `p` or
    /// among the first `h` points of the order.
    pub open spec fn settled(self, fig: FigureView, c: CID, h: int, p: PID) -> bool {
        let pts = fig.constraints[c as int].1;
        forall|i: int|
            0 <= i < pts.len() && self.known[(#[trigger] pts[i]) as int] ==> pts[i] == p || self.expanded(
                pts[i],
                h,
            )
    }

    /// Whether every constraint whose known points are the point `p` or
    /// among the first `h` points of the order, and which is not declared
    /// on `p` or is among `seen`, is used.
    pub open spec fn closed_upto(self, fig: FigureView, h: int, p: PID, seen: Seq<CID>) -> bool {
        forall|c: CID|
            c < fig.constraints.len() && #[trigger] self.settled(fig, c, h, p) && (!fig.names(
                c,
                p as int,
            ) || seen.contains(c)) ==> self.used(fig, c)
    }

    /// Whether every constraint of the figure is used: the tree can take
    /// nothing more.
    pub open spec fn closed(self, fig: FigureView) -> bool {
        forall|c: CID| c < fig.constraints.len() ==> #[trigger] self.used(fig, c)
    }
}

impl Growth {
    /// Whether `later` knows every point that this tree knows, and has for
    /// every point the sources that it has here.
    pub open spec fn kept_by(self, later: Growth) -> bool {
        &&& later.size() == self.size()
        &&& forall|q: int| 0 <= q < self.size() && self.known[q] ==> later.known[q]
        &&& forall|q: int, d: CID|
            0 <= q < self.size() && #[trigger] self.sources[q].contains(d) ==> later.sources[q].contains(d)
    }

    /// After constraint `c` has offered the point `t` an operation, the
    /// point is known or has the constraint among its sources, and nothing
    /// known or taken before is lost.
    pub proof fn lemma_attach_credits(self, t: PID, c: CID, op: TargetedConstraint)
        requires
            self.shaped(),
            t < self.size(),
        ensures
            self.kept_by(self.attach(t, c, op)),
            self.attach(t, c, op).known[t as int] || self.attach(t, c, op).sources[t as int].contains(c),
    {
        let g = self.attach(t, c, op);
        if !(self.known[t as int] || self.sources[t as int].contains(c)) {
            let was = self.sources[t as int];
            assert(g.sources[t as int] == was.push(c));
            assert(was.push(c)[was.len() as int] == c);
            assert forall|q: int, d: CID|
                0 <= q < self.size() && #[trigger] self.sources[q].contains(d) implies g.sources[q].contains(
                d,
            ) by {
                if q == t {
                    let i = choose|i: int| 0 <= i < was.len() && was[i] == d;
                    assert(was.push(c)[i] == d);
                }
            }
        }
    }

    /// After a constraint has offered operations, each of their targets is
    /// known or has the constraint among its sources.
    pub proof fn lemma_attach_all_credits(self, c: CID, emitted: Seq<Target>)
        requires
            self.shaped(),
            forall|k: int| 0 <= k < emitted.len() ==> (#[trigger] emitted[k]).0 < self.size(),
        ensures
            self.attach_all(c, emitted).shaped(),
            self.kept_by(self.attach_all(c, emitted)),
            forall|k: int|
                0 <= k < emitted.len() ==> self.attach_all(c, emitted).known[(#[trigger] emitted[k]).0 as int]
                    || self.attach_all(c, emitted).sources[emitted[k].0 as int].contains(c),
        decreases emitted.len(),
    {
        if emitted.len() > 0 {
            let init = emitted.drop_last();
            let last = emitted[emitted.len() - 1];
            assert forall|k: int| 0 <= k < init.len() implies (#[trigger] init[k]).0 < self.size() by {
                assert(init[k] == emitted[k]);
            }
            self.lemma_attach_all_credits(c, init);
            let mid = self.attach_all(c, init);
            mid.lemma_attach_credits(last.0, c, last.1);
            mid.lemma_attach_shaped(last.0, c, last.1);
            let g = self.attach_all(c, emitted);
            assert(g == mid.attach(last.0, c, last.1));
            assert forall|k: int| 0 <= k < emitted.len() implies g.known[(#[trigger] emitted[k]).0 as int]
                || g.sources[emitted[k].0 as int].contains(c) by {
                if k < init.len() {
                    assert(init[k] == emitted[k]);
                    let t = init[k].0 as int;
                    if mid.sources[t].contains(c) {
                        assert(g.sources[t].contains(c));
                    }
                }
            }
            assert(self.kept_by(g)) by {
                assert forall|q: int, d: CID|
                    0 <= q < self.size() && #[trigger] self.sources[q].contains(d) implies g.sources[q].contains(
                    d,
                ) by {
                    assert(mid.sources[q].contains(d));
                }
            }
        }
    }

    /// A point that became known later stands in the order behind the
    /// points that stood there before.
    pub proof fn lemma_new_point_behind(self, later: Growth, q: PID, h: int, p: PID)
        requires
            self.sound(),
            later.sound(),
            self.extends_to(later),
            0 <= h < self.order.len(),
            p == self.order[h],
            q < self.size(),
            later.known[q as int],
            !self.known[q as int],
        ensures
            q != p,
            !later.expanded(q, h),
    {
        assert(self.order.contains(self.order[h]));
        if later.expanded(q, h) {
            let j = choose|j: int| 0 <= j < h && j < later.order.len() && #[trigger] later.order[j] == q;
            assert(self.order[j] == q);
            assert(self.order.contains(q));
        }
    }

    /// Offering what a constraint yields under the knowledge `mask` keeps
    /// used what was used, and uses the constraint itself, where `mask` is
    /// what the tree knows once no point of the constraint is newly known.
    pub proof fn lemma_offer_closed(
        self,
        fig: FigureView,
        c0: CID,
        mask: Seq<bool>,
        h: int,
        p: PID,
        seen: Seq<CID>,
    )
        requires
            self.sound(),
            fig.well_formed(),
            self.size() == fig.points.len(),
            c0 < fig.constraints.len(),
            0 <= h < self.order.len(),
            p == self.order[h],
            self.closed_upto(fig, h, p, seen),
            forall|k: int|
                0 <= k < spec_targets(fig.constraints[c0 as int].0, fig.constraints[c0 as int].1, mask).len()
                    ==> self.anchors(
                    (#[trigger] spec_targets(
                        fig.constraints[c0 as int].0,
                        fig.constraints[c0 as int].1,
                        mask,
                    )[k]).1,
                ),
            forall|later: Growth|
                #![trigger later.settled(fig, c0, h, p)]
                later.sound() && self.extends_to(later) && later.settled(fig, c0, h, p) ==> mask
                    == later.knowledge(fig.constraints[c0 as int].1),
        ensures
            ({
                let emitted = spec_targets(fig.constraints[c0 as int].0, fig.constraints[c0 as int].1, mask);
                let next = self.attach_all(c0, emitted);
                &&& next.sound()
                &&& self.extends_to(next)
                &&& next.closed_upto(fig, h, p, seen.push(c0))
            }),
    {
        let (con0, pts0) = fig.constraints[c0 as int];
        let emitted = spec_targets(con0, pts0, mask);
        let next = self.attach_all(c0, emitted);
        assert forall|k: int| 0 <= k < emitted.len() implies (#[trigger] emitted[k]).0 < self.size() by {
            lemma_targets_directed(con0, pts0, mask, k);
            let i = choose|i: int| #![trigger pts0[i]] 0 <= i < pts0.len() && pts0[i] == emitted[k].0 && !mask[i];
            assert(fig.constraints[c0 as int].1[i] < fig.points.len());
        }
        self.lemma_attach_all_sound(c0, emitted);
        self.lemma_attach_all_credits(c0, emitted);
        assert forall|c: CID|
            c < fig.constraints.len() && #[trigger] next.settled(fig, c, h, p) && (!fig.names(c, p as int)
                || seen.push(c0).contains(c)) implies next.used(fig, c) by {
            let (con, pts) = fig.constraints[c as int];
            if c == c0 {
                assert(mask == next.knowledge(pts0));
                assert forall|k: int| 0 <= k < emitted.len() implies next.sources[(#[trigger] emitted[k]).0 as int].contains(
                    c0,
                ) by {
                    lemma_targets_directed(con0, pts0, mask, k);
                    let i = choose|i: int|
                        #![trigger pts0[i]]
                        0 <= i < pts0.len() && pts0[i] == emitted[k].0 && !mask[i];
                    assert(!next.knowledge(pts0)[i]);
                }
            } else {
                if seen.push(c0).contains(c) {
                    let i = choose|i: int| 0 <= i < seen.push(c0).len() && seen.push(c0)[i] == c;
                    assert(seen[i] == c);
                    assert(seen.contains(c));
                }
                assert forall|i: int| 0 <= i < pts.len() implies next.known[(#[trigger] pts[i]) as int]
                    == self.known[pts[i] as int] by {
                    assert(fig.constraints[c as int].1[i] < fig.points.len());
                    if next.known[pts[i] as int] && !self.known[pts[i] as int] {
                        self.lemma_new_point_behind(next, pts[i], h, p);
                    }
                }
                assert(self.settled(fig, c, h, p)) by {
                    assert forall|i: int|
                        0 <= i < pts.len() && self.known[(#[trigger] pts[i]) as int] implies pts[i] == p
                        || self.expanded(pts[i], h) by {
                        if pts[i] != p {
                            assert(next.expanded(pts[i], h));
                            let j = choose|j: int|
                                0 <= j < h && j < next.order.len() && #[trigger] next.order[j] == pts[i];
                            assert(self.order[j] == pts[i]);
                        }
                    }
                }
                assert(self.used(fig, c));
                assert(next.knowledge(pts) =~= self.knowledge(pts));
                let yielded = spec_targets(con, pts, self.knowledge(pts));
                assert forall|k: int| 0 <= k < yielded.len() implies next.sources[(#[trigger] yielded[k]).0 as int].contains(
                    c,
                ) by {
                    lemma_targets_directed(con, pts, self.knowledge(pts), k);
                    let i = choose|i: int|
                        #![trigger pts[i]]
                        0 <= i < pts.len() && pts[i] == yielded[k].0 && !self.knowledge(pts)[i];
                    assert(fig.constraints[c as int].1[i] < fig.points.len());
                    assert(self.sources[yielded[k].0 as int].contains(c));
                }
            }
        }
    }
}

impl Growth {
    /// Visiting a constraint keeps used what was used, and uses the
    /// constraint itself.
    pub proof fn lemma_visit_closed(self, fig: FigureView, c0: CID, h: int, p: PID, seen: Seq<CID>)
        requires
            self.sound(),
            fig.well_formed(),
            self.size() == fig.points.len(),
            c0 < fig.constraints.len(),
            0 <= h < self.order.len(),
            p == self.order[h],
            self.closed_upto(fig, h, p, seen),
        ensures
            self.visit(fig, c0).sound(),
            self.extends_to(self.visit(fig, c0)),
            self.visit(fig, c0).closed_upto(fig, h, p, seen.push(c0)),
    {
        let (con0, pts0) = fig.constraints[c0 as int];
        let mask = self.knowledge(pts0);
        let emitted = spec_targets(con0, pts0, mask);
        assert forall|k: int| 0 <= k < emitted.len() implies self.anchors((#[trigger] emitted[k]).1) by {
            self.lemma_targets_anchored(fig, c0, k);
        }
        assert forall|later: Growth|
            #![trigger later.settled(fig, c0, h, p)]
            later.sound() && self.extends_to(later) && later.settled(fig, c0, h, p) implies mask
            == later.knowledge(pts0) by {
            assert forall|i: int| 0 <= i < pts0.len() implies later.known[(#[trigger] pts0[i]) as int]
                == self.known[pts0[i] as int] by {
                assert(fig.constraints[c0 as int].1[i] < fig.points.len());
                if later.known[pts0[i] as int] && !self.known[pts0[i] as int] {
                    self.lemma_new_point_behind(later, pts0[i], h, p);
                }
            }
            assert(mask =~= later.knowledge(pts0));
        }
        self.lemma_offer_closed(fig, c0, mask, h, p, seen);
    }

    /// Targeting a constraint as if only the root were known keeps used
    /// what was used, and uses the constraint itself.
    pub proof fn lemma_visit_alone_closed(self, fig: FigureView, c0: CID, seen: Seq<CID>)
        requires
            self.sound(),
            fig.well_formed(),
            self.size() == fig.points.len(),
            c0 < fig.constraints.len(),
            fig.names(c0, self.root() as int),
            self.closed_upto(fig, 0, self.root(), seen),
        ensures
            self.visit_alone(fig, c0, self.root()).sound(),
            self.extends_to(self.visit_alone(fig, c0, self.root())),
            self.visit_alone(fig, c0, self.root()).closed_upto(fig, 0, self.root(), seen.push(c0)),
    {
        let r = self.root();
        let (con0, pts0) = fig.constraints[c0 as int];
        let mask = alone(pts0, r);
        let emitted = spec_targets(con0, pts0, mask);
        assert(self.order.contains(self.order[0]));
        assert forall|k: int| 0 <= k < emitted.len() implies self.anchors((#[trigger] emitted[k]).1) by {
            Growth::lemma_targets_alone(fig, c0, r, k);
        }
        assert forall|later: Growth|
            #![trigger later.settled(fig, c0, 0, r)]
            later.sound() && self.extends_to(later) && later.settled(fig, c0, 0, r) implies mask
            == later.knowledge(pts0) by {
            assert forall|i: int| 0 <= i < pts0.len() implies later.known[(#[trigger] pts0[i]) as int] == (
            pts0[i] == r) by {
                if later.known[pts0[i] as int] {
                    assert(pts0[i] == r || later.expanded(pts0[i], 0));
                }
            }
            assert(mask =~= later.knowledge(pts0));
        }
        self.lemma_offer_closed(fig, c0, mask, 0, r, seen);
    }

    /// Visiting the constraints up to number `upto` of those declared on
    /// the point `p` keeps used what was used, and uses them.
    pub proof fn lemma_visit_all_closed(self, fig: FigureView, h: int, p: PID, upto: int)
        requires
            self.sound(),
            fig.well_formed(),
            self.size() == fig.points.len(),
            0 <= h < self.order.len(),
            p == self.order[h],
            0 <= upto <= fig.points[p as int].len(),
            self.closed_upto(fig, h, p, Seq::empty()),
        ensures
            self.visit_all(fig, fig.points[p as int].take(upto)).sound(),
            self.extends_to(self.visit_all(fig, fig.points[p as int].take(upto))),
            self.visit_all(fig, fig.points[p as int].take(upto)).closed_upto(
                fig,
                h,
                p,
                fig.points[p as int].take(upto),
            ),
        decreases upto,
    {
        let cids = fig.points[p as int];
        if upto == 0 {
            assert(cids.take(0) =~= Seq::<CID>::empty());
        } else {
            self.lemma_visit_all_closed(fig, h, p, upto - 1);
            let mid = self.visit_all(fig, cids.take(upto - 1));
            let c = cids[upto - 1];
            assert(cids.take(upto).drop_last() =~= cids.take(upto - 1));
            assert(cids.take(upto).last() == c);
            assert(cids.take(upto - 1).push(c) =~= cids.take(upto));
            assert(fig.points[p as int].contains(c));
            assert(fig.names(c, p as int));
            mid.lemma_visit_closed(fig, c, h, p, cids.take(upto - 1));
            self.lemma_extends_chain(mid, mid.visit(fig, c));
        }
    }

    /// Targeting the constraints up to number `upto` of those declared on
    /// the root as if only the root were known uses them.
    pub proof fn lemma_visit_all_alone_closed(self, fig: FigureView, upto: int)
        requires
            self.sound(),
            fig.well_formed(),
            self.size() == fig.points.len(),
            0 <= upto <= fig.points[self.root() as int].len(),
            self.closed_upto(fig, 0, self.root(), Seq::empty()),
        ensures
            self.visit_all_alone(fig, fig.points[self.root() as int].take(upto), self.root()).sound(),
            self.extends_to(
                self.visit_all_alone(fig, fig.points[self.root() as int].take(upto), self.root()),
            ),
            self.visit_all_alone(
                fig,
                fig.points[self.root() as int].take(upto),
                self.root(),
            ).closed_upto(fig, 0, self.root(), fig.points[self.root() as int].take(upto)),
        decreases upto,
    {
        let r = self.root();
        let cids = fig.points[r as int];
        assert(self.order.contains(self.order[0]));
        if upto == 0 {
            assert(cids.take(0) =~= Seq::<CID>::empty());
        } else {
            self.lemma_visit_all_alone_closed(fig, upto - 1);
            let mid = self.visit_all_alone(fig, cids.take(upto - 1), r);
            let c = cids[upto - 1];
            assert(cids.take(upto).drop_last() =~= cids.take(upto - 1));
            assert(cids.take(upto).last() == c);
            assert(cids.take(upto - 1).push(c) =~= cids.take(upto));
            assert(fig.points[r as int].contains(c));
            assert(fig.names(c, r as int));
            assert(mid.root() == r);
            mid.lemma_visit_alone_closed(fig, c, cids.take(upto - 1));
            self.lemma_extends_chain(mid, mid.visit_alone(fig, c, r));
        }
    }

    /// Once the point at position `h` of the order is expanded, what is
    /// used for it is used for the point after it.
    pub proof fn lemma_closed_on(self, fig: FigureView, h: int)
        requires
            self.sound(),
            fig.well_formed(),
            self.size() == fig.points.len(),
            0 <= h,
            h + 1 < self.order.len(),
            self.closed_upto(fig, h, self.order[h], fig.points[self.order[h] as int]),
        ensures
            self.closed_upto(fig, h + 1, self.order[h + 1], Seq::empty()),
    {
        let p = self.order[h];
        let next = self.order[h + 1];
        assert forall|c: CID|
            c < fig.constraints.len() && #[trigger] self.settled(fig, c, h + 1, next) && (!fig.names(
                c,
                next as int,
            ) || Seq::<CID>::empty().contains(c)) implies self.used(fig, c) by {
            let pts = fig.constraints[c as int].1;
            assert forall|i: int| 0 <= i < pts.len() && self.known[(#[trigger] pts[i]) as int] implies pts[i]
                == p || self.expanded(pts[i], h) by {
                assert(pts[i] != next);
                let j = choose|j: int| 0 <= j < h + 1 && j < self.order.len() && #[trigger] self.order[j] == pts[i];
                if j < h {
                    assert(self.expanded(pts[i], h));
                }
            }
            assert(self.settled(fig, c, h, p));
            if fig.names(c, p as int) {
                assert(fig.points[p as int].contains(c));
            }
        }
    }

    /// Growing ends in a tree that can take nothing more.
    pub proof fn lemma_grow_closed(self, fig: FigureView, head: nat)
        requires
            self.sound(),
            fig.well_formed(),
            self.size() == fig.points.len(),
            1 <= head <= self.order.len(),
            self.closed_upto(fig, head - 1, self.order[head - 1], fig.points[self.order[head - 1] as int]),
        ensures
            self.grow(fig, head).closed(fig),
        decreases fig.points.len() - head,
    {
        lemma_count_true_bound(self.known);
        if head >= self.order.len() || head >= fig.points.len() {
            let p = self.order[head - 1];
            assert forall|c: CID| c < fig.constraints.len() implies #[trigger] self.used(fig, c) by {
                let pts = fig.constraints[c as int].1;
                assert forall|i: int|
                    0 <= i < pts.len() && self.known[(#[trigger] pts[i]) as int] implies pts[i] == p
                    || self.expanded(pts[i], head - 1) by {
                    assert(fig.constraints[c as int].1[i] < fig.points.len());
                    assert(self.order.contains(pts[i]));
                    let j = choose|j: int| 0 <= j < self.order.len() && self.order[j] == pts[i];
                    if j < head - 1 {
                        assert(self.expanded(pts[i], head - 1));
                    }
                }
                assert(self.settled(fig, c, head - 1, p));
                if fig.names(c, p as int) {
                    assert(fig.points[p as int].contains(c));
                }
            }
        } else {
            let p = self.order[head as int];
            self.lemma_closed_on(fig, head - 1);
            let cids = fig.points[p as int];
            self.lemma_visit_all_closed(fig, head as int, p, cids.len() as int);
            assert(cids.take(cids.len() as int) =~= cids);
            let next = self.expand(fig, p);
            assert(next.order[head as int] == p);
            next.lemma_grow_closed(fig, head + 1);
        }
    }

    /// A tree can take nothing more: every operation that a constraint of
    /// the figure yields under what the tree knows has been offered to its
    /// target, which has one operation from that constraint.
    pub proof fn lemma_tree_closed(fig: FigureView, r: PID, o: PID, c: CID, op: TargetedConstraint)
        requires
            fig.well_formed(),
            r < fig.points.len(),
            o < fig.points.len(),
            r != o,
            op.is_discretizing(),
            forall|q: PID| op.binds(q) ==> q == r,
        ensures
            Growth::tree(fig, r, o, c, op).closed(fig),
    {
        let n = fig.points.len();
        let seed = Growth::seed(n, r, o, c, op);
        Growth::lemma_seed_sound(n, r, o, c, op);
        assert(seed.root() == r);
        assert forall|d: CID|
            d < fig.constraints.len() && #[trigger] seed.settled(fig, d, 0, r) && (!fig.names(d, r as int)
                || Seq::<CID>::empty().contains(d)) implies seed.used(fig, d) by {
            let (con, pts) = fig.constraints[d as int];
            let mask = seed.knowledge(pts);
            assert forall|i: int| 0 <= i < pts.len() implies !#[trigger] mask[i] by {
                if seed.known[pts[i] as int] {
                    assert(pts[i] == r || seed.expanded(pts[i], 0));
                    assert(fig.constraints[d as int].1[i] == r);
                }
            }
            lemma_nothing_from_nothing(con, pts, mask);
        }
        let cids = fig.points[r as int];
        seed.lemma_visit_all_alone_closed(fig, cids.len() as int);
        assert(cids.take(cids.len() as int) =~= cids);
        let reached = seed.visit_all_alone(fig, cids, r);
        assert(reached.order[0] == r);
        reached.lemma_grow_closed(fig, 1);
    }
}

} // verus!