//! What holds of every tree while it grows, and so of every order.

use vstd::prelude::*;
use crate::constraints::TargetedConstraint;
use crate::figure::{FigureView, CID, PID};
use crate::order::{
    accept, alone, consider, consider_all, count_true, forest, largest, lemma_count_true_bound,
    lemma_count_true_full, lemma_count_true_set, prune, rejects, spec_order, survey,
    survey_constraint, survey_constraints, Growth, OrderView, OrderError,
};
use crate::targeting::{directed, lemma_targets_directed, spec_targets, Target};

verus! {

impl Growth {
    /// The root.
    pub open spec fn root(self) -> PID {
        self.order[0]
    }

    /// The orbiter.
    pub open spec fn orbiter(self) -> PID {
        self.order[1]
    }

    /// The order starts with the root, which has no operation, and the
    /// orbiter, which has one that discretizes and no other.
    pub open spec fn rooted(self) -> bool {
        &&& self.order.len() >= 2
        &&& self.root() != self.orbiter()
        &&& self.support[self.root() as int].len() == 0
        &&& self.disamb[self.root() as int].len() == 0
        &&& self.support[self.orbiter() as int].len() == 1
        &&& self.disamb[self.orbiter() as int].len() == 0
    }

    /// The order holds no point twice, and holds exactly the known points.
    pub open spec fn indexed(self) -> bool {
        &&& self.order.no_duplicates()
        &&& forall|p: PID| p < self.size() ==> (self.known[p as int] <==> self.order.contains(p))
    }

    /// Beside root and orbiter, a known point has two discretizing
    /// operations, and a point not known has at most one.
    pub open spec fn counted(self) -> bool {
        forall|p: PID|
            p < self.size() && p != self.root() && p != self.orbiter() ==> if self.known[p as int] {
                (#[trigger] self.support[p as int]).len() == 2
            } else {
                self.support[p as int].len() <= 1
            }
    }

    /// The operations are kept apart by whether they discretize.
    pub open spec fn sorted(self) -> bool {
        &&& forall|p: int, k: int|
            0 <= p < self.size() && 0 <= k < self.support[p].len()
                ==> (#[trigger] self.support[p][k]).is_discretizing()
        &&& forall|p: int, k: int|
            0 <= p < self.size() && 0 <= k < self.disamb[p].len()
                ==> !(#[trigger] self.disamb[p][k]).is_discretizing()
    }

    /// Whether the point `q` stands in the order before position `j`.
    pub open spec fn earlier(self, q: PID, j: int) -> bool {
        exists|i: int| 0 <= i < j && i < self.order.len() && #[trigger] self.order[i] == q
    }

    /// Whether every point that `op` names is a known point of the figure.
    pub open spec fn anchors(self, op: TargetedConstraint) -> bool {
        forall|q: PID| #[trigger] op.binds(q) ==> q < self.size() && self.known[q as int]
    }

    /// Whether every point that `op` names stands in the order before position `j`.
    pub open spec fn places(self, op: TargetedConstraint, j: int) -> bool {
        forall|q: PID| #[trigger] op.binds(q) ==> self.earlier(q, j)
    }

    /// Every operation names known points only, and those of a point in the
    /// order name points that stand before it.
    pub open spec fn anchored(self) -> bool {
        &&& forall|p: int, k: int|
            0 <= p < self.size() && 0 <= k < self.support[p].len() ==> self.anchors(
                #[trigger] self.support[p][k],
            )
        &&& forall|p: int, k: int|
            0 <= p < self.size() && 0 <= k < self.disamb[p].len() ==> self.anchors(
                #[trigger] self.disamb[p][k],
            )
        &&& forall|j: int, k: int|
            0 <= j < self.order.len() && 0 <= k < self.support[self.order[j] as int].len()
                ==> self.places(#[trigger] self.support[self.order[j] as int][k], j)
        &&& forall|j: int, k: int|
            0 <= j < self.order.len() && 0 <= k < self.disamb[self.order[j] as int].len()
                ==> self.places(#[trigger] self.disamb[self.order[j] as int][k], j)
    }

    /// What holds of a tree at every step of its growth.
    pub open spec fn sound(self) -> bool {
        &&& self.shaped()
        &&& self.rooted()
        &&& self.indexed()
        &&& self.counted()
        &&& self.sorted()
        &&& self.anchored()
    }

    /// Whether every point known in this tree is known in `later`, and the
    /// order of `later` starts with the order of this tree.
    pub open spec fn extends_to(self, later: Growth) -> bool {
        &&& later.size() == self.size()
        &&& forall|q: int| 0 <= q < self.size() && self.known[q] ==> later.known[q]
        &&& self.order.len() <= later.order.len()
        &&& forall|i: int| 0 <= i < self.order.len() ==> later.order[i] == self.order[i]
    }

    /// The seed of a tree is sound.
    pub proof fn lemma_seed_sound(n: nat, r: PID, o: PID, c: CID, op: TargetedConstraint)
        requires
            r < n,
            o < n,
            r != o,
            op.is_discretizing(),
            forall|q: PID| op.binds(q) ==> q == r,
        ensures
            Growth::seed(n, r, o, c, op).sound(),
            Growth::seed(n, r, o, c, op).size() == n,
    {
        let g = Growth::seed(n, r, o, c, op);
        assert(g.shaped()) by {
            lemma_count_seed(n, r, o);
            assert(g.known =~= Seq::new(n, |p: int| p == r || p == o));
        }
        assert(g.indexed()) by {
            assert forall|p: PID| p < g.size() implies (g.known[p as int] <==> g.order.contains(
                p,
            )) by {
                if p == r {
                    assert(g.order[0] == p);
                }
                if p == o {
                    assert(g.order[1] == p);
                }
            }
        }
        assert(g.anchored()) by {
            assert(g.order[0] == r);
            assert forall|j: int, k: int|
                0 <= j < g.order.len() && 0 <= k < g.support[g.order[j] as int].len() implies g.places(
                #[trigger] g.support[g.order[j] as int][k],
                j,
            ) by {
                assert(g.earlier(r, 1));
            }
        }
    }
    /// A point that is not known is neither root nor orbiter, and stands
    /// nowhere in the order.
    pub proof fn lemma_unknown_apart(self, t: PID)
        requires
            self.sound(),
            t < self.size(),
            !self.known[t as int],
        ensures
            t != self.root(),
            t != self.orbiter(),
            forall|j: int| 0 <= j < self.order.len() ==> self.order[j] != t,
    {
        assert forall|j: int| 0 <= j < self.order.len() implies self.order[j] != t by {
            if self.order[j] == t {
                assert(self.order.contains(t));
            }
        }
    }

    /// Offering an operation that names known points only keeps a tree sound.
    pub proof fn lemma_attach_sound(self, t: PID, c: CID, op: TargetedConstraint)
        requires
            self.sound(),
            t < self.size(),
            self.anchors(op),
        ensures
            self.attach(t, c, op).sound(),
            self.extends_to(self.attach(t, c, op)),
    {
        let g = self.attach(t, c, op);
        let i = t as int;
        if !(self.known[i] || self.sources[i].contains(c)) {
            self.lemma_unknown_apart(t);
            let grown = op.is_discretizing() && self.support[i].len() + 1 == 2;
            assert(g.shaped()) by {
                if grown {
                    lemma_count_true_set(self.known, i);
                }
            }
            assert(self.extends_to(g));
            assert(g.rooted());
            assert(g.indexed()) by {
                assert forall|p: PID| p < g.size() implies (g.known[p as int] <==> g.order.contains(
                    p,
                )) by {
                    if grown {
                        if p == t {
                            assert(g.order[self.order.len() as int] == t);
                        } else {
                            if self.order.contains(p) {
                                let j = choose|j: int| 0 <= j < self.order.len() && self.order[j] == p;
                                assert(g.order[j] == p);
                            }
                            if g.order.contains(p) {
                                let j = choose|j: int| 0 <= j < g.order.len() && g.order[j] == p;
                                assert(self.order[j] == p);
                            }
                        }
                    }
                }
            }
            assert(g.counted()) by {
                assert forall|p: PID|
                    p < g.size() && p != g.root() && p != g.orbiter() implies if g.known[p as int] {
                    (#[trigger] g.support[p as int]).len() == 2
                } else {
                    g.support[p as int].len() <= 1
                } by {
                    assert(self.support[p as int].len() <= 2);
                }
            }
            assert(g.sorted());
            assert(g.anchored()) by {
                assert forall|x: TargetedConstraint| self.anchors(x) implies g.anchors(x) by {
                    assert forall|q: PID| #[trigger] x.binds(q) implies q < g.size() && g.known[q as int] by {}
                }
                assert forall|x: TargetedConstraint, j: int| self.places(x, j) implies g.places(
                    x,
                    j,
                ) by {
                    assert forall|q: PID| #[trigger] x.binds(q) implies g.earlier(q, j) by {
                        assert(self.earlier(q, j));
                        let w = choose|w: int| 0 <= w < j && w < self.order.len() && #[trigger] self.order[w] == q;
                        assert(g.order[w] == q);
                    }
                }
                assert forall|p: int, k: int|
                    0 <= p < g.size() && 0 <= k < g.support[p].len() implies g.anchors(
                    #[trigger] g.support[p][k],
                ) by {
                    if p == i && k == self.support[p].len() {
                    } else {
                        assert(self.anchors(self.support[p][k]));
                    }
                }
                assert forall|p: int, k: int|
                    0 <= p < g.size() && 0 <= k < g.disamb[p].len() implies g.anchors(
                    #[trigger] g.disamb[p][k],
                ) by {
                    if p == i && k == self.disamb[p].len() {
                    } else {
                        assert(self.anchors(self.disamb[p][k]));
                    }
                }
                assert forall|q: PID| #[trigger] op.binds(q) implies g.earlier(
                    q,
                    self.order.len() as int,
                ) by {
                    assert(self.order.contains(q));
                    let w = choose|w: int| 0 <= w < self.order.len() && self.order[w] == q;
                    assert(g.order[w] == q);
                }
                assert forall|j: int, k: int|
                    0 <= j < g.order.len() && 0 <= k < g.support[g.order[j] as int].len() implies g.places(
                    #[trigger] g.support[g.order[j] as int][k],
                    j,
                ) by {
                    if j < self.order.len() {
                        assert(self.places(self.support[self.order[j] as int][k], j));
                    } else {
                        let x = g.support[i][k];
                        assert forall|q: PID| #[trigger] x.binds(q) implies g.earlier(q, j) by {
                            if k < self.support[i].len() {
                                assert(self.anchors(self.support[i][k]));
                            }
                            assert(self.order.contains(q));
                            let w = choose|w: int| 0 <= w < self.order.len() && self.order[w] == q;
                            assert(g.order[w] == q);
                        }
                    }
                }
                assert forall|j: int, k: int|
                    0 <= j < g.order.len() && 0 <= k < g.disamb[g.order[j] as int].len() implies g.places(
                    #[trigger] g.disamb[g.order[j] as int][k],
                    j,
                ) by {
                    if j < self.order.len() {
                        assert(self.places(self.disamb[self.order[j] as int][k], j));
                    } else {
                        let x = g.disamb[i][k];
                        assert forall|q: PID| #[trigger] x.binds(q) implies g.earlier(q, j) by {
                            assert(self.anchors(self.disamb[i][k]));
                            assert(self.order.contains(q));
                            let w = choose|w: int| 0 <= w < self.order.len() && self.order[w] == q;
                            assert(g.order[w] == q);
                        }
                    }
                }
            }
        }
    }
    /// What a later state extends, every state after it extends too.
    pub proof fn lemma_extends_chain(self, mid: Growth, later: Growth)
        requires
            self.extends_to(mid),
            mid.extends_to(later),
        ensures
            self.extends_to(later),
    {
    }

    /// An operation that names known points only does so in every later state.
    pub proof fn lemma_anchors_later(self, later: Growth, op: TargetedConstraint)
        requires
            self.extends_to(later),
            self.anchors(op),
        ensures
            later.anchors(op),
    {
        assert forall|q: PID| #[trigger] op.binds(q) implies q < later.size() && later.known[q as int] by {}
    }

    /// Offering operations that name known points only keeps a tree sound.
    pub proof fn lemma_attach_all_sound(self, c: CID, emitted: Seq<Target>)
        requires
            self.sound(),
            forall|k: int| 0 <= k < emitted.len() ==> (#[trigger] emitted[k]).0 < self.size(),
            forall|k: int| 0 <= k < emitted.len() ==> self.anchors((#[trigger] emitted[k]).1),
        ensures
            self.attach_all(c, emitted).sound(),
            self.extends_to(self.attach_all(c, emitted)),
        decreases emitted.len(),
    {
        if emitted.len() > 0 {
            let init = emitted.drop_last();
            let last = emitted.last();
            assert forall|k: int| 0 <= k < init.len() implies (#[trigger] init[k]).0 < self.size()
                && self.anchors(init[k].1) by {
                assert(init[k] == emitted[k]);
            }
            self.lemma_attach_all_sound(c, init);
            let mid = self.attach_all(c, init);
            assert(last == emitted[emitted.len() - 1]);
            self.lemma_anchors_later(mid, last.1);
            mid.lemma_attach_sound(last.0, c, last.1);
            self.lemma_extends_chain(mid, mid.attach(last.0, c, last.1));
        }
    }

    /// What a constraint yields when targeted with what the tree knows are
    /// points of the figure, with operations that name known points only.
    pub proof fn lemma_targets_anchored(self, fig: FigureView, c: CID, k: int)
        requires
            fig.well_formed(),
            self.size() == fig.points.len(),
            c < fig.constraints.len(),
            0 <= k < spec_targets(
                fig.constraints[c as int].0,
                fig.constraints[c as int].1,
                self.knowledge(fig.constraints[c as int].1),
            ).len(),
        ensures
            ({
                let (constraint, pts) = fig.constraints[c as int];
                let target = spec_targets(constraint, pts, self.knowledge(pts))[k];
                target.0 < self.size() && !self.known[target.0 as int] && self.anchors(target.1)
            }),
    {
        let (constraint, pts) = fig.constraints[c as int];
        let mask = self.knowledge(pts);
        let target = spec_targets(constraint, pts, mask)[k];
        lemma_targets_directed(constraint, pts, mask, k);
        assert(directed(pts, mask, target));
        let i = choose|i: int| #![trigger pts[i]] 0 <= i < pts.len() && pts[i] == target.0 && !mask[i];
        assert(fig.constraints[c as int].1[i] < fig.points.len());
        assert forall|q: PID| #[trigger] target.1.binds(q) implies q < self.size() && self.known[q as int] by {
            let j = choose|j: int| #![trigger pts[j]] 0 <= j < pts.len() && pts[j] == q && mask[j];
            assert(fig.constraints[c as int].1[j] < fig.points.len());
        }
    }

    /// Visiting a constraint of the figure keeps a tree sound.
    pub proof fn lemma_visit_sound(self, fig: FigureView, c: CID)
        requires
            self.sound(),
            fig.well_formed(),
            self.size() == fig.points.len(),
            c < fig.constraints.len(),
        ensures
            self.visit(fig, c).sound(),
            self.extends_to(self.visit(fig, c)),
    {
        let (constraint, pts) = fig.constraints[c as int];
        let emitted = spec_targets(constraint, pts, self.knowledge(pts));
        assert forall|k: int| 0 <= k < emitted.len() implies (#[trigger] emitted[k]).0 < self.size()
            && self.anchors(emitted[k].1) by {
            self.lemma_targets_anchored(fig, c, k);
        }
        self.lemma_attach_all_sound(c, emitted);
    }

    /// What a constraint yields when targeted as if only `r` were known are
    /// points of the figure other than `r`, with operations that name `r`
    /// only.
    pub proof fn lemma_targets_alone(fig: FigureView, c: CID, r: PID, k: int)
        requires
            fig.well_formed(),
            c < fig.constraints.len(),
            0 <= k < spec_targets(
                fig.constraints[c as int].0,
                fig.constraints[c as int].1,
                alone(fig.constraints[c as int].1, r),
            ).len(),
        ensures
            ({
                let (constraint, pts) = fig.constraints[c as int];
                let target = spec_targets(constraint, pts, alone(pts, r))[k];
                &&& target.0 < fig.points.len()
                &&& target.0 != r
                &&& forall|q: PID| #[trigger] target.1.binds(q) ==> q == r
            }),
    {
        let (constraint, pts) = fig.constraints[c as int];
        let mask = alone(pts, r);
        let target = spec_targets(constraint, pts, mask)[k];
        lemma_targets_directed(constraint, pts, mask, k);
        assert(directed(pts, mask, target));
        let i = choose|i: int| #![trigger pts[i]] 0 <= i < pts.len() && pts[i] == target.0 && !mask[i];
        assert(fig.constraints[c as int].1[i] < fig.points.len());
        assert forall|q: PID| #[trigger] target.1.binds(q) implies q == r by {
            let j = choose|j: int| #![trigger pts[j]] 0 <= j < pts.len() && pts[j] == q && mask[j];
        }
    }

    /// Targeting a constraint of the figure as if only a known point were
    /// known keeps a tree sound.
    pub proof fn lemma_visit_alone_sound(self, fig: FigureView, c: CID, r: PID)
        requires
            self.sound(),
            fig.well_formed(),
            self.size() == fig.points.len(),
            c < fig.constraints.len(),
            r < fig.points.len(),
            self.known[r as int],
        ensures
            self.visit_alone(fig, c, r).sound(),
            self.extends_to(self.visit_alone(fig, c, r)),
    {
        let (constraint, pts) = fig.constraints[c as int];
        let emitted = spec_targets(constraint, pts, alone(pts, r));
        assert forall|k: int| 0 <= k < emitted.len() implies (#[trigger] emitted[k]).0 < self.size()
            && self.anchors(emitted[k].1) by {
            Growth::lemma_targets_alone(fig, c, r, k);
        }
        self.lemma_attach_all_sound(c, emitted);
    }

    /// Targeting constraints of the figure as if only a known point were
    /// known keeps a tree sound.
    pub proof fn lemma_visit_all_alone_sound(self, fig: FigureView, cids: Seq<CID>, r: PID)
        requires
            self.sound(),
            fig.well_formed(),
            self.size() == fig.points.len(),
            forall|k: int| 0 <= k < cids.len() ==> cids[k] < fig.constraints.len(),
            r < fig.points.len(),
            self.known[r as int],
        ensures
            self.visit_all_alone(fig, cids, r).sound(),
            self.extends_to(self.visit_all_alone(fig, cids, r)),
        decreases cids.len(),
    {
        if cids.len() > 0 {
            let init = cids.drop_last();
            assert forall|k: int| 0 <= k < init.len() implies init[k] < fig.constraints.len() by {
                assert(init[k] == cids[k]);
            }
            self.lemma_visit_all_alone_sound(fig, init, r);
            let mid = self.visit_all_alone(fig, init, r);
            assert(cids.last() == cids[cids.len() - 1]);
            mid.lemma_visit_alone_sound(fig, cids.last(), r);
            self.lemma_extends_chain(mid, mid.visit_alone(fig, cids.last(), r));
        }
    }

    /// A known point keeps its operations when constraints are targeted as
    /// if only `r` were known.
    pub proof fn lemma_visit_all_alone_fixes(self, fig: FigureView, cids: Seq<CID>, r: PID, p: PID)
        requires
            self.shaped(),
            fig.well_formed(),
            self.size() == fig.points.len(),
            forall|k: int| 0 <= k < cids.len() ==> cids[k] < fig.constraints.len(),
            p < self.size(),
            self.known[p as int],
        ensures
            self.visit_all_alone(fig, cids, r).known[p as int],
            self.visit_all_alone(fig, cids, r).size() == self.size(),
            self.visit_all_alone(fig, cids, r).shaped(),
            self.visit_all_alone(fig, cids, r).operations(p) == self.operations(p),
        decreases cids.len(),
    {
        if cids.len() > 0 {
            let init = cids.drop_last();
            assert forall|k: int| 0 <= k < init.len() implies init[k] < fig.constraints.len() by {
                assert(init[k] == cids[k]);
            }
            self.lemma_visit_all_alone_fixes(fig, init, r, p);
            let mid = self.visit_all_alone(fig, init, r);
            let c = cids.last();
            assert(c == cids[cids.len() - 1]);
            let (constraint, pts) = fig.constraints[c as int];
            let emitted = spec_targets(constraint, pts, alone(pts, r));
            assert forall|k: int| 0 <= k < emitted.len() implies (#[trigger] emitted[k]).0 < mid.size() by {
                Growth::lemma_targets_alone(fig, c, r, k);
            }
            mid.lemma_attach_all_fixes(c, emitted, p);
        }
    }

    /// Visiting constraints of the figure keeps a tree sound.
    pub proof fn lemma_visit_all_sound(self, fig: FigureView, cids: Seq<CID>)
        requires
            self.sound(),
            fig.well_formed(),
            self.size() == fig.points.len(),
            forall|k: int| 0 <= k < cids.len() ==> cids[k] < fig.constraints.len(),
        ensures
            self.visit_all(fig, cids).sound(),
            self.extends_to(self.visit_all(fig, cids)),
        decreases cids.len(),
    {
        if cids.len() > 0 {
            let init = cids.drop_last();
            assert forall|k: int| 0 <= k < init.len() implies init[k] < fig.constraints.len() by {
                assert(init[k] == cids[k]);
            }
            self.lemma_visit_all_sound(fig, init);
            let mid = self.visit_all(fig, init);
            assert(cids.last() == cids[cids.len() - 1]);
            mid.lemma_visit_sound(fig, cids.last());
            self.lemma_extends_chain(mid, mid.visit(fig, cids.last()));
        }
    }

    /// Expanding a point of the figure keeps a tree sound.
    pub proof fn lemma_expand_sound(self, fig: FigureView, p: PID)
        requires
            self.sound(),
            fig.well_formed(),
            self.size() == fig.points.len(),
            p < fig.points.len(),
        ensures
            self.expand(fig, p).sound(),
            self.extends_to(self.expand(fig, p)),
    {
        let cids = fig.points[p as int];
        assert forall|k: int| 0 <= k < cids.len() implies cids[k] < fig.constraints.len() by {
            assert(fig.points[p as int].contains(cids[k]));
            assert(fig.names(cids[k], p as int));
        }
        self.lemma_visit_all_sound(fig, cids);
    }

    /// Growing keeps a tree sound.
    pub proof fn lemma_grow_sound(self, fig: FigureView, head: nat)
        requires
            self.sound(),
            fig.well_formed(),
            self.size() == fig.points.len(),
        ensures
            self.grow(fig, head).sound(),
            self.extends_to(self.grow(fig, head)),
        decreases fig.points.len() - head,
    {
        if !(head >= self.order.len() || head >= fig.points.len()) {
            let p = self.order[head as int];
            self.lemma_expand_sound(fig, p);
            let mid = self.expand(fig, p);
            mid.lemma_grow_sound(fig, head + 1);
            self.lemma_extends_chain(mid, mid.grow(fig, head + 1));
        }
    }

    /// The tree that grows from a root and an orbiter held by a
    /// discretizing operation that names the root only is sound, and
    /// starts with the two.
    pub proof fn lemma_tree_sound(fig: FigureView, r: PID, o: PID, c: CID, op: TargetedConstraint)
        requires
            fig.well_formed(),
            r < fig.points.len(),
            o < fig.points.len(),
            r != o,
            op.is_discretizing(),
            forall|q: PID| op.binds(q) ==> q == r,
        ensures
            Growth::tree(fig, r, o, c, op).sound(),
            Growth::tree(fig, r, o, c, op).size() == fig.points.len(),
            Growth::tree(fig, r, o, c, op).root() == r,
            Growth::tree(fig, r, o, c, op).orbiter() == o,
            Growth::tree(fig, r, o, c, op).operations(o) == seq![op],
    {
        let n = fig.points.len();
        let seed = Growth::seed(n, r, o, c, op);
        Growth::lemma_seed_sound(n, r, o, c, op);
        let cids = fig.points[r as int];
        assert forall|k: int| 0 <= k < cids.len() implies cids[k] < fig.constraints.len() by {
            assert(fig.points[r as int].contains(cids[k]));
            assert(fig.names(cids[k], r as int));
        }
        seed.lemma_visit_all_alone_sound(fig, cids, r);
        seed.lemma_visit_all_alone_fixes(fig, cids, r, o);
        let reached = seed.visit_all_alone(fig, cids, r);
        reached.lemma_grow_sound(fig, 1);
        reached.lemma_grow_fixes(fig, 1, o);
        seed.lemma_extends_chain(reached, reached.grow(fig, 1));
        assert(seed.operations(o) =~= seq![op]);
    }

    /// A known point keeps its operations when an operation is offered.
    pub proof fn lemma_attach_fixes(self, t: PID, c: CID, op: TargetedConstraint, p: PID)
        requires
            self.shaped(),
            t < self.size(),
            p < self.size(),
            self.known[p as int],
        ensures
            self.attach(t, c, op).known[p as int],
            self.attach(t, c, op).size() == self.size(),
            self.attach(t, c, op).shaped(),
            self.attach(t, c, op).operations(p) == self.operations(p),
    {
        if !(self.known[t as int] || self.sources[t as int].contains(c)) {
            if op.is_discretizing() && self.support[t as int].len() + 1 == 2 {
                lemma_count_true_set(self.known, t as int);
            }
        }
    }

    /// A known point keeps its operations when operations are offered.
    pub proof fn lemma_attach_all_fixes(self, c: CID, emitted: Seq<Target>, p: PID)
        requires
            self.shaped(),
            forall|k: int| 0 <= k < emitted.len() ==> (#[trigger] emitted[k]).0 < self.size(),
            p < self.size(),
            self.known[p as int],
        ensures
            self.attach_all(c, emitted).known[p as int],
            self.attach_all(c, emitted).size() == self.size(),
            self.attach_all(c, emitted).shaped(),
            self.attach_all(c, emitted).operations(p) == self.operations(p),
        decreases emitted.len(),
    {
        if emitted.len() > 0 {
            let init = emitted.drop_last();
            assert forall|k: int| 0 <= k < init.len() implies (#[trigger] init[k]).0 < self.size() by {
                assert(init[k] == emitted[k]);
            }
            self.lemma_attach_all_fixes(c, init, p);
            assert(emitted.last() == emitted[emitted.len() - 1]);
            self.attach_all(c, init).lemma_attach_fixes(emitted.last().0, c, emitted.last().1, p);
        }
    }

    /// A known point keeps its operations when constraints are visited.
    pub proof fn lemma_visit_all_fixes(self, fig: FigureView, cids: Seq<CID>, p: PID)
        requires
            self.shaped(),
            fig.well_formed(),
            self.size() == fig.points.len(),
            forall|k: int| 0 <= k < cids.len() ==> cids[k] < fig.constraints.len(),
            p < self.size(),
            self.known[p as int],
        ensures
            self.visit_all(fig, cids).known[p as int],
            self.visit_all(fig, cids).size() == self.size(),
            self.visit_all(fig, cids).shaped(),
            self.visit_all(fig, cids).operations(p) == self.operations(p),
        decreases cids.len(),
    {
        if cids.len() > 0 {
            let init = cids.drop_last();
            assert forall|k: int| 0 <= k < init.len() implies init[k] < fig.constraints.len() by {
                assert(init[k] == cids[k]);
            }
            self.lemma_visit_all_fixes(fig, init, p);
            let mid = self.visit_all(fig, init);
            let c = cids.last();
            assert(c == cids[cids.len() - 1]);
            let (constraint, pts) = fig.constraints[c as int];
            let emitted = spec_targets(constraint, pts, mid.knowledge(pts));
            assert forall|k: int| 0 <= k < emitted.len() implies (#[trigger] emitted[k]).0 < mid.size() by {
                mid.lemma_targets_anchored(fig, c, k);
            }
            mid.lemma_attach_all_fixes(c, emitted, p);
        }
    }

    /// A known point keeps its operations while the tree grows.
    pub proof fn lemma_grow_fixes(self, fig: FigureView, head: nat, p: PID)
        requires
            self.shaped(),
            fig.well_formed(),
            self.size() == fig.points.len(),
            p < self.size(),
            self.known[p as int],
        ensures
            self.grow(fig, head).known[p as int],
            self.grow(fig, head).operations(p) == self.operations(p),
        decreases fig.points.len() - head,
    {
        if !(head >= self.order.len() || head >= fig.points.len()) {
            let x = self.order[head as int];
            let cids = fig.points[x as int];
            assert forall|k: int| 0 <= k < cids.len() implies cids[k] < fig.constraints.len() by {
                assert(fig.points[x as int].contains(cids[k]));
                assert(fig.names(cids[k], x as int));
            }
            self.lemma_visit_all_fixes(fig, cids, p);
            self.expand(fig, x).lemma_grow_fixes(fig, head + 1, p);
        }
    }
}

/// Of the flags that mark two distinct points, two are set.
proof fn lemma_count_seed(n: nat, r: PID, o: PID)
    requires
        r < n,
        o < n,
        r != o,
    ensures
        count_true(Seq::new(n, |p: int| p == r || p == o)) == 2,
{
    let none = Seq::new(n, |p: int| false);
    lemma_count_none(n);
    let one = none.update(r as int, true);
    lemma_count_true_set(none, r as int);
    let two = one.update(o as int, true);
    lemma_count_true_set(one, o as int);
    assert(two =~= Seq::new(n, |p: int| p == r || p == o));
}

/// Where no flag is set, none is counted.
proof fn lemma_count_none(n: nat)
    ensures
        count_true(Seq::new(n, |p: int| false)) == 0,
    decreases n,
{
    if n > 0 {
        lemma_count_none((n - 1) as nat);
        assert(Seq::new(n, |p: int| false).drop_last() =~= Seq::new((n - 1) as nat, |p: int| false));
    }
}

/// Whether targeting constraint `c` of the figure yields, under some
/// knowledge, the operation `op` for the point `p`.
pub open spec fn yields(fig: FigureView, c: CID, p: PID, op: TargetedConstraint) -> bool {
    &&& c < fig.constraints.len()
    &&& exists|mask: Seq<bool>|
        (#[trigger] spec_targets(
            fig.constraints[c as int].0,
            fig.constraints[c as int].1,
            mask,
        )).contains((p, op))
}

/// What targeting yields under the knowledge `mask`, it yields.
pub proof fn lemma_yields(fig: FigureView, c: CID, mask: Seq<bool>, k: int)
    requires
        c < fig.constraints.len(),
        0 <= k < spec_targets(fig.constraints[c as int].0, fig.constraints[c as int].1, mask).len(),
    ensures
        ({
            let target = spec_targets(fig.constraints[c as int].0, fig.constraints[c as int].1, mask)[k];
            yields(fig, c, target.0, target.1)
        }),
{
    let emitted = spec_targets(fig.constraints[c as int].0, fig.constraints[c as int].1, mask);
    assert(emitted.contains(emitted[k]));
}

/// A constraint yields operations only for points it is declared on.
pub proof fn lemma_yields_declared(fig: FigureView, c: CID, p: PID, op: TargetedConstraint)
    requires
        yields(fig, c, p, op),
    ensures
        fig.names(c, p as int),
{
    let (constraint, pts) = fig.constraints[c as int];
    let mask = choose|mask: Seq<bool>| (#[trigger] spec_targets(constraint, pts, mask)).contains((p, op));
    let emitted = spec_targets(constraint, pts, mask);
    let k = choose|k: int| 0 <= k < emitted.len() && emitted[k] == (p, op);
    lemma_targets_directed(constraint, pts, mask, k);
    let i = choose|i: int| #![trigger pts[i]] 0 <= i < pts.len() && pts[i] == p && !mask[i];
    assert(pts[i] == p);
}

impl Growth {
    /// Whether one of the constraints that gave the point `p` an operation
    /// yields `op` for it.
    pub open spec fn traced(self, fig: FigureView, p: PID, op: TargetedConstraint) -> bool {
        exists|c: CID| self.sources[p as int].contains(c) && #[trigger] yields(fig, c, p, op)
    }

    /// Every operation of a point is one that a constraint of the figure
    /// yields for that point.
    pub open spec fn derived(self, fig: FigureView) -> bool {
        &&& forall|p: PID, k: int|
            p < self.size() && 0 <= k < self.support[p as int].len() ==> self.traced(
                fig,
                p,
                #[trigger] self.support[p as int][k],
            )
        &&& forall|p: PID, k: int|
            p < self.size() && 0 <= k < self.disamb[p as int].len() ==> self.traced(
                fig,
                p,
                #[trigger] self.disamb[p as int][k],
            )
    }

    /// Offering an operation keeps the shape of a tree.
    pub proof fn lemma_attach_shaped(self, t: PID, c: CID, op: TargetedConstraint)
        requires
            self.shaped(),
            t < self.size(),
        ensures
            self.attach(t, c, op).shaped(),
            self.attach(t, c, op).size() == self.size(),
    {
        if !(self.known[t as int] || self.sources[t as int].contains(c)) {
            if op.is_discretizing() && self.support[t as int].len() + 1 == 2 {
                lemma_count_true_set(self.known, t as int);
            }
        }
    }

    /// Offering an operation that its constraint yields keeps a tree
    /// derived.
    pub proof fn lemma_attach_derived(self, fig: FigureView, t: PID, c: CID, op: TargetedConstraint)
        requires
            self.shaped(),
            self.derived(fig),
            t < self.size(),
            yields(fig, c, t, op),
        ensures
            self.attach(t, c, op).derived(fig),
    {
        let g = self.attach(t, c, op);
        if !(self.known[t as int] || self.sources[t as int].contains(c)) {
            let was = self.sources[t as int];
            let now = g.sources[t as int];
            assert(now == was.push(c));
            assert(now[was.len() as int] == c);
            assert forall|x: TargetedConstraint| self.traced(fig, t, x) implies g.traced(fig, t, x) by {
                let d = choose|d: CID| was.contains(d) && #[trigger] yields(fig, d, t, x);
                let i = choose|i: int| 0 <= i < was.len() && was[i] == d;
                assert(now[i] == d);
            }
            assert(g.traced(fig, t, op));
            assert forall|p: PID, k: int|
                p < g.size() && 0 <= k < g.support[p as int].len() implies g.traced(
                fig,
                p,
                #[trigger] g.support[p as int][k],
            ) by {
                if p == t {
                    if k < self.support[p as int].len() {
                        assert(self.traced(fig, t, self.support[p as int][k]));
                    }
                } else {
                    assert(self.traced(fig, p, self.support[p as int][k]));
                }
            }
            assert forall|p: PID, k: int|
                p < g.size() && 0 <= k < g.disamb[p as int].len() implies g.traced(
                fig,
                p,
                #[trigger] g.disamb[p as int][k],
            ) by {
                if p == t {
                    if k < self.disamb[p as int].len() {
                        assert(self.traced(fig, t, self.disamb[p as int][k]));
                    }
                } else {
                    assert(self.traced(fig, p, self.disamb[p as int][k]));
                }
            }
        }
    }

    /// Offering what a constraint yields under some knowledge keeps a
    /// tree derived.
    pub proof fn lemma_offer_derived(self, fig: FigureView, c: CID, mask: Seq<bool>, upto: int)
        requires
            self.shaped(),
            self.derived(fig),
            fig.well_formed(),
            self.size() == fig.points.len(),
            c < fig.constraints.len(),
            0 <= upto <= spec_targets(fig.constraints[c as int].0, fig.constraints[c as int].1, mask).len(),
        ensures
            ({
                let emitted = spec_targets(fig.constraints[c as int].0, fig.constraints[c as int].1, mask);
                let next = self.attach_all(c, emitted.take(upto));
                next.shaped() && next.derived(fig) && next.size() == self.size()
            }),
        decreases upto,
    {
        let (constraint, pts) = fig.constraints[c as int];
        let emitted = spec_targets(constraint, pts, mask);
        if upto > 0 {
            self.lemma_offer_derived(fig, c, mask, upto - 1);
            assert(emitted.take(upto).drop_last() =~= emitted.take(upto - 1));
            let mid = self.attach_all(c, emitted.take(upto - 1));
            let target = emitted[upto - 1];
            assert(emitted.take(upto).last() == target);
            lemma_yields(fig, c, mask, upto - 1);
            lemma_yields_declared(fig, c, target.0, target.1);
            let i = choose|i: int| 0 <= i < pts.len() && #[trigger] pts[i] == target.0 as int;
            assert(fig.constraints[c as int].1[i] < fig.points.len());
            mid.lemma_attach_shaped(target.0, c, target.1);
            mid.lemma_attach_derived(fig, target.0, c, target.1);
        }
    }

    /// Visiting constraints of the figure keeps a tree derived.
    pub proof fn lemma_visit_all_derived(self, fig: FigureView, cids: Seq<CID>)
        requires
            self.shaped(),
            self.derived(fig),
            fig.well_formed(),
            self.size() == fig.points.len(),
            forall|k: int| 0 <= k < cids.len() ==> cids[k] < fig.constraints.len(),
        ensures
            self.visit_all(fig, cids).shaped(),
            self.visit_all(fig, cids).derived(fig),
            self.visit_all(fig, cids).size() == self.size(),
        decreases cids.len(),
    {
        if cids.len() > 0 {
            let init = cids.drop_last();
            assert forall|k: int| 0 <= k < init.len() implies init[k] < fig.constraints.len() by {
                assert(init[k] == cids[k]);
            }
            self.lemma_visit_all_derived(fig, init);
            let mid = self.visit_all(fig, init);
            let c = cids.last();
            assert(c == cids[cids.len() - 1]);
            let (constraint, pts) = fig.constraints[c as int];
            let emitted = spec_targets(constraint, pts, mid.knowledge(pts));
            mid.lemma_offer_derived(fig, c, mid.knowledge(pts), emitted.len() as int);
            assert(emitted.take(emitted.len() as int) =~= emitted);
        }
    }

    /// Targeting constraints of the figure as if only `r` were known keeps
    /// a tree derived.
    pub proof fn lemma_visit_all_alone_derived(self, fig: FigureView, cids: Seq<CID>, r: PID)
        requires
            self.shaped(),
            self.derived(fig),
            fig.well_formed(),
            self.size() == fig.points.len(),
            forall|k: int| 0 <= k < cids.len() ==> cids[k] < fig.constraints.len(),
        ensures
            self.visit_all_alone(fig, cids, r).shaped(),
            self.visit_all_alone(fig, cids, r).derived(fig),
            self.visit_all_alone(fig, cids, r).size() == self.size(),
        decreases cids.len(),
    {
        if cids.len() > 0 {
            let init = cids.drop_last();
            assert forall|k: int| 0 <= k < init.len() implies init[k] < fig.constraints.len() by {
                assert(init[k] == cids[k]);
            }
            self.lemma_visit_all_alone_derived(fig, init, r);
            let mid = self.visit_all_alone(fig, init, r);
            let c = cids.last();
            assert(c == cids[cids.len() - 1]);
            let (constraint, pts) = fig.constraints[c as int];
            let emitted = spec_targets(constraint, pts, alone(pts, r));
            mid.lemma_offer_derived(fig, c, alone(pts, r), emitted.len() as int);
            assert(emitted.take(emitted.len() as int) =~= emitted);
        }
    }

    /// Growing keeps a tree derived.
    pub proof fn lemma_grow_derived(self, fig: FigureView, head: nat)
        requires
            self.shaped(),
            self.derived(fig),
            fig.well_formed(),
            self.size() == fig.points.len(),
        ensures
            self.grow(fig, head).derived(fig),
        decreases fig.points.len() - head,
    {
        if !(head >= self.order.len() || head >= fig.points.len()) {
            let p = self.order[head as int];
            let cids = fig.points[p as int];
            assert forall|k: int| 0 <= k < cids.len() implies cids[k] < fig.constraints.len() by {
                assert(fig.points[p as int].contains(cids[k]));
                assert(fig.names(cids[k], p as int));
            }
            self.lemma_visit_all_derived(fig, cids);
            self.expand(fig, p).lemma_grow_derived(fig, head + 1);
        }
    }

    /// Every operation of a tree that starts from an orbiter whose
    /// operation its constraint yields is one that a constraint of the
    /// figure yields.
    pub proof fn lemma_tree_derived(fig: FigureView, r: PID, o: PID, c: CID, op: TargetedConstraint)
        requires
            fig.well_formed(),
            r < fig.points.len(),
            o < fig.points.len(),
            r != o,
            yields(fig, c, o, op),
        ensures
            Growth::tree(fig, r, o, c, op).derived(fig),
    {
        let n = fig.points.len();
        let seed = Growth::seed(n, r, o, c, op);
        lemma_count_seed(n, r, o);
        assert(seed.known =~= Seq::new(n, |p: int| p == r || p == o));
        assert(seed.shaped());
        assert(seed.derived(fig)) by {
            assert(seed.sources[o as int][0] == c);
            assert(seed.traced(fig, o, op));
        }
        let cids = fig.points[r as int];
        assert forall|k: int| 0 <= k < cids.len() implies cids[k] < fig.constraints.len() by {
            assert(fig.points[r as int].contains(cids[k]));
            assert(fig.names(cids[k], r as int));
        }
        seed.lemma_visit_all_alone_derived(fig, cids, r);
        seed.visit_all_alone(fig, cids, r).lemma_grow_derived(fig, 1);
    }
}

/// Whether every tree of the forest is a sound tree of the figure with
/// operations derived from it, which can take nothing more, and a tree
/// that holds every point stands alone.
pub open spec fn grown(trees: Seq<Growth>, fig: FigureView) -> bool {
    &&& forall|i: int|
        0 <= i < trees.len() ==> (#[trigger] trees[i]).sound() && trees[i].derived(fig) && trees[i].closed(
            fig,
        ) && trees[i].size() == fig.points.len()
    &&& forall|i: int|
        0 <= i < trees.len() && (#[trigger] trees[i]).order.len() == fig.points.len() ==> trees.len()
            == 1
}

/// In a sound tree whose order holds every point, every point is known.
pub proof fn lemma_full_tree(tree: Growth, p: int)
    requires
        tree.sound(),
        tree.order.len() == tree.size(),
        0 <= p < tree.size(),
    ensures
        tree.known[p],
{
    lemma_count_true_full(tree.known, p);
}

/// The order of a sound tree holds no more points than the figure has.
pub proof fn lemma_tree_bound(tree: Growth)
    requires
        tree.shaped(),
    ensures
        tree.order.len() <= tree.size(),
{
    lemma_count_true_bound(tree.known);
}

/// What `prune` keeps are trees of the forest; it keeps none where the
/// tree holds every point.
proof fn lemma_prune_grown(trees: Seq<Growth>, tree: Growth, n: nat)
    requires
        forall|i: int| 0 <= i < trees.len() ==> (#[trigger] trees[i]).sound() && trees[i].size() == n,
        tree.sound(),
        tree.size() == n,
    ensures
        forall|i: int|
            0 <= i < prune(trees, tree).len() ==> (#[trigger] prune(trees, tree)[i]).sound() && prune(
                trees,
                tree,
            )[i].size() == n,
        forall|i: int|
            0 <= i < prune(trees, tree).len() ==> exists|j: int|
                0 <= j < trees.len() && trees[j] == #[trigger] prune(trees, tree)[i],
        tree.order.len() == n ==> prune(trees, tree).len() == 0,
    decreases trees.len(),
{
    if trees.len() > 0 {
        let init = trees.drop_last();
        assert forall|i: int| 0 <= i < init.len() implies (#[trigger] init[i]).sound() && init[i].size()
            == n by {
            assert(init[i] == trees[i]);
        }
        lemma_prune_grown(init, tree, n);
        let kept = prune(trees, tree);
        let last = trees[trees.len() - 1];
        assert forall|i: int| 0 <= i < kept.len() implies exists|j: int|
            0 <= j < trees.len() && trees[j] == #[trigger] kept[i] by {
            if i < prune(init, tree).len() {
                let j = choose|j: int| 0 <= j < init.len() && init[j] == prune(init, tree)[i];
                assert(trees[j] == kept[i]);
            } else {
                assert(trees[trees.len() - 1] == kept[i]);
            }
        }
        if tree.order.len() == n {
            assert forall|p: int| 0 <= p < last.known.len() && last.known[p] implies tree.known[p] by {
                lemma_full_tree(tree, p);
            }
            assert(last.within(tree));
        }
    }
}

/// Considering an orbiter that targeting offers the root alone keeps a
/// forest grown.
proof fn lemma_consider_grown(trees: Seq<Growth>, fig: FigureView, r: PID, c: CID, target: Target)
    requires
        fig.well_formed(),
        grown(trees, fig),
        r < fig.points.len(),
        target.0 < fig.points.len(),
        target.0 != r,
        forall|q: PID| target.1.binds(q) ==> q == r,
        yields(fig, c, target.0, target.1),
    ensures
        grown(consider(trees, fig, r, c, target), fig),
{
    let n = fig.points.len();
    if target.1.is_discretizing() && !rejects(trees, r, target.0) {
        let tree = Growth::tree(fig, r, target.0, c, target.1);
        Growth::lemma_tree_sound(fig, r, target.0, c, target.1);
        Growth::lemma_tree_derived(fig, r, target.0, c, target.1);
        Growth::lemma_tree_closed(fig, r, target.0, c, target.1);
        lemma_prune_grown(trees, tree, n);
        let kept = prune(trees, tree);
        let next = accept(trees, tree);
        assert forall|i: int| 0 <= i < next.len() implies (#[trigger] next[i]).sound() && next[i].derived(
            fig,
        ) && next[i].closed(fig) && next[i].size() == n by {
            if i < kept.len() {
                assert(next[i] == kept[i]);
                let j = choose|j: int| 0 <= j < trees.len() && trees[j] == kept[i];
                assert(trees[j].derived(fig) && trees[j].closed(fig));
            }
        }
        assert forall|i: int| 0 <= i < next.len() && (#[trigger] next[i]).order.len() == n implies next.len()
            == 1 by {
            if i < kept.len() {
                assert(next[i] == kept[i]);
                let j = choose|j: int| 0 <= j < trees.len() && trees[j] == kept[i];
                assert(trees[j].order.len() == n);
                assert(trees.len() == 1);
                lemma_full_tree(trees[j], r as int);
                lemma_full_tree(trees[j], target.0 as int);
                assert(rejects(trees, r, target.0));
            }
        }
    }
}

/// Considering the orbiters that targeting offers the root alone keeps a
/// forest grown.
proof fn lemma_consider_all_grown(
    trees: Seq<Growth>,
    fig: FigureView,
    r: PID,
    c: CID,
    emitted: Seq<Target>,
)
    requires
        fig.well_formed(),
        grown(trees, fig),
        r < fig.points.len(),
        forall|k: int|
            0 <= k < emitted.len() ==> (#[trigger] emitted[k]).0 < fig.points.len() && emitted[k].0
                != r,
        forall|k: int, q: PID|
            0 <= k < emitted.len() && #[trigger] emitted[k].1.binds(q) ==> q == r,
        forall|k: int| 0 <= k < emitted.len() ==> yields(fig, c, (#[trigger] emitted[k]).0, emitted[k].1),
    ensures
        grown(consider_all(trees, fig, r, c, emitted), fig),
    decreases emitted.len(),
{
    if emitted.len() > 0 {
        let init = emitted.drop_last();
        assert forall|k: int| 0 <= k < init.len() implies (#[trigger] init[k]).0 < fig.points.len()
            && init[k].0 != r by {
            assert(init[k] == emitted[k]);
        }
        assert forall|k: int, q: PID| 0 <= k < init.len() && #[trigger] init[k].1.binds(q) implies q
            == r by {
            assert(init[k] == emitted[k]);
            assert(emitted[k].1.binds(q));
        }
        assert forall|k: int| 0 <= k < init.len() implies yields(
            fig,
            c,
            (#[trigger] init[k]).0,
            init[k].1,
        ) by {
            assert(init[k] == emitted[k]);
        }
        lemma_consider_all_grown(trees, fig, r, c, init);
        let last = emitted[emitted.len() - 1];
        assert forall|q: PID| last.1.binds(q) implies q == r by {
            assert(emitted[emitted.len() - 1].1.binds(q));
        }
        lemma_consider_grown(consider_all(trees, fig, r, c, init), fig, r, c, last);
    }
}

/// Surveying a constraint for a root keeps a forest grown.
proof fn lemma_survey_constraint_grown(trees: Seq<Growth>, fig: FigureView, r: PID, c: CID)
    requires
        fig.well_formed(),
        grown(trees, fig),
        r < fig.points.len(),
        c < fig.constraints.len(),
    ensures
        grown(survey_constraint(trees, fig, r, c), fig),
{
    let (constraint, pts) = fig.constraints[c as int];
    let emitted = spec_targets(constraint, pts, alone(pts, r));
    assert forall|k: int| 0 <= k < emitted.len() implies (#[trigger] emitted[k]).0 < fig.points.len()
        && emitted[k].0 != r by {
        Growth::lemma_targets_alone(fig, c, r, k);
    }
    assert forall|k: int, q: PID| 0 <= k < emitted.len() && #[trigger] emitted[k].1.binds(q) implies q
        == r by {
        Growth::lemma_targets_alone(fig, c, r, k);
    }
    assert forall|k: int| 0 <= k < emitted.len() implies yields(
        fig,
        c,
        (#[trigger] emitted[k]).0,
        emitted[k].1,
    ) by {
        lemma_yields(fig, c, alone(pts, r), k);
    }
    lemma_consider_all_grown(trees, fig, r, c, emitted);
}

/// Surveying constraints for a root keeps a forest grown.
proof fn lemma_survey_constraints_grown(trees: Seq<Growth>, fig: FigureView, r: PID, cids: Seq<CID>)
    requires
        fig.well_formed(),
        grown(trees, fig),
        r < fig.points.len(),
        forall|k: int| 0 <= k < cids.len() ==> cids[k] < fig.constraints.len(),
    ensures
        grown(survey_constraints(trees, fig, r, cids), fig),
    decreases cids.len(),
{
    if cids.len() > 0 {
        let init = cids.drop_last();
        assert forall|k: int| 0 <= k < init.len() implies init[k] < fig.constraints.len() by {
            assert(init[k] == cids[k]);
        }
        lemma_survey_constraints_grown(trees, fig, r, init);
        assert(cids.last() == cids[cids.len() - 1]);
        lemma_survey_constraint_grown(survey_constraints(trees, fig, r, init), fig, r, cids.last());
    }
}

/// However many roots were tried, the forest is grown.
proof fn lemma_survey_grown(fig: FigureView, roots: nat)
    requires
        fig.well_formed(),
        roots <= fig.points.len(),
    ensures
        grown(survey(fig, roots), fig),
    decreases roots,
{
    if roots > 0 {
        lemma_survey_grown(fig, (roots - 1) as nat);
        let r = (roots - 1) as PID;
        let cids = fig.points[r as int];
        assert forall|k: int| 0 <= k < cids.len() implies cids[k] < fig.constraints.len() by {
            assert(fig.points[r as int].contains(cids[k]));
            assert(fig.names(cids[k], r as int));
        }
        lemma_survey_constraints_grown(survey(fig, (roots - 1) as nat), fig, r, cids);
    }
}

/// Every tree of the forest of a figure is sound, holds operations that
/// the constraints of the figure yield, and can take nothing more; and a
/// tree that holds every point is the only one.
pub proof fn lemma_forest_grown(fig: FigureView)
    requires
        fig.well_formed(),
    ensures
        grown(forest(fig), fig),
{
    lemma_survey_grown(fig, fig.points.len());
}

/// The largest tree is no larger than the figure, and where the forest
/// has a tree, one of them is the largest.
proof fn lemma_largest(trees: Seq<Growth>, n: nat)
    requires
        forall|i: int| 0 <= i < trees.len() ==> (#[trigger] trees[i]).shaped() && trees[i].size() == n,
    ensures
        largest(trees) <= n,
        trees.len() > 0 ==> exists|i: int|
            0 <= i < trees.len() && (#[trigger] trees[i]).order.len() == largest(trees),
    decreases trees.len(),
{
    if trees.len() > 0 {
        let init = trees.drop_last();
        assert forall|i: int| 0 <= i < init.len() implies (#[trigger] init[i]).shaped() && init[i].size()
            == n by {
            assert(init[i] == trees[i]);
        }
        lemma_largest(init, n);
        let last = trees[trees.len() - 1];
        lemma_tree_bound(last);
        if last.order.len() > largest(init) {
            assert(trees[trees.len() - 1].order.len() == largest(trees));
        } else if init.len() > 0 {
            let i = choose|i: int| 0 <= i < init.len() && (#[trigger] init[i]).order.len() == largest(init);
            assert(trees[i].order.len() == largest(trees));
        } else {
            assert(trees[trees.len() - 1].order.len() == largest(trees));
        }
    }
}

/// Whether the order visits the point `p`.
pub open spec fn visits(order: OrderView, p: PID) -> bool {
    exists|i: int| 0 <= i < order.len() && (#[trigger] order[i]).0 == p
}

/// An order visits every point of the figure exactly once. Its first
/// point has no operation, and its second has exactly one, which
/// discretizes.
pub proof fn lemma_order_covers(fig: FigureView, order: OrderView)
    requires
        fig.well_formed(),
        spec_order(fig) == Ok::<OrderView, OrderError>(order),
    ensures
        order.len() == fig.points.len(),
        forall|p: PID| p < fig.points.len() ==> #[trigger] visits(order, p),
        forall|i: int, j: int| 0 <= i < j < order.len() ==> order[i].0 != order[j].0,
        order.len() >= 2,
        order[0].1.len() == 0,
        order[1].1.len() == 1,
        order[1].1[0].is_discretizing(),
{
    lemma_forest_grown(fig);
    let tree = forest(fig)[0];
    assert(tree.sound());
    assert forall|p: PID| p < fig.points.len() implies #[trigger] visits(order, p) by {
        lemma_full_tree(tree, p as int);
        assert(tree.order.contains(p));
        let i = choose|i: int| 0 <= i < tree.order.len() && tree.order[i] == p;
        assert(order[i].0 == p);
    }
    assert(tree.support[tree.orbiter() as int][0].is_discretizing());
}

/// Every operation of an order names only points that the order visits
/// before the point that the operation places.
pub proof fn lemma_order_places(fig: FigureView, order: OrderView, j: int, k: int, q: PID)
    requires
        fig.well_formed(),
        spec_order(fig) == Ok::<OrderView, OrderError>(order),
        0 <= j < order.len(),
        0 <= k < order[j].1.len(),
        order[j].1[k].binds(q),
    ensures
        exists|i: int| 0 <= i < j && (#[trigger] order[i]).0 == q,
{
    lemma_forest_grown(fig);
    let tree = forest(fig)[0];
    assert(tree.sound());
    let p = tree.order[j];
    let op = order[j].1[k];
    if k < tree.support[p as int].len() {
        assert(tree.places(tree.support[p as int][k], j));
    } else {
        assert(tree.places(tree.disamb[p as int][k - tree.support[p as int].len()], j));
    }
    assert(tree.earlier(q, j));
    let i = choose|i: int| 0 <= i < j && i < tree.order.len() && #[trigger] tree.order[i] == q;
    assert(order[i].0 == q);
}

/// Every point of an order after the second has two operations that
/// discretize, and after them only operations that do not.
pub proof fn lemma_order_support(fig: FigureView, order: OrderView, j: int)
    requires
        fig.well_formed(),
        spec_order(fig) == Ok::<OrderView, OrderError>(order),
        2 <= j < order.len(),
    ensures
        order[j].1.len() >= 2,
        forall|k: int| 0 <= k < order[j].1.len() ==> (#[trigger] order[j].1[k].is_discretizing() <==> k < 2),
{
    lemma_forest_grown(fig);
    let tree = forest(fig)[0];
    assert(tree.sound());
    let p = tree.order[j];
    assert(tree.order.contains(p));
    assert(tree.order[0] != tree.order[j]);
    assert(tree.order[1] != tree.order[j]);
    assert(tree.support[p as int].len() == 2);
    assert forall|k: int| 0 <= k < order[j].1.len() implies (#[trigger] order[j].1[k].is_discretizing()
        <==> k < 2) by {
        if k < 2 {
            assert(tree.support[p as int][k].is_discretizing());
        } else {
            assert(!tree.disamb[p as int][k - 2].is_discretizing());
        }
    }
}

/// Every operation of an order is one that a constraint declared on the
/// point it places yields for that point.
pub proof fn lemma_order_derived(fig: FigureView, order: OrderView, j: int, k: int)
    requires
        fig.well_formed(),
        spec_order(fig) == Ok::<OrderView, OrderError>(order),
        0 <= j < order.len(),
        0 <= k < order[j].1.len(),
    ensures
        exists|c: CID| fig.names(c, order[j].0 as int) && #[trigger] yields(fig, c, order[j].0, order[j].1[k]),
{
    lemma_forest_grown(fig);
    let tree = forest(fig)[0];
    assert(tree.sound() && tree.derived(fig));
    let p = tree.order[j];
    let op = order[j].1[k];
    if k < tree.support[p as int].len() {
        assert(tree.traced(fig, p, tree.support[p as int][k]));
    } else {
        assert(tree.traced(fig, p, tree.disamb[p as int][k - tree.support[p as int].len()]));
    }
    let c = choose|c: CID| tree.sources[p as int].contains(c) && #[trigger] yields(fig, c, p, op);
    lemma_yields_declared(fig, c, p, op);
    assert(order[j].0 == p);
    assert(fig.names(c, order[j].0 as int) && yields(fig, c, order[j].0, order[j].1[k]));
}

/// Where a figure has no order, the error gives the number of its points,
/// and the largest tree holds fewer, but for the figure without points.
pub proof fn lemma_order_incomplete(fig: FigureView, covered: usize, total: usize)
    requires
        fig.well_formed(),
        spec_order(fig) == Err::<OrderView, OrderError>(OrderError::OrderIncomplete { covered, total }),
    ensures
        total == fig.points.len(),
        covered == largest(forest(fig)),
        covered <= total,
        total > 0 ==> covered < total,
{
    lemma_forest_grown(fig);
    let trees = forest(fig);
    lemma_largest(trees, fig.points.len());
    if trees.len() > 0 && largest(trees) == fig.points.len() {
        let i = choose|i: int| 0 <= i < trees.len() && (#[trigger] trees[i]).order.len() == largest(trees);
        assert(trees.len() == 1);
    }
}

} // verus!