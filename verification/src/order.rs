//! Ordering: in which sequence the points of a figure can be placed, and
//! from which operations.
//!
//! A tree starts from a root, which will be pinned to the origin. Every
//! constraint declared on the root is targeted with the root alone known;
//! each point that a discretizing operation reaches this way can be the
//! orbiter, which that operation holds on a line or circle. Root and
//! orbiter count as known. From the orbiter on, each known point is
//! expanded in the order in which the points became known: every
//! constraint declared on it is targeted with what is known at that moment,
//! and the operations found are attached to their targets. A point takes at
//! most one operation from a constraint, becomes known with its second
//! discretizing operation, and takes no operation after that.
//!
//! Every point is tried as root with each of its orbiters, but for the
//! pairs that a tree grown before holds already. A tree that is accepted
//! replaces the trees whose points it holds. The figure has an order where
//! a single tree is left and holds every point.

use vstd::prelude::*;
use crate::constraints::TargetedConstraint;
use crate::figure::{Figure, FigureView, CID, PID};
use crate::targeting::{lemma_targets_directed, spec_targets, targets, Target};
use crate::util::locate;

verus! {

/// A tree as it grows.
pub struct Growth {
    /// For each point, whether it is known.
    pub known: Seq<bool>,
    /// For each point, the constraints that have given it an operation.
    pub sources: Seq<Seq<CID>>,
    /// For each point, its discretizing operations.
    pub support: Seq<Seq<TargetedConstraint>>,
    /// For each point, its other operations, which tell candidates apart.
    pub disamb: Seq<Seq<TargetedConstraint>>,
    /// The known points in the order in which they became known.
    pub order: Seq<PID>,
}

/// How many entries of `flags` are set.
pub open spec fn count_true(flags: Seq<bool>) -> nat
    decreases flags.len(),
{
    if flags.len() == 0 {
        0
    } else if flags.last() {
        count_true(flags.drop_last()) + 1
    } else {
        count_true(flags.drop_last())
    }
}

/// No more entries are set than there are.
pub proof fn lemma_count_true_bound(flags: Seq<bool>)
    ensures
        count_true(flags) <= flags.len(),
    decreases flags.len(),
{
    if flags.len() > 0 {
        lemma_count_true_bound(flags.drop_last());
    }
}

/// Setting an entry that was not set raises the count by one.
pub proof fn lemma_count_true_set(flags: Seq<bool>, i: int)
    requires
        0 <= i < flags.len(),
        !flags[i],
    ensures
        count_true(flags.update(i, true)) == count_true(flags) + 1,
    decreases flags.len(),
{
    let set = flags.update(i, true);
    if i == flags.len() - 1 {
        assert(set.drop_last() =~= flags.drop_last());
    } else {
        lemma_count_true_set(flags.drop_last(), i);
        assert(set.drop_last() =~= flags.drop_last().update(i, true));
    }
}

/// Where every entry is counted, every entry is set.
pub proof fn lemma_count_true_full(flags: Seq<bool>, i: int)
    requires
        count_true(flags) == flags.len(),
        0 <= i < flags.len(),
    ensures
        flags[i],
    decreases flags.len(),
{
    lemma_count_true_bound(flags.drop_last());
    if i < flags.len() - 1 {
        lemma_count_true_full(flags.drop_last(), i);
    }
}

impl Growth {
    /// The tree of which only the root `r` and the orbiter `o` are known,
    /// the orbiter held by the operation `op` that constraint `c` gave it.
    pub open spec fn seed(n: nat, r: PID, o: PID, c: CID, op: TargetedConstraint) -> Growth {
        Growth {
            known: Seq::new(n, |p: int| p == r || p == o),
            sources: Seq::new(
                n,
                |p: int|
                    if p == o {
                        seq![c]
                    } else {
                        Seq::empty()
                    },
            ),
            support: Seq::new(
                n,
                |p: int|
                    if p == o {
                        seq![op]
                    } else {
                        Seq::empty()
                    },
            ),
            disamb: Seq::new(n, |p: int| Seq::empty()),
            order: seq![r, o],
        }
    }

    /// The number of points of the figure.
    pub open spec fn size(self) -> nat {
        self.known.len()
    }

    /// Every point has its entries, the order holds points of the figure,
    /// and as many as are marked known.
    pub open spec fn shaped(self) -> bool {
        &&& self.sources.len() == self.size()
        &&& self.support.len() == self.size()
        &&& self.disamb.len() == self.size()
        &&& forall|i: int| 0 <= i < self.order.len() ==> self.order[i] < self.size()
        &&& self.order.len() == count_true(self.known)
    }

    /// What is known of each point of `pts`.
    pub open spec fn knowledge(self, pts: Seq<PID>) -> Seq<bool> {
        Seq::new(pts.len(), |i: int| self.known[pts[i] as int])
    }

    /// The state after constraint `c` has offered the operation `op` to the
    /// point `t`. A known point takes none, and no point takes a second one
    /// from the same constraint. With its second discretizing operation the
    /// point becomes known.
    pub open spec fn attach(self, t: PID, c: CID, op: TargetedConstraint) -> Growth {
        let i = t as int;
        if self.known[i] || self.sources[i].contains(c) {
            self
        } else if !op.is_discretizing() {
            Growth {
                sources: self.sources.update(i, self.sources[i].push(c)),
                disamb: self.disamb.update(i, self.disamb[i].push(op)),
                ..self
            }
        } else if self.support[i].len() + 1 == 2 {
            Growth {
                known: self.known.update(i, true),
                sources: self.sources.update(i, self.sources[i].push(c)),
                support: self.support.update(i, self.support[i].push(op)),
                order: self.order.push(t),
                ..self
            }
        } else {
            Growth {
                sources: self.sources.update(i, self.sources[i].push(c)),
                support: self.support.update(i, self.support[i].push(op)),
                ..self
            }
        }
    }

    /// The state after constraint `c` has offered each of `emitted` in turn.
    pub open spec fn attach_all(self, c: CID, emitted: Seq<Target>) -> Growth
        decreases emitted.len(),
    {
        if emitted.len() == 0 {
            self
        } else {
            self.attach_all(c, emitted.drop_last()).attach(emitted.last().0, c, emitted.last().1)
        }
    }

    /// The state after constraint `c` of the figure has been targeted with
    /// what is known, and has offered what it yields.
    pub open spec fn visit(self, fig: FigureView, c: CID) -> Growth {
        let (constraint, pts) = fig.constraints[c as int];
        self.attach_all(c, spec_targets(constraint, pts, self.knowledge(pts)))
    }

    /// The state after constraint `c` of the figure has been targeted as if
    /// only the point `r` were known, and has offered what it yields.
    pub open spec fn visit_alone(self, fig: FigureView, c: CID, r: PID) -> Growth {
        let (constraint, pts) = fig.constraints[c as int];
        self.attach_all(c, spec_targets(constraint, pts, alone(pts, r)))
    }

    /// The state after the constraints `cids` have been targeted in turn as
    /// if only the point `r` were known.
    pub open spec fn visit_all_alone(self, fig: FigureView, cids: Seq<CID>, r: PID) -> Growth
        decreases cids.len(),
    {
        if cids.len() == 0 {
            self
        } else {
            self.visit_all_alone(fig, cids.drop_last(), r).visit_alone(fig, cids.last(), r)
        }
    }

    /// The state after the constraints `cids` have been visited in turn.
    pub open spec fn visit_all(self, fig: FigureView, cids: Seq<CID>) -> Growth
        decreases cids.len(),
    {
        if cids.len() == 0 {
            self
        } else {
            self.visit_all(fig, cids.drop_last()).visit(fig, cids.last())
        }
    }

    /// The state after the point `p` has been expanded: every constraint
    /// declared on it has been visited.
    pub open spec fn expand(self, fig: FigureView, p: PID) -> Growth {
        self.visit_all(fig, fig.points[p as int])
    }

    /// The state after every point of the order from position `head` on has
    /// been expanded, those that become known on the way included.
    pub open spec fn grow(self, fig: FigureView, head: nat) -> Growth
        decreases fig.points.len() - head,
    {
        if head >= self.order.len() || head >= fig.points.len() {
            self
        } else {
            self.expand(fig, self.order[head as int]).grow(fig, head + 1)
        }
    }

    /// The tree of the figure that grows from the root `r` and the orbiter
    /// `o`, which the operation `op` of constraint `c` holds. The points
    /// that the root alone reaches take their operations from it first;
    /// then the orbiter is expanded, and after it every point that becomes
    /// known.
    pub open spec fn tree(
        fig: FigureView,
        r: PID,
        o: PID,
        c: CID,
        op: TargetedConstraint,
    ) -> Growth {
        Growth::seed(fig.points.len(), r, o, c, op).visit_all_alone(
            fig,
            fig.points[r as int],
            r,
        ).grow(fig, 1)
    }
}

/// Why a figure has no order.
#[derive(Clone, Copy, Debug, PartialEq, Eq, Structural)]
pub enum OrderError {
    /// No single tree holds every point: the largest holds `covered` of the
    /// `total` points.
    OrderIncomplete { covered: usize, total: usize },
}

/// An order: the points in the sequence in which to place them, each with
/// the operations that place it.
pub type OrderView = Seq<(PID, Seq<TargetedConstraint>)>;

impl Growth {
    /// Whether every point known in this tree is known in `other`.
    pub open spec fn within(self, other: Growth) -> bool {
        forall|p: int| 0 <= p < self.known.len() && self.known[p] ==> other.known[p]
    }

    /// The operations of the point `p`: those that discretize first.
    pub open spec fn operations(self, p: PID) -> Seq<TargetedConstraint> {
        self.support[p as int] + self.disamb[p as int]
    }

    /// The order that the tree gives.
    pub open spec fn emit(self) -> OrderView {
        Seq::new(self.order.len(), |i: int| (self.order[i], self.operations(self.order[i])))
    }
}

/// Whether some tree of the forest knows both `r` and `o`.
pub open spec fn rejects(forest: Seq<Growth>, r: PID, o: PID) -> bool {
    exists|i: int|
        0 <= i < forest.len() && (#[trigger] forest[i]).known[r as int] && forest[i].known[o as int]
}

/// The trees of the forest that are not within `tree`.
pub open spec fn prune(forest: Seq<Growth>, tree: Growth) -> Seq<Growth>
    decreases forest.len(),
{
    if forest.len() == 0 {
        Seq::empty()
    } else if forest.last().within(tree) {
        prune(forest.drop_last(), tree)
    } else {
        prune(forest.drop_last(), tree).push(forest.last())
    }
}

/// The forest after `tree` has been accepted: the trees within it leave.
pub open spec fn accept(forest: Seq<Growth>, tree: Growth) -> Seq<Growth> {
    prune(forest, tree).push(tree)
}

/// The forest after the root `r` was tried with the orbiter that
/// constraint `c` offers in `target`. An operation that does not
/// discretize holds no orbiter, and no tree is grown where a tree of the
/// forest knows both points already.
pub open spec fn consider(forest: Seq<Growth>, fig: FigureView, r: PID, c: CID, target: Target)
    -> Seq<Growth> {
    if !target.1.is_discretizing() || rejects(forest, r, target.0) {
        forest
    } else {
        accept(forest, Growth::tree(fig, r, target.0, c, target.1))
    }
}

/// The forest after each of `emitted` was considered in turn.
pub open spec fn consider_all(
    forest: Seq<Growth>,
    fig: FigureView,
    r: PID,
    c: CID,
    emitted: Seq<Target>,
) -> Seq<Growth>
    decreases emitted.len(),
{
    if emitted.len() == 0 {
        forest
    } else {
        consider(consider_all(forest, fig, r, c, emitted.drop_last()), fig, r, c, emitted.last())
    }
}

/// What is known of each point of `pts` where only `r` is known.
pub open spec fn alone(pts: Seq<PID>, r: PID) -> Seq<bool> {
    Seq::new(pts.len(), |i: int| pts[i] == r)
}

/// The forest after the orbiters that constraint `c` offers the root `r`
/// were considered.
pub open spec fn survey_constraint(forest: Seq<Growth>, fig: FigureView, r: PID, c: CID) -> Seq<
    Growth,
> {
    let (constraint, pts) = fig.constraints[c as int];
    consider_all(forest, fig, r, c, spec_targets(constraint, pts, alone(pts, r)))
}

/// The forest after the constraints `cids` were surveyed for the root `r`.
pub open spec fn survey_constraints(forest: Seq<Growth>, fig: FigureView, r: PID, cids: Seq<CID>)
    -> Seq<Growth>
    decreases cids.len(),
{
    if cids.len() == 0 {
        forest
    } else {
        survey_constraint(survey_constraints(forest, fig, r, cids.drop_last()), fig, r, cids.last())
    }
}

/// The forest after the points below `roots` were tried as roots, each
/// with every orbiter that a constraint declared on it offers.
pub open spec fn survey(fig: FigureView, roots: nat) -> Seq<Growth>
    decreases roots,
{
    if roots == 0 {
        Seq::empty()
    } else {
        let r = (roots - 1) as PID;
        survey_constraints(survey(fig, (roots - 1) as nat), fig, r, fig.points[r as int])
    }
}

/// The forest of the figure: every point tried as root.
pub open spec fn forest(fig: FigureView) -> Seq<Growth> {
    survey(fig, fig.points.len())
}

/// The number of points of the largest tree.
pub open spec fn largest(forest: Seq<Growth>) -> nat
    decreases forest.len(),
{
    if forest.len() == 0 {
        0
    } else if forest.last().order.len() > largest(forest.drop_last()) {
        forest.last().order.len()
    } else {
        largest(forest.drop_last())
    }
}

/// The order of the figure: that of the one tree of its forest, where that
/// tree holds every point.
pub open spec fn spec_order(fig: FigureView) -> Result<OrderView, OrderError> {
    let trees = forest(fig);
    if trees.len() == 1 && trees[0].order.len() == fig.points.len() {
        Ok(trees[0].emit())
    } else {
        Err(
            OrderError::OrderIncomplete {
                covered: largest(trees) as usize,
                total: fig.points.len() as usize,
            },
        )
    }
}

/// What an order in memory holds.
pub open spec fn order_view(order: Vec<(PID, Vec<TargetedConstraint>)>) -> OrderView {
    Seq::new(order@.len(), |i: int| (order@[i].0, order@[i].1@))
}

/// The views of the rows of `table`.
spec fn rows<T>(table: Vec<Vec<T>>) -> Seq<Seq<T>> {
    Seq::new(table@.len(), |i: int| table@[i]@)
}

/// Appends `x` to row `i` of `table`.
fn push_to_row<T>(table: &mut Vec<Vec<T>>, i: usize, x: T)
    requires
        i < old(table)@.len(),
    ensures
        final(table)@.len() == old(table)@.len(),
        final(table)@[i as int]@ == old(table)@[i as int]@.push(x),
        rows(*final(table)) == rows(*old(table)).update(
            i as int,
            rows(*old(table))[i as int].push(x),
        ),
{
    table[i].push(x);
    assert(rows(*table) =~= rows(*old(table)).update(
        i as int,
        rows(*old(table))[i as int].push(x),
    ));
}

/// A table of `n` empty rows.
fn empty_rows<T>(n: usize) -> (table: Vec<Vec<T>>)
    ensures
        table@.len() == n,
        rows(table) == Seq::new(n as nat, |i: int| Seq::<T>::empty()),
{
    let mut table: Vec<Vec<T>> = Vec::new();
    let mut i: usize = 0;
    while i < n
        invariant
            i <= n,
            table@.len() == i,
            rows(table) == Seq::new(i as nat, |i: int| Seq::<T>::empty()),
        decreases n - i,
    {
        let ghost before = rows(table);
        table.push(Vec::new());
        i += 1;
        assert forall|j: int| 0 <= j < i implies rows(table)[j] =~= Seq::<T>::empty() by {
            if j < i - 1 {
                assert(rows(table)[j] == before[j]);
            }
        }
        assert(rows(table) =~= Seq::new(i as nat, |i: int| Seq::<T>::empty()));
    }
    table
}

/// A tree as it grows, in memory.
struct Tree {
    known: Vec<bool>,
    sources: Vec<Vec<CID>>,
    support: Vec<Vec<TargetedConstraint>>,
    disamb: Vec<Vec<TargetedConstraint>>,
    order: Vec<PID>,
}

impl View for Tree {
    type V = Growth;

    closed spec fn view(&self) -> Growth {
        Growth {
            known: self.known@,
            sources: rows(self.sources),
            support: rows(self.support),
            disamb: rows(self.disamb),
            order: self.order@,
        }
    }
}

impl Tree {
    /// The tree of which only the root `r` and the orbiter `o` are known.
    fn seed(n: usize, r: PID, o: PID, c: CID, op: TargetedConstraint) -> (tree: Tree)
        requires
            r < n,
            o < n,
            r != o,
        ensures
            tree@ == Growth::seed(n as nat, r, o, c, op),
            tree@.shaped(),
    {
        let mut known: Vec<bool> = Vec::new();
        let mut i: usize = 0;
        while i < n
            invariant
                i <= n,
                r != o,
                known@ == Seq::new(i as nat, |p: int| p == r || p == o),
                count_true(known@) == (if r < i { 1nat } else { 0 }) + (if o < i { 1nat } else { 0 }),
            decreases n - i,
        {
            let ghost before = known@;
            known.push(i == r || i == o);
            i += 1;
            assert(known@ =~= Seq::new(i as nat, |p: int| p == r || p == o));
            assert(known@.drop_last() =~= before);
        }
        let mut sources: Vec<Vec<CID>> = empty_rows(n);
        let mut support: Vec<Vec<TargetedConstraint>> = empty_rows(n);
        let disamb: Vec<Vec<TargetedConstraint>> = empty_rows(n);
        push_to_row(&mut sources, o, c);
        push_to_row(&mut support, o, op);
        let mut order: Vec<PID> = Vec::new();
        order.push(r);
        order.push(o);
        let tree = Tree { known, sources, support, disamb, order };
        proof {
            let want = Growth::seed(n as nat, r, o, c, op);
            assert(tree@.known =~= want.known);
            assert(tree@.sources =~~= want.sources);
            assert(tree@.support =~~= want.support);
            assert(tree@.disamb =~~= want.disamb);
            assert(tree@.order =~= want.order);
        }
        tree
    }

    /// What is known of each point of `pts`.
    fn knowledge(&self, pts: &[PID]) -> (mask: Vec<bool>)
        requires
            forall|i: int| 0 <= i < pts@.len() ==> pts@[i] < self@.known.len(),
        ensures
            mask@ == self@.knowledge(pts@),
    {
        let mut mask: Vec<bool> = Vec::new();
        let mut i: usize = 0;
        while i < pts.len()
            invariant
                i <= pts@.len(),
                forall|i: int| 0 <= i < pts@.len() ==> pts@[i] < self@.known.len(),
                mask@ == self@.knowledge(pts@).take(i as int),
            decreases pts@.len() - i,
        {
            mask.push(self.known[pts[i]]);
            i += 1;
            assert(mask@ =~= self@.knowledge(pts@).take(i as int));
        }
        assert(mask@ =~= self@.knowledge(pts@));
        mask
    }

    /// Offers the operation `op`, which constraint `c` yields, to the point `t`.
    fn attach(&mut self, t: PID, c: CID, op: TargetedConstraint)
        requires
            old(self)@.shaped(),
            t < old(self)@.size(),
        ensures
            final(self)@ == old(self)@.attach(t, c, op),
            final(self)@.shaped(),
            final(self)@.size() == old(self)@.size(),
            old(self)@.order.len() <= final(self)@.order.len(),
    {
        if self.known[t] {
            return ;
        }
        let seen = locate(self.sources[t].as_slice(), &c);
        if seen.is_some() {
            return ;
        }
        assert(!self@.sources[t as int].contains(c));
        push_to_row(&mut self.sources, t, c);
        if !op.discretizing() {
            push_to_row(&mut self.disamb, t, op);
        } else {
            push_to_row(&mut self.support, t, op);
            if self.support[t].len() == 2 {
                self.known.set(t, true);
                self.order.push(t);
                proof {
                    lemma_count_true_set(old(self)@.known, t as int);
                }
            }
        }
        assert(self@.sources =~= old(self)@.attach(t, c, op).sources);
        assert(self@.support =~= old(self)@.attach(t, c, op).support);
        assert(self@.disamb =~= old(self)@.attach(t, c, op).disamb);
    }
    /// Targets constraint `c` of the figure with the knowledge `mask`, and
    /// offers what it yields.
    fn offer(&mut self, fig: &Figure, c: CID, mask: &Vec<bool>)
        requires
            old(self)@.shaped(),
            fig@.well_formed(),
            old(self)@.size() == fig@.points.len(),
            c < fig@.constraints.len(),
        ensures
            final(self)@ == old(self)@.attach_all(
                c,
                spec_targets(fig@.constraints[c as int].0, fig@.constraints[c as int].1, mask@),
            ),
            final(self)@.shaped(),
            final(self)@.size() == old(self)@.size(),
            old(self)@.order.len() <= final(self)@.order.len(),
    {
        let pts = fig.points_of(c);
        let emitted = targets(fig.constraint(c), pts, mask.as_slice());
        proof {
            assert forall|j: int| 0 <= j < emitted@.len() implies (#[trigger] emitted@[j]).0
                < fig@.points.len() by {
                lemma_targets_directed(fig@.constraints[c as int].0, pts@, mask@, j);
            }
        }
        let mut k: usize = 0;
        while k < emitted.len()
            invariant
                k <= emitted@.len(),
                self@.shaped(),
                self@.size() == old(self)@.size(),
                self@.size() == fig@.points.len(),
                self@ == old(self)@.attach_all(c, emitted@.take(k as int)),
                old(self)@.order.len() <= self@.order.len(),
                forall|j: int| 0 <= j < emitted@.len() ==> (#[trigger] emitted@[j]).0 < fig@.points.len(),
            decreases emitted@.len() - k,
        {
            let (t, op) = emitted[k];
            self.attach(t, c, op);
            k += 1;
            proof {
                assert(emitted@.take(k as int).drop_last() =~= emitted@.take(k - 1));
            }
        }
        assert(emitted@.take(k as int) =~= emitted@);
    }

    /// Targets constraint `c` of the figure with what is known, and offers
    /// what it yields.
    fn visit(&mut self, fig: &Figure, c: CID)
        requires
            old(self)@.shaped(),
            fig@.well_formed(),
            old(self)@.size() == fig@.points.len(),
            c < fig@.constraints.len(),
        ensures
            final(self)@ == old(self)@.visit(fig@, c),
            final(self)@.shaped(),
            final(self)@.size() == old(self)@.size(),
            old(self)@.order.len() <= final(self)@.order.len(),
    {
        let mask = self.knowledge(fig.points_of(c));
        self.offer(fig, c, &mask);
    }

    /// Targets every constraint declared on the point `r` as if only `r`
    /// were known, and offers what they yield.
    fn visit_all_alone(&mut self, fig: &Figure, r: PID)
        requires
            old(self)@.shaped(),
            fig@.well_formed(),
            old(self)@.size() == fig@.points.len(),
            r < fig@.points.len(),
        ensures
            final(self)@ == old(self)@.visit_all_alone(fig@, fig@.points[r as int], r),
            final(self)@.shaped(),
            final(self)@.size() == old(self)@.size(),
            old(self)@.order.len() <= final(self)@.order.len(),
    {
        let cids = fig.constraints_of(r);
        let mut k: usize = 0;
        while k < cids.len()
            invariant
                k <= cids@.len(),
                cids@ == fig@.points[r as int],
                r < fig@.points.len(),
                fig@.well_formed(),
                self@.shaped(),
                self@.size() == old(self)@.size(),
                self@.size() == fig@.points.len(),
                self@ == old(self)@.visit_all_alone(fig@, cids@.take(k as int), r),
                old(self)@.order.len() <= self@.order.len(),
            decreases cids@.len() - k,
        {
            let c = cids[k];
            proof {
                assert(fig@.points[r as int].contains(c));
                assert(fig@.names(c, r as int));
            }
            let mask = alone_mask(fig.points_of(c), r);
            self.offer(fig, c, &mask);
            k += 1;
            proof {
                assert(cids@.take(k as int).drop_last() =~= cids@.take(k - 1));
            }
        }
        assert(cids@.take(k as int) =~= cids@);
    }

    /// Expands the point `p`: visits every constraint declared on it.
    fn expand(&mut self, fig: &Figure, p: PID)
        requires
            old(self)@.shaped(),
            fig@.well_formed(),
            old(self)@.size() == fig@.points.len(),
            p < fig@.points.len(),
        ensures
            final(self)@ == old(self)@.expand(fig@, p),
            final(self)@.shaped(),
            final(self)@.size() == old(self)@.size(),
            old(self)@.order.len() <= final(self)@.order.len(),
    {
        let cids = fig.constraints_of(p);
        let mut k: usize = 0;
        while k < cids.len()
            invariant
                k <= cids@.len(),
                cids@ == fig@.points[p as int],
                p < fig@.points.len(),
                fig@.well_formed(),
                self@.shaped(),
                self@.size() == old(self)@.size(),
                self@.size() == fig@.points.len(),
                self@ == old(self)@.visit_all(fig@, cids@.take(k as int)),
                old(self)@.order.len() <= self@.order.len(),
            decreases cids@.len() - k,
        {
            let c = cids[k];
            proof {
                assert(fig@.points[p as int].contains(c));
                assert(fig@.names(c, p as int));
            }
            self.visit(fig, c);
            k += 1;
            proof {
                assert(cids@.take(k as int).drop_last() =~= cids@.take(k - 1));
            }
        }
        assert(cids@.take(k as int) =~= cids@);
    }

    /// Expands every point of the order after the root in turn, those that
    /// become known on the way included.
    fn grow(&mut self, fig: &Figure)
        requires
            old(self)@.shaped(),
            fig@.well_formed(),
            old(self)@.size() == fig@.points.len(),
            old(self)@.order.len() >= 1,
        ensures
            final(self)@ == old(self)@.grow(fig@, 1),
            final(self)@.shaped(),
            final(self)@.size() == old(self)@.size(),
    {
        let mut head: usize = 1;
        while head < self.order.len()
            invariant
                head <= self@.order.len(),
                fig@.well_formed(),
                self@.shaped(),
                self@.size() == old(self)@.size(),
                self@.size() == fig@.points.len(),
                self@.grow(fig@, head as nat) == old(self)@.grow(fig@, 1),
            decreases fig@.points.len() - head,
        {
            proof {
                lemma_count_true_bound(self@.known);
            }
            let p = self.order[head];
            self.expand(fig, p);
            head += 1;
        }
    }
    /// Whether every point known in this tree is known in `other`.
    fn within(&self, other: &Tree) -> (inside: bool)
        requires
            self@.size() == other@.size(),
        ensures
            inside == self@.within(other@),
    {
        let mut p: usize = 0;
        while p < self.known.len()
            invariant
                p <= self@.known.len(),
                self@.size() == other@.size(),
                forall|q: int| 0 <= q < p && self@.known[q] ==> other@.known[q],
            decreases self@.known.len() - p,
        {
            if self.known[p] && !other.known[p] {
                return false;
            }
            p += 1;
        }
        true
    }

    /// The order that the tree gives.
    fn emit(&self) -> (order: Vec<(PID, Vec<TargetedConstraint>)>)
        requires
            self@.shaped(),
        ensures
            order_view(order) == self@.emit(),
    {
        let mut order: Vec<(PID, Vec<TargetedConstraint>)> = Vec::new();
        let mut i: usize = 0;
        while i < self.order.len()
            invariant
                i <= self@.order.len(),
                self@.shaped(),
                order@.len() == i,
                order_view(order) == self@.emit().take(i as int),
            decreases self@.order.len() - i,
        {
            let p = self.order[i];
            let mut ops: Vec<TargetedConstraint> = Vec::new();
            let mut k: usize = 0;
            while k < self.support[p].len()
                invariant
                    p < self@.size(),
                    self@.shaped(),
                    k <= self@.support[p as int].len(),
                    ops@ == self@.support[p as int].take(k as int),
                decreases self@.support[p as int].len() - k,
            {
                ops.push(self.support[p][k]);
                k += 1;
                assert(ops@ =~= self@.support[p as int].take(k as int));
            }
            assert(ops@ =~= self@.support[p as int]);
            let mut k: usize = 0;
            while k < self.disamb[p].len()
                invariant
                    p < self@.size(),
                    self@.shaped(),
                    k <= self@.disamb[p as int].len(),
                    ops@ == self@.support[p as int] + self@.disamb[p as int].take(k as int),
                decreases self@.disamb[p as int].len() - k,
            {
                ops.push(self.disamb[p][k]);
                k += 1;
                assert(ops@ =~= self@.support[p as int] + self@.disamb[p as int].take(k as int));
            }
            assert(ops@ =~= self@.operations(p));
            let ghost before = order_view(order);
            order.push((p, ops));
            i += 1;
            proof {
                let now = order_view(order);
                let want = self@.emit().take(i as int);
                assert(now.len() == want.len());
                assert forall|j: int| 0 <= j < now.len() implies now[j] == want[j] by {
                    if j < i - 1 {
                        assert(now[j] == before[j]);
                    }
                }
                assert(now =~= want);
            }
        }
        assert(self@.emit().take(i as int) =~= self@.emit());
        order
    }
}

/// What is known of each point of `pts` where only `r` is known.
fn alone_mask(pts: &[PID], r: PID) -> (mask: Vec<bool>)
    ensures
        mask@ == alone(pts@, r),
{
    let mut mask: Vec<bool> = Vec::new();
    let mut i: usize = 0;
    while i < pts.len()
        invariant
            i <= pts@.len(),
            mask@ == alone(pts@, r).take(i as int),
        decreases pts@.len() - i,
    {
        mask.push(pts[i] == r);
        i += 1;
        assert(mask@ =~= alone(pts@, r).take(i as int));
    }
    assert(mask@ =~= alone(pts@, r));
    mask
}

/// What a forest in memory holds.
spec fn trees(forest: Vec<Tree>) -> Seq<Growth> {
    Seq::new(forest@.len(), |i: int| forest@[i]@)
}

/// Whether every tree of the forest is shaped and of `n` points.
spec fn uniform(forest: Seq<Growth>, n: nat) -> bool {
    forall|i: int| 0 <= i < forest.len() ==> (#[trigger] forest[i]).shaped() && forest[i].size() == n
}

/// Whether some tree of the forest knows both `r` and `o`.
fn is_rejected(forest: &Vec<Tree>, r: PID, o: PID) -> (found: bool)
    requires
        forall|i: int|
            0 <= i < forest@.len() ==> r < (#[trigger] forest@[i])@.size() && o < forest@[i]@.size(),
    ensures
        found == rejects(trees(*forest), r, o),
{
    let mut i: usize = 0;
    while i < forest.len()
        invariant
            i <= forest@.len(),
            forall|i: int|
                0 <= i < forest@.len() ==> r < (#[trigger] forest@[i])@.size() && o
                    < forest@[i]@.size(),
            forall|j: int|
                0 <= j < i ==> !((#[trigger] trees(*forest)[j]).known[r as int] && trees(
                    *forest,
                )[j].known[o as int]),
        decreases forest@.len() - i,
    {
        if forest[i].known[r] && forest[i].known[o] {
            assert(trees(*forest)[i as int].known[r as int]);
            return true;
        }
        i += 1;
    }
    false
}

/// Accepts `tree` into the forest: the trees within it leave.
fn accept_tree(forest: &mut Vec<Tree>, tree: Tree)
    requires
        forall|i: int| 0 <= i < old(forest)@.len() ==> (#[trigger] old(forest)@[i])@.size() == tree@.size(),
    ensures
        trees(*final(forest)) == accept(trees(*old(forest)), tree@),
{
    let ghost was = trees(*forest);
    let ghost mut done: int = 0;
    let mut i: usize = 0;
    while i < forest.len()
        invariant
            0 <= done <= was.len(),
            i <= forest@.len(),
            i == prune(was.take(done), tree@).len(),
            forest@.len() - i == was.len() - done,
            trees(*forest) == prune(was.take(done), tree@) + was.skip(done),
            forall|j: int| 0 <= j < was.len() ==> (#[trigger] was[j]).size() == tree@.size(),
        decreases was.len() - done,
    {
        let ghost before = trees(*forest);
        assert(before[i as int] == was[done]);
        assert(was.take(done + 1).drop_last() =~= was.take(done));
        if forest[i].within(&tree) {
            forest.remove(i);
            assert(trees(*forest) =~= before.remove(i as int));
            assert(trees(*forest) =~= prune(was.take(done + 1), tree@) + was.skip(done + 1));
        } else {
            i += 1;
            assert(trees(*forest) =~= prune(was.take(done + 1), tree@) + was.skip(done + 1));
        }
        proof {
            done = done + 1;
        }
    }
    assert(was.take(done) =~= was);
    let ghost pruned = trees(*forest);
    forest.push(tree);
    assert(trees(*forest) =~= pruned.push(tree@));
}

/// The number of points of the largest tree.
fn largest_tree(forest: &Vec<Tree>) -> (size: usize)
    ensures
        size == largest(trees(*forest)),
{
    let mut size: usize = 0;
    let mut i: usize = 0;
    while i < forest.len()
        invariant
            i <= forest@.len(),
            size == largest(trees(*forest).take(i as int)),
        decreases forest@.len() - i,
    {
        if forest[i].order.len() > size {
            size = forest[i].order.len();
        }
        i += 1;
        assert(trees(*forest).take(i as int).drop_last() =~= trees(*forest).take(i - 1));
    }
    assert(trees(*forest).take(i as int) =~= trees(*forest));
    size
}

/// Tries the root `r` with every orbiter that constraint `c` offers it.
fn survey_constraint_for(forest: &mut Vec<Tree>, fig: &Figure, r: PID, c: CID)
    requires
        fig@.well_formed(),
        r < fig@.points.len(),
        c < fig@.constraints.len(),
        uniform(trees(*old(forest)), fig@.points.len()),
    ensures
        trees(*final(forest)) == survey_constraint(trees(*old(forest)), fig@, r, c),
        uniform(trees(*final(forest)), fig@.points.len()),
{
    let n = fig.point_count();
    let pts = fig.points_of(c);
    let mask = alone_mask(pts, r);
    let emitted = targets(fig.constraint(c), pts, mask.as_slice());
    proof {
        assert forall|j: int| 0 <= j < emitted@.len() implies (#[trigger] emitted@[j]).0
            < fig@.points.len() && emitted@[j].0 != r by {
            lemma_targets_directed(fig@.constraints[c as int].0, pts@, mask@, j);
        }
    }
    let mut k: usize = 0;
    while k < emitted.len()
        invariant
            k <= emitted@.len(),
            n == fig@.points.len(),
            fig@.well_formed(),
            r < n,
            uniform(trees(*forest), n as nat),
            trees(*forest) == consider_all(
                trees(*old(forest)),
                fig@,
                r,
                c,
                emitted@.take(k as int),
            ),
            forall|j: int|
                0 <= j < emitted@.len() ==> (#[trigger] emitted@[j]).0 < n && emitted@[j].0 != r,
        decreases emitted@.len() - k,
    {
        let (o, op) = emitted[k];
        proof {
            assert(emitted@.take(k + 1).drop_last() =~= emitted@.take(k as int));
            assert forall|i: int| 0 <= i < forest@.len() implies r < (#[trigger] forest@[i])@.size()
                && o < forest@[i]@.size() && forest@[i]@.size() == n by {
                assert(trees(*forest)[i].shaped());
            }
        }
        if op.discretizing() && !is_rejected(forest, r, o) {
            let mut tree = Tree::seed(n, r, o, c, op);
            tree.visit_all_alone(fig, r);
            tree.grow(fig);
            let ghost before = trees(*forest);
            accept_tree(forest, tree);
            proof {
                lemma_prune_keeps(before, tree@, n as nat);
            }
        }
        k += 1;
    }
    assert(emitted@.take(k as int) =~= emitted@);
}

/// Tries the root `r` with every orbiter that a constraint declared on it
/// offers.
fn survey_root(forest: &mut Vec<Tree>, fig: &Figure, r: PID)
    requires
        fig@.well_formed(),
        r < fig@.points.len(),
        uniform(trees(*old(forest)), fig@.points.len()),
    ensures
        trees(*final(forest)) == survey_constraints(
            trees(*old(forest)),
            fig@,
            r,
            fig@.points[r as int],
        ),
        uniform(trees(*final(forest)), fig@.points.len()),
{
    let cids = fig.constraints_of(r);
    let mut k: usize = 0;
    while k < cids.len()
        invariant
            k <= cids@.len(),
            cids@ == fig@.points[r as int],
            fig@.well_formed(),
            r < fig@.points.len(),
            uniform(trees(*forest), fig@.points.len()),
            trees(*forest) == survey_constraints(
                trees(*old(forest)),
                fig@,
                r,
                cids@.take(k as int),
            ),
        decreases cids@.len() - k,
    {
        let c = cids[k];
        proof {
            assert(fig@.points[r as int].contains(c));
            assert(fig@.names(c, r as int));
            assert(cids@.take(k + 1).drop_last() =~= cids@.take(k as int));
        }
        survey_constraint_for(forest, fig, r, c);
        k += 1;
    }
    assert(cids@.take(k as int) =~= cids@);
}

/// Orders the figure: finds the sequence in which its points can be
/// placed, each with the operations that place it from points placed
/// before. Every point is tried as root, with every orbiter that a
/// constraint offers it; the figure has an order where the trees grown
/// come down to a single one that holds every point.
pub fn order_bfs(figure: &Figure) -> (result: Result<
    Vec<(PID, Vec<TargetedConstraint>)>,
    OrderError,
>)
    ensures
        figure@.well_formed(),
        match result {
            Ok(order) => spec_order(figure@) == Ok::<OrderView, OrderError>(order_view(order)),
            Err(e) => spec_order(figure@) == Err::<OrderView, OrderError>(e),
        },
{
    let n = figure.point_count();
    let mut forest: Vec<Tree> = Vec::new();
    assert(trees(forest) =~= survey(figure@, 0));
    let mut r: usize = 0;
    while r < n
        invariant
            r <= n,
            n == figure@.points.len(),
            figure@.well_formed(),
            uniform(trees(forest), n as nat),
            trees(forest) == survey(figure@, r as nat),
        decreases n - r,
    {
        survey_root(&mut forest, figure, r);
        r += 1;
    }
    if forest.len() == 1 && forest[0].order.len() == n {
        assert(trees(forest)[0].shaped());
        Ok(forest[0].emit())
    } else {
        Err(OrderError::OrderIncomplete { covered: largest_tree(&forest), total: n })
    }
}

/// What `prune` keeps are trees of the forest.
proof fn lemma_prune_keeps(forest: Seq<Growth>, tree: Growth, n: nat)
    requires
        uniform(forest, n),
    ensures
        uniform(prune(forest, tree), n),
    decreases forest.len(),
{
    if forest.len() > 0 {
        lemma_prune_keeps(forest.drop_last(), tree, n);
    }
}

} // verus!