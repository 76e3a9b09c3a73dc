//! Solving: the search for positions along an order, with backtracking.
//!
//! The positions themselves are computed by the caller, who knows the
//! geometry; the search decides what is tried next. For each step of the
//! order in turn the caller works out the candidate positions of that
//! step's point, from the points placed so far, and reports how many there
//! are. The search then has the first of them placed and moves on to the
//! next step. A step without candidates sends the search back to the
//! latest step that has a candidate left.

use vstd::prelude::*;

verus! {

/// Why the search found no positions.
#[derive(Clone, Copy, Debug, PartialEq, Eq, Structural)]
pub enum SolveError {
    /// Every branch was tried, and at least one ended because a step found
    /// the points it builds on in a degenerate position.
    SolveNumerical,
    /// Every branch was tried and ended in a step without candidates.
    SolveNoSolution,
}

/// What the caller reports to the search.
#[derive(Clone, Copy, Debug, PartialEq, Eq, Structural)]
pub enum Event {
    /// The step to evaluate has this many candidates.
    Candidates(usize),
    /// The step to evaluate cannot be evaluated: points it builds on
    /// coincide.
    Degenerate,
    /// The candidate to place has been placed.
    Placed,
}

/// What the search asks of the caller.
#[derive(Clone, Copy, Debug, PartialEq, Eq, Structural)]
pub enum Action {
    /// Work out the candidates of this step and report them.
    Evaluate(usize),
    /// Place the point of this step at its candidate of this number, and
    /// report that it is placed.
    Place(usize, usize),
    /// Every step has its point placed.
    Solved,
    /// No choice of candidates places every point.
    Failed(SolveError),
}

/// A step whose point is placed: the number of the candidate chosen, and
/// how many candidates the step has.
#[derive(Clone, Copy, Debug, PartialEq, Eq, Structural)]
pub struct Frame {
    pub cursor: usize,
    pub count: usize,
}

/// The state of a search.
pub struct SearchView {
    /// The number of steps of the order.
    pub steps: nat,
    /// The steps whose points are placed, the first step first.
    pub frames: Seq<Frame>,
    /// Whether a step was reported degenerate.
    pub numerical: bool,
    /// What the search has asked for last.
    pub pending: Action,
}

/// A search along an order.
pub struct Search {
    steps: usize,
    frames: Vec<Frame>,
    numerical: bool,
    pending: Action,
}

/// The frames up to the last that has a candidate left.
pub open spec fn retreat(frames: Seq<Frame>) -> Seq<Frame>
    decreases frames.len(),
{
    if frames.len() == 0 {
        frames
    } else if frames.last().cursor + 1 < frames.last().count {
        frames
    } else {
        retreat(frames.drop_last())
    }
}

/// The error of a search that has tried every branch.
pub open spec fn exhausted(numerical: bool) -> SolveError {
    if numerical {
        SolveError::SolveNumerical
    } else {
        SolveError::SolveNoSolution
    }
}

impl SearchView {
    /// The search at its start: nothing is placed, and the first step is
    /// to be evaluated. An order without steps is solved at once.
    pub open spec fn start(steps: nat) -> SearchView {
        SearchView {
            steps,
            frames: Seq::empty(),
            numerical: false,
            pending: if steps == 0 {
                Action::Solved
            } else {
                Action::Evaluate(0)
            },
        }
    }

    /// No more steps are placed than there are, every frame's candidate is
    /// one of its step's, and what is asked for is the next thing to do.
    pub open spec fn well_formed(self) -> bool {
        &&& self.steps <= usize::MAX
        &&& self.frames.len() <= self.steps
        &&& forall|j: int| 0 <= j < self.frames.len() ==> (#[trigger] self.frames[j]).cursor < self.frames[j].count
        &&& match self.pending {
            Action::Evaluate(i) => i == self.frames.len() && i < self.steps,
            Action::Place(i, k) => self.frames.len() > 0 && i == self.frames.len() - 1 && k
                == self.frames.last().cursor,
            Action::Solved => self.frames.len() == self.steps,
            Action::Failed(e) => self.frames.len() == 0 && self.steps > 0 && e == exhausted(
                self.numerical,
            ),
        }
    }

    /// The search after the step to evaluate has failed: the latest step
    /// with a candidate left takes its next candidate, and the steps after
    /// it are open again. Without such a step the search has failed.
    pub open spec fn backtrack(self, numerical: bool) -> SearchView {
        let kept = retreat(self.frames);
        if kept.len() == 0 {
            SearchView { frames: kept, numerical, pending: Action::Failed(exhausted(numerical)), ..self }
        } else {
            let top = kept.last();
            let next = Frame { cursor: (top.cursor + 1) as usize, count: top.count };
            SearchView {
                frames: kept.drop_last().push(next),
                numerical,
                pending: Action::Place((kept.len() - 1) as usize, next.cursor),
                ..self
            }
        }
    }

    /// The search after the event. An event that does not answer what was
    /// asked for changes nothing.
    pub open spec fn next(self, event: Event) -> SearchView {
        match (self.pending, event) {
            (Action::Evaluate(i), Event::Candidates(count)) => if count > 0 {
                SearchView {
                    frames: self.frames.push(Frame { cursor: 0, count }),
                    pending: Action::Place(i, 0),
                    ..self
                }
            } else {
                self.backtrack(self.numerical)
            },
            (Action::Evaluate(_), Event::Degenerate) => self.backtrack(true),
            (Action::Place(i, _), Event::Placed) => SearchView {
                pending: if i + 1 >= self.steps {
                    Action::Solved
                } else {
                    Action::Evaluate((i + 1) as usize)
                },
                ..self
            },
            _ => self,
        }
    }
}

/// What `retreat` keeps is a start of the frames, and its last frame has a
/// candidate left.
pub proof fn lemma_retreat(frames: Seq<Frame>)
    ensures
        retreat(frames).len() <= frames.len(),
        retreat(frames) == frames.take(retreat(frames).len() as int),
        retreat(frames).len() > 0 ==> retreat(frames).last().cursor + 1 < retreat(frames).last().count,
        forall|j: int|
            retreat(frames).len() <= j < frames.len() ==> (#[trigger] frames[j]).cursor + 1
                >= frames[j].count,
    decreases frames.len(),
{
    if frames.len() == 0 {
        assert(frames.take(0) =~= frames);
    } else if frames.last().cursor + 1 < frames.last().count {
        assert(frames.take(frames.len() as int) =~= frames);
    } else {
        let init = frames.drop_last();
        lemma_retreat(init);
        assert(init.take(retreat(init).len() as int) =~= frames.take(retreat(init).len() as int));
        assert forall|j: int| retreat(frames).len() <= j < frames.len() implies (#[trigger] frames[j]).cursor
            + 1 >= frames[j].count by {
            if j < init.len() {
                assert(init[j] == frames[j]);
            }
        }
    }
}

impl SearchView {
    /// Every event leaves a well-formed search well formed.
    pub proof fn lemma_next_well_formed(self, event: Event)
        requires
            self.well_formed(),
        ensures
            self.next(event).well_formed(),
    {
        lemma_retreat(self.frames);
        let kept = retreat(self.frames);
        assert forall|j: int| 0 <= j < kept.len() implies (#[trigger] kept[j]).cursor < kept[j].count by {
            assert(kept[j] == self.frames[j]);
        }
    }
}

impl View for Search {
    type V = SearchView;

    closed spec fn view(&self) -> SearchView {
        SearchView {
            steps: self.steps as nat,
            frames: self.frames@,
            numerical: self.numerical,
            pending: self.pending,
        }
    }
}

impl Search {
    #[verifier::type_invariant]
    spec fn valid(self) -> bool {
        self@.well_formed()
    }

    /// Starts a search along an order of `steps` steps.
    pub fn new(steps: usize) -> (search: Search)
        ensures
            search@ == SearchView::start(steps as nat),
            search@.well_formed(),
    {
        let pending = if steps == 0 {
            Action::Solved
        } else {
            Action::Evaluate(0)
        };
        Search { steps, frames: Vec::new(), numerical: false, pending }
    }

    /// What the search asks for.
    pub fn pending(&self) -> (action: Action)
        ensures
            action == self@.pending,
            self@.well_formed(),
    {
        proof {
            use_type_invariant(self);
        }
        self.pending
    }

    /// Takes the event and says what to do next.
    pub fn step(self, event: Event) -> (next: (Search, Action))
        ensures
            next.0@ == self@.next(event),
            next.1 == next.0@.pending,
            next.0@.well_formed(),
    {
        proof {
            use_type_invariant(&self);
            self@.lemma_next_well_formed(event);
        }
        let Search { steps, frames, numerical, pending } = self;
        match (pending, event) {
            (Action::Evaluate(i), Event::Candidates(count)) => {
                if count > 0 {
                    let mut frames = frames;
                    frames.push(Frame { cursor: 0, count });
                    let action = Action::Place(i, 0);
                    (Search { steps, frames, numerical, pending: action }, action)
                } else {
                    Search::fall_back(steps, frames, numerical)
                }
            },
            (Action::Evaluate(_), Event::Degenerate) => Search::fall_back(steps, frames, true),
            (Action::Place(i, _), Event::Placed) => {
                let action = if i + 1 >= steps {
                    Action::Solved
                } else {
                    Action::Evaluate(i + 1)
                };
                (Search { steps, frames, numerical, pending: action }, action)
            },
            _ => (Search { steps, frames, numerical, pending }, pending),
        }
    }

    /// Goes back to the latest step that has a candidate left.
    fn fall_back(steps: usize, frames: Vec<Frame>, numerical: bool) -> (next: (Search, Action))
        requires
            steps > 0,
            frames@.len() <= steps,
            forall|j: int| 0 <= j < frames@.len() ==> (#[trigger] frames@[j]).cursor < frames@[j].count,
        ensures
            next.0@ == (SearchView {
                steps: steps as nat,
                frames: frames@,
                numerical,
                pending: Action::Solved,
            }).backtrack(numerical),
            next.1 == next.0@.pending,
    {
        let ghost was = frames@;
        let mut frames = frames;
        proof {
            lemma_retreat(was);
        }
        loop
            invariant
                frames@.len() <= was.len(),
                frames@ == was.take(frames@.len() as int),
                retreat(frames@) == retreat(was),
                forall|j: int| 0 <= j < was.len() ==> (#[trigger] was[j]).cursor < was[j].count,
            ensures
                frames@ == retreat(was),
            decreases frames@.len(),
        {
            let len = frames.len();
            if len == 0 {
                break ;
            }
            let top = frames[len - 1];
            assert(top == was[len - 1]);
            if top.cursor + 1 < top.count {
                break ;
            }
            frames.pop();
            assert(frames@ =~= was.take(frames@.len() as int));
        }
        let len = frames.len();
        if len == 0 {
            let action = Action::Failed(
                if numerical {
                    SolveError::SolveNumerical
                } else {
                    SolveError::SolveNoSolution
                },
            );
            (Search { steps, frames, numerical, pending: action }, action)
        } else {
            let top = frames[len - 1];
            assert(top == was[len - 1]);
            let next = Frame { cursor: top.cursor + 1, count: top.count };
            frames.pop();
            frames.push(next);
            let action = Action::Place(len - 1, next.cursor);
            proof {
                lemma_retreat(was);
                assert(frames@ =~= retreat(was).drop_last().push(next));
            }
            (Search { steps, frames, numerical, pending: action }, action)
        }
    }
}

} // verus!
