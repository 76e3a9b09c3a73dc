//! What holds of a search, whatever the caller answers.
//!
//! The caller's answers are taken as a function of the candidates chosen
//! so far: for the choices made for the steps before, how many candidates
//! the next step has, or that it cannot be evaluated.

use vstd::prelude::*;
use crate::solve::{lemma_retreat, retreat, Action, Event, Frame, SearchView, SolveError};

verus! {

/// The caller's answer to the evaluation of a step, given the number of
/// the candidate chosen for each step before it: how many candidates the
/// step has, or nothing where it is degenerate.
pub type Oracle = spec_fn(Seq<usize>) -> Option<usize>;

/// The number of the candidate chosen in each frame.
pub open spec fn choices(frames: Seq<Frame>) -> Seq<usize> {
    Seq::new(frames.len(), |j: int| frames[j].cursor)
}

/// Whether `chosen` places every step: it names for each step one of the
/// candidates that the step has, given the choices before it.
pub open spec fn places_all(oracle: Oracle, steps: nat, chosen: Seq<usize>) -> bool {
    &&& chosen.len() == steps
    &&& forall|j: int|
        0 <= j < steps ==> match #[trigger] oracle(chosen.take(j)) {
            Some(count) => chosen[j] < count,
            None => false,
        }
}

/// Whether some choice that places every step starts with `prefix`.
pub open spec fn completes(oracle: Oracle, steps: nat, prefix: Seq<usize>) -> bool {
    exists|chosen: Seq<usize>|
        #![trigger places_all(oracle, steps, chosen)]
        places_all(oracle, steps, chosen) && prefix.len() <= chosen.len() && chosen.take(
            prefix.len() as int,
        ) == prefix
}

impl SearchView {
    /// What the caller answers to what the search asks for.
    pub open spec fn answer(self, oracle: Oracle) -> Event {
        match self.pending {
            Action::Evaluate(_) => match oracle(choices(self.frames)) {
                Some(count) => Event::Candidates(count),
                None => Event::Degenerate,
            },
            _ => Event::Placed,
        }
    }

    /// The search after the caller has answered `turns` times.
    pub open spec fn run(self, oracle: Oracle, turns: nat) -> SearchView
        decreases turns,
    {
        if turns == 0 {
            self
        } else {
            self.next(self.answer(oracle)).run(oracle, (turns - 1) as nat)
        }
    }

    /// Every frame holds the number of candidates that the caller answered
    /// for its step, no choice that places every step passes through a
    /// candidate tried before the one chosen in a frame, a search that has
    /// failed has no such choice at all, and a search that remembers a
    /// degenerate step was answered one.
    pub open spec fn explored(self, oracle: Oracle) -> bool {
        &&& forall|j: int|
            0 <= j < self.frames.len() ==> #[trigger] oracle(choices(self.frames).take(j)) == Some(
                self.frames[j].count,
            )
        &&& forall|j: int, k: usize|
            0 <= j < self.frames.len() && k < self.frames[j].cursor ==> !#[trigger] completes(
                oracle,
                self.steps,
                choices(self.frames).take(j).push(k),
            )
        &&& self.pending is Failed ==> !completes(oracle, self.steps, Seq::empty())
        &&& self.numerical ==> exists|prefix: Seq<usize>| #[trigger] oracle(prefix) is None
    }
}

/// A choice that places every step and starts with a shorter `prefix`
/// goes on with a candidate of the next step.
pub proof fn lemma_completes_next(oracle: Oracle, steps: nat, prefix: Seq<usize>)
    requires
        completes(oracle, steps, prefix),
        prefix.len() < steps,
    ensures
        oracle(prefix) is Some,
        exists|k: usize| k < oracle(prefix)->0 && #[trigger] completes(oracle, steps, prefix.push(k)),
{
    let chosen = choose|chosen: Seq<usize>|
        #![trigger places_all(oracle, steps, chosen)]
        places_all(oracle, steps, chosen) && prefix.len() <= chosen.len() && chosen.take(
            prefix.len() as int,
        ) == prefix;
    let i = prefix.len() as int;
    let k = chosen[i];
    assert(oracle(chosen.take(i)) is Some);
    assert(chosen.take(i + 1) =~= prefix.push(k));
    assert(completes(oracle, steps, prefix.push(k)));
}

/// Where the choices of the frames lead to no choice that places every
/// step, neither do the choices of the frames that `retreat` keeps.
proof fn lemma_retreat_explored(oracle: Oracle, steps: nat, frames: Seq<Frame>)
    requires
        frames.len() <= steps,
        forall|j: int| 0 <= j < frames.len() ==> (#[trigger] frames[j]).cursor < frames[j].count,
        forall|j: int|
            0 <= j < frames.len() ==> #[trigger] oracle(choices(frames).take(j)) == Some(
                frames[j].count,
            ),
        forall|j: int, k: usize|
            0 <= j < frames.len() && k < frames[j].cursor ==> !#[trigger] completes(
                oracle,
                steps,
                choices(frames).take(j).push(k),
            ),
        !completes(oracle, steps, choices(frames)),
    ensures
        !completes(oracle, steps, choices(retreat(frames))),
    decreases frames.len(),
{
    if frames.len() > 0 && !(frames.last().cursor + 1 < frames.last().count) {
        let init = frames.drop_last();
        let top = frames.last();
        let last = frames.len() - 1;
        assert(choices(frames).take(last) =~= choices(init));
        assert(choices(frames) =~= choices(init).push(top.cursor));
        assert forall|j: int| 0 <= j < init.len() implies choices(init).take(j) == choices(frames).take(
            j,
        ) by {
            assert(choices(init).take(j) =~= choices(frames).take(j));
        }
        assert forall|j: int| 0 <= j < init.len() implies #[trigger] oracle(choices(init).take(j))
            == Some(init[j].count) by {
            assert(oracle(choices(frames).take(j)) == Some(frames[j].count));
        }
        assert forall|j: int, k: usize| 0 <= j < init.len() && k < init[j].cursor implies !#[trigger] completes(
            oracle,
            steps,
            choices(init).take(j).push(k),
        ) by {
            assert(!completes(oracle, steps, choices(frames).take(j).push(k)));
        }
        if completes(oracle, steps, choices(init)) {
            lemma_completes_next(oracle, steps, choices(init));
            assert(oracle(choices(frames).take(last)) == Some(frames[last].count));
            let k = choose|k: usize|
                k < oracle(choices(init))->0 && #[trigger] completes(oracle, steps, choices(init).push(k));
            if k < top.cursor {
                assert(!completes(oracle, steps, choices(frames).take(last).push(k)));
            }
        }
        lemma_retreat_explored(oracle, steps, init);
    }
}

impl SearchView {
    /// The search at its start has explored nothing wrongly.
    pub proof fn lemma_start_explored(oracle: Oracle, steps: nat)
        ensures
            SearchView::start(steps).explored(oracle),
    {
    }

    /// Whatever a step has explored, the step after the caller's answer
    /// has explored.
    pub proof fn lemma_next_explored(self, oracle: Oracle)
        requires
            self.well_formed(),
            self.explored(oracle),
        ensures
            self.next(self.answer(oracle)).explored(oracle),
            self.next(self.answer(oracle)).well_formed(),
    {
        let event = self.answer(oracle);
        let next = self.next(event);
        self.lemma_next_well_formed(event);
        let chosen = choices(self.frames);
        match self.pending {
            Action::Evaluate(i) => {
                let fails = match oracle(chosen) {
                    Some(count) => count == 0,
                    None => true,
                };
                if fails {
                    if completes(oracle, self.steps, chosen) {
                        lemma_completes_next(oracle, self.steps, chosen);
                    }
                    lemma_retreat(self.frames);
                    lemma_retreat_explored(oracle, self.steps, self.frames);
                    let kept = retreat(self.frames);
                    let m = kept.len() as int;
                    assert(choices(kept) =~= chosen.take(m));
                    if m == 0 {
                        assert(choices(kept) =~= Seq::<usize>::empty());
                    } else {
                        let top = kept[m - 1];
                        assert(top == self.frames[m - 1]);
                        assert(choices(next.frames).take(m - 1) =~= chosen.take(m - 1));
                        assert(chosen.take(m - 1).push(top.cursor) =~= chosen.take(m));
                        assert forall|j: int| 0 <= j < next.frames.len() implies #[trigger] oracle(
                            choices(next.frames).take(j),
                        ) == Some(next.frames[j].count) by {
                            assert(choices(next.frames).take(j) =~= chosen.take(j));
                            assert(oracle(chosen.take(j)) == Some(self.frames[j].count));
                            if j < m - 1 {
                                assert(next.frames[j] == self.frames[j]);
                            }
                        }
                        assert forall|j: int, k: usize|
                            0 <= j < next.frames.len() && k < next.frames[j].cursor implies !#[trigger] completes(
                            oracle,
                            next.steps,
                            choices(next.frames).take(j).push(k),
                        ) by {
                            assert(choices(next.frames).take(j) =~= chosen.take(j));
                            if j < m - 1 {
                                assert(next.frames[j] == self.frames[j]);
                                assert(!completes(oracle, self.steps, chosen.take(j).push(k)));
                            } else if k < top.cursor {
                                assert(!completes(oracle, self.steps, chosen.take(j).push(k)));
                            }
                        }
                    }
                } else {
                    let count = oracle(chosen)->0;
                    let grown = self.frames.push(Frame { cursor: 0, count });
                    assert(next.frames == grown);
                    assert forall|j: int| 0 <= j < grown.len() implies choices(grown).take(j)
                        == chosen.take(j) by {
                        assert(choices(grown).take(j) =~= chosen.take(j));
                    }
                    assert(chosen.take(chosen.len() as int) =~= chosen);
                    assert forall|j: int| 0 <= j < grown.len() implies #[trigger] oracle(
                        choices(grown).take(j),
                    ) == Some(grown[j].count) by {
                        if j < self.frames.len() {
                            assert(oracle(chosen.take(j)) == Some(self.frames[j].count));
                        }
                    }
                    assert forall|j: int, k: usize|
                        0 <= j < grown.len() && k < grown[j].cursor implies !#[trigger] completes(
                        oracle,
                        next.steps,
                        choices(grown).take(j).push(k),
                    ) by {
                        assert(!completes(oracle, self.steps, chosen.take(j).push(k)));
                    }
                }
            },
            _ => {},
        }
    }

    /// From its start, however often the caller has answered, the search
    /// is well formed and has explored.
    pub proof fn lemma_run_explored(oracle: Oracle, steps: nat, turns: nat)
        requires
            steps <= usize::MAX,
        ensures
            SearchView::start(steps).run(oracle, turns).well_formed(),
            SearchView::start(steps).run(oracle, turns).explored(oracle),
            SearchView::start(steps).run(oracle, turns).steps == steps,
    {
        SearchView::lemma_start_explored(oracle, steps);
        SearchView::start(steps).lemma_run_keeps(oracle, turns);
    }

    /// Answer after answer, a search stays well formed and explored.
    pub proof fn lemma_run_keeps(self, oracle: Oracle, turns: nat)
        requires
            self.well_formed(),
            self.explored(oracle),
        ensures
            self.run(oracle, turns).well_formed(),
            self.run(oracle, turns).explored(oracle),
            self.run(oracle, turns).steps == self.steps,
        decreases turns,
    {
        if turns > 0 {
            self.lemma_next_explored(oracle);
            self.next(self.answer(oracle)).lemma_run_keeps(oracle, (turns - 1) as nat);
        }
    }
}

/// A search that ends solved has chosen candidates that place every step,
/// and no choice that places every step comes before it: where another
/// one first differs, it names a later candidate.
pub proof fn lemma_solved_first(oracle: Oracle, steps: nat, turns: nat, other: Seq<usize>)
    requires
        steps <= usize::MAX,
        SearchView::start(steps).run(oracle, turns).pending == Action::Solved,
        places_all(oracle, steps, other),
    ensures
        places_all(oracle, steps, choices(SearchView::start(steps).run(oracle, turns).frames)),
        forall|j: int|
            0 <= j < steps && other.take(j) == choices(
                SearchView::start(steps).run(oracle, turns).frames,
            ).take(j) ==> other[j] >= choices(SearchView::start(steps).run(oracle, turns).frames)[j],
{
    let end = SearchView::start(steps).run(oracle, turns);
    SearchView::lemma_run_explored(oracle, steps, turns);
    lemma_solved_places(oracle, end);
    let chosen = choices(end.frames);
    assert forall|j: int| 0 <= j < steps && other.take(j) == chosen.take(j) implies other[j]
        >= chosen[j] by {
        if other[j] < chosen[j] {
            assert(other.take(j + 1) =~= chosen.take(j).push(other[j]));
            assert(completes(oracle, steps, chosen.take(j).push(other[j])));
        }
    }
}

/// A well-formed search that has explored and is solved has chosen
/// candidates that place every step.
pub proof fn lemma_solved_places(oracle: Oracle, end: SearchView)
    requires
        end.well_formed(),
        end.explored(oracle),
        end.pending == Action::Solved,
    ensures
        places_all(oracle, end.steps, choices(end.frames)),
{
    let chosen = choices(end.frames);
    assert forall|j: int| 0 <= j < end.steps implies match #[trigger] oracle(chosen.take(j)) {
        Some(count) => chosen[j] < count,
        None => false,
    } by {
        assert(oracle(choices(end.frames).take(j)) == Some(end.frames[j].count));
    }
}

/// A search fails for a numerical reason only where the caller answered
/// that a step is degenerate.
pub proof fn lemma_failed_numerical(oracle: Oracle, steps: nat, turns: nat)
    requires
        steps <= usize::MAX,
        SearchView::start(steps).run(oracle, turns).pending == Action::Failed(
            SolveError::SolveNumerical,
        ),
    ensures
        exists|prefix: Seq<usize>| #[trigger] oracle(prefix) is None,
{
    SearchView::lemma_run_explored(oracle, steps, turns);
}

/// A search that ends failed has left out no choice: none places every
/// step.
pub proof fn lemma_failed_none(oracle: Oracle, steps: nat, turns: nat, chosen: Seq<usize>)
    requires
        steps <= usize::MAX,
        SearchView::start(steps).run(oracle, turns).pending is Failed,
    ensures
        !places_all(oracle, steps, chosen),
{
    SearchView::lemma_run_explored(oracle, steps, turns);
    if places_all(oracle, steps, chosen) {
        assert(chosen.take(0) =~= Seq::<usize>::empty());
        assert(completes(oracle, steps, Seq::empty()));
    }
}

impl SearchView {
    /// Answers given one after another add up.
    pub proof fn lemma_run_split(self, oracle: Oracle, first: nat, then: nat)
        ensures
            self.run(oracle, first).run(oracle, then) == self.run(oracle, first + then),
        decreases first,
    {
        if first > 0 {
            self.next(self.answer(oracle)).lemma_run_split(oracle, (first - 1) as nat, then);
        }
    }

    /// Whether the search stands where it would after the frames `frames`
    /// had led to nothing: at the next candidate of the latest step with a
    /// candidate left, or failed.
    pub open spec fn fell_back(self, frames: Seq<Frame>) -> bool {
        let back = (SearchView { frames, ..self }).backtrack(self.numerical);
        self.frames == back.frames && self.pending == back.pending
    }

    /// From a step to evaluate the search comes, after some answers, to an
    /// end: solved, or past every candidate of that step and back at the
    /// frames before it.
    pub proof fn lemma_evaluate_ends(self, oracle: Oracle) -> (turns: nat)
        requires
            self.well_formed(),
            self.pending is Evaluate,
        ensures
            self.run(oracle, turns).well_formed(),
            self.run(oracle, turns).steps == self.steps,
            self.run(oracle, turns).pending == Action::Solved || self.run(oracle, turns).fell_back(
                self.frames,
            ),
        decreases self.steps - self.frames.len(), 1nat, 0nat,
    {
        let event = self.answer(oracle);
        let next = self.next(event);
        self.lemma_next_well_formed(event);
        assert(self.run(oracle, 1) == next.run(oracle, 0));
        match oracle(choices(self.frames)) {
            Some(count) => {
                if count > 0 {
                    let more = next.lemma_place_ends(oracle);
                    self.lemma_run_split(oracle, 1, more);
                    assert(next.frames.drop_last() =~= self.frames);
                    1 + more
                } else {
                    1
                }
            },
            None => 1,
        }
    }

    /// From a candidate to place the search comes, after some answers, to
    /// an end: solved, or past every later candidate of that step and back
    /// at the frames before it.
    pub proof fn lemma_place_ends(self, oracle: Oracle) -> (turns: nat)
        requires
            self.well_formed(),
            self.pending is Place,
        ensures
            self.run(oracle, turns).well_formed(),
            self.run(oracle, turns).steps == self.steps,
            self.run(oracle, turns).pending == Action::Solved || self.run(oracle, turns).fell_back(
                self.frames.drop_last(),
            ),
        decreases
                self.steps - self.frames.len() + 1,
                0nat,
                self.frames.last().count - self.frames.last().cursor,
    {
        let next = self.next(Event::Placed);
        self.lemma_next_well_formed(Event::Placed);
        assert(self.answer(oracle) == Event::Placed);
        assert(self.run(oracle, 1) == next.run(oracle, 0));
        if next.pending == Action::Solved {
            1
        } else {
            let deeper = next.lemma_evaluate_ends(oracle);
            self.lemma_run_split(oracle, 1, deeper);
            let mid = next.run(oracle, deeper);
            if mid.pending == Action::Solved {
                1 + deeper
            } else {
                let top = self.frames.last();
                lemma_retreat(self.frames);
                if top.cursor + 1 < top.count {
                    assert(retreat(self.frames) == self.frames);
                    assert(mid.pending is Place);
                    let rest = mid.lemma_place_ends(oracle);
                    self.lemma_run_split(oracle, 1 + deeper, rest);
                    assert(mid.frames.drop_last() =~= self.frames.drop_last());
                    1 + deeper + rest
                } else {
                    assert(retreat(self.frames) == retreat(self.frames.drop_last()));
                    1 + deeper
                }
            }
        }
    }
}

/// Whatever the caller answers, the search comes to an end after some
/// answers: it is solved or has failed.
pub proof fn lemma_search_ends(oracle: Oracle, steps: nat) -> (turns: nat)
    requires
        steps <= usize::MAX,
    ensures
        SearchView::start(steps).run(oracle, turns).pending is Solved || SearchView::start(steps).run(
            oracle,
            turns,
        ).pending is Failed,
{
    let start = SearchView::start(steps);
    if steps == 0 {
        0
    } else {
        let turns = start.lemma_evaluate_ends(oracle);
        lemma_retreat(start.frames);
        turns
    }
}

} // verus!