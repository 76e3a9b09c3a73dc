use geosolve::solve::{Action, Event, Search, SolveError};

#[test]
fn order_without_steps_is_solved() {
    let search = Search::new(0);
    assert_eq!(search.pending(), Action::Solved);
    let (search, action) = search.step(Event::Placed);
    assert_eq!(action, Action::Solved);
    assert_eq!(search.pending(), Action::Solved);
}

#[test]
fn first_candidates_are_taken() {
    let search = Search::new(2);
    assert_eq!(search.pending(), Action::Evaluate(0));
    let (search, action) = search.step(Event::Candidates(1));
    assert_eq!(action, Action::Place(0, 0));
    let (search, action) = search.step(Event::Placed);
    assert_eq!(action, Action::Evaluate(1));
    let (search, action) = search.step(Event::Candidates(2));
    assert_eq!(action, Action::Place(1, 0));
    let (_, action) = search.step(Event::Placed);
    assert_eq!(action, Action::Solved);
}

#[test]
fn dead_end_goes_back_to_the_latest_open_step() {
    let search = Search::new(3);
    let (search, action) = search.step(Event::Candidates(2));
    assert_eq!(action, Action::Place(0, 0));
    let (search, action) = search.step(Event::Placed);
    assert_eq!(action, Action::Evaluate(1));
    let (search, action) = search.step(Event::Candidates(1));
    assert_eq!(action, Action::Place(1, 0));
    let (search, action) = search.step(Event::Placed);
    assert_eq!(action, Action::Evaluate(2));
    // step 2 has no candidate; step 1 has none left; step 0 has its second
    let (search, action) = search.step(Event::Candidates(0));
    assert_eq!(action, Action::Place(0, 1));
    let (search, action) = search.step(Event::Placed);
    assert_eq!(action, Action::Evaluate(1));
    let (search, action) = search.step(Event::Candidates(3));
    assert_eq!(action, Action::Place(1, 0));
    let (search, action) = search.step(Event::Placed);
    assert_eq!(action, Action::Evaluate(2));
    let (search, action) = search.step(Event::Candidates(0));
    assert_eq!(action, Action::Place(1, 1));
    let (search, action) = search.step(Event::Placed);
    assert_eq!(action, Action::Evaluate(2));
    let (search, action) = search.step(Event::Candidates(1));
    assert_eq!(action, Action::Place(2, 0));
    let (_, action) = search.step(Event::Placed);
    assert_eq!(action, Action::Solved);
}

#[test]
fn exhausted_search_has_no_solution() {
    let search = Search::new(2);
    let (search, _) = search.step(Event::Candidates(2));
    let (search, _) = search.step(Event::Placed);
    let (search, action) = search.step(Event::Candidates(0));
    assert_eq!(action, Action::Place(0, 1));
    let (search, _) = search.step(Event::Placed);
    let (search, action) = search.step(Event::Candidates(0));
    assert_eq!(action, Action::Failed(SolveError::SolveNoSolution));
    // a failed search stays failed
    let (_, action) = search.step(Event::Candidates(4));
    assert_eq!(action, Action::Failed(SolveError::SolveNoSolution));
}

#[test]
fn no_candidates_at_the_first_step() {
    let (_, action) = Search::new(1).step(Event::Candidates(0));
    assert_eq!(action, Action::Failed(SolveError::SolveNoSolution));
}

#[test]
fn degenerate_step_goes_back_and_is_remembered() {
    let search = Search::new(2);
    let (search, _) = search.step(Event::Candidates(2));
    let (search, _) = search.step(Event::Placed);
    let (search, action) = search.step(Event::Degenerate);
    assert_eq!(action, Action::Place(0, 1));
    let (search, _) = search.step(Event::Placed);
    let (_, action) = search.step(Event::Candidates(0));
    assert_eq!(action, Action::Failed(SolveError::SolveNumerical));
}

#[test]
fn degenerate_branch_does_not_spoil_a_solution() {
    let search = Search::new(2);
    let (search, _) = search.step(Event::Candidates(2));
    let (search, _) = search.step(Event::Placed);
    let (search, _) = search.step(Event::Degenerate);
    let (search, _) = search.step(Event::Placed);
    let (search, action) = search.step(Event::Candidates(1));
    assert_eq!(action, Action::Place(1, 0));
    let (_, action) = search.step(Event::Placed);
    assert_eq!(action, Action::Solved);
}

#[test]
fn event_that_answers_nothing_changes_nothing() {
    let search = Search::new(2);
    let (search, action) = search.step(Event::Placed);
    assert_eq!(action, Action::Evaluate(0));
    let (search, action) = search.step(Event::Candidates(1));
    assert_eq!(action, Action::Place(0, 0));
    let (search, action) = search.step(Event::Candidates(5));
    assert_eq!(action, Action::Place(0, 0));
    let (search, action) = search.step(Event::Degenerate);
    assert_eq!(action, Action::Place(0, 0));
    let (_, action) = search.step(Event::Placed);
    assert_eq!(action, Action::Evaluate(1));
}
