//! The search for a way to win: a best-first search over the snapshots that
//! the move generator leads to.

use crate::collection::views;
use crate::counting::lemma_some_position;
use crate::rules::{bundle_slot, is_path, is_solution, no_snapshot_twice, owed};
use crate::state::{Beast, Card, CardColor, CardOrBundle, State, StateView};
use vstd::prelude::*;

verus! {

/// What `pathfinding`'s A* search returns from a snapshot like `start` with
/// this library's move generator, estimate and test for a win: the
/// snapshots of the path that it found, or `None`.
pub uninterp spec fn astar_outcome(start: StateView) -> Option<Seq<StateView>>;

/// The views of a path, if there is one.
pub open spec fn path_views(path: Option<Vec<State>>) -> Option<Seq<StateView>> {
    match path {
        Some(states) => Some(views(states@)),
        None => None,
    }
}

fn pile_owes(height: u8) -> (r: usize)
    ensures
        r == owed(height as nat),
{
    if height <= 9 {
        (9 - height) as usize
    } else {
        0
    }
}

impl State {
    /// Whether the game is won: every stack is empty.
    pub fn is_win(&self) -> (r: bool)
        ensures
            r == self@.is_won(),
    {
        let stacks = self.board.iter();
        let ghost board = self.board.ordered();
        let mut i: usize = 0;
        while i < stacks.len()
            invariant
                i <= stacks.len(),
                board == self.board.ordered(),
                views(stacks@) == board,
                board.to_multiset() == self@.board,
                forall|k: int| 0 <= k < i ==> (#[trigger] board[k]).len() == 0,
            decreases stacks.len() - i,
        {
            if stacks[i].cards.len() > 0 {
                proof {
                    assert(views(stacks@)[i as int] == stacks[i as int]@);
                    board.to_multiset_ensures();
                    assert(board.contains(board[i as int]));
                }
                return false;
            }
            proof {
                assert(views(stacks@)[i as int] == stacks[i as int]@);
            }
            i += 1;
        }
        proof {
            assert forall|s: Seq<Card>| self@.board.count(s) > 0 implies s.len() == 0 by {
                let k = lemma_some_position(board, s);
            }
        }
        true
    }

    /// How many slots hold a bundle.
    pub fn bundle_count(&self) -> (r: usize)
        ensures
            r == self@.bundles(),
    {
        let holes = self.placeholders.holes.iter();
        let ghost slots = self.placeholders.holes.ordered();
        let mut count: usize = 0;
        let mut i: usize = 0;
        proof {
            slots.take(0).to_multiset_ensures();
            assert(slots.take(0).to_multiset().len() == 0);
        }
        while i < holes.len()
            invariant
                i <= holes.len(),
                slots == self.placeholders.holes.ordered(),
                views(holes@) == slots,
                slots.to_multiset() == self@.holes,
                count <= i,
                count == slots.take(i as int).to_multiset().count(bundle_slot(Beast::Whale))
                    + slots.take(i as int).to_multiset().count(bundle_slot(Beast::Tentacle))
                    + slots.take(i as int).to_multiset().count(bundle_slot(Beast::Ship)),
            decreases holes.len() - i,
        {
            proof {
                assert(views(holes@)[i as int] == holes[i as int]);
                assert(slots.take(i + 1) =~= slots.take(i as int).push(slots[i as int]));
                slots.take(i as int).to_multiset_ensures();
            }
            if let Some(CardOrBundle::BeastBundle(_)) = holes[i].0 {
                count += 1;
            }
            i += 1;
        }
        proof {
            assert(slots.take(i as int) =~= slots);
        }
        count
    }

    /// The estimate that guides the search: the cards that the output piles
    /// still lack, plus one for each slot that holds a bundle; `usize::MAX`
    /// where that does not fit.
    pub fn heuristic(&self) -> (r: usize)
        ensures
            r == if self@.estimate() <= usize::MAX {
                self@.estimate()
            } else {
                usize::MAX as nat
            },
    {
        let owed = pile_owes(self.output.tally(&CardColor::Red).0) + pile_owes(
            self.output.tally(&CardColor::Teal).0,
        ) + pile_owes(self.output.tally(&CardColor::Blue).0);
        owed.saturating_add(self.bundle_count())
    }

    /// Every snapshot that one legal move leads to, as the move generator
    /// lists them, each with the cost of the move, which is 1.
    pub fn weighted_next_states(&self) -> (r: Vec<(State, usize)>)
        ensures
            r.len() == self.next_states().len(),
            forall|i: int|
                0 <= i < r.len() ==> (#[trigger] r[i]).0@ == self.next_states()[i] && r[i].1 == 1,
            forall|next: StateView|
                self@.leads_to(next) <==> exists|i: int|
                    0 <= i < r.len() && (#[trigger] r[i]).0@ == next,
    {
        let mut states = self.get_next_states();
        let ghost listed = views(states@);
        let mut reversed: Vec<State> = Vec::new();
        while states.len() > 0
            invariant
                reversed.len() + states.len() == listed.len(),
                forall|i: int| 0 <= i < states.len() ==> (#[trigger] states[i])@ == listed[i],
                forall|i: int|
                    0 <= i < reversed.len() ==> (#[trigger] reversed[i])@ == listed[listed.len() - 1
                        - i],
            decreases states.len(),
        {
            let state = states.pop().unwrap();
            reversed.push(state);
        }
        let mut r: Vec<(State, usize)> = Vec::new();
        while reversed.len() > 0
            invariant
                r.len() + reversed.len() == listed.len(),
                forall|i: int|
                    0 <= i < reversed.len() ==> (#[trigger] reversed[i])@ == listed[listed.len() - 1
                        - i],
                forall|i: int| 0 <= i < r.len() ==> (#[trigger] r[i]).0@ == listed[i] && r[i].1 == 1,
            decreases reversed.len(),
        {
            let state = reversed.pop().unwrap();
            r.push((state, 1));
        }
        proof {
            assert forall|next: StateView| self@.leads_to(next) implies exists|i: int|
                0 <= i < r.len() && (#[trigger] r[i]).0@ == next by {
                assert(listed.contains(next));
                let k = choose|k: int| 0 <= k < listed.len() && listed[k] == next;
                assert(r[k].0@ == next);
            }
            assert forall|next: StateView|
                (exists|i: int| 0 <= i < r.len() && (#[trigger] r[i]).0@ == next)
                    implies self@.leads_to(next) by {
                let i = choose|i: int| 0 <= i < r.len() && (#[trigger] r[i]).0@ == next;
                assert(listed[i] == next);
                assert(listed.contains(next));
            }
        }
        r
    }
}

impl State {
    /// Whether one legal move leads from this snapshot to `next`.
    pub fn leads_to(&self, next: &State) -> (r: bool)
        ensures
            r == self@.leads_to(next@),
    {
        let states = self.get_next_states();
        let mut i: usize = 0;
        while i < states.len()
            invariant
                i <= states.len(),
                forall|t: StateView| views(states@).contains(t) <==> self@.leads_to(t),
                forall|k: int| 0 <= k < i ==> (#[trigger] states[k])@ != next@,
            decreases states.len() - i,
        {
            if states[i].same_as(next) {
                proof {
                    assert(views(states@)[i as int] == next@);
                    assert(views(states@).contains(next@));
                }
                return true;
            }
            i += 1;
        }
        proof {
            if views(states@).contains(next@) {
                let k = choose|k: int| 0 <= k < states.len() && views(states@)[k] == next@;
                assert(states[k]@ == next@);
            }
        }
        false
    }
}

/// Whether `path` is a way to win from `start`: it begins with `start`, one
/// legal move leads from each of its snapshots to the next, and in its last
/// snapshot the game is won.
pub fn is_solution_path(start: &State, path: &Vec<State>) -> (r: bool)
    ensures
        r == is_solution(start@, views(path@)),
{
    if path.len() == 0 || !path[0].same_as(start) {
        proof {
            if path.len() > 0 {
                assert(views(path@)[0] == path[0]@);
            }
        }
        return false;
    }
    proof {
        assert(views(path@)[0] == path[0]@);
    }
    let mut i: usize = 0;
    while i + 1 < path.len()
        invariant
            i < path.len(),
            forall|k: int|
                0 <= k < i ==> (#[trigger] views(path@)[k]).leads_to(views(path@)[k + 1]),
        decreases path.len() - i,
    {
        if !path[i].leads_to(&path[i + 1]) {
            proof {
                assert(views(path@)[i as int] == path[i as int]@);
                assert(views(path@)[i + 1] == path[i + 1]@);
            }
            return false;
        }
        proof {
            assert(views(path@)[i as int] == path[i as int]@);
            assert(views(path@)[i + 1] == path[i + 1]@);
        }
        i += 1;
    }
    proof {
        assert(views(path@).last() == path[path.len() - 1]@);
    }
    path[path.len() - 1].is_win()
}

/// `pathfinding::directed::astar::astar` from `start`, with the move
/// generator as the successors (each at cost 1), `State::heuristic` as the
/// estimate and `State::is_win` as the goal. As its source shows: a path that
/// it returns starts at `start`, goes from each snapshot to one of that
/// snapshot's successors, and ends in a won snapshot, with no snapshot in it
/// twice; it returns none only after it has expanded every snapshot that can
/// be reached and found none won; and the same start gives the same outcome.
#[verifier::external_body]
fn astar_search(start: &State) -> (r: Option<(Vec<State>, usize)>)
    ensures
        match r {
            Some(found) => is_solution(start@, views(found.0@)) && no_snapshot_twice(
                views(found.0@),
            ),
            None => forall|last: StateView| start@.reaches(last) ==> !last.is_won(),
        },
        astar_outcome(start@) == match r {
            Some(found) => Some(views(found.0@)),
            None => None,
        },
{
    pathfinding::directed::astar::astar(
        start,
        |state: &State| state.weighted_next_states(),
        |state: &State| state.heuristic(),
        |state: &State| state.is_win(),
    )
}

/// Searches for a way to win from `start`: the snapshots from `start` to a
/// won one, each led to from the one before by one legal move; or `None`
/// when no won snapshot can be reached. The way found need not be one of
/// the fewest moves: the estimate that guides the search counts every
/// bundle as a move still to make.
pub fn solve(start: &State) -> (r: Option<Vec<State>>)
    ensures
        match r {
            Some(path) => is_solution(start@, views(path@)) && no_snapshot_twice(views(path@)),
            None => forall|last: StateView| start@.reaches(last) ==> !last.is_won(),
        },
        r.is_some() <==> exists|last: StateView| start@.reaches(last) && last.is_won(),
        path_views(r) == astar_outcome(start@),
{
    match astar_search(start) {
        Some(solution) => {
            proof {
                let path = views(solution.0@);
                assert(is_path(path));
                assert(start@.reaches(path.last()));
            }
            Some(solution.0)
        },
        None => None,
    }
}

} // verus!
