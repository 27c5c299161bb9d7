//! Counters of a search.

use vstd::prelude::*;

verus! {

/// Saturating count: `count` and `n` more, or the largest count that can be held.
pub open spec fn added(count: usize, n: nat) -> usize {
    if count + n <= usize::MAX {
        (count + n) as usize
    } else {
        usize::MAX
    }
}

/// Counters of a search: the states tried, and the solutions among them.
/// A counter that has reached `usize::MAX` stays there.
#[derive(Clone, Copy, Debug)]
pub struct Stats {
    pub num_permutations: usize,
    pub num_solutions: usize,
}

impl Stats {
    /// The counters after one more state was tried, `success` telling
    /// whether it was a solution or a dead end.
    pub open spec fn recorded(self, success: bool) -> Stats {
        Stats {
            num_permutations: added(self.num_permutations, 1),
            num_solutions: if success {
                added(self.num_solutions, 1)
            } else {
                self.num_solutions
            },
        }
    }

    /// Counters at zero.
    pub fn new() -> (s: Self)
        ensures
            s.num_permutations == 0,
            s.num_solutions == 0,
    {
        Stats { num_permutations: 0, num_solutions: 0 }
    }

    /// Counts a state that was a solution.
    pub fn success(&mut self)
        ensures
            *final(self) == old(self).recorded(true),
    {
        if self.num_solutions < usize::MAX {
            self.num_solutions += 1;
        }
        if self.num_permutations < usize::MAX {
            self.num_permutations += 1;
        }
    }

    /// Counts a state that was a dead end.
    pub fn fail(&mut self)
        ensures
            *final(self) == old(self).recorded(false),
    {
        if self.num_permutations < usize::MAX {
            self.num_permutations += 1;
        }
    }
}

/// The counters after the states of `events` were tried in turn, `true`
/// standing for a solution and `false` for a dead end.
pub open spec fn replayed(s: Stats, events: Seq<bool>) -> Stats
    decreases events.len(),
{
    if events.len() == 0 {
        s
    } else {
        replayed(s, events.drop_last()).recorded(events.last())
    }
}

/// The count of states tried never goes down and is never below the count
/// of solutions; once a dead end has been counted it is above, as long as
/// the counter has not reached its largest value.
pub proof fn lemma_stats_monotone(s: Stats, events: Seq<bool>)
    requires
        s.num_solutions <= s.num_permutations,
    ensures
        s.num_permutations <= replayed(s, events).num_permutations,
        s.num_solutions <= replayed(s, events).num_solutions,
        replayed(s, events).num_solutions <= replayed(s, events).num_permutations,
        replayed(s, events).num_permutations == added(s.num_permutations, events.len()),
        events.contains(false) && s.num_permutations + events.len() <= usize::MAX ==> replayed(
            s,
            events,
        ).num_solutions < replayed(s, events).num_permutations,
    decreases events.len(),
{
    if events.len() > 0 {
        let rest = events.drop_last();
        lemma_stats_monotone(s, rest);
        if events.contains(false) && !events.last() {
        } else if events.contains(false) {
            let i = choose|i: int| 0 <= i < events.len() && events[i] == false;
            assert(rest[i] == false);
            assert(rest.contains(false));
        }
    }
}

} // verus!
