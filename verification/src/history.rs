//! Which pairs of players have already met.

use vstd::prelude::*;

use crate::seating::{Table, Team};

verus! {

/// A record of pairs of players, kept for the whole of one schedule. It only
/// grows, and it holds a pair in both orders or not at all.
pub struct PairHistory {
    pairs: Vec<(usize, usize)>,
}

impl View for PairHistory {
    type V = Set<(usize, usize)>;

    closed spec fn view(&self) -> Set<(usize, usize)> {
        self.pairs@.to_set()
    }
}

/// A set of ordered pairs that holds `(b, a)` wherever it holds `(a, b)`.
pub open spec fn symmetric(pairs: Set<(usize, usize)>) -> bool {
    forall|a: usize, b: usize| pairs.contains((a, b)) ==> pairs.contains((b, a))
}

/// `pairs` with `a` and `b` recorded as having met.
pub open spec fn with_pair(pairs: Set<(usize, usize)>, a: usize, b: usize) -> Set<(usize, usize)> {
    pairs.insert((a, b)).insert((b, a))
}

/// `pairs` with every player of `team_a` recorded as having faced every
/// player of `team_b`.
pub open spec fn with_opponents(pairs: Set<(usize, usize)>, team_a: Team, team_b: Team) -> Set<
    (usize, usize),
> {
    with_pair(
        with_pair(
            with_pair(
                with_pair(pairs, team_a.first, team_b.first),
                team_a.second,
                team_b.first,
            ),
            team_a.second,
            team_b.second,
        ),
        team_a.first,
        team_b.second,
    )
}

/// Some player of `team_a` has already faced some player of `team_b`: one of
/// the eight ordered pairs between the two teams is in `pairs`.
pub open spec fn faced(pairs: Set<(usize, usize)>, team_a: Team, team_b: Team) -> bool {
    ||| pairs.contains((team_a.first, team_b.first))
    ||| pairs.contains((team_b.first, team_a.first))
    ||| pairs.contains((team_a.first, team_b.second))
    ||| pairs.contains((team_b.second, team_a.first))
    ||| pairs.contains((team_a.second, team_b.first))
    ||| pairs.contains((team_b.first, team_a.second))
    ||| pairs.contains((team_a.second, team_b.second))
    ||| pairs.contains((team_b.second, team_a.second))
}

impl PairHistory {
    /// The record holds each pair in both orders.
    pub open spec fn wf(&self) -> bool {
        symmetric(self@)
    }

    /// A record in which nobody has met anybody.
    pub fn new() -> (history: PairHistory)
        ensures
            history@ == Set::<(usize, usize)>::empty(),
            history.wf(),
    {
        let history = PairHistory { pairs: Vec::new() };
        assert(history.pairs@.to_set() =~= Set::<(usize, usize)>::empty());
        history
    }

    /// Whether `a` has met `b`.
    pub fn contains(&self, a: usize, b: usize) -> (met: bool)
        ensures
            met == self@.contains((a, b)),
    {
        let mut i: usize = 0;
        while i < self.pairs.len()
            invariant
                i <= self.pairs.len(),
                forall|k: int| 0 <= k < i ==> self.pairs@[k] != (a, b),
            decreases self.pairs.len() - i,
        {
            let pair = self.pairs[i];
            if pair.0 == a && pair.1 == b {
                assert(self.pairs@.contains((a, b)));
                return true;
            }
            i += 1;
        }
        assert(!self.pairs@.contains((a, b)));
        false
    }

    /// Records that `a` and `b` have met, in both orders.
    pub fn record(&mut self, a: usize, b: usize)
        requires
            old(self).wf(),
        ensures
            final(self)@ == with_pair(old(self)@, a, b),
            final(self).wf(),
    {
        self.pairs.push((a, b));
        self.pairs.push((b, a));
        proof {
            let before = old(self).pairs@;
            assert(self.pairs@ == before.push((a, b)).push((b, a)));
            assert forall|p: (usize, usize)|
                self.pairs@.to_set().contains(p) == with_pair(before.to_set(), a, b).contains(
                    p,
                ) by {
                if before.contains(p) {
                    let k = choose|k: int| 0 <= k < before.len() && before[k] == p;
                    assert(self.pairs@[k] == p);
                }
                if p == (a, b) {
                    assert(self.pairs@[before.len() as int] == p);
                }
                if p == (b, a) {
                    assert(self.pairs@[before.len() as int + 1] == p);
                }
            }
            assert(self.pairs@.to_set() =~= with_pair(before.to_set(), a, b));
        }
    }

    /// Records the partnership of `team`.
    pub fn record_team(&mut self, team: Team)
        requires
            old(self).wf(),
        ensures
            final(self)@ == with_pair(old(self)@, team.first, team.second),
            final(self).wf(),
    {
        self.record(team.first, team.second);
    }

    /// Records that the two teams of `table` have faced each other: each
    /// player of one team against each player of the other, in both orders.
    pub fn record_table(&mut self, table: Table)
        requires
            old(self).wf(),
        ensures
            final(self)@ == with_opponents(old(self)@, table.team_a, table.team_b),
            final(self).wf(),
    {
        self.record(table.team_a.first, table.team_b.first);
        self.record(table.team_a.second, table.team_b.first);
        self.record(table.team_a.second, table.team_b.second);
        self.record(table.team_a.first, table.team_b.second);
    }

    /// Whether the two players of `team` have been partners before.
    pub fn partnered(&self, team: Team) -> (met: bool)
        ensures
            met == self@.contains((team.first, team.second)),
    {
        self.contains(team.first, team.second)
    }

    /// Whether any player of `team_a` has faced any player of `team_b` before.
    pub fn opposed(&self, team_a: Team, team_b: Team) -> (met: bool)
        requires
            self.wf(),
        ensures
            met == faced(self@, team_a, team_b),
    {
        self.contains(team_a.first, team_b.first) || self.contains(team_b.first, team_a.second)
            || self.contains(team_a.second, team_b.second) || self.contains(
            team_b.second,
            team_a.first,
        )
    }
}

} // verus!
