//! Who sits where: teams, tables, rounds, and what makes a round complete.

use vstd::prelude::*;
use vstd::seq_lib::{to_multiset_contains, to_multiset_len};

verus! {

/// Two players who play together for one round. Players are numbered from 1.
#[derive(Clone, Copy, Debug, PartialEq, Eq, Structural)]
pub struct Team {
    pub first: usize,
    pub second: usize,
}

/// The two teams that face each other at one table.
#[derive(Clone, Copy, Debug, PartialEq, Eq, Structural)]
pub struct Table {
    pub team_a: Team,
    pub team_b: Team,
}

/// One round: the tables in order, and the players who sit this round out.
#[derive(Clone, Debug, PartialEq, Eq)]
pub struct Round {
    pub tables: Vec<Table>,
    pub byes: Vec<usize>,
}

/// A round as plain sequences.
pub struct RoundView {
    pub tables: Seq<Table>,
    pub byes: Seq<usize>,
}

impl View for Round {
    type V = RoundView;

    open spec fn view(&self) -> RoundView {
        RoundView { tables: self.tables@, byes: self.byes@ }
    }
}

/// A schedule as a sequence of plain rounds.
pub open spec fn schedule_view(schedule: Seq<Round>) -> Seq<RoundView> {
    Seq::new(schedule.len(), |i: int| schedule[i]@)
}

impl Round {
    /// A copy of the round.
    pub fn duplicate(&self) -> (copy: Round)
        ensures
            copy@ == self@,
    {
        let mut tables: Vec<Table> = Vec::new();
        let mut t: usize = 0;
        while t < self.tables.len()
            invariant
                t <= self.tables.len(),
                tables@ == self.tables@.take(t as int),
            decreases self.tables.len() - t,
        {
            tables.push(self.tables[t]);
            t += 1;
            assert(tables@ =~= self.tables@.take(t as int));
        }
        let mut byes: Vec<usize> = Vec::new();
        let mut b: usize = 0;
        while b < self.byes.len()
            invariant
                b <= self.byes.len(),
                byes@ == self.byes@.take(b as int),
            decreases self.byes.len() - b,
        {
            byes.push(self.byes[b]);
            b += 1;
            assert(byes@ =~= self.byes@.take(b as int));
        }
        assert(tables@ =~= self.tables@);
        assert(byes@ =~= self.byes@);
        Round { tables, byes }
    }
}

impl Team {
    /// The team as a sequence of its two players.
    pub open spec fn players(self) -> Seq<usize> {
        seq![self.first, self.second]
    }

    /// A team is proper when its two players differ.
    pub open spec fn proper(self) -> bool {
        self.first != self.second
    }

    /// The two players as a pair.
    pub fn pair(&self) -> (p: (usize, usize))
        ensures
            p == (self.first, self.second),
    {
        (self.first, self.second)
    }
}

impl Table {
    /// The four players at the table: team A, then team B.
    pub open spec fn players(self) -> Seq<usize> {
        self.team_a.players() + self.team_b.players()
    }

    /// Both teams are proper.
    pub open spec fn proper(self) -> bool {
        self.team_a.proper() && self.team_b.proper()
    }
}

/// The players seated at `tables`, table by table.
pub open spec fn seated(tables: Seq<Table>) -> Seq<usize>
    decreases tables.len(),
{
    if tables.len() == 0 {
        Seq::empty()
    } else {
        seated(tables.drop_last()) + tables.last().players()
    }
}

/// The whole party: players `1..=player_count` in order.
pub open spec fn everyone(player_count: nat) -> Seq<usize> {
    Seq::new(player_count, |i: int| (i + 1) as usize)
}

impl RoundView {
    /// Every player the round mentions: those sitting out, then those seated.
    pub open spec fn roll(self) -> Seq<usize> {
        self.byes + seated(self.tables)
    }

    /// The round accounts for each of the players `1..=player_count` exactly
    /// once, at a table or sitting out, and for nobody else.
    pub open spec fn is_partition(self, player_count: nat) -> bool {
        self.roll().to_multiset() == everyone(player_count).to_multiset()
    }

    /// No team of the round pairs a player with themselves.
    pub open spec fn teams_proper(self) -> bool {
        forall|t: int| 0 <= t < self.tables.len() ==> (#[trigger] self.tables[t]).proper()
    }
}

/// Seating one more table adds its four players at the end.
pub proof fn lemma_seated_push(tables: Seq<Table>, table: Table)
    ensures
        seated(tables.push(table)) == seated(tables) + table.players(),
{
    assert(tables.push(table).drop_last() =~= tables);
}

/// Four seats per table.
pub proof fn lemma_seated_len(tables: Seq<Table>)
    ensures
        seated(tables).len() == 4 * tables.len(),
    decreases tables.len(),
{
    if tables.len() > 0 {
        lemma_seated_len(tables.drop_last());
    }
}

/// The whole party holds nobody twice.
pub proof fn lemma_everyone_distinct(player_count: nat)
    requires
        player_count <= usize::MAX,
    ensures
        everyone(player_count).no_duplicates(),
{
}

/// What it means that a round accounts for everybody: it mentions as many
/// players as the party has, four at each table and the rest sitting out;
/// it mentions nobody twice, nobody from outside the party, and leaves out
/// nobody of the party.
pub proof fn lemma_partition_means(round: RoundView, player_count: nat)
    requires
        round.is_partition(player_count),
        player_count <= usize::MAX,
    ensures
        round.roll().len() == player_count,
        round.byes.len() + 4 * round.tables.len() == player_count,
        round.roll().no_duplicates(),
        forall|i: int| 0 <= i < round.roll().len() ==> 1 <= #[trigger] round.roll()[i] <= player_count,
        forall|player: usize| 1 <= player <= player_count ==> round.roll().contains(player),
{
    let roll = round.roll();
    let party = everyone(player_count);
    to_multiset_len(roll);
    to_multiset_len(party);
    lemma_seated_len(round.tables);
    lemma_everyone_distinct(player_count);
    party.lemma_multiset_has_no_duplicates();
    roll.lemma_multiset_has_no_duplicates_conv();
    assert forall|i: int| 0 <= i < roll.len() implies 1 <= #[trigger] roll[i] <= player_count by {
        to_multiset_contains(roll, roll[i]);
        to_multiset_contains(party, roll[i]);
        assert(roll.contains(roll[i]));
        let k = choose|k: int| 0 <= k < party.len() && party[k] == roll[i];
        assert(roll[i] == k + 1);
    }
    assert forall|player: usize| 1 <= player <= player_count implies roll.contains(player) by {
        to_multiset_contains(roll, player);
        to_multiset_contains(party, player);
        assert(party[player - 1] == player);
        assert(party.contains(player));
    }
}

} // verus!
