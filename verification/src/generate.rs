//! The schedule generator: round after round, sit-outs by rotation and teams
//! by a bounded random search that avoids repeated partners and opponents as
//! long as its budget lasts.

use vstd::prelude::*;
use vstd::seq_lib::lemma_multiset_commutative;

use crate::draw::draw_pair;
use crate::history::{faced, symmetric, with_opponents, with_pair, PairHistory};
use crate::pool::{
    bye_players, bye_positions, full_pool, lemma_bye_positions_fit, lemma_taken_and_remaining,
    lemma_without_pair, select_byes, take_pair, without_pair,
};
use crate::seating::{
    everyone, lemma_everyone_distinct, lemma_seated_push, seated, Round, RoundView, Table, Team,
};

verus! {

/// How many times a team may be drawn again because its two players have
/// been partners before.
pub const PARTNER_ATTEMPTS: usize = 51;

/// How many times the second team of a table may be drawn again because it
/// has faced the first team before.
pub const OPPONENT_ATTEMPTS: usize = 21;

/// The outcome of a search for a team in the pool.
#[derive(Clone, Copy, Debug, PartialEq, Eq, Structural)]
pub struct Choice {
    /// Position in the pool of the team's first player.
    pub first: usize,
    /// Position in the pool of the team's second player.
    pub second: usize,
    /// The two players have not been partners before.
    pub fresh: bool,
    /// The team has not faced its opponents before.
    pub clear: bool,
    /// Draws given up because of an earlier partnership.
    pub partner_redraws: usize,
    /// Draws given up because of an earlier meeting with the opponents.
    pub opponent_redraws: usize,
}

impl Choice {
    /// The team that the choice makes of `pool`.
    pub open spec fn team(self, pool: Seq<usize>) -> Team {
        Team { first: pool[self.first as int], second: pool[self.second as int] }
    }

    /// The choice names two distinct positions of `pool`.
    pub open spec fn fits(self, pool: Seq<usize>) -> bool {
        self.first < pool.len() && self.second < pool.len() && self.first != self.second
    }

    /// A repeat is accepted only when the budget that guards against it is
    /// spent.
    pub open spec fn within_budget(self) -> bool {
        &&& self.partner_redraws <= PARTNER_ATTEMPTS
        &&& self.opponent_redraws <= OPPONENT_ATTEMPTS
        &&& !self.fresh ==> self.partner_redraws == PARTNER_ATTEMPTS
        &&& !self.clear ==> self.opponent_redraws == OPPONENT_ATTEMPTS
    }
}

/// The partnerships of `tables` added to `pairs`.
pub open spec fn with_partners(pairs: Set<(usize, usize)>, tables: Seq<Table>) -> Set<
    (usize, usize),
>
    decreases tables.len(),
{
    if tables.len() == 0 {
        pairs
    } else {
        let table = tables.last();
        with_pair(
            with_pair(
                with_partners(pairs, tables.drop_last()),
                table.team_a.first,
                table.team_a.second,
            ),
            table.team_b.first,
            table.team_b.second,
        )
    }
}

/// The meetings across each of `tables` added to `pairs`.
pub open spec fn with_meetings(pairs: Set<(usize, usize)>, tables: Seq<Table>) -> Set<
    (usize, usize),
>
    decreases tables.len(),
{
    if tables.len() == 0 {
        pairs
    } else {
        with_opponents(
            with_meetings(pairs, tables.drop_last()),
            tables.last().team_a,
            tables.last().team_b,
        )
    }
}

/// The histories only grow: whatever tables a round adds, every pair recorded
/// before is still recorded after, and a history that held its pairs in both
/// orders still does.
pub proof fn lemma_histories_only_grow(pairs: Set<(usize, usize)>, tables: Seq<Table>)
    ensures
        pairs.subset_of(with_partners(pairs, tables)),
        pairs.subset_of(with_meetings(pairs, tables)),
        symmetric(pairs) ==> symmetric(with_partners(pairs, tables)) && symmetric(
            with_meetings(pairs, tables),
        ),
    decreases tables.len(),
{
    if tables.len() > 0 {
        lemma_histories_only_grow(pairs, tables.drop_last());
    }
}

/// What holds of round number `round` of a schedule for `player_count`
/// players: it has `table_count` tables, the players whose turn it is sit out,
/// everybody is accounted for exactly once, and nobody is their own partner.
pub open spec fn round_complete(
    view: RoundView,
    player_count: nat,
    table_count: nat,
    bye_count: nat,
    round: nat,
) -> bool {
    &&& view.tables.len() == table_count
    &&& view.byes.len() == bye_count
    &&& view.byes == bye_players(player_count, bye_count, round)
    &&& view.is_partition(player_count)
    &&& view.teams_proper()
}

/// Searches `pool` for the first team of a table: two players who have not
/// been partners, as long as the budget of redraws lasts.
pub fn choose_partners(pool: &Vec<usize>, partners: &PairHistory) -> (choice: Choice)
    requires
        pool.len() >= 2,
    ensures
        choice.fits(pool@),
        choice.fresh == !partners@.contains((choice.team(pool@).first, choice.team(pool@).second)),
        choice.clear,
        choice.opponent_redraws == 0,
        choice.within_budget(),
{
    let size: usize = pool.len();
    let mut pair = draw_pair(size);
    let mut redraws: usize = 0;
    let mut met = partners.contains(pool[pair.0], pool[pair.1]);
    while met && redraws < PARTNER_ATTEMPTS
        invariant
            size == pool.len(),
            size >= 2,
            pair.0 < size,
            pair.1 < size,
            pair.0 != pair.1,
            redraws <= PARTNER_ATTEMPTS,
            met == partners@.contains((pool@[pair.0 as int], pool@[pair.1 as int])),
        decreases PARTNER_ATTEMPTS - redraws,
    {
        pair = draw_pair(size);
        redraws += 1;
        met = partners.contains(pool[pair.0], pool[pair.1]);
    }
    Choice {
        first: pair.0,
        second: pair.1,
        fresh: !met,
        clear: true,
        partner_redraws: redraws,
        opponent_redraws: 0,
    }
}

/// Searches `pool` for the team that is to face `team_a`: two players who have
/// not been partners and of whom neither has faced a player of `team_a`, as
/// long as the two budgets of redraws last.
pub fn choose_opponents(
    pool: &Vec<usize>,
    team_a: Team,
    partners: &PairHistory,
    neighbors: &PairHistory,
) -> (choice: Choice)
    requires
        pool.len() >= 2,
        neighbors.wf(),
    ensures
        choice.fits(pool@),
        choice.fresh == !partners@.contains((choice.team(pool@).first, choice.team(pool@).second)),
        choice.clear == !faced(neighbors@, team_a, choice.team(pool@)),
        choice.within_budget(),
{
    let size: usize = pool.len();
    let mut pair = draw_pair(size);
    let mut partner_redraws: usize = 0;
    let mut opponent_redraws: usize = 0;
    let mut met = partners.contains(pool[pair.0], pool[pair.1]);
    let mut opposed = neighbors.opposed(
        team_a,
        Team { first: pool[pair.0], second: pool[pair.1] },
    );
    while (met && partner_redraws < PARTNER_ATTEMPTS) || (opposed && opponent_redraws
        < OPPONENT_ATTEMPTS)
        invariant
            size == pool.len(),
            size >= 2,
            neighbors.wf(),
            pair.0 < size,
            pair.1 < size,
            pair.0 != pair.1,
            partner_redraws <= PARTNER_ATTEMPTS,
            opponent_redraws <= OPPONENT_ATTEMPTS,
            met == partners@.contains((pool@[pair.0 as int], pool@[pair.1 as int])),
            opposed == faced(
                neighbors@,
                team_a,
                Team { first: pool@[pair.0 as int], second: pool@[pair.1 as int] },
            ),
        decreases PARTNER_ATTEMPTS - partner_redraws + OPPONENT_ATTEMPTS - opponent_redraws,
    {
        if met && partner_redraws < PARTNER_ATTEMPTS {
            partner_redraws += 1;
        } else {
            opponent_redraws += 1;
        }
        pair = draw_pair(size);
        met = partners.contains(pool[pair.0], pool[pair.1]);
        opposed = neighbors.opposed(team_a, Team { first: pool[pair.0], second: pool[pair.1] });
    }
    Choice {
        first: pair.0,
        second: pair.1,
        fresh: !met,
        clear: !opposed,
        partner_redraws,
        opponent_redraws,
    }
}

/// Seating a table moves its four players from the pool to the seats and
/// loses nobody.
proof fn lemma_table_seated(
    placed: Seq<usize>,
    pool: Seq<usize>,
    i: int,
    j: int,
    k: int,
    l: int,
)
    requires
        0 <= i < pool.len(),
        0 <= j < pool.len(),
        i != j,
        0 <= k < pool.len() - 2,
        0 <= l < pool.len() - 2,
        k != l,
    ensures
        ({
            let rest = without_pair(pool, i, j);
            let four = seq![pool[i], pool[j]] + seq![rest[k], rest[l]];
            (placed + four + without_pair(rest, k, l)).to_multiset() == (placed
                + pool).to_multiset()
        }),
{
    let rest = without_pair(pool, i, j);
    let last = without_pair(rest, k, l);
    let a = seq![pool[i], pool[j]];
    let b = seq![rest[k], rest[l]];
    lemma_without_pair(pool, i, j);
    lemma_without_pair(rest, k, l);
    lemma_multiset_commutative(placed, pool);
    lemma_multiset_commutative(a, rest);
    lemma_multiset_commutative(b, last);
    lemma_multiset_commutative(a, b);
    lemma_multiset_commutative(placed, a + b);
    lemma_multiset_commutative(placed + (a + b), last);
    assert((placed + (a + b) + last).to_multiset() =~= (placed + pool).to_multiset());
}

/// Generates round number `round_index`: takes the sit-outs by rotation, then
/// fills the tables from the rest, and records every partnership and meeting
/// in the two histories.
pub fn generate_round(
    player_count: usize,
    table_count: usize,
    bye_count: usize,
    round_index: usize,
    partners: &mut PairHistory,
    neighbors: &mut PairHistory,
) -> (round: Round)
    requires
        player_count >= 4,
        table_count == player_count / 4,
        bye_count == player_count % 4,
        old(partners).wf(),
        old(neighbors).wf(),
    ensures
        round_complete(
            round@,
            player_count as nat,
            table_count as nat,
            bye_count as nat,
            round_index as nat,
        ),
        final(partners).wf(),
        final(neighbors).wf(),
        final(partners)@ == with_partners(old(partners)@, round@.tables),
        final(neighbors)@ == with_meetings(old(neighbors)@, round@.tables),
{
    let mut pool = full_pool(player_count);
    let byes = select_byes(&mut pool, round_index, bye_count);
    let mut tables: Vec<Table> = Vec::new();
    proof {
        let positions = bye_positions(round_index as int, player_count as int, bye_count as int);
        lemma_bye_positions_fit(round_index as int, player_count as int, bye_count as int);
        lemma_everyone_distinct(player_count as nat);
        lemma_taken_and_remaining(everyone(player_count as nat), positions);
        assert(byes@ + seated(tables@) + pool@ =~= byes@ + pool@);
    }
    let mut t: usize = 0;
    while t < table_count
        invariant
            t <= table_count,
            player_count == 4 * table_count + bye_count,
            tables@.len() == t,
            byes@.len() == bye_count,
            pool@.len() == player_count - bye_count - 4 * t,
            pool@.no_duplicates(),
            (byes@ + seated(tables@) + pool@).to_multiset() == everyone(
                player_count as nat,
            ).to_multiset(),
            forall|k: int| 0 <= k < t ==> (#[trigger] tables@[k]).proper(),
            partners.wf(),
            neighbors.wf(),
            partners@ == with_partners(old(partners)@, tables@),
            neighbors@ == with_meetings(old(neighbors)@, tables@),
        decreases table_count - t,
    {
        let ghost before = pool@;
        let ghost seats = byes@ + seated(tables@);
        let ghost earlier = tables@;

        let choice_a = choose_partners(&pool, partners);
        let team_a = take_pair(&mut pool, choice_a.first, choice_a.second);
        partners.record_team(team_a);
        let ghost rest = pool@;

        let choice_b = choose_opponents(&pool, team_a, partners, neighbors);
        let team_b = take_pair(&mut pool, choice_b.first, choice_b.second);
        let table = Table { team_a, team_b };
        neighbors.record_table(table);
        partners.record_team(team_b);
        tables.push(table);

        proof {
            lemma_without_pair(before, choice_a.first as int, choice_a.second as int);
            lemma_without_pair(rest, choice_b.first as int, choice_b.second as int);
            lemma_table_seated(
                seats,
                before,
                choice_a.first as int,
                choice_a.second as int,
                choice_b.first as int,
                choice_b.second as int,
            );
            lemma_seated_push(earlier, table);
            assert(byes@ + seated(tables@) + pool@ =~= seats + table.players() + pool@);
            assert(tables@.drop_last() =~= earlier);
        }
        t += 1;
    }
    proof {
        assert(pool@ =~= Seq::<usize>::empty());
        assert(byes@ + seated(tables@) + pool@ =~= byes@ + seated(tables@));
    }
    Round { tables, byes }
}

/// Generates a schedule of `round_count` rounds for `player_count` players.
///
/// Every round places each player exactly once, at one of the `table_count`
/// tables or among the `bye_count` sit-outs, and the sit-outs follow the
/// rotation. Repeated partners and opponents are avoided across the whole
/// schedule as far as the budgets of redraws allow.
pub fn generate(
    player_count: usize,
    table_count: usize,
    round_count: usize,
    bye_count: usize,
) -> (schedule: Vec<Round>)
    requires
        player_count >= 4,
        table_count == player_count / 4,
        bye_count == player_count % 4,
    ensures
        schedule.len() == round_count,
        forall|r: int|
            0 <= r < round_count ==> round_complete(
                (#[trigger] schedule@[r])@,
                player_count as nat,
                table_count as nat,
                bye_count as nat,
                r as nat,
            ),
{
    let mut schedule: Vec<Round> = Vec::new();
    let mut partners = PairHistory::new();
    let mut neighbors = PairHistory::new();
    let mut round_index: usize = 0;
    while round_index < round_count
        invariant
            round_index <= round_count,
            player_count >= 4,
            table_count == player_count / 4,
            bye_count == player_count % 4,
            schedule.len() == round_index,
            partners.wf(),
            neighbors.wf(),
            forall|r: int|
                0 <= r < round_index ==> round_complete(
                    (#[trigger] schedule@[r])@,
                    player_count as nat,
                    table_count as nat,
                    bye_count as nat,
                    r as nat,
                ),
        decreases round_count - round_index,
    {
        let round = generate_round(
            player_count,
            table_count,
            bye_count,
            round_index,
            &mut partners,
            &mut neighbors,
        );
        schedule.push(round);
        round_index += 1;
    }
    schedule
}

} // verus!
