//! The counts of a schedule that follow from the number of players.

use vstd::prelude::*;

use crate::reorder::{is_order, shuffle, shuffle_order};
use crate::generate::round_complete;
use crate::seating::Round;

verus! {

/// How many tables, rounds and sit-outs a party needs.
#[derive(Clone, Copy, Debug, PartialEq, Eq, Structural)]
pub struct Counts {
    /// Tables per round: four players each.
    pub tables: usize,
    /// Rounds of the schedule.
    pub rounds: usize,
    /// Players who sit out each round: those who do not fill a table.
    pub byes: usize,
}

/// The counts for a party of `player_count`: a table for every four players,
/// the rest sitting out, and as many rounds as it takes for everyone to have
/// met: one fewer than there are players where nobody sits out, and as many
/// as there are players where somebody does.
pub open spec fn counts_for(player_count: nat) -> Counts {
    Counts {
        tables: (player_count / 4) as usize,
        rounds: if player_count % 4 == 0 {
            (player_count - 1) as usize
        } else {
            player_count as usize
        },
        byes: (player_count % 4) as usize,
    }
}

/// Works out the counts for a party of `player_count`.
pub fn derive_counts(player_count: usize) -> (counts: Counts)
    requires
        player_count >= 1,
    ensures
        counts == counts_for(player_count as nat),
{
    let byes: usize = player_count % 4;
    let rounds: usize = if byes == 0 {
        player_count - 1
    } else {
        player_count
    };
    Counts { tables: player_count / 4, rounds, byes }
}

/// The schedule for a party of `player_count`, with the counts that follow
/// from it and the rounds in the dealt order.
pub fn schedule_for(player_count: usize) -> (schedule: Vec<Round>)
    requires
        player_count >= 4,
    ensures
        schedule.len() == counts_for(player_count as nat).rounds,
        is_order(shuffle_order(schedule.len() as nat), schedule.len() as nat),
        forall|i: int|
            0 <= i < schedule.len() ==> round_complete(
                (#[trigger] schedule@[i])@,
                player_count as nat,
                counts_for(player_count as nat).tables as nat,
                counts_for(player_count as nat).byes as nat,
                shuffle_order(schedule.len() as nat)[i] as nat,
            ),
{
    let counts = derive_counts(player_count);
    shuffle(player_count, counts.tables, counts.rounds, counts.byes)
}

} // verus!
