use euchre_rotator::draw::{draw_pair, step_over};
use euchre_rotator::generate::{
    choose_opponents, choose_partners, generate, generate_round, OPPONENT_ATTEMPTS,
    PARTNER_ATTEMPTS,
};
use euchre_rotator::history::PairHistory;
use euchre_rotator::seating::{Round, Team};

fn players_of(round: &Round) -> Vec<usize> {
    let mut players: Vec<usize> = round.byes.clone();
    for table in &round.tables {
        players.push(table.team_a.first);
        players.push(table.team_a.second);
        players.push(table.team_b.first);
        players.push(table.team_b.second);
    }
    players
}

fn assert_partition(round: &Round, player_count: usize) {
    let mut players = players_of(round);
    players.sort();
    let everyone: Vec<usize> = (1..=player_count).collect();
    assert_eq!(players, everyone);
}

#[test]
fn step_over_keeps_the_first_and_skips_it() {
    assert_eq!(step_over(0, 0), (0, 1));
    assert_eq!(step_over(3, 0), (3, 0));
    assert_eq!(step_over(3, 2), (3, 2));
    assert_eq!(step_over(3, 3), (3, 4));
    assert_eq!(step_over(3, 7), (3, 8));
}

#[test]
fn drawn_pairs_are_distinct_positions_of_the_pool() {
    for size in 2..12usize {
        for _ in 0..200 {
            let (first, second) = draw_pair(size);
            assert!(first < size);
            assert!(second < size);
            assert_ne!(first, second);
        }
    }
}

#[test]
fn drawn_pairs_reach_every_position() {
    let size = 4usize;
    let mut seen = [[false; 4]; 4];
    for _ in 0..2000 {
        let (first, second) = draw_pair(size);
        seen[first][second] = true;
    }
    for first in 0..size {
        for second in 0..size {
            assert_eq!(seen[first][second], first != second);
        }
    }
}

#[test]
fn a_fresh_team_is_chosen_without_redraws_from_an_empty_history() {
    let pool = vec![1, 2, 3, 4, 5, 6, 7, 8];
    let partners = PairHistory::new();
    for _ in 0..50 {
        let choice = choose_partners(&pool, &partners);
        assert!(choice.first < pool.len());
        assert!(choice.second < pool.len());
        assert_ne!(choice.first, choice.second);
        assert!(choice.fresh);
        assert!(choice.clear);
        assert_eq!(choice.partner_redraws, 0);
        assert_eq!(choice.opponent_redraws, 0);
    }
}

#[test]
fn the_one_fresh_team_is_found_while_the_budget_lasts() {
    let pool = vec![1, 2, 3];
    let mut partners = PairHistory::new();
    partners.record(1, 2);
    partners.record(1, 3);
    let mut found = 0;
    for _ in 0..200 {
        let choice = choose_partners(&pool, &partners);
        let team = (pool[choice.first], pool[choice.second]);
        assert!(choice.partner_redraws <= PARTNER_ATTEMPTS);
        assert_eq!(choice.fresh, !partners.contains(team.0, team.1));
        if choice.fresh {
            assert!(team == (2, 3) || team == (3, 2));
            found += 1;
        } else {
            assert_eq!(choice.partner_redraws, PARTNER_ATTEMPTS);
        }
    }
    // a third of the draws is fresh: 52 misses in a row do not happen 100 times
    assert!(found > 100);
}

#[test]
fn a_repeated_team_is_accepted_when_the_budget_is_spent() {
    let pool = vec![1, 2];
    let mut partners = PairHistory::new();
    partners.record(1, 2);
    let choice = choose_partners(&pool, &partners);
    assert_ne!(choice.first, choice.second);
    assert!(choice.first < 2 && choice.second < 2);
    assert!(!choice.fresh);
    assert_eq!(choice.partner_redraws, PARTNER_ATTEMPTS);
    assert_eq!(PARTNER_ATTEMPTS, 51);
}

#[test]
fn opponents_that_have_met_are_accepted_when_the_budget_is_spent() {
    let pool = vec![3, 4];
    let team_a = Team { first: 1, second: 2 };
    let partners = PairHistory::new();
    let mut neighbors = PairHistory::new();
    neighbors.record(1, 3);
    let choice = choose_opponents(&pool, team_a, &partners, &neighbors);
    assert!(choice.fresh);
    assert!(!choice.clear);
    assert_eq!(choice.partner_redraws, 0);
    assert_eq!(choice.opponent_redraws, OPPONENT_ATTEMPTS);
    assert_eq!(OPPONENT_ATTEMPTS, 21);
}

#[test]
fn opponents_that_have_not_met_are_preferred() {
    let pool = vec![3, 4, 5, 6];
    let team_a = Team { first: 1, second: 2 };
    let partners = PairHistory::new();
    let mut neighbors = PairHistory::new();
    neighbors.record(1, 3);
    let mut clear = 0;
    for _ in 0..200 {
        let choice = choose_opponents(&pool, team_a, &partners, &neighbors);
        let team_b = Team { first: pool[choice.first], second: pool[choice.second] };
        assert_eq!(choice.clear, !neighbors.opposed(team_a, team_b));
        assert!(choice.fresh);
        if choice.clear {
            assert!(team_b.first != 3 && team_b.second != 3);
            clear += 1;
        } else {
            assert_eq!(choice.opponent_redraws, OPPONENT_ATTEMPTS);
        }
    }
    // half of the draws is clear
    assert!(clear > 190);
}

#[test]
fn both_budgets_can_be_spent_on_one_team() {
    let pool = vec![3, 4];
    let team_a = Team { first: 1, second: 2 };
    let mut partners = PairHistory::new();
    partners.record(3, 4);
    let mut neighbors = PairHistory::new();
    neighbors.record(2, 4);
    let choice = choose_opponents(&pool, team_a, &partners, &neighbors);
    assert!(!choice.fresh);
    assert!(!choice.clear);
    assert_eq!(choice.partner_redraws, PARTNER_ATTEMPTS);
    assert_eq!(choice.opponent_redraws, OPPONENT_ATTEMPTS);
}

#[test]
fn every_round_places_every_player_exactly_once() {
    for player_count in 4..=50usize {
        let table_count = player_count / 4;
        let bye_count = player_count % 4;
        let round_count = if bye_count == 0 { player_count - 1 } else { player_count };
        let schedule = generate(player_count, table_count, round_count, bye_count);
        for round in &schedule {
            assert_partition(round, player_count);
        }
    }
}

#[test]
fn a_schedule_has_the_counts_asked_for() {
    for player_count in 4..=30usize {
        let table_count = player_count / 4;
        let bye_count = player_count % 4;
        for round_count in [0usize, 1, player_count - 1, player_count, player_count + 3] {
            let schedule = generate(player_count, table_count, round_count, bye_count);
            assert_eq!(schedule.len(), round_count);
            for round in &schedule {
                assert_eq!(round.tables.len(), table_count);
                assert_eq!(round.byes.len(), bye_count);
            }
        }
    }
}

#[test]
fn no_team_pairs_a_player_with_themselves() {
    for player_count in [4usize, 5, 6, 7, 8, 13, 22, 31, 50] {
        let schedule = generate(player_count, player_count / 4, player_count, player_count % 4);
        for round in &schedule {
            for table in &round.tables {
                assert_ne!(table.team_a.first, table.team_a.second);
                assert_ne!(table.team_b.first, table.team_b.second);
            }
        }
    }
}

#[test]
fn byes_follow_the_rotation_in_the_generated_order() {
    let schedule = generate(6, 1, 6, 2);
    let byes: Vec<Vec<usize>> = schedule.iter().map(|round| round.byes.clone()).collect();
    assert_eq!(
        byes,
        vec![vec![1, 6], vec![2, 5], vec![3, 4], vec![4, 3], vec![5, 2], vec![6, 1]]
    );
    let schedule = generate(7, 1, 3, 3);
    let byes: Vec<Vec<usize>> = schedule.iter().map(|round| round.byes.clone()).collect();
    assert_eq!(byes, vec![vec![1, 2, 7], vec![2, 3, 6], vec![3, 4, 5]]);
    let schedule = generate(9, 2, 9, 1);
    for (index, round) in schedule.iter().enumerate() {
        assert_eq!(round.byes, vec![index + 1]);
    }
}

#[test]
fn every_player_gets_a_bye_in_a_full_schedule() {
    for player_count in [5usize, 6, 7, 9, 10, 11, 17, 18, 19] {
        let bye_count = player_count % 4;
        let schedule = generate(player_count, player_count / 4, player_count, bye_count);
        for player in 1..=player_count {
            assert!(schedule.iter().any(|round| round.byes.contains(&player)));
        }
    }
}

#[test]
fn four_players_play_three_rounds_at_one_table() {
    let schedule = generate(4, 1, 3, 0);
    assert_eq!(schedule.len(), 3);
    for round in &schedule {
        assert_eq!(round.tables.len(), 1);
        assert!(round.byes.is_empty());
        assert_partition(round, 4);
    }
}

#[test]
fn four_players_never_repeat_a_partner_in_three_rounds() {
    // with one table the second team is what the first leaves, so three
    // fresh first teams make three rounds without a repeat; the search finds
    // a fresh first team unless 52 draws in a row miss it
    for _ in 0..20 {
        let schedule = generate(4, 1, 3, 0);
        let mut seen: Vec<(usize, usize)> = Vec::new();
        for round in &schedule {
            let table = round.tables[0];
            for team in [table.team_a, table.team_b] {
                let key = (team.first.min(team.second), team.first.max(team.second));
                assert!(!seen.contains(&key));
                seen.push(key);
            }
        }
        assert_eq!(seen.len(), 6);
    }
}

#[test]
fn eight_players_rarely_repeat_a_partner() {
    let schedule = generate(8, 2, 7, 0);
    let mut seen: Vec<(usize, usize)> = Vec::new();
    let mut teams = 0usize;
    let mut repeats = 0usize;
    for (index, round) in schedule.iter().enumerate() {
        for table in &round.tables {
            for team in [table.team_a, table.team_b] {
                let key = (team.first.min(team.second), team.first.max(team.second));
                teams += 1;
                if seen.contains(&key) {
                    repeats += 1;
                    // the teams of the first round are disjoint and meet an empty history
                    assert!(index > 0);
                } else {
                    seen.push(key);
                }
            }
        }
    }
    assert_eq!(teams, 28);
    assert!(repeats * 2 < teams, "{} of {} teams repeat", repeats, teams);
}

#[test]
fn twelve_players_play_eleven_rounds_at_three_tables() {
    let schedule = generate(12, 3, 11, 0);
    assert_eq!(schedule.len(), 11);
    for round in &schedule {
        assert_eq!(round.tables.len(), 3);
        assert!(round.byes.is_empty());
        for table in &round.tables {
            let mut four =
                vec![table.team_a.first, table.team_a.second, table.team_b.first, table.team_b.second];
            four.sort();
            four.dedup();
            assert_eq!(four.len(), 4);
        }
        assert_partition(round, 12);
    }
}

#[test]
fn fourteen_players_sit_out_twice_each_in_fourteen_rounds() {
    let schedule = generate(14, 3, 14, 2);
    assert_eq!(schedule.len(), 14);
    let mut sat_out = vec![0usize; 15];
    for round in &schedule {
        assert_eq!(round.tables.len(), 3);
        assert_eq!(round.byes.len(), 2);
        assert_eq!(players_of(round).len(), 14);
        assert_partition(round, 14);
        for player in &round.byes {
            sat_out[*player] += 1;
        }
    }
    for player in 1..=14 {
        assert_eq!(sat_out[player], 2);
    }
}

#[test]
fn a_round_records_its_partnerships_and_meetings() {
    let mut partners = PairHistory::new();
    let mut neighbors = PairHistory::new();
    let round = generate_round(9, 2, 1, 4, &mut partners, &mut neighbors);
    assert_eq!(round.byes, vec![5]);
    assert_eq!(round.tables.len(), 2);
    assert_partition(&round, 9);
    for table in &round.tables {
        assert!(partners.partnered(table.team_a));
        assert!(partners.partnered(table.team_b));
        assert!(neighbors.opposed(table.team_a, table.team_b));
        for a in [table.team_a.first, table.team_a.second] {
            for b in [table.team_b.first, table.team_b.second] {
                assert!(neighbors.contains(a, b));
                assert!(neighbors.contains(b, a));
                assert!(!partners.contains(a, b));
            }
        }
    }
    // nobody else has met: two tables make four partnerships and eight meetings
    let mut partnerships = 0;
    let mut meetings = 0;
    for a in 1..=9usize {
        for b in 1..=9usize {
            if partners.contains(a, b) {
                partnerships += 1;
            }
            if neighbors.contains(a, b) {
                meetings += 1;
            }
        }
    }
    assert_eq!(partnerships, 8);
    assert_eq!(meetings, 16);
}
