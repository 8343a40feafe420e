use euchre_rotator::counts::{derive_counts, schedule_for, Counts};

#[test]
fn counts_follow_from_the_number_of_players() {
    assert_eq!(derive_counts(1), Counts { tables: 0, rounds: 1, byes: 1 });
    assert_eq!(derive_counts(3), Counts { tables: 0, rounds: 3, byes: 3 });
    assert_eq!(derive_counts(4), Counts { tables: 1, rounds: 3, byes: 0 });
    assert_eq!(derive_counts(5), Counts { tables: 1, rounds: 5, byes: 1 });
    assert_eq!(derive_counts(6), Counts { tables: 1, rounds: 6, byes: 2 });
    assert_eq!(derive_counts(7), Counts { tables: 1, rounds: 7, byes: 3 });
    assert_eq!(derive_counts(8), Counts { tables: 2, rounds: 7, byes: 0 });
    assert_eq!(derive_counts(12), Counts { tables: 3, rounds: 11, byes: 0 });
    assert_eq!(derive_counts(14), Counts { tables: 3, rounds: 14, byes: 2 });
    assert_eq!(derive_counts(50), Counts { tables: 12, rounds: 50, byes: 2 });
}

#[test]
fn a_party_gets_the_schedule_of_its_counts() {
    for player_count in [4usize, 5, 12, 14, 23] {
        let counts = derive_counts(player_count);
        let schedule = schedule_for(player_count);
        assert_eq!(schedule.len(), counts.rounds);
        for round in &schedule {
            assert_eq!(round.tables.len(), counts.tables);
            assert_eq!(round.byes.len(), counts.byes);
        }
    }
}
