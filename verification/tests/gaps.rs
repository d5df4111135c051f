use nums::fastgame::{DiceAmount, Game};
use nums::gaps::{
    analyse, blank_records, find_3_distances, find_4_distances, find_max_midpoint,
    permutation_from_index, sort_by_margin, GapResult,
};

#[test]
fn the_widest_gap_between_thirty_and_seventy() {
    // the pairs: 30 to 70 with margin 20, 0 to 30 with margin 15, 70 to 100 with
    // margin 15; the midpoint 50 is as far from 30 as from 70, so the second
    // end is the closest
    assert_eq!(find_max_midpoint(&[30, 70], 0, 100), (50, 20, 70));
}

#[test]
fn the_gap_to_the_lower_bound_counts() {
    // 0 to 60 with margin 30, 60 to 70 with margin 5, 70 to 100 with margin 15
    assert_eq!(find_max_midpoint(&[60, 70], 0, 100), (30, 30, 60));
}

#[test]
fn the_gap_to_the_upper_bound_counts() {
    // 0 to 10 with margin 5, 10 to 100 with margin 45
    assert_eq!(find_max_midpoint(&[10], 0, 100), (55, 45, 100));
}

#[test]
fn the_first_end_is_the_closest_where_the_gap_is_odd() {
    // 3 to 8: midpoint 5 is 2 from 3 and 3 from 8
    assert_eq!(find_max_midpoint(&[3, 8], 3, 9), (5, 2, 3));
}

#[test]
fn of_gaps_with_one_margin_the_first_met_is_kept() {
    // 0 to 10 and 10 to 20 both have margin 5; neighbours are met before bounds
    assert_eq!(find_max_midpoint(&[0, 10, 20], 0, 20), (5, 5, 10));
    // 10 to 20 between neighbours is met before 0 to 10 at the lower bound
    assert_eq!(find_max_midpoint(&[10, 20], 0, 20), (15, 5, 20));
}

#[test]
fn where_every_margin_is_zero_the_first_pair_counts() {
    // 0 to 1 is the first pair: midpoint 0, which is nearer to 0 than to 1
    assert_eq!(find_max_midpoint(&[0, 1, 2], 0, 3), (0, 0, 0));
    // 7 to 8 is the first pair, before the pairs with the bounds
    assert_eq!(find_max_midpoint(&[7, 8], 7, 9), (7, 0, 7));
}

#[test]
fn for_a_single_number_the_lower_bound_makes_the_first_pair() {
    // 5 to 5: the midpoint is as near to one end as to the other
    assert_eq!(find_max_midpoint(&[5], 5, 6), (5, 0, 5));
    // 4 to 5 has margin 0 and is first; 5 to 6 has no larger one
    assert_eq!(find_max_midpoint(&[5], 4, 6), (4, 0, 4));
    // 0 to 5 has margin 2 and midpoint 2, nearer to 0; 5 to 9 has margin 2 and comes later
    assert_eq!(find_max_midpoint(&[5], 0, 9), (2, 2, 0));
}

#[test]
fn the_widest_gap_lies_within_the_bounds() {
    for (list, min, max) in [
        (vec![0u16, 1, 2], 0u16, 3u16),
        (vec![3], 3, 4),
        (vec![10, 11, 40, 41], 10, 42),
        (vec![0, 65535], 0, 65535),
    ] {
        let (midpoint, margin, closest) = find_max_midpoint(&list, min, max);
        assert!(min <= midpoint && midpoint <= max);
        assert!(min <= closest && closest <= max);
        let mut pairs: Vec<(u16, u16)> = list.windows(2).map(|w| (w[0], w[1])).collect();
        pairs.push((min, list[0]));
        pairs.push((list[list.len() - 1], max));
        assert_eq!(margin, pairs.iter().map(|(a, b)| (b - a) / 2).max().unwrap());
        assert!(pairs
            .iter()
            .any(|(a, b)| (b - a) / 2 == margin && ((*a as u32 + *b as u32) / 2) as u16 == midpoint));
    }
}

#[test]
fn the_midpoint_of_large_numbers_is_exact() {
    assert_eq!(find_max_midpoint(&[60000, 65000], 60000, 65001), (62500, 2500, 65000));
}

#[test]
fn a_bound_on_the_wrong_side_gives_no_margin() {
    // the lower bound lies above the first number, the upper below the last
    assert_eq!(find_max_midpoint(&[10, 12], 50, 5), (11, 1, 12));
}

#[test]
fn throws_are_numbered_with_the_first_die_changing_fastest() {
    assert_eq!(permutation_from_index(0), [1, 1, 1, 1]);
    assert_eq!(permutation_from_index(1), [2, 1, 1, 1]);
    assert_eq!(permutation_from_index(5), [6, 1, 1, 1]);
    assert_eq!(permutation_from_index(6), [1, 2, 1, 1]);
    assert_eq!(permutation_from_index(7), [2, 2, 1, 1]);
    assert_eq!(permutation_from_index(36), [1, 1, 2, 1]);
    assert_eq!(permutation_from_index(216), [1, 1, 1, 2]);
    assert_eq!(permutation_from_index(1295), [6, 6, 6, 6]);
    assert_eq!(permutation_from_index(1296), [1, 1, 1, 1]);
}

#[test]
fn a_record_is_analysed_with_the_dice_in_play() {
    let mut game = Game::new(DiceAmount::Three);
    let mut record = GapResult::new([1, 1, 1, 0]);
    assert!(analyse(&mut game, &mut record, 0, 10));
    assert_eq!(record.permutation, [1, 1, 1, 0]);
    assert_eq!(record.solutions, vec![0, 1, 2, 3, 5, 8, 9]);
    // 5 to 8 has margin 1 as 3 to 5 has, which is met first
    assert_eq!(
        (record.midpoint, record.distance, record.closest),
        find_max_midpoint(&[0, 1, 2, 3, 5, 8, 9], 0, 10)
    );
    assert_eq!((record.midpoint, record.distance, record.closest), (4, 1, 5));
}

#[test]
fn a_record_without_a_reached_number_stays_as_it_was() {
    let mut game = Game::new(DiceAmount::Three);
    let mut record = GapResult::new([1, 1, 1, 0]);
    record.midpoint = 7;
    record.distance = 8;
    record.closest = 9;
    record.solutions = vec![4, 4];
    assert!(!analyse(&mut game, &mut record, 6, 8));
    assert!(record.solutions.is_empty());
    assert_eq!((record.midpoint, record.distance, record.closest), (7, 8, 9));
}

#[test]
fn three_dice_are_analysed_for_each_way_to_pick_them() {
    let records = find_3_distances();
    assert_eq!(records.len(), 56);
    assert_eq!(records[0].permutation, [1, 1, 1, 0]);
    assert_eq!(records[1].permutation, [1, 1, 2, 0]);
    assert_eq!(records[6].permutation, [1, 2, 2, 0]);
    assert_eq!(records[55].permutation, [6, 6, 6, 0]);
    let mut game = Game::new(DiceAmount::Three);
    let mut found = Vec::new();
    for (i, record) in records.iter().enumerate() {
        let p = record.permutation;
        assert!(1 <= p[0] && p[0] <= p[1] && p[1] <= p[2] && p[2] <= 6 && p[3] == 0);
        if i > 0 {
            assert!(records[i - 1].permutation < p);
        }
        game.solve_three_fast(0, 100, p, &mut found);
        assert_eq!(record.solutions, found);
        assert!(!found.is_empty());
        assert_eq!(
            (record.midpoint, record.distance, record.closest),
            find_max_midpoint(&found, 0, 100)
        );
    }
}

#[test]
fn four_dice_are_analysed_for_each_way_to_pick_them() {
    let records = find_4_distances();
    assert_eq!(records.len(), 126);
    assert_eq!(records[0].permutation, [1, 1, 1, 1]);
    assert_eq!(records[125].permutation, [6, 6, 6, 6]);
    let mut game = Game::new(DiceAmount::Four);
    let mut found = Vec::new();
    for (i, record) in records.iter().enumerate() {
        let p = record.permutation;
        assert!(1 <= p[0] && p[0] <= p[1] && p[1] <= p[2] && p[2] <= p[3] && p[3] <= 6);
        if i > 0 {
            assert!(records[i - 1].permutation < p);
        }
        if i % 25 == 0 {
            game.solve_four_fast(0, 1000, p, &mut found);
            assert_eq!(record.solutions, found);
        }
        assert!(!record.solutions.is_empty());
        assert_eq!(
            (record.midpoint, record.distance, record.closest),
            find_max_midpoint(&record.solutions, 0, 1000)
        );
    }
}

fn record(first: u8, distance: u16) -> GapResult {
    let mut record = GapResult::new([first, 0, 0, 0]);
    record.distance = distance;
    record
}

#[test]
fn records_are_sorted_by_falling_margin() {
    let mut records = vec![
        record(1, 5),
        record(2, 9),
        record(3, 5),
        record(4, 0),
        record(5, 9),
        record(6, 7),
    ];
    sort_by_margin(&mut records);
    let order: Vec<(u8, u16)> = records.iter().map(|r| (r.permutation[0], r.distance)).collect();
    // records of one margin keep their order
    assert_eq!(order, vec![(2, 9), (5, 9), (6, 7), (1, 5), (3, 5), (4, 0)]);
    let mut none: Vec<GapResult> = Vec::new();
    sort_by_margin(&mut none);
    assert!(none.is_empty());
}

#[test]
fn sorting_the_analysis_keeps_every_record() {
    let mut records = find_3_distances();
    let mut before: Vec<[u8; 4]> = records.iter().map(|r| r.permutation).collect();
    sort_by_margin(&mut records);
    for pair in records.windows(2) {
        assert!(pair[0].distance >= pair[1].distance);
        if pair[0].distance == pair[1].distance {
            assert!(pair[0].permutation < pair[1].permutation);
        }
    }
    let mut after: Vec<[u8; 4]> = records.iter().map(|r| r.permutation).collect();
    before.sort();
    after.sort();
    assert_eq!(before, after);
}

#[test]
fn the_blank_records_list_every_way_to_pick_the_dice() {
    let three = blank_records(DiceAmount::Three);
    assert_eq!(three.len(), 56);
    let four = blank_records(DiceAmount::Four);
    assert_eq!(four.len(), 126);
    assert_eq!(four[1].permutation, [1, 1, 1, 2]);
    assert_eq!(three[55].permutation, [6, 6, 6, 0]);
    for record in three.iter().chain(four.iter()) {
        assert!(record.solutions.is_empty());
        assert_eq!((record.midpoint, record.distance, record.closest), (0, 0, 0));
    }
    let mut picks: Vec<[u8; 4]> = four.iter().map(|r| r.permutation).collect();
    picks.dedup();
    assert_eq!(picks.len(), 126);
    for a in 1..=6u8 {
        for b in a..=6 {
            for c in b..=6 {
                assert!(three.iter().any(|r| r.permutation == [a, b, c, 0]));
                for d in c..=6 {
                    assert!(four.iter().any(|r| r.permutation == [a, b, c, d]));
                }
            }
        }
    }
}
