use nums::engine::{build_table, enumerate, probe};
use nums::fastgame::{DiceAmount, Game, UsedCubes, LIMIT};
use nums::game::calculation::Calculation;
use nums::stages::{
    collect_round, is_closing, is_well_formed, merge_key, merge_round, probe_round, recycle,
    single_round, take_map, Table,
};
use std::collections::BTreeSet;

fn leaf(i: usize, v: u64) -> Box<Calculation> {
    Box::new(Calculation::Cube(i, v))
}

/// The value of a computation in the natural numbers, by the plain rules
/// of arithmetic.
fn value(c: &Calculation) -> Option<u128> {
    match c {
        Calculation::Cube(_, v) => Some(*v as u128),
        Calculation::Add(a, b) => Some(value(a)? + value(b)?),
        Calculation::Sub(a, b) => {
            let (x, y) = (value(a)?, value(b)?);
            if x >= y {
                Some(x - y)
            } else {
                None
            }
        }
        Calculation::Mul(a, b) => Some(value(a)? * value(b)?),
        Calculation::Div(a, b) => {
            let (x, y) = (value(a)?, value(b)?);
            if y > 0 && x % y == 0 {
                Some(x / y)
            } else {
                None
            }
        }
    }
}

fn leaves(c: &Calculation, into: &mut Vec<(usize, u64)>) {
    match c {
        Calculation::Cube(i, v) => into.push((*i, *v)),
        Calculation::Add(a, b)
        | Calculation::Sub(a, b)
        | Calculation::Mul(a, b)
        | Calculation::Div(a, b) => {
            leaves(a, into);
            leaves(b, into);
        }
    }
}

fn is_scaled(face: u64, v: u64) -> bool {
    (0..8).any(|p| face * 10u64.pow(p) == v)
}

/// Every solution gives the target and uses each die in play once.
fn assert_solutions_fit(solutions: &[Calculation], target: u64, dice: &[u8]) {
    for s in solutions {
        assert_eq!(value(s), Some(target as u128), "{:?}", s);
        let mut found = Vec::new();
        leaves(s, &mut found);
        let mut dice_used: Vec<usize> = found.iter().map(|(i, _)| *i).collect();
        dice_used.sort();
        let all: Vec<usize> = (0..dice.len()).collect();
        assert_eq!(dice_used, all, "{:?}", s);
        for (i, v) in found {
            assert!(is_scaled(dice[i] as u64, v), "{:?}", s);
        }
    }
    for (i, a) in solutions.iter().enumerate() {
        for b in &solutions[i + 1..] {
            assert!(a != b);
        }
    }
}

/// One step of the search on two numbers, written out again on its own.
fn step(limit: u64, a: u64, b: u64, into: &mut BTreeSet<u64>) {
    if let Some(s) = a.checked_add(b) {
        if s <= limit {
            into.insert(s);
        }
    }
    if a >= b {
        into.insert(a - b);
    }
    if b >= a {
        into.insert(b - a);
    }
    if let Some(p) = a.checked_mul(b) {
        if p <= limit {
            into.insert(p);
        }
    }
    let tens = |x: u64, y: u64| x % 10 == 0 && y % 10 == 0 && x > 0;
    if b > 0 && a % b == 0 && !tens(a, b) {
        into.insert(a / b);
    }
    if a > 0 && b % a == 0 && !tens(b, a) {
        into.insert(b / a);
    }
}

/// What the dice named by the bits of `set` give, over every shape of
/// computation: each way to split the set in two is tried.
fn all_values(limit: u64, dice: &[u64], set: usize) -> BTreeSet<u64> {
    let mut values = BTreeSet::new();
    if set.count_ones() == 1 {
        let i = set.trailing_zeros() as usize;
        for p in 0..8 {
            values.insert(dice[i] * 10u64.pow(p));
        }
        return values;
    }
    let mut part = (set - 1) & set;
    while part > 0 {
        let rest = set & !part;
        if part < rest {
            let first = all_values(limit, dice, part);
            let second = all_values(limit, dice, rest);
            for a in &first {
                for b in &second {
                    step(limit, *a, *b, &mut values);
                }
            }
        }
        part = (part - 1) & set;
    }
    values
}

fn brute_force(dice: &[u8], min: u16, max: u16) -> Vec<u16> {
    let faces: Vec<u64> = dice.iter().map(|d| *d as u64).collect();
    let all = all_values(LIMIT, &faces, (1 << faces.len()) - 1);
    (min..max).filter(|t| all.contains(&(*t as u64))).collect()
}

#[test]
fn three_dice_reach_six_by_product_and_by_sum() {
    let mut game = Game::new(DiceAmount::Three);
    game.solve(6, [1, 2, 3, 0]);
    let product = Calculation::Mul(leaf(0, 1), Box::new(Calculation::Mul(leaf(1, 2), leaf(2, 3))));
    let sum = Calculation::Add(Box::new(Calculation::Add(leaf(0, 1), leaf(1, 2))), leaf(2, 3));
    assert!(game.solutions.iter().any(|s| *s == product));
    assert!(game.solutions.iter().any(|s| *s == sum));
    assert!(game
        .solutions
        .iter()
        .any(|s| matches!(s, Calculation::Mul(_, _))));
    assert_solutions_fit(&game.solutions, 6, &[1, 2, 3]);
    assert_eq!(game.num, 6);
    assert_eq!(game.dices, [1, 2, 3, 0]);
}

#[test]
fn four_ones_reach_what_every_shape_of_computation_gives() {
    let mut game = Game::new(DiceAmount::Four);
    let mut found = Vec::new();
    game.solve_four_fast(0, 1000, [1, 1, 1, 1], &mut found);
    let expected = brute_force(&[1, 1, 1, 1], 0, 1000);
    assert_eq!(found, expected);
    // 1+1+1+1, 1*1*1*1, 11+11, 10+1+1, 100+1+1, 1000-1*1*1, 10/(1+1)*1
    for t in [0u16, 1, 2, 3, 4, 5, 12, 22, 102, 999] {
        assert!(found.contains(&t), "{}", t);
    }
    assert!(found.len() < 1000);
}

#[test]
fn probing_agrees_with_every_shape_of_computation() {
    let mut three = Game::new(DiceAmount::Three);
    let mut four = Game::new(DiceAmount::Four);
    let mut found = Vec::new();
    for dice in [[1u8, 2, 3, 4], [6, 6, 6, 6], [2, 5, 5, 1], [3, 4, 4, 6]] {
        three.solve_three_fast(0, 100, dice, &mut found);
        assert_eq!(found, brute_force(&dice[0..3], 0, 100), "{:?}", dice);
        four.solve_four_fast(100, 1000, dice, &mut found);
        assert_eq!(found, brute_force(&dice, 100, 1000), "{:?}", dice);
    }
}

#[test]
fn probing_twice_gives_the_same() {
    let mut game = Game::new(DiceAmount::Four);
    let mut first = Vec::new();
    let mut between = Vec::new();
    let mut second = Vec::new();
    game.solve_four_fast(0, 1000, [2, 3, 5, 6], &mut first);
    assert!(!game.result_map_pool.is_empty());
    game.solve_four_fast(0, 1000, [1, 4, 4, 6], &mut between);
    game.solve_three_fast(0, 100, [6, 5, 1, 0], &mut between);
    game.solve(77, [6, 5, 1, 3]);
    game.solve_four_fast(0, 1000, [2, 3, 5, 6], &mut second);
    assert_eq!(first, second);
    let mut fresh = Vec::new();
    Game::new(DiceAmount::Four).solve_four_fast(0, 1000, [2, 3, 5, 6], &mut fresh);
    assert_eq!(first, fresh);
}

#[test]
fn the_result_of_a_probe_replaces_what_the_list_held() {
    let mut game = Game::new(DiceAmount::Three);
    let mut found = vec![9999, 3, 3];
    game.solve_three_fast(0, 10, [1, 1, 1, 0], &mut found);
    assert_eq!(found, brute_force(&[1, 1, 1], 0, 10));
    assert_eq!(found, vec![0, 1, 2, 3, 5, 8, 9]);
}

#[test]
fn probing_and_solving_agree_on_what_is_reached() {
    let mut game = Game::new(DiceAmount::Three);
    let dice = [2u8, 3, 5, 0];
    let mut found = Vec::new();
    game.solve_three_fast(0, 100, dice, &mut found);
    for target in 0..100u16 {
        game.solve(target as u32, dice);
        assert_eq!(
            !game.solutions.is_empty(),
            found.contains(&target),
            "{}",
            target
        );
        assert_solutions_fit(&game.solutions, target as u64, &dice[0..3]);
    }
    let mut game = Game::new(DiceAmount::Four);
    let dice = [2u8, 3, 5, 6];
    game.solve_four_fast(100, 1000, dice, &mut found);
    for target in [100u16, 123, 256, 365, 500, 777, 901, 997, 999] {
        game.solve(target as u32, dice);
        assert_eq!(
            !game.solutions.is_empty(),
            found.contains(&target),
            "{}",
            target
        );
        assert_solutions_fit(&game.solutions, target as u64, &dice);
    }
}

/// The last steps that give `target` from all of the dice: the operation
/// and the values of its operands, over every way to split the dice in two.
fn last_steps(dice: &[u8], target: u64) -> BTreeSet<(char, u64, u64)> {
    let faces: Vec<u64> = dice.iter().map(|d| *d as u64).collect();
    let all = (1usize << faces.len()) - 1;
    let mut steps = BTreeSet::new();
    let tens = |x: u64, y: u64| x % 10 == 0 && y % 10 == 0 && x > 0;
    for part in 1..all {
        let rest = all & !part;
        for a in all_values(LIMIT, &faces, part) {
            for b in all_values(LIMIT, &faces, rest) {
                if a.checked_add(b) == Some(target) && target <= LIMIT {
                    steps.insert(('+', a.max(b), a.min(b)));
                }
                if a >= b && a - b == target {
                    steps.insert(('-', a, b));
                }
                if a.checked_mul(b) == Some(target) && target <= LIMIT {
                    steps.insert(('*', a.max(b), a.min(b)));
                }
                if b > 0 && a % b == 0 && !tens(a, b) && a / b == target {
                    steps.insert(('/', a, b));
                }
            }
        }
    }
    steps
}

fn last_step_of(s: &Calculation) -> (char, u64, u64) {
    let number = |c: &Calculation| value(c).unwrap() as u64;
    match s {
        Calculation::Add(a, b) => ('+', number(a).max(number(b)), number(a).min(number(b))),
        Calculation::Sub(a, b) => ('-', number(a), number(b)),
        Calculation::Mul(a, b) => ('*', number(a).max(number(b)), number(a).min(number(b))),
        Calculation::Div(a, b) => ('/', number(a), number(b)),
        Calculation::Cube(_, _) => panic!("a leaf uses one die only"),
    }
}

#[test]
fn solving_finds_a_solution_for_each_last_step() {
    let mut three = Game::new(DiceAmount::Three);
    let mut four = Game::new(DiceAmount::Four);
    for (dice, target) in [
        ([1u8, 2, 3, 4], 24u32),
        ([1, 2, 3, 4], 10),
        ([1, 1, 1, 1], 12),
        ([6, 6, 6, 6], 600),
        ([2, 5, 5, 3], 75),
    ] {
        four.solve(target, dice);
        assert_solutions_fit(&four.solutions, target as u64, &dice);
        let found: BTreeSet<(char, u64, u64)> = four.solutions.iter().map(last_step_of).collect();
        assert_eq!(found, last_steps(&dice, target as u64), "{:?} {}", dice, target);
        assert!(!found.is_empty());
        three.solve(target, dice);
        assert_solutions_fit(&three.solutions, target as u64, &dice[0..3]);
        let found: BTreeSet<(char, u64, u64)> = three.solutions.iter().map(last_step_of).collect();
        assert_eq!(found, last_steps(&dice[0..3], target as u64), "{:?} {}", dice, target);
    }
    // 24 from 1, 2, 3, 4: as 4 * 6, as 12 * 2, as 8 * 3, as 20 + 4, as 25 - 1
    four.solve(24, [1, 2, 3, 4]);
    let found: BTreeSet<(char, u64, u64)> = four.solutions.iter().map(last_step_of).collect();
    for step in [('*', 6, 4), ('*', 12, 2), ('*', 8, 3), ('+', 20, 4), ('-', 25, 1), ('/', 24, 1)] {
        assert!(found.contains(&step), "{:?}", step);
    }
    assert!(!found.contains(&('/', 1, 24)));
    assert!(!found.contains(&('-', 1, 25)));
}

#[test]
fn solving_clears_the_solutions_of_the_call_before() {
    let mut game = Game::new(DiceAmount::Three);
    game.solve(6, [1, 2, 3, 0]);
    assert!(!game.solutions.is_empty());
    game.solve(7, [1, 1, 1, 0]);
    assert!(game.solutions.is_empty());
    game.solve(6, [1, 2, 3, 0]);
    let count = game.solutions.len();
    game.solve(6, [1, 2, 3, 0]);
    assert_eq!(game.solutions.len(), count);
}

#[test]
fn a_game_of_three_dice_leaves_the_fourth_out() {
    let mut game = Game::new(DiceAmount::Three);
    let mut with_six = Vec::new();
    let mut with_one = Vec::new();
    game.solve_three_fast(0, 100, [2, 3, 4, 6], &mut with_six);
    game.solve_three_fast(0, 100, [2, 3, 4, 1], &mut with_one);
    assert_eq!(with_six, with_one);
    game.solve(9, [2, 3, 4, 6]);
    assert_solutions_fit(&game.solutions, 9, &[2, 3, 4]);
}

#[test]
fn an_empty_range_gives_an_empty_list() {
    let mut game = Game::new(DiceAmount::Three);
    let mut found = vec![1, 2, 3];
    game.solve_three_fast(50, 50, [1, 2, 3, 0], &mut found);
    assert!(found.is_empty());
    game.solve_three_fast(60, 50, [1, 2, 3, 0], &mut found);
    assert!(found.is_empty());
}

#[test]
fn a_range_that_the_dice_miss_gives_an_empty_list() {
    let mut game = Game::new(DiceAmount::Three);
    let mut found = vec![1];
    assert!(brute_force(&[1, 1, 1], 6, 8).is_empty());
    game.solve_three_fast(6, 8, [1, 1, 1, 0], &mut found);
    assert!(found.is_empty());
    game.solve(7, [1, 1, 1, 0]);
    assert!(game.solutions.is_empty());
}

#[test]
fn the_range_may_end_at_the_largest_number() {
    let mut game = Game::new(DiceAmount::Three);
    let mut found = Vec::new();
    game.solve_three_fast(65000, u16::MAX, [6, 5, 5, 0], &mut found);
    assert_eq!(found, brute_force(&[6, 5, 5], 65000, u16::MAX));
    // 60000 + 5000 + 500
    assert!(found.contains(&65500));
    assert!(!found.contains(&u16::MAX));
}

#[test]
fn dice_that_show_zero_reach_zero_only() {
    let mut game = Game::new(DiceAmount::Three);
    let mut found = Vec::new();
    game.solve_three_fast(0, 100, [0, 0, 0, 0], &mut found);
    assert_eq!(found, vec![0]);
    game.solve(0, [0, 0, 0, 0]);
    assert!(!game.solutions.is_empty());
}

#[test]
fn any_byte_is_taken_as_a_face() {
    let mut game = Game::new(DiceAmount::Four);
    let mut found = Vec::new();
    game.solve_four_fast(0, 1000, [255, 255, 200, 7], &mut found);
    assert_eq!(found, brute_force(&[255, 255, 200, 7], 0, 1000));
}

#[test]
fn a_new_game_holds_nothing() {
    let game = Game::new(DiceAmount::Four);
    assert!(game.num_dices == DiceAmount::Four);
    assert_eq!(game.num, 0);
    assert_eq!(game.dices, [0, 0, 0, 0]);
    assert!(game.solutions.is_empty());
    assert!(game.result_map_pool.is_empty());
    assert!(game.dp.is_empty());
}

#[test]
fn the_maps_of_a_search_go_to_the_pool_emptied() {
    let mut game = Game::new(DiceAmount::Three);
    let mut found = Vec::new();
    game.solve_three_fast(0, 100, [1, 2, 3, 0], &mut found);
    assert!(game.dp.is_empty());
    // three single dice and three pairs
    assert_eq!(game.result_map_pool.len(), 6);
    assert!(game.result_map_pool.iter().all(|m| m.is_empty()));
    game.solve_three_fast(0, 100, [4, 5, 6, 0], &mut found);
    assert_eq!(game.result_map_pool.len(), 6);
    let mut game = Game::new(DiceAmount::Four);
    game.solve(10, [1, 2, 3, 4]);
    assert!(game.dp.is_empty());
    // four single dice, six pairs, twelve triples
    assert_eq!(game.result_map_pool.len(), 22);
    assert!(game.result_map_pool.iter().all(|m| m.is_empty()));
}

#[test]
fn a_map_from_the_pool_is_handed_out_empty() {
    let mut pool = Vec::new();
    let mut map = take_map(&mut pool);
    assert!(map.is_empty());
    map.insert(5, Calculation::Cube(0, 5));
    pool.push(map);
    let again = take_map(&mut pool);
    assert!(again.is_empty());
    assert!(pool.is_empty());
}

#[test]
fn the_table_holds_a_map_for_each_set_of_dice() {
    let mut dp: Table = Vec::new();
    let mut pool = Vec::new();
    build_table(LIMIT, &vec![1, 2, 3], &mut dp, &mut pool);
    let keys: Vec<UsedCubes> = dp.iter().map(|(k, _)| *k).collect();
    assert_eq!(keys.len(), 6);
    for key in [
        UsedCubes::OneCube(0),
        UsedCubes::OneCube(1),
        UsedCubes::OneCube(2),
        UsedCubes::TwoCubes(1, 0),
        UsedCubes::TwoCubes(2, 0),
        UsedCubes::TwoCubes(2, 1),
    ] {
        assert!(keys.contains(&key), "{:?}", key);
    }
    let pair = &dp.iter().find(|(k, _)| *k == UsedCubes::TwoCubes(2, 1)).unwrap().1;
    for v in [5u64, 1, 6, 23, 32, 28, 17, 60, 15, 10] {
        assert!(pair.contains_key(&v), "{}", v);
    }
    assert!(!pair.contains_key(&4));
    recycle(&mut dp, &mut pool);
    assert!(dp.is_empty());
    assert_eq!(pool.len(), 6);
    build_table(LIMIT, &vec![1, 2, 3, 4], &mut dp, &mut pool);
    assert_eq!(dp.len(), 4 + 6 + 12);
    assert!(pool.is_empty());
    assert!(dp.iter().any(|(k, _)| *k == UsedCubes::ThreeCubes(0, 3, 1)));
    assert!(!dp.iter().any(|(k, _)| *k == UsedCubes::ThreeCubes(3, 3, 1)));
}

#[test]
fn keys_are_merged_and_joined_by_the_dice_they_use() {
    let one = UsedCubes::OneCube;
    let two = UsedCubes::TwoCubes;
    assert_eq!(merge_key(one(2), one(1), false), Some(two(2, 1)));
    assert_eq!(merge_key(one(1), one(2), false), None);
    assert_eq!(merge_key(one(1), one(1), false), None);
    assert_eq!(merge_key(one(2), one(1), true), None);
    assert_eq!(
        merge_key(one(0), two(2, 1), true),
        Some(UsedCubes::ThreeCubes(0, 2, 1))
    );
    assert_eq!(merge_key(one(2), two(2, 1), true), None);
    assert_eq!(merge_key(one(0), two(2, 1), false), None);
    assert!(is_closing(one(0), two(2, 1), 3));
    assert!(!is_closing(one(1), two(2, 1), 3));
    assert!(!is_closing(two(2, 1), one(0), 3));
    assert!(!is_closing(one(0), two(2, 1), 4));
    assert!(is_closing(two(1, 0), two(3, 2), 4));
    assert!(is_closing(two(3, 2), two(1, 0), 4));
    assert!(!is_closing(two(2, 0), two(3, 2), 4));
    assert!(is_closing(one(3), UsedCubes::ThreeCubes(0, 2, 1), 4));
    assert!(!is_closing(one(2), UsedCubes::ThreeCubes(0, 2, 1), 4));
}

#[test]
fn the_engine_works_on_a_table_and_a_pool_of_its_caller() {
    let mut dp: Table = Vec::new();
    let mut pool = Vec::new();
    let mut found = Vec::new();
    probe(LIMIT, &vec![1, 2, 3], &mut dp, &mut pool, 0, 100, &mut found);
    assert_eq!(found, brute_force(&[1, 2, 3], 0, 100));
    let mut solutions = Vec::new();
    enumerate(LIMIT, &vec![1, 2, 3], &mut dp, &mut pool, &mut solutions, 36);
    assert_solutions_fit(&solutions, 36, &[1, 2, 3]);
    assert!(!solutions.is_empty());
    assert!(dp.is_empty());
}

#[test]
fn the_rounds_of_the_search_can_be_run_one_by_one() {
    let mut dp: Table = Vec::new();
    let mut pool = Vec::new();
    single_round(&vec![2, 3, 5], &mut dp, &mut pool);
    assert_eq!(dp.len(), 3);
    assert!(dp.iter().enumerate().all(|(i, (k, m))| *k == UsedCubes::OneCube(i as u32) && m.len() == 8));
    merge_round(LIMIT, true, &mut dp, &mut pool);
    // there are no pairs to merge a single die with
    assert_eq!(dp.len(), 3);
    merge_round(LIMIT, false, &mut dp, &mut pool);
    assert_eq!(dp.len(), 6);
    assert!(dp[3..].iter().all(|(k, _)| matches!(k, UsedCubes::TwoCubes(_, _))));
    let mut found = vec![false; 100];
    probe_round(LIMIT, 3, &dp, 0, &mut found);
    let reached: Vec<u16> = (0..100u16).filter(|t| found[*t as usize]).collect();
    assert_eq!(reached, brute_force(&[2, 3, 5], 0, 100));
    let mut none = vec![false; 100];
    probe_round(LIMIT, 4, &dp, 0, &mut none);
    // for four dice a die and a pair are not all dice
    assert!(none.iter().all(|f| !*f));
    let mut solutions = Vec::new();
    collect_round(LIMIT, 3, &dp, &mut solutions, 30);
    assert_solutions_fit(&solutions, 30, &[2, 3, 5]);
    let found: BTreeSet<(char, u64, u64)> = solutions.iter().map(last_step_of).collect();
    assert_eq!(found, last_steps(&[2, 3, 5], 30));
}

#[test]
fn a_key_is_well_formed_by_its_positions() {
    assert!(is_well_formed(UsedCubes::OneCube(2), 3));
    assert!(!is_well_formed(UsedCubes::OneCube(3), 3));
    assert!(is_well_formed(UsedCubes::TwoCubes(2, 1), 3));
    assert!(!is_well_formed(UsedCubes::TwoCubes(1, 2), 3));
    assert!(!is_well_formed(UsedCubes::TwoCubes(1, 1), 3));
    assert!(is_well_formed(UsedCubes::ThreeCubes(0, 3, 1), 4));
    assert!(!is_well_formed(UsedCubes::ThreeCubes(3, 3, 1), 4));
    assert!(!is_well_formed(UsedCubes::ThreeCubes(0, 3, 1), 3));
    assert!(!is_closing(UsedCubes::OneCube(0), UsedCubes::TwoCubes(1, 2), 3));
    assert!(!is_closing(UsedCubes::OneCube(0), UsedCubes::OneCube(1), 2));
}

#[test]
fn a_pool_larger_than_the_table_keeps_its_size() {
    let mut game = Game::new(DiceAmount::Four);
    for _ in 0..30 {
        game.result_map_pool.push(Default::default());
    }
    let mut found = Vec::new();
    game.solve_four_fast(0, 100, [1, 2, 3, 4], &mut found);
    assert_eq!(game.result_map_pool.len(), 30);
    game.solve_three_fast(0, 100, [1, 2, 3, 4], &mut found);
    assert_eq!(game.result_map_pool.len(), 30);
    let mut small = Game::new(DiceAmount::Three);
    small.solve_three_fast(0, 100, [1, 2, 3, 4], &mut found);
    assert_eq!(small.result_map_pool.len(), 6);
    small.solve_four_fast(0, 100, [1, 2, 3, 4], &mut found);
    assert_eq!(small.result_map_pool.len(), 22);
    small.solve_three_fast(0, 100, [1, 2, 3, 4], &mut found);
    assert_eq!(small.result_map_pool.len(), 22);
    assert!(small.result_map_pool.iter().all(|m| m.is_empty()));
}

#[test]
fn the_order_of_the_dice_does_not_matter() {
    let mut three = Game::new(DiceAmount::Three);
    let mut four = Game::new(DiceAmount::Four);
    let mut first = Vec::new();
    let mut other = Vec::new();
    three.solve_three_fast(0, 100, [2, 5, 6, 0], &mut first);
    for dice in [[2u8, 6, 5, 0], [5, 2, 6, 0], [5, 6, 2, 0], [6, 2, 5, 0], [6, 5, 2, 0]] {
        three.solve_three_fast(0, 100, dice, &mut other);
        assert_eq!(first, other, "{:?}", dice);
    }
    four.solve_four_fast(0, 1000, [1, 3, 4, 6], &mut first);
    for dice in [[6u8, 4, 3, 1], [3, 1, 6, 4], [4, 6, 1, 3], [1, 4, 3, 6]] {
        four.solve_four_fast(0, 1000, dice, &mut other);
        assert_eq!(first, other, "{:?}", dice);
    }
}
