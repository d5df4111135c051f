use nums::game::calculation::Calculation;
use nums::game::{DiceAmount, Game};

fn leaf(i: usize, v: u64) -> Box<Calculation> {
    Box::new(Calculation::Cube(i, v))
}

fn value(c: &Calculation) -> Option<u128> {
    match c {
        Calculation::Cube(_, v) => Some(*v as u128),
        Calculation::Add(a, b) => Some(value(a)? + value(b)?),
        Calculation::Sub(a, b) => value(a)?.checked_sub(value(b)?),
        Calculation::Mul(a, b) => Some(value(a)? * value(b)?),
        Calculation::Div(a, b) => {
            let (x, y) = (value(a)?, value(b)?);
            if y > 0 && x % y == 0 {
                Some(x / y)
            } else {
                None
            }
        }
    }
}

#[test]
fn a_game_of_given_number_and_dice() {
    let game = Game::of(DiceAmount::Three, 42, [1, 2, 3, 4]);
    assert!(matches!(game.num_dices, DiceAmount::Three));
    assert_eq!(game.num, 42);
    assert_eq!(game.dices, [1, 2, 3, 4]);
    assert!(game.solutions.is_empty());
}

#[test]
fn a_random_game_has_its_number_and_dice_in_range() {
    let mut numbers = Vec::new();
    let mut faces = Vec::new();
    for _ in 0..300 {
        let game = Game::new(DiceAmount::Three);
        assert!(1 <= game.num && game.num <= 99);
        assert!(game.dices.iter().all(|d| 1 <= *d && *d <= 6));
        assert!(game.solutions.is_empty());
        numbers.push(game.num);
        faces.extend(game.dices);
        let game = Game::new(DiceAmount::Four);
        assert!(100 <= game.num && game.num <= 999);
        assert!(matches!(game.num_dices, DiceAmount::Four));
    }
    // the draws are not one number over and over
    assert!(numbers.iter().any(|n| *n != numbers[0]));
    for face in 1..=6 {
        assert!(faces.contains(&face));
    }
}

#[test]
fn a_game_of_a_given_number_has_random_dice() {
    let mut faces = Vec::new();
    for _ in 0..100 {
        let game = Game::of_number(DiceAmount::Four, 321);
        assert_eq!(game.num, 321);
        assert!(game.dices.iter().all(|d| 1 <= *d && *d <= 6));
        faces.extend(game.dices);
    }
    assert!(faces.iter().any(|f| *f != faces[0]));
}

#[test]
fn the_game_of_three_dice_is_solved() {
    let mut game = Game::of(DiceAmount::Three, 6, [1, 2, 3, 6]);
    game.solve();
    let product = Calculation::Mul(leaf(0, 1), Box::new(Calculation::Mul(leaf(1, 2), leaf(2, 3))));
    assert!(game.solutions.iter().any(|s| *s == product));
    for s in &game.solutions {
        assert_eq!(value(s), Some(6));
    }
    assert_eq!(game.num, 6);
    assert_eq!(game.dices, [1, 2, 3, 6]);
}

#[test]
fn the_game_of_four_dice_is_solved() {
    let mut game = Game::of(DiceAmount::Four, 1000, [1, 2, 3, 4]);
    game.solve();
    assert!(!game.solutions.is_empty());
    for s in &game.solutions {
        assert_eq!(value(s), Some(1000));
    }
    for (i, a) in game.solutions.iter().enumerate() {
        for b in &game.solutions[i + 1..] {
            assert!(a != b);
        }
    }
}

#[test]
fn solving_again_repeats_no_solution() {
    let mut game = Game::of(DiceAmount::Four, 24, [1, 2, 3, 4]);
    game.solve();
    let first: Vec<Calculation> = game.solutions.clone();
    assert!(!first.is_empty());
    game.solve();
    // the solutions of the first call stay in their places; what the second
    // call adds gives the target and differs from all before it
    assert!(game.solutions.len() >= first.len());
    for (kept, was) in game.solutions.iter().zip(first.iter()) {
        assert_eq!(format!("{:?}", kept), format!("{:?}", was));
    }
    for (i, a) in game.solutions.iter().enumerate() {
        assert_eq!(value(a), Some(24));
        for b in &game.solutions[i + 1..] {
            assert!(a != b);
        }
    }
}

#[test]
fn solutions_found_before_stay() {
    let mut game = Game::of(DiceAmount::Three, 6, [1, 2, 3, 0]);
    game.solutions.push(Calculation::Cube(9, 99));
    game.solve();
    assert!(matches!(game.solutions[0], Calculation::Cube(9, 99)));
    assert!(game.solutions.len() > 1);
}

#[test]
fn numbers_above_four_thousand_million_are_reached() {
    // 60000000 * 600 + 6 - 6 does not fit into 32 bits
    let mut game = Game::of(DiceAmount::Four, 36_000_000_000, [6, 6, 6, 6]);
    game.solve();
    assert!(!game.solutions.is_empty());
    for s in &game.solutions {
        assert_eq!(value(s), Some(36_000_000_000));
    }
    let mut small = nums::fastgame::Game::new(nums::fastgame::DiceAmount::Four);
    // in the engine of the small numbers the product is left out
    small.solve(0, [6, 6, 6, 6]);
    assert!(small
        .solutions
        .iter()
        .all(|s| value(s) == Some(0)));
}

#[test]
fn a_number_that_the_dice_miss_has_no_solution() {
    let mut game = Game::of(DiceAmount::Three, 7, [1, 1, 1, 1]);
    game.solve();
    assert!(game.solutions.is_empty());
}
