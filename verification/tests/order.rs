use nums::game::calculation::Calculation;
use nums::order::{compare_solutions_by_score, sort_by_score};
use std::cmp::Ordering;

fn leaf(v: u64) -> Box<Calculation> {
    Box::new(Calculation::Cube(0, v))
}

#[test]
fn solutions_of_one_score_keep_their_order() {
    let mut solutions = vec![
        Calculation::Mul(leaf(1), leaf(2)),
        Calculation::Add(leaf(5), leaf(6)),
        Calculation::Mul(leaf(3), leaf(4)),
        Calculation::Add(leaf(7), leaf(8)),
        Calculation::Add(leaf(1), leaf(1)),
    ];
    sort_by_score(&mut solutions);
    let texts: Vec<String> = solutions.iter().map(|s| s.to_text()).collect();
    assert_eq!(
        texts,
        vec!["(5 + 6)", "(7 + 8)", "(1 + 1)", "(1 * 2)", "(3 * 4)"]
    );
}

#[test]
fn the_simpler_solution_comes_first() {
    let sum = Calculation::Add(leaf(1), leaf(2));
    let product = Calculation::Mul(leaf(1), leaf(2));
    assert_eq!(compare_solutions_by_score(&sum, &product), Ordering::Less);
    assert_eq!(compare_solutions_by_score(&product, &sum), Ordering::Greater);
}

#[test]
fn solutions_of_one_score_are_never_called_equal() {
    let sum = Calculation::Add(leaf(1), leaf(2));
    let other = Calculation::Add(leaf(3), leaf(4));
    assert_eq!(compare_solutions_by_score(&sum, &other), Ordering::Less);
    assert_eq!(compare_solutions_by_score(&other, &sum), Ordering::Less);
    assert_eq!(compare_solutions_by_score(&sum, &sum), Ordering::Less);
}

#[test]
fn solutions_are_sorted_by_rising_score() {
    let mut solutions = vec![
        Calculation::Div(leaf(60), leaf(2)),
        Calculation::Add(leaf(1), leaf(2)),
        Calculation::Mul(leaf(100), leaf(2)),
        Calculation::Sub(leaf(3), leaf(2)),
        Calculation::Add(leaf(10), leaf(20)),
    ];
    sort_by_score(&mut solutions);
    let scores: Vec<u32> = solutions.iter().map(|s| s.score()).collect();
    assert_eq!(scores, vec![40, 41, 44, 54, 56]);
    assert!(solutions[0] == Calculation::Add(leaf(1), leaf(2)));
    assert!(solutions[4] == Calculation::Div(leaf(60), leaf(2)));
    let mut none: Vec<Calculation> = Vec::new();
    sort_by_score(&mut none);
    assert!(none.is_empty());
}

#[test]
fn the_solutions_of_a_game_are_sorted() {
    let mut game = nums::fastgame::Game::new(nums::fastgame::DiceAmount::Four);
    game.solve(24, [1, 2, 3, 4]);
    let count = game.solutions.len();
    sort_by_score(&mut game.solutions);
    assert_eq!(game.solutions.len(), count);
    for pair in game.solutions.windows(2) {
        assert!(pair[0].score() <= pair[1].score());
    }
}
