use nums::game::calculation::Calculation;
use nums::output::{game_string, Output};

fn lines(text: &str) -> Vec<&str> {
    text.split('\n').collect()
}

#[test]
fn a_single_digit_in_large_form() {
    let text = Output::digits_string(1);
    assert_eq!(
        lines(&text),
        vec![
            "      __  ",
            "     /_ | ",
            "      | | ",
            "      | | ",
            "      | | ",
            "      |_| ",
        ]
    );
}

#[test]
fn every_digit_in_large_form() {
    let text = Output::digits_string(9876543210);
    assert_eq!(
        lines(&text),
        vec![
            "       ___     ___    ______     __    _____   _  _     ____    ___    __    ___   ",
            "      / _ \\   / _ \\  |____  |   / /   | ____| | || |   |___ \\  |__ \\  /_ |  / _ \\  ",
            "     | (_) | | (_) |     / /   / /_   | |__   | || |_    __) |    ) |  | | | | | | ",
            "      \\__, |  > _ <     / /   | '_ \\  |___ \\  |__   _|  |__ <    / /   | | | | | | ",
            "        / /  | (_) |   / /    | (_) |  ___) |    | |    ___) |  / /_   | | | |_| | ",
            "       /_/    \\___/   /_/      \\___/  |____/     |_|   |____/  |____|  |_|  \\___/  ",
        ]
    );
}

#[test]
fn zero_is_one_digit() {
    let text = Output::digits_string(0);
    assert_eq!(
        lines(&text),
        vec![
            "       ___   ",
            "      / _ \\  ",
            "     | | | | ",
            "     | | | | ",
            "     | |_| | ",
            "      \\___/  ",
        ]
    );
}

#[test]
fn the_largest_number_has_twenty_digits() {
    let text = Output::digits_string(u64::MAX);
    assert_eq!(
        lines(&text),
        vec![
            "      __    ___    _  _     _  _       __    ______   _  _     _  _      ___    ______   ____    ______    ___     ___    _____   _____   __     __    __   _____  ",
            "     /_ |  / _ \\  | || |   | || |     / /   |____  | | || |   | || |    / _ \\  |____  | |___ \\  |____  |  / _ \\   / _ \\  | ____| | ____| /_ |   / /   /_ | | ____| ",
            "      | | | (_) | | || |_  | || |_   / /_       / /  | || |_  | || |_  | | | |     / /    __) |     / /  | | | | | (_) | | |__   | |__    | |  / /_    | | | |__   ",
            "      | |  > _ <  |__   _| |__   _| | '_ \\     / /   |__   _| |__   _| | | | |    / /    |__ <     / /   | | | |  \\__, | |___ \\  |___ \\   | | | '_ \\   | | |___ \\  ",
            "      | | | (_) |    | |      | |   | (_) |   / /       | |      | |   | |_| |   / /     ___) |   / /    | |_| |    / /   ___) |  ___) |  | | | (_) |  | |  ___) | ",
            "      |_|  \\___/     |_|      |_|    \\___/   /_/        |_|      |_|    \\___/   /_/     |____/   /_/      \\___/    /_/   |____/  |____/   |_|  \\___/   |_| |____/  ",
        ]
    );
}

#[test]
fn a_number_under_its_heading() {
    let text = Output::number_string(42);
    assert_eq!(
        lines(&text),
        vec![
            "                     ______     _     _               _  _     ___   ",
            "                    |___  /    | |   | |  _          | || |   |__ \\  ",
            "                       / / __ _| |__ | | (_)         | || |_     ) | ",
            "                      / / / _` | '_ \\| |             |__   _|   / /  ",
            "                     / /_| (_| | | | | |  _             | |    / /_  ",
            "                    /_____\\__,_|_| |_|_| (_)            |_|   |____| ",
        ]
    );
}

#[test]
fn the_dice_under_their_heading() {
    let text = Output::dices_string(&[1, 2, 3]);
    assert_eq!(
        lines(&text),
        vec![
            "     __          ___   _       __     _               __        ___         ____   ",
            "     \\ \\        / (_) (_)     / _|   | |  _          /_ |      |__ \\       |___ \\  ",
            "      \\ \\  /\\  / / _   _ _ __| |_ ___| | (_)          | |         ) |        __) | ",
            "       \\ \\/  \\/ / | | | | '__|  _/ _ \\ |              | |        / /        |__ <  ",
            "        \\  /\\  /  | |_| | |  | ||  __/ |  _           | |       / /_        ___) | ",
            "         \\/  \\/    \\__,_|_|  |_| \\___|_| (_)          |_|      |____|      |____/  ",
        ]
    );
}

#[test]
fn dice_above_nine_take_more_digits() {
    let text = Output::dices_string(&[12, 6]);
    assert_eq!(
        lines(&text),
        vec![
            "     __          ___   _       __     _               __   ___           __   ",
            "     \\ \\        / (_) (_)     / _|   | |  _          /_ | |__ \\         / /   ",
            "      \\ \\  /\\  / / _   _ _ __| |_ ___| | (_)          | |    ) |       / /_   ",
            "       \\ \\/  \\/ / | | | | '__|  _/ _ \\ |              | |   / /       | '_ \\  ",
            "        \\  /\\  /  | |_| | |  | ||  __/ |  _           | |  / /_       | (_) | ",
            "         \\/  \\/    \\__,_|_|  |_| \\___|_| (_)          |_| |____|       \\___/  ",
        ]
    );
}

#[test]
fn no_dice_leave_the_heading() {
    let text = Output::dices_string(&[]);
    assert_eq!(
        lines(&text),
        vec![
            "     __          ___   _       __     _         ",
            "     \\ \\        / (_) (_)     / _|   | |  _     ",
            "      \\ \\  /\\  / / _   _ _ __| |_ ___| | (_)    ",
            "       \\ \\/  \\/ / | | | | '__|  _/ _ \\ |        ",
            "        \\  /\\  /  | |_| | |  | ||  __/ |  _     ",
            "         \\/  \\/    \\__,_|_|  |_| \\___|_| (_)    ",
        ]
    );
}

#[test]
fn the_text_has_six_lines_and_no_line_end_at_its_end() {
    for text in [
        Output::digits_string(305),
        Output::number_string(305),
        Output::dices_string(&[3, 0, 5]),
    ] {
        assert_eq!(text.matches('\n').count(), 5);
        assert!(!text.ends_with('\n'));
        assert!(lines(&text).iter().all(|l| l.starts_with("     ")));
    }
}

fn leaf(v: u64) -> Box<Calculation> {
    Box::new(Calculation::Cube(0, v))
}

#[test]
fn a_leaf_is_written_as_its_number() {
    assert_eq!(Calculation::Cube(3, 0).to_text(), "0");
    assert_eq!(Calculation::Cube(0, 7).to_text(), "7");
    assert_eq!(Calculation::Cube(1, 60000000).to_text(), "60000000");
    assert_eq!(Calculation::Cube(1, u64::MAX).to_text(), "18446744073709551615");
}

#[test]
fn an_operation_is_written_in_brackets() {
    assert_eq!(Calculation::Add(leaf(1), leaf(20)).to_text(), "(1 + 20)");
    assert_eq!(Calculation::Sub(leaf(30), leaf(2)).to_text(), "(30 - 2)");
    assert_eq!(Calculation::Mul(leaf(5), leaf(6)).to_text(), "(5 * 6)");
    assert_eq!(Calculation::Div(leaf(600), leaf(3)).to_text(), "(600 / 3)");
    let nested = Calculation::Div(
        Box::new(Calculation::Mul(leaf(40), Box::new(Calculation::Add(leaf(1), leaf(2))))),
        Box::new(Calculation::Sub(leaf(9), leaf(3))),
    );
    assert_eq!(nested.to_text(), "((40 * (1 + 2)) / (9 - 3))");
}

#[test]
fn a_game_is_shown_as_its_number_over_its_dice() {
    let expected = format!(
        "\n{}\n\n{}\n",
        Output::number_string(123),
        Output::dices_string(&[4, 5, 6])
    );
    assert_eq!(game_string(123, &[4, 5, 6]), expected);
    let game = nums::game::Game::of(nums::game::DiceAmount::Three, 123, [4, 5, 6, 1]);
    assert_eq!(game.to_text(), expected);
    let game = nums::game::Game::of(nums::game::DiceAmount::Four, 123, [4, 5, 6, 1]);
    assert_eq!(
        game.to_text(),
        format!(
            "\n{}\n\n{}\n",
            Output::number_string(123),
            Output::dices_string(&[4, 5, 6, 1])
        )
    );
    let mut game = nums::fastgame::Game::new(nums::fastgame::DiceAmount::Three);
    game.num = 123;
    game.dices = [4, 5, 6, 1];
    assert_eq!(game.to_text(), expected);
}
