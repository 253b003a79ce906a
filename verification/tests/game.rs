use yatzy::{
    Combo, Dice, Game, GameOptions, NewDiceError, NewGameError, RerollError, Scorecard,
    SelectComboError,
};

fn fresh_options(dice: [u8; 5], rerolls_left: u8) -> GameOptions {
    GameOptions {
        dice,
        rerolls_left,
        ones: None,
        twos: None,
        threes: None,
        fours: None,
        fives: None,
        sixes: None,
        one_pair: None,
        two_pairs: None,
        three_of_a_kind: None,
        four_of_a_kind: None,
        small_straight: None,
        large_straight: None,
        full_house: None,
        chance: None,
        yatzy: None,
    }
}

fn full_options(dice: [u8; 5]) -> GameOptions {
    GameOptions {
        dice,
        rerolls_left: 0,
        ones: Some(3),
        twos: Some(6),
        threes: Some(9),
        fours: Some(12),
        fives: Some(15),
        sixes: Some(18),
        one_pair: Some(12),
        two_pairs: Some(22),
        three_of_a_kind: Some(18),
        four_of_a_kind: Some(24),
        small_straight: Some(15),
        large_straight: Some(20),
        full_house: Some(28),
        chance: Some(30),
        yatzy: Some(50),
    }
}

#[test]
fn new_game_sorts_the_dice() {
    let game = Game::new(fresh_options([5, 1, 4, 1, 6], 2)).unwrap();
    assert_eq!(game.dice().to_array(), [1, 1, 4, 5, 6]);
    assert_eq!(game.rerolls_left(), 2);
    assert_eq!(game.round(), 0);
    assert!(!game.ended());
    assert_eq!(game.score(), 0);
    assert_eq!(game.card(), Scorecard::new());
    assert_eq!(game.combo(Combo::Ones), None);
}

#[test]
fn new_game_rejects_three_rerolls() {
    assert_eq!(
        Game::new(fresh_options([1, 2, 3, 4, 5], 3)),
        Err(NewGameError::InvalidRerollsLeft)
    );
}

#[test]
fn new_game_rejects_a_bad_die() {
    assert_eq!(
        Game::new(fresh_options([1, 2, 3, 4, 7], 0)),
        Err(NewGameError::InvalidDice(NewDiceError::InvalidDieValue))
    );
}

#[test]
fn new_game_rejects_illegal_points() {
    let cases: Vec<(Combo, u8)> = vec![
        (Combo::Ones, 6),
        (Combo::Twos, 3),
        (Combo::Threes, 16),
        (Combo::Fours, 6),
        (Combo::Fives, 30),
        (Combo::Sixes, 5),
        (Combo::OnePair, 14),
        (Combo::TwoPairs, 4),
        (Combo::ThreeOfAKind, 21),
        (Combo::FourOfAKind, 28),
        (Combo::SmallStraight, 20),
        (Combo::LargeStraight, 15),
        (Combo::FullHouse, 10),
        (Combo::Chance, 0),
        (Combo::Yatzy, 25),
    ];
    for (combo, points) in cases {
        let mut options = fresh_options([1, 2, 3, 4, 5], 1);
        match combo {
            Combo::Ones => options.ones = Some(points),
            Combo::Twos => options.twos = Some(points),
            Combo::Threes => options.threes = Some(points),
            Combo::Fours => options.fours = Some(points),
            Combo::Fives => options.fives = Some(points),
            Combo::Sixes => options.sixes = Some(points),
            Combo::OnePair => options.one_pair = Some(points),
            Combo::TwoPairs => options.two_pairs = Some(points),
            Combo::ThreeOfAKind => options.three_of_a_kind = Some(points),
            Combo::FourOfAKind => options.four_of_a_kind = Some(points),
            Combo::SmallStraight => options.small_straight = Some(points),
            Combo::LargeStraight => options.large_straight = Some(points),
            Combo::FullHouse => options.full_house = Some(points),
            Combo::Chance => options.chance = Some(points),
            Combo::Yatzy => options.yatzy = Some(points),
        }
        assert_eq!(Game::new(options), Err(NewGameError::InvalidCombo(combo)));
    }
}

#[test]
fn new_game_names_the_first_fault() {
    let mut options = fresh_options([0, 2, 3, 4, 5], 3);
    options.twos = Some(3);
    options.yatzy = Some(1);
    assert_eq!(Game::new(options), Err(NewGameError::InvalidRerollsLeft));
    options.rerolls_left = 2;
    assert_eq!(Game::new(options), Err(NewGameError::InvalidCombo(Combo::Twos)));
    options.twos = Some(4);
    assert_eq!(Game::new(options), Err(NewGameError::InvalidCombo(Combo::Yatzy)));
    options.yatzy = Some(0);
    assert_eq!(
        Game::new(options),
        Err(NewGameError::InvalidDice(NewDiceError::InvalidDieValue))
    );
    options.dice = [6, 2, 3, 4, 5];
    assert!(Game::new(options).is_ok());
}

#[test]
fn a_full_card_ends_the_game() {
    let game = Game::new(full_options([1, 2, 3, 4, 5])).unwrap();
    assert!(game.ended());
    assert_eq!(game.round(), 15);
    assert!(game.has_bonus());
    assert_eq!(game.score(), 63 + 50 + 12 + 22 + 18 + 24 + 15 + 20 + 28 + 30 + 50);
}

#[test]
fn the_bonus_comes_at_sixty_three() {
    let mut options = full_options([1, 2, 3, 4, 5]);
    let with = Game::new(options).unwrap();
    assert!(with.has_bonus());
    options.ones = Some(2);
    let without = Game::new(options).unwrap();
    assert!(!without.has_bonus());
    assert_eq!(with.score(), without.score() + 1 + 50);
    assert_eq!(without.card().numbers(), 62);
    assert_eq!(with.card().numbers(), 63);
}

#[test]
fn new_raw_checks_nothing() {
    let game = Game::new_raw(
        Dice::new_raw([6, 5, 4, 3, 2]),
        7,
        Some(200),
        Some(200),
        None,
        None,
        None,
        None,
        None,
        None,
        None,
        None,
        None,
        None,
        None,
        Some(0),
        None,
    );
    assert_eq!(game.rerolls_left(), 7);
    assert_eq!(game.dice().to_array(), [6, 5, 4, 3, 2]);
    assert_eq!(game.combo(Combo::Ones), Some(200));
    assert_eq!(game.combo(Combo::Chance), Some(0));
    assert_eq!(game.round(), 3);
    assert!(game.has_bonus());
    assert_eq!(game.score(), 450);
}

#[test]
fn select_combo_fills_the_line_and_rolls() {
    let mut rng = rand::rng();
    let mut game = Game::new(fresh_options([3, 3, 4, 4, 4], 1)).unwrap();
    assert_eq!(game.select_combo(Combo::FullHouse, &mut rng), Ok(()));
    assert_eq!(game.combo(Combo::FullHouse), Some(18));
    assert_eq!(game.rerolls_left(), 2);
    assert_eq!(game.round(), 1);
    assert!(game.dice().is_canonical());
    assert_eq!(
        game.select_combo(Combo::FullHouse, &mut rng),
        Err(SelectComboError::ComboAlreadyFilled)
    );
    assert_eq!(game.combo(Combo::FullHouse), Some(18));
}

#[test]
fn select_combo_to_sets_the_next_dice() {
    let mut game = Game::new(fresh_options([1, 1, 1, 1, 1], 0)).unwrap();
    let next = Dice::new([2, 3, 4, 5, 6]).unwrap();
    assert_eq!(game.select_combo_to(Combo::Yatzy, next), Ok(()));
    assert_eq!(game.combo(Combo::Yatzy), Some(50));
    assert_eq!(game.dice(), next);
    assert_eq!(game.rerolls_left(), 2);
    assert_eq!(game.score(), 50);
}

#[test]
fn the_last_line_ends_the_game() {
    let mut rng = rand::rng();
    let mut options = full_options([6, 6, 6, 6, 6]);
    options.yatzy = None;
    options.rerolls_left = 1;
    let mut game = Game::new(options).unwrap();
    assert!(!game.ended());
    assert_eq!(game.select_combo(Combo::Yatzy, &mut rng), Ok(()));
    assert!(game.ended());
    assert_eq!(game.rerolls_left(), 0);
    assert_eq!(game.dice().to_array(), [6, 6, 6, 6, 6]);
    assert_eq!(game.select_combo(Combo::Yatzy, &mut rng), Err(SelectComboError::GameEnded));
    assert_eq!(game.reroll(&[6], &mut rng), Err(RerollError::GameEnded));
    assert_eq!(game.reroll_to(&[6], &[1]), Err(RerollError::GameEnded));
}

#[test]
fn scratching_a_line_is_legal() {
    let mut rng = rand::rng();
    let mut game = Game::new(fresh_options([2, 3, 4, 5, 6], 0)).unwrap();
    assert_eq!(game.select_combo(Combo::Ones, &mut rng), Ok(()));
    assert_eq!(game.combo(Combo::Ones), Some(0));
    assert_eq!(game.round(), 1);
}

#[test]
fn reroll_counts_down() {
    let mut rng = rand::rng();
    let mut game = Game::new(fresh_options([1, 2, 3, 4, 6], 2)).unwrap();
    assert_eq!(game.reroll(&[1, 2], &mut rng), Ok(()));
    assert_eq!(game.rerolls_left(), 1);
    assert!(game.dice().holds(&[3, 4, 6]));
    assert_eq!(game.reroll(&[3, 4, 6], &mut rng), Ok(()));
    assert_eq!(game.rerolls_left(), 0);
    let before = game;
    assert_eq!(game.reroll(&[], &mut rng), Err(RerollError::NoRerollsLeft));
    assert_eq!(game, before);
}

#[test]
fn reroll_refuses_dice_not_on_the_table() {
    let mut rng = rand::rng();
    let mut game = Game::new(fresh_options([1, 2, 3, 4, 6], 2)).unwrap();
    assert_eq!(game.reroll(&[5], &mut rng), Err(RerollError::InvalidDice));
    assert_eq!(game.rerolls_left(), 2);
    assert_eq!(game.dice().to_array(), [1, 2, 3, 4, 6]);
}

#[test]
fn reroll_to_puts_the_rolled_dice_down() {
    let mut game = Game::new(fresh_options([1, 2, 3, 4, 6], 2)).unwrap();
    assert_eq!(game.reroll_to(&[1, 2], &[6, 6]), Ok(()));
    assert_eq!(game.dice().to_array(), [3, 4, 6, 6, 6]);
    assert_eq!(game.rerolls_left(), 1);
    assert_eq!(game.reroll_to(&[5], &[1]), Err(RerollError::InvalidDice));
    assert_eq!(game.reroll_to(&[3], &[1]), Ok(()));
    assert_eq!(game.reroll_to(&[1], &[1]), Err(RerollError::NoRerollsLeft));
}

#[test]
fn replace_dice_spends_no_reroll() {
    let mut game = Game::new(fresh_options([1, 2, 3, 4, 6], 2)).unwrap();
    assert!(game.replace_dice(&[6], &[5]).is_ok());
    assert_eq!(game.dice().to_array(), [1, 2, 3, 4, 5]);
    assert_eq!(game.rerolls_left(), 2);
    assert!(game.replace_dice(&[6], &[5]).is_err());
}

#[test]
fn raw_setters() {
    let mut game = Game::new(fresh_options([1, 2, 3, 4, 6], 2)).unwrap();
    game.set_combo_raw(Combo::Sixes, Some(24));
    game.set_rerolls(0);
    assert_eq!(game.combo(Combo::Sixes), Some(24));
    assert_eq!(game.rerolls_left(), 0);
    game.set_combo_raw(Combo::Sixes, None);
    assert_eq!(game.combo(Combo::Sixes), None);
}

#[test]
fn a_random_game_starts_fresh() {
    let mut rng = rand::rng();
    let game = Game::new_random(&mut rng);
    assert!(game.dice().is_canonical());
    assert_eq!(game.rerolls_left(), 2);
    assert_eq!(game.round(), 0);
}

#[test]
fn a_whole_game_takes_fifteen_lines() {
    let mut rng = rand::rng();
    let mut game = Game::new_random(&mut rng);
    let mut walk = Combo::iter();
    let mut filled = 0;
    while let Some(combo) = walk.next() {
        let worth = combo.points(game.dice());
        assert_eq!(game.select_combo(combo, &mut rng), Ok(()));
        assert_eq!(game.combo(combo), Some(worth));
        filled += 1;
        assert_eq!(game.round(), filled);
    }
    assert!(game.ended());
    assert_eq!(game.rerolls_left(), 0);
}

#[test]
fn game_errors_have_messages() {
    assert_eq!(NewGameError::InvalidRerollsLeft.message(), "invalid number of rerolls left");
    assert_eq!(NewGameError::InvalidCombo(Combo::Ones).message(), "invalid value for combo");
    assert_eq!(
        NewGameError::InvalidDice(NewDiceError::InvalidDieValue).message(),
        "invalid dice"
    );
    assert_eq!(RerollError::GameEnded.message(), "game ended");
    assert_eq!(RerollError::InvalidDice.message(), "selected dice are not in hand");
    assert_eq!(RerollError::NoRerollsLeft.message(), "no rerolls left");
    assert_eq!(SelectComboError::ComboAlreadyFilled.message(), "combo already filled");
    assert_eq!(SelectComboError::GameEnded.message(), "game ended");
}

#[test]
fn scorecard_finds_the_first_illegal_line() {
    let mut card = Scorecard::new();
    assert_eq!(card.find_illegal(), None);
    card.set(Combo::Chance, Some(4));
    card.set(Combo::Threes, Some(4));
    assert_eq!(card.find_illegal(), Some(Combo::Threes));
    card.set(Combo::Threes, Some(3));
    assert_eq!(card.find_illegal(), Some(Combo::Chance));
    assert_eq!(card.round(), 2);
    assert_eq!(card.score(), 7);
    assert_eq!(card.combo(Combo::Threes), Some(3));
}
