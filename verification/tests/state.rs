use yatzy::reach::{game_states_by_empty_field_count, kept_totals, number_sums, states_with_empty_fields};
use yatzy::state::{card_from_state, state_from_card};
use yatzy::{game_from_state, state_from_game, Combo, Dice, FieldState, Game, GameState, Scorecard};

fn fresh_game() -> Game {
    Game::from_parts(Dice::new([1, 2, 3, 4, 5]).unwrap(), 2, Scorecard::new())
}

fn filled_state(numbers_total: u8) -> GameState {
    GameState {
        numbers_total,
        ones: FieldState::Filled,
        twos: FieldState::Filled,
        threes: FieldState::Filled,
        fours: FieldState::Filled,
        fives: FieldState::Filled,
        sixes: FieldState::Filled,
        one_pair: FieldState::Filled,
        two_pairs: FieldState::Filled,
        three_of_a_kind: FieldState::Filled,
        four_of_a_kind: FieldState::Filled,
        small_straight: FieldState::Filled,
        large_straight: FieldState::Filled,
        full_house: FieldState::Filled,
        chance: FieldState::Filled,
        yatzy: FieldState::Filled,
    }
}

#[test]
fn the_state_of_a_fresh_game() {
    let state = state_from_game(fresh_game());
    assert_eq!(state, GameState::initial());
    assert_eq!(state.numbers_total, 0);
    assert_eq!(state.empty_fields(), 15);
    assert!(state.is_canonical());
}

#[test]
fn the_state_forgets_dice_and_rerolls() {
    let mut card = Scorecard::new();
    card.set(Combo::Sixes, Some(18));
    card.set(Combo::Yatzy, Some(0));
    let a = Game::from_parts(Dice::new([1, 1, 1, 1, 1]).unwrap(), 0, card);
    let b = Game::from_parts(Dice::new([2, 3, 4, 5, 6]).unwrap(), 2, card);
    assert_eq!(state_from_game(a), state_from_game(b));
    assert_eq!(state_from_game(a), state_from_card(&card));
}

#[test]
fn the_state_keeps_the_total_where_the_bonus_is_in_reach() {
    let mut card = Scorecard::new();
    card.set(Combo::Sixes, Some(18));
    card.set(Combo::Chance, Some(23));
    let state = state_from_card(&card);
    assert_eq!(state.numbers_total, 18);
    assert_eq!(state.sixes, FieldState::Filled);
    assert_eq!(state.chance, FieldState::Filled);
    assert_eq!(state.ones, FieldState::Empty);
    assert_eq!(state.empty_fields(), 13);
}

#[test]
fn the_state_caps_the_total_at_sixty_three() {
    let mut card = Scorecard::new();
    card.set(Combo::Sixes, Some(30));
    card.set(Combo::Fives, Some(25));
    card.set(Combo::Fours, Some(20));
    assert_eq!(state_from_card(&card).numbers_total, 63);
    card.set(Combo::Fours, Some(8));
    assert_eq!(state_from_card(&card).numbers_total, 63);
    card.set(Combo::Fours, Some(4));
    assert_eq!(state_from_card(&card).numbers_total, 59);
}

#[test]
fn the_state_drops_a_total_that_cannot_reach_the_bonus() {
    let mut card = Scorecard::new();
    card.set(Combo::Sixes, Some(6));
    card.set(Combo::Fives, Some(5));
    card.set(Combo::Fours, Some(4));
    // 15 points, and at most 5 + 10 + 15 more: 45 is short of 63.
    assert_eq!(state_from_card(&card).numbers_total, 0);
    card.set(Combo::Sixes, Some(24));
    // 33 points and at most 30 more: exactly 63.
    assert_eq!(state_from_card(&card).numbers_total, 33);
    card.set(Combo::Sixes, Some(18));
    assert_eq!(state_from_card(&card).numbers_total, 0);
}

#[test]
fn the_game_of_a_state() {
    let mut state = GameState::initial();
    state.numbers_total = 40;
    state.threes = FieldState::Filled;
    state.sixes = FieldState::Filled;
    state.chance = FieldState::Filled;
    let dice = Dice::new([2, 2, 3, 3, 6]).unwrap();
    let game = game_from_state(state, dice);
    assert_eq!(game.dice(), dice);
    assert_eq!(game.rerolls_left(), 2);
    assert_eq!(game.combo(Combo::Ones), None);
    assert_eq!(game.combo(Combo::Threes), Some(40));
    assert_eq!(game.combo(Combo::Sixes), Some(0));
    assert_eq!(game.combo(Combo::Chance), Some(0));
    assert_eq!(game.combo(Combo::Yatzy), None);
    assert_eq!(game.card(), card_from_state(state));
    assert_eq!(state_from_game(game), state);
}

#[test]
fn state_to_game_to_state_is_the_state() {
    let dice = [Dice::new([1, 1, 1, 1, 1]).unwrap(), Dice::new([2, 3, 4, 5, 6]).unwrap()];
    for n in [1u8, 2, 14, 15] {
        for state in states_with_empty_fields(n) {
            assert!(state.is_canonical());
            for d in dice {
                assert_eq!(state_from_game(game_from_state(state, d)), state);
            }
        }
    }
}

#[test]
fn the_game_of_a_state_has_the_bonus_of_the_state() {
    for total in [62u8, 63] {
        let state = filled_state(total);
        let game = game_from_state(state, Dice::new([1, 2, 3, 4, 5]).unwrap());
        assert!(game.ended());
        assert_eq!(game.has_bonus(), total == 63);
        assert_eq!(game.score(), if total == 63 { 113 } else { 62 });
    }
}

#[test]
fn a_state_that_no_card_has() {
    let mut state = GameState::initial();
    state.numbers_total = 40;
    assert!(!state.is_canonical());
    let game = game_from_state(state, Dice::new([1, 2, 3, 4, 5]).unwrap());
    assert_eq!(state_from_game(game), GameState::initial());
    let mut state = filled_state(70);
    assert!(!state.is_canonical());
    state.numbers_total = 63;
    assert!(state.is_canonical());
    state.ones = FieldState::Empty;
    state.numbers_total = 57;
    assert!(!state.is_canonical());
    state.numbers_total = 58;
    assert!(state.is_canonical());
}

#[test]
fn keys_tell_states_apart() {
    let initial = GameState::initial();
    assert_eq!(initial.key(), 0);
    assert_eq!(GameState::from_key(0), Some(initial));
    let state = filled_state(63);
    assert_eq!(state.key(), 63 + 256 * 32767);
    assert_eq!(GameState::from_key(63 + 256 * 32767), Some(state));
    let mut state = GameState::initial();
    state.twos = FieldState::Filled;
    state.yatzy = FieldState::Filled;
    state.numbers_total = 8;
    assert_eq!(state.key(), 8 + 256 * (2 + 16384));
    assert_eq!(GameState::from_key(state.key()), Some(state));
    assert_eq!(GameState::from_key(1 << 23), None);
    assert_eq!(GameState::from_key(u32::MAX), None);
    assert!(GameState::from_key((1 << 23) - 1).is_some());
}

#[test]
fn every_key_round_trips() {
    for key in (0..(1u32 << 23)).step_by(4099) {
        let state = GameState::from_key(key).unwrap();
        assert_eq!(state.key(), key);
    }
}

#[test]
fn fields_by_place() {
    let mut state = GameState::initial();
    state.ones = FieldState::Filled;
    state.two_pairs = FieldState::Filled;
    state.yatzy = FieldState::Filled;
    assert_eq!(state.field(0), FieldState::Filled);
    assert_eq!(state.field(14), FieldState::Filled);
    assert_eq!(state.field(7), FieldState::Filled);
    assert_eq!(state.field(8), FieldState::Empty);
    assert_eq!(state.empty_fields(), 12);
    assert_eq!(state.remaining_points(), 100);
}

#[test]
fn sums_of_the_number_lines() {
    let mut state = GameState::initial();
    let sums = number_sums(&state);
    assert_eq!(sums.len(), 106);
    assert!(sums[0]);
    assert!(sums[1..].iter().all(|hit| !hit));
    state.twos = FieldState::Filled;
    state.fives = FieldState::Filled;
    let sums = number_sums(&state);
    for t in 0..106usize {
        let mut hit = false;
        for a in 0..=5 {
            for b in 0..=5 {
                if 2 * a + 5 * b == t {
                    hit = true;
                }
            }
        }
        assert_eq!(sums[t], hit, "{}", t);
    }
    let all = number_sums(&filled_state(0));
    assert!(all.iter().all(|hit| *hit));
    let mut without_ones = filled_state(0);
    without_ones.ones = FieldState::Empty;
    let sums = number_sums(&without_ones);
    assert!(sums[100]);
    assert!(!sums[101]);
    assert!(!sums[99]);
    assert!(!sums[1]);
    assert!(sums[63]);
}

#[test]
fn totals_that_a_state_can_keep() {
    let totals = kept_totals(&filled_state(0));
    // with every number line filled, the bonus is won or lost
    for c in 0..64usize {
        assert_eq!(totals[c], c == 0 || c == 63, "{}", c);
    }
    let mut state = GameState::initial();
    state.sixes = FieldState::Filled;
    let totals = kept_totals(&state);
    for c in 0..64usize {
        assert_eq!(totals[c], c <= 30 && c % 6 == 0, "{}", c);
    }
}

#[test]
fn the_first_turn_has_one_state() {
    assert_eq!(states_with_empty_fields(15), vec![GameState::initial()]);
}

#[test]
fn states_of_the_last_turn() {
    let states = states_with_empty_fields(1);
    assert_eq!(states.len(), 135);
    for state in &states {
        assert_eq!(state.empty_fields(), 1);
        assert!(state.is_canonical());
    }
    for (i, a) in states.iter().enumerate() {
        for b in &states[i + 1..] {
            assert!(a != b);
        }
    }
    let mut only_yatzy = filled_state(63);
    only_yatzy.yatzy = FieldState::Empty;
    assert!(states.contains(&only_yatzy));
    only_yatzy.numbers_total = 0;
    assert!(states.contains(&only_yatzy));
    only_yatzy.numbers_total = 62;
    assert!(!states.contains(&only_yatzy));
}

#[test]
fn a_finished_game_has_two_states_and_sixteen_lines_none() {
    assert!(states_with_empty_fields(0).len() == 2);
    assert!(states_with_empty_fields(16).is_empty());
}

#[test]
fn all_states_by_empty_lines() {
    let all = game_states_by_empty_field_count();
    assert_eq!(all.len(), 16);
    let sizes: Vec<usize> = all.iter().map(|level| level.len()).collect();
    assert_eq!(
        sizes,
        vec![
            0, 135, 1653, 9932, 36677, 91683, 162967, 211209, 201456, 140897, 71007, 24882, 5681,
            749, 45, 1
        ]
    );
    assert_eq!(sizes.iter().sum::<usize>(), 958_974);
    for (n, level) in all.iter().enumerate() {
        for state in level.iter().step_by(97) {
            assert_eq!(state.empty_fields() as usize, n);
            assert!(state.is_canonical());
        }
    }
}
