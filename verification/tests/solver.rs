use num_bigint::BigUint;
use num_rational::Ratio;
use yatzy::engine::Rolls;
use yatzy::state::{card_from_state, state_from_card};
use yatzy::{
    best_choice, best_choice_0_rerolls, best_choice_1_reroll, best_choice_2_rerolls,
    compute_expected_values, expected_value_2_rerolls, Cache, Choice, Combo, Dice, EvTable,
    ExpectedValue, FieldState, Game, GameState, Scorecard, Value,
};

fn ratio(n: u64, d: u64) -> Ratio<BigUint> {
    Ratio::new(BigUint::from(n), BigUint::from(d))
}

fn state_with_empty(numbers_total: u8, empty: &[usize]) -> GameState {
    let mut state = GameState::from_key(numbers_total as u32 + 256 * 32767).unwrap();
    for place in empty {
        let field = match *place {
            0 => &mut state.ones,
            1 => &mut state.twos,
            2 => &mut state.threes,
            3 => &mut state.fours,
            4 => &mut state.fives,
            5 => &mut state.sixes,
            6 => &mut state.one_pair,
            7 => &mut state.two_pairs,
            8 => &mut state.three_of_a_kind,
            9 => &mut state.four_of_a_kind,
            10 => &mut state.small_straight,
            11 => &mut state.large_straight,
            12 => &mut state.full_house,
            13 => &mut state.chance,
            _ => &mut state.yatzy,
        };
        *field = FieldState::Empty;
    }
    state
}

const ONES: usize = 0;
const SMALL_STRAIGHT: usize = 10;
const LARGE_STRAIGHT: usize = 11;
const FULL_HOUSE: usize = 12;
const CHANCE: usize = 13;
const YATZY: usize = 14;

/// A table in which every state that can follow the empty card is worth nothing.
fn nothing_after_the_first_line() -> EvTable {
    let mut table = EvTable::new();
    let mut walk = Combo::iter();
    while let Some(combo) = walk.next() {
        for k in 0..=5u8 {
            let mut card = Scorecard::new();
            card.set(combo, Some(combo.number_face() * k));
            table.insert(state_from_card(&card), ExpectedValue::zero());
        }
    }
    table
}

fn solve(dice: [u8; 5], rerolls: u8, card: Scorecard, table: &EvTable) -> (Vec<Choice>, Ratio<BigUint>) {
    let rolls = Rolls::new();
    let game = Game::from_parts(Dice::new(dice).unwrap(), rerolls, card);
    let (choices, value) = best_choice(game, table, &rolls).unwrap();
    (choices, value.into_ratio())
}

#[test]
fn five_ones_on_an_empty_card() {
    let table = nothing_after_the_first_line();
    let (choices, value) = solve([1, 1, 1, 1, 1], 0, Scorecard::new(), &table);
    assert_eq!(choices, vec![Choice::SelectCombo(Combo::Yatzy)]);
    assert_eq!(value, ratio(50, 1));
}

#[test]
fn a_large_straight_as_the_last_line() {
    let card = card_from_state(state_with_empty(0, &[LARGE_STRAIGHT]));
    for rerolls in 0..=2 {
        let (choices, value) = solve([2, 3, 4, 5, 6], rerolls, card, &EvTable::new());
        assert_eq!(choices, vec![Choice::SelectCombo(Combo::LargeStraight)]);
        assert_eq!(value, ratio(20, 1));
    }
}

#[test]
fn a_small_straight_as_the_last_line() {
    let card = card_from_state(state_with_empty(0, &[SMALL_STRAIGHT]));
    let (choices, value) = solve([1, 2, 3, 4, 5], 0, card, &EvTable::new());
    assert_eq!(choices, vec![Choice::SelectCombo(Combo::SmallStraight)]);
    assert_eq!(value, ratio(15, 1));
}

#[test]
fn a_full_house_as_the_last_line() {
    let card = card_from_state(state_with_empty(0, &[FULL_HOUSE]));
    let (choices, value) = solve([3, 3, 4, 4, 4], 0, card, &EvTable::new());
    assert_eq!(choices, vec![Choice::SelectCombo(Combo::FullHouse)]);
    assert_eq!(value, ratio(18, 1));
}

#[test]
fn ties_come_together() {
    let table = nothing_after_the_first_line();
    let (choices, value) = solve([2, 3, 4, 5, 6], 0, Scorecard::new(), &table);
    assert_eq!(
        choices,
        vec![Choice::SelectCombo(Combo::LargeStraight), Choice::SelectCombo(Combo::Chance)]
    );
    assert_eq!(value, ratio(20, 1));
    let (choices, value) = solve([1, 2, 3, 4, 5], 0, Scorecard::new(), &table);
    assert_eq!(
        choices,
        vec![Choice::SelectCombo(Combo::SmallStraight), Choice::SelectCombo(Combo::Chance)]
    );
    assert_eq!(value, ratio(15, 1));
    let (choices, value) = solve([3, 3, 4, 4, 4], 0, Scorecard::new(), &table);
    assert_eq!(
        choices,
        vec![Choice::SelectCombo(Combo::FullHouse), Choice::SelectCombo(Combo::Chance)]
    );
    assert_eq!(value, ratio(18, 1));
}

#[test]
fn two_rerolls_on_an_empty_card() {
    let table = nothing_after_the_first_line();
    let rolls = Rolls::new();
    let game = Game::from_parts(Dice::new([6, 6, 5, 1, 1]).unwrap(), 2, Scorecard::new());
    let mut cache = Cache::new();
    let (choices, value) = best_choice_2_rerolls(game, &table, &rolls, &mut cache);
    let direct = expected_value_2_rerolls(game, &table, &rolls, &mut Cache::new());
    assert!(value.same_as(&direct));
    assert_eq!(value.into_ratio(), ratio(5519, 216));
    assert_eq!(choices, vec![Choice::Reroll2([1, 1])]);
}

#[test]
fn one_and_no_reroll_on_an_empty_card() {
    let table = nothing_after_the_first_line();
    let rolls = Rolls::new();
    let dice = Dice::new([1, 1, 5, 6, 6]).unwrap();
    let mut cache = Cache::new();
    let (choices, value) =
        best_choice_1_reroll(Game::from_parts(dice, 1, Scorecard::new()), &table, &rolls, &mut cache);
    assert_eq!(value.into_ratio(), ratio(24, 1));
    assert_eq!(choices, vec![Choice::Reroll2([1, 1])]);
    let (choices, value) =
        best_choice_0_rerolls(Game::from_parts(dice, 0, Scorecard::new()), &table, &rolls, &mut cache);
    assert_eq!(value.into_ratio(), ratio(19, 1));
    assert_eq!(choices, vec![Choice::SelectCombo(Combo::Chance)]);
}

#[test]
fn more_rerolls_on_an_empty_card() {
    let table = nothing_after_the_first_line();
    let (choices, value) = solve([1, 1, 1, 1, 2], 1, Scorecard::new(), &table);
    assert_eq!(value, ratio(45425, 2592));
    assert_eq!(choices, vec![Choice::Reroll5([1, 1, 1, 1, 2])]);
    let (choices, value) = solve([1, 2, 3, 4, 6], 2, Scorecard::new(), &table);
    assert_eq!(value, ratio(4849535, 209952));
    assert_eq!(choices, vec![Choice::Reroll4([1, 2, 3, 4])]);
}

fn table_of(empty: &[usize]) -> EvTable {
    let rolls = Rolls::new();
    let mut states = Vec::new();
    for place in empty {
        states.push(state_with_empty(0, &[*place]));
    }
    let mut table = EvTable::new();
    for (state, value) in compute_expected_values(&states, &table, &rolls, states.len()) {
        table.insert(state, value);
    }
    table
}

#[test]
fn choices_two_lines_from_the_end() {
    let table = table_of(&[CHANCE, YATZY]);
    let card = card_from_state(state_with_empty(0, &[CHANCE, YATZY]));
    let (choices, value) = solve([1, 1, 1, 1, 1], 0, card, &table);
    assert_eq!(choices, vec![Choice::SelectCombo(Combo::Yatzy)]);
    assert_eq!(value, ratio(220, 3));
    let (choices, value) = solve([1, 1, 5, 6, 6], 0, card, &table);
    assert_eq!(choices, vec![Choice::SelectCombo(Combo::Yatzy)]);
    assert_eq!(value, ratio(70, 3));
    let (choices, value) = solve([1, 1, 5, 6, 6], 1, card, &table);
    assert_eq!(choices, vec![Choice::Reroll2([1, 1])]);
    assert_eq!(value, ratio(599020117, 22674816));
    let (choices, value) = solve([1, 1, 5, 6, 6], 2, card, &table);
    assert_eq!(choices, vec![Choice::Reroll3([1, 1, 5])]);
    assert_eq!(value, ratio(274683799753, 9795520512));
    let (choices, value) = solve([6, 6, 6, 6, 5], 1, card, &table);
    assert_eq!(choices, vec![Choice::Reroll1([5])]);
    assert_eq!(value, ratio(830807125, 22674816));
    let (choices, value) = solve([2, 2, 2, 3, 4], 2, card, &table);
    assert_eq!(choices, vec![Choice::Reroll2([3, 4])]);
    assert_eq!(value, ratio(411831033023, 14693280768));
}

#[test]
fn scratching_a_number_line_can_be_best() {
    let table = table_of(&[ONES, YATZY]);
    let card = card_from_state(state_with_empty(0, &[ONES, YATZY]));
    let (choices, value) = solve([2, 3, 4, 5, 6], 0, card, &table);
    assert_eq!(choices, vec![Choice::SelectCombo(Combo::Ones)]);
    assert_eq!(value, ratio(8697425, 3779136));
    let (choices, value) = solve([1, 1, 2, 3, 4], 0, card, &table);
    assert_eq!(choices, vec![Choice::SelectCombo(Combo::Ones)]);
    assert_eq!(value, ratio(16255697, 3779136));
}

#[test]
fn scratching_yatzy_as_the_last_line() {
    let card = card_from_state(state_with_empty(0, &[YATZY]));
    let (choices, value) = solve([4, 4, 4, 4, 5], 0, card, &EvTable::new());
    assert_eq!(choices, vec![Choice::SelectCombo(Combo::Yatzy)]);
    assert_eq!(value, ratio(0, 1));
    let (choices, value) = solve([4, 4, 4, 4, 5], 1, card, &EvTable::new());
    assert_eq!(choices, vec![Choice::Reroll1([5])]);
    assert_eq!(value, ratio(25, 3));
    let (choices, value) = solve([4, 4, 4, 4, 4], 1, card, &EvTable::new());
    assert_eq!(choices, vec![Choice::SelectCombo(Combo::Yatzy)]);
    assert_eq!(value, ratio(50, 1));
}

#[test]
fn the_bonus_at_sixty_three_and_not_at_sixty_two() {
    let mut card = card_from_state(state_with_empty(0, &[ONES]));
    card.set(Combo::Sixes, Some(30));
    card.set(Combo::Fives, Some(25));
    card.set(Combo::Twos, Some(6));
    // 61 points on the number lines: two ones win the bonus, one does not
    let (choices, value) = solve([1, 1, 3, 4, 5], 0, card, &EvTable::new());
    assert_eq!(choices, vec![Choice::SelectCombo(Combo::Ones)]);
    assert_eq!(value, ratio(52, 1));
    let (_, value) = solve([1, 2, 3, 4, 5], 0, card, &EvTable::new());
    assert_eq!(value, ratio(1, 1));
    let mut with_bonus = card;
    with_bonus.set(Combo::Ones, Some(2));
    assert_eq!(with_bonus.numbers(), 63);
    assert_eq!(with_bonus.score(), 63 + 50);
    let mut without = card;
    without.set(Combo::Ones, Some(1));
    assert_eq!(without.numbers(), 62);
    assert_eq!(without.score(), 62);
}

#[test]
fn every_best_choice_is_worth_the_value() {
    let table = nothing_after_the_first_line();
    let rolls = Rolls::new();
    let hands = [[1, 1, 1, 1, 1], [1, 2, 3, 4, 5], [2, 2, 3, 3, 6], [4, 4, 4, 5, 5]];
    for hand in hands {
        let dice = Dice::new(hand).unwrap();
        let game = Game::from_parts(dice, 1, Scorecard::new());
        let (choices, value) = best_choice(game, &table, &rolls).unwrap();
        assert!(!choices.is_empty());
        for (i, choice) in choices.iter().enumerate() {
            assert!(choices[i + 1..].iter().all(|other| other != choice));
            let worth = match choice {
                Choice::SelectCombo(combo) => {
                    ExpectedValue::from_u8(combo.points(dice))
                }
                _ => {
                    // the expected best line after the reroll
                    let rerolled = choice.dice();
                    let mut sum = ExpectedValue::zero();
                    for (rolled, chance) in rolls.table(rerolled.len()) {
                        let mut next = game;
                        next.replace_dice(&rerolled, rolled).unwrap();
                        let mut best = 0;
                        let mut walk = Combo::iter();
                        while let Some(combo) = walk.next() {
                            best = best.max(combo.points(next.dice()));
                        }
                        sum = sum.plus(&chance.times(&ExpectedValue::from_u8(best)));
                    }
                    sum
                }
            };
            assert!(worth.same_as(&value), "{:?} {:?}", hand, choice);
        }
    }
}

#[test]
fn a_finished_game_has_no_choice() {
    let rolls = Rolls::new();
    let card = card_from_state(state_with_empty(63, &[]));
    let game = Game::from_parts(Dice::new([1, 2, 3, 4, 5]).unwrap(), 0, card);
    let (choices, value) = best_choice(game, &EvTable::new(), &rolls).unwrap();
    assert!(choices.is_empty());
    assert_eq!(value.into_ratio(), ratio(0, 1));
}

#[test]
fn no_choice_without_the_states_that_follow() {
    let rolls = Rolls::new();
    let fresh = Game::from_parts(Dice::new([1, 2, 3, 4, 5]).unwrap(), 2, Scorecard::new());
    assert!(best_choice(fresh, &EvTable::new(), &rolls).is_none());
    let unsorted = Game::from_parts(Dice::new_raw([5, 4, 3, 2, 1]), 0, Scorecard::new());
    assert!(best_choice(unsorted, &nothing_after_the_first_line(), &rolls).is_none());
    let rerolls = Game::from_parts(Dice::new([1, 2, 3, 4, 5]).unwrap(), 3, Scorecard::new());
    assert!(best_choice(rerolls, &nothing_after_the_first_line(), &rolls).is_none());
}

#[test]
fn the_order_of_the_dice_plays_no_part() {
    let table = nothing_after_the_first_line();
    let a = solve([6, 6, 5, 1, 1], 1, Scorecard::new(), &table);
    let b = solve([1, 6, 1, 6, 5], 1, Scorecard::new(), &table);
    assert_eq!(a, b);
}
