use num_bigint::BigUint;
use num_rational::Ratio;
use yatzy::engine::{covers_card, CacheKey, Rolls};
use yatzy::state::{card_from_state, state_from_card};
use yatzy::{
    compute_expected_values, expected_value, expected_value_0_rerolls, expected_value_1_reroll,
    expected_value_2_rerolls, expected_value_of_state, Cache, Choice, Combo, Dice, EvTable,
    ExpectedValue, FieldState, Game, GameState, Scorecard, Value,
};

fn ratio(n: u64, d: u64) -> Ratio<BigUint> {
    Ratio::new(BigUint::from(n), BigUint::from(d))
}

fn state_with_empty(numbers_total: u8, empty: &[usize]) -> GameState {
    let mut state = GameState::from_key(numbers_total as u32 + 256 * 32767).unwrap();
    for place in empty {
        let field = match *place {
            0 => &mut state.ones,
            1 => &mut state.twos,
            2 => &mut state.threes,
            3 => &mut state.fours,
            4 => &mut state.fives,
            5 => &mut state.sixes,
            6 => &mut state.one_pair,
            7 => &mut state.two_pairs,
            8 => &mut state.three_of_a_kind,
            9 => &mut state.four_of_a_kind,
            10 => &mut state.small_straight,
            11 => &mut state.large_straight,
            12 => &mut state.full_house,
            13 => &mut state.chance,
            _ => &mut state.yatzy,
        };
        *field = FieldState::Empty;
    }
    state
}

const ONES: usize = 0;
const SIXES: usize = 5;
const ONE_PAIR: usize = 6;
const TWO_PAIRS: usize = 7;
const THREE_OF_A_KIND: usize = 8;
const FOUR_OF_A_KIND: usize = 9;
const SMALL_STRAIGHT: usize = 10;
const LARGE_STRAIGHT: usize = 11;
const FULL_HOUSE: usize = 12;
const CHANCE: usize = 13;
const YATZY: usize = 14;

fn last_turn_value(numbers_total: u8, place: usize) -> Ratio<BigUint> {
    let rolls = Rolls::new();
    let mut cache = Cache::new();
    let state = state_with_empty(numbers_total, &[place]);
    assert!(state.is_canonical());
    expected_value_of_state(state, &EvTable::new(), &rolls, &mut cache).into_ratio()
}

#[test]
fn chance_as_the_last_line() {
    assert_eq!(last_turn_value(0, CHANCE), ratio(70, 3));
}

#[test]
fn chance_as_the_last_line_with_the_bonus() {
    assert_eq!(last_turn_value(63, CHANCE), ratio(220, 3));
}

#[test]
fn yatzy_as_the_last_line() {
    assert_eq!(last_turn_value(0, YATZY), ratio(8697425, 3779136));
}

#[test]
fn yatzy_as_the_last_line_with_the_bonus() {
    assert_eq!(last_turn_value(63, YATZY), ratio(197654225, 3779136));
}

#[test]
fn straights_as_the_last_line() {
    assert_eq!(last_turn_value(0, LARGE_STRAIGHT), ratio(19280432875, 4897760256));
    assert_eq!(last_turn_value(0, SMALL_STRAIGHT), ratio(19280432875, 6530347008));
}

#[test]
fn full_house_as_the_last_line() {
    assert_eq!(last_turn_value(0, FULL_HOUSE), ratio(22744305613, 3265173504));
}

#[test]
fn pairs_as_the_last_line() {
    assert_eq!(last_turn_value(0, ONE_PAIR), ratio(8676216925, 816293376));
    assert_eq!(last_turn_value(0, TWO_PAIRS), ratio(7290038753, 612220032));
}

#[test]
fn kinds_as_the_last_line() {
    assert_eq!(last_turn_value(0, THREE_OF_A_KIND), ratio(3463048715, 362797056));
    assert_eq!(last_turn_value(0, FOUR_OF_A_KIND), ratio(3239917, 708588));
}

#[test]
fn sixes_as_the_last_line() {
    assert_eq!(last_turn_value(0, SIXES), ratio(455, 36));
    assert_eq!(last_turn_value(45, SIXES), ratio(1190406068215, 39182082048));
    assert_eq!(last_turn_value(33, SIXES), ratio(3127315924915, 235092492288));
}

#[test]
fn ones_as_the_last_line() {
    assert_eq!(last_turn_value(63, ONES), ratio(11255, 216));
    assert_eq!(last_turn_value(60, ONES), ratio(777724417015, 39182082048));
    assert_eq!(last_turn_value(58, ONES), ratio(651226017715, 235092492288));
}

fn table_of_chance_and_yatzy(rolls: &Rolls) -> EvTable {
    let states = vec![state_with_empty(0, &[CHANCE]), state_with_empty(0, &[YATZY])];
    let mut table = EvTable::new();
    for (state, value) in compute_expected_values(&states, &table, rolls, 10) {
        table.insert(state, value);
    }
    table
}

#[test]
fn two_lines_from_the_end() {
    let rolls = Rolls::new();
    let table = table_of_chance_and_yatzy(&rolls);
    assert_eq!(table.len(), 2);
    let state = state_with_empty(0, &[CHANCE, YATZY]);
    assert!(covers_card(&table, &card_from_state(state)));
    let mut cache = Cache::new();
    let value = expected_value_of_state(state, &table, &rolls, &mut cache);
    assert_eq!(value.into_ratio(), ratio(1167963082189405, 42845606719488));
}

#[test]
fn a_value_reads_only_the_states_that_follow() {
    let rolls = Rolls::new();
    let mut table = table_of_chance_and_yatzy(&rolls);
    // what the table says of other states plays no part
    table.insert(GameState::initial(), ExpectedValue::from_u8(200));
    table.insert(state_with_empty(63, &[CHANCE, YATZY]), ExpectedValue::from_u8(100));
    table.insert(state_with_empty(0, &[CHANCE, YATZY, ONES]), ExpectedValue::from_u8(7));
    table.insert(state_with_empty(0, &[SIXES]), ExpectedValue::from_u8(9));
    let state = state_with_empty(0, &[CHANCE, YATZY]);
    let mut cache = Cache::new();
    let value = expected_value_of_state(state, &table, &rolls, &mut cache);
    assert_eq!(value.into_ratio(), ratio(1167963082189405, 42845606719488));
}

#[test]
fn positions_two_lines_from_the_end() {
    let rolls = Rolls::new();
    let table = table_of_chance_and_yatzy(&rolls);
    let card = card_from_state(state_with_empty(0, &[CHANCE, YATZY]));
    let mut cache = Cache::new();
    let dice = Dice::new([1, 1, 5, 6, 6]).unwrap();
    let v0 = expected_value_0_rerolls(Game::from_parts(dice, 0, card), &table, &rolls, &mut cache);
    assert_eq!(v0.into_ratio(), ratio(70, 3));
    let v1 = expected_value_1_reroll(Game::from_parts(dice, 1, card), &table, &rolls, &mut cache);
    assert_eq!(v1.into_ratio(), ratio(599020117, 22674816));
    let v2 = expected_value_2_rerolls(Game::from_parts(dice, 2, card), &table, &rolls, &mut cache);
    assert_eq!(v2.into_ratio(), ratio(274683799753, 9795520512));
    // asked again, the cache answers with the same values
    let again = expected_value_1_reroll(Game::from_parts(dice, 1, card), &table, &rolls, &mut cache);
    assert_eq!(again.into_ratio(), ratio(599020117, 22674816));
    let fresh = expected_value_1_reroll(
        Game::from_parts(dice, 1, card),
        &table,
        &rolls,
        &mut Cache::new(),
    );
    assert_eq!(fresh.into_ratio(), ratio(599020117, 22674816));
    let five = Dice::new([1, 1, 1, 1, 1]).unwrap();
    for rerolls in 0..=2 {
        let v = expected_value(Game::from_parts(five, rerolls, card), &table, &rolls).unwrap();
        assert_eq!(v.into_ratio(), ratio(220, 3));
    }
}

#[test]
fn the_cache_keeps_positions_and_rerolls() {
    let rolls = Rolls::new();
    let table = EvTable::new();
    let card = card_from_state(state_with_empty(0, &[YATZY]));
    let mut cache = Cache::new();
    let dice = Dice::new([4, 4, 4, 4, 5]).unwrap();
    let v1 = expected_value_1_reroll(Game::from_parts(dice, 1, card), &table, &rolls, &mut cache);
    assert_eq!(v1.into_ratio(), ratio(25, 3));
    let kept = cache.get(CacheKey::Reroll(dice).code()).unwrap();
    assert_eq!(kept.into_ratio(), ratio(25, 3));
    let reroll = cache.get(CacheKey::Retain(1, dice, Choice::Reroll1([5])).code()).unwrap();
    assert_eq!(reroll.into_ratio(), ratio(25, 3));
    let five = Dice::new([4, 4, 4, 4, 4]).unwrap();
    let after = cache.get(CacheKey::ZeroRerolls(five).code()).unwrap();
    assert_eq!(after.into_ratio(), ratio(50, 1));
    // the same four dice stay on the table, whatever the fifth was
    let other = Dice::new([1, 4, 4, 4, 4]).unwrap();
    assert_eq!(
        CacheKey::Retain(1, other, Choice::Reroll1([1])).code(),
        CacheKey::Retain(1, dice, Choice::Reroll1([5])).code()
    );
    assert!(
        CacheKey::Retain(2, dice, Choice::Reroll1([5])).code()
            != CacheKey::Retain(1, dice, Choice::Reroll1([5])).code()
    );
    assert!(CacheKey::Reroll(dice).code() != CacheKey::ZeroRerolls(dice).code());
    assert!(cache.get(CacheKey::Reroll(five).code()).is_none());
}

#[test]
fn a_finished_game_is_worth_nothing_more() {
    let rolls = Rolls::new();
    let card = card_from_state(state_with_empty(63, &[]));
    let game = Game::from_parts(Dice::new([1, 2, 3, 4, 5]).unwrap(), 0, card);
    assert!(game.ended());
    let v = expected_value(game, &EvTable::new(), &rolls).unwrap();
    assert_eq!(v.into_ratio(), ratio(0, 1));
}

#[test]
fn no_value_without_the_states_that_follow() {
    let rolls = Rolls::new();
    let fresh = Game::from_parts(Dice::new([1, 2, 3, 4, 5]).unwrap(), 2, Scorecard::new());
    assert!(!covers_card(&EvTable::new(), &fresh.card()));
    assert!(expected_value(fresh, &EvTable::new(), &rolls).is_none());
    let table = table_of_chance_and_yatzy(&rolls);
    let card = card_from_state(state_with_empty(0, &[CHANCE, YATZY]));
    assert!(covers_card(&table, &card));
    let mut short = EvTable::new();
    short.insert(state_with_empty(0, &[CHANCE]), ExpectedValue::zero());
    assert!(!covers_card(&short, &card));
}

#[test]
fn no_value_for_a_game_that_is_not_well_formed() {
    let rolls = Rolls::new();
    let card = card_from_state(state_with_empty(0, &[CHANCE]));
    let unsorted = Game::from_parts(Dice::new_raw([5, 4, 3, 2, 1]), 1, card);
    assert!(expected_value(unsorted, &EvTable::new(), &rolls).is_none());
    let rerolls = Game::from_parts(Dice::new([1, 2, 3, 4, 5]).unwrap(), 3, card);
    assert!(expected_value(rerolls, &EvTable::new(), &rolls).is_none());
    let fine = Game::from_parts(Dice::new([1, 2, 3, 4, 5]).unwrap(), 0, card);
    assert_eq!(expected_value(fine, &EvTable::new(), &rolls).unwrap().into_ratio(), ratio(15, 1));
}

#[test]
fn covering_counts_every_score_of_a_number_line() {
    let mut card = card_from_state(state_with_empty(0, &[SIXES, YATZY]));
    card.set(Combo::Fives, Some(25));
    card.set(Combo::Fours, Some(20));
    // 45 points are there: sixes can bring 0, 6, 12 (bonus out of reach) or 18 and more
    let mut table = EvTable::new();
    let mut after_yatzy = card;
    after_yatzy.set(Combo::Yatzy, Some(0));
    table.insert(state_from_card(&after_yatzy), ExpectedValue::zero());
    for k in 0..=5u8 {
        assert_eq!(covers_card(&table, &card), k > 3);
        let mut next = card;
        next.set(Combo::Sixes, Some(6 * k));
        let state = state_from_card(&next);
        assert_eq!(state.numbers_total, [0, 0, 0, 63, 63, 63][k as usize]);
        table.insert(state, ExpectedValue::zero());
    }
    assert!(covers_card(&table, &card));
    assert_eq!(table.len(), 3);
}

#[test]
fn compute_skips_what_the_table_has() {
    let rolls = Rolls::new();
    let chance = state_with_empty(0, &[CHANCE]);
    let yatzy = state_with_empty(0, &[YATZY]);
    let sixes = state_with_empty(0, &[SIXES]);
    let states = vec![chance, yatzy, sixes];
    let mut table = EvTable::new();
    table.insert(yatzy, ExpectedValue::from_u8(1));
    let first = compute_expected_values(&states, &table, &rolls, 1);
    assert_eq!(first.len(), 1);
    assert_eq!(first[0].0, chance);
    let all = compute_expected_values(&states, &table, &rolls, 5);
    assert_eq!(all.len(), 2);
    assert_eq!(all[0].0, chance);
    assert_eq!(all[1].0, sixes);
    let mut values = Vec::new();
    for (_, value) in all {
        values.push(value.into_ratio());
    }
    assert_eq!(values, vec![ratio(70, 3), ratio(455, 36)]);
    assert!(compute_expected_values(&states, &table, &rolls, 0).is_empty());
    assert!(compute_expected_values(&Vec::new(), &table, &rolls, 3).is_empty());
}

#[test]
fn the_table_keeps_values_by_state() {
    let mut table = EvTable::new();
    assert_eq!(table.len(), 0);
    let a = state_with_empty(0, &[CHANCE]);
    let b = state_with_empty(63, &[CHANCE]);
    assert!(!table.contains(&a));
    assert!(table.get(&a).is_none());
    table.insert(a, ExpectedValue::ratio(70, 3).unwrap());
    table.insert(b, ExpectedValue::ratio(220, 3).unwrap());
    assert_eq!(table.len(), 2);
    assert!(table.contains(&a));
    assert!(table.contains(&b));
    assert!(!table.contains(&GameState::initial()));
    assert_eq!(table.get(&a).unwrap().duplicate().into_ratio(), ratio(70, 3));
    assert_eq!(table.get(&b).unwrap().duplicate().into_ratio(), ratio(220, 3));
    table.insert(a, ExpectedValue::from_u8(1));
    assert_eq!(table.len(), 2);
    assert_eq!(table.get(&a).unwrap().duplicate().into_ratio(), ratio(1, 1));
    table.not_negative();
}
