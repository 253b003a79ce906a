use std::collections::HashMap;

use num_bigint::BigUint;
use num_rational::Ratio;
use yatzy::engine::Rolls;
use yatzy::reach::states_with_empty_fields;
use yatzy::{compute_expected_values, EvTable, ExpectedValue, GameState};

#[test]
fn a_table_written_and_read_is_the_same_table() {
    let rolls = Rolls::new();
    let states: Vec<GameState> = states_with_empty_fields(1).into_iter().take(12).collect();
    let values = compute_expected_values(&states, &EvTable::new(), &rolls, states.len());
    assert_eq!(values.len(), 12);

    let mut written: HashMap<u32, Ratio<BigUint>> = HashMap::new();
    let mut table = EvTable::new();
    for (state, value) in values {
        written.insert(state.key(), value.duplicate().into_ratio());
        table.insert(state, value);
    }
    let bytes = postcard::to_allocvec(&written).unwrap();
    let read: HashMap<u32, Ratio<BigUint>> = postcard::from_bytes(&bytes).unwrap();
    assert_eq!(read, written);

    let mut again = EvTable::new();
    for (key, ratio) in read {
        let state = GameState::from_key(key).unwrap();
        again.insert(state, ExpectedValue::from_ratio(ratio).unwrap());
    }
    assert_eq!(again.len(), table.len());
    for state in &states {
        let before = table.get(state).unwrap();
        let after = again.get(state).unwrap();
        assert!(before.same_as(after));
    }
}

#[test]
fn a_value_written_and_read_is_the_same_value() {
    let value = ExpectedValue::ratio(455, 216).unwrap();
    let mut long = value.duplicate();
    for _ in 0..30 {
        long = long.times(&value).plus(&value);
    }
    let ratio = long.duplicate().into_ratio();
    let bytes = postcard::to_allocvec(&ratio).unwrap();
    let read: Ratio<BigUint> = postcard::from_bytes(&bytes).unwrap();
    assert_eq!(read, ratio);
    assert!(ExpectedValue::from_ratio(read).unwrap().same_as(&long));
}
