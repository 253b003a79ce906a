//! The dice game Yatzy, played as well as it can be played.
//!
//! The crate holds the rules of the game ([`Dice`], [`Combo`], [`Game`]), the states that the
//! rest of a game depends on ([`GameState`]), the exact expected value of every position given
//! the expected values of the states that can follow it (the module [`engine`]), and the
//! choices that reach that value (the module [`solver`]).

pub mod cache;
pub mod choice;
pub mod combo;
pub mod dice;
pub mod engine;
pub mod exact;
pub mod game;
pub mod laws;
pub mod prob;
pub mod query;
pub mod reach;
pub mod solver;
pub mod state;
pub mod table;

pub use cache::{clear_cache, Cache};
pub use choice::Choice;
pub use combo::{Combo, ComboIterator};
pub use dice::{Dice, DiceReplaceError, Die, NewDiceError};
pub use engine::{
    compute_expected_values, expected_value, expected_value_0_rerolls, expected_value_1_reroll,
    expected_value_2_rerolls, expected_value_of_state, CacheKey, Rolls,
};
pub use query::{parse_decoded_query, parse_index_query_string, Parameter, ParseIndexQueryStringError};
pub use reach::{game_states_by_empty_field_count, states_with_empty_fields};
pub use exact::{ExpectedValue, Value};
pub use game::{Game, GameOptions, NewGameError, RerollError, Scorecard, SelectComboError};
pub use solver::{best_choice, best_choice_0_rerolls, best_choice_1_reroll, best_choice_2_rerolls};
pub use state::{game_from_state, state_from_game, FieldState, GameState};
pub use table::EvTable;
