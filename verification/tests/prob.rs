use num_bigint::BigUint;
use num_rational::Ratio;
use yatzy::engine::Rolls;
use yatzy::exact::roll_probabilities;
use yatzy::prob::roll_outcomes;
use yatzy::{ExpectedValue, Value};

fn ratio(n: u64, d: u64) -> Ratio<BigUint> {
    Ratio::new(BigUint::from(n), BigUint::from(d))
}

#[test]
fn tables_have_the_known_sizes() {
    assert_eq!(roll_outcomes(0).len(), 1);
    assert_eq!(roll_outcomes(1).len(), 6);
    assert_eq!(roll_outcomes(2).len(), 21);
    assert_eq!(roll_outcomes(3).len(), 56);
    assert_eq!(roll_outcomes(4).len(), 126);
    assert_eq!(roll_outcomes(5).len(), 252);
}

#[test]
fn tables_count_every_ordered_roll() {
    let mut all: u32 = 1;
    for k in 0..=5usize {
        let sum: u32 = roll_outcomes(k).iter().map(|entry| entry.1 as u32).sum();
        assert_eq!(sum, all);
        all *= 6;
    }
}

#[test]
fn tables_hold_ascending_hands_in_dictionary_order() {
    for k in 1..=5usize {
        let table = roll_outcomes(k);
        for entry in &table {
            assert_eq!(entry.0.len(), k);
            assert!(entry.0.iter().all(|die| 1 <= *die && *die <= 6));
            assert!(entry.0.windows(2).all(|pair| pair[0] <= pair[1]));
        }
        assert!(table.windows(2).all(|pair| pair[0].0 < pair[1].0));
    }
}

#[test]
fn counts_are_the_numbers_of_orderings() {
    fn factorial(n: u32) -> u32 {
        (1..=n).product()
    }
    for k in 1..=5usize {
        for entry in roll_outcomes(k) {
            let mut orderings = factorial(k as u32);
            for face in 1..=6u8 {
                let n = entry.0.iter().filter(|die| **die == face).count() as u32;
                orderings /= factorial(n);
            }
            assert_eq!(entry.1 as u32, orderings, "{:?}", entry.0);
        }
    }
}

#[test]
fn a_few_entries_of_the_table_of_five() {
    let table = roll_outcomes(5);
    assert_eq!(table[0], (vec![1, 1, 1, 1, 1], 1));
    assert_eq!(table[1], (vec![1, 1, 1, 1, 2], 5));
    assert_eq!(table[251], (vec![6, 6, 6, 6, 6], 1));
    assert!(table.contains(&(vec![1, 2, 3, 4, 5], 120)));
    assert!(table.contains(&(vec![3, 3, 4, 4, 4], 10)));
    assert!(table.contains(&(vec![1, 1, 2, 2, 3], 30)));
}

#[test]
fn the_table_of_one_die() {
    let table = roll_outcomes(1);
    let hands: Vec<Vec<u8>> = table.iter().map(|entry| entry.0.clone()).collect();
    assert_eq!(hands, vec![vec![1], vec![2], vec![3], vec![4], vec![5], vec![6]]);
    assert!(table.iter().all(|entry| entry.1 == 1));
}

#[test]
fn chances_add_up_to_one() {
    for k in 1..=5usize {
        let mut sum = ExpectedValue::zero();
        for entry in roll_probabilities(k) {
            sum = sum.plus(&entry.1);
        }
        assert_eq!(sum.into_ratio(), ratio(1, 1));
    }
}

#[test]
fn chances_are_counts_over_all_rolls() {
    let counts = roll_outcomes(3);
    let chances = roll_probabilities(3);
    assert_eq!(counts.len(), chances.len());
    for (count, chance) in counts.iter().zip(chances) {
        assert_eq!(count.0, chance.0);
        assert_eq!(chance.1.into_ratio(), ratio(count.1 as u64, 216));
    }
}

#[test]
fn the_trait_gives_the_same_tables() {
    let tables = vec![
        ExpectedValue::roll_1_prob(),
        ExpectedValue::roll_2_prob(),
        ExpectedValue::roll_3_prob(),
        ExpectedValue::roll_4_prob(),
        ExpectedValue::roll_5_prob(),
    ];
    let rolls = Rolls::new();
    for (i, table) in tables.into_iter().enumerate() {
        let k = i + 1;
        let again = rolls.table(k);
        assert_eq!(table.len(), again.len());
        assert_eq!(table.len(), roll_outcomes(k).len());
        for (a, b) in table.iter().zip(again.iter()) {
            assert_eq!(a.0, b.0);
            assert!(a.1.same_as(&b.1));
        }
    }
}
