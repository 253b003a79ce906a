use num_bigint::BigUint;
use num_rational::Ratio;
use yatzy::choice::reroll_choices;
use yatzy::{clear_cache, Cache, Choice, Combo, Dice, ExpectedValue, Value};

fn ratio(n: u64, d: u64) -> Ratio<BigUint> {
    Ratio::new(BigUint::from(n), BigUint::from(d))
}

#[test]
fn a_new_cache_holds_nothing() {
    let cache = Cache::new();
    assert!(cache.get(0).is_none());
    assert!(cache.get(12345).is_none());
}

#[test]
fn the_cache_gives_back_what_it_was_given() {
    let mut cache = Cache::new();
    cache.insert(7, ExpectedValue::ratio(1, 3).unwrap());
    cache.insert(8, ExpectedValue::from_u8(50));
    assert_eq!(cache.get(7).unwrap().into_ratio(), ratio(1, 3));
    assert_eq!(cache.get(8).unwrap().into_ratio(), ratio(50, 1));
    assert!(cache.get(9).is_none());
    cache.insert(7, ExpectedValue::ratio(2, 3).unwrap());
    assert_eq!(cache.get(7).unwrap().into_ratio(), ratio(2, 3));
    assert_eq!(cache.get(8).unwrap().into_ratio(), ratio(50, 1));
}

#[test]
fn clearing_empties_the_cache() {
    let mut cache = Cache::new();
    cache.insert(1, ExpectedValue::zero());
    cache.insert(2, ExpectedValue::zero());
    cache.clear();
    assert!(cache.get(1).is_none());
    cache.insert(1, ExpectedValue::from_u8(1));
    clear_cache(&mut cache);
    assert!(cache.get(1).is_none());
    assert!(cache.get(2).is_none());
}

#[test]
fn thirty_one_ways_to_roll_again() {
    let choices = reroll_choices(&Dice::new([1, 2, 3, 4, 5]).unwrap());
    assert_eq!(choices.len(), 31);
    assert_eq!(choices[0], Choice::Reroll1([1]));
    assert_eq!(choices[4], Choice::Reroll1([5]));
    assert_eq!(choices[5], Choice::Reroll2([1, 2]));
    assert_eq!(choices[6], Choice::Reroll2([1, 3]));
    assert_eq!(choices[14], Choice::Reroll2([4, 5]));
    assert_eq!(choices[15], Choice::Reroll3([1, 2, 3]));
    assert_eq!(choices[24], Choice::Reroll3([3, 4, 5]));
    assert_eq!(choices[25], Choice::Reroll4([1, 2, 3, 4]));
    assert_eq!(choices[29], Choice::Reroll4([2, 3, 4, 5]));
    assert_eq!(choices[30], Choice::Reroll5([1, 2, 3, 4, 5]));
}

#[test]
fn picks_of_equal_dice_repeat() {
    let choices = reroll_choices(&Dice::new([3, 3, 3, 3, 3]).unwrap());
    assert_eq!(choices.len(), 31);
    assert!(choices[..5].iter().all(|choice| *choice == Choice::Reroll1([3])));
    assert!(choices[5..15].iter().all(|choice| *choice == Choice::Reroll2([3, 3])));
    assert_eq!(choices[30], Choice::Reroll5([3; 5]));
}

#[test]
fn the_dice_of_a_choice() {
    assert_eq!(Choice::SelectCombo(Combo::Chance).dice(), Vec::<u8>::new());
    assert_eq!(Choice::Reroll1([4]).dice(), vec![4]);
    assert_eq!(Choice::Reroll3([1, 1, 6]).dice(), vec![1, 1, 6]);
    assert_eq!(Choice::Reroll5([1, 2, 3, 4, 5]).dice(), vec![1, 2, 3, 4, 5]);
}

#[test]
fn same_choice() {
    assert!(Choice::Reroll2([1, 2]).same(&Choice::Reroll2([1, 2])));
    assert!(!Choice::Reroll2([1, 2]).same(&Choice::Reroll2([1, 3])));
    assert!(!Choice::Reroll1([1]).same(&Choice::Reroll2([1, 1])));
    assert!(Choice::SelectCombo(Combo::Ones).same(&Choice::SelectCombo(Combo::Ones)));
    assert!(!Choice::SelectCombo(Combo::Ones).same(&Choice::SelectCombo(Combo::Twos)));
    assert!(!Choice::SelectCombo(Combo::Ones).same(&Choice::Reroll1([1])));
}
