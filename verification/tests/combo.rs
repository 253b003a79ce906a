use yatzy::{Combo, Dice};

fn points(combo: Combo, dice: [u8; 5]) -> u8 {
    combo.points(Dice::new(dice).unwrap())
}

fn all_combos() -> Vec<Combo> {
    let mut walk = Combo::iter();
    let mut all = Vec::new();
    while let Some(combo) = walk.next() {
        all.push(combo);
    }
    all
}

#[test]
fn iter_walks_the_card_in_order() {
    assert_eq!(
        all_combos(),
        vec![
            Combo::Ones,
            Combo::Twos,
            Combo::Threes,
            Combo::Fours,
            Combo::Fives,
            Combo::Sixes,
            Combo::OnePair,
            Combo::TwoPairs,
            Combo::ThreeOfAKind,
            Combo::FourOfAKind,
            Combo::SmallStraight,
            Combo::LargeStraight,
            Combo::FullHouse,
            Combo::Chance,
            Combo::Yatzy,
        ]
    );
    let mut walk = Combo::iter();
    for _ in 0..15 {
        assert!(walk.next().is_some());
    }
    assert_eq!(walk.next(), None);
    assert_eq!(walk.next(), None);
}

#[test]
fn ordinal_counts_from_zero() {
    for (i, combo) in all_combos().into_iter().enumerate() {
        assert_eq!(combo.ordinal(), i);
    }
}

#[test]
fn number_lines_count_their_face() {
    assert_eq!(points(Combo::Ones, [1, 1, 3, 4, 1]), 3);
    assert_eq!(points(Combo::Twos, [2, 1, 2, 4, 2]), 6);
    assert_eq!(points(Combo::Threes, [3, 3, 3, 3, 3]), 15);
    assert_eq!(points(Combo::Fours, [1, 2, 3, 5, 6]), 0);
    assert_eq!(points(Combo::Fives, [5, 5, 1, 1, 1]), 10);
    assert_eq!(points(Combo::Sixes, [6, 6, 6, 6, 1]), 24);
}

#[test]
fn one_pair_takes_the_highest_pair() {
    assert_eq!(points(Combo::OnePair, [1, 1, 6, 6, 3]), 12);
    assert_eq!(points(Combo::OnePair, [2, 2, 2, 5, 6]), 4);
    assert_eq!(points(Combo::OnePair, [1, 2, 3, 4, 5]), 0);
    assert_eq!(points(Combo::OnePair, [4, 4, 4, 4, 4]), 8);
}

#[test]
fn two_pairs_need_two_faces() {
    assert_eq!(points(Combo::TwoPairs, [1, 1, 2, 2, 6]), 6);
    assert_eq!(points(Combo::TwoPairs, [5, 5, 6, 6, 1]), 22);
    assert_eq!(points(Combo::TwoPairs, [2, 2, 4, 5, 5]), 14);
    assert_eq!(points(Combo::TwoPairs, [3, 3, 3, 3, 6]), 0);
    assert_eq!(points(Combo::TwoPairs, [3, 3, 3, 3, 3]), 0);
    assert_eq!(points(Combo::TwoPairs, [1, 1, 2, 3, 4]), 0);
}

#[test]
fn two_pairs_inside_a_full_house() {
    assert_eq!(points(Combo::TwoPairs, [3, 3, 4, 4, 4]), 14);
    assert_eq!(points(Combo::TwoPairs, [2, 2, 2, 3, 3]), 10);
}

#[test]
fn three_and_four_of_a_kind() {
    assert_eq!(points(Combo::ThreeOfAKind, [5, 5, 5, 1, 2]), 15);
    assert_eq!(points(Combo::ThreeOfAKind, [1, 2, 2, 2, 6]), 6);
    assert_eq!(points(Combo::ThreeOfAKind, [6, 6, 6, 6, 6]), 18);
    assert_eq!(points(Combo::ThreeOfAKind, [1, 1, 2, 2, 3]), 0);
    assert_eq!(points(Combo::FourOfAKind, [2, 2, 2, 2, 5]), 8);
    assert_eq!(points(Combo::FourOfAKind, [1, 6, 6, 6, 6]), 24);
    assert_eq!(points(Combo::FourOfAKind, [4, 4, 4, 4, 4]), 16);
    assert_eq!(points(Combo::FourOfAKind, [3, 3, 3, 4, 4]), 0);
}

#[test]
fn straights() {
    assert_eq!(points(Combo::SmallStraight, [5, 4, 3, 2, 1]), 15);
    assert_eq!(points(Combo::SmallStraight, [2, 3, 4, 5, 6]), 0);
    assert_eq!(points(Combo::SmallStraight, [1, 2, 3, 4, 4]), 0);
    assert_eq!(points(Combo::LargeStraight, [6, 5, 4, 3, 2]), 20);
    assert_eq!(points(Combo::LargeStraight, [1, 2, 3, 4, 5]), 0);
    assert_eq!(points(Combo::LargeStraight, [2, 3, 4, 5, 5]), 0);
}

#[test]
fn full_house_is_a_triple_and_a_pair() {
    assert_eq!(points(Combo::FullHouse, [3, 3, 4, 4, 4]), 18);
    assert_eq!(points(Combo::FullHouse, [1, 1, 1, 2, 2]), 7);
    assert_eq!(points(Combo::FullHouse, [6, 6, 6, 5, 5]), 28);
    assert_eq!(points(Combo::FullHouse, [6, 6, 5, 5, 1]), 0);
    assert_eq!(points(Combo::FullHouse, [2, 2, 2, 2, 3]), 0);
}

#[test]
fn chance_adds_the_dice() {
    assert_eq!(points(Combo::Chance, [1, 1, 1, 1, 1]), 5);
    assert_eq!(points(Combo::Chance, [6, 6, 6, 6, 6]), 30);
    assert_eq!(points(Combo::Chance, [1, 3, 4, 4, 6]), 18);
}

#[test]
fn yatzy_is_five_of_a_kind() {
    assert_eq!(points(Combo::Yatzy, [2, 2, 2, 2, 2]), 50);
    assert_eq!(points(Combo::Yatzy, [2, 2, 2, 2, 3]), 0);
}

#[test]
fn five_of_a_kind_is_no_full_house_and_no_two_pairs() {
    for face in 1..=6u8 {
        assert_eq!(points(Combo::FullHouse, [face; 5]), 0);
        assert_eq!(points(Combo::TwoPairs, [face; 5]), 0);
        assert_eq!(points(Combo::Yatzy, [face; 5]), 50);
    }
}

#[test]
fn points_are_always_legal_scores() {
    for a in 1..=6u8 {
        for b in a..=6u8 {
            for c in b..=6u8 {
                for d in c..=6u8 {
                    for e in d..=6u8 {
                        for combo in all_combos() {
                            let p = points(combo, [a, b, c, d, e]);
                            assert!(combo.is_legal_score(p), "{:?} {:?} {}", combo, [a, b, c, d, e], p);
                        }
                    }
                }
            }
        }
    }
}

#[test]
fn every_legal_score_of_a_line_occurs() {
    for combo in all_combos() {
        let mut seen = [false; 256];
        for a in 1..=6u8 {
            for b in a..=6u8 {
                for c in b..=6u8 {
                    for d in c..=6u8 {
                        for e in d..=6u8 {
                            seen[points(combo, [a, b, c, d, e]) as usize] = true;
                        }
                    }
                }
            }
        }
        for p in 0..=255u8 {
            assert_eq!(combo.is_legal_score(p), seen[p as usize], "{:?} {}", combo, p);
        }
    }
}

#[test]
fn legal_scores_of_a_few_lines() {
    assert!(Combo::Ones.is_legal_score(0));
    assert!(Combo::Ones.is_legal_score(5));
    assert!(!Combo::Ones.is_legal_score(6));
    assert!(Combo::Sixes.is_legal_score(30));
    assert!(!Combo::Sixes.is_legal_score(5));
    assert!(!Combo::TwoPairs.is_legal_score(4));
    assert!(Combo::TwoPairs.is_legal_score(22));
    assert!(!Combo::FullHouse.is_legal_score(10));
    assert!(!Combo::FullHouse.is_legal_score(25));
    assert!(Combo::FullHouse.is_legal_score(7));
    assert!(!Combo::Chance.is_legal_score(0));
    assert!(!Combo::Chance.is_legal_score(4));
    assert!(Combo::Chance.is_legal_score(5));
    assert!(Combo::Yatzy.is_legal_score(50));
    assert!(!Combo::Yatzy.is_legal_score(25));
}

#[test]
fn number_face_of_each_line() {
    assert_eq!(Combo::Ones.number_face(), 1);
    assert_eq!(Combo::Sixes.number_face(), 6);
    assert_eq!(Combo::OnePair.number_face(), 0);
    assert_eq!(Combo::Yatzy.number_face(), 0);
}
