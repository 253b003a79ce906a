use crate::dice::{count, lemma_count_five, sorted_dice, Dice, Die};
use vstd::prelude::*;

verus! {

/// One of the fifteen lines of the scorecard.
#[derive(Clone, Copy, Debug, PartialEq, Eq, Hash, Structural)]
pub enum Combo {
    Ones,
    Twos,
    Threes,
    Fours,
    Fives,
    Sixes,
    OnePair,
    TwoPairs,
    ThreeOfAKind,
    FourOfAKind,
    SmallStraight,
    LargeStraight,
    FullHouse,
    Chance,
    Yatzy,
}

/// The combo at place `i` of the scorecard, counted from 0. Places past the end give the last.
pub open spec fn combo_at(i: int) -> Combo {
    if i <= 0 {
        Combo::Ones
    } else if i == 1 {
        Combo::Twos
    } else if i == 2 {
        Combo::Threes
    } else if i == 3 {
        Combo::Fours
    } else if i == 4 {
        Combo::Fives
    } else if i == 5 {
        Combo::Sixes
    } else if i == 6 {
        Combo::OnePair
    } else if i == 7 {
        Combo::TwoPairs
    } else if i == 8 {
        Combo::ThreeOfAKind
    } else if i == 9 {
        Combo::FourOfAKind
    } else if i == 10 {
        Combo::SmallStraight
    } else if i == 11 {
        Combo::LargeStraight
    } else if i == 12 {
        Combo::FullHouse
    } else if i == 13 {
        Combo::Chance
    } else {
        Combo::Yatzy
    }
}

/// The highest face that occurs at least `k` times in `d`, or 0 where none does.
pub open spec fn highest_with(d: Seq<Die>, k: nat) -> nat {
    if count(d, 6) >= k {
        6
    } else if count(d, 5) >= k {
        5
    } else if count(d, 4) >= k {
        4
    } else if count(d, 3) >= k {
        3
    } else if count(d, 2) >= k {
        2
    } else if count(d, 1) >= k {
        1
    } else {
        0
    }
}

/// The highest face below `top` that occurs at least twice in `d`, or 0 where none does.
pub open spec fn pair_below(d: Seq<Die>, top: nat) -> nat {
    if 5 < top && count(d, 5) >= 2 {
        5
    } else if 4 < top && count(d, 4) >= 2 {
        4
    } else if 3 < top && count(d, 3) >= 2 {
        3
    } else if 2 < top && count(d, 2) >= 2 {
        2
    } else if 1 < top && count(d, 1) >= 2 {
        1
    } else {
        0
    }
}

/// The highest face that occurs exactly `k` times in `d`, or 0 where none does.
pub open spec fn face_occurring(d: Seq<Die>, k: nat) -> nat {
    if count(d, 6) == k {
        6
    } else if count(d, 5) == k {
        5
    } else if count(d, 4) == k {
        4
    } else if count(d, 3) == k {
        3
    } else if count(d, 2) == k {
        2
    } else if count(d, 1) == k {
        1
    } else {
        0
    }
}

/// What the hand `d` is worth on the line `c`, by the rules of the game.
pub open spec fn points_of(c: Combo, d: Seq<Die>) -> nat {
    match c {
        Combo::Ones => count(d, 1),
        Combo::Twos => 2 * count(d, 2),
        Combo::Threes => 3 * count(d, 3),
        Combo::Fours => 4 * count(d, 4),
        Combo::Fives => 5 * count(d, 5),
        Combo::Sixes => 6 * count(d, 6),
        Combo::OnePair => 2 * highest_with(d, 2),
        Combo::TwoPairs => {
            let high = highest_with(d, 2);
            let low = pair_below(d, high);
            if low > 0 {
                2 * high + 2 * low
            } else {
                0
            }
        },
        Combo::ThreeOfAKind => 3 * highest_with(d, 3),
        Combo::FourOfAKind => 4 * highest_with(d, 4),
        Combo::SmallStraight => if count(d, 1) == 1 && count(d, 2) == 1 && count(d, 3) == 1
            && count(d, 4) == 1 && count(d, 5) == 1 {
            15
        } else {
            0
        },
        Combo::LargeStraight => if count(d, 2) == 1 && count(d, 3) == 1 && count(d, 4) == 1
            && count(d, 5) == 1 && count(d, 6) == 1 {
            20
        } else {
            0
        },
        Combo::FullHouse => {
            let triple = face_occurring(d, 3);
            let pair = face_occurring(d, 2);
            if triple > 0 && pair > 0 {
                3 * triple + 2 * pair
            } else {
                0
            }
        },
        Combo::Chance => (d[0] + d[1] + d[2] + d[3] + d[4]) as nat,
        Combo::Yatzy => if highest_with(d, 5) > 0 {
            50
        } else {
            0
        },
    }
}

/// Whether a line `c` of the scorecard can hold `p` points.
pub open spec fn legal_score(c: Combo, p: nat) -> bool {
    match c {
        Combo::Ones => p <= 5,
        Combo::Twos => p <= 10 && p % 2 == 0,
        Combo::Threes => p <= 15 && p % 3 == 0,
        Combo::Fours => p <= 20 && p % 4 == 0,
        Combo::Fives => p <= 25 && p % 5 == 0,
        Combo::Sixes => p <= 30 && p % 6 == 0,
        Combo::OnePair => p <= 12 && p % 2 == 0,
        Combo::TwoPairs => p == 0 || (6 <= p <= 22 && p % 2 == 0),
        Combo::ThreeOfAKind => p <= 18 && p % 3 == 0,
        Combo::FourOfAKind => p <= 24 && p % 4 == 0,
        Combo::SmallStraight => p == 0 || p == 15,
        Combo::LargeStraight => p == 0 || p == 20,
        Combo::FullHouse => p == 0 || (7 <= p <= 28 && p != 10 && p != 25),
        Combo::Chance => 5 <= p <= 30,
        Combo::Yatzy => p == 0 || p == 50,
    }
}

/// The counts of all six faces of a hand of five, written out place by place.
pub proof fn lemma_counts(d: Seq<Die>)
    requires
        d.len() == 5,
    ensures
        forall|v: Die| #[trigger]
            count(d, v) == crate::dice::ind(d[0], v) + crate::dice::ind(d[1], v) + crate::dice::ind(
                d[2],
                v,
            ) + crate::dice::ind(d[3], v) + crate::dice::ind(d[4], v),
{
    assert forall|v: Die| #[trigger]
        count(d, v) == crate::dice::ind(d[0], v) + crate::dice::ind(d[1], v) + crate::dice::ind(
            d[2],
            v,
        ) + crate::dice::ind(d[3], v) + crate::dice::ind(d[4], v) by {
        lemma_count_five(d, v);
    }
}

/// The six counts of a hand of five add up to five where every die is valid.
proof fn lemma_counts_total(d: Seq<Die>)
    requires
        sorted_dice(d),
    ensures
        count(d, 1) + count(d, 2) + count(d, 3) + count(d, 4) + count(d, 5) + count(d, 6) == 5,
{
    lemma_counts(d);
}

proof fn lemma_legal_numbers(c: Combo, d: Seq<Die>)
    requires
        sorted_dice(d),
        c.face() > 0,
    ensures
        legal_score(c, points_of(c, d)),
{
    lemma_counts_total(d);
}

proof fn lemma_legal_kinds(c: Combo, d: Seq<Die>)
    requires
        sorted_dice(d),
        c == Combo::OnePair || c == Combo::ThreeOfAKind || c == Combo::FourOfAKind || c
            == Combo::Yatzy || c == Combo::SmallStraight || c == Combo::LargeStraight,
    ensures
        legal_score(c, points_of(c, d)),
{
}

proof fn lemma_legal_two_pairs(d: Seq<Die>)
    requires
        sorted_dice(d),
    ensures
        legal_score(Combo::TwoPairs, points_of(Combo::TwoPairs, d)),
{
    let high = highest_with(d, 2);
    let low = pair_below(d, high);
    assert(low > 0 ==> 1 <= low < high <= 6);
}

proof fn lemma_legal_full_house(d: Seq<Die>)
    requires
        sorted_dice(d),
    ensures
        legal_score(Combo::FullHouse, points_of(Combo::FullHouse, d)),
{
    let triple = face_occurring(d, 3);
    let pair = face_occurring(d, 2);
    assert(triple <= 6 && pair <= 6);
    assert(triple > 0 && pair > 0 ==> triple != pair);
}

proof fn lemma_legal_chance(d: Seq<Die>)
    requires
        sorted_dice(d),
    ensures
        legal_score(Combo::Chance, points_of(Combo::Chance, d)),
{
}

/// Whatever a canonical hand shows, what it is worth on a line is a score that the line can
/// hold.
pub proof fn points_are_legal(c: Combo, d: Seq<Die>)
    requires
        sorted_dice(d),
    ensures
        legal_score(c, points_of(c, d)),
{
    match c {
        Combo::Ones | Combo::Twos | Combo::Threes | Combo::Fours | Combo::Fives | Combo::Sixes => {
            lemma_legal_numbers(c, d);
        },
        Combo::TwoPairs => {
            lemma_legal_two_pairs(d);
        },
        Combo::FullHouse => {
            lemma_legal_full_house(d);
        },
        Combo::Chance => {
            lemma_legal_chance(d);
        },
        _ => {
            lemma_legal_kinds(c, d);
        },
    }
}

/// Five dice of one face are neither a full house nor two pairs.
pub proof fn five_of_a_kind_is_no_full_house(d: Seq<Die>)
    requires
        sorted_dice(d),
        d[0] == d[4],
    ensures
        points_of(Combo::FullHouse, d) == 0,
        points_of(Combo::TwoPairs, d) == 0,
        points_of(Combo::Yatzy, d) == 50,
{
    lemma_counts(d);
}

impl Combo {
    /// The place of the line on the scorecard, counted from 0.
    pub open spec fn index(self) -> int {
        match self {
            Combo::Ones => 0,
            Combo::Twos => 1,
            Combo::Threes => 2,
            Combo::Fours => 3,
            Combo::Fives => 4,
            Combo::Sixes => 5,
            Combo::OnePair => 6,
            Combo::TwoPairs => 7,
            Combo::ThreeOfAKind => 8,
            Combo::FourOfAKind => 9,
            Combo::SmallStraight => 10,
            Combo::LargeStraight => 11,
            Combo::FullHouse => 12,
            Combo::Chance => 13,
            Combo::Yatzy => 14,
        }
    }

    /// The face that a number line counts, or 0 for the other lines.
    pub open spec fn face(self) -> nat {
        match self {
            Combo::Ones => 1,
            Combo::Twos => 2,
            Combo::Threes => 3,
            Combo::Fours => 4,
            Combo::Fives => 5,
            Combo::Sixes => 6,
            _ => 0,
        }
    }

    /// Walks the fifteen lines in the order of the scorecard.
    pub fn iter() -> (it: ComboIterator)
        ensures
            it.position() == 0,
    {
        ComboIterator { current: None }
    }

    /// The place of the line on the scorecard, counted from 0.
    pub fn ordinal(&self) -> (i: usize)
        ensures
            i == self.index(),
            i < 15,
            combo_at(i as int) == *self,
    {
        match self {
            Combo::Ones => 0,
            Combo::Twos => 1,
            Combo::Threes => 2,
            Combo::Fours => 3,
            Combo::Fives => 4,
            Combo::Sixes => 5,
            Combo::OnePair => 6,
            Combo::TwoPairs => 7,
            Combo::ThreeOfAKind => 8,
            Combo::FourOfAKind => 9,
            Combo::SmallStraight => 10,
            Combo::LargeStraight => 11,
            Combo::FullHouse => 12,
            Combo::Chance => 13,
            Combo::Yatzy => 14,
        }
    }

    /// The line at place `i` of the scorecard, counted from 0.
    pub fn nth(i: usize) -> (c: Combo)
        requires
            i < 15,
        ensures
            c == combo_at(i as int),
            c.index() == i,
    {
        if i == 0 {
            Combo::Ones
        } else if i == 1 {
            Combo::Twos
        } else if i == 2 {
            Combo::Threes
        } else if i == 3 {
            Combo::Fours
        } else if i == 4 {
            Combo::Fives
        } else if i == 5 {
            Combo::Sixes
        } else if i == 6 {
            Combo::OnePair
        } else if i == 7 {
            Combo::TwoPairs
        } else if i == 8 {
            Combo::ThreeOfAKind
        } else if i == 9 {
            Combo::FourOfAKind
        } else if i == 10 {
            Combo::SmallStraight
        } else if i == 11 {
            Combo::LargeStraight
        } else if i == 12 {
            Combo::FullHouse
        } else if i == 13 {
            Combo::Chance
        } else {
            Combo::Yatzy
        }
    }

    /// The face that a number line counts, or 0 for the other lines.
    pub fn number_face(&self) -> (f: u8)
        ensures
            f == self.face(),
            f <= 6,
    {
        match self {
            Combo::Ones => 1,
            Combo::Twos => 2,
            Combo::Threes => 3,
            Combo::Fours => 4,
            Combo::Fives => 5,
            Combo::Sixes => 6,
            _ => 0,
        }
    }

    /// Whether the line can hold `points`.
    pub fn is_legal_score(&self, points: u8) -> (ok: bool)
        ensures
            ok == legal_score(*self, points as nat),
    {
        match self {
            Combo::Ones => points <= 5,
            Combo::Twos => points <= 10 && points % 2 == 0,
            Combo::Threes => points <= 15 && points % 3 == 0,
            Combo::Fours => points <= 20 && points % 4 == 0,
            Combo::Fives => points <= 25 && points % 5 == 0,
            Combo::Sixes => points <= 30 && points % 6 == 0,
            Combo::OnePair => points <= 12 && points % 2 == 0,
            Combo::TwoPairs => points == 0 || (6 <= points && points <= 22 && points % 2 == 0),
            Combo::ThreeOfAKind => points <= 18 && points % 3 == 0,
            Combo::FourOfAKind => points <= 24 && points % 4 == 0,
            Combo::SmallStraight => points == 0 || points == 15,
            Combo::LargeStraight => points == 0 || points == 20,
            Combo::FullHouse => points == 0 || (7 <= points && points <= 28 && points != 10
                && points != 25),
            Combo::Chance => 5 <= points && points <= 30,
            Combo::Yatzy => points == 0 || points == 50,
        }
    }

    /// What the hand is worth on this line.
    pub fn points(&self, dice: Dice) -> (p: u8)
        requires
            dice.wf(),
        ensures
            p == points_of(*self, dice@),
            legal_score(*self, p as nat),
    {
        let d0 = dice.get(0);
        let d1 = dice.get(1);
        let d2 = dice.get(2);
        let d3 = dice.get(3);
        let d4 = dice.get(4);
        proof {
            lemma_counts(dice@);
            points_are_legal(*self, dice@);
        }
        match self {
            Combo::Ones => number_points(d0, d1, d2, d3, d4, 1),
            Combo::Twos => number_points(d0, d1, d2, d3, d4, 2),
            Combo::Threes => number_points(d0, d1, d2, d3, d4, 3),
            Combo::Fours => number_points(d0, d1, d2, d3, d4, 4),
            Combo::Fives => number_points(d0, d1, d2, d3, d4, 5),
            Combo::Sixes => number_points(d0, d1, d2, d3, d4, 6),
            Combo::OnePair => {
                if d3 == d4 {
                    2 * d3
                } else if d2 == d3 {
                    2 * d2
                } else if d1 == d2 {
                    2 * d1
                } else if d0 == d1 {
                    2 * d0
                } else {
                    0
                }
            },
            Combo::TwoPairs => {
                if d0 == d1 && d1 != d2 && d2 == d3 {
                    2 * d0 + 2 * d2
                } else if d0 == d1 && d1 != d3 && d3 == d4 {
                    2 * d0 + 2 * d3
                } else if d1 == d2 && d2 != d3 && d3 == d4 {
                    2 * d1 + 2 * d3
                } else {
                    0
                }
            },
            Combo::ThreeOfAKind => {
                if d2 == d3 && d3 == d4 {
                    3 * d2
                } else if d1 == d2 && d2 == d3 {
                    3 * d1
                } else if d0 == d1 && d1 == d2 {
                    3 * d0
                } else {
                    0
                }
            },
            Combo::FourOfAKind => {
                if d0 == d1 && d1 == d2 && d2 == d3 {
                    4 * d0
                } else if d1 == d2 && d2 == d3 && d3 == d4 {
                    4 * d1
                } else {
                    0
                }
            },
            Combo::SmallStraight => {
                if d0 == 1 && d1 == 2 && d2 == 3 && d3 == 4 && d4 == 5 {
                    15
                } else {
                    0
                }
            },
            Combo::LargeStraight => {
                if d0 == 2 && d1 == 3 && d2 == 4 && d3 == 5 && d4 == 6 {
                    20
                } else {
                    0
                }
            },
            Combo::FullHouse => {
                if d0 == d1 && d1 == d2 && d2 != d3 && d3 == d4 {
                    3 * d0 + 2 * d3
                } else if d0 == d1 && d1 != d2 && d2 == d3 && d3 == d4 {
                    2 * d0 + 3 * d2
                } else {
                    0
                }
            },
            Combo::Chance => d0 + d1 + d2 + d3 + d4,
            Combo::Yatzy => {
                if d0 == d1 && d1 == d2 && d2 == d3 && d3 == d4 {
                    50
                } else {
                    0
                }
            },
        }
    }
}

/// `face` times the number of the five dice that show `face`.
fn number_points(d0: Die, d1: Die, d2: Die, d3: Die, d4: Die, face: Die) -> (p: u8)
    requires
        1 <= face <= 6,
    ensures
        p == face * (crate::dice::ind(d0, face) + crate::dice::ind(d1, face) + crate::dice::ind(
            d2,
            face,
        ) + crate::dice::ind(d3, face) + crate::dice::ind(d4, face)),
{
    let mut n: u8 = 0;
    if d0 == face {
        n = n + 1;
    }
    if d1 == face {
        n = n + 1;
    }
    if d2 == face {
        n = n + 1;
    }
    if d3 == face {
        n = n + 1;
    }
    if d4 == face {
        n = n + 1;
    }
    assert(face * n <= 30) by (nonlinear_arith)
        requires
            face <= 6,
            n <= 5,
    ;
    face * n
}

/// A walk over the fifteen lines of the scorecard, from `Ones` to `Yatzy`.
#[derive(Copy, Clone, Debug)]
pub struct ComboIterator {
    current: Option<Combo>,
}

impl ComboIterator {
    /// How many lines the walk has handed out.
    pub closed spec fn position(&self) -> int {
        match self.current {
            None => 0,
            Some(c) => c.index() + 1,
        }
    }

    /// The next line, or `None` once all fifteen were handed out.
    pub fn next(&mut self) -> (r: Option<Combo>)
        ensures
            0 <= old(self).position() <= 15,
            old(self).position() < 15 ==> r == Some(combo_at(old(self).position()))
                && final(self).position() == old(self).position() + 1,
            old(self).position() == 15 ==> r is None && final(self).position() == 15,
    {
        let next = match self.current {
            None => Some(Combo::Ones),
            Some(Combo::Ones) => Some(Combo::Twos),
            Some(Combo::Twos) => Some(Combo::Threes),
            Some(Combo::Threes) => Some(Combo::Fours),
            Some(Combo::Fours) => Some(Combo::Fives),
            Some(Combo::Fives) => Some(Combo::Sixes),
            Some(Combo::Sixes) => Some(Combo::OnePair),
            Some(Combo::OnePair) => Some(Combo::TwoPairs),
            Some(Combo::TwoPairs) => Some(Combo::ThreeOfAKind),
            Some(Combo::ThreeOfAKind) => Some(Combo::FourOfAKind),
            Some(Combo::FourOfAKind) => Some(Combo::SmallStraight),
            Some(Combo::SmallStraight) => Some(Combo::LargeStraight),
            Some(Combo::LargeStraight) => Some(Combo::FullHouse),
            Some(Combo::FullHouse) => Some(Combo::Chance),
            Some(Combo::Chance) => Some(Combo::Yatzy),
            Some(Combo::Yatzy) => None,
        };
        if next.is_some() {
            self.current = next;
        }
        next
    }
}

} // verus!
