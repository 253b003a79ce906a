use crate::cache::Cache;
use crate::choice::{
    choice_hands, lemma_reroll_candidates, reroll_candidates, reroll_choices, Choice,
};
use crate::combo::{combo_at, lemma_counts, points_of, Combo};
use crate::dice::{
    all_valid, contained_in, count, count_in, lemma_count_five, lemma_len_is_counts, rerolled,
    sorted_dice, Dice, Die,
};
use crate::exact::{chance, entry_fits, is_roll_table, roll_probabilities, ExpectedValue, Value};
use crate::game::{Game, Scorecard};
use crate::prob::roll_table;
use crate::state::{card_of, game_from_state, state_from_card, state_of, GameState};
use crate::table::EvTable;
use vstd::prelude::*;

verus! {

/// What is still to come once a line was filled: the bonus, 50 or nothing, where that was
/// the last line, and else the expected value of the state that the card is in now.
pub open spec fn bonus_or_value(card: Scorecard, ev: Map<GameState, real>) -> real {
    if card.full() {
        if card.has_bonus() {
            50real
        } else {
            0real
        }
    } else {
        ev[state_of(card)]
    }
}

/// The card once the line `c` holds what the dice are worth on it.
pub open spec fn filled_with(card: Scorecard, dice: Seq<Die>, c: Combo) -> Scorecard {
    card.with(c, Some(points_of(c, dice) as u8))
}

/// What filling the line `c` with these dice is worth: the points, and what is still to come
/// after that.
pub open spec fn select_value(
    card: Scorecard,
    dice: Seq<Die>,
    c: Combo,
    ev: Map<GameState, real>,
) -> real {
    points_of(c, dice) as real + bonus_or_value(filled_with(card, dice, c), ev)
}

/// The most that filling one of the empty lines before place `n` is worth, and 0 where none
/// of them is empty.
pub open spec fn best_select(card: Scorecard, dice: Seq<Die>, ev: Map<GameState, real>, n: int) -> real
    decreases n,
{
    if n <= 0 {
        0real
    } else {
        let rest = best_select(card, dice, ev, n - 1);
        let c = combo_at(n - 1);
        if card.get(c) is None && select_value(card, dice, c, ev) > rest {
            select_value(card, dice, c, ev)
        } else {
            rest
        }
    }
}

/// The first `n` terms of the expected value of rolling the dice `gone` again with `depth`
/// rerolls left, this one counted: for each outcome of the roll, its chance times the value
/// of the position that it leads to.
pub open spec fn outcome_sum(
    depth: nat,
    card: Scorecard,
    dice: Seq<Die>,
    gone: Seq<Die>,
    ev: Map<GameState, real>,
    n: int,
) -> real
    decreases depth, 1nat, n,
{
    if n <= 0 || depth == 0 {
        0real
    } else {
        outcome_sum(depth, card, dice, gone, ev, n - 1) + chance(gone.len(), n - 1)
            * position_value(
            (depth - 1) as nat,
            card,
            rerolled(dice, gone, roll_table(gone.len())[n - 1].0),
            ev,
        )
    }
}

/// What rolling the dice `gone` again is worth with `depth` rerolls left, this one counted:
/// the expected value, over the outcomes of the roll, of the position that it leads to.
pub open spec fn reroll_value(
    depth: nat,
    card: Scorecard,
    dice: Seq<Die>,
    gone: Seq<Die>,
    ev: Map<GameState, real>,
) -> real
    decreases depth, 1nat, roll_table(gone.len()).len() + 1,
{
    outcome_sum(depth, card, dice, gone, ev, roll_table(gone.len()).len() as int)
}

/// The most that one of the first `n` ways to roll some dice again is worth, and 0 where
/// there is none.
pub open spec fn best_reroll(
    depth: nat,
    card: Scorecard,
    dice: Seq<Die>,
    ev: Map<GameState, real>,
    n: int,
) -> real
    decreases depth, 2nat, n,
{
    if n <= 0 || depth == 0 || n > reroll_candidates(dice).len() {
        0real
    } else {
        let rest = best_reroll(depth, card, dice, ev, n - 1);
        let this = reroll_value(depth, card, dice, reroll_candidates(dice)[n - 1], ev);
        if this > rest {
            this
        } else {
            rest
        }
    }
}

/// The value of a position with `depth` rerolls left: the most that any line that is still
/// empty or, where a reroll is left, any way to roll some dice again is worth.
pub open spec fn position_value(
    depth: nat,
    card: Scorecard,
    dice: Seq<Die>,
    ev: Map<GameState, real>,
) -> real
    decreases depth, 3nat, 0nat,
{
    let select = best_select(card, dice, ev, 15);
    if depth == 0 {
        select
    } else {
        let reroll = best_reroll(depth, card, dice, ev, reroll_candidates(dice).len() as int);
        if reroll > select {
            reroll
        } else {
            select
        }
    }
}

/// The first `n` terms of the expected value of a state: for each outcome of the first roll
/// of the turn, its chance times the value of the position with two rerolls left.
pub open spec fn state_sum(state: GameState, ev: Map<GameState, real>, n: int) -> real
    decreases n,
{
    if n <= 0 {
        0real
    } else {
        state_sum(state, ev, n - 1) + chance(5, n - 1) * position_value(
            2,
            card_of(state),
            roll_table(5)[n - 1].0,
            ev,
        )
    }
}

/// The expected value of a state: the points still to come from it when every turn is played
/// as well as it can be, given the expected values `ev` of the states with fewer empty lines.
pub open spec fn state_value(state: GameState, ev: Map<GameState, real>) -> real {
    state_sum(state, ev, roll_table(5).len() as int)
}

/// The points that `k` dice of its face bring on a number line, and 0 for the other lines.
pub open spec fn number_score(c: Combo, k: nat) -> nat {
    c.face() * k
}

/// Whether `ev` has the state that follows when the empty line `c` of `card` is filled with
/// `k` dice of its face, where the game goes on after that.
pub open spec fn covers_line(ev: Map<GameState, real>, card: Scorecard, c: Combo, k: nat) -> bool {
    let next = card.with(c, Some(number_score(c, k) as u8));
    card.get(c) is None && k <= 5 && !next.full() ==> ev.dom().contains(state_of(next))
}

/// Whether `ev` has every state that can follow `card` by filling one line, so that every
/// value that a position on this card asks for is there.
pub open spec fn covers(ev: Map<GameState, real>, card: Scorecard) -> bool {
    forall|c: Combo, k: nat| #[trigger] covers_line(ev, card, c, k)
}

/// On a card whose next states are all there, the state after filling an empty line with any
/// canonical hand is there.
pub proof fn lemma_covered(ev: Map<GameState, real>, card: Scorecard, dice: Seq<Die>, c: Combo)
    requires
        covers(ev, card),
        sorted_dice(dice),
        card.get(c) is None,
        !filled_with(card, dice, c).full(),
    ensures
        ev.dom().contains(state_of(filled_with(card, dice, c))),
{
    lemma_counts(dice);
    let p = points_of(c, dice);
    crate::combo::points_are_legal(c, dice);
    let k: nat = if c.face() > 0 {
        count(dice, c.face() as Die)
    } else {
        0
    };
    assert(covers_line(ev, card, c, k));
    let next = card.with(c, Some(number_score(c, k) as u8));
    let real_next = filled_with(card, dice, c);
    lemma_same_state(card, c, p as u8, number_score(c, k) as u8);
}

/// Two cards with the same number lines, and with the same lines filled below them, are in
/// the same state, and one is full where the other is.
pub proof fn lemma_state_by_flags(a: Scorecard, b: Scorecard)
    requires
        a.ones == b.ones,
        a.twos == b.twos,
        a.threes == b.threes,
        a.fours == b.fours,
        a.fives == b.fives,
        a.sixes == b.sixes,
        a.one_pair is Some == b.one_pair is Some,
        a.two_pairs is Some == b.two_pairs is Some,
        a.three_of_a_kind is Some == b.three_of_a_kind is Some,
        a.four_of_a_kind is Some == b.four_of_a_kind is Some,
        a.small_straight is Some == b.small_straight is Some,
        a.large_straight is Some == b.large_straight is Some,
        a.full_house is Some == b.full_house is Some,
        a.chance is Some == b.chance is Some,
        a.yatzy is Some == b.yatzy is Some,
    ensures
        state_of(a) == state_of(b),
        a.full() == b.full(),
        a.has_bonus() == b.has_bonus(),
{
    assert(a.upper_total() == b.upper_total());
    assert(crate::state::remaining(a) == crate::state::remaining(b));
    assert(a.filled_count() == b.filled_count());
}

proof fn lemma_same_state_one_pair(card: Scorecard, p: u8, q: u8)
    ensures
        state_of(card.with(Combo::OnePair, Some(p))) == state_of(card.with(Combo::OnePair, Some(q))),
        card.with(Combo::OnePair, Some(p)).full() == card.with(Combo::OnePair, Some(q)).full(),
{
    let a = Scorecard { one_pair: Some(p), ..card };
    let b = Scorecard { one_pair: Some(q), ..card };
    lemma_state_by_flags(a, b);
    assert(card.with(Combo::OnePair, Some(p)) == a);
    assert(card.with(Combo::OnePair, Some(q)) == b);
}

proof fn lemma_same_state_two_pairs(card: Scorecard, p: u8, q: u8)
    ensures
        state_of(card.with(Combo::TwoPairs, Some(p))) == state_of(card.with(Combo::TwoPairs, Some(q))),
        card.with(Combo::TwoPairs, Some(p)).full() == card.with(Combo::TwoPairs, Some(q)).full(),
{
    let a = Scorecard { two_pairs: Some(p), ..card };
    let b = Scorecard { two_pairs: Some(q), ..card };
    lemma_state_by_flags(a, b);
    assert(card.with(Combo::TwoPairs, Some(p)) == a);
    assert(card.with(Combo::TwoPairs, Some(q)) == b);
}

proof fn lemma_same_state_three_of_a_kind(card: Scorecard, p: u8, q: u8)
    ensures
        state_of(card.with(Combo::ThreeOfAKind, Some(p))) == state_of(card.with(Combo::ThreeOfAKind, Some(q))),
        card.with(Combo::ThreeOfAKind, Some(p)).full() == card.with(Combo::ThreeOfAKind, Some(q)).full(),
{
    let a = Scorecard { three_of_a_kind: Some(p), ..card };
    let b = Scorecard { three_of_a_kind: Some(q), ..card };
    lemma_state_by_flags(a, b);
    assert(card.with(Combo::ThreeOfAKind, Some(p)) == a);
    assert(card.with(Combo::ThreeOfAKind, Some(q)) == b);
}

proof fn lemma_same_state_four_of_a_kind(card: Scorecard, p: u8, q: u8)
    ensures
        state_of(card.with(Combo::FourOfAKind, Some(p))) == state_of(card.with(Combo::FourOfAKind, Some(q))),
        card.with(Combo::FourOfAKind, Some(p)).full() == card.with(Combo::FourOfAKind, Some(q)).full(),
{
    let a = Scorecard { four_of_a_kind: Some(p), ..card };
    let b = Scorecard { four_of_a_kind: Some(q), ..card };
    lemma_state_by_flags(a, b);
    assert(card.with(Combo::FourOfAKind, Some(p)) == a);
    assert(card.with(Combo::FourOfAKind, Some(q)) == b);
}

proof fn lemma_same_state_small_straight(card: Scorecard, p: u8, q: u8)
    ensures
        state_of(card.with(Combo::SmallStraight, Some(p))) == state_of(card.with(Combo::SmallStraight, Some(q))),
        card.with(Combo::SmallStraight, Some(p)).full() == card.with(Combo::SmallStraight, Some(q)).full(),
{
    let a = Scorecard { small_straight: Some(p), ..card };
    let b = Scorecard { small_straight: Some(q), ..card };
    lemma_state_by_flags(a, b);
    assert(card.with(Combo::SmallStraight, Some(p)) == a);
    assert(card.with(Combo::SmallStraight, Some(q)) == b);
}

proof fn lemma_same_state_large_straight(card: Scorecard, p: u8, q: u8)
    ensures
        state_of(card.with(Combo::LargeStraight, Some(p))) == state_of(card.with(Combo::LargeStraight, Some(q))),
        card.with(Combo::LargeStraight, Some(p)).full() == card.with(Combo::LargeStraight, Some(q)).full(),
{
    let a = Scorecard { large_straight: Some(p), ..card };
    let b = Scorecard { large_straight: Some(q), ..card };
    lemma_state_by_flags(a, b);
    assert(card.with(Combo::LargeStraight, Some(p)) == a);
    assert(card.with(Combo::LargeStraight, Some(q)) == b);
}

proof fn lemma_same_state_full_house(card: Scorecard, p: u8, q: u8)
    ensures
        state_of(card.with(Combo::FullHouse, Some(p))) == state_of(card.with(Combo::FullHouse, Some(q))),
        card.with(Combo::FullHouse, Some(p)).full() == card.with(Combo::FullHouse, Some(q)).full(),
{
    let a = Scorecard { full_house: Some(p), ..card };
    let b = Scorecard { full_house: Some(q), ..card };
    lemma_state_by_flags(a, b);
    assert(card.with(Combo::FullHouse, Some(p)) == a);
    assert(card.with(Combo::FullHouse, Some(q)) == b);
}

proof fn lemma_same_state_chance(card: Scorecard, p: u8, q: u8)
    ensures
        state_of(card.with(Combo::Chance, Some(p))) == state_of(card.with(Combo::Chance, Some(q))),
        card.with(Combo::Chance, Some(p)).full() == card.with(Combo::Chance, Some(q)).full(),
{
    let a = Scorecard { chance: Some(p), ..card };
    let b = Scorecard { chance: Some(q), ..card };
    lemma_state_by_flags(a, b);
    assert(card.with(Combo::Chance, Some(p)) == a);
    assert(card.with(Combo::Chance, Some(q)) == b);
}

proof fn lemma_same_state_yatzy(card: Scorecard, p: u8, q: u8)
    ensures
        state_of(card.with(Combo::Yatzy, Some(p))) == state_of(card.with(Combo::Yatzy, Some(q))),
        card.with(Combo::Yatzy, Some(p)).full() == card.with(Combo::Yatzy, Some(q)).full(),
{
    let a = Scorecard { yatzy: Some(p), ..card };
    let b = Scorecard { yatzy: Some(q), ..card };
    lemma_state_by_flags(a, b);
    assert(card.with(Combo::Yatzy, Some(p)) == a);
    assert(card.with(Combo::Yatzy, Some(q)) == b);
}

/// What a line below the number lines holds plays no part in the state: only that it is
/// filled.
pub proof fn lemma_same_state(card: Scorecard, c: Combo, p: u8, q: u8)
    requires
        c.face() == 0 || p == q,
    ensures
        state_of(card.with(c, Some(p))) == state_of(card.with(c, Some(q))),
        card.with(c, Some(p)).full() == card.with(c, Some(q)).full(),
{
    match c {
        Combo::OnePair => {
            lemma_same_state_one_pair(card, p, q);
        },
        Combo::TwoPairs => {
            lemma_same_state_two_pairs(card, p, q);
        },
        Combo::ThreeOfAKind => {
            lemma_same_state_three_of_a_kind(card, p, q);
        },
        Combo::FourOfAKind => {
            lemma_same_state_four_of_a_kind(card, p, q);
        },
        Combo::SmallStraight => {
            lemma_same_state_small_straight(card, p, q);
        },
        Combo::LargeStraight => {
            lemma_same_state_large_straight(card, p, q);
        },
        Combo::FullHouse => {
            lemma_same_state_full_house(card, p, q);
        },
        Combo::Chance => {
            lemma_same_state_chance(card, p, q);
        },
        Combo::Yatzy => {
            lemma_same_state_yatzy(card, p, q);
        },
        _ => {},
    }
}

/// What filling the line `combo` is worth in this game.
pub fn select_value_of(game: &Game, combo: Combo, ev: &EvTable) -> (v: ExpectedValue)
    requires
        sorted_dice(game@.dice),
        game@.card.get(combo) is None,
        covers(ev@, game@.card),
    ensures
        v.value() == select_value(game@.card, game@.dice, combo, ev@),
{
    let points = combo.points(game.dice());
    let mut next = *game;
    next.set_combo_raw(combo, Some(points));
    let gained = ExpectedValue::from_u8(points);
    if next.ended() {
        let bonus: u8 = if next.has_bonus() {
            50
        } else {
            0
        };
        gained.plus(&ExpectedValue::from_u8(bonus))
    } else {
        let state = state_from_card(&next.card());
        proof {
            lemma_covered(ev@, game@.card, game@.dice, combo);
        }
        match ev.get(&state) {
            Some(v) => gained.plus(v),
            // The table covers the card, so the state is there.
            None => gained,
        }
    }
}

/// The most that filling one of the empty lines is worth in this game, and 0 where none is
/// empty.
fn best_select_of(game: &Game, ev: &EvTable) -> (best: ExpectedValue)
    requires
        sorted_dice(game@.dice),
        covers(ev@, game@.card),
    ensures
        best.value() == best_select(game@.card, game@.dice, ev@, 15),
{
    let mut best = ExpectedValue::zero();
    let mut walk = Combo::iter();
    let mut i: usize = 0;
    while i < 15
        invariant
            i <= 15,
            walk.position() == i,
            sorted_dice(game@.dice),
            covers(ev@, game@.card),
            best.value() == best_select(game@.card, game@.dice, ev@, i as int),
        decreases 15 - i,
    {
        let c = walk.next().unwrap();
        if game.combo(c).is_none() {
            let v = select_value_of(game, c, ev);
            if best.less_than(&v) {
                best = v;
            }
        }
        i = i + 1;
    }
    best
}


/// The tables of the rolls of one to five dice, each outcome with its chance.
pub struct Rolls {
    tables: Vec<Vec<(Vec<Die>, ExpectedValue)>>,
}

impl Rolls {
    #[verifier::type_invariant]
    spec fn well_formed(self) -> bool {
        &&& self.tables@.len() == 5
        &&& forall|k: int| 0 <= k < 5 ==> is_roll_table((#[trigger] self.tables@[k])@, (k + 1) as nat)
    }

    /// The table of the roll of `k` dice, as the tables hold it.
    pub closed spec fn outcomes(&self, k: int) -> Seq<(Vec<Die>, ExpectedValue)> {
        self.tables@[k - 1]@
    }

    /// The five tables, worked out once.
    pub fn new() -> (rolls: Rolls)
        ensures
            forall|k: int| 1 <= k <= 5 ==> is_roll_table(#[trigger] rolls.outcomes(k), k as nat),
    {
        let mut tables: Vec<Vec<(Vec<Die>, ExpectedValue)>> = Vec::new();
        tables.push(roll_probabilities(1));
        tables.push(roll_probabilities(2));
        tables.push(roll_probabilities(3));
        tables.push(roll_probabilities(4));
        tables.push(roll_probabilities(5));
        Rolls { tables }
    }

    /// The table of the roll of `k` dice.
    pub fn table(&self, k: usize) -> (t: &Vec<(Vec<Die>, ExpectedValue)>)
        requires
            1 <= k <= 5,
        ensures
            t@ == self.outcomes(k as int),
            is_roll_table(t@, k as nat),
    {
        proof {
            use_type_invariant(self);
        }
        &self.tables[k - 1]
    }
}

/// The five dice of a hand as one number: the die at place `i` is the digit of weight `7^i`.
pub open spec fn hand_code(hand: Seq<Die>) -> nat {
    (hand[0] + 7 * hand[1] + 49 * hand[2] + 343 * hand[3] + 2401 * hand[4]) as nat
}

/// The key under which the value of a position is kept: its hand and its rerolls.
pub open spec fn position_code(depth: nat, hand: Seq<Die>) -> nat {
    depth * 16807 + hand_code(hand)
}

/// Two canonical hands with the same rerolls have the same key only where they are the same.
pub proof fn position_code_is_injective(d1: nat, h1: Seq<Die>, d2: nat, h2: Seq<Die>)
    requires
        sorted_dice(h1),
        sorted_dice(h2),
        position_code(d1, h1) == position_code(d2, h2),
    ensures
        d1 == d2,
        h1 == h2,
{
    assert(hand_code(h1) < 16807);
    assert(hand_code(h2) < 16807);
    assert(d1 == d2);
    assert(h1[0] == h2[0]);
    assert(h1[1] == h2[1]);
    assert(h1[2] == h2[2]);
    assert(h1[3] == h2[3]);
    assert(h1[4] == h2[4]);
    assert(h1 =~= h2);
}

/// How many dice that show `v` stay on the table when `gone` is taken from `dice`.
pub open spec fn kept(dice: Seq<Die>, gone: Seq<Die>, v: Die) -> int {
    count(dice, v) - count(gone, v)
}

/// The dice that stay on the table as one number: the dice that show the face `v` are the
/// digit of weight `6^(v - 1)`.
pub open spec fn kept_code(dice: Seq<Die>, gone: Seq<Die>) -> int {
    kept(dice, gone, 1) + 6 * kept(dice, gone, 2) + 36 * kept(dice, gone, 3) + 216 * kept(
        dice,
        gone,
        4,
    ) + 1296 * kept(dice, gone, 5) + 7776 * kept(dice, gone, 6)
}

/// The key under which the worth of a reroll is kept: the rerolls that are left, this one
/// counted, and the dice that stay on the table.
pub open spec fn retain_code(depth: nat, dice: Seq<Die>, gone: Seq<Die>) -> int {
    40000 + (depth - 1) * 46656 + kept_code(dice, gone)
}

/// Whether the dice of `gone` can be rolled again from the canonical hand `dice`.
pub open spec fn rerollable(dice: Seq<Die>, gone: Seq<Die>) -> bool {
    &&& sorted_dice(dice)
    &&& contained_in(gone, dice)
    &&& all_valid(gone)
    &&& 1 <= gone.len() <= 5
}

/// Whether every value that `memo` keeps under the key of a position on `card`, or under the
/// key of a reroll there, is the value of that position, or what that reroll is worth.
pub open spec fn memo_fits(memo: Map<u32, real>, card: Scorecard, ev: Map<GameState, real>) -> bool {
    &&& forall|depth: nat, hand: Seq<Die>|
        depth <= 1 && sorted_dice(hand) && memo.contains_key(
            #[trigger] position_code(depth, hand) as u32,
        ) ==> memo[position_code(depth, hand) as u32] == position_value(depth, card, hand, ev)
    &&& forall|depth: nat, dice: Seq<Die>, gone: Seq<Die>|
        1 <= depth <= 2 && rerollable(dice, gone) && memo.contains_key(
            #[trigger] retain_code(depth, dice, gone) as u32,
        ) ==> memo[retain_code(depth, dice, gone) as u32] == reroll_value(
            depth,
            card,
            dice,
            gone,
            ev,
        )
}

/// The dice that stay are at most five of each face, and their code is below `6^6`.
pub proof fn lemma_kept_bounds(dice: Seq<Die>, gone: Seq<Die>)
    requires
        rerollable(dice, gone),
    ensures
        0 <= kept(dice, gone, 1) <= 5,
        0 <= kept(dice, gone, 2) <= 5,
        0 <= kept(dice, gone, 3) <= 5,
        0 <= kept(dice, gone, 4) <= 5,
        0 <= kept(dice, gone, 5) <= 5,
        0 <= kept(dice, gone, 6) <= 5,
        0 <= kept_code(dice, gone) < 46656,
        kept(dice, gone, 1) + kept(dice, gone, 2) + kept(dice, gone, 3) + kept(dice, gone, 4)
            + kept(dice, gone, 5) + kept(dice, gone, 6) == 5 - gone.len(),
{
    lemma_count_five(dice, 1);
    lemma_count_five(dice, 2);
    lemma_count_five(dice, 3);
    lemma_count_five(dice, 4);
    lemma_count_five(dice, 5);
    lemma_count_five(dice, 6);
    assert(count(gone, 1) <= count(dice, 1));
    assert(count(gone, 2) <= count(dice, 2));
    assert(count(gone, 3) <= count(dice, 3));
    assert(count(gone, 4) <= count(dice, 4));
    assert(count(gone, 5) <= count(dice, 5));
    assert(count(gone, 6) <= count(dice, 6));
    lemma_len_is_counts(gone);
    lemma_len_is_counts(dice);
}

/// Two rerolls have the same key only where as many rerolls are left and the same dice stay
/// on the table.
pub proof fn retain_code_is_injective(
    d1: nat,
    dice1: Seq<Die>,
    gone1: Seq<Die>,
    d2: nat,
    dice2: Seq<Die>,
    gone2: Seq<Die>,
)
    requires
        1 <= d1 <= 2,
        1 <= d2 <= 2,
        rerollable(dice1, gone1),
        rerollable(dice2, gone2),
        retain_code(d1, dice1, gone1) == retain_code(d2, dice2, gone2),
    ensures
        d1 == d2,
        kept(dice1, gone1, 1) == kept(dice2, gone2, 1),
        kept(dice1, gone1, 2) == kept(dice2, gone2, 2),
        kept(dice1, gone1, 3) == kept(dice2, gone2, 3),
        kept(dice1, gone1, 4) == kept(dice2, gone2, 4),
        kept(dice1, gone1, 5) == kept(dice2, gone2, 5),
        kept(dice1, gone1, 6) == kept(dice2, gone2, 6),
        gone1.len() == gone2.len(),
{
    lemma_kept_bounds(dice1, gone1);
    lemma_kept_bounds(dice2, gone2);
    assert(d1 == d2);
    assert(kept_code(dice1, gone1) == kept_code(dice2, gone2));
    assert(kept(dice1, gone1, 1) == kept(dice2, gone2, 1));
    assert(kept(dice1, gone1, 2) == kept(dice2, gone2, 2));
    assert(kept(dice1, gone1, 3) == kept(dice2, gone2, 3));
    assert(kept(dice1, gone1, 4) == kept(dice2, gone2, 4));
    assert(kept(dice1, gone1, 5) == kept(dice2, gone2, 5));
}

proof fn lemma_outcome_by_kept(
    depth: nat,
    card: Scorecard,
    dice1: Seq<Die>,
    gone1: Seq<Die>,
    dice2: Seq<Die>,
    gone2: Seq<Die>,
    ev: Map<GameState, real>,
    n: int,
)
    requires
        gone1.len() == gone2.len(),
        kept(dice1, gone1, 1) == kept(dice2, gone2, 1),
        kept(dice1, gone1, 2) == kept(dice2, gone2, 2),
        kept(dice1, gone1, 3) == kept(dice2, gone2, 3),
        kept(dice1, gone1, 4) == kept(dice2, gone2, 4),
        kept(dice1, gone1, 5) == kept(dice2, gone2, 5),
    ensures
        outcome_sum(depth, card, dice1, gone1, ev, n) == outcome_sum(
            depth,
            card,
            dice2,
            gone2,
            ev,
            n,
        ),
    decreases n,
{
    if n > 0 && depth > 0 {
        lemma_outcome_by_kept(depth, card, dice1, gone1, dice2, gone2, ev, n - 1);
        let come = roll_table(gone1.len())[n - 1].0;
        assert(rerolled(dice1, gone1, come) == rerolled(dice2, gone2, come));
    }
}

/// What a reroll is worth turns on the dice that stay on the table alone: two rerolls that
/// keep the same dice are worth the same.
pub proof fn reroll_value_by_kept(
    depth: nat,
    card: Scorecard,
    dice1: Seq<Die>,
    gone1: Seq<Die>,
    dice2: Seq<Die>,
    gone2: Seq<Die>,
    ev: Map<GameState, real>,
)
    requires
        gone1.len() == gone2.len(),
        kept(dice1, gone1, 1) == kept(dice2, gone2, 1),
        kept(dice1, gone1, 2) == kept(dice2, gone2, 2),
        kept(dice1, gone1, 3) == kept(dice2, gone2, 3),
        kept(dice1, gone1, 4) == kept(dice2, gone2, 4),
        kept(dice1, gone1, 5) == kept(dice2, gone2, 5),
    ensures
        reroll_value(depth, card, dice1, gone1, ev) == reroll_value(depth, card, dice2, gone2, ev),
{
    lemma_outcome_by_kept(
        depth,
        card,
        dice1,
        gone1,
        dice2,
        gone2,
        ev,
        roll_table(gone1.len()).len() as int,
    );
}

/// A new value under the key of a position keeps the cache right.
proof fn lemma_memo_position(
    before: Map<u32, real>,
    card: Scorecard,
    ev: Map<GameState, real>,
    depth: nat,
    hand: Seq<Die>,
)
    requires
        memo_fits(before, card, ev),
        depth <= 1,
        sorted_dice(hand),
    ensures
        memo_fits(
            before.insert(
                position_code(depth, hand) as u32,
                position_value(depth, card, hand, ev),
            ),
            card,
            ev,
        ),
{
    let key = position_code(depth, hand) as u32;
    let after = before.insert(key, position_value(depth, card, hand, ev));
    assert(position_code(depth, hand) < 40000);
    assert forall|d: nat, h: Seq<Die>|
        d <= 1 && sorted_dice(h) && after.contains_key(
            #[trigger] position_code(d, h) as u32,
        ) implies after[position_code(d, h) as u32] == position_value(d, card, h, ev) by {
        if position_code(d, h) as u32 == key {
            position_code_is_injective(d, h, depth, hand);
        } else {
            assert(before.contains_key(position_code(d, h) as u32));
        }
    }
    assert forall|d: nat, dice: Seq<Die>, gone: Seq<Die>|
        1 <= d <= 2 && rerollable(dice, gone) && after.contains_key(
            #[trigger] retain_code(d, dice, gone) as u32,
        ) implies after[retain_code(d, dice, gone) as u32] == reroll_value(
        d,
        card,
        dice,
        gone,
        ev,
    ) by {
        lemma_kept_bounds(dice, gone);
        assert(retain_code(d, dice, gone) >= 40000);
        assert(before.contains_key(retain_code(d, dice, gone) as u32));
    }
}

/// A new value under the key of a reroll keeps the cache right.
proof fn lemma_memo_retain(
    before: Map<u32, real>,
    card: Scorecard,
    ev: Map<GameState, real>,
    depth: nat,
    dice0: Seq<Die>,
    gone0: Seq<Die>,
)
    requires
        memo_fits(before, card, ev),
        1 <= depth <= 2,
        rerollable(dice0, gone0),
    ensures
        memo_fits(
            before.insert(
                retain_code(depth, dice0, gone0) as u32,
                reroll_value(depth, card, dice0, gone0, ev),
            ),
            card,
            ev,
        ),
{
    let key = retain_code(depth, dice0, gone0) as u32;
    let after = before.insert(key, reroll_value(depth, card, dice0, gone0, ev));
    lemma_kept_bounds(dice0, gone0);
    assert(40000 <= retain_code(depth, dice0, gone0) < 140000);
    assert forall|d: nat, h: Seq<Die>|
        d <= 1 && sorted_dice(h) && after.contains_key(
            #[trigger] position_code(d, h) as u32,
        ) implies after[position_code(d, h) as u32] == position_value(d, card, h, ev) by {
        assert(position_code(d, h) < 40000);
        assert(before.contains_key(position_code(d, h) as u32));
    }
    assert forall|d: nat, dice: Seq<Die>, gone: Seq<Die>|
        1 <= d <= 2 && rerollable(dice, gone) && after.contains_key(
            #[trigger] retain_code(d, dice, gone) as u32,
        ) implies after[retain_code(d, dice, gone) as u32] == reroll_value(
        d,
        card,
        dice,
        gone,
        ev,
    ) by {
        lemma_kept_bounds(dice, gone);
        if retain_code(d, dice, gone) as u32 == key {
            retain_code_is_injective(d, dice, gone, depth, dice0, gone0);
            reroll_value_by_kept(d, card, dice, gone, dice0, gone0, ev);
        } else {
            assert(before.contains_key(retain_code(d, dice, gone) as u32));
        }
    }
}

/// The key under which the worth of a reroll is kept.
fn retain_key(depth: u8, dice: &Dice, gone: &Vec<Die>) -> (key: u32)
    requires
        1 <= depth <= 2,
        rerollable(dice@, gone@),
    ensures
        key == retain_code(depth as nat, dice@, gone@),
{
    proof {
        lemma_kept_bounds(dice@, gone@);
    }
    let k1: u32 = dice.count_face(1) as u32 - count_in(gone.as_slice(), 1) as u32;
    let k2: u32 = dice.count_face(2) as u32 - count_in(gone.as_slice(), 2) as u32;
    let k3: u32 = dice.count_face(3) as u32 - count_in(gone.as_slice(), 3) as u32;
    let k4: u32 = dice.count_face(4) as u32 - count_in(gone.as_slice(), 4) as u32;
    let k5: u32 = dice.count_face(5) as u32 - count_in(gone.as_slice(), 5) as u32;
    let k6: u32 = dice.count_face(6) as u32 - count_in(gone.as_slice(), 6) as u32;
    40000 + (depth as u32 - 1) * 46656 + k1 + 6 * k2 + 36 * k3 + 216 * k4 + 1296 * k5 + 7776 * k6
}

/// What a value in the cache is the value of. The card is that of the game that the cache
/// was made for, and is no part of the key.
#[derive(Clone, Copy, Debug, PartialEq, Eq, Hash)]
pub enum CacheKey {
    /// The position with these dice and one reroll left.
    Reroll(Dice),
    /// Rolling again the dice of the choice, from these dice, with that many rerolls left,
    /// this one counted.
    Retain(u8, Dice, Choice),
    /// The position with these dice and no reroll left.
    ZeroRerolls(Dice),
}

impl CacheKey {
    /// Whether the key names a value: the dice are a canonical hand, and a reroll takes one
    /// to five dice of them with one or two rerolls left.
    pub open spec fn valid(self) -> bool {
        match self {
            CacheKey::Reroll(dice) => dice.wf(),
            CacheKey::Retain(depth, dice, choice) => 1 <= depth <= 2 && !(choice is SelectCombo)
                && rerollable(dice@, choice.hand()),
            CacheKey::ZeroRerolls(dice) => dice.wf(),
        }
    }

    /// The key as one number.
    pub open spec fn spec_code(self) -> int {
        match self {
            CacheKey::Reroll(dice) => position_code(1, dice@) as int,
            CacheKey::Retain(depth, dice, choice) => retain_code(depth as nat, dice@, choice.hand()),
            CacheKey::ZeroRerolls(dice) => position_code(0, dice@) as int,
        }
    }

    /// The key as one number, under which the cache keeps the value.
    pub fn code(&self) -> (key: u32)
        requires
            self.valid(),
        ensures
            key == self.spec_code(),
    {
        match self {
            CacheKey::Reroll(dice) => position_key(1, dice),
            CacheKey::Retain(depth, dice, choice) => {
                let gone = choice.dice();
                retain_key(*depth, dice, &gone)
            },
            CacheKey::ZeroRerolls(dice) => position_key(0, dice),
        }
    }
}

/// The key under which the value of a position is kept.
fn position_key(depth: u8, dice: &Dice) -> (key: u32)
    requires
        depth <= 2,
        dice.wf(),
    ensures
        key == position_code(depth as nat, dice@),
{
    let a = dice.to_array();
    let hand: u32 = a[0] as u32 + 7 * (a[1] as u32) + 49 * (a[2] as u32) + 343 * (a[3] as u32) + 2401
        * (a[4] as u32);
    (depth as u32) * 16807 + hand
}

/// The value of the position of `game` when `depth` rerolls are left: the most that any
/// empty line or, where a reroll is left, any way to roll some dice again is worth.
pub fn value_of(depth: u8, game: &Game, ev: &EvTable, rolls: &Rolls, cache: &mut Cache) -> (v:
    ExpectedValue)
    requires
        depth <= 2,
        sorted_dice(game@.dice),
        covers(ev@, game@.card),
        memo_fits(old(cache)@, game@.card, ev@),
    ensures
        v.value() == position_value(depth as nat, game@.card, game@.dice, ev@),
        memo_fits(final(cache)@, game@.card, ev@),
    decreases depth, 2nat,
{
    let dice = game.dice();
    let key = if depth == 0 {
        CacheKey::ZeroRerolls(dice).code()
    } else {
        CacheKey::Reroll(dice).code()
    };
    if depth < 2 {
        match cache.get(key) {
            Some(v) => {
                return v;
            },
            None => {},
        }
    }
    let mut best = best_select_of(game, ev);
    if depth > 0 {
        let choices = reroll_choices(&dice);
        let ghost select = best.value();
        let ghost candidates = reroll_candidates(game@.dice);
        proof {
            lemma_reroll_candidates(game@.dice);
            lemma_best_select_floor(game@.card, game@.dice, ev@, 15);
            assert forall|j: int| 0 <= j < candidates.len() implies rerollable(
                game@.dice,
                #[trigger] candidates[j],
            ) by {}
        }
        let mut i: usize = 0;
        while i < choices.len()
            invariant
                1 <= depth <= 2,
                i <= choices@.len(),
                dice@ == game@.dice,
                sorted_dice(game@.dice),
                covers(ev@, game@.card),
                memo_fits(cache@, game@.card, ev@),
                choice_hands(choices@) == candidates,
                candidates == reroll_candidates(game@.dice),
                forall|j: int| 0 <= j < choices@.len() ==> !((#[trigger] choices@[j]) is SelectCombo),
                forall|j: int|
                    0 <= j < candidates.len() ==> rerollable(game@.dice, #[trigger] candidates[j]),
                select == best_select(game@.card, game@.dice, ev@, 15),
                select >= 0real,
                best.value() == larger(
                    select,
                    best_reroll(depth as nat, game@.card, game@.dice, ev@, i as int),
                ),
            decreases choices@.len() - i,
        {
            proof {
                assert(choice_hands(choices@)[i as int] == choices@[i as int].hand());
                assert(choices@[i as int].hand() == candidates[i as int]);
            }
            let v = reroll_value_of(depth, game, &choices[i], ev, rolls, cache);
            if best.less_than(&v) {
                best = v;
            }
            i = i + 1;
        }
    }
    if depth < 2 {
        let kept = best.duplicate();
        proof {
            lemma_memo_position(cache@, game@.card, ev@, depth as nat, game@.dice);
        }
        cache.insert(key, kept);
    }
    best
}

/// The larger of two numbers.
pub open spec fn larger(a: real, b: real) -> real {
    if b > a {
        b
    } else {
        a
    }
}

/// The most that filling a line is worth is never below 0.
proof fn lemma_best_select_floor(card: Scorecard, dice: Seq<Die>, ev: Map<GameState, real>, n: int)
    ensures
        best_select(card, dice, ev, n) >= 0real,
    decreases n,
{
    if n > 0 {
        lemma_best_select_floor(card, dice, ev, n - 1);
    }
}

/// What the choice to roll some dice again is worth in this game when `depth` rerolls are
/// left, this one counted.
pub fn reroll_value_of(
    depth: u8,
    game: &Game,
    choice: &Choice,
    ev: &EvTable,
    rolls: &Rolls,
    cache: &mut Cache,
) -> (v: ExpectedValue)
    requires
        1 <= depth <= 2,
        !(*choice is SelectCombo),
        rerollable(game@.dice, choice.hand()),
        covers(ev@, game@.card),
        memo_fits(old(cache)@, game@.card, ev@),
    ensures
        v.value() == reroll_value(depth as nat, game@.card, game@.dice, choice.hand(), ev@),
        memo_fits(final(cache)@, game@.card, ev@),
    decreases depth, 1nat,
{
    let key = CacheKey::Retain(depth, game.dice(), *choice).code();
    match cache.get(key) {
        Some(v) => {
            return v;
        },
        None => {},
    }
    let gone = choice.dice();
    let table = rolls.table(gone.len());
    let mut sum = ExpectedValue::zero();
    let mut i: usize = 0;
    while i < table.len()
        invariant
            1 <= depth <= 2,
            i <= table@.len(),
            is_roll_table(table@, gone@.len()),
            rerollable(game@.dice, gone@),
            covers(ev@, game@.card),
            memo_fits(cache@, game@.card, ev@),
            sum.value() == outcome_sum(
                depth as nat,
                game@.card,
                game@.dice,
                gone@,
                ev@,
                i as int,
            ),
        decreases table@.len() - i,
    {
        let mut next = *game;
        proof {
            assert(entry_fits(table@[i as int].0@, table@[i as int].1.value(), gone@.len(), i as int));
        }
        let swapped = next.replace_dice(gone.as_slice(), table[i].0.as_slice());
        assert(swapped is Ok);
        next.set_rerolls(depth - 1);
        let v = value_of(depth - 1, &next, ev, rolls, cache);
        sum = sum.plus(&table[i].1.times(&v));
        i = i + 1;
    }
    let kept = sum.duplicate();
    proof {
        lemma_memo_retain(cache@, game@.card, ev@, depth as nat, game@.dice, gone@);
    }
    cache.insert(key, kept);
    sum
}

/// Whether the table has every state that can follow `card` by filling one line.
pub fn covers_card(ev: &EvTable, card: &Scorecard) -> (yes: bool)
    ensures
        yes == covers(ev@, *card),
{
    let mut walk = Combo::iter();
    let mut i: usize = 0;
    while i < 15
        invariant
            i <= 15,
            walk.position() == i,
            forall|c: Combo, k: nat| c.index() < i ==> #[trigger] covers_line(ev@, *card, c, k),
        decreases 15 - i,
    {
        let c = walk.next().unwrap();
        if card.combo(c).is_none() {
            let face = c.number_face();
            let mut k: u8 = 0;
            while k <= 5
                invariant
                    k <= 6,
                    face == c.face(),
                    face <= 6,
                    card.get(c) is None,
                    forall|j: nat| j < k ==> #[trigger] covers_line(ev@, *card, c, j),
                decreases 6 - k,
            {
                assert(face * k <= 30) by (nonlinear_arith)
                    requires
                        face <= 6,
                        k <= 5,
                ;
                let mut next = *card;
                next.set(c, Some(face * k));
                if next.round() < 15 {
                    let state = state_from_card(&next);
                    if !ev.contains(&state) {
                        proof {
                            assert(!covers_line(ev@, *card, c, k as nat));
                        }
                        return false;
                    }
                }
                k = k + 1;
            }
        }
        proof {
            assert forall|d: Combo, k: nat| d.index() < i + 1 implies #[trigger] covers_line(
                ev@,
                *card,
                d,
                k,
            ) by {
                if d.index() == i {
                    assert(d == c);
                }
            }
        }
        i = i + 1;
    }
    proof {
        assert forall|c: Combo, k: nat| #[trigger] covers_line(ev@, *card, c, k) by {
            assert(c.index() < 15);
        }
    }
    true
}

/// The value of a position in which a line must be filled: the most that filling an empty
/// line is worth, and 0 where none is empty.
pub fn expected_value_0_rerolls(
    game: Game,
    expected_values: &EvTable,
    rolls: &Rolls,
    cache: &mut Cache,
) -> (v: ExpectedValue)
    requires
        sorted_dice(game@.dice),
        covers(expected_values@, game@.card),
        memo_fits(old(cache)@, game@.card, expected_values@),
    ensures
        v.value() == position_value(0, game@.card, game@.dice, expected_values@),
        memo_fits(final(cache)@, game@.card, expected_values@),
{
    value_of(0, &game, expected_values, rolls, cache)
}

/// The value of a position with one reroll left: the most that filling an empty line or
/// rolling some of the dice once more is worth.
pub fn expected_value_1_reroll(
    game: Game,
    expected_values: &EvTable,
    rolls: &Rolls,
    cache: &mut Cache,
) -> (v: ExpectedValue)
    requires
        sorted_dice(game@.dice),
        covers(expected_values@, game@.card),
        memo_fits(old(cache)@, game@.card, expected_values@),
    ensures
        v.value() == position_value(1, game@.card, game@.dice, expected_values@),
        memo_fits(final(cache)@, game@.card, expected_values@),
{
    value_of(1, &game, expected_values, rolls, cache)
}

/// The value of a position with two rerolls left: the most that filling an empty line or
/// rolling some of the dice again, with one more reroll after that, is worth.
pub fn expected_value_2_rerolls(
    game: Game,
    expected_values: &EvTable,
    rolls: &Rolls,
    cache: &mut Cache,
) -> (v: ExpectedValue)
    requires
        sorted_dice(game@.dice),
        covers(expected_values@, game@.card),
        memo_fits(old(cache)@, game@.card, expected_values@),
    ensures
        v.value() == position_value(2, game@.card, game@.dice, expected_values@),
        memo_fits(final(cache)@, game@.card, expected_values@),
{
    value_of(2, &game, expected_values, rolls, cache)
}

/// The value of the position of `game`, by the rerolls that are left in it. `None` where the
/// game is not well formed or the table lacks a state that can follow its card.
pub fn expected_value(game: Game, expected_values: &EvTable, rolls: &Rolls) -> (r: Option<
    ExpectedValue,
>)
    ensures
        r is Some <==> game@.wf() && covers(expected_values@, game@.card),
        r matches Some(v) ==> v.value() == position_value(
            game@.rerolls_left as nat,
            game@.card,
            game@.dice,
            expected_values@,
        ),
{
    if !game.dice().is_canonical() || game.rerolls_left() > 2 {
        return None;
    }
    if !covers_card(expected_values, &game.card()) {
        return None;
    }
    let mut cache = Cache::new();
    Some(value_of(game.rerolls_left(), &game, expected_values, rolls, &mut cache))
}

/// The expected value of a state: over the outcomes of the first roll of the turn, the value
/// of the position with two rerolls left.
pub fn expected_value_of_state(
    state: GameState,
    expected_values: &EvTable,
    rolls: &Rolls,
    cache: &mut Cache,
) -> (v: ExpectedValue)
    requires
        covers(expected_values@, card_of(state)),
        memo_fits(old(cache)@, card_of(state), expected_values@),
    ensures
        v.value() == state_value(state, expected_values@),
        memo_fits(final(cache)@, card_of(state), expected_values@),
{
    let table = rolls.table(5);
    let mut sum = ExpectedValue::zero();
    let mut i: usize = 0;
    while i < table.len()
        invariant
            i <= table@.len(),
            is_roll_table(table@, 5),
            covers(expected_values@, card_of(state)),
            memo_fits(cache@, card_of(state), expected_values@),
            sum.value() == state_sum(state, expected_values@, i as int),
        decreases table@.len() - i,
    {
        proof {
            assert(entry_fits(table@[i as int].0@, table@[i as int].1.value(), 5, i as int));
            crate::prob::lemma_outcomes_sorted(5, i as int);
        }
        let dice = Dice::from_slice(table[i].0.as_slice());
        let game = game_from_state(state, dice);
        let v = value_of(2, &game, expected_values, rolls, cache);
        sum = sum.plus(&table[i].1.times(&v));
        i = i + 1;
    }
    sum
}

/// The first `n` states of `states`, without those that `have` holds.
pub open spec fn pending(states: Seq<GameState>, have: Set<GameState>, n: int) -> Seq<GameState>
    decreases n,
{
    if n <= 0 {
        Seq::empty()
    } else {
        let rest = pending(states, have, n - 1);
        if have.contains(states[n - 1]) {
            rest
        } else {
            rest.push(states[n - 1])
        }
    }
}

/// The states of a list of states with their values.
pub open spec fn valued_states(out: Seq<(GameState, ExpectedValue)>) -> Seq<GameState> {
    Seq::new(out.len(), |i: int| out[i].0)
}

/// The states skipped or taken grow with the number of states looked at.
proof fn lemma_pending_grows(states: Seq<GameState>, have: Set<GameState>, m: int, n: int)
    requires
        0 <= m <= n,
    ensures
        pending(states, have, m).len() <= pending(states, have, n).len(),
        pending(states, have, m) == pending(states, have, n).take(
            pending(states, have, m).len() as int,
        ),
    decreases n - m,
{
    if m < n {
        lemma_pending_grows(states, have, m, n - 1);
        let a = pending(states, have, m);
        let b = pending(states, have, n - 1);
        let c = pending(states, have, n);
        assert(a =~= c.take(a.len() as int));
    } else {
        assert(pending(states, have, m) =~= pending(states, have, n).take(
            pending(states, have, m).len() as int,
        ));
    }
}

/// The expected values of the first `count` states of `states` that have none in the table
/// yet, in their order, each worked out from the table as it is.
pub fn compute_expected_values(
    states: &Vec<GameState>,
    expected_values: &EvTable,
    rolls: &Rolls,
    count: usize,
) -> (out: Vec<(GameState, ExpectedValue)>)
    requires
        forall|i: int|
            0 <= i < states@.len() ==> expected_values@.dom().contains(#[trigger] states@[i])
                || covers(expected_values@, card_of(states@[i])),
    ensures
        out@.len() <= count,
        out@.len() == count || valued_states(out@) == pending(
            states@,
            expected_values@.dom(),
            states@.len() as int,
        ),
        valued_states(out@) == pending(
            states@,
            expected_values@.dom(),
            states@.len() as int,
        ).take(out@.len() as int),
        forall|j: int|
            0 <= j < out@.len() ==> (#[trigger] out@[j]).1.value() == state_value(
                out@[j].0,
                expected_values@,
            ),
{
    let mut out: Vec<(GameState, ExpectedValue)> = Vec::new();
    let mut cache = Cache::new();
    let mut i: usize = 0;
    proof {
        assert(valued_states(out@) =~= pending(states@, expected_values@.dom(), 0));
    }
    while i < states.len() && out.len() < count
        invariant
            i <= states@.len(),
            out@.len() <= count,
            forall|i: int|
                0 <= i < states@.len() ==> expected_values@.dom().contains(#[trigger] states@[i])
                    || covers(expected_values@, card_of(states@[i])),
            valued_states(out@) == pending(states@, expected_values@.dom(), i as int),
            forall|j: int|
                0 <= j < out@.len() ==> (#[trigger] out@[j]).1.value() == state_value(
                    out@[j].0,
                    expected_values@,
                ),
        decreases states@.len() - i,
    {
        let state = states[i];
        if !expected_values.contains(&state) {
            cache.clear();
            proof {
                assert(memo_fits(cache@, card_of(state), expected_values@));
            }
            let value = expected_value_of_state(state, expected_values, rolls, &mut cache);
            let ghost before = out@;
            out.push((state, value));
            proof {
                assert(valued_states(out@) =~= valued_states(before).push(state));
                assert forall|j: int| 0 <= j < out@.len() implies (#[trigger] out@[j]).1.value()
                    == state_value(out@[j].0, expected_values@) by {
                    if j < before.len() {
                        assert(out@[j] == before[j]);
                    }
                }
            }
        }
        i = i + 1;
    }
    proof {
        lemma_pending_grows(states@, expected_values@.dom(), i as int, states@.len() as int);
        let all = pending(states@, expected_values@.dom(), states@.len() as int);
        if i == states@.len() {
            assert(all.take(all.len() as int) =~= all);
        }
    }
    out
}

} // verus!
