use crate::choice::{lemma_reroll_candidates, reroll_candidates, Choice};
use crate::combo::{combo_at, points_of, Combo};
use crate::dice::{sorted_dice, Die};
use crate::engine::{
    best_reroll, best_select, covers, filled_with, lemma_covered, outcome_sum,
    position_value, reroll_value, select_value, state_sum, state_value,
};
use crate::exact::chance;
use crate::game::Scorecard;
use crate::prob::{power, roll_table};
use crate::solver::{choice_value, is_option};
use crate::state::{card_of, state_is_canonical, state_of, state_round_trip, GameState};
use vstd::prelude::*;

verus! {

/// Filling an empty line leaves the state with one empty line fewer.
pub proof fn filling_leaves_one_fewer(card: Scorecard, c: Combo, p: u8)
    requires
        card.get(c) is None,
    ensures
        state_of(card.with(c, Some(p))).empty_count() + 1 == state_of(card).empty_count(),
        card.with(c, Some(p)).filled_count() == card.filled_count() + 1,
{
    state_is_canonical(card);
    state_is_canonical(card.with(c, Some(p)));
    lemma_filled_grows(card, c, p);
}

proof fn lemma_filled_grows_ones(card: Scorecard, p: u8)
    requires
        card.ones is None,
    ensures
        card.with(Combo::Ones, Some(p)).filled_count() == card.filled_count() + 1,
{
    let next = Scorecard { ones: Some(p), ..card };
    assert(card.with(Combo::Ones, Some(p)) == next);
    assert(crate::game::filled(next.ones) == crate::game::filled(card.ones) + 1);
}

proof fn lemma_filled_grows_twos(card: Scorecard, p: u8)
    requires
        card.twos is None,
    ensures
        card.with(Combo::Twos, Some(p)).filled_count() == card.filled_count() + 1,
{
    let next = Scorecard { twos: Some(p), ..card };
    assert(card.with(Combo::Twos, Some(p)) == next);
    assert(crate::game::filled(next.twos) == crate::game::filled(card.twos) + 1);
}

proof fn lemma_filled_grows_threes(card: Scorecard, p: u8)
    requires
        card.threes is None,
    ensures
        card.with(Combo::Threes, Some(p)).filled_count() == card.filled_count() + 1,
{
    let next = Scorecard { threes: Some(p), ..card };
    assert(card.with(Combo::Threes, Some(p)) == next);
    assert(crate::game::filled(next.threes) == crate::game::filled(card.threes) + 1);
}

proof fn lemma_filled_grows_fours(card: Scorecard, p: u8)
    requires
        card.fours is None,
    ensures
        card.with(Combo::Fours, Some(p)).filled_count() == card.filled_count() + 1,
{
    let next = Scorecard { fours: Some(p), ..card };
    assert(card.with(Combo::Fours, Some(p)) == next);
    assert(crate::game::filled(next.fours) == crate::game::filled(card.fours) + 1);
}

proof fn lemma_filled_grows_fives(card: Scorecard, p: u8)
    requires
        card.fives is None,
    ensures
        card.with(Combo::Fives, Some(p)).filled_count() == card.filled_count() + 1,
{
    let next = Scorecard { fives: Some(p), ..card };
    assert(card.with(Combo::Fives, Some(p)) == next);
    assert(crate::game::filled(next.fives) == crate::game::filled(card.fives) + 1);
}

proof fn lemma_filled_grows_sixes(card: Scorecard, p: u8)
    requires
        card.sixes is None,
    ensures
        card.with(Combo::Sixes, Some(p)).filled_count() == card.filled_count() + 1,
{
    let next = Scorecard { sixes: Some(p), ..card };
    assert(card.with(Combo::Sixes, Some(p)) == next);
    assert(crate::game::filled(next.sixes) == crate::game::filled(card.sixes) + 1);
}

proof fn lemma_filled_grows_one_pair(card: Scorecard, p: u8)
    requires
        card.one_pair is None,
    ensures
        card.with(Combo::OnePair, Some(p)).filled_count() == card.filled_count() + 1,
{
    let next = Scorecard { one_pair: Some(p), ..card };
    assert(card.with(Combo::OnePair, Some(p)) == next);
    assert(crate::game::filled(next.one_pair) == crate::game::filled(card.one_pair) + 1);
}

proof fn lemma_filled_grows_two_pairs(card: Scorecard, p: u8)
    requires
        card.two_pairs is None,
    ensures
        card.with(Combo::TwoPairs, Some(p)).filled_count() == card.filled_count() + 1,
{
    let next = Scorecard { two_pairs: Some(p), ..card };
    assert(card.with(Combo::TwoPairs, Some(p)) == next);
    assert(crate::game::filled(next.two_pairs) == crate::game::filled(card.two_pairs) + 1);
}

proof fn lemma_filled_grows_three_of_a_kind(card: Scorecard, p: u8)
    requires
        card.three_of_a_kind is None,
    ensures
        card.with(Combo::ThreeOfAKind, Some(p)).filled_count() == card.filled_count() + 1,
{
    let next = Scorecard { three_of_a_kind: Some(p), ..card };
    assert(card.with(Combo::ThreeOfAKind, Some(p)) == next);
    assert(crate::game::filled(next.three_of_a_kind) == crate::game::filled(card.three_of_a_kind) + 1);
}

proof fn lemma_filled_grows_four_of_a_kind(card: Scorecard, p: u8)
    requires
        card.four_of_a_kind is None,
    ensures
        card.with(Combo::FourOfAKind, Some(p)).filled_count() == card.filled_count() + 1,
{
    let next = Scorecard { four_of_a_kind: Some(p), ..card };
    assert(card.with(Combo::FourOfAKind, Some(p)) == next);
    assert(crate::game::filled(next.four_of_a_kind) == crate::game::filled(card.four_of_a_kind) + 1);
}

proof fn lemma_filled_grows_small_straight(card: Scorecard, p: u8)
    requires
        card.small_straight is None,
    ensures
        card.with(Combo::SmallStraight, Some(p)).filled_count() == card.filled_count() + 1,
{
    let next = Scorecard { small_straight: Some(p), ..card };
    assert(card.with(Combo::SmallStraight, Some(p)) == next);
    assert(crate::game::filled(next.small_straight) == crate::game::filled(card.small_straight) + 1);
}

proof fn lemma_filled_grows_large_straight(card: Scorecard, p: u8)
    requires
        card.large_straight is None,
    ensures
        card.with(Combo::LargeStraight, Some(p)).filled_count() == card.filled_count() + 1,
{
    let next = Scorecard { large_straight: Some(p), ..card };
    assert(card.with(Combo::LargeStraight, Some(p)) == next);
    assert(crate::game::filled(next.large_straight) == crate::game::filled(card.large_straight) + 1);
}

proof fn lemma_filled_grows_full_house(card: Scorecard, p: u8)
    requires
        card.full_house is None,
    ensures
        card.with(Combo::FullHouse, Some(p)).filled_count() == card.filled_count() + 1,
{
    let next = Scorecard { full_house: Some(p), ..card };
    assert(card.with(Combo::FullHouse, Some(p)) == next);
    assert(crate::game::filled(next.full_house) == crate::game::filled(card.full_house) + 1);
}

proof fn lemma_filled_grows_chance(card: Scorecard, p: u8)
    requires
        card.chance is None,
    ensures
        card.with(Combo::Chance, Some(p)).filled_count() == card.filled_count() + 1,
{
    let next = Scorecard { chance: Some(p), ..card };
    assert(card.with(Combo::Chance, Some(p)) == next);
    assert(crate::game::filled(next.chance) == crate::game::filled(card.chance) + 1);
}

proof fn lemma_filled_grows_yatzy(card: Scorecard, p: u8)
    requires
        card.yatzy is None,
    ensures
        card.with(Combo::Yatzy, Some(p)).filled_count() == card.filled_count() + 1,
{
    let next = Scorecard { yatzy: Some(p), ..card };
    assert(card.with(Combo::Yatzy, Some(p)) == next);
    assert(crate::game::filled(next.yatzy) == crate::game::filled(card.yatzy) + 1);
}

proof fn lemma_filled_grows(card: Scorecard, c: Combo, p: u8)
    requires
        card.get(c) is None,
    ensures
        card.with(c, Some(p)).filled_count() == card.filled_count() + 1,
{
    match c {
        Combo::Ones => {
            lemma_filled_grows_ones(card, p);
        },
        Combo::Twos => {
            lemma_filled_grows_twos(card, p);
        },
        Combo::Threes => {
            lemma_filled_grows_threes(card, p);
        },
        Combo::Fours => {
            lemma_filled_grows_fours(card, p);
        },
        Combo::Fives => {
            lemma_filled_grows_fives(card, p);
        },
        Combo::Sixes => {
            lemma_filled_grows_sixes(card, p);
        },
        Combo::OnePair => {
            lemma_filled_grows_one_pair(card, p);
        },
        Combo::TwoPairs => {
            lemma_filled_grows_two_pairs(card, p);
        },
        Combo::ThreeOfAKind => {
            lemma_filled_grows_three_of_a_kind(card, p);
        },
        Combo::FourOfAKind => {
            lemma_filled_grows_four_of_a_kind(card, p);
        },
        Combo::SmallStraight => {
            lemma_filled_grows_small_straight(card, p);
        },
        Combo::LargeStraight => {
            lemma_filled_grows_large_straight(card, p);
        },
        Combo::FullHouse => {
            lemma_filled_grows_full_house(card, p);
        },
        Combo::Chance => {
            lemma_filled_grows_chance(card, p);
        },
        Combo::Yatzy => {
            lemma_filled_grows_yatzy(card, p);
        },
    }
}

/// Whether two tables of expected values say the same of every state with `n` empty lines.
pub open spec fn agree_at(a: Map<GameState, real>, b: Map<GameState, real>, n: int) -> bool {
    forall|s: GameState| s.empty_count() == n ==> #[trigger] a[s] == b[s]
}

proof fn lemma_select_frame(
    card: Scorecard,
    dice: Seq<Die>,
    c: Combo,
    a: Map<GameState, real>,
    b: Map<GameState, real>,
)
    requires
        card.get(c) is None,
        agree_at(a, b, state_of(card).empty_count() - 1),
    ensures
        select_value(card, dice, c, a) == select_value(card, dice, c, b),
{
    let p = points_of(c, dice) as u8;
    filling_leaves_one_fewer(card, c, p);
    let next = filled_with(card, dice, c);
    if !next.full() {
        assert(a[state_of(next)] == b[state_of(next)]);
    }
}

proof fn lemma_best_select_frame(
    card: Scorecard,
    dice: Seq<Die>,
    a: Map<GameState, real>,
    b: Map<GameState, real>,
    n: int,
)
    requires
        agree_at(a, b, state_of(card).empty_count() - 1),
    ensures
        best_select(card, dice, a, n) == best_select(card, dice, b, n),
    decreases n,
{
    if n > 0 {
        lemma_best_select_frame(card, dice, a, b, n - 1);
        let c = combo_at(n - 1);
        if card.get(c) is None {
            lemma_select_frame(card, dice, c, a, b);
        }
    }
}

proof fn lemma_outcome_frame(
    depth: nat,
    card: Scorecard,
    dice: Seq<Die>,
    gone: Seq<Die>,
    a: Map<GameState, real>,
    b: Map<GameState, real>,
    n: int,
)
    requires
        agree_at(a, b, state_of(card).empty_count() - 1),
    ensures
        outcome_sum(depth, card, dice, gone, a, n) == outcome_sum(depth, card, dice, gone, b, n),
    decreases depth, 1nat, n,
{
    if n > 0 && depth > 0 {
        lemma_outcome_frame(depth, card, dice, gone, a, b, n - 1);
        lemma_position_frame(
            (depth - 1) as nat,
            card,
            crate::dice::rerolled(dice, gone, roll_table(gone.len())[n - 1].0),
            a,
            b,
        );
    }
}

proof fn lemma_best_reroll_frame(
    depth: nat,
    card: Scorecard,
    dice: Seq<Die>,
    a: Map<GameState, real>,
    b: Map<GameState, real>,
    n: int,
)
    requires
        agree_at(a, b, state_of(card).empty_count() - 1),
    ensures
        best_reroll(depth, card, dice, a, n) == best_reroll(depth, card, dice, b, n),
    decreases depth, 2nat, n,
{
    if n > 0 && depth > 0 && n <= reroll_candidates(dice).len() {
        lemma_best_reroll_frame(depth, card, dice, a, b, n - 1);
        let gone = reroll_candidates(dice)[n - 1];
        lemma_outcome_frame(depth, card, dice, gone, a, b, roll_table(gone.len()).len() as int);
        assert(reroll_value(depth, card, dice, gone, a) == reroll_value(depth, card, dice, gone, b));
    }
}

/// The value of a position on a card with `k` empty lines reads the table of expected values
/// only at states with `k - 1` empty lines: two tables that agree there give it the same
/// value.
pub proof fn lemma_position_frame(
    depth: nat,
    card: Scorecard,
    dice: Seq<Die>,
    a: Map<GameState, real>,
    b: Map<GameState, real>,
)
    requires
        agree_at(a, b, state_of(card).empty_count() - 1),
    ensures
        position_value(depth, card, dice, a) == position_value(depth, card, dice, b),
    decreases depth, 3nat, 0nat,
{
    lemma_best_select_frame(card, dice, a, b, 15);
    if depth > 0 {
        lemma_best_reroll_frame(depth, card, dice, a, b, reroll_candidates(dice).len() as int);
    }
}

proof fn lemma_state_sum_frame(
    state: GameState,
    a: Map<GameState, real>,
    b: Map<GameState, real>,
    n: int,
)
    requires
        state.canonical(),
        agree_at(a, b, state.empty_count() - 1),
    ensures
        state_sum(state, a, n) == state_sum(state, b, n),
    decreases n,
{
    if n > 0 {
        lemma_state_sum_frame(state, a, b, n - 1);
        state_round_trip(state);
        lemma_position_frame(2, card_of(state), roll_table(5)[n - 1].0, a, b);
    }
}

/// The expected value of a state with `k` empty lines is worked out from the expected values
/// of states with `k - 1` empty lines alone: two tables that agree on those give it the same
/// value, whatever they say of any other state.
pub proof fn state_value_reads_lower_states(
    state: GameState,
    a: Map<GameState, real>,
    b: Map<GameState, real>,
)
    requires
        state.canonical(),
        agree_at(a, b, state.empty_count() - 1),
    ensures
        state_value(state, a) == state_value(state, b),
{
    lemma_state_sum_frame(state, a, b, roll_table(5).len() as int);
}


/// The bonus is 50 points where the number lines hold 63 points or more, and nothing below
/// that: a card with 63 there scores 51 more than the same card with 62.
pub proof fn bonus_comes_at_sixty_three(card: Scorecard)
    ensures
        card.upper_total() >= 63 ==> card.total() == card.upper_total() + 50 + card.lower_total(),
        card.upper_total() <= 62 ==> card.total() == card.upper_total() + card.lower_total(),
        card.has_bonus() <==> card.upper_total() >= 63,
{
}

/// A number line can always be scratched: 0 is a score that it can hold, and to fill an
/// empty line is a choice whatever the dice show and however many rerolls are left.
pub proof fn scratching_is_a_choice(depth: nat, card: Scorecard, dice: Seq<Die>, c: Combo)
    requires
        card.get(c) is None,
    ensures
        c.face() > 0 ==> crate::combo::legal_score(c, 0),
        is_option(depth, card, dice, Choice::SelectCombo(c)),
{
}

/// Whether no value in the table is negative.
pub open spec fn not_negative(ev: Map<GameState, real>) -> bool {
    forall|s: GameState| ev.dom().contains(s) ==> #[trigger] ev[s] >= 0real
}

/// Whether the line `c` stands before place `n` of the card and is empty.
pub open spec fn open_before(card: Scorecard, n: int, c: Combo) -> bool {
    c.index() < n && card.get(c) is None
}

/// Whether filling the line `c` is worth the most among the empty lines before place `n`.
pub open spec fn attains_select(
    card: Scorecard,
    dice: Seq<Die>,
    ev: Map<GameState, real>,
    n: int,
    c: Combo,
) -> bool {
    open_before(card, n, c) && select_value(card, dice, c, ev) == best_select(card, dice, ev, n)
}

/// Whether the way at place `i` to roll dice again is worth the most among the first `n`.
pub open spec fn attains_reroll(
    depth: nat,
    card: Scorecard,
    dice: Seq<Die>,
    ev: Map<GameState, real>,
    n: int,
    i: int,
) -> bool {
    0 <= i < n && reroll_value(depth, card, dice, reroll_candidates(dice)[i], ev) == best_reroll(
        depth,
        card,
        dice,
        ev,
        n,
    )
}

proof fn lemma_chance_sign(k: nat, i: int)
    requires
        1 <= k <= 5,
    ensures
        chance(k, i) >= 0real,
{
    crate::prob::roll_table_is_complete(k);
    let w = roll_table(k)[i].1 as real;
    let all = power(6, k) as real;
    assert(w >= 0real);
    assert(all > 0real);
    assert(w / all >= 0real) by (nonlinear_arith)
        requires
            w >= 0real,
            all > 0real,
    ;
}

proof fn lemma_select_floor(card: Scorecard, dice: Seq<Die>, ev: Map<GameState, real>, n: int)
    ensures
        best_select(card, dice, ev, n) >= 0real,
    decreases n,
{
    if n > 0 {
        lemma_select_floor(card, dice, ev, n - 1);
    }
}

/// No position is worth less than nothing.
pub proof fn lemma_position_sign(depth: nat, card: Scorecard, dice: Seq<Die>, ev: Map<GameState, real>)
    ensures
        position_value(depth, card, dice, ev) >= 0real,
{
    lemma_select_floor(card, dice, ev, 15);
}

proof fn lemma_outcome_sign(
    depth: nat,
    card: Scorecard,
    dice: Seq<Die>,
    gone: Seq<Die>,
    ev: Map<GameState, real>,
    n: int,
)
    requires
        1 <= gone.len() <= 5,
    ensures
        outcome_sum(depth, card, dice, gone, ev, n) >= 0real,
    decreases n,
{
    if n > 0 && depth > 0 {
        lemma_outcome_sign(depth, card, dice, gone, ev, n - 1);
        let p = chance(gone.len(), n - 1);
        let v = position_value(
            (depth - 1) as nat,
            card,
            crate::dice::rerolled(dice, gone, roll_table(gone.len())[n - 1].0),
            ev,
        );
        lemma_chance_sign(gone.len(), n - 1);
        lemma_position_sign(
            (depth - 1) as nat,
            card,
            crate::dice::rerolled(dice, gone, roll_table(gone.len())[n - 1].0),
            ev,
        );
        assert(p * v >= 0real) by (nonlinear_arith)
            requires
                p >= 0real,
                v >= 0real,
        ;
    }
}

proof fn lemma_select_sign(card: Scorecard, dice: Seq<Die>, c: Combo, ev: Map<GameState, real>)
    requires
        covers(ev, card),
        sorted_dice(dice),
        not_negative(ev),
        card.get(c) is None,
    ensures
        select_value(card, dice, c, ev) >= 0real,
{
    let next = filled_with(card, dice, c);
    if !next.full() {
        lemma_covered(ev, card, dice, c);
    }
    assert(points_of(c, dice) as real >= 0real);
}

proof fn lemma_no_open_line(card: Scorecard, dice: Seq<Die>, ev: Map<GameState, real>, n: int)
    requires
        forall|c: Combo| !#[trigger] open_before(card, n, c),
    ensures
        best_select(card, dice, ev, n) == 0real,
    decreases n,
{
    if n > 0 {
        assert forall|c: Combo| !#[trigger] open_before(card, n - 1, c) by {
            assert(!open_before(card, n, c));
        }
        lemma_no_open_line(card, dice, ev, n - 1);
        let c = combo_at(n - 1);
        assert(!open_before(card, n, c));
    }
}

proof fn lemma_select_attained(card: Scorecard, dice: Seq<Die>, ev: Map<GameState, real>, n: int)
    requires
        0 <= n <= 15,
        covers(ev, card),
        sorted_dice(dice),
        not_negative(ev),
        exists|c: Combo| #[trigger] open_before(card, n, c),
    ensures
        exists|c: Combo| #[trigger] attains_select(card, dice, ev, n, c),
    decreases n,
{
    let c0 = combo_at(n - 1);
    let rest = best_select(card, dice, ev, n - 1);
    lemma_select_floor(card, dice, ev, n - 1);
    if card.get(c0) is None {
        lemma_select_sign(card, dice, c0, ev);
        let v = select_value(card, dice, c0, ev);
        if v > rest {
            assert(attains_select(card, dice, ev, n, c0));
        } else if exists|c: Combo| #[trigger] open_before(card, n - 1, c) {
            lemma_select_attained(card, dice, ev, n - 1);
            let c = choose|c: Combo| #[trigger] attains_select(card, dice, ev, n - 1, c);
            assert(attains_select(card, dice, ev, n, c));
        } else {
            lemma_no_open_line(card, dice, ev, n - 1);
            assert(attains_select(card, dice, ev, n, c0));
        }
    } else {
        let w = choose|c: Combo| #[trigger] open_before(card, n, c);
        assert(w.index() != n - 1) by {
            if w.index() == n - 1 {
                assert(w == c0);
            }
        }
        assert(open_before(card, n - 1, w));
        lemma_select_attained(card, dice, ev, n - 1);
        let c = choose|c: Combo| #[trigger] attains_select(card, dice, ev, n - 1, c);
        assert(attains_select(card, dice, ev, n, c));
    }
}

proof fn lemma_reroll_attained(
    depth: nat,
    card: Scorecard,
    dice: Seq<Die>,
    ev: Map<GameState, real>,
    n: int,
)
    requires
        depth >= 1,
        1 <= n <= reroll_candidates(dice).len(),
    ensures
        exists|i: int| #[trigger] attains_reroll(depth, card, dice, ev, n, i),
    decreases n,
{
    lemma_reroll_candidates(dice);
    let gone = reroll_candidates(dice)[n - 1];
    lemma_outcome_sign(depth, card, dice, gone, ev, roll_table(gone.len()).len() as int);
    let v = reroll_value(depth, card, dice, gone, ev);
    let rest = best_reroll(depth, card, dice, ev, n - 1);
    if n == 1 {
        assert(rest == 0real);
        assert(attains_reroll(depth, card, dice, ev, n, 0));
    } else if v > rest {
        assert(attains_reroll(depth, card, dice, ev, n, n - 1));
    } else {
        lemma_reroll_attained(depth, card, dice, ev, n - 1);
        let i = choose|i: int| #[trigger] attains_reroll(depth, card, dice, ev, n - 1, i);
        assert(attains_reroll(depth, card, dice, ev, n, i));
    }
}

/// A card that is not full has an empty line.
proof fn lemma_some_open(card: Scorecard)
    requires
        !card.full(),
    ensures
        exists|c: Combo| #[trigger] open_before(card, 15, c),
{
    if card.ones is None {
        assert(open_before(card, 15, Combo::Ones));
    } else if card.twos is None {
        assert(open_before(card, 15, Combo::Twos));
    } else if card.threes is None {
        assert(open_before(card, 15, Combo::Threes));
    } else if card.fours is None {
        assert(open_before(card, 15, Combo::Fours));
    } else if card.fives is None {
        assert(open_before(card, 15, Combo::Fives));
    } else if card.sixes is None {
        assert(open_before(card, 15, Combo::Sixes));
    } else if card.one_pair is None {
        assert(open_before(card, 15, Combo::OnePair));
    } else if card.two_pairs is None {
        assert(open_before(card, 15, Combo::TwoPairs));
    } else if card.three_of_a_kind is None {
        assert(open_before(card, 15, Combo::ThreeOfAKind));
    } else if card.four_of_a_kind is None {
        assert(open_before(card, 15, Combo::FourOfAKind));
    } else if card.small_straight is None {
        assert(open_before(card, 15, Combo::SmallStraight));
    } else if card.large_straight is None {
        assert(open_before(card, 15, Combo::LargeStraight));
    } else if card.full_house is None {
        assert(open_before(card, 15, Combo::FullHouse));
    } else if card.chance is None {
        assert(open_before(card, 15, Combo::Chance));
    } else if card.yatzy is None {
        assert(open_before(card, 15, Combo::Yatzy));
    } else {
        assert(card.filled_count() == 15);
    }
}

/// The choice to roll again the dice of `hand`, which are one to five.
pub open spec fn reroll_of(hand: Seq<Die>) -> Choice {
    if hand.len() == 1 {
        Choice::Reroll1([hand[0]])
    } else if hand.len() == 2 {
        Choice::Reroll2([hand[0], hand[1]])
    } else if hand.len() == 3 {
        Choice::Reroll3([hand[0], hand[1], hand[2]])
    } else if hand.len() == 4 {
        Choice::Reroll4([hand[0], hand[1], hand[2], hand[3]])
    } else {
        Choice::Reroll5([hand[0], hand[1], hand[2], hand[3], hand[4]])
    }
}

proof fn lemma_reroll_of(hand: Seq<Die>)
    requires
        1 <= hand.len() <= 5,
    ensures
        reroll_of(hand).hand() == hand,
        !(reroll_of(hand) is SelectCombo),
{
    assert(reroll_of(hand).hand() =~= hand);
}

/// Whether the choice is open in the position and worth as much as the position.
pub open spec fn is_best(
    depth: nat,
    card: Scorecard,
    dice: Seq<Die>,
    ev: Map<GameState, real>,
    choice: Choice,
) -> bool {
    is_option(depth, card, dice, choice) && choice_value(depth, card, dice, choice, ev)
        == position_value(depth, card, dice, ev)
}

/// While the game goes on, some choice is worth as much as the position: the value of a
/// position is not only a bound on its choices, one of them reaches it.
pub proof fn some_choice_is_best(depth: nat, card: Scorecard, dice: Seq<Die>, ev: Map<GameState, real>)
    requires
        sorted_dice(dice),
        covers(ev, card),
        not_negative(ev),
        !card.full(),
    ensures
        exists|choice: Choice| #[trigger] is_best(depth, card, dice, ev, choice),
{
    lemma_some_open(card);
    lemma_select_attained(card, dice, ev, 15);
    let c = choose|c: Combo| #[trigger] attains_select(card, dice, ev, 15, c);
    let select = best_select(card, dice, ev, 15);
    let n = reroll_candidates(dice).len() as int;
    let reroll = best_reroll(depth, card, dice, ev, n);
    lemma_select_floor(card, dice, ev, 15);
    if depth > 0 && reroll > select {
        assert(n >= 1) by {
            if n <= 0 {
                assert(best_reroll(depth, card, dice, ev, n) == 0real);
            }
        }
        lemma_reroll_attained(depth, card, dice, ev, n);
        lemma_reroll_candidates(dice);
        let i = choose|i: int| #[trigger] attains_reroll(depth, card, dice, ev, n, i);
        let hand = reroll_candidates(dice)[i];
        lemma_reroll_of(hand);
        let choice = reroll_of(hand);
        assert(reroll_candidates(dice)[i] == choice.hand());
        assert(is_best(depth, card, dice, ev, choice));
    } else {
        assert(is_best(depth, card, dice, ev, Choice::SelectCombo(c)));
    }
}


/// Whether filling a line with `p` points leads two cards to the same state, to the end of
/// the game for both or for neither, and at the end to the bonus for both or for neither.
pub open spec fn same_after(a: Scorecard, b: Scorecard, c: Combo, p: u8) -> bool {
    let x = a.with(c, Some(p));
    let y = b.with(c, Some(p));
    &&& same_state(x, y)
    &&& x.full() == y.full()
    &&& (x.full() ==> x.has_bonus() == y.has_bonus())
}

/// Whether two cards are in the same state.
#[verifier::opaque]
pub open spec fn same_state(a: Scorecard, b: Scorecard) -> bool {
    state_of(a) == state_of(b)
}

/// Whether two cards have the same lines filled and keep the same total on the number
/// lines: that is, whether they are in the same state.
pub open spec fn alike(a: Scorecard, b: Scorecard) -> bool {
    &&& a.ones is Some == b.ones is Some
    &&& a.twos is Some == b.twos is Some
    &&& a.threes is Some == b.threes is Some
    &&& a.fours is Some == b.fours is Some
    &&& a.fives is Some == b.fives is Some
    &&& a.sixes is Some == b.sixes is Some
    &&& a.one_pair is Some == b.one_pair is Some
    &&& a.two_pairs is Some == b.two_pairs is Some
    &&& a.three_of_a_kind is Some == b.three_of_a_kind is Some
    &&& a.four_of_a_kind is Some == b.four_of_a_kind is Some
    &&& a.small_straight is Some == b.small_straight is Some
    &&& a.large_straight is Some == b.large_straight is Some
    &&& a.full_house is Some == b.full_house is Some
    &&& a.chance is Some == b.chance is Some
    &&& a.yatzy is Some == b.yatzy is Some
    &&& crate::state::kept_total(a.upper_total(), crate::state::remaining(a))
        == crate::state::kept_total(b.upper_total(), crate::state::remaining(b))
}

proof fn lemma_alike_ones(a: Scorecard, b: Scorecard)
    requires
        state_of(a).ones == state_of(b).ones,
    ensures
        a.ones is Some == b.ones is Some,
{
}

proof fn lemma_alike_twos(a: Scorecard, b: Scorecard)
    requires
        state_of(a).twos == state_of(b).twos,
    ensures
        a.twos is Some == b.twos is Some,
{
}

proof fn lemma_alike_threes(a: Scorecard, b: Scorecard)
    requires
        state_of(a).threes == state_of(b).threes,
    ensures
        a.threes is Some == b.threes is Some,
{
}

proof fn lemma_alike_fours(a: Scorecard, b: Scorecard)
    requires
        state_of(a).fours == state_of(b).fours,
    ensures
        a.fours is Some == b.fours is Some,
{
}

proof fn lemma_alike_fives(a: Scorecard, b: Scorecard)
    requires
        state_of(a).fives == state_of(b).fives,
    ensures
        a.fives is Some == b.fives is Some,
{
}

proof fn lemma_alike_sixes(a: Scorecard, b: Scorecard)
    requires
        state_of(a).sixes == state_of(b).sixes,
    ensures
        a.sixes is Some == b.sixes is Some,
{
}

proof fn lemma_alike_one_pair(a: Scorecard, b: Scorecard)
    requires
        state_of(a).one_pair == state_of(b).one_pair,
    ensures
        a.one_pair is Some == b.one_pair is Some,
{
}

proof fn lemma_alike_two_pairs(a: Scorecard, b: Scorecard)
    requires
        state_of(a).two_pairs == state_of(b).two_pairs,
    ensures
        a.two_pairs is Some == b.two_pairs is Some,
{
}

proof fn lemma_alike_three_of_a_kind(a: Scorecard, b: Scorecard)
    requires
        state_of(a).three_of_a_kind == state_of(b).three_of_a_kind,
    ensures
        a.three_of_a_kind is Some == b.three_of_a_kind is Some,
{
}

proof fn lemma_alike_four_of_a_kind(a: Scorecard, b: Scorecard)
    requires
        state_of(a).four_of_a_kind == state_of(b).four_of_a_kind,
    ensures
        a.four_of_a_kind is Some == b.four_of_a_kind is Some,
{
}

proof fn lemma_alike_small_straight(a: Scorecard, b: Scorecard)
    requires
        state_of(a).small_straight == state_of(b).small_straight,
    ensures
        a.small_straight is Some == b.small_straight is Some,
{
}

proof fn lemma_alike_large_straight(a: Scorecard, b: Scorecard)
    requires
        state_of(a).large_straight == state_of(b).large_straight,
    ensures
        a.large_straight is Some == b.large_straight is Some,
{
}

proof fn lemma_alike_full_house(a: Scorecard, b: Scorecard)
    requires
        state_of(a).full_house == state_of(b).full_house,
    ensures
        a.full_house is Some == b.full_house is Some,
{
}

proof fn lemma_alike_chance(a: Scorecard, b: Scorecard)
    requires
        state_of(a).chance == state_of(b).chance,
    ensures
        a.chance is Some == b.chance is Some,
{
}

proof fn lemma_alike_yatzy(a: Scorecard, b: Scorecard)
    requires
        state_of(a).yatzy == state_of(b).yatzy,
    ensures
        a.yatzy is Some == b.yatzy is Some,
{
}

proof fn lemma_alike_total(a: Scorecard, b: Scorecard)
    requires
        state_of(a).numbers_total == state_of(b).numbers_total,
    ensures
        crate::state::kept_total(a.upper_total(), crate::state::remaining(a))
            == crate::state::kept_total(b.upper_total(), crate::state::remaining(b)),
{
}

proof fn lemma_alike_from_state(a: Scorecard, b: Scorecard)
    requires
        state_of(a) == state_of(b),
    ensures
        alike(a, b),
{
    lemma_alike_ones(a, b);
    lemma_alike_twos(a, b);
    lemma_alike_threes(a, b);
    lemma_alike_fours(a, b);
    lemma_alike_fives(a, b);
    lemma_alike_sixes(a, b);
    lemma_alike_one_pair(a, b);
    lemma_alike_two_pairs(a, b);
    lemma_alike_three_of_a_kind(a, b);
    lemma_alike_four_of_a_kind(a, b);
    lemma_alike_small_straight(a, b);
    lemma_alike_large_straight(a, b);
    lemma_alike_full_house(a, b);
    lemma_alike_chance(a, b);
    lemma_alike_yatzy(a, b);
    lemma_alike_total(a, b);
}

proof fn lemma_state_from_alike(a: Scorecard, b: Scorecard)
    requires
        alike(a, b),
    ensures
        same_state(a, b),
        a.full() == b.full(),
{
    reveal(same_state);
    assert(a.filled_count() == b.filled_count());
}

/// The total that a state keeps after a line is filled turns on the total that it kept
/// before: `f` is the most that the line could bring, `p` what it brings.
proof fn lemma_kept_step(u: nat, v: nat, r: nat, f: nat, p: nat)
    requires
        crate::state::kept_total(u, r) == crate::state::kept_total(v, r),
        f <= r,
        p <= f,
    ensures
        crate::state::kept_total(u + p, (r - f) as nat) == crate::state::kept_total(
            v + p,
            (r - f) as nat,
        ),
        r == f ==> (u + p >= 63) == (v + p >= 63),
{
}

proof fn lemma_same_after_ones(a: Scorecard, b: Scorecard, p: u8)
    requires
        alike(a, b),
        a.ones is None,
        p <= 5,
    ensures
        alike(Scorecard { ones: Some(p), ..a }, Scorecard { ones: Some(p), ..b }),
        (Scorecard { ones: Some(p), ..a }).full() ==> (Scorecard { ones: Some(p), ..a }).has_bonus()
            == (Scorecard { ones: Some(p), ..b }).has_bonus(),
{
    let x = Scorecard { ones: Some(p), ..a };
    let y = Scorecard { ones: Some(p), ..b };
    let r = crate::state::remaining(a);
    assert(crate::state::remaining(b) == r);
    assert(x.upper_total() == a.upper_total() + p);
    assert(y.upper_total() == b.upper_total() + p);
    assert(crate::state::remaining(x) == r - 5);
    assert(crate::state::remaining(y) == r - 5);
    lemma_kept_step(a.upper_total(), b.upper_total(), r, 5, p as nat);
    if x.full() {
        assert(crate::state::remaining(x) == 0);
    }
}

proof fn lemma_same_after_twos(a: Scorecard, b: Scorecard, p: u8)
    requires
        alike(a, b),
        a.twos is None,
        p <= 10,
    ensures
        alike(Scorecard { twos: Some(p), ..a }, Scorecard { twos: Some(p), ..b }),
        (Scorecard { twos: Some(p), ..a }).full() ==> (Scorecard { twos: Some(p), ..a }).has_bonus()
            == (Scorecard { twos: Some(p), ..b }).has_bonus(),
{
    let x = Scorecard { twos: Some(p), ..a };
    let y = Scorecard { twos: Some(p), ..b };
    let r = crate::state::remaining(a);
    assert(crate::state::remaining(b) == r);
    assert(x.upper_total() == a.upper_total() + p);
    assert(y.upper_total() == b.upper_total() + p);
    assert(crate::state::remaining(x) == r - 10);
    assert(crate::state::remaining(y) == r - 10);
    lemma_kept_step(a.upper_total(), b.upper_total(), r, 10, p as nat);
    if x.full() {
        assert(crate::state::remaining(x) == 0);
    }
}

proof fn lemma_same_after_threes(a: Scorecard, b: Scorecard, p: u8)
    requires
        alike(a, b),
        a.threes is None,
        p <= 15,
    ensures
        alike(Scorecard { threes: Some(p), ..a }, Scorecard { threes: Some(p), ..b }),
        (Scorecard { threes: Some(p), ..a }).full() ==> (Scorecard { threes: Some(p), ..a }).has_bonus()
            == (Scorecard { threes: Some(p), ..b }).has_bonus(),
{
    let x = Scorecard { threes: Some(p), ..a };
    let y = Scorecard { threes: Some(p), ..b };
    let r = crate::state::remaining(a);
    assert(crate::state::remaining(b) == r);
    assert(x.upper_total() == a.upper_total() + p);
    assert(y.upper_total() == b.upper_total() + p);
    assert(crate::state::remaining(x) == r - 15);
    assert(crate::state::remaining(y) == r - 15);
    lemma_kept_step(a.upper_total(), b.upper_total(), r, 15, p as nat);
    if x.full() {
        assert(crate::state::remaining(x) == 0);
    }
}

proof fn lemma_same_after_fours(a: Scorecard, b: Scorecard, p: u8)
    requires
        alike(a, b),
        a.fours is None,
        p <= 20,
    ensures
        alike(Scorecard { fours: Some(p), ..a }, Scorecard { fours: Some(p), ..b }),
        (Scorecard { fours: Some(p), ..a }).full() ==> (Scorecard { fours: Some(p), ..a }).has_bonus()
            == (Scorecard { fours: Some(p), ..b }).has_bonus(),
{
    let x = Scorecard { fours: Some(p), ..a };
    let y = Scorecard { fours: Some(p), ..b };
    let r = crate::state::remaining(a);
    assert(crate::state::remaining(b) == r);
    assert(x.upper_total() == a.upper_total() + p);
    assert(y.upper_total() == b.upper_total() + p);
    assert(crate::state::remaining(x) == r - 20);
    assert(crate::state::remaining(y) == r - 20);
    lemma_kept_step(a.upper_total(), b.upper_total(), r, 20, p as nat);
    if x.full() {
        assert(crate::state::remaining(x) == 0);
    }
}

proof fn lemma_same_after_fives(a: Scorecard, b: Scorecard, p: u8)
    requires
        alike(a, b),
        a.fives is None,
        p <= 25,
    ensures
        alike(Scorecard { fives: Some(p), ..a }, Scorecard { fives: Some(p), ..b }),
        (Scorecard { fives: Some(p), ..a }).full() ==> (Scorecard { fives: Some(p), ..a }).has_bonus()
            == (Scorecard { fives: Some(p), ..b }).has_bonus(),
{
    let x = Scorecard { fives: Some(p), ..a };
    let y = Scorecard { fives: Some(p), ..b };
    let r = crate::state::remaining(a);
    assert(crate::state::remaining(b) == r);
    assert(x.upper_total() == a.upper_total() + p);
    assert(y.upper_total() == b.upper_total() + p);
    assert(crate::state::remaining(x) == r - 25);
    assert(crate::state::remaining(y) == r - 25);
    lemma_kept_step(a.upper_total(), b.upper_total(), r, 25, p as nat);
    if x.full() {
        assert(crate::state::remaining(x) == 0);
    }
}

proof fn lemma_same_after_sixes(a: Scorecard, b: Scorecard, p: u8)
    requires
        alike(a, b),
        a.sixes is None,
        p <= 30,
    ensures
        alike(Scorecard { sixes: Some(p), ..a }, Scorecard { sixes: Some(p), ..b }),
        (Scorecard { sixes: Some(p), ..a }).full() ==> (Scorecard { sixes: Some(p), ..a }).has_bonus()
            == (Scorecard { sixes: Some(p), ..b }).has_bonus(),
{
    let x = Scorecard { sixes: Some(p), ..a };
    let y = Scorecard { sixes: Some(p), ..b };
    let r = crate::state::remaining(a);
    assert(crate::state::remaining(b) == r);
    assert(x.upper_total() == a.upper_total() + p);
    assert(y.upper_total() == b.upper_total() + p);
    assert(crate::state::remaining(x) == r - 30);
    assert(crate::state::remaining(y) == r - 30);
    lemma_kept_step(a.upper_total(), b.upper_total(), r, 30, p as nat);
    if x.full() {
        assert(crate::state::remaining(x) == 0);
    }
}

proof fn lemma_same_after_one_pair(a: Scorecard, b: Scorecard, p: u8)
    requires
        alike(a, b),
        a.one_pair is None,
        p <= 255,
    ensures
        alike(Scorecard { one_pair: Some(p), ..a }, Scorecard { one_pair: Some(p), ..b }),
        (Scorecard { one_pair: Some(p), ..a }).full() ==> (Scorecard { one_pair: Some(p), ..a }).has_bonus()
            == (Scorecard { one_pair: Some(p), ..b }).has_bonus(),
{
    let x = Scorecard { one_pair: Some(p), ..a };
    let y = Scorecard { one_pair: Some(p), ..b };
    let r = crate::state::remaining(a);
    assert(crate::state::remaining(b) == r);
    assert(x.upper_total() == a.upper_total() + 0);
    assert(y.upper_total() == b.upper_total() + 0);
    assert(crate::state::remaining(x) == r - 0);
    assert(crate::state::remaining(y) == r - 0);
    lemma_kept_step(a.upper_total(), b.upper_total(), r, 0, 0);
    if x.full() {
        assert(crate::state::remaining(x) == 0);
    }
}

proof fn lemma_same_after_two_pairs(a: Scorecard, b: Scorecard, p: u8)
    requires
        alike(a, b),
        a.two_pairs is None,
        p <= 255,
    ensures
        alike(Scorecard { two_pairs: Some(p), ..a }, Scorecard { two_pairs: Some(p), ..b }),
        (Scorecard { two_pairs: Some(p), ..a }).full() ==> (Scorecard { two_pairs: Some(p), ..a }).has_bonus()
            == (Scorecard { two_pairs: Some(p), ..b }).has_bonus(),
{
    let x = Scorecard { two_pairs: Some(p), ..a };
    let y = Scorecard { two_pairs: Some(p), ..b };
    let r = crate::state::remaining(a);
    assert(crate::state::remaining(b) == r);
    assert(x.upper_total() == a.upper_total() + 0);
    assert(y.upper_total() == b.upper_total() + 0);
    assert(crate::state::remaining(x) == r - 0);
    assert(crate::state::remaining(y) == r - 0);
    lemma_kept_step(a.upper_total(), b.upper_total(), r, 0, 0);
    if x.full() {
        assert(crate::state::remaining(x) == 0);
    }
}

proof fn lemma_same_after_three_of_a_kind(a: Scorecard, b: Scorecard, p: u8)
    requires
        alike(a, b),
        a.three_of_a_kind is None,
        p <= 255,
    ensures
        alike(Scorecard { three_of_a_kind: Some(p), ..a }, Scorecard { three_of_a_kind: Some(p), ..b }),
        (Scorecard { three_of_a_kind: Some(p), ..a }).full() ==> (Scorecard { three_of_a_kind: Some(p), ..a }).has_bonus()
            == (Scorecard { three_of_a_kind: Some(p), ..b }).has_bonus(),
{
    let x = Scorecard { three_of_a_kind: Some(p), ..a };
    let y = Scorecard { three_of_a_kind: Some(p), ..b };
    let r = crate::state::remaining(a);
    assert(crate::state::remaining(b) == r);
    assert(x.upper_total() == a.upper_total() + 0);
    assert(y.upper_total() == b.upper_total() + 0);
    assert(crate::state::remaining(x) == r - 0);
    assert(crate::state::remaining(y) == r - 0);
    lemma_kept_step(a.upper_total(), b.upper_total(), r, 0, 0);
    if x.full() {
        assert(crate::state::remaining(x) == 0);
    }
}

proof fn lemma_same_after_four_of_a_kind(a: Scorecard, b: Scorecard, p: u8)
    requires
        alike(a, b),
        a.four_of_a_kind is None,
        p <= 255,
    ensures
        alike(Scorecard { four_of_a_kind: Some(p), ..a }, Scorecard { four_of_a_kind: Some(p), ..b }),
        (Scorecard { four_of_a_kind: Some(p), ..a }).full() ==> (Scorecard { four_of_a_kind: Some(p), ..a }).has_bonus()
            == (Scorecard { four_of_a_kind: Some(p), ..b }).has_bonus(),
{
    let x = Scorecard { four_of_a_kind: Some(p), ..a };
    let y = Scorecard { four_of_a_kind: Some(p), ..b };
    let r = crate::state::remaining(a);
    assert(crate::state::remaining(b) == r);
    assert(x.upper_total() == a.upper_total() + 0);
    assert(y.upper_total() == b.upper_total() + 0);
    assert(crate::state::remaining(x) == r - 0);
    assert(crate::state::remaining(y) == r - 0);
    lemma_kept_step(a.upper_total(), b.upper_total(), r, 0, 0);
    if x.full() {
        assert(crate::state::remaining(x) == 0);
    }
}

proof fn lemma_same_after_small_straight(a: Scorecard, b: Scorecard, p: u8)
    requires
        alike(a, b),
        a.small_straight is None,
        p <= 255,
    ensures
        alike(Scorecard { small_straight: Some(p), ..a }, Scorecard { small_straight: Some(p), ..b }),
        (Scorecard { small_straight: Some(p), ..a }).full() ==> (Scorecard { small_straight: Some(p), ..a }).has_bonus()
            == (Scorecard { small_straight: Some(p), ..b }).has_bonus(),
{
    let x = Scorecard { small_straight: Some(p), ..a };
    let y = Scorecard { small_straight: Some(p), ..b };
    let r = crate::state::remaining(a);
    assert(crate::state::remaining(b) == r);
    assert(x.upper_total() == a.upper_total() + 0);
    assert(y.upper_total() == b.upper_total() + 0);
    assert(crate::state::remaining(x) == r - 0);
    assert(crate::state::remaining(y) == r - 0);
    lemma_kept_step(a.upper_total(), b.upper_total(), r, 0, 0);
    if x.full() {
        assert(crate::state::remaining(x) == 0);
    }
}

proof fn lemma_same_after_large_straight(a: Scorecard, b: Scorecard, p: u8)
    requires
        alike(a, b),
        a.large_straight is None,
        p <= 255,
    ensures
        alike(Scorecard { large_straight: Some(p), ..a }, Scorecard { large_straight: Some(p), ..b }),
        (Scorecard { large_straight: Some(p), ..a }).full() ==> (Scorecard { large_straight: Some(p), ..a }).has_bonus()
            == (Scorecard { large_straight: Some(p), ..b }).has_bonus(),
{
    let x = Scorecard { large_straight: Some(p), ..a };
    let y = Scorecard { large_straight: Some(p), ..b };
    let r = crate::state::remaining(a);
    assert(crate::state::remaining(b) == r);
    assert(x.upper_total() == a.upper_total() + 0);
    assert(y.upper_total() == b.upper_total() + 0);
    assert(crate::state::remaining(x) == r - 0);
    assert(crate::state::remaining(y) == r - 0);
    lemma_kept_step(a.upper_total(), b.upper_total(), r, 0, 0);
    if x.full() {
        assert(crate::state::remaining(x) == 0);
    }
}

proof fn lemma_same_after_full_house(a: Scorecard, b: Scorecard, p: u8)
    requires
        alike(a, b),
        a.full_house is None,
        p <= 255,
    ensures
        alike(Scorecard { full_house: Some(p), ..a }, Scorecard { full_house: Some(p), ..b }),
        (Scorecard { full_house: Some(p), ..a }).full() ==> (Scorecard { full_house: Some(p), ..a }).has_bonus()
            == (Scorecard { full_house: Some(p), ..b }).has_bonus(),
{
    let x = Scorecard { full_house: Some(p), ..a };
    let y = Scorecard { full_house: Some(p), ..b };
    let r = crate::state::remaining(a);
    assert(crate::state::remaining(b) == r);
    assert(x.upper_total() == a.upper_total() + 0);
    assert(y.upper_total() == b.upper_total() + 0);
    assert(crate::state::remaining(x) == r - 0);
    assert(crate::state::remaining(y) == r - 0);
    lemma_kept_step(a.upper_total(), b.upper_total(), r, 0, 0);
    if x.full() {
        assert(crate::state::remaining(x) == 0);
    }
}

proof fn lemma_same_after_chance(a: Scorecard, b: Scorecard, p: u8)
    requires
        alike(a, b),
        a.chance is None,
        p <= 255,
    ensures
        alike(Scorecard { chance: Some(p), ..a }, Scorecard { chance: Some(p), ..b }),
        (Scorecard { chance: Some(p), ..a }).full() ==> (Scorecard { chance: Some(p), ..a }).has_bonus()
            == (Scorecard { chance: Some(p), ..b }).has_bonus(),
{
    let x = Scorecard { chance: Some(p), ..a };
    let y = Scorecard { chance: Some(p), ..b };
    let r = crate::state::remaining(a);
    assert(crate::state::remaining(b) == r);
    assert(x.upper_total() == a.upper_total() + 0);
    assert(y.upper_total() == b.upper_total() + 0);
    assert(crate::state::remaining(x) == r - 0);
    assert(crate::state::remaining(y) == r - 0);
    lemma_kept_step(a.upper_total(), b.upper_total(), r, 0, 0);
    if x.full() {
        assert(crate::state::remaining(x) == 0);
    }
}

proof fn lemma_same_after_yatzy(a: Scorecard, b: Scorecard, p: u8)
    requires
        alike(a, b),
        a.yatzy is None,
        p <= 255,
    ensures
        alike(Scorecard { yatzy: Some(p), ..a }, Scorecard { yatzy: Some(p), ..b }),
        (Scorecard { yatzy: Some(p), ..a }).full() ==> (Scorecard { yatzy: Some(p), ..a }).has_bonus()
            == (Scorecard { yatzy: Some(p), ..b }).has_bonus(),
{
    let x = Scorecard { yatzy: Some(p), ..a };
    let y = Scorecard { yatzy: Some(p), ..b };
    let r = crate::state::remaining(a);
    assert(crate::state::remaining(b) == r);
    assert(x.upper_total() == a.upper_total() + 0);
    assert(y.upper_total() == b.upper_total() + 0);
    assert(crate::state::remaining(x) == r - 0);
    assert(crate::state::remaining(y) == r - 0);
    lemma_kept_step(a.upper_total(), b.upper_total(), r, 0, 0);
    if x.full() {
        assert(crate::state::remaining(x) == 0);
    }
}

proof fn lemma_after_ones(a: Scorecard, b: Scorecard, p: u8)
    requires
        alike(a, b),
        a.ones is None,
        p <= 5,
    ensures
        same_after(a, b, Combo::Ones, p),
{
    lemma_same_after_ones(a, b, p);
    let x = Scorecard { ones: Some(p), ..a };
    let y = Scorecard { ones: Some(p), ..b };
    assert(a.with(Combo::Ones, Some(p)) == x);
    assert(b.with(Combo::Ones, Some(p)) == y);
    lemma_state_from_alike(x, y);
}

proof fn lemma_after_twos(a: Scorecard, b: Scorecard, p: u8)
    requires
        alike(a, b),
        a.twos is None,
        p <= 10,
    ensures
        same_after(a, b, Combo::Twos, p),
{
    lemma_same_after_twos(a, b, p);
    let x = Scorecard { twos: Some(p), ..a };
    let y = Scorecard { twos: Some(p), ..b };
    assert(a.with(Combo::Twos, Some(p)) == x);
    assert(b.with(Combo::Twos, Some(p)) == y);
    lemma_state_from_alike(x, y);
}

proof fn lemma_after_threes(a: Scorecard, b: Scorecard, p: u8)
    requires
        alike(a, b),
        a.threes is None,
        p <= 15,
    ensures
        same_after(a, b, Combo::Threes, p),
{
    lemma_same_after_threes(a, b, p);
    let x = Scorecard { threes: Some(p), ..a };
    let y = Scorecard { threes: Some(p), ..b };
    assert(a.with(Combo::Threes, Some(p)) == x);
    assert(b.with(Combo::Threes, Some(p)) == y);
    lemma_state_from_alike(x, y);
}

proof fn lemma_after_fours(a: Scorecard, b: Scorecard, p: u8)
    requires
        alike(a, b),
        a.fours is None,
        p <= 20,
    ensures
        same_after(a, b, Combo::Fours, p),
{
    lemma_same_after_fours(a, b, p);
    let x = Scorecard { fours: Some(p), ..a };
    let y = Scorecard { fours: Some(p), ..b };
    assert(a.with(Combo::Fours, Some(p)) == x);
    assert(b.with(Combo::Fours, Some(p)) == y);
    lemma_state_from_alike(x, y);
}

proof fn lemma_after_fives(a: Scorecard, b: Scorecard, p: u8)
    requires
        alike(a, b),
        a.fives is None,
        p <= 25,
    ensures
        same_after(a, b, Combo::Fives, p),
{
    lemma_same_after_fives(a, b, p);
    let x = Scorecard { fives: Some(p), ..a };
    let y = Scorecard { fives: Some(p), ..b };
    assert(a.with(Combo::Fives, Some(p)) == x);
    assert(b.with(Combo::Fives, Some(p)) == y);
    lemma_state_from_alike(x, y);
}

proof fn lemma_after_sixes(a: Scorecard, b: Scorecard, p: u8)
    requires
        alike(a, b),
        a.sixes is None,
        p <= 30,
    ensures
        same_after(a, b, Combo::Sixes, p),
{
    lemma_same_after_sixes(a, b, p);
    let x = Scorecard { sixes: Some(p), ..a };
    let y = Scorecard { sixes: Some(p), ..b };
    assert(a.with(Combo::Sixes, Some(p)) == x);
    assert(b.with(Combo::Sixes, Some(p)) == y);
    lemma_state_from_alike(x, y);
}

proof fn lemma_after_one_pair(a: Scorecard, b: Scorecard, p: u8)
    requires
        alike(a, b),
        a.one_pair is None,
        p <= 255,
    ensures
        same_after(a, b, Combo::OnePair, p),
{
    lemma_same_after_one_pair(a, b, p);
    let x = Scorecard { one_pair: Some(p), ..a };
    let y = Scorecard { one_pair: Some(p), ..b };
    assert(a.with(Combo::OnePair, Some(p)) == x);
    assert(b.with(Combo::OnePair, Some(p)) == y);
    lemma_state_from_alike(x, y);
}

proof fn lemma_after_two_pairs(a: Scorecard, b: Scorecard, p: u8)
    requires
        alike(a, b),
        a.two_pairs is None,
        p <= 255,
    ensures
        same_after(a, b, Combo::TwoPairs, p),
{
    lemma_same_after_two_pairs(a, b, p);
    let x = Scorecard { two_pairs: Some(p), ..a };
    let y = Scorecard { two_pairs: Some(p), ..b };
    assert(a.with(Combo::TwoPairs, Some(p)) == x);
    assert(b.with(Combo::TwoPairs, Some(p)) == y);
    lemma_state_from_alike(x, y);
}

proof fn lemma_after_three_of_a_kind(a: Scorecard, b: Scorecard, p: u8)
    requires
        alike(a, b),
        a.three_of_a_kind is None,
        p <= 255,
    ensures
        same_after(a, b, Combo::ThreeOfAKind, p),
{
    lemma_same_after_three_of_a_kind(a, b, p);
    let x = Scorecard { three_of_a_kind: Some(p), ..a };
    let y = Scorecard { three_of_a_kind: Some(p), ..b };
    assert(a.with(Combo::ThreeOfAKind, Some(p)) == x);
    assert(b.with(Combo::ThreeOfAKind, Some(p)) == y);
    lemma_state_from_alike(x, y);
}

proof fn lemma_after_four_of_a_kind(a: Scorecard, b: Scorecard, p: u8)
    requires
        alike(a, b),
        a.four_of_a_kind is None,
        p <= 255,
    ensures
        same_after(a, b, Combo::FourOfAKind, p),
{
    lemma_same_after_four_of_a_kind(a, b, p);
    let x = Scorecard { four_of_a_kind: Some(p), ..a };
    let y = Scorecard { four_of_a_kind: Some(p), ..b };
    assert(a.with(Combo::FourOfAKind, Some(p)) == x);
    assert(b.with(Combo::FourOfAKind, Some(p)) == y);
    lemma_state_from_alike(x, y);
}

proof fn lemma_after_small_straight(a: Scorecard, b: Scorecard, p: u8)
    requires
        alike(a, b),
        a.small_straight is None,
        p <= 255,
    ensures
        same_after(a, b, Combo::SmallStraight, p),
{
    lemma_same_after_small_straight(a, b, p);
    let x = Scorecard { small_straight: Some(p), ..a };
    let y = Scorecard { small_straight: Some(p), ..b };
    assert(a.with(Combo::SmallStraight, Some(p)) == x);
    assert(b.with(Combo::SmallStraight, Some(p)) == y);
    lemma_state_from_alike(x, y);
}

proof fn lemma_after_large_straight(a: Scorecard, b: Scorecard, p: u8)
    requires
        alike(a, b),
        a.large_straight is None,
        p <= 255,
    ensures
        same_after(a, b, Combo::LargeStraight, p),
{
    lemma_same_after_large_straight(a, b, p);
    let x = Scorecard { large_straight: Some(p), ..a };
    let y = Scorecard { large_straight: Some(p), ..b };
    assert(a.with(Combo::LargeStraight, Some(p)) == x);
    assert(b.with(Combo::LargeStraight, Some(p)) == y);
    lemma_state_from_alike(x, y);
}

proof fn lemma_after_full_house(a: Scorecard, b: Scorecard, p: u8)
    requires
        alike(a, b),
        a.full_house is None,
        p <= 255,
    ensures
        same_after(a, b, Combo::FullHouse, p),
{
    lemma_same_after_full_house(a, b, p);
    let x = Scorecard { full_house: Some(p), ..a };
    let y = Scorecard { full_house: Some(p), ..b };
    assert(a.with(Combo::FullHouse, Some(p)) == x);
    assert(b.with(Combo::FullHouse, Some(p)) == y);
    lemma_state_from_alike(x, y);
}

proof fn lemma_after_chance(a: Scorecard, b: Scorecard, p: u8)
    requires
        alike(a, b),
        a.chance is None,
        p <= 255,
    ensures
        same_after(a, b, Combo::Chance, p),
{
    lemma_same_after_chance(a, b, p);
    let x = Scorecard { chance: Some(p), ..a };
    let y = Scorecard { chance: Some(p), ..b };
    assert(a.with(Combo::Chance, Some(p)) == x);
    assert(b.with(Combo::Chance, Some(p)) == y);
    lemma_state_from_alike(x, y);
}

proof fn lemma_after_yatzy(a: Scorecard, b: Scorecard, p: u8)
    requires
        alike(a, b),
        a.yatzy is None,
        p <= 255,
    ensures
        same_after(a, b, Combo::Yatzy, p),
{
    lemma_same_after_yatzy(a, b, p);
    let x = Scorecard { yatzy: Some(p), ..a };
    let y = Scorecard { yatzy: Some(p), ..b };
    assert(a.with(Combo::Yatzy, Some(p)) == x);
    assert(b.with(Combo::Yatzy, Some(p)) == y);
    lemma_state_from_alike(x, y);
}

proof fn lemma_after(a: Scorecard, b: Scorecard, c: Combo, p: u8)
    requires
        alike(a, b),
        a.get(c) is None,
        c.face() > 0 ==> p <= 5 * c.face(),
    ensures
        same_after(a, b, c, p),
{
    match c {
        Combo::Ones => {
            lemma_after_ones(a, b, p);
        },
        Combo::Twos => {
            lemma_after_twos(a, b, p);
        },
        Combo::Threes => {
            lemma_after_threes(a, b, p);
        },
        Combo::Fours => {
            lemma_after_fours(a, b, p);
        },
        Combo::Fives => {
            lemma_after_fives(a, b, p);
        },
        Combo::Sixes => {
            lemma_after_sixes(a, b, p);
        },
        Combo::OnePair => {
            lemma_after_one_pair(a, b, p);
        },
        Combo::TwoPairs => {
            lemma_after_two_pairs(a, b, p);
        },
        Combo::ThreeOfAKind => {
            lemma_after_three_of_a_kind(a, b, p);
        },
        Combo::FourOfAKind => {
            lemma_after_four_of_a_kind(a, b, p);
        },
        Combo::SmallStraight => {
            lemma_after_small_straight(a, b, p);
        },
        Combo::LargeStraight => {
            lemma_after_large_straight(a, b, p);
        },
        Combo::FullHouse => {
            lemma_after_full_house(a, b, p);
        },
        Combo::Chance => {
            lemma_after_chance(a, b, p);
        },
        Combo::Yatzy => {
            lemma_after_yatzy(a, b, p);
        },
    }
}

/// Two cards in the same state stay in the same state when the same empty line of both is
/// filled with the same points, such as the line can hold.
pub proof fn lemma_same_after(a: Scorecard, b: Scorecard, c: Combo, p: u8)
    requires
        state_of(a) == state_of(b),
        a.get(c) is None,
        c.face() > 0 ==> p <= 5 * c.face(),
    ensures
        same_after(a, b, c, p),
{
    lemma_alike_from_state(a, b);
    lemma_after(a, b, c, p);
}

proof fn lemma_select_by_state(
    a: Scorecard,
    b: Scorecard,
    dice: Seq<Die>,
    c: Combo,
    ev: Map<GameState, real>,
)
    requires
        state_of(a) == state_of(b),
        sorted_dice(dice),
        a.get(c) is None,
    ensures
        b.get(c) is None,
        select_value(a, dice, c, ev) == select_value(b, dice, c, ev),
{
    let p = points_of(c, dice);
    crate::combo::points_are_legal(c, dice);
    crate::combo::lemma_counts(dice);
    crate::dice::lemma_count_five(dice, c.face() as Die);
    lemma_same_after(a, b, c, p as u8);
    lemma_open_by_state(a, b, c);
    reveal(same_state);
}

/// Two cards in the same state have the same lines empty.
proof fn lemma_open_by_state(a: Scorecard, b: Scorecard, c: Combo)
    requires
        state_of(a) == state_of(b),
    ensures
        a.get(c) is None == b.get(c) is None,
{
    crate::state::flag_follows_line(a, c.index());
    crate::state::flag_follows_line(b, c.index());
    assert(combo_at(c.index()) == c);
}

proof fn lemma_best_select_by_state(
    a: Scorecard,
    b: Scorecard,
    dice: Seq<Die>,
    ev: Map<GameState, real>,
    n: int,
)
    requires
        state_of(a) == state_of(b),
        sorted_dice(dice),
    ensures
        best_select(a, dice, ev, n) == best_select(b, dice, ev, n),
    decreases n,
{
    if n > 0 {
        lemma_best_select_by_state(a, b, dice, ev, n - 1);
        let c = combo_at(n - 1);
        lemma_open_by_state(a, b, c);
        if a.get(c) is None {
            lemma_select_by_state(a, b, dice, c, ev);
        }
    }
}

proof fn lemma_outcome_by_state(
    depth: nat,
    a: Scorecard,
    b: Scorecard,
    dice: Seq<Die>,
    gone: Seq<Die>,
    ev: Map<GameState, real>,
    n: int,
)
    requires
        state_of(a) == state_of(b),
        crate::engine::rerollable(dice, gone),
        n <= roll_table(gone.len()).len(),
    ensures
        outcome_sum(depth, a, dice, gone, ev, n) == outcome_sum(depth, b, dice, gone, ev, n),
    decreases depth, 1nat, n,
{
    if n > 0 && depth > 0 {
        lemma_outcome_by_state(depth, a, b, dice, gone, ev, n - 1);
        let come = roll_table(gone.len())[n - 1].0;
        crate::prob::lemma_outcomes_shape(1, gone.len());
        lemma_rerolled_sorted(dice, gone, come);
        lemma_position_by_state(
            (depth - 1) as nat,
            a,
            b,
            crate::dice::rerolled(dice, gone, come),
            ev,
        );
    }
}

/// Rolling valid dice again leaves a canonical hand.
proof fn lemma_rerolled_sorted(dice: Seq<Die>, gone: Seq<Die>, come: Seq<Die>)
    requires
        crate::engine::rerollable(dice, gone),
        come.len() == gone.len(),
        crate::dice::all_valid(come),
    ensures
        sorted_dice(crate::dice::rerolled(dice, gone, come)),
{
    crate::engine::lemma_kept_bounds(dice, gone);
    crate::dice::lemma_len_is_counts(come);
    crate::dice::lemma_spread(
        crate::engine::kept(dice, gone, 1) + crate::dice::count(come, 1),
        crate::engine::kept(dice, gone, 2) + crate::dice::count(come, 2),
        crate::engine::kept(dice, gone, 3) + crate::dice::count(come, 3),
        crate::engine::kept(dice, gone, 4) + crate::dice::count(come, 4),
        crate::engine::kept(dice, gone, 5) + crate::dice::count(come, 5),
        crate::engine::kept(dice, gone, 6) + crate::dice::count(come, 6),
    );
}

proof fn lemma_best_reroll_by_state(
    depth: nat,
    a: Scorecard,
    b: Scorecard,
    dice: Seq<Die>,
    ev: Map<GameState, real>,
    n: int,
)
    requires
        state_of(a) == state_of(b),
        sorted_dice(dice),
    ensures
        best_reroll(depth, a, dice, ev, n) == best_reroll(depth, b, dice, ev, n),
    decreases depth, 2nat, n,
{
    if n > 0 && depth > 0 && n <= reroll_candidates(dice).len() {
        lemma_best_reroll_by_state(depth, a, b, dice, ev, n - 1);
        lemma_reroll_candidates(dice);
        let gone = reroll_candidates(dice)[n - 1];
        lemma_outcome_by_state(depth, a, b, dice, gone, ev, roll_table(gone.len()).len() as int);
        assert(reroll_value(depth, a, dice, gone, ev) == reroll_value(depth, b, dice, gone, ev));
    }
}

/// The value of a position turns on the card through its state alone: two cards in the same
/// state give every canonical hand the same value.
pub proof fn lemma_position_by_state(
    depth: nat,
    a: Scorecard,
    b: Scorecard,
    dice: Seq<Die>,
    ev: Map<GameState, real>,
)
    requires
        state_of(a) == state_of(b),
        sorted_dice(dice),
    ensures
        position_value(depth, a, dice, ev) == position_value(depth, b, dice, ev),
    decreases depth, 3nat, 0nat,
{
    lemma_best_select_by_state(a, b, dice, ev, 15);
    if depth > 0 {
        lemma_best_reroll_by_state(depth, a, b, dice, ev, reroll_candidates(dice).len() as int);
    }
}

/// The first `n` terms of the expected value of the turn that starts on `card`.
pub open spec fn turn_sum(card: Scorecard, ev: Map<GameState, real>, n: int) -> real
    decreases n,
{
    if n <= 0 {
        0real
    } else {
        turn_sum(card, ev, n - 1) + chance(5, n - 1) * position_value(
            2,
            card,
            roll_table(5)[n - 1].0,
            ev,
        )
    }
}

proof fn lemma_turn_sum(card: Scorecard, ev: Map<GameState, real>, n: int)
    requires
        n <= roll_table(5).len(),
    ensures
        turn_sum(card, ev, n) == state_sum(state_of(card), ev, n),
    decreases n,
{
    if n > 0 {
        lemma_turn_sum(card, ev, n - 1);
        crate::prob::lemma_outcomes_sorted(5, n - 1);
        state_is_canonical(card);
        state_round_trip(state_of(card));
        lemma_position_by_state(2, card, card_of(state_of(card)), roll_table(5)[n - 1].0, ev);
    }
}

/// The expected value of a state is the expected value of the turn of every game in that
/// state: over the first roll of the turn, the value of the position with two rerolls left
/// on the card of that game, whatever points its lines hold.
pub proof fn state_value_is_the_value_of_any_card(card: Scorecard, ev: Map<GameState, real>)
    ensures
        turn_sum(card, ev, roll_table(5).len() as int) == state_value(state_of(card), ev),
{
    lemma_turn_sum(card, ev, roll_table(5).len() as int);
}

} // verus!
