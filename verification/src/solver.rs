use crate::cache::Cache;
use crate::choice::{
    choice_hands, lemma_reroll_candidates, reroll_candidates, reroll_choices, Choice,
};
use crate::combo::{combo_at, Combo};
use crate::dice::{sorted_dice, Die};
use crate::engine::{
    best_reroll, best_select, covers, covers_card, memo_fits, position_value, reroll_value,
    reroll_value_of, select_value, select_value_of, value_of, Rolls,
};
use crate::exact::ExpectedValue;
use crate::game::{Game, Scorecard};
use crate::state::GameState;
use crate::table::EvTable;
use vstd::prelude::*;

verus! {

/// Whether a choice is open in a position: to fill a line that is empty, or, where a reroll
/// is left, to roll again some of the dice that lie there.
pub open spec fn is_option(depth: nat, card: Scorecard, dice: Seq<Die>, choice: Choice) -> bool {
    match choice {
        Choice::SelectCombo(c) => card.get(c) is None,
        _ => depth >= 1 && exists|i: int|
            0 <= i < reroll_candidates(dice).len() && #[trigger] reroll_candidates(dice)[i]
                == choice.hand(),
    }
}

/// What a choice is worth in a position with `depth` rerolls left.
pub open spec fn choice_value(
    depth: nat,
    card: Scorecard,
    dice: Seq<Die>,
    choice: Choice,
    ev: Map<GameState, real>,
) -> real {
    match choice {
        Choice::SelectCombo(c) => select_value(card, dice, c, ev),
        _ => reroll_value(depth, card, dice, choice.hand(), ev),
    }
}

/// No choice occurs twice in the list.
pub open spec fn distinct(choices: Seq<Choice>) -> bool {
    forall|i: int, j: int| 0 <= i < j < choices.len() ==> choices[i] != choices[j]
}

/// How many dice a choice rolls again.
pub open spec fn arity(choice: Choice) -> nat {
    match choice {
        Choice::SelectCombo(_) => 0,
        Choice::Reroll1(_) => 1,
        Choice::Reroll2(_) => 2,
        Choice::Reroll3(_) => 3,
        Choice::Reroll4(_) => 4,
        Choice::Reroll5(_) => 5,
    }
}

proof fn lemma_arity(choice: Choice)
    ensures
        choice.hand().len() == arity(choice),
{
    match choice {
        Choice::SelectCombo(_) => {},
        Choice::Reroll1(x) => {
            assert(x@.len() == 1);
        },
        Choice::Reroll2(x) => {
            assert(x@.len() == 2);
        },
        Choice::Reroll3(x) => {
            assert(x@.len() == 3);
        },
        Choice::Reroll4(x) => {
            assert(x@.len() == 4);
        },
        Choice::Reroll5(x) => {
            assert(x@.len() == 5);
        },
    }
}

/// Two choices to roll dice again that name the same dice are the same choice.
pub proof fn lemma_same_hand(a: Choice, b: Choice)
    requires
        !(a is SelectCombo),
        !(b is SelectCombo),
        a.hand() == b.hand(),
    ensures
        a == b,
{
    lemma_arity(a);
    lemma_arity(b);
    match (a, b) {
        (Choice::Reroll1(x), Choice::Reroll1(y)) => {
            assert(x@ =~= y@);
            assert(x =~= y);
        },
        (Choice::Reroll2(x), Choice::Reroll2(y)) => {
            assert(x@ =~= y@);
            assert(x =~= y);
        },
        (Choice::Reroll3(x), Choice::Reroll3(y)) => {
            assert(x@ =~= y@);
            assert(x =~= y);
        },
        (Choice::Reroll4(x), Choice::Reroll4(y)) => {
            assert(x@ =~= y@);
            assert(x =~= y);
        },
        (Choice::Reroll5(x), Choice::Reroll5(y)) => {
            assert(x@ =~= y@);
            assert(x =~= y);
        },
        _ => {
            assert(arity(a) != arity(b));
        },
    }
}

/// Filling an empty line before place `n` is worth no more than the best of them.
proof fn lemma_select_bound(
    card: Scorecard,
    dice: Seq<Die>,
    ev: Map<GameState, real>,
    n: int,
    c: Combo,
)
    requires
        card.get(c) is None,
        c.index() < n,
    ensures
        select_value(card, dice, c, ev) <= best_select(card, dice, ev, n),
    decreases n,
{
    if n > 0 {
        if c.index() < n - 1 {
            lemma_select_bound(card, dice, ev, n - 1, c);
        } else {
            assert(combo_at(n - 1) == c);
        }
    }
}

/// One of the first `n` ways to roll dice again is worth no more than the best of them.
proof fn lemma_reroll_bound(
    depth: nat,
    card: Scorecard,
    dice: Seq<Die>,
    ev: Map<GameState, real>,
    n: int,
    i: int,
)
    requires
        depth >= 1,
        0 <= i < n <= reroll_candidates(dice).len(),
    ensures
        reroll_value(depth, card, dice, reroll_candidates(dice)[i], ev) <= best_reroll(
            depth,
            card,
            dice,
            ev,
            n,
        ),
    decreases n,
{
    if i < n - 1 {
        lemma_reroll_bound(depth, card, dice, ev, n - 1, i);
    }
}

/// No choice that is open in a position is worth more than the position.
pub proof fn value_is_upper_bound(
    depth: nat,
    card: Scorecard,
    dice: Seq<Die>,
    ev: Map<GameState, real>,
    choice: Choice,
)
    requires
        is_option(depth, card, dice, choice),
    ensures
        choice_value(depth, card, dice, choice, ev) <= position_value(depth, card, dice, ev),
{
    match choice {
        Choice::SelectCombo(c) => {
            lemma_select_bound(card, dice, ev, 15, c);
        },
        _ => {
            let i = choose|i: int|
                0 <= i < reroll_candidates(dice).len() && #[trigger] reroll_candidates(dice)[i]
                    == choice.hand();
            lemma_reroll_bound(depth, card, dice, ev, reroll_candidates(dice).len() as int, i);
        },
    }
}

/// The choices that are open in the position of `game` when `depth` rerolls are left: the
/// empty lines in the order of the card, then the ways to roll dice again. A way to roll
/// dice again comes once for each pick of places that gives it.
fn options_of(depth: u8, game: &Game) -> (out: Vec<Choice>)
    ensures
        forall|choice: Choice|
            out@.contains(choice) <==> is_option(depth as nat, game@.card, game@.dice, choice),
{
    let mut out: Vec<Choice> = Vec::new();
    let mut walk = Combo::iter();
    let mut i: usize = 0;
    while i < 15
        invariant
            i <= 15,
            walk.position() == i,
            forall|choice: Choice|
                out@.contains(choice) <==> (choice matches Choice::SelectCombo(c) && c.index() < i
                    && game@.card.get(c) is None),
        decreases 15 - i,
    {
        let c = walk.next().unwrap();
        if game.combo(c).is_none() {
            let ghost before = out@;
            out.push(Choice::SelectCombo(c));
            proof {
                assert forall|choice: Choice|
                    out@.contains(choice) <==> (choice matches Choice::SelectCombo(d) && d.index()
                        < i + 1 && game@.card.get(d) is None) by {
                    if out@.contains(choice) {
                        let j = choose|j: int| 0 <= j < out@.len() && out@[j] == choice;
                        if j < before.len() {
                            assert(before[j] == choice);
                            assert(before.contains(choice));
                        }
                    }
                    match choice {
                        Choice::SelectCombo(d) => {
                            if d.index() < i + 1 && game@.card.get(d) is None {
                                if d.index() == i {
                                    assert(d == c);
                                    assert(out@[before.len() as int] == choice);
                                } else {
                                    assert(before.contains(choice));
                                    let j = choose|j: int|
                                        0 <= j < before.len() && before[j] == choice;
                                    assert(out@[j] == choice);
                                }
                            }
                        },
                        _ => {},
                    }
                }
            }
        } else {
            proof {
                assert forall|choice: Choice|
                    out@.contains(choice) <==> (choice matches Choice::SelectCombo(d) && d.index()
                        < i + 1 && game@.card.get(d) is None) by {
                    match choice {
                        Choice::SelectCombo(d) => {
                            if d.index() == i {
                                assert(d == c);
                            }
                        },
                        _ => {},
                    }
                }
            }
        }
        i = i + 1;
    }
    if depth > 0 {
        let rerolls = reroll_choices(&game.dice());
        let ghost selects = out@;
        let ghost candidates = reroll_candidates(game@.dice);
        proof {
            lemma_reroll_candidates(game@.dice);
        }
        let mut j: usize = 0;
        while j < rerolls.len()
            invariant
                j <= rerolls@.len(),
                out@ == selects + rerolls@.take(j as int),
            decreases rerolls@.len() - j,
        {
            out.push(rerolls[j]);
            j = j + 1;
            proof {
                assert(out@ =~= selects + rerolls@.take(j as int));
            }
        }
        proof {
            assert(rerolls@.take(j as int) =~= rerolls@);
            assert forall|choice: Choice|
                out@.contains(choice) <==> is_option(
                    depth as nat,
                    game@.card,
                    game@.dice,
                    choice,
                ) by {
                if out@.contains(choice) {
                    let n = choose|n: int| 0 <= n < out@.len() && out@[n] == choice;
                    if n < selects.len() {
                        assert(selects[n] == choice);
                        assert(selects.contains(choice));
                    } else {
                        let m = n - selects.len();
                        assert(rerolls@[m] == choice);
                        assert(choice_hands(rerolls@)[m] == choice.hand());
                        assert(candidates[m] == choice.hand());
                    }
                }
                if is_option(depth as nat, game@.card, game@.dice, choice) {
                    match choice {
                        Choice::SelectCombo(c) => {
                            assert(c.index() < 15);
                            assert(selects.contains(choice));
                            let n = choose|n: int| 0 <= n < selects.len() && selects[n] == choice;
                            assert(out@[n] == choice);
                        },
                        _ => {
                            let m = choose|m: int|
                                0 <= m < candidates.len() && #[trigger] candidates[m]
                                    == choice.hand();
                            assert(choice_hands(rerolls@)[m] == rerolls@[m].hand());
                            lemma_same_hand(rerolls@[m], choice);
                            assert(out@[selects.len() + m] == choice);
                        },
                    }
                }
            }
        }
    } else {
        proof {
            assert forall|choice: Choice|
                out@.contains(choice) <==> is_option(0, game@.card, game@.dice, choice) by {
                match choice {
                    Choice::SelectCombo(c) => {
                        assert(c.index() < 15);
                    },
                    _ => {},
                }
            }
        }
    }
    out
}

/// Whether the list holds the choice.
fn holds_choice(list: &Vec<Choice>, choice: &Choice) -> (yes: bool)
    ensures
        yes == list@.contains(*choice),
{
    let mut i: usize = 0;
    while i < list.len()
        invariant
            i <= list@.len(),
            forall|j: int| 0 <= j < i ==> list@[j] != *choice,
        decreases list@.len() - i,
    {
        if list[i].same(choice) {
            return true;
        }
        i = i + 1;
    }
    false
}

/// What a choice that is open in the position of `game` is worth when `depth` rerolls are
/// left.
fn choice_value_of(
    depth: u8,
    game: &Game,
    choice: &Choice,
    ev: &EvTable,
    rolls: &Rolls,
    cache: &mut Cache,
) -> (v: ExpectedValue)
    requires
        depth <= 2,
        sorted_dice(game@.dice),
        covers(ev@, game@.card),
        memo_fits(old(cache)@, game@.card, ev@),
        is_option(depth as nat, game@.card, game@.dice, *choice),
    ensures
        v.value() == choice_value(depth as nat, game@.card, game@.dice, *choice, ev@),
        memo_fits(final(cache)@, game@.card, ev@),
{
    match choice {
        Choice::SelectCombo(c) => select_value_of(game, *c, ev),
        _ => {
            proof {
                lemma_reroll_candidates(game@.dice);
                let i = choose|i: int|
                    0 <= i < reroll_candidates(game@.dice).len() && #[trigger] reroll_candidates(
                        game@.dice,
                    )[i] == choice.hand();
                assert(crate::engine::rerollable(game@.dice, reroll_candidates(game@.dice)[i]));
            }
            reroll_value_of(depth, game, choice, ev, rolls, cache)
        },
    }
}

/// The value of the position of `game` when `depth` rerolls are left, and every choice that
/// is worth as much, each once.
fn best_choices(depth: u8, game: &Game, ev: &EvTable, rolls: &Rolls, cache: &mut Cache) -> (r: (
    Vec<Choice>,
    ExpectedValue,
))
    requires
        depth <= 2,
        sorted_dice(game@.dice),
        covers(ev@, game@.card),
        memo_fits(old(cache)@, game@.card, ev@),
    ensures
        r.1.value() == position_value(depth as nat, game@.card, game@.dice, ev@),
        forall|choice: Choice|
            r.0@.contains(choice) <==> is_option(depth as nat, game@.card, game@.dice, choice)
                && choice_value(depth as nat, game@.card, game@.dice, choice, ev@)
                == r.1.value(),
        distinct(r.0@),
        !game@.card.full() ==> r.0@.len() > 0,
        memo_fits(final(cache)@, game@.card, ev@),
{
    let best = value_of(depth, game, ev, rolls, cache);
    let options = options_of(depth, game);
    let mut out: Vec<Choice> = Vec::new();
    let mut i: usize = 0;
    while i < options.len()
        invariant
            depth <= 2,
            i <= options@.len(),
            sorted_dice(game@.dice),
            covers(ev@, game@.card),
            memo_fits(cache@, game@.card, ev@),
            best.value() == position_value(depth as nat, game@.card, game@.dice, ev@),
            forall|choice: Choice|
                options@.contains(choice) <==> is_option(
                    depth as nat,
                    game@.card,
                    game@.dice,
                    choice,
                ),
            forall|choice: Choice|
                out@.contains(choice) <==> (exists|j: int|
                    0 <= j < i && #[trigger] options@[j] == choice) && choice_value(
                    depth as nat,
                    game@.card,
                    game@.dice,
                    choice,
                    ev@,
                ) == best.value(),
            distinct(out@),
        decreases options@.len() - i,
    {
        let option = options[i];
        proof {
            assert(options@.contains(option));
        }
        let v = choice_value_of(depth, game, &option, ev, rolls, cache);
        let ghost before = out@;
        let mut taken = false;
        if v.same_as(&best) && !holds_choice(&out, &option) {
            out.push(option);
            taken = true;
        }
        proof {
            assert forall|choice: Choice|
                out@.contains(choice) <==> (exists|j: int|
                    0 <= j < i + 1 && #[trigger] options@[j] == choice) && choice_value(
                    depth as nat,
                    game@.card,
                    game@.dice,
                    choice,
                    ev@,
                ) == best.value() by {
                let worth = choice_value(depth as nat, game@.card, game@.dice, choice, ev@);
                if out@.contains(choice) {
                    let n = choose|n: int| 0 <= n < out@.len() && out@[n] == choice;
                    if n < before.len() {
                        assert(before[n] == choice);
                        assert(before.contains(choice));
                        let j = choose|j: int| 0 <= j < i && #[trigger] options@[j] == choice;
                        assert(0 <= j < i + 1 && options@[j] == choice);
                    } else {
                        assert(choice == option);
                        assert(options@[i as int] == choice);
                    }
                }
                if (exists|j: int| 0 <= j < i + 1 && #[trigger] options@[j] == choice) && worth
                    == best.value() {
                    let j = choose|j: int| 0 <= j < i + 1 && #[trigger] options@[j] == choice;
                    if j < i {
                        assert(before.contains(choice));
                        let n = choose|n: int| 0 <= n < before.len() && before[n] == choice;
                        assert(out@[n] == choice);
                    } else {
                        assert(choice == option);
                        if taken {
                            assert(out@[before.len() as int] == choice);
                        } else {
                            assert(before.contains(choice));
                            let n = choose|n: int| 0 <= n < before.len() && before[n] == choice;
                            assert(out@[n] == choice);
                        }
                    }
                }
            }
            assert forall|a: int, b: int| 0 <= a < b < out@.len() implies out@[a] != out@[b] by {
                if b == before.len() {
                    assert(before[a] == out@[a]);
                    assert(before.contains(out@[a]));
                } else {
                    assert(before[a] == out@[a] && before[b] == out@[b]);
                }
            }
        }
        i = i + 1;
    }
    ev.not_negative();
    proof {
        assert forall|choice: Choice|
            out@.contains(choice) <==> is_option(depth as nat, game@.card, game@.dice, choice)
                && choice_value(depth as nat, game@.card, game@.dice, choice, ev@)
                == best.value() by {
            if options@.contains(choice) {
                let j = choose|j: int| 0 <= j < options@.len() && options@[j] == choice;
                assert(0 <= j < i && options@[j] == choice);
            }
            if out@.contains(choice) {
                let j = choose|j: int| 0 <= j < i && #[trigger] options@[j] == choice;
                assert(options@.contains(choice));
            }
        }
        if !game@.card.full() {
            crate::laws::some_choice_is_best(depth as nat, game@.card, game@.dice, ev@);
            let choice = choose|choice: Choice| #[trigger]
                crate::laws::is_best(depth as nat, game@.card, game@.dice, ev@, choice);
            assert(out@.contains(choice));
        }
    }
    (out, best)
}

/// The best that can be done where a line must be filled: the value of the position, and
/// every empty line that is worth as much.
pub fn best_choice_0_rerolls(
    game: Game,
    expected_values: &EvTable,
    rolls: &Rolls,
    cache: &mut Cache,
) -> (r: (Vec<Choice>, ExpectedValue))
    requires
        game@.rerolls_left == 0,
        sorted_dice(game@.dice),
        covers(expected_values@, game@.card),
        memo_fits(old(cache)@, game@.card, expected_values@),
    ensures
        r.1.value() == position_value(0, game@.card, game@.dice, expected_values@),
        forall|choice: Choice|
            r.0@.contains(choice) <==> is_option(0, game@.card, game@.dice, choice)
                && choice_value(0, game@.card, game@.dice, choice, expected_values@)
                == r.1.value(),
        distinct(r.0@),
        !game@.card.full() ==> r.0@.len() > 0,
        memo_fits(final(cache)@, game@.card, expected_values@),
{
    best_choices(0, &game, expected_values, rolls, cache)
}

/// The best that can be done with one reroll left: the value of the position, and every
/// choice that is worth as much, each once.
pub fn best_choice_1_reroll(
    game: Game,
    expected_values: &EvTable,
    rolls: &Rolls,
    cache: &mut Cache,
) -> (r: (Vec<Choice>, ExpectedValue))
    requires
        game@.rerolls_left == 1,
        sorted_dice(game@.dice),
        covers(expected_values@, game@.card),
        memo_fits(old(cache)@, game@.card, expected_values@),
    ensures
        r.1.value() == position_value(1, game@.card, game@.dice, expected_values@),
        forall|choice: Choice|
            r.0@.contains(choice) <==> is_option(1, game@.card, game@.dice, choice)
                && choice_value(1, game@.card, game@.dice, choice, expected_values@)
                == r.1.value(),
        distinct(r.0@),
        !game@.card.full() ==> r.0@.len() > 0,
        memo_fits(final(cache)@, game@.card, expected_values@),
{
    best_choices(1, &game, expected_values, rolls, cache)
}

/// The best that can be done with two rerolls left: the value of the position, and every
/// choice that is worth as much, each once.
pub fn best_choice_2_rerolls(
    game: Game,
    expected_values: &EvTable,
    rolls: &Rolls,
    cache: &mut Cache,
) -> (r: (Vec<Choice>, ExpectedValue))
    requires
        game@.rerolls_left == 2,
        sorted_dice(game@.dice),
        covers(expected_values@, game@.card),
        memo_fits(old(cache)@, game@.card, expected_values@),
    ensures
        r.1.value() == position_value(2, game@.card, game@.dice, expected_values@),
        forall|choice: Choice|
            r.0@.contains(choice) <==> is_option(2, game@.card, game@.dice, choice)
                && choice_value(2, game@.card, game@.dice, choice, expected_values@)
                == r.1.value(),
        distinct(r.0@),
        !game@.card.full() ==> r.0@.len() > 0,
        memo_fits(final(cache)@, game@.card, expected_values@),
{
    best_choices(2, &game, expected_values, rolls, cache)
}

/// The best that can be done in the position of `game`, by the rerolls that are left in it:
/// the value of the position, and every choice that is worth as much, each once. `None`
/// where the game is not well formed or the table lacks a state that can follow its card.
pub fn best_choice(game: Game, expected_values: &EvTable, rolls: &Rolls) -> (r: Option<
    (Vec<Choice>, ExpectedValue),
>)
    ensures
        r is Some <==> game@.wf() && covers(expected_values@, game@.card),
        r matches Some(found) ==> {
            &&& found.1.value() == position_value(
                game@.rerolls_left as nat,
                game@.card,
                game@.dice,
                expected_values@,
            )
            &&& forall|choice: Choice|
                found.0@.contains(choice) <==> is_option(
                    game@.rerolls_left as nat,
                    game@.card,
                    game@.dice,
                    choice,
                ) && choice_value(
                    game@.rerolls_left as nat,
                    game@.card,
                    game@.dice,
                    choice,
                    expected_values@,
                ) == found.1.value()
            &&& distinct(found.0@)
            &&& (!game@.card.full() ==> found.0@.len() > 0)
        },
{
    if !game.dice().is_canonical() || game.rerolls_left() > 2 {
        return None;
    }
    if !covers_card(expected_values, &game.card()) {
        return None;
    }
    let mut cache = Cache::new();
    Some(best_choices(game.rerolls_left(), &game, expected_values, rolls, &mut cache))
}

} // verus!
