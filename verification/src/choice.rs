use crate::combo::Combo;
use crate::dice::{all_valid, contained_in, count, lemma_count_concat, Dice, Die};
use itertools::Itertools;
use vstd::prelude::*;

verus! {

/// What a player can do with a position: fill a line, or roll some of the dice again.
#[derive(Clone, Copy, Debug, PartialEq, Eq, Hash)]
pub enum Choice {
    SelectCombo(Combo),
    Reroll1([Die; 1]),
    Reroll2([Die; 2]),
    Reroll3([Die; 3]),
    Reroll4([Die; 4]),
    Reroll5([Die; 5]),
}

impl Choice {
    /// The dice that the choice rolls again: none where it fills a line.
    pub open spec fn hand(self) -> Seq<Die> {
        match self {
            Choice::SelectCombo(_) => Seq::empty(),
            Choice::Reroll1(d) => d@,
            Choice::Reroll2(d) => d@,
            Choice::Reroll3(d) => d@,
            Choice::Reroll4(d) => d@,
            Choice::Reroll5(d) => d@,
        }
    }

    /// The dice that the choice rolls again: none where it fills a line.
    pub fn dice(&self) -> (out: Vec<Die>)
        ensures
            out@ == self.hand(),
    {
        let mut out: Vec<Die> = Vec::new();
        match self {
            Choice::SelectCombo(_) => {},
            Choice::Reroll1(d) => {
                out.push(d[0]);
            },
            Choice::Reroll2(d) => {
                out.push(d[0]);
                out.push(d[1]);
            },
            Choice::Reroll3(d) => {
                out.push(d[0]);
                out.push(d[1]);
                out.push(d[2]);
            },
            Choice::Reroll4(d) => {
                out.push(d[0]);
                out.push(d[1]);
                out.push(d[2]);
                out.push(d[3]);
            },
            Choice::Reroll5(d) => {
                out.push(d[0]);
                out.push(d[1]);
                out.push(d[2]);
                out.push(d[3]);
                out.push(d[4]);
            },
        }
        proof {
            assert(out@ =~= self.hand());
        }
        out
    }

    /// Whether two choices are the same choice.
    pub fn same(&self, other: &Choice) -> (yes: bool)
        ensures
            yes == (*self == *other),
    {
        match (self, other) {
            (Choice::SelectCombo(a), Choice::SelectCombo(b)) => a.ordinal() == b.ordinal(),
            (Choice::Reroll1(a), Choice::Reroll1(b)) => {
                assert(a@ =~= b@ ==> a == b);
                a[0] == b[0]
            },
            (Choice::Reroll2(a), Choice::Reroll2(b)) => {
                assert(a@ =~= b@ ==> a == b);
                a[0] == b[0] && a[1] == b[1]
            },
            (Choice::Reroll3(a), Choice::Reroll3(b)) => {
                assert(a@ =~= b@ ==> a == b);
                a[0] == b[0] && a[1] == b[1] && a[2] == b[2]
            },
            (Choice::Reroll4(a), Choice::Reroll4(b)) => {
                assert(a@ =~= b@ ==> a == b);
                a[0] == b[0] && a[1] == b[1] && a[2] == b[2] && a[3] == b[3]
            },
            (Choice::Reroll5(a), Choice::Reroll5(b)) => {
                assert(a@ =~= b@ ==> a == b);
                a[0] == b[0] && a[1] == b[1] && a[2] == b[2] && a[3] == b[3] && a[4] == b[4]
            },
            _ => false,
        }
    }
}

/// Each hand of `ts` with the die `x` put in front.
pub open spec fn prepend_all(x: Die, ts: Seq<Seq<Die>>) -> Seq<Seq<Die>> {
    Seq::new(ts.len(), |i: int| seq![x] + ts[i])
}

/// Every way to pick `k` of the dice of `s` by their places, each pick in the order of the
/// places: first the picks that take the first die, then those that leave it.
pub open spec fn picks(s: Seq<Die>, k: nat) -> Seq<Seq<Die>>
    decreases s.len(),
{
    if k == 0 {
        seq![Seq::<Die>::empty()]
    } else if s.len() == 0 {
        Seq::empty()
    } else {
        prepend_all(s[0], picks(s.drop_first(), (k - 1) as nat)) + picks(s.drop_first(), k)
    }
}

/// Every way to pick one to five of the dice of `s` by their places: the picks of one die
/// first, the pick of all five last.
pub open spec fn reroll_candidates(s: Seq<Die>) -> Seq<Seq<Die>> {
    picks(s, 1) + picks(s, 2) + picks(s, 3) + picks(s, 4) + picks(s, 5)
}

/// Each pick of `k` dice from `s` has `k` dice, and `s` holds them.
pub proof fn lemma_picks(s: Seq<Die>, k: nat)
    ensures
        forall|i: int|
            0 <= i < picks(s, k).len() ==> {
                &&& (#[trigger] picks(s, k)[i]).len() == k
                &&& contained_in(picks(s, k)[i], s)
                &&& (all_valid(s) ==> all_valid(picks(s, k)[i]))
            },
    decreases s.len(),
{
    let all = picks(s, k);
    if k == 0 {
        assert forall|i: int| 0 <= i < all.len() implies {
            &&& (#[trigger] all[i]).len() == k
            &&& contained_in(all[i], s)
            &&& (all_valid(s) ==> all_valid(all[i]))
        } by {
            assert(all[i].len() == 0);
            assert forall|v: Die| #[trigger] count(all[i], v) <= count(s, v) by {}
        }
    } else if s.len() == 0 {
    } else {
        let rest = s.drop_first();
        lemma_picks(rest, (k - 1) as nat);
        lemma_picks(rest, k);
        let with = prepend_all(s[0], picks(rest, (k - 1) as nat));
        let without = picks(rest, k);
        assert(all == with + without);
        assert(s =~= seq![s[0]] + rest);
        assert forall|i: int| 0 <= i < all.len() implies {
            &&& (#[trigger] all[i]).len() == k
            &&& contained_in(all[i], s)
            &&& (all_valid(s) ==> all_valid(all[i]))
        } by {
            if i < with.len() {
                let t = picks(rest, (k - 1) as nat)[i];
                assert(all[i] == seq![s[0]] + t);
                assert forall|v: Die| #[trigger] count(all[i], v) <= count(s, v) by {
                    lemma_count_concat(seq![s[0]], t, v);
                    lemma_count_concat(seq![s[0]], rest, v);
                    assert(count(t, v) <= count(rest, v));
                }
                if all_valid(s) {
                    assert forall|j: int| 0 <= j < all[i].len() implies crate::dice::valid_die(
                        #[trigger] all[i][j],
                    ) by {
                        if j > 0 {
                            assert(all[i][j] == t[j - 1]);
                            assert(rest[0] == s[1]);
                        }
                    }
                }
            } else {
                let t = without[i - with.len()];
                assert(all[i] == t);
                assert forall|v: Die| #[trigger] count(all[i], v) <= count(s, v) by {
                    lemma_count_concat(seq![s[0]], rest, v);
                    assert(count(t, v) <= count(rest, v));
                }
            }
        }
    }
}

/// Each candidate for a reroll has one to five dice, and the hand holds them.
pub proof fn lemma_reroll_candidates(s: Seq<Die>)
    ensures
        forall|i: int|
            0 <= i < reroll_candidates(s).len() ==> {
                &&& 1 <= (#[trigger] reroll_candidates(s)[i]).len() <= 5
                &&& contained_in(reroll_candidates(s)[i], s)
                &&& (all_valid(s) ==> all_valid(reroll_candidates(s)[i]))
            },
{
    lemma_picks(s, 1);
    lemma_picks(s, 2);
    lemma_picks(s, 3);
    lemma_picks(s, 4);
    lemma_picks(s, 5);
}

/// The hands that a list of arrays holds.
pub open spec fn hands_of<const K: usize>(arrays: Seq<[Die; K]>) -> Seq<Seq<Die>> {
    Seq::new(arrays.len(), |i: int| arrays[i]@)
}

/// `Itertools::array_combinations` over the five dice, collected: every way to pick `K` of
/// them by their places, in the order of the places, as the crate's documentation shows it
/// for `(1..5).array_combinations()`.
#[verifier::external_body]
fn array_combinations<const K: usize>(dice: &[Die; 5]) -> (out: Vec<[Die; K]>)
    requires
        1 <= K <= 5,
    ensures
        hands_of(out@) == picks(dice@, K as nat),
{
    dice.iter().copied().array_combinations::<K>().collect()
}

/// The dice that the choices of a list roll again, choice by choice.
pub open spec fn choice_hands(choices: Seq<Choice>) -> Seq<Seq<Die>> {
    Seq::new(choices.len(), |i: int| choices[i].hand())
}

/// The picks of one die as choices.
fn rerolls_of_one(picks: &Vec<[Die; 1]>) -> (out: Vec<Choice>)
    ensures
        choice_hands(out@) == hands_of(picks@),
        forall|i: int| 0 <= i < out@.len() ==> !((#[trigger] out@[i]) is SelectCombo),
{
    let mut out: Vec<Choice> = Vec::new();
    let mut i: usize = 0;
    while i < picks.len()
        invariant
            i <= picks@.len(),
            out@.len() == i,
            forall|j: int| 0 <= j < i ==> (#[trigger] out@[j]).hand() == picks@[j]@,
            forall|j: int| 0 <= j < i ==> !((#[trigger] out@[j]) is SelectCombo),
        decreases picks@.len() - i,
    {
        out.push(Choice::Reroll1(picks[i]));
        i = i + 1;
    }
    proof {
        assert(choice_hands(out@) =~= hands_of(picks@));
    }
    out
}

/// The picks of two dice as choices.
fn rerolls_of_two(picks: &Vec<[Die; 2]>) -> (out: Vec<Choice>)
    ensures
        choice_hands(out@) == hands_of(picks@),
        forall|i: int| 0 <= i < out@.len() ==> !((#[trigger] out@[i]) is SelectCombo),
{
    let mut out: Vec<Choice> = Vec::new();
    let mut i: usize = 0;
    while i < picks.len()
        invariant
            i <= picks@.len(),
            out@.len() == i,
            forall|j: int| 0 <= j < i ==> (#[trigger] out@[j]).hand() == picks@[j]@,
            forall|j: int| 0 <= j < i ==> !((#[trigger] out@[j]) is SelectCombo),
        decreases picks@.len() - i,
    {
        out.push(Choice::Reroll2(picks[i]));
        i = i + 1;
    }
    proof {
        assert(choice_hands(out@) =~= hands_of(picks@));
    }
    out
}

/// The picks of three dice as choices.
fn rerolls_of_three(picks: &Vec<[Die; 3]>) -> (out: Vec<Choice>)
    ensures
        choice_hands(out@) == hands_of(picks@),
        forall|i: int| 0 <= i < out@.len() ==> !((#[trigger] out@[i]) is SelectCombo),
{
    let mut out: Vec<Choice> = Vec::new();
    let mut i: usize = 0;
    while i < picks.len()
        invariant
            i <= picks@.len(),
            out@.len() == i,
            forall|j: int| 0 <= j < i ==> (#[trigger] out@[j]).hand() == picks@[j]@,
            forall|j: int| 0 <= j < i ==> !((#[trigger] out@[j]) is SelectCombo),
        decreases picks@.len() - i,
    {
        out.push(Choice::Reroll3(picks[i]));
        i = i + 1;
    }
    proof {
        assert(choice_hands(out@) =~= hands_of(picks@));
    }
    out
}

/// The picks of four dice as choices.
fn rerolls_of_four(picks: &Vec<[Die; 4]>) -> (out: Vec<Choice>)
    ensures
        choice_hands(out@) == hands_of(picks@),
        forall|i: int| 0 <= i < out@.len() ==> !((#[trigger] out@[i]) is SelectCombo),
{
    let mut out: Vec<Choice> = Vec::new();
    let mut i: usize = 0;
    while i < picks.len()
        invariant
            i <= picks@.len(),
            out@.len() == i,
            forall|j: int| 0 <= j < i ==> (#[trigger] out@[j]).hand() == picks@[j]@,
            forall|j: int| 0 <= j < i ==> !((#[trigger] out@[j]) is SelectCombo),
        decreases picks@.len() - i,
    {
        out.push(Choice::Reroll4(picks[i]));
        i = i + 1;
    }
    proof {
        assert(choice_hands(out@) =~= hands_of(picks@));
    }
    out
}

/// The picks of five dice as choices.
fn rerolls_of_five(picks: &Vec<[Die; 5]>) -> (out: Vec<Choice>)
    ensures
        choice_hands(out@) == hands_of(picks@),
        forall|i: int| 0 <= i < out@.len() ==> !((#[trigger] out@[i]) is SelectCombo),
{
    let mut out: Vec<Choice> = Vec::new();
    let mut i: usize = 0;
    while i < picks.len()
        invariant
            i <= picks@.len(),
            out@.len() == i,
            forall|j: int| 0 <= j < i ==> (#[trigger] out@[j]).hand() == picks@[j]@,
            forall|j: int| 0 <= j < i ==> !((#[trigger] out@[j]) is SelectCombo),
        decreases picks@.len() - i,
    {
        out.push(Choice::Reroll5(picks[i]));
        i = i + 1;
    }
    proof {
        assert(choice_hands(out@) =~= hands_of(picks@));
    }
    out
}

/// Moves the choices of `more` to the end of `out`.
fn append_choices(out: &mut Vec<Choice>, more: Vec<Choice>)
    requires
        forall|i: int| 0 <= i < old(out)@.len() ==> !((#[trigger] old(out)@[i]) is SelectCombo),
        forall|i: int| 0 <= i < more@.len() ==> !((#[trigger] more@[i]) is SelectCombo),
    ensures
        final(out)@ == old(out)@ + more@,
        choice_hands(final(out)@) == choice_hands(old(out)@) + choice_hands(more@),
        forall|i: int| 0 <= i < final(out)@.len() ==> !((#[trigger] final(out)@[i]) is SelectCombo),
{
    let mut i: usize = 0;
    proof {
        assert(out@ =~= old(out)@ + more@.take(0));
    }
    while i < more.len()
        invariant
            i <= more@.len(),
            out@ == old(out)@ + more@.take(i as int),
        decreases more@.len() - i,
    {
        out.push(more[i]);
        i = i + 1;
        proof {
            assert(out@ =~= old(out)@ + more@.take(i as int));
        }
    }
    proof {
        assert(more@.take(i as int) =~= more@);
        assert(choice_hands(out@) =~= choice_hands(old(out)@) + choice_hands(more@));
    }
}

/// Every way to roll one to five of the dice again, as a choice: the picks of one die first,
/// the pick of all five last. Picks of dice that show the same faces come more than once.
pub fn reroll_choices(dice: &Dice) -> (out: Vec<Choice>)
    ensures
        choice_hands(out@) == reroll_candidates(dice@),
        forall|i: int| 0 <= i < out@.len() ==> !((#[trigger] out@[i]) is SelectCombo),
{
    let hand = dice.to_array();
    let mut out = rerolls_of_one(&array_combinations::<1>(&hand));
    append_choices(&mut out, rerolls_of_two(&array_combinations::<2>(&hand)));
    append_choices(&mut out, rerolls_of_three(&array_combinations::<3>(&hand)));
    append_choices(&mut out, rerolls_of_four(&array_combinations::<4>(&hand)));
    append_choices(&mut out, rerolls_of_five(&array_combinations::<5>(&hand)));
    out
}

} // verus!
