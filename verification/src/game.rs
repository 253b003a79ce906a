use crate::combo::{legal_score, points_of, Combo};
use crate::dice::{
    all_valid, contained_in, exchanged, rerolled, same_faces, sorted_dice, Dice, DiceReplaceError,
    Die, NewDiceError,
};
use rand::rngs::ThreadRng;
use vstd::prelude::*;

verus! {

/// 1 where the line is filled, 0 where it is empty.
pub open spec fn filled(line: Option<u8>) -> nat {
    if line is Some {
        1
    } else {
        0
    }
}

/// The points on a line, 0 where it is empty.
pub open spec fn recorded(line: Option<u8>) -> nat {
    match line {
        Some(p) => p as nat,
        None => 0,
    }
}

/// The fifteen lines of a scorecard: each is empty or holds the points that were written down.
#[derive(Clone, Copy, Debug, PartialEq, Eq, Hash)]
pub struct Scorecard {
    pub ones: Option<u8>,
    pub twos: Option<u8>,
    pub threes: Option<u8>,
    pub fours: Option<u8>,
    pub fives: Option<u8>,
    pub sixes: Option<u8>,
    pub one_pair: Option<u8>,
    pub two_pairs: Option<u8>,
    pub three_of_a_kind: Option<u8>,
    pub four_of_a_kind: Option<u8>,
    pub small_straight: Option<u8>,
    pub large_straight: Option<u8>,
    pub full_house: Option<u8>,
    pub chance: Option<u8>,
    pub yatzy: Option<u8>,
}

impl Scorecard {
    /// What the line `c` holds.
    pub open spec fn get(self, c: Combo) -> Option<u8> {
        match c {
            Combo::Ones => self.ones,
            Combo::Twos => self.twos,
            Combo::Threes => self.threes,
            Combo::Fours => self.fours,
            Combo::Fives => self.fives,
            Combo::Sixes => self.sixes,
            Combo::OnePair => self.one_pair,
            Combo::TwoPairs => self.two_pairs,
            Combo::ThreeOfAKind => self.three_of_a_kind,
            Combo::FourOfAKind => self.four_of_a_kind,
            Combo::SmallStraight => self.small_straight,
            Combo::LargeStraight => self.large_straight,
            Combo::FullHouse => self.full_house,
            Combo::Chance => self.chance,
            Combo::Yatzy => self.yatzy,
        }
    }

    /// The card with the line `c` set to `p` and every other line as it is.
    pub open spec fn with(self, c: Combo, p: Option<u8>) -> Scorecard {
        match c {
            Combo::Ones => Scorecard { ones: p, ..self },
            Combo::Twos => Scorecard { twos: p, ..self },
            Combo::Threes => Scorecard { threes: p, ..self },
            Combo::Fours => Scorecard { fours: p, ..self },
            Combo::Fives => Scorecard { fives: p, ..self },
            Combo::Sixes => Scorecard { sixes: p, ..self },
            Combo::OnePair => Scorecard { one_pair: p, ..self },
            Combo::TwoPairs => Scorecard { two_pairs: p, ..self },
            Combo::ThreeOfAKind => Scorecard { three_of_a_kind: p, ..self },
            Combo::FourOfAKind => Scorecard { four_of_a_kind: p, ..self },
            Combo::SmallStraight => Scorecard { small_straight: p, ..self },
            Combo::LargeStraight => Scorecard { large_straight: p, ..self },
            Combo::FullHouse => Scorecard { full_house: p, ..self },
            Combo::Chance => Scorecard { chance: p, ..self },
            Combo::Yatzy => Scorecard { yatzy: p, ..self },
        }
    }

    /// The card with no line filled.
    pub open spec fn blank() -> Scorecard {
        Scorecard {
            ones: None,
            twos: None,
            threes: None,
            fours: None,
            fives: None,
            sixes: None,
            one_pair: None,
            two_pairs: None,
            three_of_a_kind: None,
            four_of_a_kind: None,
            small_straight: None,
            large_straight: None,
            full_house: None,
            chance: None,
            yatzy: None,
        }
    }

    /// How many lines are filled: the number of the round.
    pub open spec fn filled_count(self) -> nat {
        filled(self.ones) + filled(self.twos) + filled(self.threes) + filled(self.fours) + filled(
            self.fives,
        ) + filled(self.sixes) + filled(self.one_pair) + filled(self.two_pairs) + filled(
            self.three_of_a_kind,
        ) + filled(self.four_of_a_kind) + filled(self.small_straight) + filled(
            self.large_straight,
        ) + filled(self.full_house) + filled(self.chance) + filled(self.yatzy)
    }

    /// All fifteen lines are filled: the game is over.
    pub open spec fn full(self) -> bool {
        self.filled_count() == 15
    }

    /// The points on the six number lines together.
    pub open spec fn upper_total(self) -> nat {
        recorded(self.ones) + recorded(self.twos) + recorded(self.threes) + recorded(self.fours)
            + recorded(self.fives) + recorded(self.sixes)
    }

    /// The number lines have earned the bonus: they hold 63 points or more.
    pub open spec fn has_bonus(self) -> bool {
        self.upper_total() >= 63
    }

    /// The bonus in points: 50 where it was earned, else 0.
    pub open spec fn bonus(self) -> nat {
        if self.has_bonus() {
            50
        } else {
            0
        }
    }

    /// The points on the nine lines below the number lines together.
    pub open spec fn lower_total(self) -> nat {
        recorded(self.one_pair) + recorded(self.two_pairs) + recorded(self.three_of_a_kind)
            + recorded(self.four_of_a_kind) + recorded(self.small_straight) + recorded(
            self.large_straight,
        ) + recorded(self.full_house) + recorded(self.chance) + recorded(self.yatzy)
    }

    /// The score of the card: all points written down, and the bonus.
    pub open spec fn total(self) -> nat {
        self.upper_total() + self.bonus() + self.lower_total()
    }

    /// The first line, in the order of the card, that holds points it cannot hold.
    pub open spec fn first_illegal(self) -> Option<Combo> {
        first_illegal_from(self, 0)
    }

    /// Every filled line holds points that it can hold.
    pub open spec fn legal(self) -> bool {
        self.first_illegal() is None
    }

    /// A card with no line filled.
    pub fn new() -> (card: Scorecard)
        ensures
            card == Scorecard::blank(),
    {
        Scorecard {
            ones: None,
            twos: None,
            threes: None,
            fours: None,
            fives: None,
            sixes: None,
            one_pair: None,
            two_pairs: None,
            three_of_a_kind: None,
            four_of_a_kind: None,
            small_straight: None,
            large_straight: None,
            full_house: None,
            chance: None,
            yatzy: None,
        }
    }

    /// What the line `combo` holds.
    pub fn combo(&self, combo: Combo) -> (line: Option<u8>)
        ensures
            line == self.get(combo),
    {
        match combo {
            Combo::Ones => self.ones,
            Combo::Twos => self.twos,
            Combo::Threes => self.threes,
            Combo::Fours => self.fours,
            Combo::Fives => self.fives,
            Combo::Sixes => self.sixes,
            Combo::OnePair => self.one_pair,
            Combo::TwoPairs => self.two_pairs,
            Combo::ThreeOfAKind => self.three_of_a_kind,
            Combo::FourOfAKind => self.four_of_a_kind,
            Combo::SmallStraight => self.small_straight,
            Combo::LargeStraight => self.large_straight,
            Combo::FullHouse => self.full_house,
            Combo::Chance => self.chance,
            Combo::Yatzy => self.yatzy,
        }
    }

    /// Sets the line `combo` to `points`, filled or empty, and leaves the others.
    pub fn set(&mut self, combo: Combo, points: Option<u8>)
        ensures
            *final(self) == old(self).with(combo, points),
    {
        match combo {
            Combo::Ones => self.ones = points,
            Combo::Twos => self.twos = points,
            Combo::Threes => self.threes = points,
            Combo::Fours => self.fours = points,
            Combo::Fives => self.fives = points,
            Combo::Sixes => self.sixes = points,
            Combo::OnePair => self.one_pair = points,
            Combo::TwoPairs => self.two_pairs = points,
            Combo::ThreeOfAKind => self.three_of_a_kind = points,
            Combo::FourOfAKind => self.four_of_a_kind = points,
            Combo::SmallStraight => self.small_straight = points,
            Combo::LargeStraight => self.large_straight = points,
            Combo::FullHouse => self.full_house = points,
            Combo::Chance => self.chance = points,
            Combo::Yatzy => self.yatzy = points,
        }
    }

    /// How many lines are filled.
    pub fn round(&self) -> (n: u8)
        ensures
            n == self.filled_count(),
            n <= 15,
    {
        mark(self.ones) + mark(self.twos) + mark(self.threes) + mark(self.fours) + mark(self.fives)
            + mark(self.sixes) + mark(self.one_pair) + mark(self.two_pairs) + mark(
            self.three_of_a_kind,
        ) + mark(self.four_of_a_kind) + mark(self.small_straight) + mark(self.large_straight)
            + mark(self.full_house) + mark(self.chance) + mark(self.yatzy)
    }

    /// The points on the six number lines together.
    pub fn numbers(&self) -> (n: u16)
        ensures
            n == self.upper_total(),
    {
        let ones: u16 = points_on(self.ones);
        let twos: u16 = points_on(self.twos);
        let threes: u16 = points_on(self.threes);
        let fours: u16 = points_on(self.fours);
        let fives: u16 = points_on(self.fives);
        let sixes: u16 = points_on(self.sixes);
        ones + twos + threes + fours + fives + sixes
    }

    /// The score of the card: all points written down, and the bonus.
    pub fn score(&self) -> (n: u16)
        ensures
            n == self.total(),
    {
        let upper: u16 = self.numbers();
        let bonus: u16 = if upper >= 63 {
            50
        } else {
            0
        };
        let one_pair: u16 = points_on(self.one_pair);
        let two_pairs: u16 = points_on(self.two_pairs);
        let three_of_a_kind: u16 = points_on(self.three_of_a_kind);
        let four_of_a_kind: u16 = points_on(self.four_of_a_kind);
        let small_straight: u16 = points_on(self.small_straight);
        let large_straight: u16 = points_on(self.large_straight);
        let full_house: u16 = points_on(self.full_house);
        let chance: u16 = points_on(self.chance);
        let yatzy: u16 = points_on(self.yatzy);
        upper + bonus + one_pair + two_pairs + three_of_a_kind + four_of_a_kind + small_straight
            + large_straight + full_house + chance + yatzy
    }

    /// The first line, in the order of the card, that holds points it cannot hold.
    pub fn find_illegal(&self) -> (found: Option<Combo>)
        ensures
            found == self.first_illegal(),
    {
        let mut walk = Combo::iter();
        let mut i: usize = 0;
        while i < 15
            invariant
                i <= 15,
                walk.position() == i,
                first_illegal_from(*self, 0) == first_illegal_from(*self, i as int),
            decreases 15 - i,
        {
            let c = walk.next().unwrap();
            match self.combo(c) {
                Some(p) => {
                    if !c.is_legal_score(p) {
                        return Some(c);
                    }
                },
                None => {},
            }
            i = i + 1;
        }
        None
    }
}

/// 1 where the line is filled, 0 where it is empty.
fn mark(line: Option<u8>) -> (n: u8)
    ensures
        n == filled(line),
{
    if line.is_some() {
        1
    } else {
        0
    }
}

/// The first line at place `n` or after it that holds points it cannot hold.
pub open spec fn first_illegal_from(card: Scorecard, n: int) -> Option<Combo>
    decreases 15 - n,
{
    if n >= 15 {
        None
    } else {
        let c = crate::combo::combo_at(n);
        match card.get(c) {
            Some(p) => if !legal_score(c, p as nat) {
                Some(c)
            } else {
                first_illegal_from(card, n + 1)
            },
            None => first_illegal_from(card, n + 1),
        }
    }
}

/// Whether the line `c` of the card is empty or holds points that it can hold.
pub open spec fn line_legal(card: Scorecard, c: Combo) -> bool {
    match card.get(c) {
        Some(p) => legal_score(c, p as nat),
        None => true,
    }
}

/// A card on which every filled line holds points that it can hold is legal.
pub proof fn lemma_legal_card(card: Scorecard)
    requires
        forall|c: Combo| #[trigger] line_legal(card, c),
    ensures
        card.legal(),
{
    lemma_legal_from(card, 0);
}

proof fn lemma_legal_from(card: Scorecard, n: int)
    requires
        0 <= n <= 15,
        forall|c: Combo| #[trigger] line_legal(card, c),
    ensures
        first_illegal_from(card, n) is None,
    decreases 15 - n,
{
    if n < 15 {
        lemma_legal_from(card, n + 1);
        assert(line_legal(card, crate::combo::combo_at(n)));
    }
}

/// The points on a line as a wider number, 0 where the line is empty.
fn points_on(line: Option<u8>) -> (n: u16)
    ensures
        n == recorded(line),
{
    match line {
        Some(p) => p as u16,
        None => 0,
    }
}


/// What a game is made from: the dice as they lie, the rerolls left in the turn, and each line
/// of the card, empty or with its points.
#[derive(Clone, Copy, Debug, PartialEq, Eq, Hash)]
pub struct GameOptions {
    pub dice: [Die; 5],
    pub rerolls_left: u8,
    pub ones: Option<u8>,
    pub twos: Option<u8>,
    pub threes: Option<u8>,
    pub fours: Option<u8>,
    pub fives: Option<u8>,
    pub sixes: Option<u8>,
    pub one_pair: Option<u8>,
    pub two_pairs: Option<u8>,
    pub three_of_a_kind: Option<u8>,
    pub four_of_a_kind: Option<u8>,
    pub small_straight: Option<u8>,
    pub large_straight: Option<u8>,
    pub full_house: Option<u8>,
    pub chance: Option<u8>,
    pub yatzy: Option<u8>,
}

impl GameOptions {
    /// The fifteen lines as a card.
    pub open spec fn card(self) -> Scorecard {
        Scorecard {
            ones: self.ones,
            twos: self.twos,
            threes: self.threes,
            fours: self.fours,
            fives: self.fives,
            sixes: self.sixes,
            one_pair: self.one_pair,
            two_pairs: self.two_pairs,
            three_of_a_kind: self.three_of_a_kind,
            four_of_a_kind: self.four_of_a_kind,
            small_straight: self.small_straight,
            large_straight: self.large_straight,
            full_house: self.full_house,
            chance: self.chance,
            yatzy: self.yatzy,
        }
    }

    /// A game can be made from these: rerolls, lines and dice are all in order.
    pub open spec fn acceptable(self) -> bool {
        &&& self.rerolls_left <= 2
        &&& self.card().legal()
        &&& all_valid(self.dice@)
    }

    /// Why no game can be made from these, where none can: the first fault in the order
    /// rerolls, lines of the card from the top, dice.
    pub open spec fn rejection(self) -> NewGameError {
        if self.rerolls_left > 2 {
            NewGameError::InvalidRerollsLeft
        } else {
            match self.card().first_illegal() {
                Some(c) => NewGameError::InvalidCombo(c),
                None => NewGameError::InvalidDice(NewDiceError::InvalidDieValue),
            }
        }
    }

    /// The fifteen lines as a card.
    pub fn scorecard(&self) -> (card: Scorecard)
        ensures
            card == self.card(),
    {
        Scorecard {
            ones: self.ones,
            twos: self.twos,
            threes: self.threes,
            fours: self.fours,
            fives: self.fives,
            sixes: self.sixes,
            one_pair: self.one_pair,
            two_pairs: self.two_pairs,
            three_of_a_kind: self.three_of_a_kind,
            four_of_a_kind: self.four_of_a_kind,
            small_straight: self.small_straight,
            large_straight: self.large_straight,
            full_house: self.full_house,
            chance: self.chance,
            yatzy: self.yatzy,
        }
    }
}

/// Why a game could not be made.
#[derive(Clone, Copy, Debug, PartialEq, Eq)]
pub enum NewGameError {
    InvalidCombo(Combo),
    InvalidDice(NewDiceError),
    InvalidRerollsLeft,
}

impl NewGameError {
    /// What went wrong, in words.
    pub open spec fn words(self) -> Seq<char> {
        match self {
            NewGameError::InvalidCombo(_) => "invalid value for combo"@,
            NewGameError::InvalidDice(_) => "invalid dice"@,
            NewGameError::InvalidRerollsLeft => "invalid number of rerolls left"@,
        }
    }

    /// What went wrong, in words.
    pub fn message(&self) -> (words: &'static str)
        ensures
            words@ == self.words(),
    {
        match self {
            NewGameError::InvalidCombo(_) => "invalid value for combo",
            NewGameError::InvalidDice(_) => "invalid dice",
            NewGameError::InvalidRerollsLeft => "invalid number of rerolls left",
        }
    }
}

/// Why dice could not be rolled again.
#[derive(Clone, Copy, Debug, PartialEq, Eq)]
pub enum RerollError {
    GameEnded,
    InvalidDice,
    NoRerollsLeft,
}

impl RerollError {
    /// What went wrong, in words.
    pub open spec fn words(self) -> Seq<char> {
        match self {
            RerollError::GameEnded => "game ended"@,
            RerollError::InvalidDice => "selected dice are not in hand"@,
            RerollError::NoRerollsLeft => "no rerolls left"@,
        }
    }

    /// What went wrong, in words.
    pub fn message(&self) -> (words: &'static str)
        ensures
            words@ == self.words(),
    {
        match self {
            RerollError::GameEnded => "game ended",
            RerollError::InvalidDice => "selected dice are not in hand",
            RerollError::NoRerollsLeft => "no rerolls left",
        }
    }
}

/// Why a line could not be filled.
#[derive(Clone, Copy, Debug, PartialEq, Eq)]
pub enum SelectComboError {
    ComboAlreadyFilled,
    GameEnded,
}

impl SelectComboError {
    /// What went wrong, in words.
    pub open spec fn words(self) -> Seq<char> {
        match self {
            SelectComboError::ComboAlreadyFilled => "combo already filled"@,
            SelectComboError::GameEnded => "game ended"@,
        }
    }

    /// What went wrong, in words.
    pub fn message(&self) -> (words: &'static str)
        ensures
            words@ == self.words(),
    {
        match self {
            SelectComboError::ComboAlreadyFilled => "combo already filled",
            SelectComboError::GameEnded => "game ended",
        }
    }
}

/// What a position is: the dice, the rerolls left in the turn, and the card.
pub struct GameView {
    pub dice: Seq<Die>,
    pub rerolls_left: u8,
    pub card: Scorecard,
}

impl GameView {
    /// The dice are a canonical hand and at most two rerolls are left.
    pub open spec fn wf(self) -> bool {
        sorted_dice(self.dice) && self.rerolls_left <= 2
    }

    /// The position once the line `c` is filled with what the dice are worth on it. The dice
    /// and the rerolls are those of the next turn, where there is one.
    pub open spec fn selected(self, c: Combo, next: Seq<Die>) -> GameView {
        let card = self.card.with(c, Some(points_of(c, self.dice) as u8));
        if card.full() {
            GameView { dice: self.dice, rerolls_left: 0, card }
        } else {
            GameView { dice: next, rerolls_left: 2, card }
        }
    }
}

/// A position of the game: the dice on the table, the rerolls left in this turn, and the
/// scorecard.
#[derive(Clone, Copy, Debug, PartialEq, Eq, Hash)]
pub struct Game {
    dice: Dice,
    rerolls_left: u8,
    card: Scorecard,
}

impl View for Game {
    type V = GameView;

    closed spec fn view(&self) -> GameView {
        GameView { dice: self.dice@, rerolls_left: self.rerolls_left, card: self.card }
    }
}

impl Game {
    /// What the line `combo` holds.
    pub fn combo(&self, combo: Combo) -> (line: Option<u8>)
        ensures
            line == self@.card.get(combo),
    {
        self.card.combo(combo)
    }

    /// The scorecard.
    pub fn card(&self) -> (card: Scorecard)
        ensures
            card == self@.card,
    {
        self.card
    }

    /// The dice on the table.
    pub fn dice(&self) -> (dice: Dice)
        ensures
            dice@ == self@.dice,
    {
        self.dice
    }

    /// Whether all fifteen lines are filled.
    pub fn ended(&self) -> (over: bool)
        ensures
            over == self@.card.full(),
    {
        self.round() == 15
    }

    /// Whether the number lines hold 63 points or more.
    pub fn has_bonus(&self) -> (yes: bool)
        ensures
            yes == self@.card.has_bonus(),
    {
        self.card.numbers() >= 63
    }

    /// A game made from `options`, with the dice sorted. Refused where the rerolls are more
    /// than two, a line holds points it cannot hold, or a die shows no face.
    pub fn new(options: GameOptions) -> (r: Result<Game, NewGameError>)
        ensures
            r is Ok <==> options.acceptable(),
            r matches Ok(g) ==> {
                &&& g@.wf()
                &&& g@.rerolls_left == options.rerolls_left
                &&& g@.card == options.card()
                &&& same_faces(g@.dice, options.dice@)
            },
            r matches Err(e) ==> e == options.rejection(),
    {
        if options.rerolls_left > 2 {
            return Err(NewGameError::InvalidRerollsLeft);
        }
        let card = options.scorecard();
        match card.find_illegal() {
            Some(c) => {
                return Err(NewGameError::InvalidCombo(c));
            },
            None => {},
        }
        match Dice::new(options.dice) {
            Ok(dice) => Ok(Game { dice, rerolls_left: options.rerolls_left, card }),
            Err(e) => Err(NewGameError::InvalidDice(e)),
        }
    }

    /// A fresh game: five rolled dice, two rerolls, an empty card.
    pub fn new_random(rng: &mut ThreadRng) -> (g: Game)
        ensures
            g@.wf(),
            g@.rerolls_left == 2,
            g@.card == Scorecard::blank(),
    {
        Game { dice: Dice::new_random(rng), rerolls_left: 2, card: Scorecard::new() }
    }

    /// A game of exactly these parts: nothing is checked.
    pub fn new_raw(
        dice: Dice,
        rerolls_left: u8,
        ones: Option<u8>,
        twos: Option<u8>,
        threes: Option<u8>,
        fours: Option<u8>,
        fives: Option<u8>,
        sixes: Option<u8>,
        one_pair: Option<u8>,
        two_pairs: Option<u8>,
        three_of_a_kind: Option<u8>,
        four_of_a_kind: Option<u8>,
        small_straight: Option<u8>,
        large_straight: Option<u8>,
        full_house: Option<u8>,
        chance: Option<u8>,
        yatzy: Option<u8>,
    ) -> (g: Game)
        ensures
            g@.dice == dice@,
            g@.rerolls_left == rerolls_left,
            g@.card.ones == ones,
            g@.card.twos == twos,
            g@.card.threes == threes,
            g@.card.fours == fours,
            g@.card.fives == fives,
            g@.card.sixes == sixes,
            g@.card.one_pair == one_pair,
            g@.card.two_pairs == two_pairs,
            g@.card.three_of_a_kind == three_of_a_kind,
            g@.card.four_of_a_kind == four_of_a_kind,
            g@.card.small_straight == small_straight,
            g@.card.large_straight == large_straight,
            g@.card.full_house == full_house,
            g@.card.chance == chance,
            g@.card.yatzy == yatzy,
    {
        Game {
            dice,
            rerolls_left,
            card: Scorecard {
                ones,
                twos,
                threes,
                fours,
                fives,
                sixes,
                one_pair,
                two_pairs,
                three_of_a_kind,
                four_of_a_kind,
                small_straight,
                large_straight,
                full_house,
                chance,
                yatzy,
            },
        }
    }

    /// A game of this hand, these rerolls and this card: nothing is checked.
    pub fn from_parts(dice: Dice, rerolls_left: u8, card: Scorecard) -> (g: Game)
        ensures
            g@.dice == dice@,
            g@.rerolls_left == rerolls_left,
            g@.card == card,
    {
        Game { dice, rerolls_left, card }
    }

    /// Takes the dice of `removed` off the table and puts those of `added` in their place.
    /// Fails, and changes nothing, where the table does not hold the dice of `removed`.
    pub fn replace_dice(&mut self, removed: &[Die], added: &[Die]) -> (r: Result<
        (),
        DiceReplaceError,
    >)
        requires
            removed@.len() == added@.len(),
        ensures
            r is Ok <==> contained_in(removed@, old(self)@.dice),
            r is Ok && all_valid(old(self)@.dice) && all_valid(added@) ==> final(self)@.dice
                == rerolled(old(self)@.dice, removed@, added@),
            r is Ok ==> crate::dice::ascending(final(self)@.dice) && exchanged(
                old(self)@.dice,
                removed@,
                added@,
                final(self)@.dice,
            ),
            r is Ok && all_valid(old(self)@.dice) && all_valid(added@) ==> sorted_dice(
                final(self)@.dice,
            ),
            r is Err ==> final(self)@ == old(self)@,
            final(self)@.rerolls_left == old(self)@.rerolls_left,
            final(self)@.card == old(self)@.card,
    {
        self.dice.replace(removed, added)
    }

    /// Spends one reroll on the dice of `dice`, which come back as `rolled`. Refused, with
    /// nothing changed, where the game is over, no reroll is left, or the table does not hold
    /// the dice named: in that order.
    pub fn reroll_to(&mut self, dice: &[Die], rolled: &[Die]) -> (r: Result<(), RerollError>)
        requires
            dice@.len() == rolled@.len(),
        ensures
            r == Err::<(), RerollError>(RerollError::GameEnded) <==> old(self)@.card.full(),
            r == Err::<(), RerollError>(RerollError::NoRerollsLeft) <==> !old(self)@.card.full()
                && old(self)@.rerolls_left == 0,
            r == Err::<(), RerollError>(RerollError::InvalidDice) <==> !old(self)@.card.full()
                && old(self)@.rerolls_left != 0 && !contained_in(dice@, old(self)@.dice),
            r is Err ==> final(self)@ == old(self)@,
            r is Ok ==> {
                &&& exchanged(old(self)@.dice, dice@, rolled@, final(self)@.dice)
                &&& crate::dice::ascending(final(self)@.dice)
                &&& final(self)@.rerolls_left == old(self)@.rerolls_left - 1
                &&& final(self)@.card == old(self)@.card
            },
            r is Ok && all_valid(old(self)@.dice) && all_valid(rolled@) ==> final(self)@.dice
                == rerolled(old(self)@.dice, dice@, rolled@),
            r is Ok && old(self)@.wf() && all_valid(rolled@) ==> final(self)@.wf(),
    {
        if self.ended() {
            return Err(RerollError::GameEnded);
        }
        if self.rerolls_left == 0 {
            return Err(RerollError::NoRerollsLeft);
        }
        match self.dice.replace(dice, rolled) {
            Ok(()) => {},
            Err(DiceReplaceError::InvalidDice) => {
                return Err(RerollError::InvalidDice);
            },
        }
        self.rerolls_left = self.rerolls_left - 1;
        Ok(())
    }

    /// Spends one reroll on the dice of `dice`. Refused, with nothing changed and the
    /// generator untouched, where the game is over, no reroll is left, or the table does not
    /// hold the dice named: in that order.
    pub fn reroll(&mut self, dice: &[Die], rng: &mut ThreadRng) -> (r: Result<(), RerollError>)
        ensures
            r == Err::<(), RerollError>(RerollError::GameEnded) <==> old(self)@.card.full(),
            r == Err::<(), RerollError>(RerollError::NoRerollsLeft) <==> !old(self)@.card.full()
                && old(self)@.rerolls_left == 0,
            r == Err::<(), RerollError>(RerollError::InvalidDice) <==> !old(self)@.card.full()
                && old(self)@.rerolls_left != 0 && !contained_in(dice@, old(self)@.dice),
            r is Err ==> final(self)@ == old(self)@,
            r is Ok ==> {
                &&& final(self)@.rerolls_left == old(self)@.rerolls_left - 1
                &&& final(self)@.card == old(self)@.card
                &&& exists|rolled: Seq<Die>|
                    {
                        &&& rolled.len() == dice@.len()
                        &&& all_valid(rolled)
                        &&& #[trigger] exchanged(old(self)@.dice, dice@, rolled, final(self)@.dice)
                    }
            },
            r is Ok && old(self)@.wf() ==> final(self)@.wf(),
    {
        if self.ended() {
            return Err(RerollError::GameEnded);
        }
        if self.rerolls_left == 0 {
            return Err(RerollError::NoRerollsLeft);
        }
        let ghost before = self.dice@;
        match self.dice.reroll(dice, rng) {
            Ok(()) => {},
            Err(DiceReplaceError::InvalidDice) => {
                return Err(RerollError::InvalidDice);
            },
        }
        self.rerolls_left = self.rerolls_left - 1;
        proof {
            let rolled = choose|rolled: Seq<Die>|
                {
                    &&& rolled.len() == dice@.len()
                    &&& all_valid(rolled)
                    &&& #[trigger] exchanged(before, dice@, rolled, self.dice@)
                };
            assert(exchanged(old(self)@.dice, dice@, rolled, self@.dice));
        }
        Ok(())
    }

    /// How many rerolls are left in this turn.
    pub fn rerolls_left(&self) -> (n: u8)
        ensures
            n == self@.rerolls_left,
    {
        self.rerolls_left
    }

    /// How many lines are filled.
    pub fn round(&self) -> (n: u8)
        ensures
            n == self@.card.filled_count(),
            n <= 15,
    {
        self.card.round()
    }

    /// The score so far: all points written down, and the bonus where it was earned.
    pub fn score(&self) -> (n: u16)
        ensures
            n == self@.card.total(),
    {
        self.card.score()
    }

    /// Fills the line `combo` with what the dice are worth on it. Where the game goes on,
    /// the next turn starts with the dice `next` and two rerolls; where this was the last
    /// line, the dice stay and no reroll is left. Refused, with nothing changed, where the
    /// game is over or the line is filled already: in that order.
    pub fn select_combo_to(&mut self, combo: Combo, next: Dice) -> (r: Result<
        (),
        SelectComboError,
    >)
        requires
            sorted_dice(old(self)@.dice),
        ensures
            r == Err::<(), SelectComboError>(SelectComboError::GameEnded) <==> old(
                self,
            )@.card.full(),
            r == Err::<(), SelectComboError>(SelectComboError::ComboAlreadyFilled) <==> !old(
                self,
            )@.card.full() && old(self)@.card.get(combo) is Some,
            r is Err ==> final(self)@ == old(self)@,
            r is Ok ==> final(self)@ == old(self)@.selected(combo, next@),
    {
        if self.ended() {
            return Err(SelectComboError::GameEnded);
        }
        if self.card.combo(combo).is_some() {
            return Err(SelectComboError::ComboAlreadyFilled);
        }
        let points = combo.points(self.dice);
        self.card.set(combo, Some(points));
        if self.ended() {
            self.rerolls_left = 0;
        } else {
            self.dice = next;
            self.rerolls_left = 2;
        }
        Ok(())
    }

    /// Fills the line `combo` with what the dice are worth on it. Where the game goes on,
    /// all five dice are rolled for the next turn, which has two rerolls; where this was the
    /// last line, the dice stay and no reroll is left. Refused, with nothing changed and the
    /// generator untouched, where the game is over or the line is filled already: in that
    /// order.
    pub fn select_combo(&mut self, combo: Combo, rng: &mut ThreadRng) -> (r: Result<
        (),
        SelectComboError,
    >)
        requires
            sorted_dice(old(self)@.dice),
        ensures
            r == Err::<(), SelectComboError>(SelectComboError::GameEnded) <==> old(
                self,
            )@.card.full(),
            r == Err::<(), SelectComboError>(SelectComboError::ComboAlreadyFilled) <==> !old(
                self,
            )@.card.full() && old(self)@.card.get(combo) is Some,
            r is Err ==> final(self)@ == old(self)@,
            r is Ok ==> exists|next: Seq<Die>|
                sorted_dice(next) && final(self)@ == #[trigger] old(self)@.selected(combo, next),
    {
        if self.ended() {
            return Err(SelectComboError::GameEnded);
        }
        if self.card.combo(combo).is_some() {
            return Err(SelectComboError::ComboAlreadyFilled);
        }
        let last = self.round() == 14;
        let next = if last {
            self.dice
        } else {
            Dice::new_random(rng)
        };
        self.select_combo_to(combo, next)
    }

    /// Sets the line `combo` to `points`, filled or empty. Nothing is checked.
    pub fn set_combo_raw(&mut self, combo: Combo, points: Option<u8>)
        ensures
            final(self)@.card == old(self)@.card.with(combo, points),
            final(self)@.dice == old(self)@.dice,
            final(self)@.rerolls_left == old(self)@.rerolls_left,
    {
        self.card.set(combo, points);
    }

    /// Sets the rerolls left in this turn.
    pub fn set_rerolls(&mut self, rerolls_left: u8)
        requires
            rerolls_left <= 2,
        ensures
            final(self)@.rerolls_left == rerolls_left,
            final(self)@.dice == old(self)@.dice,
            final(self)@.card == old(self)@.card,
    {
        self.rerolls_left = rerolls_left;
    }
}

} // verus!
