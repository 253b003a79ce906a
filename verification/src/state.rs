use crate::dice::Dice;
use crate::game::{filled, Game, Scorecard};
use vstd::prelude::*;

verus! {

/// Whether a line of the card is still open.
#[derive(Clone, Copy, Debug, PartialEq, Eq, Hash, Structural)]
pub enum FieldState {
    Empty,
    Filled,
}

/// What the rest of a game depends on: which lines are filled, and how far the number lines
/// have come towards the bonus.
///
/// `numbers_total` is the sum on the number lines, capped at 63, and 0 where the bonus is out
/// of reach even with five of a kind on every number line that is still empty.
#[derive(Clone, Copy, Debug, PartialEq, Eq, Hash)]
pub struct GameState {
    pub numbers_total: u8,
    pub ones: FieldState,
    pub twos: FieldState,
    pub threes: FieldState,
    pub fours: FieldState,
    pub fives: FieldState,
    pub sixes: FieldState,
    pub one_pair: FieldState,
    pub two_pairs: FieldState,
    pub three_of_a_kind: FieldState,
    pub four_of_a_kind: FieldState,
    pub small_straight: FieldState,
    pub large_straight: FieldState,
    pub full_house: FieldState,
    pub chance: FieldState,
    pub yatzy: FieldState,
}

/// `Filled` for a line with points, `Empty` for one without.
pub open spec fn flag(line: Option<u8>) -> FieldState {
    if line is Some {
        FieldState::Filled
    } else {
        FieldState::Empty
    }
}

/// 1 for an empty line, 0 for a filled one.
pub open spec fn open_line(f: FieldState) -> nat {
    if f is Empty {
        1
    } else {
        0
    }
}

/// The most that a number line can still bring: five dice of `face` where it is empty, nothing
/// where it is filled.
pub open spec fn reach(f: FieldState, face: nat) -> nat {
    if f is Empty {
        5 * face
    } else {
        0
    }
}

/// The most that the empty number lines of `card` can still bring.
pub open spec fn remaining(card: Scorecard) -> nat {
    reach(flag(card.ones), 1) + reach(flag(card.twos), 2) + reach(flag(card.threes), 3) + reach(
        flag(card.fours),
        4,
    ) + reach(flag(card.fives), 5) + reach(flag(card.sixes), 6)
}

/// The sum on the number lines as the state keeps it: capped at 63, and 0 where even
/// `remaining` more points would not reach 63.
pub open spec fn kept_total(total: nat, remaining: nat) -> nat {
    let capped = if total > 63 {
        63
    } else {
        total
    };
    if capped + remaining < 63 {
        0
    } else {
        capped
    }
}

/// The state of a card.
pub open spec fn state_of(card: Scorecard) -> GameState {
    GameState {
        numbers_total: kept_total(card.upper_total(), remaining(card)) as u8,
        ones: flag(card.ones),
        twos: flag(card.twos),
        threes: flag(card.threes),
        fours: flag(card.fours),
        fives: flag(card.fives),
        sixes: flag(card.sixes),
        one_pair: flag(card.one_pair),
        two_pairs: flag(card.two_pairs),
        three_of_a_kind: flag(card.three_of_a_kind),
        four_of_a_kind: flag(card.four_of_a_kind),
        small_straight: flag(card.small_straight),
        large_straight: flag(card.large_straight),
        full_house: flag(card.full_house),
        chance: flag(card.chance),
        yatzy: flag(card.yatzy),
    }
}

/// A filled line with 0 points, or an empty one.
pub open spec fn scratched(f: FieldState) -> Option<u8> {
    if f is Filled {
        Some(0u8)
    } else {
        None
    }
}

/// The line that stands for a number line of a state: empty where the state has it empty;
/// filled with the whole `total` where it is the first filled number line, which `earlier`
/// says it is not; filled with 0 otherwise.
pub open spec fn number_line(f: FieldState, earlier: bool, total: u8) -> Option<u8> {
    if f is Empty {
        None
    } else if earlier {
        Some(0u8)
    } else {
        Some(total)
    }
}

/// One card with the state `s`: the first filled number line holds all of `numbers_total`,
/// every other filled line holds 0.
pub open spec fn card_of(s: GameState) -> Scorecard {
    let f1 = s.ones == FieldState::Filled;
    let f2 = f1 || s.twos == FieldState::Filled;
    let f3 = f2 || s.threes == FieldState::Filled;
    let f4 = f3 || s.fours == FieldState::Filled;
    let f5 = f4 || s.fives == FieldState::Filled;
    Scorecard {
        ones: number_line(s.ones, false, s.numbers_total),
        twos: number_line(s.twos, f1, s.numbers_total),
        threes: number_line(s.threes, f2, s.numbers_total),
        fours: number_line(s.fours, f3, s.numbers_total),
        fives: number_line(s.fives, f4, s.numbers_total),
        sixes: number_line(s.sixes, f5, s.numbers_total),
        one_pair: scratched(s.one_pair),
        two_pairs: scratched(s.two_pairs),
        three_of_a_kind: scratched(s.three_of_a_kind),
        four_of_a_kind: scratched(s.four_of_a_kind),
        small_straight: scratched(s.small_straight),
        large_straight: scratched(s.large_straight),
        full_house: scratched(s.full_house),
        chance: scratched(s.chance),
        yatzy: scratched(s.yatzy),
    }
}

/// The bit of a line in the key of a state: 1 where it is filled.
pub open spec fn bit(f: FieldState) -> nat {
    if f is Filled {
        1
    } else {
        0
    }
}

/// How many of the flags before place `n` are `Empty`.
pub open spec fn open_before(s: GameState, n: int) -> nat
    decreases n,
{
    if n <= 0 {
        0
    } else {
        open_before(s, n - 1) + open_line(s.flag_at(n - 1))
    }
}

/// The flags from place `k` on, read as a binary number with the flag at `k` lowest.
pub open spec fn bits_from(s: GameState, k: int) -> nat
    decreases 15 - k,
{
    if k >= 15 {
        0
    } else {
        bit(s.flag_at(k)) + 2 * bits_from(s, k + 1)
    }
}

impl GameState {
    /// How many lines are empty.
    pub open spec fn empty_count(self) -> nat {
        open_line(self.ones) + open_line(self.twos) + open_line(self.threes) + open_line(
            self.fours,
        ) + open_line(self.fives) + open_line(self.sixes) + open_line(self.one_pair) + open_line(
            self.two_pairs,
        ) + open_line(self.three_of_a_kind) + open_line(self.four_of_a_kind) + open_line(
            self.small_straight,
        ) + open_line(self.large_straight) + open_line(self.full_house) + open_line(self.chance)
            + open_line(self.yatzy)
    }

    /// Some number line is filled.
    pub open spec fn any_number_filled(self) -> bool {
        self.ones == FieldState::Filled || self.twos == FieldState::Filled || self.threes
            == FieldState::Filled || self.fours == FieldState::Filled || self.fives
            == FieldState::Filled || self.sixes == FieldState::Filled
    }

    /// The most that the empty number lines can still bring.
    pub open spec fn remaining(self) -> nat {
        reach(self.ones, 1) + reach(self.twos, 2) + reach(self.threes, 3) + reach(self.fours, 4)
            + reach(self.fives, 5) + reach(self.sixes, 6)
    }

    /// The state is one that a card can have: `numbers_total` is 0, or some number line is
    /// filled, the total is at most 63 and the bonus is still in reach.
    pub open spec fn canonical(self) -> bool {
        self.numbers_total == 0 || (self.any_number_filled() && self.numbers_total <= 63
            && self.numbers_total + self.remaining() >= 63)
    }

    /// The flag of the line at place `i` of the card, counted from 0. Places past the end
    /// give the last.
    pub open spec fn flag_at(self, i: int) -> FieldState {
        if i <= 0 {
            self.ones
        } else if i == 1 {
            self.twos
        } else if i == 2 {
            self.threes
        } else if i == 3 {
            self.fours
        } else if i == 4 {
            self.fives
        } else if i == 5 {
            self.sixes
        } else if i == 6 {
            self.one_pair
        } else if i == 7 {
            self.two_pairs
        } else if i == 8 {
            self.three_of_a_kind
        } else if i == 9 {
            self.four_of_a_kind
        } else if i == 10 {
            self.small_straight
        } else if i == 11 {
            self.large_straight
        } else if i == 12 {
            self.full_house
        } else if i == 13 {
            self.chance
        } else {
            self.yatzy
        }
    }

    /// The state as one number: `numbers_total` in the low eight bits, then one bit for each
    /// line from `ones` up, set where the line is filled.
    pub open spec fn code(self) -> nat {
        self.numbers_total as nat + 256 * bits_from(self, 0)
    }

    /// The state of the card before the first turn.
    pub fn initial() -> (s: GameState)
        ensures
            s == state_of(Scorecard::blank()),
            s.empty_count() == 15,
    {
        GameState {
            numbers_total: 0,
            ones: FieldState::Empty,
            twos: FieldState::Empty,
            threes: FieldState::Empty,
            fours: FieldState::Empty,
            fives: FieldState::Empty,
            sixes: FieldState::Empty,
            one_pair: FieldState::Empty,
            two_pairs: FieldState::Empty,
            three_of_a_kind: FieldState::Empty,
            four_of_a_kind: FieldState::Empty,
            small_straight: FieldState::Empty,
            large_straight: FieldState::Empty,
            full_house: FieldState::Empty,
            chance: FieldState::Empty,
            yatzy: FieldState::Empty,
        }
    }

    /// The flag of the line at place `i` of the card, counted from 0.
    pub fn field(&self, i: usize) -> (f: FieldState)
        requires
            i < 15,
        ensures
            f == self.flag_at(i as int),
    {
        if i == 0 {
            self.ones
        } else if i == 1 {
            self.twos
        } else if i == 2 {
            self.threes
        } else if i == 3 {
            self.fours
        } else if i == 4 {
            self.fives
        } else if i == 5 {
            self.sixes
        } else if i == 6 {
            self.one_pair
        } else if i == 7 {
            self.two_pairs
        } else if i == 8 {
            self.three_of_a_kind
        } else if i == 9 {
            self.four_of_a_kind
        } else if i == 10 {
            self.small_straight
        } else if i == 11 {
            self.large_straight
        } else if i == 12 {
            self.full_house
        } else if i == 13 {
            self.chance
        } else {
            self.yatzy
        }
    }

    /// How many lines are empty.
    pub fn empty_fields(&self) -> (n: u8)
        ensures
            n == self.empty_count(),
            n <= 15,
    {
        let mut n: u8 = 0;
        let mut i: usize = 0;
        while i < 15
            invariant
                i <= 15,
                n <= i,
                n == open_before(*self, i as int),
            decreases 15 - i,
        {
            n = n + is_open(self.field(i));
            i = i + 1;
        }
        proof {
            lemma_open_all(*self);
        }
        n
    }

    /// The state as one number. Two states have the same key only where they are the same.
    pub fn key(&self) -> (k: u32)
        ensures
            k == self.code(),
    {
        let mut bits: u32 = 0;
        let mut i: usize = 15;
        proof {
            vstd::arithmetic::power2::lemma2_to64();
        }
        while i > 0
            invariant
                i <= 15,
                bits == bits_from(*self, i as int),
                bits < vstd::arithmetic::power2::pow2((15 - i) as nat),
            decreases i,
        {
            proof {
                vstd::arithmetic::power2::lemma2_to64();
                vstd::arithmetic::power2::lemma_pow2_unfold((15 - i + 1) as nat);
                vstd::arithmetic::power2::lemma_pow2_strictly_increases((15 - i + 1) as nat, 16);
            }
            i = i - 1;
            bits = weigh(self.field(i)) + 2 * bits;
        }
        proof {
            vstd::arithmetic::power2::lemma2_to64();
        }
        self.numbers_total as u32 + 256 * bits
    }

    /// The state with that key, or `None` where no state has it: the key is 2 to the 23 or
    /// more.
    pub fn from_key(key: u32) -> (r: Option<GameState>)
        ensures
            r is Some <==> key < 8388608,
            r matches Some(s) ==> s.code() == key,
    {
        if key >= 8388608 {
            return None;
        }
        let mut flags: Vec<FieldState> = Vec::new();
        let mut q: u32 = key / 256;
        let ghost mut halves: Seq<int> = seq![q as int];
        let mut i: usize = 0;
        proof {
            vstd::arithmetic::power2::lemma2_to64();
        }
        while i < 15
            invariant
                i <= 15,
                flags@.len() == i,
                halves.len() == i + 1,
                halves[0] == key / 256,
                halves[i as int] == q,
                q < vstd::arithmetic::power2::pow2((15 - i) as nat),
                forall|j: int| 0 <= j < i ==> #[trigger] halves[j + 1] == halves[j] / 2,
                forall|j: int| 0 <= j < i ==> bit(#[trigger] flags@[j]) == halves[j] % 2,
                forall|j: int| 0 <= j <= i ==> #[trigger] halves[j] >= 0,
            decreases 15 - i,
        {
            let ghost old_halves = halves;
            let ghost old_flags = flags@;
            flags.push(flag_from(q % 2));
            proof {
                vstd::arithmetic::power2::lemma_pow2_unfold((15 - i) as nat);
                halves = halves.push((q / 2) as int);
                assert forall|j: int| 0 <= j < i + 1 implies bit(#[trigger] flags@[j]) == halves[j]
                    % 2 by {
                    if j < i {
                        assert(flags@[j] == old_flags[j]);
                        assert(halves[j] == old_halves[j]);
                    }
                }
                assert forall|j: int| 0 <= j < i + 1 implies #[trigger] halves[j + 1] == halves[j]
                    / 2 by {
                    if j < i {
                        assert(halves[j + 1] == old_halves[j + 1]);
                        assert(halves[j] == old_halves[j]);
                    }
                }
            }
            q = q / 2;
            i = i + 1;
        }
        let s = GameState {
            numbers_total: (key % 256) as u8,
            ones: flags[0],
            twos: flags[1],
            threes: flags[2],
            fours: flags[3],
            fives: flags[4],
            sixes: flags[5],
            one_pair: flags[6],
            two_pairs: flags[7],
            three_of_a_kind: flags[8],
            four_of_a_kind: flags[9],
            small_straight: flags[10],
            large_straight: flags[11],
            full_house: flags[12],
            chance: flags[13],
            yatzy: flags[14],
        };
        proof {
            vstd::arithmetic::power2::lemma2_to64();
            lemma_flags_of(s, flags@);
            lemma_bits_of_halves(s, halves, 0);
        }
        Some(s)
    }

    /// The most that the empty number lines can still bring.
    pub fn remaining_points(&self) -> (n: u8)
        ensures
            n == self.remaining(),
            n <= 105,
    {
        5 * is_open(self.ones) + 10 * is_open(self.twos) + 15 * is_open(self.threes) + 20
            * is_open(self.fours) + 25 * is_open(self.fives) + 30 * is_open(self.sixes)
    }

    /// Whether the state is one that a card can have.
    pub fn is_canonical(&self) -> (yes: bool)
        ensures
            yes == self.canonical(),
    {
        if self.numbers_total == 0 {
            return true;
        }
        let any = is_open(self.ones) + is_open(self.twos) + is_open(self.threes) + is_open(
            self.fours,
        ) + is_open(self.fives) + is_open(self.sixes) < 6;
        let left: u8 = 5 * is_open(self.ones) + 10 * is_open(self.twos) + 15 * is_open(
            self.threes,
        ) + 20 * is_open(self.fours) + 25 * is_open(self.fives) + 30 * is_open(self.sixes);
        any && self.numbers_total <= 63 && self.numbers_total + left >= 63
    }
}

/// 1 for an empty line, 0 for a filled one.
fn is_open(f: FieldState) -> (n: u8)
    ensures
        n == open_line(f),
        n <= 1,
{
    match f {
        FieldState::Empty => 1,
        FieldState::Filled => 0,
    }
}

/// 1 for a filled line, 0 for an empty one.
fn weigh(f: FieldState) -> (n: u32)
    ensures
        n == bit(f),
        n <= 1,
{
    match f {
        FieldState::Empty => 0,
        FieldState::Filled => 1,
    }
}

/// A state made of fifteen flags has each of them at its place.
proof fn lemma_flags_of(s: GameState, flags: Seq<FieldState>)
    requires
        flags.len() == 15,
        s.ones == flags[0],
        s.twos == flags[1],
        s.threes == flags[2],
        s.fours == flags[3],
        s.fives == flags[4],
        s.sixes == flags[5],
        s.one_pair == flags[6],
        s.two_pairs == flags[7],
        s.three_of_a_kind == flags[8],
        s.four_of_a_kind == flags[9],
        s.small_straight == flags[10],
        s.large_straight == flags[11],
        s.full_house == flags[12],
        s.chance == flags[13],
        s.yatzy == flags[14],
    ensures
        forall|j: int| 0 <= j < 15 ==> #[trigger] s.flag_at(j) == flags[j],
{
}

/// A state whose flags are the bits of a number, lowest first, reads as that number.
proof fn lemma_bits_of_halves(s: GameState, halves: Seq<int>, k: int)
    requires
        0 <= k <= 15,
        halves.len() == 16,
        halves[15] == 0,
        forall|j: int| 0 <= j < 15 ==> #[trigger] halves[j + 1] == halves[j] / 2,
        forall|j: int| 0 <= j < 15 ==> bit(#[trigger] s.flag_at(j)) == halves[j] % 2,
        forall|j: int| 0 <= j < 16 ==> #[trigger] halves[j] >= 0,
    ensures
        bits_from(s, k) == halves[k],
    decreases 15 - k,
{
    if k < 15 {
        lemma_bits_of_halves(s, halves, k + 1);
        assert(halves[k + 1] == halves[k] / 2);
        assert(bit(s.flag_at(k)) == halves[k] % 2);
    }
}

/// `Filled` for the bit 1, `Empty` for the bit 0.
fn flag_from(b: u32) -> (f: FieldState)
    requires
        b <= 1,
    ensures
        bit(f) == b,
{
    if b == 1 {
        FieldState::Filled
    } else {
        FieldState::Empty
    }
}

/// `Filled` for a line with points, `Empty` for one without.
fn flag_of(line: Option<u8>) -> (f: FieldState)
    ensures
        f == flag(line),
{
    match line {
        None => FieldState::Empty,
        Some(_) => FieldState::Filled,
    }
}

/// The most that a number line can still bring.
fn reach_of(line: Option<u8>, top: u16) -> (n: u16)
    ensures
        n == if line is None {
            top
        } else {
            0
        },
{
    match line {
        None => top,
        Some(_) => 0,
    }
}

proof fn lemma_bits_bound(f: GameState, k: int)
    requires
        0 <= k <= 15,
    ensures
        bits_from(f, k) < vstd::arithmetic::power2::pow2((15 - k) as nat),
    decreases 15 - k,
{
    vstd::arithmetic::power2::lemma2_to64();
    if k < 15 {
        lemma_bits_bound(f, k + 1);
        vstd::arithmetic::power2::lemma_pow2_unfold((15 - k) as nat);
    }
}

proof fn lemma_open_all(s: GameState)
    ensures
        open_before(s, 15) == s.empty_count(),
{
    reveal_with_fuel(open_before, 16);
}

proof fn lemma_peel(b1: nat, r1: nat, b2: nat, r2: nat)
    requires
        b1 <= 1,
        b2 <= 1,
        b1 + 2 * r1 == b2 + 2 * r2,
    ensures
        b1 == b2,
        r1 == r2,
{
}

proof fn lemma_bits_injective(f: GameState, g: GameState, k: int)
    requires
        0 <= k <= 15,
        bits_from(f, k) == bits_from(g, k),
    ensures
        forall|i: int| k <= i < 15 ==> #[trigger] f.flag_at(i) == g.flag_at(i),
    decreases 15 - k,
{
    if k < 15 {
        let fk = f.flag_at(k);
        let gk = g.flag_at(k);
        lemma_peel(bit(fk), bits_from(f, k + 1), bit(gk), bits_from(g, k + 1));
        assert(fk == gk);
        lemma_bits_injective(f, g, k + 1);
        assert forall|i: int| k <= i < 15 implies #[trigger] f.flag_at(i) == g.flag_at(i) by {
            if i == k {
            } else {
                assert(k + 1 <= i);
            }
        }
    }
}

/// Two states with the same code are the same state.
pub proof fn code_is_injective(a: GameState, b: GameState)
    requires
        a.code() == b.code(),
    ensures
        a == b,
{
    let x = bits_from(a, 0);
    let y = bits_from(b, 0);
    assert(a.numbers_total as nat + 256 * x == b.numbers_total as nat + 256 * y);
    assert(x == y && a.numbers_total == b.numbers_total);
    lemma_bits_injective(a, b, 0);
    assert(a.flag_at(0) == b.flag_at(0) && a.flag_at(1) == b.flag_at(1) && a.flag_at(2)
        == b.flag_at(2) && a.flag_at(3) == b.flag_at(3) && a.flag_at(4) == b.flag_at(4));
    assert(a.flag_at(5) == b.flag_at(5) && a.flag_at(6) == b.flag_at(6) && a.flag_at(7)
        == b.flag_at(7) && a.flag_at(8) == b.flag_at(8) && a.flag_at(9) == b.flag_at(9));
    assert(a.flag_at(10) == b.flag_at(10) && a.flag_at(11) == b.flag_at(11) && a.flag_at(12)
        == b.flag_at(12) && a.flag_at(13) == b.flag_at(13) && a.flag_at(14) == b.flag_at(14));
}

/// Two states whose flags read the same as a binary number have the same flags.
pub proof fn flags_by_bits(a: GameState, b: GameState)
    requires
        bits_from(a, 0) == bits_from(b, 0),
    ensures
        forall|i: int| 0 <= i < 15 ==> #[trigger] a.flag_at(i) == b.flag_at(i),
        a.empty_count() == b.empty_count(),
        a.remaining() == b.remaining(),
        a.any_number_filled() == b.any_number_filled(),
{
    lemma_bits_injective(a, b, 0);
    lemma_open_all(a);
    lemma_open_all(b);
    lemma_open_by_flags(a, b, 15);
    assert(a.flag_at(0) == b.flag_at(0) && a.flag_at(1) == b.flag_at(1) && a.flag_at(2)
        == b.flag_at(2) && a.flag_at(3) == b.flag_at(3) && a.flag_at(4) == b.flag_at(4)
        && a.flag_at(5) == b.flag_at(5));
}

proof fn lemma_open_by_flags(a: GameState, b: GameState, n: int)
    requires
        0 <= n <= 15,
        forall|i: int| 0 <= i < 15 ==> #[trigger] a.flag_at(i) == b.flag_at(i),
    ensures
        open_before(a, n) == open_before(b, n),
    decreases n,
{
    if n > 0 {
        lemma_open_by_flags(a, b, n - 1);
        assert(a.flag_at(n - 1) == b.flag_at(n - 1));
    }
}

/// The flags of a state, read as a binary number, are below 2 to the 15.
pub proof fn bits_are_small(a: GameState)
    ensures
        bits_from(a, 0) < 32768,
{
    lemma_bits_bound(a, 0);
    vstd::arithmetic::power2::lemma2_to64();
}

/// The code of a state is below 2 to the 23.
pub proof fn code_is_small(a: GameState)
    ensures
        a.code() < 8388608,
{
    lemma_bits_bound(a, 0);
    vstd::arithmetic::power2::lemma2_to64();
}

/// The state of a card: which lines are filled, and the sum on the number lines, capped at 63
/// and dropped to 0 where the bonus is out of reach.
pub fn state_from_card(card: &Scorecard) -> (s: GameState)
    ensures
        s == state_of(*card),
        s.canonical(),
{
    let left: u16 = reach_of(card.ones, 5) + reach_of(card.twos, 10) + reach_of(card.threes, 15)
        + reach_of(card.fours, 20) + reach_of(card.fives, 25) + reach_of(card.sixes, 30);
    let mut total: u16 = card.numbers();
    if total > 63 {
        total = 63;
    }
    if total + left < 63 {
        total = 0;
    }
    GameState {
        numbers_total: total as u8,
        ones: flag_of(card.ones),
        twos: flag_of(card.twos),
        threes: flag_of(card.threes),
        fours: flag_of(card.fours),
        fives: flag_of(card.fives),
        sixes: flag_of(card.sixes),
        one_pair: flag_of(card.one_pair),
        two_pairs: flag_of(card.two_pairs),
        three_of_a_kind: flag_of(card.three_of_a_kind),
        four_of_a_kind: flag_of(card.four_of_a_kind),
        small_straight: flag_of(card.small_straight),
        large_straight: flag_of(card.large_straight),
        full_house: flag_of(card.full_house),
        chance: flag_of(card.chance),
        yatzy: flag_of(card.yatzy),
    }
}

/// The state of a game: which lines are filled, and the sum on the number lines, capped at 63
/// and dropped to 0 where the bonus is out of reach. The dice and the rerolls play no part.
#[verifier::when_used_as_spec(state_of_game)]
pub fn state_from_game(game: Game) -> (s: GameState)
    ensures
        s == state_of(game@.card),
        s.canonical(),
{
    let card = game.card();
    state_from_card(&card)
}

/// The state of a game, for contracts.
pub open spec fn state_of_game(game: Game) -> GameState {
    state_of(game@.card)
}

/// The line that stands for a number line of a state.
fn number_line_of(f: FieldState, earlier: bool, total: u8) -> (line: Option<u8>)
    ensures
        line == number_line(f, earlier, total),
{
    match f {
        FieldState::Empty => None,
        FieldState::Filled => if earlier {
            Some(0)
        } else {
            Some(total)
        },
    }
}

/// A filled line with 0 points, or an empty one.
fn scratched_of(f: FieldState) -> (line: Option<u8>)
    ensures
        line == scratched(f),
{
    match f {
        FieldState::Empty => None,
        FieldState::Filled => Some(0),
    }
}

/// The card that stands for a state: the first filled number line holds all of
/// `numbers_total`, every other filled line holds 0.
pub fn card_from_state(state: GameState) -> (card: Scorecard)
    ensures
        card == card_of(state),
{
    let f1 = state.ones == FieldState::Filled;
    let f2 = f1 || state.twos == FieldState::Filled;
    let f3 = f2 || state.threes == FieldState::Filled;
    let f4 = f3 || state.fours == FieldState::Filled;
    let f5 = f4 || state.fives == FieldState::Filled;
    Scorecard {
        ones: number_line_of(state.ones, false, state.numbers_total),
        twos: number_line_of(state.twos, f1, state.numbers_total),
        threes: number_line_of(state.threes, f2, state.numbers_total),
        fours: number_line_of(state.fours, f3, state.numbers_total),
        fives: number_line_of(state.fives, f4, state.numbers_total),
        sixes: number_line_of(state.sixes, f5, state.numbers_total),
        one_pair: scratched_of(state.one_pair),
        two_pairs: scratched_of(state.two_pairs),
        three_of_a_kind: scratched_of(state.three_of_a_kind),
        four_of_a_kind: scratched_of(state.four_of_a_kind),
        small_straight: scratched_of(state.small_straight),
        large_straight: scratched_of(state.large_straight),
        full_house: scratched_of(state.full_house),
        chance: scratched_of(state.chance),
        yatzy: scratched_of(state.yatzy),
    }
}

/// A game that has the state `state`, at the start of a turn with the dice `dice`: two rerolls
/// are left, the first filled number line holds all of `numbers_total`, and every other filled
/// line holds 0. It stands for every game with that state; it is not the game that was played.
pub fn game_from_state(state: GameState, dice: Dice) -> (g: Game)
    ensures
        g@.dice == dice@,
        g@.rerolls_left == 2,
        g@.card == card_of(state),
{
    Game::from_parts(dice, 2, card_from_state(state))
}

/// The state of any card is one that `canonical` admits, and it has as many empty lines as
/// the card.
pub proof fn state_is_canonical(card: Scorecard)
    ensures
        state_of(card).canonical(),
        state_of(card).empty_count() + card.filled_count() == 15,
        state_of(card).remaining() == remaining(card),
{
    lemma_lines_add_up(card);
    let s = state_of(card);
    assert(s.remaining() == remaining(card));
    assert(s.any_number_filled() || card.upper_total() == 0);
}

/// Each line is filled or empty, so the empty lines of the state and the filled lines of the
/// card are fifteen together.
proof fn lemma_lines_add_up(card: Scorecard)
    ensures
        state_of(card).empty_count() + card.filled_count() == 15,
{
    lemma_open_all(state_of(card));
    lemma_filled_all(card);
    lemma_lines_before(card, 15);
}

/// How many of the lines of `card` before place `n` are filled.
pub open spec fn filled_before(card: Scorecard, n: int) -> nat
    decreases n,
{
    if n <= 0 {
        0
    } else {
        filled_before(card, n - 1) + filled(card.get(crate::combo::combo_at(n - 1)))
    }
}

proof fn lemma_filled_all(card: Scorecard)
    ensures
        filled_before(card, 15) == card.filled_count(),
{
    reveal_with_fuel(filled_before, 16);
}

proof fn lemma_lines_before(card: Scorecard, n: int)
    requires
        0 <= n <= 15,
    ensures
        open_before(state_of(card), n) + filled_before(card, n) == n,
    decreases n,
{
    if n > 0 {
        lemma_lines_before(card, n - 1);
        flag_follows_line(card, n - 1);
    }
}

/// The state of a card has, at each place, the flag of the line that the card has there.
pub proof fn flag_follows_line(card: Scorecard, i: int)
    requires
        0 <= i < 15,
    ensures
        state_of(card).flag_at(i) == flag(card.get(crate::combo::combo_at(i))),
{
    let s = state_of(card);
    if i == 0 {
        assert(s.flag_at(0) == s.ones);
    } else if i == 1 {
        assert(s.flag_at(1) == s.twos);
    } else if i == 2 {
        assert(s.flag_at(2) == s.threes);
    } else if i == 3 {
        assert(s.flag_at(3) == s.fours);
    } else if i == 4 {
        assert(s.flag_at(4) == s.fives);
    } else if i == 5 {
        assert(s.flag_at(5) == s.sixes);
    } else if i == 6 {
        assert(s.flag_at(6) == s.one_pair);
    } else if i == 7 {
        assert(s.flag_at(7) == s.two_pairs);
    } else if i == 8 {
        assert(s.flag_at(8) == s.three_of_a_kind);
    } else if i == 9 {
        assert(s.flag_at(9) == s.four_of_a_kind);
    } else if i == 10 {
        assert(s.flag_at(10) == s.small_straight);
    } else if i == 11 {
        assert(s.flag_at(11) == s.large_straight);
    } else if i == 12 {
        assert(s.flag_at(12) == s.full_house);
    } else if i == 13 {
        assert(s.flag_at(13) == s.chance);
    } else {
        assert(s.flag_at(14) == s.yatzy);
    }
}

/// From a state to its game and back gives the state again, whatever the dice: for every
/// state that a card can have.
pub proof fn state_round_trip(state: GameState)
    requires
        state.canonical(),
    ensures
        state_of(card_of(state)) == state,
{
}

/// The game that stands for a state has the bonus exactly where the state's total is 63 or
/// more, and is over exactly where the state has no empty line.
pub proof fn representative_keeps_bonus(state: GameState)
    requires
        state.canonical(),
    ensures
        card_of(state).has_bonus() <==> state.numbers_total >= 63,
        card_of(state).full() <==> state.empty_count() == 0,
{
    state_round_trip(state);
    lemma_lines_add_up(card_of(state));
    lemma_total_of_representative(state);
}

/// The number lines of the card that stands for a state hold `numbers_total` together where
/// some number line is filled, and nothing where none is.
proof fn lemma_total_of_representative(state: GameState)
    ensures
        card_of(state).upper_total() == if state.any_number_filled() {
            state.numbers_total as nat
        } else {
            0
        },
{
}

} // verus!
