use crate::dice::{all_valid, Die};
use crate::prob::{power, roll_outcomes, roll_table, table_view};
use num_bigint::BigUint;
use num_rational::Ratio;
use num_traits::Zero;
use vstd::prelude::*;

verus! {

/// `num_bigint::BigUint`, an unsigned integer of any size. Nothing is known of a value but
/// what the functions below say.
#[verifier::external_type_specification]
#[verifier::external_body]
pub struct ExBigUint(BigUint);

/// `num_rational::Ratio`, a numerator over a denominator. Nothing is known of a value but
/// what the functions below say.
#[verifier::external_type_specification]
#[verifier::external_body]
#[verifier::reject_recursive_types(T)]
pub struct ExRatio<T>(Ratio<T>);

/// The number that `Ratio::numer` returns for `r`.
pub uninterp spec fn ratio_numer(r: Ratio<BigUint>) -> nat;

/// The number that `Ratio::denom` returns for `r`.
pub uninterp spec fn ratio_denom(r: Ratio<BigUint>) -> nat;

/// The rational number that `r` stands for: its numerator over its denominator. It says
/// nothing of a ratio whose denominator is zero.
pub open spec fn ratio_value(r: Ratio<BigUint>) -> real {
    ratio_numer(r) as real / ratio_denom(r) as real
}

/// `Ratio::from_integer` on the `BigUint` made from `n`: the ratio `n / 1`.
#[verifier::external_body]
fn ratio_from_integer(n: u16) -> (r: Ratio<BigUint>)
    ensures
        ratio_numer(r) == n,
        ratio_denom(r) == 1,
{
    Ratio::from_integer(BigUint::from(n))
}

/// `Ratio::new` on the `BigUint`s made from `n` and `d`: the ratio `n / d` in lowest terms,
/// whose denominator is not zero. `Ratio::new` panics where `d` is zero.
#[verifier::external_body]
fn ratio_new(n: u16, d: u16) -> (r: Ratio<BigUint>)
    requires
        d != 0,
    ensures
        ratio_denom(r) > 0,
        ratio_value(r) == n as real / d as real,
{
    Ratio::new(BigUint::from(n), BigUint::from(d))
}

/// `Add` on two references to ratios: their sum, whose denominator is not zero. It panics
/// where a denominator is zero.
#[verifier::external_body]
fn ratio_add(a: &Ratio<BigUint>, b: &Ratio<BigUint>) -> (r: Ratio<BigUint>)
    requires
        ratio_denom(*a) > 0,
        ratio_denom(*b) > 0,
    ensures
        ratio_denom(r) > 0,
        ratio_value(r) == ratio_value(*a) + ratio_value(*b),
{
    a + b
}

/// `Mul` on two references to ratios: their product, whose denominator is not zero. It
/// panics where a denominator is zero.
#[verifier::external_body]
fn ratio_mul(a: &Ratio<BigUint>, b: &Ratio<BigUint>) -> (r: Ratio<BigUint>)
    requires
        ratio_denom(*a) > 0,
        ratio_denom(*b) > 0,
    ensures
        ratio_denom(r) > 0,
        ratio_value(r) == ratio_value(*a) * ratio_value(*b),
{
    a * b
}

/// `PartialOrd::lt` on ratios: whether the first number is below the second. It panics where
/// a denominator is zero.
#[verifier::external_body]
fn ratio_lt(a: &Ratio<BigUint>, b: &Ratio<BigUint>) -> (below: bool)
    requires
        ratio_denom(*a) > 0,
        ratio_denom(*b) > 0,
    ensures
        below == (ratio_value(*a) < ratio_value(*b)),
{
    a < b
}

/// `Clone::clone` on a ratio: a ratio with the same numerator and denominator.
#[verifier::external_body]
fn ratio_clone(a: &Ratio<BigUint>) -> (r: Ratio<BigUint>)
    ensures
        ratio_numer(r) == ratio_numer(*a),
        ratio_denom(r) == ratio_denom(*a),
{
    a.clone()
}

/// `Zero::is_zero` on what `Ratio::denom` returns: whether the denominator is zero.
#[verifier::external_body]
fn ratio_denom_is_zero(a: &Ratio<BigUint>) -> (zero: bool)
    ensures
        zero == (ratio_denom(*a) == 0),
{
    a.denom().is_zero()
}

/// A quotient of a number that is not negative by one that is positive is not negative.
proof fn lemma_quotient_sign(n: nat, d: nat)
    requires
        d > 0,
    ensures
        n as real / d as real >= 0real,
{
    let x = n as real;
    let y = d as real;
    assert(x >= 0real);
    assert(y > 0real);
    assert(x / y >= 0real) by (nonlinear_arith)
        requires
            x >= 0real,
            y > 0real,
    ;
}

/// An expected number of points: an exact fraction, however long its numerator and
/// denominator grow.
#[derive(Debug)]
pub struct ExpectedValue {
    ratio: Ratio<BigUint>,
}

impl ExpectedValue {
    #[verifier::type_invariant]
    spec fn well_formed(self) -> bool {
        ratio_denom(self.ratio) > 0
    }

    /// The number that the value stands for.
    pub closed spec fn value(self) -> real {
        ratio_value(self.ratio)
    }

    /// The fraction `numer / denom`, or `None` where `denom` is zero.
    pub fn ratio(numer: u16, denom: u16) -> (r: Option<ExpectedValue>)
        ensures
            r is Some <==> denom != 0,
            r matches Some(v) ==> v.value() == numer as real / denom as real,
    {
        if denom == 0 {
            None
        } else {
            Some(ExpectedValue { ratio: ratio_new(numer, denom) })
        }
    }

    /// The value that a ratio stands for, or `None` where its denominator is zero.
    pub fn from_ratio(ratio: Ratio<BigUint>) -> (r: Option<ExpectedValue>)
        ensures
            r is Some <==> ratio_denom(ratio) != 0,
            r matches Some(v) ==> v.value() == ratio_value(ratio),
    {
        if ratio_denom_is_zero(&ratio) {
            None
        } else {
            Some(ExpectedValue { ratio })
        }
    }

    /// The value as a ratio, whose denominator is not zero.
    pub fn into_ratio(self) -> (r: Ratio<BigUint>)
        ensures
            ratio_denom(r) > 0,
            ratio_value(r) == self.value(),
    {
        proof {
            use_type_invariant(&self);
        }
        self.ratio
    }

    /// The sum of two values.
    pub fn plus(&self, other: &ExpectedValue) -> (v: ExpectedValue)
        ensures
            v.value() == self.value() + other.value(),
    {
        proof {
            use_type_invariant(self);
            use_type_invariant(other);
        }
        ExpectedValue { ratio: ratio_add(&self.ratio, &other.ratio) }
    }

    /// The product of two values.
    pub fn times(&self, other: &ExpectedValue) -> (v: ExpectedValue)
        ensures
            v.value() == self.value() * other.value(),
    {
        proof {
            use_type_invariant(self);
            use_type_invariant(other);
        }
        ExpectedValue { ratio: ratio_mul(&self.ratio, &other.ratio) }
    }

    /// Whether this value is below the other.
    pub fn less_than(&self, other: &ExpectedValue) -> (below: bool)
        ensures
            below == (self.value() < other.value()),
    {
        proof {
            use_type_invariant(self);
            use_type_invariant(other);
        }
        ratio_lt(&self.ratio, &other.ratio)
    }

    /// Whether the two values are the same number.
    pub fn same_as(&self, other: &ExpectedValue) -> (same: bool)
        ensures
            same == (self.value() == other.value()),
    {
        !self.less_than(other) && !other.less_than(self)
    }

    /// A copy of the value.
    pub fn duplicate(&self) -> (v: ExpectedValue)
        ensures
            v.value() == self.value(),
    {
        proof {
            use_type_invariant(self);
        }
        let ratio = ratio_clone(&self.ratio);
        assert(ratio_value(ratio) == ratio_value(self.ratio));
        ExpectedValue { ratio }
    }

    /// Does nothing when run. It tells the caller that the value is not negative.
    pub fn not_negative(&self)
        ensures
            self.value() >= 0real,
    {
        proof {
            use_type_invariant(self);
            lemma_quotient_sign(ratio_numer(self.ratio), ratio_denom(self.ratio));
        }
    }
}

/// The chance of the outcome at place `i` of the table of a roll of `k` dice.
pub open spec fn chance(k: nat, i: int) -> real {
    roll_table(k)[i].1 as real / power(6, k) as real
}

/// The chances of the first `n` outcomes of a roll of `k` dice together.
pub open spec fn chance_sum(k: nat, n: int) -> real
    decreases n,
{
    if n <= 0 {
        0real
    } else {
        chance_sum(k, n - 1) + chance(k, n - 1)
    }
}

proof fn lemma_chance_sum(k: nat, n: int)
    requires
        1 <= k <= 5,
        0 <= n <= roll_table(k).len(),
    ensures
        chance_sum(k, n) == crate::prob::total(roll_table(k).take(n)) as real / power(6, k) as real,
    decreases n,
{
    crate::prob::roll_table_is_complete(k);
    let all = power(6, k) as real;
    assert(all > 0real);
    if n > 0 {
        lemma_chance_sum(k, n - 1);
        let t = roll_table(k).take(n);
        assert(t.drop_last() =~= roll_table(k).take(n - 1));
        assert(t.last() == roll_table(k)[n - 1]);
        let a = crate::prob::total(t.drop_last());
        let b = t.last().1;
        assert(crate::prob::total(t) == a + b);
        assert((a + b) as real == a as real + b as real);
        assert((a as real + b as real) / all == a as real / all + b as real / all)
            by (nonlinear_arith)
            requires
                all > 0real,
        ;
    } else {
        assert(roll_table(k).take(0).len() == 0);
        assert(0real / all == 0real) by (nonlinear_arith)
            requires
                all > 0real,
        ;
    }
}

/// The chances of all outcomes of a roll of one to five dice add up to exactly one.
pub proof fn chances_add_up(k: nat)
    requires
        1 <= k <= 5,
    ensures
        chance_sum(k, roll_table(k).len() as int) == 1real,
{
    let n = roll_table(k).len() as int;
    lemma_chance_sum(k, n);
    crate::prob::roll_table_is_complete(k);
    assert(roll_table(k).take(n) =~= roll_table(k));
    let all = power(6, k) as real;
    assert(all / all == 1real) by (nonlinear_arith)
        requires
            all > 0real,
    ;
}

/// Whether a hand and a chance are those at place `i` of the table of a roll of `k` dice:
/// the hand of `roll_table(k)` there, with its number of ordered rolls over `6^k`.
pub open spec fn entry_fits(hand: Seq<Die>, share: real, k: nat, i: int) -> bool {
    &&& hand == roll_table(k)[i].0
    &&& hand.len() == k
    &&& all_valid(hand)
    &&& share == chance(k, i)
}

/// Whether `t` is the table of a roll of `k` dice with its chances as exact fractions.
pub open spec fn is_roll_table(t: Seq<(Vec<Die>, ExpectedValue)>, k: nat) -> bool {
    &&& t.len() == roll_table(k).len()
    &&& forall|i: int| 0 <= i < t.len() ==> entry_fits((#[trigger] t[i]).0@, t[i].1.value(), k, i)
}

/// A kind of number in which expected values can be kept.
pub trait Value: Sized {
    /// The number that the value stands for.
    spec fn as_real(&self) -> real;

    /// The whole number `input`.
    fn from_u8(input: u8) -> (v: Self)
        ensures
            v.as_real() == input as real,
    ;

    /// The whole number `input`.
    fn from_u16(input: u16) -> (v: Self)
        ensures
            v.as_real() == input as real,
    ;

    /// The outcomes of rolling one die, each with its chance.
    fn roll_1_prob() -> (t: Vec<(Vec<Die>, Self)>)
        ensures
            t@.len() == roll_table(1).len(),
            forall|i: int|
                0 <= i < t@.len() ==> entry_fits((#[trigger] t@[i]).0@, t@[i].1.as_real(), 1, i),
    ;

    /// The outcomes of rolling two dice, each with its chance.
    fn roll_2_prob() -> (t: Vec<(Vec<Die>, Self)>)
        ensures
            t@.len() == roll_table(2).len(),
            forall|i: int|
                0 <= i < t@.len() ==> entry_fits((#[trigger] t@[i]).0@, t@[i].1.as_real(), 2, i),
    ;

    /// The outcomes of rolling three dice, each with its chance.
    fn roll_3_prob() -> (t: Vec<(Vec<Die>, Self)>)
        ensures
            t@.len() == roll_table(3).len(),
            forall|i: int|
                0 <= i < t@.len() ==> entry_fits((#[trigger] t@[i]).0@, t@[i].1.as_real(), 3, i),
    ;

    /// The outcomes of rolling four dice, each with its chance.
    fn roll_4_prob() -> (t: Vec<(Vec<Die>, Self)>)
        ensures
            t@.len() == roll_table(4).len(),
            forall|i: int|
                0 <= i < t@.len() ==> entry_fits((#[trigger] t@[i]).0@, t@[i].1.as_real(), 4, i),
    ;

    /// The outcomes of rolling five dice, each with its chance.
    fn roll_5_prob() -> (t: Vec<(Vec<Die>, Self)>)
        ensures
            t@.len() == roll_table(5).len(),
            forall|i: int|
                0 <= i < t@.len() ==> entry_fits((#[trigger] t@[i]).0@, t@[i].1.as_real(), 5, i),
    ;

    /// The number 0.
    fn zero() -> (v: Self)
        ensures
            v.as_real() == 0real,
    ;
}

/// The outcomes of rolling `k` dice, each with its chance as an exact fraction.
pub fn roll_probabilities(k: usize) -> (t: Vec<(Vec<Die>, ExpectedValue)>)
    requires
        1 <= k <= 5,
    ensures
        is_roll_table(t@, k as nat),
{
    let counts = roll_outcomes(k);
    let rolls: u16 = if k == 1 {
        6
    } else if k == 2 {
        36
    } else if k == 3 {
        216
    } else if k == 4 {
        1296
    } else {
        7776
    };
    proof {
        crate::prob::roll_table_is_complete(k as nat);
    }
    let mut t: Vec<(Vec<Die>, ExpectedValue)> = Vec::new();
    let mut i: usize = 0;
    while i < counts.len()
        invariant
            1 <= k <= 5,
            i <= counts@.len(),
            t@.len() == i,
            rolls == power(6, k as nat),
            rolls != 0,
            table_view(counts@) == roll_table(k as nat),
            forall|j: int|
                0 <= j < counts@.len() ==> {
                    &&& (#[trigger] counts@[j]).0@.len() == k
                    &&& all_valid(counts@[j].0@)
                },
            forall|j: int|
                0 <= j < i ==> entry_fits((#[trigger] t@[j]).0@, t@[j].1.value(), k as nat, j),
        decreases counts@.len() - i,
    {
        let hand = counts[i].0.clone();
        let share = ExpectedValue { ratio: ratio_new(counts[i].1, rolls) };
        proof {
            assert(table_view(counts@)[i as int] == (counts@[i as int].0@, counts@[i as int].1 as nat));
            assert(hand@ == counts@[i as int].0@);
            assert(share.value() == chance(k as nat, i as int));
        }
        let ghost before = t@;
        t.push((hand, share));
        proof {
            assert forall|j: int| 0 <= j < i + 1 implies entry_fits(
                (#[trigger] t@[j]).0@,
                t@[j].1.value(),
                k as nat,
                j,
            ) by {
                if j < i {
                    assert(t@[j] == before[j]);
                }
            }
        }
        i = i + 1;
    }
    proof {
        assert(table_view(counts@).len() == counts@.len());
    }
    t
}

impl Value for ExpectedValue {
    open spec fn as_real(&self) -> real {
        self.value()
    }

    fn from_u8(input: u8) -> (v: Self) {
        Self::from_u16(input as u16)
    }

    fn from_u16(input: u16) -> (v: Self) {
        let ratio = ratio_from_integer(input);
        assert(ratio_numer(ratio) as real == input as real);
        assert(ratio_denom(ratio) as real == 1real);
        assert(ratio_value(ratio) == input as real);
        ExpectedValue { ratio }
    }

    fn roll_1_prob() -> (t: Vec<(Vec<Die>, Self)>) {
        roll_probabilities(1)
    }

    fn roll_2_prob() -> (t: Vec<(Vec<Die>, Self)>) {
        roll_probabilities(2)
    }

    fn roll_3_prob() -> (t: Vec<(Vec<Die>, Self)>) {
        roll_probabilities(3)
    }

    fn roll_4_prob() -> (t: Vec<(Vec<Die>, Self)>) {
        roll_probabilities(4)
    }

    fn roll_5_prob() -> (t: Vec<(Vec<Die>, Self)>) {
        roll_probabilities(5)
    }

    fn zero() -> (v: Self) {
        Self::from_u16(0)
    }
}

} // verus!
