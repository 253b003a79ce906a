use crate::dice::{all_valid, count, lemma_count_concat, Die};
use vstd::prelude::*;

verus! {

/// A hand that can come out of a roll, with the number of ordered rolls that give it.
pub type Outcome = (Seq<Die>, nat);

/// The number of ways to choose `c` of `n` things.
pub open spec fn binomial(n: nat, c: nat) -> nat
    decreases n,
{
    if c == 0 {
        1
    } else if n == 0 {
        0
    } else {
        binomial((n - 1) as nat, (c - 1) as nat) + binomial((n - 1) as nat, c)
    }
}

/// `base` to the power `e`.
pub open spec fn power(base: nat, e: nat) -> nat
    decreases e,
{
    if e == 0 {
        1
    } else {
        base * power(base, (e - 1) as nat)
    }
}

/// `c` dice that all show `face`.
pub open spec fn repeat(face: Die, c: nat) -> Seq<Die> {
    Seq::new(c, |i: int| face)
}

/// The outcome `e` of some dice with `c` more dice in front that show `face`, which none of
/// the others shows: `pick` places among all the dice can hold the new ones.
pub open spec fn extended(face: Die, c: nat, pick: nat, e: Outcome) -> Outcome {
    (repeat(face, c) + e.0, pick * e.1)
}

/// Each outcome of `t` with `c` more dice in front that show `face`.
pub open spec fn extend_all(t: Seq<Outcome>, face: Die, c: nat, pick: nat) -> Seq<Outcome> {
    Seq::new(t.len(), |i: int| extended(face, c, pick, t[i]))
}

/// Every outcome of rolling `k` dice in which exactly `c` dice show `face` and the others
/// show higher faces.
pub open spec fn block(face: nat, k: nat, c: nat) -> Seq<Outcome>
    decreases 7 - face, 0nat, 0nat,
{
    if face > 6 || c > k {
        Seq::empty()
    } else {
        extend_all(outcomes(face + 1, (k - c) as nat), face as Die, c, binomial(k, c))
    }
}

/// Every outcome of rolling `k` dice in which at most `c` dice show `face` and the others show
/// higher faces: those with `c` such dice first, those with none last.
pub open spec fn taking(face: nat, k: nat, c: nat) -> Seq<Outcome>
    decreases 7 - face, 1nat, c,
{
    if face > 6 {
        Seq::empty()
    } else if c == 0 {
        block(face, k, 0)
    } else {
        block(face, k, c) + taking(face, k, (c - 1) as nat)
    }
}

/// Every ascending hand of `k` dice that shows no face below `face`, in the order of the
/// dictionary, each with the number of ordered rolls of `k` dice that give it.
pub open spec fn outcomes(face: nat, k: nat) -> Seq<Outcome>
    decreases 7 - face, 2nat, 0nat,
{
    if face > 6 {
        if k == 0 {
            seq![(Seq::<Die>::empty(), 1nat)]
        } else {
            Seq::empty()
        }
    } else {
        taking(face, k, k)
    }
}

/// The table of a roll of `k` dice: every ascending hand of `k` dice, in the order of the
/// dictionary, each with the number of the `6^k` ordered rolls that give it.
pub open spec fn roll_table(k: nat) -> Seq<Outcome> {
    outcomes(1, k)
}

/// The ordered rolls that the outcomes of `t` stand for, all together.
pub open spec fn total(t: Seq<Outcome>) -> nat
    decreases t.len(),
{
    if t.len() == 0 {
        0
    } else {
        total(t.drop_last()) + t.last().1
    }
}

/// What a table in memory holds.
pub open spec fn table_view(t: Seq<(Vec<Die>, u16)>) -> Seq<Outcome> {
    t.map_values(|e: (Vec<Die>, u16)| (e.0@, e.1 as nat))
}

proof fn lemma_total_concat(a: Seq<Outcome>, b: Seq<Outcome>)
    ensures
        total(a + b) == total(a) + total(b),
    decreases b.len(),
{
    if b.len() == 0 {
        assert(a + b =~= a);
    } else {
        assert((a + b).drop_last() =~= a + b.drop_last());
        lemma_total_concat(a, b.drop_last());
    }
}

proof fn lemma_total_extended(t: Seq<Outcome>, face: Die, c: nat, pick: nat)
    ensures
        total(extend_all(t, face, c, pick)) == pick * total(t),
    decreases t.len(),
{
    let u = extend_all(t, face, c, pick);
    if t.len() == 0 {
        assert(u.len() == 0);
        assert(pick * 0 == 0);
    } else {
        assert(u.drop_last() =~= extend_all(t.drop_last(), face, c, pick));
        lemma_total_extended(t.drop_last(), face, c, pick);
        assert(u.last().1 == pick * t.last().1);
        let a = total(t.drop_last());
        let b = t.last().1;
        assert(pick * (a + b) == pick * a + pick * b) by (nonlinear_arith);
    }
}

/// The ordered rolls behind `taking(face, k, c)`, from the totals of the tables one face up.
pub open spec fn taking_total(face: nat, k: nat, c: nat) -> nat
    decreases c,
{
    if c > k {
        0
    } else if c == 0 {
        total(outcomes(face + 1, k))
    } else {
        binomial(k, c) * total(outcomes(face + 1, (k - c) as nat)) + taking_total(
            face,
            k,
            (c - 1) as nat,
        )
    }
}

proof fn lemma_taking_total(face: nat, k: nat, c: nat)
    requires
        1 <= face <= 6,
        c <= k,
    ensures
        total(taking(face, k, c)) == taking_total(face, k, c),
    decreases c,
{
    let below = outcomes(face + 1, (k - c) as nat);
    lemma_total_extended(below, face as Die, c, binomial(k, c));
    assert(block(face, k, c) == extend_all(below, face as Die, c, binomial(k, c)));
    assert(total(block(face, k, c)) == binomial(k, c) * total(below));
    if c == 0 {
        assert(binomial(k, 0) == 1);
        let x = total(outcomes(face + 1, k));
        assert(1 * x == x) by (nonlinear_arith);
        assert(taking(face, k, 0) == block(face, k, 0));
        assert(taking_total(face, k, 0) == x);
    } else {
        lemma_taking_total(face, k, (c - 1) as nat);
        lemma_total_concat(block(face, k, c), taking(face, k, (c - 1) as nat));
        assert(taking(face, k, c) == block(face, k, c) + taking(face, k, (c - 1) as nat));
    }
}

proof fn lemma_binomial_values()
    ensures
        binomial(0, 0) == 1,
        binomial(1, 0) == 1,
        binomial(1, 1) == 1,
        binomial(2, 0) == 1,
        binomial(2, 1) == 2,
        binomial(2, 2) == 1,
        binomial(3, 0) == 1,
        binomial(3, 1) == 3,
        binomial(3, 2) == 3,
        binomial(3, 3) == 1,
        binomial(4, 0) == 1,
        binomial(4, 1) == 4,
        binomial(4, 2) == 6,
        binomial(4, 3) == 4,
        binomial(4, 4) == 1,
        binomial(5, 0) == 1,
        binomial(5, 1) == 5,
        binomial(5, 2) == 10,
        binomial(5, 3) == 10,
        binomial(5, 4) == 5,
        binomial(5, 5) == 1,
{
    reveal_with_fuel(binomial, 7);
}

/// The powers of `n` up to the fifth, written out.
proof fn lemma_powers(n: nat)
    ensures
        power(n, 0) == 1,
        power(n, 1) == n,
        power(n, 2) == n * n,
        power(n, 3) == n * n * n,
        power(n, 4) == n * n * n * n,
        power(n, 5) == n * n * n * n * n,
{
    reveal_with_fuel(power, 7);
    assert(n * 1 == n);
    assert(n * (n * n) == n * n * n) by (nonlinear_arith);
    assert(n * (n * n * n) == n * n * n * n) by (nonlinear_arith);
    assert(n * (n * n * n * n) == n * n * n * n * n) by (nonlinear_arith);
}

/// The tables of up to five dice that show no face below `face` stand for as many ordered
/// rolls as there are: one for each way to give each die one of the faces from `face` to 6.
proof fn lemma_outcomes_total(face: nat)
    requires
        1 <= face <= 7,
    ensures
        forall|k: nat| k <= 5 ==> #[trigger] total(outcomes(face, k)) == power((7 - face) as nat, k),
    decreases 7 - face,
{
    if face == 7 {
        assert forall|k: nat| k <= 5 implies #[trigger] total(outcomes(face, k)) == power(0, k) by {
            lemma_powers(0);
            if k == 0 {
                let t = outcomes(7, 0);
                assert(t.len() == 1);
                assert(t.drop_last().len() == 0);
                assert(total(t.drop_last()) == 0);
                assert(t.last().1 == 1);
            } else {
                assert(outcomes(7, k).len() == 0);
            }
        }
    } else {
        lemma_outcomes_total(face + 1);
        let n = (6 - face) as nat;
        lemma_powers(n);
        lemma_powers(n + 1);
        lemma_binomial_values();
        assert(total(outcomes(face + 1, 0)) == power(n, 0));
        assert(total(outcomes(face + 1, 1)) == power(n, 1));
        assert(total(outcomes(face + 1, 2)) == power(n, 2));
        assert(total(outcomes(face + 1, 3)) == power(n, 3));
        assert(total(outcomes(face + 1, 4)) == power(n, 4));
        assert(total(outcomes(face + 1, 5)) == power(n, 5));
        assert forall|k: nat| k <= 5 implies #[trigger] total(outcomes(face, k)) == power(
            (7 - face) as nat,
            k,
        ) by {
            lemma_taking_total(face, k, k);
            reveal_with_fuel(taking_total, 7);
            if k == 0 {
            } else if k == 1 {
            } else if k == 2 {
                assert(n * n + 2 * n + 1 == (n + 1) * (n + 1)) by (nonlinear_arith);
            } else if k == 3 {
                assert(n * n * n + 3 * (n * n) + 3 * n + 1 == (n + 1) * (n + 1) * (n + 1))
                    by (nonlinear_arith);
            } else if k == 4 {
                assert(n * n * n * n + 4 * (n * n * n) + 6 * (n * n) + 4 * n + 1 == (n + 1) * (n
                    + 1) * (n + 1) * (n + 1)) by (nonlinear_arith);
            } else {
                assert(n * n * n * n * n + 5 * (n * n * n * n) + 10 * (n * n * n) + 10 * (n * n) + 5
                    * n + 1 == (n + 1) * (n + 1) * (n + 1) * (n + 1) * (n + 1))
                    by (nonlinear_arith);
            }
        }
    }
}

/// The outcomes of a roll of up to five dice stand for all `6^k` ordered rolls together: the
/// chances in the table add up to exactly one.
pub proof fn roll_table_is_complete(k: nat)
    requires
        k <= 5,
    ensures
        total(roll_table(k)) == power(6, k),
        power(6, 1) == 6,
        power(6, 2) == 36,
        power(6, 3) == 216,
        power(6, 4) == 1296,
        power(6, 5) == 7776,
{
    lemma_outcomes_total(1);
    lemma_powers(6);
    assert(total(outcomes(1, k)) == power(6, k));
}


/// The product of the numbers from 1 to `n`.
pub open spec fn factorial(n: nat) -> nat
    decreases n,
{
    if n == 0 {
        1
    } else {
        n * factorial((n - 1) as nat)
    }
}

proof fn lemma_factorial_values()
    ensures
        factorial(0) == 1,
        factorial(1) == 1,
        factorial(2) == 2,
        factorial(3) == 6,
        factorial(4) == 24,
        factorial(5) == 120,
{
    reveal_with_fuel(factorial, 7);
}

/// A hand of `k` dice has at most `k!` orderings, whichever dice of it show one face.
proof fn lemma_pick_bound(k: nat, c: nat, rest: nat)
    requires
        c <= k <= 5,
        rest <= factorial((k - c) as nat),
    ensures
        binomial(k, c) * rest <= factorial(k),
        factorial(k) <= 120,
        binomial(k, c) <= 10,
{
    lemma_factorial_values();
    lemma_binomial_values();
    let b = binomial(k, c);
    let f = factorial((k - c) as nat);
    assert(b * rest <= b * f) by (nonlinear_arith)
        requires
            rest <= f,
    ;
    assert(b * f <= factorial(k)) by {
        if k == 0 && c == 0 {
            assert(b == 1 && f == 1);
            assert(b * f == 1) by (nonlinear_arith)
                requires
                    b == 1,
                    f == 1,
            ;
        } else if k == 1 && c == 0 {
            assert(b == 1 && f == 1);
            assert(b * f == 1) by (nonlinear_arith)
                requires
                    b == 1,
                    f == 1,
            ;
        } else if k == 1 && c == 1 {
            assert(b == 1 && f == 1);
            assert(b * f == 1) by (nonlinear_arith)
                requires
                    b == 1,
                    f == 1,
            ;
        } else if k == 2 && c == 0 {
            assert(b == 1 && f == 2);
            assert(b * f == 2) by (nonlinear_arith)
                requires
                    b == 1,
                    f == 2,
            ;
        } else if k == 2 && c == 1 {
            assert(b == 2 && f == 1);
            assert(b * f == 2) by (nonlinear_arith)
                requires
                    b == 2,
                    f == 1,
            ;
        } else if k == 2 && c == 2 {
            assert(b == 1 && f == 1);
            assert(b * f == 1) by (nonlinear_arith)
                requires
                    b == 1,
                    f == 1,
            ;
        } else if k == 3 && c == 0 {
            assert(b == 1 && f == 6);
            assert(b * f == 6) by (nonlinear_arith)
                requires
                    b == 1,
                    f == 6,
            ;
        } else if k == 3 && c == 1 {
            assert(b == 3 && f == 2);
            assert(b * f == 6) by (nonlinear_arith)
                requires
                    b == 3,
                    f == 2,
            ;
        } else if k == 3 && c == 2 {
            assert(b == 3 && f == 1);
            assert(b * f == 3) by (nonlinear_arith)
                requires
                    b == 3,
                    f == 1,
            ;
        } else if k == 3 && c == 3 {
            assert(b == 1 && f == 1);
            assert(b * f == 1) by (nonlinear_arith)
                requires
                    b == 1,
                    f == 1,
            ;
        } else if k == 4 && c == 0 {
            assert(b == 1 && f == 24);
            assert(b * f == 24) by (nonlinear_arith)
                requires
                    b == 1,
                    f == 24,
            ;
        } else if k == 4 && c == 1 {
            assert(b == 4 && f == 6);
            assert(b * f == 24) by (nonlinear_arith)
                requires
                    b == 4,
                    f == 6,
            ;
        } else if k == 4 && c == 2 {
            assert(b == 6 && f == 2);
            assert(b * f == 12) by (nonlinear_arith)
                requires
                    b == 6,
                    f == 2,
            ;
        } else if k == 4 && c == 3 {
            assert(b == 4 && f == 1);
            assert(b * f == 4) by (nonlinear_arith)
                requires
                    b == 4,
                    f == 1,
            ;
        } else if k == 4 && c == 4 {
            assert(b == 1 && f == 1);
            assert(b * f == 1) by (nonlinear_arith)
                requires
                    b == 1,
                    f == 1,
            ;
        } else if k == 5 && c == 0 {
            assert(b == 1 && f == 120);
            assert(b * f == 120) by (nonlinear_arith)
                requires
                    b == 1,
                    f == 120,
            ;
        } else if k == 5 && c == 1 {
            assert(b == 5 && f == 24);
            assert(b * f == 120) by (nonlinear_arith)
                requires
                    b == 5,
                    f == 24,
            ;
        } else if k == 5 && c == 2 {
            assert(b == 10 && f == 6);
            assert(b * f == 60) by (nonlinear_arith)
                requires
                    b == 10,
                    f == 6,
            ;
        } else if k == 5 && c == 3 {
            assert(b == 10 && f == 2);
            assert(b * f == 20) by (nonlinear_arith)
                requires
                    b == 10,
                    f == 2,
            ;
        } else if k == 5 && c == 4 {
            assert(b == 5 && f == 1);
            assert(b * f == 5) by (nonlinear_arith)
                requires
                    b == 5,
                    f == 1,
            ;
        } else if k == 5 && c == 5 {
            assert(b == 1 && f == 1);
            assert(b * f == 1) by (nonlinear_arith)
                requires
                    b == 1,
                    f == 1,
            ;
        }
    }
}

/// Every outcome in the table of `k` dice from `face` up is a hand of `k` valid dice, none
/// below `face`.
pub proof fn lemma_outcomes_shape(face: nat, k: nat)
    requires
        1 <= face <= 7,
    ensures
        forall|i: int|
            0 <= i < outcomes(face, k).len() ==> {
                let hand = (#[trigger] outcomes(face, k)[i]).0;
                &&& hand.len() == k
                &&& all_valid(hand)
                &&& forall|j: int| 0 <= j < hand.len() ==> face <= #[trigger] hand[j]
            },
    decreases 7 - face, 2nat, 0nat,
{
    let t = outcomes(face, k);
    if face <= 6 {
        lemma_taking_shape(face, k, k);
        assert(t == taking(face, k, k));
    } else if k == 0 {
        assert(t.len() == 1);
        assert(t[0].0.len() == 0);
    } else {
        assert(t.len() == 0);
    }
}

proof fn lemma_taking_shape(face: nat, k: nat, c: nat)
    requires
        1 <= face <= 6,
        c <= k,
    ensures
        forall|i: int|
            0 <= i < taking(face, k, c).len() ==> {
                let hand = (#[trigger] taking(face, k, c)[i]).0;
                &&& hand.len() == k
                &&& all_valid(hand)
                &&& forall|j: int| 0 <= j < hand.len() ==> face <= #[trigger] hand[j]
            },
    decreases 7 - face, 1nat, c,
{
    let below = outcomes(face + 1, (k - c) as nat);
    lemma_outcomes_shape(face + 1, (k - c) as nat);
    let blk = block(face, k, c);
    assert(blk == extend_all(below, face as Die, c, binomial(k, c)));
    assert forall|i: int| 0 <= i < blk.len() implies {
        let hand = (#[trigger] blk[i]).0;
        &&& hand.len() == k
        &&& all_valid(hand)
        &&& forall|j: int| 0 <= j < hand.len() ==> face <= #[trigger] hand[j]
    } by {
        let hand = blk[i].0;
        let rest = below[i].0;
        assert(hand == repeat(face as Die, c) + rest);
        assert forall|j: int| 0 <= j < hand.len() implies face <= #[trigger] hand[j] && hand[j]
            <= 6 by {
            if j >= c {
                assert(hand[j] == rest[j - c]);
            }
        }
    }
    if c > 0 {
        lemma_taking_shape(face, k, (c - 1) as nat);
        assert(taking(face, k, c) == blk + taking(face, k, (c - 1) as nat));
    } else {
        assert(taking(face, k, 0) == blk);
    }
}

/// The number of ways to choose `c` of `n` things, for up to five things.
fn binomial_of(n: usize, c: usize) -> (b: u16)
    requires
        c <= n <= 5,
    ensures
        b == binomial(n as nat, c as nat),
        b <= 10,
{
    proof {
        lemma_binomial_values();
    }
    if c == 0 || c == n {
        1
    } else if c == 1 || c + 1 == n {
        if n == 2 {
            2
        } else if n == 3 {
            3
        } else if n == 4 {
            4
        } else {
            5
        }
    } else if n == 4 {
        6
    } else {
        10
    }
}

/// The table of `k` dice that show no face below `face`.
fn outcomes_from(face: u8, k: usize) -> (t: Vec<(Vec<Die>, u16)>)
    requires
        1 <= face <= 7,
        k <= 5,
    ensures
        table_view(t@) == outcomes(face as nat, k as nat),
        forall|i: int| 0 <= i < t@.len() ==> (#[trigger] t@[i]).1 <= factorial(k as nat),
    decreases 7 - face,
{
    let mut out: Vec<(Vec<Die>, u16)> = Vec::new();
    if face > 6 {
        if k == 0 {
            out.push((Vec::new(), 1u16));
            proof {
                lemma_factorial_values();
                assert(table_view(out@) =~= outcomes(face as nat, 0));
            }
        } else {
            proof {
                assert(table_view(out@) =~= outcomes(face as nat, k as nat));
            }
        }
        return out;
    }
    let mut left: usize = k + 1;
    proof {
        assert(table_view(out@) + taking(face as nat, k as nat, k as nat) =~= taking(
            face as nat,
            k as nat,
            k as nat,
        ));
    }
    while left > 0
        invariant
            1 <= face <= 6,
            k <= 5,
            left <= k + 1,
            left > 0 ==> table_view(out@) + taking(face as nat, k as nat, (left - 1) as nat)
                == taking(face as nat, k as nat, k as nat),
            left == 0 ==> table_view(out@) == taking(face as nat, k as nat, k as nat),
            forall|i: int| 0 <= i < out@.len() ==> (#[trigger] out@[i]).1 <= factorial(k as nat),
        decreases left,
    {
        let c = left - 1;
        let sub = outcomes_from(face + 1, k - c);
        let pick = binomial_of(k, c);
        let ghost before = table_view(out@);
        let ghost blk = block(face as nat, k as nat, c as nat);
        let mut j: usize = 0;
        proof {
            assert(blk == extend_all(
                outcomes((face + 1) as nat, (k - c) as nat),
                face,
                c as nat,
                binomial(k as nat, c as nat),
            ));
            assert(before + blk.take(0) =~= before);
        }
        while j < sub.len()
            invariant
                1 <= face <= 6,
                c <= k <= 5,
                j <= sub@.len(),
                pick == binomial(k as nat, c as nat),
                table_view(sub@) == outcomes((face + 1) as nat, (k - c) as nat),
                blk == extend_all(table_view(sub@), face, c as nat, pick as nat),
                table_view(out@) == before + blk.take(j as int),
                forall|i: int|
                    0 <= i < sub@.len() ==> (#[trigger] sub@[i]).1 <= factorial((k - c) as nat),
                forall|i: int|
                    0 <= i < out@.len() ==> (#[trigger] out@[i]).1 <= factorial(k as nat),
            decreases sub@.len() - j,
        {
            let mut dice: Vec<Die> = Vec::new();
            let mut m: usize = 0;
            while m < c
                invariant
                    m <= c,
                    dice@ == repeat(face, m as nat),
                decreases c - m,
            {
                dice.push(face);
                m = m + 1;
                proof {
                    assert(dice@ =~= repeat(face, m as nat));
                }
            }
            let mut x: usize = 0;
            proof {
                assert(dice@ =~= repeat(face, c as nat) + sub@[j as int].0@.take(0));
            }
            while x < sub[j].0.len()
                invariant
                    j < sub@.len(),
                    x <= sub@[j as int].0@.len(),
                    dice@ == repeat(face, c as nat) + sub@[j as int].0@.take(x as int),
                decreases sub@[j as int].0@.len() - x,
            {
                dice.push(sub[j].0[x]);
                x = x + 1;
                proof {
                    assert(dice@ =~= repeat(face, c as nat) + sub@[j as int].0@.take(x as int));
                }
            }
            proof {
                assert(sub@[j as int].0@.take(x as int) =~= sub@[j as int].0@);
                lemma_pick_bound(k as nat, c as nat, sub@[j as int].1 as nat);
            }
            let ways: u16 = pick * sub[j].1;
            let ghost grown = out@;
            out.push((dice, ways));
            proof {
                assert(table_view(sub@)[j as int] == (sub@[j as int].0@, sub@[j as int].1 as nat));
                assert(blk[j as int] == extended(face, c as nat, pick as nat, table_view(sub@)[j as int]));
                assert(table_view(out@) =~= (before + blk.take(j as int)).push(blk[j as int]));
                assert(table_view(out@) =~= before + blk.take(j + 1));
                assert forall|i: int| 0 <= i < out@.len() implies (#[trigger] out@[i]).1
                    <= factorial(k as nat) by {
                    if i < grown.len() {
                        assert(out@[i] == grown[i]);
                    }
                }
            }
            j = j + 1;
        }
        proof {
            assert(blk.take(j as int) =~= blk);
            if c == 0 {
                assert(taking(face as nat, k as nat, 0) == blk);
            } else {
                let rest = taking(face as nat, k as nat, (c - 1) as nat);
                assert(taking(face as nat, k as nat, c as nat) == blk + rest);
                assert((before + blk) + rest =~= before + (blk + rest));
            }
        }
        left = left - 1;
    }
    out
}

/// The table of a roll of `k` dice: every ascending hand of `k` dice, in the order of the
/// dictionary, each with the number of the `6^k` ordered rolls that give it.
pub fn roll_outcomes(k: usize) -> (t: Vec<(Vec<Die>, u16)>)
    requires
        k <= 5,
    ensures
        table_view(t@) == roll_table(k as nat),
        forall|i: int|
            0 <= i < t@.len() ==> {
                &&& (#[trigger] t@[i]).0@.len() == k
                &&& all_valid(t@[i].0@)
                &&& 1 <= t@[i].1 <= 120
            },
{
    let t = outcomes_from(1, k);
    proof {
        lemma_outcomes_shape(1, k as nat);
        lemma_factorial_values();
        lemma_outcomes_positive(1, k as nat);
        assert forall|i: int| 0 <= i < t@.len() implies {
            &&& (#[trigger] t@[i]).0@.len() == k
            &&& all_valid(t@[i].0@)
            &&& 1 <= t@[i].1 <= 120
        } by {
            assert(table_view(t@)[i] == (t@[i].0@, t@[i].1 as nat));
            assert(outcomes(1, k as nat)[i].0 == t@[i].0@);
            lemma_pick_bound(k as nat, 0, 1);
        }
    }
    t
}

/// Every outcome in a table stands for at least one ordered roll.
pub proof fn lemma_outcomes_positive(face: nat, k: nat)
    requires
        1 <= face <= 7,
        k <= 5,
    ensures
        forall|i: int| 0 <= i < outcomes(face, k).len() ==> (#[trigger] outcomes(face, k)[i]).1 >= 1,
    decreases 7 - face, 2nat, 0nat,
{
    let t = outcomes(face, k);
    if face <= 6 {
        lemma_taking_positive(face, k, k);
        assert(t == taking(face, k, k));
    } else if k == 0 {
        assert(t.len() == 1);
        assert(t[0].1 == 1);
    } else {
        assert(t.len() == 0);
    }
}

proof fn lemma_taking_positive(face: nat, k: nat, c: nat)
    requires
        1 <= face <= 6,
        c <= k <= 5,
    ensures
        forall|i: int|
            0 <= i < taking(face, k, c).len() ==> (#[trigger] taking(face, k, c)[i]).1 >= 1,
    decreases 7 - face, 1nat, c,
{
    let below = outcomes(face + 1, (k - c) as nat);
    lemma_outcomes_positive(face + 1, (k - c) as nat);
    lemma_binomial_values();
    let blk = block(face, k, c);
    assert(blk == extend_all(below, face as Die, c, binomial(k, c)));
    assert(binomial(k, c) >= 1);
    assert forall|i: int| 0 <= i < blk.len() implies (#[trigger] blk[i]).1 >= 1 by {
        let b = binomial(k, c);
        let w = below[i].1;
        assert(blk[i].1 == b * w);
        assert(b * w >= 1) by (nonlinear_arith)
            requires
                b >= 1,
                w >= 1,
        ;
    }
    if c > 0 {
        lemma_taking_positive(face, k, (c - 1) as nat);
        assert(taking(face, k, c) == blk + taking(face, k, (c - 1) as nat));
    } else {
        assert(taking(face, k, 0) == blk);
    }
}


/// Any number of dice in ascending order: no die shows less than one before it.
pub open spec fn nondecreasing(s: Seq<Die>) -> bool {
    forall|a: int, b: int| 0 <= a <= b < s.len() ==> s[a] <= s[b]
}

/// Every outcome in the table of `k` dice from `face` up is in ascending order.
pub proof fn lemma_outcomes_ordered(face: nat, k: nat)
    requires
        1 <= face <= 7,
    ensures
        forall|i: int|
            0 <= i < outcomes(face, k).len() ==> nondecreasing((#[trigger] outcomes(face, k)[i]).0),
    decreases 7 - face, 2nat, 0nat,
{
    let t = outcomes(face, k);
    if face <= 6 {
        lemma_taking_ordered(face, k, k);
        assert(t == taking(face, k, k));
    } else if k == 0 {
        assert(t.len() == 1);
        assert(t[0].0.len() == 0);
    } else {
        assert(t.len() == 0);
    }
}

proof fn lemma_taking_ordered(face: nat, k: nat, c: nat)
    requires
        1 <= face <= 6,
        c <= k,
    ensures
        forall|i: int|
            0 <= i < taking(face, k, c).len() ==> nondecreasing((#[trigger] taking(face, k, c)[i]).0),
    decreases 7 - face, 1nat, c,
{
    let below = outcomes(face + 1, (k - c) as nat);
    lemma_outcomes_ordered(face + 1, (k - c) as nat);
    lemma_outcomes_shape(face + 1, (k - c) as nat);
    let blk = block(face, k, c);
    assert(blk == extend_all(below, face as Die, c, binomial(k, c)));
    assert forall|i: int| 0 <= i < blk.len() implies nondecreasing((#[trigger] blk[i]).0) by {
        let hand = blk[i].0;
        let rest = below[i].0;
        assert(hand == repeat(face as Die, c) + rest);
        assert forall|a: int, b: int| 0 <= a <= b < hand.len() implies hand[a] <= hand[b] by {
            if b < c {
            } else if a < c {
                assert(hand[b] == rest[b - c]);
            } else {
                assert(hand[a] == rest[a - c]);
                assert(hand[b] == rest[b - c]);
            }
        }
    }
    if c > 0 {
        lemma_taking_ordered(face, k, (c - 1) as nat);
        assert(taking(face, k, c) == blk + taking(face, k, (c - 1) as nat));
    } else {
        assert(taking(face, k, 0) == blk);
    }
}

/// Every outcome of the roll of five dice is a canonical hand.
pub proof fn lemma_outcomes_sorted(k: nat, i: int)
    requires
        k == 5,
        0 <= i < roll_table(k).len(),
    ensures
        crate::dice::sorted_dice(roll_table(k)[i].0),
{
    lemma_outcomes_ordered(1, 5);
    lemma_outcomes_shape(1, 5);
    let hand = roll_table(5)[i].0;
    assert(nondecreasing(hand));
    assert(hand.len() == 5);
    assert(hand[0] <= hand[1] && hand[1] <= hand[2] && hand[2] <= hand[3] && hand[3] <= hand[4]);
}


/// The product of the factorials of the numbers of dice of `hand` that show each face from
/// `face` up.
pub open spec fn divisor_from(hand: Seq<Die>, face: nat) -> nat
    decreases 7 - face,
{
    if face > 6 {
        1
    } else {
        factorial(count(hand, face as Die)) * divisor_from(hand, face + 1)
    }
}

/// The number of ordered rolls that give the hand: the multinomial coefficient of the numbers
/// of dice that show each face, that is, the factorial of the number of dice over the
/// product of the factorials of those numbers.
pub open spec fn is_orderings(hand: Seq<Die>, ways: nat) -> bool {
    ways * divisor_from(hand, 1) == factorial(hand.len())
}

proof fn lemma_count_repeat(face: Die, c: nat, v: Die)
    ensures
        count(repeat(face, c), v) == if v == face {
            c
        } else {
            0
        },
    decreases c,
{
    if c > 0 {
        assert(repeat(face, c).drop_last() =~= repeat(face, (c - 1) as nat));
        lemma_count_repeat(face, (c - 1) as nat, v);
    }
}

proof fn lemma_count_absent(s: Seq<Die>, v: Die)
    requires
        forall|i: int| 0 <= i < s.len() ==> #[trigger] s[i] != v,
    ensures
        count(s, v) == 0,
    decreases s.len(),
{
    if s.len() > 0 {
        let t = s.drop_last();
        assert forall|i: int| 0 <= i < t.len() implies #[trigger] t[i] != v by {
            assert(t[i] == s[i]);
        }
        lemma_count_absent(t, v);
    }
}

/// Dice in front that show a lower face change nothing in the counts of the faces from
/// `from` up.
proof fn lemma_divisor_behind(front: Seq<Die>, rest: Seq<Die>, low: Die, from: nat)
    requires
        forall|i: int| 0 <= i < front.len() ==> #[trigger] front[i] == low,
        low < from,
        from <= 7,
    ensures
        divisor_from(front + rest, from) == divisor_from(rest, from),
    decreases 7 - from,
{
    if from <= 6 {
        lemma_divisor_behind(front, rest, low, from + 1);
        lemma_count_concat(front, rest, from as Die);
        lemma_count_absent(front, from as Die);
    }
}

proof fn lemma_pick_orderings(k: nat, c: nat)
    requires
        c <= k <= 5,
    ensures
        binomial(k, c) * factorial(c) * factorial((k - c) as nat) == factorial(k),
{
    lemma_factorial_values();
    lemma_binomial_values();
    let b = binomial(k, c);
    let x = factorial(c);
    let y = factorial((k - c) as nat);
    let z = factorial(k);
    if k == 0 && c == 0 {
        assert(b * x * y == z) by (nonlinear_arith)
            requires
                b == 1,
                x == 1,
                y == 1,
                z == 1,
        ;
    } else if k == 1 && c == 0 {
        assert(b * x * y == z) by (nonlinear_arith)
            requires
                b == 1,
                x == 1,
                y == 1,
                z == 1,
        ;
    } else if k == 1 && c == 1 {
        assert(b * x * y == z) by (nonlinear_arith)
            requires
                b == 1,
                x == 1,
                y == 1,
                z == 1,
        ;
    } else if k == 2 && c == 0 {
        assert(b * x * y == z) by (nonlinear_arith)
            requires
                b == 1,
                x == 1,
                y == 2,
                z == 2,
        ;
    } else if k == 2 && c == 1 {
        assert(b * x * y == z) by (nonlinear_arith)
            requires
                b == 2,
                x == 1,
                y == 1,
                z == 2,
        ;
    } else if k == 2 && c == 2 {
        assert(b * x * y == z) by (nonlinear_arith)
            requires
                b == 1,
                x == 2,
                y == 1,
                z == 2,
        ;
    } else if k == 3 && c == 0 {
        assert(b * x * y == z) by (nonlinear_arith)
            requires
                b == 1,
                x == 1,
                y == 6,
                z == 6,
        ;
    } else if k == 3 && c == 1 {
        assert(b * x * y == z) by (nonlinear_arith)
            requires
                b == 3,
                x == 1,
                y == 2,
                z == 6,
        ;
    } else if k == 3 && c == 2 {
        assert(b * x * y == z) by (nonlinear_arith)
            requires
                b == 3,
                x == 2,
                y == 1,
                z == 6,
        ;
    } else if k == 3 && c == 3 {
        assert(b * x * y == z) by (nonlinear_arith)
            requires
                b == 1,
                x == 6,
                y == 1,
                z == 6,
        ;
    } else if k == 4 && c == 0 {
        assert(b * x * y == z) by (nonlinear_arith)
            requires
                b == 1,
                x == 1,
                y == 24,
                z == 24,
        ;
    } else if k == 4 && c == 1 {
        assert(b * x * y == z) by (nonlinear_arith)
            requires
                b == 4,
                x == 1,
                y == 6,
                z == 24,
        ;
    } else if k == 4 && c == 2 {
        assert(b * x * y == z) by (nonlinear_arith)
            requires
                b == 6,
                x == 2,
                y == 2,
                z == 24,
        ;
    } else if k == 4 && c == 3 {
        assert(b * x * y == z) by (nonlinear_arith)
            requires
                b == 4,
                x == 6,
                y == 1,
                z == 24,
        ;
    } else if k == 4 && c == 4 {
        assert(b * x * y == z) by (nonlinear_arith)
            requires
                b == 1,
                x == 24,
                y == 1,
                z == 24,
        ;
    } else if k == 5 && c == 0 {
        assert(b * x * y == z) by (nonlinear_arith)
            requires
                b == 1,
                x == 1,
                y == 120,
                z == 120,
        ;
    } else if k == 5 && c == 1 {
        assert(b * x * y == z) by (nonlinear_arith)
            requires
                b == 5,
                x == 1,
                y == 24,
                z == 120,
        ;
    } else if k == 5 && c == 2 {
        assert(b * x * y == z) by (nonlinear_arith)
            requires
                b == 10,
                x == 2,
                y == 6,
                z == 120,
        ;
    } else if k == 5 && c == 3 {
        assert(b * x * y == z) by (nonlinear_arith)
            requires
                b == 10,
                x == 6,
                y == 2,
                z == 120,
        ;
    } else if k == 5 && c == 4 {
        assert(b * x * y == z) by (nonlinear_arith)
            requires
                b == 5,
                x == 24,
                y == 1,
                z == 120,
        ;
    } else if k == 5 && c == 5 {
        assert(b * x * y == z) by (nonlinear_arith)
            requires
                b == 1,
                x == 120,
                y == 1,
                z == 120,
        ;
    }
}

/// Every outcome in the table of `k` dice from `face` up stands for as many ordered rolls as
/// the multinomial coefficient of its counts says.
proof fn lemma_outcomes_orderings(face: nat, k: nat)
    requires
        1 <= face <= 7,
        k <= 5,
    ensures
        forall|i: int|
            0 <= i < outcomes(face, k).len() ==> (#[trigger] outcomes(face, k)[i]).1 * divisor_from(
                outcomes(face, k)[i].0,
                face,
            ) == factorial(k),
    decreases 7 - face, 2nat, 0nat,
{
    let t = outcomes(face, k);
    if face <= 6 {
        lemma_taking_orderings(face, k, k);
        assert(t == taking(face, k, k));
    } else if k == 0 {
        assert(t.len() == 1);
        assert(t[0].1 == 1);
        assert(factorial(0) == 1);
        assert(divisor_from(t[0].0, face) == 1);
    } else {
        assert(t.len() == 0);
    }
}

proof fn lemma_taking_orderings(face: nat, k: nat, c: nat)
    requires
        1 <= face <= 6,
        c <= k <= 5,
    ensures
        forall|i: int|
            0 <= i < taking(face, k, c).len() ==> (#[trigger] taking(face, k, c)[i]).1
                * divisor_from(taking(face, k, c)[i].0, face) == factorial(k),
    decreases 7 - face, 1nat, c,
{
    let below = outcomes(face + 1, (k - c) as nat);
    lemma_outcomes_orderings(face + 1, (k - c) as nat);
    lemma_outcomes_shape(face + 1, (k - c) as nat);
    let blk = block(face, k, c);
    let pick = binomial(k, c);
    assert(blk == extend_all(below, face as Die, c, pick));
    assert forall|i: int| 0 <= i < blk.len() implies (#[trigger] blk[i]).1 * divisor_from(
        blk[i].0,
        face,
    ) == factorial(k) by {
        let front = repeat(face as Die, c);
        let rest = below[i].0;
        let hand = blk[i].0;
        assert(hand == front + rest);
        lemma_count_concat(front, rest, face as Die);
        lemma_count_repeat(face as Die, c, face as Die);
        assert forall|j: int| 0 <= j < rest.len() implies #[trigger] rest[j] != face by {
            assert(face + 1 <= rest[j]);
        }
        lemma_count_absent(rest, face as Die);
        lemma_divisor_behind(front, rest, face as Die, face + 1);
        lemma_pick_orderings(k, c);
        let w = below[i].1;
        let d = divisor_from(rest, face + 1);
        let x = factorial(c);
        let y = factorial((k - c) as nat);
        assert(count(hand, face as Die) == c);
        assert(divisor_from(hand, face) == x * d);
        assert(w * d == y);
        assert(blk[i].1 == pick * w);
        assert((pick * w) * (x * d) == pick * x * y) by (nonlinear_arith)
            requires
                w * d == y,
        ;
    }
    if c > 0 {
        lemma_taking_orderings(face, k, (c - 1) as nat);
        assert(taking(face, k, c) == blk + taking(face, k, (c - 1) as nat));
    } else {
        assert(taking(face, k, 0) == blk);
    }
}

/// Each outcome in the table of a roll of up to five dice stands for as many ordered rolls
/// as there are orderings of its dice: the multinomial coefficient of its counts.
pub proof fn roll_table_counts_orderings(k: nat, i: int)
    requires
        k <= 5,
        0 <= i < roll_table(k).len(),
    ensures
        is_orderings(roll_table(k)[i].0, roll_table(k)[i].1),
{
    lemma_outcomes_orderings(1, k);
    lemma_outcomes_shape(1, k);
}


/// How many dice at the front of the hand, from place `from` on, show the face `face`.
pub open spec fn leading(h: Seq<Die>, face: nat, from: int) -> int
    decreases h.len() - from,
{
    if from < 0 || from >= h.len() || h[from] != face {
        0
    } else {
        1 + leading(h, face, from + 1)
    }
}

proof fn lemma_leading(h: Seq<Die>, face: nat, from: int)
    requires
        0 <= from <= h.len(),
    ensures
        0 <= leading(h, face, from) <= h.len() - from,
        forall|j: int| from <= j < from + leading(h, face, from) ==> #[trigger] h[j] == face,
        from + leading(h, face, from) < h.len() ==> h[from + leading(h, face, from)] != face,
    decreases h.len() - from,
{
    if from < h.len() && h[from] == face {
        lemma_leading(h, face, from + 1);
    }
}

/// Every outcome with `c` dice of `face` is among the outcomes with at most `top` such dice.
proof fn lemma_block_in_taking(face: nat, k: nat, c: nat, top: nat, j: int)
    requires
        1 <= face <= 6,
        c <= top <= k,
        0 <= j < block(face, k, c).len(),
    ensures
        exists|i: int|
            0 <= i < taking(face, k, top).len() && #[trigger] taking(face, k, top)[i] == block(
                face,
                k,
                c,
            )[j],
    decreases top,
{
    let all = taking(face, k, top);
    if c == top {
        if top == 0 {
            assert(all == block(face, k, 0));
            assert(all[j] == block(face, k, c)[j]);
        } else {
            assert(all == block(face, k, top) + taking(face, k, (top - 1) as nat));
            assert(all[j] == block(face, k, c)[j]);
        }
    } else {
        lemma_block_in_taking(face, k, c, (top - 1) as nat, j);
        let below = taking(face, k, (top - 1) as nat);
        let i = choose|i: int| 0 <= i < below.len() && #[trigger] below[i] == block(face, k, c)[j];
        let first = block(face, k, top);
        assert(all == first + below);
        assert(all[first.len() + i] == below[i]);
    }
}

/// Every ascending hand of `k` dice that shows no face below `face` is in the table of `k`
/// dice from `face` up.
proof fn lemma_outcomes_complete(face: nat, k: nat, h: Seq<Die>)
    requires
        1 <= face <= 7,
        h.len() == k,
        nondecreasing(h),
        forall|j: int| 0 <= j < h.len() ==> face <= #[trigger] h[j] <= 6,
    ensures
        exists|i: int| 0 <= i < outcomes(face, k).len() && (#[trigger] outcomes(face, k)[i]).0 == h,
    decreases 7 - face,
{
    let t = outcomes(face, k);
    if face > 6 {
        if k > 0 {
            assert(face <= h[0] <= 6);
        }
        assert(t.len() == 1);
        assert(t[0].0 =~= h);
    } else {
        lemma_leading(h, face, 0);
        let c = leading(h, face, 0) as nat;
        let rest = h.subrange(c as int, k as int);
        assert forall|j: int| 0 <= j < rest.len() implies face + 1 <= #[trigger] rest[j] <= 6 by {
            assert(rest[j] == h[c + j]);
            assert(h[c as int] <= h[c + j]);
            assert(face <= h[c as int] <= 6);
        }
        assert forall|a: int, b: int| 0 <= a <= b < rest.len() implies rest[a] <= rest[b] by {
            assert(rest[a] == h[c + a] && rest[b] == h[c + b]);
        }
        lemma_outcomes_complete(face + 1, (k - c) as nat, rest);
        let below = outcomes(face + 1, (k - c) as nat);
        let j = choose|j: int| 0 <= j < below.len() && (#[trigger] below[j]).0 == rest;
        let blk = block(face, k, c);
        assert(blk == extend_all(below, face as Die, c, binomial(k, c)));
        assert(blk[j].0 == repeat(face as Die, c) + rest);
        assert(repeat(face as Die, c) + rest =~= h);
        lemma_block_in_taking(face, k, c, k, j);
        assert(t == taking(face, k, k));
        let i = choose|i: int| 0 <= i < t.len() && #[trigger] t[i] == blk[j];
        assert(t[i].0 == h);
    }
}

/// The table of a roll of `k` dice leaves no hand out: every ascending hand of `k` valid
/// dice is the hand of one of its outcomes.
pub proof fn roll_table_holds_every_hand(k: nat, h: Seq<Die>)
    requires
        h.len() == k,
        nondecreasing(h),
        all_valid(h),
    ensures
        exists|i: int| 0 <= i < roll_table(k).len() && (#[trigger] roll_table(k)[i]).0 == h,
{
    assert forall|j: int| 0 <= j < h.len() implies 1 <= #[trigger] h[j] <= 6 by {
        assert(crate::dice::valid_die(h[j]));
    }
    lemma_outcomes_complete(1, k, h);
    let i = choose|i: int| 0 <= i < outcomes(1, k).len() && (#[trigger] outcomes(1, k)[i]).0 == h;
    assert(roll_table(k)[i].0 == h);
}

} // verus!
