use rand::distr::{Distribution, Uniform};
use rand::rngs::ThreadRng;
use vstd::prelude::*;

verus! {

/// The face of one die. A real die shows 1 to 6.
pub type Die = u8;

/// Whether `d` is a face that a die can show.
pub open spec fn valid_die(d: Die) -> bool {
    1 <= d <= 6
}

/// 1 where the two faces agree, 0 where they differ.
pub open spec fn ind(x: Die, v: Die) -> nat {
    if x == v {
        1
    } else {
        0
    }
}

/// How many entries of `s` show the face `v`.
pub open spec fn count(s: Seq<Die>, v: Die) -> nat
    decreases s.len(),
{
    if s.len() == 0 {
        0
    } else {
        count(s.drop_last(), v) + ind(s.last(), v)
    }
}

/// Five faces in ascending order.
pub open spec fn ascending(s: Seq<Die>) -> bool {
    &&& s.len() == 5
    &&& s[0] <= s[1]
    &&& s[1] <= s[2]
    &&& s[2] <= s[3]
    &&& s[3] <= s[4]
}

/// Every entry of `s` is a face that a die can show.
pub open spec fn all_valid(s: Seq<Die>) -> bool {
    forall|i: int| 0 <= i < s.len() ==> valid_die(#[trigger] s[i])
}

/// The canonical form of a hand: five valid faces in ascending order.
pub open spec fn sorted_dice(s: Seq<Die>) -> bool {
    ascending(s) && all_valid(s)
}

/// Whether the faces of `part` can all be taken out of `whole`, each die once.
pub open spec fn contained_in(part: Seq<Die>, whole: Seq<Die>) -> bool {
    forall|v: Die| #[trigger] count(part, v) <= count(whole, v)
}

/// Whether `after` holds what `before` holds once `gone` is taken out and `come` is put in.
pub open spec fn exchanged(before: Seq<Die>, gone: Seq<Die>, come: Seq<Die>, after: Seq<Die>) -> bool {
    forall|v: Die| #[trigger] count(after, v) == count(before, v) - count(gone, v) + count(come, v)
}

/// Whether two sequences hold the same faces, each as often.
pub open spec fn same_faces(a: Seq<Die>, b: Seq<Die>) -> bool {
    forall|v: Die| #[trigger] count(a, v) == count(b, v)
}

pub proof fn lemma_count_push(s: Seq<Die>, x: Die, v: Die)
    ensures
        count(s.push(x), v) == count(s, v) + ind(x, v),
{
    assert(s.push(x).drop_last() =~= s);
}

pub proof fn lemma_count_concat(a: Seq<Die>, b: Seq<Die>, v: Die)
    ensures
        count(a + b, v) == count(a, v) + count(b, v),
    decreases b.len(),
{
    if b.len() == 0 {
        assert(a + b =~= a);
    } else {
        assert((a + b).drop_last() =~= a + b.drop_last());
        lemma_count_concat(a, b.drop_last(), v);
    }
}

pub proof fn lemma_count_five(s: Seq<Die>, v: Die)
    requires
        s.len() == 5,
    ensures
        count(s, v) == ind(s[0], v) + ind(s[1], v) + ind(s[2], v) + ind(s[3], v) + ind(s[4], v),
{
    let four = s.drop_last();
    let three = four.drop_last();
    let two = three.drop_last();
    let one = two.drop_last();
    let none = one.drop_last();
    assert(count(none, v) == 0);
    assert(count(one, v) == ind(s[0], v));
    assert(count(two, v) == count(one, v) + ind(s[1], v));
    assert(count(three, v) == count(two, v) + ind(s[2], v));
    assert(count(four, v) == count(three, v) + ind(s[3], v));
}

pub proof fn lemma_count_prefix(s: Seq<Die>, k: int, v: Die)
    requires
        0 <= k <= s.len(),
    ensures
        count(s.take(k), v) <= count(s, v),
        k < s.len() ==> count(s.take(k + 1), v) == count(s.take(k), v) + ind(s[k], v),
    decreases s.len() - k,
{
    if k < s.len() {
        assert(s.take(k + 1).drop_last() =~= s.take(k));
        lemma_count_prefix(s, k + 1, v);
    } else {
        assert(s.take(k) =~= s);
    }
}

/// The face at place `i` of the ascending hand that shows the face 1 `n1` times, the face 2
/// `n2` times and so on, and the face 6 at the places that are left.
pub open spec fn face_at(n1: int, n2: int, n3: int, n4: int, n5: int, i: int) -> Die {
    if i < n1 {
        1
    } else if i < n1 + n2 {
        2
    } else if i < n1 + n2 + n3 {
        3
    } else if i < n1 + n2 + n3 + n4 {
        4
    } else if i < n1 + n2 + n3 + n4 + n5 {
        5
    } else {
        6
    }
}

/// The ascending hand of five dice that shows the face 1 `n1` times, the face 2 `n2` times
/// and so on, and the face 6 on the dice that are left.
pub open spec fn spread(n1: int, n2: int, n3: int, n4: int, n5: int) -> Seq<Die> {
    Seq::new(5, |i: int| face_at(n1, n2, n3, n4, n5, i))
}

/// The hand that is left when `gone` is taken out of `before` and `come` is put in: the
/// ascending hand that shows each face as often as `before` without `gone` and with `come`
/// shows it.
pub open spec fn rerolled(before: Seq<Die>, gone: Seq<Die>, come: Seq<Die>) -> Seq<Die> {
    spread(
        count(before, 1) - count(gone, 1) + count(come, 1),
        count(before, 2) - count(gone, 2) + count(come, 2),
        count(before, 3) - count(gone, 3) + count(come, 3),
        count(before, 4) - count(gone, 4) + count(come, 4),
        count(before, 5) - count(gone, 5) + count(come, 5),
    )
}

/// The hand spread out from its counts is ascending and shows each face as often as asked.
pub proof fn lemma_spread(n1: int, n2: int, n3: int, n4: int, n5: int, n6: int)
    requires
        0 <= n1,
        0 <= n2,
        0 <= n3,
        0 <= n4,
        0 <= n5,
        0 <= n6,
        n1 + n2 + n3 + n4 + n5 + n6 == 5,
    ensures
        sorted_dice(spread(n1, n2, n3, n4, n5)),
        count(spread(n1, n2, n3, n4, n5), 1) == n1,
        count(spread(n1, n2, n3, n4, n5), 2) == n2,
        count(spread(n1, n2, n3, n4, n5), 3) == n3,
        count(spread(n1, n2, n3, n4, n5), 4) == n4,
        count(spread(n1, n2, n3, n4, n5), 5) == n5,
        count(spread(n1, n2, n3, n4, n5), 6) == n6,
{
    let s = spread(n1, n2, n3, n4, n5);
    lemma_count_five(s, 1);
    lemma_count_five(s, 2);
    lemma_count_five(s, 3);
    lemma_count_five(s, 4);
    lemma_count_five(s, 5);
    lemma_count_five(s, 6);
    assert(s[0] == face_at(n1, n2, n3, n4, n5, 0));
    assert(s[1] == face_at(n1, n2, n3, n4, n5, 1));
    assert(s[2] == face_at(n1, n2, n3, n4, n5, 2));
    assert(s[3] == face_at(n1, n2, n3, n4, n5, 3));
    assert(s[4] == face_at(n1, n2, n3, n4, n5, 4));
}

/// Valid dice show the six faces as many times together as there are dice.
pub proof fn lemma_len_is_counts(s: Seq<Die>)
    requires
        all_valid(s),
    ensures
        count(s, 1) + count(s, 2) + count(s, 3) + count(s, 4) + count(s, 5) + count(s, 6)
            == s.len(),
    decreases s.len(),
{
    if s.len() > 0 {
        let t = s.drop_last();
        assert forall|i: int| 0 <= i < t.len() implies valid_die(#[trigger] t[i]) by {
            assert(t[i] == s[i]);
        }
        lemma_len_is_counts(t);
        lemma_one_face(s.last());
    }
}

/// How many of the six faces a die shows: one, where the die is valid.
pub open spec fn faces_shown(x: Die) -> nat {
    ind(x, 1) + ind(x, 2) + ind(x, 3) + ind(x, 4) + ind(x, 5) + ind(x, 6)
}

proof fn lemma_one_face(x: Die)
    requires
        valid_die(x),
    ensures
        faces_shown(x) == 1,
{
}

/// A hand of five valid dice shows the six faces five times together.
pub proof fn lemma_counts_add_up(s: Seq<Die>)
    requires
        s.len() == 5,
        all_valid(s),
    ensures
        count(s, 1) + count(s, 2) + count(s, 3) + count(s, 4) + count(s, 5) + count(s, 6) == 5,
{
    lemma_count_five(s, 1);
    lemma_count_five(s, 2);
    lemma_count_five(s, 3);
    lemma_count_five(s, 4);
    lemma_count_five(s, 5);
    lemma_count_five(s, 6);
    lemma_one_face(s[0]);
    lemma_one_face(s[1]);
    lemma_one_face(s[2]);
    lemma_one_face(s[3]);
    lemma_one_face(s[4]);
    assert(count(s, 1) + count(s, 2) + count(s, 3) + count(s, 4) + count(s, 5) + count(s, 6)
        == faces_shown(s[0]) + faces_shown(s[1]) + faces_shown(s[2]) + faces_shown(s[3])
        + faces_shown(s[4]));
}

/// A canonical hand is the hand spread out from its own counts.
pub proof fn lemma_spread_of_counts(s: Seq<Die>)
    requires
        sorted_dice(s),
    ensures
        s == spread(
            count(s, 1) as int,
            count(s, 2) as int,
            count(s, 3) as int,
            count(s, 4) as int,
            count(s, 5) as int,
        ),
{
    lemma_counts_add_up(s);
    let t = spread(
            count(s, 1) as int,
            count(s, 2) as int,
            count(s, 3) as int,
            count(s, 4) as int,
            count(s, 5) as int,
        );
    lemma_spread(
        count(s, 1) as int,
        count(s, 2) as int,
        count(s, 3) as int,
        count(s, 4) as int,
        count(s, 5) as int,
        count(s, 6) as int,
    );
    assert forall|v: Die| #[trigger] count(s, v) == count(t, v) by {
        if !valid_die(v) {
            lemma_count_five(s, v);
            lemma_count_five(t, v);
            assert(valid_die(s[0]) && valid_die(s[1]) && valid_die(s[2]) && valid_die(s[3])
                && valid_die(s[4]));
            assert(valid_die(t[0]) && valid_die(t[1]) && valid_die(t[2]) && valid_die(t[3])
                && valid_die(t[4]));
        }
    }
    lemma_ascending_unique(s, t);
}

/// Two ascending hands that hold the same faces are the same hand.
pub proof fn lemma_ascending_unique(a: Seq<Die>, b: Seq<Die>)
    requires
        ascending(a),
        ascending(b),
        same_faces(a, b),
    ensures
        a == b,
{
    assert forall|i: int| 0 <= i < 5 implies a[i] == b[i] by {
        lemma_count_five(a, a[0]);
        lemma_count_five(b, a[0]);
        lemma_count_five(a, a[1]);
        lemma_count_five(b, a[1]);
        lemma_count_five(a, a[2]);
        lemma_count_five(b, a[2]);
        lemma_count_five(a, a[3]);
        lemma_count_five(b, a[3]);
        lemma_count_five(a, a[4]);
        lemma_count_five(b, a[4]);
        lemma_count_five(a, b[0]);
        lemma_count_five(b, b[0]);
        lemma_count_five(a, b[1]);
        lemma_count_five(b, b[1]);
        lemma_count_five(a, b[2]);
        lemma_count_five(b, b[2]);
        lemma_count_five(a, b[3]);
        lemma_count_five(b, b[3]);
        lemma_count_five(a, b[4]);
        lemma_count_five(b, b[4]);
        assert(count(a, a[0]) == count(b, a[0]));
        assert(count(a, a[1]) == count(b, a[1]));
        assert(count(a, a[2]) == count(b, a[2]));
        assert(count(a, a[3]) == count(b, a[3]));
        assert(count(a, a[4]) == count(b, a[4]));
        assert(count(a, b[0]) == count(b, b[0]));
        assert(count(a, b[1]) == count(b, b[1]));
        assert(count(a, b[2]) == count(b, b[2]));
        assert(count(a, b[3]) == count(b, b[3]));
        assert(count(a, b[4]) == count(b, b[4]));
    }
    assert(a =~= b);
}

/// Making a hand of the dice of a hand changes nothing: where `once` is a canonical hand
/// and `twice` is a canonical hand of the same faces, the two are the same.
pub proof fn construction_is_idempotent(dice: Seq<Die>, once: Seq<Die>, twice: Seq<Die>)
    requires
        sorted_dice(once),
        same_faces(once, dice),
        sorted_dice(twice),
        same_faces(twice, once),
    ensures
        twice == once,
{
    lemma_ascending_unique(twice, once);
}

/// The smaller and the larger of two faces.
fn in_order(x: Die, y: Die) -> (r: (Die, Die))
    ensures
        r.0 <= r.1,
        (r.0 == x && r.1 == y) || (r.0 == y && r.1 == x),
{
    if x <= y {
        (x, y)
    } else {
        (y, x)
    }
}

/// Three faces in ascending order: two that are in order, and one more.
fn insert_third(x: Die, y: Die, c: Die) -> (r: (Die, Die, Die))
    requires
        x <= y,
    ensures
        r.0 <= r.1 <= r.2,
        r == (c, x, y) || r == (x, c, y) || r == (x, y, c),
{
    if c <= x {
        (c, x, y)
    } else if c <= y {
        (x, c, y)
    } else {
        (x, y, c)
    }
}

/// Four faces in ascending order: three that are in order, and one more.
fn insert_fourth(x: Die, y: Die, z: Die, c: Die) -> (r: (Die, Die, Die, Die))
    requires
        x <= y <= z,
    ensures
        r.0 <= r.1 <= r.2 <= r.3,
        r == (c, x, y, z) || r == (x, c, y, z) || r == (x, y, c, z) || r == (x, y, z, c),
{
    if c <= x {
        (c, x, y, z)
    } else if c <= y {
        (x, c, y, z)
    } else if c <= z {
        (x, y, c, z)
    } else {
        (x, y, z, c)
    }
}

/// Five faces in ascending order: four that are in order, and one more.
fn insert_fifth(x: Die, y: Die, z: Die, w: Die, c: Die) -> (r: [Die; 5])
    requires
        x <= y <= z <= w,
    ensures
        ascending(r@),
        r@ == seq![c, x, y, z, w] || r@ == seq![x, c, y, z, w] || r@ == seq![x, y, c, z, w] || r@
            == seq![x, y, z, c, w] || r@ == seq![x, y, z, w, c],
{
    let r = if c <= x {
        [c, x, y, z, w]
    } else if c <= y {
        [x, c, y, z, w]
    } else if c <= z {
        [x, y, c, z, w]
    } else if c <= w {
        [x, y, z, c, w]
    } else {
        [x, y, z, w, c]
    };
    proof {
        if c <= x {
            assert(r@ =~= seq![c, x, y, z, w]);
        } else if c <= y {
            assert(r@ =~= seq![x, c, y, z, w]);
        } else if c <= z {
            assert(r@ =~= seq![x, y, c, z, w]);
        } else if c <= w {
            assert(r@ =~= seq![x, y, z, c, w]);
        } else {
            assert(r@ =~= seq![x, y, z, w, c]);
        }
    }
    r
}

/// Sorts five faces ascending. The result holds the same faces as the input.
pub fn sort_five(a: [Die; 5]) -> (r: [Die; 5])
    ensures
        ascending(r@),
        same_faces(r@, a@),
        all_valid(a@) ==> all_valid(r@),
{
    let (b0, b1) = in_order(a[0], a[1]);
    let (c0, c1, c2) = insert_third(b0, b1, a[2]);
    let (d0, d1, d2, d3) = insert_fourth(c0, c1, c2, a[3]);
    let r = insert_fifth(d0, d1, d2, d3, a[4]);
    proof {
        assert forall|v: Die| #[trigger] count(r@, v) == count(a@, v) by {
            lemma_count_five(r@, v);
            lemma_count_five(a@, v);
            let n = |x: Die| ind(x, v);
            assert(n(b0) + n(b1) == n(a[0]) + n(a[1]));
            assert(n(c0) + n(c1) + n(c2) == n(b0) + n(b1) + n(a[2]));
            assert(n(d0) + n(d1) + n(d2) + n(d3) == n(c0) + n(c1) + n(c2) + n(a[3]));
            assert(n(r@[0]) + n(r@[1]) + n(r@[2]) + n(r@[3]) + n(r@[4]) == n(d0) + n(d1) + n(d2)
                + n(d3) + n(a[4]));
        }
        if all_valid(a@) {
            assert(valid_die(a@[0]) && valid_die(a@[1]) && valid_die(a@[2]) && valid_die(a@[3])
                && valid_die(a@[4]));
            assert(valid_die(b0) && valid_die(b1));
            assert(valid_die(c0) && valid_die(c1) && valid_die(c2));
            assert(valid_die(d0) && valid_die(d1) && valid_die(d2) && valid_die(d3));
            assert(valid_die(r@[0]) && valid_die(r@[1]) && valid_die(r@[2]) && valid_die(r@[3])
                && valid_die(r@[4]));
        }
    }
    r
}

/// How many of the first `n` entries of `a` show `v` and are marked in `u`.
pub open spec fn marked_count(a: Seq<Die>, u: Seq<bool>, v: Die, n: nat) -> nat
    decreases n,
{
    if n == 0 {
        0
    } else {
        marked_count(a, u, v, (n - 1) as nat) + if u[n - 1] {
            ind(a[n - 1], v)
        } else {
            0
        }
    }
}

/// How many of the first `n` entries of `a` show `v` and are not marked in `u`.
pub open spec fn unmarked_count(a: Seq<Die>, u: Seq<bool>, v: Die, n: nat) -> nat
    decreases n,
{
    if n == 0 {
        0
    } else {
        unmarked_count(a, u, v, (n - 1) as nat) + if u[n - 1] {
            0
        } else {
            ind(a[n - 1], v)
        }
    }
}

/// How many of the first `n` marks in `u` are set.
pub open spec fn marks_set(u: Seq<bool>, n: nat) -> nat
    decreases n,
{
    if n == 0 {
        0
    } else {
        marks_set(u, (n - 1) as nat) + if u[n - 1] {
            1nat
        } else {
            0nat
        }
    }
}

proof fn lemma_marked_split(a: Seq<Die>, u: Seq<bool>, v: Die, n: nat)
    requires
        n <= a.len(),
    ensures
        marked_count(a, u, v, n) + unmarked_count(a, u, v, n) == count(a.take(n as int), v),
    decreases n,
{
    if n > 0 {
        lemma_marked_split(a, u, v, (n - 1) as nat);
        lemma_count_prefix(a, n - 1, v);
    } else {
        assert(a.take(0).len() == 0);
    }
}

proof fn lemma_marked_total(a: Seq<Die>, u: Seq<bool>, v: Die)
    requires
        a.len() == 5,
    ensures
        marked_count(a, u, v, 5) + unmarked_count(a, u, v, 5) == count(a, v),
{
    lemma_marked_split(a, u, v, 5);
    assert(a.take(5) =~= a);
}

/// The hand cannot give up the dice that were named.
#[derive(Clone, Copy, Debug, PartialEq, Eq)]
pub enum DiceReplaceError {
    InvalidDice,
}

impl DiceReplaceError {
    /// What went wrong, in words.
    pub fn message(&self) -> (words: &'static str)
        ensures
            words@ == "selected dice are not in hand"@,
    {
        "selected dice are not in hand"
    }
}

/// A face outside 1 to 6 was offered as a die.
#[derive(Clone, Copy, Debug, PartialEq, Eq)]
pub enum NewDiceError {
    InvalidDieValue,
}

impl NewDiceError {
    /// What went wrong, in words.
    pub fn message(&self) -> (words: &'static str)
        ensures
            words@ == "invalid die value"@,
    {
        "invalid die value"
    }
}

/// `rand::rngs::ThreadRng`, the random number generator of the thread. Nothing is known of
/// what it will give.
#[verifier::external_type_specification]
#[verifier::external_body]
pub struct ExThreadRng(ThreadRng);

/// One sample of `Uniform::new_inclusive(1, 6)` drawn from `rng`: some face from 1 to 6.
/// Which one is not known before the call, and two calls may differ.
#[verifier::external_body]
fn roll_die(rng: &mut ThreadRng) -> (d: Die)
    ensures
        valid_die(d),
{
    Uniform::new_inclusive(1u8, 6u8).unwrap().sample(rng)
}

/// How many of the dice show the face `v`.
pub fn count_in(dice: &[Die], v: Die) -> (n: usize)
    ensures
        n == count(dice@, v),
        n <= dice@.len(),
{
    let mut n: usize = 0;
    let mut i: usize = 0;
    proof {
        assert(dice@.take(0).len() == 0);
    }
    while i < dice.len()
        invariant
            i <= dice@.len(),
            n <= i,
            n == count(dice@.take(i as int), v),
        decreases dice@.len() - i,
    {
        proof {
            lemma_count_prefix(dice@, i as int, v);
        }
        if dice[i] == v {
            n = n + 1;
        }
        i = i + 1;
    }
    proof {
        assert(dice@.take(i as int) =~= dice@);
    }
    n
}

/// Marks, for each die of `removed` in turn, one die of `hand` that shows the same face and is
/// not marked yet. `None` where some die of `removed` finds no partner.
fn mark_removed(hand: &[Die; 5], removed: &[Die]) -> (r: Option<[bool; 5]>)
    ensures
        r is Some <==> contained_in(removed@, hand@),
        r matches Some(u) ==> {
            &&& marks_set(u@, 5) == removed@.len()
            &&& forall|v: Die| #[trigger] marked_count(hand@, u@, v, 5) == count(removed@, v)
        },
{
    let mut used: [bool; 5] = [false, false, false, false, false];
    let mut k: usize = 0;
    proof {
        reveal_with_fuel(marked_count, 6);
        reveal_with_fuel(marks_set, 6);
        assert(removed@.take(0).len() == 0);
    }
    while k < removed.len()
        invariant
            k <= removed@.len(),
            marks_set(used@, 5) == k,
            forall|v: Die| #[trigger]
                marked_count(hand@, used@, v, 5) == count(removed@.take(k as int), v),
        decreases removed@.len() - k,
    {
        let d = removed[k];
        let slot: usize = if !used[0] && hand[0] == d {
            0
        } else if !used[1] && hand[1] == d {
            1
        } else if !used[2] && hand[2] == d {
            2
        } else if !used[3] && hand[3] == d {
            3
        } else if !used[4] && hand[4] == d {
            4
        } else {
            5
        };
        if slot == 5 {
            proof {
                reveal_with_fuel(marked_count, 6);
                reveal_with_fuel(unmarked_count, 6);
                lemma_marked_total(hand@, used@, d);
                assert(unmarked_count(hand@, used@, d, 5) == 0);
                lemma_count_prefix(removed@, k as int, d);
                lemma_count_prefix(removed@, k + 1, d);
                assert(count(removed@, d) > count(hand@, d));
            }
            return None;
        }
        let ghost before = used@;
        used[slot] = true;
        proof {
            reveal_with_fuel(marked_count, 6);
            reveal_with_fuel(marks_set, 6);
            assert(used@ =~= before.update(slot as int, true));
            assert forall|v: Die| #[trigger]
                marked_count(hand@, used@, v, 5) == count(removed@.take(k + 1), v) by {
                lemma_count_prefix(removed@, k as int, v);
                assert(marked_count(hand@, used@, v, 5) == marked_count(hand@, before, v, 5) + ind(
                    d,
                    v,
                ));
            }
        }
        k = k + 1;
    }
    proof {
        assert(removed@.take(k as int) =~= removed@);
        assert forall|v: Die| #[trigger] count(removed@, v) <= count(hand@, v) by {
            lemma_marked_total(hand@, used@, v);
        }
    }
    Some(used)
}

/// Five dice kept in ascending order, so that two hands with the same faces are the same value.
#[derive(Clone, Copy, Debug, PartialEq, Eq, Hash)]
pub struct Dice {
    array: [Die; 5],
}

impl View for Dice {
    type V = Seq<Die>;

    /// The five faces, in the order in which they are stored.
    closed spec fn view(&self) -> Seq<Die> {
        self.array@
    }
}

impl Dice {
    /// The hand is in canonical form: five valid faces, ascending.
    pub open spec fn wf(&self) -> bool {
        sorted_dice(self@)
    }

    /// A hand of the five faces given, sorted. Fails where a face is not one of 1 to 6.
    pub fn new(dice: [Die; 5]) -> (r: Result<Dice, NewDiceError>)
        ensures
            r is Ok <==> all_valid(dice@),
            r matches Ok(d) ==> d.wf() && same_faces(d@, dice@),
            r matches Ok(d) ==> (ascending(dice@) ==> d@ == dice@),
    {
        let mut i: usize = 0;
        while i < 5
            invariant
                i <= 5,
                forall|j: int| 0 <= j < i ==> valid_die(#[trigger] dice@[j]),
            decreases 5 - i,
        {
            let die = dice[i];
            if die < 1 || die > 6 {
                return Err(NewDiceError::InvalidDieValue);
            }
            i = i + 1;
        }
        let sorted = sort_five(dice);
        proof {
            if ascending(dice@) {
                lemma_ascending_unique(sorted@, dice@);
            }
        }
        Ok(Dice { array: sorted })
    }

    /// A hand of five freshly rolled dice.
    pub fn new_random(rng: &mut ThreadRng) -> (d: Dice)
        ensures
            d.wf(),
    {
        let a = roll_die(rng);
        let b = roll_die(rng);
        let c = roll_die(rng);
        let d = roll_die(rng);
        let e = roll_die(rng);
        Dice { array: sort_five([a, b, c, d, e]) }
    }

    /// A hand that stores `dice` as given: nothing is checked and nothing is sorted.
    pub fn new_raw(dice: [Die; 5]) -> (d: Dice)
        ensures
            d@ == dice@,
    {
        Dice { array: dice }
    }

    /// A hand that stores the five dice of `dice` as given: nothing is checked and nothing is
    /// sorted.
    pub fn from_slice(dice: &[Die]) -> (d: Dice)
        requires
            dice@.len() == 5,
        ensures
            d@ == dice@,
    {
        let array = [dice[0], dice[1], dice[2], dice[3], dice[4]];
        proof {
            assert(array@ =~= dice@);
        }
        Dice { array }
    }

    /// Whether the hand is in canonical form: five valid faces, ascending.
    pub fn is_canonical(&self) -> (yes: bool)
        ensures
            yes == self.wf(),
    {
        let a = self.array;
        let valid = 1 <= a[0] && a[4] <= 6;
        let ordered = a[0] <= a[1] && a[1] <= a[2] && a[2] <= a[3] && a[3] <= a[4];
        proof {
            if valid && ordered {
                assert forall|i: int| 0 <= i < 5 implies valid_die(#[trigger] self@[i]) by {}
            } else if ordered {
                assert(!valid_die(self@[0]) || !valid_die(self@[4]));
            }
        }
        valid && ordered
    }

    /// How many of the five dice show the face `v`.
    pub fn count_face(&self, v: Die) -> (n: u8)
        ensures
            n == count(self@, v),
            n <= 5,
    {
        proof {
            lemma_count_five(self@, v);
        }
        let a = self.array;
        let mut n: u8 = 0;
        if a[0] == v {
            n = n + 1;
        }
        if a[1] == v {
            n = n + 1;
        }
        if a[2] == v {
            n = n + 1;
        }
        if a[3] == v {
            n = n + 1;
        }
        if a[4] == v {
            n = n + 1;
        }
        n
    }

    /// The five faces as an array.
    pub fn to_array(&self) -> (a: [Die; 5])
        ensures
            a@ == self@,
    {
        self.array
    }

    /// The face at place `i`.
    pub fn get(&self, i: usize) -> (d: Die)
        requires
            i < 5,
        ensures
            self@.len() == 5,
            d == self@[i as int],
    {
        self.array[i]
    }

    /// Whether the hand can give up the dice of `removed`, each die once.
    pub fn holds(&self, removed: &[Die]) -> (yes: bool)
        ensures
            yes == contained_in(removed@, self@),
    {
        mark_removed(&self.array, removed).is_some()
    }

    /// Takes the dice of `removed` out of the hand, puts those of `added` in their place and
    /// sorts again. Fails, and leaves the hand as it was, where the hand does not hold the
    /// dice of `removed`.
    pub fn replace(&mut self, removed: &[Die], added: &[Die]) -> (r: Result<(), DiceReplaceError>)
        requires
            removed@.len() == added@.len(),
        ensures
            r is Ok <==> contained_in(removed@, old(self)@),
            r is Ok ==> ascending(final(self)@) && exchanged(
                old(self)@,
                removed@,
                added@,
                final(self)@,
            ),
            r is Ok && all_valid(old(self)@) && all_valid(added@) ==> final(self)@ == rerolled(
                old(self)@,
                removed@,
                added@,
            ),
            r is Ok && all_valid(old(self)@) && all_valid(added@) ==> final(self).wf(),
            r is Err ==> *final(self) == *old(self),
    {
        let hand = self.array;
        let used = match mark_removed(&hand, removed) {
            Some(used) => used,
            None => {
                return Err(DiceReplaceError::InvalidDice);
            },
        };
        let mut out: Vec<Die> = Vec::new();
        let mut i: usize = 0;
        while i < 5
            invariant
                i <= 5,
                hand@.len() == 5,
                used@.len() == 5,
                out@.len() == i - marks_set(used@, i as nat),
                marks_set(used@, i as nat) <= i,
                forall|v: Die| #[trigger] count(out@, v) == unmarked_count(hand@, used@, v, i as nat),
                all_valid(hand@) ==> all_valid(out@),
            decreases 5 - i,
        {
            if !used[i] {
                let ghost before = out@;
                out.push(hand[i]);
                proof {
                    assert forall|v: Die| #[trigger]
                        count(out@, v) == unmarked_count(hand@, used@, v, (i + 1) as nat) by {
                        lemma_count_push(before, hand@[i as int], v);
                    }
                    if all_valid(hand@) {
                        assert forall|j: int| 0 <= j < out@.len() implies valid_die(
                            #[trigger] out@[j],
                        ) by {
                            if j < before.len() {
                                assert(before[j] == out@[j]);
                            }
                        }
                    }
                }
            }
            i = i + 1;
        }
        let ghost kept = out@;
        let mut j: usize = 0;
        proof {
            assert(added@.take(0).len() == 0);
        }
        while j < added.len()
            invariant
                j <= added@.len(),
                out@.len() == kept.len() + j,
                forall|v: Die| #[trigger]
                    count(out@, v) == count(kept, v) + count(added@.take(j as int), v),
                all_valid(hand@) && all_valid(added@) ==> all_valid(out@),
            decreases added@.len() - j,
        {
            let ghost before = out@;
            out.push(added[j]);
            proof {
                assert forall|v: Die| #[trigger]
                    count(out@, v) == count(kept, v) + count(added@.take(j + 1), v) by {
                    lemma_count_push(before, added@[j as int], v);
                    lemma_count_prefix(added@, j as int, v);
                }
                if all_valid(hand@) && all_valid(added@) {
                    assert forall|n: int| 0 <= n < out@.len() implies valid_die(
                        #[trigger] out@[n],
                    ) by {
                        if n < before.len() {
                            assert(before[n] == out@[n]);
                        }
                    }
                }
            }
            j = j + 1;
        }
        proof {
            assert(added@.take(j as int) =~= added@);
        }
        let filled = [out[0], out[1], out[2], out[3], out[4]];
        proof {
            assert(filled@ =~= out@);
        }
        let sorted = sort_five(filled);
        proof {
            assert forall|v: Die| #[trigger]
                count(sorted@, v) == count(hand@, v) - count(removed@, v) + count(added@, v) by {
                lemma_marked_total(hand@, used@, v);
            }
            if all_valid(hand@) && all_valid(added@) {
                assert forall|n: int| 0 <= n < filled@.len() implies valid_die(
                    #[trigger] filled@[n],
                ) by {
                    assert(filled@[n] == out@[n]);
                }
            }
        }
        proof {
            if all_valid(hand@) && all_valid(added@) {
                assert(exchanged(hand@, removed@, added@, sorted@));
                assert(count(sorted@, 1) == count(hand@, 1) - count(removed@, 1) + count(added@, 1));
                assert(count(sorted@, 2) == count(hand@, 2) - count(removed@, 2) + count(added@, 2));
                assert(count(sorted@, 3) == count(hand@, 3) - count(removed@, 3) + count(added@, 3));
                assert(count(sorted@, 4) == count(hand@, 4) - count(removed@, 4) + count(added@, 4));
                assert(count(sorted@, 5) == count(hand@, 5) - count(removed@, 5) + count(added@, 5));
                lemma_spread_of_counts(sorted@);
            }
        }
        self.array = sorted;
        Ok(())
    }

    /// Rolls the dice of `dice` again and sorts. Fails, and leaves the hand as it was and the
    /// generator untouched, where the hand does not hold them.
    pub fn reroll(&mut self, dice: &[Die], rng: &mut ThreadRng) -> (r: Result<(), DiceReplaceError>)
        ensures
            r is Ok <==> contained_in(dice@, old(self)@),
            r is Ok ==> ascending(final(self)@) && exists|rolled: Seq<Die>|
                {
                    &&& rolled.len() == dice@.len()
                    &&& all_valid(rolled)
                    &&& #[trigger] exchanged(old(self)@, dice@, rolled, final(self)@)
                },
            r is Ok && old(self).wf() ==> final(self).wf(),
            r is Err ==> *final(self) == *old(self),
    {
        if !self.holds(dice) {
            return Err(DiceReplaceError::InvalidDice);
        }
        let mut rolled: Vec<Die> = Vec::new();
        let mut k: usize = 0;
        while k < dice.len()
            invariant
                k <= dice@.len(),
                rolled@.len() == k,
                all_valid(rolled@),
            decreases dice@.len() - k,
        {
            let d = roll_die(rng);
            rolled.push(d);
            k = k + 1;
        }
        self.replace(dice, rolled.as_slice())
    }

    /// Rolls all five dice again.
    pub fn reroll_all(&mut self, rng: &mut ThreadRng)
        ensures
            final(self).wf(),
    {
        let fresh = Dice::new_random(rng);
        self.array = fresh.array;
    }
}

} // verus!
