use crate::combo::{legal_score, Combo};
use crate::game::{recorded, Scorecard};
use crate::state::{
    bits_from, code_is_injective, kept_total, state_of, FieldState, GameState,
};
use vstd::prelude::*;

verus! {

/// Whether the filled number lines before place `lines` can hold `t` points together, each
/// of them holding its face up to five times.
pub open spec fn sums_upto(s: GameState, lines: int, t: int) -> bool
    decreases lines,
{
    if lines <= 0 {
        t == 0
    } else if s.flag_at(lines - 1) is Empty {
        sums_upto(s, lines - 1, t)
    } else {
        sums_upto(s, lines - 1, t) || sums_upto(s, lines - 1, t - lines) || sums_upto(
            s,
            lines - 1,
            t - 2 * lines,
        ) || sums_upto(s, lines - 1, t - 3 * lines) || sums_upto(s, lines - 1, t - 4 * lines)
            || sums_upto(s, lines - 1, t - 5 * lines)
    }
}

/// Whether a game can come into the state: its filled number lines can hold some sum, each
/// holding its face up to five times, that the state keeps as its `numbers_total`.
pub open spec fn reachable(s: GameState) -> bool {
    exists|t: int| #[trigger] keeps(s, t)
}

/// The filled number lines of `s` can hold `t` points, and `s` keeps that sum as its
/// `numbers_total`.
pub open spec fn keeps(s: GameState, t: int) -> bool {
    0 <= t && sums_upto(s, 6, t) && s.numbers_total == kept_total(t as nat, s.remaining())
}

/// The most that the number lines before place `lines` can hold.
pub open spec fn top(lines: int) -> int {
    5 * lines * (lines + 1) / 2
}

/// No sum of the number lines before place `lines` is negative or above the most they can
/// hold.
pub proof fn lemma_sums_bounded(s: GameState, lines: int, t: int)
    requires
        0 <= lines <= 6,
        sums_upto(s, lines, t),
    ensures
        0 <= t <= top(lines),
    decreases lines,
{
    if lines > 0 {
        assert(top(lines) == top(lines - 1) + 5 * lines) by (nonlinear_arith)
            requires
                lines > 0,
        ;
        if s.flag_at(lines - 1) is Empty {
            lemma_sums_bounded(s, lines - 1, t);
        } else {
            if sums_upto(s, lines - 1, t) {
                lemma_sums_bounded(s, lines - 1, t);
            } else if sums_upto(s, lines - 1, t - lines) {
                lemma_sums_bounded(s, lines - 1, t - lines);
            } else if sums_upto(s, lines - 1, t - 2 * lines) {
                lemma_sums_bounded(s, lines - 1, t - 2 * lines);
            } else if sums_upto(s, lines - 1, t - 3 * lines) {
                lemma_sums_bounded(s, lines - 1, t - 3 * lines);
            } else if sums_upto(s, lines - 1, t - 4 * lines) {
                lemma_sums_bounded(s, lines - 1, t - 4 * lines);
            } else {
                lemma_sums_bounded(s, lines - 1, t - 5 * lines);
            }
        }
    }
}

/// The sums that the number lines can hold depend only on which of them are filled.
pub proof fn lemma_sums_by_flags(a: GameState, b: GameState, lines: int, t: int)
    requires
        0 <= lines <= 6,
        forall|i: int| 0 <= i < 6 ==> #[trigger] a.flag_at(i) == b.flag_at(i),
    ensures
        sums_upto(a, lines, t) == sums_upto(b, lines, t),
    decreases lines,
{
    if lines > 0 {
        assert(a.flag_at(lines - 1) == b.flag_at(lines - 1));
        lemma_sums_by_flags(a, b, lines - 1, t);
        lemma_sums_by_flags(a, b, lines - 1, t - lines);
        lemma_sums_by_flags(a, b, lines - 1, t - 2 * lines);
        lemma_sums_by_flags(a, b, lines - 1, t - 3 * lines);
        lemma_sums_by_flags(a, b, lines - 1, t - 4 * lines);
        lemma_sums_by_flags(a, b, lines - 1, t - 5 * lines);
    }
}


/// Whether one of the sums that `old` marks, with up to five times `face` more, is `t`.
pub open spec fn with_line(old: Seq<bool>, face: int, t: int) -> bool {
    ||| old[t]
    ||| (t >= face && old[t - face])
    ||| (t >= 2 * face && old[t - 2 * face])
    ||| (t >= 3 * face && old[t - 3 * face])
    ||| (t >= 4 * face && old[t - 4 * face])
    ||| (t >= 5 * face && old[t - 5 * face])
}

/// Marks the sums that the marked sums of `old` give when one more number line, that of
/// `face`, holds its face up to five times.
fn add_line(old: &Vec<bool>, face: usize) -> (new: Vec<bool>)
    requires
        old@.len() == 106,
        1 <= face <= 6,
    ensures
        new@.len() == 106,
        forall|t: int| 0 <= t < 106 ==> #[trigger] new@[t] == with_line(old@, face as int, t),
{
    let mut new: Vec<bool> = Vec::new();
    let mut t: usize = 0;
    while t < 106
        invariant
            t <= 106,
            old@.len() == 106,
            1 <= face <= 6,
            new@.len() == t,
            forall|u: int| 0 <= u < t ==> #[trigger] new@[u] == with_line(old@, face as int, u),
        decreases 106 - t,
    {
        let hit = old[t] || (t >= face && old[t - face]) || (t >= 2 * face && old[t - 2 * face])
            || (t >= 3 * face && old[t - 3 * face]) || (t >= 4 * face && old[t - 4 * face]) || (t
            >= 5 * face && old[t - 5 * face]);
        new.push(hit);
        t = t + 1;
    }
    new
}

/// The sums from 0 to 105 that the filled number lines of the state can hold, each line
/// holding its face up to five times: `true` at the place of each such sum.
pub fn number_sums(state: &GameState) -> (marks: Vec<bool>)
    ensures
        marks@.len() == 106,
        forall|t: int| 0 <= t < 106 ==> #[trigger] marks@[t] == sums_upto(*state, 6, t),
{
    let mut marks: Vec<bool> = Vec::new();
    let mut t: usize = 0;
    while t < 106
        invariant
            t <= 106,
            marks@.len() == t,
            forall|u: int| 0 <= u < t ==> #[trigger] marks@[u] == (u == 0),
        decreases 106 - t,
    {
        marks.push(t == 0);
        t = t + 1;
    }
    let mut line: usize = 0;
    while line < 6
        invariant
            line <= 6,
            marks@.len() == 106,
            forall|u: int| 0 <= u < 106 ==> #[trigger] marks@[u] == sums_upto(*state, line as int, u),
        decreases 6 - line,
    {
        let filled = match state.field(line) {
            FieldState::Filled => true,
            FieldState::Empty => false,
        };
        if filled {
            let next = add_line(&marks, line + 1);
            proof {
                assert forall|u: int| 0 <= u < 106 implies #[trigger] next@[u] == sums_upto(
                    *state,
                    line + 1,
                    u,
                ) by {
                    let f = line + 1;
                    lemma_marks_step(*state, marks@, line as int, u);
                }
            }
            marks = next;
        }
        line = line + 1;
    }
    marks
}

/// One more filled line: the sums it gives are those that the marks of the lines before give
/// with up to five times its face more.
proof fn lemma_marks_step(s: GameState, old: Seq<bool>, line: int, u: int)
    requires
        0 <= line < 6,
        0 <= u < 106,
        old.len() == 106,
        s.flag_at(line) is Filled,
        forall|t: int| 0 <= t < 106 ==> #[trigger] old[t] == sums_upto(s, line, t),
    ensures
        with_line(old, line + 1, u) == sums_upto(s, line + 1, u),
{
    let f = line + 1;
    lemma_neg(s, line, u - f);
    lemma_neg(s, line, u - 2 * f);
    lemma_neg(s, line, u - 3 * f);
    lemma_neg(s, line, u - 4 * f);
    lemma_neg(s, line, u - 5 * f);
    assert(old[u] == sums_upto(s, line, u));
    if u >= f {
        assert(old[u - f] == sums_upto(s, line, u - f));
    }
    if u >= 2 * f {
        assert(old[u - 2 * f] == sums_upto(s, line, u - 2 * f));
    }
    if u >= 3 * f {
        assert(old[u - 3 * f] == sums_upto(s, line, u - 3 * f));
    }
    if u >= 4 * f {
        assert(old[u - 4 * f] == sums_upto(s, line, u - 4 * f));
    }
    if u >= 5 * f {
        assert(old[u - 5 * f] == sums_upto(s, line, u - 5 * f));
    }
}

/// No negative number is a sum of number lines.
proof fn lemma_neg(s: GameState, lines: int, t: int)
    requires
        0 <= lines <= 6,
    ensures
        t < 0 ==> !sums_upto(s, lines, t),
{
    if t < 0 && sums_upto(s, lines, t) {
        lemma_sums_bounded(s, lines, t);
    }
}

/// The state `s` with `c` as its `numbers_total`.
pub open spec fn with_total(s: GameState, c: u8) -> GameState {
    GameState { numbers_total: c, ..s }
}

/// Whether some sum below `t` that the number lines of `s` can hold is kept as the total `c`.
pub open spec fn seen(s: GameState, c: int, t: int) -> bool {
    exists|u: int| 0 <= u < t && #[trigger] keeps(with_total(s, c as u8), u)
}

proof fn lemma_seen_step(s: GameState, c: int, t: int)
    requires
        0 <= c < 64,
        0 <= t,
    ensures
        seen(s, c, t + 1) == (seen(s, c, t) || (sums_upto(s, 6, t) && c == crate::state::kept_total(
            t as nat,
            s.remaining(),
        ))),
{
    lemma_keeps_by_total(s, c as u8, t);
    if seen(s, c, t + 1) {
        let u = choose|u: int| 0 <= u < t + 1 && #[trigger] keeps(with_total(s, c as u8), u);
        if u < t {
            assert(seen(s, c, t));
        }
    }
    if seen(s, c, t) {
        let u = choose|u: int| 0 <= u < t && #[trigger] keeps(with_total(s, c as u8), u);
        assert(0 <= u < t + 1 && keeps(with_total(s, c as u8), u));
    }
    if sums_upto(s, 6, t) && c == crate::state::kept_total(t as nat, s.remaining()) {
        assert(keeps(with_total(s, c as u8), t));
    }
}

proof fn lemma_seen_all(s: GameState, c: int)
    requires
        0 <= c < 64,
    ensures
        seen(s, c, 106) == reachable(with_total(s, c as u8)),
{
    let w = with_total(s, c as u8);
    if reachable(w) {
        let u = choose|u: int| #[trigger] keeps(w, u);
        lemma_sums_bounded(w, 6, u);
        assert(0 <= u < 106 && keeps(w, u));
    }
    if seen(s, c, 106) {
        let u = choose|u: int| 0 <= u < 106 && #[trigger] keeps(w, u);
        assert(keeps(w, u));
    }
}

/// The totals from 0 to 63 with which the flags of the state make a state that a game can
/// come into: `true` at the place of each such total.
pub fn kept_totals(state: &GameState) -> (marks: Vec<bool>)
    ensures
        marks@.len() == 64,
        forall|c: int| 0 <= c < 64 ==> #[trigger] marks@[c] == reachable(with_total(*state, c as u8)),
{
    let sums = number_sums(state);
    let left: u16 = state.remaining_points() as u16;
    let mut marks: Vec<bool> = Vec::new();
    let mut c: usize = 0;
    while c < 64
        invariant
            c <= 64,
            marks@.len() == c,
            forall|u: int| 0 <= u < c ==> !#[trigger] marks@[u],
        decreases 64 - c,
    {
        marks.push(false);
        c = c + 1;
    }
    let mut t: usize = 0;
    while t < 106
        invariant
            t <= 106,
            marks@.len() == 64,
            sums@.len() == 106,
            left == state.remaining(),
            forall|u: int| 0 <= u < 106 ==> #[trigger] sums@[u] == sums_upto(*state, 6, u),
            forall|c: int| 0 <= c < 64 ==> #[trigger] marks@[c] == seen(*state, c, t as int),
        decreases 106 - t,
    {
        let ghost before = marks@;
        let hit = sums[t];
        let mut kept: u16 = if t > 63 {
            63
        } else {
            t as u16
        };
        if kept + left < 63 {
            kept = 0;
        }
        if hit {
            marks.set(kept as usize, true);
        }
        proof {
            assert(kept == crate::state::kept_total(t as nat, state.remaining()));
            assert(hit == sums_upto(*state, 6, t as int));
            assert forall|c: int| 0 <= c < 64 implies #[trigger] marks@[c] == seen(
                *state,
                c,
                t + 1,
            ) by {
                lemma_seen_step(*state, c, t as int);
                assert(before[c] == seen(*state, c, t as int));
            }
        }
        t = t + 1;
    }
    proof {
        assert forall|c: int| 0 <= c < 64 implies #[trigger] marks@[c] == reachable(
            with_total(*state, c as u8),
        ) by {
            lemma_seen_all(*state, c);
        }
    }
    marks
}

/// Whether a state with another total keeps the sum `t` turns on the sums of `s` alone.
proof fn lemma_keeps_by_total(s: GameState, c: u8, t: int)
    ensures
        keeps(with_total(s, c), t) == (0 <= t && sums_upto(s, 6, t) && c == kept_total(
            t as nat,
            s.remaining(),
        )),
{
    let w = with_total(s, c);
    assert forall|i: int| 0 <= i < 6 implies #[trigger] w.flag_at(i) == s.flag_at(i) by {}
    lemma_sums_by_flags(w, s, 6, t);
    assert(w.remaining() == s.remaining());
}

/// No state occurs twice in the list.
pub open spec fn distinct_states(states: Seq<GameState>) -> bool {
    forall|i: int, j: int| 0 <= i < j < states.len() ==> states[i] != states[j]
}

/// Whether the walk over all flags and totals has come past the state `s` of `n` empty lines
/// when it stands at the flags `b` and the total `c`.
#[verifier::opaque]
pub open spec fn listed(s: GameState, n: int, b: int, c: int) -> bool {
    reachable(s) && s.empty_count() == n && (bits_from(s, 0) < b || (bits_from(s, 0) == b
        && s.numbers_total < c))
}

/// Whether the walk stands at the state `s`, and `s` is one that it is to take.
#[verifier::opaque]
pub open spec fn here(s: GameState, n: int, b: int, c: int) -> bool {
    reachable(s) && s.empty_count() == n && bits_from(s, 0) == b && s.numbers_total == c
}

proof fn lemma_step(s: GameState, n: int, b: int, c: int)
    ensures
        listed(s, n, b, c + 1) == (listed(s, n, b, c) || here(s, n, b, c)),
        !(listed(s, n, b, c) && here(s, n, b, c)),
{
    reveal(listed);
    reveal(here);
}

proof fn lemma_unique(s: GameState, state: GameState, n: int, b: int, c: int)
    requires
        here(s, n, b, c),
        here(state, n, b, c),
    ensures
        s == state,
{
    reveal(here);
    lemma_same(s, state);
}

proof fn lemma_take(before: Seq<GameState>, state: GameState, n: int, b: int, c: int)
    requires
        forall|s: GameState| before.contains(s) <==> listed(s, n, b, c),
        distinct_states(before),
        here(state, n, b, c),
    ensures
        forall|s: GameState| before.push(state).contains(s) <==> listed(s, n, b, c + 1),
        distinct_states(before.push(state)),
{
    let after = before.push(state);
    lemma_step(state, n, b, c);
    assert forall|s: GameState| after.contains(s) <==> listed(s, n, b, c + 1) by {
        lemma_step(s, n, b, c);
        if after.contains(s) {
            let i = choose|i: int| 0 <= i < after.len() && after[i] == s;
            if i < before.len() {
                assert(before[i] == s);
                assert(before.contains(s));
            }
        }
        if listed(s, n, b, c + 1) {
            if here(s, n, b, c) {
                lemma_unique(s, state, n, b, c);
                assert(after[before.len() as int] == s);
            } else {
                assert(before.contains(s));
                let i = choose|i: int| 0 <= i < before.len() && before[i] == s;
                assert(after[i] == s);
            }
        }
    }
    assert(!before.contains(state));
    assert forall|i: int, j: int| 0 <= i < j < after.len() implies after[i] != after[j] by {
        if j == before.len() {
            assert(before[i] == after[i]);
            assert(before.contains(after[i]));
        } else {
            assert(before[i] == after[i] && before[j] == after[j]);
        }
    }
}

proof fn lemma_leave(list: Seq<GameState>, state: GameState, n: int, b: int, c: int)
    requires
        forall|s: GameState| list.contains(s) <==> listed(s, n, b, c),
        !reachable(state) || state.empty_count() != n,
        bits_from(state, 0) == b,
        state.numbers_total == c,
    ensures
        forall|s: GameState| list.contains(s) <==> listed(s, n, b, c + 1),
{
    assert forall|s: GameState| list.contains(s) <==> listed(s, n, b, c + 1) by {
        lemma_step(s, n, b, c);
        if here(s, n, b, c) {
            reveal(here);
            lemma_same(s, state);
        }
    }
}

proof fn lemma_next_flags(list: Seq<GameState>, n: int, b: int)
    requires
        forall|s: GameState| list.contains(s) <==> listed(s, n, b, 64),
    ensures
        forall|s: GameState| list.contains(s) <==> listed(s, n, b + 1, 0),
{
    assert forall|s: GameState| list.contains(s) <==> listed(s, n, b + 1, 0) by {
        reveal(listed);
        if reachable(s) {
            lemma_reachable_total(s);
        }
    }
}

proof fn lemma_skip_flags(list: Seq<GameState>, base: GameState, n: int, b: int)
    requires
        forall|s: GameState| list.contains(s) <==> listed(s, n, b, 0),
        bits_from(base, 0) == b,
        base.empty_count() != n,
    ensures
        forall|s: GameState| list.contains(s) <==> listed(s, n, b + 1, 0),
{
    assert forall|s: GameState| list.contains(s) <==> listed(s, n, b + 1, 0) by {
        reveal(listed);
        if bits_from(s, 0) == b {
            crate::state::flags_by_bits(s, base);
        }
    }
}

/// Every state with `n` empty lines that a game can come into, each once: first by the lines
/// that are filled, then by the total on the number lines.
pub fn states_with_empty_fields(n: u8) -> (out: Vec<GameState>)
    ensures
        forall|s: GameState| out@.contains(s) <==> reachable(s) && s.empty_count() == n,
        distinct_states(out@),
{
    let mut out: Vec<GameState> = Vec::new();
    let mut b: u32 = 0;
    proof {
        assert forall|s: GameState| out@.contains(s) <==> listed(s, n as int, 0, 0) by {
            reveal(listed);
        }
    }
    while b < 32768
        invariant
            b <= 32768,
            forall|s: GameState| out@.contains(s) <==> listed(s, n as int, b as int, 0),
            distinct_states(out@),
        decreases 32768 - b,
    {
        let base = GameState::from_key(256 * b).unwrap();
        proof {
            lemma_decode(base, 0, b as int);
        }
        if base.empty_fields() == n {
            let marks = kept_totals(&base);
            let mut c: u8 = 0;
            while c < 64
                invariant
                    c <= 64,
                    b < 32768,
                    marks@.len() == 64,
                    bits_from(base, 0) == b,
                    base.empty_count() == n,
                    forall|u: int|
                        0 <= u < 64 ==> #[trigger] marks@[u] == reachable(with_total(base, u as u8)),
                    forall|s: GameState| out@.contains(s) <==> listed(s, n as int, b as int, c as int),
                    distinct_states(out@),
                decreases 64 - c,
            {
                proof {
                    lemma_total_keeps_bits(base, c);
                    crate::state::flags_by_bits(with_total(base, c), base);
                    assert(marks@[c as int] == reachable(with_total(base, c)));
                }
                if marks[c as usize] {
                    let state = GameState::from_key(c as u32 + 256 * b).unwrap();
                    proof {
                        lemma_decode(state, c as int, b as int);
                        lemma_same(state, with_total(base, c));
                        assert(here(state, n as int, b as int, c as int)) by {
                            reveal(here);
                        }
                        lemma_take(out@, state, n as int, b as int, c as int);
                    }
                    out.push(state);
                } else {
                    proof {
                        lemma_leave(out@, with_total(base, c), n as int, b as int, c as int);
                    }
                }
                c = c + 1;
            }
            proof {
                lemma_next_flags(out@, n as int, b as int);
            }
        } else {
            proof {
                lemma_skip_flags(out@, base, n as int, b as int);
            }
        }
        b = b + 1;
    }
    proof {
        assert forall|s: GameState| out@.contains(s) <==> reachable(s) && s.empty_count() == n by {
            reveal(listed);
            crate::state::bits_are_small(s);
        }
    }
    out
}

/// A state whose code is `c + 256 * b` has the total `c`, and its flags read as `b`.
proof fn lemma_decode(x: GameState, c: int, b: int)
    requires
        0 <= c < 256,
        0 <= b < 32768,
        x.code() == c + 256 * b,
    ensures
        x.numbers_total == c,
        bits_from(x, 0) == b,
{
    crate::state::bits_are_small(x);
}

/// Two states with the same total and the same flags, read as a number, are the same state.
proof fn lemma_same(s: GameState, w: GameState)
    requires
        s.numbers_total == w.numbers_total,
        bits_from(s, 0) == bits_from(w, 0),
    ensures
        s == w,
{
    code_is_injective(s, w);
}

/// The flags of a state are the same whatever its total.
proof fn lemma_total_keeps_flag(s: GameState, c: u8, j: int)
    requires
        0 <= j < 15,
    ensures
        with_total(s, c).flag_at(j) == s.flag_at(j),
{
}

/// Two states with the same flags read the same as a number.
proof fn lemma_bits_by_flags(a: GameState, b: GameState, k: int)
    requires
        0 <= k <= 15,
        forall|j: int| 0 <= j < 15 ==> #[trigger] a.flag_at(j) == b.flag_at(j),
    ensures
        bits_from(a, k) == bits_from(b, k),
    decreases 15 - k,
{
    if k < 15 {
        lemma_bits_by_flags(a, b, k + 1);
        assert(a.flag_at(k) == b.flag_at(k));
    }
}

/// The flags of a state read the same whatever its total.
proof fn lemma_total_keeps_bits(s: GameState, c: u8)
    ensures
        bits_from(with_total(s, c), 0) == bits_from(s, 0),
        with_total(s, c).numbers_total == c,
{
    let w = with_total(s, c);
    assert forall|j: int| 0 <= j < 15 implies #[trigger] w.flag_at(j) == s.flag_at(j) by {
        lemma_total_keeps_flag(s, c, j);
    }
    lemma_bits_by_flags(w, s, 0);
}

/// A state that a game can come into keeps at most 63 as its total.
proof fn lemma_reachable_total(s: GameState)
    requires
        reachable(s),
    ensures
        s.numbers_total < 64,
{
    let t = choose|t: int| #[trigger] keeps(s, t);
    assert(keeps(s, t));
}

/// Every state that a game can come into before it is over, by the number of its empty
/// lines: at place `n`, for `n` from 1 to 15, the states with `n` empty lines, each once.
/// Place 0 holds nothing: the states of a finished game are not kept.
pub fn game_states_by_empty_field_count() -> (out: Vec<Vec<GameState>>)
    ensures
        out@.len() == 16,
        out@[0]@.len() == 0,
        forall|n: int, s: GameState|
            1 <= n <= 15 ==> (#[trigger] out@[n]@.contains(s) <==> reachable(s) && s.empty_count()
                == n),
        forall|n: int| 1 <= n <= 15 ==> distinct_states(#[trigger] out@[n]@),
{
    let mut out: Vec<Vec<GameState>> = Vec::new();
    out.push(Vec::new());
    let mut n: u8 = 1;
    while n <= 15
        invariant
            1 <= n <= 16,
            out@.len() == n,
            out@[0]@.len() == 0,
            forall|m: int, s: GameState|
                1 <= m < n ==> (#[trigger] out@[m]@.contains(s) <==> reachable(s)
                    && s.empty_count() == m),
            forall|m: int| 1 <= m < n ==> distinct_states(#[trigger] out@[m]@),
        decreases 16 - n,
    {
        let level = states_with_empty_fields(n);
        out.push(level);
        n = n + 1;
    }
    out
}


/// Whether each number line of the card is empty or holds points that it can hold: its face
/// up to five times.
pub open spec fn played(card: Scorecard) -> bool {
    &&& legal_score(Combo::Ones, recorded(card.ones))
    &&& legal_score(Combo::Twos, recorded(card.twos))
    &&& legal_score(Combo::Threes, recorded(card.threes))
    &&& legal_score(Combo::Fours, recorded(card.fours))
    &&& legal_score(Combo::Fives, recorded(card.fives))
    &&& legal_score(Combo::Sixes, recorded(card.sixes))
}

/// One more number line: where the lines before it can hold `t`, they can hold `t` and the
/// points of this line together with it.
proof fn lemma_sums_step(s: GameState, line: int, t: int, points: int, filled: bool)
    requires
        1 <= line <= 6,
        sums_upto(s, line - 1, t),
        filled == s.flag_at(line - 1) is Filled,
        !filled ==> points == 0,
        filled ==> points == 0 || points == line || points == 2 * line || points == 3 * line
            || points == 4 * line || points == 5 * line,
    ensures
        sums_upto(s, line, t + points),
{
}

/// The state of every card that a game can have is among the states that the walk over all
/// states finds: no state that a game comes into is left out.
pub proof fn state_of_played_card_is_reachable(card: Scorecard)
    requires
        played(card),
    ensures
        reachable(state_of(card)),
{
    let s = state_of(card);
    let p1 = recorded(card.ones) as int;
    let p2 = recorded(card.twos) as int;
    let p3 = recorded(card.threes) as int;
    let p4 = recorded(card.fours) as int;
    let p5 = recorded(card.fives) as int;
    let p6 = recorded(card.sixes) as int;
    assert(s.flag_at(0) == s.ones && s.flag_at(1) == s.twos && s.flag_at(2) == s.threes
        && s.flag_at(3) == s.fours && s.flag_at(4) == s.fives && s.flag_at(5) == s.sixes);
    assert(sums_upto(s, 0, 0));
    lemma_sums_step(s, 1, 0, p1, card.ones is Some);
    lemma_sums_step(s, 2, p1, p2, card.twos is Some);
    lemma_sums_step(s, 3, p1 + p2, p3, card.threes is Some);
    lemma_sums_step(s, 4, p1 + p2 + p3, p4, card.fours is Some);
    lemma_sums_step(s, 5, p1 + p2 + p3 + p4, p5, card.fives is Some);
    lemma_sums_step(s, 6, p1 + p2 + p3 + p4 + p5, p6, card.sixes is Some);
    let t = p1 + p2 + p3 + p4 + p5 + p6;
    assert(t == card.upper_total());
    crate::state::state_is_canonical(card);
    assert(keeps(s, t));
}

} // verus!
