use crate::combo::{combo_at, legal_score, Combo};
use crate::dice::{all_valid, same_faces, valid_die, Die};
use crate::game::{Game, GameOptions, Scorecard};
use pct_str::PctStr;
use vstd::prelude::*;
use vstd::string::StringSliceAdditionalSpecFns;

verus! {

/// One of the seventeen parameters of a query: the dice, the rerolls that are left, and one
/// for each line of the card.
#[derive(Clone, Copy, Debug, PartialEq, Eq, Hash)]
pub enum Parameter {
    Dice,
    RerollsLeft,
    Line(Combo),
}

/// The name of the parameter at place `i`, as bytes: `dice`, `rerolls_left`, then the lines
/// in the order of the card.
pub open spec fn name_bytes(i: int) -> Seq<u8> {
    if i <= 0 {
        "dice".spec_bytes()
    } else if i == 1 {
        "rerolls_left".spec_bytes()
    } else if i == 2 {
        "ones".spec_bytes()
    } else if i == 3 {
        "twos".spec_bytes()
    } else if i == 4 {
        "threes".spec_bytes()
    } else if i == 5 {
        "fours".spec_bytes()
    } else if i == 6 {
        "fives".spec_bytes()
    } else if i == 7 {
        "sixes".spec_bytes()
    } else if i == 8 {
        "one_pair".spec_bytes()
    } else if i == 9 {
        "two_pairs".spec_bytes()
    } else if i == 10 {
        "three_of_a_kind".spec_bytes()
    } else if i == 11 {
        "four_of_a_kind".spec_bytes()
    } else if i == 12 {
        "small_straight".spec_bytes()
    } else if i == 13 {
        "large_straight".spec_bytes()
    } else if i == 14 {
        "full_house".spec_bytes()
    } else if i == 15 {
        "chance".spec_bytes()
    } else {
        "yatzy".spec_bytes()
    }
}

impl Parameter {
    /// The place of the parameter among the seventeen, counted from 0.
    pub open spec fn index(self) -> int {
        match self {
            Parameter::Dice => 0,
            Parameter::RerollsLeft => 1,
            Parameter::Line(c) => 2 + c.index(),
        }
    }

    /// The parameter at place `i` among the seventeen, counted from 0.
    pub open spec fn at(i: int) -> Parameter {
        if i <= 0 {
            Parameter::Dice
        } else if i == 1 {
            Parameter::RerollsLeft
        } else {
            Parameter::Line(combo_at(i - 2))
        }
    }

    /// The place of the parameter among the seventeen, counted from 0.
    pub fn ordinal(&self) -> (i: usize)
        ensures
            i == self.index(),
            i < 17,
            Parameter::at(i as int) == *self,
    {
        match self {
            Parameter::Dice => 0,
            Parameter::RerollsLeft => 1,
            Parameter::Line(c) => 2 + c.ordinal(),
        }
    }

    /// The parameter at place `i` among the seventeen, counted from 0.
    pub fn nth(i: usize) -> (p: Parameter)
        requires
            i < 17,
        ensures
            p == Parameter::at(i as int),
            p.index() == i,
    {
        if i == 0 {
            Parameter::Dice
        } else if i == 1 {
            Parameter::RerollsLeft
        } else {
            Parameter::Line(Combo::nth(i - 2))
        }
    }

    /// The name of the parameter in a query.
    pub fn name(&self) -> (name: &'static str)
        ensures
            name.spec_bytes() == name_bytes(self.index()),
    {
        match self {
            Parameter::Dice => "dice",
            Parameter::RerollsLeft => "rerolls_left",
            Parameter::Line(Combo::Ones) => "ones",
            Parameter::Line(Combo::Twos) => "twos",
            Parameter::Line(Combo::Threes) => "threes",
            Parameter::Line(Combo::Fours) => "fours",
            Parameter::Line(Combo::Fives) => "fives",
            Parameter::Line(Combo::Sixes) => "sixes",
            Parameter::Line(Combo::OnePair) => "one_pair",
            Parameter::Line(Combo::TwoPairs) => "two_pairs",
            Parameter::Line(Combo::ThreeOfAKind) => "three_of_a_kind",
            Parameter::Line(Combo::FourOfAKind) => "four_of_a_kind",
            Parameter::Line(Combo::SmallStraight) => "small_straight",
            Parameter::Line(Combo::LargeStraight) => "large_straight",
            Parameter::Line(Combo::FullHouse) => "full_house",
            Parameter::Line(Combo::Chance) => "chance",
            Parameter::Line(Combo::Yatzy) => "yatzy",
        }
    }
}

/// What is wrong with a query.
#[derive(Clone, Debug, PartialEq, Eq, Hash)]
pub enum ParseIndexQueryStringError {
    /// The parameter has a value already.
    DuplicateParameter(Parameter),
    /// The query is not percent-encoded text.
    InvalidQueryString,
    /// The parameter cannot have this value.
    InvalidValue(Parameter),
    /// The parameter has no value.
    MissingValue(Parameter),
    /// No parameter has this name.
    UnknownParameter(Vec<u8>),
}

/// What is wrong with a query, with the bytes of an unknown name as a sequence.
pub enum Fault {
    Duplicate(int),
    InvalidQuery,
    Invalid(int),
    Missing(int),
    Unknown(Seq<u8>),
}

impl View for ParseIndexQueryStringError {
    type V = Fault;

    open spec fn view(&self) -> Fault {
        match self {
            ParseIndexQueryStringError::DuplicateParameter(p) => Fault::Duplicate(p.index()),
            ParseIndexQueryStringError::InvalidQueryString => Fault::InvalidQuery,
            ParseIndexQueryStringError::InvalidValue(p) => Fault::Invalid(p.index()),
            ParseIndexQueryStringError::MissingValue(p) => Fault::Missing(p.index()),
            ParseIndexQueryStringError::UnknownParameter(name) => Fault::Unknown(name@),
        }
    }
}

/// The faults that a list of errors names.
pub open spec fn faults_of(errors: Seq<ParseIndexQueryStringError>) -> Seq<Fault> {
    Seq::new(errors.len(), |i: int| errors[i]@)
}

/// What a query has said of one parameter so far.
#[derive(Clone, Copy, Debug, PartialEq, Eq)]
pub enum Slot {
    /// Nothing yet.
    Unset,
    /// A value that the parameter cannot have.
    Bad,
    /// Five dice.
    Dice(Die, Die, Die, Die, Die),
    /// The rerolls that are left.
    Rerolls(u8),
    /// A line of the card, empty or with its points.
    Line(Option<u8>),
}

/// The first place from `from` on and before `to` where `s` holds the byte `b`, or `to`
/// where it holds none there.
pub open spec fn find(s: Seq<u8>, b: u8, from: int, to: int) -> int
    decreases to - from,
{
    if from >= to {
        to
    } else if s[from] == b {
        from
    } else {
        find(s, b, from + 1, to)
    }
}

/// The parameter, from place `i` on, whose name is `name`; `None` where there is none.
pub open spec fn key_from(name: Seq<u8>, i: int) -> Option<int>
    decreases 17 - i,
{
    if i >= 17 {
        None
    } else if name == name_bytes(i) {
        Some(i)
    } else {
        key_from(name, i + 1)
    }
}

/// The parameter whose name is `name`; `None` where there is none.
pub open spec fn key_of(name: Seq<u8>) -> Option<int> {
    key_from(name, 0)
}

/// Whether the byte is a digit from `low` to `high`.
pub open spec fn digit_in(b: u8, low: int, high: int) -> bool {
    48 + low <= b <= 48 + high
}

/// The number that `v` writes in decimal with one or two digits and no zero in front;
/// `None` where it writes none so.
pub open spec fn number(v: Seq<u8>) -> Option<int> {
    if v.len() == 1 && digit_in(v[0], 0, 9) {
        Some(v[0] - 48)
    } else if v.len() == 2 && digit_in(v[0], 1, 9) && digit_in(v[1], 0, 9) {
        Some(10 * (v[0] - 48) + (v[1] - 48))
    } else {
        None
    }
}

/// What the value `v` says of the parameter at place `i`; `None` where the parameter cannot
/// have that value. The dice are five digits from 1 to 6 with commas between them, the
/// rerolls one digit from 0 to 2, a line the word `empty` or points that the line can hold.
pub open spec fn value_of(i: int, v: Seq<u8>) -> Option<Slot> {
    if i <= 0 {
        if v.len() == 9 && digit_in(v[0], 1, 6) && v[1] == 44 && digit_in(v[2], 1, 6) && v[3] == 44
            && digit_in(v[4], 1, 6) && v[5] == 44 && digit_in(v[6], 1, 6) && v[7] == 44
            && digit_in(v[8], 1, 6) {
            Some(
                Slot::Dice(
                    (v[0] - 48) as u8,
                    (v[2] - 48) as u8,
                    (v[4] - 48) as u8,
                    (v[6] - 48) as u8,
                    (v[8] - 48) as u8,
                ),
            )
        } else {
            None
        }
    } else if i == 1 {
        if v.len() == 1 && digit_in(v[0], 0, 2) {
            Some(Slot::Rerolls((v[0] - 48) as u8))
        } else {
            None
        }
    } else if v == "empty".spec_bytes() {
        Some(Slot::Line(None))
    } else {
        match number(v) {
            Some(n) => if legal_score(combo_at(i - 2), n as nat) {
                Some(Slot::Line(Some(n as u8)))
            } else {
                None
            },
            None => None,
        }
    }
}

/// What a query has said so far: of each parameter, and what was wrong.
pub struct Scan {
    pub slots: Seq<Slot>,
    pub faults: Seq<Fault>,
}

impl Scan {
    /// The scan with one more fault.
    pub open spec fn fault(self, f: Fault) -> Scan {
        Scan { slots: self.slots, faults: self.faults.push(f) }
    }

    /// The scan with the slot of the parameter at place `k` set.
    pub open spec fn set(self, k: int, slot: Slot) -> Scan {
        Scan { slots: self.slots.update(k, slot), faults: self.faults }
    }

    /// The scan before anything was read.
    pub open spec fn start() -> Scan {
        Scan { slots: Seq::new(17, |i: int| Slot::Unset), faults: Seq::empty() }
    }
}

/// The scan after the part of the query from `start` to `end`, which has no `&` in it. A part
/// without `=` names a parameter without a value, or nothing at all where the whole query is
/// empty. A part with `=` gives the parameter before it the value after it.
pub open spec fn step(st: Scan, q: Seq<u8>, start: int, end: int) -> Scan {
    let eq = find(q, 61, start, end);
    if eq >= end {
        let name = q.subrange(start, end);
        match key_of(name) {
            Some(k) => st.fault(Fault::Missing(k)),
            None => if name.len() == 0 && q.len() == 0 {
                st
            } else {
                st.fault(Fault::Unknown(name))
            },
        }
    } else {
        let name = q.subrange(start, eq);
        let value = q.subrange(eq + 1, end);
        match key_of(name) {
            None => st.fault(Fault::Unknown(name)),
            Some(k) => if !(st.slots[k] is Unset) {
                st.fault(Fault::Duplicate(k))
            } else if value.len() == 0 {
                st.fault(Fault::Missing(k))
            } else {
                match value_of(k, value) {
                    Some(slot) => st.set(k, slot),
                    None => st.set(k, Slot::Bad).fault(Fault::Invalid(k)),
                }
            },
        }
    }
}

/// The scan after every part of the query from `start` on, the parts being what stands
/// between one `&` and the next.
pub open spec fn scan(q: Seq<u8>, start: int, st: Scan) -> Scan
    decreases q.len() - start,
    via scan_ends
{
    if start > q.len() {
        st
    } else {
        let end = find(q, 38, start, q.len() as int);
        let next = step(st, q, start, end);
        if end >= q.len() {
            next
        } else {
            scan(q, end + 1, next)
        }
    }
}

#[via_fn]
proof fn scan_ends(q: Seq<u8>, start: int, st: Scan) {
    if start <= q.len() {
        lemma_find(q, 38, start, q.len() as int);
    }
}

/// What `find` finds lies between `from` and `to`, holds the byte where it is before `to`,
/// and no place before it holds the byte.
pub proof fn lemma_find(s: Seq<u8>, b: u8, from: int, to: int)
    requires
        from <= to,
    ensures
        from <= find(s, b, from, to) <= to,
        find(s, b, from, to) < to ==> s[find(s, b, from, to)] == b,
        forall|i: int| from <= i < find(s, b, from, to) ==> s[i] != b,
    decreases to - from,
{
    if from < to && s[from] != b {
        lemma_find(s, b, from + 1, to);
    }
}

/// The scan with a fault for each of the first `n` parameters that has no value.
pub open spec fn add_missing(st: Scan, n: int) -> Scan
    decreases n,
{
    if n <= 0 {
        st
    } else {
        let before = add_missing(st, n - 1);
        if st.slots[n - 1] is Unset {
            before.fault(Fault::Missing(n - 1))
        } else {
            before
        }
    }
}

/// The first `n` faults, each once: a fault that was named before is left out.
pub open spec fn once(faults: Seq<Fault>, n: int) -> Seq<Fault>
    decreases n,
{
    if n <= 0 {
        Seq::empty()
    } else {
        let before = once(faults, n - 1);
        if before.contains(faults[n - 1]) {
            before
        } else {
            before.push(faults[n - 1])
        }
    }
}

/// What a query says, once it is decoded: of each parameter, and every fault of it, each
/// once, in the order in which they are found. Parameters without a value are found last, in
/// the order of the parameters.
pub open spec fn reading(q: Seq<u8>) -> Scan {
    let st = add_missing(scan(q, 0, Scan::start()), 17);
    Scan { slots: st.slots, faults: once(st.faults, st.faults.len() as int) }
}


/// `PctStr::new` on the query and, where that accepts it, the bytes of what `PctStr::decode`
/// makes of it: the query with each `%` and the two hex digits behind it turned into the
/// byte that they write. `None` where `PctStr::new` refuses the query.
pub uninterp spec fn pct_decoded(query: Seq<char>) -> Option<Seq<u8>>;

/// `PctStr::new` and `PctStr::decode`: the decoded query as bytes, or `None` where the query
/// is not percent-encoded text.
#[verifier::external_body]
fn pct_decode(query: &str) -> (r: Option<Vec<u8>>)
    ensures
        r is Some <==> pct_decoded(query@) is Some,
        r matches Some(bytes) ==> Some(bytes@) == pct_decoded(query@),
{
    match PctStr::new(query) {
        Ok(text) => Some(text.decode().into_bytes()),
        Err(_) => None,
    }
}

/// Whether the bytes of `q` from `from` to `to` are the bytes of `text`.
fn is_text(q: &[u8], from: usize, to: usize, text: &[u8]) -> (yes: bool)
    requires
        from <= to <= q@.len(),
    ensures
        yes == (q@.subrange(from as int, to as int) == text@),
{
    if to - from != text.len() {
        return false;
    }
    let mut i: usize = 0;
    while i < text.len()
        invariant
            from <= to <= q@.len(),
            to - from == text@.len(),
            i <= text@.len(),
            forall|j: int| 0 <= j < i ==> q@[from + j] == text@[j],
        decreases text@.len() - i,
    {
        if q[from + i] != text[i] {
            proof {
                assert(q@.subrange(from as int, to as int)[i as int] == q@[from + i]);
            }
            return false;
        }
        i = i + 1;
    }
    proof {
        assert(q@.subrange(from as int, to as int) =~= text@);
    }
    true
}

/// The first place from `from` on and before `to` where `q` holds the byte `b`, or `to`.
fn find_byte(q: &[u8], b: u8, from: usize, to: usize) -> (at: usize)
    requires
        from <= to <= q@.len(),
    ensures
        at == find(q@, b, from as int, to as int),
        from <= at <= to,
{
    let mut i: usize = from;
    while i < to && q[i] != b
        invariant
            from <= i <= to,
            to <= q@.len(),
            find(q@, b, from as int, to as int) == find(q@, b, i as int, to as int),
        decreases to - i,
    {
        i = i + 1;
    }
    i
}

/// The parameter whose name the bytes of `q` from `from` to `to` are.
fn key_at(q: &[u8], from: usize, to: usize) -> (r: Option<usize>)
    requires
        from <= to <= q@.len(),
    ensures
        r is Some <==> key_of(q@.subrange(from as int, to as int)) is Some,
        r matches Some(k) ==> key_of(q@.subrange(from as int, to as int)) == Some(k as int) && k
            < 17,
{
    let ghost name = q@.subrange(from as int, to as int);
    let mut i: usize = 0;
    while i < 17
        invariant
            i <= 17,
            from <= to <= q@.len(),
            name == q@.subrange(from as int, to as int),
            key_of(name) == key_from(name, i as int),
        decreases 17 - i,
    {
        let p = Parameter::nth(i);
        if is_text(q, from, to, p.name().as_bytes()) {
            return Some(i);
        }
        i = i + 1;
    }
    None
}

/// The bytes of `q` from `from` to `to`.
fn copy_of(q: &[u8], from: usize, to: usize) -> (out: Vec<u8>)
    requires
        from <= to <= q@.len(),
    ensures
        out@ == q@.subrange(from as int, to as int),
{
    let mut out: Vec<u8> = Vec::new();
    let mut i: usize = from;
    while i < to
        invariant
            from <= i <= to,
            to <= q@.len(),
            out@ == q@.subrange(from as int, i as int),
        decreases to - i,
    {
        out.push(q[i]);
        i = i + 1;
        proof {
            assert(out@ =~= q@.subrange(from as int, i as int));
        }
    }
    out
}

/// Whether the byte is a digit from `low` to `high`.
fn is_digit(b: u8, low: u8, high: u8) -> (yes: bool)
    requires
        low <= high <= 9,
    ensures
        yes == digit_in(b, low as int, high as int),
{
    48 + low <= b && b <= 48 + high
}

/// What the bytes of `q` from `from` to `to` say of the parameter at place `k`.
fn value_at(k: usize, q: &[u8], from: usize, to: usize) -> (r: Option<Slot>)
    requires
        k < 17,
        from <= to <= q@.len(),
    ensures
        r == value_of(k as int, q@.subrange(from as int, to as int)),
{
    let ghost v = q@.subrange(from as int, to as int);
    let n = to - from;
    proof {
        assert forall|j: int| 0 <= j < n implies v[j] == q@[from + j] by {}
    }
    if k == 0 {
        if n == 9 && is_digit(q[from], 1, 6) && q[from + 1] == 44 && is_digit(q[from + 2], 1, 6)
            && q[from + 3] == 44 && is_digit(q[from + 4], 1, 6) && q[from + 5] == 44 && is_digit(
            q[from + 6],
            1,
            6,
        ) && q[from + 7] == 44 && is_digit(q[from + 8], 1, 6) {
            Some(
                Slot::Dice(
                    q[from] - 48,
                    q[from + 2] - 48,
                    q[from + 4] - 48,
                    q[from + 6] - 48,
                    q[from + 8] - 48,
                ),
            )
        } else {
            None
        }
    } else if k == 1 {
        if n == 1 && is_digit(q[from], 0, 2) {
            Some(Slot::Rerolls(q[from] - 48))
        } else {
            None
        }
    } else if is_text(q, from, to, "empty".as_bytes()) {
        Some(Slot::Line(None))
    } else {
        let combo = Combo::nth(k - 2);
        let points: u8 = if n == 1 && is_digit(q[from], 0, 9) {
            q[from] - 48
        } else if n == 2 && is_digit(q[from], 1, 9) && is_digit(q[from + 1], 0, 9) {
            10 * (q[from] - 48) + (q[from + 1] - 48)
        } else {
            return None;
        };
        if combo.is_legal_score(points) {
            Some(Slot::Line(Some(points)))
        } else {
            None
        }
    }
}

/// What a query has said so far, in memory.
struct Reading {
    slots: Vec<Slot>,
    errors: Vec<ParseIndexQueryStringError>,
}

impl View for Reading {
    type V = Scan;

    closed spec fn view(&self) -> Scan {
        Scan { slots: self.slots@, faults: faults_of(self.errors@) }
    }
}

impl Reading {
    /// Nothing read yet.
    fn new() -> (r: Reading)
        ensures
            r@ == Scan::start(),
    {
        let mut slots: Vec<Slot> = Vec::new();
        let mut i: usize = 0;
        while i < 17
            invariant
                i <= 17,
                slots@.len() == i,
                forall|j: int| 0 <= j < i ==> slots@[j] == Slot::Unset,
            decreases 17 - i,
        {
            slots.push(Slot::Unset);
            i = i + 1;
        }
        let r = Reading { slots, errors: Vec::new() };
        proof {
            assert(r@.slots =~= Scan::start().slots);
            assert(r@.faults =~= Scan::start().faults);
        }
        r
    }

    /// One more error.
    fn fault(&mut self, error: ParseIndexQueryStringError)
        ensures
            final(self)@ == old(self)@.fault(error@),
    {
        self.errors.push(error);
        proof {
            assert(faults_of(self.errors@) =~= faults_of(old(self).errors@).push(error@));
        }
    }

    /// Reads the part of the query from `start` to `end`.
    fn step(&mut self, q: &[u8], start: usize, end: usize)
        requires
            start <= end <= q@.len(),
            old(self)@.slots.len() == 17,
        ensures
            final(self)@ == step(old(self)@, q@, start as int, end as int),
            final(self)@.slots.len() == 17,
    {
        let eq = find_byte(q, 61, start, end);
        if eq >= end {
            match key_at(q, start, end) {
                Some(k) => {
                    self.fault(ParseIndexQueryStringError::MissingValue(Parameter::nth(k)));
                },
                None => {
                    if end > start || q.len() > 0 {
                        self.fault(
                            ParseIndexQueryStringError::UnknownParameter(copy_of(q, start, end)),
                        );
                    }
                },
            }
        } else {
            match key_at(q, start, eq) {
                None => {
                    self.fault(ParseIndexQueryStringError::UnknownParameter(copy_of(q, start, eq)));
                },
                Some(k) => {
                    let p = Parameter::nth(k);
                    let unset = match self.slots[k] {
                        Slot::Unset => true,
                        _ => false,
                    };
                    if !unset {
                        self.fault(ParseIndexQueryStringError::DuplicateParameter(p));
                    } else if eq + 1 == end {
                        self.fault(ParseIndexQueryStringError::MissingValue(p));
                    } else {
                        match value_at(k, q, eq + 1, end) {
                            Some(slot) => {
                                self.slots.set(k, slot);
                            },
                            None => {
                                self.slots.set(k, Slot::Bad);
                                self.fault(ParseIndexQueryStringError::InvalidValue(p));
                            },
                        }
                    }
                },
            }
        }
    }
}


/// Whether the slot can stand at place `i`: the dice are valid, the rerolls at most two, the
/// points of a line such as the line can hold.
pub open spec fn slot_fits(i: int, slot: Slot) -> bool {
    match slot {
        Slot::Unset => true,
        Slot::Bad => true,
        Slot::Dice(a, b, c, d, e) => i == 0 && valid_die(a) && valid_die(b) && valid_die(c)
            && valid_die(d) && valid_die(e),
        Slot::Rerolls(r) => i == 1 && r <= 2,
        Slot::Line(line) => 2 <= i < 17 && match line {
            Some(p) => legal_score(combo_at(i - 2), p as nat),
            None => true,
        },
    }
}

/// Whether every slot of the scan can stand at its place, and a fault was noted where a
/// slot holds a value that its parameter cannot have.
pub open spec fn sound(st: Scan) -> bool {
    &&& st.slots.len() == 17
    &&& forall|i: int| 0 <= i < 17 ==> slot_fits(i, #[trigger] st.slots[i])
    &&& forall|i: int| 0 <= i < 17 && #[trigger] st.slots[i] is Bad ==> st.faults.len() > 0
}

proof fn lemma_key_bound(name: Seq<u8>, i: int)
    requires
        0 <= i,
    ensures
        key_from(name, i) matches Some(k) ==> i <= k < 17,
    decreases 17 - i,
{
    if i < 17 && name != name_bytes(i) {
        lemma_key_bound(name, i + 1);
    }
}

proof fn lemma_value_fits(k: int, v: Seq<u8>)
    requires
        0 <= k < 17,
    ensures
        value_of(k, v) matches Some(slot) ==> slot_fits(k, slot) && !(slot is Unset) && !(slot
            is Bad),
{
}

proof fn lemma_step_sound(st: Scan, q: Seq<u8>, start: int, end: int)
    requires
        sound(st),
        0 <= start <= end <= q.len(),
    ensures
        sound(step(st, q, start, end)),
{
    let eq = find(q, 61, start, end);
    lemma_find(q, 61, start, end);
    let next = step(st, q, start, end);
    if eq < end {
        let name = q.subrange(start, eq);
        let value = q.subrange(eq + 1, end);
        lemma_key_bound(name, 0);
        match key_of(name) {
            Some(k) => {
                lemma_value_fits(k, value);
                assert forall|i: int| 0 <= i < 17 implies slot_fits(i, #[trigger] next.slots[i]) by {
                    if i != k {
                        assert(next.slots[i] == st.slots[i]);
                    }
                }
                assert forall|i: int| 0 <= i < 17 && #[trigger] next.slots[i] is Bad implies next.faults.len()
                    > 0 by {
                    if i != k {
                        assert(next.slots[i] == st.slots[i]);
                    }
                }
            },
            None => {},
        }
    }
}

proof fn lemma_scan_sound(q: Seq<u8>, start: int, st: Scan)
    requires
        sound(st),
        0 <= start <= q.len(),
    ensures
        sound(scan(q, start, st)),
    decreases q.len() - start,
{
    let end = find(q, 38, start, q.len() as int);
    lemma_find(q, 38, start, q.len() as int);
    lemma_step_sound(st, q, start, end);
    if end < q.len() {
        lemma_scan_sound(q, end + 1, step(st, q, start, end));
    }
}

proof fn lemma_missing(st: Scan, n: int)
    requires
        0 <= n <= 17,
        st.slots.len() == 17,
    ensures
        add_missing(st, n).slots == st.slots,
        add_missing(st, n).faults.len() >= st.faults.len(),
        add_missing(st, n).faults.len() == 0 ==> forall|i: int|
            0 <= i < n ==> !(#[trigger] st.slots[i] is Unset),
    decreases n,
{
    if n > 0 {
        lemma_missing(st, n - 1);
    }
}

proof fn lemma_once(faults: Seq<Fault>, n: int)
    requires
        0 <= n <= faults.len(),
    ensures
        once(faults, n).len() == 0 <==> n == 0,
    decreases n,
{
    if n > 0 {
        lemma_once(faults, n - 1);
        if n - 1 == 0 {
            assert(!once(faults, 0).contains(faults[0]));
        }
    }
}

/// Where a query has no fault, it gives every parameter a value that the parameter can have.
pub proof fn lemma_reading(q: Seq<u8>)
    ensures
        reading(q).slots.len() == 17,
        reading(q).faults.len() == 0 ==> forall|i: int|
            0 <= i < 17 ==> {
                &&& slot_fits(i, #[trigger] reading(q).slots[i])
                &&& !(reading(q).slots[i] is Unset)
                &&& !(reading(q).slots[i] is Bad)
            },
{
    let scanned = scan(q, 0, Scan::start());
    assert(sound(Scan::start()));
    lemma_scan_sound(q, 0, Scan::start());
    lemma_missing(scanned, 17);
    let all = add_missing(scanned, 17);
    lemma_once(all.faults, all.faults.len() as int);
}

/// The dice that the slots give.
pub open spec fn dice_of(slots: Seq<Slot>) -> Seq<Die> {
    match slots[0] {
        Slot::Dice(a, b, c, d, e) => seq![a, b, c, d, e],
        _ => Seq::empty(),
    }
}

/// The rerolls that the slots give.
pub open spec fn rerolls_of(slots: Seq<Slot>) -> u8 {
    match slots[1] {
        Slot::Rerolls(r) => r,
        _ => 0,
    }
}

/// The line that the slot at place `i` gives.
pub open spec fn line_of(slots: Seq<Slot>, i: int) -> Option<u8> {
    match slots[i] {
        Slot::Line(line) => line,
        _ => None,
    }
}

/// The card that the slots give.
pub open spec fn card_of_slots(slots: Seq<Slot>) -> Scorecard {
    Scorecard {
        ones: line_of(slots, 2),
        twos: line_of(slots, 3),
        threes: line_of(slots, 4),
        fours: line_of(slots, 5),
        fives: line_of(slots, 6),
        sixes: line_of(slots, 7),
        one_pair: line_of(slots, 8),
        two_pairs: line_of(slots, 9),
        three_of_a_kind: line_of(slots, 10),
        four_of_a_kind: line_of(slots, 11),
        small_straight: line_of(slots, 12),
        large_straight: line_of(slots, 13),
        full_house: line_of(slots, 14),
        chance: line_of(slots, 15),
        yatzy: line_of(slots, 16),
    }
}

/// Whether `r` is what the decoded query `q` gives: the game of its parameters, with the
/// dice sorted, where the query has no fault, and else its faults.
pub open spec fn answers(q: Seq<u8>, r: Result<Game, Vec<ParseIndexQueryStringError>>) -> bool {
    match r {
        Ok(game) => {
            &&& reading(q).faults.len() == 0
            &&& game@.wf()
            &&& game@.rerolls_left == rerolls_of(reading(q).slots)
            &&& game@.card == card_of_slots(reading(q).slots)
            &&& same_faces(game@.dice, dice_of(reading(q).slots))
        },
        Err(errors) => reading(q).faults.len() > 0 && faults_of(errors@) == reading(q).faults,
    }
}

/// The line in the slot at place `i`.
fn line_at(slots: &Vec<Slot>, i: usize) -> (line: Option<u8>)
    requires
        i < slots@.len(),
    ensures
        line == line_of(slots@, i as int),
{
    match slots[i] {
        Slot::Line(line) => line,
        _ => None,
    }
}

/// Whether two errors name the same fault.
fn same_error(a: &ParseIndexQueryStringError, b: &ParseIndexQueryStringError) -> (yes: bool)
    ensures
        yes == (a@ == b@),
{
    match (a, b) {
        (
            ParseIndexQueryStringError::DuplicateParameter(p),
            ParseIndexQueryStringError::DuplicateParameter(q),
        ) => p.ordinal() == q.ordinal(),
        (
            ParseIndexQueryStringError::InvalidQueryString,
            ParseIndexQueryStringError::InvalidQueryString,
        ) => true,
        (
            ParseIndexQueryStringError::InvalidValue(p),
            ParseIndexQueryStringError::InvalidValue(q),
        ) => p.ordinal() == q.ordinal(),
        (
            ParseIndexQueryStringError::MissingValue(p),
            ParseIndexQueryStringError::MissingValue(q),
        ) => p.ordinal() == q.ordinal(),
        (
            ParseIndexQueryStringError::UnknownParameter(x),
            ParseIndexQueryStringError::UnknownParameter(y),
        ) => {
            proof {
                assert(x@.subrange(0, x@.len() as int) =~= x@);
            }
            is_text(x.as_slice(), 0, x.len(), y.as_slice())
        },
        _ => false,
    }
}

/// A copy of the error.
fn copy_error(error: &ParseIndexQueryStringError) -> (copy: ParseIndexQueryStringError)
    ensures
        copy@ == error@,
{
    match error {
        ParseIndexQueryStringError::DuplicateParameter(p) => {
            ParseIndexQueryStringError::DuplicateParameter(*p)
        },
        ParseIndexQueryStringError::InvalidQueryString => {
            ParseIndexQueryStringError::InvalidQueryString
        },
        ParseIndexQueryStringError::InvalidValue(p) => ParseIndexQueryStringError::InvalidValue(*p),
        ParseIndexQueryStringError::MissingValue(p) => ParseIndexQueryStringError::MissingValue(*p),
        ParseIndexQueryStringError::UnknownParameter(name) => {
            let copy = copy_of(name.as_slice(), 0, name.len());
            proof {
                assert(name@.subrange(0, name@.len() as int) =~= name@);
            }
            ParseIndexQueryStringError::UnknownParameter(copy)
        },
    }
}

/// Whether the list names the fault of `error`.
fn names_fault(list: &Vec<ParseIndexQueryStringError>, error: &ParseIndexQueryStringError) -> (yes:
    bool)
    ensures
        yes == faults_of(list@).contains(error@),
{
    let mut i: usize = 0;
    while i < list.len()
        invariant
            i <= list@.len(),
            forall|j: int| 0 <= j < i ==> faults_of(list@)[j] != error@,
        decreases list@.len() - i,
    {
        if same_error(&list[i], error) {
            proof {
                assert(faults_of(list@)[i as int] == error@);
            }
            return true;
        }
        i = i + 1;
    }
    false
}

/// The game that a decoded query describes, or everything that is wrong with the query:
/// each fault once, in the order in which it is found, the parameters without a value last.
pub fn parse_decoded_query(q: &[u8]) -> (r: Result<Game, Vec<ParseIndexQueryStringError>>)
    ensures
        answers(q@, r),
{
    let mut st = Reading::new();
    let mut start: usize = 0;
    let mut done = false;
    while !done
        invariant
            start <= q@.len(),
            st@.slots.len() == 17,
            done ==> st@ == scan(q@, 0, Scan::start()),
            !done ==> scan(q@, 0, Scan::start()) == scan(q@, start as int, st@),
        decreases q@.len() - start + if done { 0int } else { 1int },
    {
        let end = find_byte(q, 38, start, q.len());
        st.step(q, start, end);
        if end >= q.len() {
            done = true;
        } else {
            start = end + 1;
        }
    }
    let ghost scanned = st@;
    let mut i: usize = 0;
    while i < 17
        invariant
            i <= 17,
            scanned.slots.len() == 17,
            st@.slots == scanned.slots,
            st@ == add_missing(scanned, i as int),
        decreases 17 - i,
    {
        let unset = match st.slots[i] {
            Slot::Unset => true,
            _ => false,
        };
        if unset {
            st.fault(ParseIndexQueryStringError::MissingValue(Parameter::nth(i)));
        }
        i = i + 1;
    }
    let Reading { slots, errors } = st;
    let ghost all = faults_of(errors@);
    let mut unique: Vec<ParseIndexQueryStringError> = Vec::new();
    let mut n: usize = 0;
    proof {
        assert(faults_of(unique@) =~= once(all, 0));
    }
    while n < errors.len()
        invariant
            n <= errors@.len(),
            all == faults_of(errors@),
            faults_of(unique@) == once(all, n as int),
        decreases errors@.len() - n,
    {
        if !names_fault(&unique, &errors[n]) {
            let ghost before = faults_of(unique@);
            unique.push(copy_error(&errors[n]));
            proof {
                assert(faults_of(unique@) =~= before.push(all[n as int]));
            }
        }
        n = n + 1;
    }
    proof {
        lemma_reading(q@);
        assert(reading(q@).faults == faults_of(unique@));
        assert(reading(q@).slots == slots@);
    }
    if unique.len() > 0 {
        return Err(unique);
    }
    let dice = match slots[0] {
        Slot::Dice(a, b, c, d, e) => [a, b, c, d, e],
        _ => [1, 1, 1, 1, 1],
    };
    let rerolls_left = match slots[1] {
        Slot::Rerolls(r) => r,
        _ => 0,
    };
    let options = GameOptions {
        dice,
        rerolls_left,
        ones: line_at(&slots, 2),
        twos: line_at(&slots, 3),
        threes: line_at(&slots, 4),
        fours: line_at(&slots, 5),
        fives: line_at(&slots, 6),
        sixes: line_at(&slots, 7),
        one_pair: line_at(&slots, 8),
        two_pairs: line_at(&slots, 9),
        three_of_a_kind: line_at(&slots, 10),
        four_of_a_kind: line_at(&slots, 11),
        small_straight: line_at(&slots, 12),
        large_straight: line_at(&slots, 13),
        full_house: line_at(&slots, 14),
        chance: line_at(&slots, 15),
        yatzy: line_at(&slots, 16),
    };
    proof {
        let s = slots@;
        assert(slot_fits(0, s[0]) && !(s[0] is Unset) && !(s[0] is Bad));
        assert(slot_fits(1, s[1]) && !(s[1] is Unset) && !(s[1] is Bad));
        assert(dice@ =~= dice_of(s));
        assert(all_valid(dice@));
        assert(options.card() == card_of_slots(s));
        assert forall|c: Combo| #[trigger] crate::game::line_legal(options.card(), c) by {
            let k = 2 + c.index();
            assert(slot_fits(k, s[k]));
            assert(combo_at(c.index()) == c);
            assert(options.card().get(c) == line_of(s, k));
        }
        crate::game::lemma_legal_card(options.card());
    }
    match Game::new(options) {
        Ok(game) => Ok(game),
        // Every value was checked when it was read, so the game is always made.
        Err(_) => Err(unique),
    }
}

/// The game that a query describes, or everything that is wrong with the query. A query
/// that is not percent-encoded text has the one fault that it is no query; any other is
/// decoded and read as `parse_decoded_query` reads it.
pub fn parse_index_query_string(query: &str) -> (r: Result<Game, Vec<ParseIndexQueryStringError>>)
    ensures
        match pct_decoded(query@) {
            Some(q) => answers(q, r),
            None => r matches Err(errors) && faults_of(errors@) == seq![Fault::InvalidQuery],
        },
{
    match pct_decode(query) {
        Some(decoded) => parse_decoded_query(decoded.as_slice()),
        None => {
            let mut errors: Vec<ParseIndexQueryStringError> = Vec::new();
            errors.push(ParseIndexQueryStringError::InvalidQueryString);
            proof {
                assert(faults_of(errors@) =~= seq![Fault::InvalidQuery]);
            }
            Err(errors)
        },
    }
}

} // verus!
