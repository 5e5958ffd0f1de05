//! A chart cell's edition date, kept only as a comparable ranking key.
use std::cmp::Ordering;
use vstd::prelude::*;
use vstd::std_specs::cmp::PartialOrdSpec;
use crate::text::chars_of;

verus! {

/// A date as the number `CCYY * 10_000 + MM * 100 + DD`, so that ordering is a
/// plain integer comparison. There is no calendar validation.
#[derive(Debug, Clone, Copy, PartialEq, Eq, Ord, Hash, Structural)]
pub struct EditionDate(u32);

impl PartialOrd for EditionDate {
    fn partial_cmp(&self, other: &Self) -> (r: Option<Ordering>) {
        if self.0 < other.0 {
            Some(Ordering::Less)
        } else if self.0 == other.0 {
            Some(Ordering::Equal)
        } else {
            Some(Ordering::Greater)
        }
    }
}

impl vstd::std_specs::cmp::PartialOrdSpecImpl for EditionDate {
    open spec fn obeys_partial_cmp_spec() -> bool {
        true
    }

    open spec fn partial_cmp_spec(&self, other: &Self) -> Option<Ordering> {
        if self.key() < other.key() {
            Some(Ordering::Less)
        } else if self.key() == other.key() {
            Some(Ordering::Equal)
        } else {
            Some(Ordering::Greater)
        }
    }
}

impl Default for EditionDate {
    fn default() -> (d: EditionDate)
        ensures
            d.key() == 0,
    {
        EditionDate(0)
    }
}

/// A decimal digit.
pub open spec fn is_digit(c: char) -> bool {
    '0' <= c <= '9'
}

/// Every character is a decimal digit.
pub open spec fn all_digits(s: Seq<char>) -> bool {
    forall|i: int| 0 <= i < s.len() ==> is_digit(#[trigger] s[i])
}

/// The number that a sequence of digits spells.
pub open spec fn decimal(s: Seq<char>) -> int
    decreases s.len(),
{
    if s.len() == 0 {
        0
    } else {
        decimal(s.drop_last()) * 10 + (s.last() as int - '0' as int)
    }
}

/// An unsigned number of at most `max`: digits, after an optional plus sign.
pub open spec fn unsigned_field(s: Seq<char>, max: int) -> Option<int> {
    let digits = if s.len() > 0 && s[0] == '+' { s.skip(1) } else { s };
    if digits.len() > 0 && all_digits(digits) && decimal(digits) <= max {
        Some(decimal(digits))
    } else {
        None
    }
}

/// Index of the first slash at or after `at`, or the length.
pub open spec fn slash_at(s: Seq<char>, at: int) -> int
    decreases s.len() - at,
{
    if at >= s.len() {
        s.len() as int
    } else if s[at] == '/' {
        at
    } else {
        slash_at(s, at + 1)
    }
}

/// The key of a date given by its components.
pub open spec fn date_key(year: int, month: int, day: int) -> int {
    year * 10_000 + month * 100 + day
}

/// The key of an eight-digit `CCYYMMDD` text; 0 for any other text.
pub open spec fn ccyymmdd_key(s: Seq<char>) -> int {
    if s.len() == 8 && all_digits(s) {
        decimal(s)
    } else {
        0
    }
}

/// The key of a `DD/MM/YYYY` text: three numbers between exactly two slashes,
/// day and month at most 255, year at most 65535. 0 for any other text.
pub open spec fn ddmmyyyy_key(s: Seq<char>) -> int {
    let a = slash_at(s, 0);
    let b = slash_at(s, a + 1);
    let c = slash_at(s, b + 1);
    if a < s.len() && b < s.len() && c == s.len() {
        match (
            unsigned_field(s.subrange(0, a), 255),
            unsigned_field(s.subrange(a + 1, b), 255),
            unsigned_field(s.subrange(b + 1, c), 65535),
        ) {
            (Some(day), Some(month), Some(year)) => date_key(year, month, day),
            _ => 0,
        }
    } else {
        0
    }
}

proof fn lemma_decimal_bounds(s: Seq<char>)
    requires
        all_digits(s),
    ensures
        decimal(s) >= 0,
        s.len() <= 8 ==> decimal(s) < 100_000_000,
        s.len() <= 7 ==> decimal(s) < 10_000_000,
        s.len() <= 6 ==> decimal(s) < 1_000_000,
        s.len() <= 5 ==> decimal(s) < 100_000,
        s.len() <= 4 ==> decimal(s) < 10_000,
        s.len() <= 3 ==> decimal(s) < 1_000,
        s.len() <= 2 ==> decimal(s) < 100,
        s.len() <= 1 ==> decimal(s) < 10,
    decreases s.len(),
{
    if s.len() > 0 {
        assert forall|i: int| 0 <= i < s.drop_last().len() implies is_digit(#[trigger] s.drop_last()[i]) by {
            assert(is_digit(s[i]));
        }
        lemma_decimal_bounds(s.drop_last());
        assert(is_digit(s[s.len() - 1]));
    }
}

proof fn lemma_decimal_grows(s: Seq<char>, i: int)
    requires
        all_digits(s),
        0 <= i <= s.len(),
    ensures
        decimal(s.take(i)) <= decimal(s),
    decreases s.len(),
{
    if i == s.len() {
        assert(s.take(i) =~= s);
    } else {
        let t = s.drop_last();
        assert forall|k: int| 0 <= k < t.len() implies is_digit(#[trigger] t[k]) by {
            assert(is_digit(s[k]));
        }
        lemma_decimal_grows(t, i);
        assert(t.take(i) =~= s.take(i));
        lemma_decimal_bounds(t);
        assert(is_digit(s[s.len() - 1]));
    }
}

/// Number spelled by `s[from..to]`, an optional plus sign allowed in front.
fn parse_unsigned(s: &Vec<char>, from: usize, to: usize, max: u32) -> (r: Option<u32>)
    requires
        from <= to <= s@.len(),
        max <= 65535,
    ensures
        match r {
            Some(v) => unsigned_field(s@.subrange(from as int, to as int), max as int) == Some(v as int),
            None => unsigned_field(s@.subrange(from as int, to as int), max as int) is None,
        },
{
    let ghost whole = s@.subrange(from as int, to as int);
    let start: usize = if from < to && s[from] == '+' { from + 1 } else { from };
    let ghost digits = s@.subrange(start as int, to as int);
    proof {
        if start > from {
            assert(whole.skip(1) =~= digits);
        }
    }
    if start == to {
        return None;
    }
    let mut v: u32 = 0;
    let mut i: usize = start;
    while i < to
        invariant
            start <= i <= to <= s@.len(),
            max <= 65535,
            v <= max,
            from <= start,
            whole == s@.subrange(from as int, to as int),
            digits == s@.subrange(start as int, to as int),
            all_digits(digits.take(i - start)),
            v == decimal(digits.take(i - start)),
            unsigned_field(whole, max as int) == (if digits.len() > 0 && all_digits(digits) && decimal(digits) <= max {
                Some(decimal(digits))
            } else {
                None
            }),
        decreases to - i,
    {
        let c: char = s[i];
        let ghost k = i - start;
        assert(digits[k] == c);
        if !('0' <= c && c <= '9') {
            assert(!all_digits(digits));
            return None;
        }
        assert(digits.take(k + 1).drop_last() =~= digits.take(k));
        v = v * 10 + (c as u32 - '0' as u32);
        if v > max {
            proof {
                if all_digits(digits) {
                    lemma_decimal_grows(digits, k + 1);
                }
            }
            return None;
        }
        i += 1;
    }
    assert(digits.take(to - start) =~= digits);
    Some(v)
}

fn find_slash(s: &Vec<char>, from: usize) -> (r: usize)
    requires
        from <= s@.len(),
    ensures
        r == slash_at(s@, from as int),
        from <= r <= s@.len(),
{
    let mut i: usize = from;
    while i < s.len() && s[i] != '/'
        invariant
            from <= i <= s@.len(),
            slash_at(s@, i as int) == slash_at(s@, from as int),
        decreases s@.len() - i,
    {
        i += 1;
    }
    i
}

impl EditionDate {
    /// The number by which dates are compared.
    pub closed spec fn key(self) -> int {
        self.0 as int
    }

    /// The oldest possible value: it sorts before every real date.
    pub fn unknown() -> (d: EditionDate)
        ensures
            d.key() == 0,
    {
        EditionDate(0)
    }

    /// A date from its components, with no validation.
    pub fn new(year: u16, month: u8, day: u8) -> (d: EditionDate)
        ensures
            d.key() == date_key(year as int, month as int, day as int),
    {
        EditionDate(year as u32 * 10_000 + month as u32 * 100 + day as u32)
    }

    /// Reads an eight-digit `CCYYMMDD` text; anything else is unknown.
    pub fn from_ccyymmdd(s: &str) -> (d: EditionDate)
        ensures
            d.key() == ccyymmdd_key(s@),
    {
        let b: Vec<char> = chars_of(s);
        if b.len() != 8 {
            return EditionDate::unknown();
        }
        let mut v: u32 = 0;
        let mut i: usize = 0;
        while i < 8
            invariant
                i <= 8,
                b@ == s@,
                b@.len() == 8,
                all_digits(b@.take(i as int)),
                v == decimal(b@.take(i as int)),
            decreases 8 - i,
        {
            let c: char = b[i];
            if !('0' <= c && c <= '9') {
                assert(!all_digits(b@));
                return EditionDate::unknown();
            }
            proof {
                lemma_decimal_bounds(b@.take(i as int));
                assert(b@.take(i + 1).drop_last() =~= b@.take(i as int));
            }
            v = v * 10 + (c as u32 - '0' as u32);
            i += 1;
        }
        assert(b@.take(8) =~= b@);
        EditionDate(v)
    }

    /// Reads a `DD/MM/YYYY` text; anything that is not three numeric fields
    /// between two slashes is unknown.
    pub fn from_ddmmyyyy(s: &str) -> (d: EditionDate)
        ensures
            d.key() == ddmmyyyy_key(s@),
    {
        let t: Vec<char> = chars_of(s);
        let a: usize = find_slash(&t, 0);
        if a == t.len() {
            return EditionDate::unknown();
        }
        let b: usize = find_slash(&t, a + 1);
        if b == t.len() {
            return EditionDate::unknown();
        }
        if find_slash(&t, b + 1) != t.len() {
            return EditionDate::unknown();
        }
        let day: Option<u32> = parse_unsigned(&t, 0, a, 255);
        let month: Option<u32> = parse_unsigned(&t, a + 1, b, 255);
        let year: Option<u32> = parse_unsigned(&t, b + 1, t.len(), 65535);
        match (day, month, year) {
            (Some(d), Some(m), Some(y)) => EditionDate::new(y as u16, m as u8, d as u8),
            _ => EditionDate::unknown(),
        }
    }
}

/// A missing date never outranks another one.
pub proof fn unknown_is_oldest(unknown: EditionDate, d: EditionDate)
    requires
        unknown.key() == 0,
    ensures
        unknown.key() <= d.key(),
{
}

/// Dates with two-digit months and days are ordered by year, then by month,
/// then by day.
pub proof fn keys_order_as_dates(y1: int, m1: int, d1: int, y2: int, m2: int, d2: int)
    requires
        0 <= m1 < 100,
        0 <= d1 < 100,
        0 <= m2 < 100,
        0 <= d2 < 100,
    ensures
        date_key(y1, m1, d1) < date_key(y2, m2, d2) <==> (y1 < y2 || (y1 == y2 && (m1 < m2 || (m1 == m2
            && d1 < d2)))),
        date_key(y1, m1, d1) == date_key(y2, m2, d2) <==> (y1 == y2 && m1 == m2 && d1 == d2),
{
}

/// The eight digits of a `CCYYMMDD` text are the components of its date.
pub proof fn ccyymmdd_splits(s: Seq<char>)
    requires
        s.len() == 8,
        all_digits(s),
    ensures
        ccyymmdd_key(s) == date_key(
            decimal(s.subrange(0, 4)),
            decimal(s.subrange(4, 6)),
            decimal(s.subrange(6, 8)),
        ),
{
    lemma_decimal_append(s.subrange(0, 6), s.subrange(6, 8));
    lemma_decimal_append(s.subrange(0, 4), s.subrange(4, 6));
    assert(s.subrange(0, 6) + s.subrange(6, 8) =~= s);
    assert(s.subrange(0, 4) + s.subrange(4, 6) =~= s.subrange(0, 6));
}

proof fn lemma_decimal_append(a: Seq<char>, b: Seq<char>)
    requires
        b.len() == 2,
    ensures
        decimal(a + b) == decimal(a) * 100 + decimal(b),
{
    let ab = a + b;
    assert(ab.drop_last().drop_last() =~= a);
    assert(b.drop_last().drop_last() =~= Seq::<char>::empty());
    reveal_with_fuel(decimal, 3);
    assert(ab.drop_last().last() == b[0]);
    assert(b.drop_last().last() == b[0]);
}

/// Dates of one key are one date.
pub proof fn equal_keys_are_equal_dates(a: EditionDate, b: EditionDate)
    requires
        a.key() == b.key(),
    ensures
        a == b,
{
}

proof fn lemma_slash(s: Seq<char>, from: int, stop: int)
    requires
        0 <= from <= stop <= s.len(),
        stop == s.len() || s[stop] == '/',
        forall|i: int| from <= i < stop ==> (#[trigger] s[i]) != '/',
    ensures
        slash_at(s, from) == stop,
    decreases stop - from,
{
    if from < stop {
        assert(s[from] != '/');
        lemma_slash(s, from + 1, stop);
    }
}

/// A text of three numbers between slashes is day, month and year.
pub proof fn ddmmyyyy_splits(day: Seq<char>, month: Seq<char>, year: Seq<char>)
    requires
        day.len() > 0 && all_digits(day) && decimal(day) <= 255,
        month.len() > 0 && all_digits(month) && decimal(month) <= 255,
        year.len() > 0 && all_digits(year) && decimal(year) <= 65535,
    ensures
        ddmmyyyy_key(day + (seq!['/'] + (month + (seq!['/'] + year)))) == 10_000 * decimal(year) + 100 * decimal(month)
            + decimal(day),
{
    let s = day + (seq!['/'] + (month + (seq!['/'] + year)));
    let a = day.len() as int;
    let b = a + 1 + month.len();
    assert forall|i: int| 0 <= i < a implies (#[trigger] s[i]) != '/' by {
        assert(s[i] == day[i]);
        assert(is_digit(day[i]));
    }
    assert forall|i: int| a + 1 <= i < b implies (#[trigger] s[i]) != '/' by {
        assert(s[i] == month[i - a - 1]);
        assert(is_digit(month[i - a - 1]));
    }
    assert forall|i: int| b + 1 <= i < s.len() implies (#[trigger] s[i]) != '/' by {
        assert(s[i] == year[i - b - 1]);
        assert(is_digit(year[i - b - 1]));
    }
    assert(s[a] == '/' && s[b] == '/');
    lemma_slash(s, 0, a);
    lemma_slash(s, a + 1, b);
    lemma_slash(s, b + 1, s.len() as int);
    assert(s.subrange(0, a) =~= day);
    assert(s.subrange(a + 1, b) =~= month);
    assert(s.subrange(b + 1, s.len() as int) =~= year);
    assert(is_digit(day[0]) && is_digit(month[0]) && is_digit(year[0]));
}

/// Digits spell a number: one more digit makes it ten times as large and adds the
/// digit.
pub proof fn digits_spell_numbers(s: Seq<char>, c: char)
    requires
        is_digit(c),
    ensures
        decimal(s.push(c)) == 10 * decimal(s) + (c as int - '0' as int),
        decimal(Seq::<char>::empty()) == 0,
{
    assert(s.push(c).drop_last() =~= s);
}

/// Dates compare as days do: by year, then by month, then by day.
pub proof fn dates_compare_as_days_do(a: EditionDate, b: EditionDate, y1: int, m1: int, d1: int, y2: int, m2: int, d2: int)
    requires
        a.key() == date_key(y1, m1, d1),
        b.key() == date_key(y2, m2, d2),
        0 <= m1 < 100 && 0 <= d1 < 100 && 0 <= m2 < 100 && 0 <= d2 < 100,
    ensures
        a.partial_cmp_spec(&b) == Some(Ordering::Less) <==> y1 < y2 || (y1 == y2 && m1 < m2) || (y1 == y2 && m1 == m2 && d1
            < d2),
        a.partial_cmp_spec(&b) == Some(Ordering::Equal) <==> y1 == y2 && m1 == m2 && d1 == d2,
{
}

/// A text of fewer or more than eight characters, or with one that is no digit, is no
/// `CCYYMMDD` date.
pub proof fn other_texts_are_no_ccyymmdd_dates(s: Seq<char>, i: int)
    requires
        s.len() != 8 || (0 <= i < 8 && (s[i] < '0' || s[i] > '9')),
    ensures
        ccyymmdd_key(s) == 0,
{
    if s.len() == 8 && all_digits(s) {
        assert(is_digit(s[i]));
    }
}

/// A part of a date is refused where it is empty, too large, or has a character that
/// is neither a digit nor a plus sign in front.
pub open spec fn is_no_part(s: Seq<char>, max: int) -> bool {
    ||| s.len() == 0
    ||| exists|i: int| 0 <= i < s.len() && !('0' <= #[trigger] s[i] <= '9') && !(i == 0 && s[i] == '+')
    ||| all_digits(s) && decimal(s) > max
}

proof fn lemma_no_part(s: Seq<char>, max: int)
    requires
        is_no_part(s, max),
    ensures
        unsigned_field(s, max) is None,
{
    let digits = if s.len() > 0 && s[0] == '+' { s.skip(1) } else { s };
    if s.len() > 0 && exists|i: int| 0 <= i < s.len() && !('0' <= #[trigger] s[i] <= '9') && !(i == 0 && s[i] == '+') {
        let i = choose|i: int| 0 <= i < s.len() && !('0' <= #[trigger] s[i] <= '9') && !(i == 0 && s[i] == '+');
        if s[0] == '+' {
            assert(digits[i - 1] == s[i]);
            assert(!is_digit(digits[i - 1]));
        } else {
            assert(!is_digit(digits[i]));
        }
    } else if s.len() > 0 {
        assert(is_digit(s[0]));
    }
}

/// Three parts between slashes are no date where one of them is refused: a day or a
/// month above 255, or a year above 65535. A part with a plus sign in front is the
/// number behind it.
pub proof fn other_parts_are_no_dates(day: Seq<char>, month: Seq<char>, year: Seq<char>, digits: Seq<char>, max: int)
    requires
        forall|i: int| 0 <= i < day.len() ==> (#[trigger] day[i]) != '/',
        forall|i: int| 0 <= i < month.len() ==> (#[trigger] month[i]) != '/',
        forall|i: int| 0 <= i < year.len() ==> (#[trigger] year[i]) != '/',
        is_no_part(day, 255) || is_no_part(month, 255) || is_no_part(year, 65535),
        digits.len() > 0 && all_digits(digits) && decimal(digits) <= max,
    ensures
        ddmmyyyy_key(day + (seq!['/'] + (month + (seq!['/'] + year)))) == 0,
        unsigned_field(seq!['+'] + digits, max) == Some(decimal(digits)),
{
    let s = day + (seq!['/'] + (month + (seq!['/'] + year)));
    let a = day.len() as int;
    let b = a + 1 + month.len();
    assert forall|i: int| 0 <= i < a implies (#[trigger] s[i]) != '/' by {
        assert(s[i] == day[i]);
    }
    assert forall|i: int| a + 1 <= i < b implies (#[trigger] s[i]) != '/' by {
        assert(s[i] == month[i - a - 1]);
    }
    assert forall|i: int| b + 1 <= i < s.len() implies (#[trigger] s[i]) != '/' by {
        assert(s[i] == year[i - b - 1]);
    }
    assert(s[a] == '/' && s[b] == '/');
    lemma_slash(s, 0, a);
    lemma_slash(s, a + 1, b);
    lemma_slash(s, b + 1, s.len() as int);
    assert(s.subrange(0, a) =~= day);
    assert(s.subrange(a + 1, b) =~= month);
    assert(s.subrange(b + 1, s.len() as int) =~= year);
    if is_no_part(day, 255) {
        lemma_no_part(day, 255);
    }
    if is_no_part(month, 255) {
        lemma_no_part(month, 255);
    }
    if is_no_part(year, 65535) {
        lemma_no_part(year, 65535);
    }
    assert((seq!['+'] + digits).skip(1) =~= digits);
}

/// A text with one slash or none, or with three or more, is no `DD/MM/YYYY` date.
pub proof fn dates_have_two_slashes(s: Seq<char>, i: int, j: int, k: int)
    requires
        (forall|n: int| 0 <= n < s.len() && n != i ==> (#[trigger] s[n]) != '/') || (0 <= i < j < k < s.len() && s[i] == '/'
            && s[j] == '/' && s[k] == '/'),
    ensures
        ddmmyyyy_key(s) == 0,
{
    let a = slash_at(s, 0);
    let b = slash_at(s, a + 1);
    let c = slash_at(s, b + 1);
    lemma_slash_place(s, 0);
    if a < s.len() {
        lemma_slash_place(s, a + 1);
        if b < s.len() {
            lemma_slash_place(s, b + 1);
        }
    }
    if a < s.len() && b < s.len() && c == s.len() {
        assert(s[a] == '/' && s[b] == '/');
        if 0 <= i < j < k < s.len() && s[i] == '/' && s[j] == '/' && s[k] == '/' {
            assert(a <= i);
            assert(b <= j);
            assert(c <= k);
        } else {
            assert(a == i && b == i);
        }
    }
}

proof fn lemma_slash_place(s: Seq<char>, from: int)
    requires
        0 <= from <= s.len(),
    ensures
        from <= slash_at(s, from) <= s.len(),
        slash_at(s, from) < s.len() ==> s[slash_at(s, from)] == '/',
        forall|i: int| from <= i < slash_at(s, from) ==> (#[trigger] s[i]) != '/',
    decreases s.len() - from,
{
    if from < s.len() && s[from] != '/' {
        lemma_slash_place(s, from + 1);
    }
}

} // verus!
