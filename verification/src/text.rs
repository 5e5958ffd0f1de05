//! Text fields of chart records.
use vstd::prelude::*;
use vstd::utf8::{decode_utf8, valid_utf8};

verus! {

/// The text that `String::from_utf8_lossy` reads from these bytes.
pub uninterp spec fn lossy_text(bytes: Seq<u8>) -> Seq<char>;

/// Calls `String::from_utf8_lossy`. Its result depends on the bytes alone, and
/// is their exact decoding where they are valid UTF-8; what stands in for
/// invalid bytes is not stated.
#[verifier::external_body]
pub(crate) fn from_utf8_lossy(bytes: &[u8]) -> (text: String)
    ensures
        text@ == lossy_text(bytes@),
        valid_utf8(bytes@) ==> text@ == decode_utf8(bytes@),
{
    String::from_utf8_lossy(bytes).into_owned()
}

/// The characters of a string, one by one.
pub(crate) fn chars_of(s: &str) -> (out: Vec<char>)
    ensures
        out@ == s@,
{
    let mut out: Vec<char> = Vec::new();
    for c in it: s.chars()
        invariant
            it.seq() == s@,
            out@ == it.seq().take(it.index@),
    {
        out.push(c);
    }
    out
}

/// Index of the first zero byte at or after `at` and before `end`, or `end`.
pub open spec fn zero_at(s: Seq<u8>, at: int, end: int) -> int
    decreases end - at,
{
    if at >= end || s[at] == 0 {
        at
    } else {
        zero_at(s, at + 1, end)
    }
}

/// The bytes of a zero-terminated text field of at most `max` bytes that
/// starts at `at`. The field may fill all its `max` bytes without a terminator,
/// but it may not run past the end of the data.
pub open spec fn c_field(s: Seq<u8>, at: int, max: int) -> Option<Seq<u8>> {
    let end = if at + max <= s.len() { at + max } else { s.len() as int };
    let stop = zero_at(s, at, end);
    if stop == s.len() && stop < at + max {
        None
    } else {
        Some(s.subrange(at, stop))
    }
}

/// The text of the field `c_field`, if there is one.
pub open spec fn c_text(s: Seq<u8>, at: int, max: int) -> Option<Seq<char>> {
    match c_field(s, at, max) {
        Some(bytes) => Some(lossy_text(bytes)),
        None => None,
    }
}

/// Reads a zero-terminated text field of at most `max` bytes.
pub(crate) fn read_cstring(data: &[u8], at: usize, max: usize) -> (text: Option<String>)
    requires
        at <= data@.len(),
    ensures
        match text {
            Some(t) => c_text(data@, at as int, max as int) == Some(t@),
            None => c_text(data@, at as int, max as int) is None,
        },
{
    let room: usize = data.len() - at;
    let end: usize = if max <= room { at + max } else { data.len() };
    let mut stop: usize = at;
    while stop < end && data[stop] != 0
        invariant
            at <= stop <= end <= data@.len(),
            zero_at(data@, stop as int, end as int) == zero_at(data@, at as int, end as int),
        decreases end - stop,
    {
        stop += 1;
    }
    if stop == data.len() && max > room {
        return None;
    }
    Some(from_utf8_lossy(vstd::slice::slice_subrange(data, at, stop)))
}

/// A text starts with another one.
pub open spec fn is_prefix(prefix: Seq<char>, s: Seq<char>) -> bool {
    prefix.len() <= s.len() && s.take(prefix.len() as int) == prefix
}

/// Whether a text starts with another one.
pub(crate) fn starts_with(s: &str, prefix: &str) -> (r: bool)
    ensures
        r == is_prefix(prefix@, s@),
{
    let a: Vec<char> = chars_of(s);
    let b: Vec<char> = chars_of(prefix);
    if b.len() > a.len() {
        return false;
    }
    let mut i: usize = 0;
    while i < b.len()
        invariant
            i <= b@.len() <= a@.len(),
            a@ == s@,
            b@ == prefix@,
            forall|k: int| 0 <= k < i ==> a@[k] == b@[k],
        decreases b@.len() - i,
    {
        if a[i] != b[i] {
            assert(s@.take(prefix@.len() as int)[i as int] != prefix@[i as int]);
            return false;
        }
        i += 1;
    }
    assert(s@.take(prefix@.len() as int) =~= prefix@);
    true
}

/// A text without the zero characters at its end.
pub open spec fn trimmed(s: Seq<char>) -> Seq<char>
    decreases s.len(),
{
    if s.len() > 0 && s.last() == '\0' {
        trimmed(s.drop_last())
    } else {
        s
    }
}

/// Cuts the zero characters off the end of a text.
pub(crate) fn trim_zeros(s: &String) -> (r: String)
    ensures
        r@ == trimmed(s@),
{
    let chars: Vec<char> = chars_of(s.as_str());
    let mut n: usize = chars.len();
    assert(s@.take(n as int) =~= s@);
    while n > 0 && chars[n - 1] == '\0'
        invariant
            n <= chars@.len(),
            chars@ == s@,
            trimmed(s@.take(n as int)) == trimmed(s@),
        decreases n,
    {
        assert(s@.take(n as int).drop_last() =~= s@.take(n - 1));
        n -= 1;
    }
    s.as_str().substring_char(0, n).to_owned()
}

/// The character of a digit.
pub open spec fn digit_char(d: int) -> char {
    (d + 0x30) as char
}

/// The decimal digits of a number.
pub open spec fn digits_of(v: int) -> Seq<char>
    decreases v,
{
    if v < 10 {
        seq![digit_char(v)]
    } else {
        digits_of(v / 10).push(digit_char(v % 10))
    }
}

/// The decimal form of a number, with a minus sign where it is negative.
pub open spec fn signed_digits(v: int) -> Seq<char> {
    if v < 0 {
        seq!['-'] + digits_of(-v)
    } else {
        digits_of(v)
    }
}

fn digit_text(d: u64) -> (t: &'static str)
    requires
        d < 10,
    ensures
        t@ == seq![digit_char(d as int)],
{
    proof {
        reveal_strlit("0");
        reveal_strlit("1");
        reveal_strlit("2");
        reveal_strlit("3");
        reveal_strlit("4");
        reveal_strlit("5");
        reveal_strlit("6");
        reveal_strlit("7");
        reveal_strlit("8");
        reveal_strlit("9");
        assert("0"@ =~= seq!['0']);
        assert("1"@ =~= seq!['1']);
        assert("2"@ =~= seq!['2']);
        assert("3"@ =~= seq!['3']);
        assert("4"@ =~= seq!['4']);
        assert("5"@ =~= seq!['5']);
        assert("6"@ =~= seq!['6']);
        assert("7"@ =~= seq!['7']);
        assert("8"@ =~= seq!['8']);
        assert("9"@ =~= seq!['9']);
    }
    match d {
        0 => "0",
        1 => "1",
        2 => "2",
        3 => "3",
        4 => "4",
        5 => "5",
        6 => "6",
        7 => "7",
        8 => "8",
        _ => "9",
    }
}

/// Writes a number in decimal.
pub(crate) fn decimal_text(v: u64) -> (t: String)
    ensures
        t@ == digits_of(v as int),
    decreases v,
{
    if v < 10 {
        digit_text(v).to_owned()
    } else {
        let mut t: String = decimal_text(v / 10);
        t.append(digit_text(v % 10));
        assert(t@ =~= digits_of(v as int));
        t
    }
}

/// A text with a number in it.
pub open spec fn with_number(head: Seq<char>, v: int, tail: Seq<char>) -> Seq<char> {
    head + digits_of(v) + tail
}

/// Writes a text with a number in it.
pub(crate) fn number_text(head: &str, v: u64, tail: &str) -> (t: String)
    ensures
        t@ == with_number(head@, v as int, tail@),
{
    let mut t: String = head.to_owned();
    t.append(decimal_text(v).as_str());
    t.append(tail);
    t
}

/// Writes a signed number in decimal.
pub(crate) fn signed_text(v: i64) -> (t: String)
    ensures
        t@ == signed_digits(v as int),
{
    if v < 0 {
        let magnitude: u64 = (-(v as i128)) as u64;
        proof {
            reveal_strlit("-");
            assert("-"@ =~= seq!['-']);
        }
        let mut t: String = "-".to_owned();
        t.append(decimal_text(magnitude).as_str());
        t
    } else {
        decimal_text(v as u64)
    }
}

/// One text comes before another in the order of their characters.
pub open spec fn comes_before(a: Seq<char>, b: Seq<char>) -> bool
    decreases a.len(),
{
    if b.len() == 0 {
        false
    } else if a.len() == 0 {
        true
    } else if a[0] != b[0] {
        a[0] < b[0]
    } else {
        comes_before(a.skip(1), b.skip(1))
    }
}

/// Of two different texts exactly one comes before the other.
pub proof fn text_order_is_total(a: Seq<char>, b: Seq<char>)
    ensures
        comes_before(a, b) ==> !comes_before(b, a),
        a == b ==> !comes_before(a, b),
        a != b ==> comes_before(a, b) || comes_before(b, a),
    decreases a.len(),
{
    if a.len() > 0 && b.len() > 0 && a[0] == b[0] {
        text_order_is_total(a.skip(1), b.skip(1));
        if a.skip(1) == b.skip(1) {
            assert(a =~= seq![a[0]] + a.skip(1));
            assert(b =~= seq![b[0]] + b.skip(1));
        }
    } else if a.len() == 0 && b.len() == 0 {
        assert(a =~= b);
    }
}

/// The order of texts is transitive.
pub proof fn text_order_is_transitive(a: Seq<char>, b: Seq<char>, c: Seq<char>)
    requires
        comes_before(a, b),
        comes_before(b, c),
    ensures
        comes_before(a, c),
    decreases a.len(),
{
    if a.len() > 0 && a[0] == b[0] && b[0] == c[0] {
        text_order_is_transitive(a.skip(1), b.skip(1), c.skip(1));
    }
}

/// Whether one text comes before another.
pub(crate) fn is_before(a: &str, b: &str) -> (r: bool)
    ensures
        r == comes_before(a@, b@),
{
    let x: Vec<char> = chars_of(a);
    let y: Vec<char> = chars_of(b);
    let mut i: usize = 0;
    assert(a@.skip(0) =~= a@);
    assert(b@.skip(0) =~= b@);
    while i < x.len() && i < y.len() && x[i] == y[i]
        invariant
            i <= x@.len(),
            i <= y@.len(),
            x@ == a@,
            y@ == b@,
            comes_before(a@, b@) == comes_before(a@.skip(i as int), b@.skip(i as int)),
        decreases x@.len() - i,
    {
        assert(a@.skip(i as int).skip(1) =~= a@.skip(i + 1));
        assert(b@.skip(i as int).skip(1) =~= b@.skip(i + 1));
        i += 1;
    }
    if i == y.len() {
        false
    } else if i == x.len() {
        true
    } else {
        x[i] < y[i]
    }
}

/// The first character in which two texts differ decides which comes first, and a
/// text comes before every longer one that begins with it.
pub proof fn the_first_difference_decides(p: Seq<char>, a: char, x: Seq<char>, b: char, y: Seq<char>)
    requires
        a != b,
    ensures
        comes_before(p + (seq![a] + x), p + (seq![b] + y)) <==> a < b,
        comes_before(p, p + (seq![a] + x)),
        !comes_before(p + (seq![a] + x), p),
    decreases p.len(),
{
    let s = p + (seq![a] + x);
    let t = p + (seq![b] + y);
    if p.len() > 0 {
        let q = p.skip(1);
        the_first_difference_decides(q, a, x, b, y);
        assert(s.skip(1) =~= q + (seq![a] + x));
        assert(t.skip(1) =~= q + (seq![b] + y));
        assert(s[0] == p[0] && t[0] == p[0]);
    } else {
        assert(s[0] == a && t[0] == b);
    }
}

/// The value of a digit.
pub open spec fn digit_value(c: char) -> int {
    c as int - 0x30
}

/// The value that digits spell, the last one counting one.
pub open spec fn spelled(s: Seq<char>) -> int
    decreases s.len(),
{
    if s.len() == 0 {
        0
    } else {
        10 * spelled(s.drop_last()) + digit_value(s.last())
    }
}

/// The decimal form of a number spells that number, and has no needless zero in
/// front.
pub proof fn decimal_forms_spell_their_number(v: int)
    requires
        v >= 0,
    ensures
        spelled(digits_of(v)) == v,
        digits_of(v).len() > 0,
        forall|i: int| 0 <= i < digits_of(v).len() ==> '0' <= #[trigger] digits_of(v)[i] <= '9',
        digits_of(v).len() > 1 ==> digits_of(v)[0] != '0',
        v > 0 ==> digits_of(v)[0] != '0',
        signed_digits(v) == digits_of(v),
        v > 0 ==> signed_digits(-v) == seq!['-'] + digits_of(v),
    decreases v,
{
    let s = digits_of(v);
    if v < 10 {
        assert(s =~= seq![digit_char(v)]);
        assert(s.drop_last() =~= Seq::empty());
        reveal_with_fuel(spelled, 2);
    } else {
        decimal_forms_spell_their_number(v / 10);
        assert(s.drop_last() =~= digits_of(v / 10));
        assert(s[0] == digits_of(v / 10)[0]);
    }
}

} // verus!
