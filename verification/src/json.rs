//! JSON documents.
use vstd::prelude::*;
use crate::edition_date::{all_digits, is_digit};
use crate::text::{decimal_text, digits_of};

verus! {

/// A document as the serializer takes it.
#[verifier::external_type_specification]
#[verifier::external_body]
pub struct ExValue(serde_json::Value);

/// A number as the serializer holds it.
#[verifier::external_type_specification]
#[verifier::external_body]
pub struct ExNumber(serde_json::Number);

/// `clone` of `serde_json::Number` gives the same number.
pub assume_specification[ <serde_json::Number as Clone>::clone ](n: &serde_json::Number) -> (r: serde_json::Number)
    ensures
        r == *n,
;

/// A JSON document.
#[derive(Debug)]
pub enum Json {
    Null,
    Bool(bool),
    /// A number in its notation.
    Number(String),
    /// A number as the serializer holds it.
    Exact(serde_json::Number),
    Text(String),
    List(Vec<Json>),
    Object(Vec<(String, Json)>),
}

/// What a [`Json`] says.
#[verifier::ext_equal]
pub enum JsonView {
    Null,
    Bool(bool),
    Number(Seq<char>),
    Exact(serde_json::Number),
    Text(Seq<char>),
    List(Seq<JsonView>),
    Object(Seq<(Seq<char>, JsonView)>),
}

impl View for Json {
    type V = JsonView;

    open spec fn view(&self) -> JsonView
        decreases self,
    {
        match self {
            Json::Null => JsonView::Null,
            Json::Bool(b) => JsonView::Bool(*b),
            Json::Number(t) => JsonView::Number(t@),
            Json::Exact(n) => JsonView::Exact(*n),
            Json::Text(t) => JsonView::Text(t@),
            Json::List(v) => JsonView::List(
                Seq::new(
                    v@.len(),
                    |i: int|
                        if 0 <= i < v@.len() {
                            v@[i].view()
                        } else {
                            JsonView::Null
                        },
                ),
            ),
            Json::Object(v) => JsonView::Object(
                Seq::new(
                    v@.len(),
                    |i: int|
                        if 0 <= i < v@.len() {
                            (v@[i].0@, v@[i].1.view())
                        } else {
                            (Seq::empty(), JsonView::Null)
                        },
                ),
            ),
        }
    }
}

/// What the items of a list say.
pub open spec fn item_views(v: Seq<Json>) -> Seq<JsonView> {
    Seq::new(v.len(), |i: int| v[i]@)
}

/// What the entries of an object say.
pub open spec fn entry_views(v: Seq<(String, Json)>) -> Seq<(Seq<char>, JsonView)> {
    Seq::new(v.len(), |i: int| (v[i].0@, v[i].1@))
}

/// A number in decimal notation without exponent: an optional minus sign, digits
/// without a needless zero in front, and an optional fraction, at most 16
/// characters in all.
pub open spec fn short_decimal(t: Seq<char>) -> bool {
    t.len() <= 16 && exists|from: int, dot: int|
        0 <= from <= 1 && from < dot <= t.len() && #[trigger] decimal_parts(t, from, dot)
}

/// Sign, whole part and fraction of a number are `t[..from]`, `t[from..dot]` and
/// what follows the point at `dot`.
pub open spec fn decimal_parts(t: Seq<char>, from: int, dot: int) -> bool {
    &&& from == 1 ==> t[0] == '-'
    &&& all_digits(t.subrange(from, dot))
    &&& t[from] == '0' ==> dot == from + 1
    &&& dot < t.len() ==> t[dot] == '.' && dot + 1 < t.len() && all_digits(t.skip(dot + 1))
}

/// Every number of a document that is kept in its notation is a short decimal.
pub open spec fn plain_numbers(j: JsonView) -> bool
    decreases j,
{
    match j {
        JsonView::Number(t) => short_decimal(t),
        JsonView::List(v) => forall|i: int| 0 <= i < v.len() ==> plain_numbers(#[trigger] v[i]),
        JsonView::Object(v) => forall|i: int| 0 <= i < v.len() ==> plain_numbers((#[trigger] v[i]).1),
        _ => true,
    }
}

/// The serializer's form of a document, if all its numbers are in JSON notation.
pub uninterp spec fn json_value(j: JsonView) -> Option<serde_json::Value>;

/// The document as `serde_json::to_string_pretty` writes it.
pub uninterp spec fn pretty_text(v: serde_json::Value) -> Seq<char>;

/// The document as `serde_json::to_string` writes it.
pub uninterp spec fn compact_text(v: serde_json::Value) -> Seq<char>;

/// Converts a document one for one to a `serde_json::Value`, a number in its
/// notation by the `FromStr` of `serde_json::Number`. The result depends on the
/// document alone; there is one wherever those numbers are short decimals.
#[verifier::external_body]
fn to_value(j: &Json) -> (r: Option<serde_json::Value>)
    ensures
        r == json_value(j@),
        plain_numbers(j@) ==> r is Some,
{
    Some(match j {
        Json::Null => serde_json::Value::Null,
        Json::Bool(b) => serde_json::Value::Bool(*b),
        Json::Number(t) => serde_json::Value::Number(t.parse().ok()?),
        Json::Exact(n) => serde_json::Value::Number(n.clone()),
        Json::Text(t) => serde_json::Value::String(t.clone()),
        Json::List(v) => serde_json::Value::Array(v.iter().map(to_value).collect::<Option<_>>()?),
        Json::Object(v) => serde_json::Value::Object(
            v.iter().map(|(k, x)| Some((k.clone(), to_value(x)?))).collect::<Option<_>>()?,
        ),
    })
}

/// Calls `serde_json::to_string_pretty`, which cannot fail on a
/// `serde_json::Value`: its keys are strings and it has no serializer of its own.
#[verifier::external_body]
fn write_pretty(v: &serde_json::Value) -> (t: String)
    ensures
        t@ == pretty_text(*v),
{
    serde_json::to_string_pretty(v).unwrap()
}

/// Calls `serde_json::to_string`, which cannot fail on a `serde_json::Value`.
#[verifier::external_body]
fn write_compact(v: &serde_json::Value) -> (t: String)
    ensures
        t@ == compact_text(*v),
{
    serde_json::to_string(v).unwrap()
}

/// The document that `serde_json::from_str` reads from a text, if it is one.
pub uninterp spec fn text_value(text: Seq<char>) -> Option<serde_json::Value>;

/// A document of the parser as one of the library.
pub uninterp spec fn value_view(v: serde_json::Value) -> JsonView;

/// Calls `serde_json::from_str` for a `serde_json::Value`. What comes back depends
/// on the text alone.
#[verifier::external_body]
fn parse_text(text: &str) -> (r: Option<serde_json::Value>)
    ensures
        r == text_value(text@),
{
    serde_json::from_str(text).ok()
}

/// Converts a `serde_json::Value` one for one. The result depends on the document
/// alone, has no number in its notation, and `to_value` gives the document back.
#[verifier::external_body]
fn from_value(v: &serde_json::Value) -> (j: Json)
    ensures
        j@ == value_view(*v),
        plain_numbers(j@),
        json_value(j@) == Some(*v),
{
    match v {
        serde_json::Value::Null => Json::Null,
        serde_json::Value::Bool(b) => Json::Bool(*b),
        serde_json::Value::Number(n) => Json::Exact(n.clone()),
        serde_json::Value::String(t) => Json::Text(t.clone()),
        serde_json::Value::Array(a) => Json::List(a.iter().map(from_value).collect()),
        serde_json::Value::Object(m) => Json::Object(m.iter().map(|(k, x)| (k.clone(), from_value(x))).collect()),
    }
}

/// What the document in a text says, if there is one.
pub open spec fn text_view(text: Seq<char>) -> Option<JsonView> {
    match text_value(text) {
        Some(v) => Some(value_view(v)),
        None => None,
    }
}

impl Json {
    /// Reads a document; `None` where the text is not JSON. The document is written
    /// as it was read.
    pub fn parse(text: &str) -> (r: Option<Json>)
        ensures
            match r {
                Some(j) => {
                    &&& text_view(text@) == Some(j@)
                    &&& plain_numbers(j@)
                    &&& json_value(j@) == text_value(text@)
                },
                None => text_view(text@) is None,
            },
    {
        match parse_text(text) {
            Some(v) => Some(from_value(&v)),
            None => None,
        }
    }

    /// The text of the document over several lines; `None` where a number is not
    /// in JSON notation.
    pub fn pretty(&self) -> (r: Option<String>)
        ensures
            match json_value(self@) {
                Some(v) => r is Some && r->0@ == pretty_text(v),
                None => r is None,
            },
            plain_numbers(self@) ==> r is Some,
    {
        match to_value(self) {
            Some(v) => Some(write_pretty(&v)),
            None => None,
        }
    }

    /// The text of the document on one line; `None` where a number is not in JSON
    /// notation.
    pub fn compact(&self) -> (r: Option<String>)
        ensures
            match json_value(self@) {
                Some(v) => r is Some && r->0@ == compact_text(v),
                None => r is None,
            },
            plain_numbers(self@) ==> r is Some,
    {
        match to_value(self) {
            Some(v) => Some(write_compact(&v)),
            None => None,
        }
    }

    /// A text.
    pub fn text(t: &str) -> (j: Json)
        ensures
            j@ == JsonView::Text(t@),
    {
        Json::Text(t.to_owned())
    }

    /// A number given in its notation.
    pub fn number(t: &str) -> (j: Json)
        ensures
            j@ == JsonView::Number(t@),
    {
        Json::Number(t.to_owned())
    }

    /// A whole number.
    pub fn uint(v: u64) -> (j: Json)
        ensures
            j@ == JsonView::Number(digits_of(v as int)),
    {
        Json::Number(decimal_text(v))
    }

    /// A list.
    pub fn list(items: Vec<Json>) -> (j: Json)
        ensures
            j@ == JsonView::List(item_views(items@)),
    {
        let j = Json::List(items);
        assert(j@->List_0 =~= item_views(items@));
        j
    }

    /// An object.
    pub fn object(entries: Vec<(String, Json)>) -> (j: Json)
        ensures
            j@ == JsonView::Object(entry_views(entries@)),
    {
        let j = Json::Object(entries);
        proof {
            reveal_with_fuel(<Json as View>::view, 2);
            assert(j@->Object_0 =~= entry_views(entries@));
        }
        j
    }

    /// An entry of an object.
    pub fn entry(key: &str, value: Json) -> (e: (String, Json))
        ensures
            e.0@ == key@,
            e.1 == value,
    {
        (key.to_owned(), value)
    }
}

/// Index of the first entry with a key, or the number of entries.
pub open spec fn key_at(v: Seq<(Seq<char>, JsonView)>, key: Seq<char>, from: int) -> int
    decreases v.len() - from,
{
    if from >= v.len() || v[from].0 == key {
        from
    } else {
        key_at(v, key, from + 1)
    }
}

/// The value of a key.
pub open spec fn lookup(v: Seq<(Seq<char>, JsonView)>, key: Seq<char>) -> Option<JsonView> {
    let i = key_at(v, key, 0);
    if i < v.len() {
        Some(v[i].1)
    } else {
        None
    }
}

/// The entries with `value` for `key`: in the place of an earlier value, or else
/// at the end.
pub open spec fn updated(
    v: Seq<(Seq<char>, JsonView)>,
    key: Seq<char>,
    value: JsonView,
) -> Seq<(Seq<char>, JsonView)> {
    let i = key_at(v, key, 0);
    if i < v.len() {
        v.update(i, (key, value))
    } else {
        v.push((key, value))
    }
}

pub(crate) proof fn lemma_key_at(v: Seq<(Seq<char>, JsonView)>, key: Seq<char>, from: int)
    requires
        0 <= from <= v.len(),
    ensures
        from <= key_at(v, key, from) <= v.len(),
        key_at(v, key, from) < v.len() ==> v[key_at(v, key, from)].0 == key,
        forall|k: int| from <= k < key_at(v, key, from) ==> (#[trigger] v[k]).0 != key,
    decreases v.len() - from,
{
    if from < v.len() && v[from].0 != key {
        lemma_key_at(v, key, from + 1);
    }
}

/// Finds the first entry with a key.
pub(crate) fn find_key(entries: &Vec<(String, Json)>, key: &str) -> (i: usize)
    ensures
        i == key_at(entry_views(entries@), key@, 0),
        i <= entries@.len(),
{
    let k: String = key.to_owned();
    let mut i: usize = 0;
    while i < entries.len() && !entries[i].0.eq(&k)
        invariant
            i <= entries@.len(),
            k@ == key@,
            key_at(entry_views(entries@), key@, 0) == key_at(entry_views(entries@), key@, i as int),
        decreases entries@.len() - i,
    {
        i += 1;
    }
    i
}

/// Sets the value of a key.
pub fn set_key(entries: &mut Vec<(String, Json)>, key: &str, value: Json)
    ensures
        entry_views(final(entries)@) == updated(entry_views(old(entries)@), key@, value@),
{
    let ghost before = entries@;
    let i: usize = find_key(entries, key);
    let entry: (String, Json) = Json::entry(key, value);
    if i < entries.len() {
        entries[i] = entry;
    } else {
        entries.push(entry);
    }
    assert(entry_views(entries@) =~= updated(entry_views(before), key@, value@));
}

/// After a key is set, it has the value that it was set to, and other keys keep
/// theirs.
pub proof fn set_key_is_seen(v: Seq<(Seq<char>, JsonView)>, key: Seq<char>, value: JsonView, other: Seq<char>)
    ensures
        lookup(updated(v, key, value), key) == Some(value),
        other != key ==> lookup(updated(v, key, value), other) == lookup(v, other),
{
    let w = updated(v, key, value);
    lemma_key_at(v, key, 0);
    lemma_key_at(w, key, 0);
    lemma_key_at(v, other, 0);
    lemma_key_at(w, other, 0);
    let i = key_at(v, key, 0);
    let j = key_at(w, key, 0);
    assert(w[i] == (key, value));
    if j < i {
        assert(v[j] == w[j]);
    }
    if other != key {
        let a = key_at(v, other, 0);
        let b = key_at(w, other, 0);
        if b < a && b < v.len() {
            assert(b != i);
            assert(v[b] == w[b]);
        }
        if a < b && a < v.len() {
            assert(a != i);
            assert(w[a] == v[a]);
        }
    }
}

proof fn lemma_digits(v: int, bound: int, n: nat)
    requires
        0 <= v < bound,
        n >= 1,
        bound <= vstd::arithmetic::power::pow(10, n),
    ensures
        1 <= digits_of(v).len() <= n,
        all_digits(digits_of(v)),
        digits_of(v)[0] == '0' ==> v == 0,
        v == 0 ==> digits_of(v).len() == 1,
    decreases n,
{
    vstd::arithmetic::power::lemma_pow0(10);
    vstd::arithmetic::power::lemma_pow1(10);
    if v < 10 {
        assert(digits_of(v) =~= seq![crate::text::digit_char(v)]);
    } else {
        if n == 1 {
            assert(false);
        }
        reveal(vstd::arithmetic::power::pow);
        let m = (n - 1) as nat;
        assert(vstd::arithmetic::power::pow(10, n) == 10 * vstd::arithmetic::power::pow(10, m));
        assert(v / 10 < vstd::arithmetic::power::pow(10, m));
        lemma_digits(v / 10, vstd::arithmetic::power::pow(10, m), m);
        let d = digits_of(v / 10);
        assert(digits_of(v) == d.push(crate::text::digit_char(v % 10)));
        assert forall|i: int| 0 <= i < digits_of(v).len() implies is_digit(#[trigger] digits_of(v)[i]) by {
            if i < d.len() {
                assert(digits_of(v)[i] == d[i]);
            }
        }
        assert(digits_of(v)[0] == d[0]);
    }
}

/// The decimal digits of a number below 2^32 are a short decimal.
pub(crate) proof fn lemma_uint_is_plain(v: int)
    requires
        0 <= v <= 0xFFFF_FFFF,
    ensures
        short_decimal(digits_of(v)),
{
    let t = digits_of(v);
    reveal_with_fuel(vstd::arithmetic::power::pow, 12);
    assert(vstd::arithmetic::power::pow(10, 10) == 10_000_000_000) by {
        reveal_with_fuel(vstd::arithmetic::power::pow, 12);
    }
    lemma_digits(v, 10_000_000_000, 10);
    assert(t.subrange(0, t.len() as int) =~= t);
    assert(decimal_parts(t, 0, t.len() as int));
}

/// The value of a key is that of its first entry; a key without an entry has none.
pub proof fn the_first_entry_of_a_key_counts(v: Seq<(Seq<char>, JsonView)>, key: Seq<char>, i: int)
    requires
        0 <= i < v.len(),
        v[i].0 == key,
        forall|k: int| 0 <= k < i ==> (#[trigger] v[k]).0 != key,
    ensures
        lookup(v, key) == Some(v[i].1),
{
    lemma_key_at(v, key, 0);
}

/// A key that no entry has is not found.
pub proof fn a_missing_key_has_no_value(v: Seq<(Seq<char>, JsonView)>, key: Seq<char>)
    requires
        forall|k: int| 0 <= k < v.len() ==> (#[trigger] v[k]).0 != key,
    ensures
        lookup(v, key) is None,
{
    lemma_key_at(v, key, 0);
}

} // verus!
