//! Lights: what their attributes say, and how they are coloured.
use vstd::prelude::*;
use crate::layer::{PropValue, PropView};
use crate::scalar::Real;
use crate::senc::{views, AttrValue, AttrValueView, Attribute, AttributeView};
use crate::text::chars_of;

verus! {

// ── Colours ──────────────────────────────────────────────────────────────────

/// A character with the Unicode property White_Space.
pub open spec fn is_white(c: char) -> bool {
    let v = c as u32;
    ||| 0x09 <= v <= 0x0D
    ||| v == 0x20
    ||| v == 0x85
    ||| v == 0xA0
    ||| v == 0x1680
    ||| 0x2000 <= v <= 0x200A
    ||| v == 0x2028
    ||| v == 0x2029
    ||| v == 0x202F
    ||| v == 0x205F
    ||| v == 0x3000
}

/// A text without white space at its start.
pub open spec fn trim_front(s: Seq<char>) -> Seq<char>
    decreases s.len(),
{
    if s.len() > 0 && is_white(s[0]) {
        trim_front(s.skip(1))
    } else {
        s
    }
}

/// A text without white space at its end.
pub open spec fn trim_back(s: Seq<char>) -> Seq<char>
    decreases s.len(),
{
    if s.len() > 0 && is_white(s.last()) {
        trim_back(s.drop_last())
    } else {
        s
    }
}

/// Index of the first comma at or after `at`, or the length.
pub open spec fn comma_at(s: Seq<char>, at: int) -> int
    decreases s.len() - at,
{
    if at >= s.len() || s[at] == ',' {
        at
    } else {
        comma_at(s, at + 1)
    }
}

/// The first entry of a list of colour codes, without white space around it.
pub open spec fn first_code(colours: Seq<char>) -> Seq<char> {
    trim_back(trim_front(colours.take(comma_at(colours, 0))))
}

/// The display colour of a colour code. White is drawn in yellow like everything
/// unknown: near-white would not show on a pale chart.
pub open spec fn display_colour(code: Seq<char>) -> Seq<char> {
    if code == seq!['3'] {
        "#ee2222"@
    } else if code == seq!['4'] {
        "#22aa22"@
    } else if code == seq!['5'] {
        "#2255ee"@
    } else if code == seq!['9'] {
        "#cc8800"@
    } else if code == seq!['1', '1'] {
        "#ee7700"@
    } else if code == seq!['1', '2'] {
        "#cc22cc"@
    } else {
        "#ccaa00"@
    }
}

fn white(c: char) -> (r: bool)
    ensures
        r == is_white(c),
{
    let v: u32 = c as u32;
    (0x09 <= v && v <= 0x0D) || v == 0x20 || v == 0x85 || v == 0xA0 || v == 0x1680 || (0x2000 <= v && v <= 0x200A)
        || v == 0x2028 || v == 0x2029 || v == 0x202F || v == 0x205F || v == 0x3000
}

/// The display colour of the first of a list of colour codes.
pub fn light_colour_hex(colour: &str) -> (hex: &'static str)
    ensures
        hex@ == display_colour(first_code(colour@)),
{
    let s: Vec<char> = chars_of(colour);
    let mut end: usize = 0;
    while end < s.len() && s[end] != ','
        invariant
            end <= s@.len(),
            s@ == colour@,
            comma_at(colour@, 0) == comma_at(colour@, end as int),
        decreases s@.len() - end,
    {
        end += 1;
    }
    let ghost part = colour@.take(end as int);
    let mut from: usize = 0;
    assert(part.skip(0) =~= part);
    while from < end && white(s[from])
        invariant
            from <= end <= s@.len(),
            s@ == colour@,
            part == colour@.take(end as int),
            trim_front(part) == trim_front(part.skip(from as int)),
        decreases end - from,
    {
        assert(part.skip(from as int)[0] == s@[from as int]);
        assert(part.skip(from as int).skip(1) =~= part.skip(from + 1));
        from += 1;
    }
    let ghost rest = part.skip(from as int);
    proof {
        if from < end {
            assert(rest[0] == s@[from as int]);
        }
        assert(trim_front(part) == rest);
    }
    let mut to: usize = end;
    assert(rest.take(to - from) =~= rest);
    while from < to && white(s[to - 1])
        invariant
            from <= to <= end <= s@.len(),
            s@ == colour@,
            part == colour@.take(end as int),
            rest == part.skip(from as int),
            trim_back(rest) == trim_back(rest.take(to - from)),
        decreases to - from,
    {
        assert(rest.take(to - from).last() == s@[to - 1]);
        assert(rest.take(to - from).drop_last() =~= rest.take(to - from - 1));
        to -= 1;
    }
    let ghost code = rest.take(to - from);
    proof {
        if from < to {
            assert(code.last() == s@[to - 1]);
        }
        assert(first_code(colour@) == code);
    }
    let n: usize = to - from;
    if n == 1 {
        let c: char = s[from];
        assert(code =~= seq![c]);
        if c == '3' {
            return "#ee2222";
        }
        if c == '4' {
            return "#22aa22";
        }
        if c == '5' {
            return "#2255ee";
        }
        if c == '9' {
            return "#cc8800";
        }
        proof {
            assert(code[0] == c);
            assert(seq!['3'][0] == '3' && seq!['4'][0] == '4' && seq!['5'][0] == '5' && seq!['9'][0] == '9');
        }
    } else if n == 2 && s[from] == '1' {
        let c: char = s[from + 1];
        assert(code =~= seq!['1', c]);
        if c == '1' {
            return "#ee7700";
        }
        if c == '2' {
            return "#cc22cc";
        }
        assert(code[1] == c);
        assert(seq!['1', '1'][1] == '1' && seq!['1', '2'][1] == '2');
    } else {
        proof {
            if n == 2 {
                assert(code[0] == s@[from as int]);
                assert(seq!['1', '1'][0] == '1' && seq!['1', '2'][0] == '1');
            }
        }
    }
    "#ccaa00"
}

/// Lateral and cardinal buoys. Their lights show all round.
pub open spec fn lateral_or_cardinal(acronym: Seq<char>) -> bool {
    acronym == "BOYLAT"@ || acronym == "BOYCAR"@
}

/// Whether an object class is that of lateral or cardinal buoys.
pub fn is_lateral_or_cardinal_buoy(acronym: &str) -> (r: bool)
    ensures
        r == lateral_or_cardinal(acronym@),
{
    let a: String = acronym.to_owned();
    a.eq(&"BOYLAT".to_owned()) || a.eq(&"BOYCAR".to_owned())
}

// ── Attributes ───────────────────────────────────────────────────────────────

/// What the attributes of a light say.
#[derive(Debug)]
pub struct Light {
    /// Category.
    pub catlit: Option<PropValue>,
    /// List of colour codes.
    pub colour: String,
    /// Limits of the sector, as bearings from seaward.
    pub sectr1: Option<Real>,
    pub sectr2: Option<Real>,
    /// Nominal range in nautical miles.
    pub valnmr: Option<Real>,
}

/// What a [`Light`] says.
pub struct LightView {
    pub catlit: Option<PropView>,
    pub colour: Seq<char>,
    pub sectr1: Option<Real>,
    pub sectr2: Option<Real>,
    pub valnmr: Option<Real>,
}

impl View for Light {
    type V = LightView;

    open spec fn view(&self) -> LightView {
        LightView {
            catlit: match self.catlit {
                Some(v) => Some(v@),
                None => None,
            },
            colour: self.colour@,
            sectr1: self.sectr1,
            sectr2: self.sectr2,
            valnmr: self.valnmr,
        }
    }
}

/// An attribute value as a property.
pub open spec fn as_property(v: AttrValueView) -> PropView {
    match v {
        AttrValueView::Int(i) => PropView::U64(Some(i as u64)),
        AttrValueView::Double(f) => PropView::F64(Some(f)),
        AttrValueView::Str(s) => PropView::Str(Some(s)),
    }
}

/// What the first `n` attributes say of a light. Of several attributes of one
/// code the last one counts; one of the wrong type does not.
pub open spec fn light_of(attrs: Seq<AttributeView>, n: int) -> LightView
    decreases n,
{
    if n <= 0 {
        LightView {
            catlit: None,
            colour: Seq::empty(),
            sectr1: None,
            sectr2: None,
            valnmr: None,
        }
    } else {
        let before = light_of(attrs, n - 1);
        let a = attrs[n - 1];
        if a.code == 37 {
            LightView { catlit: Some(as_property(a.value)), ..before }
        } else {
            match a.value {
                AttrValueView::Str(s) => if a.code == 75 {
                    LightView { colour: s, ..before }
                } else {
                    before
                },
                AttrValueView::Double(v) => if a.code == 136 {
                    LightView { sectr1: Some(v), ..before }
                } else if a.code == 137 {
                    LightView { sectr2: Some(v), ..before }
                } else if a.code == 178 {
                    LightView { valnmr: Some(v), ..before }
                } else {
                    before
                },
                AttrValueView::Int(_) => before,
            }
        }
    }
}

/// Converts an attribute value to a property.
pub(crate) fn to_property(v: &AttrValue) -> (p: PropValue)
    ensures
        p@ == as_property(v@),
{
    match v {
        AttrValue::Int(i) => PropValue::U64(Some(*i as u64)),
        AttrValue::Double(f) => PropValue::F64(Some(*f)),
        AttrValue::Str(s) => PropValue::Str(Some(s.clone())),
    }
}

/// Reads the attributes of a light: category 37, colour 75, sector limits 136
/// and 137, nominal range 178.
pub fn read_light(attrs: &Vec<Attribute>) -> (l: Light)
    ensures
        l@ == light_of(views(attrs@), attrs@.len() as int),
{
    let mut l: Light = Light {
        catlit: None,
        colour: String::new(),
        sectr1: None,
        sectr2: None,
        valnmr: None,
    };
    let mut i: usize = 0;
    while i < attrs.len()
        invariant
            i <= attrs@.len(),
            l@ == light_of(views(attrs@), i as int),
        decreases attrs@.len() - i,
    {
        let a: &Attribute = &attrs[i];
        assert(views(attrs@)[i as int] == a@);
        if a.code == 37 {
            l.catlit = Some(to_property(&a.value));
        } else {
            match &a.value {
                AttrValue::Str(s) => {
                    if a.code == 75 {
                        l.colour = s.clone();
                    }
                },
                AttrValue::Double(v) => {
                    if a.code == 136 {
                        l.sectr1 = Some(*v);
                    } else if a.code == 137 {
                        l.sectr2 = Some(*v);
                    } else if a.code == 178 {
                        l.valnmr = Some(*v);
                    }
                },
                AttrValue::Int(_) => {},
            }
        }
        i += 1;
    }
    l
}

/// Flood lights and subsidiary lights, which are no aids to navigation of their
/// own.
pub open spec fn flood_or_subsidiary(catlit: Option<PropView>) -> bool {
    match catlit {
        Some(PropView::U64(Some(v))) => v == 6 || v == 8,
        Some(PropView::Str(Some(t))) => t == seq!['6'] || t == seq!['8'],
        _ => false,
    }
}

/// Whether a light is a flood light or a subsidiary light.
pub fn is_flood_or_subsidiary(catlit: &Option<PropValue>) -> (r: bool)
    ensures
        r == flood_or_subsidiary(match catlit {
            Some(v) => Some(v@),
            None => None,
        }),
{
    match catlit {
        Some(PropValue::U64(Some(v))) => *v == 6 || *v == 8,
        Some(PropValue::Str(Some(t))) => {
            proof {
                reveal_strlit("6");
                reveal_strlit("8");
                assert("6"@ =~= seq!['6']);
                assert("8"@ =~= seq!['8']);
            }
            t.eq(&"6".to_owned()) || t.eq(&"8".to_owned())
        },
        _ => false,
    }
}

/// Of several attributes of one code the last one of the right type counts: 136
/// and 137 are the sector limits, 178 is the range, 75 the colours, 37 the
/// category.
pub proof fn the_last_attribute_counts(attrs: Seq<AttributeView>, i: int, n: int)
    requires
        0 <= i < n <= attrs.len(),
        forall|j: int| i < j < n ==> (#[trigger] attrs[j]).code != attrs[i].code,
    ensures
        ({
            let l = light_of(attrs, n);
            &&& attrs[i].value matches AttrValueView::Double(v) ==> {
                &&& attrs[i].code == 136 ==> l.sectr1 == Some(v)
                &&& attrs[i].code == 137 ==> l.sectr2 == Some(v)
                &&& attrs[i].code == 178 ==> l.valnmr == Some(v)
            }
            &&& attrs[i].value matches AttrValueView::Str(t) ==> (attrs[i].code == 75 ==> l.colour == t)
            &&& attrs[i].code == 37 ==> (match attrs[i].value {
                AttrValueView::Int(v) => l.catlit == Some(PropView::U64(Some(v as u64))),
                AttrValueView::Double(v) => l.catlit == Some(PropView::F64(Some(v))),
                AttrValueView::Str(t) => l.catlit == Some(PropView::Str(Some(t))),
            })
        }),
    decreases n,
{
    if i < n - 1 {
        assert(attrs[n - 1].code != attrs[i].code);
        the_last_attribute_counts(attrs, i, n - 1);
    }
}

/// A light without an attribute of a code lacks what that attribute says.
pub proof fn missing_attributes_say_nothing(attrs: Seq<AttributeView>, n: int)
    requires
        0 <= n <= attrs.len(),
    ensures
        (forall|j: int| 0 <= j < n ==> (#[trigger] attrs[j]).code != 136) ==> light_of(attrs, n).sectr1 is None,
        (forall|j: int| 0 <= j < n ==> (#[trigger] attrs[j]).code != 137) ==> light_of(attrs, n).sectr2 is None,
        (forall|j: int| 0 <= j < n ==> (#[trigger] attrs[j]).code != 178) ==> light_of(attrs, n).valnmr is None,
        (forall|j: int| 0 <= j < n ==> (#[trigger] attrs[j]).code != 37) ==> light_of(attrs, n).catlit is None,
        (forall|j: int| 0 <= j < n ==> (#[trigger] attrs[j]).code != 75) ==> light_of(attrs, n).colour.len() == 0,
    decreases n,
{
    if n > 0 {
        missing_attributes_say_nothing(attrs, n - 1);
        assert(attrs[n - 1].code == attrs[n - 1].code);
    }
}

/// The first of a list of colour codes gives the colour: 3 is red, 4 green, 5 blue,
/// 9 amber, 11 orange, 12 magenta, and any other code yellow. White space around
/// the code and what follows the first comma do not matter.
pub proof fn the_first_code_gives_the_colour(code: Seq<char>, rest: Seq<char>)
    requires
        0 < code.len(),
        forall|i: int| 0 <= i < code.len() ==> (#[trigger] code[i]) != ',' && !is_white(code[i]),
        rest.len() == 0 || rest[0] == ',',
    ensures
        first_code(code + rest) == code,
        first_code(seq![' '] + code + seq![' '] + rest) == code,
        display_colour(seq!['3']) == "#ee2222"@,
        display_colour(seq!['4']) == "#22aa22"@,
        display_colour(seq!['5']) == "#2255ee"@,
        display_colour(seq!['9']) == "#cc8800"@,
        display_colour(seq!['1', '1']) == "#ee7700"@,
        display_colour(seq!['1', '2']) == "#cc22cc"@,
        code != seq!['3'] && code != seq!['4'] && code != seq!['5'] && code != seq!['9'] && code != seq!['1', '1'] && code
            != seq!['1', '2'] ==> display_colour(code) == "#ccaa00"@,
{
    let s = code + rest;
    lemma_comma(s, 0, code.len() as int);
    assert(s.take(code.len() as int) =~= code);
    assert(!is_white(code[0]));
    assert(!is_white(code[code.len() - 1]));
    let blank = seq![' '];
    let padded = blank + code + blank;
    let t = padded + rest;
    assert(seq![' '] + code + seq![' '] + rest =~= t);
    assert forall|k: int| 0 <= k < padded.len() implies #[trigger] t[k] != ',' by {
        if 0 < k <= code.len() {
            assert(t[k] == code[k - 1]);
        }
    }
    lemma_comma(t, 0, padded.len() as int);
    assert(t.take(padded.len() as int) =~= padded);
    let cut = code + blank;
    assert(padded.skip(1) =~= cut);
    assert(padded[0] == ' ');
    assert(is_white(' '));
    assert(cut[0] == code[0]);
    assert(trim_front(cut) == cut);
    assert(trim_front(padded) == cut);
    assert(cut.drop_last() =~= code);
    assert(cut.last() == ' ');
    assert(trim_back(code) == code);
    assert(trim_back(cut) == code);
    assert(seq!['3'][0] == '3' && seq!['4'][0] == '4' && seq!['5'][0] == '5' && seq!['9'][0] == '9');
    assert(seq!['1', '1'][1] == '1' && seq!['1', '2'][1] == '2');
    assert(seq!['1', '1'].len() == 2 && seq!['1', '2'].len() == 2 && seq!['3'].len() == 1);
}

proof fn lemma_comma(s: Seq<char>, from: int, end: int)
    requires
        0 <= from <= end <= s.len(),
        end == s.len() || s[end] == ',',
        forall|i: int| from <= i < end ==> (#[trigger] s[i]) != ',',
    ensures
        comma_at(s, from) == end,
    decreases end - from,
{
    if from < end {
        assert(s[from] != ',');
        lemma_comma(s, from + 1, end);
    }
}

/// Of the object classes `BOYLAT` and `BOYCAR` are those of lateral and cardinal
/// buoys; of the categories 6 and 8 are those of flood lights and subsidiary lights,
/// as a number or as a text.
pub proof fn classes_and_categories_are_known(acronym: Seq<char>, v: u64, t: Seq<char>)
    ensures
        lateral_or_cardinal(acronym) <==> acronym == "BOYLAT"@ || acronym == "BOYCAR"@,
        flood_or_subsidiary(Some(PropView::U64(Some(v)))) <==> v == 6 || v == 8,
        flood_or_subsidiary(Some(PropView::Str(Some(t)))) <==> t.len() == 1 && (t[0] == '6' || t[0] == '8'),
        !flood_or_subsidiary(None),
{
    if t.len() == 1 {
        assert(t =~= seq![t[0]]);
    }
    assert(seq!['6'][0] == '6' && seq!['8'][0] == '8');
}

} // verus!
