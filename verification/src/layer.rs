//! Typed property columns of a tile layer.
//!
//! Features arrive one by one with whatever properties they have. The first
//! value of a property decides the kind of its column; features before it get a
//! null, and values of another kind are converted.
use vstd::prelude::*;
use crate::s57::Polygon;
use crate::scalar::{Real, Single};
use crate::text::{
    decimal_forms_spell_their_number, decimal_text, digits_of, signed_digits, signed_text, spelled,
};

verus! {

/// A point in tile pixels.
#[derive(Debug, Clone, Copy, PartialEq, Eq, Structural)]
pub struct Pixel {
    pub x: i32,
    pub y: i32,
}

/// A geometry in tile pixels.
#[derive(Debug)]
pub enum PixelShape {
    Point(Pixel),
    Line(Vec<Pixel>),
    MultiLine(Vec<Vec<Pixel>>),
    MultiPolygon(Vec<Polygon<Pixel>>),
}

/// A property value, or a null of its kind.
#[derive(Debug, PartialEq, Eq)]
pub enum PropValue {
    Bool(Option<bool>),
    I8(Option<i8>),
    U8(Option<u8>),
    I32(Option<i32>),
    U32(Option<u32>),
    I64(Option<i64>),
    U64(Option<u64>),
    F32(Option<Single>),
    F64(Option<Real>),
    Str(Option<String>),
}

/// The kind of a property column.
#[derive(Debug, Clone, Copy, PartialEq, Eq, Structural)]
pub enum PropKind {
    Bool,
    I8,
    U8,
    I32,
    U32,
    I64,
    U64,
    F32,
    F64,
    Str,
}

/// What a [`PropValue`] says.
pub enum PropView {
    Bool(Option<bool>),
    I8(Option<i8>),
    U8(Option<u8>),
    I32(Option<i32>),
    U32(Option<u32>),
    I64(Option<i64>),
    U64(Option<u64>),
    F32(Option<Single>),
    F64(Option<Real>),
    Str(Option<Seq<char>>),
}

/// A binary floating point number of either width.
#[derive(Debug, Clone, Copy, PartialEq, Eq, Structural)]
pub enum Float {
    Single(Single),
    Real(Real),
}

impl View for PropValue {
    type V = PropView;

    open spec fn view(&self) -> PropView {
        match self {
            PropValue::Bool(v) => PropView::Bool(*v),
            PropValue::I8(v) => PropView::I8(*v),
            PropValue::U8(v) => PropView::U8(*v),
            PropValue::I32(v) => PropView::I32(*v),
            PropValue::U32(v) => PropView::U32(*v),
            PropValue::I64(v) => PropView::I64(*v),
            PropValue::U64(v) => PropView::U64(*v),
            PropValue::F32(v) => PropView::F32(*v),
            PropValue::F64(v) => PropView::F64(*v),
            PropValue::Str(v) => PropView::Str(
                match v {
                    Some(t) => Some(t@),
                    None => None,
                },
            ),
        }
    }
}

impl PropView {
    /// The kind of a value.
    pub open spec fn kind(self) -> PropKind {
        match self {
            PropView::Bool(_) => PropKind::Bool,
            PropView::I8(_) => PropKind::I8,
            PropView::U8(_) => PropKind::U8,
            PropView::I32(_) => PropKind::I32,
            PropView::U32(_) => PropKind::U32,
            PropView::I64(_) => PropKind::I64,
            PropView::U64(_) => PropKind::U64,
            PropView::F32(_) => PropKind::F32,
            PropView::F64(_) => PropKind::F64,
            PropView::Str(_) => PropKind::Str,
        }
    }

    /// The null of a kind.
    pub open spec fn null(kind: PropKind) -> PropView {
        match kind {
            PropKind::Bool => PropView::Bool(None),
            PropKind::I8 => PropView::I8(None),
            PropKind::U8 => PropView::U8(None),
            PropKind::I32 => PropView::I32(None),
            PropKind::U32 => PropView::U32(None),
            PropKind::I64 => PropView::I64(None),
            PropKind::U64 => PropView::U64(None),
            PropKind::F32 => PropView::F32(None),
            PropKind::F64 => PropView::F64(None),
            PropKind::Str => PropView::Str(None),
        }
    }
}

impl PropValue {
    /// The kind of the value.
    pub fn kind(&self) -> (k: PropKind)
        ensures
            k == self@.kind(),
    {
        match self {
            PropValue::Bool(_) => PropKind::Bool,
            PropValue::I8(_) => PropKind::I8,
            PropValue::U8(_) => PropKind::U8,
            PropValue::I32(_) => PropKind::I32,
            PropValue::U32(_) => PropKind::U32,
            PropValue::I64(_) => PropKind::I64,
            PropValue::U64(_) => PropKind::U64,
            PropValue::F32(_) => PropKind::F32,
            PropValue::F64(_) => PropKind::F64,
            PropValue::Str(_) => PropKind::Str,
        }
    }

    /// The null of a kind.
    pub fn null(kind: PropKind) -> (v: PropValue)
        ensures
            v@ == PropView::null(kind),
    {
        match kind {
            PropKind::Bool => PropValue::Bool(None),
            PropKind::I8 => PropValue::I8(None),
            PropKind::U8 => PropValue::U8(None),
            PropKind::I32 => PropValue::I32(None),
            PropKind::U32 => PropValue::U32(None),
            PropKind::I64 => PropValue::I64(None),
            PropKind::U64 => PropValue::U64(None),
            PropKind::F32 => PropValue::F32(None),
            PropKind::F64 => PropValue::F64(None),
            PropKind::Str => PropValue::Str(None),
        }
    }

    /// A value that says the same.
    pub fn copy(&self) -> (v: PropValue)
        ensures
            v@ == self@,
    {
        match self {
            PropValue::Bool(v) => PropValue::Bool(*v),
            PropValue::I8(v) => PropValue::I8(*v),
            PropValue::U8(v) => PropValue::U8(*v),
            PropValue::I32(v) => PropValue::I32(*v),
            PropValue::U32(v) => PropValue::U32(*v),
            PropValue::I64(v) => PropValue::I64(*v),
            PropValue::U64(v) => PropValue::U64(*v),
            PropValue::F32(v) => PropValue::F32(*v),
            PropValue::F64(v) => PropValue::F64(*v),
            PropValue::Str(v) => PropValue::Str(
                match v {
                    Some(t) => Some(t.clone()),
                    None => None,
                },
            ),
        }
    }
}

/// `text` is what the notation gave for a number.
pub open spec fn noted<T: Fn(Float) -> String>(notation: T, f: Float, text: Seq<char>) -> bool {
    exists|s: String| s@ == text && #[trigger] call_ensures(notation, (f,), s)
}

/// `out` is `v` as a value of the given kind. A value of that kind stays as it
/// is. An unsigned number becomes a signed one, at most the greatest, and a
/// binary32 number a binary64 one. Booleans, 64-bit integers and floating point
/// numbers have a text. Everything else becomes a null.
pub open spec fn coerced<T: Fn(Float) -> String>(v: PropView, kind: PropKind, out: PropView, notation: T) -> bool {
    if v.kind() == kind {
        out == v
    } else {
        match (v, kind) {
            (PropView::U64(Some(u)), PropKind::I64) => out == PropView::I64(
                Some(
                    if u <= i64::MAX {
                        u as i64
                    } else {
                        i64::MAX
                    },
                ),
            ),
            (PropView::F32(Some(f)), PropKind::F64) => out == PropView::F64(Some(f.widened())),
            (PropView::Bool(Some(b)), PropKind::Str) => out == PropView::Str(
                Some(
                    if b {
                        "true"@
                    } else {
                        "false"@
                    },
                ),
            ),
            (PropView::I64(Some(i)), PropKind::Str) => out == PropView::Str(Some(signed_digits(i as int))),
            (PropView::U64(Some(u)), PropKind::Str) => out == PropView::Str(Some(digits_of(u as int))),
            (PropView::F32(Some(f)), PropKind::Str) => out matches PropView::Str(Some(t)) && noted(
                notation,
                Float::Single(f),
                t,
            ),
            (PropView::F64(Some(f)), PropKind::Str) => out matches PropView::Str(Some(t)) && noted(
                notation,
                Float::Real(f),
                t,
            ),
            _ => out == PropView::null(kind),
        }
    }
}

/// Converts a value to a kind. `notation` writes floating point numbers.
pub fn coerce<T: Fn(Float) -> String>(val: PropValue, kind: PropKind, notation: &T) -> (r: PropValue)
    requires
        forall|f: Float| call_requires(*notation, (f,)),
    ensures
        coerced(val@, kind, r@, *notation),
        r@.kind() == kind,
{
    if val.kind() == kind {
        return val;
    }
    match (val, kind) {
        (PropValue::U64(Some(u)), PropKind::I64) => {
            let v: i64 = if u <= 0x7FFF_FFFF_FFFF_FFFF {
                u as i64
            } else {
                0x7FFF_FFFF_FFFF_FFFF
            };
            PropValue::I64(Some(v))
        },
        (PropValue::F32(Some(f)), PropKind::F64) => PropValue::F64(Some(f.widen())),
        (PropValue::Bool(Some(b)), PropKind::Str) => {
            let t: String = if b {
                "true".to_owned()
            } else {
                "false".to_owned()
            };
            PropValue::Str(Some(t))
        },
        (PropValue::I64(Some(i)), PropKind::Str) => PropValue::Str(Some(signed_text(i))),
        (PropValue::U64(Some(u)), PropKind::Str) => PropValue::Str(Some(decimal_text(u))),
        (PropValue::F32(Some(f)), PropKind::Str) => {
            let t: String = notation(Float::Single(f));
            assert(noted(*notation, Float::Single(f), t@));
            PropValue::Str(Some(t))
        },
        (PropValue::F64(Some(f)), PropKind::Str) => {
            let t: String = notation(Float::Real(f));
            assert(noted(*notation, Float::Real(f), t@));
            PropValue::Str(Some(t))
        },
        _ => PropValue::null(kind),
    }
}

// ── Layers ───────────────────────────────────────────────────────────────────

/// A feature in tile pixels with its properties.
#[derive(Debug)]
pub struct RawFeature {
    pub shape: PixelShape,
    pub props: Vec<(String, PropValue)>,
}

/// A property column.
#[derive(Debug)]
pub struct Column {
    pub name: String,
    pub kind: PropKind,
}

/// A feature of a layer, with one value for each column.
#[derive(Debug)]
pub struct TileFeature {
    pub shape: PixelShape,
    pub properties: Vec<PropValue>,
}

/// A finished layer.
#[derive(Debug)]
pub struct TileLayer {
    pub name: String,
    pub columns: Vec<Column>,
    pub features: Vec<TileFeature>,
}

/// Collects the features of one layer.
#[derive(Debug)]
pub struct LayerBuf {
    name: String,
    columns: Vec<Column>,
    /// Each with the values of the columns that there were when it came.
    features: Vec<TileFeature>,
}

/// What the columns say.
pub open spec fn column_views(columns: Seq<Column>) -> Seq<(Seq<char>, PropKind)> {
    Seq::new(columns.len(), |i: int| (columns[i].name@, columns[i].kind))
}

/// What properties say.
pub open spec fn prop_views(props: Seq<(String, PropValue)>) -> Seq<(Seq<char>, PropView)> {
    Seq::new(props.len(), |i: int| (props[i].0@, props[i].1@))
}

/// What values say.
pub open spec fn value_views(values: Seq<PropValue>) -> Seq<PropView> {
    Seq::new(values.len(), |i: int| values[i]@)
}

/// Index of the column of a name, or the number of columns.
pub open spec fn column_at(columns: Seq<(Seq<char>, PropKind)>, name: Seq<char>, from: int) -> int
    decreases columns.len() - from,
{
    if from >= columns.len() || columns[from].0 == name {
        from
    } else {
        column_at(columns, name, from + 1)
    }
}

/// There is a column of this name.
pub open spec fn has_column(columns: Seq<(Seq<char>, PropKind)>, name: Seq<char>) -> bool {
    column_at(columns, name, 0) < columns.len()
}

/// The columns after the first `n` properties: one more for each new name, of
/// the kind of its value.
pub open spec fn with_columns(
    columns: Seq<(Seq<char>, PropKind)>,
    props: Seq<(Seq<char>, PropView)>,
    n: int,
) -> Seq<(Seq<char>, PropKind)>
    decreases n,
{
    if n <= 0 {
        columns
    } else {
        let before = with_columns(columns, props, n - 1);
        if has_column(before, props[n - 1].0) {
            before
        } else {
            before.push((props[n - 1].0, props[n - 1].1.kind()))
        }
    }
}

/// Index of the last of the first `n` properties with a name, or -1.
pub open spec fn last_prop(props: Seq<(Seq<char>, PropView)>, name: Seq<char>, n: int) -> int
    decreases n,
{
    if n <= 0 {
        -1
    } else if props[n - 1].0 == name {
        n - 1
    } else {
        last_prop(props, name, n - 1)
    }
}

/// `values` are the properties sorted into the columns: the last property of
/// each column's name, converted to its kind, or a null.
pub open spec fn sorted_in<T: Fn(Float) -> String>(
    columns: Seq<(Seq<char>, PropKind)>,
    props: Seq<(Seq<char>, PropView)>,
    values: Seq<PropView>,
    notation: T,
) -> bool {
    values.len() == columns.len() && forall|c: int|
        0 <= c < columns.len() ==> {
            let j = last_prop(props, columns[c].0, props.len() as int);
            if j < 0 {
                #[trigger] values[c] == PropView::null(columns[c].1)
            } else {
                coerced(props[j].1, columns[c].1, values[c], notation)
            }
        }
}

/// The values of a feature, with a null for each column that it lacks.
pub open spec fn padded(values: Seq<PropView>, columns: Seq<(Seq<char>, PropKind)>) -> Seq<PropView> {
    Seq::new(
        columns.len(),
        |c: int|
            if c < values.len() {
                values[c]
            } else {
                PropView::null(columns[c].1)
            },
    )
}

/// What a layer says: its name, its columns, and the shape and values of each
/// feature.
pub struct LayerView {
    pub name: Seq<char>,
    pub columns: Seq<(Seq<char>, PropKind)>,
    pub features: Seq<(PixelShape, Seq<PropView>)>,
}

impl View for TileLayer {
    type V = LayerView;

    open spec fn view(&self) -> LayerView {
        LayerView {
            name: self.name@,
            columns: column_views(self.columns@),
            features: Seq::new(
                self.features@.len(),
                |i: int| (self.features@[i].shape, value_views(self.features@[i].properties@)),
            ),
        }
    }
}

impl View for LayerBuf {
    type V = LayerView;

    closed spec fn view(&self) -> LayerView {
        LayerView {
            name: self.name@,
            columns: column_views(self.columns@),
            features: Seq::new(
                self.features@.len(),
                |i: int|
                    (
                        self.features@[i].shape,
                        padded(value_views(self.features@[i].properties@), column_views(self.columns@)),
                    ),
            ),
        }
    }
}

/// The features of a layer after more columns came.
pub open spec fn widened_rows(
    features: Seq<(PixelShape, Seq<PropView>)>,
    columns: Seq<(Seq<char>, PropKind)>,
) -> Seq<(PixelShape, Seq<PropView>)> {
    Seq::new(features.len(), |i: int| (features[i].0, padded(features[i].1, columns)))
}

/// `after` is the layer `before` with one more feature: new properties have
/// become columns, earlier features have nulls in them, and the properties of
/// the feature are sorted into the columns.
pub open spec fn pushed<T: Fn(Float) -> String>(
    before: LayerView,
    feature: RawFeature,
    after: LayerView,
    notation: T,
) -> bool {
    let props = prop_views(feature.props@);
    let columns = with_columns(before.columns, props, props.len() as int);
    &&& after.name == before.name
    &&& after.columns == columns
    &&& after.features.len() == before.features.len() + 1
    &&& after.features.drop_last() == widened_rows(before.features, columns)
    &&& after.features.last().0 == feature.shape
    &&& sorted_in(columns, props, after.features.last().1, notation)
}

proof fn lemma_column_at(columns: Seq<(Seq<char>, PropKind)>, name: Seq<char>, from: int)
    requires
        0 <= from <= columns.len(),
    ensures
        from <= column_at(columns, name, from) <= columns.len(),
        column_at(columns, name, from) < columns.len() ==> columns[column_at(columns, name, from)].0 == name,
        forall|k: int| from <= k < column_at(columns, name, from) ==> (#[trigger] columns[k]).0 != name,
    decreases columns.len() - from,
{
    if from < columns.len() && columns[from].0 != name {
        lemma_column_at(columns, name, from + 1);
    }
}

/// No two columns share a name.
pub open spec fn distinct_columns(columns: Seq<(Seq<char>, PropKind)>) -> bool {
    forall|i: int, j: int| 0 <= i < j < columns.len() ==> (#[trigger] columns[i]).0 != (#[trigger] columns[j]).0
}

proof fn lemma_with_columns(columns: Seq<(Seq<char>, PropKind)>, props: Seq<(Seq<char>, PropView)>, n: int)
    requires
        0 <= n <= props.len(),
        distinct_columns(columns),
    ensures
        with_columns(columns, props, n).len() >= columns.len(),
        with_columns(columns, props, n).take(columns.len() as int) == columns,
        distinct_columns(with_columns(columns, props, n)),
    decreases n,
{
    if n > 0 {
        lemma_with_columns(columns, props, n - 1);
        let before = with_columns(columns, props, n - 1);
        let after = with_columns(columns, props, n);
        lemma_column_at(before, props[n - 1].0, 0);
        assert(after.take(columns.len() as int) =~= before.take(columns.len() as int));
        assert forall|i: int, j: int| 0 <= i < j < after.len() implies (#[trigger] after[i]).0 != (
        #[trigger] after[j]).0 by {
            if j < before.len() {
                assert(before[i].0 != before[j].0);
            } else {
                assert(before[i].0 != props[n - 1].0);
            }
        }
    } else {
        assert(columns.take(columns.len() as int) =~= columns);
    }
}

fn find_column(columns: &Vec<Column>, name: &String) -> (i: usize)
    ensures
        i == column_at(column_views(columns@), name@, 0),
        i <= columns@.len(),
{
    let mut i: usize = 0;
    while i < columns.len() && !columns[i].name.eq(name)
        invariant
            i <= columns@.len(),
            column_at(column_views(columns@), name@, 0) == column_at(column_views(columns@), name@, i as int),
        decreases columns@.len() - i,
    {
        i += 1;
    }
    i
}

impl LayerBuf {
    /// Columns have distinct names, no feature has more values than there are
    /// columns, and each value is of its column's kind.
    #[verifier::type_invariant]
    spec fn consistent(self) -> bool {
        &&& distinct_columns(column_views(self.columns@))
        &&& forall|i: int|
            0 <= i < self.features@.len() ==> (#[trigger] self.features@[i]).properties@.len()
                <= self.columns@.len()
        &&& forall|i: int, c: int|
            0 <= i < self.features@.len() && 0 <= c < self.features@[i].properties@.len() ==> (
            #[trigger] self.features@[i].properties@[c])@.kind() == self.columns@[c].kind
    }

    /// An empty layer.
    pub fn new(name: &str) -> (b: LayerBuf)
        ensures
            b@ == (LayerView { name: name@, columns: Seq::empty(), features: Seq::empty() }),
    {
        let b: LayerBuf = LayerBuf { name: name.to_owned(), columns: Vec::new(), features: Vec::new() };
        assert(b@.columns =~= Seq::empty());
        assert(b@.features =~= Seq::empty());
        b
    }

    /// Adds a feature. `notation` writes floating point numbers for columns of
    /// texts.
    pub fn push<T: Fn(Float) -> String>(&mut self, feature: RawFeature, notation: &T)
        requires
            forall|f: Float| call_requires(*notation, (f,)),
        ensures
            pushed(old(self)@, feature, final(self)@, *notation),
    {
        let mut taken: LayerBuf = LayerBuf::new("");
        std::mem::swap(&mut taken, self);
        *self = taken.with(feature, notation);
    }

    fn with<T: Fn(Float) -> String>(self, feature: RawFeature, notation: &T) -> (b: LayerBuf)
        requires
            forall|f: Float| call_requires(*notation, (f,)),
        ensures
            pushed(self@, feature, b@, *notation),
    {
        proof {
            use_type_invariant(&self);
        }
        let ghost before = self;
        let ghost props = prop_views(feature.props@);
        let ghost start = column_views(self.columns@);
        let name: String = self.name;
        let mut columns: Vec<Column> = self.columns;
        let mut features: Vec<TileFeature> = self.features;
        let mut index: Vec<usize> = Vec::new();
        let mut i: usize = 0;
        while i < feature.props.len()
            invariant
                i <= feature.props@.len(),
                props == prop_views(feature.props@),
                distinct_columns(start),
                column_views(columns@) == with_columns(start, props, i as int),
                index@.len() == i,
                forall|k: int|
                    0 <= k < i ==> (#[trigger] index@[k]) < columns@.len() && columns@[index@[k] as int].name@
                        == props[k].0,
            decreases feature.props@.len() - i,
        {
            let ghost old_columns = columns@;
            let at: usize = find_column(&columns, &feature.props[i].0);
            proof {
                lemma_column_at(column_views(columns@), props[i as int].0, 0);
            }
            if at == columns.len() {
                let kind: PropKind = feature.props[i].1.kind();
                columns.push(Column { name: feature.props[i].0.clone(), kind });
                assert(column_views(columns@) =~= column_views(old_columns).push((props[i as int].0, kind)));
            } else {
                assert(column_views(columns@)[at as int].0 == columns@[at as int].name@);
            }
            index.push(at);
            i += 1;
        }
        let ghost cols = column_views(columns@);
        proof {
            lemma_with_columns(start, props, props.len() as int);
        }
        let mut values: Vec<PropValue> = Vec::new();
        let mut c: usize = 0;
        while c < columns.len()
            invariant
                c <= columns@.len(),
                values@.len() == c,
                forall|k: int| 0 <= k < c ==> (#[trigger] values@[k])@ == PropView::null(columns@[k].kind),
            decreases columns@.len() - c,
        {
            values.push(PropValue::null(columns[c].kind));
            c += 1;
        }
        let ghost given = feature.props@;
        let shape: PixelShape = feature.shape;
        let total: usize = index.len();
        let mut j: usize = 0;
        for prop in it: feature.props
            invariant
                total == given.len(),
                it.seq() == given,
                props == prop_views(given),
                j == it.index@,
                index@.len() == given.len(),
                cols == column_views(columns@),
                values@.len() == columns@.len(),
                distinct_columns(cols),
                forall|f: Float| call_requires(*notation, (f,)),
                forall|k: int|
                    0 <= k < given.len() ==> (#[trigger] index@[k]) < columns@.len() && columns@[index@[k] as int].name@
                        == props[k].0,
                forall|k: int| 0 <= k < columns@.len() ==> (#[trigger] values@[k])@.kind() == columns@[k].kind,
                forall|k: int|
                    0 <= k < columns@.len() ==> {
                        let l = last_prop(props, cols[k].0, j as int);
                        if l < 0 {
                            (#[trigger] values@[k])@ == PropView::null(cols[k].1)
                        } else {
                            coerced(props[l].1, cols[k].1, values@[k]@, *notation)
                        }
                    },
        {
            assert(props[j as int] == (prop.0@, prop.1@));
            let at: usize = index[j];
            let ghost earlier = values@;
            assert(columns@[at as int].name@ == props[j as int].0);
            assert(cols[at as int] == (columns@[at as int].name@, columns@[at as int].kind));
            let v: PropValue = coerce(prop.1, columns[at].kind, notation);
            values[at] = v;
            proof {
                assert forall|k: int| 0 <= k < columns@.len() implies {
                    let l = last_prop(props, cols[k].0, j + 1);
                    if l < 0 {
                        (#[trigger] values@[k])@ == PropView::null(cols[k].1)
                    } else {
                        coerced(props[l].1, cols[k].1, values@[k]@, *notation)
                    }
                } by {
                    if k == at {
                        assert(last_prop(props, cols[k].0, j + 1) == j);
                    } else {
                        if k < at {
                            assert(cols[k].0 != cols[at as int].0);
                        } else {
                            assert(cols[at as int].0 != cols[k].0);
                        }
                        assert(values@[k] == earlier[k]);
                        assert(last_prop(props, cols[k].0, j + 1) == last_prop(props, cols[k].0, j as int));
                        assert(cols[k].1 == columns@[k].kind);
                    }
                }
            }
            j += 1;
        }
        let ghost row = value_views(values@);
        features.push(TileFeature { shape, properties: values });
        proof {
            assert(cols.take(start.len() as int) == start);
            assert forall|f: int| 0 <= f < features@.len() implies (#[trigger] features@[f]).properties@.len()
                <= columns@.len() by {
                if f < before.features@.len() {
                    assert(features@[f] == before.features@[f]);
                }
            }
            assert forall|f: int, k: int|
                0 <= f < features@.len() && 0 <= k < features@[f].properties@.len() implies (
            #[trigger] features@[f].properties@[k])@.kind() == columns@[k].kind by {
                if f < before.features@.len() {
                    assert(features@[f] == before.features@[f]);
                    assert(before.features@[f].properties@[k]@.kind() == before.columns@[k].kind);
                    assert(start[k] == cols[k]);
                }
            }
        }
        let b: LayerBuf = LayerBuf { name, columns, features };
        proof {
            assert(padded(row, cols) =~= row);
            assert(b@.features.last() == (shape, padded(row, cols)));
            let rows = b@.features.drop_last();
            let wide = widened_rows(before@.features, cols);
            assert forall|f: int| 0 <= f < wide.len() implies rows[f] == wide[f] by {
                assert(b.features@[f] == before.features@[f]);
                let own = value_views(before.features@[f].properties@);
                assert(padded(padded(own, start), cols) =~= padded(own, cols)) by {
                    assert forall|k: int| 0 <= k < cols.len() implies padded(padded(own, start), cols)[k] == padded(
                        own,
                        cols,
                    )[k] by {
                        if k < start.len() {
                            assert(start[k] == cols[k]);
                        }
                    }
                }
            }
            assert(rows =~= wide);
        }
        b
    }

    /// The name of the layer.
    pub(crate) fn name_text(&self) -> (t: &str)
        ensures
            t@ == self@.name,
    {
        self.name.as_str()
    }

    /// Number of features.
    pub fn feature_count(&self) -> (n: usize)
        ensures
            n == self@.features.len(),
    {
        self.features.len()
    }

    /// The finished layer.
    pub fn finish(self) -> (l: TileLayer)
        ensures
            l@ == self@,
            distinct_columns(l@.columns),
            forall|i: int, c: int|
                0 <= i < l@.features.len() && 0 <= c < l@.columns.len() ==> (#[trigger] l@.features[i].1[c]).kind()
                    == l@.columns[c].1,
    {
        proof {
            use_type_invariant(&self);
        }
        let ghost before = self;
        let name: String = self.name;
        let columns: Vec<Column> = self.columns;
        let ghost cols = column_views(columns@);
        let mut out: Vec<TileFeature> = Vec::new();
        for feature in it: self.features
            invariant
                it.seq() == before.features@,
                before.consistent(),
                columns == before.columns,
                cols == column_views(columns@),
                out@.len() == it.index@,
                forall|k: int|
                    0 <= k < out@.len() ==> (#[trigger] out@[k]).shape == before.features@[k].shape && value_views(
                        out@[k].properties@,
                    ) == padded(value_views(before.features@[k].properties@), cols),
        {
            let ghost own = value_views(feature.properties@);
            let ghost f = it.index@ as int;
            let mut values: Vec<PropValue> = feature.properties;
            assert(before.features@[f].properties@.len() <= before.columns@.len());
            while values.len() < columns.len()
                invariant
                    own.len() <= values@.len() <= columns@.len(),
                    cols == column_views(columns@),
                    value_views(values@) == padded(own, cols).take(values@.len() as int),
                decreases columns@.len() - values@.len(),
            {
                let ghost so_far = values@;
                let null: PropValue = PropValue::null(columns[values.len()].kind);
                values.push(null);
                assert(value_views(values@) =~= padded(own, cols).take(values@.len() as int));
            }
            assert(value_views(values@) =~= padded(own, cols));
            out.push(TileFeature { shape: feature.shape, properties: values });
        }
        let l: TileLayer = TileLayer { name, columns, features: out };
        proof {
            assert(l@.features =~= before@.features);
            assert forall|i: int, c: int| 0 <= i < l@.features.len() && 0 <= c < l@.columns.len() implies (
            #[trigger] l@.features[i].1[c]).kind() == l@.columns[c].1 by {
                let own = value_views(before.features@[i].properties@);
                if c < own.len() {
                    assert(before.features@[i].properties@[c]@.kind() == before.columns@[c].kind);
                }
            }
        }
        l
    }
}

// ── What a layer keeps ───────────────────────────────────────────────────────

proof fn lemma_last_prop(props: Seq<(Seq<char>, PropView)>, name: Seq<char>, j: int, n: int)
    requires
        0 <= j < n <= props.len(),
        props[j].0 == name,
        forall|k: int| j < k < n ==> (#[trigger] props[k]).0 != name,
    ensures
        last_prop(props, name, n) == j,
    decreases n,
{
    if j < n - 1 {
        assert(props[n - 1].0 != name);
        lemma_last_prop(props, name, j, n - 1);
    }
}

proof fn lemma_no_prop(props: Seq<(Seq<char>, PropView)>, name: Seq<char>, n: int)
    requires
        0 <= n <= props.len(),
        forall|k: int| 0 <= k < n ==> (#[trigger] props[k]).0 != name,
    ensures
        last_prop(props, name, n) == -1,
    decreases n,
{
    if n > 0 {
        assert(props[n - 1].0 != name);
        lemma_no_prop(props, name, n - 1);
    }
}

proof fn lemma_has_column(columns: Seq<(Seq<char>, PropKind)>, props: Seq<(Seq<char>, PropView)>, j: int, n: int)
    requires
        0 <= j < n <= props.len(),
    ensures
        has_column(with_columns(columns, props, n), props[j].0),
    decreases n,
{
    let before = with_columns(columns, props, n - 1);
    let after = with_columns(columns, props, n);
    lemma_column_at(before, props[j].0, 0);
    lemma_column_at(after, props[j].0, 0);
    if j < n - 1 {
        lemma_has_column(columns, props, j, n - 1);
        let c = column_at(before, props[j].0, 0);
        assert(after[c] == before[c]);
    } else if !has_column(before, props[j].0) {
        assert(after[before.len() as int].0 == props[j].0);
    }
}

/// A new feature has each of its properties in a column of that name, where a value
/// of the kind of the column stays as it is; of several properties of one name the
/// last one counts.
pub proof fn a_feature_keeps_its_properties<T: Fn(Float) -> String>(
    before: LayerView,
    feature: RawFeature,
    after: LayerView,
    notation: T,
    j: int,
)
    requires
        pushed(before, feature, after, notation),
        distinct_columns(before.columns),
        0 <= j < feature.props@.len(),
        forall|k: int| j < k < feature.props@.len() ==> (#[trigger] feature.props@[k]).0@ != feature.props@[j].0@,
    ensures
        after.features.last().0 == feature.shape,
        exists|c: int|
            0 <= c < after.columns.len() && (#[trigger] after.columns[c]).0 == feature.props@[j].0@ && (after.columns[c].1
                == feature.props@[j].1@.kind() ==> after.features.last().1[c] == feature.props@[j].1@) && coerced(
                feature.props@[j].1@,
                after.columns[c].1,
                after.features.last().1[c],
                notation,
            ),
{
    let props = prop_views(feature.props@);
    let n = props.len() as int;
    let name = props[j].0;
    assert forall|k: int| j < k < n implies (#[trigger] props[k]).0 != name by {
        assert(feature.props@[k].0@ != feature.props@[j].0@);
    }
    lemma_last_prop(props, name, j, n);
    lemma_has_column(before.columns, props, j, n);
    lemma_column_at(after.columns, name, 0);
    let c = column_at(after.columns, name, 0);
    assert(after.columns[c].0 == name);
    assert(sorted_in(after.columns, props, after.features.last().1, notation));
    assert(last_prop(props, after.columns[c].0, n) == j);
    let v = after.features.last().1[c];
    assert(coerced(props[j].1, after.columns[c].1, v, notation));
}

/// A column without a property of its name holds a null of its kind for the new
/// feature. The first value of a name decides the kind of its column.
pub proof fn columns_without_a_value_hold_null<T: Fn(Float) -> String>(
    before: LayerView,
    feature: RawFeature,
    after: LayerView,
    notation: T,
    c: int,
)
    requires
        pushed(before, feature, after, notation),
        distinct_columns(before.columns),
        0 <= c < after.columns.len(),
    ensures
        (forall|k: int| 0 <= k < feature.props@.len() ==> (#[trigger] feature.props@[k]).0@ != after.columns[c].0)
            ==> after.features.last().1[c] == PropView::null(after.columns[c].1),
        c < before.columns.len() ==> after.columns[c] == before.columns[c],
        c >= before.columns.len() ==> exists|j: int|
            0 <= j < feature.props@.len() && (#[trigger] feature.props@[j]).0@ == after.columns[c].0
                && feature.props@[j].1@.kind() == after.columns[c].1 && forall|k: int|
                0 <= k < j ==> (#[trigger] feature.props@[k]).0@ != after.columns[c].0,
{
    let props = prop_views(feature.props@);
    let n = props.len() as int;
    let name = after.columns[c].0;
    lemma_with_columns(before.columns, props, n);
    if c < before.columns.len() {
        assert(after.columns.take(before.columns.len() as int)[c] == before.columns[c]);
    } else {
        lemma_new_column(before.columns, props, n, c);
        let j = choose|j: int|
            0 <= j < n && (#[trigger] props[j]).0 == name && props[j].1.kind() == after.columns[c].1 && forall|k: int|
                0 <= k < j ==> (#[trigger] props[k]).0 != name;
        assert(feature.props@[j].0@ == props[j].0);
        assert forall|k: int| 0 <= k < j implies (#[trigger] feature.props@[k]).0@ != name by {
            assert(props[k].0 != name);
        }
    }
    if forall|k: int| 0 <= k < feature.props@.len() ==> (#[trigger] feature.props@[k]).0@ != name {
        assert forall|k: int| 0 <= k < n implies (#[trigger] props[k]).0 != name by {
            assert(feature.props@[k].0@ != name);
        }
        lemma_no_prop(props, name, n);
        assert(sorted_in(after.columns, props, after.features.last().1, notation));
        let v = after.features.last().1[c];
    }
}

proof fn lemma_new_column(columns: Seq<(Seq<char>, PropKind)>, props: Seq<(Seq<char>, PropView)>, n: int, c: int)
    requires
        0 <= n <= props.len(),
        distinct_columns(columns),
        columns.len() <= c < with_columns(columns, props, n).len(),
    ensures
        exists|j: int|
            0 <= j < n && (#[trigger] props[j]).0 == with_columns(columns, props, n)[c].0 && props[j].1.kind()
                == with_columns(columns, props, n)[c].1 && forall|k: int|
                0 <= k < j ==> (#[trigger] props[k]).0 != with_columns(columns, props, n)[c].0,
    decreases n,
{
    if n > 0 {
        let before = with_columns(columns, props, n - 1);
        let after = with_columns(columns, props, n);
        lemma_with_columns(columns, props, n - 1);
        if c < before.len() {
            lemma_new_column(columns, props, n - 1, c);
            assert(after[c] == before[c]);
            let j = choose|j: int|
                0 <= j < n - 1 && (#[trigger] props[j]).0 == before[c].0 && props[j].1.kind() == before[c].1 && forall|
                    k: int,
                |
                    0 <= k < j ==> (#[trigger] props[k]).0 != before[c].0;
            assert(0 <= j < n && props[j].0 == after[c].0);
        } else {
            assert(after[c] == (props[n - 1].0, props[n - 1].1.kind()));
            assert forall|k: int| 0 <= k < n - 1 implies (#[trigger] props[k]).0 != after[c].0 by {
                if props[k].0 == props[n - 1].0 {
                    lemma_has_column(columns, props, k, n - 1);
                }
            }
            assert(props[n - 1].0 == after[c].0);
        }
    }
}

/// Earlier features keep their shapes and values; a column that came later holds a
/// null for them.
pub proof fn earlier_features_stay<T: Fn(Float) -> String>(
    before: LayerView,
    feature: RawFeature,
    after: LayerView,
    notation: T,
    i: int,
    c: int,
)
    requires
        pushed(before, feature, after, notation),
        0 <= i < before.features.len(),
        0 <= c < after.columns.len(),
    ensures
        after.features.len() == before.features.len() + 1,
        after.features[i].0 == before.features[i].0,
        c < before.features[i].1.len() ==> after.features[i].1[c] == before.features[i].1[c],
        c >= before.features[i].1.len() ==> after.features[i].1[c] == PropView::null(after.columns[c].1),
{
    assert(after.features.drop_last()[i] == after.features[i]);
    let props = prop_views(feature.props@);
    let columns = with_columns(before.columns, props, props.len() as int);
    assert(widened_rows(before.features, columns)[i] == (before.features[i].0, padded(before.features[i].1, columns)));
}

/// A value that is brought to another kind keeps what it says as far as that kind
/// can say it: unsigned numbers stay the same number or become the greatest signed
/// one, whole numbers become the texts that spell them, and what has no such form
/// becomes a null of the kind.
pub proof fn converted_values_say_the_same<T: Fn(Float) -> String>(u: u64, i: i64, f: Single, b: bool, out: PropView, notation: T)
    ensures
        coerced(PropView::U64(Some(u)), PropKind::I64, out, notation) ==> (out matches PropView::I64(Some(v)) && (v == u || (
        u > i64::MAX && v == i64::MAX))),
        coerced(PropView::U64(Some(u)), PropKind::Str, out, notation) ==> (out matches PropView::Str(Some(t)) && spelled(t)
            == u),
        coerced(PropView::I64(Some(i)), PropKind::Str, out, notation) && i >= 0 ==> (out matches PropView::Str(Some(t))
            && spelled(t) == i),
        coerced(PropView::I64(Some(i)), PropKind::Str, out, notation) && i < 0 ==> (out matches PropView::Str(Some(t))
            && t.len() > 0 && t[0] == '-' && spelled(t.skip(1)) == -i),
        coerced(PropView::F32(Some(f)), PropKind::F64, out, notation) ==> out == PropView::F64(Some(f.widened())),
        coerced(PropView::Bool(Some(b)), PropKind::Str, out, notation) ==> out == PropView::Str(
            Some(
                if b {
                    "true"@
                } else {
                    "false"@
                },
            ),
        ),
        coerced(PropView::Str(None), PropKind::U64, out, notation) ==> out == PropView::U64(None),
        coerced(PropView::I64(Some(i)), PropKind::U64, out, notation) ==> out == PropView::U64(None),
        coerced(PropView::U64(None), PropKind::Str, out, notation) ==> out == PropView::Str(None),
{
    decimal_forms_spell_their_number(u as int);
    if i >= 0 {
        decimal_forms_spell_their_number(i as int);
    } else {
        decimal_forms_spell_their_number(-i as int);
        let t = signed_digits(i as int);
        assert(t.skip(1) =~= digits_of(-i as int));
    }
}

/// A value that has no form of a kind becomes a null of that kind. Beside texts, which
/// every value but a null has, only signed numbers can be had from another kind, from
/// unsigned ones, and binary64 numbers, from binary32 ones.
pub proof fn other_values_become_null<T: Fn(Float) -> String>(v: PropView, kind: PropKind, out: PropView, notation: T)
    requires
        coerced(v, kind, out, notation),
        v.kind() != kind,
        !(kind is Str),
        !(v is U64 && kind is I64),
        !(v is F32 && kind is F64),
    ensures
        out == PropView::null(kind),
        out.kind() == kind,
{
}

} // verus!
