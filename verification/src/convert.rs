//! Cells as GeoJSON, one list of features per object class.
use vstd::prelude::*;
use crate::json::{entry_views, key_at, lemma_key_at, lookup, set_key, set_key_is_seen, updated, Json, JsonView};
use crate::quilt::{with_maxzoom, GeoGeometry};
use crate::scalar::{Position, Real};
use crate::senc::rings::lists;
use crate::text::{decimal_forms_spell_their_number, decimal_text, digits_of, spelled};

verus! {

/// The value of a named attribute.
#[derive(Debug)]
pub enum NamedValue {
    Int(u32),
    /// A number; `None` where it is not finite.
    Double(Option<serde_json::Number>),
    Str(String),
}

/// An attribute with its acronym, if it has one.
#[derive(Debug)]
pub struct NamedAttribute {
    pub code: u16,
    pub acronym: Option<String>,
    pub value: NamedValue,
}

/// The geometry of a named feature.
#[derive(Debug)]
pub enum NamedGeometry {
    Empty,
    Point(Position),
    /// Places with their depths as texts.
    Soundings(Vec<(Position, String)>),
    Line(Vec<Vec<Position>>),
    Area(Vec<Vec<Position>>),
}

/// A feature with the acronym of its object class, if it has one.
#[derive(Debug)]
pub struct NamedFeature {
    pub acronym: Option<String>,
    pub id: u16,
    pub primitive: u8,
    pub attributes: Vec<NamedAttribute>,
    pub geometry: NamedGeometry,
}

/// A GeoJSON feature.
#[derive(Debug)]
pub struct GeoFeature {
    pub geometry: Option<GeoGeometry>,
    pub properties: Vec<(String, Json)>,
    /// Members of the feature beside geometry and properties.
    pub members: Vec<(String, Json)>,
}

/// The features of one object class.
#[derive(Debug)]
pub struct GeoLayer {
    pub name: String,
    pub features: Vec<GeoFeature>,
}

/// What a geometry says.
pub enum GeoView {
    Point(Seq<Real>),
    MultiPoint(Seq<Seq<Real>>),
    LineString(Seq<Seq<Real>>),
    MultiLineString(Seq<Seq<Seq<Real>>>),
    Polygon(Seq<Seq<Seq<Real>>>),
    MultiPolygon(Seq<Seq<Seq<Seq<Real>>>>),
    Other,
}

/// What a [`GeoFeature`] says.
pub struct GeoFeatureView {
    pub geometry: Option<GeoView>,
    pub properties: Seq<(Seq<char>, JsonView)>,
    pub members: Seq<(Seq<char>, JsonView)>,
}

/// The contents of lists of positions.
pub open spec fn nested(v: Seq<Vec<Vec<Real>>>) -> Seq<Seq<Seq<Real>>> {
    Seq::new(v.len(), |i: int| lists(v[i]@))
}

/// What a geometry says.
pub open spec fn geo_view(g: GeoGeometry) -> GeoView {
    match g {
        GeoGeometry::Point(p) => GeoView::Point(p@),
        GeoGeometry::MultiPoint(pts) => GeoView::MultiPoint(lists(pts@)),
        GeoGeometry::LineString(l) => GeoView::LineString(lists(l@)),
        GeoGeometry::MultiLineString(l) => GeoView::MultiLineString(nested(l@)),
        GeoGeometry::Polygon(r) => GeoView::Polygon(nested(r@)),
        GeoGeometry::MultiPolygon(p) => GeoView::MultiPolygon(
            Seq::new(p@.len(), |i: int| nested(p@[i]@)),
        ),
        GeoGeometry::Other => GeoView::Other,
    }
}

impl View for GeoFeature {
    type V = GeoFeatureView;

    open spec fn view(&self) -> GeoFeatureView {
        GeoFeatureView {
            geometry: match self.geometry {
                Some(g) => Some(geo_view(g)),
                None => None,
            },
            properties: entry_views(self.properties@),
            members: entry_views(self.members@),
        }
    }
}

/// What the features of a list say.
pub open spec fn feature_views(v: Seq<GeoFeature>) -> Seq<GeoFeatureView> {
    Seq::new(v.len(), |i: int| v[i]@)
}

// ── Properties ───────────────────────────────────────────────────────────────

/// The object class of a feature.
pub open spec fn class_of(f: NamedFeature) -> Seq<char> {
    match f.acronym {
        Some(t) => t@,
        None => "UNKNOWN"@,
    }
}

/// The property name of an attribute: its acronym, or its code.
pub open spec fn key_of(a: NamedAttribute) -> Seq<char> {
    match a.acronym {
        Some(t) => t@,
        None => "attr_"@ + digits_of(a.code as int),
    }
}

/// The property value of an attribute.
pub open spec fn value_of(a: NamedAttribute) -> JsonView {
    match a.value {
        NamedValue::Int(v) => JsonView::Number(digits_of(v as int)),
        NamedValue::Double(Some(n)) => JsonView::Exact(n),
        NamedValue::Double(None) => JsonView::Null,
        NamedValue::Str(s) => JsonView::Text(s@),
    }
}

/// The properties after the first `n` attributes. Of several attributes of one
/// name the last one counts.
pub open spec fn with_attributes(
    props: Seq<(Seq<char>, JsonView)>,
    attrs: Seq<NamedAttribute>,
    n: int,
) -> Seq<(Seq<char>, JsonView)>
    decreases n,
{
    if n <= 0 {
        props
    } else {
        updated(with_attributes(props, attrs, n - 1), key_of(attrs[n - 1]), value_of(attrs[n - 1]))
    }
}

/// Layer and zoom level for the tile maker.
pub open spec fn tile_hints(class: Seq<char>, minzoom: u8) -> JsonView {
    JsonView::Object(
        seq![
            ("layer"@, JsonView::Text(class)),
            ("minzoom"@, JsonView::Number(digits_of(minzoom as int))),
        ],
    )
}

/// The properties of a feature: its class, identifier and primitive, and its
/// attributes.
pub open spec fn properties_of(f: NamedFeature) -> Seq<(Seq<char>, JsonView)> {
    let empty: Seq<(Seq<char>, JsonView)> = Seq::empty();
    let base = updated(
        updated(
            updated(empty, "layer"@, JsonView::Text(class_of(f))),
            "_id"@,
            JsonView::Number(digits_of(f.id as int)),
        ),
        "_primitive"@,
        JsonView::Number(digits_of(f.primitive as int)),
    );
    with_attributes(base, f.attributes@, f.attributes@.len() as int)
}

/// The other members of a feature: the hints for the tile maker, which it looks
/// for beside the properties.
pub open spec fn members_of(f: NamedFeature, minzoom: u8) -> Seq<(Seq<char>, JsonView)> {
    seq![("tippecanoe"@, tile_hints(class_of(f), minzoom))]
}

fn class_text(f: &NamedFeature) -> (t: String)
    ensures
        t@ == class_of(*f),
{
    match &f.acronym {
        Some(t) => t.clone(),
        None => "UNKNOWN".to_owned(),
    }
}

fn key_text(a: &NamedAttribute) -> (t: String)
    ensures
        t@ == key_of(*a),
{
    match &a.acronym {
        Some(t) => t.clone(),
        None => {
            let mut t: String = "attr_".to_owned();
            t.append(decimal_text(a.code as u64).as_str());
            t
        },
    }
}

fn value_json(a: &NamedAttribute) -> (j: Json)
    ensures
        j@ == value_of(*a),
{
    match &a.value {
        NamedValue::Int(v) => Json::uint(*v as u64),
        NamedValue::Double(Some(n)) => Json::Exact(n.clone()),
        NamedValue::Double(None) => Json::Null,
        NamedValue::Str(s) => Json::text(s.as_str()),
    }
}

/// The properties of a feature.
pub fn build_properties(f: &NamedFeature) -> (props: Vec<(String, Json)>)
    ensures
        entry_views(props@) == properties_of(*f),
{
    let class: String = class_text(f);
    let mut props: Vec<(String, Json)> = Vec::new();
    assert(entry_views(props@) =~= Seq::empty());
    set_key(&mut props, "layer", Json::text(class.as_str()));
    set_key(&mut props, "_id", Json::uint(f.id as u64));
    set_key(&mut props, "_primitive", Json::uint(f.primitive as u64));
    let ghost base = entry_views(props@);
    let mut i: usize = 0;
    while i < f.attributes.len()
        invariant
            i <= f.attributes@.len(),
            entry_views(props@) == with_attributes(base, f.attributes@, i as int),
        decreases f.attributes@.len() - i,
    {
        let key: String = key_text(&f.attributes[i]);
        set_key(&mut props, key.as_str(), value_json(&f.attributes[i]));
        i += 1;
    }
    props
}

/// The other members of a feature.
pub fn build_members(f: &NamedFeature, minzoom: u8) -> (members: Vec<(String, Json)>)
    ensures
        entry_views(members@) == members_of(*f, minzoom),
{
    let class: String = class_text(f);
    let hints: Vec<(String, Json)> = vec![
        Json::entry("layer", Json::text(class.as_str())),
        Json::entry("minzoom", Json::uint(minzoom as u64)),
    ];
    let hint: Json = Json::object(hints);
    assert(hint@->Object_0 =~= tile_hints(class@, minzoom)->Object_0);
    let members: Vec<(String, Json)> = vec![Json::entry("tippecanoe", hint)];
    assert(entry_views(members@) =~= members_of(*f, minzoom));
    members
}

// ── Geometry ─────────────────────────────────────────────────────────────────

/// A place as a position.
pub open spec fn pair(p: Position) -> Seq<Real> {
    seq![p.lon, p.lat]
}

/// A list of places as positions.
pub open spec fn pairs(line: Seq<Position>) -> Seq<Seq<Real>> {
    Seq::new(line.len(), |i: int| pair(line[i]))
}

/// Lists of places as positions.
pub open spec fn pair_lists(v: Seq<Vec<Position>>) -> Seq<Seq<Seq<Real>>> {
    Seq::new(v.len(), |i: int| pairs(v[i]@))
}

/// The geometry of a feature other than soundings.
pub open spec fn geometry_of(g: NamedGeometry) -> Option<GeoView> {
    match g {
        NamedGeometry::Empty => None,
        NamedGeometry::Point(p) => Some(GeoView::Point(pair(p))),
        NamedGeometry::Soundings(_) => None,
        NamedGeometry::Line(strokes) => if strokes@.len() == 1 {
            Some(GeoView::LineString(pairs(strokes@[0]@)))
        } else {
            Some(GeoView::MultiLineString(pair_lists(strokes@)))
        },
        NamedGeometry::Area(rings) => if rings@.len() == 0 {
            None
        } else {
            Some(GeoView::Polygon(pair_lists(rings@)))
        },
    }
}

/// The GeoJSON features of a feature. Soundings become one feature each, with
/// the depth in a property, because tiles keep no third coordinate.
pub open spec fn converted(f: NamedFeature, minzoom: u8) -> Seq<GeoFeatureView> {
    let props = properties_of(f);
    let members = members_of(f, minzoom);
    match f.geometry {
        NamedGeometry::Soundings(pts) => Seq::new(
            pts@.len(),
            |i: int|
                GeoFeatureView {
                    geometry: Some(GeoView::Point(pair(pts@[i].0))),
                    properties: updated(props, "VALDCO"@, JsonView::Text(pts@[i].1@)),
                    members,
                },
        ),
        g => seq![GeoFeatureView { geometry: geometry_of(g), properties: props, members }],
    }
}

fn position_of(p: Position) -> (v: Vec<Real>)
    ensures
        v@ == pair(p),
{
    let v: Vec<Real> = vec![p.lon, p.lat];
    assert(v@ =~= pair(p));
    v
}

fn positions_of(line: &Vec<Position>) -> (out: Vec<Vec<Real>>)
    ensures
        lists(out@) == pairs(line@),
{
    let mut out: Vec<Vec<Real>> = Vec::new();
    let mut i: usize = 0;
    while i < line.len()
        invariant
            i <= line@.len(),
            out@.len() == i,
            forall|k: int| 0 <= k < i ==> (#[trigger] out@[k])@ == pair(line@[k]),
        decreases line@.len() - i,
    {
        out.push(position_of(line[i]));
        i += 1;
    }
    assert(lists(out@) =~= pairs(line@));
    out
}

fn position_lists(v: &Vec<Vec<Position>>) -> (out: Vec<Vec<Vec<Real>>>)
    ensures
        nested(out@) == pair_lists(v@),
{
    let mut out: Vec<Vec<Vec<Real>>> = Vec::new();
    let mut i: usize = 0;
    while i < v.len()
        invariant
            i <= v@.len(),
            out@.len() == i,
            forall|k: int| 0 <= k < i ==> lists((#[trigger] out@[k])@) == pairs(v@[k]@),
        decreases v@.len() - i,
    {
        out.push(positions_of(&v[i]));
        i += 1;
    }
    assert(nested(out@) =~= pair_lists(v@));
    out
}

fn plain_geometry(g: &NamedGeometry) -> (r: Option<GeoGeometry>)
    ensures
        (match r {
            Some(g) => Some(geo_view(g)),
            None => None,
        }) == geometry_of(*g),
{
    match g {
        NamedGeometry::Empty => None,
        NamedGeometry::Point(p) => Some(GeoGeometry::Point(position_of(*p))),
        NamedGeometry::Soundings(_) => None,
        NamedGeometry::Line(strokes) => if strokes.len() == 1 {
            Some(GeoGeometry::LineString(positions_of(&strokes[0])))
        } else {
            Some(GeoGeometry::MultiLineString(position_lists(strokes)))
        },
        NamedGeometry::Area(rings) => if rings.len() == 0 {
            None
        } else {
            Some(GeoGeometry::Polygon(position_lists(rings)))
        },
    }
}

/// The GeoJSON features of a feature.
pub fn convert_feature(f: &NamedFeature, minzoom: u8) -> (out: Vec<GeoFeature>)
    ensures
        feature_views(out@) == converted(*f, minzoom),
{
    let mut out: Vec<GeoFeature> = Vec::new();
    match &f.geometry {
        NamedGeometry::Soundings(pts) => {
            let mut i: usize = 0;
            while i < pts.len()
                invariant
                    i <= pts@.len(),
                    f.geometry == NamedGeometry::Soundings(*pts),
                    out@.len() == i,
                    forall|k: int| 0 <= k < i ==> (#[trigger] out@[k])@ == converted(*f, minzoom)[k],
                decreases pts@.len() - i,
            {
                let mut properties: Vec<(String, Json)> = build_properties(f);
                set_key(&mut properties, "VALDCO", Json::text(pts[i].1.as_str()));
                let g: GeoGeometry = GeoGeometry::Point(position_of(pts[i].0));
                let members: Vec<(String, Json)> = build_members(f, minzoom);
                out.push(GeoFeature { geometry: Some(g), properties, members });
                i += 1;
            }
        },
        g => {
            let properties: Vec<(String, Json)> = build_properties(f);
            let members: Vec<(String, Json)> = build_members(f, minzoom);
            out.push(GeoFeature { geometry: plain_geometry(g), properties, members });
        },
    }
    assert(feature_views(out@) =~= converted(*f, minzoom));
    out
}

// ── Cells ────────────────────────────────────────────────────────────────────

/// The features of a class; none where there is no such class.
pub open spec fn class_features(layers: Map<Seq<char>, Seq<GeoFeatureView>>, name: Seq<char>) -> Seq<GeoFeatureView> {
    if layers.contains_key(name) {
        layers[name]
    } else {
        Seq::empty()
    }
}

/// The GeoJSON features of the first `n` features, by class.
pub open spec fn by_class(features: Seq<NamedFeature>, minzoom: u8, n: int) -> Map<Seq<char>, Seq<GeoFeatureView>>
    decreases n,
{
    if n <= 0 {
        Map::empty()
    } else {
        let before = by_class(features, minzoom, n - 1);
        let class = class_of(features[n - 1]);
        let more = converted(features[n - 1], minzoom);
        if more.len() == 0 {
            before
        } else {
            before.insert(class, class_features(before, class) + more)
        }
    }
}

/// The layers are those of `classes`, each name once.
pub open spec fn are_layers(layers: Seq<GeoLayer>, classes: Map<Seq<char>, Seq<GeoFeatureView>>) -> bool {
    &&& forall|i: int, j: int|
        0 <= i < j < layers.len() ==> (#[trigger] layers[i]).name@ != (#[trigger] layers[j]).name@
    &&& forall|i: int|
        0 <= i < layers.len() ==> classes.contains_key((#[trigger] layers[i]).name@) && classes[layers[i].name@]
            == feature_views(layers[i].features@)
    &&& forall|k: Seq<char>| #[trigger]
        classes.contains_key(k) ==> exists|i: int| 0 <= i < layers.len() && (#[trigger] layers[i]).name@ == k
}

fn add_to_layer(layers: &mut Vec<GeoLayer>, class: String, more: Vec<GeoFeature>, classes: Ghost<
    Map<Seq<char>, Seq<GeoFeatureView>>,
>)
    requires
        are_layers(old(layers)@, classes@),
    ensures
        are_layers(
            final(layers)@,
            classes@.insert(class@, class_features(classes@, class@) + feature_views(more@)),
        ),
{
    let ghost start = layers@;
    let ghost name = class@;
    let ghost added = feature_views(more@);
    let ghost want = classes@.insert(name, class_features(classes@, name) + added);
    let mut i: usize = 0;
    while i < layers.len() && !layers[i].name.eq(&class)
        invariant
            i <= layers@.len(),
            layers@ == start,
            name == class@,
            forall|k: int| 0 <= k < i ==> (#[trigger] layers@[k]).name@ != name,
        decreases layers@.len() - i,
    {
        i += 1;
    }
    let mut more: Vec<GeoFeature> = more;
    let known: bool = i < layers.len();
    let mut features: Vec<GeoFeature> = Vec::new();
    if known {
        let layer: GeoLayer = layers.remove(i);
        features = layer.features;
    }
    proof {
        if known {
            assert(start[i as int].name@ == name);
        } else if classes@.contains_key(name) {
            let k = choose|k: int| 0 <= k < start.len() && (#[trigger] start[k]).name@ == name;
            assert(false);
        }
        assert(feature_views(features@) =~= class_features(classes@, name));
    }
    let ghost own = features@;
    let ghost tail = more@;
    features.append(&mut more);
    assert(feature_views(features@) =~= class_features(classes@, name) + added);
    layers.insert(i, GeoLayer { name: class, features });
    proof {
        let done = layers@;
        assert(forall|k: int| 0 <= k < done.len() && k != i ==> done[k] == start[k]);
        assert forall|a: int, b: int| 0 <= a < b < done.len() implies (#[trigger] done[a]).name@ != (
        #[trigger] done[b]).name@ by {
            if a != i {
                assert(done[a] == start[a]);
            }
            if b != i {
                assert(done[b] == start[b]);
            }
            if a != i && b != i {
                assert(start[a].name@ != start[b].name@);
            } else if known {
                assert(start[a].name@ != start[b].name@);
            }
        }
        assert forall|k: int| 0 <= k < done.len() implies want.contains_key((#[trigger] done[k]).name@)
            && want[done[k].name@] == feature_views(done[k].features@) by {
            if k != i {
                assert(done[k] == start[k]);
                assert(classes@.contains_key(start[k].name@));
                if known {
                    if k < i {
                        assert(start[k].name@ != start[i as int].name@);
                    } else {
                        assert(start[i as int].name@ != start[k].name@);
                    }
                }
            }
        }
        assert forall|k: Seq<char>| #[trigger] want.contains_key(k) implies exists|j: int|
            0 <= j < done.len() && (#[trigger] done[j]).name@ == k by {
            if k == name {
                assert(done[i as int].name@ == k);
            } else {
                let j = choose|j: int| 0 <= j < start.len() && (#[trigger] start[j]).name@ == k;
                assert(j != i || !known);
                assert(done[j] == start[j]);
            }
        }
    }
}

/// The features of a cell as GeoJSON, grouped by object class.
pub fn cell_to_geojson(features: &Vec<NamedFeature>, minzoom: u8) -> (layers: Vec<GeoLayer>)
    ensures
        are_layers(layers@, by_class(features@, minzoom, features@.len() as int)),
{
    let mut layers: Vec<GeoLayer> = Vec::new();
    let mut i: usize = 0;
    while i < features.len()
        invariant
            i <= features@.len(),
            are_layers(layers@, by_class(features@, minzoom, i as int)),
        decreases features@.len() - i,
    {
        let more: Vec<GeoFeature> = convert_feature(&features[i], minzoom);
        assert(feature_views(more@).len() == more@.len());
        if more.len() > 0 {
            add_to_layer(
                &mut layers,
                class_text(&features[i]),
                more,
                Ghost(by_class(features@, minzoom, i as int)),
            );
        }
        i += 1;
    }
    layers
}

/// A feature that another chart takes over tells the tile maker its layer and
/// both zoom levels.
pub proof fn hints_hold_both_zoom_levels(f: NamedFeature, minzoom: u8, maxzoom: u8)
    ensures
        with_maxzoom(members_of(f, minzoom), maxzoom) == seq![
            (
                "tippecanoe"@,
                JsonView::Object(
                    seq![
                        ("layer"@, JsonView::Text(class_of(f))),
                        ("minzoom"@, JsonView::Number(digits_of(minzoom as int))),
                        ("maxzoom"@, JsonView::Number(digits_of(maxzoom as int))),
                    ],
                ),
            ),
        ],
{
    let members = members_of(f, minzoom);
    let hints = tile_hints(class_of(f), minzoom)->Object_0;
    let level = JsonView::Number(digits_of(maxzoom as int));
    reveal_strlit("layer");
    reveal_strlit("minzoom");
    reveal_strlit("maxzoom");
    assert("layer"@.len() != "maxzoom"@.len());
    assert("minzoom"@[1] != "maxzoom"@[1]);
    assert(key_at(members, "tippecanoe"@, 0) == 0);
    assert(key_at(hints, "maxzoom"@, 2) == 2);
    assert(key_at(hints, "maxzoom"@, 1) == 2);
    assert(key_at(hints, "maxzoom"@, 0) == 2);
    assert(updated(hints, "maxzoom"@, level) =~= seq![hints[0], hints[1], ("maxzoom"@, level)]);
    assert(with_maxzoom(members, maxzoom) =~= seq![
        ("tippecanoe"@, JsonView::Object(seq![hints[0], hints[1], ("maxzoom"@, level)])),
    ]);
}

// ── Laws ─────────────────────────────────────────────────────────────────────

/// A JSON value says what an attribute says.
pub open spec fn says(j: JsonView, v: NamedValue) -> bool {
    match v {
        NamedValue::Int(n) => j matches JsonView::Number(t) && spelled(t) == n,
        NamedValue::Double(Some(n)) => j == JsonView::Exact(n),
        NamedValue::Double(None) => j is Null,
        NamedValue::Str(s) => j == JsonView::Text(s@),
    }
}

proof fn lemma_value_says(a: NamedAttribute)
    ensures
        says(value_of(a), a.value),
{
    if let NamedValue::Int(n) = a.value {
        decimal_forms_spell_their_number(n as int);
    }
}

proof fn lemma_others_stay(props: Seq<(Seq<char>, JsonView)>, attrs: Seq<NamedAttribute>, from: int, n: int, name: Seq<char>)
    requires
        0 <= from <= n <= attrs.len(),
        forall|j: int| from <= j < n ==> key_of(#[trigger] attrs[j]) != name,
    ensures
        lookup(with_attributes(props, attrs, n), name) == lookup(with_attributes(props, attrs, from), name),
    decreases n - from,
{
    if from < n {
        lemma_others_stay(props, attrs, from, n - 1, name);
        assert(key_of(attrs[n - 1]) != name);
        set_key_is_seen(with_attributes(props, attrs, n - 1), key_of(attrs[n - 1]), value_of(attrs[n - 1]), name);
    }
}

/// A property has the name of an attribute and says what the last attribute of that
/// name says.
pub proof fn the_last_attribute_of_a_name_counts(f: NamedFeature, i: int, name: Seq<char>)
    requires
        0 <= i < f.attributes@.len(),
        forall|j: int| 0 <= j < f.attributes@.len() ==> (#[trigger] f.attributes@[j]).acronym is Some,
        f.attributes@[i].acronym->0@ == name,
        forall|j: int| i < j < f.attributes@.len() ==> (#[trigger] f.attributes@[j]).acronym->0@ != name,
    ensures
        lookup(properties_of(f), name) matches Some(j) && says(j, f.attributes@[i].value),
{
    let empty: Seq<(Seq<char>, JsonView)> = Seq::empty();
    let base = updated(
        updated(
            updated(empty, "layer"@, JsonView::Text(class_of(f))),
            "_id"@,
            JsonView::Number(digits_of(f.id as int)),
        ),
        "_primitive"@,
        JsonView::Number(digits_of(f.primitive as int)),
    );
    let attrs = f.attributes@;
    lemma_others_stay(base, attrs, i + 1, attrs.len() as int, name);
    set_key_is_seen(with_attributes(base, attrs, i), key_of(attrs[i]), value_of(attrs[i]), name);
    lemma_value_says(attrs[i]);
}

/// An attribute without an acronym is named by its code behind `attr_`.
pub proof fn nameless_attributes_are_named_by_code(a: NamedAttribute)
    requires
        a.acronym is None,
    ensures
        key_of(a).len() > 5,
        key_of(a).take(5) == seq!['a', 't', 't', 'r', '_'],
        spelled(key_of(a).skip(5)) == a.code,
{
    reveal_strlit("attr_");
    decimal_forms_spell_their_number(a.code as int);
    assert(key_of(a).skip(5) =~= digits_of(a.code as int));
    assert(key_of(a).take(5) =~= "attr_"@);
}

/// A feature without attributes of these names has its class, its identifier and its
/// primitive as properties.
pub proof fn every_feature_tells_its_class(f: NamedFeature)
    requires
        forall|j: int|
            0 <= j < f.attributes@.len() ==> key_of(#[trigger] f.attributes@[j]) != "layer"@ && key_of(
                f.attributes@[j],
            ) != "_id"@ && key_of(f.attributes@[j]) != "_primitive"@,
    ensures
        lookup(properties_of(f), "layer"@) == Some(
            JsonView::Text(
                match f.acronym {
                    Some(t) => t@,
                    None => "UNKNOWN"@,
                },
            ),
        ),
        lookup(properties_of(f), "_id"@) matches Some(JsonView::Number(t)) && spelled(t) == f.id,
        lookup(properties_of(f), "_primitive"@) matches Some(JsonView::Number(t)) && spelled(t) == f.primitive,
{
    reveal_strlit("layer");
    reveal_strlit("_id");
    reveal_strlit("_primitive");
    assert("layer"@.len() == 5 && "_id"@.len() == 3 && "_primitive"@.len() == 10);
    let empty: Seq<(Seq<char>, JsonView)> = Seq::empty();
    let class = JsonView::Text(class_of(f));
    let id = JsonView::Number(digits_of(f.id as int));
    let primitive = JsonView::Number(digits_of(f.primitive as int));
    let one = updated(empty, "layer"@, class);
    let two = updated(one, "_id"@, id);
    let three = updated(two, "_primitive"@, primitive);
    set_key_is_seen(empty, "layer"@, class, "layer"@);
    set_key_is_seen(one, "_id"@, id, "layer"@);
    set_key_is_seen(two, "_primitive"@, primitive, "layer"@);
    set_key_is_seen(two, "_primitive"@, primitive, "_id"@);
    let attrs = f.attributes@;
    lemma_others_stay(three, attrs, 0, attrs.len() as int, "layer"@);
    lemma_others_stay(three, attrs, 0, attrs.len() as int, "_id"@);
    lemma_others_stay(three, attrs, 0, attrs.len() as int, "_primitive"@);
    decimal_forms_spell_their_number(f.id as int);
    decimal_forms_spell_their_number(f.primitive as int);
}

/// Each sounding becomes a point at its place, in its order, with its depth in
/// `VALDCO` and the other properties of the feature.
pub proof fn each_sounding_becomes_a_point(f: NamedFeature, pts: Vec<(Position, String)>, minzoom: u8, i: int, name: Seq<char>)
    requires
        f.geometry == NamedGeometry::Soundings(pts),
        0 <= i < pts@.len(),
        name != "VALDCO"@,
    ensures
        converted(f, minzoom).len() == pts@.len(),
        converted(f, minzoom)[i].geometry matches Some(GeoView::Point(p)) && p.len() == 2 && p[0] == pts@[i].0.lon
            && p[1] == pts@[i].0.lat,
        lookup(converted(f, minzoom)[i].properties, "VALDCO"@) == Some(JsonView::Text(pts@[i].1@)),
        lookup(converted(f, minzoom)[i].properties, name) == lookup(properties_of(f), name),
{
    set_key_is_seen(properties_of(f), "VALDCO"@, JsonView::Text(pts@[i].1@), name);
}

/// A feature other than soundings becomes one feature with its properties. A point
/// keeps its place, one stroke becomes a line, several become lines, and rings become
/// a polygon; places are written longitude first, in their order.
pub proof fn places_are_written_longitude_first(f: NamedFeature, minzoom: u8, i: int, k: int)
    requires
        !(f.geometry is Soundings),
    ensures
        converted(f, minzoom).len() == 1,
        converted(f, minzoom)[0].properties == properties_of(f),
        ({
            let g = converted(f, minzoom)[0].geometry;
            match f.geometry {
                NamedGeometry::Empty => g is None,
                NamedGeometry::Soundings(_) => true,
                NamedGeometry::Point(p) => g matches Some(GeoView::Point(q)) && q.len() == 2 && q[0] == p.lon && q[1]
                    == p.lat,
                NamedGeometry::Line(strokes) => if strokes@.len() == 1 {
                    g matches Some(GeoView::LineString(l)) && l.len() == strokes@[0]@.len() && (0 <= k < l.len()
                        ==> l[k].len() == 2 && l[k][0] == strokes@[0]@[k].lon && l[k][1] == strokes@[0]@[k].lat)
                } else {
                    g matches Some(GeoView::MultiLineString(l)) && l.len() == strokes@.len() && (0 <= i < l.len()
                        ==> l[i].len() == strokes@[i]@.len() && (0 <= k < l[i].len() ==> l[i][k].len() == 2 && l[i][k][0]
                        == strokes@[i]@[k].lon && l[i][k][1] == strokes@[i]@[k].lat))
                },
                NamedGeometry::Area(rings) => if rings@.len() == 0 {
                    g is None
                } else {
                    g matches Some(GeoView::Polygon(l)) && l.len() == rings@.len() && (0 <= i < l.len() ==> l[i].len()
                        == rings@[i]@.len() && (0 <= k < l[i].len() ==> l[i][k].len() == 2 && l[i][k][0]
                        == rings@[i]@[k].lon && l[i][k][1] == rings@[i]@[k].lat))
                },
            }
        }),
{
}

/// The hints for the tile maker name the class and the zoom level of the feature.
pub proof fn hints_name_class_and_level(f: NamedFeature, minzoom: u8)
    ensures
        members_of(f, minzoom).len() == 1,
        members_of(f, minzoom)[0].0 == "tippecanoe"@,
        members_of(f, minzoom)[0].1 matches JsonView::Object(hints) && hints.len() == 2 && lookup(hints, "layer"@)
            == Some(
            JsonView::Text(
                match f.acronym {
                    Some(t) => t@,
                    None => "UNKNOWN"@,
                },
            ),
        ) && (lookup(hints, "minzoom"@) matches Some(JsonView::Number(t)) && spelled(t) == minzoom),
{
    reveal_strlit("layer");
    reveal_strlit("minzoom");
    assert("layer"@.len() == 5 && "minzoom"@.len() == 7);
    let hints = tile_hints(class_of(f), minzoom)->Object_0;
    lemma_key_at(hints, "layer"@, 0);
    lemma_key_at(hints, "minzoom"@, 0);
    assert(hints[0].0 == "layer"@ && hints[1].0 == "minzoom"@);
    decimal_forms_spell_their_number(minzoom as int);
}

proof fn lemma_class_grows(features: Seq<NamedFeature>, minzoom: u8, n: int, class: Seq<char>)
    requires
        0 <= n < features.len(),
    ensures
        class_features(by_class(features, minzoom, n + 1), class) == class_features(
            by_class(features, minzoom, n),
            class,
        ) + (if class_of(features[n]) == class {
            converted(features[n], minzoom)
        } else {
            Seq::empty()
        }),
{
    let before = class_features(by_class(features, minzoom, n), class);
    let more = converted(features[n], minzoom);
    if class_of(features[n]) != class || more.len() == 0 {
        assert(before + Seq::<GeoFeatureView>::empty() =~= before);
        assert(before + more =~= before || more.len() > 0);
    }
}

proof fn lemma_class_prefix(features: Seq<NamedFeature>, minzoom: u8, n: int, m: int, class: Seq<char>)
    requires
        0 <= n <= m <= features.len(),
    ensures
        class_features(by_class(features, minzoom, n), class).is_prefix_of(
            class_features(by_class(features, minzoom, m), class),
        ),
    decreases m - n,
{
    let a = class_features(by_class(features, minzoom, n), class);
    let c = class_features(by_class(features, minzoom, m), class);
    if n < m {
        lemma_class_prefix(features, minzoom, n, m - 1, class);
        lemma_class_grows(features, minzoom, m - 1, class);
        let b = class_features(by_class(features, minzoom, m - 1), class);
        assert(b =~= c.subrange(0, b.len() as int));
        assert(a =~= c.subrange(0, a.len() as int));
    } else {
        assert(a =~= a.subrange(0, a.len() as int));
    }
}

/// What a feature becomes goes to the layer of its class, `UNKNOWN` where it has no
/// acronym, whole and behind what the earlier features of that class have become; a
/// layer gets nothing else.
pub proof fn features_go_to_their_class(
    features: Seq<NamedFeature>,
    minzoom: u8,
    i: int,
    k: int,
    class: Seq<char>,
    other: Seq<char>,
)
    requires
        0 <= i < features.len(),
        0 <= k < converted(features[i], minzoom).len(),
        class == (match features[i].acronym {
            Some(t) => t@,
            None => "UNKNOWN"@,
        }),
        other != class,
    ensures
        ({
            let all = by_class(features, minzoom, features.len() as int);
            let before = by_class(features, minzoom, i);
            let after = by_class(features, minzoom, i + 1);
            let start = class_features(before, class).len();
            &&& start + k < class_features(all, class).len()
            &&& class_features(all, class)[start + k] == converted(features[i], minzoom)[k]
            &&& class_features(after, class).len() == start + converted(features[i], minzoom).len()
            &&& class_features(after, other) == class_features(before, other)
        }),
{
    let n = features.len() as int;
    lemma_class_grows(features, minzoom, i, class);
    lemma_class_grows(features, minzoom, i, other);
    lemma_class_prefix(features, minzoom, i + 1, n, class);
    let after = class_features(by_class(features, minzoom, i + 1), class);
    let all = class_features(by_class(features, minzoom, n), class);
    let start = class_features(by_class(features, minzoom, i), class).len();
    assert(after[start + k] == all[start + k]);
    let rest = class_features(by_class(features, minzoom, i), other);
    assert(rest + Seq::<GeoFeatureView>::empty() =~= rest);
}

} // verus!
