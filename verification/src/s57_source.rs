//! What a vector cell has to show in a tile.
use std::collections::{HashMap, HashSet};
use vstd::prelude::*;
use vstd::std_specs::hash::*;
use crate::accumulator::LayerContent;
use crate::layer::{prop_views, Pixel, PixelShape, PropValue, PropView, RawFeature};
use crate::lights::{
    as_property, display_colour, first_code, flood_or_subsidiary, is_flood_or_subsidiary,
    is_lateral_or_cardinal_buoy, lateral_or_cardinal, light_colour_hex, light_of, read_light, to_property,
    Light, LightView,
};
use crate::s57::{Feature, Geometry, Polygon, Sounding};
use crate::scalar::{Position, Real};
use crate::senc::{views, AttrValue, AttrValueView, Attribute, AttributeView};

verus! {

broadcast use group_hash_axioms;

/// Acronyms of object classes and attributes by their codes.
#[derive(Debug)]
pub struct Catalogue {
    pub objects: HashMap<u16, String>,
    pub attributes: HashMap<u16, String>,
}

/// The geometry of a tile: which part of the earth it shows, and where.
pub trait TileCanvas {
    /// Whether a place lies in the tile.
    fn meets_point(&self, p: Position) -> bool;

    /// Whether a line has a point in the tile.
    fn meets_line(&self, line: &Vec<Position>) -> bool;

    /// Whether an area has a point in the tile.
    fn meets_area(&self, area: &Polygon<Position>) -> bool;

    /// Whether a light of a given range, if known, can reach into the tile.
    fn meets_light(&self, p: Position, range: Option<Real>) -> bool;

    /// The pixel of a place.
    fn pixel(&self, p: Position) -> Pixel;

    /// The parts of a line within the tile, in pixels.
    fn clip_line(&self, line: &Vec<Position>) -> Vec<Vec<Pixel>>;

    /// The parts of an area within the tile, in pixels.
    fn clip_area(&self, area: &Polygon<Position>) -> Vec<Polygon<Pixel>>;

    /// The cell of a fine grid that a place falls into.
    fn grid_cell(&self, p: Position) -> (i64, i64);

    /// The opposite bearing.
    fn reciprocal(&self, bearing: Real) -> Real;

    /// The parts within the tile of the arc of a light: from one bearing to the
    /// other, or all round.
    fn arc(&self, p: Position, sector: Option<(Real, Real)>, range: Option<Real>) -> Vec<Vec<Pixel>>;

    /// The parts within the tile of the line from a light along a bearing.
    fn radial(&self, p: Position, bearing: Real, range: Option<Real>) -> Vec<Vec<Pixel>>;
}

// ── Properties ───────────────────────────────────────────────────────────────

/// The properties of the first `n` attributes: those whose code has an acronym.
pub open spec fn props_of(attrs: Seq<AttributeView>, names: Map<u16, String>, n: int) -> Seq<(Seq<char>, PropView)>
    decreases n,
{
    if n <= 0 {
        Seq::empty()
    } else if names.contains_key(attrs[n - 1].code) {
        props_of(attrs, names, n - 1).push(
            (names[attrs[n - 1].code]@, as_property(attrs[n - 1].value)),
        )
    } else {
        props_of(attrs, names, n - 1)
    }
}

/// The properties of a feature.
pub open spec fn feature_props(attrs: Seq<AttributeView>, names: Map<u16, String>) -> Seq<(Seq<char>, PropView)> {
    props_of(attrs, names, attrs.len() as int)
}

/// Names attributes by their acronyms; those without one are left out.
pub fn build_props(attrs: &Vec<Attribute>, catalogue: &Catalogue) -> (props: Vec<(String, PropValue)>)
    ensures
        prop_views(props@) == feature_props(views(attrs@), catalogue.attributes@),
{
    let mut out: Vec<(String, PropValue)> = Vec::new();
    let mut i: usize = 0;
    assert(prop_views(out@) =~= props_of(views(attrs@), catalogue.attributes@, 0));
    while i < attrs.len()
        invariant
            i <= attrs@.len(),
            prop_views(out@) == props_of(views(attrs@), catalogue.attributes@, i as int),
        decreases attrs@.len() - i,
    {
        assert(views(attrs@)[i as int] == attrs@[i as int]@);
        let code: u16 = attrs[i].code;
        if let Some(name) = catalogue.attributes.get(&code) {
            let ghost before = out@;
            let value: PropValue = to_property(&attrs[i].value);
            out.push((name.clone(), value));
            assert(prop_views(out@) =~= prop_views(before).push((name@, value@)));
        }
        i += 1;
    }
    out
}

fn copy_props(props: &Vec<(String, PropValue)>) -> (out: Vec<(String, PropValue)>)
    ensures
        prop_views(out@) == prop_views(props@),
{
    let mut out: Vec<(String, PropValue)> = Vec::new();
    let mut i: usize = 0;
    while i < props.len()
        invariant
            i <= props@.len(),
            prop_views(out@) == prop_views(props@).take(i as int),
        decreases props@.len() - i,
    {
        let ghost before = out@;
        let name: String = props[i].0.clone();
        let value: PropValue = props[i].1.copy();
        out.push((name, value));
        assert(prop_views(out@) =~= prop_views(before).push((name@, value@)));
        assert(prop_views(props@).take(i + 1) =~= prop_views(props@).take(i as int).push((name@, value@)));
        i += 1;
    }
    assert(prop_views(props@).take(i as int) =~= prop_views(props@));
    out
}

// ── Scale ────────────────────────────────────────────────────────────────────

/// Index of the first attribute of a code at or after `from`, or the number of
/// attributes.
pub open spec fn attr_at(attrs: Seq<AttributeView>, code: u16, from: int) -> int
    decreases attrs.len() - from,
{
    if from >= attrs.len() || attrs[from].code == code {
        from
    } else {
        attr_at(attrs, code, from + 1)
    }
}

/// The value of the first attribute of a code.
pub open spec fn first_value(attrs: Seq<AttributeView>, code: u16) -> Option<AttrValueView> {
    let i = attr_at(attrs, code, 0);
    if i < attrs.len() {
        Some(attrs[i].value)
    } else {
        None
    }
}

/// The feature is shown at a scale: its smallest scale (attribute 133), where it
/// has one, is not larger than the scale of the tile.
pub open spec fn shown_at(attrs: Seq<AttributeView>, scale: u32) -> bool {
    match first_value(attrs, 133) {
        Some(AttrValueView::Int(scamin)) => scamin >= scale,
        _ => true,
    }
}

fn find_attr(attrs: &Vec<Attribute>, code: u16) -> (i: usize)
    ensures
        i == attr_at(views(attrs@), code, 0),
        i <= attrs@.len(),
{
    let mut i: usize = 0;
    while i < attrs.len() && attrs[i].code != code
        invariant
            i <= attrs@.len(),
            attr_at(views(attrs@), code, 0) == attr_at(views(attrs@), code, i as int),
        decreases attrs@.len() - i,
    {
        i += 1;
    }
    i
}

/// Whether a feature is shown at a scale, given by its denominator.
pub fn is_shown(attrs: &Vec<Attribute>, scale: u32) -> (r: bool)
    ensures
        r == shown_at(views(attrs@), scale),
{
    let i: usize = find_attr(attrs, 133);
    if i < attrs.len() {
        assert(views(attrs@)[i as int] == attrs@[i as int]@);
        match &attrs[i].value {
            AttrValue::Int(scamin) => *scamin >= scale,
            _ => true,
        }
    } else {
        true
    }
}

/// The nominal range in the first attribute 178, where that is a number.
pub open spec fn first_range(attrs: Seq<AttributeView>) -> Option<Real> {
    match first_value(attrs, 178) {
        Some(AttrValueView::Double(v)) => Some(v),
        _ => None,
    }
}

fn read_range(attrs: &Vec<Attribute>) -> (r: Option<Real>)
    ensures
        r == first_range(views(attrs@)),
{
    let i: usize = find_attr(attrs, 178);
    if i < attrs.len() {
        assert(views(attrs@)[i as int] == attrs@[i as int]@);
        match &attrs[i].value {
            AttrValue::Double(v) => Some(*v),
            _ => None,
        }
    } else {
        None
    }
}

// ── Geometry ─────────────────────────────────────────────────────────────────

/// `hit` says whether one of the soundings lies in the tile; they are looked at
/// in their order up to the first one that does.
pub open spec fn soundings_meet<C: TileCanvas>(canvas: C, pts: Seq<Sounding>, hit: bool) -> bool {
    exists|n: int|
        0 <= n <= pts.len() && (hit <==> n < pts.len()) && (hit ==> call_ensures(
            C::meets_point,
            (&canvas, pts[n].at),
            true,
        )) && #[trigger] first_apart(canvas, pts, n)
}

/// The first `n` soundings lie outside the tile.
pub open spec fn first_apart<C: TileCanvas>(canvas: C, pts: Seq<Sounding>, n: int) -> bool {
    forall|i: int| 0 <= i < n ==> call_ensures(C::meets_point, (&canvas, (#[trigger] pts[i]).at), false)
}

/// `hit` says whether a geometry has a point in the tile.
pub open spec fn geometry_meets<C: TileCanvas>(canvas: C, g: Geometry, hit: bool) -> bool {
    match g {
        Geometry::Empty => !hit,
        Geometry::Point(p) => call_ensures(C::meets_point, (&canvas, p), hit),
        Geometry::Soundings(pts) => soundings_meet(canvas, pts@, hit),
        Geometry::Line(line) => call_ensures(C::meets_line, (&canvas, &line), hit),
        Geometry::Area(area) => call_ensures(C::meets_area, (&canvas, &area), hit),
    }
}

fn any_meets<C: TileCanvas>(canvas: &C, pts: &Vec<Sounding>) -> (hit: bool)
    ensures
        soundings_meet(*canvas, pts@, hit),
{
    let mut i: usize = 0;
    while i < pts.len()
        invariant
            i <= pts@.len(),
            first_apart(*canvas, pts@, i as int),
        decreases pts@.len() - i,
    {
        let at: Position = pts[i].at;
        if canvas.meets_point(at) {
            assert(call_ensures(C::meets_point, (canvas, pts@[i as int].at), true));
            assert(first_apart(*canvas, pts@, i as int));
            return true;
        }
        i += 1;
    }
    false
}

/// Whether a feature has a point in the tile.
pub fn feat_intersects<C: TileCanvas>(feat: &Feature, canvas: &C) -> (hit: bool)
    ensures
        geometry_meets(*canvas, feat.geometry, hit),
{
    match &feat.geometry {
        Geometry::Empty => false,
        Geometry::Point(p) => canvas.meets_point(*p),
        Geometry::Soundings(pts) => any_meets(canvas, pts),
        Geometry::Line(line) => canvas.meets_line(line),
        Geometry::Area(area) => canvas.meets_area(area),
    }
}

/// A feature at the pixel of a place.
pub open spec fn point_row<C: TileCanvas>(
    canvas: C,
    row: RawFeature,
    p: Position,
    props: Seq<(Seq<char>, PropView)>,
) -> bool {
    &&& row.shape matches PixelShape::Point(px) && call_ensures(C::pixel, (&canvas, p), px)
    &&& prop_views(row.props@) == props
}

/// The first `n` soundings in the tile, in their order, each with its depth;
/// `hits` says which of them lie in the tile.
pub open spec fn sounding_rows<C: TileCanvas>(
    canvas: C,
    pts: Seq<Sounding>,
    props: Seq<(Seq<char>, PropView)>,
    hits: Seq<bool>,
    rows: Seq<RawFeature>,
    n: int,
) -> bool
    decreases n,
{
    if n <= 0 {
        rows.len() == 0
    } else {
        &&& call_ensures(C::meets_point, (&canvas, pts[n - 1].at), hits[n - 1])
        &&& if hits[n - 1] {
            &&& rows.len() > 0
            &&& point_row(
                canvas,
                rows.last(),
                pts[n - 1].at,
                props.push(("VALDCO"@, PropView::F64(Some(pts[n - 1].depth)))),
            )
            &&& sounding_rows(canvas, pts, props, hits, rows.drop_last(), n - 1)
        } else {
            sounding_rows(canvas, pts, props, hits, rows, n - 1)
        }
    }
}

/// No stroke has a point.
pub open spec fn no_strokes(strokes: Seq<Vec<Pixel>>) -> bool {
    forall|i: int| 0 <= i < strokes.len() ==> (#[trigger] strokes[i])@.len() == 0
}

/// No polygon has a point on its exterior.
pub open spec fn no_polygons(polygons: Seq<Polygon<Pixel>>) -> bool {
    forall|i: int| 0 <= i < polygons.len() ==> (#[trigger] polygons[i]).exterior@.len() == 0
}

/// The strokes of a line within the tile make one feature, if there are any.
pub open spec fn line_rows<C: TileCanvas>(
    canvas: C,
    stroke: Vec<Position>,
    props: Seq<(Seq<char>, PropView)>,
    rows: Seq<RawFeature>,
) -> bool {
    if stroke@.len() == 0 {
        rows.len() == 0
    } else {
        exists|clipped: Vec<Vec<Pixel>>|
            #![trigger call_ensures(C::clip_line, (&canvas, &stroke), clipped)]
            call_ensures(C::clip_line, (&canvas, &stroke), clipped) && if no_strokes(clipped@) {
                rows.len() == 0
            } else {
                rows.len() == 1 && rows[0].shape == PixelShape::MultiLine(clipped) && prop_views(rows[0].props@)
                    == props
            }
    }
}

/// The parts of an area within the tile make one feature, if there are any.
pub open spec fn area_rows<C: TileCanvas>(
    canvas: C,
    area: Polygon<Position>,
    props: Seq<(Seq<char>, PropView)>,
    rows: Seq<RawFeature>,
) -> bool {
    if area.exterior@.len() == 0 {
        rows.len() == 0
    } else {
        exists|clipped: Vec<Polygon<Pixel>>|
            #![trigger call_ensures(C::clip_area, (&canvas, &area), clipped)]
            call_ensures(C::clip_area, (&canvas, &area), clipped) && if no_polygons(clipped@) {
                rows.len() == 0
            } else {
                rows.len() == 1 && rows[0].shape == PixelShape::MultiPolygon(clipped) && prop_views(
                    rows[0].props@,
                ) == props
            }
    }
}

/// `rows` are what a feature shows in the tile.
pub open spec fn rows_of<C: TileCanvas>(
    canvas: C,
    f: Feature,
    names: Map<u16, String>,
    scale: u32,
    rows: Seq<RawFeature>,
) -> bool {
    let props = feature_props(f.attribute_views(), names);
    if !shown_at(f.attribute_views(), scale) {
        rows.len() == 0
    } else {
        match f.geometry {
            Geometry::Empty => rows.len() == 0,
            Geometry::Point(p) => rows.len() == 1 && point_row(canvas, rows[0], p, props),
            Geometry::Soundings(pts) => exists|hits: Seq<bool>|
                hits.len() == pts@.len() && #[trigger] sounding_rows(
                    canvas,
                    pts@,
                    props,
                    hits,
                    rows,
                    pts@.len() as int,
                ),
            Geometry::Line(stroke) => line_rows(canvas, stroke, props, rows),
            Geometry::Area(area) => area_rows(canvas, area, props, rows),
        }
    }
}

fn all_strokes_empty(strokes: &Vec<Vec<Pixel>>) -> (r: bool)
    ensures
        r == no_strokes(strokes@),
{
    let mut i: usize = 0;
    while i < strokes.len()
        invariant
            i <= strokes@.len(),
            forall|k: int| 0 <= k < i ==> (#[trigger] strokes@[k])@.len() == 0,
        decreases strokes@.len() - i,
    {
        if strokes[i].len() > 0 {
            assert(strokes@[i as int]@.len() > 0);
            return false;
        }
        i += 1;
    }
    true
}

fn all_polygons_empty(polygons: &Vec<Polygon<Pixel>>) -> (r: bool)
    ensures
        r == no_polygons(polygons@),
{
    let mut i: usize = 0;
    while i < polygons.len()
        invariant
            i <= polygons@.len(),
            forall|k: int| 0 <= k < i ==> (#[trigger] polygons@[k]).exterior@.len() == 0,
        decreases polygons@.len() - i,
    {
        if polygons[i].exterior.len() > 0 {
            assert(polygons@[i as int].exterior@.len() > 0);
            return false;
        }
        i += 1;
    }
    true
}

proof fn lemma_sounding_prefix<C: TileCanvas>(
    canvas: C,
    pts: Seq<Sounding>,
    props: Seq<(Seq<char>, PropView)>,
    a: Seq<bool>,
    b: Seq<bool>,
    rows: Seq<RawFeature>,
    n: int,
)
    requires
        0 <= n <= a.len(),
        n <= b.len(),
        forall|k: int| 0 <= k < n ==> a[k] == b[k],
        sounding_rows(canvas, pts, props, a, rows, n),
    ensures
        sounding_rows(canvas, pts, props, b, rows, n),
    decreases n,
{
    if n > 0 {
        if a[n - 1] {
            lemma_sounding_prefix(canvas, pts, props, a, b, rows.drop_last(), n - 1);
        } else {
            lemma_sounding_prefix(canvas, pts, props, a, b, rows, n - 1);
        }
    }
}

fn sounding_features<C: TileCanvas>(
    canvas: &C,
    pts: &Vec<Sounding>,
    props: &Vec<(String, PropValue)>,
) -> (rows: Vec<RawFeature>)
    ensures
        exists|hits: Seq<bool>|
            hits.len() == pts@.len() && #[trigger] sounding_rows(
                *canvas,
                pts@,
                prop_views(props@),
                hits,
                rows@,
                pts@.len() as int,
            ),
{
    let mut rows: Vec<RawFeature> = Vec::new();
    let ghost mut hits: Seq<bool> = Seq::empty();
    let mut i: usize = 0;
    while i < pts.len()
        invariant
            i <= pts@.len(),
            hits.len() == i,
            sounding_rows(*canvas, pts@, prop_views(props@), hits, rows@, i as int),
        decreases pts@.len() - i,
    {
        let s: Sounding = pts[i];
        let hit: bool = canvas.meets_point(s.at);
        let ghost more = hits.push(hit);
        proof {
            lemma_sounding_prefix(*canvas, pts@, prop_views(props@), hits, more, rows@, i as int);
        }
        if hit {
            let px: Pixel = canvas.pixel(s.at);
            let mut own: Vec<(String, PropValue)> = copy_props(props);
            let ghost shared = own@;
            own.push(("VALDCO".to_owned(), PropValue::F64(Some(s.depth))));
            assert(prop_views(own@) =~= prop_views(props@).push(("VALDCO"@, PropView::F64(Some(s.depth)))));
            let ghost before = rows@;
            rows.push(RawFeature { shape: PixelShape::Point(px), props: own });
            assert(rows@.drop_last() =~= before);
        }
        proof {
            hits = more;
        }
        i += 1;
    }
    rows
}

/// What a feature shows in the tile: clipped to it, with its named attributes.
/// Soundings become one feature each, with the depth in a property.
pub fn push_features<C: TileCanvas>(
    feat: &Feature,
    canvas: &C,
    catalogue: &Catalogue,
    scale: u32,
) -> (rows: Vec<RawFeature>)
    ensures
        rows_of(*canvas, *feat, catalogue.attributes@, scale, rows@),
{
    let mut rows: Vec<RawFeature> = Vec::new();
    if !is_shown(&feat.attributes, scale) {
        return rows;
    }
    let props: Vec<(String, PropValue)> = build_props(&feat.attributes, catalogue);
    match &feat.geometry {
        Geometry::Empty => {},
        Geometry::Point(p) => {
            let px: Pixel = canvas.pixel(*p);
            rows.push(RawFeature { shape: PixelShape::Point(px), props });
        },
        Geometry::Soundings(pts) => {
            return sounding_features(canvas, pts, &props);
        },
        Geometry::Line(stroke) => {
            if stroke.len() > 0 {
                let clipped: Vec<Vec<Pixel>> = canvas.clip_line(stroke);
                if !all_strokes_empty(&clipped) {
                    rows.push(RawFeature { shape: PixelShape::MultiLine(clipped), props });
                }
            }
        },
        Geometry::Area(area) => {
            if area.exterior.len() > 0 {
                let clipped: Vec<Polygon<Pixel>> = canvas.clip_area(area);
                if !all_polygons_empty(&clipped) {
                    rows.push(RawFeature { shape: PixelShape::MultiPolygon(clipped), props });
                }
            }
        },
    }
    rows
}

// ── Lights ───────────────────────────────────────────────────────────────────

/// The category of a light as a property, where it is known.
pub open spec fn category_props(catlit: Option<PropView>) -> Seq<(Seq<char>, PropView)> {
    match catlit {
        Some(v) => seq![("CATLIT"@, v)],
        None => Seq::empty(),
    }
}

/// The properties of a line of a light sector.
pub open spec fn sector_props(kind: Seq<char>, hex: Seq<char>, catlit: Option<PropView>) -> Seq<(Seq<char>, PropView)> {
    seq![("kind"@, PropView::Str(Some(kind))), ("color"@, PropView::Str(Some(hex)))] + category_props(catlit)
}

/// `rows` are the strokes, each with the properties of a sector line.
pub open spec fn stroke_rows(
    strokes: Seq<Vec<Pixel>>,
    props: Seq<(Seq<char>, PropView)>,
    rows: Seq<RawFeature>,
) -> bool {
    rows.len() == strokes.len() && forall|i: int|
        0 <= i < strokes.len() ==> (#[trigger] rows[i]).shape == PixelShape::Line(strokes[i]) && prop_views(
            rows[i].props@,
        ) == props
}

/// `out` is the opposite of a bearing, where there is one.
pub open spec fn flipped<C: TileCanvas>(canvas: C, bearing: Option<Real>, out: Option<Real>) -> bool {
    match bearing {
        Some(b) => out matches Some(x) && call_ensures(C::reciprocal, (&canvas, b), x),
        None => out is None,
    }
}

/// There are two limits, and they differ.
pub open spec fn is_sector(s1: Option<Real>, s2: Option<Real>) -> bool {
    s1 matches Some(a) && s2 matches Some(b) && !a.equals(b)
}

/// The rows for the line of a bearing.
pub open spec fn radial_rows<C: TileCanvas>(
    canvas: C,
    p: Position,
    bearing: Real,
    light: LightView,
    rows: Seq<RawFeature>,
) -> bool {
    exists|strokes: Vec<Vec<Pixel>>| #[trigger]
        call_ensures(C::radial, (&canvas, p, bearing, light.valnmr), strokes) && stroke_rows(
            strokes@,
            sector_props("radial"@, display_colour(first_code(light.colour)), light.catlit),
            rows,
        )
}

/// The rows for the arc of a light.
pub open spec fn arc_rows<C: TileCanvas>(
    canvas: C,
    p: Position,
    sector: Option<(Real, Real)>,
    light: LightView,
    rows: Seq<RawFeature>,
) -> bool {
    exists|strokes: Vec<Vec<Pixel>>| #[trigger]
        call_ensures(C::arc, (&canvas, p, sector, light.valnmr), strokes) && stroke_rows(
            strokes@,
            sector_props("arc"@, display_colour(first_code(light.colour)), light.catlit),
            rows,
        )
}

/// The flare of a buoy's light: one point in the tile, none for flood lights and
/// subsidiary lights.
pub open spec fn flare_rows<C: TileCanvas>(canvas: C, p: Position, light: LightView, rows: Seq<RawFeature>) -> bool {
    if flood_or_subsidiary(light.catlit) {
        rows.len() == 0
    } else {
        exists|hit: bool| #[trigger]
            call_ensures(C::meets_point, (&canvas, p), hit) && if hit {
                rows.len() == 1 && point_row(
                    canvas,
                    rows[0],
                    p,
                    seq![("COLOUR"@, PropView::Str(Some(light.colour)))] + category_props(light.catlit),
                )
            } else {
                rows.len() == 0
            }
    }
}

/// `rows` are what a light shows, in the layer `name`. A light with a sector has
/// an arc between the limits and a line along each of them; any other light an
/// arc all round, except on a lateral or cardinal buoy, where it has a flare. The
/// limits are recorded as seen from seaward, so the opposite bearings are drawn.
pub open spec fn light_rows<C: TileCanvas>(
    canvas: C,
    p: Position,
    light: LightView,
    on_buoy: bool,
    name: Seq<char>,
    rows: Seq<RawFeature>,
) -> bool {
    exists|s1: Option<Real>, s2: Option<Real>|
        #![trigger flipped(canvas, light.sectr1, s1), flipped(canvas, light.sectr2, s2)]
        flipped(canvas, light.sectr1, s1) && flipped(canvas, light.sectr2, s2) && if is_sector(s1, s2) {
            &&& name == "LIGHTS_SECTOR"@
            &&& exists|a: Seq<RawFeature>, b: Seq<RawFeature>, c: Seq<RawFeature>|
                #![trigger arc_rows(canvas, p, Some((s1->0, s2->0)), light, a), radial_rows(canvas, p, s1->0, light, b), radial_rows(canvas, p, s2->0, light, c)]
                arc_rows(canvas, p, Some((s1->0, s2->0)), light, a) && radial_rows(canvas, p, s1->0, light, b)
                    && radial_rows(canvas, p, s2->0, light, c) && rows == a + b + c
        } else if on_buoy {
            name == "LIGHTS_FLARE"@ && flare_rows(canvas, p, light, rows)
        } else {
            name == "LIGHTS_SECTOR"@ && arc_rows(canvas, p, None, light, rows)
        }
}

fn flip<C: TileCanvas>(canvas: &C, bearing: Option<Real>) -> (out: Option<Real>)
    ensures
        flipped(*canvas, bearing, out),
{
    match bearing {
        Some(b) => Some(canvas.reciprocal(b)),
        None => None,
    }
}

fn push_category(props: &mut Vec<(String, PropValue)>, catlit: &Option<PropValue>)
    ensures
        prop_views(final(props)@) == prop_views(old(props)@) + category_props(match catlit {
            Some(v) => Some(v@),
            None => None,
        }),
{
    let ghost before = props@;
    if let Some(v) = catlit {
        props.push(("CATLIT".to_owned(), v.copy()));
        assert(prop_views(props@) =~= prop_views(before) + seq![("CATLIT"@, v@)]);
    } else {
        assert(prop_views(before) + Seq::empty() =~= prop_views(before));
    }
}

fn sector_features(strokes: Vec<Vec<Pixel>>, kind: &str, hex: &str, catlit: &Option<PropValue>) -> (rows: Vec<
    RawFeature,
>)
    ensures
        stroke_rows(
            strokes@,
            sector_props(
                kind@,
                hex@,
                match catlit {
                    Some(v) => Some(v@),
                    None => None,
                },
            ),
            rows@,
        ),
{
    let ghost given = strokes@;
    let ghost category = match catlit {
        Some(v) => Some(v@),
        None => None,
    };
    let mut rows: Vec<RawFeature> = Vec::new();
    for stroke in it: strokes
        invariant
            it.seq() == given,
            category == (match catlit {
                Some(v) => Some(v@),
                None => None,
            }),
            rows@.len() == it.index@,
            forall|i: int|
                0 <= i < rows@.len() ==> (#[trigger] rows@[i]).shape == PixelShape::Line(given[i]) && prop_views(
                    rows@[i].props@,
                ) == sector_props(kind@, hex@, category),
    {
        let mut props: Vec<(String, PropValue)> = Vec::new();
        props.push(("kind".to_owned(), PropValue::Str(Some(kind.to_owned()))));
        props.push(("color".to_owned(), PropValue::Str(Some(hex.to_owned()))));
        assert(prop_views(props@) =~= seq![
            ("kind"@, PropView::Str(Some(kind@))),
            ("color"@, PropView::Str(Some(hex@))),
        ]);
        push_category(&mut props, catlit);
        rows.push(RawFeature { shape: PixelShape::Line(stroke), props });
    }
    rows
}

/// The flare of a buoy's light.
pub fn emit_buoy_light_flare<C: TileCanvas>(canvas: &C, p: Position, light: &Light) -> (rows: Vec<RawFeature>)
    ensures
        flare_rows(*canvas, p, light@, rows@),
{
    let mut rows: Vec<RawFeature> = Vec::new();
    if is_flood_or_subsidiary(&light.catlit) {
        return rows;
    }
    let hit: bool = canvas.meets_point(p);
    if hit {
        let px: Pixel = canvas.pixel(p);
        let mut props: Vec<(String, PropValue)> = Vec::new();
        props.push(("COLOUR".to_owned(), PropValue::Str(Some(light.colour.clone()))));
        assert(prop_views(props@) =~= seq![("COLOUR"@, PropView::Str(Some(light.colour@)))]);
        push_category(&mut props, &light.catlit);
        rows.push(RawFeature { shape: PixelShape::Point(px), props });
    }
    assert(call_ensures(C::meets_point, (canvas, p), hit));
    rows
}

/// What a light shows in the tile, and the layer that it goes to.
pub fn light_sectors_to_features<C: TileCanvas>(
    canvas: &C,
    p: Position,
    attrs: &Vec<Attribute>,
    on_buoy: bool,
) -> (r: (&'static str, Vec<RawFeature>))
    ensures
        light_rows(*canvas, p, light_of(views(attrs@), attrs@.len() as int), on_buoy, r.0@, r.1@),
{
    let light: Light = read_light(attrs);
    let hex: &str = light_colour_hex(light.colour.as_str());
    let s1: Option<Real> = flip(canvas, light.sectr1);
    let s2: Option<Real> = flip(canvas, light.sectr2);
    assert(flipped(*canvas, light@.sectr1, s1) && flipped(*canvas, light@.sectr2, s2));
    match (s1, s2) {
        (Some(a), Some(b)) => {
            if !a.same(b) {
                let arc: Vec<Vec<Pixel>> = canvas.arc(p, Some((a, b)), light.valnmr);
                assert(call_ensures(C::arc, (canvas, p, Some((a, b)), light@.valnmr), arc));
                let mut rows: Vec<RawFeature> = sector_features(arc, "arc", hex, &light.catlit);
                let ghost first = rows@;
                assert(arc_rows(*canvas, p, Some((a, b)), light@, first));
                let line_a: Vec<Vec<Pixel>> = canvas.radial(p, a, light.valnmr);
                assert(call_ensures(C::radial, (canvas, p, a, light@.valnmr), line_a));
                let mut rows_a: Vec<RawFeature> = sector_features(line_a, "radial", hex, &light.catlit);
                let ghost second = rows_a@;
                assert(radial_rows(*canvas, p, a, light@, second));
                let line_b: Vec<Vec<Pixel>> = canvas.radial(p, b, light.valnmr);
                assert(call_ensures(C::radial, (canvas, p, b, light@.valnmr), line_b));
                let mut rows_b: Vec<RawFeature> = sector_features(line_b, "radial", hex, &light.catlit);
                let ghost third = rows_b@;
                assert(radial_rows(*canvas, p, b, light@, third));
                rows.append(&mut rows_a);
                rows.append(&mut rows_b);
                assert(rows@ =~= first + second + third);
                return ("LIGHTS_SECTOR", rows);
            }
        },
        _ => {},
    }
    assert(!is_sector(s1, s2));
    if on_buoy {
        return ("LIGHTS_FLARE", emit_buoy_light_flare(canvas, p, &light));
    }
    let arc: Vec<Vec<Pixel>> = canvas.arc(p, None, light.valnmr);
    assert(call_ensures(C::arc, (canvas, p, None, light@.valnmr), arc));
    let rows: Vec<RawFeature> = sector_features(arc, "arc", hex, &light.catlit);
    assert(arc_rows(*canvas, p, None, light@, rows@));
    ("LIGHTS_SECTOR", rows)
}

// ── Tiles ────────────────────────────────────────────────────────────────────

/// Features by layer.
#[derive(Debug)]
pub struct TileContent {
    layers: Vec<LayerContent>,
}

/// Layer `i` has the name `k`.
spec fn named(layers: Seq<LayerContent>, k: Seq<char>, i: int) -> bool {
    0 <= i < layers.len() && layers[i].name@ == k
}

impl View for TileContent {
    type V = Map<Seq<char>, Seq<RawFeature>>;

    closed spec fn view(&self) -> Map<Seq<char>, Seq<RawFeature>> {
        Map::new(
            |k: Seq<char>| exists|i: int| named(self.layers@, k, i),
            |k: Seq<char>| self.layers@[choose|i: int| named(self.layers@, k, i)].features@,
        )
    }
}

/// The features of a layer; none where there is no such layer.
pub open spec fn features_in(content: Map<Seq<char>, Seq<RawFeature>>, name: Seq<char>) -> Seq<RawFeature> {
    if content.contains_key(name) {
        content[name]
    } else {
        Seq::empty()
    }
}

impl TileContent {
    /// The names are distinct.
    #[verifier::type_invariant]
    spec fn distinct(self) -> bool {
        forall|i: int, j: int|
            0 <= i < j < self.layers@.len() ==> (#[trigger] self.layers@[i]).name@ != (
            #[trigger] self.layers@[j]).name@
    }

    proof fn lemma_entry(&self, i: int)
        requires
            self.distinct(),
            0 <= i < self.layers@.len(),
        ensures
            self@.contains_key(self.layers@[i].name@),
            self@[self.layers@[i].name@] == self.layers@[i].features@,
    {
        let k = self.layers@[i].name@;
        assert(named(self.layers@, k, i));
        let j = choose|j: int| named(self.layers@, k, j);
        assert(named(self.layers@, k, j));
        if i < j {
            assert(self.layers@[i].name@ != self.layers@[j].name@);
        } else if j < i {
            assert(self.layers@[j].name@ != self.layers@[i].name@);
        }
    }

    /// No layers.
    pub fn new() -> (c: TileContent)
        ensures
            c@ == Map::<Seq<char>, Seq<RawFeature>>::empty(),
    {
        let c: TileContent = TileContent { layers: Vec::new() };
        assert(c@ =~= Map::empty());
        c
    }

    /// Adds features at the end of a layer.
    pub fn with(self, name: &str, rows: Vec<RawFeature>) -> (c: TileContent)
        ensures
            c@ == self@.insert(name@, features_in(self@, name@) + rows@),
    {
        proof {
            use_type_invariant(&self);
        }
        let ghost before = self;
        let ghost n = name@;
        let ghost added = rows@;
        let key: String = name.to_owned();
        let mut layers: Vec<LayerContent> = self.layers;
        let mut i: usize = 0;
        while i < layers.len() && !layers[i].name.eq(&key)
            invariant
                i <= layers@.len(),
                layers@ == before.layers@,
                key@ == n,
                forall|k: int| 0 <= k < i ==> (#[trigger] layers@[k]).name@ != n,
            decreases layers@.len() - i,
        {
            i += 1;
        }
        let known: bool = i < layers.len();
        let mut rows: Vec<RawFeature> = rows;
        let mut features: Vec<RawFeature> = Vec::new();
        proof {
            if known {
                before.lemma_entry(i as int);
            } else if before@.contains_key(n) {
                let j = choose|j: int| named(before.layers@, n, j);
                assert(named(before.layers@, n, j));
            }
        }
        if known {
            let layer: LayerContent = layers.remove(i);
            features = layer.features;
        }
        let ghost own = features@;
        features.append(&mut rows);
        assert(own =~= features_in(before@, n));
        assert(features@ =~= features_in(before@, n) + added);
        let ghost all = features@;
        layers.insert(i, LayerContent { name: key, features });
        proof {
            assert forall|a: int, b: int| 0 <= a < b < layers@.len() implies (#[trigger] layers@[a]).name@ != (
            #[trigger] layers@[b]).name@ by {
                if a != i {
                    assert(layers@[a] == before.layers@[a]);
                }
                if b != i {
                    assert(layers@[b] == before.layers@[b]);
                }
                if known || b < i {
                    assert(before.layers@[a].name@ != before.layers@[b].name@);
                }
            }
        }
        let c: TileContent = TileContent { layers };
        proof {
            let want = before@.insert(n, all);
            assert forall|k: Seq<char>| c@.contains_key(k) == want.contains_key(k) by {
                if c@.contains_key(k) {
                    let j = choose|j: int| named(c.layers@, k, j);
                    assert(named(c.layers@, k, j));
                    if j != i {
                        assert(named(before.layers@, k, j));
                    }
                }
                if want.contains_key(k) {
                    if k == n {
                        assert(named(c.layers@, k, i as int));
                    } else {
                        let j = choose|j: int| named(before.layers@, k, j);
                        assert(named(before.layers@, k, j));
                        assert(named(c.layers@, k, j));
                    }
                }
            }
            assert forall|k: Seq<char>| c@.contains_key(k) implies c@[k] == want[k] by {
                let j = choose|j: int| named(c.layers@, k, j);
                assert(named(c.layers@, k, j));
                c.lemma_entry(j);
                if k == n {
                    assert(named(c.layers@, k, i as int));
                    c.lemma_entry(i as int);
                } else {
                    assert(named(before.layers@, k, j));
                    before.lemma_entry(j);
                }
            }
            assert(c@ =~= want);
        }
        c
    }

    /// The layers, each name once.
    pub fn into_layers(self) -> (layers: Vec<LayerContent>)
        ensures
            forall|i: int|
                0 <= i < layers@.len() ==> self@.contains_key((#[trigger] layers@[i]).name@)
                    && self@[layers@[i].name@] == layers@[i].features@,
            forall|i: int, j: int|
                0 <= i < j < layers@.len() ==> (#[trigger] layers@[i]).name@ != (#[trigger] layers@[j]).name@,
            forall|k: Seq<char>| #[trigger]
                self@.contains_key(k) ==> exists|i: int| 0 <= i < layers@.len() && (#[trigger] layers@[i]).name@ == k,
    {
        proof {
            use_type_invariant(&self);
            assert forall|i: int| 0 <= i < self.layers@.len() implies self@.contains_key(
                (#[trigger] self.layers@[i]).name@,
            ) && self@[self.layers@[i].name@] == self.layers@[i].features@ by {
                self.lemma_entry(i);
            }
            assert forall|k: Seq<char>| #[trigger] self@.contains_key(k) implies exists|i: int|
                0 <= i < self.layers@.len() && (#[trigger] self.layers@[i]).name@ == k by {
                let i = choose|i: int| named(self.layers@, k, i);
                assert(named(self.layers@, k, i));
            }
        }
        self.layers
    }
}

/// What one feature adds to a tile: the name of a layer and features for it.
pub type Addition = Option<(Seq<char>, Seq<RawFeature>)>;

/// The content of a tile after the first `n` additions.
pub open spec fn content_after(additions: Seq<Addition>, n: int) -> Map<Seq<char>, Seq<RawFeature>>
    decreases n,
{
    if n <= 0 {
        Map::empty()
    } else {
        let before = content_after(additions, n - 1);
        match additions[n - 1] {
            Some((name, rows)) => before.insert(name, features_in(before, name) + rows),
            None => before,
        }
    }
}

/// `a` is what a feature adds to the layer of its object class: nothing where
/// the class is unknown or the feature does not meet the tile.
pub open spec fn feature_addition<C: TileCanvas>(
    canvas: C,
    f: Feature,
    objects: Map<u16, String>,
    names: Map<u16, String>,
    scale: u32,
    a: Addition,
) -> bool {
    if !objects.contains_key(f.type_code) {
        a is None
    } else {
        exists|hit: bool| #[trigger]
            geometry_meets(canvas, f.geometry, hit) && if hit {
                a matches Some((name, rows)) && name == objects[f.type_code]@ && rows_of(
                    canvas,
                    f,
                    names,
                    scale,
                    rows,
                )
            } else {
                a is None
            }
    }
}

/// The grid cell of a feature that is a lateral or cardinal buoy.
pub open spec fn buoy_cell<C: TileCanvas>(
    canvas: C,
    f: Feature,
    objects: Map<u16, String>,
    cell: Option<(i64, i64)>,
) -> bool {
    if objects.contains_key(f.type_code) && lateral_or_cardinal(objects[f.type_code]@) {
        match f.geometry {
            Geometry::Point(p) => cell matches Some(c) && call_ensures(C::grid_cell, (&canvas, p), c),
            _ => cell is None,
        }
    } else {
        cell is None
    }
}

/// `a` is what a feature adds as a light: nothing where it is no light, is not
/// shown at the scale of the tile or does not reach into the tile. It counts as
/// mounted on a buoy where a lateral or cardinal buoy is in its grid cell.
pub open spec fn light_addition<C: TileCanvas>(
    canvas: C,
    f: Feature,
    objects: Map<u16, String>,
    scale: u32,
    buoys: Seq<Option<(i64, i64)>>,
    a: Addition,
) -> bool {
    let attrs = f.attribute_views();
    if !objects.contains_key(f.type_code) || objects[f.type_code]@ != "LIGHTS"@ || !shown_at(attrs, scale) {
        a is None
    } else {
        match f.geometry {
            Geometry::Point(p) => exists|hit: bool| #[trigger]
                call_ensures(C::meets_light, (&canvas, p, first_range(attrs)), hit) && if hit {
                    exists|cell: (i64, i64)| #[trigger]
                        call_ensures(C::grid_cell, (&canvas, p), cell) && (a matches Some((name, rows))
                            && light_rows(
                            canvas,
                            p,
                            light_of(attrs, attrs.len() as int),
                            buoys.contains(Some(cell)),
                            name,
                            rows,
                        ))
                } else {
                    a is None
                },
            _ => a is None,
        }
    }
}

/// One number for both coordinates of a grid cell.
spec fn packed(cell: (i64, i64)) -> i128 {
    (cell.0 * 0x1_0000_0000_0000_0000 + (cell.1 + 0x8000_0000_0000_0000)) as i128
}

proof fn lemma_packed(a: (i64, i64), b: (i64, i64))
    ensures
        packed(a) == packed(b) ==> a == b,
{
}

fn pack(cell: (i64, i64)) -> (k: i128)
    ensures
        k == packed(cell),
{
    cell.0 as i128 * 0x1_0000_0000_0000_0000 + (cell.1 as i128 + 0x8000_0000_0000_0000)
}

/// The grid cells of all lateral and cardinal buoys.
fn find_buoys<C: TileCanvas>(features: &Vec<Feature>, canvas: &C, catalogue: &Catalogue) -> (r: (HashSet<i128>, Ghost<
    Seq<Option<(i64, i64)>>,
>))
    ensures
        r.1@.len() == features@.len(),
        forall|i: int|
            0 <= i < features@.len() ==> buoy_cell(*canvas, #[trigger] features@[i], catalogue.objects@, r.1@[i]),
        forall|c: (i64, i64)| r.0@.contains(#[trigger] packed(c)) <==> r.1@.contains(Some(c)),
{
    let mut set: HashSet<i128> = HashSet::new();
    let ghost mut cells: Seq<Option<(i64, i64)>> = Seq::empty();
    let mut i: usize = 0;
    while i < features.len()
        invariant
            i <= features@.len(),
            cells.len() == i,
            forall|k: int|
                0 <= k < i ==> buoy_cell(*canvas, #[trigger] features@[k], catalogue.objects@, cells[k]),
            forall|c: (i64, i64)| set@.contains(#[trigger] packed(c)) <==> cells.contains(Some(c)),
        decreases features@.len() - i,
    {
        let f: &Feature = &features[i];
        let mut found: Option<(i64, i64)> = None;
        let code: u16 = f.type_code;
        if let Some(name) = catalogue.objects.get(&code) {
            if is_lateral_or_cardinal_buoy(name.as_str()) {
                if let Geometry::Point(p) = &f.geometry {
                    found = Some(canvas.grid_cell(*p));
                }
            }
        }
        let ghost before = set@;
        if let Some(cell) = found {
            set.insert(pack(cell));
        }
        proof {
            let more = cells.push(found);
            assert forall|c: (i64, i64)| set@.contains(#[trigger] packed(c)) <==> more.contains(Some(c)) by {
                if let Some(cell) = found {
                    lemma_packed(c, cell);
                }
                assert(before.contains(packed(c)) <==> cells.contains(Some(c)));
                if cells.contains(Some(c)) {
                    let k = choose|k: int| 0 <= k < cells.len() && cells[k] == Some(c);
                    assert(more[k] == Some(c));
                }
                if more.contains(Some(c)) {
                    let k = choose|k: int| 0 <= k < more.len() && more[k] == Some(c);
                    if k < cells.len() {
                        assert(cells[k] == Some(c));
                    }
                }
                if found == Some(c) {
                    assert(more[i as int] == Some(c));
                }
            }
            assert forall|k: int| 0 <= k < i + 1 implies buoy_cell(
                *canvas,
                #[trigger] features@[k],
                catalogue.objects@,
                more[k],
            ) by {
                if k < i {
                    assert(more[k] == cells[k]);
                }
            }
            cells = more;
        }
        i += 1;
    }
    (set, Ghost(cells))
}

/// `content` is what the features show in a tile: first every feature in the
/// layer of its object class, then every light with its arcs or flare. The
/// additions of the features come first in `additions`, those of the lights
/// after them.
pub open spec fn rendered<C: TileCanvas>(
    canvas: C,
    features: Seq<Feature>,
    objects: Map<u16, String>,
    names: Map<u16, String>,
    scale: u32,
    content: Map<Seq<char>, Seq<RawFeature>>,
    buoys: Seq<Option<(i64, i64)>>,
    additions: Seq<Addition>,
) -> bool {
    let n = features.len();
    &&& buoys.len() == n
    &&& additions.len() == 2 * n
    &&& forall|i: int| 0 <= i < n ==> buoy_cell(canvas, #[trigger] features[i], objects, buoys[i])
    &&& forall|i: int|
        0 <= i < n ==> feature_addition(canvas, #[trigger] features[i], objects, names, scale, additions[i])
    &&& forall|i: int|
        0 <= i < n ==> light_addition(canvas, #[trigger] features[i], objects, scale, buoys, additions[n + i])
    &&& content == content_after(additions, 2 * n as int)
}

proof fn lemma_content_prefix(a: Seq<Addition>, b: Seq<Addition>, n: int)
    requires
        0 <= n <= a.len(),
        n <= b.len(),
        forall|k: int| 0 <= k < n ==> a[k] == b[k],
    ensures
        content_after(a, n) == content_after(b, n),
    decreases n,
{
    if n > 0 {
        lemma_content_prefix(a, b, n - 1);
    }
}

fn render_feature<C: TileCanvas>(
    content: TileContent,
    feat: &Feature,
    canvas: &C,
    catalogue: &Catalogue,
    scale: u32,
) -> (r: (TileContent, Ghost<Addition>))
    ensures
        feature_addition(*canvas, *feat, catalogue.objects@, catalogue.attributes@, scale, r.1@),
        r.0@ == (match r.1@ {
            Some((name, rows)) => content@.insert(name, features_in(content@, name) + rows),
            None => content@,
        }),
{
    let code: u16 = feat.type_code;
    match catalogue.objects.get(&code) {
        None => (content, Ghost(None)),
        Some(name) => {
            let hit: bool = feat_intersects(feat, canvas);
            if !hit {
                return (content, Ghost(None));
            }
            let rows: Vec<RawFeature> = push_features(feat, canvas, catalogue, scale);
            let ghost added = rows@;
            (content.with(name.as_str(), rows), Ghost(Some((name@, added))))
        },
    }
}

fn render_light<C: TileCanvas>(
    content: TileContent,
    feat: &Feature,
    canvas: &C,
    catalogue: &Catalogue,
    scale: u32,
    buoys: &HashSet<i128>,
    cells: Ghost<Seq<Option<(i64, i64)>>>,
) -> (r: (TileContent, Ghost<Addition>))
    requires
        forall|c: (i64, i64)| buoys@.contains(#[trigger] packed(c)) <==> cells@.contains(Some(c)),
    ensures
        light_addition(*canvas, *feat, catalogue.objects@, scale, cells@, r.1@),
        r.0@ == (match r.1@ {
            Some((name, rows)) => content@.insert(name, features_in(content@, name) + rows),
            None => content@,
        }),
{
    let code: u16 = feat.type_code;
    let lights: String = "LIGHTS".to_owned();
    let is_light: bool = match catalogue.objects.get(&code) {
        Some(name) => name.eq(&lights),
        None => false,
    };
    if !is_light || !is_shown(&feat.attributes, scale) {
        return (content, Ghost(None));
    }
    match &feat.geometry {
        Geometry::Point(p) => {
            let at: Position = *p;
            let range: Option<Real> = read_range(&feat.attributes);
            let hit: bool = canvas.meets_light(at, range);
            assert(call_ensures(C::meets_light, (canvas, at, range), hit));
            if !hit {
                return (content, Ghost(None));
            }
            let cell: (i64, i64) = canvas.grid_cell(at);
            assert(call_ensures(C::grid_cell, (canvas, at), cell));
            let key: i128 = pack(cell);
            let on_buoy: bool = buoys.contains(&key);
            assert(on_buoy == cells@.contains(Some(cell)));
            let (name, rows) = light_sectors_to_features(canvas, at, &feat.attributes, on_buoy);
            let ghost added = rows@;
            (content.with(name, rows), Ghost(Some((name@, added))))
        },
        _ => (content, Ghost(None)),
    }
}

/// What a cell has to show in a tile of the given scale.
pub fn render<C: TileCanvas>(features: &Vec<Feature>, canvas: &C, catalogue: &Catalogue, scale: u32) -> (content:
    TileContent)
    ensures
        exists|buoys: Seq<Option<(i64, i64)>>, additions: Seq<Addition>|
            rendered(
                *canvas,
                features@,
                catalogue.objects@,
                catalogue.attributes@,
                scale,
                content@,
                buoys,
                additions,
            ),
{
    let mut content: TileContent = TileContent::new();
    let ghost mut additions: Seq<Addition> = Seq::empty();
    let n: usize = features.len();
    let mut i: usize = 0;
    while i < n
        invariant
            i <= n,
            n == features@.len(),
            additions.len() == i,
            content@ == content_after(additions, i as int),
            forall|k: int|
                0 <= k < i ==> feature_addition(
                    *canvas,
                    #[trigger] features@[k],
                    catalogue.objects@,
                    catalogue.attributes@,
                    scale,
                    additions[k],
                ),
        decreases n - i,
    {
        let (next, added) = render_feature(content, &features[i], canvas, catalogue, scale);
        proof {
            let more = additions.push(added@);
            lemma_content_prefix(additions, more, i as int);
            assert forall|k: int| 0 <= k < i + 1 implies feature_addition(
                *canvas,
                #[trigger] features@[k],
                catalogue.objects@,
                catalogue.attributes@,
                scale,
                more[k],
            ) by {
                if k < i {
                    assert(more[k] == additions[k]);
                }
            }
            additions = more;
        }
        content = next;
        i += 1;
    }
    let (buoys, cells) = find_buoys(features, canvas, catalogue);
    let mut j: usize = 0;
    while j < n
        invariant
            j <= n,
            n == features@.len(),
            additions.len() == n + j,
            content@ == content_after(additions, n + j),
            cells@.len() == n,
            forall|c: (i64, i64)| buoys@.contains(#[trigger] packed(c)) <==> cells@.contains(Some(c)),
            forall|k: int|
                0 <= k < n ==> feature_addition(
                    *canvas,
                    #[trigger] features@[k],
                    catalogue.objects@,
                    catalogue.attributes@,
                    scale,
                    additions[k],
                ),
            forall|k: int|
                0 <= k < j ==> light_addition(
                    *canvas,
                    #[trigger] features@[k],
                    catalogue.objects@,
                    scale,
                    cells@,
                    additions[n + k],
                ),
        decreases n - j,
    {
        let (next, added) = render_light(content, &features[j], canvas, catalogue, scale, &buoys, cells);
        proof {
            let more = additions.push(added@);
            lemma_content_prefix(additions, more, n + j);
            assert forall|k: int| 0 <= k < n implies feature_addition(
                *canvas,
                #[trigger] features@[k],
                catalogue.objects@,
                catalogue.attributes@,
                scale,
                more[k],
            ) by {
                assert(more[k] == additions[k]);
            }
            assert forall|k: int| 0 <= k < j + 1 implies light_addition(
                *canvas,
                #[trigger] features@[k],
                catalogue.objects@,
                scale,
                cells@,
                more[n + k],
            ) by {
                if k < j {
                    assert(more[n + k] == additions[n + k]);
                }
            }
            additions = more;
        }
        content = next;
        j += 1;
    }
    assert(rendered(
        *canvas,
        features@,
        catalogue.objects@,
        catalogue.attributes@,
        scale,
        content@,
        cells@,
        additions,
    ));
    content
}

// ── Laws ─────────────────────────────────────────────────────────────────────

/// A feature with a smallest scale (attribute 133) is shown at that scale and at
/// larger ones, and at no other.
pub proof fn smallest_scale_decides(attrs: Seq<AttributeView>, scamin: u32, scale: u32)
    requires
        first_value(attrs, 133) == Some(AttrValueView::Int(scamin)),
    ensures
        shown_at(attrs, scale) <==> scale <= scamin,
        shown_at(attrs, scamin),
{
}

/// Both contents have the same features in every layer; an absent layer counts as
/// an empty one.
pub open spec fn same_features(a: Map<Seq<char>, Seq<RawFeature>>, b: Map<Seq<char>, Seq<RawFeature>>) -> bool {
    forall|name: Seq<char>| #[trigger] features_in(a, name) == features_in(b, name)
}

/// An addition without features.
pub open spec fn adds_nothing(a: Addition) -> bool {
    match a {
        Some((_, rows)) => rows.len() == 0,
        None => true,
    }
}

proof fn lemma_content_without(additions: Seq<Addition>, i: int, n: int)
    requires
        0 <= i < n <= additions.len(),
        adds_nothing(additions[i]),
    ensures
        same_features(content_after(additions, n), content_after(additions.remove(i), n - 1)),
    decreases n,
{
    let rest = additions.remove(i);
    let all = content_after(additions, n);
    let before = content_after(additions, n - 1);
    if i == n - 1 {
        lemma_content_prefix(additions, rest, n - 1);
        assert forall|name: Seq<char>| #[trigger] features_in(all, name) == features_in(before, name) by {
            if let Some((layer, rows)) = additions[i] {
                assert(features_in(before, layer) + rows =~= features_in(before, layer));
            }
        }
    } else {
        lemma_content_without(additions, i, n - 1);
        let less = content_after(rest, n - 1);
        let less_before = content_after(rest, n - 2);
        assert(rest[n - 2] == additions[n - 1]);
        assert forall|name: Seq<char>| #[trigger] features_in(all, name) == features_in(less, name) by {
            assert(features_in(before, name) == features_in(less_before, name));
            if let Some((layer, rows)) = additions[n - 1] {
                assert(features_in(before, layer) == features_in(less_before, layer));
            }
        }
    }
}

/// A feature whose smallest scale is passed leaves no trace in a tile, light arcs
/// and flares among them: what a cell shows with it is, layer by layer, what the
/// cell shows without it. Lateral and cardinal buoys are another matter, since
/// they decide about the lights on them.
pub proof fn hidden_features_leave_no_trace<C: TileCanvas>(
    canvas: C,
    features: Seq<Feature>,
    objects: Map<u16, String>,
    names: Map<u16, String>,
    scale: u32,
    content: Map<Seq<char>, Seq<RawFeature>>,
    buoys: Seq<Option<(i64, i64)>>,
    additions: Seq<Addition>,
    i: int,
)
    requires
        rendered(canvas, features, objects, names, scale, content, buoys, additions),
        0 <= i < features.len(),
        !shown_at(features[i].attribute_views(), scale),
        !(objects.contains_key(features[i].type_code) && lateral_or_cardinal(objects[features[i].type_code]@)),
    ensures
        ({
            let fewer = additions.remove(features.len() + i).remove(i);
            let less = content_after(fewer, fewer.len() as int);
            &&& rendered(canvas, features.remove(i), objects, names, scale, less, buoys.remove(i), fewer)
            &&& same_features(content, less)
        }),
{
    let n = features.len() as int;
    let f = features[i];
    let others = features.remove(i);
    let cells = buoys.remove(i);
    let half = additions.remove(n + i);
    let fewer = half.remove(i);
    let less = content_after(fewer, 2 * n - 2);
    assert(buoy_cell(canvas, f, objects, buoys[i]));
    assert(feature_addition(canvas, f, objects, names, scale, additions[i]));
    assert(light_addition(canvas, f, objects, scale, buoys, additions[n + i]));
    assert(adds_nothing(additions[i]));
    assert(adds_nothing(additions[n + i]));
    lemma_content_without(additions, n + i, 2 * n);
    assert(half[i] == additions[i]);
    lemma_content_without(half, i, 2 * n - 1);
    let middle = content_after(half, 2 * n - 1);
    assert forall|name: Seq<char>| #[trigger] features_in(content, name) == features_in(less, name) by {
        assert(features_in(content, name) == features_in(middle, name));
        assert(features_in(middle, name) == features_in(less, name));
    }
    assert forall|c: (i64, i64)| #[trigger] cells.contains(Some(c)) == buoys.contains(Some(c)) by {
        if cells.contains(Some(c)) {
            let k = choose|k: int| 0 <= k < cells.len() && cells[k] == Some(c);
            let o = if k < i { k } else { k + 1 };
            assert(buoys[o] == Some(c));
        }
        if buoys.contains(Some(c)) {
            let k = choose|k: int| 0 <= k < buoys.len() && buoys[k] == Some(c);
            let o = if k < i { k } else { k - 1 };
            assert(cells[o] == Some(c));
        }
    }
    assert forall|k: int| 0 <= k < n - 1 implies buoy_cell(canvas, #[trigger] others[k], objects, cells[k]) by {
        let o = if k < i { k } else { k + 1 };
        assert(others[k] == features[o] && cells[k] == buoys[o]);
    }
    assert forall|k: int| 0 <= k < n - 1 implies feature_addition(
        canvas,
        #[trigger] others[k],
        objects,
        names,
        scale,
        fewer[k],
    ) by {
        let o = if k < i { k } else { k + 1 };
        assert(others[k] == features[o] && fewer[k] == additions[o]);
    }
    assert forall|k: int| 0 <= k < n - 1 implies light_addition(
        canvas,
        #[trigger] others[k],
        objects,
        scale,
        cells,
        fewer[n - 1 + k],
    ) by {
        let o = if k < i { k } else { k + 1 };
        assert(others[k] == features[o] && fewer[n - 1 + k] == additions[n + o]);
        lemma_same_buoys(canvas, features[o], objects, scale, buoys, cells, additions[n + o]);
    }
}

proof fn lemma_same_buoys<C: TileCanvas>(
    canvas: C,
    f: Feature,
    objects: Map<u16, String>,
    scale: u32,
    a: Seq<Option<(i64, i64)>>,
    b: Seq<Option<(i64, i64)>>,
    added: Addition,
)
    requires
        light_addition(canvas, f, objects, scale, a, added),
        forall|c: (i64, i64)| #[trigger] b.contains(Some(c)) == a.contains(Some(c)),
    ensures
        light_addition(canvas, f, objects, scale, b, added),
{
}

/// The first smallest scale of a feature decides: it is shown at that scale and at
/// larger ones, and at no other. Without one it is always shown.
pub proof fn the_first_smallest_scale_decides(attrs: Seq<AttributeView>, i: int, scamin: u32, scale: u32)
    requires
        0 <= i < attrs.len(),
        attrs[i].code == 133,
        attrs[i].value == AttrValueView::Int(scamin),
        forall|j: int| 0 <= j < i ==> (#[trigger] attrs[j]).code != 133,
    ensures
        shown_at(attrs, scale) <==> scale <= scamin,
{
    lemma_first_attr(attrs, 133, 0, i);
}

/// A feature without a smallest scale is shown at every scale.
pub proof fn without_smallest_scale_always_shown(attrs: Seq<AttributeView>, scale: u32)
    requires
        forall|j: int| 0 <= j < attrs.len() ==> (#[trigger] attrs[j]).code != 133,
    ensures
        shown_at(attrs, scale),
{
    lemma_first_attr(attrs, 133, 0, attrs.len() as int);
}

proof fn lemma_first_attr(attrs: Seq<AttributeView>, code: u16, from: int, i: int)
    requires
        0 <= from <= i <= attrs.len(),
        i < attrs.len() ==> attrs[i].code == code,
        forall|j: int| from <= j < i ==> (#[trigger] attrs[j]).code != code,
    ensures
        attr_at(attrs, code, from) == i,
    decreases i - from,
{
    if from < i {
        assert(attrs[from].code != code);
        lemma_first_attr(attrs, code, from + 1, i);
    }
}

/// The light can reach as far as the first nominal range says.
pub proof fn the_first_range_counts(attrs: Seq<AttributeView>, i: int, range: Real)
    requires
        0 <= i < attrs.len(),
        attrs[i].code == 178,
        attrs[i].value == AttrValueView::Double(range),
        forall|j: int| 0 <= j < i ==> (#[trigger] attrs[j]).code != 178,
    ensures
        first_range(attrs) == Some(range),
{
    lemma_first_attr(attrs, 178, 0, i);
}

/// A feature in the shape of a stroke, marked with a kind of sector line, the display
/// colour of the first colour of its light, and the category of the light where that
/// is known.
pub open spec fn is_sector_line(row: RawFeature, stroke: Vec<Pixel>, kind: Seq<char>, light: LightView) -> bool {
    &&& row.shape == PixelShape::Line(stroke)
    &&& row.props@.len() == (if light.catlit is Some { 3int } else { 2 })
    &&& row.props@[0].0@ == "kind"@
    &&& row.props@[0].1@ == PropView::Str(Some(kind))
    &&& row.props@[1].0@ == "color"@
    &&& row.props@[1].1@ == PropView::Str(Some(display_colour(first_code(light.colour))))
    &&& light.catlit is Some ==> row.props@[2].0@ == "CATLIT"@ && row.props@[2].1@ == light.catlit->0
}

/// `rows[from..]` begin with one sector line for each stroke.
pub open spec fn has_lines(
    rows: Seq<RawFeature>,
    from: int,
    strokes: Seq<Vec<Pixel>>,
    kind: Seq<char>,
    light: LightView,
) -> bool {
    forall|i: int| 0 <= i < strokes.len() ==> is_sector_line(rows[from + i], #[trigger] strokes[i], kind, light)
}

proof fn lemma_lines(rows: Seq<RawFeature>, strokes: Seq<Vec<Pixel>>, light: LightView, kind: Seq<char>)
    requires
        stroke_rows(strokes, sector_props(kind, display_colour(first_code(light.colour)), light.catlit), rows),
    ensures
        has_lines(rows, 0, strokes, kind, light),
        rows.len() == strokes.len(),
{
    assert forall|i: int| 0 <= i < strokes.len() implies is_sector_line(rows[0 + i], #[trigger] strokes[i], kind, light) by {
        let row = rows[i];
        let props = prop_views(row.props@);
        let told = sector_props(kind, display_colour(first_code(light.colour)), light.catlit);
        assert(rows[i].shape == PixelShape::Line(strokes[i]));
        assert(props == told && told.len() >= 2);
        assert(props.len() == row.props@.len());
        assert(told[0] == ("kind"@, PropView::Str(Some(kind))));
        assert(told[1] == ("color"@, PropView::Str(Some(display_colour(first_code(light.colour))))));
        if light.catlit is Some {
            assert(told[2] == ("CATLIT"@, light.catlit->0));
            assert(props[2] == (row.props@[2].0@, row.props@[2].1@));
        }
        assert(props[0] == (row.props@[0].0@, row.props@[0].1@));
        assert(props[1] == (row.props@[1].0@, row.props@[1].1@));
    }
}

/// A light with two sector limits whose opposite bearings differ, whichever is the
/// greater number, shows the arc between these bearings and one line along each of
/// them, also on a buoy.
pub proof fn sector_lights_show_their_sector<C: TileCanvas>(
    canvas: C,
    p: Position,
    light: LightView,
    on_buoy: bool,
    name: Seq<char>,
    rows: Seq<RawFeature>,
)
    requires
        light_rows(canvas, p, light, on_buoy, name, rows),
        light.sectr1 is Some,
        light.sectr2 is Some,
        forall|x: Real, y: Real|
            #![trigger call_ensures(C::reciprocal, (&canvas, light.sectr1->0), x), call_ensures(C::reciprocal, (&canvas, light.sectr2->0), y)]
            call_ensures(C::reciprocal, (&canvas, light.sectr1->0), x) && call_ensures(
                C::reciprocal,
                (&canvas, light.sectr2->0),
                y,
            ) ==> !(x.at_most(y) && y.at_most(x)),
    ensures
        name == "LIGHTS_SECTOR"@,
        exists|x: Real, y: Real, arc: Vec<Vec<Pixel>>, one: Vec<Vec<Pixel>>, two: Vec<Vec<Pixel>>|
            #![trigger call_ensures(C::arc, (&canvas, p, Some((x, y)), light.valnmr), arc), call_ensures(C::radial, (&canvas, p, x, light.valnmr), one), call_ensures(C::radial, (&canvas, p, y, light.valnmr), two)]
            {
                &&& call_ensures(C::reciprocal, (&canvas, light.sectr1->0), x)
                &&& call_ensures(C::reciprocal, (&canvas, light.sectr2->0), y)
                &&& call_ensures(C::arc, (&canvas, p, Some((x, y)), light.valnmr), arc)
                &&& call_ensures(C::radial, (&canvas, p, x, light.valnmr), one)
                &&& call_ensures(C::radial, (&canvas, p, y, light.valnmr), two)
                &&& rows.len() == arc@.len() + one@.len() + two@.len()
                &&& has_lines(rows, 0, arc@, "arc"@, light)
                &&& has_lines(rows, arc@.len() as int, one@, "radial"@, light)
                &&& has_lines(rows, (arc@.len() + one@.len()) as int, two@, "radial"@, light)
            },
{
    let (s1, s2) = choose|s1: Option<Real>, s2: Option<Real>|
        #![trigger flipped(canvas, light.sectr1, s1), flipped(canvas, light.sectr2, s2)]
        flipped(canvas, light.sectr1, s1) && flipped(canvas, light.sectr2, s2) && if is_sector(s1, s2) {
            &&& name == "LIGHTS_SECTOR"@
            &&& exists|a: Seq<RawFeature>, b: Seq<RawFeature>, c: Seq<RawFeature>|
                #![trigger arc_rows(canvas, p, Some((s1->0, s2->0)), light, a), radial_rows(canvas, p, s1->0, light, b), radial_rows(canvas, p, s2->0, light, c)]
                arc_rows(canvas, p, Some((s1->0, s2->0)), light, a) && radial_rows(canvas, p, s1->0, light, b)
                    && radial_rows(canvas, p, s2->0, light, c) && rows == a + b + c
        } else if on_buoy {
            name == "LIGHTS_FLARE"@ && flare_rows(canvas, p, light, rows)
        } else {
            name == "LIGHTS_SECTOR"@ && arc_rows(canvas, p, None, light, rows)
        };
    let x = s1->0;
    let y = s2->0;
    assert(call_ensures(C::reciprocal, (&canvas, light.sectr1->0), x));
    assert(call_ensures(C::reciprocal, (&canvas, light.sectr2->0), y));
    assert(!(x.at_most(y) && y.at_most(x)));
    assert(is_sector(s1, s2));
    let (a, b, c) = choose|a: Seq<RawFeature>, b: Seq<RawFeature>, c: Seq<RawFeature>|
        #![trigger arc_rows(canvas, p, Some((s1->0, s2->0)), light, a), radial_rows(canvas, p, s1->0, light, b), radial_rows(canvas, p, s2->0, light, c)]
        arc_rows(canvas, p, Some((s1->0, s2->0)), light, a) && radial_rows(canvas, p, s1->0, light, b) && radial_rows(
            canvas,
            p,
            s2->0,
            light,
            c,
        ) && rows == a + b + c;
    let hex = display_colour(first_code(light.colour));
    let arc = choose|strokes: Vec<Vec<Pixel>>| #[trigger]
        call_ensures(C::arc, (&canvas, p, Some((x, y)), light.valnmr), strokes) && stroke_rows(
            strokes@,
            sector_props("arc"@, hex, light.catlit),
            a,
        );
    let one = choose|strokes: Vec<Vec<Pixel>>| #[trigger]
        call_ensures(C::radial, (&canvas, p, x, light.valnmr), strokes) && stroke_rows(
            strokes@,
            sector_props("radial"@, hex, light.catlit),
            b,
        );
    let two = choose|strokes: Vec<Vec<Pixel>>| #[trigger]
        call_ensures(C::radial, (&canvas, p, y, light.valnmr), strokes) && stroke_rows(
            strokes@,
            sector_props("radial"@, hex, light.catlit),
            c,
        );
    lemma_lines(a, arc@, light, "arc"@);
    lemma_lines(b, one@, light, "radial"@);
    lemma_lines(c, two@, light, "radial"@);
    assert forall|i: int| 0 <= i < arc@.len() implies is_sector_line(rows[0 + i], #[trigger] arc@[i], "arc"@, light) by {
        assert(rows[i] == a[i]);
    }
    let n = arc@.len() as int;
    assert forall|i: int| 0 <= i < one@.len() implies is_sector_line(rows[n + i], #[trigger] one@[i], "radial"@, light) by {
        assert(rows[n + i] == b[i]);
    }
    let m = (arc@.len() + one@.len()) as int;
    assert forall|i: int| 0 <= i < two@.len() implies is_sector_line(rows[m + i], #[trigger] two@[i], "radial"@, light) by {
        assert(rows[m + i] == c[i]);
    }
}

/// A light that lacks a sector limit, or whose two limits are one bearing, shows
/// an arc all round and nothing else; on a lateral or cardinal buoy it shows no
/// line at all, but at most one point in the layer of flares.
pub proof fn other_lights_show_all_round<C: TileCanvas>(
    canvas: C,
    p: Position,
    light: LightView,
    on_buoy: bool,
    name: Seq<char>,
    rows: Seq<RawFeature>,
)
    requires
        light_rows(canvas, p, light, on_buoy, name, rows),
        light.sectr1 is Some && light.sectr2 is Some ==> forall|x: Real, y: Real|
            #![trigger call_ensures(C::reciprocal, (&canvas, light.sectr1->0), x), call_ensures(C::reciprocal, (&canvas, light.sectr2->0), y)]
            call_ensures(C::reciprocal, (&canvas, light.sectr1->0), x) && call_ensures(
                C::reciprocal,
                (&canvas, light.sectr2->0),
                y,
            ) ==> x.at_most(y) && y.at_most(x),
    ensures
        !on_buoy ==> name == "LIGHTS_SECTOR"@ && exists|arc: Vec<Vec<Pixel>>|
            #![trigger call_ensures(C::arc, (&canvas, p, None, light.valnmr), arc)]
            call_ensures(C::arc, (&canvas, p, None, light.valnmr), arc) && rows.len() == arc@.len() && has_lines(
                rows,
                0,
                arc@,
                "arc"@,
                light,
            ),
        on_buoy ==> {
            &&& name == "LIGHTS_FLARE"@
            &&& rows.len() <= 1
            &&& rows.len() == 1 ==> {
                &&& call_ensures(C::meets_point, (&canvas, p), true)
                &&& rows[0].shape is Point
                &&& call_ensures(C::pixel, (&canvas, p), rows[0].shape->Point_0)
                &&& rows[0].props@[0].0@ == "COLOUR"@
                &&& rows[0].props@[0].1@ == PropView::Str(Some(light.colour))
                &&& rows[0].props@.len() == (if light.catlit is Some { 2int } else { 1 })
                &&& light.catlit is Some ==> rows[0].props@[1].0@ == "CATLIT"@ && rows[0].props@[1].1@
                    == light.catlit->0
            }
            &&& rows.len() == 0 ==> call_ensures(C::meets_point, (&canvas, p), false) || (light.catlit matches Some(
                PropView::U64(Some(v)),
            ) && (v == 6 || v == 8)) || (light.catlit matches Some(PropView::Str(Some(t))) && (t == seq!['6'] || t
                == seq!['8']))
            &&& (light.catlit matches Some(PropView::U64(Some(v))) && (v == 6 || v == 8)) ==> rows.len() == 0
            &&& (light.catlit matches Some(PropView::Str(Some(t))) && (t == seq!['6'] || t == seq!['8']))
                ==> rows.len() == 0
        },
{
    let (s1, s2) = choose|s1: Option<Real>, s2: Option<Real>|
        #![trigger flipped(canvas, light.sectr1, s1), flipped(canvas, light.sectr2, s2)]
        flipped(canvas, light.sectr1, s1) && flipped(canvas, light.sectr2, s2) && if is_sector(s1, s2) {
            &&& name == "LIGHTS_SECTOR"@
            &&& exists|a: Seq<RawFeature>, b: Seq<RawFeature>, c: Seq<RawFeature>|
                #![trigger arc_rows(canvas, p, Some((s1->0, s2->0)), light, a), radial_rows(canvas, p, s1->0, light, b), radial_rows(canvas, p, s2->0, light, c)]
                arc_rows(canvas, p, Some((s1->0, s2->0)), light, a) && radial_rows(canvas, p, s1->0, light, b)
                    && radial_rows(canvas, p, s2->0, light, c) && rows == a + b + c
        } else if on_buoy {
            name == "LIGHTS_FLARE"@ && flare_rows(canvas, p, light, rows)
        } else {
            name == "LIGHTS_SECTOR"@ && arc_rows(canvas, p, None, light, rows)
        };
    if light.sectr1 is Some && light.sectr2 is Some {
        assert(call_ensures(C::reciprocal, (&canvas, light.sectr1->0), s1->0));
        assert(call_ensures(C::reciprocal, (&canvas, light.sectr2->0), s2->0));
    }
    assert(!is_sector(s1, s2));
    if on_buoy {
        if rows.len() == 1 {
            let told = seq![("COLOUR"@, PropView::Str(Some(light.colour)))] + category_props(light.catlit);
            assert(prop_views(rows[0].props@) == told && told.len() >= 1);
            assert(told[0] == ("COLOUR"@, PropView::Str(Some(light.colour))));
            assert(prop_views(rows[0].props@).len() == rows[0].props@.len());
            assert(prop_views(rows[0].props@)[0] == (rows[0].props@[0].0@, rows[0].props@[0].1@));
            if light.catlit is Some {
                assert(told[1] == ("CATLIT"@, light.catlit->0));
                assert(prop_views(rows[0].props@)[1] == (rows[0].props@[1].0@, rows[0].props@[1].1@));
            }
        }
    } else {
        let hex = display_colour(first_code(light.colour));
        let arc = choose|strokes: Vec<Vec<Pixel>>| #[trigger]
            call_ensures(C::arc, (&canvas, p, None, light.valnmr), strokes) && stroke_rows(
                strokes@,
                sector_props("arc"@, hex, light.catlit),
                rows,
            );
        lemma_lines(rows, arc@, light, "arc"@);
    }
}

/// A value as a property of its own type.
pub open spec fn is_same_value(v: AttrValueView, p: PropView) -> bool {
    match v {
        AttrValueView::Int(i) => p matches PropView::U64(Some(u)) && u == i,
        AttrValueView::Double(f) => p matches PropView::F64(Some(g)) && g == f,
        AttrValueView::Str(t) => p matches PropView::Str(Some(u)) && u == t,
    }
}

/// `at` are the indices of the attributes that have a name, in ascending order.
pub open spec fn lists_named(at: Seq<int>, attrs: Seq<AttributeView>, names: Map<u16, String>, n: int) -> bool {
    &&& forall|k: int| 0 <= k < at.len() ==> 0 <= #[trigger] at[k] < n && names.contains_key(attrs[at[k]].code)
    &&& forall|a: int, b: int| 0 <= a < b < at.len() ==> #[trigger] at[a] < #[trigger] at[b]
    &&& forall|j: int| 0 <= j < n && names.contains_key((#[trigger] attrs[j]).code) ==> at.contains(j)
}

/// `props` are the attributes of the given indices, each under its name.
pub open spec fn are_named(
    props: Seq<(Seq<char>, PropView)>,
    at: Seq<int>,
    attrs: Seq<AttributeView>,
    names: Map<u16, String>,
) -> bool {
    props.len() == at.len() && forall|k: int|
        0 <= k < at.len() ==> (#[trigger] props[k]).0 == names[attrs[at[k]].code]@ && is_same_value(
            attrs[at[k]].value,
            props[k].1,
        )
}

proof fn lemma_props(attrs: Seq<AttributeView>, names: Map<u16, String>, n: int) -> (at: Seq<int>)
    requires
        0 <= n <= attrs.len(),
    ensures
        lists_named(at, attrs, names, n),
        are_named(props_of(attrs, names, n), at, attrs, names),
    decreases n,
{
    if n <= 0 {
        Seq::empty()
    } else {
        let before = lemma_props(attrs, names, n - 1);
        if names.contains_key(attrs[n - 1].code) {
            let at = before.push(n - 1);
            assert forall|j: int| 0 <= j < n && names.contains_key((#[trigger] attrs[j]).code) implies at.contains(j) by {
                if j == n - 1 {
                    assert(at[before.len() as int] == j);
                } else {
                    assert(before.contains(j));
                    let k = choose|k: int| 0 <= k < before.len() && before[k] == j;
                    assert(at[k] == j);
                }
            }
            let props = props_of(attrs, names, n);
            assert forall|k: int| 0 <= k < at.len() implies (#[trigger] props[k]).0 == names[attrs[at[k]].code]@
                && is_same_value(attrs[at[k]].value, props[k].1) by {
                if k < before.len() {
                    assert(props[k] == props_of(attrs, names, n - 1)[k]);
                    assert(at[k] == before[k]);
                }
            }
            at
        } else {
            before
        }
    }
}

/// The properties of a feature are its attributes that have a name, all of them,
/// in their order, each under its name and with its value.
pub proof fn properties_are_the_named_attributes(attrs: Seq<AttributeView>, names: Map<u16, String>)
    ensures
        exists|at: Seq<int>| #[trigger]
            lists_named(at, attrs, names, attrs.len() as int) && are_named(
                feature_props(attrs, names),
                at,
                attrs,
                names,
            ),
{
    let at = lemma_props(attrs, names, attrs.len() as int);
    assert(lists_named(at, attrs, names, attrs.len() as int));
}

/// `row` is a point at the pixel of a sounding, with the properties of the feature
/// and after them the depth of that sounding.
pub open spec fn is_depth_row<C: TileCanvas>(
    canvas: C,
    row: RawFeature,
    s: Sounding,
    props: Seq<(Seq<char>, PropView)>,
) -> bool {
    &&& row.shape is Point
    &&& call_ensures(C::pixel, (&canvas, s.at), row.shape->Point_0)
    &&& row.props@.len() == props.len() + 1
    &&& forall|k: int| 0 <= k < props.len() ==> (#[trigger] row.props@[k]).0@ == props[k].0 && row.props@[k].1@ == props[k].1
    &&& row.props@.last().0@ == "VALDCO"@
    &&& row.props@.last().1@ == PropView::F64(Some(s.depth))
}

/// `at` are the soundings that the tile was found to hold, in ascending order.
pub open spec fn lists_found<C: TileCanvas>(canvas: C, at: Seq<int>, pts: Seq<Sounding>, n: int) -> bool {
    &&& forall|k: int|
        0 <= k < at.len() ==> 0 <= #[trigger] at[k] < n && call_ensures(
            C::meets_point,
            (&canvas, pts[at[k]].at),
            true,
        )
    &&& forall|a: int, b: int| 0 <= a < b < at.len() ==> #[trigger] at[a] < #[trigger] at[b]
    &&& forall|j: int|
        0 <= j < n ==> at.contains(j) || call_ensures(C::meets_point, (&canvas, (#[trigger] pts[j]).at), false)
}

/// `rows` are the soundings of the given indices.
pub open spec fn are_depth_rows<C: TileCanvas>(
    canvas: C,
    rows: Seq<RawFeature>,
    at: Seq<int>,
    pts: Seq<Sounding>,
    props: Seq<(Seq<char>, PropView)>,
) -> bool {
    rows.len() == at.len() && forall|k: int|
        0 <= k < at.len() ==> is_depth_row(canvas, #[trigger] rows[k], pts[at[k]], props)
}

proof fn lemma_depth_rows<C: TileCanvas>(
    canvas: C,
    pts: Seq<Sounding>,
    props: Seq<(Seq<char>, PropView)>,
    hits: Seq<bool>,
    rows: Seq<RawFeature>,
    n: int,
) -> (at: Seq<int>)
    requires
        0 <= n <= pts.len(),
        hits.len() == pts.len(),
        sounding_rows(canvas, pts, props, hits, rows, n),
    ensures
        lists_found(canvas, at, pts, n),
        are_depth_rows(canvas, rows, at, pts, props),
    decreases n,
{
    if n <= 0 {
        Seq::empty()
    } else if hits[n - 1] {
        let before = lemma_depth_rows(canvas, pts, props, hits, rows.drop_last(), n - 1);
        let at = before.push(n - 1);
        assert forall|j: int| 0 <= j < n implies at.contains(j) || call_ensures(
            C::meets_point,
            (&canvas, (#[trigger] pts[j]).at),
            false,
        ) by {
            if j == n - 1 {
                assert(at[before.len() as int] == j);
            } else if before.contains(j) {
                let k = choose|k: int| 0 <= k < before.len() && before[k] == j;
                assert(at[k] == j);
            }
        }
        let row = rows.last();
        let depth = ("VALDCO"@, PropView::F64(Some(pts[n - 1].depth)));
        let told = props.push(depth);
        assert(prop_views(row.props@) == told);
        assert(prop_views(row.props@).len() == row.props@.len());
        assert forall|k: int| 0 <= k < props.len() implies (#[trigger] row.props@[k]).0@ == props[k].0
            && row.props@[k].1@ == props[k].1 by {
            assert(told[k] == props[k]);
            assert(prop_views(row.props@)[k] == (row.props@[k].0@, row.props@[k].1@));
        }
        assert(prop_views(row.props@)[props.len() as int] == (row.props@[props.len() as int].0@, row.props@[
            props.len() as int].1@));
        assert(told[props.len() as int] == depth);
        assert(is_depth_row(canvas, row, pts[n - 1], props));
        assert forall|k: int| 0 <= k < at.len() implies is_depth_row(canvas, #[trigger] rows[k], pts[at[k]], props) by {
            if k < before.len() {
                assert(rows[k] == rows.drop_last()[k]);
            }
        }
        at
    } else {
        lemma_depth_rows(canvas, pts, props, hits, rows, n - 1)
    }
}

/// Soundings become one point each: those in the tile, in their order, each with
/// its own depth. The rest is left out.
pub proof fn soundings_show_their_depths<C: TileCanvas>(
    canvas: C,
    f: Feature,
    names: Map<u16, String>,
    scale: u32,
    rows: Seq<RawFeature>,
)
    requires
        rows_of(canvas, f, names, scale, rows),
        shown_at(f.attribute_views(), scale),
        f.geometry is Soundings,
    ensures
        exists|at: Seq<int>| #[trigger]
            lists_found(canvas, at, f.geometry->Soundings_0@, f.geometry->Soundings_0@.len() as int) && are_depth_rows(
                canvas,
                rows,
                at,
                f.geometry->Soundings_0@,
                feature_props(f.attribute_views(), names),
            ),
{
    let pts = f.geometry->Soundings_0@;
    let props = feature_props(f.attribute_views(), names);
    let hits = choose|hits: Seq<bool>|
        hits.len() == pts.len() && #[trigger] sounding_rows(canvas, pts, props, hits, rows, pts.len() as int);
    let at = lemma_depth_rows(canvas, pts, props, hits, rows, pts.len() as int);
    assert(lists_found(canvas, at, pts, pts.len() as int));
}

/// The features that were added to a layer, one addition after the other.
pub open spec fn added_to(additions: Seq<Addition>, name: Seq<char>, n: int) -> Seq<RawFeature>
    decreases n,
{
    if n <= 0 {
        Seq::empty()
    } else {
        match additions[n - 1] {
            Some((layer, rows)) if layer == name => added_to(additions, name, n - 1) + rows,
            _ => added_to(additions, name, n - 1),
        }
    }
}

proof fn lemma_layer_content(additions: Seq<Addition>, name: Seq<char>, n: int)
    requires
        0 <= n <= additions.len(),
    ensures
        features_in(content_after(additions, n), name) == added_to(additions, name, n),
    decreases n,
{
    if n > 0 {
        lemma_layer_content(additions, name, n - 1);
    }
}

/// A layer of a tile holds what was added to it and nothing else: first, in the
/// order of the features, what each feature of its object class shows; then, in
/// the layers of sectors and flares only, what the lights add.
pub proof fn layers_hold_the_features_of_their_class<C: TileCanvas>(
    canvas: C,
    features: Seq<Feature>,
    objects: Map<u16, String>,
    names: Map<u16, String>,
    scale: u32,
    content: Map<Seq<char>, Seq<RawFeature>>,
    buoys: Seq<Option<(i64, i64)>>,
    additions: Seq<Addition>,
    name: Seq<char>,
    i: int,
)
    requires
        rendered(canvas, features, objects, names, scale, content, buoys, additions),
        0 <= i < features.len(),
    ensures
        features_in(content, name) == added_to(additions, name, 2 * features.len() as int),
        additions[i] matches Some((layer, rows)) ==> {
            &&& objects.contains_key(features[i].type_code)
            &&& layer == objects[features[i].type_code]@
            &&& rows_of(canvas, features[i], names, scale, rows)
            &&& geometry_meets(canvas, features[i].geometry, true)
        },
        additions[i] is None && objects.contains_key(features[i].type_code) ==> geometry_meets(
            canvas,
            features[i].geometry,
            false,
        ),
        additions[features.len() + i] matches Some((layer, _)) ==> {
            &&& layer == "LIGHTS_SECTOR"@ || layer == "LIGHTS_FLARE"@
            &&& objects.contains_key(features[i].type_code)
            &&& objects[features[i].type_code]@ == "LIGHTS"@
            &&& features[i].geometry is Point
            &&& shown_at(features[i].attribute_views(), scale)
        },
{
    lemma_layer_content(additions, name, 2 * features.len() as int);
    assert(feature_addition(canvas, features[i], objects, names, scale, additions[i]));
    assert(light_addition(canvas, features[i], objects, scale, buoys, additions[features.len() + i]));
}

/// A light that reaches into the tile shows what its own attributes say, and counts
/// as mounted on a buoy exactly where a lateral or cardinal buoy of the cell falls
/// into its grid cell.
pub proof fn lights_know_their_buoys<C: TileCanvas>(
    canvas: C,
    features: Seq<Feature>,
    objects: Map<u16, String>,
    names: Map<u16, String>,
    scale: u32,
    content: Map<Seq<char>, Seq<RawFeature>>,
    buoys: Seq<Option<(i64, i64)>>,
    additions: Seq<Addition>,
    i: int,
    p: Position,
)
    requires
        rendered(canvas, features, objects, names, scale, content, buoys, additions),
        0 <= i < features.len(),
        features[i].geometry == Geometry::Point(p),
        objects.contains_key(features[i].type_code),
        objects[features[i].type_code]@ == "LIGHTS"@,
        shown_at(features[i].attribute_views(), scale),
        call_ensures(C::meets_light, (&canvas, p, first_range(features[i].attribute_views())), true),
        !call_ensures(C::meets_light, (&canvas, p, first_range(features[i].attribute_views())), false),
        forall|q: Position, c: (i64, i64), d: (i64, i64)|
            #![trigger call_ensures(C::grid_cell, (&canvas, q), c), call_ensures(C::grid_cell, (&canvas, q), d)]
            call_ensures(C::grid_cell, (&canvas, q), c) && call_ensures(C::grid_cell, (&canvas, q), d) ==> c == d,
    ensures
        ({
            let attrs = features[i].attribute_views();
            let light = light_of(attrs, attrs.len() as int);
            additions[features.len() + i] matches Some((name, rows)) && exists|on_buoy: bool|
                #![trigger light_rows(canvas, p, light, on_buoy, name, rows)]
                light_rows(canvas, p, light, on_buoy, name, rows) && (on_buoy ==> exists|j: int, q: Position|
                    #![trigger is_buoy_at(features[j], objects, q)]
                    0 <= j < features.len() && is_buoy_at(features[j], objects, q) && exists|c: (i64, i64)| #[trigger]
                        call_ensures(C::grid_cell, (&canvas, q), c) && call_ensures(C::grid_cell, (&canvas, p), c)) && (
                !on_buoy ==> forall|j: int, q: Position|
                    #![trigger is_buoy_at(features[j], objects, q)]
                    0 <= j < features.len() && is_buoy_at(features[j], objects, q) ==> !(exists|c: (i64, i64)| #[trigger]
                        call_ensures(C::grid_cell, (&canvas, q), c) && call_ensures(C::grid_cell, (&canvas, p), c)))
        }),
{
    let n = features.len();
    let attrs = features[i].attribute_views();
    let light = light_of(attrs, attrs.len() as int);
    assert(light_addition(canvas, features[i], objects, scale, buoys, additions[n + i]));
    let cell = choose|cell: (i64, i64)| #[trigger]
        call_ensures(C::grid_cell, (&canvas, p), cell) && (additions[n + i] matches Some((name, rows)) && light_rows(
            canvas,
            p,
            light,
            buoys.contains(Some(cell)),
            name,
            rows,
        ));
    let (name, rows) = additions[n + i]->0;
    let on_buoy = buoys.contains(Some(cell));
    assert(light_rows(canvas, p, light, on_buoy, name, rows));
    if on_buoy {
        let j = choose|j: int| 0 <= j < buoys.len() && buoys[j] == Some(cell);
        assert(buoy_cell(canvas, features[j], objects, buoys[j]));
        let q = features[j].geometry->Point_0;
        assert(is_buoy_at(features[j], objects, q));
        assert(call_ensures(C::grid_cell, (&canvas, q), cell));
    } else {
        assert forall|j: int, q: Position|
            #![trigger is_buoy_at(features[j], objects, q)]
            0 <= j < features.len() && is_buoy_at(features[j], objects, q) implies !(exists|c: (i64, i64)| #[trigger]
            call_ensures(C::grid_cell, (&canvas, q), c) && call_ensures(C::grid_cell, (&canvas, p), c)) by {
            assert(buoy_cell(canvas, features[j], objects, buoys[j]));
            if exists|c: (i64, i64)| #[trigger]
                call_ensures(C::grid_cell, (&canvas, q), c) && call_ensures(C::grid_cell, (&canvas, p), c) {
                let c = choose|c: (i64, i64)| #[trigger]
                    call_ensures(C::grid_cell, (&canvas, q), c) && call_ensures(C::grid_cell, (&canvas, p), c);
                assert(c == cell);
                assert(call_ensures(C::grid_cell, (&canvas, q), buoys[j]->0));
                assert(buoys[j] == Some(cell));
            }
        }
    }
}

/// The feature is a lateral or cardinal buoy at a place.
pub open spec fn is_buoy_at(f: Feature, objects: Map<u16, String>, q: Position) -> bool {
    &&& f.geometry == Geometry::Point(q)
    &&& objects.contains_key(f.type_code)
    &&& objects[f.type_code]@ == "BOYLAT"@ || objects[f.type_code]@ == "BOYCAR"@
}

/// Soundings meet a tile exactly where one of them was found to lie in it.
pub proof fn soundings_meet_where_one_does<C: TileCanvas>(canvas: C, pts: Vec<Sounding>, hit: bool) -> (i: int)
    requires
        geometry_meets(canvas, Geometry::Soundings(pts), hit),
    ensures
        hit ==> 0 <= i < pts@.len() && call_ensures(C::meets_point, (&canvas, pts@[i].at), true),
        !hit ==> forall|k: int| 0 <= k < pts@.len() ==> call_ensures(C::meets_point, (&canvas, (#[trigger] pts@[k]).at), false),
{
    let n = choose|n: int|
        0 <= n <= pts@.len() && (hit <==> n < pts@.len()) && (hit ==> call_ensures(
            C::meets_point,
            (&canvas, pts@[n].at),
            true,
        )) && #[trigger] first_apart(canvas, pts@, n);
    n
}

/// Whether a point, a line or an area meets a tile is what the canvas says of that
/// very point, line or area; a feature without a geometry meets none.
pub proof fn the_canvas_says_what_meets<C: TileCanvas>(
    canvas: C,
    p: Position,
    line: Vec<Position>,
    area: Polygon<Position>,
    hit: bool,
)
    ensures
        geometry_meets(canvas, Geometry::Point(p), hit) <==> call_ensures(C::meets_point, (&canvas, p), hit),
        geometry_meets(canvas, Geometry::Line(line), hit) <==> call_ensures(C::meets_line, (&canvas, &line), hit),
        geometry_meets(canvas, Geometry::Area(area), hit) <==> call_ensures(C::meets_area, (&canvas, &area), hit),
        geometry_meets(canvas, Geometry::Empty, hit) <==> !hit,
{
}

/// A point that is shown becomes one point at its pixel, with the properties of its
/// feature.
pub proof fn points_show_their_pixel<C: TileCanvas>(
    canvas: C,
    f: Feature,
    names: Map<u16, String>,
    scale: u32,
    rows: Seq<RawFeature>,
)
    requires
        rows_of(canvas, f, names, scale, rows),
        shown_at(f.attribute_views(), scale),
        f.geometry is Point,
    ensures
        rows.len() == 1,
        rows[0].shape is Point,
        call_ensures(C::pixel, (&canvas, f.geometry->Point_0), rows[0].shape->Point_0),
        prop_views(rows[0].props@) == feature_props(f.attribute_views(), names),
{
}

/// A line becomes one feature of all its strokes within the tile, with its
/// properties, where one of them has a point, and nothing otherwise.
pub proof fn lines_show_all_their_strokes<C: TileCanvas>(
    canvas: C,
    f: Feature,
    names: Map<u16, String>,
    scale: u32,
    rows: Seq<RawFeature>,
    strokes: Vec<Vec<Pixel>>,
)
    requires
        rows_of(canvas, f, names, scale, rows),
        shown_at(f.attribute_views(), scale),
        f.geometry is Line,
        f.geometry->Line_0@.len() > 0,
        forall|c: Vec<Vec<Pixel>>|
            #![trigger call_ensures(C::clip_line, (&canvas, &f.geometry->Line_0), c)]
            call_ensures(C::clip_line, (&canvas, &f.geometry->Line_0), c) ==> c == strokes,
    ensures
        (exists|i: int| 0 <= i < strokes@.len() && (#[trigger] strokes@[i])@.len() > 0) ==> rows.len() == 1
            && rows[0].shape == PixelShape::MultiLine(strokes) && prop_views(rows[0].props@) == feature_props(
            f.attribute_views(),
            names,
        ),
        (forall|i: int| 0 <= i < strokes@.len() ==> (#[trigger] strokes@[i])@.len() == 0) ==> rows.len() == 0,
{
}

/// An area becomes one feature of all its parts within the tile, with its
/// properties, where one of them has an exterior, and nothing otherwise.
pub proof fn areas_show_all_their_parts<C: TileCanvas>(
    canvas: C,
    f: Feature,
    names: Map<u16, String>,
    scale: u32,
    rows: Seq<RawFeature>,
    parts: Vec<Polygon<Pixel>>,
)
    requires
        rows_of(canvas, f, names, scale, rows),
        shown_at(f.attribute_views(), scale),
        f.geometry is Area,
        f.geometry->Area_0.exterior@.len() > 0,
        forall|c: Vec<Polygon<Pixel>>|
            #![trigger call_ensures(C::clip_area, (&canvas, &f.geometry->Area_0), c)]
            call_ensures(C::clip_area, (&canvas, &f.geometry->Area_0), c) ==> c == parts,
    ensures
        (exists|i: int| 0 <= i < parts@.len() && (#[trigger] parts@[i]).exterior@.len() > 0) ==> rows.len() == 1
            && rows[0].shape == PixelShape::MultiPolygon(parts) && prop_views(rows[0].props@) == feature_props(
            f.attribute_views(),
            names,
        ),
        (forall|i: int| 0 <= i < parts@.len() ==> (#[trigger] parts@[i]).exterior@.len() == 0) ==> rows.len() == 0,
{
}

/// A light that is found not to reach into the tile adds nothing, nor does a light
/// that is hidden at the scale of the tile, one that is no point, or a feature of
/// another class.
pub proof fn lights_out_of_reach_add_nothing<C: TileCanvas>(
    canvas: C,
    features: Seq<Feature>,
    objects: Map<u16, String>,
    names: Map<u16, String>,
    scale: u32,
    content: Map<Seq<char>, Seq<RawFeature>>,
    buoys: Seq<Option<(i64, i64)>>,
    additions: Seq<Addition>,
    i: int,
)
    requires
        rendered(canvas, features, objects, names, scale, content, buoys, additions),
        0 <= i < features.len(),
        ({
            let attrs = features[i].attribute_views();
            ||| !objects.contains_key(features[i].type_code)
            ||| objects[features[i].type_code]@ != "LIGHTS"@
            ||| !(features[i].geometry is Point)
            ||| !shown_at(attrs, scale)
            ||| !call_ensures(C::meets_light, (&canvas, features[i].geometry->Point_0, first_range(attrs)), true)
        }),
    ensures
        additions[features.len() + i] is None,
{
    assert(light_addition(canvas, features[i], objects, scale, buoys, additions[features.len() + i]));
}

/// A feature that is found not to meet the tile adds nothing, nor does one of an
/// unknown class; one that is found to meet it adds to the layer of its class.
pub proof fn features_elsewhere_add_nothing<C: TileCanvas>(
    canvas: C,
    features: Seq<Feature>,
    objects: Map<u16, String>,
    names: Map<u16, String>,
    scale: u32,
    content: Map<Seq<char>, Seq<RawFeature>>,
    buoys: Seq<Option<(i64, i64)>>,
    additions: Seq<Addition>,
    i: int,
)
    requires
        rendered(canvas, features, objects, names, scale, content, buoys, additions),
        0 <= i < features.len(),
    ensures
        !objects.contains_key(features[i].type_code) || !geometry_meets(canvas, features[i].geometry, true)
            ==> additions[i] is None,
        objects.contains_key(features[i].type_code) && !geometry_meets(canvas, features[i].geometry, false) ==> (
        additions[i] matches Some((layer, _)) && layer == objects[features[i].type_code]@),
{
    assert(feature_addition(canvas, features[i], objects, names, scale, additions[i]));
}

} // verus!
