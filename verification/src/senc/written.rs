//! Records as they are written, and that they are read back.
use vstd::prelude::*;
use crate::bbox::Bbox;
use crate::bytes::{
    found, lemma_found_parts, lemma_put16, lemma_put32, lemma_put64, lemma_put_all, put16, put32, put_all,
    put_i16, put_i32, put_real, put_single, real_at,
};
use crate::scalar::{Position, Real, Single};
use crate::senc::area::{
    area_fault, area_of, prim_at, prim_end, prims_at, prims_end, prims_fault,
};
use crate::senc::collect::{
    attribute_of, bounds_of, feature_of, line_of, multipoint_of, point_of, CollectorView,
};
use crate::senc::tables::{with_edges, with_nodes};
use crate::senc::{
    edge_ref_at, edge_refs_at, fitting, numbers_at, sm_point_at, sm_points_at, soundings_at, AreaView, AttrValueView, AttributeView, Coding, EdgeRef, FeatureView, GeometryView, PrimExtent, RawSounding, SmPoint,
    TriPrimView,
};
use crate::text::{c_text, lossy_text, zero_at};

verus! {

// ── Fields ───────────────────────────────────────────────────────────────────

/// The four fields of an edge reference.
pub open spec fn put_ref(r: EdgeRef) -> Seq<u8> {
    put_i32(r.start) + (put_i32(r.edge) + (put_i32(r.end) + put_i32(r.dir)))
}

/// A point in metres: east, then north.
pub open spec fn put_point(p: (Single, Single)) -> Seq<u8> {
    put_single(p.0) + put_single(p.1)
}

/// A scaled point: east, then north.
pub open spec fn put_scaled(p: (i16, i16)) -> Seq<u8> {
    put_i16(p.0) + put_i16(p.1)
}

/// A sounding: east, north, depth.
pub open spec fn put_sounding(s: (Single, Single, Single)) -> Seq<u8> {
    put_single(s.0) + (put_single(s.1) + put_single(s.2))
}

proof fn lemma_signed(s: Seq<u8>, at: int, v: i32)
    ensures
        put_i32(v).len() == 4,
        found(s, at, put_i32(v)) ==> crate::bytes::le32_signed(s, at) == v,
{
    lemma_put32(s, at, (if v >= 0 { v as int } else { v + 0x1_0000_0000 }) as u32);
}

proof fn lemma_short(s: Seq<u8>, at: int, v: i16)
    ensures
        put_i16(v).len() == 2,
        found(s, at, put_i16(v)) ==> crate::bytes::le16_signed(s, at) == v,
{
    lemma_put16(s, at, (if v >= 0 { v as int } else { v + 0x1_0000 }) as u16);
}

proof fn lemma_ref(s: Seq<u8>, at: int, r: EdgeRef)
    ensures
        put_ref(r).len() == 16,
        found(s, at, put_ref(r)) ==> edge_ref_at(s, at) == r,
{
    lemma_signed(s, at, r.start);
    lemma_signed(s, at + 4, r.edge);
    lemma_signed(s, at + 8, r.end);
    lemma_signed(s, at + 12, r.dir);
    if found(s, at, put_ref(r)) {
        lemma_found_parts(s, at, put_i32(r.start), put_i32(r.edge) + (put_i32(r.end) + put_i32(r.dir)));
        lemma_found_parts(s, at + 4, put_i32(r.edge), put_i32(r.end) + put_i32(r.dir));
        lemma_found_parts(s, at + 8, put_i32(r.end), put_i32(r.dir));
    }
}

pub(crate) proof fn lemma_refs(s: Seq<u8>, at: int, refs: Seq<EdgeRef>)
    ensures
        put_all(refs, |r: EdgeRef| put_ref(r)).len() == 16 * refs.len(),
        found(s, at, put_all(refs, |r: EdgeRef| put_ref(r))) ==> edge_refs_at(s, at, refs.len() as int) == refs,
{
    let put = |r: EdgeRef| put_ref(r);
    assert forall|r: EdgeRef| (#[trigger] put(r)).len() == 16 by {
        lemma_ref(s, at, r);
    }
    lemma_put_all(s, at, refs, put, 16, 0);
    if found(s, at, put_all(refs, put)) {
        let out = edge_refs_at(s, at, refs.len() as int);
        assert forall|i: int| 0 <= i < refs.len() implies out[i] == refs[i] by {
            lemma_put_all(s, at, refs, put, 16, i);
            lemma_ref(s, at + 16 * i, refs[i]);
        }
        assert(out =~= refs);
    }
}

/// The point that two fields of metres stand for.
pub open spec fn plain(p: (Single, Single)) -> SmPoint {
    SmPoint::Plain { east: p.0.widened(), north: p.1.widened() }
}

/// The point that two scaled fields stand for.
pub open spec fn scaled(p: (i16, i16), scale: Real) -> SmPoint {
    SmPoint::Scaled { x: p.0, y: p.1, scale }
}

proof fn lemma_point(s: Seq<u8>, at: int, p: (Single, Single))
    ensures
        put_point(p).len() == 8,
        found(s, at, put_point(p)) ==> sm_point_at(s, at, Coding::Plain) == plain(p),
{
    lemma_put32(s, at, p.0.bits);
    lemma_put32(s, at + 4, p.1.bits);
    if found(s, at, put_point(p)) {
        lemma_found_parts(s, at, put_single(p.0), put_single(p.1));
    }
}

proof fn lemma_scaled(s: Seq<u8>, at: int, p: (i16, i16), scale: Real)
    ensures
        put_scaled(p).len() == 4,
        found(s, at, put_scaled(p)) ==> sm_point_at(s, at, Coding::Scaled(scale)) == scaled(p, scale),
{
    lemma_short(s, at, p.0);
    lemma_short(s, at + 2, p.1);
    if found(s, at, put_scaled(p)) {
        lemma_found_parts(s, at, put_i16(p.0), put_i16(p.1));
    }
}

pub(crate) proof fn lemma_points(s: Seq<u8>, at: int, pts: Seq<(Single, Single)>)
    ensures
        put_all(pts, |p: (Single, Single)| put_point(p)).len() == 8 * pts.len(),
        found(s, at, put_all(pts, |p: (Single, Single)| put_point(p))) ==> sm_points_at(
            s,
            at,
            Coding::Plain,
            pts.len() as int,
        ) == pts.map_values(|p: (Single, Single)| plain(p)),
{
    let put = |p: (Single, Single)| put_point(p);
    assert forall|p: (Single, Single)| (#[trigger] put(p)).len() == 8 by {
        lemma_point(s, at, p);
    }
    lemma_put_all(s, at, pts, put, 8, 0);
    if found(s, at, put_all(pts, put)) {
        let out = sm_points_at(s, at, Coding::Plain, pts.len() as int);
        let want = pts.map_values(|p: (Single, Single)| plain(p));
        assert forall|i: int| 0 <= i < pts.len() implies out[i] == want[i] by {
            lemma_put_all(s, at, pts, put, 8, i);
            lemma_point(s, at + 8 * i, pts[i]);
        }
        assert(out =~= want);
    }
}

proof fn lemma_scaled_points(s: Seq<u8>, at: int, pts: Seq<(i16, i16)>, scale: Real)
    ensures
        put_all(pts, |p: (i16, i16)| put_scaled(p)).len() == 4 * pts.len(),
        found(s, at, put_all(pts, |p: (i16, i16)| put_scaled(p))) ==> sm_points_at(
            s,
            at,
            Coding::Scaled(scale),
            pts.len() as int,
        ) == pts.map_values(|p: (i16, i16)| scaled(p, scale)),
{
    let put = |p: (i16, i16)| put_scaled(p);
    assert forall|p: (i16, i16)| (#[trigger] put(p)).len() == 4 by {
        lemma_scaled(s, at, p, scale);
    }
    lemma_put_all(s, at, pts, put, 4, 0);
    if found(s, at, put_all(pts, put)) {
        let out = sm_points_at(s, at, Coding::Scaled(scale), pts.len() as int);
        let want = pts.map_values(|p: (i16, i16)| scaled(p, scale));
        assert forall|i: int| 0 <= i < pts.len() implies out[i] == want[i] by {
            lemma_put_all(s, at, pts, put, 4, i);
            lemma_scaled(s, at + 4 * i, pts[i], scale);
        }
        assert(out =~= want);
    }
}

pub(crate) proof fn lemma_self(p: Seq<u8>)
    ensures
        found(p, 0, p),
{
    assert(p.subrange(0, p.len() as int) =~= p);
}

// ── Texts ────────────────────────────────────────────────────────────────────

pub(crate) proof fn lemma_zero(s: Seq<u8>, at: int, stop: int, end: int)
    requires
        0 <= at <= stop <= end <= s.len(),
        stop == end || s[stop] == 0,
        forall|i: int| at <= i < stop ==> #[trigger] s[i] != 0,
    ensures
        zero_at(s, at, end) == stop,
    decreases stop - at,
{
    if at < stop {
        assert(s[at] != 0);
        lemma_zero(s, at + 1, stop, end);
    }
}

/// A text field holds the bytes up to its first zero, or all of them where it has
/// none.
pub proof fn texts_end_at_the_first_zero(head: Seq<u8>, text: Seq<u8>, rest: Seq<u8>, max: int)
    requires
        forall|i: int| 0 <= i < text.len() ==> #[trigger] text[i] != 0,
    ensures
        max > text.len() ==> c_text(head + (text + (seq![0u8] + rest)), head.len() as int, max) == Some(lossy_text(text)),
        c_text(head + text, head.len() as int, text.len() as int) == Some(lossy_text(text)),
{
    let at = head.len() as int;
    let stop = at + text.len();
    let a = head + (text + (seq![0u8] + rest));
    assert forall|i: int| at <= i < stop implies #[trigger] a[i] != 0 by {
        assert(a[i] == text[i - at]);
    }
    assert(a[stop] == 0);
    if max > text.len() {
        let end = if at + max <= a.len() { at + max } else { a.len() as int };
        lemma_zero(a, at, stop, end);
        assert(a.subrange(at, stop) =~= text);
    }
    let b = head + text;
    assert forall|i: int| at <= i < stop implies #[trigger] b[i] != 0 by {
        assert(b[i] == text[i - at]);
    }
    lemma_zero(b, at, stop, stop);
    assert(b.subrange(at, stop) =~= text);
}

// ── Features ─────────────────────────────────────────────────────────────────

/// A feature record is a type, an identifier and a primitive.
pub proof fn feature_records_are_read(type_code: u16, id: u16, primitive: u8, rest: Seq<u8>)
    ensures
        feature_of(put16(type_code) + (put16(id) + (seq![primitive] + rest))) == Some(
            FeatureView {
                type_code,
                id,
                primitive,
                attributes: Seq::empty(),
                geometry: GeometryView::Empty,
            },
        ),
{
    let p = put16(type_code) + (put16(id) + (seq![primitive] + rest));
    lemma_self(p);
    lemma_put16(p, 0, type_code);
    lemma_put16(p, 2, id);
    lemma_found_parts(p, 0, put16(type_code), put16(id) + (seq![primitive] + rest));
    lemma_found_parts(p, 2, put16(id), seq![primitive] + rest);
    assert(p[4] == primitive);
}

/// An attribute record is a code, a value type and a value: type 0 a whole number,
/// type 2 a number, type 4 a text.
pub proof fn attribute_records_are_read(code: u16, v: u32, x: Real, text: Seq<u8>, rest: Seq<u8>)
    requires
        forall|i: int| 0 <= i < text.len() ==> #[trigger] text[i] != 0,
    ensures
        attribute_of(put16(code) + (seq![0u8] + (put32(v) + rest))) == Some(
            AttributeView { code, value: AttrValueView::Int(v) },
        ),
        attribute_of(put16(code) + (seq![2u8] + (put_real(x) + rest))) == Some(
            AttributeView { code, value: AttrValueView::Double(x) },
        ),
        attribute_of(put16(code) + (seq![4u8] + (text + (seq![0u8] + rest)))) == Some(
            AttributeView { code, value: AttrValueView::Str(lossy_text(text)) },
        ),
        attribute_of(put16(code) + (seq![4u8] + text)) == Some(
            AttributeView { code, value: AttrValueView::Str(lossy_text(text)) },
        ),
{
    let a = put16(code) + (seq![0u8] + (put32(v) + rest));
    lemma_self(a);
    lemma_put16(a, 0, code);
    lemma_put32(a, 3, v);
    lemma_found_parts(a, 0, put16(code), seq![0u8] + (put32(v) + rest));
    lemma_found_parts(a, 2, seq![0u8], put32(v) + rest);
    lemma_found_parts(a, 3, put32(v), rest);
    assert(a[2] == 0);
    let b = put16(code) + (seq![2u8] + (put_real(x) + rest));
    lemma_self(b);
    lemma_put16(b, 0, code);
    lemma_put64(b, 3, x.bits);
    lemma_found_parts(b, 0, put16(code), seq![2u8] + (put_real(x) + rest));
    lemma_found_parts(b, 2, seq![2u8], put_real(x) + rest);
    lemma_found_parts(b, 3, put_real(x), rest);
    assert(b[2] == 2);
    let head = put16(code) + seq![4u8];
    let c = put16(code) + (seq![4u8] + (text + (seq![0u8] + rest)));
    assert(c =~= head + (text + (seq![0u8] + rest)));
    lemma_self(c);
    lemma_put16(c, 0, code);
    lemma_found_parts(c, 0, put16(code), seq![4u8] + (text + (seq![0u8] + rest)));
    texts_end_at_the_first_zero(head, text, rest, c.len() - 3);
    assert(c[2] == 4);
    let d = put16(code) + (seq![4u8] + text);
    assert(d =~= head + text);
    lemma_self(d);
    lemma_put16(d, 0, code);
    lemma_found_parts(d, 0, put16(code), seq![4u8] + text);
    assert(d[2] == 4);
}

/// A point record is a latitude and a longitude.
pub proof fn point_records_are_read(lat: Real, lon: Real, rest: Seq<u8>)
    ensures
        point_of(put_real(lat) + (put_real(lon) + rest)) == Some(GeometryView::Point(Position { lon, lat })),
{
    let p = put_real(lat) + (put_real(lon) + rest);
    lemma_self(p);
    lemma_put64(p, 0, lat.bits);
    lemma_put64(p, 8, lon.bits);
    lemma_found_parts(p, 0, put_real(lat), put_real(lon) + rest);
    lemma_found_parts(p, 8, put_real(lon), rest);
}

/// A line record is an extent of 32 bytes, a count and that many edge references:
/// start node, edge, end node, direction.
pub proof fn line_records_are_read(extent: Seq<u8>, refs: Seq<EdgeRef>, rest: Seq<u8>)
    requires
        extent.len() == 32,
        refs.len() <= u32::MAX,
    ensures
        line_of(extent + (put32(refs.len() as u32) + (put_all(refs, |r: EdgeRef| put_ref(r)) + rest))) == Some(
            GeometryView::Line(refs),
        ),
{
    let n = refs.len() as u32;
    let list = put_all(refs, |r: EdgeRef| put_ref(r));
    let p = extent + (put32(n) + (list + rest));
    lemma_self(p);
    lemma_put32(p, 32, n);
    lemma_refs(p, 36, refs);
    lemma_found_parts(p, 0, extent, put32(n) + (list + rest));
    lemma_found_parts(p, 32, put32(n), list + rest);
    lemma_found_parts(p, 36, list, rest);
    assert(fitting(p, 36, 16, n as int) == n);
}

pub(crate) proof fn lemma_soundings(s: Seq<u8>, at: int, pts: Seq<(Single, Single, Single)>)
    ensures
        put_all(pts, |s: (Single, Single, Single)| put_sounding(s)).len() == 12 * pts.len(),
        found(s, at, put_all(pts, |s: (Single, Single, Single)| put_sounding(s))) ==> soundings_at(
            s,
            at,
            pts.len() as int,
        ) == pts.map_values(
            |s: (Single, Single, Single)| RawSounding { at: plain((s.0, s.1)), depth: s.2.widened() },
        ),
{
    let put = |s: (Single, Single, Single)| put_sounding(s);
    assert forall|x: (Single, Single, Single)| (#[trigger] put(x)).len() == 12 by {
        lemma_put32(s, 0, x.0.bits);
        lemma_put32(s, 0, x.1.bits);
        lemma_put32(s, 0, x.2.bits);
    }
    lemma_put_all(s, at, pts, put, 12, 0);
    if found(s, at, put_all(pts, put)) {
        let out = soundings_at(s, at, pts.len() as int);
        let want = pts.map_values(
            |s: (Single, Single, Single)| RawSounding { at: plain((s.0, s.1)), depth: s.2.widened() },
        );
        assert forall|i: int| 0 <= i < pts.len() implies out[i] == want[i] by {
            let here = at + 12 * i;
            let x = pts[i];
            lemma_put_all(s, at, pts, put, 12, i);
            lemma_put32(s, here, x.0.bits);
            lemma_put32(s, here + 4, x.1.bits);
            lemma_put32(s, here + 8, x.2.bits);
            lemma_found_parts(s, here, put_single(x.0), put_single(x.1) + put_single(x.2));
            lemma_found_parts(s, here + 4, put_single(x.1), put_single(x.2));
        }
        assert(out =~= want);
    }
}

/// A multipoint record is an extent of 32 bytes, a count and that many soundings:
/// east, north, depth.
pub proof fn multipoint_records_are_read(extent: Seq<u8>, pts: Seq<(Single, Single, Single)>, rest: Seq<u8>)
    requires
        extent.len() == 32,
        pts.len() <= u32::MAX,
    ensures
        multipoint_of(
            extent + (put32(pts.len() as u32) + (put_all(pts, |s: (Single, Single, Single)| put_sounding(s)) + rest)),
        ) == Some(
            GeometryView::Sounding(
                pts.map_values(
                    |s: (Single, Single, Single)|
                        RawSounding { at: plain((s.0, s.1)), depth: s.2.widened() },
                ),
            ),
        ),
{
    let n = pts.len() as u32;
    let list = put_all(pts, |s: (Single, Single, Single)| put_sounding(s));
    let p = extent + (put32(n) + (list + rest));
    lemma_self(p);
    lemma_put32(p, 32, n);
    lemma_soundings(p, 36, pts);
    lemma_found_parts(p, 0, extent, put32(n) + (list + rest));
    lemma_found_parts(p, 32, put32(n), list + rest);
    lemma_found_parts(p, 36, list, rest);
    assert(fitting(p, 36, 12, n as int) == n);
}

/// An extent record names the corners of a cell: latitude and longitude of the
/// south-west, north-west, north-east and south-east one. Each side of the bounds
/// lies at the outer one of its two corners.
pub proof fn extent_records_are_read(c: Seq<Real>, rest: Seq<u8>)
    requires
        c.len() == 8,
        forall|i: int| 0 <= i < 8 ==> !(#[trigger] c[i]).nan(),
    ensures
        bounds_of(put_all(c, |v: Real| put_real(v)) + rest) matches Some(b) && {
            &&& b.south.at_most(c[0]) && b.south.at_most(c[6]) && (b.south == c[0] || b.south == c[6])
            &&& b.west.at_most(c[1]) && b.west.at_most(c[3]) && (b.west == c[1] || b.west == c[3])
            &&& c[2].at_most(b.north) && c[4].at_most(b.north) && (b.north == c[2] || b.north == c[4])
            &&& c[5].at_most(b.east) && c[7].at_most(b.east) && (b.east == c[5] || b.east == c[7])
        },
{
    let put = |v: Real| put_real(v);
    let list = put_all(c, put);
    let p = list + rest;
    assert forall|v: Real| (#[trigger] put(v)).len() == 8 by {
        lemma_put64(p, 0, v.bits);
    }
    lemma_self(p);
    lemma_put_all(p, 0, c, put, 8, 0);
    lemma_found_parts(p, 0, list, rest);
    assert forall|i: int| 0 <= i < 8 implies #[trigger] real_at(p, 8 * i) == c[i] by {
        lemma_put_all(p, 0, c, put, 8, i);
        lemma_put64(p, 8 * i, c[i].bits);
    }
    let at = |i: int| real_at(p, 8 * i);
    assert(at(0) == c[0] && at(1) == c[1] && at(2) == c[2] && at(3) == c[3]);
    assert(at(4) == c[4] && at(5) == c[5] && at(6) == c[6] && at(7) == c[7]);
}

// ── Features in a stream ─────────────────────────────────────────────────────

/// A feature record starts a feature behind all that came before.
pub proof fn a_feature_record_adds_a_feature(c: CollectorView, p: Seq<u8>)
    ensures
        feature_of(p) matches Some(f) ==> c.started(p).all() == c.all().push(f),
        feature_of(p) is None ==> c.started(p).all() == c.all() && c.started(p).current is None,
{
}

/// Attribute and geometry records describe the feature that was started last; the
/// others stay as they are.
pub proof fn records_describe_the_last_feature(c: CollectorView, a: AttributeView, g: GeometryView)
    ensures
        c.current matches Some(f) ==> {
            let n = c.all().len() as int;
            &&& n > 0
            &&& c.described(Some(a)).all() == c.all().update(
                n - 1,
                FeatureView {
                    type_code: f.type_code,
                    id: f.id,
                    primitive: f.primitive,
                    attributes: f.attributes.push(a),
                    geometry: f.geometry,
                },
            )
            &&& c.shaped(Some(g)).all() == c.all().update(
                n - 1,
                FeatureView {
                    type_code: f.type_code,
                    id: f.id,
                    primitive: f.primitive,
                    attributes: f.attributes,
                    geometry: g,
                },
            )
        },
        c.described(None).all() == c.all(),
        c.shaped(None).all() == c.all(),
        c.current is None ==> c.described(Some(a)).all() == c.all() && c.shaped(Some(g)).all() == c.all(),
{
    if let Some(f) = c.current {
        let n = c.all().len() as int;
        assert(c.described(Some(a)).all() =~= c.all().update(
            n - 1,
            FeatureView { attributes: f.attributes.push(a), ..f },
        ));
        assert(c.shaped(Some(g)).all() =~= c.all().update(n - 1, FeatureView { geometry: g, ..f }));
    }
}

// ── Tables ───────────────────────────────────────────────────────────────────

/// An edge of a table: its index, the number of its points, and the points.
pub open spec fn put_edge(e: (u32, Seq<(Single, Single)>)) -> Seq<u8> {
    put32(e.0) + (put32(e.1.len() as u32) + put_all(e.1, |p: (Single, Single)| put_point(p)))
}

/// A table after the edges of a list, one after the other.
pub open spec fn edges_added(
    edges: Map<u32, Seq<SmPoint>>,
    list: Seq<(u32, Seq<(Single, Single)>)>,
) -> Map<u32, Seq<SmPoint>>
    decreases list.len(),
{
    if list.len() == 0 {
        edges
    } else {
        edges_added(
            edges.insert(list[0].0, list[0].1.map_values(|p: (Single, Single)| plain(p))),
            list.skip(1),
        )
    }
}

/// The edges of a written table are read in their order, each with its points; a
/// later edge replaces an earlier one of its index.
pub proof fn edge_tables_are_read(
    edges: Map<u32, Seq<SmPoint>>,
    s: Seq<u8>,
    at: int,
    list: Seq<(u32, Seq<(Single, Single)>)>,
)
    requires
        found(s, at, put_all(list, |e: (u32, Seq<(Single, Single)>)| put_edge(e))),
        forall|i: int| 0 <= i < list.len() ==> (#[trigger] list[i]).1.len() <= u32::MAX,
    ensures
        with_edges(edges, s, at, list.len() as int, Coding::Plain) == edges_added(edges, list),
    decreases list.len(),
{
    if list.len() > 0 {
        let put = |e: (u32, Seq<(Single, Single)>)| put_edge(e);
        let rest = list.skip(1);
        let (index, pts) = list[0];
        assert(list[0].1.len() <= u32::MAX);
        let n = pts.len() as u32;
        let points = put_all(pts, |p: (Single, Single)| put_point(p));
        lemma_found_parts(s, at, put(list[0]), put_all(rest, put));
        lemma_put32(s, at, index);
        lemma_put32(s, at + 4, n);
        lemma_points(s, at + 8, pts);
        lemma_found_parts(s, at, put32(index), put32(n) + points);
        lemma_found_parts(s, at + 4, put32(n), points);
        assert(fitting(s, at + 8, 8, n as int) == n);
        assert forall|i: int| 0 <= i < rest.len() implies (#[trigger] rest[i]).1.len() <= u32::MAX by {
            assert(list[i + 1].1.len() <= u32::MAX);
        }
        let next = edges.insert(index, pts.map_values(|p: (Single, Single)| plain(p)));
        edge_tables_are_read(next, s, at + 8 + 8 * n, rest);
        assert(put(list[0]).len() == 8 + 8 * n);
    }
}

/// A scaled edge of a table.
pub open spec fn put_scaled_edge(e: (u32, Seq<(i16, i16)>)) -> Seq<u8> {
    put32(e.0) + (put32(e.1.len() as u32) + put_all(e.1, |p: (i16, i16)| put_scaled(p)))
}

/// A table after the scaled edges of a list, one after the other.
pub open spec fn scaled_edges_added(
    edges: Map<u32, Seq<SmPoint>>,
    list: Seq<(u32, Seq<(i16, i16)>)>,
    scale: Real,
) -> Map<u32, Seq<SmPoint>>
    decreases list.len(),
{
    if list.len() == 0 {
        edges
    } else {
        scaled_edges_added(
            edges.insert(list[0].0, list[0].1.map_values(|p: (i16, i16)| scaled(p, scale))),
            list.skip(1),
            scale,
        )
    }
}

/// The scaled edges of a written table are read in their order, each with its
/// points and the scale of the table.
pub proof fn scaled_edge_tables_are_read(
    edges: Map<u32, Seq<SmPoint>>,
    s: Seq<u8>,
    at: int,
    list: Seq<(u32, Seq<(i16, i16)>)>,
    scale: Real,
)
    requires
        found(s, at, put_all(list, |e: (u32, Seq<(i16, i16)>)| put_scaled_edge(e))),
        forall|i: int| 0 <= i < list.len() ==> (#[trigger] list[i]).1.len() <= u32::MAX,
    ensures
        with_edges(edges, s, at, list.len() as int, Coding::Scaled(scale)) == scaled_edges_added(edges, list, scale),
    decreases list.len(),
{
    if list.len() > 0 {
        let put = |e: (u32, Seq<(i16, i16)>)| put_scaled_edge(e);
        let rest = list.skip(1);
        let (index, pts) = list[0];
        assert(list[0].1.len() <= u32::MAX);
        let n = pts.len() as u32;
        let points = put_all(pts, |p: (i16, i16)| put_scaled(p));
        lemma_found_parts(s, at, put(list[0]), put_all(rest, put));
        lemma_put32(s, at, index);
        lemma_put32(s, at + 4, n);
        lemma_scaled_points(s, at + 8, pts, scale);
        lemma_found_parts(s, at, put32(index), put32(n) + points);
        lemma_found_parts(s, at + 4, put32(n), points);
        assert(fitting(s, at + 8, 4, n as int) == n);
        assert forall|i: int| 0 <= i < rest.len() implies (#[trigger] rest[i]).1.len() <= u32::MAX by {
            assert(list[i + 1].1.len() <= u32::MAX);
        }
        let next = edges.insert(index, pts.map_values(|p: (i16, i16)| scaled(p, scale)));
        scaled_edge_tables_are_read(next, s, at + 8 + 4 * n, rest, scale);
        assert(put(list[0]).len() == 8 + 4 * n);
    }
}

/// A node of a table: its index and its point.
pub open spec fn put_node(e: (u32, (Single, Single))) -> Seq<u8> {
    put32(e.0) + put_point(e.1)
}

/// A table after the nodes of a list, one after the other.
pub open spec fn nodes_added(nodes: Map<u32, SmPoint>, list: Seq<(u32, (Single, Single))>) -> Map<u32, SmPoint>
    decreases list.len(),
{
    if list.len() == 0 {
        nodes
    } else {
        nodes_added(nodes.insert(list[0].0, plain(list[0].1)), list.skip(1))
    }
}

/// The nodes of a written table are read in their order; a later node replaces an
/// earlier one of its index.
pub proof fn node_tables_are_read(
    nodes: Map<u32, SmPoint>,
    s: Seq<u8>,
    at: int,
    list: Seq<(u32, (Single, Single))>,
)
    requires
        found(s, at, put_all(list, |e: (u32, (Single, Single))| put_node(e))),
    ensures
        with_nodes(nodes, s, at, list.len() as int, Coding::Plain) == nodes_added(nodes, list),
    decreases list.len(),
{
    if list.len() > 0 {
        let put = |e: (u32, (Single, Single))| put_node(e);
        let rest = list.skip(1);
        let (index, p) = list[0];
        lemma_found_parts(s, at, put(list[0]), put_all(rest, put));
        lemma_put32(s, at, index);
        lemma_point(s, at + 4, p);
        lemma_found_parts(s, at, put32(index), put_point(p));
        node_tables_are_read(nodes.insert(index, plain(p)), s, at + 12, rest);
    }
}

/// A scaled node of a table.
pub open spec fn put_scaled_node(e: (u32, (i16, i16))) -> Seq<u8> {
    put32(e.0) + put_scaled(e.1)
}

/// A table after the scaled nodes of a list, one after the other.
pub open spec fn scaled_nodes_added(
    nodes: Map<u32, SmPoint>,
    list: Seq<(u32, (i16, i16))>,
    scale: Real,
) -> Map<u32, SmPoint>
    decreases list.len(),
{
    if list.len() == 0 {
        nodes
    } else {
        scaled_nodes_added(nodes.insert(list[0].0, scaled(list[0].1, scale)), list.skip(1), scale)
    }
}

/// The scaled nodes of a written table are read in their order, each with the scale
/// of the table.
pub proof fn scaled_node_tables_are_read(
    nodes: Map<u32, SmPoint>,
    s: Seq<u8>,
    at: int,
    list: Seq<(u32, (i16, i16))>,
    scale: Real,
)
    requires
        found(s, at, put_all(list, |e: (u32, (i16, i16))| put_scaled_node(e))),
    ensures
        with_nodes(nodes, s, at, list.len() as int, Coding::Scaled(scale)) == scaled_nodes_added(nodes, list, scale),
    decreases list.len(),
{
    if list.len() > 0 {
        let put = |e: (u32, (i16, i16))| put_scaled_node(e);
        let rest = list.skip(1);
        let (index, p) = list[0];
        lemma_found_parts(s, at, put(list[0]), put_all(rest, put));
        lemma_put32(s, at, index);
        lemma_scaled(s, at + 4, p, scale);
        lemma_found_parts(s, at, put32(index), put_scaled(p));
        scaled_node_tables_are_read(nodes.insert(index, scaled(p, scale)), s, at + 8, rest, scale);
    }
}

// ── Areas ────────────────────────────────────────────────────────────────────

/// A tessellation primitive with its extent (west, east, south, north) and its
/// vertices.
pub struct WrittenPrim {
    pub prim_type: u8,
    pub west: Real,
    pub east: Real,
    pub south: Real,
    pub north: Real,
    pub vertices: Seq<(Single, Single)>,
}

/// The bytes of a primitive.
pub open spec fn put_prim(t: WrittenPrim) -> Seq<u8> {
    seq![t.prim_type] + (put32(t.vertices.len() as u32) + (put_real(t.west) + (put_real(t.east) + (put_real(t.south) + (
    put_real(t.north) + put_all(t.vertices, |p: (Single, Single)| put_point(p)))))))
}

/// What a primitive says.
pub open spec fn prim_says(t: WrittenPrim) -> TriPrimView {
    TriPrimView {
        prim_type: t.prim_type,
        extent: PrimExtent::Degrees(Bbox { west: t.west, south: t.south, east: t.east, north: t.north }),
        vertices: t.vertices.map_values(|p: (Single, Single)| plain(p)),
    }
}

proof fn lemma_prim(s: Seq<u8>, at: int, t: WrittenPrim)
    requires
        found(s, at, put_prim(t)),
        t.vertices.len() <= u32::MAX,
    ensures
        put_prim(t).len() == 37 + 8 * t.vertices.len(),
        prim_end(s, at, Coding::Plain) == at + put_prim(t).len(),
        prim_at(s, at, Coding::Plain) == prim_says(t),
{
    let n = t.vertices.len() as u32;
    let v = put_all(t.vertices, |p: (Single, Single)| put_point(p));
    let e4 = put_real(t.north) + v;
    let e3 = put_real(t.south) + e4;
    let e2 = put_real(t.east) + e3;
    let e1 = put_real(t.west) + e2;
    lemma_found_parts(s, at, seq![t.prim_type], put32(n) + e1);
    assert(s.subrange(at, at + 1)[0] == t.prim_type);
    lemma_put32(s, at + 1, n);
    lemma_found_parts(s, at + 1, put32(n), e1);
    lemma_put64(s, at + 5, t.west.bits);
    lemma_found_parts(s, at + 5, put_real(t.west), e2);
    lemma_put64(s, at + 13, t.east.bits);
    lemma_found_parts(s, at + 13, put_real(t.east), e3);
    lemma_put64(s, at + 21, t.south.bits);
    lemma_found_parts(s, at + 21, put_real(t.south), e4);
    lemma_put64(s, at + 29, t.north.bits);
    lemma_found_parts(s, at + 29, put_real(t.north), v);
    lemma_points(s, at + 37, t.vertices);
}

proof fn lemma_prims(s: Seq<u8>, at: int, list: Seq<WrittenPrim>, i: int, n: int)
    requires
        found(s, at, put_all(list, |t: WrittenPrim| put_prim(t))),
        forall|k: int| 0 <= k < list.len() ==> (#[trigger] list[k]).vertices.len() <= u32::MAX,
        n == i + list.len(),
    ensures
        prims_fault(s, at, i, n, Coding::Plain) is None,
        prims_end(s, at, list.len() as int, Coding::Plain) == at + put_all(list, |t: WrittenPrim| put_prim(t)).len(),
        prims_at(s, at, list.len() as int, Coding::Plain) == list.map_values(|t: WrittenPrim| prim_says(t)),
    decreases list.len(),
{
    let put = |t: WrittenPrim| put_prim(t);
    let says = |t: WrittenPrim| prim_says(t);
    if list.len() > 0 {
        let rest = list.skip(1);
        lemma_found_parts(s, at, put(list[0]), put_all(rest, put));
        assert(list[0].vertices.len() <= u32::MAX);
        lemma_prim(s, at, list[0]);
        assert forall|k: int| 0 <= k < rest.len() implies (#[trigger] rest[k]).vertices.len() <= u32::MAX by {
            assert(list[k + 1].vertices.len() <= u32::MAX);
        }
        lemma_prims(s, at + put(list[0]).len(), rest, i + 1, n);
        assert(seq![says(list[0])] + rest.map_values(says) =~= list.map_values(says));
    } else {
        assert(list.map_values(says) =~= Seq::empty());
    }
}

/// The payload of an area record.
pub open spec fn put_area(
    extent: Seq<u8>,
    counts: Seq<u32>,
    prims: Seq<WrittenPrim>,
    refs: Seq<EdgeRef>,
) -> Seq<u8> {
    extent + (put32(counts.len() as u32) + (put32(prims.len() as u32) + (put32(refs.len() as u32) + (put_all(
        counts,
        |v: u32| put32(v),
    ) + (put_all(prims, |t: WrittenPrim| put_prim(t)) + put_all(refs, |r: EdgeRef| put_ref(r)))))))
}

/// An area record is an extent of 32 bytes, the counts of contours, primitives and
/// edges, a vertex count for each contour, the primitives and the edge references.
pub proof fn area_records_are_read(
    extent: Seq<u8>,
    counts: Seq<u32>,
    prims: Seq<WrittenPrim>,
    refs: Seq<EdgeRef>,
)
    requires
        extent.len() == 32,
        counts.len() <= u32::MAX,
        prims.len() <= u32::MAX,
        refs.len() <= u32::MAX,
        forall|k: int| 0 <= k < prims.len() ==> (#[trigger] prims[k]).vertices.len() <= u32::MAX,
    ensures
        area_fault(put_area(extent, counts, prims, refs), false) is None,
        area_of(put_area(extent, counts, prims, refs), false) == (AreaView {
            contour_count: counts.len() as u32,
            vertex_counts: counts,
            tri_prims: prims.map_values(|t: WrittenPrim| prim_says(t)),
            edge_refs: refs,
        }),
{
    let put = |v: u32| put32(v);
    let c = put_all(counts, put);
    let t = put_all(prims, |t: WrittenPrim| put_prim(t));
    let r = put_all(refs, |r: EdgeRef| put_ref(r));
    let (a, b, d) = (counts.len() as u32, prims.len() as u32, refs.len() as u32);
    let p = extent + (put32(a) + (put32(b) + (put32(d) + (c + (t + r)))));
    lemma_self(p);
    lemma_found_parts(p, 0, extent, put32(a) + (put32(b) + (put32(d) + (c + (t + r)))));
    lemma_put32(p, 32, a);
    lemma_found_parts(p, 32, put32(a), put32(b) + (put32(d) + (c + (t + r))));
    lemma_put32(p, 36, b);
    lemma_found_parts(p, 36, put32(b), put32(d) + (c + (t + r)));
    lemma_put32(p, 40, d);
    lemma_found_parts(p, 40, put32(d), c + (t + r));
    assert forall|v: u32| (#[trigger] put(v)).len() == 4 by {
        lemma_put32(p, 0, v);
    }
    lemma_put_all(p, 44, counts, put, 4, 0);
    lemma_found_parts(p, 44, c, t + r);
    let start = 44 + 4 * a;
    lemma_found_parts(p, start, t, r);
    lemma_prims(p, start, prims, 0, prims.len() as int);
    lemma_refs(p, start + t.len(), refs);
    let out = numbers_at(p, 44, a as int);
    assert forall|i: int| 0 <= i < counts.len() implies out[i] == counts[i] by {
        lemma_put_all(p, 44, counts, put, 4, i);
        lemma_put32(p, 44 + 4 * i, counts[i]);
    }
    assert(out =~= counts);
}

/// A scaled tessellation primitive with its extent (least and greatest east, least
/// and greatest north) and its vertices.
pub struct WrittenScaledPrim {
    pub prim_type: u8,
    pub min_east: i16,
    pub max_east: i16,
    pub min_north: i16,
    pub max_north: i16,
    pub vertices: Seq<(i16, i16)>,
}

/// The bytes of a scaled primitive.
pub open spec fn put_scaled_prim(t: WrittenScaledPrim) -> Seq<u8> {
    seq![t.prim_type] + (put32(t.vertices.len() as u32) + (put_i16(t.min_east) + (put_i16(t.max_east) + (put_i16(
        t.min_north,
    ) + (put_i16(t.max_north) + put_all(t.vertices, |p: (i16, i16)| put_scaled(p)))))))
}

/// What a scaled primitive says.
pub open spec fn scaled_prim_says(t: WrittenScaledPrim, scale: Real) -> TriPrimView {
    TriPrimView {
        prim_type: t.prim_type,
        extent: PrimExtent::Metres {
            min: scaled((t.min_east, t.min_north), scale),
            max: scaled((t.max_east, t.max_north), scale),
        },
        vertices: t.vertices.map_values(|p: (i16, i16)| scaled(p, scale)),
    }
}

proof fn lemma_scaled_prim(s: Seq<u8>, at: int, t: WrittenScaledPrim, scale: Real)
    requires
        found(s, at, put_scaled_prim(t)),
        t.vertices.len() <= u32::MAX,
    ensures
        put_scaled_prim(t).len() == 13 + 4 * t.vertices.len(),
        prim_end(s, at, Coding::Scaled(scale)) == at + put_scaled_prim(t).len(),
        prim_at(s, at, Coding::Scaled(scale)) == scaled_prim_says(t, scale),
{
    let n = t.vertices.len() as u32;
    let v = put_all(t.vertices, |p: (i16, i16)| put_scaled(p));
    let e4 = put_i16(t.max_north) + v;
    let e3 = put_i16(t.min_north) + e4;
    let e2 = put_i16(t.max_east) + e3;
    let e1 = put_i16(t.min_east) + e2;
    lemma_found_parts(s, at, seq![t.prim_type], put32(n) + e1);
    assert(s.subrange(at, at + 1)[0] == t.prim_type);
    lemma_put32(s, at + 1, n);
    lemma_found_parts(s, at + 1, put32(n), e1);
    lemma_short(s, at + 5, t.min_east);
    lemma_found_parts(s, at + 5, put_i16(t.min_east), e2);
    lemma_short(s, at + 7, t.max_east);
    lemma_found_parts(s, at + 7, put_i16(t.max_east), e3);
    lemma_short(s, at + 9, t.min_north);
    lemma_found_parts(s, at + 9, put_i16(t.min_north), e4);
    lemma_short(s, at + 11, t.max_north);
    lemma_found_parts(s, at + 11, put_i16(t.max_north), v);
    lemma_scaled_points(s, at + 13, t.vertices, scale);
}

proof fn lemma_scaled_prims(s: Seq<u8>, at: int, list: Seq<WrittenScaledPrim>, scale: Real, i: int, n: int)
    requires
        found(s, at, put_all(list, |t: WrittenScaledPrim| put_scaled_prim(t))),
        forall|k: int| 0 <= k < list.len() ==> (#[trigger] list[k]).vertices.len() <= u32::MAX,
        n == i + list.len(),
    ensures
        prims_fault(s, at, i, n, Coding::Scaled(scale)) is None,
        prims_end(s, at, list.len() as int, Coding::Scaled(scale)) == at + put_all(
            list,
            |t: WrittenScaledPrim| put_scaled_prim(t),
        ).len(),
        prims_at(s, at, list.len() as int, Coding::Scaled(scale)) == list.map_values(
            |t: WrittenScaledPrim| scaled_prim_says(t, scale),
        ),
    decreases list.len(),
{
    let put = |t: WrittenScaledPrim| put_scaled_prim(t);
    let says = |t: WrittenScaledPrim| scaled_prim_says(t, scale);
    if list.len() > 0 {
        let rest = list.skip(1);
        lemma_found_parts(s, at, put(list[0]), put_all(rest, put));
        assert(list[0].vertices.len() <= u32::MAX);
        lemma_scaled_prim(s, at, list[0], scale);
        assert forall|k: int| 0 <= k < rest.len() implies (#[trigger] rest[k]).vertices.len() <= u32::MAX by {
            assert(list[k + 1].vertices.len() <= u32::MAX);
        }
        lemma_scaled_prims(s, at + put(list[0]).len(), rest, scale, i + 1, n);
        assert(seq![says(list[0])] + rest.map_values(says) =~= list.map_values(says));
    } else {
        assert(list.map_values(says) =~= Seq::empty());
    }
}

/// The payload of an extended area record.
pub open spec fn put_scaled_area(
    extent: Seq<u8>,
    scale: Real,
    counts: Seq<u32>,
    prims: Seq<WrittenScaledPrim>,
    refs: Seq<EdgeRef>,
) -> Seq<u8> {
    extent + (put32(counts.len() as u32) + (put32(prims.len() as u32) + (put32(refs.len() as u32) + (put_real(scale) + (
    put_all(counts, |v: u32| put32(v)) + (put_all(prims, |t: WrittenScaledPrim| put_scaled_prim(t)) + put_all(
        refs,
        |r: EdgeRef| put_ref(r),
    )))))))
}

/// An extended area record has the scale factor behind its three counts, and its
/// primitives are scaled.
pub proof fn extended_area_records_are_read(
    extent: Seq<u8>,
    scale: Real,
    counts: Seq<u32>,
    prims: Seq<WrittenScaledPrim>,
    refs: Seq<EdgeRef>,
)
    requires
        extent.len() == 32,
        counts.len() <= u32::MAX,
        prims.len() <= u32::MAX,
        refs.len() <= u32::MAX,
        forall|k: int| 0 <= k < prims.len() ==> (#[trigger] prims[k]).vertices.len() <= u32::MAX,
    ensures
        area_fault(put_scaled_area(extent, scale, counts, prims, refs), true) is None,
        area_of(put_scaled_area(extent, scale, counts, prims, refs), true) == (AreaView {
            contour_count: counts.len() as u32,
            vertex_counts: counts,
            tri_prims: prims.map_values(|t: WrittenScaledPrim| scaled_prim_says(t, scale)),
            edge_refs: refs,
        }),
{
    let put = |v: u32| put32(v);
    let c = put_all(counts, put);
    let t = put_all(prims, |t: WrittenScaledPrim| put_scaled_prim(t));
    let r = put_all(refs, |r: EdgeRef| put_ref(r));
    let (a, b, d) = (counts.len() as u32, prims.len() as u32, refs.len() as u32);
    let p = extent + (put32(a) + (put32(b) + (put32(d) + (put_real(scale) + (c + (t + r))))));
    lemma_self(p);
    lemma_found_parts(p, 0, extent, put32(a) + (put32(b) + (put32(d) + (put_real(scale) + (c + (t + r))))));
    lemma_put32(p, 32, a);
    lemma_found_parts(p, 32, put32(a), put32(b) + (put32(d) + (put_real(scale) + (c + (t + r)))));
    lemma_put32(p, 36, b);
    lemma_found_parts(p, 36, put32(b), put32(d) + (put_real(scale) + (c + (t + r))));
    lemma_put32(p, 40, d);
    lemma_found_parts(p, 40, put32(d), put_real(scale) + (c + (t + r)));
    lemma_put64(p, 44, scale.bits);
    lemma_found_parts(p, 44, put_real(scale), c + (t + r));
    assert forall|v: u32| (#[trigger] put(v)).len() == 4 by {
        lemma_put32(p, 0, v);
    }
    lemma_put_all(p, 52, counts, put, 4, 0);
    lemma_found_parts(p, 52, c, t + r);
    let start = 52 + 4 * a;
    lemma_found_parts(p, start, t, r);
    lemma_scaled_prims(p, start, prims, scale, 0, prims.len() as int);
    lemma_refs(p, start + t.len(), refs);
    let out = numbers_at(p, 52, a as int);
    assert forall|i: int| 0 <= i < counts.len() implies out[i] == counts[i] by {
        lemma_put_all(p, 52, counts, put, 4, i);
        lemma_put32(p, 52 + 4 * i, counts[i]);
    }
    assert(out =~= counts);
}

} // verus!
