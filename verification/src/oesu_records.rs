//! What an `.oesu` stream tells, record by record, in terms of what was written.
use vstd::prelude::*;
use crate::bbox::Bbox;
use crate::bytes::{
    le16, le32, lemma_found_parts, lemma_put16, lemma_put32, lemma_put64, lemma_put_all, put16, put32, put_all, put_real,
    put_single, real_at,
};
use crate::oesu::{
    area_geometry, blank, body, cover_of, days_of_grace, days_to_expiry, header_text, header_u16, header_u32, lemma_scanned_suffix,
    lemma_start_of_prefix, lemma_whole_after, records_add_up, scanned, status_fault, stream_fault, stream_scan, text_of,
    version_fault, version_named, whole_records, OesuCell, ScanView, SencError,
};
use crate::s57::S57Cell;
use crate::scalar::{Position, Real, Single};
use crate::senc::collect::{attribute_of, bounds_of, line_of, multipoint_of, point_of};
use crate::senc::tables::{with_edges, with_nodes, TablesView};
use crate::senc::written::{
    area_records_are_read, attribute_records_are_read, edge_tables_are_read, edges_added,
    extended_area_records_are_read, extent_records_are_read, feature_records_are_read, lemma_self, lemma_zero,
    line_records_are_read, multipoint_records_are_read, node_tables_are_read, nodes_added, plain,
    point_records_are_read, prim_says, put_edge, put_area, put_node, put_ref, put_scaled_edge, put_scaled_node,
    put_scaled_area, put_sounding, scaled_edge_tables_are_read, scaled_edges_added, scaled_node_tables_are_read,
    scaled_nodes_added, scaled_prim_says, texts_end_at_the_first_zero, WrittenPrim, WrittenScaledPrim,
};
use crate::senc::{
    AreaView, AttrValueView, AttributeView, Coding, EdgeRef, FeatureView, GeometryView, RawSounding, SmPoint,
};
use crate::text::{lossy_text, trimmed};

verus! {

/// A record: its type, its whole length and its payload.
pub open spec fn record(rec_type: u16, p: Seq<u8>) -> Seq<u8> {
    put16(rec_type) + (put32((p.len() + 6) as u32) + p)
}

pub(crate) proof fn lemma_record(rec_type: u16, p: Seq<u8>, rest: Seq<u8>)
    requires
        p.len() + 6 <= u32::MAX,
    ensures
        record(rec_type, p).len() == p.len() + 6,
        le16(record(rec_type, p) + rest, 0) == rec_type,
        le32(record(rec_type, p) + rest, 2) == p.len() + 6,
        (record(rec_type, p) + rest).subrange(6, p.len() as int + 6) == p,
{
    let n = (p.len() + 6) as u32;
    let r = record(rec_type, p);
    let s = r + rest;
    lemma_self(s);
    lemma_put16(s, 0, rec_type);
    lemma_put32(s, 2, n);
    lemma_found_parts(s, 0, r, rest);
    lemma_found_parts(s, 0, put16(rec_type), put32(n) + p);
    lemma_found_parts(s, 2, put32(n), p);
}

/// A record is taken whole and tells what its type and payload tell; the next one
/// follows right behind it.
pub proof fn a_record_is_one_step(rec_type: u16, p: Seq<u8>, rest: Seq<u8>, st: ScanView)
    requires
        p.len() + 6 <= u32::MAX,
    ensures
        scanned(record(rec_type, p) + rest, 0, st) == scanned(rest, 0, st.step(rec_type, p)),
{
    let r = record(rec_type, p);
    let s = r + rest;
    lemma_record(rec_type, p, rest);
    assert(s.subrange(6, p.len() as int + 6) == p);
    lemma_scanned_suffix(r, rest, 0, st.step(rec_type, p));
}

/// A stream that ends within a record is refused, and names the type of that
/// record.
pub proof fn a_cut_record_is_refused(rec_type: u16, p: Seq<u8>, n: int, st: ScanView)
    requires
        p.len() + 6 <= u32::MAX,
        6 <= n < p.len() + 6,
    ensures
        scanned(record(rec_type, p).take(n), 0, st) == Err::<ScanView, SencError>(
            SencError::TruncatedRecord { rec_type },
        ),
{
    let r = record(rec_type, p);
    let s = r.take(n);
    lemma_record(rec_type, p, Seq::empty());
    assert(r + Seq::<u8>::empty() =~= r);
    assert(forall|i: int| 0 <= i < n ==> s[i] == r[i]);
    assert(le16(s, 0) == le16(r, 0));
    assert(le32(s, 2) == le32(r, 2));
}

// ── Header fields ────────────────────────────────────────────────────────────

/// The text fields of a cell, each by the type of its record: 2 its name, 3 the
/// date of publication, 5 the date of its update, 8 when the stream was made, 9 the
/// sounding datum.
pub proof fn text_records_are_read(st: ScanView, text: Seq<u8>, rest: Seq<u8>)
    requires
        forall|i: int| 0 <= i < text.len() ==> #[trigger] text[i] != 0,
    ensures
        ({
            let p = text + (seq![0u8] + rest);
            let t = lossy_text(text);
            &&& st.step(2, p) == (ScanView { name: t, ..st })
            &&& st.step(3, p) == (ScanView { publish_date: t, ..st })
            &&& st.step(5, p) == (ScanView { update_date: t, ..st })
            &&& st.step(8, p) == (ScanView { senc_create_date: t, ..st })
            &&& st.step(9, p) == (ScanView { sounding_datum: t, ..st })
        }),
{
    reveal(ScanView::step);
    let p = text + (seq![0u8] + rest);
    let none = Seq::<u8>::empty();
    assert(none + p =~= p);
    texts_end_at_the_first_zero(none, text, rest, p.len() as int);
    assert(header_text(p) == lossy_text(text));
}

/// The numbers of a cell, each by the type of its record: 4 its edition, 6 the
/// number of its update, 7 its scale.
pub proof fn number_records_are_read(st: ScanView, v: u16, w: u32, rest: Seq<u8>)
    ensures
        st.step(4, put16(v) + rest) == (ScanView { edition: v, ..st }),
        st.step(6, put16(v) + rest) == (ScanView { update_number: v, ..st }),
        st.step(7, put32(w) + rest) == (ScanView { native_scale: w, ..st }),
{
    reveal(ScanView::step);
    let p = put16(v) + rest;
    let q = put32(w) + rest;
    lemma_self(p);
    lemma_put16(p, 0, v);
    lemma_found_parts(p, 0, put16(v), rest);
    lemma_self(q);
    lemma_put32(q, 0, w);
    lemma_found_parts(q, 0, put32(w), rest);
    assert(header_u16(p) == v);
    assert(header_u32(q) == w);
}

// ── Features ─────────────────────────────────────────────────────────────────

proof fn lemma_feature_steps(st: ScanView, p: Seq<u8>)
    ensures
        st.step(64, p) == (ScanView { features: st.features.started(p), ..st }),
        st.step(65, p) == (ScanView { features: st.features.described(attribute_of(p)), ..st }),
        st.step(80, p) == (ScanView { features: st.features.shaped(point_of(p)), ..st }),
        st.step(81, p) == (ScanView { features: st.features.shaped(line_of(p)), ..st }),
        st.step(83, p) == (ScanView { features: st.features.shaped(multipoint_of(p)), ..st }),
{
    reveal(ScanView::step);
}

/// Record 64 starts a feature behind all others, without attributes and geometry.
pub proof fn feature_records_start_a_feature(st: ScanView, type_code: u16, id: u16, primitive: u8, rest: Seq<u8>)
    ensures
        ({
            let next = st.step(64, put16(type_code) + (put16(id) + (seq![primitive] + rest)));
            let f = FeatureView {
                type_code,
                id,
                primitive,
                attributes: Seq::empty(),
                geometry: GeometryView::Empty,
            };
            &&& next.features.all() == st.features.all().push(f)
            &&& next.features.current == Some(f)
            &&& next == (ScanView { features: next.features, ..st })
        }),
{
    lemma_feature_steps(st, put16(type_code) + (put16(id) + (seq![primitive] + rest)));
    feature_records_are_read(type_code, id, primitive, rest);
}

/// Record 65 gives the feature that was started last one more attribute.
pub proof fn attribute_records_describe(st: ScanView, code: u16, v: u32, x: Real, text: Seq<u8>, rest: Seq<u8>)
    requires
        forall|i: int| 0 <= i < text.len() ==> #[trigger] text[i] != 0,
    ensures
        ({
            let int_value = AttributeView { code, value: AttrValueView::Int(v) };
            let number = AttributeView { code, value: AttrValueView::Double(x) };
            let words = AttributeView { code, value: AttrValueView::Str(lossy_text(text)) };
            &&& st.step(65, put16(code) + (seq![0u8] + (put32(v) + rest))) == (ScanView {
                features: st.features.described(Some(int_value)),
                ..st
            })
            &&& st.step(65, put16(code) + (seq![2u8] + (put_real(x) + rest))) == (ScanView {
                features: st.features.described(Some(number)),
                ..st
            })
            &&& st.step(65, put16(code) + (seq![4u8] + (text + (seq![0u8] + rest)))) == (ScanView {
                features: st.features.described(Some(words)),
                ..st
            })
        }),
{
    lemma_feature_steps(st, put16(code) + (seq![0u8] + (put32(v) + rest)));
    lemma_feature_steps(st, put16(code) + (seq![2u8] + (put_real(x) + rest)));
    lemma_feature_steps(st, put16(code) + (seq![4u8] + (text + (seq![0u8] + rest))));
    attribute_records_are_read(code, v, x, text, rest);
}

/// Records 80, 81 and 83 give the feature that was started last a point, a line
/// along edges, or soundings.
pub proof fn geometry_records_shape(
    st: ScanView,
    lat: Real,
    lon: Real,
    extent: Seq<u8>,
    refs: Seq<EdgeRef>,
    pts: Seq<(Single, Single, Single)>,
    rest: Seq<u8>,
)
    requires
        extent.len() == 32,
        refs.len() <= u32::MAX,
        pts.len() <= u32::MAX,
    ensures
        st.step(80, put_real(lat) + (put_real(lon) + rest)) == (ScanView {
            features: st.features.shaped(Some(GeometryView::Point(Position { lon, lat }))),
            ..st
        }),
        st.step(81, extent + (put32(refs.len() as u32) + (put_all(refs, |r: EdgeRef| put_ref(r)) + rest))) == (ScanView {
            features: st.features.shaped(Some(GeometryView::Line(refs))),
            ..st
        }),
        st.step(
            83,
            extent + (put32(pts.len() as u32) + (put_all(pts, |s: (Single, Single, Single)| put_sounding(s)) + rest)),
        ) == (ScanView {
            features: st.features.shaped(
                Some(
                    GeometryView::Sounding(
                        pts.map_values(
                            |s: (Single, Single, Single)|
                                RawSounding { at: plain((s.0, s.1)), depth: s.2.widened() },
                        ),
                    ),
                ),
            ),
            ..st
        }),
{
    lemma_feature_steps(st, put_real(lat) + (put_real(lon) + rest));
    lemma_feature_steps(st, extent + (put32(refs.len() as u32) + (put_all(refs, |r: EdgeRef| put_ref(r)) + rest)));
    lemma_feature_steps(
        st,
        extent + (put32(pts.len() as u32) + (put_all(pts, |s: (Single, Single, Single)| put_sounding(s)) + rest)),
    );
    point_records_are_read(lat, lon, rest);
    line_records_are_read(extent, refs, rest);
    multipoint_records_are_read(extent, pts, rest);
}

/// Records 82 and 84 give the feature that was started last an area; the latter
/// has its points scaled.
pub proof fn area_records_shape(
    st: ScanView,
    extent: Seq<u8>,
    counts: Seq<u32>,
    prims: Seq<WrittenPrim>,
    scale: Real,
    small: Seq<WrittenScaledPrim>,
    refs: Seq<EdgeRef>,
)
    requires
        extent.len() == 32,
        counts.len() <= u32::MAX,
        prims.len() <= u32::MAX,
        small.len() <= u32::MAX,
        refs.len() <= u32::MAX,
        forall|k: int| 0 <= k < prims.len() ==> (#[trigger] prims[k]).vertices.len() <= u32::MAX,
        forall|k: int| 0 <= k < small.len() ==> (#[trigger] small[k]).vertices.len() <= u32::MAX,
    ensures
        st.step(82, put_area(extent, counts, prims, refs)) == (ScanView {
            features: st.features.shaped(
                Some(
                    GeometryView::Area(
                        AreaView {
                            contour_count: counts.len() as u32,
                            vertex_counts: counts,
                            tri_prims: prims.map_values(|t: WrittenPrim| prim_says(t)),
                            edge_refs: refs,
                        },
                    ),
                ),
            ),
            ..st
        }),
        st.step(84, put_scaled_area(extent, scale, counts, small, refs)) == (ScanView {
            features: st.features.shaped(
                Some(
                    GeometryView::Area(
                        AreaView {
                            contour_count: counts.len() as u32,
                            vertex_counts: counts,
                            tri_prims: small.map_values(|t: WrittenScaledPrim| scaled_prim_says(t, scale)),
                            edge_refs: refs,
                        },
                    ),
                ),
            ),
            ..st
        }),
{
    area_records_are_read(extent, counts, prims, refs);
    extended_area_records_are_read(extent, scale, counts, small, refs);
    lemma_area_steps(st, put_area(extent, counts, prims, refs), put_scaled_area(extent, scale, counts, small, refs));
}

proof fn lemma_area_steps(st: ScanView, p: Seq<u8>, q: Seq<u8>)
    ensures
        st.step(82, p) == (ScanView { features: st.features.shaped(area_geometry(p, false)), ..st }),
        st.step(84, q) == (ScanView { features: st.features.shaped(area_geometry(q, true)), ..st }),
{
    reveal(ScanView::step);
}

// ── Tables ───────────────────────────────────────────────────────────────────

/// Record 96 adds edges and record 97 adds nodes to the tables of the cell.
pub proof fn table_records_are_read(
    st: ScanView,
    edges: Seq<(u32, Seq<(Single, Single)>)>,
    nodes: Seq<(u32, (Single, Single))>,
)
    requires
        edges.len() <= u32::MAX,
        nodes.len() <= u32::MAX,
        forall|i: int| 0 <= i < edges.len() ==> (#[trigger] edges[i]).1.len() <= u32::MAX,
    ensures
        st.step(
            96,
            put32(edges.len() as u32) + put_all(edges, |e: (u32, Seq<(Single, Single)>)| put_edge(e)),
        ) == (ScanView {
            tables: TablesView { edges: edges_added(st.tables.edges, edges), nodes: st.tables.nodes },
            ..st
        }),
        st.step(97, put32(nodes.len() as u32) + put_all(nodes, |e: (u32, (Single, Single))| put_node(e))) == (ScanView {
            tables: TablesView { edges: st.tables.edges, nodes: nodes_added(st.tables.nodes, nodes) },
            ..st
        }),
{
    let (a, b) = (edges.len() as u32, nodes.len() as u32);
    let p = put32(a) + put_all(edges, |e: (u32, Seq<(Single, Single)>)| put_edge(e));
    lemma_self(p);
    lemma_put32(p, 0, a);
    lemma_found_parts(p, 0, put32(a), put_all(edges, |e: (u32, Seq<(Single, Single)>)| put_edge(e)));
    edge_tables_are_read(st.tables.edges, p, 4, edges);
    let q = put32(b) + put_all(nodes, |e: (u32, (Single, Single))| put_node(e));
    lemma_self(q);
    lemma_put32(q, 0, b);
    lemma_found_parts(q, 0, put32(b), put_all(nodes, |e: (u32, (Single, Single))| put_node(e)));
    node_tables_are_read(st.tables.nodes, q, 4, nodes);
    lemma_table_steps(st, p);
    lemma_table_steps(st, q);
}

/// Record 85 adds edges and record 86 adds nodes whose points are scaled.
pub proof fn scaled_table_records_are_read(
    st: ScanView,
    scale: Real,
    edges: Seq<(u32, Seq<(i16, i16)>)>,
    nodes: Seq<(u32, (i16, i16))>,
)
    requires
        edges.len() <= u32::MAX,
        nodes.len() <= u32::MAX,
        forall|i: int| 0 <= i < edges.len() ==> (#[trigger] edges[i]).1.len() <= u32::MAX,
    ensures
        st.step(
            85,
            put_real(scale) + (put32(edges.len() as u32) + put_all(
                edges,
                |e: (u32, Seq<(i16, i16)>)| put_scaled_edge(e),
            )),
        ) == (ScanView {
            tables: TablesView {
                edges: scaled_edges_added(st.tables.edges, edges, scale),
                nodes: st.tables.nodes,
            },
            ..st
        }),
        st.step(
            86,
            put_real(scale) + (put32(nodes.len() as u32) + put_all(nodes, |e: (u32, (i16, i16))| put_scaled_node(e))),
        ) == (ScanView {
            tables: TablesView {
                edges: st.tables.edges,
                nodes: scaled_nodes_added(st.tables.nodes, nodes, scale),
            },
            ..st
        }),
{
    let (a, b) = (edges.len() as u32, nodes.len() as u32);
    let le = put_all(edges, |e: (u32, Seq<(i16, i16)>)| put_scaled_edge(e));
    let p = put_real(scale) + (put32(a) + le);
    lemma_self(p);
    lemma_put64(p, 0, scale.bits);
    lemma_put32(p, 8, a);
    lemma_found_parts(p, 0, put_real(scale), put32(a) + le);
    lemma_found_parts(p, 8, put32(a), le);
    scaled_edge_tables_are_read(st.tables.edges, p, 12, edges, scale);
    let ln = put_all(nodes, |e: (u32, (i16, i16))| put_scaled_node(e));
    let q = put_real(scale) + (put32(b) + ln);
    lemma_self(q);
    lemma_put64(q, 0, scale.bits);
    lemma_put32(q, 8, b);
    lemma_found_parts(q, 0, put_real(scale), put32(b) + ln);
    lemma_found_parts(q, 8, put32(b), ln);
    scaled_node_tables_are_read(st.tables.nodes, q, 12, nodes, scale);
    lemma_scaled_table_steps(st, p);
    lemma_scaled_table_steps(st, q);
}

proof fn lemma_table_steps(st: ScanView, p: Seq<u8>)
    requires
        p.len() >= 4,
    ensures
        st.step(96, p) == (ScanView {
            tables: TablesView {
                edges: with_edges(st.tables.edges, p, 4, le32(p, 0) as int, Coding::Plain),
                nodes: st.tables.nodes,
            },
            ..st
        }),
        st.step(97, p) == (ScanView {
            tables: TablesView {
                edges: st.tables.edges,
                nodes: with_nodes(st.tables.nodes, p, 4, le32(p, 0) as int, Coding::Plain),
            },
            ..st
        }),
{
    reveal(ScanView::step);
    reveal(ScanView::table_step);
}

proof fn lemma_scaled_table_steps(st: ScanView, p: Seq<u8>)
    requires
        p.len() >= 12,
    ensures
        st.step(85, p) == (ScanView {
            tables: TablesView {
                edges: with_edges(st.tables.edges, p, 12, le32(p, 8) as int, Coding::Scaled(real_at(p, 0))),
                nodes: st.tables.nodes,
            },
            ..st
        }),
        st.step(86, p) == (ScanView {
            tables: TablesView {
                edges: st.tables.edges,
                nodes: with_nodes(st.tables.nodes, p, 12, le32(p, 8) as int, Coding::Scaled(real_at(p, 0))),
            },
            ..st
        }),
{
    reveal(ScanView::step);
    reveal(ScanView::table_step);
}

// ── Coverage, extent, texts ──────────────────────────────────────────────────

/// A point of a coverage ring: latitude, then longitude.
pub open spec fn put_corner(c: (Single, Single)) -> Seq<u8> {
    put_single(c.0) + put_single(c.1)
}

proof fn lemma_cover_steps(st: ScanView, p: Seq<u8>)
    ensures
        cover_of(p) matches Some(ring) ==> st.step(98, p) == (ScanView { covr: st.covr.push(ring), ..st }) && st.step(99, p)
            == (ScanView { nocovr: st.nocovr.push(ring), ..st }),
        bounds_of(p) matches Some(bounds) ==> st.step(100, p) == (ScanView { bounds, ..st }),
{
    reveal(ScanView::step);
    reveal(ScanView::table_step);
}

proof fn lemma_cover(ring: Seq<(Single, Single)>, rest: Seq<u8>)
    requires
        ring.len() <= u32::MAX,
    ensures
        cover_of(put32(ring.len() as u32) + (put_all(ring, |c: (Single, Single)| put_corner(c)) + rest)) == Some(
            ring.map_values(|c: (Single, Single)| Position { lon: c.1.widened(), lat: c.0.widened() }),
        ),
{
    let n = ring.len() as u32;
    let put = |c: (Single, Single)| put_corner(c);
    let list = put_all(ring, put);
    let p = put32(n) + (list + rest);
    assert forall|c: (Single, Single)| (#[trigger] put(c)).len() == 8 by {
        lemma_put32(p, 0, c.0.bits);
        lemma_put32(p, 0, c.1.bits);
    }
    lemma_self(p);
    lemma_put32(p, 0, n);
    lemma_put_all(p, 4, ring, put, 8, 0);
    lemma_found_parts(p, 0, put32(n), list + rest);
    lemma_found_parts(p, 4, list, rest);
    let places = ring.map_values(|c: (Single, Single)| Position { lon: c.1.widened(), lat: c.0.widened() });
    let out = cover_of(p)->0;
    assert forall|i: int| 0 <= i < ring.len() implies out[i] == places[i] by {
        let at = 4 + 8 * i;
        lemma_put_all(p, 4, ring, put, 8, i);
        lemma_put32(p, at, ring[i].0.bits);
        lemma_put32(p, at + 4, ring[i].1.bits);
        lemma_found_parts(p, at, put_single(ring[i].0), put_single(ring[i].1));
    }
    assert(out =~= places);
}

/// Record 98 adds a covered ring, record 99 an uncovered one: a count and that many
/// pairs of latitude and longitude.
pub proof fn coverage_records_are_read(st: ScanView, ring: Seq<(Single, Single)>, rest: Seq<u8>)
    requires
        ring.len() <= u32::MAX,
    ensures
        ({
            let p = put32(ring.len() as u32) + (put_all(ring, |c: (Single, Single)| put_corner(c)) + rest);
            let places = ring.map_values(
                |c: (Single, Single)| Position { lon: c.1.widened(), lat: c.0.widened() },
            );
            &&& st.step(98, p) == (ScanView { covr: st.covr.push(places), ..st })
            &&& st.step(99, p) == (ScanView { nocovr: st.nocovr.push(places), ..st })
        }),
{
    lemma_cover(ring, rest);
    lemma_cover_steps(st, put32(ring.len() as u32) + (put_all(ring, |c: (Single, Single)| put_corner(c)) + rest));
}

/// Record 100 gives the bounds of the cell: each side lies at the outer one of the
/// two corners that it joins. The corners are south-west, north-west, north-east
/// and south-east, each by latitude and longitude.
pub proof fn extent_records_bound_the_cell(st: ScanView, c: Seq<Real>, rest: Seq<u8>)
    requires
        c.len() == 8,
        forall|i: int| 0 <= i < 8 ==> !(#[trigger] c[i]).nan(),
    ensures
        ({
            let next = st.step(100, put_all(c, |v: Real| put_real(v)) + rest);
            let b = next.bounds;
            &&& next == (ScanView { bounds: b, ..st })
            &&& b.south.at_most(c[0]) && b.south.at_most(c[6]) && (b.south == c[0] || b.south == c[6])
            &&& b.west.at_most(c[1]) && b.west.at_most(c[3]) && (b.west == c[1] || b.west == c[3])
            &&& c[2].at_most(b.north) && c[4].at_most(b.north) && (b.north == c[2] || b.north == c[4])
            &&& c[5].at_most(b.east) && c[7].at_most(b.east) && (b.east == c[5] || b.east == c[7])
        }),
{
    extent_records_are_read(c, rest);
    lemma_cover_steps(st, put_all(c, |v: Real| put_real(v)) + rest);
}

/// Record 101 adds a text under its name: the lengths of both, the name, the text.
/// Zeros at the end of the text do not belong to it.
pub proof fn text_file_records_are_read(st: ScanView, name: Seq<u8>, length: u32, content: Seq<u8>)
    requires
        forall|i: int| 0 <= i < name.len() ==> #[trigger] name[i] != 0,
        name.len() < u32::MAX,
        lossy_text(name).len() > 0,
        content.len() > 0,
        trimmed(lossy_text(content)).len() > 0,
    ensures
        st.step(101, put32(name.len() as u32) + (put32(length) + (name + content))) == (ScanView {
            texts: st.texts.insert(lossy_text(name), trimmed(lossy_text(content))),
            ..st
        }),
{
    lemma_text_file(name, length, content);
    lemma_text_step(st, put32(name.len() as u32) + (put32(length) + (name + content)));
}

proof fn lemma_text_step(st: ScanView, p: Seq<u8>)
    ensures
        text_of(p) matches Some((name, content)) ==> st.step(101, p) == (ScanView {
            texts: st.texts.insert(name, content),
            ..st
        }),
{
    reveal(ScanView::step);
    reveal(ScanView::table_step);
}

proof fn lemma_text_file(name: Seq<u8>, length: u32, content: Seq<u8>)
    requires
        forall|i: int| 0 <= i < name.len() ==> #[trigger] name[i] != 0,
        name.len() < u32::MAX,
        lossy_text(name).len() > 0,
        content.len() > 0,
        trimmed(lossy_text(content)).len() > 0,
    ensures
        text_of(put32(name.len() as u32) + (put32(length) + (name + content))) == Some(
            (lossy_text(name), trimmed(lossy_text(content))),
        ),
{
    let n = name.len() as u32;
    let p = put32(n) + (put32(length) + (name + content));
    lemma_self(p);
    lemma_put32(p, 0, n);
    lemma_put32(p, 4, length);
    lemma_found_parts(p, 0, put32(n), put32(length) + (name + content));
    lemma_found_parts(p, 4, put32(length), name + content);
    assert(p.skip(8 + n) =~= content);
    let end = 8 + n;
    assert forall|i: int| 8 <= i < end implies #[trigger] p[i] != 0 by {
        assert(p[i] == name[i - 8]);
    }
    lemma_zero(p, 8, end, end);
    assert(p.subrange(8, end) =~= name);
    assert(text_of(p) == Some((lossy_text(name), trimmed(lossy_text(content)))));
}

/// A text loses the zeros at its end and nothing else.
pub proof fn only_trailing_zeros_are_cut(s: Seq<char>, n: nat)
    requires
        s.len() == 0 || s.last() != '\0',
    ensures
        trimmed(s + Seq::new(n, |i: int| '\0')) == s,
    decreases n,
{
    let t = s + Seq::new(n, |i: int| '\0');
    if n > 0 {
        let m = (n - 1) as nat;
        only_trailing_zeros_are_cut(s, m);
        assert(t.drop_last() =~= s + Seq::new(m, |i: int| '\0'));
    } else {
        assert(t =~= s);
    }
}

// ── Prologue ─────────────────────────────────────────────────────────────────

/// The payload of a server status record: server, decryption and expiry status,
/// days until expiry, days of grace allowed and remaining.
pub open spec fn put_status(server: u16, decrypt: u16, expire: u16, days: u16, allowed: u16, grace: u16) -> Seq<u8> {
    put16(server) + (put16(decrypt) + (put16(expire) + (put16(days) + (put16(allowed) + put16(grace)))))
}

/// A server status record is accepted where the chart was decrypted and has not
/// expired; then the stream behind it is read on, and its days are known. Otherwise
/// it is refused for just that reason, decryption first.
pub proof fn status_records_are_judged(
    server: u16,
    decrypt: u16,
    expire: u16,
    days: u16,
    allowed: u16,
    grace: u16,
    more: Seq<u8>,
    rest: Seq<u8>,
)
    requires
        more.len() + 18 <= u32::MAX,
    ensures
        ({
            let s = record(200, put_status(server, decrypt, expire, days, allowed, grace) + more) + rest;
            &&& decrypt == 0 ==> status_fault(s) == Some(SencError::DecryptFailed { server_status: server })
            &&& decrypt != 0 && expire == 0 ==> status_fault(s) == Some(
                SencError::Expired { expire_days: days, grace_days: grace },
            )
            &&& decrypt != 0 && expire != 0 ==> status_fault(s) is None
            &&& body(s) == rest
            &&& days_to_expiry(s) == days
            &&& days_of_grace(s) == grace
        }),
{
    let fields = put_status(server, decrypt, expire, days, allowed, grace);
    lemma_put16(fields, 0, server);
    lemma_put16(fields, 0, decrypt);
    lemma_put16(fields, 0, expire);
    lemma_put16(fields, 0, days);
    lemma_put16(fields, 0, allowed);
    lemma_put16(fields, 0, grace);
    assert(fields.len() == 12);
    let p = fields + more;
    let s = record(200, p) + rest;
    lemma_record(200, p, rest);
    lemma_self(s);
    lemma_found_parts(s, 0, record(200, p), rest);
    let n = (p.len() + 6) as u32;
    lemma_found_parts(s, 0, put16(200), put32(n) + p);
    lemma_put32(s, 2, n);
    lemma_found_parts(s, 2, put32(n), p);
    lemma_found_parts(s, 6, fields, more);
    lemma_found_parts(
        s,
        6,
        put16(server),
        put16(decrypt) + (put16(expire) + (put16(days) + (put16(allowed) + put16(grace)))),
    );
    lemma_put16(s, 6, server);
    lemma_found_parts(s, 8, put16(decrypt), put16(expire) + (put16(days) + (put16(allowed) + put16(grace))));
    lemma_put16(s, 8, decrypt);
    lemma_found_parts(s, 10, put16(expire), put16(days) + (put16(allowed) + put16(grace)));
    lemma_put16(s, 10, expire);
    lemma_found_parts(s, 12, put16(days), put16(allowed) + put16(grace));
    lemma_put16(s, 12, days);
    lemma_found_parts(s, 14, put16(allowed), put16(grace));
    lemma_put16(s, 16, grace);
    assert(s.skip(p.len() as int + 6) =~= rest);
}

/// A version record is accepted for the versions 200 to 299. Version 1024 means a
/// failed signature.
pub proof fn version_records_are_judged(version: u16, more: Seq<u8>, rest: Seq<u8>)
    requires
        more.len() + 8 <= u32::MAX,
    ensures
        ({
            let s = record(1, put16(version) + more) + rest;
            &&& version_named(s) == version
            &&& 200 <= version <= 299 ==> version_fault(s) is None
            &&& version == 1024 ==> version_fault(s) == Some(SencError::SignatureFailure)
            &&& version != 1024 && (version < 200 || version > 299) ==> version_fault(s) == Some(
                SencError::UnsupportedVersion { version },
            )
        }),
{
    let p = put16(version) + more;
    let s = record(1, p) + rest;
    lemma_put16(s, 6, version);
    lemma_record(1, p, rest);
    lemma_self(s);
    lemma_found_parts(s, 0, record(1, p), rest);
    let n = (p.len() + 6) as u32;
    lemma_put16(s, 0, 1);
    lemma_put32(s, 2, n);
    lemma_found_parts(s, 0, put16(1), put32(n) + p);
    lemma_found_parts(s, 2, put32(n), p);
    lemma_found_parts(s, 6, put16(version), more);
}

// ── Cells ────────────────────────────────────────────────────────────────────

/// What a stream tells with one more record behind it.
pub proof fn a_record_adds_to_a_stream(s: Seq<u8>, rec_type: u16, p: Seq<u8>)
    requires
        whole_records(s, 0),
        s.len() >= 6,
        le32(s, 2) + 8 <= s.len(),
        stream_fault(s) is None,
        p.len() + 6 <= u32::MAX,
    ensures
        stream_fault(s + record(rec_type, p)) is None,
        stream_scan(s + record(rec_type, p)) == stream_scan(s).step(rec_type, p),
        days_to_expiry(s + record(rec_type, p)) == days_to_expiry(s),
        days_of_grace(s + record(rec_type, p)) == days_of_grace(s),
        version_named(body(s + record(rec_type, p))) == version_named(body(s)),
{
    let r = record(rec_type, p);
    let b = body(s);
    let none = Seq::<u8>::empty();
    lemma_start_of_prefix(s, r);
    lemma_whole_after(s, le32(s, 2) as int, 0);
    records_add_up(b, r, 0, blank());
    records_add_up(b, none, 0, blank());
    assert(b + none =~= b);
    let st = scanned(b, 0, blank())->Ok_0;
    a_record_is_one_step(rec_type, p, none, st);
    assert(r + none =~= r);
    assert(scanned(none, 0, st.step(rec_type, p)) == Ok::<ScanView, SencError>(st.step(rec_type, p)));
}

/// The header fields of a stream reach the cell, each its own: the last record of a
/// type decides.
pub proof fn header_fields_reach_the_cell<
    F: Fn(SmPoint, Bbox) -> Position,
    G: Fn(&Vec<Position>, &Vec<Position>) -> bool,
>(
    s: Seq<u8>,
    rec_type: u16,
    text: Seq<u8>,
    v: u16,
    w: u32,
    cell: OesuCell,
    kept: S57Cell,
    from_sm: F,
    rings_meet: G,
)
    requires
        whole_records(s, 0),
        s.len() >= 6,
        le32(s, 2) + 8 <= s.len(),
        stream_fault(s) is None,
        text.len() < 1000,
        forall|i: int| 0 <= i < text.len() ==> #[trigger] text[i] != 0,
        ({
            let p = if rec_type == 4 || rec_type == 6 {
                put16(v) + Seq::<u8>::empty()
            } else if rec_type == 7 {
                put32(w) + Seq::<u8>::empty()
            } else {
                text + (seq![0u8] + Seq::<u8>::empty())
            };
            cell.tells(s + record(rec_type, p), from_sm, rings_meet) && kept.tells(
                s + record(rec_type, p),
                from_sm,
                rings_meet,
            )
        }),
    ensures
        rec_type == 2 ==> cell.name@ == lossy_text(text) && kept.name@ == lossy_text(text),
        rec_type == 3 ==> cell.publish_date@ == lossy_text(text),
        rec_type == 4 ==> cell.edition == v,
        rec_type == 5 ==> cell.update_date@ == lossy_text(text),
        rec_type == 6 ==> cell.update_number == v,
        rec_type == 7 ==> cell.native_scale == w && kept.native_scale == w,
        rec_type == 8 ==> cell.senc_create_date@ == lossy_text(text),
        rec_type == 9 ==> cell.sounding_datum@ == lossy_text(text),
        cell.senc_version == version_named(body(s)),
        cell.expire_days_remaining == days_to_expiry(s),
        cell.grace_days_remaining == days_of_grace(s),
{
    let none = Seq::<u8>::empty();
    let p = if rec_type == 4 || rec_type == 6 {
        put16(v) + none
    } else if rec_type == 7 {
        put32(w) + none
    } else {
        text + (seq![0u8] + none)
    };
    lemma_put16(none, 0, v);
    lemma_put32(none, 0, w);
    assert(p.len() < 2000);
    a_record_adds_to_a_stream(s, rec_type, p);
    let st = stream_scan(s);
    text_records_are_read(st, text, none);
    number_records_are_read(st, v, w, none);
}

} // verus!
