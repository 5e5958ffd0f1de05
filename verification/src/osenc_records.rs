//! What a plain SENC stream tells, record by record, in terms of what was written.
use vstd::prelude::*;
use crate::bbox::Bbox;
use crate::bytes::{
    le16, le32, lemma_found_parts, lemma_put16, lemma_put32, put16, put32, put_all, put_real,
};
use crate::oesu::{header_text, header_u16, header_u32};
use crate::oesu_records::{lemma_record, record};
use crate::osenc::{
    feature_resolved, features_fault, features_resolved, geometry_fault, prim_resolved, proper_rings, record_fault, resolved,
    scanned, unknown_prim, Feature, Geometry, OsencError, ScanView,
};
use crate::scalar::{Position, Real, Single};
use crate::senc::collect::{attribute_of, bounds_of, line_of, multipoint_of, point_of};
use crate::senc::place::{placed, placed_edges, placed_nodes};
use crate::senc::rings::{
    all_connect, are_cuts, closed, each_edge_is_walked, is_cut, line, lists, node_place, ring_refs, rings,
    rings_follow_the_cuts, walks, Heading,
};
use crate::senc::tables::{with_edges, with_nodes, TablesView};
use crate::senc::written::{
    area_records_are_read, attribute_records_are_read, edge_tables_are_read, edges_added, extent_records_are_read,
    feature_records_are_read, lemma_self, line_records_are_read, multipoint_records_are_read, node_tables_are_read,
    nodes_added, plain, point_records_are_read, prim_says, put_area, put_edge, put_node, put_ref, put_sounding,
    texts_end_at_the_first_zero, WrittenPrim,
};
use crate::senc::{
    views, AreaView, AttrValueView, AttributeView, Coding, EdgeRef, FeatureView, GeometryView, PrimExtent, RawSounding,
    SmPoint, TriPrimType,
};
use crate::text::lossy_text;

verus! {

proof fn lemma_scanned_suffix(a: Seq<u8>, b: Seq<u8>, at: int, st: ScanView)
    requires
        0 <= at <= b.len(),
    ensures
        scanned(a + b, a.len() + at, st) == scanned(b, at, st),
    decreases b.len() - at,
{
    let s = a + b;
    if at + 6 <= b.len() {
        assert(forall|i: int| 0 <= i < b.len() ==> s[a.len() + i] == b[i]);
        assert(le16(s, a.len() + at) == le16(b, at));
        assert(le32(s, a.len() + at + 2) == le32(b, at + 2));
        let n = le32(b, at + 2);
        if n >= 6 && at + n <= b.len() {
            let p = b.subrange(at + 6, at + n);
            assert(s.subrange(a.len() + at + 6, a.len() + at + n) =~= p);
            if record_fault(le16(b, at), p) is None {
                lemma_scanned_suffix(a, b, at + n, st.step(le16(b, at), p));
            }
        }
    }
}

/// A record without fault is taken whole and tells what its type and payload tell;
/// the next one follows right behind it. A faulty record ends the reading.
pub proof fn a_record_is_one_step(rec_type: u16, p: Seq<u8>, rest: Seq<u8>, st: ScanView)
    requires
        p.len() + 6 <= u32::MAX,
    ensures
        record_fault(rec_type, p) is None ==> scanned(record(rec_type, p) + rest, 0, st) == scanned(
            rest,
            0,
            st.step(rec_type, p),
        ),
        record_fault(rec_type, p) matches Some(e) ==> scanned(record(rec_type, p) + rest, 0, st) == Err::<
            ScanView,
            OsencError,
        >(e),
{
    let r = record(rec_type, p);
    let s = r + rest;
    lemma_record(rec_type, p, rest);
    assert(s.subrange(6, p.len() as int + 6) == p);
    lemma_scanned_suffix(r, rest, 0, st.step(rec_type, p));
}

proof fn lemma_header_steps(st: ScanView, p: Seq<u8>)
    ensures
        st.step(1, p) == (ScanView { senc_version: header_u16(p), ..st }),
        st.step(2, p) == (ScanView { name: header_text(p), ..st }),
        st.step(7, p) == (ScanView { native_scale: header_u32(p), ..st }),
        bounds_of(p) matches Some(b) ==> st.step(100, p) == (ScanView { bounds: b, ..st }),
{
    reveal(ScanView::step);
}

/// The header fields of a cell, each by the type of its record: 1 the version, 2
/// the name, 7 the scale.
pub proof fn header_records_are_read(st: ScanView, version: u16, text: Seq<u8>, scale: u32, rest: Seq<u8>)
    requires
        forall|i: int| 0 <= i < text.len() ==> #[trigger] text[i] != 0,
    ensures
        st.step(1, put16(version) + rest) == (ScanView { senc_version: version, ..st }),
        st.step(2, text + (seq![0u8] + rest)) == (ScanView { name: lossy_text(text), ..st }),
        st.step(7, put32(scale) + rest) == (ScanView { native_scale: scale, ..st }),
{
    let p = put16(version) + rest;
    let q = put32(scale) + rest;
    let t = text + (seq![0u8] + rest);
    lemma_self(p);
    lemma_put16(p, 0, version);
    lemma_found_parts(p, 0, put16(version), rest);
    lemma_self(q);
    lemma_put32(q, 0, scale);
    lemma_found_parts(q, 0, put32(scale), rest);
    let none = Seq::<u8>::empty();
    assert(none + t =~= t);
    texts_end_at_the_first_zero(none, text, rest, t.len() as int);
    lemma_header_steps(st, p);
    lemma_header_steps(st, q);
    lemma_header_steps(st, t);
}

/// Record 100 gives the bounds of the cell: each side lies at the outer one of the
/// two corners that it joins. The corners are south-west, north-west, north-east
/// and south-east, each by latitude and longitude.
pub proof fn extent_records_bound_the_cell(st: ScanView, c: Seq<Real>, rest: Seq<u8>)
    requires
        c.len() == 8,
        forall|i: int| 0 <= i < 8 ==> !(#[trigger] c[i]).nan(),
    ensures
        ({
            let next = st.step(100, put_all(c, |v: Real| put_real(v)) + rest);
            let b = next.bounds;
            &&& next == (ScanView { bounds: b, ..st })
            &&& b.south.at_most(c[0]) && b.south.at_most(c[6]) && (b.south == c[0] || b.south == c[6])
            &&& b.west.at_most(c[1]) && b.west.at_most(c[3]) && (b.west == c[1] || b.west == c[3])
            &&& c[2].at_most(b.north) && c[4].at_most(b.north) && (b.north == c[2] || b.north == c[4])
            &&& c[5].at_most(b.east) && c[7].at_most(b.east) && (b.east == c[5] || b.east == c[7])
        }),
{
    extent_records_are_read(c, rest);
    lemma_header_steps(st, put_all(c, |v: Real| put_real(v)) + rest);
}

proof fn lemma_feature_steps(st: ScanView, p: Seq<u8>)
    ensures
        st.step(64, p) == (ScanView { features: st.features.started(p), ..st }),
        st.step(65, p) == (ScanView { features: st.features.described(attribute_of(p)), ..st }),
        st.step(80, p) == (ScanView { features: st.features.shaped(point_of(p)), ..st }),
        st.step(81, p) == (ScanView { features: st.features.shaped(line_of(p)), ..st }),
        st.step(83, p) == (ScanView { features: st.features.shaped(multipoint_of(p)), ..st }),
{
    reveal(ScanView::step);
}

/// Record 64 starts a feature behind all others, and record 65 gives the feature
/// that was started last one more attribute.
pub proof fn feature_records_are_taken(
    st: ScanView,
    type_code: u16,
    id: u16,
    primitive: u8,
    code: u16,
    v: u32,
    x: Real,
    text: Seq<u8>,
    rest: Seq<u8>,
)
    requires
        forall|i: int| 0 <= i < text.len() ==> #[trigger] text[i] != 0,
    ensures
        ({
            let next = st.step(64, put16(type_code) + (put16(id) + (seq![primitive] + rest)));
            let f = FeatureView {
                type_code,
                id,
                primitive,
                attributes: Seq::empty(),
                geometry: GeometryView::Empty,
            };
            let int_value = AttributeView { code, value: AttrValueView::Int(v) };
            let number = AttributeView { code, value: AttrValueView::Double(x) };
            let words = AttributeView { code, value: AttrValueView::Str(lossy_text(text)) };
            &&& next.features.all() == st.features.all().push(f)
            &&& next.features.current == Some(f)
            &&& next == (ScanView { features: next.features, ..st })
            &&& st.step(65, put16(code) + (seq![0u8] + (put32(v) + rest))) == (ScanView {
                features: st.features.described(Some(int_value)),
                ..st
            })
            &&& st.step(65, put16(code) + (seq![2u8] + (put_real(x) + rest))) == (ScanView {
                features: st.features.described(Some(number)),
                ..st
            })
            &&& st.step(65, put16(code) + (seq![4u8] + (text + (seq![0u8] + rest)))) == (ScanView {
                features: st.features.described(Some(words)),
                ..st
            })
        }),
{
    lemma_feature_steps(st, put16(type_code) + (put16(id) + (seq![primitive] + rest)));
    feature_records_are_read(type_code, id, primitive, rest);
    lemma_feature_steps(st, put16(code) + (seq![0u8] + (put32(v) + rest)));
    lemma_feature_steps(st, put16(code) + (seq![2u8] + (put_real(x) + rest)));
    lemma_feature_steps(st, put16(code) + (seq![4u8] + (text + (seq![0u8] + rest))));
    attribute_records_are_read(code, v, x, text, rest);
}

/// Records 80, 81 and 83 give the feature that was started last a point, a line
/// along edges, or soundings.
pub proof fn geometry_records_shape(
    st: ScanView,
    lat: Real,
    lon: Real,
    extent: Seq<u8>,
    refs: Seq<EdgeRef>,
    pts: Seq<(Single, Single, Single)>,
    rest: Seq<u8>,
)
    requires
        extent.len() == 32,
        refs.len() <= u32::MAX,
        pts.len() <= u32::MAX,
    ensures
        st.step(80, put_real(lat) + (put_real(lon) + rest)) == (ScanView {
            features: st.features.shaped(Some(GeometryView::Point(Position { lon, lat }))),
            ..st
        }),
        st.step(81, extent + (put32(refs.len() as u32) + (put_all(refs, |r: EdgeRef| put_ref(r)) + rest))) == (ScanView {
            features: st.features.shaped(Some(GeometryView::Line(refs))),
            ..st
        }),
        st.step(
            83,
            extent + (put32(pts.len() as u32) + (put_all(pts, |s: (Single, Single, Single)| put_sounding(s)) + rest)),
        ) == (ScanView {
            features: st.features.shaped(
                Some(
                    GeometryView::Sounding(
                        pts.map_values(
                            |s: (Single, Single, Single)|
                                RawSounding { at: plain((s.0, s.1)), depth: s.2.widened() },
                        ),
                    ),
                ),
            ),
            ..st
        }),
{
    lemma_feature_steps(st, put_real(lat) + (put_real(lon) + rest));
    lemma_feature_steps(st, extent + (put32(refs.len() as u32) + (put_all(refs, |r: EdgeRef| put_ref(r)) + rest)));
    lemma_feature_steps(
        st,
        extent + (put32(pts.len() as u32) + (put_all(pts, |s: (Single, Single, Single)| put_sounding(s)) + rest)),
    );
    point_records_are_read(lat, lon, rest);
    line_records_are_read(extent, refs, rest);
    multipoint_records_are_read(extent, pts, rest);
}

/// Record 82 gives the feature that was started last an area.
pub proof fn area_records_shape(
    st: ScanView,
    extent: Seq<u8>,
    counts: Seq<u32>,
    prims: Seq<WrittenPrim>,
    refs: Seq<EdgeRef>,
)
    requires
        extent.len() == 32,
        counts.len() <= u32::MAX,
        prims.len() <= u32::MAX,
        refs.len() <= u32::MAX,
        forall|k: int| 0 <= k < prims.len() ==> (#[trigger] prims[k]).vertices.len() <= u32::MAX,
    ensures
        record_fault(82, put_area(extent, counts, prims, refs)) is None,
        st.step(82, put_area(extent, counts, prims, refs)) == (ScanView {
            features: st.features.shaped(
                Some(
                    GeometryView::Area(
                        AreaView {
                            contour_count: counts.len() as u32,
                            vertex_counts: counts,
                            tri_prims: prims.map_values(|t: WrittenPrim| prim_says(t)),
                            edge_refs: refs,
                        },
                    ),
                ),
            ),
            ..st
        }),
{
    area_records_are_read(extent, counts, prims, refs);
    lemma_area_step(st, put_area(extent, counts, prims, refs));
}

proof fn lemma_area_step(st: ScanView, p: Seq<u8>)
    requires
        crate::senc::area::area_fault(p, false) is None,
    ensures
        st.step(82, p) == (ScanView {
            features: st.features.shaped(Some(GeometryView::Area(crate::senc::area::area_of(p, false)))),
            ..st
        }),
{
    reveal(ScanView::step);
}

proof fn lemma_table_steps(st: ScanView, p: Seq<u8>)
    ensures
        st.step(96, p) == (ScanView {
            tables: TablesView {
                edges: with_edges(st.tables.edges, p, 4, le32(p, 0) as int, Coding::Plain),
                nodes: st.tables.nodes,
            },
            ..st
        }),
        st.step(97, p) == (ScanView {
            tables: TablesView {
                edges: st.tables.edges,
                nodes: with_nodes(st.tables.nodes, p, 4, le32(p, 0) as int, Coding::Plain),
            },
            ..st
        }),
{
    reveal(ScanView::step);
}

/// Record 96 adds edges and record 97 adds nodes to the tables of the cell.
pub proof fn table_records_are_read(
    st: ScanView,
    edges: Seq<(u32, Seq<(Single, Single)>)>,
    nodes: Seq<(u32, (Single, Single))>,
)
    requires
        edges.len() <= u32::MAX,
        nodes.len() <= u32::MAX,
        forall|i: int| 0 <= i < edges.len() ==> (#[trigger] edges[i]).1.len() <= u32::MAX,
    ensures
        st.step(
            96,
            put32(edges.len() as u32) + put_all(edges, |e: (u32, Seq<(Single, Single)>)| put_edge(e)),
        ) == (ScanView {
            tables: TablesView { edges: edges_added(st.tables.edges, edges), nodes: st.tables.nodes },
            ..st
        }),
        st.step(97, put32(nodes.len() as u32) + put_all(nodes, |e: (u32, (Single, Single))| put_node(e))) == (ScanView {
            tables: TablesView { edges: st.tables.edges, nodes: nodes_added(st.tables.nodes, nodes) },
            ..st
        }),
{
    let (a, b) = (edges.len() as u32, nodes.len() as u32);
    let p = put32(a) + put_all(edges, |e: (u32, Seq<(Single, Single)>)| put_edge(e));
    lemma_self(p);
    lemma_put32(p, 0, a);
    lemma_found_parts(p, 0, put32(a), put_all(edges, |e: (u32, Seq<(Single, Single)>)| put_edge(e)));
    edge_tables_are_read(st.tables.edges, p, 4, edges);
    let q = put32(b) + put_all(nodes, |e: (u32, (Single, Single))| put_node(e));
    lemma_self(q);
    lemma_put32(q, 0, b);
    lemma_found_parts(q, 0, put32(b), put_all(nodes, |e: (u32, (Single, Single))| put_node(e)));
    node_tables_are_read(st.tables.nodes, q, 4, nodes);
    lemma_table_steps(st, p);
    lemma_table_steps(st, q);
}

// ── Shapes ───────────────────────────────────────────────────────────────────

proof fn lemma_proper(parts: Seq<Seq<Position>>, n: int) -> (at: Seq<int>)
    requires
        0 <= n <= parts.len(),
    ensures
        lists_proper(at, parts, n),
        proper_rings(parts, n) == Seq::new(at.len(), |k: int| parts[at[k]]),
    decreases n,
{
    if n <= 0 {
        let at = Seq::<int>::empty();
        assert(proper_rings(parts, n) =~= Seq::new(at.len(), |k: int| parts[at[k]]));
        at
    } else {
        let before = lemma_proper(parts, n - 1);
        if parts[n - 1].len() >= 4 {
            let at = before.push(n - 1);
            assert forall|j: int| 0 <= j < n && (#[trigger] parts[j]).len() >= 4 implies at.contains(j) by {
                if j == n - 1 {
                    assert(at[before.len() as int] == j);
                } else {
                    assert(before.contains(j));
                    let k = choose|k: int| 0 <= k < before.len() && before[k] == j;
                    assert(at[k] == j);
                }
            }
            assert(proper_rings(parts, n) =~= Seq::new(at.len(), |k: int| parts[at[k]]));
            at
        } else {
            before
        }
    }
}

/// `at` are the rings of at least four points, in ascending order.
pub open spec fn lists_proper(at: Seq<int>, parts: Seq<Seq<Position>>, n: int) -> bool {
    &&& forall|k: int| 0 <= k < at.len() ==> 0 <= #[trigger] at[k] < n && parts[at[k]].len() >= 4
    &&& forall|a: int, b: int| 0 <= a < b < at.len() ==> #[trigger] at[a] < #[trigger] at[b]
    &&& forall|j: int| 0 <= j < n && (#[trigger] parts[j]).len() >= 4 ==> at.contains(j)
}

/// An area keeps, in their order, all rings of at least four points, one for each
/// closed loop of its references; an edge is walked backwards where its number is
/// negative. Where a loop has a gap or no ring is left, there is no geometry.
pub proof fn areas_keep_their_proper_rings<F: Fn(SmPoint, Bbox) -> Position>(
    a: AreaView,
    cuts: Seq<int>,
    g: Geometry,
    edges: Map<u32, Seq<Position>>,
    nodes: Map<u32, Position>,
    bounds: Bbox,
    from_sm: F,
)
    requires
        are_cuts(a.edge_refs, cuts),
        resolved(GeometryView::Area(a), g, edges, nodes, bounds, from_sm),
    ensures
        g is Empty || g is Area,
        !all_connect(a.edge_refs, cuts) ==> g is Empty,
        all_connect(a.edge_refs, cuts) ==> exists|parts: Seq<Seq<Position>>, at: Seq<int>| #[trigger]
            lists_proper(at, parts, cuts.len() - 1) && parts.len() == cuts.len() - 1 && (forall|k: int|
                0 <= k < parts.len() ==> #[trigger] parts[k] == closed(
                    line(ring_refs(a.edge_refs, cuts, k), edges, nodes, Heading::BySign),
                )) && (g is Empty <==> at.len() == 0) && (g matches Geometry::Area(out) ==> lists(out.rings@)
                == Seq::new(at.len(), |k: int| parts[at[k]]) && out.vertex_counts@ == a.vertex_counts),
{
    rings_follow_the_cuts(a.edge_refs, cuts, edges, nodes, Heading::BySign);
    assert(is_cut(a.edge_refs, cuts, 0));
    let parts = rings(a.edge_refs, 0, edges, nodes, Heading::BySign);
    let at = lemma_proper(parts, parts.len() as int);
    assert(lists_proper(at, parts, cuts.len() - 1));
}

/// The kinds of primitive by number: 4 triangles, 5 a strip, 6 a fan. An area with
/// any other number among its primitives is refused for the first such number.
pub proof fn primitives_are_known_by_number(prims: Seq<crate::senc::TriPrimView>, i: int, n: int)
    requires
        0 <= i < n <= prims.len(),
        prims[i].prim_type < 4 || prims[i].prim_type > 6,
        forall|j: int| 0 <= j < i ==> 4 <= (#[trigger] prims[j]).prim_type <= 6,
    ensures
        TriPrimType::of(4) == Some(TriPrimType::Triangles),
        TriPrimType::of(5) == Some(TriPrimType::TriangleStrip),
        TriPrimType::of(6) == Some(TriPrimType::TriangleFan),
        unknown_prim(prims, i) is None,
        unknown_prim(prims, n) == Some(prims[i].prim_type),
    decreases n,
{
    lemma_known(prims, i);
    if i < n - 1 {
        primitives_are_known_by_number(prims, i, n - 1);
    }
}

proof fn lemma_known(prims: Seq<crate::senc::TriPrimView>, n: int)
    requires
        0 <= n <= prims.len(),
        forall|j: int| 0 <= j < n ==> 4 <= (#[trigger] prims[j]).prim_type <= 6,
    ensures
        unknown_prim(prims, n) is None,
    decreases n,
{
    if n > 0 {
        lemma_known(prims, n - 1);
        assert(4 <= prims[n - 1].prim_type <= 6);
    }
}

/// Points and soundings are where they were recorded, and soundings keep their depths
/// and their order.
pub proof fn points_and_depths_are_kept<F: Fn(SmPoint, Bbox) -> Position>(
    p: Position,
    s: Seq<RawSounding>,
    at: Geometry,
    depths: Geometry,
    edges: Map<u32, Seq<Position>>,
    nodes: Map<u32, Position>,
    bounds: Bbox,
    from_sm: F,
    i: int,
)
    requires
        resolved(GeometryView::Point(p), at, edges, nodes, bounds, from_sm),
        resolved(GeometryView::Sounding(s), depths, edges, nodes, bounds, from_sm),
        0 <= i < s.len(),
    ensures
        at == Geometry::Point(p),
        depths matches Geometry::MultiPoint(out) && out@.len() == s.len() && out@[i].depth == s[i].depth
            && call_ensures(from_sm, (s[i].at, bounds), out@[i].at),
{
    assert(placed(from_sm, bounds, s[i].at, depths->MultiPoint_0@[i].at));
}

/// A line runs along all its references in one stroke: each is walked from its start
/// node along the points of its edge, backwards where the number of the edge is
/// negative.
pub proof fn every_reference_shapes_its_line<F: Fn(SmPoint, Bbox) -> Position>(
    refs: Seq<EdgeRef>,
    g: Geometry,
    edges: Map<u32, Seq<Position>>,
    nodes: Map<u32, Position>,
    bounds: Bbox,
    from_sm: F,
    i: int,
    pts: Seq<Position>,
)
    requires
        resolved(GeometryView::Line(refs), g, edges, nodes, bounds, from_sm),
        0 <= i < refs.len(),
        ({
            let e = refs[i].edge;
            ||| e > 0 && edges.contains_key(e as u32) && pts == edges[e as u32]
            ||| e < 0 && edges.contains_key((-e) as u32) && pts == edges[(-e) as u32].reverse()
        }),
        pts.len() > 0,
    ensures
        g matches Geometry::Line(strokes) && strokes@.len() == 1 && exists|at: int| #[trigger]
            walks(strokes@[0]@, at, node_place(nodes, refs[i].start), pts),
{
    each_edge_is_walked(refs, i, edges, nodes, Heading::BySign, pts);
    let path = line(refs, edges, nodes, Heading::BySign);
    let at = choose|at: int| #[trigger] walks(path, at, node_place(nodes, refs[i].start), pts);
    assert(path.len() > 0);
    let strokes = g->Line_0@;
    assert(lists(strokes).len() == strokes.len());
    assert(lists(strokes)[0] == strokes[0]@);
    assert(walks(strokes[0]@, at, node_place(nodes, refs[i].start), pts));
}

/// An area keeps all its primitives in their order, each of its kind, with its own
/// bounds and every vertex at its place.
pub proof fn areas_keep_their_primitives<F: Fn(SmPoint, Bbox) -> Position>(
    a: AreaView,
    g: Geometry,
    edges: Map<u32, Seq<Position>>,
    nodes: Map<u32, Position>,
    bounds: Bbox,
    from_sm: F,
    i: int,
    k: int,
)
    requires
        resolved(GeometryView::Area(a), g, edges, nodes, bounds, from_sm),
        g is Area,
        0 <= i < a.tri_prims.len(),
        0 <= k < a.tri_prims[i].vertices.len(),
    ensures
        g->Area_0.tri_prims@.len() == a.tri_prims.len(),
        ({
            let out = g->Area_0.tri_prims@[i];
            &&& out.prim_type is Triangles <==> a.tri_prims[i].prim_type == 4
            &&& out.prim_type is TriangleStrip <==> a.tri_prims[i].prim_type == 5
            &&& out.prim_type is TriangleFan <==> a.tri_prims[i].prim_type == 6
            &&& a.tri_prims[i].extent == PrimExtent::Degrees(out.bbox)
            &&& out.vertices@.len() == a.tri_prims[i].vertices.len()
            &&& call_ensures(from_sm, (a.tri_prims[i].vertices[k], bounds), out.vertices@[k])
        }),
{
    let out = g->Area_0.tri_prims@[i];
    assert(prim_resolved(a.tri_prims[i], out, bounds, from_sm));
    assert(placed(from_sm, bounds, a.tri_prims[i].vertices[k], out.vertices@[k]));
}

proof fn lemma_first_fault(raw: Seq<FeatureView>, i: int, n: int)
    requires
        0 <= i < n <= raw.len(),
        features_fault(raw, i) is None,
        geometry_fault(raw[i].geometry) is Some,
    ensures
        features_fault(raw, n) == geometry_fault(raw[i].geometry),
    decreases n,
{
    if i < n - 1 {
        lemma_first_fault(raw, i, n - 1);
    }
}

/// A stream is refused for the first feature whose area has a primitive of an unknown
/// kind, whatever comes behind it; features without an area never refuse it.
pub proof fn the_first_unknown_primitive_refuses(raw: Seq<FeatureView>, i: int)
    requires
        0 <= i < raw.len(),
        forall|j: int| 0 <= j < i ==> !((#[trigger] raw[j]).geometry is Area),
    ensures
        features_fault(raw, i) is None,
        geometry_fault(raw[i].geometry) is Some ==> features_fault(raw, raw.len() as int) == geometry_fault(
            raw[i].geometry,
        ),
        !(raw[i].geometry is Area) ==> geometry_fault(raw[i].geometry) is None,
    decreases i,
{
    if i > 0 {
        the_first_unknown_primitive_refuses(raw, i - 1);
        assert(!(raw[i - 1].geometry is Area));
    }
    if geometry_fault(raw[i].geometry) is Some {
        lemma_first_fault(raw, i, raw.len() as int);
    }
}

/// Every feature of a stream is a feature of its cell, in the order of the stream and
/// with its own type, identifier, primitive and attributes.
pub proof fn features_keep_what_describes_them<F: Fn(SmPoint, Bbox) -> Position>(
    raw: Seq<FeatureView>,
    out: Seq<Feature>,
    tables: TablesView,
    bounds: Bbox,
    from_sm: F,
    i: int,
)
    requires
        features_resolved(raw, out, tables, bounds, from_sm),
        0 <= i < raw.len(),
    ensures
        out.len() == raw.len(),
        out[i].type_code == raw[i].type_code,
        out[i].id == raw[i].id,
        out[i].primitive == raw[i].primitive,
        views(out[i].attributes@) == raw[i].attributes,
{
    let (edges, nodes) = choose|edges: Map<u32, Seq<Position>>, nodes: Map<u32, Position>|
        #![trigger placed_edges(from_sm, bounds, tables.edges, edges), placed_nodes(from_sm, bounds, tables.nodes, nodes)]
        {
            &&& placed_edges(from_sm, bounds, tables.edges, edges)
            &&& placed_nodes(from_sm, bounds, tables.nodes, nodes)
            &&& out.len() == raw.len()
            &&& forall|i: int|
                0 <= i < raw.len() ==> feature_resolved(raw[i], #[trigger] out[i], edges, nodes, bounds, from_sm)
        };
    assert(feature_resolved(raw[i], out[i], edges, nodes, bounds, from_sm));
}

} // verus!
