//! Plain SENC streams, as a chart plotter stores them: no server status, no
//! coverage and no texts, but areas keep their tessellation.
use std::collections::HashMap;
use vstd::prelude::*;
use vstd::std_specs::hash::*;
use crate::bbox::Bbox;
use crate::bytes::{le16, le32, read_u16, read_u32};
use crate::oesu::{
    header_text, header_u16, header_u32, read_header_text, read_header_u16, read_header_u32, zero_bounds,
};
use crate::s57::Sounding;
use crate::scalar::{Position, Real};
use crate::senc::area::{
    area_fault, area_of, area_prims_start, parse_area_payload, prim_at, prim_end, prims_at, AreaError,
};
use crate::senc::collect::{
    attribute_of, bounds_of, line_of, multipoint_of, point_of, read_bounds, read_line, read_multipoint,
    read_point, Collector, CollectorView,
};
use crate::senc::place::{
    place_edges, place_list, place_nodes, place_soundings, placed, placed_edges, placed_list, placed_nodes,
    projects_all,
};
use crate::senc::rings::{build_ring, build_rings, line, lists, rings, sound, Heading};
use crate::senc::tables::{contents, with_edges, with_nodes, Tables, TablesView};
use crate::senc::{
    views, Attribute, Coding, FeatureView, GeometryView, PrimExtent, RawFeature, RawGeometry,
    RawTriPrim, SmPoint, TriPrimType, TriPrimView,
};
use crate::text::{number_text, with_number};

verus! {

broadcast use group_hash_axioms;

/// Why a stream is refused.
#[derive(Debug, Clone, Copy, PartialEq, Eq, Structural)]
pub enum OsencError {
    /// The stream ends inside a payload.
    TruncatedRecord { rec_type: u16 },
    /// A line record ends inside an edge reference, after its node and edge
    /// numbers.
    TruncatedLine,
    /// A vector table has no room for its entry count.
    TruncatedTable { rec_type: u16 },
    /// An area record is faulty.
    Area(AreaError),
    /// An area has a tessellation primitive of an unknown kind.
    UnknownPrimitive { prim_type: u8 },
}

impl OsencError {
    /// The sentence that tells a user what is wrong.
    pub open spec fn sentence(self) -> Seq<char> {
        match self {
            OsencError::TruncatedRecord { rec_type } => with_number(
                "reading payload of record type "@,
                rec_type as int,
                ""@,
            ),
            OsencError::TruncatedLine => "line record ends inside an edge reference"@,
            OsencError::TruncatedTable { rec_type } => with_number(
                "record of type "@,
                rec_type as int,
                " has no room for its entry count"@,
            ),
            OsencError::Area(e) => e.sentence(),
            OsencError::UnknownPrimitive { prim_type } => with_number(
                "unknown TriPrim type "@,
                prim_type as int,
                ""@,
            ),
        }
    }

    /// A sentence for a log or an error message.
    pub fn message(&self) -> (t: String)
        ensures
            t@ == self.sentence(),
    {
        match self {
            OsencError::TruncatedRecord { rec_type } => number_text(
                "reading payload of record type ",
                *rec_type as u64,
                "",
            ),
            OsencError::TruncatedLine => "line record ends inside an edge reference".to_owned(),
            OsencError::TruncatedTable { rec_type } => number_text(
                "record of type ",
                *rec_type as u64,
                " has no room for its entry count",
            ),
            OsencError::Area(e) => e.message(),
            OsencError::UnknownPrimitive { prim_type } => number_text(
                "unknown TriPrim type ",
                *prim_type as u64,
                "",
            ),
        }
    }
}

/// One tessellation primitive of an area.
#[derive(Debug)]
pub struct TriPrim {
    pub prim_type: TriPrimType,
    pub bbox: Bbox,
    pub vertices: Vec<Position>,
}

/// An area in degrees.
#[derive(Debug)]
pub struct AreaGeometry {
    /// Closed rings: the outer boundary, then holes or further parts.
    pub rings: Vec<Vec<Position>>,
    /// Vertex counts of the reduced contours behind the tessellation.
    pub vertex_counts: Vec<u32>,
    pub tri_prims: Vec<TriPrim>,
}

/// The geometry of a feature.
#[derive(Debug)]
pub enum Geometry {
    Empty,
    Point(Position),
    MultiPoint(Vec<Sounding>),
    Line(Vec<Vec<Position>>),
    Area(AreaGeometry),
}

/// A charted object.
#[derive(Debug)]
pub struct Feature {
    pub type_code: u16,
    pub id: u16,
    pub primitive: u8,
    pub attributes: Vec<Attribute>,
    pub geometry: Geometry,
}

/// A cell.
#[derive(Debug)]
pub struct OsencCell {
    pub name: String,
    pub native_scale: u32,
    pub senc_version: u16,
    pub bounds: Bbox,
    pub features: Vec<Feature>,
}

// ── Records ──────────────────────────────────────────────────────────────────

/// What the records of a stream have told so far.
#[derive(Debug)]
pub struct Scan {
    pub name: String,
    pub native_scale: u32,
    pub senc_version: u16,
    pub bounds: Bbox,
    pub features: Collector,
    pub tables: Tables,
}

/// What a [`Scan`] says.
pub struct ScanView {
    pub name: Seq<char>,
    pub native_scale: u32,
    pub senc_version: u16,
    pub bounds: Bbox,
    pub features: CollectorView,
    pub tables: TablesView,
}

impl View for Scan {
    type V = ScanView;

    open spec fn view(&self) -> ScanView {
        ScanView {
            name: self.name@,
            native_scale: self.native_scale,
            senc_version: self.senc_version,
            bounds: self.bounds,
            features: self.features@,
            tables: self.tables@,
        }
    }
}

/// Nothing told.
pub open spec fn blank() -> ScanView {
    ScanView {
        name: Seq::empty(),
        native_scale: 0,
        senc_version: 0,
        bounds: zero_bounds(),
        features: CollectorView { done: Seq::empty(), current: None },
        tables: TablesView { edges: Map::empty(), nodes: Map::empty() },
    }
}

/// What is wrong with a record, if anything is. A line record whose edges do
/// not fit is cut short, but not within the last four bytes of an edge.
pub open spec fn record_fault(rec_type: u16, p: Seq<u8>) -> Option<OsencError> {
    if rec_type == 81 && p.len() >= 36 && le32(p, 32) > (p.len() - 36) / 16 && (p.len() - 36) % 16 >= 12 {
        Some(OsencError::TruncatedLine)
    } else if rec_type == 82 && p.len() >= 44 {
        match area_fault(p, false) {
            Some(e) => Some(OsencError::Area(e)),
            None => None,
        }
    } else if (rec_type == 96 || rec_type == 97) && p.len() < 4 {
        Some(OsencError::TruncatedTable { rec_type })
    } else {
        None
    }
}

impl ScanView {
    /// After a record without fault.
    #[verifier::opaque]
    pub open spec fn step(self, rec_type: u16, p: Seq<u8>) -> ScanView {
        if rec_type == 1 {
            ScanView { senc_version: header_u16(p), ..self }
        } else if rec_type == 2 {
            ScanView { name: header_text(p), ..self }
        } else if rec_type == 7 {
            ScanView { native_scale: header_u32(p), ..self }
        } else if rec_type == 64 {
            ScanView { features: self.features.started(p), ..self }
        } else if rec_type == 65 {
            ScanView { features: self.features.described(attribute_of(p)), ..self }
        } else if rec_type == 80 {
            ScanView { features: self.features.shaped(point_of(p)), ..self }
        } else if rec_type == 81 {
            ScanView { features: self.features.shaped(line_of(p)), ..self }
        } else if rec_type == 82 && p.len() >= 44 {
            ScanView {
                features: self.features.shaped(Some(GeometryView::Area(area_of(p, false)))),
                ..self
            }
        } else if rec_type == 83 {
            ScanView { features: self.features.shaped(multipoint_of(p)), ..self }
        } else if rec_type == 96 {
            ScanView {
                tables: TablesView {
                    edges: with_edges(self.tables.edges, p, 4, le32(p, 0) as int, Coding::Plain),
                    nodes: self.tables.nodes,
                },
                ..self
            }
        } else if rec_type == 97 {
            ScanView {
                tables: TablesView {
                    edges: self.tables.edges,
                    nodes: with_nodes(self.tables.nodes, p, 4, le32(p, 0) as int, Coding::Plain),
                },
                ..self
            }
        } else if rec_type == 100 {
            match bounds_of(p) {
                Some(bounds) => ScanView { bounds, ..self },
                None => self,
            }
        } else {
            self
        }
    }
}

/// What the records from `at` on add to `st`. The stream ends where no record
/// header follows, or one whose length is less than its own six bytes.
pub open spec fn scanned(s: Seq<u8>, at: int, st: ScanView) -> Result<ScanView, OsencError>
    decreases s.len() - at,
{
    if at + 6 > s.len() || le32(s, at + 2) < 6 {
        Ok(st)
    } else if at + le32(s, at + 2) > s.len() {
        Err(OsencError::TruncatedRecord { rec_type: le16(s, at) })
    } else {
        let p = s.subrange(at + 6, at + le32(s, at + 2));
        match record_fault(le16(s, at), p) {
            Some(e) => Err(e),
            None => scanned(s, at + le32(s, at + 2), st.step(le16(s, at), p)),
        }
    }
}

impl Scan {
    /// Nothing told.
    pub fn new() -> (s: Scan)
        ensures
            s@ == blank(),
    {
        let zero: Real = Real::zero();
        Scan {
            name: String::new(),
            native_scale: 0,
            senc_version: 0,
            bounds: Bbox { west: zero, south: zero, east: zero, north: zero },
            features: Collector::new(),
            tables: Tables::new(),
        }
    }

    /// Takes a record. A faulty one changes nothing.
    pub fn apply(&mut self, rec_type: u16, p: &[u8]) -> (r: Result<(), OsencError>)
        ensures
            match r {
                Ok(()) => record_fault(rec_type, p@) is None && final(self)@ == old(self)@.step(rec_type, p@),
                Err(e) => record_fault(rec_type, p@) == Some(e) && final(self)@ == old(self)@,
            },
    {
        proof {
            reveal(ScanView::step);
        }
        let len: usize = p.len();
        match rec_type {
            1 => {
                self.senc_version = read_header_u16(p);
            },
            2 => {
                self.name = read_header_text(p);
            },
            7 => {
                self.native_scale = read_header_u32(p);
            },
            64 => {
                self.features.start(p);
            },
            65 => {
                self.features.describe(p);
            },
            80 => {
                self.features.shape(read_point(p));
            },
            81 => {
                if len >= 36 && read_u32(p, 32) as u64 > ((len - 36) / 16) as u64 && (len - 36) % 16 >= 12 {
                    return Err(OsencError::TruncatedLine);
                }
                self.features.shape(read_line(p));
            },
            82 => {
                if len >= 44 {
                    match parse_area_payload(p, false) {
                        Ok(a) => {
                            self.features.shape(Some(RawGeometry::Area(a)));
                        },
                        Err(e) => {
                            return Err(OsencError::Area(e));
                        },
                    }
                }
            },
            83 => {
                self.features.shape(read_multipoint(p));
            },
            96 => {
                if len < 4 {
                    return Err(OsencError::TruncatedTable { rec_type });
                }
                self.tables.add_edges(p, 0, Coding::Plain);
            },
            97 => {
                if len < 4 {
                    return Err(OsencError::TruncatedTable { rec_type });
                }
                self.tables.add_nodes(p, 0, Coding::Plain);
            },
            100 => {
                if let Some(bounds) = read_bounds(p) {
                    self.bounds = bounds;
                }
            },
            _ => {},
        }
        Ok(())
    }
}

/// Takes all records of a stream.
pub fn scan_records(data: &[u8]) -> (r: Result<Scan, OsencError>)
    ensures
        match r {
            Ok(s) => scanned(data@, 0, blank()) == Ok::<ScanView, OsencError>(s@),
            Err(e) => scanned(data@, 0, blank()) == Err::<ScanView, OsencError>(e),
        },
{
    let mut scan = Scan::new();
    let len: usize = data.len();
    let mut at: usize = 0;
    while len - at >= 6
        invariant
            at <= len,
            len == data@.len(),
            scanned(data@, 0, blank()) == scanned(data@, at as int, scan@),
        decreases len - at,
    {
        let rec_type: u16 = read_u16(data, at);
        let rec_len: u32 = read_u32(data, at + 2);
        if rec_len < 6 {
            return Ok(scan);
        }
        if ((len - at) as u64) < rec_len as u64 {
            return Err(OsencError::TruncatedRecord { rec_type });
        }
        let next: usize = at + rec_len as usize;
        match scan.apply(rec_type, vstd::slice::slice_subrange(data, at + 6, next)) {
            Ok(()) => {},
            Err(e) => {
                return Err(e);
            },
        }
        at = next;
    }
    Ok(scan)
}

// ── Geometry ─────────────────────────────────────────────────────────────────

/// The first of the first `n` primitives that is of no known kind.
pub open spec fn unknown_prim(prims: Seq<TriPrimView>, n: int) -> Option<u8>
    decreases n,
{
    if n <= 0 {
        None
    } else {
        match unknown_prim(prims, n - 1) {
            Some(t) => Some(t),
            None => if TriPrimType::of(prims[n - 1].prim_type) is None {
                Some(prims[n - 1].prim_type)
            } else {
                None
            },
        }
    }
}

/// The kind of a primitive for which a geometry cannot be resolved. An area
/// without edges or with a gap in a ring has no geometry whatever its
/// primitives are.
pub open spec fn geometry_fault(raw: GeometryView) -> Option<u8> {
    match raw {
        GeometryView::Area(a) => if a.edge_refs.len() == 0 || !sound(a.edge_refs, 0) {
            None
        } else {
            unknown_prim(a.tri_prims, a.tri_prims.len() as int)
        },
        _ => None,
    }
}

/// The first of the first `n` features whose geometry cannot be resolved.
pub open spec fn features_fault(raw: Seq<FeatureView>, n: int) -> Option<u8>
    decreases n,
{
    if n <= 0 {
        None
    } else {
        match features_fault(raw, n - 1) {
            Some(t) => Some(t),
            None => geometry_fault(raw[n - 1].geometry),
        }
    }
}

/// Those of the first `n` rings that have at least four points.
pub open spec fn proper_rings(parts: Seq<Seq<Position>>, n: int) -> Seq<Seq<Position>>
    decreases n,
{
    if n <= 0 {
        Seq::empty()
    } else if parts[n - 1].len() >= 4 {
        proper_rings(parts, n - 1).push(parts[n - 1])
    } else {
        proper_rings(parts, n - 1)
    }
}

/// `out` is the primitive `raw` in degrees.
pub open spec fn prim_resolved<F: Fn(SmPoint, Bbox) -> Position>(
    raw: TriPrimView,
    out: TriPrim,
    bounds: Bbox,
    from_sm: F,
) -> bool {
    &&& TriPrimType::of(raw.prim_type) == Some(out.prim_type)
    &&& raw.extent == PrimExtent::Degrees(out.bbox)
    &&& placed_list(from_sm, bounds, raw.vertices, out.vertices@)
}

/// `g` is the geometry `raw`, its references resolved in the placed tables. A
/// line without points has no geometry, nor has an area without edges, with a
/// gap in a ring, or with no ring of at least four points.
pub open spec fn resolved<F: Fn(SmPoint, Bbox) -> Position>(
    raw: GeometryView,
    g: Geometry,
    edges: Map<u32, Seq<Position>>,
    nodes: Map<u32, Position>,
    bounds: Bbox,
    from_sm: F,
) -> bool {
    match raw {
        GeometryView::Empty => g is Empty,
        GeometryView::Point(p) => g == Geometry::Point(p),
        GeometryView::Sounding(s) => g matches Geometry::MultiPoint(out) && out@.len() == s.len() && forall|
            i: int,
        |
            0 <= i < s.len() ==> (#[trigger] out@[i]).depth == s[i].depth && placed(
                from_sm,
                bounds,
                s[i].at,
                out@[i].at,
            ),
        GeometryView::Line(refs) => {
            let l = line(refs, edges, nodes, Heading::BySign);
            if l.len() == 0 {
                g is Empty
            } else {
                g matches Geometry::Line(strokes) && lists(strokes@) == seq![l]
            }
        },
        GeometryView::Area(a) => {
            let parts = rings(a.edge_refs, 0, edges, nodes, Heading::BySign);
            let kept = proper_rings(parts, parts.len() as int);
            if a.edge_refs.len() == 0 || !sound(a.edge_refs, 0) || kept.len() == 0 {
                g is Empty
            } else {
                g matches Geometry::Area(out) && lists(out.rings@) == kept && out.vertex_counts@
                    == a.vertex_counts && out.tri_prims@.len() == a.tri_prims.len() && forall|i: int|
                    0 <= i < a.tri_prims.len() ==> prim_resolved(
                        a.tri_prims[i],
                        #[trigger] out.tri_prims@[i],
                        bounds,
                        from_sm,
                    )
            }
        },
    }
}

/// Every area primitive has its extent in degrees.
pub open spec fn in_degrees(raw: GeometryView) -> bool {
    raw matches GeometryView::Area(a) ==> forall|i: int|
        0 <= i < a.tri_prims.len() ==> (#[trigger] a.tri_prims[i]).extent is Degrees
}

proof fn lemma_unknown_prim(prims: Seq<TriPrimView>, i: int, n: int)
    requires
        0 <= i < n <= prims.len(),
        unknown_prim(prims, i) is None,
        TriPrimType::of(prims[i].prim_type) is None,
    ensures
        unknown_prim(prims, n) == Some(prims[i].prim_type),
    decreases n,
{
    if i < n - 1 {
        lemma_unknown_prim(prims, i, n - 1);
    }
}

proof fn lemma_features_fault(raw: Seq<FeatureView>, i: int, n: int)
    requires
        0 <= i < n <= raw.len(),
        features_fault(raw, i) is None,
        geometry_fault(raw[i].geometry) is Some,
    ensures
        features_fault(raw, n) == geometry_fault(raw[i].geometry),
    decreases n,
{
    if i < n - 1 {
        lemma_features_fault(raw, i, n - 1);
    }
}

fn resolve_prims<F: Fn(SmPoint, Bbox) -> Position>(
    prims: &Vec<RawTriPrim>,
    bounds: Bbox,
    from_sm: &F,
) -> (r: Result<Vec<TriPrim>, OsencError>)
    requires
        projects_all(*from_sm, bounds),
        forall|i: int| 0 <= i < prims@.len() ==> (#[trigger] prims@[i]).extent is Degrees,
    ensures
        match r {
            Ok(out) => {
                &&& unknown_prim(views(prims@), prims@.len() as int) is None
                &&& out@.len() == prims@.len()
                &&& forall|i: int|
                    0 <= i < prims@.len() ==> prim_resolved(
                        views(prims@)[i],
                        #[trigger] out@[i],
                        bounds,
                        *from_sm,
                    )
            },
            Err(e) => unknown_prim(views(prims@), prims@.len() as int) matches Some(t) && e
                == (OsencError::UnknownPrimitive { prim_type: t }),
        },
{
    let mut out: Vec<TriPrim> = Vec::new();
    let mut i: usize = 0;
    while i < prims.len()
        invariant
            i <= prims@.len(),
            projects_all(*from_sm, bounds),
            forall|k: int| 0 <= k < prims@.len() ==> (#[trigger] prims@[k]).extent is Degrees,
            unknown_prim(views(prims@), i as int) is None,
            out@.len() == i,
            forall|k: int|
                0 <= k < i ==> prim_resolved(views(prims@)[k], #[trigger] out@[k], bounds, *from_sm),
        decreases prims@.len() - i,
    {
        let t: u8 = prims[i].prim_type;
        assert(views(prims@)[i as int] == prims@[i as int]@);
        let prim_type: TriPrimType = match TriPrimType::from_u8(t) {
            Some(v) => v,
            None => {
                proof {
                    lemma_unknown_prim(views(prims@), i as int, prims@.len() as int);
                }
                return Err(OsencError::UnknownPrimitive { prim_type: t });
            },
        };
        let bbox: Bbox = match prims[i].extent {
            PrimExtent::Degrees(b) => b,
            PrimExtent::Metres { .. } => {
                assert(false);
                let zero: Real = Real::zero();
                Bbox { west: zero, south: zero, east: zero, north: zero }
            },
        };
        let vertices: Vec<Position> = place_list(&prims[i].vertices, bounds, from_sm);
        out.push(TriPrim { prim_type, bbox, vertices });
        i += 1;
    }
    Ok(out)
}

fn keep_proper(parts: Vec<Vec<Position>>) -> (out: Vec<Vec<Position>>)
    ensures
        lists(out@) == proper_rings(lists(parts@), parts@.len() as int),
{
    let ghost all = parts@;
    let mut out: Vec<Vec<Position>> = Vec::new();
    assert(lists(out@) =~= proper_rings(lists(all), 0));
    for part in it: parts
        invariant
            it.seq() == all,
            lists(out@) == proper_rings(lists(all), it.index@ as int),
    {
        assert(lists(all)[it.index@ as int] == part@);
        if part.len() >= 4 {
            let ghost before = out@;
            out.push(part);
            assert(lists(out@) =~= lists(before).push(part@));
        }
    }
    out
}

/// Resolves a geometry in the placed tables.
pub fn resolve_geometry<F: Fn(SmPoint, Bbox) -> Position>(
    raw: RawGeometry,
    bounds: Bbox,
    edges: &HashMap<u32, Vec<Position>>,
    nodes: &HashMap<u32, Position>,
    from_sm: &F,
) -> (r: Result<Geometry, OsencError>)
    requires
        projects_all(*from_sm, bounds),
        in_degrees(raw@),
    ensures
        match r {
            Ok(g) => geometry_fault(raw@) is None && resolved(
                raw@,
                g,
                contents(edges@),
                nodes@,
                bounds,
                *from_sm,
            ),
            Err(e) => geometry_fault(raw@) matches Some(t) && e == (OsencError::UnknownPrimitive {
                prim_type: t,
            }),
        },
{
    match raw {
        RawGeometry::Empty => Ok(Geometry::Empty),
        RawGeometry::Point(p) => Ok(Geometry::Point(p)),
        RawGeometry::Sounding(list) => Ok(Geometry::MultiPoint(place_soundings(&list, bounds, from_sm))),
        RawGeometry::Line(refs) => {
            let l: Vec<Position> = build_ring(&refs, 0, refs.len(), edges, nodes, Heading::BySign, false);
            assert(refs@.subrange(0, refs@.len() as int) =~= refs@);
            if l.len() == 0 {
                Ok(Geometry::Empty)
            } else {
                let ghost stroke = l@;
                let mut strokes: Vec<Vec<Position>> = Vec::new();
                strokes.push(l);
                assert(lists(strokes@) =~= seq![stroke]);
                Ok(Geometry::Line(strokes))
            }
        },
        RawGeometry::Area(a) => {
            if a.edge_refs.len() == 0 {
                return Ok(Geometry::Empty);
            }
            let parts: Vec<Vec<Position>> = match build_rings(&a.edge_refs, edges, nodes, Heading::BySign) {
                Some(v) => v,
                None => {
                    return Ok(Geometry::Empty);
                },
            };
            let kept: Vec<Vec<Position>> = keep_proper(parts);
            assert forall|i: int| 0 <= i < a.tri_prims@.len() implies (#[trigger] a.tri_prims@[i]).extent is Degrees by {
                assert(a@.tri_prims[i].extent is Degrees);
            }
            let tri_prims: Vec<TriPrim> = match resolve_prims(&a.tri_prims, bounds, from_sm) {
                Ok(v) => v,
                Err(e) => {
                    return Err(e);
                },
            };
            if kept.len() == 0 {
                Ok(Geometry::Empty)
            } else {
                Ok(Geometry::Area(AreaGeometry { rings: kept, vertex_counts: a.vertex_counts, tri_prims }))
            }
        },
    }
}

// ── Cells ────────────────────────────────────────────────────────────────────

/// Every feature has the extents of its primitives in degrees.
spec fn all_in_degrees(c: CollectorView) -> bool {
    &&& forall|i: int| 0 <= i < c.done.len() ==> in_degrees((#[trigger] c.done[i]).geometry)
    &&& c.current matches Some(f) ==> in_degrees(f.geometry)
}

proof fn lemma_plain_prims(s: Seq<u8>, at: int, n: int)
    ensures
        forall|i: int|
            0 <= i < prims_at(s, at, n, Coding::Plain).len() ==> (#[trigger] prims_at(s, at, n, Coding::Plain)[i]).extent is Degrees,
    decreases n,
{
    if n > 0 {
        let next = prim_end(s, at, Coding::Plain);
        let rest = prims_at(s, next, n - 1, Coding::Plain);
        lemma_plain_prims(s, next, n - 1);
        let all = prims_at(s, at, n, Coding::Plain);
        assert(all == seq![prim_at(s, at, Coding::Plain)] + rest);
        assert forall|i: int| 0 <= i < all.len() implies (#[trigger] all[i]).extent is Degrees by {
            if i > 0 {
                assert(all[i] == rest[i - 1]);
            }
        }
    }
}

proof fn lemma_scanned_in_degrees(s: Seq<u8>, at: int, st: ScanView)
    requires
        0 <= at,
        all_in_degrees(st.features),
    ensures
        scanned(s, at, st) matches Ok(out) ==> all_in_degrees(out.features),
    decreases s.len() - at,
{
    if at + 6 <= s.len() && le32(s, at + 2) >= 6 && at + le32(s, at + 2) <= s.len() {
        let p = s.subrange(at + 6, at + le32(s, at + 2));
        let rec_type = le16(s, at);
        if record_fault(rec_type, p) is None {
            lemma_plain_prims(p, area_prims_start(p, false), le32(p, 36) as int);
            let next = st.step(rec_type, p);
            reveal(ScanView::step);
            assert(all_in_degrees(next.features));
            lemma_scanned_in_degrees(s, at + le32(s, at + 2), next);
        }
    }
}

/// `out` is the feature `raw` with its geometry resolved.
pub open spec fn feature_resolved<F: Fn(SmPoint, Bbox) -> Position>(
    raw: FeatureView,
    out: Feature,
    edges: Map<u32, Seq<Position>>,
    nodes: Map<u32, Position>,
    bounds: Bbox,
    from_sm: F,
) -> bool {
    &&& out.type_code == raw.type_code
    &&& out.id == raw.id
    &&& out.primitive == raw.primitive
    &&& views(out.attributes@) == raw.attributes
    &&& resolved(raw.geometry, out.geometry, edges, nodes, bounds, from_sm)
}

/// `out` are the features `raw`, in their order, with their geometry resolved
/// in one placement of the tables.
pub open spec fn features_resolved<F: Fn(SmPoint, Bbox) -> Position>(
    raw: Seq<FeatureView>,
    out: Seq<Feature>,
    tables: TablesView,
    bounds: Bbox,
    from_sm: F,
) -> bool {
    exists|edges: Map<u32, Seq<Position>>, nodes: Map<u32, Position>|
        #![trigger placed_edges(from_sm, bounds, tables.edges, edges), placed_nodes(from_sm, bounds, tables.nodes, nodes)]
        {
            &&& placed_edges(from_sm, bounds, tables.edges, edges)
            &&& placed_nodes(from_sm, bounds, tables.nodes, nodes)
            &&& out.len() == raw.len()
            &&& forall|i: int|
                0 <= i < raw.len() ==> feature_resolved(raw[i], #[trigger] out[i], edges, nodes, bounds, from_sm)
        }
}

/// What is wrong with a stream, if anything is.
pub open spec fn stream_fault(s: Seq<u8>) -> Option<OsencError> {
    match scanned(s, 0, blank()) {
        Err(e) => Some(e),
        Ok(st) => match features_fault(st.features.all(), st.features.all().len() as int) {
            Some(prim_type) => Some(OsencError::UnknownPrimitive { prim_type }),
            None => None,
        },
    }
}

/// What the records of a stream without fault tell.
pub open spec fn stream_scan(s: Seq<u8>) -> ScanView {
    match scanned(s, 0, blank()) {
        Ok(st) => st,
        Err(_) => blank(),
    }
}

fn resolve_features<F: Fn(SmPoint, Bbox) -> Position>(
    raw: Vec<RawFeature>,
    tables: &Tables,
    bounds: Bbox,
    from_sm: &F,
) -> (r: Result<Vec<Feature>, OsencError>)
    requires
        projects_all(*from_sm, bounds),
        forall|i: int| 0 <= i < raw@.len() ==> in_degrees((#[trigger] raw@[i]).geometry@),
    ensures
        match r {
            Ok(out) => {
                &&& features_fault(views(raw@), raw@.len() as int) is None
                &&& features_resolved(views(raw@), out@, tables@, bounds, *from_sm)
            },
            Err(e) => features_fault(views(raw@), raw@.len() as int) matches Some(t) && e == (
            OsencError::UnknownPrimitive { prim_type: t }),
        },
{
    let edges: HashMap<u32, Vec<Position>> = place_edges(&tables.edges, bounds, from_sm);
    let nodes: HashMap<u32, Position> = place_nodes(&tables.nodes, bounds, from_sm);
    let ghost all = raw@;
    let mut out: Vec<Feature> = Vec::new();
    for f in it: raw
        invariant
            it.seq() == all,
            out@.len() == it.index@,
            projects_all(*from_sm, bounds),
            forall|i: int| 0 <= i < all.len() ==> in_degrees((#[trigger] all[i]).geometry@),
            features_fault(views(all), it.index@ as int) is None,
            forall|i: int|
                0 <= i < out@.len() ==> feature_resolved(
                    all[i]@,
                    #[trigger] out@[i],
                    contents(edges@),
                    nodes@,
                    bounds,
                    *from_sm,
                ),
    {
        let ghost i = it.index@ as int;
        assert(views(all)[i] == f@);
        match resolve_geometry(f.geometry, bounds, &edges, &nodes, from_sm) {
            Ok(geometry) => {
                out.push(
                    Feature {
                        type_code: f.type_code,
                        id: f.id,
                        primitive: f.primitive,
                        attributes: f.attributes,
                        geometry,
                    },
                );
            },
            Err(e) => {
                proof {
                    lemma_features_fault(views(all), i, all.len() as int);
                }
                return Err(e);
            },
        }
    }
    assert(placed_edges(*from_sm, bounds, tables@.edges, contents(edges@)));
    assert(placed_nodes(*from_sm, bounds, tables@.nodes, nodes@));
    Ok(out)
}

/// Reads a stream. `from_sm` puts a stored point of a cell with given bounds in
/// degrees.
pub fn parse_file<F: Fn(SmPoint, Bbox) -> Position>(data: &[u8], from_sm: F) -> (r: Result<OsencCell, OsencError>)
    requires
        forall|p: SmPoint, b: Bbox| call_requires(from_sm, (p, b)),
    ensures
        match r {
            Ok(cell) => {
                let st = stream_scan(data@);
                &&& stream_fault(data@) is None
                &&& cell.name@ == st.name
                &&& cell.native_scale == st.native_scale
                &&& cell.senc_version == st.senc_version
                &&& cell.bounds == st.bounds
                &&& features_resolved(st.features.all(), cell.features@, st.tables, st.bounds, from_sm)
            },
            Err(e) => stream_fault(data@) == Some(e),
        },
{
    let scan: Scan = match scan_records(data) {
        Ok(v) => v,
        Err(e) => {
            return Err(e);
        },
    };
    proof {
        lemma_scanned_in_degrees(data@, 0, blank());
    }
    assert(projects_all(from_sm, scan.bounds));
    let ghost c = scan.features@;
    let raw: Vec<RawFeature> = scan.features.finish();
    assert forall|i: int| 0 <= i < raw@.len() implies in_degrees((#[trigger] raw@[i]).geometry@) by {
        assert(views(raw@)[i] == raw@[i]@);
        assert(c.all()[i] == raw@[i]@);
        if i < c.done.len() {
            assert(in_degrees(c.done[i].geometry));
        }
    }
    match resolve_features(raw, &scan.tables, scan.bounds, &from_sm) {
        Ok(features) => Ok(
            OsencCell {
                name: scan.name,
                native_scale: scan.native_scale,
                senc_version: scan.senc_version,
                bounds: scan.bounds,
                features,
            },
        ),
        Err(e) => Err(e),
    }
}

} // verus!
