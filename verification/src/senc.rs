//! Records of a SENC stream, the simplified chart format: the fields of each
//! record kind that carries features, geometry or vector tables.
//!
//! A record is a `u16` type and a `u32` length (six header bytes and the payload),
//! then the payload. All functions here work on one payload.
pub mod area;
pub mod collect;
pub mod cut;
pub mod place;
pub mod rings;
pub mod tables;
pub mod written;

use vstd::prelude::*;
use crate::bbox::Bbox;
use crate::bytes::{
    le16_signed, le32, le32_signed, read_i16, read_i32, read_single, read_u32, single_at,
};
use crate::scalar::{Position, Real};

verus! {

/// A point in simple Mercator metres about the centre of a cell.
#[derive(Debug, Clone, Copy, PartialEq, Eq, Structural)]
pub enum SmPoint {
    /// Metres.
    Plain { east: Real, north: Real },
    /// Metres times `scale`.
    Scaled { x: i16, y: i16, scale: Real },
}

/// How the points of a table are stored.
#[derive(Debug, Clone, Copy, PartialEq, Eq, Structural)]
pub enum Coding {
    /// Two binary32 numbers.
    Plain,
    /// Two 16-bit integers, to be divided by the scale factor.
    Scaled(Real),
}

/// One entry of a line or area geometry: walk from a connected node along an
/// edge to the next connected node.
#[derive(Debug, Clone, Copy, PartialEq, Eq, Structural)]
pub struct EdgeRef {
    pub start: i32,
    pub edge: i32,
    pub end: i32,
    pub dir: i32,
}

/// One sounding: position and depth in metres.
#[derive(Debug, Clone, Copy, PartialEq, Eq, Structural)]
pub struct RawSounding {
    pub at: SmPoint,
    pub depth: Real,
}

/// A feature attribute's value.
#[derive(Debug, Clone)]
pub enum AttrValue {
    Int(u32),
    Double(Real),
    Str(String),
}

/// A feature attribute.
#[derive(Debug, Clone)]
pub struct Attribute {
    pub code: u16,
    pub value: AttrValue,
}

/// Kinds of tessellation primitive.
#[derive(Debug, Clone, Copy, PartialEq, Eq, Structural)]
pub enum TriPrimType {
    Triangles,
    TriangleStrip,
    TriangleFan,
}

/// Extent of a tessellation primitive.
#[derive(Debug, Clone, Copy, PartialEq, Eq, Structural)]
pub enum PrimExtent {
    /// Degrees.
    Degrees(Bbox),
    /// South-west and north-east corner.
    Metres { min: SmPoint, max: SmPoint },
}

/// One tessellation primitive of an area.
#[derive(Debug)]
pub struct RawTriPrim {
    pub prim_type: u8,
    pub extent: PrimExtent,
    pub vertices: Vec<SmPoint>,
}

/// An area geometry as recorded.
#[derive(Debug)]
pub struct RawArea {
    pub contour_count: u32,
    pub vertex_counts: Vec<u32>,
    pub tri_prims: Vec<RawTriPrim>,
    pub edge_refs: Vec<EdgeRef>,
}

/// A geometry as recorded: points by coordinates, lines and areas by references
/// into the vector tables.
#[derive(Debug)]
pub enum RawGeometry {
    Empty,
    Point(Position),
    Sounding(Vec<RawSounding>),
    Line(Vec<EdgeRef>),
    Area(RawArea),
}

/// A feature as recorded.
#[derive(Debug)]
pub struct RawFeature {
    pub type_code: u16,
    pub id: u16,
    pub primitive: u8,
    pub attributes: Vec<Attribute>,
    pub geometry: RawGeometry,
}

/// What an [`AttrValue`] says.
pub enum AttrValueView {
    Int(u32),
    Double(Real),
    Str(Seq<char>),
}

/// What an [`Attribute`] says.
pub struct AttributeView {
    pub code: u16,
    pub value: AttrValueView,
}

/// What a [`RawTriPrim`] says.
pub struct TriPrimView {
    pub prim_type: u8,
    pub extent: PrimExtent,
    pub vertices: Seq<SmPoint>,
}

/// What a [`RawArea`] says.
pub struct AreaView {
    pub contour_count: u32,
    pub vertex_counts: Seq<u32>,
    pub tri_prims: Seq<TriPrimView>,
    pub edge_refs: Seq<EdgeRef>,
}

/// What a [`RawGeometry`] says.
pub enum GeometryView {
    Empty,
    Point(Position),
    Sounding(Seq<RawSounding>),
    Line(Seq<EdgeRef>),
    Area(AreaView),
}

/// What a [`RawFeature`] says.
pub struct FeatureView {
    pub type_code: u16,
    pub id: u16,
    pub primitive: u8,
    pub attributes: Seq<AttributeView>,
    pub geometry: GeometryView,
}

/// The views of the items of a sequence.
pub open spec fn views<T: View>(items: Seq<T>) -> Seq<T::V> {
    Seq::new(items.len(), |i: int| items[i]@)
}

impl View for AttrValue {
    type V = AttrValueView;

    open spec fn view(&self) -> AttrValueView {
        match self {
            AttrValue::Int(v) => AttrValueView::Int(*v),
            AttrValue::Double(v) => AttrValueView::Double(*v),
            AttrValue::Str(s) => AttrValueView::Str(s@),
        }
    }
}

impl View for Attribute {
    type V = AttributeView;

    open spec fn view(&self) -> AttributeView {
        AttributeView { code: self.code, value: self.value@ }
    }
}

impl View for RawTriPrim {
    type V = TriPrimView;

    open spec fn view(&self) -> TriPrimView {
        TriPrimView { prim_type: self.prim_type, extent: self.extent, vertices: self.vertices@ }
    }
}

impl View for RawArea {
    type V = AreaView;

    open spec fn view(&self) -> AreaView {
        AreaView {
            contour_count: self.contour_count,
            vertex_counts: self.vertex_counts@,
            tri_prims: views(self.tri_prims@),
            edge_refs: self.edge_refs@,
        }
    }
}

impl View for RawGeometry {
    type V = GeometryView;

    open spec fn view(&self) -> GeometryView {
        match self {
            RawGeometry::Empty => GeometryView::Empty,
            RawGeometry::Point(p) => GeometryView::Point(*p),
            RawGeometry::Sounding(s) => GeometryView::Sounding(s@),
            RawGeometry::Line(e) => GeometryView::Line(e@),
            RawGeometry::Area(a) => GeometryView::Area(a@),
        }
    }
}

impl View for RawFeature {
    type V = FeatureView;

    open spec fn view(&self) -> FeatureView {
        FeatureView {
            type_code: self.type_code,
            id: self.id,
            primitive: self.primitive,
            attributes: views(self.attributes@),
            geometry: self.geometry@,
        }
    }
}

impl TriPrimType {
    /// The kind that a number stands for, if it stands for one.
    pub open spec fn of(v: u8) -> Option<TriPrimType> {
        if v == 4 {
            Some(TriPrimType::Triangles)
        } else if v == 5 {
            Some(TriPrimType::TriangleStrip)
        } else if v == 6 {
            Some(TriPrimType::TriangleFan)
        } else {
            None
        }
    }

    /// The kind that a number stands for; `None` for an unrecognised number.
    pub fn from_u8(v: u8) -> (r: Option<TriPrimType>)
        ensures
            r == TriPrimType::of(v),
    {
        match v {
            4 => Some(TriPrimType::Triangles),
            5 => Some(TriPrimType::TriangleStrip),
            6 => Some(TriPrimType::TriangleFan),
            _ => None,
        }
    }
}

// ── Fixed-stride arrays ──────────────────────────────────────────────────────

/// How many items of `stride` bytes fit between `at` and the end of `s`, at
/// most `count`.
pub open spec fn fitting(s: Seq<u8>, at: int, stride: int, count: int) -> int {
    if count <= (s.len() - at) / stride {
        count
    } else {
        (s.len() - at) / stride
    }
}

/// The edge reference at `at`.
pub open spec fn edge_ref_at(s: Seq<u8>, at: int) -> EdgeRef {
    EdgeRef {
        start: le32_signed(s, at),
        edge: le32_signed(s, at + 4),
        end: le32_signed(s, at + 8),
        dir: le32_signed(s, at + 12),
    }
}

/// `n` edge references from `at` on.
pub open spec fn edge_refs_at(s: Seq<u8>, at: int, n: int) -> Seq<EdgeRef> {
    Seq::new(n as nat, |i: int| edge_ref_at(s, at + 16 * i))
}

/// Bytes of one stored point.
pub open spec fn stride(coding: Coding) -> int {
    match coding {
        Coding::Plain => 8,
        Coding::Scaled(_) => 4,
    }
}

/// The point stored at `at`.
pub open spec fn sm_point_at(s: Seq<u8>, at: int, coding: Coding) -> SmPoint {
    match coding {
        Coding::Plain => SmPoint::Plain {
            east: single_at(s, at).widened(),
            north: single_at(s, at + 4).widened(),
        },
        Coding::Scaled(scale) => SmPoint::Scaled { x: le16_signed(s, at), y: le16_signed(s, at + 2), scale },
    }
}

/// `n` stored points from `at` on.
pub open spec fn sm_points_at(s: Seq<u8>, at: int, coding: Coding, n: int) -> Seq<SmPoint> {
    Seq::new(n as nat, |i: int| sm_point_at(s, at + stride(coding) * i, coding))
}

/// `n` soundings from `at` on.
pub open spec fn soundings_at(s: Seq<u8>, at: int, n: int) -> Seq<RawSounding> {
    Seq::new(
        n as nat,
        |i: int|
            RawSounding {
                at: sm_point_at(s, at + 12 * i, Coding::Plain),
                depth: single_at(s, at + 12 * i + 8).widened(),
            },
    )
}

/// `n` unsigned numbers from `at` on.
pub open spec fn numbers_at(s: Seq<u8>, at: int, n: int) -> Seq<u32> {
    Seq::new(n as nat, |i: int| le32(s, at + 4 * i))
}

/// How many items of `size` bytes fit after `at`, at most `count`.
pub(crate) fn fit(p: &[u8], at: usize, size: usize, count: u32) -> (n: usize)
    requires
        at <= p@.len(),
        size > 0,
    ensures
        n == fitting(p@, at as int, size as int, count as int),
        at + size * n <= p@.len(),
{
    let room: usize = (p.len() - at) / size;
    let n: usize = if count as u64 <= room as u64 { count as usize } else { room };
    proof {
        let len = p@.len() as int;
        vstd::arithmetic::div_mod::lemma_fundamental_div_mod(len - at, size as int);
        assert(size * n <= size * room) by (nonlinear_arith)
            requires
                n <= room,
                0 < size,
        ;
    }
    n
}

pub(crate) fn read_edge_refs(p: &[u8], at: usize, n: usize) -> (r: Vec<EdgeRef>)
    requires
        at + 16 * n <= p@.len(),
    ensures
        r@ == edge_refs_at(p@, at as int, n as int),
{
    let len: usize = p.len();
    let mut out: Vec<EdgeRef> = Vec::new();
    let mut i: usize = 0;
    while i < n
        invariant
            i <= n,
            at + 16 * n <= p@.len(),
            p@.len() <= usize::MAX,
            out@.len() == i,
            forall|k: int| 0 <= k < i ==> out@[k] == edge_ref_at(p@, at + 16 * k),
        decreases n - i,
    {
        let q: usize = at + 16 * i;
        out.push(
            EdgeRef {
                start: read_i32(p, q),
                edge: read_i32(p, q + 4),
                end: read_i32(p, q + 8),
                dir: read_i32(p, q + 12),
            },
        );
        i += 1;
    }
    assert(out@ =~= edge_refs_at(p@, at as int, n as int));
    out
}

pub(crate) fn point_size(coding: Coding) -> (n: usize)
    ensures
        n == stride(coding),
{
    match coding {
        Coding::Plain => 8,
        Coding::Scaled(_) => 4,
    }
}

pub(crate) fn read_sm_point(p: &[u8], at: usize, coding: Coding) -> (r: SmPoint)
    requires
        at + stride(coding) <= p@.len(),
    ensures
        r == sm_point_at(p@, at as int, coding),
{
    let len: usize = p.len();
    match coding {
        Coding::Plain => SmPoint::Plain {
            east: read_single(p, at).widen(),
            north: read_single(p, at + 4).widen(),
        },
        Coding::Scaled(scale) => SmPoint::Scaled { x: read_i16(p, at), y: read_i16(p, at + 2), scale },
    }
}

pub(crate) fn read_sm_points(p: &[u8], at: usize, coding: Coding, n: usize) -> (r: Vec<SmPoint>)
    requires
        at + stride(coding) * n <= p@.len(),
    ensures
        r@ == sm_points_at(p@, at as int, coding, n as int),
{
    let len: usize = p.len();
    let size: usize = point_size(coding);
    let mut out: Vec<SmPoint> = Vec::new();
    let mut i: usize = 0;
    let mut q: usize = at;
    while i < n
        invariant
            i <= n,
            size == stride(coding),
            q == at + size * i,
            at + size * n <= p@.len(),
            p@.len() <= usize::MAX,
            out@.len() == i,
            forall|k: int| 0 <= k < i ==> out@[k] == sm_point_at(p@, at + stride(coding) * k, coding),
        decreases n - i,
    {
        proof {
            assert(size * (i + 1) == size * i + size) by (nonlinear_arith);
            assert(size * (i + 1) <= size * n) by (nonlinear_arith)
                requires
                    i + 1 <= n,
                    0 < size,
            ;
        }
        out.push(read_sm_point(p, q, coding));
        q += size;
        i += 1;
    }
    assert(out@ =~= sm_points_at(p@, at as int, coding, n as int));
    out
}

pub(crate) fn read_soundings(p: &[u8], at: usize, n: usize) -> (r: Vec<RawSounding>)
    requires
        at + 12 * n <= p@.len(),
    ensures
        r@ == soundings_at(p@, at as int, n as int),
{
    let len: usize = p.len();
    let mut out: Vec<RawSounding> = Vec::new();
    let mut i: usize = 0;
    while i < n
        invariant
            i <= n,
            at + 12 * n <= p@.len(),
            p@.len() <= usize::MAX,
            out@.len() == i,
            forall|k: int|
                0 <= k < i ==> out@[k] == (RawSounding {
                    at: sm_point_at(p@, at + 12 * k, Coding::Plain),
                    depth: single_at(p@, at + 12 * k + 8).widened(),
                }),
        decreases n - i,
    {
        let q: usize = at + 12 * i;
        out.push(
            RawSounding { at: read_sm_point(p, q, Coding::Plain), depth: read_single(p, q + 8).widen() },
        );
        i += 1;
    }
    assert(out@ =~= soundings_at(p@, at as int, n as int));
    out
}

pub(crate) fn read_numbers(p: &[u8], at: usize, n: usize) -> (r: Vec<u32>)
    requires
        at + 4 * n <= p@.len(),
    ensures
        r@ == numbers_at(p@, at as int, n as int),
{
    let len: usize = p.len();
    let mut out: Vec<u32> = Vec::new();
    let mut i: usize = 0;
    while i < n
        invariant
            i <= n,
            at + 4 * n <= p@.len(),
            p@.len() <= usize::MAX,
            out@.len() == i,
            forall|k: int| 0 <= k < i ==> out@[k] == le32(p@, at + 4 * k),
        decreases n - i,
    {
        out.push(read_u32(p, at + 4 * i));
        i += 1;
    }
    assert(out@ =~= numbers_at(p@, at as int, n as int));
    out
}

} // verus!
