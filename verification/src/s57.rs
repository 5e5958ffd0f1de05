//! Vector chart cells.
use vstd::prelude::*;
use crate::bbox::Bbox;
use crate::edition_date::EditionDate;
use crate::scalar::{Position, Real};
use crate::senc::rings::lists;
use crate::senc::{views, Attribute, AttributeView};
use crate::text_table::TextTable;

verus! {

/// A depth at a place.
#[derive(Debug, Clone, Copy, PartialEq, Eq, Structural)]
pub struct Sounding {
    pub at: Position,
    pub depth: Real,
}

/// An exterior ring and the holes in it.
#[derive(Debug)]
pub struct Polygon<P> {
    pub exterior: Vec<P>,
    pub interiors: Vec<Vec<P>>,
}

/// The geometry of a feature.
#[derive(Debug)]
pub enum Geometry {
    Empty,
    Point(Position),
    Soundings(Vec<Sounding>),
    Line(Vec<Position>),
    Area(Polygon<Position>),
}

/// A charted object.
#[derive(Debug)]
pub struct Feature {
    pub type_code: u16,
    pub id: u16,
    pub primitive: u8,
    pub attributes: Vec<Attribute>,
    pub geometry: Geometry,
}

/// A vector chart cell.
#[derive(Debug)]
pub struct S57Cell {
    pub name: String,
    pub native_scale: u32,
    pub bounds: Bbox,
    pub features: Vec<Feature>,
    /// The area that the cell charts.
    pub coverage: Vec<Polygon<Position>>,
    pub source: String,
    /// When the cell was published or last updated.
    pub edition_date: EditionDate,
    /// Texts that features refer to by file name.
    pub text_descriptions: TextTable,
}

/// What a [`Polygon`] says.
pub struct PolygonView<P> {
    pub exterior: Seq<P>,
    pub interiors: Seq<Seq<P>>,
}

/// What a [`Geometry`] says.
pub enum ShapeView {
    Empty,
    Point(Position),
    Soundings(Seq<Sounding>),
    Line(Seq<Position>),
    Area(PolygonView<Position>),
}

impl<P> View for Polygon<P> {
    type V = PolygonView<P>;

    open spec fn view(&self) -> PolygonView<P> {
        PolygonView { exterior: self.exterior@, interiors: lists(self.interiors@) }
    }
}

/// `ring` with its first point repeated at the end, unless it ends there.
pub open spec fn closed_ring(ring: Seq<Position>) -> Seq<Position> {
    if ring.len() > 0 && !ring[0].coincides(ring.last()) {
        ring.push(ring[0])
    } else {
        ring
    }
}

/// The polygon of the given rings, each of them closed.
pub open spec fn polygon_of(exterior: Seq<Position>, interiors: Seq<Seq<Position>>) -> PolygonView<Position> {
    PolygonView {
        exterior: closed_ring(exterior),
        interiors: Seq::new(interiors.len(), |i: int| closed_ring(interiors[i])),
    }
}

pub(crate) fn copy_ring(ring: &Vec<Position>) -> (out: Vec<Position>)
    ensures
        out@ == ring@,
{
    let mut out: Vec<Position> = Vec::new();
    let mut i: usize = 0;
    while i < ring.len()
        invariant
            i <= ring@.len(),
            out@ == ring@.take(i as int),
        decreases ring@.len() - i,
    {
        out.push(ring[i]);
        i += 1;
        assert(out@ =~= ring@.take(i as int));
    }
    assert(ring@.take(i as int) =~= ring@);
    out
}

pub(crate) fn close_ring(ring: Vec<Position>) -> (out: Vec<Position>)
    ensures
        out@ == closed_ring(ring@),
{
    let mut out: Vec<Position> = ring;
    let n: usize = out.len();
    if n > 0 && !out[0].same(out[n - 1]) {
        let first: Position = out[0];
        out.push(first);
    }
    out
}

impl Polygon<Position> {
    /// The polygon of the given rings. A ring that does not end where it begins
    /// is closed.
    pub fn new(exterior: Vec<Position>, interiors: Vec<Vec<Position>>) -> (p: Polygon<Position>)
        ensures
            p@ == polygon_of(exterior@, lists(interiors@)),
    {
        let ghost given = lists(interiors@);
        let mut holes: Vec<Vec<Position>> = Vec::new();
        for ring in it: interiors
            invariant
                given == lists(it.seq()),
                holes@.len() == it.index@,
                forall|i: int| 0 <= i < holes@.len() ==> (#[trigger] holes@[i])@ == closed_ring(given[i]),
        {
            holes.push(close_ring(ring));
        }
        let p = Polygon { exterior: close_ring(exterior), interiors: holes };
        assert(p@.interiors =~= polygon_of(exterior@, given).interiors);
        p
    }
}

impl View for Geometry {
    type V = ShapeView;

    open spec fn view(&self) -> ShapeView {
        match self {
            Geometry::Empty => ShapeView::Empty,
            Geometry::Point(p) => ShapeView::Point(*p),
            Geometry::Soundings(s) => ShapeView::Soundings(s@),
            Geometry::Line(l) => ShapeView::Line(l@),
            Geometry::Area(a) => ShapeView::Area(a@),
        }
    }
}

impl Feature {
    /// What the attributes say.
    pub open spec fn attribute_views(&self) -> Seq<AttributeView> {
        views(self.attributes@)
    }
}

} // verus!
