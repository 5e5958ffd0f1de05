//! Features of a stream, put together from the records that describe them.
use vstd::prelude::*;
use crate::bbox::Bbox;
use crate::bytes::{le16, le32, read_real, read_u16, read_u32, real_at};
use crate::scalar::Position;
use crate::senc::{
    edge_refs_at, fit, fitting, read_edge_refs, read_soundings, soundings_at, views, AttrValue,
    AttrValueView, Attribute, AttributeView, FeatureView, GeometryView, RawFeature, RawGeometry,
};
use crate::text::{c_text, read_cstring};

verus! {

/// Finished features, and the one that attribute and geometry records go to.
#[derive(Debug)]
pub struct Collector {
    pub done: Vec<RawFeature>,
    pub current: Option<RawFeature>,
}

/// What a [`Collector`] says.
pub struct CollectorView {
    pub done: Seq<FeatureView>,
    pub current: Option<FeatureView>,
}

impl View for Collector {
    type V = CollectorView;

    open spec fn view(&self) -> CollectorView {
        CollectorView {
            done: views(self.done@),
            current: match self.current {
                Some(f) => Some(f@),
                None => None,
            },
        }
    }
}

/// The feature that a feature record starts: type, identifier and primitive.
pub open spec fn feature_of(p: Seq<u8>) -> Option<FeatureView> {
    if p.len() >= 5 {
        Some(
            FeatureView {
                type_code: le16(p, 0),
                id: le16(p, 2),
                primitive: p[4],
                attributes: Seq::empty(),
                geometry: GeometryView::Empty,
            },
        )
    } else {
        None
    }
}

/// The attribute of an attribute record: code, value type and value. Types 0
/// (integer), 2 (number) and 4 (text) have a meaning.
pub open spec fn attribute_of(p: Seq<u8>) -> Option<AttributeView> {
    if p.len() < 3 {
        None
    } else if p[2] == 0 && p.len() >= 7 {
        Some(AttributeView { code: le16(p, 0), value: AttrValueView::Int(le32(p, 3)) })
    } else if p[2] == 2 && p.len() >= 11 {
        Some(AttributeView { code: le16(p, 0), value: AttrValueView::Double(real_at(p, 3)) })
    } else if p[2] == 4 {
        match c_text(p, 3, p.len() - 3) {
            Some(t) => Some(AttributeView { code: le16(p, 0), value: AttrValueView::Str(t) }),
            None => None,
        }
    } else {
        None
    }
}

/// The position of a point geometry record: latitude, then longitude.
pub open spec fn point_of(p: Seq<u8>) -> Option<GeometryView> {
    if p.len() >= 16 {
        Some(GeometryView::Point(Position { lon: real_at(p, 8), lat: real_at(p, 0) }))
    } else {
        None
    }
}

/// The edges of a line geometry record: an extent of four numbers, the edge
/// count and the edges that the payload has room for.
pub open spec fn line_of(p: Seq<u8>) -> Option<GeometryView> {
    if p.len() >= 36 {
        Some(GeometryView::Line(edge_refs_at(p, 36, fitting(p, 36, 16, le32(p, 32) as int))))
    } else {
        None
    }
}

/// The soundings of a multipoint geometry record: an extent of four numbers,
/// the count and the soundings that the payload has room for.
pub open spec fn multipoint_of(p: Seq<u8>) -> Option<GeometryView> {
    if p.len() >= 36 {
        Some(GeometryView::Sounding(soundings_at(p, 36, fitting(p, 36, 12, le32(p, 32) as int))))
    } else {
        None
    }
}

/// The bounds of an extent record: latitude and longitude of the south-west,
/// north-west, north-east and south-east corner.
pub open spec fn bounds_of(p: Seq<u8>) -> Option<Bbox> {
    if p.len() >= 64 {
        Some(
            Bbox {
                west: real_at(p, 8).smaller(real_at(p, 24)),
                south: real_at(p, 0).smaller(real_at(p, 48)),
                east: real_at(p, 40).larger(real_at(p, 56)),
                north: real_at(p, 16).larger(real_at(p, 32)),
            },
        )
    } else {
        None
    }
}

impl CollectorView {
    /// The features, the current one among them.
    pub open spec fn all(self) -> Seq<FeatureView> {
        match self.current {
            Some(f) => self.done.push(f),
            None => self.done,
        }
    }

    /// After a feature record.
    pub open spec fn started(self, p: Seq<u8>) -> CollectorView {
        CollectorView { done: self.all(), current: feature_of(p) }
    }

    /// After a record that gives the current feature an attribute, if `a` is one.
    pub open spec fn described(self, a: Option<AttributeView>) -> CollectorView {
        match (self.current, a) {
            (Some(f), Some(a)) => CollectorView {
                done: self.done,
                current: Some(FeatureView { attributes: f.attributes.push(a), ..f }),
            },
            _ => self,
        }
    }

    /// After a record that gives the current feature a geometry, if `g` is one.
    pub open spec fn shaped(self, g: Option<GeometryView>) -> CollectorView {
        match (self.current, g) {
            (Some(f), Some(g)) => CollectorView {
                done: self.done,
                current: Some(FeatureView { geometry: g, ..f }),
            },
            _ => self,
        }
    }
}

/// Reads an attribute record.
pub fn read_attribute(p: &[u8]) -> (r: Option<Attribute>)
    ensures
        match r {
            Some(a) => attribute_of(p@) == Some(a@),
            None => attribute_of(p@) is None,
        },
{
    let len: usize = p.len();
    if len < 3 {
        return None;
    }
    let code: u16 = read_u16(p, 0);
    match p[2] {
        0 => {
            if len >= 7 {
                Some(Attribute { code, value: AttrValue::Int(read_u32(p, 3)) })
            } else {
                None
            }
        },
        2 => {
            if len >= 11 {
                Some(Attribute { code, value: AttrValue::Double(read_real(p, 3)) })
            } else {
                None
            }
        },
        4 => {
            match read_cstring(p, 3, len - 3) {
                Some(t) => Some(Attribute { code, value: AttrValue::Str(t) }),
                None => None,
            }
        },
        _ => None,
    }
}

/// Reads a point geometry record.
pub fn read_point(p: &[u8]) -> (r: Option<RawGeometry>)
    ensures
        match r {
            Some(g) => point_of(p@) == Some(g@),
            None => point_of(p@) is None,
        },
{
    if p.len() >= 16 {
        Some(RawGeometry::Point(Position { lon: read_real(p, 8), lat: read_real(p, 0) }))
    } else {
        None
    }
}

/// Reads a line geometry record.
pub fn read_line(p: &[u8]) -> (r: Option<RawGeometry>)
    ensures
        match r {
            Some(g) => line_of(p@) == Some(g@),
            None => line_of(p@) is None,
        },
{
    if p.len() >= 36 {
        let n: usize = fit(p, 36, 16, read_u32(p, 32));
        Some(RawGeometry::Line(read_edge_refs(p, 36, n)))
    } else {
        None
    }
}

/// Reads a multipoint geometry record.
pub fn read_multipoint(p: &[u8]) -> (r: Option<RawGeometry>)
    ensures
        match r {
            Some(g) => multipoint_of(p@) == Some(g@),
            None => multipoint_of(p@) is None,
        },
{
    if p.len() >= 36 {
        let n: usize = fit(p, 36, 12, read_u32(p, 32));
        Some(RawGeometry::Sounding(read_soundings(p, 36, n)))
    } else {
        None
    }
}

/// Reads an extent record.
pub fn read_bounds(p: &[u8]) -> (r: Option<Bbox>)
    ensures
        r == bounds_of(p@),
{
    if p.len() >= 64 {
        Some(
            Bbox {
                west: read_real(p, 8).min(read_real(p, 24)),
                south: read_real(p, 0).min(read_real(p, 48)),
                east: read_real(p, 40).max(read_real(p, 56)),
                north: read_real(p, 16).max(read_real(p, 32)),
            },
        )
    } else {
        None
    }
}

impl Collector {
    /// No features.
    pub fn new() -> (c: Collector)
        ensures
            c@ == (CollectorView { done: Seq::empty(), current: None }),
    {
        let c = Collector { done: Vec::new(), current: None };
        assert(c@.done =~= Seq::empty());
        c
    }

    fn flush(&mut self)
        ensures
            final(self)@ == (CollectorView { done: old(self)@.all(), current: None }),
    {
        let ghost before = self.done@;
        let last: Option<RawFeature> = self.current.take();
        if let Some(f) = last {
            self.done.push(f);
            assert(views(self.done@) =~= views(before).push(f@));
        }
    }

    /// Takes a feature record.
    pub fn start(&mut self, p: &[u8])
        ensures
            final(self)@ == old(self)@.started(p@),
    {
        self.flush();
        if p.len() >= 5 {
            let f = RawFeature {
                type_code: read_u16(p, 0),
                id: read_u16(p, 2),
                primitive: p[4],
                attributes: Vec::new(),
                geometry: RawGeometry::Empty,
            };
            assert(f@.attributes =~= Seq::empty());
            self.current = Some(f);
        }
    }

    /// Takes an attribute record.
    pub fn describe(&mut self, p: &[u8])
        ensures
            final(self)@ == old(self)@.described(attribute_of(p@)),
    {
        let value: Option<Attribute> = read_attribute(p);
        let taken: Option<RawFeature> = self.current.take();
        match taken {
            Some(mut f) => {
                if let Some(a) = value {
                    let ghost before = f.attributes@;
                    f.attributes.push(a);
                    assert(views(f.attributes@) =~= views(before).push(a@));
                }
                self.current = Some(f);
            },
            None => {},
        }
    }

    /// Takes a geometry, if there is one.
    pub fn shape(&mut self, g: Option<RawGeometry>)
        ensures
            final(self)@ == old(self)@.shaped(match g {
                Some(g) => Some(g@),
                None => None,
            }),
    {
        let taken: Option<RawFeature> = self.current.take();
        match taken {
            Some(mut f) => {
                if let Some(g) = g {
                    f.geometry = g;
                }
                self.current = Some(f);
            },
            None => {},
        }
    }

    /// The features in the order of the stream.
    pub fn finish(self) -> (features: Vec<RawFeature>)
        ensures
            views(features@) == self@.all(),
    {
        let mut c = self;
        c.flush();
        c.done
    }
}

} // verus!
