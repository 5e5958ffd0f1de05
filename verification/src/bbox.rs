//! Axis-aligned geographic rectangles and their lattice.
use vstd::prelude::*;
use crate::lattice::BoundedLattice;
use crate::scalar::{infinite_rank, Position, Real};

verus! {

/// An axis-aligned rectangle in degrees or metres.
///
/// One rectangle is above another where it contains it. Meet is intersection,
/// join is the bounding hull.
#[derive(Debug, Clone, Copy, PartialEq, Eq, Structural)]
pub struct Bbox {
    pub west: Real,
    pub south: Real,
    pub east: Real,
    pub north: Real,
}

/// A lower edge on a line on which even numbers stand for the numbers of ranks
/// and odd ones for the gaps between neighbours. A NaN bounds nothing.
pub open spec fn low_edge(v: Real) -> int {
    if v.nan() {
        -2 * infinite_rank()
    } else {
        2 * v.rank()
    }
}

/// An upper edge on that line.
pub open spec fn high_edge(v: Real) -> int {
    if v.nan() {
        2 * infinite_rank()
    } else {
        2 * v.rank()
    }
}

impl Bbox {
    /// The rectangle has the point `(x, y)`, in half steps of rank.
    pub open spec fn has(self, x: int, y: int) -> bool {
        &&& low_edge(self.west) <= x <= high_edge(self.east)
        &&& low_edge(self.south) <= y <= high_edge(self.north)
    }

    /// Nothing lies in the rectangle.
    pub open spec fn inverted(self) -> bool {
        self.east.below(self.west) || self.north.below(self.south)
    }

    /// The rectangle of one point.
    pub open spec fn single(p: Position) -> Bbox {
        Bbox { west: p.lon, south: p.lat, east: p.lon, north: p.lat }
    }

    /// The intersection.
    pub open spec fn common(self, other: Bbox) -> Bbox {
        Bbox {
            west: self.west.larger(other.west),
            south: self.south.larger(other.south),
            east: self.east.smaller(other.east),
            north: self.north.smaller(other.north),
        }
    }

    /// The bounding hull.
    pub open spec fn hull(self, other: Bbox) -> Bbox {
        Bbox {
            west: self.west.smaller(other.west),
            south: self.south.smaller(other.south),
            east: self.east.larger(other.east),
            north: self.north.larger(other.north),
        }
    }

    /// Each edge of `other` lies within `self`.
    pub open spec fn contains(self, other: Bbox) -> bool {
        &&& self.west.at_most(other.west)
        &&& self.south.at_most(other.south)
        &&& other.east.at_most(self.east)
        &&& other.north.at_most(self.north)
    }

    /// Neither is inverted, and they share at least an edge point.
    pub open spec fn touches(self, other: Bbox) -> bool {
        &&& !self.inverted()
        &&& !other.inverted()
        &&& self.west.at_most(other.east)
        &&& other.west.at_most(self.east)
        &&& self.south.at_most(other.north)
        &&& other.south.at_most(self.north)
    }

    /// The hull of the first `n` points.
    pub open spec fn hull_of(pts: Seq<Position>, n: int) -> Bbox
        decreases n,
    {
        if n <= 1 {
            Bbox::single(pts[0])
        } else {
            Bbox::hull_of(pts, n - 1).hull(Bbox::single(pts[n - 1]))
        }
    }

    /// A rectangle of one point.
    pub fn point(lon: Real, lat: Real) -> (r: Bbox)
        ensures
            r == Bbox::single(Position { lon, lat }),
    {
        Bbox { west: lon, south: lat, east: lon, north: lat }
    }

    /// The smallest rectangle around all points; `None` where there are none.
    pub fn of(pts: &Vec<Position>) -> (r: Option<Bbox>)
        ensures
            r == (if pts@.len() == 0 {
                None
            } else {
                Some(Bbox::hull_of(pts@, pts@.len() as int))
            }),
    {
        if pts.len() == 0 {
            return None;
        }
        let mut b: Bbox = Bbox::point(pts[0].lon, pts[0].lat);
        let mut i: usize = 1;
        while i < pts.len()
            invariant
                1 <= i <= pts@.len(),
                b == Bbox::hull_of(pts@, i as int),
            decreases pts@.len() - i,
        {
            let p: Position = pts[i];
            b = Bbox {
                west: b.west.min(p.lon),
                south: b.south.min(p.lat),
                east: b.east.max(p.lon),
                north: b.north.max(p.lat),
            };
            i += 1;
        }
        Some(b)
    }

    /// Whether nothing lies in the rectangle.
    pub fn is_bottom(&self) -> (r: bool)
        ensures
            r == self.inverted(),
    {
        self.east.lt(self.west) || self.north.lt(self.south)
    }

    /// The corners in the order of a closed ring, from the north-east on.
    pub open spec fn corner_ring(self) -> Seq<Position> {
        seq![
            Position { lon: self.east, lat: self.north },
            Position { lon: self.west, lat: self.north },
            Position { lon: self.west, lat: self.south },
            Position { lon: self.east, lat: self.south },
            Position { lon: self.east, lat: self.north },
        ]
    }

    /// The rectangle as a closed ring.
    pub fn to_ring(&self) -> (r: Vec<Position>)
        ensures
            r@ == self.corner_ring(),
    {
        let r: Vec<Position> = vec![
            Position { lon: self.east, lat: self.north },
            Position { lon: self.west, lat: self.north },
            Position { lon: self.west, lat: self.south },
            Position { lon: self.east, lat: self.south },
            Position { lon: self.east, lat: self.north },
        ];
        assert(r@ =~= self.corner_ring());
        r
    }
}

impl From<[Real; 4]> for Bbox {
    fn from(v: [Real; 4]) -> (r: Bbox) {
        Bbox { west: v[0], south: v[1], east: v[2], north: v[3] }
    }
}

impl vstd::std_specs::convert::FromSpecImpl<[Real; 4]> for Bbox {
    open spec fn obeys_from_spec() -> bool {
        true
    }

    open spec fn from_spec(v: [Real; 4]) -> Bbox {
        Bbox { west: v[0], south: v[1], east: v[2], north: v[3] }
    }
}

impl BoundedLattice for Bbox {
    open spec fn regular(&self) -> bool {
        !self.west.nan() && !self.south.nan() && !self.east.nan() && !self.north.nan()
    }

    open spec fn above(&self, other: &Bbox) -> bool {
        self.contains(*other)
    }

    open spec fn void(&self) -> bool {
        self.inverted()
    }

    open spec fn shares(&self, other: &Bbox) -> bool {
        self.touches(*other)
    }

    fn bottom() -> (r: Bbox)
        ensures
            r.west.rank() == infinite_rank(),
            r.south.rank() == infinite_rank(),
            r.east.rank() == -infinite_rank(),
            r.north.rank() == -infinite_rank(),
    {
        Bbox {
            west: Real::infinity(),
            south: Real::infinity(),
            east: Real::neg_infinity(),
            north: Real::neg_infinity(),
        }
    }

    fn join(&self, other: &Bbox) -> (r: Bbox)
        ensures
            r == self.hull(*other),
    {
        Bbox {
            west: self.west.min(other.west),
            south: self.south.min(other.south),
            east: self.east.max(other.east),
            north: self.north.max(other.north),
        }
    }

    fn meet(&self, other: &Bbox) -> (r: Bbox)
        ensures
            r == self.common(*other),
    {
        Bbox {
            west: self.west.max(other.west),
            south: self.south.max(other.south),
            east: self.east.min(other.east),
            north: self.north.min(other.north),
        }
    }

    fn subsumes(&self, other: &Bbox) -> (r: bool)
        ensures
            r == self.contains(*other),
    {
        self.west.le(other.west) && self.south.le(other.south) && other.east.le(self.east) && other.north.le(
            self.north,
        )
    }

    fn overlaps(&self, other: &Bbox) -> (r: bool)
        ensures
            r == self.touches(*other),
    {
        !self.is_bottom() && !other.is_bottom() && self.west.le(other.east) && other.west.le(self.east)
            && self.south.le(other.north) && other.south.le(self.north)
    }

    /// A rectangle cannot hold what is left of a partial overlap, so anything
    /// short of full cover leaves `self` as it is.
    fn minus(&self, other: &Bbox) -> (r: Bbox)
        ensures
            other.contains(*self) ==> r.inverted(),
            !other.contains(*self) ==> r == *self,
    {
        if other.subsumes(self) {
            Bbox::bottom()
        } else {
            *self
        }
    }

    proof fn law_reflexive(a: Bbox) {
    }

    proof fn law_transitive(a: Bbox, b: Bbox, c: Bbox) {
    }
}

/// Every point lies within the hull of a list of points.
pub proof fn hull_holds_its_points(pts: Seq<Position>, n: int, i: int)
    requires
        0 <= i < n <= pts.len(),
        forall|k: int| 0 <= k < n ==> !(#[trigger] pts[k]).lon.nan() && !pts[k].lat.nan(),
    ensures
        Bbox::hull_of(pts, n).regular(),
        Bbox::hull_of(pts, n).contains(Bbox::single(pts[i])),
    decreases n,
{
    if n > 1 {
        if i < n - 1 {
            hull_holds_its_points(pts, n - 1, i);
        } else {
            hull_holds_its_points(pts, n - 1, 0);
        }
        assert(!pts[n - 1].lon.nan());
    } else {
        assert(!pts[0].lon.nan());
    }
}

/// One regular rectangle that is not inverted contains another exactly where it
/// has all of its points.
pub proof fn containment_is_pointwise(a: Bbox, b: Bbox)
    requires
        a.regular(),
        b.regular(),
        !b.inverted(),
    ensures
        a.contains(b) <==> forall|x: int, y: int| #[trigger] b.has(x, y) ==> a.has(x, y),
{
    if forall|x: int, y: int| #[trigger] b.has(x, y) ==> a.has(x, y) {
        assert(b.has(low_edge(b.west), low_edge(b.south)));
        assert(b.has(high_edge(b.east), high_edge(b.north)));
    }
}

/// A point lies in the intersection exactly where it lies in both rectangles.
pub proof fn intersection_is_pointwise(a: Bbox, b: Bbox, x: int, y: int)
    ensures
        a.common(b).has(x, y) <==> a.has(x, y) && b.has(x, y),
{
}

/// The hull of points is the smallest: each of its sides passes through one of them.
pub proof fn hull_is_tight(pts: Seq<Position>, n: int) -> (at: (int, int, int, int))
    requires
        0 < n <= pts.len(),
    ensures
        0 <= at.0 < n && 0 <= at.1 < n && 0 <= at.2 < n && 0 <= at.3 < n,
        Bbox::hull_of(pts, n).west == pts[at.0].lon,
        Bbox::hull_of(pts, n).south == pts[at.1].lat,
        Bbox::hull_of(pts, n).east == pts[at.2].lon,
        Bbox::hull_of(pts, n).north == pts[at.3].lat,
    decreases n,
{
    if n == 1 {
        (0, 0, 0, 0)
    } else {
        let b = hull_is_tight(pts, n - 1);
        let h = Bbox::hull_of(pts, n);
        let before = Bbox::hull_of(pts, n - 1);
        (
            if h.west == before.west { b.0 } else { n - 1 },
            if h.south == before.south { b.1 } else { n - 1 },
            if h.east == before.east { b.2 } else { n - 1 },
            if h.north == before.north { b.3 } else { n - 1 },
        )
    }
}

/// Two rectangles that are not inverted touch exactly where they have a point in
/// common.
pub proof fn touching_is_sharing_a_point(a: Bbox, b: Bbox)
    requires
        a.regular(),
        b.regular(),
        !a.inverted(),
        !b.inverted(),
    ensures
        a.touches(b) <==> exists|x: int, y: int| #[trigger] a.has(x, y) && b.has(x, y),
{
    if a.touches(b) {
        let c = a.common(b);
        assert(a.has(low_edge(c.west), low_edge(c.south)) && b.has(low_edge(c.west), low_edge(c.south)));
    }
}

/// The ring of a rectangle goes once round its four corners and ends where it begins:
/// from one corner to the next only one coordinate changes.
pub proof fn the_ring_goes_round_the_corners(b: Bbox, i: int)
    requires
        0 <= i < 4,
    ensures
        b.corner_ring().len() == 5,
        b.corner_ring()[4] == b.corner_ring()[0],
        b.corner_ring()[0] == (Position { lon: b.east, lat: b.north }),
        b.corner_ring()[2] == (Position { lon: b.west, lat: b.south }),
        i % 2 == 0 ==> b.corner_ring()[i + 1].lat == b.corner_ring()[i].lat,
        i % 2 == 1 ==> b.corner_ring()[i + 1].lon == b.corner_ring()[i].lon,
{
}

} // verus!
