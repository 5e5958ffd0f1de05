//! Areas made of polygons.
use vstd::prelude::*;
use crate::bbox::{hull_holds_its_points, hull_is_tight, Bbox};
use crate::s57::Polygon;
use crate::scalar::Position;

verus! {

/// An area made of polygons.
pub type Region = Vec<Polygon<Position>>;

/// The points on the exteriors of the first `n` polygons.
pub open spec fn exterior_points(region: Seq<Polygon<Position>>, n: int) -> Seq<Position>
    decreases n,
{
    if n <= 0 {
        Seq::empty()
    } else {
        exterior_points(region, n - 1) + region[n - 1].exterior@
    }
}

/// The rectangle around an area, if it has any points.
pub open spec fn bounds_of_region(region: Seq<Polygon<Position>>) -> Option<Bbox> {
    let pts = exterior_points(region, region.len() as int);
    if pts.len() == 0 {
        None
    } else {
        Some(Bbox::hull_of(pts, pts.len() as int))
    }
}

/// The rectangle around an area; `None` where it has no points.
pub fn bounding_rect(region: &Region) -> (r: Option<Bbox>)
    ensures
        r == bounds_of_region(region@),
{
    let mut pts: Vec<Position> = Vec::new();
    let mut i: usize = 0;
    while i < region.len()
        invariant
            i <= region@.len(),
            pts@ == exterior_points(region@, i as int),
        decreases region@.len() - i,
    {
        let ring: &Vec<Position> = &region[i].exterior;
        let ghost before = pts@;
        let mut j: usize = 0;
        while j < ring.len()
            invariant
                j <= ring@.len(),
                pts@ == before + ring@.take(j as int),
            decreases ring@.len() - j,
        {
            pts.push(ring[j]);
            j += 1;
            assert(pts@ =~= before + ring@.take(j as int));
        }
        assert(ring@.take(j as int) =~= ring@);
        i += 1;
    }
    Bbox::of(&pts)
}

proof fn lemma_exterior_point(region: Seq<Polygon<Position>>, n: int, i: int, k: int) -> (at: int)
    requires
        0 <= i < n <= region.len(),
        0 <= k < region[i].exterior@.len(),
    ensures
        0 <= at < exterior_points(region, n).len(),
        exterior_points(region, n)[at] == region[i].exterior@[k],
    decreases n,
{
    let before = exterior_points(region, n - 1);
    if i < n - 1 {
        lemma_exterior_point(region, n - 1, i, k)
    } else {
        before.len() + k
    }
}

proof fn lemma_point_of(region: Seq<Polygon<Position>>, n: int, at: int) -> (ik: (int, int))
    requires
        0 <= n <= region.len(),
        0 <= at < exterior_points(region, n).len(),
    ensures
        0 <= ik.0 < n,
        0 <= ik.1 < region[ik.0].exterior@.len(),
        exterior_points(region, n)[at] == region[ik.0].exterior@[ik.1],
    decreases n,
{
    let before = exterior_points(region, n - 1);
    if at < before.len() {
        lemma_point_of(region, n - 1, at)
    } else {
        (n - 1, at - before.len())
    }
}

/// The rectangle around an area holds every point of every exterior, and there is
/// one where there is such a point.
pub proof fn bounds_hold_every_exterior(region: Seq<Polygon<Position>>, i: int, k: int)
    requires
        0 <= i < region.len(),
        0 <= k < region[i].exterior@.len(),
        forall|a: int, b: int|
            0 <= a < region.len() && 0 <= b < region[a].exterior@.len() ==> !(
            #[trigger] region[a].exterior@[b]).lon.nan() && !region[a].exterior@[b].lat.nan(),
    ensures
        bounds_of_region(region) matches Some(b) && b.west.at_most(region[i].exterior@[k].lon)
            && region[i].exterior@[k].lon.at_most(b.east) && b.south.at_most(region[i].exterior@[k].lat)
            && region[i].exterior@[k].lat.at_most(b.north),
{
    let n = region.len() as int;
    let pts = exterior_points(region, n);
    let at = lemma_exterior_point(region, n, i, k);
    assert forall|j: int| 0 <= j < pts.len() implies !(#[trigger] pts[j]).lon.nan() && !pts[j].lat.nan() by {
        let (a, b) = lemma_point_of(region, n, j);
        assert(pts[j] == region[a].exterior@[b]);
    }
    hull_holds_its_points(pts, pts.len() as int, at);
}

/// Each side of the rectangle around an area passes through a point of an exterior.
pub proof fn bounds_are_tight(region: Seq<Polygon<Position>>) -> (at: ((int, int), (int, int), (int, int), (int, int)))
    requires
        bounds_of_region(region) is Some,
    ensures
        0 <= at.0.0 < region.len() && 0 <= at.0.1 < region[at.0.0].exterior@.len(),
        0 <= at.1.0 < region.len() && 0 <= at.1.1 < region[at.1.0].exterior@.len(),
        0 <= at.2.0 < region.len() && 0 <= at.2.1 < region[at.2.0].exterior@.len(),
        0 <= at.3.0 < region.len() && 0 <= at.3.1 < region[at.3.0].exterior@.len(),
        bounds_of_region(region)->0.west == region[at.0.0].exterior@[at.0.1].lon,
        bounds_of_region(region)->0.south == region[at.1.0].exterior@[at.1.1].lat,
        bounds_of_region(region)->0.east == region[at.2.0].exterior@[at.2.1].lon,
        bounds_of_region(region)->0.north == region[at.3.0].exterior@[at.3.1].lat,
{
    let n = region.len() as int;
    let pts = exterior_points(region, n);
    let t = hull_is_tight(pts, pts.len() as int);
    (
        lemma_point_of(region, n, t.0),
        lemma_point_of(region, n, t.1),
        lemma_point_of(region, n, t.2),
        lemma_point_of(region, n, t.3),
    )
}

} // verus!
