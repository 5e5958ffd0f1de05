//! Hand-over between overlapping charts.
//!
//! A feature of a coarse chart disappears at the zoom level at which a finer
//! chart takes over the area. The zones of the finer charts are given finest
//! first.
use vstd::prelude::*;
use crate::bbox::{hull_holds_its_points, Bbox};
use crate::json::{find_key, lemma_key_at, lookup, set_key, set_key_is_seen, updated, Json, JsonView};
use crate::json::entry_views;
use crate::lattice::BoundedLattice;
use crate::region::{bounding_rect, bounds_of_region, exterior_points, Region};
use crate::rnc_footer::rectangle;
use crate::s57::{copy_ring, polygon_of, Polygon};
use crate::senc::rings::lists;
use crate::scalar::{Position, Real};
use crate::text::{decimal_forms_spell_their_number, digits_of, spelled};

verus! {

/// Plane geometry of areas.
pub trait RegionOps {
    /// Whether an area contains a place.
    fn contains(&self, region: &Region, p: Position) -> bool;

    /// Whether a line has a point in an area.
    fn crosses(&self, region: &Region, line: &Vec<Position>) -> bool;

    /// What two areas have in common.
    fn intersection(&self, a: &Region, b: &Region) -> Region;

    /// What the first area has and the second has not.
    fn difference(&self, a: &Region, b: &Region) -> Region;

    /// The mean of the points of a ring.
    fn centroid(&self, ring: &Vec<Vec<Real>>) -> Position;
}

/// The geometry of a GeoJSON feature. A position is a list of coordinates.
#[derive(Debug)]
pub enum GeoGeometry {
    Point(Vec<Real>),
    MultiPoint(Vec<Vec<Real>>),
    LineString(Vec<Vec<Real>>),
    MultiLineString(Vec<Vec<Vec<Real>>>),
    Polygon(Vec<Vec<Vec<Real>>>),
    MultiPolygon(Vec<Vec<Vec<Vec<Real>>>>),
    Other,
}

/// The area of a chart with the zoom level from which on its features are shown.
#[derive(Debug)]
pub struct CoveredZone {
    pub poly: Region,
    pub minzoom: u8,
    pub bbox: Bbox,
}

impl CoveredZone {
    /// A zone; `None` where its area has no points.
    pub fn new(poly: Region, minzoom: u8) -> (r: Option<CoveredZone>)
        ensures
            match bounds_of_region(poly@) {
                Some(bbox) => r == Some(CoveredZone { poly, minzoom, bbox }),
                None => r is None,
            },
    {
        match bounding_rect(&poly) {
            Some(bbox) => Some(CoveredZone { poly, minzoom, bbox }),
            None => None,
        }
    }
}

// ── Zones ────────────────────────────────────────────────────────────────────

/// The rings that have points, each as a polygon of its own.
pub open spec fn ring_polygons(rings: Seq<Vec<Position>>, n: int) -> Seq<Seq<Position>>
    decreases n,
{
    if n <= 0 {
        Seq::empty()
    } else if rings[n - 1]@.len() == 0 {
        ring_polygons(rings, n - 1)
    } else {
        ring_polygons(rings, n - 1).push(rings[n - 1]@)
    }
}

/// The region has the given exteriors, closed, and no holes.
pub open spec fn is_plain(region: Seq<Polygon<Position>>, exteriors: Seq<Seq<Position>>) -> bool {
    region.len() == exteriors.len() && forall|i: int|
        0 <= i < region.len() ==> (#[trigger] region[i])@ == polygon_of(exteriors[i], Seq::empty())
}

/// Makes a polygon of each ring that has points.
pub fn rings_to_multipoly(rings: &Vec<Vec<Position>>) -> (r: Region)
    ensures
        is_plain(r@, ring_polygons(rings@, rings@.len() as int)),
{
    let mut out: Region = Vec::new();
    let mut i: usize = 0;
    while i < rings.len()
        invariant
            i <= rings@.len(),
            is_plain(out@, ring_polygons(rings@, i as int)),
        decreases rings@.len() - i,
    {
        if rings[i].len() > 0 {
            let exterior: Vec<Position> = copy_ring(&rings[i]);
            let holes: Vec<Vec<Position>> = Vec::new();
            assert(lists(holes@) =~= Seq::empty());
            out.push(Polygon::new(exterior, holes));
        }
        i += 1;
    }
    out
}

/// `zone` is the area of a chart: the rectangle of its bounds without the rings
/// that it does not cover. Bounds without an area give none.
pub open spec fn is_zone<G: RegionOps>(ops: G, bounds: Bbox, uncovered: Seq<Vec<Position>>, zone: Region) -> bool {
    if bounds.east.at_most(bounds.west) || bounds.north.at_most(bounds.south) {
        zone@.len() == 0
    } else if uncovered.len() == 0 {
        is_plain(zone@, seq![rectangle(bounds)])
    } else {
        exists|whole: Region, holes: Region| #[trigger]
            call_ensures(G::difference, (&ops, &whole, &holes), zone) && is_plain(whole@, seq![rectangle(bounds)])
                && is_plain(holes@, ring_polygons(uncovered, uncovered.len() as int))
    }
}

/// The area in which a chart has features: its bounds without the rings that it
/// does not cover.
pub fn build_effective_zone<G: RegionOps>(ops: &G, bounds: Bbox, no_coverage: &Vec<Vec<Position>>) -> (zone: Region)
    ensures
        is_zone(*ops, bounds, no_coverage@, zone),
{
    let mut whole: Region = Vec::new();
    if bounds.east.le(bounds.west) || bounds.north.le(bounds.south) {
        return whole;
    }
    let ring: Vec<Position> = vec![
        Position { lon: bounds.west, lat: bounds.south },
        Position { lon: bounds.east, lat: bounds.south },
        Position { lon: bounds.east, lat: bounds.north },
        Position { lon: bounds.west, lat: bounds.north },
        Position { lon: bounds.west, lat: bounds.south },
    ];
    assert(ring@ =~= rectangle(bounds));
    let none: Vec<Vec<Position>> = Vec::new();
    assert(lists(none@) =~= Seq::empty());
    whole.push(Polygon::new(ring, none));
    assert(is_plain(whole@, seq![rectangle(bounds)]));
    if no_coverage.len() == 0 {
        return whole;
    }
    let holes: Region = rings_to_multipoly(no_coverage);
    let zone: Region = ops.difference(&whole, &holes);
    assert(call_ensures(G::difference, (ops, &whole, &holes), zone));
    zone
}

/// Two rectangles share a point.
pub open spec fn sides_overlap(a: Bbox, b: Bbox) -> bool {
    &&& a.west.at_most(b.east)
    &&& b.west.at_most(a.east)
    &&& a.south.at_most(b.north)
    &&& b.south.at_most(a.north)
}

/// Whether two rectangles share a point.
pub fn rects_overlap(a: &Bbox, b: &Bbox) -> (r: bool)
    ensures
        r == sides_overlap(*a, *b),
{
    a.west.le(b.east) && b.west.le(a.east) && a.south.le(b.north) && b.south.le(a.north)
}

/// The lowest zoom level among the first `n` zones that are hit.
pub open spec fn lowest_hit(zones: Seq<CoveredZone>, hits: Seq<bool>, n: int) -> Option<u8>
    decreases n,
{
    if n <= 0 {
        None
    } else {
        let before = lowest_hit(zones, hits, n - 1);
        if !hits[n - 1] {
            before
        } else {
            match before {
                Some(m) if m <= zones[n - 1].minzoom => Some(m),
                _ => Some(zones[n - 1].minzoom),
            }
        }
    }
}

/// The last zoom level before a chart takes over.
pub open spec fn last_before(minzoom: Option<u8>) -> Option<u8> {
    match minzoom {
        Some(m) => Some(
            if m == 0 {
                0
            } else {
                (m - 1) as u8
            },
        ),
        None => None,
    }
}

/// A place lies in a rectangle.
pub open spec fn in_box(b: Bbox, p: Position) -> bool {
    b.west.at_most(p.lon) && p.lon.at_most(b.east) && b.south.at_most(p.lat) && p.lat.at_most(b.north)
}

/// The zones that contain a place. The rectangle of a zone is looked at first.
pub open spec fn point_hits<G: RegionOps>(ops: G, zones: Seq<CoveredZone>, p: Position, hits: Seq<bool>) -> bool {
    hits.len() == zones.len() && forall|i: int|
        0 <= i < zones.len() ==> if in_box((#[trigger] zones[i]).bbox, p) {
            call_ensures(G::contains, (&ops, &zones[i].poly, p), hits[i])
        } else {
            !hits[i]
        }
}

/// The zones that a line crosses. The rectangle of a zone is looked at first.
pub open spec fn line_hits<G: RegionOps>(
    ops: G,
    zones: Seq<CoveredZone>,
    line: Vec<Position>,
    hits: Seq<bool>,
) -> bool {
    hits.len() == zones.len() && forall|i: int|
        0 <= i < zones.len() ==> if sides_overlap(
            Bbox::hull_of(line@, line@.len() as int),
            (#[trigger] zones[i]).bbox,
        ) {
            call_ensures(G::crosses, (&ops, &zones[i].poly, &line), hits[i])
        } else {
            !hits[i]
        }
}

/// `r` is the last zoom level at which a feature at a place is shown, if a zone
/// contains the place: the coarsest of those zones takes over.
pub open spec fn point_maxzoom<G: RegionOps>(ops: G, zones: Seq<CoveredZone>, p: Position, r: Option<u8>) -> bool {
    exists|hits: Seq<bool>| #[trigger]
        point_hits(ops, zones, p, hits) && r == last_before(lowest_hit(zones, hits, zones.len() as int))
}

/// `r` is the last zoom level at which a line is shown, if it crosses a zone: the
/// coarsest of those zones takes over.
pub open spec fn line_maxzoom<G: RegionOps>(
    ops: G,
    zones: Seq<CoveredZone>,
    line: Vec<Position>,
    r: Option<u8>,
) -> bool {
    if line@.len() == 0 {
        r is None
    } else {
        exists|hits: Seq<bool>| #[trigger]
            line_hits(ops, zones, line, hits) && r == last_before(lowest_hit(zones, hits, zones.len() as int))
    }
}

fn take_lower(best: Option<u8>, minzoom: u8) -> (r: Option<u8>)
    ensures
        r == (match best {
            Some(m) if m <= minzoom => Some(m),
            _ => Some(minzoom),
        }),
{
    match best {
        Some(m) => {
            if m <= minzoom {
                Some(m)
            } else {
                Some(minzoom)
            }
        },
        None => Some(minzoom),
    }
}

fn step_back(minzoom: Option<u8>) -> (r: Option<u8>)
    ensures
        r == last_before(minzoom),
{
    match minzoom {
        Some(m) => Some(
            if m == 0 {
                0
            } else {
                m - 1
            },
        ),
        None => None,
    }
}

proof fn lemma_lowest_prefix(zones: Seq<CoveredZone>, a: Seq<bool>, b: Seq<bool>, n: int)
    requires
        0 <= n <= a.len(),
        n <= b.len(),
        forall|k: int| 0 <= k < n ==> a[k] == b[k],
    ensures
        lowest_hit(zones, a, n) == lowest_hit(zones, b, n),
    decreases n,
{
    if n > 0 {
        lemma_lowest_prefix(zones, a, b, n - 1);
    }
}

/// The last zoom level at which a feature at a place is shown; `None` where no
/// finer chart covers it.
pub fn maxzoom_for_point<G: RegionOps>(ops: &G, zones: &Vec<CoveredZone>, p: Position) -> (r: Option<u8>)
    ensures
        point_maxzoom(*ops, zones@, p, r),
{
    let mut best: Option<u8> = None;
    let ghost mut hits: Seq<bool> = Seq::empty();
    let mut i: usize = 0;
    while i < zones.len()
        invariant
            i <= zones@.len(),
            hits.len() == i,
            best == lowest_hit(zones@, hits, i as int),
            forall|k: int|
                0 <= k < i ==> if in_box((#[trigger] zones@[k]).bbox, p) {
                    call_ensures(G::contains, (ops, &zones@[k].poly, p), hits[k])
                } else {
                    !hits[k]
                },
        decreases zones@.len() - i,
    {
        let b: Bbox = zones[i].bbox;
        let near: bool = b.west.le(p.lon) && p.lon.le(b.east) && b.south.le(p.lat) && p.lat.le(b.north);
        let hit: bool = if near {
            ops.contains(&zones[i].poly, p)
        } else {
            false
        };
        if hit {
            best = take_lower(best, zones[i].minzoom);
        }
        proof {
            let more = hits.push(hit);
            lemma_lowest_prefix(zones@, hits, more, i as int);
            assert forall|k: int| 0 <= k < i + 1 implies if in_box((#[trigger] zones@[k]).bbox, p) {
                call_ensures(G::contains, (ops, &zones@[k].poly, p), more[k])
            } else {
                !more[k]
            } by {
                if k < i {
                    assert(more[k] == hits[k]);
                }
            }
            hits = more;
        }
        i += 1;
    }
    assert(point_hits(*ops, zones@, p, hits));
    step_back(best)
}

/// The last zoom level at which a line is shown; `None` where it crosses no finer
/// chart.
pub fn maxzoom_for_line<G: RegionOps>(ops: &G, zones: &Vec<CoveredZone>, line: &Vec<Position>) -> (r: Option<u8>)
    ensures
        line_maxzoom(*ops, zones@, *line, r),
{
    let around: Bbox = match Bbox::of(line) {
        Some(b) => b,
        None => {
            return None;
        },
    };
    let mut best: Option<u8> = None;
    let ghost mut hits: Seq<bool> = Seq::empty();
    let mut i: usize = 0;
    while i < zones.len()
        invariant
            i <= zones@.len(),
            hits.len() == i,
            around == Bbox::hull_of(line@, line@.len() as int),
            best == lowest_hit(zones@, hits, i as int),
            forall|k: int|
                0 <= k < i ==> if sides_overlap(around, (#[trigger] zones@[k]).bbox) {
                    call_ensures(G::crosses, (ops, &zones@[k].poly, line), hits[k])
                } else {
                    !hits[k]
                },
        decreases zones@.len() - i,
    {
        let near: bool = rects_overlap(&around, &zones[i].bbox);
        let hit: bool = if near {
            ops.crosses(&zones[i].poly, line)
        } else {
            false
        };
        if hit {
            best = take_lower(best, zones[i].minzoom);
        }
        proof {
            let more = hits.push(hit);
            lemma_lowest_prefix(zones@, hits, more, i as int);
            assert forall|k: int| 0 <= k < i + 1 implies if sides_overlap(around, (#[trigger] zones@[k]).bbox) {
                call_ensures(G::crosses, (ops, &zones@[k].poly, line), more[k])
            } else {
                !more[k]
            } by {
                if k < i {
                    assert(more[k] == hits[k]);
                }
            }
            hits = more;
        }
        i += 1;
    }
    assert(line_hits(*ops, zones@, *line, hits));
    step_back(best)
}

/// The coarsest zone that is hit decides: no other one that is hit has a lower
/// zoom level.
pub proof fn coarsest_zone_takes_over(zones: Seq<CoveredZone>, hits: Seq<bool>, n: int)
    requires
        0 <= n <= zones.len(),
        hits.len() == zones.len(),
    ensures
        match lowest_hit(zones, hits, n) {
            Some(m) => {
                &&& exists|i: int| 0 <= i < n && hits[i] && (#[trigger] zones[i]).minzoom == m
                &&& forall|i: int| 0 <= i < n && hits[i] ==> m <= (#[trigger] zones[i]).minzoom
            },
            None => forall|i: int| 0 <= i < n ==> !(#[trigger] hits[i]),
        },
    decreases n,
{
    if n > 0 {
        coarsest_zone_takes_over(zones, hits, n - 1);
        let before = lowest_hit(zones, hits, n - 1);
        match before {
            Some(m) => {
                let i = choose|i: int| 0 <= i < n - 1 && hits[i] && (#[trigger] zones[i]).minzoom == m;
                assert(0 <= i < n && hits[i] && zones[i].minzoom == m);
                if hits[n - 1] {
                    assert(zones[n - 1].minzoom == zones[n - 1].minzoom);
                }
            },
            None => {
                if hits[n - 1] {
                    assert(0 <= n - 1 < n && hits[n - 1] && zones[n - 1].minzoom == zones[n - 1].minzoom);
                }
            },
        }
    }
}

// ── Polygons ─────────────────────────────────────────────────────────────────

/// A part of a polygon with the last zoom level at which it is shown, if another
/// chart takes it over.
#[derive(Debug)]
pub struct Part {
    pub region: Region,
    pub maxzoom: Option<u8>,
}

/// The zones from the coarsest to the finest.
pub open spec fn coarsest_first(zones: Seq<CoveredZone>, k: int) -> CoveredZone {
    zones[zones.len() - 1 - k]
}

/// Zone by zone, coarsest first: `taken[k]` is what zone `k` takes of
/// `remaining[k]`, or `None` where it is passed over because nothing remains or
/// because its rectangle lies apart.
pub open spec fn is_split<G: RegionOps>(
    ops: G,
    zones: Seq<CoveredZone>,
    remaining: Seq<Region>,
    taken: Seq<Option<Region>>,
) -> bool {
    &&& taken.len() == zones.len()
    &&& remaining.len() == zones.len() + 1
    &&& forall|k: int|
        0 <= k < zones.len() ==> split_step(
            ops,
            coarsest_first(zones, k),
            remaining[k],
            #[trigger] taken[k],
            remaining[k + 1],
        )
}

/// The zone is passed over.
pub open spec fn passed_over(zone: CoveredZone, remaining: Region) -> bool {
    remaining@.len() == 0 || (bounds_of_region(remaining@) matches Some(b) && !sides_overlap(b, zone.bbox))
}

/// One zone takes its share of what remains.
pub open spec fn split_step<G: RegionOps>(
    ops: G,
    zone: CoveredZone,
    remaining: Region,
    taken: Option<Region>,
    rest: Region,
) -> bool {
    if passed_over(zone, remaining) {
        taken is None && rest == remaining
    } else {
        &&& taken matches Some(share) && call_ensures(G::intersection, (&ops, &remaining, &zone.poly), share)
        &&& call_ensures(G::difference, (&ops, &remaining, &zone.poly), rest)
    }
}

/// The parts taken by the first `n` zones, those without polygons left out.
pub open spec fn parts_taken(zones: Seq<CoveredZone>, taken: Seq<Option<Region>>, n: int) -> Seq<Part>
    decreases n,
{
    if n <= 0 {
        Seq::empty()
    } else {
        match taken[n - 1] {
            Some(share) => if share@.len() > 0 {
                parts_taken(zones, taken, n - 1).push(
                    Part {
                        region: share,
                        maxzoom: last_before(Some(coarsest_first(zones, n - 1).minzoom)),
                    },
                )
            } else {
                parts_taken(zones, taken, n - 1)
            },
            None => parts_taken(zones, taken, n - 1),
        }
    }
}

/// All parts: those taken by zones, and what remains.
pub open spec fn all_parts(zones: Seq<CoveredZone>, remaining: Seq<Region>, taken: Seq<Option<Region>>) -> Seq<Part> {
    let shares = parts_taken(zones, taken, zones.len() as int);
    if remaining.last()@.len() > 0 {
        shares.push(Part { region: remaining.last(), maxzoom: None })
    } else {
        shares
    }
}

proof fn lemma_parts_prefix(zones: Seq<CoveredZone>, a: Seq<Option<Region>>, b: Seq<Option<Region>>, n: int)
    requires
        0 <= n <= a.len(),
        n <= b.len(),
        forall|k: int| 0 <= k < n ==> a[k] == b[k],
    ensures
        parts_taken(zones, a, n) == parts_taken(zones, b, n),
    decreases n,
{
    if n > 0 {
        lemma_parts_prefix(zones, a, b, n - 1);
    }
}

/// Divides an area among the zones. Coarser zones come first, so that each part
/// disappears when the first finer chart takes it over.
pub fn split_polygon_for_zones<G: RegionOps>(ops: &G, area: Region, zones: &Vec<CoveredZone>) -> (parts: Vec<Part>)
    ensures
        exists|remaining: Seq<Region>, taken: Seq<Option<Region>>| #[trigger]
            is_split(*ops, zones@, remaining, taken) && remaining[0] == area && parts@ == all_parts(
                zones@,
                remaining,
                taken,
            ),
{
    let n: usize = zones.len();
    let ghost mut remaining: Seq<Region> = seq![area];
    let ghost mut taken: Seq<Option<Region>> = Seq::empty();
    let mut rest: Region = area;
    let mut parts: Vec<Part> = Vec::new();
    let mut k: usize = 0;
    while k < n
        invariant
            k <= n,
            n == zones@.len(),
            taken.len() == k,
            remaining.len() == k + 1,
            remaining[0] == area,
            remaining.last() == rest,
            parts@ == parts_taken(zones@, taken, k as int),
            forall|j: int|
                0 <= j < k ==> split_step(
                    *ops,
                    coarsest_first(zones@, j),
                    remaining[j],
                    #[trigger] taken[j],
                    remaining[j + 1],
                ),
        decreases n - k,
    {
        let zone: &CoveredZone = &zones[n - 1 - k];
        let ghost before = rest;
        let ghost mut share: Option<Region> = None;
        let apart: bool = match bounding_rect(&rest) {
            Some(b) => !rects_overlap(&b, &zone.bbox),
            None => false,
        };
        if rest.len() > 0 && !apart {
            let overlap: Region = ops.intersection(&rest, &zone.poly);
            let left: Region = ops.difference(&rest, &zone.poly);
            proof {
                share = Some(overlap);
            }
            rest = left;
            if overlap.len() > 0 {
                let maxzoom: Option<u8> = step_back(Some(zone.minzoom));
                parts.push(Part { region: overlap, maxzoom });
            }
        }
        proof {
            let more_taken = taken.push(share);
            let more_remaining = remaining.push(rest);
            lemma_parts_prefix(zones@, taken, more_taken, k as int);
            assert(split_step(*ops, coarsest_first(zones@, k as int), before, share, rest));
            assert forall|j: int| 0 <= j < k + 1 implies split_step(
                *ops,
                coarsest_first(zones@, j),
                more_remaining[j],
                #[trigger] more_taken[j],
                more_remaining[j + 1],
            ) by {
                if j < k {
                    assert(more_taken[j] == taken[j]);
                }
            }
            taken = more_taken;
            remaining = more_remaining;
        }
        k += 1;
    }
    assert(is_split(*ops, zones@, remaining, taken));
    if rest.len() > 0 {
        parts.push(Part { region: rest, maxzoom: None });
    }
    parts
}

/// Where the zones are given finest first, the parts of a polygon come in the
/// order in which they disappear.
pub proof fn parts_disappear_in_order(zones: Seq<CoveredZone>, taken: Seq<Option<Region>>, n: int)
    requires
        0 <= n <= zones.len(),
        taken.len() == zones.len(),
        forall|i: int, j: int|
            0 <= i <= j < zones.len() ==> (#[trigger] zones[i]).minzoom >= (#[trigger] zones[j]).minzoom,
    ensures
        forall|a: int, b: int|
            0 <= a <= b < parts_taken(zones, taken, n).len() ==> (#[trigger] parts_taken(zones, taken, n)[a]).maxzoom->0
                <= (#[trigger] parts_taken(zones, taken, n)[b]).maxzoom->0,
        forall|a: int|
            0 <= a < parts_taken(zones, taken, n).len() ==> {
                let m = (#[trigger] parts_taken(zones, taken, n)[a]).maxzoom;
                m is Some && n > 0 && m->0 <= last_before(Some(coarsest_first(zones, n - 1).minzoom))->0
            },
    decreases n,
{
    if n > 0 {
        parts_disappear_in_order(zones, taken, n - 1);
        let before = parts_taken(zones, taken, n - 1);
        let after = parts_taken(zones, taken, n);
        let z = coarsest_first(zones, n - 1);
        if n > 1 {
            assert(zones[zones.len() - n].minzoom >= zones[zones.len() - n + 1].minzoom);
        }
        assert forall|a: int| 0 <= a < after.len() implies {
            let m = (#[trigger] after[a]).maxzoom;
            m is Some && m->0 <= last_before(Some(z.minzoom))->0
        } by {
            if a < before.len() {
                assert(after[a] == before[a]);
            }
        }
        assert forall|a: int, b: int| 0 <= a <= b < after.len() implies (#[trigger] after[a]).maxzoom->0 <= (
        #[trigger] after[b]).maxzoom->0 by {
            if b < before.len() {
                assert(after[a] == before[a]);
                assert(after[b] == before[b]);
            }
        }
    }
}

/// Intersection and difference are exact on what areas hold: `holds(a, p)` says
/// that the point `p` lies in `a`.
pub open spec fn exact_regions<P, G: RegionOps>(ops: G, holds: spec_fn(Region, P) -> bool) -> bool {
    &&& forall|a: Region, b: Region, m: Region, p: P|
        #![trigger call_ensures(G::intersection, (&ops, &a, &b), m), holds(m, p)]
        call_ensures(G::intersection, (&ops, &a, &b), m) ==> (holds(m, p) <==> holds(a, p) && holds(b, p))
    &&& forall|a: Region, b: Region, r: Region, p: P|
        #![trigger call_ensures(G::difference, (&ops, &a, &b), r), holds(r, p)]
        call_ensures(G::difference, (&ops, &a, &b), r) ==> (holds(r, p) <==> holds(a, p) && !holds(b, p))
}

/// What remains of an area after some zones are its points that none of them
/// took, where intersection and difference are exact: dividing loses nothing and
/// adds nothing.
pub proof fn zones_divide_the_area<P, G: RegionOps>(
    ops: G,
    holds: spec_fn(Region, P) -> bool,
    zones: Seq<CoveredZone>,
    remaining: Seq<Region>,
    taken: Seq<Option<Region>>,
    n: int,
    p: P,
)
    requires
        exact_regions(ops, holds),
        is_split(ops, zones, remaining, taken),
        0 <= n <= zones.len(),
    ensures
        holds(remaining[n], p) <==> holds(remaining[0], p) && forall|k: int|
            0 <= k < n && (#[trigger] taken[k]) is Some ==> !holds(taken[k]->0, p),
    decreases n,
{
    if n > 0 {
        zones_divide_the_area(ops, holds, zones, remaining, taken, n - 1, p);
        let zone = coarsest_first(zones, n - 1);
        let before = remaining[n - 1];
        assert(split_step(ops, zone, before, taken[n - 1], remaining[n]));
        if !passed_over(zone, before) {
            let share = taken[n - 1]->0;
            assert(call_ensures(G::intersection, (&ops, &before, &zone.poly), share));
            assert(call_ensures(G::difference, (&ops, &before, &zone.poly), remaining[n]));
            assert(holds(share, p) == (holds(before, p) && holds(zone.poly, p)));
            assert(holds(remaining[n], p) == (holds(before, p) && !holds(zone.poly, p)));
        }
        if holds(remaining[n], p) {
            assert forall|k: int| 0 <= k < n && (#[trigger] taken[k]) is Some implies !holds(taken[k]->0, p) by {}
        }
    }
}

/// A zone takes points of the area that lie in the zone and that no coarser zone
/// took, where intersection and difference are exact.
pub proof fn a_zone_takes_its_own<P, G: RegionOps>(
    ops: G,
    holds: spec_fn(Region, P) -> bool,
    zones: Seq<CoveredZone>,
    remaining: Seq<Region>,
    taken: Seq<Option<Region>>,
    n: int,
    p: P,
)
    requires
        exact_regions(ops, holds),
        is_split(ops, zones, remaining, taken),
        0 <= n < zones.len(),
        taken[n] is Some,
    ensures
        holds(taken[n]->0, p) <==> {
            &&& holds(remaining[0], p)
            &&& holds(coarsest_first(zones, n).poly, p)
            &&& forall|k: int| 0 <= k < n && (#[trigger] taken[k]) is Some ==> !holds(taken[k]->0, p)
        },
{
    zones_divide_the_area(ops, holds, zones, remaining, taken, n, p);
    let zone = coarsest_first(zones, n);
    assert(split_step(ops, zone, remaining[n], taken[n], remaining[n + 1]));
    assert(call_ensures(G::intersection, (&ops, &remaining[n], &zone.poly), taken[n]->0));
}

// ── GeoJSON ──────────────────────────────────────────────────────────────────

/// The places of the first `n` positions that have two coordinates.
pub open spec fn places(pts: Seq<Vec<Real>>, n: int) -> Seq<Position>
    decreases n,
{
    if n <= 0 {
        Seq::empty()
    } else if pts[n - 1]@.len() >= 2 {
        places(pts, n - 1).push(Position { lon: pts[n - 1]@[0], lat: pts[n - 1]@[1] })
    } else {
        places(pts, n - 1)
    }
}

/// Reads the positions of a line; those without two coordinates are left out.
pub fn pts_to_linestring(pts: &Vec<Vec<Real>>) -> (line: Vec<Position>)
    ensures
        line@ == places(pts@, pts@.len() as int),
{
    let mut out: Vec<Position> = Vec::new();
    let mut i: usize = 0;
    while i < pts.len()
        invariant
            i <= pts@.len(),
            out@ == places(pts@, i as int),
        decreases pts@.len() - i,
    {
        let p: &Vec<Real> = &pts[i];
        if p.len() >= 2 {
            out.push(Position { lon: p[0], lat: p[1] });
        }
        i += 1;
    }
    out
}

/// The places of the rings from the second on.
pub open spec fn hole_places(rings: Seq<Vec<Vec<Real>>>) -> Seq<Seq<Position>> {
    Seq::new((rings.len() - 1) as nat, |i: int| places(rings[i + 1]@, rings[i + 1]@.len() as int))
}

/// The polygon of a list of rings, the exterior first, is `poly`.
pub open spec fn is_polygon_of(rings: Seq<Vec<Vec<Real>>>, poly: Polygon<Position>) -> bool {
    poly@ == polygon_of(places(rings[0]@, rings[0]@.len() as int), hole_places(rings))
}

/// Reads a polygon; `None` where it has no exterior or one without positions.
pub fn geojson_rings_to_geo_poly(rings: &Vec<Vec<Vec<Real>>>) -> (r: Option<Polygon<Position>>)
    ensures
        if rings@.len() == 0 || rings@[0]@.len() == 0 {
            r is None
        } else {
            r matches Some(poly) && is_polygon_of(rings@, poly)
        },
{
    if rings.len() == 0 || rings[0].len() == 0 {
        return None;
    }
    let exterior: Vec<Position> = pts_to_linestring(&rings[0]);
    let mut interiors: Vec<Vec<Position>> = Vec::new();
    let mut i: usize = 1;
    while i < rings.len()
        invariant
            1 <= i <= rings@.len(),
            interiors@.len() == i - 1,
            forall|k: int|
                0 <= k < interiors@.len() ==> (#[trigger] interiors@[k])@ == places(
                    rings@[k + 1]@,
                    rings@[k + 1]@.len() as int,
                ),
        decreases rings@.len() - i,
    {
        interiors.push(pts_to_linestring(&rings[i]));
        i += 1;
    }
    assert(lists(interiors@) =~= hole_places(rings@));
    Some(Polygon::new(exterior, interiors))
}

/// A ring as positions of two coordinates.
pub open spec fn is_position_list(ring: Seq<Position>, out: Seq<Vec<Real>>) -> bool {
    out.len() == ring.len() && forall|i: int|
        0 <= i < ring.len() ==> (#[trigger] out[i])@ == seq![ring[i].lon, ring[i].lat]
}

/// A polygon as rings of positions, the exterior first.
pub open spec fn is_ring_list(poly: Polygon<Position>, out: Seq<Vec<Vec<Real>>>) -> bool {
    &&& out.len() == poly.interiors@.len() + 1
    &&& is_position_list(poly.exterior@, out[0]@)
    &&& forall|i: int|
        0 <= i < poly.interiors@.len() ==> is_position_list(poly.interiors@[i]@, (#[trigger] out[i + 1])@)
}

/// `g` is an area in GeoJSON: one polygon, or several.
pub open spec fn is_geometry_of(region: Region, g: GeoGeometry) -> bool {
    if region@.len() == 1 {
        g matches GeoGeometry::Polygon(rings) && is_ring_list(region@[0], rings@)
    } else {
        g matches GeoGeometry::MultiPolygon(polys) && polys@.len() == region@.len() && forall|i: int|
            0 <= i < region@.len() ==> is_ring_list(region@[i], (#[trigger] polys@[i])@)
    }
}

fn ring_positions(ring: &Vec<Position>) -> (out: Vec<Vec<Real>>)
    ensures
        is_position_list(ring@, out@),
{
    let mut out: Vec<Vec<Real>> = Vec::new();
    let mut i: usize = 0;
    while i < ring.len()
        invariant
            i <= ring@.len(),
            out@.len() == i,
            forall|k: int| 0 <= k < i ==> (#[trigger] out@[k])@ == seq![ring@[k].lon, ring@[k].lat],
        decreases ring@.len() - i,
    {
        let pair: Vec<Real> = vec![ring[i].lon, ring[i].lat];
        assert(pair@ =~= seq![ring@[i as int].lon, ring@[i as int].lat]);
        out.push(pair);
        i += 1;
    }
    out
}

/// Writes a polygon as rings of positions.
pub fn poly_to_rings(poly: &Polygon<Position>) -> (out: Vec<Vec<Vec<Real>>>)
    ensures
        is_ring_list(*poly, out@),
{
    let mut out: Vec<Vec<Vec<Real>>> = Vec::new();
    out.push(ring_positions(&poly.exterior));
    let mut i: usize = 0;
    while i < poly.interiors.len()
        invariant
            i <= poly.interiors@.len(),
            out@.len() == i + 1,
            is_position_list(poly.exterior@, out@[0]@),
            forall|k: int| 0 <= k < i ==> is_position_list(poly.interiors@[k]@, (#[trigger] out@[k + 1])@),
        decreases poly.interiors@.len() - i,
    {
        let ghost before = out@;
        out.push(ring_positions(&poly.interiors[i]));
        assert forall|k: int| 0 <= k < i + 1 implies is_position_list(poly.interiors@[k]@, (#[trigger] out@[k + 1])@) by {
            if k < i {
                assert(out@[k + 1] == before[k + 1]);
            }
        }
        i += 1;
    }
    out
}

/// Writes an area as a GeoJSON geometry: a single polygon as such.
pub fn multipoly_to_geojson_value(region: &Region) -> (g: GeoGeometry)
    ensures
        is_geometry_of(*region, g),
{
    if region.len() == 1 {
        GeoGeometry::Polygon(poly_to_rings(&region[0]))
    } else {
        let mut polys: Vec<Vec<Vec<Vec<Real>>>> = Vec::new();
        let mut i: usize = 0;
        while i < region.len()
            invariant
                i <= region@.len(),
                polys@.len() == i,
                forall|k: int| 0 <= k < i ==> is_ring_list(region@[k], (#[trigger] polys@[k])@),
            decreases region@.len() - i,
        {
            polys.push(poly_to_rings(&region[i]));
            i += 1;
        }
        GeoGeometry::MultiPolygon(polys)
    }
}

/// The place of a position, if it has two coordinates.
pub open spec fn place_of(p: Seq<Real>) -> Option<Position> {
    if p.len() >= 2 {
        Some(Position { lon: p[0], lat: p[1] })
    } else {
        None
    }
}

/// The place of the middle position of a line.
pub open spec fn middle_of(line: Seq<Vec<Real>>) -> Option<Position> {
    if line.len() > 0 {
        place_of(line[line.len() as int / 2]@)
    } else {
        None
    }
}

/// `r` is the mean of a ring, if it has positions.
pub open spec fn mean_of<G: RegionOps>(ops: G, ring: Vec<Vec<Real>>, r: Option<Position>) -> bool {
    if ring@.len() > 0 {
        r matches Some(p) && call_ensures(G::centroid, (&ops, &ring), p)
    } else {
        r is None
    }
}

/// `r` is a place that stands for a geometry: of a line its middle, of a polygon
/// the mean of its exterior, of several parts that of the first.
pub open spec fn is_representative<G: RegionOps>(ops: G, g: GeoGeometry, r: Option<Position>) -> bool {
    match g {
        GeoGeometry::Point(p) => r == place_of(p@),
        GeoGeometry::MultiPoint(pts) => r == (if pts@.len() > 0 {
            place_of(pts@[0]@)
        } else {
            None
        }),
        GeoGeometry::LineString(line) => r == middle_of(line@),
        GeoGeometry::MultiLineString(lines) => r == (if lines@.len() > 0 {
            middle_of(lines@[0]@)
        } else {
            None
        }),
        GeoGeometry::Polygon(rings) => if rings@.len() > 0 {
            mean_of(ops, rings@[0], r)
        } else {
            r is None
        },
        GeoGeometry::MultiPolygon(polys) => if polys@.len() > 0 && polys@[0]@.len() > 0 {
            mean_of(ops, polys@[0]@[0], r)
        } else {
            r is None
        },
        GeoGeometry::Other => r is None,
    }
}

fn position(p: &Vec<Real>) -> (r: Option<Position>)
    ensures
        r == place_of(p@),
{
    if p.len() >= 2 {
        Some(Position { lon: p[0], lat: p[1] })
    } else {
        None
    }
}

fn middle(line: &Vec<Vec<Real>>) -> (r: Option<Position>)
    ensures
        r == middle_of(line@),
{
    if line.len() > 0 {
        position(&line[line.len() / 2])
    } else {
        None
    }
}

fn mean<G: RegionOps>(ops: &G, ring: &Vec<Vec<Real>>) -> (r: Option<Position>)
    ensures
        mean_of(*ops, *ring, r),
{
    if ring.len() > 0 {
        Some(ops.centroid(ring))
    } else {
        None
    }
}

/// A place that stands for a geometry.
pub fn representative_point<G: RegionOps>(ops: &G, g: &GeoGeometry) -> (r: Option<Position>)
    ensures
        is_representative(*ops, *g, r),
{
    match g {
        GeoGeometry::Point(p) => position(p),
        GeoGeometry::MultiPoint(pts) => if pts.len() > 0 {
            position(&pts[0])
        } else {
            None
        },
        GeoGeometry::LineString(line) => middle(line),
        GeoGeometry::MultiLineString(lines) => if lines.len() > 0 {
            middle(&lines[0])
        } else {
            None
        },
        GeoGeometry::Polygon(rings) => if rings.len() > 0 {
            mean(ops, &rings[0])
        } else {
            None
        },
        GeoGeometry::MultiPolygon(polys) => if polys.len() > 0 && polys[0].len() > 0 {
            mean(ops, &polys[0][0])
        } else {
            None
        },
        GeoGeometry::Other => None,
    }
}

// ── Features ─────────────────────────────────────────────────────────────────

/// What becomes of a feature, or of a part of it: its new geometry, if that
/// changes, and the last zoom level at which it is shown, if there is one.
#[derive(Debug)]
pub struct QuiltPiece {
    pub geometry: Option<GeoGeometry>,
    pub maxzoom: Option<u8>,
}

/// The feature as it is, up to a zoom level.
pub open spec fn whole_feature(pieces: Seq<QuiltPiece>, maxzoom: Option<u8>) -> bool {
    pieces.len() == 1 && pieces[0].geometry is None && pieces[0].maxzoom == maxzoom
}

/// The parts that have polygons.
pub open spec fn solid_parts(parts: Seq<Part>, n: int) -> Seq<Part>
    decreases n,
{
    if n <= 0 {
        Seq::empty()
    } else if parts[n - 1].region@.len() == 0 {
        solid_parts(parts, n - 1)
    } else {
        solid_parts(parts, n - 1).push(parts[n - 1])
    }
}

/// The pieces of a polygon that was divided. One part in open territory leaves
/// the feature as it is.
pub open spec fn polygon_pieces(parts: Seq<Part>, pieces: Seq<QuiltPiece>) -> bool {
    if parts.len() == 1 && parts[0].maxzoom is None {
        whole_feature(pieces, None)
    } else {
        let solid = solid_parts(parts, parts.len() as int);
        pieces.len() == solid.len() && forall|i: int|
            0 <= i < solid.len() ==> {
                &&& (#[trigger] pieces[i]).maxzoom == solid[i].maxzoom
                &&& pieces[i].geometry matches Some(g) && is_geometry_of(solid[i].region, g)
            }
    }
}

/// The lowest of the zoom levels of the first `n` lines, if any has one.
pub open spec fn lowest_of(levels: Seq<Option<u8>>, n: int) -> Option<u8>
    decreases n,
{
    if n <= 0 {
        None
    } else {
        let before = lowest_of(levels, n - 1);
        match (before, levels[n - 1]) {
            (Some(a), Some(b)) => if a <= b {
                Some(a)
            } else {
                Some(b)
            },
            (None, x) => x,
            (x, None) => x,
        }
    }
}

/// `level` is the zoom level of a line given by its positions.
pub open spec fn positions_maxzoom<G: RegionOps>(
    ops: G,
    zones: Seq<CoveredZone>,
    pts: Seq<Vec<Real>>,
    level: Option<u8>,
) -> bool {
    exists|line: Vec<Position>| #[trigger]
        line_maxzoom(ops, zones, line, level) && line@ == places(pts, pts.len() as int)
}

/// `levels` are the zoom levels of lines.
pub open spec fn lines_maxzoom<G: RegionOps>(
    ops: G,
    zones: Seq<CoveredZone>,
    lines: Seq<Vec<Vec<Real>>>,
    levels: Seq<Option<u8>>,
) -> bool {
    levels.len() == lines.len() && forall|i: int|
        0 <= i < lines.len() ==> positions_maxzoom(ops, zones, lines[i]@, #[trigger] levels[i])
}

/// The feature is treated by the place that stands for it.
pub open spec fn by_representative<G: RegionOps>(
    ops: G,
    zones: Seq<CoveredZone>,
    g: Option<GeoGeometry>,
    pieces: Seq<QuiltPiece>,
) -> bool {
    match g {
        None => whole_feature(pieces, None),
        Some(g) => exists|at: Option<Position>| #[trigger]
            is_representative(ops, g, at) && match at {
                None => whole_feature(pieces, None),
                Some(p) => exists|m: Option<u8>| #[trigger]
                    point_maxzoom(ops, zones, p, m) && whole_feature(pieces, m),
            },
    }
}

/// `pieces` are what becomes of a feature in the presence of finer charts. A
/// polygon is divided among their zones. A line that crosses a zone, or a feature
/// whose place lies in one, is shown up to the level at which the coarsest such
/// zone takes over; of several lines the lowest level counts.
pub open spec fn quilted<G: RegionOps>(
    ops: G,
    zones: Seq<CoveredZone>,
    g: Option<GeoGeometry>,
    pieces: Seq<QuiltPiece>,
) -> bool {
    if zones.len() == 0 {
        whole_feature(pieces, None)
    } else {
        match g {
            Some(GeoGeometry::Polygon(rings)) => if rings@.len() == 0 || rings@[0]@.len() == 0 {
                by_representative(ops, zones, g, pieces)
            } else {
                exists|area: Region, remaining: Seq<Region>, taken: Seq<Option<Region>>|
                    #![trigger is_split(ops, zones, remaining, taken), area@]
                    area@.len() == 1 && is_polygon_of(rings@, area@[0]) && is_split(ops, zones, remaining, taken)
                        && remaining[0] == area && polygon_pieces(all_parts(zones, remaining, taken), pieces)
            },
            Some(GeoGeometry::LineString(pts)) => exists|m: Option<u8>| #[trigger]
                positions_maxzoom(ops, zones, pts@, m) && whole_feature(pieces, m),
            Some(GeoGeometry::MultiLineString(lines)) => exists|levels: Seq<Option<u8>>| #[trigger]
                lines_maxzoom(ops, zones, lines@, levels) && whole_feature(
                    pieces,
                    lowest_of(levels, levels.len() as int),
                ),
            _ => by_representative(ops, zones, g, pieces),
        }
    }
}

fn keep_feature(maxzoom: Option<u8>) -> (pieces: Vec<QuiltPiece>)
    ensures
        whole_feature(pieces@, maxzoom),
{
    let mut pieces: Vec<QuiltPiece> = Vec::new();
    pieces.push(QuiltPiece { geometry: None, maxzoom });
    pieces
}

/// Divides a polygon among the zones and makes features of the parts.
pub fn split_and_annotate<G: RegionOps>(ops: &G, area: Region, zones: &Vec<CoveredZone>) -> (pieces: Vec<QuiltPiece>)
    ensures
        exists|remaining: Seq<Region>, taken: Seq<Option<Region>>| #[trigger]
            is_split(*ops, zones@, remaining, taken) && remaining[0] == area && polygon_pieces(
                all_parts(zones@, remaining, taken),
                pieces@,
            ),
{
    let parts: Vec<Part> = split_polygon_for_zones(ops, area, zones);
    if parts.len() == 1 && parts[0].maxzoom.is_none() {
        return keep_feature(None);
    }
    let mut pieces: Vec<QuiltPiece> = Vec::new();
    let mut i: usize = 0;
    while i < parts.len()
        invariant
            i <= parts@.len(),
            pieces@.len() == solid_parts(parts@, i as int).len(),
            forall|k: int|
                0 <= k < pieces@.len() ==> {
                    let solid = solid_parts(parts@, i as int);
                    &&& (#[trigger] pieces@[k]).maxzoom == solid[k].maxzoom
                    &&& pieces@[k].geometry matches Some(g) && is_geometry_of(solid[k].region, g)
                },
        decreases parts@.len() - i,
    {
        let ghost before = pieces@;
        let ghost solid = solid_parts(parts@, i as int);
        if parts[i].region.len() > 0 {
            let g: GeoGeometry = multipoly_to_geojson_value(&parts[i].region);
            let piece: QuiltPiece = QuiltPiece { geometry: Some(g), maxzoom: parts[i].maxzoom };
            pieces.push(piece);
            proof {
                let more = solid_parts(parts@, i + 1);
                assert(more == solid.push(parts@[i as int]));
                assert forall|k: int| 0 <= k < pieces@.len() implies {
                    &&& (#[trigger] pieces@[k]).maxzoom == more[k].maxzoom
                    &&& pieces@[k].geometry matches Some(g) && is_geometry_of(more[k].region, g)
                } by {
                    if k < before.len() {
                        assert(pieces@[k] == before[k]);
                        assert(more[k] == solid[k]);
                    }
                }
            }
        }
        i += 1;
    }
    pieces
}

fn quilt_by_place<G: RegionOps>(ops: &G, g: &Option<GeoGeometry>, zones: &Vec<CoveredZone>) -> (pieces: Vec<QuiltPiece>)
    ensures
        by_representative(*ops, zones@, *g, pieces@),
{
    match g {
        None => keep_feature(None),
        Some(geom) => {
            let at: Option<Position> = representative_point(ops, geom);
            assert(is_representative(*ops, *geom, at));
            match at {
                None => keep_feature(None),
                Some(p) => {
                    let m: Option<u8> = maxzoom_for_point(ops, zones, p);
                    assert(point_maxzoom(*ops, zones@, p, m));
                    keep_feature(m)
                },
            }
        },
    }
}

fn lower(a: Option<u8>, b: Option<u8>) -> (r: Option<u8>)
    ensures
        r == (match (a, b) {
            (Some(x), Some(y)) => if x <= y {
                Some(x)
            } else {
                Some(y)
            },
            (None, x) => x,
            (x, None) => x,
        }),
{
    match (a, b) {
        (Some(x), Some(y)) => if x <= y {
            Some(x)
        } else {
            Some(y)
        },
        (None, x) => x,
        (x, None) => x,
    }
}

proof fn lemma_lowest_level_prefix(a: Seq<Option<u8>>, b: Seq<Option<u8>>, n: int)
    requires
        0 <= n <= a.len(),
        n <= b.len(),
        forall|k: int| 0 <= k < n ==> a[k] == b[k],
    ensures
        lowest_of(a, n) == lowest_of(b, n),
    decreases n,
{
    if n > 0 {
        lemma_lowest_level_prefix(a, b, n - 1);
    }
}

/// The coarsest zone takes over a feature of several lines too: its level is that
/// of one of its lines, and no line has a lower one.
pub proof fn lowest_level_of_lines(levels: Seq<Option<u8>>, n: int)
    requires
        0 <= n <= levels.len(),
    ensures
        match lowest_of(levels, n) {
            Some(m) => {
                &&& exists|i: int| 0 <= i < n && #[trigger] levels[i] == Some(m)
                &&& forall|i: int| 0 <= i < n && (#[trigger] levels[i]) is Some ==> m <= levels[i]->0
            },
            None => forall|i: int| 0 <= i < n ==> (#[trigger] levels[i]) is None,
        },
    decreases n,
{
    if n > 0 {
        lowest_level_of_lines(levels, n - 1);
        if let Some(m) = lowest_of(levels, n - 1) {
            let i = choose|i: int| 0 <= i < n - 1 && #[trigger] levels[i] == Some(m);
            assert(0 <= i < n && levels[i] == Some(m));
        }
        assert(levels[n - 1] == levels[n - 1]);
    }
}

/// What becomes of a feature in the presence of finer charts.
pub fn quilt_feature<G: RegionOps>(ops: &G, g: &Option<GeoGeometry>, zones: &Vec<CoveredZone>) -> (pieces: Vec<
    QuiltPiece,
>)
    ensures
        quilted(*ops, zones@, *g, pieces@),
{
    if zones.len() == 0 {
        return keep_feature(None);
    }
    match g {
        Some(GeoGeometry::Polygon(rings)) => {
            match geojson_rings_to_geo_poly(rings) {
                Some(poly) => {
                    let mut area: Region = Vec::new();
                    area.push(poly);
                    let ghost whole = area;
                    assert(whole@.len() == 1 && is_polygon_of(rings@, whole@[0]));
                    split_and_annotate(ops, area, zones)
                },
                None => quilt_by_place(ops, g, zones),
            }
        },
        Some(GeoGeometry::LineString(pts)) => {
            let line: Vec<Position> = pts_to_linestring(pts);
            let m: Option<u8> = maxzoom_for_line(ops, zones, &line);
            assert(line_maxzoom(*ops, zones@, line, m));
            assert(positions_maxzoom(*ops, zones@, pts@, m));
            keep_feature(m)
        },
        Some(GeoGeometry::MultiLineString(lines)) => {
            let ghost mut levels: Seq<Option<u8>> = Seq::empty();
            let mut best: Option<u8> = None;
            let mut i: usize = 0;
            while i < lines.len()
                invariant
                    i <= lines@.len(),
                    levels.len() == i,
                    best == lowest_of(levels, i as int),
                    forall|k: int|
                        0 <= k < i ==> positions_maxzoom(*ops, zones@, lines@[k]@, #[trigger] levels[k]),
                decreases lines@.len() - i,
            {
                let line: Vec<Position> = pts_to_linestring(&lines[i]);
                let m: Option<u8> = maxzoom_for_line(ops, zones, &line);
                best = lower(best, m);
                proof {
                    let more = levels.push(m);
                    lemma_lowest_level_prefix(levels, more, i as int);
                    assert(line_maxzoom(*ops, zones@, line, m));
                    assert forall|k: int| 0 <= k < i + 1 implies positions_maxzoom(
                        *ops,
                        zones@,
                        lines@[k]@,
                        #[trigger] more[k],
                    ) by {
                        if k < i {
                            assert(more[k] == levels[k]);
                        }
                    }
                    levels = more;
                }
                i += 1;
            }
            assert(lines_maxzoom(*ops, zones@, lines@, levels));
            keep_feature(best)
        },
        _ => quilt_by_place(ops, g, zones),
    }
}

/// The members of a feature with a last zoom level for the tile maker: in its
/// object `tippecanoe`, which is made where there is none. A member of that name
/// that is no object stays as it is.
pub open spec fn with_maxzoom(members: Seq<(Seq<char>, JsonView)>, maxzoom: u8) -> Seq<(Seq<char>, JsonView)> {
    let level = JsonView::Number(digits_of(maxzoom as int));
    match lookup(members, "tippecanoe"@) {
        None => updated(members, "tippecanoe"@, JsonView::Object(seq![("maxzoom"@, level)])),
        Some(JsonView::Object(hints)) => updated(
            members,
            "tippecanoe"@,
            JsonView::Object(updated(hints, "maxzoom"@, level)),
        ),
        Some(_) => members,
    }
}

/// Gives a feature a last zoom level for the tile maker.
pub fn add_maxzoom(members: &mut Vec<(String, Json)>, maxzoom: u8)
    ensures
        entry_views(final(members)@) == with_maxzoom(entry_views(old(members)@), maxzoom),
{
    let ghost start = members@;
    let ghost level = JsonView::Number(digits_of(maxzoom as int));
    let i: usize = find_key(members, "tippecanoe");
    proof {
        lemma_key_at(entry_views(start), "tippecanoe"@, 0);
    }
    if i == members.len() {
        let hints: Vec<(String, Json)> = vec![Json::entry("maxzoom", Json::uint(maxzoom as u64))];
        assert(entry_views(hints@) =~= seq![("maxzoom"@, level)]);
        set_key(members, "tippecanoe", Json::object(hints));
    } else {
        assert(entry_views(start)[i as int] == (start[i as int].0@, start[i as int].1@));
        let taken: (String, Json) = members.remove(i);
        let (key, value) = taken;
        let ghost given = value@;
        let next: Json = match value {
            Json::Object(old_hints) => {
                let mut hints: Vec<(String, Json)> = old_hints;
                proof {
                    reveal_with_fuel(<Json as View>::view, 2);
                    assert(given->Object_0 =~= entry_views(hints@));
                }
                set_key(&mut hints, "maxzoom", Json::uint(maxzoom as u64));
                Json::object(hints)
            },
            other => other,
        };
        members.insert(i, (key, next));
        assert(entry_views(members@) =~= entry_views(start).update(i as int, (key@, next@)));
        proof {
            if !(given is Object) {
                assert(entry_views(members@) =~= entry_views(start));
            }
        }
    }
}

// ── Laws ─────────────────────────────────────────────────────────────────────

/// A zoom level is the last one before another: one below it, or 0 where there is
/// none below.
pub open spec fn just_before(level: u8, minzoom: u8) -> bool {
    level + 1 == minzoom || (level == 0 && minzoom == 0)
}

/// A feature at a place in the area of a finer chart is last shown before that chart
/// begins, at the latest.
pub proof fn a_point_gives_way_to_every_zone<G: RegionOps>(
    ops: G,
    zones: Seq<CoveredZone>,
    p: Position,
    r: Option<u8>,
    i: int,
)
    requires
        point_maxzoom(ops, zones, p, r),
        0 <= i < zones.len(),
        zones[i].bbox.west.at_most(p.lon) && p.lon.at_most(zones[i].bbox.east),
        zones[i].bbox.south.at_most(p.lat) && p.lat.at_most(zones[i].bbox.north),
        forall|h: bool| call_ensures(G::contains, (&ops, &zones[i].poly, p), h) ==> h,
    ensures
        r matches Some(m) && (m < zones[i].minzoom || m == 0),
{
    let hits = choose|hits: Seq<bool>| #[trigger]
        point_hits(ops, zones, p, hits) && r == last_before(lowest_hit(zones, hits, zones.len() as int));
    coarsest_zone_takes_over(zones, hits, zones.len() as int);
    assert(call_ensures(G::contains, (&ops, &zones[i].poly, p), hits[i]));
}

/// The last level of a feature at a place is the one before a finer chart whose area
/// was found to contain the place.
pub proof fn a_point_gives_way_to_no_other_zone<G: RegionOps>(
    ops: G,
    zones: Seq<CoveredZone>,
    p: Position,
    r: Option<u8>,
) -> (i: int)
    requires
        point_maxzoom(ops, zones, p, r),
        r is Some,
    ensures
        0 <= i < zones.len(),
        just_before(r->0, zones[i].minzoom),
        call_ensures(G::contains, (&ops, &zones[i].poly, p), true),
{
    let hits = choose|hits: Seq<bool>| #[trigger]
        point_hits(ops, zones, p, hits) && r == last_before(lowest_hit(zones, hits, zones.len() as int));
    let n = zones.len() as int;
    coarsest_zone_takes_over(zones, hits, n);
    let m = lowest_hit(zones, hits, n)->0;
    let i = choose|i: int| 0 <= i < n && hits[i] && (#[trigger] zones[i]).minzoom == m;
    assert(call_ensures(G::contains, (&ops, &zones[i].poly, p), hits[i]));
    i
}

/// A line with a point in the rectangle of a finer chart, and found to cross its
/// area, is last shown before that chart begins, at the latest.
pub proof fn a_line_gives_way_to_every_zone<G: RegionOps>(
    ops: G,
    zones: Seq<CoveredZone>,
    line: Vec<Position>,
    r: Option<u8>,
    i: int,
    k: int,
)
    requires
        line_maxzoom(ops, zones, line, r),
        0 <= i < zones.len(),
        0 <= k < line@.len(),
        forall|j: int| 0 <= j < line@.len() ==> !(#[trigger] line@[j]).lon.nan() && !line@[j].lat.nan(),
        zones[i].bbox.west.at_most(line@[k].lon) && line@[k].lon.at_most(zones[i].bbox.east),
        zones[i].bbox.south.at_most(line@[k].lat) && line@[k].lat.at_most(zones[i].bbox.north),
        forall|h: bool| call_ensures(G::crosses, (&ops, &zones[i].poly, &line), h) ==> h,
    ensures
        r matches Some(m) && (m < zones[i].minzoom || m == 0),
{
    let hits = choose|hits: Seq<bool>| #[trigger]
        line_hits(ops, zones, line, hits) && r == last_before(lowest_hit(zones, hits, zones.len() as int));
    coarsest_zone_takes_over(zones, hits, zones.len() as int);
    hull_holds_its_points(line@, line@.len() as int, k);
    assert(sides_overlap(Bbox::hull_of(line@, line@.len() as int), zones[i].bbox));
    assert(call_ensures(G::crosses, (&ops, &zones[i].poly, &line), hits[i]));
}

/// The last level of a line is the one before a finer chart whose area it was found
/// to cross.
pub proof fn a_line_gives_way_to_no_other_zone<G: RegionOps>(
    ops: G,
    zones: Seq<CoveredZone>,
    line: Vec<Position>,
    r: Option<u8>,
) -> (i: int)
    requires
        line_maxzoom(ops, zones, line, r),
        r is Some,
    ensures
        0 <= i < zones.len(),
        just_before(r->0, zones[i].minzoom),
        call_ensures(G::crosses, (&ops, &zones[i].poly, &line), true),
{
    let hits = choose|hits: Seq<bool>| #[trigger]
        line_hits(ops, zones, line, hits) && r == last_before(lowest_hit(zones, hits, zones.len() as int));
    let n = zones.len() as int;
    coarsest_zone_takes_over(zones, hits, n);
    let m = lowest_hit(zones, hits, n)->0;
    let i = choose|i: int| 0 <= i < n && hits[i] && (#[trigger] zones[i]).minzoom == m;
    assert(call_ensures(G::crosses, (&ops, &zones[i].poly, &line), hits[i]));
    i
}

proof fn lemma_share_is_a_part(zones: Seq<CoveredZone>, taken: Seq<Option<Region>>, n: int, k: int) -> (at: int)
    requires
        0 <= k < n <= zones.len(),
        taken.len() == zones.len(),
        taken[k] matches Some(share) && share@.len() > 0,
    ensures
        0 <= at < parts_taken(zones, taken, n).len(),
        parts_taken(zones, taken, n)[at].region == taken[k]->0,
        parts_taken(zones, taken, n)[at].maxzoom matches Some(m) && just_before(m, zones[zones.len() - 1 - k].minzoom),
    decreases n,
{
    let before = parts_taken(zones, taken, n - 1);
    if k < n - 1 {
        lemma_share_is_a_part(zones, taken, n - 1, k)
    } else {
        before.len() as int
    }
}

proof fn lemma_parts_are_solid(zones: Seq<CoveredZone>, taken: Seq<Option<Region>>, n: int)
    ensures
        forall|i: int|
            0 <= i < parts_taken(zones, taken, n).len() ==> (#[trigger] parts_taken(zones, taken, n)[i]).region@.len() > 0
                && parts_taken(zones, taken, n)[i].maxzoom is Some,
    decreases n,
{
    if n > 0 {
        lemma_parts_are_solid(zones, taken, n - 1);
        let before = parts_taken(zones, taken, n - 1);
        let after = parts_taken(zones, taken, n);
        assert forall|i: int| 0 <= i < after.len() implies (#[trigger] after[i]).region@.len() > 0
            && after[i].maxzoom is Some by {
            if i < before.len() {
                assert(after[i] == before[i]);
            }
        }
    }
}

proof fn lemma_solid_parts(parts: Seq<Part>, n: int)
    requires
        0 <= n <= parts.len(),
        forall|i: int| 0 <= i < parts.len() ==> (#[trigger] parts[i]).region@.len() > 0,
    ensures
        solid_parts(parts, n) == parts.take(n),
    decreases n,
{
    if n > 0 {
        lemma_solid_parts(parts, n - 1);
        assert(parts[n - 1].region@.len() > 0);
        assert(parts.take(n) =~= parts.take(n - 1).push(parts[n - 1]));
    } else {
        assert(parts.take(n) =~= Seq::empty());
    }
}

proof fn lemma_all_parts(zones: Seq<CoveredZone>, remaining: Seq<Region>, taken: Seq<Option<Region>>)
    requires
        taken.len() == zones.len(),
    ensures
        ({
            let parts = all_parts(zones, remaining, taken);
            let shares = parts_taken(zones, taken, zones.len() as int);
            &&& solid_parts(parts, parts.len() as int) == parts
            &&& shares.len() <= parts.len()
            &&& forall|i: int| 0 <= i < shares.len() ==> #[trigger] parts[i] == shares[i]
            &&& forall|i: int| 0 <= i < shares.len() ==> (#[trigger] shares[i]).maxzoom is Some
        }),
{
    let parts = all_parts(zones, remaining, taken);
    let shares = parts_taken(zones, taken, zones.len() as int);
    lemma_parts_are_solid(zones, taken, zones.len() as int);
    assert forall|i: int| 0 <= i < parts.len() implies (#[trigger] parts[i]).region@.len() > 0 by {
        if i < shares.len() {
            assert(parts[i] == shares[i]);
        }
    }
    lemma_solid_parts(parts, parts.len() as int);
    assert(parts.take(parts.len() as int) =~= parts);
}

/// What a zone takes of a polygon becomes a feature of its own, with that geometry,
/// which is last shown before the chart of the zone begins. The zones take in the
/// reverse of the order in which they are given.
pub proof fn every_share_becomes_a_piece(
    zones: Seq<CoveredZone>,
    remaining: Seq<Region>,
    taken: Seq<Option<Region>>,
    pieces: Seq<QuiltPiece>,
    k: int,
) -> (at: int)
    requires
        taken.len() == zones.len(),
        polygon_pieces(all_parts(zones, remaining, taken), pieces),
        0 <= k < zones.len(),
        taken[k] matches Some(share) && share@.len() > 0,
    ensures
        0 <= at < pieces.len(),
        pieces[at].maxzoom matches Some(m) && just_before(m, zones[zones.len() - 1 - k].minzoom),
        pieces[at].geometry matches Some(g) && is_geometry_of(taken[k]->0, g),
{
    let parts = all_parts(zones, remaining, taken);
    lemma_all_parts(zones, remaining, taken);
    let at = lemma_share_is_a_part(zones, taken, zones.len() as int, k);
    let shares = parts_taken(zones, taken, zones.len() as int);
    assert(parts[at] == shares[at]);
    assert(pieces[at].maxzoom == parts[at].maxzoom);
    at
}

/// What no zone takes of a polygon stays, without a last level: as the feature was,
/// where nothing was taken, and as a last piece with that geometry otherwise.
pub proof fn what_remains_stays(
    zones: Seq<CoveredZone>,
    remaining: Seq<Region>,
    taken: Seq<Option<Region>>,
    pieces: Seq<QuiltPiece>,
)
    requires
        taken.len() == zones.len(),
        polygon_pieces(all_parts(zones, remaining, taken), pieces),
        remaining.last()@.len() > 0,
    ensures
        pieces.len() > 0,
        pieces.last().maxzoom is None,
        (forall|k: int| 0 <= k < zones.len() && (#[trigger] taken[k]) is Some ==> taken[k]->0@.len() == 0)
            ==> pieces.len() == 1 && pieces[0].geometry is None,
        pieces.len() > 1 ==> (pieces.last().geometry matches Some(g) && is_geometry_of(remaining.last(), g)),
{
    let parts = all_parts(zones, remaining, taken);
    let shares = parts_taken(zones, taken, zones.len() as int);
    lemma_all_parts(zones, remaining, taken);
    assert(parts.last().maxzoom is None);
    if forall|k: int| 0 <= k < zones.len() && (#[trigger] taken[k]) is Some ==> taken[k]->0@.len() == 0 {
        lemma_nothing_taken(zones, taken, zones.len() as int);
    }
    if parts.len() > 1 {
        assert(parts[0] == shares[0]);
        assert(pieces[pieces.len() - 1].maxzoom == parts[parts.len() - 1].maxzoom);
    }
}

proof fn lemma_nothing_taken(zones: Seq<CoveredZone>, taken: Seq<Option<Region>>, n: int)
    requires
        0 <= n <= taken.len(),
        forall|k: int| 0 <= k < taken.len() && (#[trigger] taken[k]) is Some ==> taken[k]->0@.len() == 0,
    ensures
        parts_taken(zones, taken, n).len() == 0,
    decreases n,
{
    if n > 0 {
        lemma_nothing_taken(zones, taken, n - 1);
        assert(taken[n - 1] is Some ==> taken[n - 1]->0@.len() == 0);
    }
}

proof fn lemma_places(pts: Seq<Vec<Real>>, n: int)
    requires
        0 <= n <= pts.len(),
        forall|i: int| 0 <= i < pts.len() ==> (#[trigger] pts[i])@.len() >= 2,
    ensures
        places(pts, n).len() == n,
        forall|i: int|
            0 <= i < n ==> (#[trigger] places(pts, n)[i]).lon == pts[i]@[0] && places(pts, n)[i].lat == pts[i]@[1],
    decreases n,
{
    if n > 0 {
        lemma_places(pts, n - 1);
        assert(pts[n - 1]@.len() >= 2);
        let before = places(pts, n - 1);
        let after = places(pts, n);
        assert forall|i: int| 0 <= i < n implies (#[trigger] after[i]).lon == pts[i]@[0] && after[i].lat == pts[i]@[1] by {
            if i < n - 1 {
                assert(after[i] == before[i]);
            }
        }
    }
}

/// Positions are read longitude first, in their order.
pub proof fn positions_are_read_longitude_first(pts: Seq<Vec<Real>>, i: int)
    requires
        0 <= i < pts.len(),
        forall|k: int| 0 <= k < pts.len() ==> (#[trigger] pts[k])@.len() >= 2,
    ensures
        places(pts, pts.len() as int).len() == pts.len(),
        places(pts, pts.len() as int)[i].lon == pts[i]@[0],
        places(pts, pts.len() as int)[i].lat == pts[i]@[1],
{
    lemma_places(pts, pts.len() as int);
}

/// A ring of positions is closed: its last position is equal to its first.
pub open spec fn ends_where_it_begins(ring: Seq<Vec<Real>>) -> bool {
    &&& ring.len() > 0
    &&& forall|k: int| 0 <= k < ring.len() ==> (#[trigger] ring[k])@.len() == 2
    &&& ring[0]@[0].equals(ring.last()@[0])
    &&& ring[0]@[1].equals(ring.last()@[1])
}

/// Reading a polygon and writing it again gives the same rings of the same
/// positions, exterior and holes, where its rings are closed.
pub proof fn a_polygon_survives_reading_and_writing(
    rings: Seq<Vec<Vec<Real>>>,
    poly: Polygon<Position>,
    out: Seq<Vec<Vec<Real>>>,
    i: int,
    k: int,
)
    requires
        rings.len() > 0,
        is_polygon_of(rings, poly),
        is_ring_list(poly, out),
        0 <= i < rings.len(),
        ends_where_it_begins(rings[i]@),
        0 <= k < rings[i]@.len(),
    ensures
        out.len() == rings.len(),
        out[i]@.len() == rings[i]@.len(),
        out[i]@[k]@ == rings[i]@[k]@,
{
    let ring = rings[i]@;
    let read = places(ring, ring.len() as int);
    lemma_places(ring, ring.len() as int);
    assert(read[0].lon == ring[0]@[0] && read[read.len() - 1].lon == ring[ring.len() - 1]@[0]);
    assert(read[0].coincides(read.last()));
    assert(poly@.interiors.len() == poly.interiors@.len());
    if i == 0 {
        assert(poly.exterior@ == read);
    } else {
        assert(lists(poly.interiors@)[i - 1] == poly.interiors@[i - 1]@);
        assert(hole_places(rings)[i - 1] == read);
        assert(poly.interiors@[i - 1]@ == read);
        assert(out[i - 1 + 1] == out[i]);
        assert(is_position_list(poly.interiors@[i - 1]@, out[i - 1 + 1]@));
    }
    assert(out[i]@[k]@ == seq![read[k].lon, read[k].lat]);
    assert(ring[k]@.len() == 2);
    assert(out[i]@[k]@ =~= ring[k]@);
}

/// A line stands where its middle position is: as many positions come before it as
/// after it, or one more.
pub proof fn a_line_stands_at_its_middle<G: RegionOps>(ops: G, line: Vec<Vec<Real>>, r: Option<Position>, k: int)
    requires
        is_representative(ops, GeoGeometry::LineString(line), r),
        0 <= k < line@.len(),
        k == line@.len() - 1 - k || k == line@.len() - k,
        line@[k]@.len() >= 2,
    ensures
        r matches Some(p) && p.lon == line@[k]@[0] && p.lat == line@[k]@[1],
{
}

/// A geometry of several parts stands where its first part alone would.
pub proof fn several_parts_stand_with_the_first<G: RegionOps>(
    ops: G,
    points: Vec<Vec<Real>>,
    lines: Vec<Vec<Vec<Real>>>,
    polys: Vec<Vec<Vec<Vec<Real>>>>,
    r: Option<Position>,
)
    ensures
        points@.len() > 0 ==> (is_representative(ops, GeoGeometry::MultiPoint(points), r) <==> is_representative(
            ops,
            GeoGeometry::Point(points@[0]),
            r,
        )),
        lines@.len() > 0 ==> (is_representative(ops, GeoGeometry::MultiLineString(lines), r) <==> is_representative(
            ops,
            GeoGeometry::LineString(lines@[0]),
            r,
        )),
        polys@.len() > 0 ==> (is_representative(ops, GeoGeometry::MultiPolygon(polys), r) <==> is_representative(
            ops,
            GeoGeometry::Polygon(polys@[0]),
            r,
        )),
{
}

/// A polygon stands at the mean of its exterior, whatever its holes are, and a point
/// at its own place.
pub proof fn a_polygon_stands_at_its_mean<G: RegionOps>(
    ops: G,
    rings: Vec<Vec<Vec<Real>>>,
    p: Vec<Real>,
    r: Option<Position>,
)
    ensures
        rings@.len() > 0 && rings@[0]@.len() > 0 && is_representative(ops, GeoGeometry::Polygon(rings), r) ==> (
        r matches Some(q) && call_ensures(G::centroid, (&ops, &rings@[0]), q)),
        p@.len() >= 2 && is_representative(ops, GeoGeometry::Point(p), r) ==> (r matches Some(q) && q.lon == p@[0]
            && q.lat == p@[1]),
{
}

proof fn lemma_ring_kept(rings: Seq<Vec<Position>>, n: int, i: int) -> (at: int)
    requires
        0 <= i < n <= rings.len(),
        rings[i]@.len() > 0,
    ensures
        0 <= at < ring_polygons(rings, n).len(),
        ring_polygons(rings, n)[at] == rings[i]@,
    decreases n,
{
    let before = ring_polygons(rings, n - 1);
    if i < n - 1 {
        lemma_ring_kept(rings, n - 1, i)
    } else {
        before.len() as int
    }
}

/// Every ring that has points becomes a polygon without holes that begins with the
/// points of the ring.
pub proof fn every_ring_becomes_a_polygon(rings: Seq<Vec<Position>>, r: Seq<Polygon<Position>>, i: int) -> (at: int)
    requires
        is_plain(r, ring_polygons(rings, rings.len() as int)),
        0 <= i < rings.len(),
        rings[i]@.len() > 0,
    ensures
        0 <= at < r.len() <= rings.len(),
        r[at].interiors@.len() == 0,
        rings[i]@.is_prefix_of(r[at].exterior@),
        r[at].exterior@.len() <= rings[i]@.len() + 1,
{
    let n = rings.len() as int;
    let at = lemma_ring_kept(rings, n, i);
    lemma_ring_count(rings, n);
    assert(r[at]@ == polygon_of(ring_polygons(rings, n)[at], Seq::empty()));
    assert(r[at]@.interiors.len() == 0);
    assert(lists(r[at].interiors@).len() == r[at].interiors@.len());
    let out = r[at].exterior@;
    assert(rings[i]@ =~= out.subrange(0, rings[i]@.len() as int));
    at
}

proof fn lemma_ring_count(rings: Seq<Vec<Position>>, n: int)
    ensures
        ring_polygons(rings, n).len() <= if n < 0 { 0 } else { n },
    decreases n,
{
    if n > 0 {
        lemma_ring_count(rings, n - 1);
    }
}

/// The area of a chart that covers all of its bounds is one polygon without holes,
/// and the rectangle around it is the bounds.
pub proof fn a_zone_fills_its_bounds<G: RegionOps>(ops: G, bounds: Bbox, uncovered: Seq<Vec<Position>>, zone: Region)
    requires
        is_zone(ops, bounds, uncovered, zone),
        uncovered.len() == 0,
        bounds.west.below(bounds.east),
        bounds.south.below(bounds.north),
    ensures
        zone@.len() == 1,
        zone@[0].interiors@.len() == 0,
        bounds_of_region(zone@) == Some(bounds),
{
    lemma_rectangle_bounds(bounds, zone);
}

proof fn lemma_rectangle_bounds(bounds: Bbox, zone: Region)
    requires
        is_plain(zone@, seq![rectangle(bounds)]),
        bounds.west.below(bounds.east),
        bounds.south.below(bounds.north),
    ensures
        zone@.len() == 1,
        zone@[0].interiors@.len() == 0,
        bounds_of_region(zone@) == Some(bounds),
{
    let ring = rectangle(bounds);
    assert(zone@[0]@ == polygon_of(ring, Seq::empty()));
    assert(lists(zone@[0].interiors@).len() == zone@[0].interiors@.len());
    assert(zone@[0]@.interiors.len() == 0);
    assert(zone@[0].exterior@ == ring);
    reveal_with_fuel(exterior_points, 3);
    assert(exterior_points(zone@, 1) =~= ring);
    reveal_with_fuel(Bbox::hull_of, 6);
    assert(Bbox::hull_of(ring, 5) == bounds);
}

/// The area of a chart with uncovered rings has the points of its bounds that lie in
/// none of these rings, where differences are exact.
pub proof fn a_zone_leaves_out_uncovered_rings<P, G: RegionOps>(
    ops: G,
    holds: spec_fn(Region, P) -> bool,
    bounds: Bbox,
    uncovered: Seq<Vec<Position>>,
    zone: Region,
) -> (wh: (Region, Region))
    requires
        exact_regions(ops, holds),
        is_zone(ops, bounds, uncovered, zone),
        uncovered.len() > 0,
        bounds.west.below(bounds.east),
        bounds.south.below(bounds.north),
    ensures
        wh.0@.len() == 1,
        wh.0@[0].interiors@.len() == 0,
        bounds_of_region(wh.0@) == Some(bounds),
        is_plain(wh.1@, ring_polygons(uncovered, uncovered.len() as int)),
        forall|p: P| #[trigger] holds(zone, p) <==> holds(wh.0, p) && !holds(wh.1, p),
{
    let (whole, holes) = choose|whole: Region, holes: Region| #[trigger]
        call_ensures(G::difference, (&ops, &whole, &holes), zone) && is_plain(whole@, seq![rectangle(bounds)])
            && is_plain(holes@, ring_polygons(uncovered, uncovered.len() as int));
    lemma_rectangle_bounds(bounds, whole);
    (whole, holes)
}

/// Giving a feature a last zoom level changes no other member and no other hint, and
/// the level is read as it was given.
pub proof fn a_last_level_changes_nothing_else(
    members: Seq<(Seq<char>, JsonView)>,
    hints: Seq<(Seq<char>, JsonView)>,
    maxzoom: u8,
    other: Seq<char>,
    hint: Seq<char>,
)
    requires
        lookup(members, "tippecanoe"@) == Some(JsonView::Object(hints)),
        other != "tippecanoe"@,
        hint != "maxzoom"@,
    ensures
        lookup(with_maxzoom(members, maxzoom), other) == lookup(members, other),
        lookup(with_maxzoom(members, maxzoom), "tippecanoe"@) matches Some(JsonView::Object(after)) && lookup(
            after,
            hint,
        ) == lookup(hints, hint) && (lookup(after, "maxzoom"@) matches Some(JsonView::Number(t)) && spelled(t)
            == maxzoom),
{
    let level = JsonView::Number(digits_of(maxzoom as int));
    let after = updated(hints, "maxzoom"@, level);
    set_key_is_seen(hints, "maxzoom"@, level, hint);
    set_key_is_seen(members, "tippecanoe"@, JsonView::Object(after), other);
    decimal_forms_spell_their_number(maxzoom as int);
}

/// A feature without finer charts, or without a geometry, stays as it is.
pub proof fn without_zones_a_feature_stays<G: RegionOps>(
    ops: G,
    zones: Seq<CoveredZone>,
    g: Option<GeoGeometry>,
    pieces: Seq<QuiltPiece>,
)
    requires
        quilted(ops, zones, g, pieces),
        zones.len() == 0 || g is None,
    ensures
        pieces.len() == 1,
        pieces[0].geometry is None,
        pieces[0].maxzoom is None,
{
}

/// A point becomes one feature of its geometry, with the level that its place has.
pub proof fn points_are_judged_by_their_place<G: RegionOps>(
    ops: G,
    zones: Seq<CoveredZone>,
    p: Vec<Real>,
    pieces: Seq<QuiltPiece>,
)
    requires
        quilted(ops, zones, Some(GeoGeometry::Point(p)), pieces),
        zones.len() > 0,
        p@.len() >= 2,
    ensures
        pieces.len() == 1,
        pieces[0].geometry is None,
        point_maxzoom(ops, zones, Position { lon: p@[0], lat: p@[1] }, pieces[0].maxzoom),
{
}

/// A line becomes one feature of its geometry, with the level of the line that its
/// positions make.
pub proof fn lines_are_judged_by_their_course<G: RegionOps>(
    ops: G,
    zones: Seq<CoveredZone>,
    pts: Vec<Vec<Real>>,
    pieces: Seq<QuiltPiece>,
) -> (line: Vec<Position>)
    requires
        quilted(ops, zones, Some(GeoGeometry::LineString(pts)), pieces),
        zones.len() > 0,
        forall|k: int| 0 <= k < pts@.len() ==> (#[trigger] pts@[k])@.len() >= 2,
    ensures
        pieces.len() == 1,
        pieces[0].geometry is None,
        line@.len() == pts@.len(),
        forall|k: int| 0 <= k < line@.len() ==> (#[trigger] line@[k]).lon == pts@[k]@[0] && line@[k].lat == pts@[k]@[1],
        line_maxzoom(ops, zones, line, pieces[0].maxzoom),
{
    let m = choose|m: Option<u8>| #[trigger] positions_maxzoom(ops, zones, pts@, m) && whole_feature(pieces, m);
    let line = choose|line: Vec<Position>| #[trigger]
        line_maxzoom(ops, zones, line, m) && line@ == places(pts@, pts@.len() as int);
    lemma_places(pts@, pts@.len() as int);
    line
}

/// Several lines become one feature of their geometry, with the lowest of the levels
/// that the lines have by themselves.
pub proof fn several_lines_have_the_lowest_level<G: RegionOps>(
    ops: G,
    zones: Seq<CoveredZone>,
    lines: Vec<Vec<Vec<Real>>>,
    pieces: Seq<QuiltPiece>,
) -> (levels: Seq<Option<u8>>)
    requires
        quilted(ops, zones, Some(GeoGeometry::MultiLineString(lines)), pieces),
        zones.len() > 0,
    ensures
        pieces.len() == 1,
        pieces[0].geometry is None,
        levels.len() == lines@.len(),
        forall|i: int| 0 <= i < levels.len() ==> positions_maxzoom(ops, zones, lines@[i]@, #[trigger] levels[i]),
        match pieces[0].maxzoom {
            Some(m) => levels.contains(Some(m)) && forall|i: int|
                0 <= i < levels.len() && (#[trigger] levels[i]) is Some ==> m <= levels[i]->0,
            None => forall|i: int| 0 <= i < levels.len() ==> (#[trigger] levels[i]) is None,
        },
{
    let levels = choose|levels: Seq<Option<u8>>| #[trigger]
        lines_maxzoom(ops, zones, lines@, levels) && whole_feature(pieces, lowest_of(levels, levels.len() as int));
    lowest_level_of_lines(levels, levels.len() as int);
    levels
}

/// A polygon is read whole and divided among the zones; its pieces are those of the
/// division.
pub proof fn polygons_are_divided<G: RegionOps>(
    ops: G,
    zones: Seq<CoveredZone>,
    rings: Vec<Vec<Vec<Real>>>,
    pieces: Seq<QuiltPiece>,
) -> (at: (Seq<Region>, Seq<Option<Region>>))
    requires
        quilted(ops, zones, Some(GeoGeometry::Polygon(rings)), pieces),
        zones.len() > 0,
        rings@.len() > 0,
        rings@[0]@.len() > 0,
    ensures
        is_split(ops, zones, at.0, at.1),
        at.0[0]@.len() == 1,
        is_polygon_of(rings@, at.0[0]@[0]),
        polygon_pieces(all_parts(zones, at.0, at.1), pieces),
{
    let (area, remaining, taken) = choose|area: Region, remaining: Seq<Region>, taken: Seq<Option<Region>>|
        #![trigger is_split(ops, zones, remaining, taken), area@]
        area@.len() == 1 && is_polygon_of(rings@, area@[0]) && is_split(ops, zones, remaining, taken) && remaining[0]
            == area && polygon_pieces(all_parts(zones, remaining, taken), pieces);
    (remaining, taken)
}

/// A zone is passed over only where nothing remains, or where the rectangle around
/// what remains lies apart from that of the zone; then nothing changes. Any other
/// zone takes a share.
pub proof fn only_zones_that_lie_apart_are_passed_over<G: RegionOps>(
    ops: G,
    zones: Seq<CoveredZone>,
    remaining: Seq<Region>,
    taken: Seq<Option<Region>>,
    k: int,
)
    requires
        is_split(ops, zones, remaining, taken),
        0 <= k < zones.len(),
        bounds_of_region(remaining[k]@) matches Some(b) ==> b.regular(),
        zones[zones.len() - 1 - k].bbox.regular(),
    ensures
        taken[k] is None <==> remaining[k]@.len() == 0 || (bounds_of_region(remaining[k]@) matches Some(b) && ({
            let z = zones[zones.len() - 1 - k].bbox;
            b.east.below(z.west) || z.east.below(b.west) || b.north.below(z.south) || z.north.below(b.south)
        })),
        taken[k] is None ==> remaining[k + 1] == remaining[k],
{
    assert(split_step(ops, coarsest_first(zones, k), remaining[k], taken[k], remaining[k + 1]));
}

/// A feature without hints gets hints with the last level alone; a member of that name
/// that is no object stays as it is.
pub proof fn a_last_level_needs_hints(members: Seq<(Seq<char>, JsonView)>, maxzoom: u8)
    ensures
        lookup(members, "tippecanoe"@) is None ==> (lookup(with_maxzoom(members, maxzoom), "tippecanoe"@) matches Some(
            JsonView::Object(after),
        ) && after.len() == 1 && after[0].0 == "maxzoom"@ && (after[0].1 matches JsonView::Number(t) && spelled(t)
            == maxzoom)),
        lookup(members, "tippecanoe"@) matches Some(j) && !(j is Object) ==> with_maxzoom(members, maxzoom) == members,
{
    let level = JsonView::Number(digits_of(maxzoom as int));
    set_key_is_seen(members, "tippecanoe"@, JsonView::Object(seq![("maxzoom"@, level)]), "tippecanoe"@);
    decimal_forms_spell_their_number(maxzoom as int);
}

/// An area of one polygon is written as a polygon and any other as several: polygon by
/// polygon and ring by ring, the exterior before the holes, places longitude first.
pub proof fn areas_are_written_ring_by_ring(region: Region, g: GeoGeometry, i: int, j: int, k: int)
    requires
        is_geometry_of(region, g),
        0 <= i < region@.len(),
    ensures
        region@.len() == 1 <==> g is Polygon,
        region@.len() != 1 <==> g is MultiPolygon,
        g matches GeoGeometry::MultiPolygon(polys) ==> polys@.len() == region@.len(),
        ({
            let rings = match g {
                GeoGeometry::Polygon(rings) => rings@,
                GeoGeometry::MultiPolygon(polys) => polys@[i]@,
                _ => Seq::empty(),
            };
            &&& rings.len() == region@[i].interiors@.len() + 1
            &&& rings[0]@.len() == region@[i].exterior@.len()
            &&& 0 <= k < rings[0]@.len() ==> rings[0]@[k]@.len() == 2 && rings[0]@[k]@[0] == region@[i].exterior@[k].lon
                && rings[0]@[k]@[1] == region@[i].exterior@[k].lat
            &&& 0 <= j < region@[i].interiors@.len() ==> {
                &&& rings[j + 1]@.len() == region@[i].interiors@[j]@.len()
                &&& 0 <= k < rings[j + 1]@.len() ==> rings[j + 1]@[k]@.len() == 2 && rings[j + 1]@[k]@[0]
                    == region@[i].interiors@[j]@[k].lon && rings[j + 1]@[k]@[1] == region@[i].interiors@[j]@[k].lat
            }
        }),
{
    let rings = match g {
        GeoGeometry::Polygon(rings) => rings@,
        GeoGeometry::MultiPolygon(polys) => polys@[i]@,
        _ => Seq::empty(),
    };
    assert(is_ring_list(region@[i], rings));
    if 0 <= k < rings[0]@.len() {
        assert(rings[0]@[k]@ == seq![region@[i].exterior@[k].lon, region@[i].exterior@[k].lat]);
    }
    if 0 <= j < region@[i].interiors@.len() {
        assert(is_position_list(region@[i].interiors@[j]@, rings[j + 1]@));
        if 0 <= k < rings[j + 1]@.len() {
            let p = region@[i].interiors@[j]@[k];
            assert(rings[j + 1]@[k]@ == seq![p.lon, p.lat]);
        }
    }
}

} // verus!
