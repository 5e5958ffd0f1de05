use geo::{BooleanOps, Contains, Intersects, LineString, MultiPolygon, Point};
use quilt_tiler::bbox::Bbox;
use quilt_tiler::json::Json;
use quilt_tiler::quilt::{
    add_maxzoom, build_effective_zone, geojson_rings_to_geo_poly, maxzoom_for_line,
    maxzoom_for_point, multipoly_to_geojson_value, quilt_feature, rects_overlap,
    representative_point, rings_to_multipoly, split_polygon_for_zones, CoveredZone, GeoGeometry,
    RegionOps,
};
use quilt_tiler::region::{bounding_rect, Region};
use quilt_tiler::s57::Polygon;
use quilt_tiler::scalar::{Position, Real};

fn r(v: f64) -> Real {
    Real::from_bits(v.to_bits())
}

fn f(v: Real) -> f64 {
    f64::from_bits(v.bits)
}

fn at(lon: f64, lat: f64) -> Position {
    Position {
        lon: r(lon),
        lat: r(lat),
    }
}

fn line_string(ring: &[Position]) -> LineString {
    LineString::from(
        ring.iter()
            .map(|p| [f(p.lon), f(p.lat)])
            .collect::<Vec<[f64; 2]>>(),
    )
}

fn to_geo(region: &Region) -> MultiPolygon {
    MultiPolygon::new(
        region
            .iter()
            .map(|p| {
                geo::Polygon::new(
                    line_string(&p.exterior),
                    p.interiors.iter().map(|i| line_string(i)).collect(),
                )
            })
            .collect(),
    )
}

fn from_line(l: &LineString) -> Vec<Position> {
    l.coords().map(|c| at(c.x, c.y)).collect()
}

fn from_geo(mp: &MultiPolygon) -> Region {
    mp.0.iter()
        .map(|p| Polygon {
            exterior: from_line(p.exterior()),
            interiors: p.interiors().iter().map(from_line).collect(),
        })
        .collect()
}

struct Plane;

impl RegionOps for Plane {
    fn contains(&self, region: &Region, p: Position) -> bool {
        to_geo(region).contains(&Point::new(f(p.lon), f(p.lat)))
    }

    fn crosses(&self, region: &Region, line: &Vec<Position>) -> bool {
        to_geo(region).intersects(&line_string(line))
    }

    fn intersection(&self, a: &Region, b: &Region) -> Region {
        from_geo(&to_geo(a).intersection(&to_geo(b)))
    }

    fn difference(&self, a: &Region, b: &Region) -> Region {
        from_geo(&to_geo(a).difference(&to_geo(b)))
    }

    fn centroid(&self, ring: &Vec<Vec<Real>>) -> Position {
        let n = ring.len() as f64;
        let sx: f64 = ring.iter().map(|p| f(p[0])).sum();
        let sy: f64 = ring.iter().map(|p| f(p[1])).sum();
        at(sx / n, sy / n)
    }
}

fn rect(w: f64, s: f64, e: f64, n: f64) -> Bbox {
    Bbox {
        west: r(w),
        south: r(s),
        east: r(e),
        north: r(n),
    }
}

fn zone(w: f64, s: f64, e: f64, n: f64, minzoom: u8) -> CoveredZone {
    let region = build_effective_zone(&Plane, rect(w, s, e, n), &vec![]);
    CoveredZone::new(region, minzoom).expect("a zone has an area")
}

fn pos(lon: f64, lat: f64) -> Vec<Real> {
    vec![r(lon), r(lat)]
}

fn square(w: f64, s: f64, e: f64, n: f64) -> Vec<Vec<Real>> {
    vec![pos(w, s), pos(e, s), pos(e, n), pos(w, n), pos(w, s)]
}

#[test]
fn zones_are_bounds_without_uncovered_rings() {
    assert!(build_effective_zone(&Plane, rect(1.0, 0.0, 1.0, 5.0), &vec![]).is_empty());
    assert!(build_effective_zone(&Plane, rect(0.0, 6.0, 1.0, 5.0), &vec![]).is_empty());
    let plain = build_effective_zone(&Plane, rect(0.0, 0.0, 10.0, 10.0), &vec![]);
    assert_eq!(plain.len(), 1);
    assert_eq!(plain[0].exterior[0], at(0.0, 0.0));
    let hole = vec![at(4.0, 4.0), at(6.0, 4.0), at(6.0, 6.0), at(4.0, 6.0)];
    let holed = build_effective_zone(&Plane, rect(0.0, 0.0, 10.0, 10.0), &vec![hole, vec![]]);
    assert!(!Plane.contains(&holed, at(5.0, 5.0)));
    assert!(Plane.contains(&holed, at(2.0, 2.0)));
    assert!(CoveredZone::new(vec![], 3).is_none());
}

#[test]
fn rings_without_points_make_no_polygon() {
    let region = rings_to_multipoly(&vec![vec![], vec![at(1.0, 2.0)]]);
    assert_eq!(region.len(), 1);
    assert_eq!(region[0].exterior, vec![at(1.0, 2.0)]);
    assert_eq!(bounding_rect(&region), Some(rect(1.0, 2.0, 1.0, 2.0)));
    assert_eq!(bounding_rect(&vec![]), None);
}

#[test]
fn the_coarsest_covering_zone_takes_over() {
    // Finest first.
    let zones = vec![
        zone(0.0, 0.0, 10.0, 10.0, 15),
        zone(0.0, 0.0, 5.0, 10.0, 14),
    ];
    assert_eq!(maxzoom_for_point(&Plane, &zones, at(2.0, 2.0)), Some(13));
    assert_eq!(maxzoom_for_point(&Plane, &zones, at(7.0, 2.0)), Some(14));
    assert_eq!(maxzoom_for_point(&Plane, &zones, at(70.0, 2.0)), None);
    let across = vec![at(8.0, 8.0), at(20.0, 8.0)];
    assert_eq!(maxzoom_for_line(&Plane, &zones, &across), Some(14));
    assert_eq!(maxzoom_for_line(&Plane, &zones, &vec![]), None);
    assert_eq!(
        maxzoom_for_point(&Plane, &vec![zone(0.0, 0.0, 1.0, 1.0, 0)], at(0.5, 0.5)),
        Some(0)
    );
}

#[test]
fn rectangles_overlap_at_their_edges() {
    let a = rect(0.0, 0.0, 1.0, 1.0);
    assert!(rects_overlap(&a, &rect(1.0, 1.0, 2.0, 2.0)));
    assert!(!rects_overlap(&a, &rect(1.5, 0.0, 2.0, 1.0)));
}

#[test]
fn polygons_are_divided_coarsest_zone_first() {
    let zones = vec![
        zone(0.0, 0.0, 10.0, 10.0, 15),
        zone(0.0, 0.0, 5.0, 10.0, 14),
        zone(50.0, 0.0, 55.0, 10.0, 12),
    ];
    let area = from_geo(&to_geo(&rings_to_multipoly(&vec![vec![
        at(0.0, 0.0),
        at(20.0, 0.0),
        at(20.0, 10.0),
        at(0.0, 10.0),
    ]])));
    let parts = split_polygon_for_zones(&Plane, area, &zones);
    let levels: Vec<Option<u8>> = parts.iter().map(|p| p.maxzoom).collect();
    assert_eq!(levels, vec![Some(13), Some(14), None]);
    assert!(Plane.contains(&parts[0].region, at(2.0, 5.0)));
    assert!(Plane.contains(&parts[1].region, at(7.0, 5.0)));
    assert!(Plane.contains(&parts[2].region, at(15.0, 5.0)));
    assert!(!Plane.contains(&parts[1].region, at(2.0, 5.0)));
}

#[test]
fn features_in_open_territory_are_unchanged() {
    let zones = vec![zone(0.0, 0.0, 10.0, 10.0, 14)];
    let kept = |g: Option<GeoGeometry>, zones: &Vec<CoveredZone>| {
        let pieces = quilt_feature(&Plane, &g, zones);
        pieces.len() == 1 && pieces[0].geometry.is_none() && pieces[0].maxzoom.is_none()
    };
    assert!(kept(Some(GeoGeometry::Point(pos(5.0, 5.0))), &vec![]));
    assert!(kept(Some(GeoGeometry::Point(pos(50.0, 5.0))), &zones));
    assert!(kept(Some(GeoGeometry::Point(vec![r(5.0)])), &zones));
    assert!(kept(None, &zones));
    assert!(kept(Some(GeoGeometry::Other), &zones));
    assert!(kept(
        Some(GeoGeometry::Polygon(vec![square(20.0, 0.0, 30.0, 10.0)])),
        &zones
    ));
    assert!(kept(Some(GeoGeometry::Polygon(vec![])), &zones));
    assert!(kept(Some(GeoGeometry::LineString(vec![])), &zones));
}

#[test]
fn points_and_lines_hand_over_to_the_finer_chart() {
    let zones = vec![
        zone(100.0, 0.0, 110.0, 10.0, 16),
        zone(0.0, 0.0, 10.0, 10.0, 14),
    ];
    let level = |g: GeoGeometry| {
        let pieces = quilt_feature(&Plane, &Some(g), &zones);
        assert_eq!(pieces.len(), 1);
        assert!(pieces[0].geometry.is_none());
        pieces[0].maxzoom
    };
    assert_eq!(level(GeoGeometry::Point(pos(5.0, 5.0))), Some(13));
    assert_eq!(
        level(GeoGeometry::MultiPoint(vec![pos(5.0, 5.0), pos(99.0, 1.0)])),
        Some(13)
    );
    // The middle lies outside, but the line crosses the zone.
    assert_eq!(
        level(GeoGeometry::LineString(vec![
            pos(5.0, 5.0),
            pos(50.0, 5.0),
            pos(60.0, 5.0)
        ])),
        Some(13)
    );
    // Of several lines the lowest level counts.
    assert_eq!(
        level(GeoGeometry::MultiLineString(vec![
            vec![pos(5.0, 5.0), pos(6.0, 5.0)],
            vec![pos(105.0, 5.0), pos(106.0, 5.0)],
            vec![pos(205.0, 5.0), pos(206.0, 5.0)],
        ])),
        Some(13)
    );
    assert_eq!(
        level(GeoGeometry::MultiPolygon(vec![vec![square(
            1.0, 1.0, 3.0, 3.0
        )]])),
        Some(13)
    );
}

#[test]
fn polygons_across_a_zone_become_several_features() {
    let zones = vec![zone(0.0, 0.0, 10.0, 10.0, 14)];
    let g = Some(GeoGeometry::Polygon(vec![square(5.0, 0.0, 20.0, 10.0)]));
    let pieces = quilt_feature(&Plane, &g, &zones);
    assert_eq!(pieces.len(), 2);
    assert_eq!(pieces[0].maxzoom, Some(13));
    assert_eq!(pieces[1].maxzoom, None);
    assert!(matches!(
        pieces[0].geometry,
        Some(GeoGeometry::Polygon(_))
    ));
    assert!(matches!(
        pieces[1].geometry,
        Some(GeoGeometry::Polygon(_))
    ));
}

#[test]
fn representative_points() {
    let at_of = |g: GeoGeometry| representative_point(&Plane, &g);
    assert_eq!(
        at_of(GeoGeometry::LineString(vec![
            pos(1.0, 1.0),
            pos(2.0, 2.0),
            pos(3.0, 3.0),
            pos(4.0, 4.0)
        ])),
        Some(at(3.0, 3.0))
    );
    assert_eq!(
        at_of(GeoGeometry::MultiLineString(vec![vec![pos(9.0, 8.0)]])),
        Some(at(9.0, 8.0))
    );
    assert_eq!(
        at_of(GeoGeometry::Polygon(vec![vec![
            pos(0.0, 0.0),
            pos(4.0, 0.0),
            pos(2.0, 6.0)
        ]])),
        Some(at(2.0, 2.0))
    );
    assert_eq!(at_of(GeoGeometry::MultiPoint(vec![])), None);
    assert_eq!(at_of(GeoGeometry::MultiPolygon(vec![vec![]])), None);
    assert_eq!(at_of(GeoGeometry::Polygon(vec![vec![]])), None);
}

#[test]
fn geometry_goes_through_both_ways() {
    let rings = vec![square(0.0, 0.0, 9.0, 9.0), square(1.0, 1.0, 2.0, 2.0)];
    let poly = geojson_rings_to_geo_poly(&rings).expect("a polygon");
    assert_eq!(poly.exterior.len(), 5);
    assert_eq!(poly.interiors.len(), 1);
    let region = vec![poly];
    let GeoGeometry::Polygon(back) = multipoly_to_geojson_value(&region) else {
        panic!("one polygon stays one");
    };
    assert_eq!(back, rings);
    assert!(matches!(
        multipoly_to_geojson_value(&vec![]),
        GeoGeometry::MultiPolygon(p) if p.is_empty()
    ));
    assert!(geojson_rings_to_geo_poly(&vec![vec![]]).is_none());
}

#[test]
fn zoom_levels_are_hints_for_the_tile_maker() {
    let mut members = vec![];
    add_maxzoom(&mut members, 13);
    assert_eq!(
        Json::object(members).compact().as_deref(),
        Some("{\"tippecanoe\":{\"maxzoom\":13}}")
    );
    let mut members = vec![
        Json::entry("a", Json::uint(1)),
        Json::entry(
            "tippecanoe",
            Json::object(vec![
                Json::entry("layer", Json::text("L")),
                Json::entry("maxzoom", Json::uint(3)),
            ]),
        ),
    ];
    add_maxzoom(&mut members, 9);
    assert_eq!(
        Json::object(members).compact().as_deref(),
        Some("{\"a\":1,\"tippecanoe\":{\"layer\":\"L\",\"maxzoom\":9}}")
    );
    let mut members = vec![Json::entry("tippecanoe", Json::text("odd"))];
    add_maxzoom(&mut members, 9);
    assert_eq!(
        Json::object(members).compact().as_deref(),
        Some("{\"tippecanoe\":\"odd\"}")
    );
}

#[test]
fn several_lines_hand_over_to_the_coarsest_zone() {
    let zones = vec![
        zone(10.0, 0.0, 11.0, 1.0, 15),
        zone(0.0, 0.0, 1.0, 1.0, 14),
    ];
    let level = |lines: Vec<Vec<Vec<Real>>>| {
        let g = Some(GeoGeometry::MultiLineString(lines));
        quilt_feature(&Plane, &g, &zones)[0].maxzoom
    };
    let coarse = || vec![pos(0.2, 0.5), pos(0.8, 0.5)];
    let fine = || vec![pos(10.2, 0.5), pos(10.8, 0.5)];
    assert_eq!(level(vec![coarse(), fine()]), Some(13));
    assert_eq!(level(vec![fine(), coarse()]), Some(13));
    assert_eq!(level(vec![fine()]), Some(14));
    assert_eq!(level(vec![vec![pos(50.0, 0.5), pos(51.0, 0.5)]]), None);
}
