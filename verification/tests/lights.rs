use geo::{BooleanOps, Coord, Intersects, LineString, MapCoords, MultiLineString, MultiPolygon, Point, Polygon};
use martin_tile_utils::wgs84_to_webmercator;
use quilt_tiler::layer::{Pixel, PixelShape, PropValue, RawFeature};
use quilt_tiler::lights::{is_lateral_or_cardinal_buoy, light_colour_hex};
use quilt_tiler::s57;
use quilt_tiler::s57::{Feature, Geometry, Sounding};
use quilt_tiler::s57_source::{
    build_props, feat_intersects, is_shown, light_sectors_to_features, push_features, render, Catalogue, TileCanvas,
};
use quilt_tiler::scalar::{Position, Real};
use quilt_tiler::senc::{AttrValue, Attribute};
use std::collections::HashMap;

fn r(v: f64) -> Real {
    Real::from_bits(v.to_bits())
}

fn f(v: Real) -> f64 {
    f64::from_bits(v.bits)
}

fn at(lon: f64, lat: f64) -> Position {
    Position {
        lon: r(lon),
        lat: r(lat),
    }
}

/// A rectangular tile with real geometry.
struct Tile {
    geom: MultiPolygon,
    merc: (f64, f64, f64, f64),
}

impl Tile {
    fn new(west: f64, south: f64, east: f64, north: f64) -> Tile {
        let (w_m, s_m) = wgs84_to_webmercator(west, south);
        let (e_m, n_m) = wgs84_to_webmercator(east, north);
        Tile {
            geom: MultiPolygon::new(vec![Polygon::new(
                LineString::from(vec![
                    [east, north],
                    [west, north],
                    [west, south],
                    [east, south],
                    [east, north],
                ]),
                vec![],
            )]),
            merc: (w_m, s_m, e_m, n_m),
        }
    }

    fn px(&self, c: Coord) -> Pixel {
        let (x_m, y_m) = wgs84_to_webmercator(c.x, c.y);
        let (w, s, e, n) = self.merc;
        Pixel {
            x: ((x_m - w) / (e - w) * 4096.0) as i32,
            y: ((n - y_m) / (n - s) * 4096.0) as i32,
        }
    }

    fn clip(&self, line: LineString) -> Vec<Vec<Pixel>> {
        let clipped = self.geom.clip(&MultiLineString::new(vec![line]), false);
        clipped
            .0
            .iter()
            .map(|l| l.coords().map(|c| self.px(*c)).collect())
            .collect()
    }
}

fn coord(p: Position) -> Coord {
    Coord {
        x: f(p.lon),
        y: f(p.lat),
    }
}

fn offset(c: Coord, bearing: f64, dist: f64) -> Coord {
    let d_lat = dist / 111_320.0;
    let d_lon = dist / (111_320.0 * c.y.to_radians().cos());
    let rad = (90.0 - bearing).to_radians();
    Coord {
        x: c.x + d_lon * rad.cos(),
        y: c.y + d_lat * rad.sin(),
    }
}

fn radius(range: Option<Real>) -> f64 {
    range.map_or(3.0, f).mul_add(50.0, 200.0).min(600.0)
}

impl TileCanvas for Tile {
    fn meets_point(&self, p: Position) -> bool {
        self.geom.intersects(&Point::from(coord(p)))
    }

    fn meets_line(&self, line: &Vec<Position>) -> bool {
        self.geom
            .intersects(&LineString::new(line.iter().map(|p| coord(*p)).collect()))
    }

    fn meets_area(&self, area: &s57::Polygon<Position>) -> bool {
        self.geom.intersects(&Polygon::new(
            LineString::new(area.exterior.iter().map(|p| coord(*p)).collect()),
            vec![],
        ))
    }

    fn meets_light(&self, p: Position, _range: Option<Real>) -> bool {
        self.meets_point(p)
    }

    fn pixel(&self, p: Position) -> Pixel {
        self.px(coord(p))
    }

    fn clip_line(&self, line: &Vec<Position>) -> Vec<Vec<Pixel>> {
        self.clip(LineString::new(line.iter().map(|p| coord(*p)).collect()))
    }

    fn clip_area(&self, area: &s57::Polygon<Position>) -> Vec<s57::Polygon<Pixel>> {
        let subject = Polygon::new(
            LineString::new(area.exterior.iter().map(|p| coord(*p)).collect()),
            vec![],
        );
        let clipped = subject.intersection(&self.geom);
        let px: geo::MultiPolygon<i32> = clipped.map_coords(|c| {
            let p = self.px(c);
            Coord { x: p.x, y: p.y }
        });
        px.0.iter()
            .map(|p| s57::Polygon {
                exterior: p
                    .exterior()
                    .coords()
                    .map(|c| Pixel { x: c.x, y: c.y })
                    .collect(),
                interiors: vec![],
            })
            .collect()
    }

    fn grid_cell(&self, p: Position) -> (i64, i64) {
        (
            (f(p.lon) * 1.0e7).round() as i64,
            (f(p.lat) * 1.0e7).round() as i64,
        )
    }

    fn reciprocal(&self, bearing: Real) -> Real {
        r((f(bearing) + 180.0) % 360.0)
    }

    fn arc(
        &self,
        p: Position,
        sector: Option<(Real, Real)>,
        range: Option<Real>,
    ) -> Vec<Vec<Pixel>> {
        let (from, to) = sector.map_or((0.0, 360.0), |(a, b)| (f(a), f(b)));
        let to = if to <= from { to + 360.0 } else { to };
        let steps = (((to - from) / 3.0).ceil() as usize).max(4);
        let pts = (0..=steps)
            .map(|i| {
                let brg = from + (to - from) * (i as f64 / steps as f64);
                offset(coord(p), brg, radius(range))
            })
            .collect();
        self.clip(LineString::new(pts))
    }

    fn radial(&self, p: Position, bearing: Real, range: Option<Real>) -> Vec<Vec<Pixel>> {
        let tip = offset(coord(p), f(bearing), radius(range) * 2.0);
        self.clip(LineString::new(vec![coord(p), tip]))
    }
}

/// A small square tile centered on a place, wide enough to contain any
/// light-sector arc.
fn test_tile_geom(lon: f64, lat: f64, margin: f64) -> Tile {
    Tile::new(lon - margin, lat - margin, lon + margin, lat + margin)
}

fn attr(code: u16, value: AttrValue) -> Attribute {
    Attribute { code, value }
}

fn kind_of(feat: &RawFeature) -> Option<&str> {
    feat.props.iter().find_map(|(k, v)| match v {
        PropValue::Str(Some(s)) if k == "kind" => Some(s.as_str()),
        _ => None,
    })
}

/// The features of a layer, if it is the one that the light went to.
fn layer_of(result: (&'static str, Vec<RawFeature>), name: &str) -> Vec<RawFeature> {
    if result.0 == name {
        result.1
    } else {
        Vec::new()
    }
}

#[test]
fn lateral_or_cardinal_buoy_predicate_matches_only_boylat_boycar() {
    assert!(is_lateral_or_cardinal_buoy("BOYLAT"));
    assert!(is_lateral_or_cardinal_buoy("BOYCAR"));
    assert!(!is_lateral_or_cardinal_buoy("BCNLAT"));
    assert!(!is_lateral_or_cardinal_buoy("BCNCAR"));
    assert!(!is_lateral_or_cardinal_buoy("LIGHTS"));
}

#[test]
fn buoy_light_without_sector_emits_no_circle_but_emits_flare() {
    let tile = test_tile_geom(10.0, 55.0, 0.1);
    let attrs = vec![attr(75, AttrValue::Str("1".into()))];
    let (layer, flare) = light_sectors_to_features(&tile, at(10.0, 55.0), &attrs, true);
    assert_eq!(
        layer, "LIGHTS_FLARE",
        "buoy-mounted all-round light must not draw a synthetic range circle"
    );
    assert_eq!(flare.len(), 1);
    assert!(flare[0]
        .props
        .iter()
        .any(|(k, v)| k == "COLOUR" && matches!(v, PropValue::Str(Some(s)) if s == "1")));
}

#[test]
fn flood_or_subsidiary_buoy_light_emits_neither_circle_nor_flare() {
    let tile = test_tile_geom(10.0, 55.0, 0.1);
    for catlit in [6_u32, 8_u32] {
        let attrs = vec![attr(37, AttrValue::Int(catlit))];
        let (_, rows) = light_sectors_to_features(&tile, at(10.0, 55.0), &attrs, true);
        assert!(
            rows.is_empty(),
            "CATLIT {catlit} (flood/subsidiary) must draw neither circle nor flare"
        );
    }
}

#[test]
fn flood_or_subsidiary_buoy_light_string_encoded_also_suppressed() {
    let tile = test_tile_geom(10.0, 55.0, 0.1);
    for catlit_str in ["6", "8"] {
        let attrs = vec![attr(37, AttrValue::Str(catlit_str.into()))];
        let (_, rows) = light_sectors_to_features(&tile, at(10.0, 55.0), &attrs, true);
        assert!(
            rows.is_empty(),
            "string-encoded CATLIT {catlit_str} must draw neither circle nor flare"
        );
    }
}

#[test]
fn buoy_light_outside_tile_emits_no_flare() {
    let far_away_tile = test_tile_geom(20.0, 55.0, 0.1);
    let result = light_sectors_to_features(&far_away_tile, at(10.0, 55.0), &vec![], true);
    assert!(layer_of(result, "LIGHTS_FLARE").is_empty());
}

#[test]
fn non_buoy_light_without_sector_still_emits_circle() {
    let tile = test_tile_geom(10.0, 55.0, 0.1);
    let result = light_sectors_to_features(&tile, at(10.0, 55.0), &vec![], false);
    let sector = layer_of(result, "LIGHTS_SECTOR");
    assert!(sector.iter().any(|f| kind_of(f) == Some("arc")));
}

#[test]
fn sector_bearings_are_drawn_reciprocal_to_seaward_convention() {
    let tile = test_tile_geom(10.0, 55.0, 0.1);
    let attrs = vec![
        attr(136, AttrValue::Double(r(0.0))),
        attr(137, AttrValue::Double(r(1.0))),
    ];
    let result = light_sectors_to_features(&tile, at(10.0, 55.0), &attrs, false);
    let sector = layer_of(result, "LIGHTS_SECTOR");
    let radial = sector
        .iter()
        .find(|f| kind_of(f) == Some("radial"))
        .expect("expected a radial boundary line");
    let PixelShape::Line(ls) = &radial.shape else {
        panic!("radial feature must be a line");
    };
    let center_px = tile.pixel(at(10.0, 55.0));
    let tip = ls[1];
    assert!(
        tip.y > center_px.y,
        "boundary ray for SECTR1=0° must point south (larger pixel y) \
         of the light, got tip={tip:?} center={center_px:?}"
    );
    assert!(
        (tip.x - center_px.x).abs() <= 2,
        "due-south ray should have ~zero east/west pixel offset, \
         got tip={tip:?} center={center_px:?}"
    );
}

#[test]
fn buoy_light_with_real_sector_still_emits_arc_and_radials() {
    let tile = test_tile_geom(10.0, 55.0, 0.1);
    let attrs = vec![
        attr(136, AttrValue::Double(r(10.0))),
        attr(137, AttrValue::Double(r(90.0))),
    ];
    let result = light_sectors_to_features(&tile, at(10.0, 55.0), &attrs, true);
    assert_eq!(
        result.0, "LIGHTS_SECTOR",
        "real sector data must still be drawn even on a buoy"
    );
    let sector = result.1;
    assert!(sector.iter().any(|f| kind_of(f) == Some("arc")));
    assert_eq!(
        sector
            .iter()
            .filter(|f| kind_of(f) == Some("radial"))
            .count(),
        2
    );
}

#[test]
fn light_colour_hex_white_renders_as_yellow() {
    assert_eq!(light_colour_hex("1"), "#ccaa00");
    assert_eq!(light_colour_hex(""), "#ccaa00");
}

#[test]
fn light_colours_by_first_code() {
    assert_eq!(light_colour_hex("3"), "#ee2222");
    assert_eq!(light_colour_hex(" 4\t,3"), "#22aa22");
    assert_eq!(light_colour_hex("5"), "#2255ee");
    assert_eq!(light_colour_hex("9,1"), "#cc8800");
    assert_eq!(light_colour_hex("11"), "#ee7700");
    assert_eq!(light_colour_hex("\u{3000}12\u{a0}"), "#cc22cc");
    assert_eq!(light_colour_hex("6"), "#ccaa00");
    assert_eq!(light_colour_hex("13"), "#ccaa00");
    assert_eq!(light_colour_hex("31"), "#ccaa00");
    assert_eq!(light_colour_hex(",3"), "#ccaa00");
}

fn catalogue() -> Catalogue {
    let objects: HashMap<u16, String> = [
        (75u16, "LIGHTS"),
        (17, "BOYLAT"),
        (129, "SOUNDG"),
        (30, "COALNE"),
        (42, "DEPARE"),
    ]
    .into_iter()
    .map(|(k, v)| (k, v.to_owned()))
    .collect();
    let attributes: HashMap<u16, String> = [(116u16, "OBJNAM"), (87, "DRVAL1")]
        .into_iter()
        .map(|(k, v)| (k, v.to_owned()))
        .collect();
    Catalogue {
        objects,
        attributes,
    }
}

fn feature(type_code: u16, attributes: Vec<Attribute>, geometry: Geometry) -> Feature {
    Feature {
        type_code,
        id: 1,
        primitive: 0,
        attributes,
        geometry,
    }
}

#[test]
fn attributes_without_acronym_are_left_out() {
    let attrs = vec![
        attr(116, AttrValue::Str("Vinga".into())),
        attr(9999, AttrValue::Int(1)),
        attr(87, AttrValue::Double(r(2.5))),
    ];
    let props = build_props(&attrs, &catalogue());
    assert_eq!(
        props,
        vec![
            ("OBJNAM".to_owned(), PropValue::Str(Some("Vinga".to_owned()))),
            ("DRVAL1".to_owned(), PropValue::F64(Some(r(2.5)))),
        ]
    );
}

#[test]
fn the_first_smallest_scale_decides() {
    assert!(is_shown(&vec![], 50_000));
    assert!(is_shown(&vec![attr(133, AttrValue::Int(50_000))], 50_000));
    assert!(!is_shown(&vec![attr(133, AttrValue::Int(49_999))], 50_000));
    assert!(is_shown(
        &vec![
            attr(133, AttrValue::Int(90_000)),
            attr(133, AttrValue::Int(1))
        ],
        50_000
    ));
    assert!(is_shown(
        &vec![attr(133, AttrValue::Str("1".into()))],
        50_000
    ));
}

#[test]
fn soundings_in_the_tile_become_points_with_their_depth() {
    let tile = Tile::new(0.0, 0.0, 10.0, 10.0);
    let f = feature(
        129,
        vec![],
        Geometry::Soundings(vec![
            Sounding {
                at: at(5.0, 5.0),
                depth: r(12.5),
            },
            Sounding {
                at: at(50.0, 5.0),
                depth: r(1.0),
            },
            Sounding {
                at: at(1.0, 1.0),
                depth: r(3.0),
            },
        ]),
    );
    let rows = push_features(&f, &tile, &catalogue(), 1);
    assert_eq!(rows.len(), 2);
    assert_eq!(
        rows[0].props,
        vec![("VALDCO".to_owned(), PropValue::F64(Some(r(12.5))))]
    );
    assert_eq!(
        rows[1].props,
        vec![("VALDCO".to_owned(), PropValue::F64(Some(r(3.0))))]
    );
}

#[test]
fn lines_and_areas_are_clipped_to_the_tile() {
    let tile = Tile::new(0.0, 0.0, 10.0, 10.0);
    let line = feature(
        30,
        vec![],
        Geometry::Line(vec![at(2.0, 5.0), at(8.0, 5.0), at(12.0, 5.0), at(8.0, 2.0)]),
    );
    let rows = push_features(&line, &tile, &catalogue(), 1);
    assert_eq!(rows.len(), 1);
    let PixelShape::MultiLine(strokes) = &rows[0].shape else {
        panic!("a line gives strokes");
    };
    assert_eq!(strokes.len(), 2);
    let outside = feature(
        30,
        vec![],
        Geometry::Line(vec![at(20.0, 20.0), at(30.0, 20.0)]),
    );
    assert!(push_features(&outside, &tile, &catalogue(), 1).is_empty());
    let area = feature(
        42,
        vec![],
        Geometry::Area(s57::Polygon {
            exterior: vec![at(-5.0, -5.0), at(5.0, -5.0), at(5.0, 5.0), at(-5.0, 5.0)],
            interiors: vec![],
        }),
    );
    let rows = push_features(&area, &tile, &catalogue(), 1);
    assert_eq!(rows.len(), 1);
    assert!(matches!(&rows[0].shape, PixelShape::MultiPolygon(p) if p.len() == 1));
}

#[test]
fn a_cell_is_rendered_by_layer() {
    let tile = Tile::new(0.0, 0.0, 10.0, 10.0);
    let features = vec![
        feature(17, vec![], Geometry::Point(at(5.0, 5.0))),
        // Unknown object class.
        feature(4000, vec![], Geometry::Point(at(5.0, 5.0))),
        // Outside the tile.
        feature(17, vec![], Geometry::Point(at(55.0, 5.0))),
        // On the buoy.
        feature(
            75,
            vec![attr(75, AttrValue::Str("3".into()))],
            Geometry::Point(at(5.0, 5.0)),
        ),
        // Stands alone.
        feature(75, vec![], Geometry::Point(at(2.0, 2.0))),
        // Too small for the scale.
        feature(
            75,
            vec![attr(133, AttrValue::Int(10))],
            Geometry::Point(at(3.0, 3.0)),
        ),
    ];
    let content = render(&features, &tile, &catalogue(), 1000);
    let layers: HashMap<String, usize> = content
        .into_layers()
        .into_iter()
        .map(|l| (l.name, l.features.len()))
        .collect();
    assert_eq!(layers.get("BOYLAT"), Some(&1));
    assert_eq!(layers.get("LIGHTS"), Some(&2));
    assert_eq!(layers.get("LIGHTS_FLARE"), Some(&1));
    assert_eq!(layers.get("LIGHTS_SECTOR"), Some(&1));
    assert_eq!(layers.len(), 4);
}

#[test]
fn features_meet_a_tile_by_their_geometry() {
    let tile = Tile::new(0.0, 0.0, 10.0, 10.0);
    let meets = |g: Geometry| feat_intersects(&feature(30, vec![], g), &tile);
    let depth = |lon: f64, lat: f64| Sounding {
        at: at(lon, lat),
        depth: r(1.0),
    };
    assert!(!meets(Geometry::Empty));
    assert!(meets(Geometry::Point(at(5.0, 5.0))));
    assert!(!meets(Geometry::Point(at(15.0, 5.0))));
    assert!(meets(Geometry::Soundings(vec![depth(15.0, 5.0), depth(5.0, 5.0)])));
    assert!(!meets(Geometry::Soundings(vec![depth(15.0, 5.0)])));
    assert!(!meets(Geometry::Soundings(vec![])));
    assert!(meets(Geometry::Line(vec![at(-5.0, 5.0), at(15.0, 5.0)])));
    assert!(!meets(Geometry::Line(vec![at(-5.0, 15.0), at(15.0, 15.0)])));
    let square = |v: f64| {
        Geometry::Area(s57::Polygon::new(
            vec![at(v, v), at(v + 4.0, v), at(v + 4.0, v + 4.0), at(v, v + 4.0)],
            vec![],
        ))
    };
    assert!(meets(square(8.0)));
    assert!(!meets(square(11.0)));
}

#[test]
fn hidden_features_leave_no_trace_in_a_tile() {
    let tile = Tile::new(0.0, 0.0, 10.0, 10.0);
    let scamin = |v: u32| vec![attr(133, AttrValue::Int(v))];
    let shown = || {
        vec![
            feature(17, vec![], Geometry::Point(at(5.0, 5.0))),
            feature(75, vec![], Geometry::Point(at(5.0, 5.0))),
        ]
    };
    let layers = |features: Vec<Feature>| {
        let mut out: Vec<(String, String)> = render(&features, &tile, &catalogue(), 1000)
            .into_layers()
            .into_iter()
            .filter(|l| !l.features.is_empty())
            .map(|l| (l.name, format!("{:?}", l.features)))
            .collect();
        out.sort();
        out
    };
    let mut hidden = shown();
    hidden.insert(1, feature(75, scamin(999), Geometry::Point(at(5.0, 5.0))));
    hidden.insert(0, feature(30, scamin(10), Geometry::Point(at(3.0, 3.0))));
    assert_eq!(layers(hidden), layers(shown()));
    let mut equal = shown();
    equal.push(feature(30, scamin(1000), Geometry::Point(at(3.0, 3.0))));
    assert!(layers(equal).iter().any(|(name, _)| name == "COALNE"));
}
