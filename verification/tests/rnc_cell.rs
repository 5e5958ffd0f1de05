use geo::{Area, Contains, LineString, MultiPolygon, Point, Polygon};
use image::RgbaImage;
use quilt_tiler::bbox::Bbox;
use quilt_tiler::edition_date::EditionDate;
use quilt_tiler::rnc::{CellError, RncCell, SubtileError};
use quilt_tiler::rnc_footer::{footer_start, normalize_cover, CoverItem, MercExtent, RncFooter};
use quilt_tiler::rnc_source::{encode, render, RasterCanvas};
use quilt_tiler::scalar::{Position, Real};
use quilt_tiler::style::TILE_PX;
use serde_json::Value;
use std::io::Cursor;

const MERC_SPHERE_BASE: f64 = 4.003_017_861_858_939_4e7;

fn r(v: f64) -> Real {
    Real::from_bits(v.to_bits())
}

fn f(v: Real) -> f64 {
    f64::from_bits(v.bits)
}

fn to_merc(lon: f64, lat: f64) -> (f64, f64) {
    let x = (lon + 180.0) / 360.0 * MERC_SPHERE_BASE;
    let y = lat
        .to_radians()
        .tan()
        .asinh()
        .mul_add(-1.0, std::f64::consts::PI)
        * MERC_SPHERE_BASE
        / (2.0 * std::f64::consts::PI);
    (x, y)
}

fn from_merc(x: f64, y: f64) -> (f64, f64) {
    let lon = (x / MERC_SPHERE_BASE).mul_add(360.0, -180.0);
    let inner = (2.0 * std::f64::consts::PI).mul_add(-(y / MERC_SPHERE_BASE), std::f64::consts::PI);
    (lon, inner.sinh().atan().to_degrees())
}

fn unproject(x: Real, y: Real) -> Position {
    let (lon, lat) = from_merc(f(x), f(y));
    Position {
        lon: r(lon),
        lat: r(lat),
    }
}

fn polygon(ring: &[Position]) -> Polygon {
    Polygon::new(
        LineString::from(
            ring.iter()
                .map(|p| [f(p.lon), f(p.lat)])
                .collect::<Vec<[f64; 2]>>(),
        ),
        vec![],
    )
}

fn has_area(ring: &Vec<Position>) -> bool {
    polygon(ring).unsigned_area() > 0.0
}

fn area_of(rings: &[Vec<Position>]) -> f64 {
    rings.iter().map(|ring| polygon(ring).unsigned_area()).sum()
}

fn number(v: f64) -> Value {
    Value::from(v)
}

fn flat(v: &[f64]) -> Value {
    Value::Array(v.iter().map(|x| number(*x)).collect())
}

fn footer_json(
    lon0: f64,
    lat0: f64,
    lon1: f64,
    lat1: f64,
    scale: f64,
    cover: Value,
) -> Vec<u8> {
    let mut m = serde_json::Map::new();
    m.insert("cover".to_owned(), cover);
    m.insert("lat0".to_owned(), number(lat0));
    m.insert("lat1".to_owned(), number(lat1));
    m.insert("lon0".to_owned(), number(lon0));
    m.insert("lon1".to_owned(), number(lon1));
    m.insert("edate".to_owned(), Value::from("01/01/2026"));
    m.insert("name".to_owned(), Value::from("TEST"));
    m.insert("scale".to_owned(), number(scale));
    serde_json::to_vec(&Value::Object(m)).unwrap()
}

fn cover_item(v: &Value) -> CoverItem {
    match v {
        Value::Array(items) => CoverItem::List(items.iter().map(cover_item).collect()),
        other => match other.as_f64() {
            Some(x) => CoverItem::Number(r(x)),
            None => CoverItem::Other,
        },
    }
}

/// Reads the footer at its marker.
fn parse_footer(data: &[u8]) -> RncFooter {
    let start = footer_start(data).expect("footer marker");
    let v: Value = serde_json::from_slice(&data[start..]).expect("footer JSON");
    let field = |k: &str| r(v[k].as_f64().expect("number"));
    RncFooter {
        lat0: field("lat0"),
        lat1: field("lat1"),
        lon0: field("lon0"),
        lon1: field("lon1"),
        scale: field("scale"),
        edate: v["edate"].as_str().unwrap_or("").to_owned(),
        name: v["name"].as_str().unwrap_or("").to_owned(),
        cover: normalize_cover(&cover_item(&v["cover"])),
    }
}

fn project(lon: Real, lat: Real) -> (Real, Real) {
    let (x, y) = to_merc(f(lon), f(lat));
    (r(x), r(y))
}

fn parse_cell(data: Vec<u8>) -> Result<RncCell, CellError> {
    let footer = parse_footer(&data);
    RncCell::parse("TEST".to_owned(), data, &footer, project, unproject, has_area)
}

fn cover_ring(vertices: &[(f64, f64)]) -> Vec<f64> {
    let mut out = Vec::new();
    for (lon, lat) in vertices {
        let (x, y) = to_merc(*lon, *lat);
        out.push(x);
        out.push(y);
    }
    out
}

fn solid_png(w: u32, h: u32, rgba: [u8; 4]) -> Vec<u8> {
    let img = RgbaImage::from_pixel(w, h, image::Rgba(rgba));
    let mut out = Vec::new();
    img.write_to(&mut Cursor::new(&mut out), image::ImageFormat::Png)
        .expect("encoding test PNG cannot fail");
    out
}

/// A `.rnc` file with a grid of identical solid-colour PNGs.
fn build_rnc(
    cols: u32,
    rows: u32,
    (lon0, lat0, lon1, lat1): (f64, f64, f64, f64),
    rgba: [u8; 4],
    scale: f64,
    cover: Value,
) -> Vec<u8> {
    let png = solid_png(8, 8, rgba);
    let n_tiles = cols * rows;
    let n_offsets = n_tiles + 2;
    let blobs_start = 16 + n_offsets * 4;
    let mut offsets = Vec::new();
    for i in 0..=n_tiles {
        offsets.push(blobs_start + i * png.len() as u32);
    }
    offsets.push(*offsets.last().expect("at least one offset"));
    let mut buf = vec![0u8; 8];
    buf.extend_from_slice(&cols.to_le_bytes());
    buf.extend_from_slice(&rows.to_le_bytes());
    for o in &offsets {
        buf.extend_from_slice(&o.to_le_bytes());
    }
    for _ in 0..n_tiles {
        buf.extend_from_slice(&png);
    }
    buf.extend_from_slice(&footer_json(lon0, lat0, lon1, lat1, scale, cover));
    buf
}

fn nested(rings: &[Vec<f64>]) -> Value {
    Value::Array(rings.iter().map(|ring| flat(ring)).collect())
}

const RED: [u8; 4] = [255, 0, 0, 255];
const CORNERS: (f64, f64, f64, f64) = (11.0, 57.0, 12.0, 58.0);

#[test]
fn footer_parses_flat_cover_ring() {
    let data = footer_json(
        11.0,
        57.0,
        12.0,
        58.0,
        3_000_000.0,
        flat(&[1.0, 2.0, 3.0, 4.0, 5.0, 6.0]),
    );
    let footer = parse_footer(&data);
    let ring: Vec<Real> = [1.0, 2.0, 3.0, 4.0, 5.0, 6.0].map(r).to_vec();
    assert_eq!(footer.cover, vec![ring]);
}

#[test]
fn footer_parses_nested_cover_rings() {
    let data = footer_json(
        11.0,
        57.0,
        12.0,
        58.0,
        3_000_000.0,
        nested(&[vec![1.0, 2.0, 3.0, 4.0, 5.0, 6.0]]),
    );
    let footer = parse_footer(&data);
    let ring: Vec<Real> = [1.0, 2.0, 3.0, 4.0, 5.0, 6.0].map(r).to_vec();
    assert_eq!(footer.cover, vec![ring]);
}

#[test]
fn footer_normalizes_swapped_corners() {
    let data = footer_json(12.0, 58.0, 11.0, 57.0, 1_000_000.0, flat(&[]));
    let footer = parse_footer(&data);
    let b = footer.wgs84_bbox();
    assert!((f(b.west) - 11.0).abs() < 1e-9);
    assert!((f(b.east) - 12.0).abs() < 1e-9);
    assert!((f(b.south) - 57.0).abs() < 1e-9);
    assert!((f(b.north) - 58.0).abs() < 1e-9);
}

#[test]
fn coverage_uses_cover_polygon_when_present() {
    let triangle = cover_ring(&[(11.0, 57.0), (12.0, 57.0), (12.0, 58.0)]);
    let data = footer_json(11.0, 57.0, 12.0, 58.0, 3_000_000.0, flat(&triangle));
    let footer = parse_footer(&data);
    let bbox_area = 1.0;
    let cover_area = area_of(&footer.coverage(unproject, has_area));
    assert!((cover_area - bbox_area / 2.0).abs() < bbox_area * 1e-6);
}

#[test]
fn coverage_falls_back_to_bbox_when_cover_absent() {
    let data = footer_json(11.0, 57.0, 12.0, 58.0, 3_000_000.0, flat(&[]));
    let footer = parse_footer(&data);
    let b = footer.wgs84_bbox();
    let bbox_area = (f(b.east) - f(b.west)) * (f(b.north) - f(b.south));
    assert!((area_of(&footer.coverage(unproject, has_area)) - bbox_area).abs() < 1e-9);
}

#[test]
fn the_last_footer_marker_counts() {
    assert_eq!(footer_start(b"no footer here"), None);
    assert_eq!(footer_start(b"{\"cov"), None);
    assert_eq!(footer_start(b"{\"cover\":1}..{\"cover\":2}"), Some(13));
    assert_eq!(footer_start(b"{\"cover\""), Some(0));
}

#[test]
fn odd_cover_fields_are_normalized() {
    assert!(normalize_cover(&CoverItem::Other).is_empty());
    assert!(normalize_cover(&CoverItem::List(vec![])).is_empty());
    // Numbers only are kept; a nested entry that is no list is an empty ring.
    let mixed = CoverItem::List(vec![
        CoverItem::List(vec![
            CoverItem::Number(r(1.0)),
            CoverItem::Other,
            CoverItem::Number(r(2.0)),
        ]),
        CoverItem::Number(r(9.0)),
    ]);
    assert_eq!(normalize_cover(&mixed), vec![vec![r(1.0), r(2.0)], vec![]]);
    let no_numbers = CoverItem::List(vec![CoverItem::Other]);
    assert!(normalize_cover(&no_numbers).is_empty());
}

#[test]
fn rings_are_closed_and_half_pairs_dropped() {
    let data = footer_json(
        11.0,
        57.0,
        12.0,
        58.0,
        1.0,
        nested(&[
            cover_ring(&[(11.0, 57.0), (12.0, 57.0), (12.0, 58.0)]),
            vec![1.0, 2.0, 3.0, 4.0, 5.0, 6.0, 7.0],
        ]),
    );
    let rings = parse_footer(&data).coverage(unproject, has_area);
    assert_eq!(rings.len(), 1);
    assert_eq!(rings[0].len(), 4);
    assert_eq!(rings[0][0], rings[0][3]);
}

#[test]
fn parses_header_bbox_and_scale() {
    let data = build_rnc(2, 3, CORNERS, RED, 3_000_000.0, nested(&[]));
    let cell = parse_cell(data).expect("valid .rnc parses");
    assert_eq!(cell.cols(), 2);
    assert_eq!(cell.rows(), 3);
    assert_eq!(cell.native_scale(), 3_000_000);
    let b = cell.bbox();
    assert!((f(b.west) - 11.0).abs() < 1e-9);
    assert!((f(b.east) - 12.0).abs() < 1e-9);
    assert!((f(b.south) - 57.0).abs() < 1e-9);
    assert!((f(b.north) - 58.0).abs() < 1e-9);
    assert_eq!(cell.name(), "TEST");
    assert_eq!(cell.edition_date(), EditionDate::new(2026, 1, 1));
}

#[test]
fn decodes_subtile_pixels() {
    let data = build_rnc(2, 1, CORNERS, RED, 3_000_000.0, nested(&[]));
    let mut cell = parse_cell(data).expect("valid .rnc parses");
    let img = cell.subtile_image(0).expect("subtile decodes");
    assert_eq!(&img.bytes[0..4], &[255, 0, 0, 255]);
    assert_eq!((img.width, img.height), (8, 8));
    // Cached path returns the same data.
    let img2 = cell.subtile_image(0).expect("cached subtile");
    assert_eq!(&img2.bytes[0..4], &[255, 0, 0, 255]);
}

#[test]
fn rejects_truncated_header() {
    let footer = parse_footer(&footer_json(11.0, 57.0, 12.0, 58.0, 1.0, flat(&[])));
    let err = RncCell::parse(
        "TEST".to_owned(),
        vec![0u8; 10],
        &footer,
        project,
        unproject,
        has_area,
    )
    .expect_err("truncated");
    let CellError::Header(h) = err else {
        panic!("header error expected");
    };
    assert!(h.message().contains("offset"));
}

#[test]
fn an_extent_without_area_is_refused() {
    let data = build_rnc(1, 1, (11.0, 57.0, 11.0, 58.0), RED, 1.0, nested(&[]));
    let footer = parse_footer(&data);
    assert_eq!(
        parse_cell(data).expect_err("degenerate"),
        CellError::DegenerateExtent {
            bbox: footer.wgs84_bbox()
        }
    );
}

#[test]
fn missing_and_broken_subtiles_are_told_apart() {
    let mut data = build_rnc(1, 1, CORNERS, RED, 1.0, nested(&[]));
    data[28] ^= 0xFF;
    let mut cell = parse_cell(data).expect("valid .rnc parses");
    assert_eq!(
        cell.subtile_image(0).map(|_| ()),
        Err(SubtileError::Undecodable)
    );
    assert_eq!(
        cell.subtile_image(1).map(|_| ()),
        Err(SubtileError::OutOfBounds)
    );
}

#[test]
fn cover_polygon_is_smaller_than_bbox_when_present() {
    // Triangle over the SW/SE/NE corners of the 11-12E, 57-58N bbox —
    // omits the NW corner, so its area is exactly half the rectangle's.
    let triangle = cover_ring(&[(11.0, 57.0), (12.0, 57.0), (12.0, 58.0)]);
    let data = build_rnc(1, 1, CORNERS, RED, 3_000_000.0, nested(&[triangle]));
    let cell = parse_cell(data).expect("valid .rnc parses");

    let bbox_area = 1.0;
    let cover_area = area_of(cell.coverage());
    assert!(
        (cover_area - bbox_area / 2.0).abs() < bbox_area * 1e-6,
        "triangle cover ({cover_area}) should be half the bbox rectangle ({bbox_area})"
    );
}

#[test]
fn falls_back_to_bbox_rectangle_when_cover_is_degenerate() {
    // A two-point "ring" (4 numbers) has no area — must be dropped.
    let degenerate = vec![1.0, 2.0, 3.0, 4.0];
    let data = build_rnc(1, 1, CORNERS, RED, 3_000_000.0, nested(&[degenerate]));
    let cell = parse_cell(data).expect("valid .rnc parses");
    let bbox_area = polygon(&cell.bbox().to_ring()).unsigned_area();
    assert!((area_of(cell.coverage()) - bbox_area).abs() < 1e-9);
}

/// A tile over a cell, with real projections.
struct Tile {
    merc: (f64, f64, f64, f64),
    geom: MultiPolygon,
}

impl Tile {
    fn over(west: f64, south: f64, east: f64, north: f64, geom: MultiPolygon) -> Tile {
        let (w, s) = martin_tile_utils::wgs84_to_webmercator(west, south);
        let (e, n) = martin_tile_utils::wgs84_to_webmercator(east, north);
        Tile {
            merc: (w, s, e, n),
            geom,
        }
    }

    fn uv(p: Position, m: MercExtent) -> (f64, f64) {
        let (x, y) = to_merc(f(p.lon), f(p.lat));
        let u = ((x - f(m.xmin)) / (f(m.xmax) - f(m.xmin))).clamp(0.0, 0.999_999_9);
        let v = ((y - f(m.ymin)) / (f(m.ymax) - f(m.ymin))).clamp(0.0, 0.999_999_9);
        (u, v)
    }
}

impl RasterCanvas for Tile {
    fn place(&self, px: u32, py: u32) -> Position {
        let (w, s, e, n) = self.merc;
        let x = ((f64::from(px) + 0.5) / 256.0).mul_add(e - w, w);
        let y = ((f64::from(py) + 0.5) / 256.0).mul_add(-(n - s), n);
        let (lon, lat) = martin_tile_utils::webmercator_to_wgs84(x, y);
        Position {
            lon: r(lon),
            lat: r(lat),
        }
    }

    fn inside(&self, p: Position) -> bool {
        self.geom.contains(&Point::new(f(p.lon), f(p.lat)))
    }

    fn grid_tile(&self, p: Position, extent: MercExtent, cols: u32, rows: u32) -> (u32, u32) {
        let (u, v) = Tile::uv(p, extent);
        (
            (u * f64::from(cols)).floor() as u32,
            (v * f64::from(rows)).floor() as u32,
        )
    }

    fn grid_pixel(
        &self,
        p: Position,
        extent: MercExtent,
        cols: u32,
        rows: u32,
        width: u32,
        height: u32,
    ) -> (u32, u32) {
        let (u, v) = Tile::uv(p, extent);
        let (col, row) = self.grid_tile(p, extent, cols, rows);
        let lu = u * f64::from(cols) - f64::from(col);
        let lv = v * f64::from(rows) - f64::from(row);
        (
            (lu * f64::from(width)) as u32,
            (lv * f64::from(height)) as u32,
        )
    }
}

fn bbox(w: f64, s: f64, e: f64, n: f64) -> Bbox {
    Bbox {
        west: r(w),
        south: r(s),
        east: r(e),
        north: r(n),
    }
}

#[test]
fn render_paints_inside_contribution_and_leaves_outside_transparent() {
    let data = build_rnc(1, 1, CORNERS, [200, 30, 30, 255], 3_000_000.0, nested(&[]));
    let mut cell = parse_cell(data).expect("valid .rnc parses");
    // Contribution is only the western half of the cell.
    let contrib = bbox(11.0, 57.0, 11.5, 58.0);
    let tile = Tile::over(
        11.0,
        57.0,
        12.0,
        58.0,
        MultiPolygon::new(vec![polygon(&contrib.to_ring())]),
    );

    let out = render(&mut cell, &tile, &contrib);
    assert_eq!(out.len(), (TILE_PX * TILE_PX * 4) as usize);

    // West edge (inside contribution) must be painted.
    let west_idx = (TILE_PX / 8 * 4) as usize; // a column well inside the west half
    assert_eq!(
        out[west_idx + 3],
        255,
        "pixel inside contribution should be opaque"
    );
    assert_eq!(&out[west_idx..west_idx + 3], &[200, 30, 30]);

    // East edge (outside contribution) must stay transparent.
    let east_idx = ((TILE_PX - TILE_PX / 8) * 4) as usize;
    assert_eq!(
        out[east_idx + 3],
        0,
        "pixel outside contribution should be transparent"
    );
}

#[test]
fn render_honors_non_rectangular_cover_polygon() {
    // Triangle over SW/SE/NE — excludes the NW corner of the bbox.
    let triangle = cover_ring(&[(11.0, 57.0), (12.0, 57.0), (12.0, 58.0)]);
    let data = build_rnc(
        1,
        1,
        CORNERS,
        [200, 30, 30, 255],
        3_000_000.0,
        nested(&[triangle]),
    );
    let mut cell = parse_cell(data).expect("valid .rnc parses");
    let geom = MultiPolygon::new(cell.coverage().iter().map(|ring| polygon(ring)).collect());
    let tile = Tile::over(11.0, 57.0, 12.0, 58.0, geom);

    let out = render(&mut cell, &tile, &bbox(11.0, 57.0, 12.0, 58.0));

    // Pixel index for a given (lon, lat), top-left origin, north-up.
    let pixel_alpha = |lon: f64, lat: f64| -> u8 {
        let (x_m, y_m) = martin_tile_utils::wgs84_to_webmercator(lon, lat);
        let (w, s, e, n) = tile.merc;
        let px = (((x_m - w) / (e - w)) * f64::from(TILE_PX)) as u32;
        let py = (((n - y_m) / (n - s)) * f64::from(TILE_PX)) as u32;
        let idx = ((py.min(TILE_PX - 1) * TILE_PX + px.min(TILE_PX - 1)) * 4) as usize;
        out[idx + 3]
    };

    // Inside the triangle (near its centroid).
    assert_eq!(
        pixel_alpha(11.7, 57.3),
        255,
        "centroid of cover triangle should be painted"
    );
    // Inside the bbox rectangle but outside the triangle (NW corner).
    assert_eq!(
        pixel_alpha(11.05, 57.95),
        0,
        "NW corner excluded by cover polygon should stay transparent"
    );
}

#[test]
fn encode_composites_disjoint_contributions() {
    let mut left = vec![0u8; (TILE_PX * TILE_PX * 4) as usize];
    let mut right = left.clone();
    for py in 0..TILE_PX {
        for px in 0..TILE_PX / 2 {
            let idx = ((py * TILE_PX + px) * 4) as usize;
            left[idx..idx + 4].copy_from_slice(&[255, 0, 0, 255]);
        }
        for px in TILE_PX / 2..TILE_PX {
            let idx = ((py * TILE_PX + px) * 4) as usize;
            right[idx..idx + 4].copy_from_slice(&[0, 255, 0, 255]);
        }
    }
    let bytes = encode(&vec![left, right]).expect("encode succeeds");
    assert!(!bytes.is_empty());
    let img = image::load_from_memory_with_format(&bytes, image::ImageFormat::Png)
        .expect("re-decodes")
        .to_rgba8();
    assert_eq!(img.get_pixel(0, 0).0, [255, 0, 0, 255]);
    assert_eq!(img.get_pixel(TILE_PX - 1, 0).0, [0, 255, 0, 255]);
}

#[test]
fn encode_returns_empty_for_fully_transparent_tile() {
    let blank = vec![0u8; (TILE_PX * TILE_PX * 4) as usize];
    let bytes = encode(&vec![blank]).expect("encode succeeds");
    assert!(bytes.is_empty());
}

#[test]
fn later_buffers_cover_earlier_ones() {
    let mut under = vec![0u8; (TILE_PX * TILE_PX * 4) as usize];
    under[0..8].copy_from_slice(&[1, 2, 3, 255, 4, 5, 6, 255]);
    // A short buffer with one opaque pixel and a stray byte.
    let over = vec![9u8, 9, 9, 7, 1];
    let bytes = encode(&vec![under.clone(), over]).expect("encode succeeds");
    let img = image::load_from_memory_with_format(&bytes, image::ImageFormat::Png)
        .expect("re-decodes")
        .to_rgba8();
    assert_eq!(img.get_pixel(0, 0).0, [9, 9, 9, 7]);
    assert_eq!(img.get_pixel(1, 0).0, [4, 5, 6, 255]);
    // What is written is read back unchanged.
    let mut expected = under;
    expected[0..4].copy_from_slice(&[9, 9, 9, 7]);
    assert_eq!(img.into_raw(), expected);
}

#[test]
fn an_empty_contribution_paints_nothing() {
    let data = build_rnc(1, 1, CORNERS, RED, 1.0, nested(&[]));
    let mut cell = parse_cell(data).expect("valid .rnc parses");
    let tile = Tile::over(11.0, 57.0, 12.0, 58.0, MultiPolygon::new(vec![]));
    let out = render(&mut cell, &tile, &bbox(1.0, 1.0, 0.0, 0.0));
    assert!(out.iter().all(|b| *b == 0));
}

fn footer_of_scale(scale: f64) -> RncFooter {
    RncFooter {
        lat0: r(57.0),
        lat1: r(58.0),
        lon0: r(12.0),
        lon1: r(11.0),
        scale: r(scale),
        edate: String::new(),
        name: String::new(),
        cover: vec![],
    }
}

#[test]
fn scales_are_rounded_and_kept_in_range() {
    for scale in [
        0.0,
        -0.0,
        -7.5,
        0.49,
        0.5,
        1.0,
        1.49,
        1.5,
        2.5,
        3.499_999_999_999_999,
        22_000.0,
        2_999_999.5,
        4_294_967_294.4,
        4_294_967_294.5,
        4_294_967_295.5,
        4_294_967_296.0,
        1e300,
        f64::MIN_POSITIVE,
        f64::INFINITY,
        f64::NEG_INFINITY,
        f64::NAN,
    ] {
        let expected = scale.round().clamp(1.0, f64::from(u32::MAX)) as u32;
        assert_eq!(footer_of_scale(scale).native_scale(), expected, "{scale}");
    }
    assert_eq!(footer_of_scale(2.5).native_scale(), 3);
    assert_eq!(footer_of_scale(0.2).native_scale(), 1);
}

#[test]
fn the_projected_extent_has_the_north_edge_first() {
    let m = footer_of_scale(1.0).merc_bbox(&project);
    let (x0, y0) = to_merc(11.0, 58.0);
    let (x1, y1) = to_merc(12.0, 57.0);
    assert!(y0 < y1);
    assert_eq!(
        m,
        MercExtent {
            xmin: r(x0),
            ymin: r(y0),
            xmax: r(x1),
            ymax: r(y1),
        }
    );
}
