use quilt_tiler::bbox::Bbox;
use quilt_tiler::edition_date::EditionDate;
use quilt_tiler::oesu;
use quilt_tiler::oesu::{
    decode_covr, parse_covr_payload, read_senc_version, strip_server_status, SencError,
};
use quilt_tiler::osenc;
use quilt_tiler::osenc::OsencError;
use quilt_tiler::s57::{Geometry, S57Cell};
use quilt_tiler::scalar::{Position, Real};
use quilt_tiler::senc::area::{parse_area_payload, AreaError};
use quilt_tiler::senc::{AttrValue, PrimExtent, SmPoint, TriPrimType};

fn f(v: Real) -> f64 {
    f64::from_bits(v.bits)
}

fn r(v: f64) -> Real {
    Real::from_bits(v.to_bits())
}

/// Takes metres for degrees, and adds the middle of the cell.
fn from_sm(p: SmPoint, bounds: Bbox) -> Position {
    let (e, n) = match p {
        SmPoint::Plain { east, north } => (f(east), f(north)),
        SmPoint::Scaled { x, y, scale } => (f64::from(x) / f(scale), f64::from(y) / f(scale)),
    };
    let ref_lon = (f(bounds.west) + f(bounds.east)) / 2.0;
    let ref_lat = (f(bounds.south) + f(bounds.north)) / 2.0;
    Position {
        lon: r(e + ref_lon),
        lat: r(n + ref_lat),
    }
}

/// Rings meet where their first points do.
fn rings_meet(a: &Vec<Position>, b: &Vec<Position>) -> bool {
    !a.is_empty() && !b.is_empty() && a[0].same(b[0])
}

fn rec(rec_type: u16, payload: &[u8]) -> Vec<u8> {
    let mut out = rec_type.to_le_bytes().to_vec();
    out.extend_from_slice(&(payload.len() as u32 + 6).to_le_bytes());
    out.extend_from_slice(payload);
    out
}

fn cat(parts: &[Vec<u8>]) -> Vec<u8> {
    parts.concat()
}

fn f64s(v: &[f64]) -> Vec<u8> {
    v.iter().flat_map(|x| x.to_le_bytes()).collect()
}

fn f32s(v: &[f32]) -> Vec<u8> {
    v.iter().flat_map(|x| x.to_le_bytes()).collect()
}

fn u32s(v: &[u32]) -> Vec<u8> {
    v.iter().flat_map(|x| x.to_le_bytes()).collect()
}

fn i32s(v: &[i32]) -> Vec<u8> {
    v.iter().flat_map(|x| x.to_le_bytes()).collect()
}

fn i16s(v: &[i16]) -> Vec<u8> {
    v.iter().flat_map(|x| x.to_le_bytes()).collect()
}

fn status(decrypt: u16, expire: u16) -> Vec<u8> {
    let fields: [u16; 6] = [7, decrypt, expire, 30, 14, 5];
    let payload: Vec<u8> = fields.iter().flat_map(|x| x.to_le_bytes()).collect();
    rec(200, &payload)
}

fn version(v: u16) -> Vec<u8> {
    rec(1, &v.to_le_bytes())
}

fn extent() -> Vec<u8> {
    // sw, nw, ne, se as latitude and longitude.
    rec(100, &f64s(&[57.0, 11.0, 58.0, 11.0, 58.0, 12.0, 57.0, 12.0]))
}

fn feature(type_code: u16, id: u16, primitive: u8) -> Vec<u8> {
    let mut p = type_code.to_le_bytes().to_vec();
    p.extend_from_slice(&id.to_le_bytes());
    p.push(primitive);
    rec(64, &p)
}

fn attribute(code: u16, kind: u8, value: &[u8]) -> Vec<u8> {
    let mut p = code.to_le_bytes().to_vec();
    p.push(kind);
    p.extend_from_slice(value);
    rec(65, &p)
}

fn nodes(list: &[(u32, f32, f32)]) -> Vec<u8> {
    let mut p = u32s(&[list.len() as u32]);
    for (i, e, n) in list {
        p.extend_from_slice(&u32s(&[*i]));
        p.extend_from_slice(&f32s(&[*e, *n]));
    }
    rec(97, &p)
}

fn edges(list: &[(u32, Vec<f32>)]) -> Vec<u8> {
    let mut p = u32s(&[list.len() as u32]);
    for (i, pts) in list {
        p.extend_from_slice(&u32s(&[*i, pts.len() as u32 / 2]));
        p.extend_from_slice(&f32s(pts));
    }
    rec(96, &p)
}

fn line(refs: &[i32]) -> Vec<u8> {
    let mut p = f64s(&[0.0; 4]);
    p.extend_from_slice(&u32s(&[refs.len() as u32 / 4]));
    p.extend_from_slice(&i32s(refs));
    rec(81, &p)
}

/// An area without tessellation.
fn area(contours: &[u32], refs: &[i32]) -> Vec<u8> {
    let mut p = f64s(&[0.0; 4]);
    p.extend_from_slice(&u32s(&[contours.len() as u32, 0, refs.len() as u32 / 4]));
    p.extend_from_slice(&u32s(contours));
    p.extend_from_slice(&i32s(refs));
    rec(82, &p)
}

fn stream(records: &[Vec<u8>]) -> Vec<u8> {
    let mut s = cat(&[status(1, 1), version(201)]);
    s.extend_from_slice(&cat(records));
    s
}

fn parse(data: &[u8]) -> Result<S57Cell, SencError> {
    oesu::parse_file("chart.oesu".to_owned(), data, from_sm, rings_meet)
}

fn pairs(line: &[Position]) -> Vec<(f64, f64)> {
    line.iter().map(|p| (f(p.lon), f(p.lat))).collect()
}

fn parse_err(data: &[u8]) -> SencError {
    match parse(data) {
        Ok(_) => panic!("the stream should be refused"),
        Err(e) => e,
    }
}

#[test]
fn every_prologue_fault_is_named() {
    assert_eq!(parse_err(&[1, 2]), SencError::TooShort { len: 2 });
    assert_eq!(parse_err(b"!BSB raster"), SencError::RasterChart);
    assert_eq!(parse_err(b"BSB/NA=chart"), SencError::RasterChart);
    assert_eq!(
        parse_err(&rec(9, &[0; 12])),
        SencError::NotServerStatus { rec_type: 9 }
    );
    assert_eq!(
        parse_err(&rec(200, &[0; 11])),
        SencError::StatusTooShort { rec_len: 17 }
    );
    assert_eq!(parse_err(&status(1, 1)[..12]), SencError::StatusTruncated);
    assert_eq!(
        parse_err(&status(0, 1)),
        SencError::DecryptFailed { server_status: 7 }
    );
    assert_eq!(
        parse_err(&status(1, 0)),
        SencError::Expired {
            expire_days: 30,
            grace_days: 5
        }
    );
    assert_eq!(parse_err(&status(1, 1)), SencError::VersionMissing);
    assert_eq!(
        parse_err(&cat(&[status(1, 1), b"BSB/NA=chart".to_vec()])),
        SencError::VersionRaster
    );
    assert_eq!(
        parse_err(&cat(&[status(1, 1), rec(2, b"name\0")])),
        SencError::NotVersion { rec_type: 2 }
    );
    assert_eq!(
        parse_err(&cat(&[status(1, 1), rec(1, &[9]), vec![0; 4]])),
        SencError::VersionTooShort { rec_len: 7 }
    );
    assert_eq!(
        parse_err(&cat(&[status(1, 1), version(1024)])),
        SencError::SignatureFailure
    );
    for v in [199u16, 300] {
        assert_eq!(
            parse_err(&cat(&[status(1, 1), version(v)])),
            SencError::UnsupportedVersion { version: v }
        );
    }
    let mut cut = stream(&[rec(2, b"name\0")]);
    cut.pop();
    assert_eq!(
        parse_err(&cut),
        SencError::TruncatedRecord { rec_type: 2 }
    );
}

#[test]
fn prologue_gives_the_rest_and_the_counters() {
    let mut data = status(1, 1);
    data.extend_from_slice(b"rest");
    assert_eq!(
        strip_server_status(&data),
        Ok((&b"rest"[..], 30u16, 5u16))
    );
    assert_eq!(read_senc_version(&version(250)), Ok(250));
}

#[test]
fn header_fields_are_kept() {
    let data = stream(&[
        rec(2, b"SE4EIRB5\0junk"),
        rec(3, b"20211209\0"),
        rec(4, &7u16.to_le_bytes()),
        rec(5, b"20260520"),
        rec(6, &3u16.to_le_bytes()),
        rec(7, &25_000u32.to_le_bytes()),
        rec(8, b"20260601\0"),
        rec(9, b"MSL\0"),
        extent(),
    ]);
    let cell = oesu::parse_cell("x.oesu".to_owned(), &data, from_sm, rings_meet).expect("parses");
    assert_eq!(cell.name, "SE4EIRB5");
    assert_eq!(cell.publish_date, "20211209");
    assert_eq!(cell.edition, 7);
    assert_eq!(cell.update_date, "20260520");
    assert_eq!(cell.update_number, 3);
    assert_eq!(cell.native_scale, 25_000);
    assert_eq!(cell.senc_create_date, "20260601");
    assert_eq!(cell.sounding_datum, "MSL");
    assert_eq!(cell.senc_version, 201);
    assert_eq!(cell.expire_days_remaining, 30);
    assert_eq!(cell.grace_days_remaining, 5);
    assert_eq!(cell.source, "x.oesu");
    assert_eq!(
        cell.bounds,
        Bbox {
            west: r(11.0),
            south: r(57.0),
            east: r(12.0),
            north: r(58.0)
        }
    );
    assert_eq!(cell.edition_date, EditionDate::new(2026, 5, 20));
    let kept = S57Cell::from(cell);
    assert_eq!(kept.edition_date, EditionDate::new(2026, 5, 20));
    assert_eq!((kept.name.as_str(), kept.native_scale), ("SE4EIRB5", 25_000));
}

#[test]
fn text_that_is_no_utf8_is_read_with_replacements() {
    let cell = parse(&stream(&[rec(2, b"A\xC3\xA5\xFF\0")])).expect("parses");
    assert_eq!(cell.name, "A\u{e5}\u{fffd}");
}

#[test]
fn features_carry_attributes_and_points() {
    let data = stream(&[
        // Belongs to no feature.
        attribute(1, 0, &5u32.to_le_bytes()),
        feature(75, 9, 1),
        attribute(116, 4, b"Vinga\0xx"),
        attribute(133, 0, &50_000u32.to_le_bytes()),
        attribute(178, 2, &12.5f64.to_le_bytes()),
        // Too short, unknown type, no value.
        attribute(133, 0, &[1, 2, 3]),
        attribute(133, 1, &[0; 8]),
        rec(65, &[1, 2]),
        rec(80, &f64s(&[57.5, 11.25])),
        feature(42, 10, 2),
    ]);
    let cell = parse(&data).expect("parses");
    assert_eq!(cell.features.len(), 2);
    let light = &cell.features[0];
    assert_eq!((light.type_code, light.id, light.primitive), (75, 9, 1));
    assert_eq!(light.attributes.len(), 3);
    assert!(matches!(&light.attributes[0].value, AttrValue::Str(s) if s == "Vinga"));
    assert!(matches!(
        light.attributes[1].value,
        AttrValue::Int(50_000)
    ));
    assert!(matches!(light.attributes[2].value, AttrValue::Double(v) if f(v) == 12.5));
    assert!(
        matches!(light.geometry, Geometry::Point(p) if (f(p.lon), f(p.lat)) == (11.25, 57.5))
    );
    assert!(matches!(cell.features[1].geometry, Geometry::Empty));
}

#[test]
fn soundings_are_placed_one_by_one() {
    let mut p = f64s(&[0.0; 4]);
    // Three announced, two and a half there.
    p.extend_from_slice(&u32s(&[3]));
    p.extend_from_slice(&f32s(&[1.0, 2.0, 10.5, 3.0, 4.0, 0.25, 9.0]));
    let data = stream(&[extent(), feature(129, 1, 0), rec(83, &p)]);
    let cell = parse(&data).expect("parses");
    let Geometry::Soundings(s) = &cell.features[0].geometry else {
        panic!("soundings expected");
    };
    let got: Vec<(f64, f64, f64)> = s
        .iter()
        .map(|x| (f(x.at.lon), f(x.at.lat), f(x.depth)))
        .collect();
    assert_eq!(got, vec![(12.5, 59.5, 10.5), (14.5, 61.5, 0.25)]);
}

#[test]
fn lines_follow_nodes_and_edges() {
    let data = stream(&[
        feature(30, 1, 1),
        // Forwards along edge 5, then backwards along edge 6.
        line(&[1, 5, 2, 0, 2, 6, 3, 1]),
        nodes(&[(1, 0.0, 0.0), (2, 3.0, 0.0), (3, 6.0, 0.0)]),
        edges(&[
            (5, vec![1.0, 1.0, 2.0, 1.0]),
            (6, vec![5.0, 2.0, 4.0, 2.0]),
        ]),
    ]);
    let cell = parse(&data).expect("parses");
    let Geometry::Line(l) = &cell.features[0].geometry else {
        panic!("line expected");
    };
    assert_eq!(
        pairs(l),
        vec![
            (0.0, 0.0),
            (1.0, 1.0),
            (2.0, 1.0),
            (3.0, 0.0),
            (4.0, 2.0),
            (5.0, 2.0),
            (6.0, 0.0)
        ]
    );
}

#[test]
fn areas_are_cut_into_closed_rings() {
    let data = stream(&[
        nodes(&[(1, 0.0, 0.0), (2, 9.0, 0.0), (3, 9.0, 9.0), (7, 2.0, 2.0)]),
        edges(&[(8, vec![3.0, 2.0, 3.0, 3.0])]),
        feature(42, 1, 2),
        // An outer ring of three edges, then an inner one of one edge.
        area(
            &[4, 3],
            &[1, 0, 2, 0, 2, 0, 3, 0, 3, 0, 1, 0, 7, 8, 7, 0],
        ),
        feature(42, 2, 2),
        // Not closed: the last ring is closed anyway.
        area(&[3], &[1, 0, 2, 0, 2, 0, 3, 0]),
        feature(42, 3, 2),
        // The second edge does not start where the first one ends.
        area(&[3], &[1, 0, 2, 0, 3, 0, 1, 0]),
        feature(42, 4, 2),
        area(&[3], &[]),
    ]);
    let cell = parse(&data).expect("parses");
    let Geometry::Area(a) = &cell.features[0].geometry else {
        panic!("area expected");
    };
    assert_eq!(
        pairs(&a.exterior),
        vec![(0.0, 0.0), (9.0, 0.0), (9.0, 9.0), (0.0, 0.0)]
    );
    assert_eq!(a.interiors.len(), 1);
    assert_eq!(
        pairs(&a.interiors[0]),
        vec![(2.0, 2.0), (3.0, 2.0), (3.0, 3.0), (2.0, 2.0)]
    );
    let Geometry::Area(open) = &cell.features[1].geometry else {
        panic!("area expected");
    };
    assert_eq!(
        pairs(&open.exterior),
        vec![(0.0, 0.0), (9.0, 0.0), (9.0, 9.0), (0.0, 0.0)]
    );
    assert!(matches!(cell.features[2].geometry, Geometry::Empty));
    assert!(matches!(cell.features[3].geometry, Geometry::Empty));
}

#[test]
fn extended_tables_hold_scaled_integers() {
    let mut n = 10.0f64.to_le_bytes().to_vec();
    n.extend_from_slice(&u32s(&[2, 1]));
    n.extend_from_slice(&i16s(&[-5, 10]));
    n.extend_from_slice(&u32s(&[2]));
    n.extend_from_slice(&i16s(&[40, 0]));
    let mut e = 2.0f64.to_le_bytes().to_vec();
    e.extend_from_slice(&u32s(&[1, 5, 1]));
    e.extend_from_slice(&i16s(&[3, -1]));
    let data = stream(&[
        rec(86, &n),
        rec(85, &e),
        feature(30, 1, 1),
        line(&[1, 5, 2, 0]),
    ]);
    let cell = parse(&data).expect("parses");
    let Geometry::Line(l) = &cell.features[0].geometry else {
        panic!("line expected");
    };
    assert_eq!(pairs(l), vec![(-0.5, 1.0), (1.5, -0.5), (4.0, 0.0)]);
}

#[test]
fn coverage_rings_get_their_holes() {
    let ring = |pts: &[f32]| {
        let mut p = u32s(&[pts.len() as u32 / 2]);
        p.extend_from_slice(&f32s(pts));
        p
    };
    let data = stream(&[
        // Latitude first.
        rec(98, &ring(&[57.0, 11.0, 57.0, 12.0, 58.0, 12.0])),
        rec(98, &ring(&[10.0, 20.0])),
        rec(99, &ring(&[57.0, 11.0, 57.5, 11.5])),
        rec(99, &ring(&[1.0, 1.0])),
        // One point is missing.
        rec(98, &u32s(&[1, 0])),
    ]);
    let cell = parse(&data).expect("parses");
    assert_eq!(cell.coverage.len(), 2);
    // Rings are closed.
    assert_eq!(
        pairs(&cell.coverage[0].exterior),
        vec![(11.0, 57.0), (12.0, 57.0), (12.0, 58.0), (11.0, 57.0)]
    );
    assert_eq!(cell.coverage[0].interiors.len(), 1);
    assert_eq!(
        pairs(&cell.coverage[0].interiors[0]),
        vec![(11.0, 57.0), (11.5, 57.5), (11.0, 57.0)]
    );
    assert!(cell.coverage[1].interiors.is_empty());
    assert!(parse_covr_payload(&[0, 0]).is_none());
    assert_eq!(parse_covr_payload(&u32s(&[0])), Some(vec![]));
    let none = decode_covr(&vec![], &vec![], &vec![]);
    assert!(none.is_empty());
}

#[test]
fn texts_are_kept_by_name() {
    let text = |name: &[u8], content: &[u8]| {
        let mut p = u32s(&[name.len() as u32, content.len() as u32]);
        p.extend_from_slice(name);
        p.extend_from_slice(content);
        rec(101, &p)
    };
    let data = stream(&[
        text(b"A.TXT\0", b"old"),
        text(b"B.TXT", b"other\0\0"),
        text(b"A.TXT\0", b"new\0"),
        text(b"", b"nameless"),
        text(b"EMPTY.TXT", b"\0\0"),
        text(b"NONE.TXT", b""),
        rec(101, &[1, 2, 3]),
    ]);
    let cell = parse(&data).expect("parses");
    let get = |k: &str| cell.text_descriptions.get(&k.to_owned()).cloned();
    assert_eq!(get("A.TXT").as_deref(), Some("new"));
    assert_eq!(get("B.TXT").as_deref(), Some("other"));
    assert_eq!(get("EMPTY.TXT"), None);
    assert_eq!(get("NONE.TXT"), None);
    assert_eq!(get(""), None);
}

#[test]
fn reading_stops_at_a_record_without_a_length() {
    let mut data = stream(&[rec(2, b"first\0")]);
    data.extend_from_slice(&[0; 6]);
    data.extend_from_slice(&rec(2, b"second\0"));
    assert_eq!(parse(&data).expect("parses").name, "first");
    // A header that is cut short ends the stream as well.
    let mut data = stream(&[rec(2, b"first\0")]);
    data.extend_from_slice(&[2, 0, 9]);
    assert_eq!(parse(&data).expect("parses").name, "first");
}

/// An area payload with one primitive of one vertex.
fn prim_area(kind: u8, ext: bool) -> Vec<u8> {
    let mut p = f64s(&[0.0; 4]);
    p.extend_from_slice(&u32s(&[1, 1, 1]));
    if ext {
        p.extend_from_slice(&4.0f64.to_le_bytes());
    }
    p.extend_from_slice(&u32s(&[3]));
    p.push(kind);
    p.extend_from_slice(&u32s(&[1]));
    if ext {
        p.extend_from_slice(&i16s(&[1, 2, 3, 4, 8, -8]));
    } else {
        p.extend_from_slice(&f64s(&[11.0, 12.0, 57.0, 58.0]));
        p.extend_from_slice(&f32s(&[0.5, 0.25]));
    }
    p.extend_from_slice(&i32s(&[1, -5, 1, 1]));
    p
}

#[test]
fn area_payloads_are_read_whole() {
    let a = parse_area_payload(&prim_area(4, false), false).expect("parses");
    assert_eq!(a.contour_count, 1);
    assert_eq!(a.vertex_counts, vec![3]);
    assert_eq!(a.tri_prims.len(), 1);
    assert_eq!(
        a.tri_prims[0].extent,
        PrimExtent::Degrees(Bbox {
            west: r(11.0),
            south: r(57.0),
            east: r(12.0),
            north: r(58.0)
        })
    );
    assert_eq!(
        a.tri_prims[0].vertices,
        vec![SmPoint::Plain {
            east: r(0.5),
            north: r(0.25)
        }]
    );
    assert_eq!((a.edge_refs[0].edge, a.edge_refs[0].dir), (-5, 1));

    let a = parse_area_payload(&prim_area(6, true), true).expect("parses");
    let scale = r(4.0);
    assert_eq!(
        a.tri_prims[0].extent,
        PrimExtent::Metres {
            min: SmPoint::Scaled { x: 1, y: 3, scale },
            max: SmPoint::Scaled { x: 2, y: 4, scale }
        }
    );
    assert_eq!(
        a.tri_prims[0].vertices,
        vec![SmPoint::Scaled { x: 8, y: -8, scale }]
    );
}

fn area_err(p: &[u8]) -> AreaError {
    match parse_area_payload(p, false) {
        Ok(_) => panic!("the payload should be refused"),
        Err(e) => e,
    }
}

#[test]
fn each_area_fault_is_named() {
    let whole = prim_area(4, false);
    assert_eq!(area_err(&whole[..43]), AreaError::TooShort { len: 43 });
    assert_eq!(
        area_err(&whole[..44]),
        AreaError::VertexCounts { entry: 0, total: 1 }
    );
    assert_eq!(
        area_err(&whole[..50]),
        AreaError::PrimHeader { entry: 0, total: 1 }
    );
    assert_eq!(
        area_err(&whole[..70]),
        AreaError::PrimBody {
            entry: 0,
            total: 1,
            vertices: 1
        }
    );
    assert_eq!(
        area_err(&whole[..whole.len() - 1]),
        AreaError::EdgeSection {
            remaining: 15,
            edges: 1
        }
    );
    // Such a record is passed over.
    let data = stream(&[
        feature(42, 1, 2),
        rec(80, &f64s(&[1.0, 2.0])),
        rec(82, &whole[..70]),
    ]);
    let cell = parse(&data).expect("parses");
    assert!(matches!(cell.features[0].geometry, Geometry::Point(_)));
}

#[test]
fn primitive_kinds_by_number() {
    assert_eq!(TriPrimType::from_u8(4), Some(TriPrimType::Triangles));
    assert_eq!(TriPrimType::from_u8(5), Some(TriPrimType::TriangleStrip));
    assert_eq!(TriPrimType::from_u8(6), Some(TriPrimType::TriangleFan));
    assert_eq!(TriPrimType::from_u8(0), None);
    assert_eq!(TriPrimType::from_u8(7), None);
}

fn osenc_err(data: &[u8]) -> OsencError {
    match osenc::parse_file(data, from_sm) {
        Ok(_) => panic!("the stream should be refused"),
        Err(e) => e,
    }
}

#[test]
fn plain_streams_have_no_prologue() {
    let data = cat(&[
        version(200),
        rec(2, b"CELL\0"),
        rec(7, &12_000u32.to_le_bytes()),
        extent(),
        feature(30, 4, 1),
        // The sign of the edge gives the direction.
        line(&[1, -6, 2, 0]),
        nodes(&[(1, 0.0, 0.0), (2, 6.0, 0.0)]),
        edges(&[(6, vec![5.0, 2.0, 4.0, 2.0])]),
    ]);
    let cell = osenc::parse_file(&data, from_sm).expect("parses");
    assert_eq!(cell.name, "CELL");
    assert_eq!(cell.senc_version, 200);
    assert_eq!(cell.native_scale, 12_000);
    let osenc::Geometry::Line(strokes) = &cell.features[0].geometry else {
        panic!("line expected");
    };
    assert_eq!(strokes.len(), 1);
    assert_eq!(
        pairs(&strokes[0]),
        vec![(11.5, 57.5), (15.5, 59.5), (16.5, 59.5), (17.5, 57.5)]
    );
}

#[test]
fn plain_areas_keep_their_tessellation() {
    let mut p = f64s(&[0.0; 4]);
    p.extend_from_slice(&u32s(&[1, 1, 4, 4]));
    p.push(5);
    p.extend_from_slice(&u32s(&[1]));
    p.extend_from_slice(&f64s(&[11.0, 12.0, 57.0, 58.0]));
    p.extend_from_slice(&f32s(&[1.0, 2.0]));
    p.extend_from_slice(&i32s(&[1, 0, 2, 0, 2, 0, 3, 0, 3, 0, 1, 0]));
    // A ring of one point is left out.
    p.extend_from_slice(&i32s(&[1, 0, 1, 0]));
    let data = cat(&[
        nodes(&[(1, 0.0, 0.0), (2, 9.0, 0.0), (3, 9.0, 9.0)]),
        feature(42, 1, 2),
        rec(82, &p),
    ]);
    let cell = osenc::parse_file(&data, from_sm).expect("parses");
    let osenc::Geometry::Area(a) = &cell.features[0].geometry else {
        panic!("area expected");
    };
    assert_eq!(a.rings.len(), 1);
    assert_eq!(a.rings[0].len(), 4);
    assert_eq!(a.vertex_counts, vec![4]);
    assert_eq!(a.tri_prims[0].prim_type, TriPrimType::TriangleStrip);
    assert_eq!(pairs(&a.tri_prims[0].vertices), vec![(1.0, 2.0)]);
    assert_eq!(a.tri_prims[0].bbox.north, r(58.0));
}

#[test]
fn plain_geometry_may_come_to_nothing() {
    let data = cat(&[
        feature(30, 1, 1),
        line(&[]),
        feature(42, 2, 2),
        // All rings are too short.
        area(&[1], &[1, 0, 1, 0]),
        nodes(&[(1, 0.0, 0.0)]),
        feature(42, 3, 2),
    ]);
    let cell = osenc::parse_file(&data, from_sm).expect("parses");
    assert!(cell
        .features
        .iter()
        .all(|f| matches!(f.geometry, osenc::Geometry::Empty)));
}

#[test]
fn each_plain_stream_fault_is_named() {
    let mut cut = rec(2, b"name\0");
    cut.pop();
    assert_eq!(
        osenc_err(&cut),
        OsencError::TruncatedRecord { rec_type: 2 }
    );
    let mut l = f64s(&[0.0; 4]);
    l.extend_from_slice(&u32s(&[1]));
    l.extend_from_slice(&i32s(&[1, 2, 3]));
    assert_eq!(osenc_err(&rec(81, &l)), OsencError::TruncatedLine);
    assert_eq!(
        osenc_err(&rec(96, &[0, 0])),
        OsencError::TruncatedTable { rec_type: 96 }
    );
    assert_eq!(
        osenc_err(&rec(82, &prim_area(4, false)[..70])),
        OsencError::Area(AreaError::PrimBody {
            entry: 0,
            total: 1,
            vertices: 1
        })
    );
    let unknown = cat(&[feature(42, 1, 2), rec(82, &prim_area(9, false))]);
    assert_eq!(
        osenc_err(&unknown),
        OsencError::UnknownPrimitive { prim_type: 9 }
    );
}

#[test]
fn every_fault_has_its_message() {
    assert_eq!(
        parse_err(b"!BSB/VER=3").message(),
        "file is a BSB raster chart (.oernc), not a vector SENC (.oesu); \
         raster charts are not supported by this tool"
    );
    assert!(parse_err(b"BSB/NA=XYZ").message().contains("BSB raster chart"));
    let cases = [
        (
            SencError::TooShort { len: 2 },
            "file too short to be a valid SENC stream (2 bytes)",
        ),
        (
            SencError::NotServerStatus { rec_type: 9 },
            "expected SERVER_STATUS_RECORD (200) as first record, found type 9; \
             the file may be corrupt, still encrypted, or a raster chart (.oernc)",
        ),
        (
            SencError::StatusTooShort { rec_len: 17 },
            "SERVER_STATUS_RECORD too short (17 bytes, need at least 18)",
        ),
        (
            SencError::StatusTruncated,
            "file truncated inside SERVER_STATUS_RECORD",
        ),
        (
            SencError::DecryptFailed { server_status: 7 },
            "chart decryption/signature failure (decryptStatus=0, serverStatus=7); \
             the chart key may be missing or invalid",
        ),
        (
            SencError::Expired {
                expire_days: 30,
                grace_days: 5,
            },
            "chart license has expired (expireStatus=0, expireDays=30, graceDays=5); \
             renew your chart subscription to continue using this chart",
        ),
        (
            SencError::VersionMissing,
            "file too short to contain a SENC version record",
        ),
        (
            SencError::VersionRaster,
            "expected SENC version record after SERVER_STATUS, found BSB raster data; \
             this appears to be an .oernc raster chart, which is not supported",
        ),
        (
            SencError::NotVersion { rec_type: 2 },
            "expected HEADER_SENC_VERSION (type 1) after server status, found type 2; \
             the file may be corrupt or in an unknown format",
        ),
        (
            SencError::VersionTooShort { rec_len: 7 },
            "HEADER_SENC_VERSION record too short (7 bytes, need 8)",
        ),
        (
            SencError::SignatureFailure,
            "SENC version 1024 is a signature-failure sentinel; \
             the chart key is invalid or the file is corrupt",
        ),
        (
            SencError::UnsupportedVersion { version: 300 },
            "unsupported SENC version 300 (valid range is 200–299); \
             this file requires a newer parser or is in an incompatible format",
        ),
        (
            SencError::TruncatedRecord { rec_type: 65 },
            "reading payload of record type 65",
        ),
    ];
    for (error, text) in cases {
        assert_eq!(error.message(), text);
    }
}

#[test]
fn records_of_unknown_type_are_skipped() {
    let records = [
        rec(2, b"CELL\0"),
        extent(),
        nodes(&[(1, 0.0, 0.0), (2, 4.0, 0.0)]),
        feature(30, 1, 1),
        line(&[1, 0, 2, 0]),
    ];
    let plain = parse(&stream(&records)).expect("parses");
    for at in 0..=records.len() {
        let mut more = records.to_vec();
        more.insert(at, rec(500, &[1, 2]));
        let cell = parse(&stream(&more)).expect("parses");
        assert_eq!(format!("{cell:?}"), format!("{plain:?}"));
    }
    // A fault further on stays the same.
    let mut cut = stream(&[rec(500, &[1, 2]), rec(2, b"CELL\0")]);
    cut.pop();
    assert_eq!(
        parse_err(&cut),
        SencError::TruncatedRecord { rec_type: 2 }
    );
}

#[test]
fn faults_of_areas_and_plain_streams_have_messages() {
    let whole = prim_area(4, false);
    let cases = [
        (43, "area payload too short (43 bytes)"),
        (44, "truncated vertex count array at entry 0/1"),
        (50, "truncated TriPrim header at entry 0/1"),
        (70, "truncated TriPrim body at entry 0/1 (nvert=1)"),
        (
            whole.len() - 1,
            "unexpected 15 bytes for edge section (expected 16)",
        ),
    ];
    for (len, text) in cases {
        assert_eq!(area_err(&whole[..len]).message(), text);
    }
    assert_eq!(
        osenc_err(&rec(82, &whole[..70])).message(),
        "truncated TriPrim body at entry 0/1 (nvert=1)"
    );
    assert_eq!(
        OsencError::TruncatedRecord { rec_type: 2 }.message(),
        "reading payload of record type 2"
    );
    assert_eq!(
        OsencError::TruncatedLine.message(),
        "line record ends inside an edge reference"
    );
    assert_eq!(
        OsencError::TruncatedTable { rec_type: 96 }.message(),
        "record of type 96 has no room for its entry count"
    );
    assert_eq!(
        OsencError::UnknownPrimitive { prim_type: 9 }.message(),
        "unknown TriPrim type 9"
    );
}
