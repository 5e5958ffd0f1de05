use quilt_tiler::convert::{
    cell_to_geojson, convert_feature, NamedAttribute, NamedFeature, NamedGeometry, NamedValue,
};
use quilt_tiler::json::Json;
use quilt_tiler::quilt::{add_maxzoom, GeoGeometry};
use quilt_tiler::scalar::{Position, Real};

fn r(v: f64) -> Real {
    Real::from_bits(v.to_bits())
}

fn at(lon: f64, lat: f64) -> Position {
    Position {
        lon: r(lon),
        lat: r(lat),
    }
}

fn feature(acronym: Option<&str>, geometry: NamedGeometry) -> NamedFeature {
    NamedFeature {
        acronym: acronym.map(str::to_owned),
        id: 7,
        primitive: 1,
        attributes: vec![],
        geometry,
    }
}

fn attribute(code: u16, acronym: Option<&str>, value: NamedValue) -> NamedAttribute {
    NamedAttribute {
        code,
        acronym: acronym.map(str::to_owned),
        value,
    }
}

#[test]
fn properties_name_class_attributes_and_hints() {
    let mut f = feature(Some("LIGHTS"), NamedGeometry::Point(at(11.0, 57.0)));
    f.attributes = vec![
        attribute(116, Some("OBJNAM"), NamedValue::Str("Vinga".to_owned())),
        attribute(500, None, NamedValue::Int(3)),
        attribute(87, Some("DRVAL1"), NamedValue::Double(serde_json::Number::from_f64(2.5))),
        attribute(88, Some("DRVAL2"), NamedValue::Double(None)),
        attribute(116, Some("OBJNAM"), NamedValue::Str("Later".to_owned())),
    ];
    let mut out = convert_feature(&f, 9);
    assert_eq!(out.len(), 1);
    let one = out.remove(0);
    assert!(matches!(&one.geometry, Some(GeoGeometry::Point(p)) if *p == vec![r(11.0), r(57.0)]));
    assert_eq!(
        Json::object(one.properties).compact().as_deref(),
        Some(
            "{\"DRVAL1\":2.5,\"DRVAL2\":null,\"OBJNAM\":\"Later\",\"_id\":7,\"_primitive\":1,\
             \"attr_500\":3,\"layer\":\"LIGHTS\"}"
        )
    );
    let mut members = one.members;
    add_maxzoom(&mut members, 12);
    assert_eq!(
        Json::object(members).compact().as_deref(),
        Some("{\"tippecanoe\":{\"layer\":\"LIGHTS\",\"maxzoom\":12,\"minzoom\":9}}")
    );
}

#[test]
fn each_sounding_is_a_feature_with_its_depth() {
    let f = feature(
        Some("SOUNDG"),
        NamedGeometry::Soundings(vec![
            (at(1.0, 2.0), "12".to_owned()),
            (at(3.0, 4.0), "0.5".to_owned()),
        ]),
    );
    let out = convert_feature(&f, 3);
    assert_eq!(out.len(), 2);
    let text = Json::object(out.into_iter().nth(1).expect("second").properties)
        .compact()
        .expect("numbers are fine");
    assert!(text.contains("\"VALDCO\":\"0.5\""));
}

#[test]
fn lines_and_areas_keep_their_parts() {
    let one = feature(
        Some("COALNE"),
        NamedGeometry::Line(vec![vec![at(0.0, 0.0), at(1.0, 1.0)]]),
    );
    assert!(matches!(
        &convert_feature(&one, 0)[0].geometry,
        Some(GeoGeometry::LineString(l)) if l.len() == 2
    ));
    let two = feature(
        Some("COALNE"),
        NamedGeometry::Line(vec![vec![at(0.0, 0.0)], vec![]]),
    );
    assert!(matches!(
        &convert_feature(&two, 0)[0].geometry,
        Some(GeoGeometry::MultiLineString(l)) if l.len() == 2
    ));
    let area = feature(
        Some("DEPARE"),
        NamedGeometry::Area(vec![vec![at(0.0, 0.0)], vec![at(5.0, 5.0)]]),
    );
    assert!(matches!(
        &convert_feature(&area, 0)[0].geometry,
        Some(GeoGeometry::Polygon(rings)) if rings.len() == 2
    ));
    let nothing = feature(Some("DEPARE"), NamedGeometry::Area(vec![]));
    assert!(convert_feature(&nothing, 0)[0].geometry.is_none());
    let empty = feature(Some("DEPARE"), NamedGeometry::Empty);
    assert!(convert_feature(&empty, 0)[0].geometry.is_none());
}

#[test]
fn features_are_grouped_by_class() {
    let cell = vec![
        feature(Some("LIGHTS"), NamedGeometry::Point(at(0.0, 0.0))),
        feature(None, NamedGeometry::Empty),
        feature(Some("SOUNDG"), NamedGeometry::Soundings(vec![])),
        feature(Some("LIGHTS"), NamedGeometry::Point(at(1.0, 0.0))),
    ];
    let layers = cell_to_geojson(&cell, 4);
    let found: Vec<(&str, usize)> = layers
        .iter()
        .map(|l| (l.name.as_str(), l.features.len()))
        .collect();
    assert_eq!(found, vec![("LIGHTS", 2), ("UNKNOWN", 1)]);
}
