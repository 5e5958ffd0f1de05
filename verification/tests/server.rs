use quilt_tiler::server::{
    base_url, cache_capacity, content_type, is_rnc, source_kind, style_json, tile_status, tile_url,
    tile_weight, MixedInputs, SourceKind, TileOutcome,
};

#[test]
fn raster_cells_are_known_by_their_extension() {
    assert!(is_rnc(Some("rnc")));
    assert!(is_rnc(Some("RNC")));
    assert!(is_rnc(Some("rNc")));
    assert!(!is_rnc(Some("rnc1")));
    assert!(!is_rnc(Some("oesu")));
    assert!(!is_rnc(Some("\u{212a}nc")));
    assert!(!is_rnc(None));
}

#[test]
fn inputs_are_of_one_kind() {
    assert_eq!(source_kind(0, 4), Ok(SourceKind::Vector));
    assert_eq!(source_kind(4, 4), Ok(SourceKind::Raster));
    assert_eq!(source_kind(0, 0), Ok(SourceKind::Vector));
    assert_eq!(
        source_kind(1, 4),
        Err(MixedInputs {
            raster: 1,
            total: 4
        })
    );
}

#[test]
fn answers_of_the_tile_server() {
    assert_eq!(content_type(SourceKind::Vector), "application/x-protobuf");
    assert_eq!(content_type(SourceKind::Raster), "image/png");
    assert_eq!(tile_status(TileOutcome::Rendered), 200);
    assert_eq!(tile_status(TileOutcome::Nothing), 204);
    assert_eq!(tile_status(TileOutcome::Failed), 500);
}

#[test]
fn cache_weights_and_size() {
    assert_eq!(tile_weight(None), 64);
    assert_eq!(tile_weight(Some(1000)), 1064);
    assert_eq!(cache_capacity(0), None);
    assert_eq!(cache_capacity(256), Some(268_435_456));
}

#[test]
fn addresses_of_tiles() {
    let public = Some("https://charts.example".to_owned());
    assert_eq!(
        base_url(&public, Some("ignored")),
        "https://charts.example"
    );
    assert_eq!(base_url(&None, Some("10.0.0.5:3000")), "http://10.0.0.5:3000");
    assert_eq!(base_url(&None, None), "http://localhost:3000");
    assert_eq!(tile_url("http://h"), "http://h/tiles/{z}/{x}/{y}");
}

#[test]
fn the_style_fits_the_kind_of_tiles() {
    let raster = style_json(SourceKind::Raster, "", &None, &None, "u", 1, 2)
        .expect("a raster style needs no template");
    assert!(raster.contains("\"tileSize\": 256"));
    assert!(style_json(SourceKind::Vector, "null", &None, &None, "u", 1, 2).is_none());
}
