use quilt_tiler::json::{set_key, Json};
use quilt_tiler::server::build_metadata;
use quilt_tiler::style::{build_raster_style, build_style, write_style};
use serde_json::{Number, Value};

fn object(entries: Vec<(&str, Json)>) -> Json {
    Json::object(entries.into_iter().map(|(k, v)| Json::entry(k, v)).collect())
}

fn template_layer(id: &str) -> Json {
    object(vec![
        ("id", Json::text(id)),
        ("type", Json::text("fill")),
        ("source", Json::text("enc")),
    ])
}

/// A template with the layers that depth styling replaces, among others.
fn template() -> Json {
    object(vec![
        ("version", Json::uint(8)),
        (
            "layers",
            Json::list(vec![
                template_layer("LNDARE"),
                template_layer("DEPARE-shoal"),
                template_layer("DEPARE-shallow"),
                template_layer("COALNE"),
                template_layer("DEPARE-deep"),
                template_layer("DEPCNT"),
                template_layer("BOYCAR-body"),
            ]),
        ),
    ])
}

fn text_of(j: &Json) -> String {
    j.compact().expect("the numbers are fine")
}

/// Build the style as a [`Value`] with the given depth configuration.
fn build(safety_depth: f64, shoal_depth: f64) -> Value {
    let text = build_style(
        &text_of(&template()),
        &Number::from_f64(safety_depth),
        &Number::from_f64(shoal_depth),
        "http://localhost/{z}/{x}/{y}",
        6,
        18,
    )
    .expect("the template has layers");
    serde_json::from_str(&text).expect("build_style output is valid JSON")
}

fn layer<'a>(style: &'a Value, id: &str) -> &'a Value {
    style["layers"]
        .as_array()
        .expect("layers is an array")
        .iter()
        .find(|l| l["id"] == id)
        .unwrap_or_else(|| panic!("layer {id} not found in built style"))
}

#[test]
fn depare_layer_uses_safety_and_shoal_depth_in_step_expression() {
    let style = build(4.5, 12.0);
    let depare = layer(&style, "DEPARE");

    assert_eq!(depare["type"], "fill");
    assert_eq!(depare["source-layer"], "DEPARE");

    let fill_color = depare["paint"]["fill-color"]
        .as_array()
        .expect("fill-color is an array (step expression)");

    // step expression: ["step", input, output0, stop1, output1, stop2, output2]
    assert_eq!(
        fill_color[0], "step",
        "fill-color must be a step expression"
    );

    // The stops must match the exact depth values passed in.
    assert_eq!(fill_color[3], 4.5, "first stop must be safety_depth");
    assert_eq!(fill_color[5], 12.0, "second stop must be shoal_depth");

    // Input expression: read DRVAL1 as a number.
    let input = fill_color[1]
        .as_array()
        .expect("step input is an expression array");
    assert_eq!(input[0], "to-number");
}

#[test]
fn old_depare_variants_collapsed_to_single_generated_layer() {
    let style = build(5.0, 10.0);
    let depare_layers: Vec<&Value> = style["layers"]
        .as_array()
        .expect("layers is an array")
        .iter()
        .filter(|l| l["id"].as_str().is_some_and(|id| id.starts_with("DEPARE")))
        .collect();

    // The template has DEPARE-shoal, DEPARE-shallow, DEPARE-deep — all
    // three must be collapsed into a single "DEPARE" layer.
    assert_eq!(depare_layers.len(), 1);
    assert_eq!(depare_layers[0]["id"], "DEPARE");
}

#[test]
fn depcnt_replaced_with_base_contour_and_safety_highlight() {
    let style = build(7.0, 15.0);
    let layers = style["layers"].as_array().expect("layers is an array");

    let base_idx = layers
        .iter()
        .position(|l| l["id"] == "DEPCNT")
        .expect("base DEPCNT layer missing");
    let safety_idx = layers
        .iter()
        .position(|l| l["id"] == "DEPCNT-safety")
        .expect("DEPCNT-safety layer missing");

    // Safety highlight must be drawn directly after the base contour.
    assert_eq!(
        safety_idx,
        base_idx + 1,
        "DEPCNT-safety must immediately follow DEPCNT"
    );

    // Both must be line layers on the DEPCNT source-layer.
    let base = &layers[base_idx];
    let safety = &layers[safety_idx];
    assert_eq!(base["type"], "line");
    assert_eq!(safety["type"], "line");
    assert_eq!(base["source-layer"], "DEPCNT");
    assert_eq!(safety["source-layer"], "DEPCNT");
}

#[test]
fn safety_depth_contour_filter_matches_exact_value() {
    let style = build(3.25, 10.0);
    let safety = layer(&style, "DEPCNT-safety");

    let filter = safety["filter"]
        .as_array()
        .expect("DEPCNT-safety must have a filter");

    // ["==", ["to-number", ["get", "VALDCO"], -1.0], safety_depth]
    assert_eq!(filter[0], "==");
    assert_eq!(
        filter[2], 3.25,
        "filter comparison value must equal safety_depth"
    );

    // The filtered attribute must be VALDCO.
    let expr = filter[1]
        .as_array()
        .expect("filter left-hand side is an expression");
    assert_eq!(expr[0], "to-number");
    let get = expr[1]
        .as_array()
        .expect("to-number input is a get expression");
    assert_eq!(get[0], "get");
    assert_eq!(get[1], "VALDCO");
}

#[test]
fn degenerate_safety_equals_shoal_produces_valid_step() {
    // When safety_depth == shoal_depth the step expression has two
    // adjacent stops at the same value.
    let style = build(6.0, 6.0);
    let depare = layer(&style, "DEPARE");

    let fill_color = depare["paint"]["fill-color"]
        .as_array()
        .expect("fill-color is a step expression");

    // Both stops present and equal.
    assert_eq!(fill_color[3], 6.0);
    assert_eq!(fill_color[5], 6.0);

    // Still produces three colour outputs (dangerous, shallow, deep)
    // even when the shallow band is degenerate.
    assert_eq!(fill_color.len(), 7);
}

#[test]
fn layer_order_and_sources_of_a_vector_style() {
    let style = build(5.0, 10.0);
    let ids: Vec<&str> = style["layers"]
        .as_array()
        .expect("layers is an array")
        .iter()
        .map(|l| l["id"].as_str().expect("id"))
        .collect();
    assert_eq!(
        ids,
        vec![
            "LNDARE",
            "DEPARE",
            "COALNE",
            "DEPCNT",
            "DEPCNT-safety",
            "BOYCAR-body"
        ]
    );
    assert_eq!(style["version"], 8);
    let enc = &style["sources"]["enc"];
    assert_eq!(enc["type"], "vector");
    assert_eq!(enc["encoding"], "mlt");
    assert_eq!(enc["tiles"][0], "http://localhost/{z}/{x}/{y}");
    assert_eq!(enc["minzoom"], 6);
    assert_eq!(enc["maxzoom"], 18);
    let paint = &layer(&style, "DEPCNT")["paint"];
    assert_eq!(paint["line-width"], 0.5);
    assert_eq!(paint["line-opacity"], 0.7);
}

#[test]
fn a_template_without_layers_has_no_style() {
    for text in ["{}", "{\"layers\": 3}", "null", "", "{\"layers\": []"] {
        assert!(build_style(text, &None, &None, "u", 0, 1).is_none(), "{text}");
    }
    assert!(build_style("{\"layers\": []}", &None, &None, "u", 0, 1).is_some());
}

#[test]
fn a_number_that_is_none_has_no_style() {
    let mut layers = template_layer("LNDARE");
    if let Json::Object(entries) = &mut layers {
        set_key(entries, "minzoom", Json::number("deep"));
    }
    let bad = object(vec![("layers", Json::list(vec![layers]))]);
    assert!(write_style(bad, &None, &None, "u", 0, 1).is_none());
}

#[test]
fn a_depth_that_is_not_finite_is_null() {
    let null = build_style(
        &text_of(&template()),
        &Number::from_f64(f64::NAN),
        &None,
        "u",
        0,
        1,
    )
    .expect("null is fine");
    let v: Value = serde_json::from_str(&null).expect("valid JSON");
    assert!(layer(&v, "DEPCNT-safety")["filter"][2].is_null());
}

#[test]
fn documents_are_written_as_they_were_read() {
    let text = "{\"a\":[1,-2,2.50,1e3,null,true],\"b\":{\"c\":\"d\"}}";
    let read = Json::parse(text).expect("valid JSON");
    assert_eq!(
        read.compact().as_deref(),
        Some("{\"a\":[1,-2,2.5,1000.0,null,true],\"b\":{\"c\":\"d\"}}")
    );
    assert!(Json::parse("{\"a\":").is_none());
    // A depth keeps all its digits.
    let depth = Number::from_f64(0.1 + 0.2);
    let style = build_style(&text_of(&template()), &depth, &None, "u", 0, 1).expect("a style");
    assert!(style.contains("0.30000000000000004"));
}

#[test]
fn raster_style_has_one_source_and_one_layer() {
    let text = build_raster_style("http://h/{z}/{x}/{y}", 3, 15);
    let v: Value = serde_json::from_str(&text).expect("valid JSON");
    assert_eq!(v["version"], 8);
    assert_eq!(v["sources"]["raster"]["type"], "raster");
    assert_eq!(v["sources"]["raster"]["tiles"][0], "http://h/{z}/{x}/{y}");
    assert_eq!(v["sources"]["raster"]["tileSize"], 256);
    assert_eq!(v["sources"]["raster"]["minzoom"], 3);
    assert_eq!(v["sources"]["raster"]["maxzoom"], 15);
    assert_eq!(v["layers"].as_array().map(Vec::len), Some(1));
    assert_eq!(v["layers"][0]["source"], "raster");
    // Several lines, indented.
    assert!(text.starts_with("{\n  \"layers\""));
}

#[test]
fn metadata_is_written_on_one_line() {
    assert_eq!(
        build_metadata(),
        "{\"description\":\"Nautical chart — converted from OESU\",\"name\":\"chart\",\"vector_layers\":[]}"
    );
}

#[test]
fn documents_are_written_in_full() {
    let mut entries = vec![
        Json::entry("b", Json::Bool(true)),
        Json::entry("n", Json::number("-12.5")),
        Json::entry("s", Json::text("a\"b")),
        Json::entry("z", Json::Null),
    ];
    set_key(&mut entries, "s", Json::text("c"));
    set_key(&mut entries, "t", Json::list(vec![Json::uint(18)]));
    let doc = Json::object(entries);
    assert_eq!(
        doc.compact().as_deref(),
        Some("{\"b\":true,\"n\":-12.5,\"s\":\"c\",\"t\":[18],\"z\":null}")
    );
    assert_eq!(Json::number("1.").compact(), None);
    assert_eq!(Json::list(vec![Json::number("x")]).pretty(), None);
}

#[test]
fn cardinal_buoy_body_and_topmark_are_separate_layers_with_topmark_on_top() {
    let symbol = |id: &str, source_layer: &str, attribute: &str| {
        let icon = Json::list(vec![
            Json::text("match"),
            Json::list(vec![Json::text("get"), Json::text(attribute)]),
            Json::text("plain"),
        ]);
        object(vec![
            ("id", Json::text(id)),
            ("type", Json::text("symbol")),
            ("source", Json::text("enc")),
            ("source-layer", Json::text(source_layer)),
            ("layout", object(vec![("icon-image", icon)])),
        ])
    };
    let template = object(vec![
        ("version", Json::uint(8)),
        (
            "layers",
            Json::list(vec![
                template_layer("DEPARE-shoal"),
                template_layer("DEPARE-deep"),
                symbol("BOYCAR-body", "BOYCAR", "CATCAM"),
                template_layer("DEPCNT"),
                symbol("TOPMAR", "TOPMAR", "TOPSHP"),
            ]),
        ),
    ]);
    let text = build_style(
        &text_of(&template),
        &Number::from_f64(5.0),
        &Number::from_f64(10.0),
        "http://localhost/{z}/{x}/{y}",
        6,
        18,
    )
    .expect("the template has layers");
    let style: Value = serde_json::from_str(&text).expect("build_style output is valid JSON");

    let layers = style["layers"].as_array().expect("layers is an array");
    let body_idx = layers
        .iter()
        .position(|l| l["id"] == "BOYCAR-body")
        .expect("BOYCAR-body layer missing");
    let topmark_idx = layers
        .iter()
        .position(|l| l["id"] == "TOPMAR")
        .expect("TOPMAR layer missing");
    assert!(
        body_idx < topmark_idx,
        "buoy body must be drawn before (i.e. beneath) the topmark"
    );
    assert!(
        !layers.iter().any(|l| l["id"] == "BOYCAR-topmark"),
        "topmarks are objects of their own"
    );

    let body = layer(&style, "BOYCAR-body");
    assert_eq!(body["source-layer"], "BOYCAR");

    let topmark = layer(&style, "TOPMAR");
    assert_eq!(topmark["source-layer"], "TOPMAR");
    let icon_image = topmark["layout"]["icon-image"]
        .as_array()
        .expect("icon-image is a match expression array");
    assert_eq!(
        icon_image[1],
        Value::Array(vec![Value::from("get"), Value::from("TOPSHP")])
    );
}
