//! Map styles for the tiles.
//!
//! The fixed layers (land, buoys, lights) come from a template. The layers that
//! depend on the draft of a vessel are generated: the fill of depth areas and
//! the contour at the safety depth.
use vstd::prelude::*;
use crate::json::{
    decimal_parts, entry_views, find_key, item_views, json_value, key_at, lemma_key_at, lemma_uint_is_plain, lookup, plain_numbers,
    pretty_text, set_key, set_key_is_seen, short_decimal, text_view, updated, Json, JsonView,
};
use crate::text::{digits_of, is_prefix, starts_with};

verus! {

/// Width and height of a raster tile in pixels.
pub const TILE_PX: u32 = 256;

// ── Raster style ─────────────────────────────────────────────────────────────

/// The style of a raster tile source: one source and one layer that shows it.
pub open spec fn raster_style(tile_url: Seq<char>, min_zoom: u8, max_zoom: u8) -> JsonView {
    JsonView::Object(
        seq![
            ("version"@, JsonView::Number(digits_of(8))),
            (
                "sources"@,
                JsonView::Object(
                    seq![
                        (
                            "raster"@,
                            JsonView::Object(
                                seq![
                                    ("type"@, JsonView::Text("raster"@)),
                                    ("tiles"@, JsonView::List(seq![JsonView::Text(tile_url)])),
                                    ("tileSize"@, JsonView::Number(digits_of(256))),
                                    ("minzoom"@, JsonView::Number(digits_of(min_zoom as int))),
                                    ("maxzoom"@, JsonView::Number(digits_of(max_zoom as int))),
                                ],
                            ),
                        ),
                    ],
                ),
            ),
            (
                "layers"@,
                JsonView::List(
                    seq![
                        JsonView::Object(
                            seq![
                                ("id"@, JsonView::Text("raster"@)),
                                ("type"@, JsonView::Text("raster"@)),
                                ("source"@, JsonView::Text("raster"@)),
                            ],
                        ),
                    ],
                ),
            ),
        ],
    )
}

fn one_item(j: Json) -> (l: Json)
    ensures
        l@ == JsonView::List(seq![j@]),
{
    let items: Vec<Json> = vec![j];
    assert(item_views(items@) =~= seq![j@]);
    Json::list(items)
}

fn one_entry(key: &str, j: Json) -> (o: Json)
    ensures
        o@ == JsonView::Object(seq![(key@, j@)]),
{
    let entries: Vec<(String, Json)> = vec![Json::entry(key, j)];
    assert(entry_views(entries@) =~= seq![(key@, j@)]);
    Json::object(entries)
}

/// The document of a raster style.
pub fn raster_style_document(tile_url: &str, min_zoom: u8, max_zoom: u8) -> (j: Json)
    ensures
        j@ == raster_style(tile_url@, min_zoom, max_zoom),
{
    let source_entries: Vec<(String, Json)> = vec![
        Json::entry("type", Json::text("raster")),
        Json::entry("tiles", one_item(Json::text(tile_url))),
        Json::entry("tileSize", Json::uint(TILE_PX as u64)),
        Json::entry("minzoom", Json::uint(min_zoom as u64)),
        Json::entry("maxzoom", Json::uint(max_zoom as u64)),
    ];
    let ghost source_views = seq![
        ("type"@, JsonView::Text("raster"@)),
        ("tiles"@, JsonView::List(seq![JsonView::Text(tile_url@)])),
        ("tileSize"@, JsonView::Number(digits_of(256))),
        ("minzoom"@, JsonView::Number(digits_of(min_zoom as int))),
        ("maxzoom"@, JsonView::Number(digits_of(max_zoom as int))),
    ];
    assert(entry_views(source_entries@) =~= source_views);
    let layer_entries: Vec<(String, Json)> = vec![
        Json::entry("id", Json::text("raster")),
        Json::entry("type", Json::text("raster")),
        Json::entry("source", Json::text("raster")),
    ];
    let ghost layer_views = seq![
        ("id"@, JsonView::Text("raster"@)),
        ("type"@, JsonView::Text("raster"@)),
        ("source"@, JsonView::Text("raster"@)),
    ];
    assert(entry_views(layer_entries@) =~= layer_views);
    let entries: Vec<(String, Json)> = vec![
        Json::entry("version", Json::uint(8)),
        Json::entry("sources", one_entry("raster", Json::object(source_entries))),
        Json::entry("layers", one_item(Json::object(layer_entries))),
    ];
    let j: Json = Json::object(entries);
    assert(j@->Object_0 =~= raster_style(tile_url@, min_zoom, max_zoom)->Object_0);
    j
}

proof fn lemma_raster_style_is_plain(tile_url: Seq<char>, min_zoom: u8, max_zoom: u8)
    ensures
        plain_numbers(raster_style(tile_url, min_zoom, max_zoom)),
{
    lemma_uint_is_plain(8);
    lemma_uint_is_plain(256);
    lemma_uint_is_plain(min_zoom as int);
    lemma_uint_is_plain(max_zoom as int);
    let doc = raster_style(tile_url, min_zoom, max_zoom)->Object_0;
    let sources = doc[1].1->Object_0;
    let source = sources[0].1->Object_0;
    let layers = doc[2].1->List_0;
    let layer = layers[0]->Object_0;
    let tiles = source[1].1->List_0;
    assert(plain_numbers(tiles[0]));
    assert(plain_numbers(source[0].1) && plain_numbers(source[1].1) && plain_numbers(source[2].1)
        && plain_numbers(source[3].1) && plain_numbers(source[4].1));
    assert(plain_numbers(sources[0].1));
    assert(plain_numbers(layer[0].1) && plain_numbers(layer[1].1) && plain_numbers(layer[2].1));
    assert(plain_numbers(layers[0]));
    assert(plain_numbers(doc[0].1) && plain_numbers(doc[1].1) && plain_numbers(doc[2].1));
}

/// The text of a raster style.
pub fn build_raster_style(tile_url: &str, min_zoom: u8, max_zoom: u8) -> (t: String)
    ensures
        json_value(raster_style(tile_url@, min_zoom, max_zoom)) matches Some(v) && t@ == pretty_text(v),
{
    proof {
        lemma_raster_style_is_plain(tile_url@, min_zoom, max_zoom);
    }
    raster_style_document(tile_url, min_zoom, max_zoom).pretty().unwrap()
}

// ── Vector style ─────────────────────────────────────────────────────────────

/// A depth in a document: a number, or null where there is none.
pub open spec fn depth_view(depth: Option<serde_json::Number>) -> JsonView {
    match depth {
        Some(n) => JsonView::Exact(n),
        None => JsonView::Null,
    }
}

/// The expression that reads an attribute as a number, with a value for where it
/// is missing.
pub open spec fn to_number(attribute: Seq<char>, missing: Seq<char>) -> JsonView {
    JsonView::List(
        seq![
            JsonView::Text("to-number"@),
            JsonView::List(seq![JsonView::Text("get"@), JsonView::Text(attribute)]),
            JsonView::Number(missing),
        ],
    )
}

/// The fill of depth areas: darkest up to the safety depth, lighter up to the
/// shoal depth, lightest beyond.
pub open spec fn depth_area_layer(safety: Option<serde_json::Number>, shoal: Option<serde_json::Number>) -> JsonView {
    JsonView::Object(
        seq![
            ("id"@, JsonView::Text("DEPARE"@)),
            ("type"@, JsonView::Text("fill"@)),
            ("source"@, JsonView::Text("enc"@)),
            ("source-layer"@, JsonView::Text("DEPARE"@)),
            (
                "paint"@,
                JsonView::Object(
                    seq![
                        (
                            "fill-color"@,
                            JsonView::List(
                                seq![
                                    JsonView::Text("step"@),
                                    to_number("DRVAL1"@, "9999"@),
                                    JsonView::Text("#5b9bd5"@),
                                    depth_view(safety),
                                    JsonView::Text("#aed6f1"@),
                                    depth_view(shoal),
                                    JsonView::Text("#d6eaf8"@),
                                ],
                            ),
                        ),
                        ("fill-outline-color"@, JsonView::Text("#5dade2"@)),
                    ],
                ),
            ),
        ],
    )
}

/// How contours are drawn.
pub open spec fn contour_paint(color: Seq<char>, width: Seq<char>, opacity: Seq<char>) -> JsonView {
    JsonView::Object(
        seq![
            ("line-color"@, JsonView::Text(color)),
            ("line-width"@, JsonView::Number(width)),
            ("line-opacity"@, JsonView::Number(opacity)),
        ],
    )
}

/// All depth contours.
pub open spec fn contour_layer() -> JsonView {
    JsonView::Object(
        seq![
            ("id"@, JsonView::Text("DEPCNT"@)),
            ("type"@, JsonView::Text("line"@)),
            ("source"@, JsonView::Text("enc"@)),
            ("source-layer"@, JsonView::Text("DEPCNT"@)),
            ("paint"@, contour_paint("#5dade2"@, "0.5"@, "0.7"@)),
        ],
    )
}

/// The contour at the safety depth.
pub open spec fn safety_layer(safety: Option<serde_json::Number>) -> JsonView {
    JsonView::Object(
        seq![
            ("id"@, JsonView::Text("DEPCNT-safety"@)),
            ("type"@, JsonView::Text("line"@)),
            ("source"@, JsonView::Text("enc"@)),
            ("source-layer"@, JsonView::Text("DEPCNT"@)),
            (
                "filter"@,
                JsonView::List(
                    seq![JsonView::Text("=="@), to_number("VALDCO"@, "-1.0"@), depth_view(safety)],
                ),
            ),
            ("paint"@, contour_paint("#e74c3c"@, "2.0"@, "1.0"@)),
        ],
    )
}

/// The identifier of a layer; empty where it has none.
pub open spec fn layer_id(layer: JsonView) -> Seq<char> {
    match layer {
        JsonView::Object(entries) => match lookup(entries, "id"@) {
            Some(JsonView::Text(t)) => t,
            _ => Seq::empty(),
        },
        _ => Seq::empty(),
    }
}

/// The layer shows depth areas.
pub open spec fn is_depth_area(layer: JsonView) -> bool {
    is_prefix("DEPARE"@, layer_id(layer))
}

/// One of the first `n` layers shows depth areas.
pub open spec fn has_depth_area(layers: Seq<JsonView>, n: int) -> bool {
    exists|k: int| 0 <= k < n && is_depth_area(#[trigger] layers[k])
}

/// The first `n` layers of a template with the generated layers in place: one
/// layer for all depth areas where the first of them was, and the safety contour
/// behind the depth contours. Other layers stay as they are.
pub open spec fn rebuilt(
    layers: Seq<JsonView>,
    n: int,
    safety: Option<serde_json::Number>,
    shoal: Option<serde_json::Number>,
) -> Seq<JsonView>
    decreases n,
{
    if n <= 0 {
        Seq::empty()
    } else {
        let before = rebuilt(layers, n - 1, safety, shoal);
        let layer = layers[n - 1];
        if is_depth_area(layer) {
            if has_depth_area(layers, n - 1) {
                before
            } else {
                before.push(depth_area_layer(safety, shoal))
            }
        } else if layer_id(layer) == "DEPCNT"@ {
            before.push(contour_layer()).push(safety_layer(safety))
        } else {
            before.push(layer)
        }
    }
}

/// The source block of a vector style.
pub open spec fn vector_sources(tile_url: Seq<char>, min_zoom: u8, max_zoom: u8) -> JsonView {
    JsonView::Object(
        seq![
            (
                "enc"@,
                JsonView::Object(
                    seq![
                        ("type"@, JsonView::Text("vector"@)),
                        ("encoding"@, JsonView::Text("mlt"@)),
                        ("tiles"@, JsonView::List(seq![JsonView::Text(tile_url)])),
                        ("minzoom"@, JsonView::Number(digits_of(min_zoom as int))),
                        ("maxzoom"@, JsonView::Number(digits_of(max_zoom as int))),
                    ],
                ),
            ),
        ],
    )
}

/// The layers of a template, if it has a list of them.
pub open spec fn template_layers(template: JsonView) -> Option<Seq<JsonView>> {
    match template {
        JsonView::Object(entries) => match lookup(entries, "layers"@) {
            Some(JsonView::List(layers)) => Some(layers),
            _ => None,
        },
        _ => None,
    }
}

/// The style made of a template that has layers.
pub open spec fn vector_style(
    template: JsonView,
    safety: Option<serde_json::Number>,
    shoal: Option<serde_json::Number>,
    sources: JsonView,
) -> JsonView {
    let layers = template_layers(template)->0;
    JsonView::Object(
        updated(
            updated(
                template->Object_0,
                "layers"@,
                JsonView::List(rebuilt(layers, layers.len() as int, safety, shoal)),
            ),
            "sources"@,
            sources,
        ),
    )
}

fn depth_json(depth: &Option<serde_json::Number>) -> (j: Json)
    ensures
        j@ == depth_view(*depth),
{
    match depth {
        Some(n) => Json::Exact(n.clone()),
        None => Json::Null,
    }
}

fn to_number_json(attribute: &str, missing: &str) -> (j: Json)
    ensures
        j@ == to_number(attribute@, missing@),
{
    let get: Vec<Json> = vec![Json::text("get"), Json::text(attribute)];
    assert(item_views(get@) =~= seq![JsonView::Text("get"@), JsonView::Text(attribute@)]);
    let items: Vec<Json> = vec![Json::text("to-number"), Json::list(get), Json::number(missing)];
    let j: Json = Json::list(items);
    assert(j@->List_0 =~= to_number(attribute@, missing@)->List_0);
    j
}

fn depth_area_json(safety: &Option<serde_json::Number>, shoal: &Option<serde_json::Number>) -> (j: Json)
    ensures
        j@ == depth_area_layer(*safety, *shoal),
{
    let steps: Vec<Json> = vec![
        Json::text("step"),
        to_number_json("DRVAL1", "9999"),
        Json::text("#5b9bd5"),
        depth_json(safety),
        Json::text("#aed6f1"),
        depth_json(shoal),
        Json::text("#d6eaf8"),
    ];
    let ghost layer = depth_area_layer(*safety, *shoal)->Object_0;
    assert(item_views(steps@) =~= layer[4].1->Object_0[0].1->List_0);
    let paint: Vec<(String, Json)> = vec![
        Json::entry("fill-color", Json::list(steps)),
        Json::entry("fill-outline-color", Json::text("#5dade2")),
    ];
    assert(entry_views(paint@) =~= layer[4].1->Object_0);
    let entries: Vec<(String, Json)> = vec![
        Json::entry("id", Json::text("DEPARE")),
        Json::entry("type", Json::text("fill")),
        Json::entry("source", Json::text("enc")),
        Json::entry("source-layer", Json::text("DEPARE")),
        Json::entry("paint", Json::object(paint)),
    ];
    let j: Json = Json::object(entries);
    assert(j@->Object_0 =~= layer);
    j
}

fn contour_paint_json(color: &str, width: &str, opacity: &str) -> (j: Json)
    ensures
        j@ == contour_paint(color@, width@, opacity@),
{
    let entries: Vec<(String, Json)> = vec![
        Json::entry("line-color", Json::text(color)),
        Json::entry("line-width", Json::number(width)),
        Json::entry("line-opacity", Json::number(opacity)),
    ];
    let j: Json = Json::object(entries);
    assert(j@->Object_0 =~= contour_paint(color@, width@, opacity@)->Object_0);
    j
}

fn contour_json() -> (j: Json)
    ensures
        j@ == contour_layer(),
{
    let entries: Vec<(String, Json)> = vec![
        Json::entry("id", Json::text("DEPCNT")),
        Json::entry("type", Json::text("line")),
        Json::entry("source", Json::text("enc")),
        Json::entry("source-layer", Json::text("DEPCNT")),
        Json::entry("paint", contour_paint_json("#5dade2", "0.5", "0.7")),
    ];
    let j: Json = Json::object(entries);
    assert(j@->Object_0 =~= contour_layer()->Object_0);
    j
}

fn safety_json(safety: &Option<serde_json::Number>) -> (j: Json)
    ensures
        j@ == safety_layer(*safety),
{
    let ghost layer = safety_layer(*safety)->Object_0;
    let filter: Vec<Json> = vec![
        Json::text("=="),
        to_number_json("VALDCO", "-1.0"),
        depth_json(safety),
    ];
    assert(item_views(filter@) =~= layer[4].1->List_0);
    let entries: Vec<(String, Json)> = vec![
        Json::entry("id", Json::text("DEPCNT-safety")),
        Json::entry("type", Json::text("line")),
        Json::entry("source", Json::text("enc")),
        Json::entry("source-layer", Json::text("DEPCNT")),
        Json::entry("filter", Json::list(filter)),
        Json::entry("paint", contour_paint_json("#e74c3c", "2.0", "1.0")),
    ];
    let j: Json = Json::object(entries);
    assert(j@->Object_0 =~= layer);
    j
}

fn vector_sources_json(tile_url: &str, min_zoom: u8, max_zoom: u8) -> (j: Json)
    ensures
        j@ == vector_sources(tile_url@, min_zoom, max_zoom),
{
    let entries: Vec<(String, Json)> = vec![
        Json::entry("type", Json::text("vector")),
        Json::entry("encoding", Json::text("mlt")),
        Json::entry("tiles", one_item(Json::text(tile_url))),
        Json::entry("minzoom", Json::uint(min_zoom as u64)),
        Json::entry("maxzoom", Json::uint(max_zoom as u64)),
    ];
    assert(entry_views(entries@) =~= vector_sources(tile_url@, min_zoom, max_zoom)->Object_0[0].1->Object_0);
    one_entry("enc", Json::object(entries))
}

/// The identifier of a layer.
fn id_of(layer: &Json) -> (id: String)
    ensures
        id@ == layer_id(layer@),
{
    match layer {
        Json::Object(entries) => {
            proof {
                reveal_with_fuel(<Json as View>::view, 2);
                assert(layer@->Object_0 =~= entry_views(entries@));
                lemma_key_at(entry_views(entries@), "id"@, 0);
            }
            let i: usize = find_key(entries, "id");
            if i < entries.len() {
                assert(entry_views(entries@)[i as int].1 == entries@[i as int].1@);
                match &entries[i].1 {
                    Json::Text(t) => t.clone(),
                    _ => String::new(),
                }
            } else {
                String::new()
            }
        },
        _ => String::new(),
    }
}

/// Puts the generated layers in place.
fn rebuild_layers(layers: Vec<Json>, safety: &Option<serde_json::Number>, shoal: &Option<serde_json::Number>) -> (out: Vec<Json>)
    ensures
        item_views(out@) == rebuilt(
            item_views(layers@),
            layers@.len() as int,
            *safety,
            *shoal,
        ),
{
    let ghost all = item_views(layers@);
    let ghost given = layers@;
    let ghost s = *safety;
    let ghost d = *shoal;
    let mut out: Vec<Json> = Vec::new();
    let mut seen: bool = false;
    let depcnt: String = "DEPCNT".to_owned();
    assert(item_views(out@) =~= rebuilt(all, 0, s, d));
    for layer in it: layers
        invariant
            it.seq() == given,
            all == item_views(given),
            depcnt@ == "DEPCNT"@,
            s == *safety,
            d == *shoal,
            seen == has_depth_area(all, it.index@ as int),
            item_views(out@) == rebuilt(all, it.index@ as int, s, d),
    {
        let ghost n = it.index@ as int;
        let ghost before = out@;
        assert(all[n] == layer@);
        let id: String = id_of(&layer);
        if starts_with(id.as_str(), "DEPARE") {
            if !seen {
                let l: Json = depth_area_json(safety, shoal);
                out.push(l);
                assert(item_views(out@) =~= item_views(before).push(l@));
                seen = true;
            }
            assert(is_depth_area(all[n]));
        } else if id.eq(&depcnt) {
            let base: Json = contour_json();
            let highlight: Json = safety_json(safety);
            out.push(base);
            out.push(highlight);
            assert(item_views(out@) =~= item_views(before).push(base@).push(highlight@));
        } else {
            out.push(layer);
            assert(item_views(out@) =~= item_views(before).push(layer@));
        }
        assert(seen == has_depth_area(all, n + 1)) by {
            if has_depth_area(all, n + 1) {
                let k = choose|k: int| 0 <= k < n + 1 && is_depth_area(#[trigger] all[k]);
                if k < n {
                    assert(has_depth_area(all, n));
                }
            }
            if has_depth_area(all, n) {
                let k = choose|k: int| 0 <= k < n && is_depth_area(#[trigger] all[k]);
                assert(0 <= k < n + 1 && is_depth_area(all[k]));
            }
        }
    }
    out
}

/// The document of a vector style made of a template. `None` where the template
/// has no list of layers. A depth is a number, or none where it is not finite.
pub fn vector_style_document(
    template: Json,
    safety: &Option<serde_json::Number>,
    shoal: &Option<serde_json::Number>,
    tile_url: &str,
    min_zoom: u8,
    max_zoom: u8,
) -> (r: Option<Json>)
    ensures
        match template_layers(template@) {
            Some(_) => r is Some && r->0@ == vector_style(
                template@,
                *safety,
                *shoal,
                vector_sources(tile_url@, min_zoom, max_zoom),
            ),
            None => r is None,
        },
{
    let ghost whole = template@;
    match template {
        Json::Object(given) => {
            let mut entries: Vec<(String, Json)> = given;
            let ghost start = entries@;
            proof {
                reveal_with_fuel(<Json as View>::view, 2);
                assert(whole->Object_0 =~= entry_views(start));
                lemma_key_at(entry_views(start), "layers"@, 0);
            }
            let i: usize = find_key(&entries, "layers");
            if i == entries.len() {
                return None;
            }
            assert(entry_views(start)[i as int] == (start[i as int].0@, start[i as int].1@));
            let taken: (String, Json) = entries.remove(i);
            let layers: Vec<Json> = match taken.1 {
                Json::List(v) => v,
                _ => {
                    return None;
                },
            };
            assert(start[i as int].1@->List_0 =~= item_views(layers@));
            let built: Json = Json::list(rebuild_layers(layers, safety, shoal));
            entries.insert(i, (taken.0, built));
            assert(entry_views(entries@) =~= updated(entry_views(start), "layers"@, built@));
            set_key(&mut entries, "sources", vector_sources_json(tile_url, min_zoom, max_zoom));
            Some(Json::object(entries))
        },
        _ => None,
    }
}

/// The text of a vector style made of a template. `None` where the template has
/// no list of layers, or where a number of it is not in JSON notation.
pub fn write_style(
    template: Json,
    safety: &Option<serde_json::Number>,
    shoal: &Option<serde_json::Number>,
    tile_url: &str,
    min_zoom: u8,
    max_zoom: u8,
) -> (r: Option<String>)
    ensures
        ({
            let style = vector_style(
                template@,
                *safety,
                *shoal,
                vector_sources(tile_url@, min_zoom, max_zoom),
            );
            &&& template_layers(template@) is None ==> r is None
            &&& template_layers(template@) is Some ==> match json_value(style) {
                Some(v) => r is Some && r->0@ == pretty_text(v),
                None => r is None,
            }
            &&& template_layers(template@) is Some && plain_numbers(style) ==> r is Some
        }),
{
    match vector_style_document(template, safety, shoal, tile_url, min_zoom, max_zoom) {
        Some(j) => j.pretty(),
        None => None,
    }
}

proof fn lemma_literals_are_plain()
    ensures
        short_decimal("9999"@),
        short_decimal("0.5"@),
        short_decimal("0.7"@),
        short_decimal("2.0"@),
        short_decimal("1.0"@),
        short_decimal("-1.0"@),
{
    reveal_strlit("9999");
    reveal_strlit("0.5");
    reveal_strlit("0.7");
    reveal_strlit("2.0");
    reveal_strlit("1.0");
    reveal_strlit("-1.0");
    assert(decimal_parts("9999"@, 0, 4));
    assert(decimal_parts("0.5"@, 0, 1));
    assert(decimal_parts("0.7"@, 0, 1));
    assert(decimal_parts("2.0"@, 0, 1));
    assert(decimal_parts("1.0"@, 0, 1));
    assert(decimal_parts("-1.0"@, 1, 2));
}

proof fn lemma_expression_is_plain(attribute: Seq<char>, missing: Seq<char>)
    requires
        short_decimal(missing),
    ensures
        plain_numbers(to_number(attribute, missing)),
{
    let items = to_number(attribute, missing)->List_0;
    let get = items[1]->List_0;
    assert(plain_numbers(get[0]) && plain_numbers(get[1]));
    assert(plain_numbers(items[0]) && plain_numbers(items[1]) && plain_numbers(items[2]));
}

proof fn lemma_generated_are_plain(safety: Option<serde_json::Number>, shoal: Option<serde_json::Number>)
    ensures
        plain_numbers(depth_area_layer(safety, shoal)),
        plain_numbers(contour_layer()),
        plain_numbers(safety_layer(safety)),
{
    lemma_literals_are_plain();
    lemma_expression_is_plain("DRVAL1"@, "9999"@);
    lemma_expression_is_plain("VALDCO"@, "-1.0"@);
    let area = depth_area_layer(safety, shoal)->Object_0;
    let fill = area[4].1->Object_0;
    let steps = fill[0].1->List_0;
    assert(plain_numbers(steps[0]) && plain_numbers(steps[1]) && plain_numbers(steps[2]) && plain_numbers(steps[3])
        && plain_numbers(steps[4]) && plain_numbers(steps[5]) && plain_numbers(steps[6]));
    assert(plain_numbers(fill[0].1) && plain_numbers(fill[1].1));
    assert(plain_numbers(area[0].1) && plain_numbers(area[1].1) && plain_numbers(area[2].1) && plain_numbers(area[3].1)
        && plain_numbers(area[4].1));
    let base = contour_layer()->Object_0;
    let thin = base[4].1->Object_0;
    assert(plain_numbers(thin[0].1) && plain_numbers(thin[1].1) && plain_numbers(thin[2].1));
    assert(plain_numbers(base[0].1) && plain_numbers(base[1].1) && plain_numbers(base[2].1) && plain_numbers(base[3].1)
        && plain_numbers(base[4].1));
    let top = safety_layer(safety)->Object_0;
    let filter = top[4].1->List_0;
    let thick = top[5].1->Object_0;
    assert(plain_numbers(filter[0]) && plain_numbers(filter[1]) && plain_numbers(filter[2]));
    assert(plain_numbers(thick[0].1) && plain_numbers(thick[1].1) && plain_numbers(thick[2].1));
    assert(plain_numbers(top[0].1) && plain_numbers(top[1].1) && plain_numbers(top[2].1) && plain_numbers(top[3].1)
        && plain_numbers(top[4].1) && plain_numbers(top[5].1));
}

proof fn lemma_rebuilt_is_plain(
    layers: Seq<JsonView>,
    n: int,
    safety: Option<serde_json::Number>,
    shoal: Option<serde_json::Number>,
)
    requires
        0 <= n <= layers.len(),
        forall|i: int| 0 <= i < layers.len() ==> plain_numbers(#[trigger] layers[i]),
    ensures
        forall|i: int|
            0 <= i < rebuilt(layers, n, safety, shoal).len() ==> plain_numbers(
                #[trigger] rebuilt(layers, n, safety, shoal)[i],
            ),
    decreases n,
{
    if n > 0 {
        lemma_rebuilt_is_plain(layers, n - 1, safety, shoal);
        lemma_generated_are_plain(safety, shoal);
        let before = rebuilt(layers, n - 1, safety, shoal);
        let out = rebuilt(layers, n, safety, shoal);
        assert forall|i: int| 0 <= i < out.len() implies plain_numbers(#[trigger] out[i]) by {
            if i < before.len() {
                assert(out[i] == before[i]);
            } else {
                assert(plain_numbers(layers[n - 1]));
            }
        }
    }
}

proof fn lemma_updated_is_plain(v: Seq<(Seq<char>, JsonView)>, key: Seq<char>, value: JsonView)
    requires
        forall|i: int| 0 <= i < v.len() ==> plain_numbers((#[trigger] v[i]).1),
        plain_numbers(value),
    ensures
        forall|i: int| 0 <= i < updated(v, key, value).len() ==> plain_numbers((#[trigger] updated(v, key, value)[i]).1),
{
    lemma_key_at(v, key, 0);
    let w = updated(v, key, value);
    assert forall|i: int| 0 <= i < w.len() implies plain_numbers((#[trigger] w[i]).1) by {
        if i != key_at(v, key, 0) {
            assert(w[i] == v[i]);
        }
    }
}

proof fn lemma_vector_style_is_plain(
    template: JsonView,
    safety: Option<serde_json::Number>,
    shoal: Option<serde_json::Number>,
    tile_url: Seq<char>,
    min_zoom: u8,
    max_zoom: u8,
)
    requires
        plain_numbers(template),
        template_layers(template) is Some,
    ensures
        plain_numbers(vector_style(template, safety, shoal, vector_sources(tile_url, min_zoom, max_zoom))),
{
    let entries = template->Object_0;
    let layers = template_layers(template)->0;
    lemma_key_at(entries, "layers"@, 0);
    let at = key_at(entries, "layers"@, 0);
    assert(plain_numbers(entries[at].1));
    lemma_rebuilt_is_plain(layers, layers.len() as int, safety, shoal);
    let built = JsonView::List(rebuilt(layers, layers.len() as int, safety, shoal));
    assert(plain_numbers(built));
    lemma_updated_is_plain(entries, "layers"@, built);
    lemma_uint_is_plain(min_zoom as int);
    lemma_uint_is_plain(max_zoom as int);
    let sources = vector_sources(tile_url, min_zoom, max_zoom);
    let source = sources->Object_0[0].1->Object_0;
    let tiles = source[2].1->List_0;
    assert(plain_numbers(tiles[0]));
    assert(plain_numbers(source[0].1) && plain_numbers(source[1].1) && plain_numbers(source[2].1)
        && plain_numbers(source[3].1) && plain_numbers(source[4].1));
    assert(plain_numbers(sources->Object_0[0].1));
    assert(plain_numbers(sources));
    lemma_updated_is_plain(updated(entries, "layers"@, built), "sources"@, sources);
}

/// The text of a vector style made of the text of a template. `None` where that is
/// not JSON or has no list of layers.
pub fn build_style(
    template: &str,
    safety: &Option<serde_json::Number>,
    shoal: &Option<serde_json::Number>,
    tile_url: &str,
    min_zoom: u8,
    max_zoom: u8,
) -> (r: Option<String>)
    ensures
        match text_view(template@) {
            Some(t) => {
                let style = vector_style(
                    t,
                    *safety,
                    *shoal,
                    vector_sources(tile_url@, min_zoom, max_zoom),
                );
                if template_layers(t) is None {
                    r is None
                } else {
                    &&& plain_numbers(style)
                    &&& r is Some
                    &&& json_value(style) matches Some(v) && r->0@ == pretty_text(v)
                }
            },
            None => r is None,
        },
{
    match Json::parse(template) {
        Some(t) => {
            proof {
                if template_layers(t@) is Some {
                    lemma_vector_style_is_plain(t@, *safety, *shoal, tile_url@, min_zoom, max_zoom);
                }
            }
            write_style(t, safety, shoal, tile_url, min_zoom, max_zoom)
        },
        None => None,
    }
}

proof fn lemma_generated_ids(safety: Option<serde_json::Number>, shoal: Option<serde_json::Number>)
    ensures
        layer_id(depth_area_layer(safety, shoal)) == "DEPARE"@,
        layer_id(contour_layer()) == "DEPCNT"@,
        layer_id(safety_layer(safety)) == "DEPCNT-safety"@,
        is_depth_area(depth_area_layer(safety, shoal)),
        !is_depth_area(contour_layer()),
        !is_depth_area(safety_layer(safety)),
        "DEPCNT"@ != "DEPCNT-safety"@,
        "DEPARE"@ != "DEPCNT"@,
{
    reveal_strlit("DEPARE");
    reveal_strlit("DEPCNT");
    reveal_strlit("DEPCNT-safety");
    reveal_with_fuel(key_at, 1);
    assert("DEPARE"@.take(6) =~= "DEPARE"@);
    assert("DEPCNT"@.take(6)[3] == 'C' && "DEPARE"@[3] == 'A');
    assert("DEPCNT-safety"@.take(6)[3] == 'C');
    assert("DEPCNT"@[3] == 'C');
    assert("DEPCNT"@.len() != "DEPCNT-safety"@.len());
}

/// All depth area layers of a template become one: there is one exactly where
/// the template has any, and never a second.
pub proof fn depth_areas_collapse(
    layers: Seq<JsonView>,
    n: int,
    safety: Option<serde_json::Number>,
    shoal: Option<serde_json::Number>,
)
    requires
        0 <= n <= layers.len(),
    ensures
        ({
            let out = rebuilt(layers, n, safety, shoal);
            &&& has_depth_area(out, out.len() as int) <==> has_depth_area(layers, n)
            &&& forall|i: int, j: int|
                0 <= i < j < out.len() ==> !(is_depth_area(#[trigger] out[i]) && is_depth_area(
                    #[trigger] out[j],
                ))
            &&& forall|i: int|
                0 <= i < out.len() && is_depth_area(#[trigger] out[i]) ==> out[i] == depth_area_layer(safety, shoal)
        }),
    decreases n,
{
    lemma_generated_ids(safety, shoal);
    if n > 0 {
        depth_areas_collapse(layers, n - 1, safety, shoal);
        let before = rebuilt(layers, n - 1, safety, shoal);
        let out = rebuilt(layers, n, safety, shoal);
        let layer = layers[n - 1];
        assert(before.len() <= out.len());
        assert(forall|i: int| 0 <= i < before.len() ==> out[i] == before[i]);
        if has_depth_area(layers, n) {
            let k = choose|k: int| 0 <= k < n && is_depth_area(#[trigger] layers[k]);
            if k < n - 1 {
                assert(has_depth_area(layers, n - 1));
            }
        }
        if has_depth_area(layers, n - 1) {
            let k = choose|k: int| 0 <= k < n - 1 && is_depth_area(#[trigger] layers[k]);
            assert(0 <= k < n && is_depth_area(layers[k]));
            let b = choose|b: int| 0 <= b < before.len() && is_depth_area(#[trigger] before[b]);
            assert(is_depth_area(out[b]));
        }
        if is_depth_area(layer) {
            assert(0 <= n - 1 < n && is_depth_area(layers[n - 1]));
            if !has_depth_area(layers, n - 1) {
                assert(is_depth_area(out[before.len() as int]));
            }
        }
        assert forall|i: int, j: int| 0 <= i < j < out.len() implies !(is_depth_area(#[trigger] out[i])
            && is_depth_area(#[trigger] out[j])) by {
            if i < before.len() && is_depth_area(out[i]) {
                assert(is_depth_area(before[i]));
                assert(has_depth_area(before, before.len() as int));
                if j < before.len() {
                    assert(!(is_depth_area(before[i]) && is_depth_area(before[j])));
                }
            }
        }
        if has_depth_area(out, out.len() as int) {
            let b = choose|b: int| 0 <= b < out.len() && is_depth_area(#[trigger] out[b]);
            if b < before.len() {
                assert(is_depth_area(before[b]));
            }
        }
    }
}

/// The safety contour is drawn directly after the depth contours.
pub proof fn safety_contour_follows(
    layers: Seq<JsonView>,
    n: int,
    safety: Option<serde_json::Number>,
    shoal: Option<serde_json::Number>,
    i: int,
)
    requires
        0 <= n <= layers.len(),
        0 <= i < rebuilt(layers, n, safety, shoal).len(),
        layer_id(rebuilt(layers, n, safety, shoal)[i]) == "DEPCNT"@,
    ensures
        i + 1 < rebuilt(layers, n, safety, shoal).len(),
        rebuilt(layers, n, safety, shoal)[i] == contour_layer(),
        rebuilt(layers, n, safety, shoal)[i + 1] == safety_layer(safety),
    decreases n,
{
    lemma_generated_ids(safety, shoal);
    if n > 0 {
        let before = rebuilt(layers, n - 1, safety, shoal);
        if i < before.len() {
            safety_contour_follows(layers, n - 1, safety, shoal, i);
        }
    }
}

// ── What a style means ───────────────────────────────────────────────────────

/// The member of an object.
pub open spec fn member(j: JsonView, key: Seq<char>) -> Option<JsonView> {
    match j {
        JsonView::Object(entries) => lookup(entries, key),
        _ => None,
    }
}

/// The number that an expression gives for a feature: `attribute` are its numeric
/// attributes by name, `literal` reads a number of a document.
pub open spec fn number_of<N>(
    e: JsonView,
    attribute: spec_fn(Seq<char>) -> Option<N>,
    literal: spec_fn(JsonView) -> N,
) -> Option<N> {
    match e {
        JsonView::List(items) => if items.len() == 3 && items[0] == JsonView::Text("to-number"@) {
            match items[1] {
                JsonView::List(get) => if get.len() == 2 && get[0] == JsonView::Text("get"@) {
                    match get[1] {
                        JsonView::Text(name) => match attribute(name) {
                            Some(v) => Some(v),
                            None => Some(literal(items[2])),
                        },
                        _ => None,
                    }
                } else {
                    None
                },
                _ => None,
            }
        } else {
            None
        },
        _ => Some(literal(e)),
    }
}

/// The output of a step expression for the input `v`: that of the last stop that
/// is not above the input, looked for from `items[k]` on, where `out` is the
/// output so far.
pub open spec fn step_output<N>(
    items: Seq<JsonView>,
    k: int,
    out: JsonView,
    v: N,
    literal: spec_fn(JsonView) -> N,
    at_least: spec_fn(N, N) -> bool,
) -> JsonView
    decreases items.len() - k,
{
    if k + 1 < items.len() && at_least(v, literal(items[k])) {
        step_output(items, k + 2, items[k + 1], v, literal, at_least)
    } else {
        out
    }
}

/// The fill colour that a layer gives a feature.
pub open spec fn fill_color<N>(
    layer: JsonView,
    attribute: spec_fn(Seq<char>) -> Option<N>,
    literal: spec_fn(JsonView) -> N,
    at_least: spec_fn(N, N) -> bool,
) -> Option<JsonView> {
    match member(layer, "paint"@) {
        Some(paint) => match member(paint, "fill-color"@) {
            Some(JsonView::List(items)) => if items.len() >= 3 && items[0] == JsonView::Text("step"@) {
                match number_of(items[1], attribute, literal) {
                    Some(v) => Some(step_output(items, 3, items[2], v, literal, at_least)),
                    None => None,
                }
            } else {
                None
            },
            _ => None,
        },
        None => None,
    }
}

/// Whether the filter of a layer lets a feature pass: two numbers must be equal.
pub open spec fn passes<N>(
    layer: JsonView,
    attribute: spec_fn(Seq<char>) -> Option<N>,
    literal: spec_fn(JsonView) -> N,
    same: spec_fn(N, N) -> bool,
) -> Option<bool> {
    match member(layer, "filter"@) {
        Some(JsonView::List(items)) => if items.len() == 3 && items[0] == JsonView::Text("=="@) {
            match (number_of(items[1], attribute, literal), number_of(items[2], attribute, literal)) {
                (Some(a), Some(b)) => Some(same(a, b)),
                _ => None,
            }
        } else {
            None
        },
        _ => None,
    }
}

/// The number of a depth in a document.
pub open spec fn depth_number<N>(depth: Option<serde_json::Number>, literal: spec_fn(JsonView) -> N) -> N {
    match depth {
        Some(n) => literal(JsonView::Exact(n)),
        None => literal(JsonView::Null),
    }
}

proof fn lemma_lookup(v: Seq<(Seq<char>, JsonView)>, key: Seq<char>, i: int, from: int)
    requires
        0 <= from <= i < v.len(),
        v[i].0 == key,
        forall|k: int| from <= k < i ==> (#[trigger] v[k]).0 != key,
    ensures
        key_at(v, key, from) == i,
    decreases i - from,
{
    if from < i {
        assert(v[from].0 != key);
        lemma_lookup(v, key, i, from + 1);
    }
}

proof fn lemma_member_keys()
    ensures
        "id"@ != "paint"@ && "id"@ != "filter"@ && "id"@ != "source-layer"@ && "id"@ != "type"@ && "id"@ != "source"@,
        "type"@ != "paint"@ && "type"@ != "filter"@ && "type"@ != "source-layer"@,
        "source"@ != "paint"@ && "source"@ != "filter"@ && "source"@ != "source-layer"@,
        "source-layer"@ != "paint"@ && "source-layer"@ != "filter"@,
        "filter"@ != "paint"@,
        "type"@ != "source"@,
{
    reveal_strlit("id");
    reveal_strlit("type");
    reveal_strlit("source");
    reveal_strlit("source-layer");
    reveal_strlit("paint");
    reveal_strlit("filter");
    assert("id"@.len() == 2 && "type"@.len() == 4 && "source"@.len() == 6 && "source-layer"@.len() == 12
        && "paint"@.len() == 5 && "filter"@.len() == 6);
    assert("source"@[0] == 's' && "filter"@[0] == 'f');
}

/// The fill of a depth area follows its least depth, the attribute `DRVAL1`, and
/// nothing else: below the safety depth it has the colour of dangerous water, from
/// there on below the shoal depth that of shallow water, and from the shoal depth
/// on that of deep water. An area without a least depth counts as 9999 deep.
pub proof fn fill_follows_the_least_depth<N>(
    safety: Option<serde_json::Number>,
    shoal: Option<serde_json::Number>,
    attribute: spec_fn(Seq<char>) -> Option<N>,
    literal: spec_fn(JsonView) -> N,
    at_least: spec_fn(N, N) -> bool,
)
    ensures
        ({
            let layer = depth_area_layer(safety, shoal);
            let depth = match attribute("DRVAL1"@) {
                Some(d) => d,
                None => literal(JsonView::Number("9999"@)),
            };
            let color = fill_color(layer, attribute, literal, at_least);
            &&& member(layer, "type"@) == Some(JsonView::Text("fill"@))
            &&& member(layer, "source-layer"@) == Some(JsonView::Text("DEPARE"@))
            &&& !at_least(depth, depth_number(safety, literal)) ==> color == Some(JsonView::Text("#5b9bd5"@))
            &&& at_least(depth, depth_number(safety, literal)) && !at_least(depth, depth_number(shoal, literal))
                ==> color == Some(JsonView::Text("#aed6f1"@))
            &&& at_least(depth, depth_number(safety, literal)) && at_least(depth, depth_number(shoal, literal))
                ==> color == Some(JsonView::Text("#d6eaf8"@))
        }),
{
    let layer = depth_area_layer(safety, shoal);
    let entries = layer->Object_0;
    lemma_member_keys();
    lemma_lookup(entries, "paint"@, 4, 0);
    lemma_lookup(entries, "type"@, 1, 0);
    lemma_lookup(entries, "source-layer"@, 3, 0);
    let paint = entries[4].1->Object_0;
    lemma_lookup(paint, "fill-color"@, 0, 0);
    let items = paint[0].1->List_0;
    assert(items.len() == 7);
    let input = items[1]->List_0;
    assert(input.len() == 3 && input[0] == JsonView::Text("to-number"@));
    let get = input[1]->List_0;
    assert(get.len() == 2 && get[0] == JsonView::Text("get"@) && get[1] == JsonView::Text("DRVAL1"@));
    assert(input[2] == JsonView::Number("9999"@));
    reveal_with_fuel(step_output, 4);
    assert(items[0] == JsonView::Text("step"@));
    assert(items[2] == JsonView::Text("#5b9bd5"@));
    assert(items[3] == depth_view(safety));
    assert(items[4] == JsonView::Text("#aed6f1"@));
    assert(items[5] == depth_view(shoal));
    assert(items[6] == JsonView::Text("#d6eaf8"@));
}

/// The prominent contour is drawn where the depth of a contour, the attribute
/// `VALDCO`, equals the safety depth. A contour without a depth counts as -1.
pub proof fn the_safety_contour_is_at_the_safety_depth<N>(
    safety: Option<serde_json::Number>,
    attribute: spec_fn(Seq<char>) -> Option<N>,
    literal: spec_fn(JsonView) -> N,
    same: spec_fn(N, N) -> bool,
)
    ensures
        ({
            let layer = safety_layer(safety);
            let depth = match attribute("VALDCO"@) {
                Some(d) => d,
                None => literal(JsonView::Number("-1.0"@)),
            };
            &&& passes(layer, attribute, literal, same) == Some(same(depth, depth_number(safety, literal)))
            &&& member(layer, "type"@) == Some(JsonView::Text("line"@))
            &&& member(layer, "source-layer"@) == Some(JsonView::Text("DEPCNT"@))
            &&& member(contour_layer(), "source-layer"@) == Some(JsonView::Text("DEPCNT"@))
            &&& member(contour_layer(), "type"@) == Some(JsonView::Text("line"@))
        }),
{
    let entries = safety_layer(safety)->Object_0;
    lemma_member_keys();
    lemma_lookup(entries, "filter"@, 4, 0);
    lemma_lookup(entries, "type"@, 1, 0);
    lemma_lookup(entries, "source-layer"@, 3, 0);
    let base = contour_layer()->Object_0;
    lemma_lookup(base, "type"@, 1, 0);
    lemma_lookup(base, "source-layer"@, 3, 0);
    let items = entries[4].1->List_0;
    assert(items.len() == 3 && items[0] == JsonView::Text("=="@));
    let input = items[1]->List_0;
    assert(input.len() == 3 && input[0] == JsonView::Text("to-number"@));
    let get = input[1]->List_0;
    assert(get.len() == 2 && get[0] == JsonView::Text("get"@) && get[1] == JsonView::Text("VALDCO"@));
    assert(input[2] == JsonView::Number("-1.0"@));
    assert(items[2] == depth_view(safety));
}

proof fn lemma_rebuilt_prefix(
    layers: Seq<JsonView>,
    m: int,
    n: int,
    safety: Option<serde_json::Number>,
    shoal: Option<serde_json::Number>,
)
    requires
        0 <= m <= n <= layers.len(),
    ensures
        rebuilt(layers, m, safety, shoal).len() <= rebuilt(layers, n, safety, shoal).len(),
        rebuilt(layers, n, safety, shoal).take(rebuilt(layers, m, safety, shoal).len() as int) == rebuilt(
            layers,
            m,
            safety,
            shoal,
        ),
    decreases n,
{
    let short = rebuilt(layers, m, safety, shoal);
    let long = rebuilt(layers, n, safety, shoal);
    if m == n {
        assert(long.take(long.len() as int) =~= long);
    } else {
        lemma_rebuilt_prefix(layers, m, n - 1, safety, shoal);
        let mid = rebuilt(layers, n - 1, safety, shoal);
        assert(long.take(short.len() as int) =~= mid.take(short.len() as int));
    }
}

/// A layer that is made anew: one whose identifier begins with `DEPARE`, or is
/// `DEPCNT`.
pub open spec fn is_made_anew(layer: JsonView) -> bool {
    let id = layer_id(layer);
    (id.len() >= 6 && id.take(6) == "DEPARE"@) || id == "DEPCNT"@
}

/// The other layers of a template stay as they are and in their order.
pub proof fn other_layers_stay(
    layers: Seq<JsonView>,
    safety: Option<serde_json::Number>,
    shoal: Option<serde_json::Number>,
    i: int,
    j: int,
)
    requires
        0 <= i < j < layers.len(),
        !is_made_anew(layers[i]),
        !is_made_anew(layers[j]),
    ensures
        exists|a: int, b: int|
            #![trigger rebuilt(layers, layers.len() as int, safety, shoal)[a], rebuilt(layers, layers.len() as int, safety, shoal)[b]]
            0 <= a < b < rebuilt(layers, layers.len() as int, safety, shoal).len() && rebuilt(
                layers,
                layers.len() as int,
                safety,
                shoal,
            )[a] == layers[i] && rebuilt(layers, layers.len() as int, safety, shoal)[b] == layers[j],
{
    reveal_strlit("DEPARE");
    let n = layers.len() as int;
    let out = rebuilt(layers, n, safety, shoal);
    let at_i = rebuilt(layers, i, safety, shoal);
    let at_j = rebuilt(layers, j, safety, shoal);
    let to_i = rebuilt(layers, i + 1, safety, shoal);
    let to_j = rebuilt(layers, j + 1, safety, shoal);
    assert(to_i == at_i.push(layers[i]));
    assert(to_j == at_j.push(layers[j]));
    lemma_rebuilt_prefix(layers, i + 1, j, safety, shoal);
    lemma_rebuilt_prefix(layers, i + 1, n, safety, shoal);
    lemma_rebuilt_prefix(layers, j + 1, n, safety, shoal);
    let a = at_i.len() as int;
    let b = at_j.len() as int;
    assert(out.take(to_i.len() as int)[a] == layers[i]);
    assert(out.take(to_j.len() as int)[b] == layers[j]);
    assert(out[a] == layers[i] && out[b] == layers[j]);
}

/// Every generated layer is there: a template with a depth area layer gives one
/// fill of depth areas, and each layer of contours gives contours with the safety
/// contour behind them.
pub proof fn generated_layers_are_there(
    layers: Seq<JsonView>,
    safety: Option<serde_json::Number>,
    shoal: Option<serde_json::Number>,
    i: int,
)
    requires
        0 <= i < layers.len(),
    ensures
        ({
            let out = rebuilt(layers, layers.len() as int, safety, shoal);
            let id = layer_id(layers[i]);
            &&& id.len() >= 6 && id.take(6) == "DEPARE"@ ==> exists|k: int|
                0 <= k < out.len() && #[trigger] out[k] == depth_area_layer(safety, shoal)
            &&& id == "DEPCNT"@ ==> exists|k: int|
                0 <= k && k + 1 < out.len() && #[trigger] out[k] == contour_layer() && out[k + 1] == safety_layer(
                    safety,
                )
        }),
{
    reveal_strlit("DEPARE");
    reveal_strlit("DEPCNT");
    let n = layers.len() as int;
    let out = rebuilt(layers, n, safety, shoal);
    let id = layer_id(layers[i]);
    if id.len() >= 6 && id.take(6) == "DEPARE"@ {
        assert(is_depth_area(layers[i]));
        assert(has_depth_area(layers, n));
        depth_areas_collapse(layers, n, safety, shoal);
        let k = choose|k: int| 0 <= k < out.len() && is_depth_area(#[trigger] out[k]);
        assert(out[k] == depth_area_layer(safety, shoal));
    }
    if id == "DEPCNT"@ {
        assert("DEPCNT"@.take(6)[3] == 'C' && "DEPARE"@[3] == 'A');
        let before = rebuilt(layers, i, safety, shoal);
        let after = rebuilt(layers, i + 1, safety, shoal);
        assert(after == before.push(contour_layer()).push(safety_layer(safety)));
        lemma_rebuilt_prefix(layers, i + 1, n, safety, shoal);
        let k = before.len() as int;
        assert(out.take(after.len() as int)[k] == contour_layer());
        assert(out.take(after.len() as int)[k + 1] == safety_layer(safety));
        assert(out[k] == contour_layer() && out[k + 1] == safety_layer(safety));
    }
}

/// A vector style has the layers made of those of its template and the tiles of
/// the given address and zoom levels under the name `enc`; whatever else the
/// template holds stays.
pub proof fn a_vector_style_is_its_template_with_tiles(
    template: JsonView,
    safety: Option<serde_json::Number>,
    shoal: Option<serde_json::Number>,
    tile_url: Seq<char>,
    min_zoom: u8,
    max_zoom: u8,
    other: Seq<char>,
)
    requires
        template_layers(template) is Some,
        other != "layers"@,
        other != "sources"@,
    ensures
        ({
            let style = vector_style(template, safety, shoal, vector_sources(tile_url, min_zoom, max_zoom));
            let layers = template_layers(template)->0;
            &&& member(style, "layers"@) == Some(
                JsonView::List(rebuilt(layers, layers.len() as int, safety, shoal)),
            )
            &&& member(style, other) == member(template, other)
            &&& member(style, "sources"@) matches Some(sources) && member(sources, "enc"@) matches Some(source) && {
                &&& member(source, "type"@) == Some(JsonView::Text("vector"@))
                &&& member(source, "tiles"@) == Some(JsonView::List(seq![JsonView::Text(tile_url)]))
                &&& member(source, "minzoom"@) == Some(JsonView::Number(digits_of(min_zoom as int)))
                &&& member(source, "maxzoom"@) == Some(JsonView::Number(digits_of(max_zoom as int)))
            }
        }),
{
    reveal_strlit("layers");
    reveal_strlit("sources");
    reveal_strlit("type");
    reveal_strlit("encoding");
    reveal_strlit("tiles");
    reveal_strlit("minzoom");
    reveal_strlit("maxzoom");
    assert("layers"@.len() != "sources"@.len());
    assert("minzoom"@[1] != "maxzoom"@[1]);
    assert("type"@.len() == 4 && "encoding"@.len() == 8 && "tiles"@.len() == 5 && "minzoom"@.len() == 7
        && "maxzoom"@.len() == 7);
    let entries = template->Object_0;
    let layers = template_layers(template)->0;
    let built = JsonView::List(rebuilt(layers, layers.len() as int, safety, shoal));
    let sources = vector_sources(tile_url, min_zoom, max_zoom);
    let mid = updated(entries, "layers"@, built);
    set_key_is_seen(entries, "layers"@, built, other);
    set_key_is_seen(mid, "sources"@, sources, "layers"@);
    set_key_is_seen(mid, "sources"@, sources, other);
    lemma_lookup(sources->Object_0, "enc"@, 0, 0);
    let source = sources->Object_0[0].1->Object_0;
    lemma_lookup(source, "type"@, 0, 0);
    lemma_lookup(source, "tiles"@, 2, 0);
    lemma_lookup(source, "minzoom"@, 3, 0);
    lemma_lookup(source, "maxzoom"@, 4, 0);
}

/// A raster style shows, in one layer, the tiles of the given address and zoom
/// levels, 256 pixels a side.
pub proof fn a_raster_style_shows_its_tiles(tile_url: Seq<char>, min_zoom: u8, max_zoom: u8)
    ensures
        ({
            let style = raster_style(tile_url, min_zoom, max_zoom);
            &&& member(style, "layers"@) matches Some(JsonView::List(layers)) && layers.len() == 1 && member(
                layers[0],
                "type"@,
            ) == Some(JsonView::Text("raster"@)) && member(layers[0], "source"@) == Some(JsonView::Text("raster"@))
            &&& member(style, "sources"@) matches Some(sources) && member(sources, "raster"@) matches Some(source) && {
                &&& member(source, "type"@) == Some(JsonView::Text("raster"@))
                &&& member(source, "tiles"@) == Some(JsonView::List(seq![JsonView::Text(tile_url)]))
                &&& member(source, "tileSize"@) == Some(JsonView::Number(digits_of(256)))
                &&& member(source, "minzoom"@) == Some(JsonView::Number(digits_of(min_zoom as int)))
                &&& member(source, "maxzoom"@) == Some(JsonView::Number(digits_of(max_zoom as int)))
            }
        }),
{
    reveal_strlit("version");
    reveal_strlit("layers");
    reveal_strlit("sources");
    reveal_strlit("type");
    reveal_strlit("id");
    reveal_strlit("source");
    reveal_strlit("tiles");
    reveal_strlit("tileSize");
    reveal_strlit("minzoom");
    reveal_strlit("maxzoom");
    assert("version"@[0] == 'v' && "sources"@[0] == 's' && "layers"@.len() == 6 && "version"@.len() == 7
        && "sources"@.len() == 7);
    assert("type"@.len() == 4 && "tiles"@.len() == 5 && "tileSize"@.len() == 8 && "minzoom"@.len() == 7
        && "maxzoom"@.len() == 7 && "id"@.len() == 2 && "source"@.len() == 6);
    assert("minzoom"@[1] != "maxzoom"@[1]);
    let doc = raster_style(tile_url, min_zoom, max_zoom)->Object_0;
    lemma_lookup(doc, "sources"@, 1, 0);
    lemma_lookup(doc, "layers"@, 2, 0);
    let layer = doc[2].1->List_0[0]->Object_0;
    lemma_lookup(layer, "type"@, 1, 0);
    lemma_lookup(layer, "source"@, 2, 0);
    lemma_lookup(doc[1].1->Object_0, "raster"@, 0, 0);
    let source = doc[1].1->Object_0[0].1->Object_0;
    lemma_lookup(source, "type"@, 0, 0);
    lemma_lookup(source, "tiles"@, 1, 0);
    lemma_lookup(source, "tileSize"@, 2, 0);
    lemma_lookup(source, "minzoom"@, 3, 0);
    lemma_lookup(source, "maxzoom"@, 4, 0);
}

/// The fill of depth areas is where the first layer of depth areas was: behind the
/// other layers that came before it, and before those that came behind it. The
/// contours are where the layer of contours was.
pub proof fn generated_layers_keep_their_place(
    layers: Seq<JsonView>,
    safety: Option<serde_json::Number>,
    shoal: Option<serde_json::Number>,
    i: int,
    j: int,
) -> (at: (int, int))
    requires
        0 <= i < layers.len(),
        0 <= j < layers.len(),
        !is_made_anew(layers[i]),
        layer_id(layers[j]) == "DEPCNT"@ || (is_prefix("DEPARE"@, layer_id(layers[j])) && forall|k: int|
            0 <= k < j ==> !is_prefix("DEPARE"@, layer_id(#[trigger] layers[k]))),
    ensures
        ({
            let out = rebuilt(layers, layers.len() as int, safety, shoal);
            &&& 0 <= at.0 < out.len() && 0 <= at.1 < out.len()
            &&& out[at.0] == layers[i]
            &&& out[at.1] == (if layer_id(layers[j]) == "DEPCNT"@ {
                contour_layer()
            } else {
                depth_area_layer(safety, shoal)
            })
            &&& i < j ==> at.0 < at.1
            &&& j < i ==> at.1 < at.0
        }),
{
    reveal_strlit("DEPARE");
    reveal_strlit("DEPCNT");
    assert("DEPARE"@.len() == 6 && "DEPCNT"@.len() == 6 && "DEPARE"@[3] == 'A' && "DEPCNT"@[3] == 'C');
    assert("DEPCNT"@.take(6) =~= "DEPCNT"@);
    let n = layers.len() as int;
    let out = rebuilt(layers, n, safety, shoal);
    let at_i = rebuilt(layers, i, safety, shoal);
    let at_j = rebuilt(layers, j, safety, shoal);
    let to_i = rebuilt(layers, i + 1, safety, shoal);
    let to_j = rebuilt(layers, j + 1, safety, shoal);
    assert(to_i == at_i.push(layers[i]));
    if layer_id(layers[j]) != "DEPCNT"@ {
        assert(!has_depth_area(layers, j));
    }
    assert(to_j.len() > at_j.len());
    if i < j {
        lemma_rebuilt_prefix(layers, i + 1, j, safety, shoal);
    } else if j < i {
        lemma_rebuilt_prefix(layers, j + 1, i, safety, shoal);
    }
    lemma_rebuilt_prefix(layers, i + 1, n, safety, shoal);
    lemma_rebuilt_prefix(layers, j + 1, n, safety, shoal);
    let a = at_i.len() as int;
    let b = at_j.len() as int;
    assert(out.take(to_i.len() as int)[a] == layers[i]);
    assert(out.take(to_j.len() as int)[b] == to_j[b]);
    (a, b)
}

/// Contours are drawn thin and blue, and the safety contour strong and red.
pub proof fn the_safety_contour_stands_out(safety: Option<serde_json::Number>)
    ensures
        member(contour_layer(), "paint"@) matches Some(paint) && member(paint, "line-color"@) == Some(
            JsonView::Text("#5dade2"@),
        ) && member(paint, "line-width"@) == Some(JsonView::Number("0.5"@)) && member(paint, "line-opacity"@) == Some(
            JsonView::Number("0.7"@),
        ),
        member(safety_layer(safety), "paint"@) matches Some(paint) && member(paint, "line-color"@) == Some(
            JsonView::Text("#e74c3c"@),
        ) && member(paint, "line-width"@) == Some(JsonView::Number("2.0"@)) && member(paint, "line-opacity"@) == Some(
            JsonView::Number("1.0"@),
        ),
{
    lemma_member_keys();
    reveal_strlit("line-color");
    reveal_strlit("line-width");
    reveal_strlit("line-opacity");
    assert("line-color"@.len() == 10 && "line-width"@.len() == 10 && "line-opacity"@.len() == 12);
    assert("line-color"@[5] == 'c' && "line-width"@[5] == 'w');
    let base = contour_layer()->Object_0;
    let strong = safety_layer(safety)->Object_0;
    lemma_lookup(base, "paint"@, 4, 0);
    lemma_lookup(strong, "paint"@, 5, 0);
    let a = base[4].1->Object_0;
    let b = strong[5].1->Object_0;
    lemma_lookup(a, "line-color"@, 0, 0);
    lemma_lookup(a, "line-width"@, 1, 0);
    lemma_lookup(a, "line-opacity"@, 2, 0);
    lemma_lookup(b, "line-color"@, 0, 0);
    lemma_lookup(b, "line-width"@, 1, 0);
    lemma_lookup(b, "line-opacity"@, 2, 0);
}

} // verus!
