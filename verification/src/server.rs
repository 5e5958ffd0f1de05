//! Decisions of the programs around the library: which kind of input they were
//! given, and how a tile server answers.
use vstd::prelude::*;
use crate::json::{compact_text, item_views, json_value, plain_numbers, pretty_text, text_view, Json, JsonView};
use crate::style::{
    build_raster_style, build_style, raster_style, template_layers, vector_sources, vector_style,
};
use crate::text::chars_of;

verus! {

// ── Input ────────────────────────────────────────────────────────────────────

/// The two kinds of cells.
#[derive(Debug, Clone, Copy, PartialEq, Eq, Structural)]
pub enum SourceKind {
    Vector,
    Raster,
}

/// Raster and vector cells cannot be put into one set of tiles.
#[derive(Debug, Clone, Copy, PartialEq, Eq, Structural)]
pub struct MixedInputs {
    pub raster: usize,
    pub total: usize,
}

/// The lower case of an ASCII letter; any other character is its own.
pub open spec fn ascii_lower(c: char) -> char {
    if 'A' <= c <= 'Z' {
        ((c as u8) + 0x20) as u8 as char
    } else {
        c
    }
}

/// The file name extension of raster cells, in any case.
pub open spec fn is_raster_extension(t: Seq<char>) -> bool {
    t.len() == 3 && ascii_lower(t[0]) == 'r' && ascii_lower(t[1]) == 'n' && ascii_lower(t[2]) == 'c'
}

/// Whether a file name extension is that of raster cells.
pub fn is_rnc(extension: Option<&str>) -> (r: bool)
    ensures
        r == (extension matches Some(t) && is_raster_extension(t@)),
{
    match extension {
        Some(t) => {
            let c: Vec<char> = chars_of(t);
            c.len() == 3 && (c[0] == 'r' || c[0] == 'R') && (c[1] == 'n' || c[1] == 'N') && (c[2] == 'c' || c[2]
                == 'C')
        },
        None => false,
    }
}

/// The kind of cells of a run: all of them must be of one kind.
pub fn source_kind(raster: usize, total: usize) -> (r: Result<SourceKind, MixedInputs>)
    ensures
        r == (if raster == 0 {
            Ok(SourceKind::Vector)
        } else if raster == total {
            Ok(SourceKind::Raster)
        } else {
            Err(MixedInputs { raster, total })
        }),
{
    if raster == 0 {
        Ok(SourceKind::Vector)
    } else if raster == total {
        Ok(SourceKind::Raster)
    } else {
        Err(MixedInputs { raster, total })
    }
}

// ── Archive metadata ─────────────────────────────────────────────────────────

/// The metadata of an archive.
pub open spec fn metadata() -> JsonView {
    JsonView::Object(
        seq![
            ("name"@, JsonView::Text("chart"@)),
            ("description"@, JsonView::Text("Nautical chart — converted from OESU"@)),
            ("vector_layers"@, JsonView::List(Seq::empty())),
        ],
    )
}

/// The text of the metadata of an archive.
pub fn build_metadata() -> (t: String)
    ensures
        json_value(metadata()) matches Some(v) && t@ == compact_text(v),
{
    let none: Vec<Json> = Vec::new();
    assert(item_views(none@) =~= Seq::empty());
    let entries: Vec<(String, Json)> = vec![
        Json::entry("name", Json::text("chart")),
        Json::entry("description", Json::text("Nautical chart — converted from OESU")),
        Json::entry("vector_layers", Json::list(none)),
    ];
    let j: Json = Json::object(entries);
    proof {
        let told = metadata()->Object_0;
        assert(j@->Object_0 =~= told);
        assert(plain_numbers(told[0].1) && plain_numbers(told[1].1) && plain_numbers(told[2].1));
    }
    j.compact().unwrap()
}

// ── Tile server ──────────────────────────────────────────────────────────────

/// What came of rendering a tile.
#[derive(Debug, Clone, Copy, PartialEq, Eq, Structural)]
pub enum TileOutcome {
    /// A tile.
    Rendered,
    /// Nothing covers the tile.
    Nothing,
    /// Rendering failed.
    Failed,
}

/// The media type of tiles.
pub fn content_type(kind: SourceKind) -> (t: &'static str)
    ensures
        t@ == (match kind {
            SourceKind::Vector => "application/x-protobuf"@,
            SourceKind::Raster => "image/png"@,
        }),
{
    match kind {
        SourceKind::Vector => "application/x-protobuf",
        SourceKind::Raster => "image/png",
    }
}

/// The status of the answer to a request for a tile.
pub fn tile_status(outcome: TileOutcome) -> (s: u16)
    ensures
        s == (match outcome {
            TileOutcome::Rendered => 200u16,
            TileOutcome::Nothing => 204,
            TileOutcome::Failed => 500,
        }),
{
    match outcome {
        TileOutcome::Rendered => 200,
        TileOutcome::Nothing => 204,
        TileOutcome::Failed => 500,
    }
}

/// The weight of a cached tile of the given size, or of the knowledge that there
/// is none. Of a size that does not fit into 32 bits the lowest 32 count.
pub fn tile_weight(size: Option<usize>) -> (w: u32)
    requires
        size matches Some(n) ==> n as int % 0x1_0000_0000 + 64 <= u32::MAX,
    ensures
        w == (match size {
            Some(n) => n as int % 0x1_0000_0000 + 64,
            None => 64,
        }),
{
    match size {
        Some(n) => (n as u64 % 0x1_0000_0000) as u32 + 64,
        None => 64,
    }
}

/// The size of a cache in bytes; none where it is switched off.
pub fn cache_capacity(megabytes: u64) -> (r: Option<u64>)
    requires
        megabytes * 1_048_576 <= u64::MAX,
    ensures
        r == (if megabytes > 0 {
            Some((megabytes * 1_048_576) as u64)
        } else {
            None
        }),
{
    if megabytes > 0 {
        Some(megabytes * 1_048_576)
    } else {
        None
    }
}

/// The address under which the server is reached: the one that it was given, or
/// else the host that a request was sent to.
pub open spec fn address(public_url: Option<Seq<char>>, host: Option<Seq<char>>) -> Seq<char> {
    match public_url {
        Some(url) => url,
        None => match host {
            Some(h) => "http://"@ + h,
            None => "http://"@ + "localhost:3000"@,
        },
    }
}

/// The address under which the server is reached.
pub fn base_url(public_url: &Option<String>, host: Option<&str>) -> (t: String)
    ensures
        t@ == address(
            match public_url {
                Some(u) => Some(u@),
                None => None,
            },
            match host {
                Some(h) => Some(h@),
                None => None,
            },
        ),
{
    match public_url {
        Some(url) => url.clone(),
        None => {
            let mut t: String = "http://".to_owned();
            match host {
                Some(h) => {
                    t.append(h);
                },
                None => {
                    t.append("localhost:3000");
                },
            }
            t
        },
    }
}

/// The template of tile addresses.
pub fn tile_url(base: &str) -> (t: String)
    ensures
        t@ == base@ + "/tiles/{z}/{x}/{y}"@,
{
    let mut t: String = base.to_owned();
    t.append("/tiles/{z}/{x}/{y}");
    t
}

/// The style of the tiles of a server. `None` where the text of the template of
/// the vector style is of no use.
pub fn style_json(
    kind: SourceKind,
    template: &str,
    safety: &Option<serde_json::Number>,
    shoal: &Option<serde_json::Number>,
    tile_url: &str,
    min_zoom: u8,
    max_zoom: u8,
) -> (r: Option<String>)
    ensures
        match kind {
            SourceKind::Raster => r is Some && (json_value(raster_style(tile_url@, min_zoom, max_zoom)) matches Some(
                v,
            ) && r->0@ == pretty_text(v)),
            SourceKind::Vector => match text_view(template@) {
                Some(t) => {
                    let style = vector_style(
                        t,
                        *safety,
                        *shoal,
                        vector_sources(tile_url@, min_zoom, max_zoom),
                    );
                    if template_layers(t) is None {
                        r is None
                    } else {
                        &&& r is Some
                        &&& json_value(style) matches Some(v) && r->0@ == pretty_text(v)
                    }
                },
                None => r is None,
            },
        },
{
    match kind {
        SourceKind::Raster => Some(build_raster_style(tile_url, min_zoom, max_zoom)),
        SourceKind::Vector => build_style(template, safety, shoal, tile_url, min_zoom, max_zoom),
    }
}

/// Raster cells are known by the extension `rnc`, each letter in either case, and by
/// no other.
pub proof fn raster_cells_are_known_by_extension(t: Seq<char>)
    ensures
        is_raster_extension(t) <==> t.len() == 3 && (t[0] == 'r' || t[0] == 'R') && (t[1] == 'n' || t[1] == 'N') && (
        t[2] == 'c' || t[2] == 'C'),
{
}

/// A given address is used whatever host a request was sent to. Without one the
/// address is `http://` and the host, and that of the default port on this machine
/// where the request names none.
pub proof fn the_given_address_counts(url: Seq<char>, h: Seq<char>, host: Option<Seq<char>>)
    ensures
        address(Some(url), host) == url,
        address(None, Some(h)).len() == 7 + h.len(),
        address(None, Some(h)).skip(7) == h,
        address(None, Some(h)).take(7) == "http://"@,
        address(None, None) == address(None, Some("localhost:3000"@)),
{
    reveal_strlit("http://");
    assert(address(None, Some(h)).skip(7) =~= h);
    assert(address(None, Some(h)).take(7) =~= "http://"@);
}

} // verus!
