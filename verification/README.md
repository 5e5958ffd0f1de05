# quilt_tiler

Turns nautical charts into map tiles. Charts of different scales overlap; each
tile is quilted from the charts that suit its zoom level best, and no part of it
is painted twice.

## Layout

- `src/` is the verified library.
  - Chart formats: `oesu` and `osenc` (vector streams, on the record parsers in
    `senc`), `rnc_format`, `rnc_footer` and `rnc` (raster cells).
  - Coverage and tile selection: `lattice`, `bbox`, `rect_union`, `tiles`,
    `hilbert`, `edition_date`.
  - Tile content: `s57_source`, `lights`, `layer`, `accumulator` (vector),
    `rnc_source`, `png` (raster).
  - GeoJSON: `convert`, and `quilt` for the hand-over between charts.
  - Map styles and the tile server's answers: `json`, `style`, `server`.
- `tests/` runs the library against `geo`, `image` and `serde_json`.
- `app/` is the program around it: file and network access, map projections and
  plane geometry in floating point.

## Numbers

The library compares and carries coordinates, but does not compute with them. A
coordinate is the bit pattern of a binary64 number (`scalar::Real`), ordered by
the integer that the pattern spells. Projections and polygon operations are handed
in as functions or as implementations of small traits; contracts state the results
over whatever these return.
