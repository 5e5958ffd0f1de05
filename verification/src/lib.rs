//! Verified core of a nautical chart tiler: chart file formats, coverage
//! algebra, tile selection and tile content assembly.

pub mod accumulator;
pub mod bbox;
pub mod bytes;
pub mod convert;
pub mod edition_date;
pub mod hilbert;
pub mod json;
pub mod lattice;
pub mod layer;
pub mod lights;
pub mod oesu;
pub mod oesu_records;
pub mod osenc;
pub mod osenc_records;
pub mod png;
pub mod quilt;
pub mod rect_union;
pub mod region;
pub mod rnc;
pub mod rnc_footer;
pub mod rnc_format;
pub mod rnc_source;
pub mod s57;
pub mod s57_source;
pub mod scalar;
pub mod senc;
pub mod server;
pub mod style;
pub mod text;
pub mod text_table;
pub mod tiles;
