//! Decrypted `.oesu` streams.
//!
//! A stream starts with a server status record (200) and a version record (1).
//! The records after them describe the cell: header fields, extent, coverage,
//! texts, features with their attributes and geometry, and the vector tables
//! that geometry refers to.
use std::collections::HashMap;
use vstd::prelude::*;
use vstd::std_specs::hash::*;
use crate::bbox::Bbox;
use crate::bytes::{le16, le32, read_real, read_single, read_u16, read_u32, real_at, single_at};
use crate::edition_date::{ccyymmdd_key, EditionDate};
use crate::s57::{closed_ring, copy_ring, polygon_of, Feature, Geometry, Polygon, PolygonView, S57Cell, ShapeView};
use crate::scalar::{Position, Real};
use crate::senc::area::{area_fault, area_of, parse_area_payload};
use crate::senc::collect::{
    attribute_of, bounds_of, line_of, multipoint_of, point_of, read_bounds, read_line, read_multipoint,
    read_point, Collector, CollectorView,
};
use crate::senc::place::{
    place_edges, place_nodes, place_soundings, placed, placed_edges, placed_list, placed_nodes, projects_all,
};
use crate::senc::rings::{
    all_connect, along, are_cuts, build_ring, build_rings, closed, each_edge_is_walked, is_cut, line, lines_end_at_the_last_node, lists, node_place,
    ring_refs, rings, rings_follow_the_cuts, sound, walks, Heading,
};
use crate::senc::tables::{contents, with_edges, with_nodes, Tables, TablesView};
use crate::senc::{
    views, AreaView, AttributeView, Coding, EdgeRef, FeatureView, GeometryView, RawFeature, RawGeometry, RawSounding,
    SmPoint,
};
use crate::text::{
    c_text, from_utf8_lossy, lossy_text, number_text, read_cstring, trim_zeros, trimmed, with_number,
};
use crate::text_table::TextTable;

verus! {

broadcast use group_hash_axioms;

/// Why a stream is refused.
#[derive(Debug, Clone, Copy, PartialEq, Eq, Structural)]
pub enum SencError {
    /// There is no room for a record header.
    TooShort { len: usize },
    /// The file is a BSB raster chart.
    RasterChart,
    /// The first record is no server status.
    NotServerStatus { rec_type: u16 },
    /// The server status record has no room for its fields.
    StatusTooShort { rec_len: u32 },
    /// The file ends inside the server status record.
    StatusTruncated,
    /// The chart was not decrypted.
    DecryptFailed { server_status: u16 },
    /// The chart license has expired.
    Expired { expire_days: u16, grace_days: u16 },
    /// There is no room for a version record.
    VersionMissing,
    /// Raster data follows the server status.
    VersionRaster,
    /// The second record is no version.
    NotVersion { rec_type: u16 },
    /// The version record has no room for its field.
    VersionTooShort { rec_len: u32 },
    /// The version is the sentinel of a failed signature.
    SignatureFailure,
    /// The version is outside 200 to 299.
    UnsupportedVersion { version: u16 },
    /// The stream ends inside a payload.
    TruncatedRecord { rec_type: u16 },
}

impl SencError {
    /// The sentence that tells a user what is wrong.
    pub open spec fn sentence(self) -> Seq<char> {
        match self {
            SencError::TooShort { len } => with_number(
                "file too short to be a valid SENC stream ("@,
                len as int,
                " bytes)"@,
            ),
            SencError::RasterChart => "file is a BSB raster chart (.oernc), not a vector SENC (.oesu); raster charts are not supported by this tool"@,
            SencError::NotServerStatus { rec_type } => with_number(
                "expected SERVER_STATUS_RECORD (200) as first record, found type "@,
                rec_type as int,
                "; the file may be corrupt, still encrypted, or a raster chart (.oernc)"@,
            ),
            SencError::StatusTooShort { rec_len } => with_number(
                "SERVER_STATUS_RECORD too short ("@,
                rec_len as int,
                " bytes, need at least 18)"@,
            ),
            SencError::StatusTruncated => "file truncated inside SERVER_STATUS_RECORD"@,
            SencError::DecryptFailed { server_status } => with_number(
                "chart decryption/signature failure (decryptStatus=0, serverStatus="@,
                server_status as int,
                "); the chart key may be missing or invalid"@,
            ),
            SencError::Expired { expire_days, grace_days } => with_number(
                "chart license has expired (expireStatus=0, expireDays="@,
                expire_days as int,
                ", graceDays="@,
            ) + with_number(
                ""@,
                grace_days as int,
                "); renew your chart subscription to continue using this chart"@,
            ),
            SencError::VersionMissing => "file too short to contain a SENC version record"@,
            SencError::VersionRaster => "expected SENC version record after SERVER_STATUS, found BSB raster data; this appears to be an .oernc raster chart, which is not supported"@,
            SencError::NotVersion { rec_type } => with_number(
                "expected HEADER_SENC_VERSION (type 1) after server status, found type "@,
                rec_type as int,
                "; the file may be corrupt or in an unknown format"@,
            ),
            SencError::VersionTooShort { rec_len } => with_number(
                "HEADER_SENC_VERSION record too short ("@,
                rec_len as int,
                " bytes, need 8)"@,
            ),
            SencError::SignatureFailure => "SENC version 1024 is a signature-failure sentinel; the chart key is invalid or the file is corrupt"@,
            SencError::UnsupportedVersion { version } => with_number(
                "unsupported SENC version "@,
                version as int,
                " (valid range is 200–299); this file requires a newer parser or is in an incompatible format"@,
            ),
            SencError::TruncatedRecord { rec_type } => with_number("reading payload of record type "@, rec_type as int, ""@),
        }
    }

    /// A sentence for a log or an error message.
    pub fn message(&self) -> (t: String)
        ensures
            t@ == self.sentence(),
    {
        match self {
            SencError::TooShort { len } => number_text(
                "file too short to be a valid SENC stream (",
                *len as u64,
                " bytes)",
            ),
            SencError::RasterChart => "file is a BSB raster chart (.oernc), not a vector SENC (.oesu); raster charts are not supported by this tool".to_owned(),
            SencError::NotServerStatus { rec_type } => number_text(
                "expected SERVER_STATUS_RECORD (200) as first record, found type ",
                *rec_type as u64,
                "; the file may be corrupt, still encrypted, or a raster chart (.oernc)",
            ),
            SencError::StatusTooShort { rec_len } => number_text(
                "SERVER_STATUS_RECORD too short (",
                *rec_len as u64,
                " bytes, need at least 18)",
            ),
            SencError::StatusTruncated => "file truncated inside SERVER_STATUS_RECORD".to_owned(),
            SencError::DecryptFailed { server_status } => number_text(
                "chart decryption/signature failure (decryptStatus=0, serverStatus=",
                *server_status as u64,
                "); the chart key may be missing or invalid",
            ),
            SencError::Expired { expire_days, grace_days } => {
                let mut t: String = number_text(
                    "chart license has expired (expireStatus=0, expireDays=",
                    *expire_days as u64,
                    ", graceDays=",
                );
                let rest: String = number_text(
                    "",
                    *grace_days as u64,
                    "); renew your chart subscription to continue using this chart",
                );
                t.append(rest.as_str());
                t
            },
            SencError::VersionMissing => "file too short to contain a SENC version record".to_owned(),
            SencError::VersionRaster => "expected SENC version record after SERVER_STATUS, found BSB raster data; this appears to be an .oernc raster chart, which is not supported".to_owned(),
            SencError::NotVersion { rec_type } => number_text(
                "expected HEADER_SENC_VERSION (type 1) after server status, found type ",
                *rec_type as u64,
                "; the file may be corrupt or in an unknown format",
            ),
            SencError::VersionTooShort { rec_len } => number_text(
                "HEADER_SENC_VERSION record too short (",
                *rec_len as u64,
                " bytes, need 8)",
            ),
            SencError::SignatureFailure => "SENC version 1024 is a signature-failure sentinel; the chart key is invalid or the file is corrupt".to_owned(),
            SencError::UnsupportedVersion { version } => number_text(
                "unsupported SENC version ",
                *version as u64,
                " (valid range is 200–299); this file requires a newer parser or is in an incompatible format",
            ),
            SencError::TruncatedRecord { rec_type } => number_text("reading payload of record type ", *rec_type as u64, ""),
        }
    }
}

// ── Prologue ─────────────────────────────────────────────────────────────────

/// The data starts with a signature of BSB raster charts, `!BSB` or `BSB/`.
pub open spec fn raster_signature(s: Seq<u8>) -> bool {
    s.len() >= 4 && (s.take(4) == seq![0x21u8, 0x42u8, 0x53u8, 0x42u8] || s.take(4) == seq![
        0x42u8,
        0x53u8,
        0x42u8,
        0x2Fu8,
    ])
}

/// What is wrong with the server status record at the start of `s`. Its fields
/// are server, decryption and expiry status, the days until expiry, and the
/// days of grace allowed and remaining.
pub open spec fn status_fault(s: Seq<u8>) -> Option<SencError> {
    if s.len() < 6 {
        Some(SencError::TooShort { len: s.len() as usize })
    } else if le16(s, 0) != 200 {
        if raster_signature(s) {
            Some(SencError::RasterChart)
        } else {
            Some(SencError::NotServerStatus { rec_type: le16(s, 0) })
        }
    } else if le32(s, 2) < 18 {
        Some(SencError::StatusTooShort { rec_len: le32(s, 2) })
    } else if s.len() < le32(s, 2) {
        Some(SencError::StatusTruncated)
    } else if le16(s, 8) == 0 {
        Some(SencError::DecryptFailed { server_status: le16(s, 6) })
    } else if le16(s, 10) == 0 {
        Some(SencError::Expired { expire_days: le16(s, 12), grace_days: le16(s, 16) })
    } else {
        None
    }
}

/// The days until expiry that a server status record names.
pub open spec fn days_to_expiry(s: Seq<u8>) -> u16 {
    le16(s, 12)
}

/// The days of grace that remain by a server status record.
pub open spec fn days_of_grace(s: Seq<u8>) -> u16 {
    le16(s, 16)
}

/// The version that a version record names.
pub open spec fn version_named(s: Seq<u8>) -> u16 {
    le16(s, 6)
}

/// What is wrong with the version record at the start of `s`.
pub open spec fn version_fault(s: Seq<u8>) -> Option<SencError> {
    if s.len() < 8 {
        Some(SencError::VersionMissing)
    } else if le16(s, 0) != 1 {
        if raster_signature(s) {
            Some(SencError::VersionRaster)
        } else {
            Some(SencError::NotVersion { rec_type: le16(s, 0) })
        }
    } else if le32(s, 2) < 8 {
        Some(SencError::VersionTooShort { rec_len: le32(s, 2) })
    } else if le16(s, 6) == 1024 {
        Some(SencError::SignatureFailure)
    } else if le16(s, 6) < 200 || le16(s, 6) > 299 {
        Some(SencError::UnsupportedVersion { version: le16(s, 6) })
    } else {
        None
    }
}

fn is_raster(data: &[u8]) -> (r: bool)
    ensures
        r == raster_signature(data@),
{
    if data.len() < 4 {
        return false;
    }
    let b0: u8 = data[0];
    let b1: u8 = data[1];
    let b2: u8 = data[2];
    let b3: u8 = data[3];
    let r: bool = (b0 == 0x21 && b1 == 0x42 && b2 == 0x53 && b3 == 0x42) || (b0 == 0x42 && b1 == 0x53 && b2
        == 0x42 && b3 == 0x2F);
    proof {
        let head = data@.take(4);
        let first = seq![0x21u8, 0x42u8, 0x53u8, 0x42u8];
        let second = seq![0x42u8, 0x53u8, 0x42u8, 0x2Fu8];
        assert(head[0] == b0 && head[1] == b1 && head[2] == b2 && head[3] == b3);
        if b0 == 0x21 && b1 == 0x42 && b2 == 0x53 && b3 == 0x42 {
            assert(head =~= first);
        }
        if b0 == 0x42 && b1 == 0x53 && b2 == 0x42 && b3 == 0x2F {
            assert(head =~= second);
        }
    }
    r
}

/// Checks the server status record and returns what follows it, the days until
/// expiry and the days of grace that remain.
pub fn strip_server_status(data: &[u8]) -> (r: Result<(&[u8], u16, u16), SencError>)
    ensures
        match r {
            Ok((rest, expire_days, grace_days)) => {
                &&& status_fault(data@) is None
                &&& rest@ == data@.skip(le32(data@, 2) as int)
                &&& expire_days == days_to_expiry(data@)
                &&& grace_days == days_of_grace(data@)
            },
            Err(e) => status_fault(data@) == Some(e),
        },
{
    let len: usize = data.len();
    if len < 6 {
        return Err(SencError::TooShort { len });
    }
    let rec_type: u16 = read_u16(data, 0);
    let rec_len: u32 = read_u32(data, 2);
    if rec_type != 200 {
        if is_raster(data) {
            return Err(SencError::RasterChart);
        }
        return Err(SencError::NotServerStatus { rec_type });
    }
    if rec_len < 18 {
        return Err(SencError::StatusTooShort { rec_len });
    }
    if (len as u64) < rec_len as u64 {
        return Err(SencError::StatusTruncated);
    }
    let server_status: u16 = read_u16(data, 6);
    let decrypt_status: u16 = read_u16(data, 8);
    let expire_status: u16 = read_u16(data, 10);
    let expire_days: u16 = read_u16(data, 12);
    let grace_days: u16 = read_u16(data, 16);
    if decrypt_status == 0 {
        return Err(SencError::DecryptFailed { server_status });
    }
    if expire_status == 0 {
        return Err(SencError::Expired { expire_days, grace_days });
    }
    Ok((vstd::slice::slice_subrange(data, rec_len as usize, len), expire_days, grace_days))
}

/// Checks the version record at the start of `data` and returns the version.
pub fn read_senc_version(data: &[u8]) -> (r: Result<u16, SencError>)
    ensures
        match r {
            Ok(version) => version_fault(data@) is None && version == version_named(data@),
            Err(e) => version_fault(data@) == Some(e),
        },
{
    if data.len() < 8 {
        return Err(SencError::VersionMissing);
    }
    let rec_type: u16 = read_u16(data, 0);
    let rec_len: u32 = read_u32(data, 2);
    if rec_type != 1 {
        if is_raster(data) {
            return Err(SencError::VersionRaster);
        }
        return Err(SencError::NotVersion { rec_type });
    }
    if rec_len < 8 {
        return Err(SencError::VersionTooShort { rec_len });
    }
    let version: u16 = read_u16(data, 6);
    if version == 1024 {
        return Err(SencError::SignatureFailure);
    }
    if version < 200 || version > 299 {
        return Err(SencError::UnsupportedVersion { version });
    }
    Ok(version)
}

// ── Records ──────────────────────────────────────────────────────────────────

/// What the records of a stream have told so far.
#[derive(Debug)]
pub struct Scan {
    pub name: String,
    pub native_scale: u32,
    pub publish_date: String,
    pub edition: u16,
    pub update_date: String,
    pub update_number: u16,
    pub senc_create_date: String,
    pub sounding_datum: String,
    pub bounds: Bbox,
    pub features: Collector,
    pub covr: Vec<Vec<Position>>,
    pub nocovr: Vec<Vec<Position>>,
    pub texts: TextTable,
    pub tables: Tables,
}

/// What a [`Scan`] says.
pub struct ScanView {
    pub name: Seq<char>,
    pub native_scale: u32,
    pub publish_date: Seq<char>,
    pub edition: u16,
    pub update_date: Seq<char>,
    pub update_number: u16,
    pub senc_create_date: Seq<char>,
    pub sounding_datum: Seq<char>,
    pub bounds: Bbox,
    pub features: CollectorView,
    pub covr: Seq<Seq<Position>>,
    pub nocovr: Seq<Seq<Position>>,
    pub texts: Map<Seq<char>, Seq<char>>,
    pub tables: TablesView,
}

impl View for Scan {
    type V = ScanView;

    open spec fn view(&self) -> ScanView {
        ScanView {
            name: self.name@,
            native_scale: self.native_scale,
            publish_date: self.publish_date@,
            edition: self.edition,
            update_date: self.update_date@,
            update_number: self.update_number,
            senc_create_date: self.senc_create_date@,
            sounding_datum: self.sounding_datum@,
            bounds: self.bounds,
            features: self.features@,
            covr: lists(self.covr@),
            nocovr: lists(self.nocovr@),
            texts: self.texts@,
            tables: self.tables@,
        }
    }
}

/// The rectangle of four zeros.
pub open spec fn zero_bounds() -> Bbox {
    let zero = Real { bits: 0 };
    Bbox { west: zero, south: zero, east: zero, north: zero }
}

/// Nothing told.
pub open spec fn blank() -> ScanView {
    ScanView {
        name: Seq::empty(),
        native_scale: 0,
        publish_date: Seq::empty(),
        edition: 0,
        update_date: Seq::empty(),
        update_number: 0,
        senc_create_date: Seq::empty(),
        sounding_datum: Seq::empty(),
        bounds: zero_bounds(),
        features: CollectorView { done: Seq::empty(), current: None },
        covr: Seq::empty(),
        nocovr: Seq::empty(),
        texts: Map::empty(),
        tables: TablesView { edges: Map::empty(), nodes: Map::empty() },
    }
}

/// A text field that is the whole payload; empty where there is none.
pub open spec fn header_text(p: Seq<u8>) -> Seq<char> {
    match c_text(p, 0, p.len() as int) {
        Some(t) => t,
        None => Seq::empty(),
    }
}

/// A number field at the start of the payload; 0 where there is none.
pub open spec fn header_u16(p: Seq<u8>) -> u16 {
    if p.len() >= 2 {
        le16(p, 0)
    } else {
        0
    }
}

/// A number field at the start of the payload; 0 where there is none.
pub open spec fn header_u32(p: Seq<u8>) -> u32 {
    if p.len() >= 4 {
        le32(p, 0)
    } else {
        0
    }
}

/// The ring of a coverage record: a count and that many pairs of latitude and
/// longitude, all of which must be there.
pub open spec fn cover_of(p: Seq<u8>) -> Option<Seq<Position>> {
    if p.len() < 4 || 4 + 8 * le32(p, 0) > p.len() {
        None
    } else {
        Some(
            Seq::new(
                le32(p, 0) as nat,
                |i: int|
                    Position {
                        lon: single_at(p, 4 + 8 * i + 4).widened(),
                        lat: single_at(p, 4 + 8 * i).widened(),
                    },
            ),
        )
    }
}

/// The name and text of a text record: the lengths of both, the name, and the
/// text up to the end of the payload without its trailing zeros. Neither may be
/// empty.
pub open spec fn text_of(p: Seq<u8>) -> Option<(Seq<char>, Seq<char>)> {
    if p.len() < 8 || p.len() <= 8 + le32(p, 0) {
        None
    } else {
        match c_text(p, 8, le32(p, 0) as int) {
            Some(name) => {
                let content = trimmed(lossy_text(p.skip(8 + le32(p, 0) as int)));
                if name.len() > 0 && content.len() > 0 {
                    Some((name, content))
                } else {
                    None
                }
            },
            None => None,
        }
    }
}

/// The geometry of an area record; a faulty one is passed over.
pub open spec fn area_geometry(p: Seq<u8>, ext: bool) -> Option<GeometryView> {
    match area_fault(p, ext) {
        None => Some(GeometryView::Area(area_of(p, ext))),
        Some(_) => None,
    }
}

impl ScanView {
    /// After a record of the given type with the payload `p`.
    #[verifier::opaque]
    pub open spec fn step(self, rec_type: u16, p: Seq<u8>) -> ScanView {
        if rec_type == 2 {
            ScanView { name: header_text(p), ..self }
        } else if rec_type == 3 {
            ScanView { publish_date: header_text(p), ..self }
        } else if rec_type == 4 {
            ScanView { edition: header_u16(p), ..self }
        } else if rec_type == 5 {
            ScanView { update_date: header_text(p), ..self }
        } else if rec_type == 6 {
            ScanView { update_number: header_u16(p), ..self }
        } else if rec_type == 7 {
            ScanView { native_scale: header_u32(p), ..self }
        } else if rec_type == 8 {
            ScanView { senc_create_date: header_text(p), ..self }
        } else if rec_type == 9 {
            ScanView { sounding_datum: header_text(p), ..self }
        } else if rec_type == 64 {
            ScanView { features: self.features.started(p), ..self }
        } else if rec_type == 65 {
            ScanView { features: self.features.described(attribute_of(p)), ..self }
        } else if rec_type == 80 {
            ScanView { features: self.features.shaped(point_of(p)), ..self }
        } else if rec_type == 81 {
            ScanView { features: self.features.shaped(line_of(p)), ..self }
        } else if rec_type == 82 {
            ScanView { features: self.features.shaped(area_geometry(p, false)), ..self }
        } else if rec_type == 83 {
            ScanView { features: self.features.shaped(multipoint_of(p)), ..self }
        } else if rec_type == 84 {
            ScanView { features: self.features.shaped(area_geometry(p, true)), ..self }
        } else {
            self.table_step(rec_type, p)
        }
    }

    /// After a record of a type from 85 on.
    #[verifier::opaque]
    pub open spec fn table_step(self, rec_type: u16, p: Seq<u8>) -> ScanView {
        if rec_type == 85 && p.len() >= 12 {
            ScanView {
                tables: TablesView {
                    edges: with_edges(
                        self.tables.edges,
                        p,
                        12,
                        le32(p, 8) as int,
                        Coding::Scaled(real_at(p, 0)),
                    ),
                    nodes: self.tables.nodes,
                },
                ..self
            }
        } else if rec_type == 86 && p.len() >= 12 {
            ScanView {
                tables: TablesView {
                    edges: self.tables.edges,
                    nodes: with_nodes(
                        self.tables.nodes,
                        p,
                        12,
                        le32(p, 8) as int,
                        Coding::Scaled(real_at(p, 0)),
                    ),
                },
                ..self
            }
        } else if rec_type == 96 && p.len() >= 4 {
            ScanView {
                tables: TablesView {
                    edges: with_edges(self.tables.edges, p, 4, le32(p, 0) as int, Coding::Plain),
                    nodes: self.tables.nodes,
                },
                ..self
            }
        } else if rec_type == 97 && p.len() >= 4 {
            ScanView {
                tables: TablesView {
                    edges: self.tables.edges,
                    nodes: with_nodes(self.tables.nodes, p, 4, le32(p, 0) as int, Coding::Plain),
                },
                ..self
            }
        } else if rec_type == 98 {
            match cover_of(p) {
                Some(ring) => ScanView { covr: self.covr.push(ring), ..self },
                None => self,
            }
        } else if rec_type == 99 {
            match cover_of(p) {
                Some(ring) => ScanView { nocovr: self.nocovr.push(ring), ..self },
                None => self,
            }
        } else if rec_type == 100 {
            match bounds_of(p) {
                Some(bounds) => ScanView { bounds, ..self },
                None => self,
            }
        } else if rec_type == 101 {
            match text_of(p) {
                Some((name, content)) => ScanView { texts: self.texts.insert(name, content), ..self },
                None => self,
            }
        } else {
            self
        }
    }
}

/// What the records from `at` on add to `st`. The stream ends where no record
/// header follows, or one whose length is less than its own six bytes.
pub open spec fn scanned(s: Seq<u8>, at: int, st: ScanView) -> Result<ScanView, SencError>
    decreases s.len() - at,
{
    if at + 6 > s.len() || le32(s, at + 2) < 6 {
        Ok(st)
    } else if at + le32(s, at + 2) > s.len() {
        Err(SencError::TruncatedRecord { rec_type: le16(s, at) })
    } else {
        scanned(
            s,
            at + le32(s, at + 2),
            st.step(le16(s, at), s.subrange(at + 6, at + le32(s, at + 2))),
        )
    }
}

/// Reads a text field that is the whole payload.
pub(crate) fn read_header_text(p: &[u8]) -> (t: String)
    ensures
        t@ == header_text(p@),
{
    match read_cstring(p, 0, p.len()) {
        Some(t) => t,
        None => String::new(),
    }
}

pub(crate) fn read_header_u16(p: &[u8]) -> (v: u16)
    ensures
        v == header_u16(p@),
{
    if p.len() >= 2 {
        read_u16(p, 0)
    } else {
        0
    }
}

pub(crate) fn read_header_u32(p: &[u8]) -> (v: u32)
    ensures
        v == header_u32(p@),
{
    if p.len() >= 4 {
        read_u32(p, 0)
    } else {
        0
    }
}

/// Reads a coverage record.
pub fn parse_covr_payload(p: &[u8]) -> (r: Option<Vec<Position>>)
    ensures
        match r {
            Some(ring) => cover_of(p@) == Some(ring@),
            None => cover_of(p@) is None,
        },
{
    let len: usize = p.len();
    if len < 4 {
        return None;
    }
    let count: u32 = read_u32(p, 0);
    if 4 + 8 * count as u64 > len as u64 {
        return None;
    }
    let n: usize = count as usize;
    let mut out: Vec<Position> = Vec::new();
    let mut i: usize = 0;
    while i < n
        invariant
            i <= n,
            4 + 8 * n <= p@.len(),
            p@.len() <= usize::MAX,
            out@.len() == i,
            forall|k: int|
                0 <= k < i ==> out@[k] == (Position {
                    lon: single_at(p@, 4 + 8 * k + 4).widened(),
                    lat: single_at(p@, 4 + 8 * k).widened(),
                }),
        decreases n - i,
    {
        let q: usize = 4 + 8 * i;
        out.push(Position { lon: read_single(p, q + 4).widen(), lat: read_single(p, q).widen() });
        i += 1;
    }
    assert(out@ =~= cover_of(p@)->0);
    Some(out)
}

/// Reads a text record.
fn read_text(p: &[u8]) -> (r: Option<(String, String)>)
    ensures
        match r {
            Some((name, content)) => text_of(p@) == Some((name@, content@)),
            None => text_of(p@) is None,
        },
{
    let len: usize = p.len();
    if len < 8 {
        return None;
    }
    let name_len: u32 = read_u32(p, 0);
    if len as u64 <= 8 + name_len as u64 {
        return None;
    }
    let start: usize = 8 + name_len as usize;
    assert(p@.skip(start as int) =~= p@.subrange(start as int, len as int));
    match read_cstring(p, 8, name_len as usize) {
        Some(name) => {
            let content: String = trim_zeros(&from_utf8_lossy(vstd::slice::slice_subrange(p, start, len)));
            if !name.as_str().is_empty() && !content.as_str().is_empty() {
                Some((name, content))
            } else {
                None
            }
        },
        None => None,
    }
}

fn read_area(p: &[u8], ext: bool) -> (r: Option<RawGeometry>)
    ensures
        match r {
            Some(g) => area_geometry(p@, ext) == Some(g@),
            None => area_geometry(p@, ext) is None,
        },
{
    match parse_area_payload(p, ext) {
        Ok(a) => Some(RawGeometry::Area(a)),
        Err(_) => None,
    }
}

impl Scan {
    /// Nothing told.
    pub fn new() -> (s: Scan)
        ensures
            s@ == blank(),
    {
        let zero: Real = Real::zero();
        let s = Scan {
            name: String::new(),
            native_scale: 0,
            publish_date: String::new(),
            edition: 0,
            update_date: String::new(),
            update_number: 0,
            senc_create_date: String::new(),
            sounding_datum: String::new(),
            bounds: Bbox { west: zero, south: zero, east: zero, north: zero },
            features: Collector::new(),
            covr: Vec::new(),
            nocovr: Vec::new(),
            texts: TextTable::new(),
            tables: Tables::new(),
        };
        assert(s@.covr =~= Seq::empty());
        assert(s@.nocovr =~= Seq::empty());
        s
    }

    /// Takes a record.
    pub fn apply(&mut self, rec_type: u16, p: &[u8])
        ensures
            final(self)@ == old(self)@.step(rec_type, p@),
    {
        proof {
            reveal(ScanView::step);
        }
        match rec_type {
            2 => {
                self.name = read_header_text(p);
            },
            3 => {
                self.publish_date = read_header_text(p);
            },
            4 => {
                self.edition = read_header_u16(p);
            },
            5 => {
                self.update_date = read_header_text(p);
            },
            6 => {
                self.update_number = read_header_u16(p);
            },
            7 => {
                self.native_scale = read_header_u32(p);
            },
            8 => {
                self.senc_create_date = read_header_text(p);
            },
            9 => {
                self.sounding_datum = read_header_text(p);
            },
            64 => {
                self.features.start(p);
            },
            65 => {
                self.features.describe(p);
            },
            80 => {
                self.features.shape(read_point(p));
            },
            81 => {
                self.features.shape(read_line(p));
            },
            82 => {
                self.features.shape(read_area(p, false));
            },
            83 => {
                self.features.shape(read_multipoint(p));
            },
            84 => {
                self.features.shape(read_area(p, true));
            },
            _ => {
                self.apply_table(rec_type, p);
            },
        }
    }

    fn apply_table(&mut self, rec_type: u16, p: &[u8])
        ensures
            final(self)@ == old(self)@.table_step(rec_type, p@),
    {
        proof {
            reveal(ScanView::table_step);
        }
        let len: usize = p.len();
        match rec_type {
            85 => {
                if len >= 12 {
                    self.tables.add_edges(p, 8, Coding::Scaled(read_real(p, 0)));
                }
            },
            86 => {
                if len >= 12 {
                    self.tables.add_nodes(p, 8, Coding::Scaled(read_real(p, 0)));
                }
            },
            96 => {
                if len >= 4 {
                    self.tables.add_edges(p, 0, Coding::Plain);
                }
            },
            97 => {
                if len >= 4 {
                    self.tables.add_nodes(p, 0, Coding::Plain);
                }
            },
            98 => {
                if let Some(ring) = parse_covr_payload(p) {
                    let ghost before = self.covr@;
                    self.covr.push(ring);
                    assert(lists(self.covr@) =~= lists(before).push(ring@));
                }
            },
            99 => {
                if let Some(ring) = parse_covr_payload(p) {
                    let ghost before = self.nocovr@;
                    self.nocovr.push(ring);
                    assert(lists(self.nocovr@) =~= lists(before).push(ring@));
                }
            },
            100 => {
                if let Some(bounds) = read_bounds(p) {
                    self.bounds = bounds;
                }
            },
            101 => {
                if let Some((name, content)) = read_text(p) {
                    let mut texts: TextTable = TextTable::new();
                    std::mem::swap(&mut texts, &mut self.texts);
                    self.texts = texts.with(name, content);
                }
            },
            _ => {},
        }
    }
}

/// Takes all records of a stream.
pub fn scan_records(data: &[u8]) -> (r: Result<Scan, SencError>)
    ensures
        match r {
            Ok(s) => scanned(data@, 0, blank()) == Ok::<ScanView, SencError>(s@),
            Err(e) => scanned(data@, 0, blank()) == Err::<ScanView, SencError>(e),
        },
{
    let mut scan = Scan::new();
    let len: usize = data.len();
    let mut at: usize = 0;
    while len - at >= 6
        invariant
            at <= len,
            len == data@.len(),
            scanned(data@, 0, blank()) == scanned(data@, at as int, scan@),
        decreases len - at,
    {
        let rec_type: u16 = read_u16(data, at);
        let rec_len: u32 = read_u32(data, at + 2);
        if rec_len < 6 {
            return Ok(scan);
        }
        if ((len - at) as u64) < rec_len as u64 {
            return Err(SencError::TruncatedRecord { rec_type });
        }
        let next: usize = at + rec_len as usize;
        scan.apply(rec_type, vstd::slice::slice_subrange(data, at + 6, next));
        at = next;
    }
    Ok(scan)
}

// ── Geometry ─────────────────────────────────────────────────────────────────

/// `shape` is the geometry `raw`, its references resolved in the placed tables:
/// a line along all edges; an area whose first ring is the exterior and whose
/// other rings are holes. An area without edges, or with a gap in a ring, has
/// no geometry.
pub open spec fn resolved<F: Fn(SmPoint, Bbox) -> Position>(
    raw: GeometryView,
    shape: ShapeView,
    edges: Map<u32, Seq<Position>>,
    nodes: Map<u32, Position>,
    bounds: Bbox,
    from_sm: F,
) -> bool {
    match raw {
        GeometryView::Empty => shape == ShapeView::Empty,
        GeometryView::Point(p) => shape == ShapeView::Point(p),
        GeometryView::Sounding(s) => shape matches ShapeView::Soundings(out) && out.len() == s.len()
            && forall|i: int|
            0 <= i < s.len() ==> (#[trigger] out[i]).depth == s[i].depth && placed(
                from_sm,
                bounds,
                s[i].at,
                out[i].at,
            ),
        GeometryView::Line(refs) => shape == ShapeView::Line(line(refs, edges, nodes, Heading::ByFlag)),
        GeometryView::Area(a) => if a.edge_refs.len() == 0 || !sound(a.edge_refs, 0) {
            shape == ShapeView::Empty
        } else {
            let parts = rings(a.edge_refs, 0, edges, nodes, Heading::ByFlag);
            shape == ShapeView::Area(polygon_of(parts[0], parts.skip(1)))
        },
    }
}

/// Resolves a geometry in the placed tables.
pub fn resolve_geometry<F: Fn(SmPoint, Bbox) -> Position>(
    raw: &RawGeometry,
    bounds: Bbox,
    edges: &HashMap<u32, Vec<Position>>,
    nodes: &HashMap<u32, Position>,
    from_sm: &F,
) -> (g: Geometry)
    requires
        projects_all(*from_sm, bounds),
    ensures
        resolved(raw@, g@, contents(edges@), nodes@, bounds, *from_sm),
{
    match raw {
        RawGeometry::Empty => Geometry::Empty,
        RawGeometry::Point(p) => Geometry::Point(*p),
        RawGeometry::Sounding(list) => Geometry::Soundings(place_soundings(list, bounds, from_sm)),
        RawGeometry::Line(refs) => {
            let l: Vec<Position> = build_ring(refs, 0, refs.len(), edges, nodes, Heading::ByFlag, false);
            assert(refs@.subrange(0, refs@.len() as int) =~= refs@);
            Geometry::Line(l)
        },
        RawGeometry::Area(a) => {
            if a.edge_refs.len() == 0 {
                return Geometry::Empty;
            }
            match build_rings(&a.edge_refs, edges, nodes, Heading::ByFlag) {
                None => Geometry::Empty,
                Some(mut parts) => {
                    let ghost all = lists(parts@);
                    assert(all.len() > 0);
                    let exterior: Vec<Position> = parts.remove(0);
                    assert(lists(parts@) =~= all.skip(1));
                    Geometry::Area(Polygon::new(exterior, parts))
                },
            }
        },
    }
}

// ── Coverage ─────────────────────────────────────────────────────────────────

/// The first `n` of `rings` that are marked.
pub open spec fn marked<T>(rings: Seq<T>, marks: Seq<bool>, n: int) -> Seq<T>
    decreases n,
{
    if n <= 0 {
        Seq::empty()
    } else if marks[n - 1] {
        marked(rings, marks, n - 1).push(rings[n - 1])
    } else {
        marked(rings, marks, n - 1)
    }
}

/// The coverage of a cell: each covered ring, closed, with the uncovered rings
/// that meet it as its holes. `hits[i][j]` says that covered ring `i` and uncovered ring
/// `j` meet.
pub open spec fn coverage_of(
    covr: Seq<Seq<Position>>,
    nocovr: Seq<Seq<Position>>,
    hits: Seq<Seq<bool>>,
) -> Seq<PolygonView<Position>> {
    Seq::new(
        covr.len(),
        |i: int| polygon_of(covr[i], marked(nocovr, hits[i], nocovr.len() as int)),
    )
}

/// One row for each covered ring, with one mark for each uncovered ring.
pub open spec fn hits_shape(hits: Seq<Seq<bool>>, rows: int, cols: int) -> bool {
    hits.len() == rows && forall|i: int| 0 <= i < rows ==> (#[trigger] hits[i]).len() == cols
}

/// Makes each uncovered ring a hole of every covered ring that it meets.
pub fn decode_covr(
    covr: &Vec<Vec<Position>>,
    nocovr: &Vec<Vec<Position>>,
    hits: &Vec<Vec<bool>>,
) -> (out: Vec<Polygon<Position>>)
    requires
        hits_shape(lists(hits@), covr@.len() as int, nocovr@.len() as int),
    ensures
        views(out@) == coverage_of(lists(covr@), lists(nocovr@), lists(hits@)),
{
    let mut out: Vec<Polygon<Position>> = Vec::new();
    let mut i: usize = 0;
    while i < covr.len()
        invariant
            i <= covr@.len(),
            out@.len() == i,
            hits_shape(lists(hits@), covr@.len() as int, nocovr@.len() as int),
            forall|k: int|
                0 <= k < i ==> (#[trigger] out@[k])@ == coverage_of(lists(covr@), lists(nocovr@), lists(hits@))[k],
        decreases covr@.len() - i,
    {
        assert(lists(hits@)[i as int].len() == nocovr@.len());
        let row: &Vec<bool> = &hits[i];
        let mut interiors: Vec<Vec<Position>> = Vec::new();
        let mut j: usize = 0;
        assert(lists(interiors@) =~= marked(lists(nocovr@), row@, 0));
        while j < nocovr.len()
            invariant
                j <= nocovr@.len(),
                row@.len() == nocovr@.len(),
                lists(interiors@) == marked(lists(nocovr@), row@, j as int),
            decreases nocovr@.len() - j,
        {
            if row[j] {
                let ghost before = interiors@;
                let ring: Vec<Position> = copy_ring(&nocovr[j]);
                interiors.push(ring);
                assert(lists(interiors@) =~= lists(before).push(lists(nocovr@)[j as int]));
            }
            j += 1;
        }
        let exterior: Vec<Position> = copy_ring(&covr[i]);
        out.push(Polygon::new(exterior, interiors));
        i += 1;
    }
    assert(views(out@) =~= coverage_of(lists(covr@), lists(nocovr@), lists(hits@)));
    out
}

/// The test said `hit` of an uncovered and a covered ring.
pub open spec fn tested<G: Fn(&Vec<Position>, &Vec<Position>) -> bool>(
    rings_meet: G,
    uncovered: Seq<Position>,
    covered: Seq<Position>,
    hit: bool,
) -> bool {
    exists|u: Vec<Position>, c: Vec<Position>|
        u@ == uncovered && c@ == covered && #[trigger] call_ensures(rings_meet, (&u, &c), hit)
}

/// `hits` holds what the test said of every pair of rings.
pub open spec fn tested_all<G: Fn(&Vec<Position>, &Vec<Position>) -> bool>(
    rings_meet: G,
    covr: Seq<Seq<Position>>,
    nocovr: Seq<Seq<Position>>,
    hits: Seq<Seq<bool>>,
) -> bool {
    hits_shape(hits, covr.len() as int, nocovr.len() as int) && forall|i: int, j: int|
        0 <= i < covr.len() && 0 <= j < nocovr.len() ==> tested(
            rings_meet,
            nocovr[j],
            covr[i],
            #[trigger] hits[i][j],
        )
}

/// Asks of every uncovered ring whether it meets every covered one.
fn find_hits<G: Fn(&Vec<Position>, &Vec<Position>) -> bool>(
    covr: &Vec<Vec<Position>>,
    nocovr: &Vec<Vec<Position>>,
    rings_meet: &G,
) -> (hits: Vec<Vec<bool>>)
    requires
        forall|u: &Vec<Position>, c: &Vec<Position>| call_requires(*rings_meet, (u, c)),
    ensures
        tested_all(*rings_meet, lists(covr@), lists(nocovr@), lists(hits@)),
{
    let mut hits: Vec<Vec<bool>> = Vec::new();
    let mut i: usize = 0;
    while i < covr.len()
        invariant
            i <= covr@.len(),
            hits@.len() == i,
            forall|u: &Vec<Position>, c: &Vec<Position>| call_requires(*rings_meet, (u, c)),
            forall|k: int| 0 <= k < i ==> (#[trigger] hits@[k])@.len() == nocovr@.len(),
            forall|k: int, j: int|
                0 <= k < i && 0 <= j < nocovr@.len() ==> tested(
                    *rings_meet,
                    nocovr@[j]@,
                    covr@[k]@,
                    #[trigger] hits@[k]@[j],
                ),
        decreases covr@.len() - i,
    {
        let mut row: Vec<bool> = Vec::new();
        let mut j: usize = 0;
        while j < nocovr.len()
            invariant
                i < covr@.len(),
                j <= nocovr@.len(),
                row@.len() == j,
                forall|u: &Vec<Position>, c: &Vec<Position>| call_requires(*rings_meet, (u, c)),
                forall|k: int|
                    0 <= k < j ==> tested(*rings_meet, nocovr@[k]@, covr@[i as int]@, #[trigger] row@[k]),
            decreases nocovr@.len() - j,
        {
            let hit: bool = rings_meet(&nocovr[j], &covr[i]);
            assert(tested(*rings_meet, nocovr@[j as int]@, covr@[i as int]@, hit));
            row.push(hit);
            j += 1;
        }
        hits.push(row);
        i += 1;
    }
    assert forall|a: int, b: int| 0 <= a < covr@.len() && 0 <= b < nocovr@.len() implies tested(
        *rings_meet,
        lists(nocovr@)[b],
        lists(covr@)[a],
        #[trigger] lists(hits@)[a][b],
    ) by {
        assert(lists(hits@)[a][b] == hits@[a]@[b]);
    }
    hits
}

// ── Cells ────────────────────────────────────────────────────────────────────

/// A cell with all that its stream tells.
#[derive(Debug)]
pub struct OesuCell {
    pub name: String,
    pub native_scale: u32,
    pub senc_version: u16,
    pub publish_date: String,
    pub edition: u16,
    pub update_date: String,
    pub update_number: u16,
    pub senc_create_date: String,
    pub sounding_datum: String,
    pub expire_days_remaining: u16,
    pub grace_days_remaining: u16,
    pub bounds: Bbox,
    pub features: Vec<Feature>,
    pub coverage: Vec<Polygon<Position>>,
    pub text_descriptions: TextTable,
    pub edition_date: EditionDate,
    pub source: String,
}

/// The key of the later of the dates of publication and update.
pub open spec fn edition_key(publish_date: Seq<char>, update_date: Seq<char>) -> int {
    if ccyymmdd_key(publish_date) >= ccyymmdd_key(update_date) {
        ccyymmdd_key(publish_date)
    } else {
        ccyymmdd_key(update_date)
    }
}

fn later_date(publish_date: &String, update_date: &String) -> (d: EditionDate)
    ensures
        d.key() == edition_key(publish_date@, update_date@),
{
    let published: EditionDate = EditionDate::from_ccyymmdd(publish_date.as_str());
    let updated: EditionDate = EditionDate::from_ccyymmdd(update_date.as_str());
    if published >= updated {
        published
    } else {
        updated
    }
}

/// `out` is the feature `raw` with its geometry resolved.
pub open spec fn feature_resolved<F: Fn(SmPoint, Bbox) -> Position>(
    raw: FeatureView,
    out: Feature,
    edges: Map<u32, Seq<Position>>,
    nodes: Map<u32, Position>,
    bounds: Bbox,
    from_sm: F,
) -> bool {
    &&& out.type_code == raw.type_code
    &&& out.id == raw.id
    &&& out.primitive == raw.primitive
    &&& out.attribute_views() == raw.attributes
    &&& resolved(raw.geometry, out.geometry@, edges, nodes, bounds, from_sm)
}

/// `out` are the features `raw`, in their order, with their geometry resolved
/// in one placement of the tables.
pub open spec fn features_resolved<F: Fn(SmPoint, Bbox) -> Position>(
    raw: Seq<FeatureView>,
    out: Seq<Feature>,
    tables: TablesView,
    bounds: Bbox,
    from_sm: F,
) -> bool {
    exists|edges: Map<u32, Seq<Position>>, nodes: Map<u32, Position>|
        #![trigger placed_edges(from_sm, bounds, tables.edges, edges), placed_nodes(from_sm, bounds, tables.nodes, nodes)]
        {
            &&& placed_edges(from_sm, bounds, tables.edges, edges)
            &&& placed_nodes(from_sm, bounds, tables.nodes, nodes)
            &&& out.len() == raw.len()
            &&& forall|i: int|
                0 <= i < raw.len() ==> feature_resolved(raw[i], #[trigger] out[i], edges, nodes, bounds, from_sm)
        }
}

/// `out` is the coverage that the rings of the stream describe.
pub open spec fn coverage_resolved<G: Fn(&Vec<Position>, &Vec<Position>) -> bool>(
    covr: Seq<Seq<Position>>,
    nocovr: Seq<Seq<Position>>,
    out: Seq<Polygon<Position>>,
    rings_meet: G,
) -> bool {
    exists|hits: Seq<Seq<bool>>| #[trigger]
        tested_all(rings_meet, covr, nocovr, hits) && views(out) == coverage_of(covr, nocovr, hits)
}

/// The records after the server status record.
pub open spec fn body(s: Seq<u8>) -> Seq<u8> {
    s.skip(le32(s, 2) as int)
}

/// What is wrong with a stream, if anything is.
pub open spec fn stream_fault(s: Seq<u8>) -> Option<SencError> {
    match status_fault(s) {
        Some(e) => Some(e),
        None => match version_fault(body(s)) {
            Some(e) => Some(e),
            None => match scanned(body(s), 0, blank()) {
                Ok(_) => None,
                Err(e) => Some(e),
            },
        },
    }
}

/// What the records of a stream without fault tell.
pub open spec fn stream_scan(s: Seq<u8>) -> ScanView {
    match scanned(body(s), 0, blank()) {
        Ok(st) => st,
        Err(_) => blank(),
    }
}

impl OesuCell {
    /// The cell says what the stream `s` tells.
    pub open spec fn tells<F: Fn(SmPoint, Bbox) -> Position, G: Fn(&Vec<Position>, &Vec<Position>) -> bool>(
        &self,
        s: Seq<u8>,
        from_sm: F,
        rings_meet: G,
    ) -> bool {
        let st = stream_scan(s);
        &&& self.name@ == st.name
        &&& self.native_scale == st.native_scale
        &&& self.senc_version == version_named(body(s))
        &&& self.publish_date@ == st.publish_date
        &&& self.edition == st.edition
        &&& self.update_date@ == st.update_date
        &&& self.update_number == st.update_number
        &&& self.senc_create_date@ == st.senc_create_date
        &&& self.sounding_datum@ == st.sounding_datum
        &&& self.expire_days_remaining == days_to_expiry(s)
        &&& self.grace_days_remaining == days_of_grace(s)
        &&& self.bounds == st.bounds
        &&& self.text_descriptions@ == st.texts
        &&& self.edition_date.key() == edition_key(st.publish_date, st.update_date)
        &&& features_resolved(st.features.all(), self.features@, st.tables, st.bounds, from_sm)
        &&& coverage_resolved(st.covr, st.nocovr, self.coverage@, rings_meet)
    }
}

fn resolve_features<F: Fn(SmPoint, Bbox) -> Position>(
    raw: Vec<RawFeature>,
    tables: &Tables,
    bounds: Bbox,
    from_sm: &F,
) -> (out: Vec<Feature>)
    requires
        projects_all(*from_sm, bounds),
    ensures
        features_resolved(views(raw@), out@, tables@, bounds, *from_sm),
{
    let edges: HashMap<u32, Vec<Position>> = place_edges(&tables.edges, bounds, from_sm);
    let nodes: HashMap<u32, Position> = place_nodes(&tables.nodes, bounds, from_sm);
    let ghost all = raw@;
    let mut out: Vec<Feature> = Vec::new();
    for f in it: raw
        invariant
            it.seq() == all,
            out@.len() == it.index@,
            projects_all(*from_sm, bounds),
            forall|i: int|
                0 <= i < out@.len() ==> feature_resolved(
                    all[i]@,
                    #[trigger] out@[i],
                    contents(edges@),
                    nodes@,
                    bounds,
                    *from_sm,
                ),
    {
        let geometry: Geometry = resolve_geometry(&f.geometry, bounds, &edges, &nodes, from_sm);
        out.push(
            Feature {
                type_code: f.type_code,
                id: f.id,
                primitive: f.primitive,
                attributes: f.attributes,
                geometry,
            },
        );
    }
    assert(placed_edges(*from_sm, bounds, tables@.edges, contents(edges@)));
    assert(placed_nodes(*from_sm, bounds, tables@.nodes, nodes@));
    out
}

/// Reads a stream. `from_sm` puts a stored point of a cell with given bounds in
/// degrees, and `rings_meet` says whether an uncovered and a covered ring have a
/// point in common.
pub fn parse_cell<F: Fn(SmPoint, Bbox) -> Position, G: Fn(&Vec<Position>, &Vec<Position>) -> bool>(
    source: String,
    data: &[u8],
    from_sm: F,
    rings_meet: G,
) -> (r: Result<OesuCell, SencError>)
    requires
        forall|p: SmPoint, b: Bbox| call_requires(from_sm, (p, b)),
        forall|u: &Vec<Position>, c: &Vec<Position>| call_requires(rings_meet, (u, c)),
    ensures
        match r {
            Ok(cell) => {
                &&& stream_fault(data@) is None
                &&& cell.source == source
                &&& cell.tells(data@, from_sm, rings_meet)
            },
            Err(e) => stream_fault(data@) == Some(e),
        },
{
    let (rest, expire_days_remaining, grace_days_remaining) = match strip_server_status(data) {
        Ok(v) => v,
        Err(e) => {
            return Err(e);
        },
    };
    let senc_version: u16 = match read_senc_version(rest) {
        Ok(v) => v,
        Err(e) => {
            return Err(e);
        },
    };
    let scan: Scan = match scan_records(rest) {
        Ok(v) => v,
        Err(e) => {
            return Err(e);
        },
    };
    let ghost st = scan@;
    assert(projects_all(from_sm, scan.bounds));
    let hits: Vec<Vec<bool>> = find_hits(&scan.covr, &scan.nocovr, &rings_meet);
    let coverage: Vec<Polygon<Position>> = decode_covr(&scan.covr, &scan.nocovr, &hits);
    let raw: Vec<RawFeature> = scan.features.finish();
    let features: Vec<Feature> = resolve_features(raw, &scan.tables, scan.bounds, &from_sm);
    let edition_date: EditionDate = later_date(&scan.publish_date, &scan.update_date);
    assert(tested_all(rings_meet, st.covr, st.nocovr, lists(hits@)));
    Ok(
        OesuCell {
            name: scan.name,
            native_scale: scan.native_scale,
            senc_version,
            publish_date: scan.publish_date,
            edition: scan.edition,
            update_date: scan.update_date,
            update_number: scan.update_number,
            senc_create_date: scan.senc_create_date,
            sounding_datum: scan.sounding_datum,
            expire_days_remaining,
            grace_days_remaining,
            bounds: scan.bounds,
            features,
            coverage,
            text_descriptions: scan.texts,
            edition_date,
            source,
        },
    )
}

impl From<OesuCell> for S57Cell {
    fn from(c: OesuCell) -> (cell: S57Cell) {
        S57Cell {
            name: c.name,
            native_scale: c.native_scale,
            bounds: c.bounds,
            features: c.features,
            coverage: c.coverage,
            source: c.source,
            edition_date: c.edition_date,
            text_descriptions: c.text_descriptions,
        }
    }
}

impl vstd::std_specs::convert::FromSpecImpl<OesuCell> for S57Cell {
    open spec fn obeys_from_spec() -> bool {
        true
    }

    open spec fn from_spec(c: OesuCell) -> S57Cell {
        S57Cell {
            name: c.name,
            native_scale: c.native_scale,
            bounds: c.bounds,
            features: c.features,
            coverage: c.coverage,
            source: c.source,
            edition_date: c.edition_date,
            text_descriptions: c.text_descriptions,
        }
    }
}

impl S57Cell {
    /// The cell says what the stream `s` tells the tiler.
    pub open spec fn tells<F: Fn(SmPoint, Bbox) -> Position, G: Fn(&Vec<Position>, &Vec<Position>) -> bool>(
        &self,
        s: Seq<u8>,
        from_sm: F,
        rings_meet: G,
    ) -> bool {
        let st = stream_scan(s);
        &&& self.name@ == st.name
        &&& self.native_scale == st.native_scale
        &&& self.bounds == st.bounds
        &&& self.text_descriptions@ == st.texts
        &&& self.edition_date.key() == edition_key(st.publish_date, st.update_date)
        &&& features_resolved(st.features.all(), self.features@, st.tables, st.bounds, from_sm)
        &&& coverage_resolved(st.covr, st.nocovr, self.coverage@, rings_meet)
    }
}

/// Reads a stream and keeps what the tiler needs of it.
pub fn parse_file<F: Fn(SmPoint, Bbox) -> Position, G: Fn(&Vec<Position>, &Vec<Position>) -> bool>(
    source: String,
    data: &[u8],
    from_sm: F,
    rings_meet: G,
) -> (r: Result<S57Cell, SencError>)
    requires
        forall|p: SmPoint, b: Bbox| call_requires(from_sm, (p, b)),
        forall|u: &Vec<Position>, c: &Vec<Position>| call_requires(rings_meet, (u, c)),
    ensures
        match r {
            Ok(cell) => {
                &&& stream_fault(data@) is None
                &&& cell.source == source
                &&& cell.tells(data@, from_sm, rings_meet)
            },
            Err(e) => stream_fault(data@) == Some(e),
        },
{
    match parse_cell(source, data, from_sm, rings_meet) {
        Ok(cell) => Ok(S57Cell::from(cell)),
        Err(e) => Err(e),
    }
}

// ── Laws ─────────────────────────────────────────────────────────────────────

/// A BSB raster chart is refused as what it is.
pub proof fn raster_charts_are_told_apart(s: Seq<u8>)
    requires
        raster_signature(s),
        s.len() >= 6,
    ensures
        stream_fault(s) == Some(SencError::RasterChart),
{
    let head = s.take(4);
    assert(head[0] == s[0] && head[1] == s[1]);
    assert(le16(s, 0) != 200);
}

/// An accepted stream was decrypted, has not expired and has a version from 200
/// to 299.
pub proof fn accepted_streams_are_valid(s: Seq<u8>)
    requires
        stream_fault(s) is None,
    ensures
        le16(s, 0) == 200,
        le16(s, 8) != 0,
        le16(s, 10) != 0,
        200 <= le16(body(s), 6) <= 299,
{
}

/// `s` is a sequence of whole records from `at` on.
pub open spec fn whole_records(s: Seq<u8>, at: int) -> bool
    decreases s.len() - at,
{
    at == s.len() || (at + 6 <= s.len() && le32(s, at + 2) >= 6 && at + le32(s, at + 2) <= s.len()
        && whole_records(s, at + le32(s, at + 2)))
}

proof fn lemma_fields_of_prefix(a: Seq<u8>, b: Seq<u8>, at: int)
    requires
        0 <= at,
        at + 6 <= a.len(),
    ensures
        le16(a + b, at) == le16(a, at),
        le32(a + b, at + 2) == le32(a, at + 2),
{
}

proof fn lemma_fields_of_suffix(a: Seq<u8>, b: Seq<u8>, at: int)
    requires
        0 <= at,
        at + 6 <= b.len(),
    ensures
        le16(a + b, a.len() + at) == le16(b, at),
        le32(a + b, a.len() + at + 2) == le32(b, at + 2),
{
    let s = a + b;
    assert(forall|i: int| 0 <= i < b.len() ==> s[a.len() + i] == b[i]);
}

pub(crate) proof fn lemma_scanned_suffix(a: Seq<u8>, b: Seq<u8>, at: int, st: ScanView)
    requires
        0 <= at <= b.len(),
    ensures
        scanned(a + b, a.len() + at, st) == scanned(b, at, st),
    decreases b.len() - at,
{
    let s = a + b;
    if at + 6 <= b.len() {
        lemma_fields_of_suffix(a, b, at);
        let n = le32(b, at + 2);
        if n >= 6 && at + n <= b.len() {
            assert(s.subrange(a.len() + at + 6, a.len() + at + n) =~= b.subrange(at + 6, at + n));
            lemma_scanned_suffix(a, b, at + n, st.step(le16(b, at), b.subrange(at + 6, at + n)));
        }
    }
}

/// Records tell the same whether they are read in one stream or one part of it
/// after the other.
pub proof fn records_add_up(a: Seq<u8>, b: Seq<u8>, at: int, st: ScanView)
    requires
        0 <= at <= a.len(),
        whole_records(a, at),
    ensures
        scanned(a, at, st) is Ok,
        scanned(a + b, at, st) == scanned(b, 0, scanned(a, at, st)->Ok_0),
    decreases a.len() - at,
{
    let s = a + b;
    if at == a.len() {
        lemma_scanned_suffix(a, b, 0, st);
    } else {
        lemma_fields_of_prefix(a, b, at);
        let n = le32(a, at + 2);
        assert(s.subrange(at + 6, at + n) =~= a.subrange(at + 6, at + n));
        records_add_up(a, b, at + n, st.step(le16(a, at), a.subrange(at + 6, at + n)));
    }
}

/// The types of the records that say something about a cell. Records of any other
/// type are passed over.
pub open spec fn has_meaning(rec_type: u16) -> bool {
    2 <= rec_type <= 9 || rec_type == 64 || rec_type == 65 || 80 <= rec_type <= 86 || 96 <= rec_type <= 101
}

/// `u` is one record without a meaning.
pub open spec fn is_passed_over(u: Seq<u8>) -> bool {
    u.len() >= 6 && le32(u, 2) == u.len() && !has_meaning(le16(u, 0))
}

pub(crate) proof fn lemma_whole_after(s: Seq<u8>, k: int, at: int)
    requires
        0 <= k,
        0 <= at,
        k + at <= s.len(),
        whole_records(s, k + at),
    ensures
        whole_records(s.skip(k), at),
    decreases s.len() - k - at,
{
    let t = s.skip(k);
    if k + at < s.len() {
        assert(forall|i: int| 0 <= i < t.len() ==> t[i] == s[k + i]);
        assert(le32(t, at + 2) == le32(s, k + at + 2));
        lemma_whole_after(s, k, at + le32(s, k + at + 2));
    }
}

pub(crate) proof fn lemma_start_of_prefix(p: Seq<u8>, x: Seq<u8>)
    requires
        whole_records(p, 0),
        p.len() >= 6,
        le32(p, 2) + 8 <= p.len(),
    ensures
        status_fault(p + x) == status_fault(p),
        body(p + x) == body(p) + x,
        version_fault(body(p + x)) == version_fault(body(p)),
        status_fault(p) is None ==> le16(p + x, 12) == le16(p, 12) && le16(p + x, 16) == le16(p, 16),
        le16(body(p + x), 6) == le16(body(p), 6),
{
    let s = p + x;
    assert(forall|i: int| 0 <= i < p.len() ==> s[i] == p[i]);
    assert(le32(s, 2) == le32(p, 2) && le16(s, 0) == le16(p, 0));
    assert(s.take(4) =~= p.take(4));
    let b = body(p);
    let c = body(s);
    assert(c =~= b + x);
    assert(b.len() >= 8);
    assert(forall|i: int| 0 <= i < b.len() ==> c[i] == b[i]);
    assert(c.take(4) =~= b.take(4));
    assert(le16(c, 0) == le16(b, 0) && le32(c, 2) == le32(b, 2) && le16(c, 6) == le16(b, 6));
}

/// A record of an unknown type changes nothing, wherever it stands after the
/// version record: the stream with it and the stream without it have the same
/// fault, if any, and are told by the same cells.
pub proof fn unknown_records_are_skipped<
    F: Fn(SmPoint, Bbox) -> Position,
    G: Fn(&Vec<Position>, &Vec<Position>) -> bool,
>(p: Seq<u8>, u: Seq<u8>, s: Seq<u8>, cell: S57Cell, full: OesuCell, from_sm: F, rings_meet: G)
    requires
        whole_records(p, 0),
        p.len() >= 6,
        le32(p, 2) + 8 <= p.len(),
        is_passed_over(u),
    ensures
        stream_fault(p + (u + s)) == stream_fault(p + s),
        stream_scan(p + (u + s)) == stream_scan(p + s),
        cell.tells(p + (u + s), from_sm, rings_meet) <==> cell.tells(p + s, from_sm, rings_meet),
        stream_fault(p + s) is None ==> (full.tells(p + (u + s), from_sm, rings_meet) <==> full.tells(
            p + s,
            from_sm,
            rings_meet,
        )),
{
    lemma_start_of_prefix(p, s);
    lemma_start_of_prefix(p, u + s);
    let b = body(p);
    lemma_whole_after(p, le32(p, 2) as int, 0);
    records_add_up(b, s, 0, blank());
    records_add_up(b, u + s, 0, blank());
    let st = scanned(b, 0, blank())->Ok_0;
    let rest = u + s;
    lemma_fields_of_prefix(u, s, 0);
    assert(rest.subrange(6, u.len() as int) =~= u.subrange(6, u.len() as int));
    lemma_scanned_suffix(u, s, 0, st);
    reveal(ScanView::step);
    reveal(ScanView::table_step);
    assert(st.step(le16(u, 0), u.subrange(6, u.len() as int)) == st);
}

/// The projection has one answer for every point.
pub open spec fn one_answer<F: Fn(SmPoint, Bbox) -> Position>(from_sm: F) -> bool {
    forall|p: SmPoint, b: Bbox, x: Position, y: Position|
        #![trigger placed(from_sm, b, p, x), placed(from_sm, b, p, y)]
        placed(from_sm, b, p, x) && placed(from_sm, b, p, y) ==> x == y
}

/// The test has one answer for every two rings.
pub open spec fn one_verdict<G: Fn(&Vec<Position>, &Vec<Position>) -> bool>(rings_meet: G) -> bool {
    forall|u: Seq<Position>, c: Seq<Position>, x: bool, y: bool|
        #![trigger tested(rings_meet, u, c, x), tested(rings_meet, u, c, y)]
        tested(rings_meet, u, c, x) && tested(rings_meet, u, c, y) ==> x == y
}

proof fn lemma_one_placement<F: Fn(SmPoint, Bbox) -> Position>(
    from_sm: F,
    bounds: Bbox,
    tables: TablesView,
    e1: Map<u32, Seq<Position>>,
    e2: Map<u32, Seq<Position>>,
    n1: Map<u32, Position>,
    n2: Map<u32, Position>,
)
    requires
        one_answer(from_sm),
        placed_edges(from_sm, bounds, tables.edges, e1),
        placed_edges(from_sm, bounds, tables.edges, e2),
        placed_nodes(from_sm, bounds, tables.nodes, n1),
        placed_nodes(from_sm, bounds, tables.nodes, n2),
    ensures
        e1 == e2,
        n1 == n2,
{
    assert forall|k: u32| n1.contains_key(k) implies n1[k] == n2[k] by {
        assert(n2.contains_key(k));
    }
    assert(n1 =~= n2);
    assert forall|k: u32| e1.contains_key(k) implies e1[k] == e2[k] by {
        assert(e2.contains_key(k));
        assert(placed_list(from_sm, bounds, tables.edges[k], e1[k]));
        assert(placed_list(from_sm, bounds, tables.edges[k], e2[k]));
        assert forall|i: int| 0 <= i < e1[k].len() implies e1[k][i] == e2[k][i] by {
            assert(placed(from_sm, bounds, tables.edges[k][i], e1[k][i]));
            assert(placed(from_sm, bounds, tables.edges[k][i], e2[k][i]));
        }
        assert(e1[k] =~= e2[k]);
    }
    assert(e1 =~= e2);
}

proof fn lemma_one_shape<F: Fn(SmPoint, Bbox) -> Position>(
    raw: GeometryView,
    a: ShapeView,
    b: ShapeView,
    edges: Map<u32, Seq<Position>>,
    nodes: Map<u32, Position>,
    bounds: Bbox,
    from_sm: F,
)
    requires
        one_answer(from_sm),
        resolved(raw, a, edges, nodes, bounds, from_sm),
        resolved(raw, b, edges, nodes, bounds, from_sm),
    ensures
        a == b,
{
    if let GeometryView::Sounding(s) = raw {
        let x = a->Soundings_0;
        let y = b->Soundings_0;
        assert forall|i: int| 0 <= i < x.len() implies x[i] == y[i] by {
            assert(placed(from_sm, bounds, s[i].at, x[i].at));
            assert(placed(from_sm, bounds, s[i].at, y[i].at));
        }
        assert(x =~= y);
    }
}

/// What a [`Feature`] says.
pub open spec fn feature_says(f: Feature) -> (u16, u16, u8, Seq<AttributeView>, ShapeView) {
    (f.type_code, f.id, f.primitive, f.attribute_views(), f.geometry@)
}

/// What a [`S57Cell`] says, apart from where it was read from.
pub open spec fn cell_says(c: S57Cell) -> (
    Seq<char>,
    u32,
    Bbox,
    Seq<(u16, u16, u8, Seq<AttributeView>, ShapeView)>,
    Seq<PolygonView<Position>>,
    int,
    Map<Seq<char>, Seq<char>>,
) {
    (
        c.name@,
        c.native_scale,
        c.bounds,
        Seq::new(c.features@.len(), |i: int| feature_says(c.features@[i])),
        views(c.coverage@),
        c.edition_date.key(),
        c.text_descriptions@,
    )
}

/// A stream tells one cell, where the projection and the test of rings have one
/// answer each.
pub proof fn a_stream_tells_one_cell<
    F: Fn(SmPoint, Bbox) -> Position,
    G: Fn(&Vec<Position>, &Vec<Position>) -> bool,
>(s: Seq<u8>, a: S57Cell, b: S57Cell, from_sm: F, rings_meet: G)
    requires
        one_answer(from_sm),
        one_verdict(rings_meet),
        a.tells(s, from_sm, rings_meet),
        b.tells(s, from_sm, rings_meet),
    ensures
        cell_says(a) == cell_says(b),
{
    let st = stream_scan(s);
    let raw = st.features.all();
    let (e1, n1) = choose|edges: Map<u32, Seq<Position>>, nodes: Map<u32, Position>|
        #![trigger placed_edges(from_sm, st.bounds, st.tables.edges, edges), placed_nodes(from_sm, st.bounds, st.tables.nodes, nodes)]
        {
            &&& placed_edges(from_sm, st.bounds, st.tables.edges, edges)
            &&& placed_nodes(from_sm, st.bounds, st.tables.nodes, nodes)
            &&& a.features@.len() == raw.len()
            &&& forall|i: int|
                0 <= i < raw.len() ==> feature_resolved(
                    raw[i],
                    #[trigger] a.features@[i],
                    edges,
                    nodes,
                    st.bounds,
                    from_sm,
                )
        };
    let (e2, n2) = choose|edges: Map<u32, Seq<Position>>, nodes: Map<u32, Position>|
        #![trigger placed_edges(from_sm, st.bounds, st.tables.edges, edges), placed_nodes(from_sm, st.bounds, st.tables.nodes, nodes)]
        {
            &&& placed_edges(from_sm, st.bounds, st.tables.edges, edges)
            &&& placed_nodes(from_sm, st.bounds, st.tables.nodes, nodes)
            &&& b.features@.len() == raw.len()
            &&& forall|i: int|
                0 <= i < raw.len() ==> feature_resolved(
                    raw[i],
                    #[trigger] b.features@[i],
                    edges,
                    nodes,
                    st.bounds,
                    from_sm,
                )
        };
    lemma_one_placement(from_sm, st.bounds, st.tables, e1, e2, n1, n2);
    assert forall|i: int| 0 <= i < raw.len() implies feature_says(a.features@[i]) == feature_says(b.features@[i]) by {
        assert(feature_resolved(raw[i], a.features@[i], e1, n1, st.bounds, from_sm));
        assert(feature_resolved(raw[i], b.features@[i], e2, n2, st.bounds, from_sm));
        lemma_one_shape(
            raw[i].geometry,
            a.features@[i].geometry@,
            b.features@[i].geometry@,
            e1,
            n1,
            st.bounds,
            from_sm,
        );
    }
    assert(cell_says(a).3 =~= cell_says(b).3);
    let h1 = choose|hits: Seq<Seq<bool>>| #[trigger]
        tested_all(rings_meet, st.covr, st.nocovr, hits) && views(a.coverage@) == coverage_of(
            st.covr,
            st.nocovr,
            hits,
        );
    let h2 = choose|hits: Seq<Seq<bool>>| #[trigger]
        tested_all(rings_meet, st.covr, st.nocovr, hits) && views(b.coverage@) == coverage_of(
            st.covr,
            st.nocovr,
            hits,
        );
    assert forall|i: int| 0 <= i < h1.len() implies h1[i] == h2[i] by {
        assert forall|j: int| 0 <= j < h1[i].len() implies h1[i][j] == h2[i][j] by {
            assert(tested(rings_meet, st.nocovr[j], st.covr[i], h1[i][j]));
            assert(tested(rings_meet, st.nocovr[j], st.covr[i], h2[i][j]));
        }
        assert(h1[i] =~= h2[i]);
    }
    assert(h1 =~= h2);
}

/// The cell read from a stream says the same whether or not a record of an unknown
/// type stands in it, where the projection and the test of rings have one answer
/// each.
pub proof fn unknown_records_leave_the_cell<
    F: Fn(SmPoint, Bbox) -> Position,
    G: Fn(&Vec<Position>, &Vec<Position>) -> bool,
>(p: Seq<u8>, u: Seq<u8>, s: Seq<u8>, a: S57Cell, b: S57Cell, full: OesuCell, from_sm: F, rings_meet: G)
    requires
        whole_records(p, 0),
        p.len() >= 6,
        le32(p, 2) + 8 <= p.len(),
        is_passed_over(u),
        one_answer(from_sm),
        one_verdict(rings_meet),
        a.tells(p + (u + s), from_sm, rings_meet),
        b.tells(p + s, from_sm, rings_meet),
    ensures
        cell_says(a) == cell_says(b),
{
    unknown_records_are_skipped(p, u, s, a, full, from_sm, rings_meet);
    a_stream_tells_one_cell(p + s, a, b, from_sm, rings_meet);
}

// ── Shapes ───────────────────────────────────────────────────────────────────

/// An area has one ring for each closed loop of its references: the first is the
/// exterior, every further one a hole, in their order, and none is left out. Where
/// a loop has a gap, the feature has no geometry.
pub proof fn areas_keep_every_ring<F: Fn(SmPoint, Bbox) -> Position>(
    a: AreaView,
    cuts: Seq<int>,
    shape: ShapeView,
    edges: Map<u32, Seq<Position>>,
    nodes: Map<u32, Position>,
    bounds: Bbox,
    from_sm: F,
)
    requires
        are_cuts(a.edge_refs, cuts),
        resolved(GeometryView::Area(a), shape, edges, nodes, bounds, from_sm),
    ensures
        shape is Empty <==> !all_connect(a.edge_refs, cuts),
        shape is Empty || shape is Area,
        shape matches ShapeView::Area(poly) ==> {
            &&& poly.interiors.len() + 1 == cuts.len() - 1
            &&& forall|k: int|
                0 <= k < cuts.len() - 1 ==> #[trigger] nth_ring(poly, k) == closed_ring(
                    closed(line(ring_refs(a.edge_refs, cuts, k), edges, nodes, Heading::ByFlag)),
                )
        },
{
    rings_follow_the_cuts(a.edge_refs, cuts, edges, nodes, Heading::ByFlag);
    assert(is_cut(a.edge_refs, cuts, 0));
    let parts = rings(a.edge_refs, 0, edges, nodes, Heading::ByFlag);
    if let ShapeView::Area(poly) = shape {
        assert forall|k: int| 0 <= k < cuts.len() - 1 implies #[trigger] nth_ring(poly, k) == closed_ring(
            closed(line(ring_refs(a.edge_refs, cuts, k), edges, nodes, Heading::ByFlag)),
        ) by {
            assert(parts[k] == closed(line(ring_refs(a.edge_refs, cuts, k), edges, nodes, Heading::ByFlag)));
            if k > 0 {
                assert(parts.skip(1)[k - 1] == parts[k]);
            }
        }
    }
}

/// The ring of a polygon by its number: the exterior, then the holes.
pub open spec fn nth_ring(poly: PolygonView<Position>, k: int) -> Seq<Position> {
    if k == 0 {
        poly.exterior
    } else {
        poly.interiors[k - 1]
    }
}

/// Every reference of an area shapes the ring of its loop: the ring walks from the
/// start node along the points of the edge, backwards where the flag is 1.
pub proof fn every_reference_shapes_its_ring<F: Fn(SmPoint, Bbox) -> Position>(
    a: AreaView,
    cuts: Seq<int>,
    poly: PolygonView<Position>,
    edges: Map<u32, Seq<Position>>,
    nodes: Map<u32, Position>,
    bounds: Bbox,
    from_sm: F,
    k: int,
    i: int,
)
    requires
        are_cuts(a.edge_refs, cuts),
        resolved(GeometryView::Area(a), ShapeView::Area(poly), edges, nodes, bounds, from_sm),
        0 <= k < cuts.len() - 1,
        cuts[k] <= i < cuts[k + 1],
        a.edge_refs[i].edge > 0,
        edges.contains_key(a.edge_refs[i].edge as u32),
    ensures
        exists|at: int| #[trigger]
            walks(
                nth_ring(poly, k),
                at,
                node_place(nodes, a.edge_refs[i].start),
                along(edges[a.edge_refs[i].edge as u32], a.edge_refs[i].dir),
            ),
{
    areas_keep_every_ring(a, cuts, ShapeView::Area(poly), edges, nodes, bounds, from_sm);
    assert(is_cut(a.edge_refs, cuts, k));
    let part = ring_refs(a.edge_refs, cuts, k);
    let r = a.edge_refs[i];
    assert(part[i - cuts[k]] == r);
    let pts = along(edges[r.edge as u32], r.dir);
    each_edge_is_walked(part, i - cuts[k], edges, nodes, Heading::ByFlag, pts);
    let ring = closed(line(part, edges, nodes, Heading::ByFlag));
    let at = choose|at: int| #[trigger] walks(ring, at, node_place(nodes, r.start), pts);
    let whole = nth_ring(poly, k);
    assert(whole == closed_ring(ring));
    assert(whole.subrange(at, at + pts.len()) =~= ring.subrange(at, at + pts.len()));
    assert(walks(whole, at, node_place(nodes, r.start), pts));
}

/// A line runs along all its references in one stroke: each is walked from its
/// start node along the points of its edge, backwards where the flag is 1.
pub proof fn every_reference_shapes_its_line<F: Fn(SmPoint, Bbox) -> Position>(
    refs: Seq<EdgeRef>,
    shape: ShapeView,
    edges: Map<u32, Seq<Position>>,
    nodes: Map<u32, Position>,
    bounds: Bbox,
    from_sm: F,
    i: int,
)
    requires
        resolved(GeometryView::Line(refs), shape, edges, nodes, bounds, from_sm),
        0 <= i < refs.len(),
        refs[i].edge > 0,
        edges.contains_key(refs[i].edge as u32),
    ensures
        shape is Line,
        exists|at: int| #[trigger]
            walks(
                shape->Line_0,
                at,
                node_place(nodes, refs[i].start),
                along(edges[refs[i].edge as u32], refs[i].dir),
            ),
        node_place(nodes, refs.last().end) matches Some(p) ==> (shape matches ShapeView::Line(path) && path.len() > 0 && (
        path.last() == p || path.last().coincides(p))),
{
    let pts = along(edges[refs[i].edge as u32], refs[i].dir);
    each_edge_is_walked(refs, i, edges, nodes, Heading::ByFlag, pts);
    let path = line(refs, edges, nodes, Heading::ByFlag);
    let at = choose|at: int| #[trigger] walks(path, at, node_place(nodes, refs[i].start), pts);
    assert(shape == ShapeView::Line(path));
    assert(shape->Line_0 == path);
    assert(walks(
        shape->Line_0,
        at,
        node_place(nodes, refs[i].start),
        along(edges[refs[i].edge as u32], refs[i].dir),
    ));
    if node_place(nodes, refs.last().end) is Some {
        lines_end_at_the_last_node(refs, edges, nodes, Heading::ByFlag);
    }
}

/// Points and soundings are where they were recorded, and soundings keep their
/// depths and their order.
pub proof fn points_and_depths_are_kept<F: Fn(SmPoint, Bbox) -> Position>(
    p: Position,
    s: Seq<RawSounding>,
    at: ShapeView,
    depths: ShapeView,
    edges: Map<u32, Seq<Position>>,
    nodes: Map<u32, Position>,
    bounds: Bbox,
    from_sm: F,
    i: int,
)
    requires
        resolved(GeometryView::Point(p), at, edges, nodes, bounds, from_sm),
        resolved(GeometryView::Sounding(s), depths, edges, nodes, bounds, from_sm),
        0 <= i < s.len(),
    ensures
        at == ShapeView::Point(p),
        depths matches ShapeView::Soundings(out) && out.len() == s.len() && out[i].depth == s[i].depth
            && call_ensures(from_sm, (s[i].at, bounds), out[i].at),
{
    assert(placed(from_sm, bounds, s[i].at, depths->Soundings_0[i].at));
}

proof fn lemma_marked<T>(rings: Seq<T>, marks: Seq<bool>, n: int) -> (at: Seq<int>)
    requires
        0 <= n <= rings.len(),
        marks.len() == rings.len(),
    ensures
        at.len() == marked(rings, marks, n).len(),
        forall|k: int|
            0 <= k < at.len() ==> 0 <= #[trigger] at[k] < n && marks[at[k]] && marked(rings, marks, n)[k] == rings[at[k]],
        forall|a: int, b: int| 0 <= a < b < at.len() ==> #[trigger] at[a] < #[trigger] at[b],
        forall|j: int| 0 <= j < n && #[trigger] marks[j] ==> at.contains(j),
    decreases n,
{
    if n <= 0 {
        Seq::empty()
    } else {
        let before = lemma_marked(rings, marks, n - 1);
        if marks[n - 1] {
            let at = before.push(n - 1);
            assert forall|j: int| 0 <= j < n && #[trigger] marks[j] implies at.contains(j) by {
                if j == n - 1 {
                    assert(at[before.len() as int] == j);
                } else {
                    assert(before.contains(j));
                    let k = choose|k: int| 0 <= k < before.len() && before[k] == j;
                    assert(at[k] == j);
                }
            }
            at
        } else {
            before
        }
    }
}

/// The coverage of a cell has one polygon for each covered ring, with that ring as
/// its exterior. Its holes are the uncovered rings that meet the ring, all of them
/// and no others, each once and in their order.
pub proof fn holes_are_the_rings_that_meet(
    covr: Seq<Seq<Position>>,
    nocovr: Seq<Seq<Position>>,
    hits: Seq<Seq<bool>>,
    i: int,
)
    requires
        hits_shape(hits, covr.len() as int, nocovr.len() as int),
        0 <= i < covr.len(),
    ensures
        coverage_of(covr, nocovr, hits).len() == covr.len(),
        coverage_of(covr, nocovr, hits)[i].exterior == closed_ring(covr[i]),
        exists|at: Seq<int>| #[trigger]
            lists_hits(at, hits[i]) && coverage_of(covr, nocovr, hits)[i].interiors =~= Seq::new(
                at.len(),
                |k: int| closed_ring(nocovr[at[k]]),
            ),
{
    let at = lemma_marked(nocovr, hits[i], nocovr.len() as int);
    assert(lists_hits(at, hits[i]));
    let holes = coverage_of(covr, nocovr, hits)[i].interiors;
    assert(holes =~= Seq::new(at.len(), |k: int| closed_ring(nocovr[at[k]])));
}

/// `at` are the indices of the marks that are set, in ascending order.
pub open spec fn lists_hits(at: Seq<int>, marks: Seq<bool>) -> bool {
    &&& forall|k: int| 0 <= k < at.len() ==> 0 <= #[trigger] at[k] < marks.len() && marks[at[k]]
    &&& forall|a: int, b: int| 0 <= a < b < at.len() ==> #[trigger] at[a] < #[trigger] at[b]
    &&& forall|j: int| 0 <= j < marks.len() && #[trigger] marks[j] ==> at.contains(j)
}

/// The edition date of a cell is one of its two dates, and neither is later.
pub proof fn the_later_date_counts(publish_date: Seq<char>, update_date: Seq<char>)
    ensures
        edition_key(publish_date, update_date) >= ccyymmdd_key(publish_date),
        edition_key(publish_date, update_date) >= ccyymmdd_key(update_date),
        edition_key(publish_date, update_date) == ccyymmdd_key(publish_date) || edition_key(publish_date, update_date)
            == ccyymmdd_key(update_date),
{
}

/// Every feature of a stream is a feature of its cell, in the order of the stream and
/// with its own type, identifier, primitive and attributes.
pub proof fn features_keep_what_describes_them<
    F: Fn(SmPoint, Bbox) -> Position,
    G: Fn(&Vec<Position>, &Vec<Position>) -> bool,
>(cell: S57Cell, s: Seq<u8>, from_sm: F, rings_meet: G, i: int)
    requires
        cell.tells(s, from_sm, rings_meet),
        0 <= i < stream_scan(s).features.all().len(),
    ensures
        ({
            let raw = stream_scan(s).features.all();
            &&& cell.features@.len() == raw.len()
            &&& cell.features@[i].type_code == raw[i].type_code
            &&& cell.features@[i].id == raw[i].id
            &&& cell.features@[i].primitive == raw[i].primitive
            &&& cell.features@[i].attribute_views() == raw[i].attributes
        }),
{
    let st = stream_scan(s);
    let (edges, nodes) = choose|edges: Map<u32, Seq<Position>>, nodes: Map<u32, Position>|
        #![trigger placed_edges(from_sm, st.bounds, st.tables.edges, edges), placed_nodes(from_sm, st.bounds, st.tables.nodes, nodes)]
        {
            &&& placed_edges(from_sm, st.bounds, st.tables.edges, edges)
            &&& placed_nodes(from_sm, st.bounds, st.tables.nodes, nodes)
            &&& cell.features@.len() == st.features.all().len()
            &&& forall|i: int|
                0 <= i < st.features.all().len() ==> feature_resolved(
                    st.features.all()[i],
                    #[trigger] cell.features@[i],
                    edges,
                    nodes,
                    st.bounds,
                    from_sm,
                )
        };
    assert(feature_resolved(st.features.all()[i], cell.features@[i], edges, nodes, st.bounds, from_sm));
}

/// A cell covers one polygon for each covered ring of its stream. An uncovered ring
/// is a hole of the polygon where every test says that the two meet, and is none
/// where every test says that they do not.
pub proof fn coverage_follows_the_tests<
    F: Fn(SmPoint, Bbox) -> Position,
    G: Fn(&Vec<Position>, &Vec<Position>) -> bool,
>(cell: S57Cell, s: Seq<u8>, from_sm: F, rings_meet: G, i: int, j: int)
    requires
        cell.tells(s, from_sm, rings_meet),
        0 <= i < stream_scan(s).covr.len(),
        0 <= j < stream_scan(s).nocovr.len(),
    ensures
        ({
            let st = stream_scan(s);
            let poly = cell.coverage@[i]@;
            &&& cell.coverage@.len() == st.covr.len()
            &&& poly.exterior == closed_ring(st.covr[i])
            &&& (forall|hit: bool| tested(rings_meet, st.nocovr[j], st.covr[i], hit) ==> hit) ==> poly.interiors.contains(
                closed_ring(st.nocovr[j]),
            )
            &&& (forall|k: int, hit: bool|
                0 <= k < st.nocovr.len() && #[trigger] tested(rings_meet, st.nocovr[k], st.covr[i], hit) ==> !hit)
                ==> poly.interiors.len() == 0
        }),
{
    let st = stream_scan(s);
    let hits = choose|hits: Seq<Seq<bool>>| #[trigger]
        tested_all(rings_meet, st.covr, st.nocovr, hits) && views(cell.coverage@) == coverage_of(
            st.covr,
            st.nocovr,
            hits,
        );
    assert(views(cell.coverage@).len() == cell.coverage@.len());
    assert(views(cell.coverage@)[i] == cell.coverage@[i]@);
    holes_are_the_rings_that_meet(st.covr, st.nocovr, hits, i);
    let poly = cell.coverage@[i]@;
    let at = choose|at: Seq<int>| #[trigger]
        lists_hits(at, hits[i]) && poly.interiors =~= Seq::new(at.len(), |k: int| closed_ring(st.nocovr[at[k]]));
    assert(hits[i].len() == st.nocovr.len());
    if forall|hit: bool| tested(rings_meet, st.nocovr[j], st.covr[i], hit) ==> hit {
        assert(tested(rings_meet, st.nocovr[j], st.covr[i], hits[i][j]));
        assert(at.contains(j));
        let k = choose|k: int| 0 <= k < at.len() && at[k] == j;
        assert(poly.interiors[k] == closed_ring(st.nocovr[j]));
    }
    if forall|k: int, hit: bool|
        0 <= k < st.nocovr.len() && #[trigger] tested(rings_meet, st.nocovr[k], st.covr[i], hit) ==> !hit {
        if at.len() > 0 {
            assert(hits[i][at[0]]);
            assert(tested(rings_meet, st.nocovr[at[0]], st.covr[i], hits[i][at[0]]));
        }
    }
}

} // verus!
