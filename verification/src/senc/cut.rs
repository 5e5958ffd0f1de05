//! Payloads that are too short, too long or cut within a list.
use vstd::prelude::*;
use crate::bytes::{
    found, le32, lemma_found_parts, lemma_put16, lemma_put32, put16, put32, put_all, real_at,
};
use crate::oesu::{
    header_text, header_u16, header_u32, raster_signature, status_fault, version_fault, SencError,
};
use crate::osenc::{record_fault, OsencError};
use crate::scalar::{Real, Single};
use crate::senc::area::{
    area_coding, area_edges_start, area_fault, area_prims_start, prim_end, prims_end, prims_fault, AreaError,
};
use crate::senc::collect::{attribute_of, bounds_of, feature_of, line_of, multipoint_of, point_of};
use crate::senc::tables::{with_edges, with_nodes};
use crate::senc::written::{
    lemma_points, lemma_refs, lemma_self, lemma_soundings, lemma_zero, plain, put_point, put_ref, put_sounding,
};
use crate::senc::{fitting, stride, Coding, EdgeRef, GeometryView, RawSounding, SmPoint};
use crate::text::{c_text, lossy_text, zero_at};

verus! {

// ── Short payloads ───────────────────────────────────────────────────────────

/// A payload that is too short for its fields tells nothing. A value type other than
/// 0, 2 and 4 has no value.
pub proof fn short_payloads_tell_nothing(p: Seq<u8>)
    ensures
        feature_of(p) is None <==> p.len() < 5,
        point_of(p) is None <==> p.len() < 16,
        line_of(p) is None <==> p.len() < 36,
        multipoint_of(p) is None <==> p.len() < 36,
        bounds_of(p) is None <==> p.len() < 64,
        p.len() < 3 ==> attribute_of(p) is None,
        p.len() >= 3 && p[2] == 0 ==> (attribute_of(p) is None <==> p.len() < 7),
        p.len() >= 3 && p[2] == 2 ==> (attribute_of(p) is None <==> p.len() < 11),
        p.len() >= 3 && p[2] != 0 && p[2] != 2 && p[2] != 4 ==> attribute_of(p) is None,
        p.len() < 2 ==> header_u16(p) == 0,
        p.len() < 4 ==> header_u32(p) == 0,
{
}

// ── Cut lists ────────────────────────────────────────────────────────────────

/// A line record that names more references than it has keeps those that are whole.
pub proof fn cut_lines_keep_whole_references(extent: Seq<u8>, count: u32, refs: Seq<EdgeRef>, tail: Seq<u8>)
    requires
        extent.len() == 32,
        refs.len() < count,
        tail.len() < 16,
    ensures
        line_of(extent + (put32(count) + (put_all(refs, |r: EdgeRef| put_ref(r)) + tail))) == Some(
            GeometryView::Line(refs),
        ),
{
    let list = put_all(refs, |r: EdgeRef| put_ref(r));
    let p = extent + (put32(count) + (list + tail));
    lemma_self(p);
    lemma_put32(p, 32, count);
    lemma_refs(p, 36, refs);
    lemma_found_parts(p, 0, extent, put32(count) + (list + tail));
    lemma_found_parts(p, 32, put32(count), list + tail);
    lemma_found_parts(p, 36, list, tail);
    assert(p.len() - 36 == 16 * refs.len() + tail.len());
    assert((p.len() - 36) / 16 == refs.len());
    assert(fitting(p, 36, 16, count as int) == refs.len());
}

/// A multipoint record that names more soundings than it has keeps those that are
/// whole.
pub proof fn cut_multipoints_keep_whole_soundings(
    extent: Seq<u8>,
    count: u32,
    pts: Seq<(Single, Single, Single)>,
    tail: Seq<u8>,
)
    requires
        extent.len() == 32,
        pts.len() < count,
        tail.len() < 12,
    ensures
        multipoint_of(
            extent + (put32(count) + (put_all(pts, |s: (Single, Single, Single)| put_sounding(s)) + tail)),
        ) == Some(
            GeometryView::Sounding(
                pts.map_values(
                    |s: (Single, Single, Single)|
                        RawSounding { at: plain((s.0, s.1)), depth: s.2.widened() },
                ),
            ),
        ),
{
    let list = put_all(pts, |s: (Single, Single, Single)| put_sounding(s));
    let p = extent + (put32(count) + (list + tail));
    lemma_self(p);
    lemma_put32(p, 32, count);
    lemma_soundings(p, 36, pts);
    lemma_found_parts(p, 0, extent, put32(count) + (list + tail));
    lemma_found_parts(p, 32, put32(count), list + tail);
    lemma_found_parts(p, 36, list, tail);
    assert(p.len() - 36 == 12 * pts.len() + tail.len());
    assert((p.len() - 36) / 12 == pts.len());
    assert(fitting(p, 36, 12, count as int) == pts.len());
}

/// The last edge of a table keeps the points that are whole where the table ends
/// within it, and nothing more is read.
pub proof fn cut_edges_keep_whole_points(
    edges: Map<u32, Seq<SmPoint>>,
    s: Seq<u8>,
    at: int,
    index: u32,
    count: u32,
    pts: Seq<(Single, Single)>,
    tail: Seq<u8>,
    n: int,
)
    requires
        found(s, at, put32(index) + (put32(count) + (put_all(pts, |p: (Single, Single)| put_point(p)) + tail))),
        s.len() == at + 8 + 8 * pts.len() + tail.len(),
        pts.len() < count,
        tail.len() < 8,
        n > 0,
    ensures
        with_edges(edges, s, at, n, Coding::Plain) == edges.insert(
            index,
            pts.map_values(|p: (Single, Single)| plain(p)),
        ),
{
    let points = put_all(pts, |p: (Single, Single)| put_point(p));
    lemma_put32(s, at, index);
    lemma_put32(s, at + 4, count);
    lemma_points(s, at + 8, pts);
    lemma_found_parts(s, at, put32(index), put32(count) + (points + tail));
    lemma_found_parts(s, at + 4, put32(count), points + tail);
    lemma_found_parts(s, at + 8, points, tail);
    assert((s.len() - (at + 8)) / 8 == pts.len());
    assert(fitting(s, at + 8, 8, count as int) == pts.len());
    let next = edges.insert(index, pts.map_values(|p: (Single, Single)| plain(p)));
    assert(with_edges(next, s, at + 8 + 8 * pts.len(), n - 1, Coding::Plain) == next);
}

/// A table entry without room for its numbers is left alone, and so is all that the
/// table names behind it.
pub proof fn cut_entries_are_left_alone(
    edges: Map<u32, Seq<SmPoint>>,
    nodes: Map<u32, SmPoint>,
    s: Seq<u8>,
    at: int,
    n: int,
    scale: Real,
)
    ensures
        s.len() < at + 8 ==> with_edges(edges, s, at, n, Coding::Plain) == edges && with_edges(
            edges,
            s,
            at,
            n,
            Coding::Scaled(scale),
        ) == edges,
        s.len() < at + 12 ==> with_nodes(nodes, s, at, n, Coding::Plain) == nodes,
        s.len() < at + 8 ==> with_nodes(nodes, s, at, n, Coding::Scaled(scale)) == nodes,
{
}

/// Lists have as many items as they name, or else as many as fit.
pub proof fn lists_fit(s: Seq<u8>, at: int, size: int, count: int)
    requires
        0 <= at <= s.len(),
        0 < size,
        0 <= count,
    ensures
        0 <= fitting(s, at, size, count) <= count,
        at + size * fitting(s, at, size, count) <= s.len(),
        fitting(s, at, size, count) == count || at + size * (fitting(s, at, size, count) + 1) > s.len(),
{
    let room = s.len() - at;
    let q = room / size;
    vstd::arithmetic::div_mod::lemma_fundamental_div_mod(room, size);
    vstd::arithmetic::div_mod::lemma_mod_bound(room, size);
    assert(q >= 0) by (nonlinear_arith)
        requires
            room == size * q + room % size,
            room >= 0,
            room % size < size,
            size > 0,
    ;
    assert(size * (q + 1) == size * q + size) by (nonlinear_arith);
    if count <= q {
        assert(size * count <= size * q) by (nonlinear_arith)
            requires
                count <= q,
                size > 0,
        ;
    }
}

// ── Areas ────────────────────────────────────────────────────────────────────

proof fn lemma_prims_of_prefix(s: Seq<u8>, more: Seq<u8>, at: int, i: int, n: int, coding: Coding)
    requires
        0 <= at,
        0 <= i <= n,
        prims_fault(s, at, i, n, coding) is None,
        at <= s.len(),
    ensures
        prims_fault(s + more, at, i, n, coding) is None,
        prims_end(s + more, at, n - i, coding) == prims_end(s, at, n - i, coding),
    decreases n - i,
{
    let t = s + more;
    if i < n {
        assert(forall|k: int| 0 <= k < s.len() ==> t[k] == s[k]);
        assert(le32(t, at + 1) == le32(s, at + 1));
        assert(prim_end(t, at, coding) == prim_end(s, at, coding));
        assert(stride(coding) * le32(s, at + 1) >= 0) by (nonlinear_arith)
            requires
                stride(coding) > 0,
                le32(s, at + 1) >= 0,
        ;
        lemma_prims_of_prefix(s, more, prim_end(s, at, coding), i + 1, n, coding);
    }
}

/// An area that is described by a payload is described by that length only: with
/// more bytes behind it the edge section does not fit, so that a payload cut short is
/// never taken for another area.
pub proof fn areas_fill_their_payload(s: Seq<u8>, more: Seq<u8>, ext: bool)
    requires
        area_fault(s, ext) is None,
        more.len() > 0,
        s.len() + more.len() <= usize::MAX,
    ensures
        area_fault(s + more, ext) == Some(
            AreaError::EdgeSection {
                remaining: (16 * le32(s, 40) + more.len()) as usize,
                edges: le32(s, 40),
            },
        ),
{
    let t = s + more;
    assert(forall|k: int| 0 <= k < s.len() ==> t[k] == s[k]);
    assert(le32(t, 32) == le32(s, 32) && le32(t, 36) == le32(s, 36) && le32(t, 40) == le32(s, 40));
    if ext {
        assert(real_at(t, 44) == real_at(s, 44));
    }
    assert(area_coding(t, ext) == area_coding(s, ext));
    assert(area_prims_start(t, ext) == area_prims_start(s, ext));
    lemma_prims_of_prefix(s, more, area_prims_start(s, ext), 0, le32(s, 36) as int, area_coding(s, ext));
    assert(area_edges_start(t, ext) == area_edges_start(s, ext));
}

/// A payload without room for the fixed header of an area is refused for its length,
/// one without room for its vertex counts for the first that is missing.
pub proof fn short_areas_are_refused(s: Seq<u8>, ext: bool)
    requires
        s.len() <= usize::MAX,
    ensures
        s.len() < (if ext { 52int } else { 44 }) ==> area_fault(s, ext) == Some(
            AreaError::TooShort { len: s.len() as usize },
        ),
        s.len() >= (if ext { 52int } else { 44 }) && s.len() < (if ext { 52int } else { 44 }) + 4 * le32(s, 32) ==> (
        area_fault(s, ext) matches Some(AreaError::VertexCounts { entry, total }) && total == le32(s, 32) && 4 * entry
            <= s.len() - (if ext { 52int } else { 44 }) < 4 * entry + 4),
{
}

// ── Records of plain streams ─────────────────────────────────────────────────

/// A plain stream is refused where a line record is cut within the last field of a
/// reference, and where a table has no count; a line record that is cut elsewhere is
/// taken.
pub proof fn plain_streams_refuse_cut_records(
    extent: Seq<u8>,
    count: u32,
    refs: Seq<EdgeRef>,
    tail: Seq<u8>,
    p: Seq<u8>,
)
    requires
        extent.len() == 32,
        refs.len() < count,
        tail.len() < 16,
    ensures
        record_fault(81, extent + (put32(count) + (put_all(refs, |r: EdgeRef| put_ref(r)) + tail))) == (if tail.len()
            >= 12 {
            Some(OsencError::TruncatedLine)
        } else {
            None
        }),
        p.len() < 4 ==> record_fault(96, p) == Some(OsencError::TruncatedTable { rec_type: 96 }) && record_fault(97, p)
            == Some(OsencError::TruncatedTable { rec_type: 97 }),
        p.len() >= 4 ==> record_fault(96, p) is None && record_fault(97, p) is None,
{
    let list = put_all(refs, |r: EdgeRef| put_ref(r));
    let q = extent + (put32(count) + (list + tail));
    lemma_self(q);
    lemma_put32(q, 32, count);
    lemma_refs(q, 36, refs);
    lemma_found_parts(q, 0, extent, put32(count) + (list + tail));
    lemma_found_parts(q, 32, put32(count), list + tail);
    lemma_found_parts(q, 36, list, tail);
    assert(q.len() - 36 == 16 * refs.len() + tail.len());
    assert((q.len() - 36) / 16 == refs.len());
    assert((q.len() - 36) % 16 == tail.len());
}

// ── Prologues ────────────────────────────────────────────────────────────────

/// Data that does not begin with a whole server status record is refused for what it
/// lacks: a record header, the right type, room for the fields, or the rest of the
/// record.
pub proof fn other_beginnings_are_no_status(rec_type: u16, length: u32, rest: Seq<u8>, s: Seq<u8>)
    requires
        s.len() <= usize::MAX,
    ensures
        s.len() < 6 ==> status_fault(s) == Some(SencError::TooShort { len: s.len() as usize }),
        ({
            let t = put16(rec_type) + (put32(length) + rest);
            &&& rec_type != 200 && !raster_signature(t) ==> status_fault(t) == Some(
                SencError::NotServerStatus { rec_type },
            )
            &&& rec_type == 200 && length < 18 ==> status_fault(t) == Some(
                SencError::StatusTooShort { rec_len: length },
            )
            &&& rec_type == 200 && length >= 18 && t.len() < length ==> status_fault(t) == Some(
                SencError::StatusTruncated,
            )
        }),
{
    let t = put16(rec_type) + (put32(length) + rest);
    lemma_self(t);
    lemma_put16(t, 0, rec_type);
    lemma_put32(t, 2, length);
    lemma_found_parts(t, 0, put16(rec_type), put32(length) + rest);
    lemma_found_parts(t, 2, put32(length), rest);
}

/// Data that does not begin with a version record is refused for what it lacks: room
/// for one, the right type, or room for the version.
pub proof fn other_beginnings_are_no_version(rec_type: u16, length: u32, rest: Seq<u8>, s: Seq<u8>)
    requires
        rest.len() >= 2,
    ensures
        s.len() < 8 ==> version_fault(s) == Some(SencError::VersionMissing),
        ({
            let t = put16(rec_type) + (put32(length) + rest);
            &&& rec_type != 1 && !raster_signature(t) ==> version_fault(t) == Some(SencError::NotVersion { rec_type })
            &&& rec_type == 1 && length < 8 ==> version_fault(t) == Some(
                SencError::VersionTooShort { rec_len: length },
            )
        }),
{
    let t = put16(rec_type) + (put32(length) + rest);
    lemma_self(t);
    lemma_put16(t, 0, rec_type);
    lemma_put32(t, 2, length);
    lemma_found_parts(t, 0, put16(rec_type), put32(length) + rest);
    lemma_found_parts(t, 2, put32(length), rest);
}

/// A text field that is a whole payload and holds no zero is all of the payload's
/// text.
pub proof fn a_whole_payload_is_a_text(p: Seq<u8>)
    requires
        forall|i: int| 0 <= i < p.len() ==> #[trigger] p[i] != 0,
    ensures
        header_text(p) == lossy_text(p),
{
    lemma_zero(p, 0, p.len() as int, p.len() as int);
    assert(p.subrange(0, p.len() as int) =~= p);
}

/// A text field that neither ends with a zero nor has all its bytes within the data
/// has no text.
pub proof fn a_field_beyond_the_data_has_no_text(head: Seq<u8>, text: Seq<u8>, max: int)
    requires
        forall|i: int| 0 <= i < text.len() ==> #[trigger] text[i] != 0,
        max > text.len(),
    ensures
        c_text(head + text, head.len() as int, max) is None,
{
    let s = head + text;
    let at = head.len() as int;
    assert forall|i: int| at <= i < s.len() implies #[trigger] s[i] != 0 by {
        assert(s[i] == text[i - at]);
    }
    lemma_zero(s, at, s.len() as int, s.len() as int);
}

} // verus!
