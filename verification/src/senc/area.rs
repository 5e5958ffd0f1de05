//! Area geometry records.
use vstd::prelude::*;
use crate::bbox::Bbox;
use crate::bytes::{le16_signed, le32, read_i16, read_real, read_u32, real_at};
use crate::senc::{
    edge_refs_at, numbers_at, point_size, read_edge_refs, read_numbers, read_sm_points, sm_points_at,
    stride, views, AreaView, Coding, EdgeRef, PrimExtent, RawArea, RawTriPrim, SmPoint, TriPrimView,
};
use crate::text::{decimal_text, digits_of, number_text, with_number};

verus! {

/// Why an area payload is refused.
#[derive(Debug, Clone, Copy, PartialEq, Eq, Structural)]
pub enum AreaError {
    /// The fixed header is incomplete.
    TooShort { len: usize },
    /// The vertex count array ends before this entry.
    VertexCounts { entry: usize, total: u32 },
    /// The payload ends inside the header of this primitive.
    PrimHeader { entry: usize, total: u32 },
    /// The payload ends inside the body of this primitive.
    PrimBody { entry: usize, total: u32, vertices: u32 },
    /// The bytes left for the edge section are not those of its entries.
    EdgeSection { remaining: usize, edges: u32 },
}

impl AreaError {
    /// The sentence that tells a user what is wrong.
    pub open spec fn sentence(self) -> Seq<char> {
        match self {
            AreaError::TooShort { len } => with_number("area payload too short ("@, len as int, " bytes)"@),
            AreaError::VertexCounts { entry, total } => with_number(
                "truncated vertex count array at entry "@,
                entry as int,
                "/"@,
            ) + digits_of(total as int),
            AreaError::PrimHeader { entry, total } => with_number(
                "truncated TriPrim header at entry "@,
                entry as int,
                "/"@,
            ) + digits_of(total as int),
            AreaError::PrimBody { entry, total, vertices } => with_number(
                "truncated TriPrim body at entry "@,
                entry as int,
                "/"@,
            ) + digits_of(total as int) + with_number(" (nvert="@, vertices as int, ")"@),
            AreaError::EdgeSection { remaining, edges } => with_number(
                "unexpected "@,
                remaining as int,
                " bytes for edge section"@,
            ) + with_number(" (expected "@, 16 * edges, ")"@),
        }
    }

    /// A sentence for a log or an error message.
    pub fn message(&self) -> (t: String)
        ensures
            t@ == self.sentence(),
    {
        match self {
            AreaError::TooShort { len } => number_text("area payload too short (", *len as u64, " bytes)"),
            AreaError::VertexCounts { entry, total } => {
                let mut t: String = number_text("truncated vertex count array at entry ", *entry as u64, "/");
                t.append(decimal_text(*total as u64).as_str());
                t
            },
            AreaError::PrimHeader { entry, total } => {
                let mut t: String = number_text("truncated TriPrim header at entry ", *entry as u64, "/");
                t.append(decimal_text(*total as u64).as_str());
                t
            },
            AreaError::PrimBody { entry, total, vertices } => {
                let mut t: String = number_text("truncated TriPrim body at entry ", *entry as u64, "/");
                t.append(decimal_text(*total as u64).as_str());
                t.append(number_text(" (nvert=", *vertices as u64, ")").as_str());
                t
            },
            AreaError::EdgeSection { remaining, edges } => {
                let mut t: String = number_text("unexpected ", *remaining as u64, " bytes for edge section");
                t.append(number_text(" (expected ", 16 * (*edges as u64), ")").as_str());
                t
            },
        }
    }
}

/// Bytes of the fixed header. The extended form has a scale factor at its end.
pub open spec fn area_header(ext: bool) -> int {
    if ext {
        52
    } else {
        44
    }
}

/// How the points of an area are stored.
pub open spec fn area_coding(s: Seq<u8>, ext: bool) -> Coding {
    if ext {
        Coding::Scaled(real_at(s, 44))
    } else {
        Coding::Plain
    }
}

/// Bytes of a primitive's extent.
pub open spec fn extent_size(coding: Coding) -> int {
    match coding {
        Coding::Plain => 32,
        Coding::Scaled(_) => 8,
    }
}

/// First byte after the primitive at `at`: a type byte, a vertex count, the
/// extent and the vertices.
pub open spec fn prim_end(s: Seq<u8>, at: int, coding: Coding) -> int {
    at + 5 + extent_size(coding) + stride(coding) * le32(s, at + 1)
}

/// The extent stored at `at`.
pub open spec fn extent_at(s: Seq<u8>, at: int, coding: Coding) -> PrimExtent {
    match coding {
        Coding::Plain => PrimExtent::Degrees(
            Bbox {
                west: real_at(s, at),
                south: real_at(s, at + 16),
                east: real_at(s, at + 8),
                north: real_at(s, at + 24),
            },
        ),
        Coding::Scaled(scale) => PrimExtent::Metres {
            min: SmPoint::Scaled { x: le16_signed(s, at), y: le16_signed(s, at + 4), scale },
            max: SmPoint::Scaled { x: le16_signed(s, at + 2), y: le16_signed(s, at + 6), scale },
        },
    }
}

/// The primitive at `at`.
pub open spec fn prim_at(s: Seq<u8>, at: int, coding: Coding) -> TriPrimView {
    TriPrimView {
        prim_type: s[at],
        extent: extent_at(s, at + 5, coding),
        vertices: sm_points_at(s, at + 5 + extent_size(coding), coding, le32(s, at + 1) as int),
    }
}

/// The first of the primitives `i..n`, the `i`th of which is at `at`, that the
/// payload does not hold whole.
pub open spec fn prims_fault(s: Seq<u8>, at: int, i: int, n: int, coding: Coding) -> Option<AreaError>
    decreases n - i,
{
    if i >= n {
        None
    } else if at + 5 > s.len() {
        Some(AreaError::PrimHeader { entry: i as usize, total: n as u32 })
    } else if prim_end(s, at, coding) > s.len() {
        Some(AreaError::PrimBody { entry: i as usize, total: n as u32, vertices: le32(s, at + 1) })
    } else {
        prims_fault(s, prim_end(s, at, coding), i + 1, n, coding)
    }
}

/// First byte after `n` primitives from `at` on.
pub open spec fn prims_end(s: Seq<u8>, at: int, n: int, coding: Coding) -> int
    decreases n,
{
    if n <= 0 {
        at
    } else {
        prims_end(s, prim_end(s, at, coding), n - 1, coding)
    }
}

/// `n` primitives from `at` on.
pub open spec fn prims_at(s: Seq<u8>, at: int, n: int, coding: Coding) -> Seq<TriPrimView>
    decreases n,
{
    if n <= 0 {
        Seq::empty()
    } else {
        seq![prim_at(s, at, coding)] + prims_at(s, prim_end(s, at, coding), n - 1, coding)
    }
}

/// First byte of the tessellation primitives.
pub open spec fn area_prims_start(s: Seq<u8>, ext: bool) -> int {
    area_header(ext) + 4 * le32(s, 32)
}

/// First byte of the edge section.
pub open spec fn area_edges_start(s: Seq<u8>, ext: bool) -> int {
    prims_end(s, area_prims_start(s, ext), le32(s, 36) as int, area_coding(s, ext))
}

/// What is wrong with an area payload, if anything is: an extent of four
/// numbers, three counts (contours, primitives, edges), the scale factor in the
/// extended form, a vertex count per contour, the primitives, and the edge
/// references, which must fill the rest.
pub open spec fn area_fault(s: Seq<u8>, ext: bool) -> Option<AreaError> {
    if s.len() < area_header(ext) {
        Some(AreaError::TooShort { len: s.len() as usize })
    } else if area_prims_start(s, ext) > s.len() {
        Some(
            AreaError::VertexCounts {
                entry: ((s.len() - area_header(ext)) / 4) as usize,
                total: le32(s, 32),
            },
        )
    } else {
        match prims_fault(
            s,
            area_prims_start(s, ext),
            0,
            le32(s, 36) as int,
            area_coding(s, ext),
        ) {
            Some(e) => Some(e),
            None => if s.len() - area_edges_start(s, ext) != 16 * le32(s, 40) {
                Some(
                    AreaError::EdgeSection {
                        remaining: (s.len() - area_edges_start(s, ext)) as usize,
                        edges: le32(s, 40),
                    },
                )
            } else {
                None
            },
        }
    }
}

/// The area that a payload without fault describes.
pub open spec fn area_of(s: Seq<u8>, ext: bool) -> AreaView {
    AreaView {
        contour_count: le32(s, 32),
        vertex_counts: numbers_at(s, area_header(ext), le32(s, 32) as int),
        tri_prims: prims_at(
            s,
            area_prims_start(s, ext),
            le32(s, 36) as int,
            area_coding(s, ext),
        ),
        edge_refs: edge_refs_at(s, area_edges_start(s, ext), le32(s, 40) as int),
    }
}

fn read_extent(p: &[u8], at: usize, coding: Coding) -> (r: PrimExtent)
    requires
        at + extent_size(coding) <= p@.len(),
    ensures
        r == extent_at(p@, at as int, coding),
{
    let len: usize = p.len();
    match coding {
        Coding::Plain => PrimExtent::Degrees(
            Bbox {
                west: read_real(p, at),
                south: read_real(p, at + 16),
                east: read_real(p, at + 8),
                north: read_real(p, at + 24),
            },
        ),
        Coding::Scaled(scale) => PrimExtent::Metres {
            min: SmPoint::Scaled { x: read_i16(p, at), y: read_i16(p, at + 4), scale },
            max: SmPoint::Scaled { x: read_i16(p, at + 2), y: read_i16(p, at + 6), scale },
        },
    }
}

/// Reads `n` primitives from `at` on and returns them with the first byte after
/// them.
fn read_prims(p: &[u8], at: usize, n: u32, coding: Coding) -> (r: Result<(Vec<RawTriPrim>, usize), AreaError>)
    requires
        at <= p@.len(),
    ensures
        match r {
            Ok((prims, end)) => {
                &&& prims_fault(p@, at as int, 0, n as int, coding) is None
                &&& views(prims@) == prims_at(p@, at as int, n as int, coding)
                &&& end == prims_end(p@, at as int, n as int, coding)
                &&& end <= p@.len()
            },
            Err(e) => prims_fault(p@, at as int, 0, n as int, coding) == Some(e),
        },
{
    let extent: usize = match coding {
        Coding::Plain => 32,
        Coding::Scaled(_) => 8,
    };
    let size: usize = point_size(coding);
    let len: usize = p.len();
    let mut out: Vec<RawTriPrim> = Vec::new();
    let mut q: usize = at;
    let mut i: u32 = 0;
    assert(views(out@) + prims_at(p@, q as int, n as int, coding) =~= prims_at(p@, q as int, n as int, coding));
    while i < n
        invariant
            i <= n,
            q <= p@.len(),
            len == p@.len(),
            extent == extent_size(coding),
            size == stride(coding),
            prims_fault(p@, at as int, 0, n as int, coding) == prims_fault(p@, q as int, i as int, n as int, coding),
            prims_end(p@, at as int, n as int, coding) == prims_end(p@, q as int, n - i, coding),
            prims_at(p@, at as int, n as int, coding) == views(out@) + prims_at(p@, q as int, n - i, coding),
        decreases n - i,
    {
        if len - q < 5 {
            return Err(AreaError::PrimHeader { entry: i as usize, total: n });
        }
        let prim_type: u8 = p[q];
        let nvert: u32 = read_u32(p, q + 1);
        let body: u64 = extent as u64 + size as u64 * nvert as u64;
        if ((len - q - 5) as u64) < body {
            return Err(AreaError::PrimBody { entry: i as usize, total: n, vertices: nvert });
        }
        let vertices: Vec<SmPoint> = read_sm_points(p, q + 5 + extent, coding, nvert as usize);
        let prim = RawTriPrim { prim_type, extent: read_extent(p, q + 5, coding), vertices };
        let ghost before = out@;
        let ghost next = prim_end(p@, q as int, coding);
        out.push(prim);
        proof {
            assert(prim@ == prim_at(p@, q as int, coding));
            assert(prims_at(p@, q as int, n - i, coding) == seq![prim@] + prims_at(p@, next, n - i - 1, coding));
            assert(views(out@) =~= views(before) + seq![prim@]);
            assert(views(before) + (seq![prim@] + prims_at(p@, next, n - i - 1, coding)) =~= views(out@) + prims_at(
                p@,
                next,
                n - i - 1,
                coding,
            ));
        }
        q = q + 5 + body as usize;
        i += 1;
    }
    assert(views(out@) + prims_at(p@, q as int, 0, coding) =~= views(out@));
    Ok((out, q))
}

/// Reads an area payload, in its extended form where `ext` is set.
pub fn parse_area_payload(p: &[u8], ext: bool) -> (r: Result<RawArea, AreaError>)
    ensures
        match r {
            Ok(a) => area_fault(p@, ext) is None && a@ == area_of(p@, ext),
            Err(e) => area_fault(p@, ext) == Some(e),
        },
{
    let header: usize = if ext { 52 } else { 44 };
    let len: usize = p.len();
    if len < header {
        return Err(AreaError::TooShort { len });
    }
    let contour_count: u32 = read_u32(p, 32);
    let prim_count: u32 = read_u32(p, 36);
    let edge_count: u32 = read_u32(p, 40);
    let coding: Coding = if ext { Coding::Scaled(read_real(p, 44)) } else { Coding::Plain };
    let room: usize = (len - header) / 4;
    if (room as u64) < contour_count as u64 {
        return Err(AreaError::VertexCounts { entry: room, total: contour_count });
    }
    let vertex_counts: Vec<u32> = read_numbers(p, header, contour_count as usize);
    let start: usize = header + 4 * contour_count as usize;
    let (tri_prims, end) = match read_prims(p, start, prim_count, coding) {
        Ok(v) => v,
        Err(e) => {
            return Err(e);
        },
    };
    let remaining: usize = len - end;
    if remaining as u64 != 16 * edge_count as u64 {
        return Err(AreaError::EdgeSection { remaining, edges: edge_count });
    }
    let edge_refs: Vec<EdgeRef> = read_edge_refs(p, end, edge_count as usize);
    Ok(RawArea { contour_count, vertex_counts, tri_prims, edge_refs })
}

} // verus!
