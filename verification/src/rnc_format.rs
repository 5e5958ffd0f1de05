//! The `.rnc` raster cell format.
//!
//! ```text
//! offset                size            content
//! 0                     8 B             ignored
//! 8                     4 B             u32 LE: grid columns
//! 12                    4 B             u32 LE: grid rows
//! 16                    (k*l + 2) * 4   u32 LE byte offsets; tile n occupies
//!                                       the bytes from offset n to offset n + 1
//! 16 + (k*l+2)*4        variable        one PNG blob per grid tile, packed
//! ...                                   trailing JSON footer
//! ```
use vstd::prelude::*;
use crate::bytes::{le32, lemma_found_parts, lemma_put32, lemma_put_all, put32, put_all, read_u32};
use crate::senc::written::lemma_self;
use crate::text::{number_text, with_number};

verus! {

/// Why a header is refused.
#[derive(Debug, Clone, Copy, PartialEq, Eq, Structural)]
pub enum HeaderError {
    /// The field at offset `at` lies outside a file of `len` bytes.
    FieldOutOfBounds { at: usize, len: usize },
    /// The grid has no tiles.
    EmptyGrid { cols: u32, rows: u32 },
    /// The offset table has a size that no file can have.
    TableTooLarge,
    /// No file can hold the offset table behind the fixed header.
    TableOverflows,
    /// The file ends inside the offset table.
    TruncatedTable { len: usize, need: u64 },
    /// An offset is smaller than the one before it.
    NotMonotone,
    /// The last tile ends past the end of the file.
    PastEnd,
}

impl HeaderError {
    /// The sentence that tells a user what is wrong.
    pub open spec fn sentence(self) -> Seq<char> {
        match self {
            HeaderError::FieldOutOfBounds { at, len } => with_number("offset "@, at as int, " out of bounds"@)
                + with_number(" (file is "@, len as int, " bytes)"@),
            HeaderError::EmptyGrid { cols, rows } => with_number("empty tile grid ("@, cols as int, "x"@)
                + with_number(""@, rows as int, ")"@),
            HeaderError::TableTooLarge => "offset table too large"@,
            HeaderError::TableOverflows => "offset table overflows file size"@,
            HeaderError::TruncatedTable { len, need } => with_number(
                "truncated offset table: file is "@,
                len as int,
                " bytes"@,
            ) + with_number(", need at least "@, need as int, ""@),
            HeaderError::NotMonotone => "offset table is not monotonically non-decreasing"@,
            HeaderError::PastEnd => "offset table points past end of file"@,
        }
    }

    /// A sentence for a log or an error message.
    pub fn message(&self) -> (t: String)
        ensures
            t@ == self.sentence(),
    {
        match self {
            HeaderError::FieldOutOfBounds { at, len } => {
                let mut t: String = number_text("offset ", *at as u64, " out of bounds");
                t.append(number_text(" (file is ", *len as u64, " bytes)").as_str());
                t
            },
            HeaderError::EmptyGrid { cols, rows } => {
                let mut t: String = number_text("empty tile grid (", *cols as u64, "x");
                t.append(number_text("", *rows as u64, ")").as_str());
                t
            },
            HeaderError::TableTooLarge => "offset table too large".to_owned(),
            HeaderError::TableOverflows => "offset table overflows file size".to_owned(),
            HeaderError::TruncatedTable { len, need } => {
                let mut t: String = number_text("truncated offset table: file is ", *len as u64, " bytes");
                t.append(number_text(", need at least ", *need, "").as_str());
                t
            },
            HeaderError::NotMonotone => "offset table is not monotonically non-decreasing".to_owned(),
            HeaderError::PastEnd => "offset table points past end of file".to_owned(),
        }
    }
}

/// Grid dimensions and the tile offset table.
#[derive(Debug, Clone)]
pub struct RncHeader {
    pub cols: u32,
    pub rows: u32,
    /// Byte offsets into the file, `cols * rows + 2` of them. Only those up to
    /// index `cols * rows` have a meaning.
    pub offsets: Vec<u32>,
}

/// Grid columns of a file.
pub open spec fn grid_cols(data: Seq<u8>) -> u32 {
    le32(data, 8)
}

/// Grid rows of a file.
pub open spec fn grid_rows(data: Seq<u8>) -> u32 {
    le32(data, 12)
}

/// Number of grid tiles of a file.
pub open spec fn tile_count(data: Seq<u8>) -> int {
    grid_cols(data) * grid_rows(data)
}

/// First byte after the offset table.
pub open spec fn table_end(data: Seq<u8>) -> int {
    16 + 4 * (tile_count(data) + 2)
}

/// The offset table of a file.
pub open spec fn offset_table(data: Seq<u8>) -> Seq<u32> {
    Seq::new((tile_count(data) + 2) as nat, |i: int| le32(data, 16 + 4 * i))
}

/// No offset is smaller than the one before it.
pub open spec fn monotone(offsets: Seq<u32>) -> bool {
    forall|i: int| 0 <= i < offsets.len() - 1 ==> #[trigger] offsets[i] <= offsets[i + 1]
}

/// The first thing that is wrong with the header of a file, if anything is.
pub open spec fn header_fault(data: Seq<u8>) -> Option<HeaderError> {
    if data.len() < 12 {
        Some(HeaderError::FieldOutOfBounds { at: 8, len: data.len() as usize })
    } else if data.len() < 16 {
        Some(HeaderError::FieldOutOfBounds { at: 12, len: data.len() as usize })
    } else if tile_count(data) == 0 {
        Some(HeaderError::EmptyGrid { cols: grid_cols(data), rows: grid_rows(data) })
    } else if table_end(data) - 16 > u64::MAX {
        Some(HeaderError::TableTooLarge)
    } else if table_end(data) > u64::MAX {
        Some(HeaderError::TableOverflows)
    } else if data.len() < table_end(data) {
        Some(HeaderError::TruncatedTable { len: data.len() as usize, need: table_end(data) as u64 })
    } else if !monotone(offset_table(data)) {
        Some(HeaderError::NotMonotone)
    } else if offset_table(data)[tile_count(data)] > data.len() {
        Some(HeaderError::PastEnd)
    } else {
        None
    }
}

/// Reads the field at `at`, if it lies within the file.
pub fn read_u32_le(data: &[u8], at: usize) -> (r: Result<u32, HeaderError>)
    ensures
        r == (if at + 4 <= data@.len() {
            Ok(le32(data@, at as int))
        } else {
            Err(HeaderError::FieldOutOfBounds { at, len: data@.len() as usize })
        }),
{
    if data.len() >= 4 && at <= data.len() - 4 {
        Ok(read_u32(data, at))
    } else {
        Err(HeaderError::FieldOutOfBounds { at, len: data.len() })
    }
}

impl RncHeader {
    /// The table has the length that the grid asks for, its offsets do not
    /// decrease, and every tile ends within a file of `len` bytes.
    pub open spec fn valid_for(&self, len: int) -> bool {
        &&& self.cols * self.rows > 0
        &&& self.offsets@.len() == self.cols * self.rows + 2
        &&& monotone(self.offsets@)
        &&& self.offsets@[self.cols * self.rows] <= len
    }

    /// Index of grid tile `(col, row)` in the table.
    pub open spec fn tile_index(&self, col: int, row: int) -> int {
        row * self.cols + col
    }

    /// The byte range of a grid tile, where the table gives one.
    pub open spec fn range_of(&self, col: int, row: int) -> Option<(usize, usize)> {
        let n = self.tile_index(col, row);
        if col < self.cols && row < self.rows && n + 1 < self.offsets@.len() {
            Some((self.offsets@[n] as usize, self.offsets@[n + 1] as usize))
        } else {
            None
        }
    }

    /// Reads the fixed header and the offset table. Neither the footer nor any
    /// PNG blob is looked at.
    pub fn parse(data: &[u8]) -> (r: Result<RncHeader, HeaderError>)
        ensures
            match r {
                Ok(h) => {
                    &&& header_fault(data@) is None
                    &&& h.cols == grid_cols(data@)
                    &&& h.rows == grid_rows(data@)
                    &&& h.offsets@ == offset_table(data@)
                    &&& h.valid_for(data@.len() as int)
                },
                Err(e) => header_fault(data@) == Some(e),
            },
    {
        let cols: u32 = match read_u32_le(data, 8) {
            Ok(v) => v,
            Err(e) => {
                return Err(e);
            },
        };
        let rows: u32 = match read_u32_le(data, 12) {
            Ok(v) => v,
            Err(e) => {
                return Err(e);
            },
        };
        proof {
            assert(cols * rows <= 0xFFFF_FFFF * 0xFFFF_FFFF) by (nonlinear_arith)
                requires
                    cols <= 0xFFFF_FFFF,
                    rows <= 0xFFFF_FFFF,
            ;
            assert(cols * rows >= 0) by (nonlinear_arith);
        }
        let n_tiles: u64 = cols as u64 * rows as u64;
        if n_tiles == 0 {
            return Err(HeaderError::EmptyGrid { cols, rows });
        }
        let table_bytes: u64 = match (n_tiles + 2).checked_mul(4) {
            Some(v) => v,
            None => {
                return Err(HeaderError::TableTooLarge);
            },
        };
        let end: u64 = match table_bytes.checked_add(16) {
            Some(v) => v,
            None => {
                return Err(HeaderError::TableOverflows);
            },
        };
        if (data.len() as u64) < end {
            return Err(HeaderError::TruncatedTable { len: data.len(), need: end });
        }
        let n: usize = n_tiles as usize;
        let mut offsets: Vec<u32> = Vec::new();
        let mut i: usize = 0;
        while i < n + 2
            invariant
                i <= n + 2,
                n == tile_count(data@),
                n + 2 <= usize::MAX,
                data@.len() >= table_end(data@),
                data@.len() <= usize::MAX,
                offsets@.len() == i,
                forall|k: int| 0 <= k < i ==> offsets@[k] == le32(data@, 16 + 4 * k),
            decreases n + 2 - i,
        {
            offsets.push(read_u32(data, 16 + 4 * i));
            i += 1;
        }
        assert(offsets@ =~= offset_table(data@));
        let mut j: usize = 1;
        while j < n + 2
            invariant
                1 <= j <= n + 2,
                n + 2 <= usize::MAX,
                offsets@ == offset_table(data@),
                offsets@.len() == n + 2,
                forall|k: int| 0 <= k < j - 1 ==> #[trigger] offsets@[k] <= offsets@[k + 1],
                data@.len() >= 16,
                tile_count(data@) != 0,
                table_end(data@) <= u64::MAX,
                data@.len() >= table_end(data@),
            decreases n + 2 - j,
        {
            if offsets[j] < offsets[j - 1] {
                assert(!monotone(offset_table(data@))) by {
                    assert(offsets@[j - 1] > offsets@[j - 1 + 1]);
                }
                return Err(HeaderError::NotMonotone);
            }
            j += 1;
        }
        if offsets[n] as usize > data.len() {
            return Err(HeaderError::PastEnd);
        }
        Ok(RncHeader { cols, rows, offsets })
    }

    /// Byte range of grid tile `(col, row)` within the file.
    pub fn tile_range(&self, col: u32, row: u32) -> (r: Option<(usize, usize)>)
        ensures
            r == self.range_of(col as int, row as int),
    {
        if col >= self.cols || row >= self.rows {
            return None;
        }
        proof {
            assert(row * self.cols + col <= 0xFFFF_FFFF * 0xFFFF_FFFF + 0xFFFF_FFFF) by (nonlinear_arith)
                requires
                    row <= 0xFFFF_FFFF,
                    self.cols <= 0xFFFF_FFFF,
                    col <= 0xFFFF_FFFF,
            ;
            assert(row * self.cols >= 0) by (nonlinear_arith);
        }
        let n: u64 = row as u64 * self.cols as u64 + col as u64;
        let len: usize = self.offsets.len();
        if len < 2 || n > (len - 2) as u64 {
            return None;
        }
        let k: usize = n as usize;
        Some((self.offsets[k] as usize, self.offsets[k + 1] as usize))
    }

    /// The PNG bytes of grid tile `(col, row)`, cut out of the file's bytes.
    pub fn tile_bytes<'a>(&self, data: &'a [u8], col: u32, row: u32) -> (r: Option<&'a [u8]>)
        ensures
            match self.range_of(col as int, row as int) {
                Some((lo, hi)) => if lo <= hi <= data@.len() {
                    r is Some && r->0@ == data@.subrange(lo as int, hi as int)
                } else {
                    r is None
                },
                None => r is None,
            },
    {
        match self.tile_range(col, row) {
            Some((lo, hi)) => {
                if lo <= hi && hi <= data.len() {
                    Some(vstd::slice::slice_subrange(data, lo, hi))
                } else {
                    None
                }
            },
            None => None,
        }
    }
}

proof fn lemma_monotone(offsets: Seq<u32>, i: int, j: int)
    requires
        monotone(offsets),
        0 <= i <= j < offsets.len(),
    ensures
        offsets[i] <= offsets[j],
    decreases j - i,
{
    if i < j {
        lemma_monotone(offsets, i, j - 1);
        assert(offsets[j - 1] <= offsets[j - 1 + 1]);
    }
}

/// Every tile of the grid of a valid header has its bytes within the file.
pub proof fn grid_tiles_lie_in_file(h: RncHeader, len: int, col: int, row: int)
    requires
        h.valid_for(len),
        0 <= col < h.cols,
        0 <= row < h.rows,
    ensures
        0 <= h.tile_index(col, row) < h.cols * h.rows,
        h.range_of(col, row) is Some,
        h.range_of(col, row) matches Some((lo, hi)) && lo <= hi <= len,
{
    let n = h.tile_index(col, row);
    assert(0 <= n < h.cols * h.rows) by (nonlinear_arith)
        requires
            n == row * h.cols + col,
            0 <= col < h.cols,
            0 <= row < h.rows,
    ;
    lemma_monotone(h.offsets@, n, n + 1);
    lemma_monotone(h.offsets@, n + 1, h.cols * h.rows);
}

/// Different tiles of the grid never share a byte.
pub proof fn grid_tiles_are_disjoint(h: RncHeader, len: int, c1: int, r1: int, c2: int, r2: int)
    requires
        h.valid_for(len),
        0 <= c1 < h.cols,
        0 <= r1 < h.rows,
        0 <= c2 < h.cols,
        0 <= r2 < h.rows,
        (c1, r1) != (c2, r2),
    ensures
        h.tile_index(c1, r1) != h.tile_index(c2, r2),
        h.range_of(c1, r1) matches Some((lo1, hi1)) && h.range_of(c2, r2) matches Some((lo2, hi2)) && (hi1
            <= lo2 || hi2 <= lo1),
{
    grid_tiles_lie_in_file(h, len, c1, r1);
    grid_tiles_lie_in_file(h, len, c2, r2);
    let n1 = h.tile_index(c1, r1);
    let n2 = h.tile_index(c2, r2);
    if r1 != r2 {
        if r1 < r2 {
            assert(n1 < n2) by (nonlinear_arith)
                requires
                    n1 == r1 * h.cols + c1,
                    n2 == r2 * h.cols + c2,
                    0 <= c1 < h.cols,
                    0 <= c2,
                    r1 + 1 <= r2,
            ;
        } else {
            assert(n2 < n1) by (nonlinear_arith)
                requires
                    n1 == r1 * h.cols + c1,
                    n2 == r2 * h.cols + c2,
                    0 <= c2 < h.cols,
                    0 <= c1,
                    r2 + 1 <= r1,
            ;
        }
    }
    if n1 < n2 {
        lemma_monotone(h.offsets@, n1 + 1, n2);
    } else {
        lemma_monotone(h.offsets@, n2 + 1, n1);
    }
}

proof fn lemma_written_fields(head: Seq<u8>, cols: u32, rows: u32, offsets: Seq<u32>, rest: Seq<u8>)
    requires
        head.len() == 8,
        offsets.len() == cols * rows + 2,
    ensures
        ({
            let s = head + (put32(cols) + (put32(rows) + (put_all(offsets, |v: u32| put32(v)) + rest)));
            &&& grid_cols(s) == cols
            &&& grid_rows(s) == rows
            &&& s.len() == 16 + 4 * offsets.len() + rest.len()
            &&& offset_table(s) == offsets
        }),
{
    let put = |v: u32| put32(v);
    let list = put_all(offsets, put);
    let s = head + (put32(cols) + (put32(rows) + (list + rest)));
    lemma_self(s);
    lemma_put32(s, 8, cols);
    lemma_put32(s, 12, rows);
    lemma_found_parts(s, 0, head, put32(cols) + (put32(rows) + (list + rest)));
    lemma_found_parts(s, 8, put32(cols), put32(rows) + (list + rest));
    lemma_found_parts(s, 12, put32(rows), list + rest);
    assert forall|v: u32| (#[trigger] put(v)).len() == 4 by {
        lemma_put32(s, 0, v);
    }
    lemma_put_all(s, 16, offsets, put, 4, 0);
    lemma_found_parts(s, 16, list, rest);
    let out = offset_table(s);
    assert(out.len() == offsets.len());
    assert forall|i: int| 0 <= i < offsets.len() implies out[i] == offsets[i] by {
        lemma_put_all(s, 16, offsets, put, 4, i);
        lemma_put32(s, 16 + 4 * i, offsets[i]);
    }
    assert(out =~= offsets);
}

proof fn lemma_no_descent(offsets: Seq<u32>)
    ensures
        monotone(offsets) <==> (forall|i: int, j: int| 0 <= i <= j < offsets.len() ==> offsets[i] <= offsets[j]),
{
    if monotone(offsets) {
        assert forall|i: int, j: int| 0 <= i <= j < offsets.len() implies offsets[i] <= offsets[j] by {
            lemma_monotone(offsets, i, j);
        }
    }
}

/// A header is eight bytes that are ignored, the number of columns, the number of
/// rows and the offset table. It is read back as it was written, and accepted where
/// no offset is followed by a smaller one and the last tile ends within the file.
pub proof fn a_written_header_is_read(head: Seq<u8>, cols: u32, rows: u32, offsets: Seq<u32>, rest: Seq<u8>)
    requires
        head.len() == 8,
        cols * rows > 0,
        offsets.len() == cols * rows + 2,
        16 + 4 * offsets.len() <= u64::MAX,
    ensures
        ({
            let s = head + (put32(cols) + (put32(rows) + (put_all(offsets, |v: u32| put32(v)) + rest)));
            &&& grid_cols(s) == cols
            &&& grid_rows(s) == rows
            &&& offset_table(s) == offsets
            &&& header_fault(s) is None <==> (forall|i: int, j: int|
                0 <= i <= j < offsets.len() ==> offsets[i] <= offsets[j]) && offsets[cols * rows] <= s.len()
        }),
{
    let s = head + (put32(cols) + (put32(rows) + (put_all(offsets, |v: u32| put32(v)) + rest)));
    lemma_written_fields(head, cols, rows, offsets, rest);
    lemma_no_descent(offsets);
    assert(tile_count(s) == cols * rows);
}

/// The bytes of a tile are those between its offset and the next one; tiles are
/// counted row by row.
pub proof fn tiles_are_counted_row_by_row(h: RncHeader, len: int, col: int, row: int)
    requires
        h.valid_for(len),
        0 <= col < h.cols,
        0 <= row < h.rows,
    ensures
        h.range_of(col, row) == Some((h.offsets@[row * h.cols + col] as usize, h.offsets@[row * h.cols + col + 1] as usize)),
        h.range_of(h.cols as int, row) is None,
        h.range_of(col, h.rows as int) is None,
{
    grid_tiles_lie_in_file(h, len, col, row);
}

} // verus!
