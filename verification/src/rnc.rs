//! Raster cells: a grid of PNG images, decoded when they are needed.
use std::collections::HashMap;
use vstd::prelude::*;
use vstd::std_specs::hash::*;
use crate::bbox::Bbox;
use crate::edition_date::{ddmmyyyy_key, EditionDate};
use crate::png::{decode_png, png_image, RgbaPixels};
use crate::rnc_footer::{whole_scale, MercExtent, RncFooter};
use crate::rnc_format::{grid_cols, grid_rows, grid_tiles_lie_in_file, header_fault, offset_table, HeaderError, RncHeader};
use crate::scalar::{Position, Real};
use crate::senc::rings::lists;

verus! {

broadcast use group_hash_axioms;

/// Why a file is refused.
#[derive(Debug, Clone, Copy, PartialEq, Eq, Structural)]
pub enum CellError {
    Header(HeaderError),
    /// The extent of the cell has no area.
    DegenerateExtent { bbox: Bbox },
}

/// Why there is no image of a grid tile.
#[derive(Debug, Clone, Copy, PartialEq, Eq, Structural)]
pub enum SubtileError {
    /// The grid has no such tile, or the file ends before it.
    OutOfBounds,
    /// The bytes of the tile are no PNG image.
    Undecodable,
}

/// A raster cell.
#[derive(Debug)]
pub struct RncCell {
    name: String,
    data: Vec<u8>,
    header: RncHeader,
    bbox: Bbox,
    coverage: Vec<Vec<Position>>,
    merc: MercExtent,
    native_scale: u32,
    edition: EditionDate,
    /// Images that were decoded, by grid index.
    cache: HashMap<u32, RgbaPixels>,
}

/// The file bytes of a grid tile.
pub open spec fn tile_file(header: RncHeader, data: Seq<u8>, n: u32) -> Option<Seq<u8>> {
    match header.range_of(n as int % header.cols as int, n as int / header.cols as int) {
        Some((lo, hi)) => if lo <= hi <= data.len() {
            Some(data.subrange(lo as int, hi as int))
        } else {
            None
        },
        None => None,
    }
}

/// The image of a grid tile, if there is one.
pub open spec fn tile_image(header: RncHeader, data: Seq<u8>, n: u32) -> Option<(u32, u32, Seq<u8>)> {
    match tile_file(header, data, n) {
        Some(file) => png_image(file),
        None => None,
    }
}

impl RncCell {
    /// The grid has columns, and every image in the cache is that of its tile.
    pub closed spec fn valid(&self) -> bool {
        &&& self.header.cols > 0
        &&& forall|n: u32| #[trigger]
            self.cache@.contains_key(n) ==> self.cache@[n].complete() && tile_image(self.header, self.data@, n)
                == Some(self.cache@[n].shown())
    }

    /// Name of the cell.
    pub closed spec fn title(&self) -> Seq<char> {
        self.name@
    }

    /// Bytes of the file.
    pub closed spec fn file(&self) -> Seq<u8> {
        self.data@
    }

    /// Grid dimensions and tile offsets.
    pub closed spec fn grid(&self) -> RncHeader {
        self.header
    }

    /// Extent in degrees.
    pub closed spec fn extent(&self) -> Bbox {
        self.bbox
    }

    /// Coverage rings.
    pub closed spec fn cover(&self) -> Seq<Vec<Position>> {
        self.coverage@
    }

    /// Extent in the projection of the grid.
    pub closed spec fn projected(&self) -> MercExtent {
        self.merc
    }

    /// Scale denominator.
    pub closed spec fn scale(&self) -> u32 {
        self.native_scale
    }

    /// Edition date.
    pub closed spec fn edition_key(&self) -> int {
        self.edition.key()
    }

    /// Nothing but the cache differs.
    pub open spec fn same_cell(&self, other: &RncCell) -> bool {
        &&& self.title() == other.title()
        &&& self.file() == other.file()
        &&& self.grid() == other.grid()
        &&& self.extent() == other.extent()
        &&& self.cover() == other.cover()
        &&& self.projected() == other.projected()
        &&& self.scale() == other.scale()
        &&& self.edition_key() == other.edition_key()
    }

    /// Makes a cell of a file whose footer has been read. `project` takes a
    /// longitude and a latitude to the projection of the grid, `unproject` takes a
    /// pair of its coordinates back, and `has_area` says whether a ring has an
    /// area.
    pub fn parse<
        P: Fn(Real, Real) -> (Real, Real),
        U: Fn(Real, Real) -> Position,
        A: Fn(&Vec<Position>) -> bool,
    >(name: String, data: Vec<u8>, footer: &RncFooter, project: P, unproject: U, has_area: A) -> (r: Result<
        RncCell,
        CellError,
    >)
        requires
            forall|lon: Real, lat: Real| call_requires(project, (lon, lat)),
            forall|x: Real, y: Real| call_requires(unproject, (x, y)),
            forall|v: &Vec<Position>| call_requires(has_area, (v,)),
        ensures
            match r {
                Ok(cell) => {
                    &&& cell.valid()
                    &&& header_fault(data@) is None
                    &&& cell.title() == name@
                    &&& cell.file() == data@
                    &&& cell.grid().cols == grid_cols(data@)
                    &&& cell.grid().rows == grid_rows(data@)
                    &&& cell.grid().offsets@ == offset_table(data@)
                    &&& cell.grid().valid_for(data@.len() as int)
                    &&& cell.extent() == footer.extent()
                    &&& footer.projects_to(project, cell.projected())
                    &&& cell.projected().proper()
                    &&& footer.covers(lists(cell.cover()), unproject, has_area)
                    &&& cell.scale() == whole_scale(footer.scale)
                    &&& cell.edition_key() == ddmmyyyy_key(footer.edate@)
                },
                Err(CellError::Header(e)) => header_fault(data@) == Some(e),
                Err(CellError::DegenerateExtent { bbox }) => {
                    &&& header_fault(data@) is None
                    &&& exists|m: MercExtent| #[trigger] footer.projects_to(project, m) && !m.proper()
                    &&& bbox == footer.extent()
                },
            },
    {
        let header: RncHeader = match RncHeader::parse(data.as_slice()) {
            Ok(h) => h,
            Err(e) => {
                return Err(CellError::Header(e));
            },
        };
        proof {
            assert(header.cols > 0) by (nonlinear_arith)
                requires
                    header.cols * header.rows > 0,
            ;
        }
        let bbox: Bbox = footer.wgs84_bbox();
        let merc: MercExtent = footer.merc_bbox(&project);
        if !(merc.xmin.lt(merc.xmax) && merc.ymin.lt(merc.ymax)) {
            return Err(CellError::DegenerateExtent { bbox });
        }
        let coverage: Vec<Vec<Position>> = footer.coverage(unproject, has_area);
        let native_scale: u32 = footer.native_scale();
        let edition: EditionDate = EditionDate::from_ddmmyyyy(footer.edate.as_str());
        Ok(
            RncCell {
                name,
                data,
                header,
                bbox,
                coverage,
                merc,
                native_scale,
                edition,
                cache: HashMap::new(),
            },
        )
    }

    /// Name of the cell.
    pub fn name(&self) -> (t: &str)
        ensures
            t@ == self.title(),
    {
        self.name.as_str()
    }

    /// Extent in degrees.
    pub fn bbox(&self) -> (b: Bbox)
        ensures
            b == self.extent(),
    {
        self.bbox
    }

    /// Coverage rings.
    pub fn coverage(&self) -> (c: &Vec<Vec<Position>>)
        ensures
            c@ == self.cover(),
    {
        &self.coverage
    }

    /// Scale denominator.
    pub fn native_scale(&self) -> (s: u32)
        ensures
            s == self.scale(),
    {
        self.native_scale
    }

    /// Edition date.
    pub fn edition_date(&self) -> (d: EditionDate)
        ensures
            d.key() == self.edition_key(),
    {
        self.edition
    }

    /// Grid columns.
    pub fn cols(&self) -> (n: u32)
        ensures
            n == self.grid().cols,
    {
        self.header.cols
    }

    /// Grid rows.
    pub fn rows(&self) -> (n: u32)
        ensures
            n == self.grid().rows,
    {
        self.header.rows
    }

    /// Extent in the projection of the grid.
    pub fn merc_extent(&self) -> (m: MercExtent)
        ensures
            m == self.projected(),
    {
        self.merc
    }

    fn decode(&self, n: u32) -> (r: Result<RgbaPixels, SubtileError>)
        requires
            self.valid(),
        ensures
            match r {
                Ok(img) => img.complete() && tile_image(self.grid(), self.file(), n) == Some(img.shown()),
                Err(SubtileError::OutOfBounds) => tile_file(self.grid(), self.file(), n) is None,
                Err(SubtileError::Undecodable) => tile_file(self.grid(), self.file(), n) is Some && tile_image(
                    self.grid(),
                    self.file(),
                    n,
                ) is None,
            },
    {
        let col: u32 = n % self.header.cols;
        let row: u32 = n / self.header.cols;
        match self.header.tile_bytes(self.data.as_slice(), col, row) {
            Some(file) => {
                match decode_png(file) {
                    Ok(img) => Ok(img),
                    Err(_) => Err(SubtileError::Undecodable),
                }
            },
            None => Err(SubtileError::OutOfBounds),
        }
    }

    /// The image of the grid tile `row * cols + col`, from the cache where it has
    /// been decoded before.
    pub fn subtile_image(&mut self, n: u32) -> (r: Result<&RgbaPixels, SubtileError>)
        requires
            old(self).valid(),
        ensures
            final(self).valid(),
            final(self).same_cell(old(self)),
            match r {
                Ok(img) => img.complete() && tile_image(old(self).grid(), old(self).file(), n) == Some(img.shown()),
                Err(SubtileError::OutOfBounds) => tile_file(old(self).grid(), old(self).file(), n) is None,
                Err(SubtileError::Undecodable) => tile_file(old(self).grid(), old(self).file(), n) is Some
                    && tile_image(old(self).grid(), old(self).file(), n) is None,
            },
    {
        if !self.cache.contains_key(&n) {
            let img: RgbaPixels = match self.decode(n) {
                Ok(img) => img,
                Err(e) => {
                    return Err(e);
                },
            };
            self.cache.insert(n, img);
        }
        match self.cache.get(&n) {
            Some(img) => Ok(img),
            None => Err(SubtileError::OutOfBounds),
        }
    }
}

/// The bytes of a grid tile are those between its offset and the next one; tiles are
/// numbered row by row, and a number beyond the grid has none.
pub proof fn a_tile_is_what_its_offsets_enclose(header: RncHeader, data: Seq<u8>, n: u32)
    requires
        header.valid_for(data.len() as int),
        header.cols > 0,
        data.len() <= usize::MAX,
    ensures
        n < header.cols * header.rows ==> (tile_file(header, data, n) matches Some(file) && file == data.subrange(
            header.offsets@[n as int] as int,
            header.offsets@[n + 1] as int,
        )),
        n >= header.cols * header.rows ==> tile_file(header, data, n) is None,
{
    let cols = header.cols as int;
    let rows = header.rows as int;
    let col = n as int % cols;
    let row = n as int / cols;
    vstd::arithmetic::div_mod::lemma_fundamental_div_mod(n as int, cols);
    assert(row * cols == cols * row) by (nonlinear_arith);
    if n < header.cols * header.rows {
        assert(row < rows) by (nonlinear_arith)
            requires
                n == cols * row + col,
                0 <= col,
                n < cols * rows,
                cols > 0,
        ;
        assert(row >= 0) by (nonlinear_arith)
            requires
                n >= 0,
                n == cols * row + col,
                col < cols,
                cols > 0,
        ;
        grid_tiles_lie_in_file(header, data.len() as int, col, row);
    } else {
        assert(row >= rows) by (nonlinear_arith)
            requires
                n == cols * row + col,
                col < cols,
                n >= cols * rows,
                cols > 0,
        ;
    }
}

} // verus!
