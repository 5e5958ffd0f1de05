//! Raster tiles made of raster cells.
use vstd::prelude::*;
use crate::bbox::Bbox;
use crate::png::{encode_png, png_file, png_image, RgbaPixels};
use crate::rnc::{tile_image, RncCell};
use crate::rnc_footer::MercExtent;
use crate::rnc_format::grid_tiles_lie_in_file;
use crate::scalar::Position;
use crate::senc::rings::lists;
use crate::style::TILE_PX;

verus! {

/// The geometry of a raster tile.
pub trait RasterCanvas {
    /// The place of the centre of a pixel.
    fn place(&self, px: u32, py: u32) -> Position;

    /// Whether a place lies in the part of the tile that is to be painted.
    fn inside(&self, p: Position) -> bool;

    /// Column and row of the grid tile that shows a place.
    fn grid_tile(&self, p: Position, extent: MercExtent, cols: u32, rows: u32) -> (u32, u32);

    /// The pixel of a grid tile of the given size that shows a place.
    fn grid_pixel(
        &self,
        p: Position,
        extent: MercExtent,
        cols: u32,
        rows: u32,
        width: u32,
        height: u32,
    ) -> (u32, u32);
}

// ── Painting ─────────────────────────────────────────────────────────────────

/// A transparent pixel.
pub open spec fn clear() -> Seq<u8> {
    seq![0u8, 0u8, 0u8, 0u8]
}

/// A place outside a rectangle.
pub open spec fn off_bounds(b: Bbox, p: Position) -> bool {
    p.lon.below(b.west) || b.east.below(p.lon) || p.lat.below(b.south) || b.north.below(p.lat)
}

/// The lesser of a coordinate and the last one of a side.
pub open spec fn clamped(v: u32, side: u32) -> int {
    if v < side {
        v as int
    } else {
        side - 1
    }
}

/// The pixel of an image, at its edge where the coordinates lie beyond it.
pub open spec fn pixel_of(w: u32, h: u32, bytes: Seq<u8>, x: u32, y: u32) -> Seq<u8> {
    let at = 4 * (clamped(y, h) * w + clamped(x, w));
    bytes.subrange(at, at + 4)
}

/// The image of the grid tile at a column and a row.
pub open spec fn image_at(cell: RncCell, col: u32, row: u32) -> Option<(u32, u32, Seq<u8>)> {
    let n = row * cell.grid().cols + col;
    if n <= u32::MAX {
        tile_image(cell.grid(), cell.file(), n as u32)
    } else {
        None
    }
}

/// `out` is what a cell shows at a place: the nearest pixel of the grid tile
/// there, or nothing where that has no image or an image without pixels.
pub open spec fn sampled<C: RasterCanvas>(canvas: C, cell: RncCell, p: Position, out: Seq<u8>) -> bool {
    exists|t: (u32, u32)| #[trigger]
        call_ensures(
            C::grid_tile,
            (&canvas, p, cell.projected(), cell.grid().cols, cell.grid().rows),
            t,
        ) && match image_at(cell, t.0, t.1) {
            Some((w, h, bytes)) => if w == 0 || h == 0 {
                out == clear()
            } else {
                exists|s: (u32, u32)| #[trigger]
                    call_ensures(
                        C::grid_pixel,
                        (&canvas, p, cell.projected(), cell.grid().cols, cell.grid().rows, w, h),
                        s,
                    ) && out == pixel_of(w, h, bytes, s.0, s.1)
            },
            None => out == clear(),
        }
}

/// `out` is the pixel `(px, py)` of a tile: clear outside the part to be painted.
pub open spec fn painted<C: RasterCanvas>(
    canvas: C,
    cell: RncCell,
    bounds: Bbox,
    px: u32,
    py: u32,
    out: Seq<u8>,
) -> bool {
    exists|p: Position| #[trigger]
        call_ensures(C::place, (&canvas, px, py), p) && if off_bounds(bounds, p) {
            out == clear()
        } else {
            exists|hit: bool| #[trigger]
                call_ensures(C::inside, (&canvas, p), hit) && if hit {
                    sampled(canvas, cell, p, out)
                } else {
                    out == clear()
                }
        }
}

fn sample<C: RasterCanvas>(cell: &mut RncCell, canvas: &C, p: Position) -> (out: [u8; 4])
    requires
        old(cell).valid(),
    ensures
        final(cell).valid(),
        final(cell).same_cell(old(cell)),
        sampled(*canvas, *old(cell), p, out@),
{
    let extent: MercExtent = cell.merc_extent();
    let cols: u32 = cell.cols();
    let rows: u32 = cell.rows();
    let (col, row) = canvas.grid_tile(p, extent, cols, rows);
    assert(call_ensures(C::grid_tile, (canvas, p, extent, cols, rows), (col, row)));
    let blank: [u8; 4] = [0u8, 0u8, 0u8, 0u8];
    assert(blank@ =~= clear());
    proof {
        assert(row * cols + col <= 0xFFFF_FFFF * 0xFFFF_FFFF + 0xFFFF_FFFF) by (nonlinear_arith)
            requires
                row <= 0xFFFF_FFFF,
                cols <= 0xFFFF_FFFF,
                col <= 0xFFFF_FFFF,
        ;
        assert(row * cols >= 0) by (nonlinear_arith);
    }
    let n: u64 = row as u64 * cols as u64 + col as u64;
    if n > 0xFFFF_FFFF {
        return blank;
    }
    let img: &RgbaPixels = match cell.subtile_image(n as u32) {
        Ok(img) => img,
        Err(_) => {
            return blank;
        },
    };
    let w: u32 = img.width;
    let h: u32 = img.height;
    if w == 0 || h == 0 {
        return blank;
    }
    let (sx, sy) = canvas.grid_pixel(p, extent, cols, rows, w, h);
    assert(call_ensures(C::grid_pixel, (canvas, p, extent, cols, rows, w, h), (sx, sy)));
    let x: u32 = if sx < w { sx } else { w - 1 };
    let y: u32 = if sy < h { sy } else { h - 1 };
    let len: usize = img.bytes.len();
    proof {
        let yw = y * w;
        let wh = w * h;
        assert(yw + x < wh) by (nonlinear_arith)
            requires
                yw == y * w,
                wh == w * h,
                0 <= x < w,
                0 <= y <= h - 1,
        ;
        assert(4 * w * h == 4 * wh) by (nonlinear_arith)
            requires
                wh == w * h,
        ;
        assert(yw >= 0) by (nonlinear_arith)
            requires
                yw == y * w,
        ;
        assert(4 * (yw + x) + 4 <= len);
    }
    let at: usize = 4 * (y as usize * w as usize + x as usize);
    let out: [u8; 4] = [img.bytes[at], img.bytes[at + 1], img.bytes[at + 2], img.bytes[at + 3]];
    assert(out@ =~= pixel_of(w, h, img.bytes@, sx, sy));
    out
}

fn paint<C: RasterCanvas>(cell: &mut RncCell, canvas: &C, bounds: &Bbox, px: u32, py: u32) -> (out: [u8; 4])
    requires
        old(cell).valid(),
    ensures
        final(cell).valid(),
        final(cell).same_cell(old(cell)),
        painted(*canvas, *old(cell), *bounds, px, py, out@),
{
    let blank: [u8; 4] = [0u8, 0u8, 0u8, 0u8];
    assert(blank@ =~= clear());
    let p: Position = canvas.place(px, py);
    assert(call_ensures(C::place, (canvas, px, py), p));
    if p.lon.lt(bounds.west) || bounds.east.lt(p.lon) || p.lat.lt(bounds.south) || bounds.north.lt(p.lat) {
        return blank;
    }
    let hit: bool = canvas.inside(p);
    assert(call_ensures(C::inside, (canvas, p), hit));
    if !hit {
        return blank;
    }
    sample(cell, canvas, p)
}

/// Number of pixels of a tile.
pub open spec fn tile_pixels() -> int {
    65536
}

proof fn lemma_painted_same<C: RasterCanvas>(canvas: C, a: RncCell, b: RncCell, bounds: Bbox, px: u32, py: u32, out: Seq<u8>)
    requires
        a.same_cell(&b),
        painted(canvas, a, bounds, px, py, out),
    ensures
        painted(canvas, b, bounds, px, py, out),
{
    let p = choose|p: Position| #[trigger]
        call_ensures(C::place, (&canvas, px, py), p) && if off_bounds(bounds, p) {
            out == clear()
        } else {
            exists|hit: bool| #[trigger]
                call_ensures(C::inside, (&canvas, p), hit) && if hit {
                    sampled(canvas, a, p, out)
                } else {
                    out == clear()
                }
        };
    if !off_bounds(bounds, p) {
        assert(sampled(canvas, a, p, out) ==> sampled(canvas, b, p, out));
    }
}

/// `buf` is what a cell shows in a tile, row by row from the north-west: each pixel
/// is painted, or all of them are clear where nothing is to be painted.
pub open spec fn is_rendered<C: RasterCanvas>(canvas: C, cell: RncCell, bounds: Bbox, buf: Seq<u8>) -> bool {
    &&& buf.len() == 262144
    &&& bounds.inverted() ==> forall|i: int| 0 <= i < buf.len() ==> #[trigger] buf[i] == 0
    &&& !bounds.inverted() ==> forall|px: u32, py: u32|
        px < 256 && py < 256 ==> painted(
            canvas,
            cell,
            bounds,
            px,
            py,
            #[trigger] buf.subrange(4 * (py * 256 + px), 4 * (py * 256 + px) + 4),
        )
}

/// Resamples a cell into a tile of 256 by 256 pixels, row by row from the
/// north-west: each pixel shows the nearest pixel of the cell. `bounds` is the
/// extent of the part that is to be painted.
pub fn render<C: RasterCanvas>(cell: &mut RncCell, canvas: &C, bounds: &Bbox) -> (buf: Vec<u8>)
    requires
        old(cell).valid(),
    ensures
        final(cell).valid(),
        final(cell).same_cell(old(cell)),
        buf@.len() == 4 * tile_pixels(),
        is_rendered(*canvas, *old(cell), *bounds, buf@),
{
    if bounds.is_bottom() {
        return vec![0u8; 262144];
    }
    let ghost first = *cell;
    let mut buf: Vec<u8> = Vec::new();
    let mut k: u32 = 0;
    while k < 65536
        invariant
            k <= 65536,
            cell.valid(),
            cell.same_cell(&first),
            buf@.len() == 4 * k,
            forall|j: u32|
                j < k ==> painted(
                    *canvas,
                    first,
                    *bounds,
                    (j % 256) as u32,
                    (j / 256) as u32,
                    #[trigger] buf@.subrange(4 * j, 4 * j + 4),
                ),
        decreases 65536 - k,
    {
        let ghost before = buf@;
        let ghost now = *cell;
        let out: [u8; 4] = paint(cell, canvas, bounds, k % 256, k / 256);
        buf.push(out[0]);
        buf.push(out[1]);
        buf.push(out[2]);
        buf.push(out[3]);
        proof {
            lemma_painted_same(*canvas, now, first, *bounds, (k % 256) as u32, (k / 256) as u32, out@);
            assert forall|j: u32| j < k + 1 implies painted(
                *canvas,
                first,
                *bounds,
                (j % 256) as u32,
                (j / 256) as u32,
                #[trigger] buf@.subrange(4 * j, 4 * j + 4),
            ) by {
                if j < k {
                    assert(buf@.subrange(4 * j, 4 * j + 4) =~= before.subrange(4 * j, 4 * j + 4));
                } else {
                    assert(buf@.subrange(4 * j, 4 * j + 4) =~= out@);
                }
            }
        }
        k += 1;
    }
    proof {
        assert forall|px: u32, py: u32| px < 256 && py < 256 implies painted(
            *canvas,
            first,
            *bounds,
            px,
            py,
            #[trigger] buf@.subrange(4 * (py * 256 + px), 4 * (py * 256 + px) + 4),
        ) by {
            let j = (py * 256 + px) as u32;
            assert(j % 256 == px && j / 256 == py);
            assert(buf@.subrange(4 * j, 4 * j + 4) == buf@.subrange(4 * (py * 256 + px), 4 * (py * 256 + px) + 4));
        }
    }
    buf
}

// ── Encoding ─────────────────────────────────────────────────────────────────

/// Pixel `k` of a buffer is there and not fully transparent.
pub open spec fn opaque(content: Seq<u8>, k: int) -> bool {
    4 * k + 4 <= content.len() && content[4 * k + 3] > 0
}

/// Pixel `k` of the first `n` buffers laid over each other.
pub open spec fn composed(contents: Seq<Seq<u8>>, n: int, k: int) -> Seq<u8>
    decreases n,
{
    if n <= 0 {
        clear()
    } else if opaque(contents[n - 1], k) {
        contents[n - 1].subrange(4 * k, 4 * k + 4)
    } else {
        composed(contents, n - 1, k)
    }
}

/// The first `n` buffers laid over each other on a clear tile.
pub open spec fn composite(contents: Seq<Seq<u8>>, n: int) -> Seq<u8> {
    Seq::new(262144, |b: int| composed(contents, n, b / 4)[b % 4])
}

/// One of the first `n` buffers shows something.
pub open spec fn shows_something(contents: Seq<Seq<u8>>, n: int) -> bool {
    exists|i: int, k: int| 0 <= i < n && 0 <= k < tile_pixels() && #[trigger] opaque(contents[i], k)
}

/// The tile could not be encoded.
#[derive(Debug, Clone, Copy, PartialEq, Eq, Structural)]
pub struct EncodeError;

/// Lays one buffer over a tile and says whether it shows anything.
fn lay_over(canvas: &mut Vec<u8>, content: &Vec<u8>, contents: Ghost<Seq<Seq<u8>>>, n: Ghost<int>) -> (any: bool)
    requires
        0 <= n@ < contents@.len(),
        contents@[n@] == content@,
        old(canvas)@ == composite(contents@, n@),
    ensures
        final(canvas)@ == composite(contents@, n@ + 1),
        any == exists|k: int| 0 <= k < tile_pixels() && #[trigger] opaque(content@, k),
{
    let whole: usize = content.len() / 4;
    let count: usize = if whole < 65536 { whole } else { 65536 };
    let ghost under = canvas@;
    let mut any: bool = false;
    let mut k: usize = 0;
    while k < count
        invariant
            k <= count,
            count <= 65536,
            4 * count <= content@.len(),
            0 <= n@ < contents@.len(),
            contents@[n@] == content@,
            under == composite(contents@, n@),
            canvas@.len() == 262144,
            forall|b: int|
                0 <= b < 4 * k ==> #[trigger] canvas@[b] == composed(contents@, n@ + 1, b / 4)[b % 4],
            forall|b: int| 4 * k <= b < 262144 ==> #[trigger] canvas@[b] == under[b],
            any == exists|j: int| 0 <= j < k && #[trigger] opaque(content@, j),
        decreases count - k,
    {
        let ghost before = canvas@;
        let at: usize = 4 * k;
        if content[at + 3] > 0 {
            canvas[at] = content[at];
            canvas[at + 1] = content[at + 1];
            canvas[at + 2] = content[at + 2];
            canvas[at + 3] = content[at + 3];
            any = true;
            assert(opaque(content@, k as int));
        }
        proof {
            assert forall|b: int| 0 <= b < 4 * (k + 1) implies #[trigger] canvas@[b] == composed(
                contents@,
                n@ + 1,
                b / 4,
            )[b % 4] by {
                if b < 4 * k {
                    assert(canvas@[b] == before[b]);
                } else {
                    assert(b / 4 == k && b % 4 == b - 4 * k);
                    if opaque(content@, k as int) {
                        assert(content@.subrange(4 * k, 4 * k + 4)[b % 4] == content@[b]);
                    } else {
                        assert(canvas@[b] == under[b]);
                    }
                }
            }
            assert(any == exists|j: int| 0 <= j < k + 1 && #[trigger] opaque(content@, j)) by {
                if exists|j: int| 0 <= j < k + 1 && #[trigger] opaque(content@, j) {
                    let j = choose|j: int| 0 <= j < k + 1 && #[trigger] opaque(content@, j);
                    if j < k {
                        assert(0 <= j < k && opaque(content@, j));
                    }
                }
                if exists|j: int| 0 <= j < k && #[trigger] opaque(content@, j) {
                    let j = choose|j: int| 0 <= j < k && #[trigger] opaque(content@, j);
                    assert(0 <= j < k + 1 && opaque(content@, j));
                }
            }
        }
        k += 1;
    }
    proof {
        assert forall|b: int| 0 <= b < 262144 implies canvas@[b] == composite(contents@, n@ + 1)[b] by {
            if b >= 4 * count {
                assert(!opaque(content@, b / 4));
            }
        }
        assert(canvas@ =~= composite(contents@, n@ + 1));
        if exists|j: int| 0 <= j < tile_pixels() && #[trigger] opaque(content@, j) {
            let j = choose|j: int| 0 <= j < tile_pixels() && #[trigger] opaque(content@, j);
            assert(j < count);
        }
    }
    any
}

/// Lays the buffers of a tile over each other, later ones on top, and encodes the
/// result as PNG, which never fails. The result is empty where every pixel is
/// transparent.
pub fn encode(contents: &Vec<Vec<u8>>) -> (r: Result<Vec<u8>, EncodeError>)
    ensures
        ({
            let all = lists(contents@);
            let n = all.len() as int;
            if !shows_something(all, n) {
                r matches Ok(file) && file@.len() == 0
            } else {
                &&& r matches Ok(file) && png_file(256, 256, composite(all, n)) == Some(file@) && png_image(file@)
                    == Some((256u32, 256u32, composite(all, n)))
            }
        }),
{
    let ghost all = lists(contents@);
    let mut canvas: Vec<u8> = vec![0u8; 262144];
    let mut any: bool = false;
    let mut i: usize = 0;
    assert(canvas@ =~= composite(all, 0));
    while i < contents.len()
        invariant
            i <= contents@.len(),
            all == lists(contents@),
            canvas@ == composite(all, i as int),
            any == shows_something(all, i as int),
        decreases contents@.len() - i,
    {
        let here: bool = lay_over(&mut canvas, &contents[i], Ghost(all), Ghost(i as int));
        proof {
            assert(all[i as int] == contents@[i as int]@);
            if here {
                let k = choose|k: int| 0 <= k < tile_pixels() && #[trigger] opaque(contents@[i as int]@, k);
                assert(opaque(all[i as int], k));
            }
            if shows_something(all, i + 1) {
                let (a, k) = choose|a: int, k: int|
                    0 <= a < i + 1 && 0 <= k < tile_pixels() && #[trigger] opaque(all[a], k);
                if a < i {
                    assert(0 <= a < i && opaque(all[a], k));
                }
            }
            if shows_something(all, i as int) {
                let (a, k) = choose|a: int, k: int|
                    0 <= a < i && 0 <= k < tile_pixels() && #[trigger] opaque(all[a], k);
                assert(0 <= a < i + 1 && opaque(all[a], k));
            }
        }
        any = any || here;
        i += 1;
    }
    if !any {
        return Ok(Vec::new());
    }
    match encode_png(RgbaPixels { width: TILE_PX, height: TILE_PX, bytes: canvas }) {
        Ok(file) => Ok(file),
        Err(_) => Err(EncodeError),
    }
}

/// Where buffers show different pixels, their order does not matter: the pixel
/// is that of the one buffer that shows it.
pub proof fn disjoint_buffers_commute(contents: Seq<Seq<u8>>, i: int, k: int, n: int)
    requires
        0 <= i < n <= contents.len(),
        opaque(contents[i], k),
        forall|j: int| 0 <= j < n && j != i ==> !(#[trigger] opaque(contents[j], k)),
    ensures
        composed(contents, n, k) == contents[i].subrange(4 * k, 4 * k + 4),
    decreases n,
{
    if i < n - 1 {
        assert(!opaque(contents[n - 1], k));
        disjoint_buffers_commute(contents, i, k, n - 1);
    }
}

/// The images of a chart lie in its file row by row from the north-west: the one
/// at column `col` and row `row` of the grid is the PNG file between offset
/// `row * cols + col` of the table and the next one.
pub proof fn images_lie_row_by_row(cell: RncCell, col: u32, row: u32)
    requires
        cell.grid().valid_for(cell.file().len() as int),
        col < cell.grid().cols,
        row < cell.grid().rows,
        row * cell.grid().cols + col <= u32::MAX,
    ensures
        ({
            let n = row * cell.grid().cols + col;
            image_at(cell, col, row) == png_image(
                cell.file().subrange(cell.grid().offsets@[n] as int, cell.grid().offsets@[n + 1] as int),
            )
        }),
{
    let h = cell.grid();
    let n = row * h.cols + col;
    assert(n >= 0) by (nonlinear_arith)
        requires
            n == row * h.cols + col,
    ;
    vstd::arithmetic::div_mod::lemma_fundamental_div_mod_converse(n, h.cols as int, row as int, col as int);
    grid_tiles_lie_in_file(h, cell.file().len() as int, col as int, row as int);
}

/// Neighbours in a row of the grid are neighbours in the file: one image ends where
/// the next one begins.
pub proof fn neighbours_in_a_row_follow_each_other(cell: RncCell, col: int, row: int)
    requires
        cell.grid().valid_for(cell.file().len() as int),
        0 <= col,
        col + 1 < cell.grid().cols,
        0 <= row < cell.grid().rows,
    ensures
        ({
            let left = cell.grid().range_of(col, row);
            let right = cell.grid().range_of(col + 1, row);
            left matches Some((_, end)) && right matches Some((start, _)) && end == start
        }),
        cell.grid().tile_index(col + 1, row) == cell.grid().tile_index(col, row) + 1,
{
    grid_tiles_lie_in_file(cell.grid(), cell.file().len() as int, col, row);
    grid_tiles_lie_in_file(cell.grid(), cell.file().len() as int, col + 1, row);
}

/// A pixel of a tile shows the chart at its place: the pixel of the image at the
/// grid cell of the place, counted row by row from the north-west, the last one
/// where the place lies beyond it.
pub proof fn a_pixel_shows_the_chart_at_its_place<C: RasterCanvas>(
    canvas: C,
    cell: RncCell,
    bounds: Bbox,
    px: u32,
    py: u32,
    out: Seq<u8>,
    p: Position,
    col: u32,
    row: u32,
    width: u32,
    height: u32,
    bytes: Seq<u8>,
    x: u32,
    y: u32,
)
    requires
        painted(canvas, cell, bounds, px, py, out),
        forall|q: Position| call_ensures(C::place, (&canvas, px, py), q) ==> q == p,
        bounds.west.at_most(p.lon) && p.lon.at_most(bounds.east),
        bounds.south.at_most(p.lat) && p.lat.at_most(bounds.north),
        forall|h: bool| call_ensures(C::inside, (&canvas, p), h) ==> h,
        forall|t: (u32, u32)|
            call_ensures(C::grid_tile, (&canvas, p, cell.projected(), cell.grid().cols, cell.grid().rows), t) ==> t == (
            col,
            row,
        ),
        cell.grid().valid_for(cell.file().len() as int),
        col < cell.grid().cols,
        row < cell.grid().rows,
        row * cell.grid().cols + col <= u32::MAX,
        png_image(
            cell.file().subrange(
                cell.grid().offsets@[row * cell.grid().cols + col] as int,
                cell.grid().offsets@[row * cell.grid().cols + col + 1] as int,
            ),
        ) == Some((width, height, bytes)),
        width > 0,
        height > 0,
        forall|s: (u32, u32)|
            call_ensures(
                C::grid_pixel,
                (&canvas, p, cell.projected(), cell.grid().cols, cell.grid().rows, width, height),
                s,
            ) ==> s == (x, y),
    ensures
        ({
            let sx = if x < width { x as int } else { width - 1 };
            let sy = if y < height { y as int } else { height - 1 };
            out == bytes.subrange(4 * (sy * width + sx), 4 * (sy * width + sx) + 4)
        }),
{
    images_lie_row_by_row(cell, col, row);
}

/// A pixel whose place lies outside the bounds, or is found not to lie inside the
/// part to be painted, is fully transparent.
pub proof fn pixels_elsewhere_are_clear<C: RasterCanvas>(
    canvas: C,
    cell: RncCell,
    bounds: Bbox,
    px: u32,
    py: u32,
    out: Seq<u8>,
    p: Position,
)
    requires
        painted(canvas, cell, bounds, px, py, out),
        forall|q: Position| call_ensures(C::place, (&canvas, px, py), q) ==> q == p,
        p.lon.below(bounds.west) || bounds.east.below(p.lon) || p.lat.below(bounds.south) || bounds.north.below(p.lat) || (
        forall|h: bool| call_ensures(C::inside, (&canvas, p), h) ==> !h),
    ensures
        out == seq![0u8, 0u8, 0u8, 0u8],
{
}

/// The rows of a tile follow each other from the north, each of 256 pixels of four
/// bytes, and the pixels of a row follow each other from the west.
pub proof fn rows_run_from_the_north_west<C: RasterCanvas>(
    canvas: C,
    cell: RncCell,
    bounds: Bbox,
    buf: Seq<u8>,
    px: u32,
    py: u32,
)
    requires
        is_rendered(canvas, cell, bounds, buf),
        !bounds.inverted(),
        px < 256,
        py < 256,
    ensures
        buf.len() == 256 * 1024,
        painted(canvas, cell, bounds, px, py, buf.subrange(1024 * py, 1024 * py + 1024).subrange(4 * px, 4 * px + 4)),
{
    let row = buf.subrange(1024 * py, 1024 * py + 1024);
    assert(row.subrange(4 * px, 4 * px + 4) =~= buf.subrange(4 * (py * 256 + px), 4 * (py * 256 + px) + 4));
}

/// The last buffer that shows a pixel decides it, whole; a pixel that no buffer
/// shows is fully transparent. A buffer shows a pixel where its fourth byte, the
/// opacity, is not 0.
pub proof fn the_last_buffer_that_shows_a_pixel_decides(contents: Seq<Seq<u8>>, n: int, k: int, i: int)
    requires
        0 <= n <= contents.len(),
        0 <= k < 65536,
        forall|j: int| i < j < n ==> (#[trigger] contents[j]).len() < 4 * k + 4 || contents[j][4 * k + 3] == 0,
        i == -1 || (0 <= i < n && contents[i].len() >= 4 * k + 4 && contents[i][4 * k + 3] != 0),
    ensures
        composite(contents, n).len() == 256 * 256 * 4,
        i == -1 ==> composite(contents, n).subrange(4 * k, 4 * k + 4) == seq![0u8, 0u8, 0u8, 0u8],
        i >= 0 ==> composite(contents, n).subrange(4 * k, 4 * k + 4) == contents[i].subrange(4 * k, 4 * k + 4),
{
    lemma_composed(contents, n, k, i);
    let out = composite(contents, n).subrange(4 * k, 4 * k + 4);
    let c = composed(contents, n, k);
    assert forall|b: int| 0 <= b < 4 implies out[b] == c[b] by {
        assert((4 * k + b) / 4 == k && (4 * k + b) % 4 == b);
    }
    assert(out =~= c);
}

proof fn lemma_composed(contents: Seq<Seq<u8>>, n: int, k: int, i: int)
    requires
        0 <= n <= contents.len(),
        0 <= k,
        forall|j: int| i < j < n ==> (#[trigger] contents[j]).len() < 4 * k + 4 || contents[j][4 * k + 3] == 0,
        i == -1 || (0 <= i < n && contents[i].len() >= 4 * k + 4 && contents[i][4 * k + 3] != 0),
    ensures
        composed(contents, n, k).len() == 4,
        i == -1 ==> composed(contents, n, k) == seq![0u8, 0u8, 0u8, 0u8],
        i >= 0 ==> composed(contents, n, k) == contents[i].subrange(4 * k, 4 * k + 4),
    decreases n,
{
    if n > 0 && i < n - 1 {
        assert(contents[n - 1].len() < 4 * k + 4 || contents[n - 1][4 * k + 3] == 0);
        lemma_composed(contents, n - 1, k, i);
    }
}

proof fn lemma_composed_shows(contents: Seq<Seq<u8>>, n: int, k: int)
    requires
        0 <= n <= contents.len(),
        0 <= k,
    ensures
        composed(contents, n, k).len() == 4,
        composed(contents, n, k)[3] > 0 <==> exists|i: int| 0 <= i < n && opaque(#[trigger] contents[i], k),
    decreases n,
{
    if n > 0 {
        lemma_composed_shows(contents, n - 1, k);
        if opaque(contents[n - 1], k) {
            assert(contents[n - 1].subrange(4 * k, 4 * k + 4)[3] == contents[n - 1][4 * k + 3]);
        } else if exists|i: int| 0 <= i < n && opaque(#[trigger] contents[i], k) {
            let i = choose|i: int| 0 <= i < n && opaque(#[trigger] contents[i], k);
            assert(0 <= i < n - 1 && opaque(contents[i], k));
        }
    }
}

/// Buffers show something exactly where a pixel of the tile that they make is not
/// fully transparent.
pub proof fn a_tile_shows_what_its_buffers_show(contents: Seq<Seq<u8>>, n: int)
    requires
        0 <= n <= contents.len(),
    ensures
        shows_something(contents, n) <==> exists|b: int|
            0 <= b < 256 * 256 * 4 && b % 4 == 3 && #[trigger] composite(contents, n)[b] != 0,
{
    let out = composite(contents, n);
    if shows_something(contents, n) {
        let (i, k) = choose|i: int, k: int| 0 <= i < n && 0 <= k < tile_pixels() && #[trigger] opaque(contents[i], k);
        lemma_composed_shows(contents, n, k);
        assert((4 * k + 3) / 4 == k && (4 * k + 3) % 4 == 3);
        assert(out[4 * k + 3] != 0);
    }
    if exists|b: int| 0 <= b < 256 * 256 * 4 && b % 4 == 3 && #[trigger] out[b] != 0 {
        let b = choose|b: int| 0 <= b < 256 * 256 * 4 && b % 4 == 3 && #[trigger] out[b] != 0;
        lemma_composed_shows(contents, n, b / 4);
        let i = choose|i: int| 0 <= i < n && opaque(#[trigger] contents[i], b / 4);
        assert(0 <= b / 4 < tile_pixels() && opaque(contents[i], b / 4));
    }
}

/// Where nothing is to be painted, the whole tile is fully transparent.
pub proof fn an_inverted_part_is_clear<C: RasterCanvas>(canvas: C, cell: RncCell, bounds: Bbox, buf: Seq<u8>, i: int)
    requires
        is_rendered(canvas, cell, bounds, buf),
        bounds.east.below(bounds.west) || bounds.north.below(bounds.south),
        0 <= i < buf.len(),
    ensures
        buf.len() == 256 * 256 * 4,
        buf[i] == 0,
{
}

} // verus!
