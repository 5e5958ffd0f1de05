//! Which tiles there are, and which items a tile is put together from.
//!
//! Items are selected by overlap with the tile, ordered by how well their
//! native zoom level suits it, and taken greedily until the tile is covered.
use vstd::prelude::*;
use crate::bbox::Bbox;
use crate::edition_date::EditionDate;
use crate::lattice::BoundedLattice;

verus! {

// ── Zoom levels ──────────────────────────────────────────────────────────────

/// The zoom cap lies below the lowest zoom level of the data.
#[derive(Debug, Clone, Copy, PartialEq, Eq, Structural)]
pub struct CapTooLow {
    pub cap: u8,
    pub floor: u8,
}

/// `m` is the least of the values; 0 where there are none.
pub open spec fn is_least(values: Seq<u8>, m: u8) -> bool {
    if values.len() == 0 {
        m == 0
    } else {
        values.contains(m) && forall|i: int| 0 <= i < values.len() ==> m <= #[trigger] values[i]
    }
}

/// `m` is the greatest of the values; 0 where there are none.
pub open spec fn is_greatest(values: Seq<u8>, m: u8) -> bool {
    if values.len() == 0 {
        m == 0
    } else {
        values.contains(m) && forall|i: int| 0 <= i < values.len() ==> m >= #[trigger] values[i]
    }
}

/// Two levels below `least`, but not below 0.
pub open spec fn floor_below(least: u8) -> u8 {
    if least >= 2 {
        (least - 2) as u8
    } else {
        0
    }
}

fn least(values: &Vec<u8>) -> (m: u8)
    ensures
        is_least(values@, m),
{
    if values.len() == 0 {
        return 0;
    }
    let mut m: u8 = values[0];
    let mut i: usize = 1;
    while i < values.len()
        invariant
            1 <= i <= values@.len(),
            values@.contains(m),
            forall|k: int| 0 <= k < i ==> m <= #[trigger] values@[k],
        decreases values@.len() - i,
    {
        if values[i] < m {
            m = values[i];
            assert(values@[i as int] == m);
        }
        i += 1;
    }
    m
}

fn greatest(values: &Vec<u8>) -> (m: u8)
    ensures
        is_greatest(values@, m),
{
    if values.len() == 0 {
        return 0;
    }
    let mut m: u8 = values[0];
    let mut i: usize = 1;
    while i < values.len()
        invariant
            1 <= i <= values@.len(),
            values@.contains(m),
            forall|k: int| 0 <= k < i ==> m >= #[trigger] values@[k],
        decreases values@.len() - i,
    {
        if values[i] > m {
            m = values[i];
            assert(values@[i as int] == m);
        }
        i += 1;
    }
    m
}

/// Lowest and highest zoom level of the archive for items with the given native
/// zoom levels: from two levels below the lowest to the highest, or to the cap
/// where that is lower. A cap below the lowest level is refused.
pub fn zoom_range(zooms: &Vec<u8>, max_zoom: Option<u8>) -> (r: Result<(u8, u8), CapTooLow>)
    ensures
        exists|lo: u8, hi: u8|
            #![trigger is_least(zooms@, lo), is_greatest(zooms@, hi)]
            is_least(zooms@, lo) && is_greatest(zooms@, hi) && r == (match max_zoom {
                Some(cap) => if cap < floor_below(lo) {
                    Err(CapTooLow { cap, floor: floor_below(lo) })
                } else if cap < hi {
                    Ok((floor_below(lo), cap))
                } else {
                    Ok((floor_below(lo), hi))
                },
                None => Ok((floor_below(lo), hi)),
            }),
        r matches Ok((lo, hi)) ==> forall|i: int|
            0 <= i < zooms@.len() ==> lo <= #[trigger] zooms@[i] && (lo > 0 ==> lo + 2 <= zooms@[i]) && (zooms@[i] <= hi || (
            max_zoom matches Some(cap) && hi == cap)),
        r matches Ok((_, hi)) ==> (max_zoom matches Some(cap) ==> hi <= cap),
        max_zoom is None ==> r is Ok,
{
    let lo: u8 = least(zooms);
    let hi: u8 = greatest(zooms);
    let floor: u8 = if lo >= 2 { lo - 2 } else { 0 };
    assert(is_least(zooms@, lo) && is_greatest(zooms@, hi));
    match max_zoom {
        Some(cap) => {
            if cap < floor {
                Err(CapTooLow { cap, floor })
            } else if cap < hi {
                Ok((floor, cap))
            } else {
                Ok((floor, hi))
            }
        },
        None => Ok((floor, hi)),
    }
}

/// The lowest zoom level lies at least two levels below every item, or at 0, and
/// the highest one not below any item.
pub proof fn zoom_ranges_are_proper(zooms: Seq<u8>, lo: u8, hi: u8, i: int)
    requires
        is_least(zooms, lo),
        is_greatest(zooms, hi),
        0 <= i < zooms.len(),
    ensures
        floor_below(lo) == 0 || floor_below(lo) <= zooms[i] - 2,
        zooms[i] <= hi,
{
}

// ── Extent and enumeration ───────────────────────────────────────────────────

/// Hull of the first `n` rectangles, from `start` on.
pub open spec fn hull_from(start: Bbox, boxes: Seq<Bbox>, n: int) -> Bbox
    decreases n,
{
    if n <= 0 {
        start
    } else {
        hull_from(start, boxes, n - 1).hull(boxes[n - 1])
    }
}

/// The hull of the extents of all items; inverted where there are none.
pub fn overall_extent(boxes: &Vec<Bbox>) -> (r: Bbox)
    ensures
        exists|bottom: Bbox|
            #![trigger hull_from(bottom, boxes@, boxes@.len() as int)]
            bottom.regular() && bottom.void() && (forall|b: Bbox| b.regular() ==> #[trigger] b.above(&bottom)) && r
                == hull_from(bottom, boxes@, boxes@.len() as int),
{
    let bottom: Bbox = Bbox::bottom();
    let mut acc: Bbox = bottom;
    let mut i: usize = 0;
    while i < boxes.len()
        invariant
            i <= boxes@.len(),
            acc == hull_from(bottom, boxes@, i as int),
        decreases boxes@.len() - i,
    {
        acc = acc.join(&boxes[i]);
        i += 1;
    }
    acc
}

/// The overall extent contains the extent of every item.
pub proof fn extent_contains_items(start: Bbox, boxes: Seq<Bbox>, n: int, i: int)
    requires
        start.regular(),
        0 <= i < n <= boxes.len(),
        forall|k: int| 0 <= k < boxes.len() ==> (#[trigger] boxes[k]).regular(),
    ensures
        hull_from(start, boxes, n).regular(),
        hull_from(start, boxes, n).contains(boxes[i]),
    decreases n,
{
    assert(boxes[n - 1].regular());
    if n > 1 {
        extent_contains_items(start, boxes, n - 1, if i < n - 1 { i } else { 0 });
    }
    if n == 1 {
        assert(hull_from(start, boxes, 0) == start);
    }
}

/// A block of tiles of one zoom level.
#[derive(Debug, Clone, Copy, PartialEq, Eq, Structural)]
pub struct TileBlock {
    pub col_lo: u32,
    pub row_lo: u32,
    pub col_hi: u32,
    pub row_hi: u32,
}

impl TileBlock {
    /// Neither axis is reversed.
    pub open spec fn ordered(self) -> bool {
        self.col_lo <= self.col_hi && self.row_lo <= self.row_hi
    }

    /// Tiles in a row.
    pub open spec fn width(self) -> int {
        self.col_hi - self.col_lo + 1
    }

    /// Tiles in a column.
    pub open spec fn height(self) -> int {
        self.row_hi - self.row_lo + 1
    }

    /// The tile of an index, row by row.
    pub open spec fn nth(self, index: int) -> (int, int) {
        (self.col_lo + index % self.width(), self.row_lo + index / self.width())
    }

    /// Number of tiles.
    pub fn count(&self) -> (n: u64)
        requires
            self.ordered(),
            self.width() * self.height() <= u64::MAX,
        ensures
            n == self.width() * self.height(),
    {
        let w: u64 = (self.col_hi - self.col_lo) as u64 + 1;
        let h: u64 = (self.row_hi - self.row_lo) as u64 + 1;
        w * h
    }

    /// Column and row of the tile of an index.
    pub fn tile_at(&self, index: u64) -> (r: (u32, u32))
        requires
            self.ordered(),
            index < self.width() * self.height(),
        ensures
            r.0 == self.nth(index as int).0,
            r.1 == self.nth(index as int).1,
            self.col_lo <= r.0 <= self.col_hi,
            self.row_lo <= r.1 <= self.row_hi,
    {
        let w: u64 = (self.col_hi - self.col_lo) as u64 + 1;
        proof {
            self.lemma_nth(index as int);
        }
        let col: u32 = (self.col_lo as u64 + index % w) as u32;
        let row: u32 = (self.row_lo as u64 + index / w) as u32;
        (col, row)
    }

    proof fn lemma_nth(self, index: int)
        requires
            self.ordered(),
            0 <= index < self.width() * self.height(),
        ensures
            0 <= index % self.width() < self.width(),
            0 <= index / self.width() < self.height(),
    {
        let w = self.width();
        let h = self.height();
        vstd::arithmetic::div_mod::lemma_fundamental_div_mod(index, w);
        vstd::arithmetic::div_mod::lemma_mod_bound(index, w);
        let q = index / w;
        assert(0 <= q < h) by (nonlinear_arith)
            requires
                index == w * q + index % w,
                0 <= index % w < w,
                0 <= index < w * h,
        ;
    }
}

/// The indices of a block reach every tile of it exactly once.
pub proof fn block_lists_each_tile_once(b: TileBlock, col: int, row: int, index: int)
    requires
        b.ordered(),
        b.col_lo <= col <= b.col_hi,
        b.row_lo <= row <= b.row_hi,
        0 <= index < b.width() * b.height(),
    ensures
        0 <= (row - b.row_lo) * b.width() + (col - b.col_lo) < b.width() * b.height(),
        b.nth(index) == (col, row) <==> index == (row - b.row_lo) * b.width() + (col - b.col_lo),
{
    let w = b.width();
    let h = b.height();
    let x = col - b.col_lo;
    let y = row - b.row_lo;
    assert(0 <= y * w + x < w * h) by (nonlinear_arith)
        requires
            0 <= x < w,
            0 <= y < h,
    ;
    vstd::arithmetic::div_mod::lemma_fundamental_div_mod(index, w);
    vstd::arithmetic::div_mod::lemma_mod_bound(index, w);
    if index == y * w + x {
        vstd::arithmetic::div_mod::lemma_fundamental_div_mod_converse(index, w, y, x);
    }
    if b.nth(index) == (col, row) {
        assert(index == w * y + x);
        assert(w * y == y * w) by (nonlinear_arith);
    }
}

// ── Candidates ───────────────────────────────────────────────────────────────

/// Those of the first `n` items whose extent overlaps the tile, in their order.
pub open spec fn overlapping(boxes: Seq<Bbox>, tile: Bbox, n: int) -> Seq<usize>
    decreases n,
{
    if n <= 0 {
        Seq::empty()
    } else if boxes[n - 1].touches(tile) {
        overlapping(boxes, tile, n - 1).push((n - 1) as usize)
    } else {
        overlapping(boxes, tile, n - 1)
    }
}

/// The items whose extent overlaps the tile.
pub fn candidates(boxes: &Vec<Bbox>, tile: &Bbox) -> (r: Vec<usize>)
    ensures
        r@ == overlapping(boxes@, *tile, boxes@.len() as int),
        forall|k: int| 0 <= k < r@.len() ==> (#[trigger] r@[k]) < boxes@.len(),
{
    let mut out: Vec<usize> = Vec::new();
    let mut i: usize = 0;
    while i < boxes.len()
        invariant
            i <= boxes@.len(),
            out@ == overlapping(boxes@, *tile, i as int),
            forall|k: int| 0 <= k < out@.len() ==> (#[trigger] out@[k]) < i,
        decreases boxes@.len() - i,
    {
        if boxes[i].overlaps(tile) {
            out.push(i);
        }
        i += 1;
    }
    out
}

/// An item is drawn for a coarser zoom level than the tile's.
pub open spec fn too_coarse(zooms: Seq<u8>, z: u8, i: usize) -> bool {
    zooms[i as int] < z
}

/// Item `a` suits a tile of zoom level `z` better than item `b`: items that are
/// fine enough come before those that are too coarse; of the former the coarser
/// one comes first, of the latter the finer one. Of items of one zoom level the
/// one of the later edition comes first, and after that the one listed first.
pub open spec fn suits_better(zooms: Seq<u8>, editions: Seq<EditionDate>, z: u8, a: usize, b: usize) -> bool {
    let za = zooms[a as int];
    let zb = zooms[b as int];
    if too_coarse(zooms, z, a) != too_coarse(zooms, z, b) {
        too_coarse(zooms, z, b)
    } else if za != zb {
        if too_coarse(zooms, z, a) {
            za > zb
        } else {
            za < zb
        }
    } else if editions[a as int].key() != editions[b as int].key() {
        editions[a as int].key() > editions[b as int].key()
    } else {
        a < b
    }
}

/// No item stands behind one that it suits better than.
pub open spec fn best_first(zooms: Seq<u8>, editions: Seq<EditionDate>, z: u8, order: Seq<usize>) -> bool {
    forall|i: int, j: int|
        0 <= i < j < order.len() ==> !suits_better(zooms, editions, z, #[trigger] order[j], #[trigger] order[i])
}

fn is_better(zooms: &Vec<u8>, editions: &Vec<EditionDate>, z: u8, a: usize, b: usize) -> (r: bool)
    requires
        a < zooms@.len(),
        b < zooms@.len(),
        editions@.len() == zooms@.len(),
    ensures
        r == suits_better(zooms@, editions@, z, a, b),
{
    let za: u8 = zooms[a];
    let zb: u8 = zooms[b];
    let coarse_a: bool = za < z;
    let coarse_b: bool = zb < z;
    if coarse_a != coarse_b {
        coarse_b
    } else if za != zb {
        if coarse_a {
            za > zb
        } else {
            za < zb
        }
    } else if editions[a] > editions[b] {
        true
    } else if editions[a] < editions[b] {
        false
    } else {
        a < b
    }
}

proof fn lemma_insert_multiset(s: Seq<usize>, at: int, v: usize)
    requires
        0 <= at <= s.len(),
    ensures
        s.insert(at, v).to_multiset() == s.to_multiset().insert(v),
{
    broadcast use vstd::multiset::group_multiset_axioms;

    let more = s.insert(at, v);
    vstd::seq_lib::to_multiset_remove(more, at);
    assert(more.remove(at) =~= s);
    more.to_multiset_ensures();
    assert(more.contains(more[at]));
    assert(more.to_multiset() =~= s.to_multiset().insert(v));
}

/// The candidates, best suited first.
pub fn rank_candidates(
    zooms: &Vec<u8>,
    editions: &Vec<EditionDate>,
    z: u8,
    items: &Vec<usize>,
) -> (order: Vec<usize>)
    requires
        editions@.len() == zooms@.len(),
        forall|k: int| 0 <= k < items@.len() ==> (#[trigger] items@[k]) < zooms@.len(),
    ensures
        order@.to_multiset() == items@.to_multiset(),
        best_first(zooms@, editions@, z, order@),
        forall|i: int, j: int|
            0 <= i < j < order@.len() && zooms@[(#[trigger] order@[j]) as int] >= z ==> z <= zooms@[(
            #[trigger] order@[i]) as int] <= zooms@[order@[j] as int],
        forall|k: int| 0 <= k < order@.len() ==> (#[trigger] order@[k]) < zooms@.len(),
{
    let mut order: Vec<usize> = Vec::new();
    let mut i: usize = 0;
    assert(items@.take(0) =~= order@);
    while i < items.len()
        invariant
            i <= items@.len(),
            editions@.len() == zooms@.len(),
            forall|k: int| 0 <= k < items@.len() ==> (#[trigger] items@[k]) < zooms@.len(),
            forall|k: int| 0 <= k < order@.len() ==> (#[trigger] order@[k]) < zooms@.len(),
            order@.to_multiset() == items@.take(i as int).to_multiset(),
            best_first(zooms@, editions@, z, order@),
        decreases items@.len() - i,
    {
        let item: usize = items[i];
        let mut at: usize = order.len();
        while at > 0 && is_better(zooms, editions, z, item, order[at - 1])
            invariant
                at <= order@.len(),
                item < zooms@.len(),
                editions@.len() == zooms@.len(),
                forall|k: int| 0 <= k < order@.len() ==> (#[trigger] order@[k]) < zooms@.len(),
                forall|k: int|
                    at <= k < order@.len() ==> suits_better(zooms@, editions@, z, item, #[trigger] order@[k]),
            decreases at,
        {
            at -= 1;
        }
        let ghost before = order@;
        order.insert(at, item);
        proof {
            lemma_insert_multiset(before, at as int, item);
            assert(items@.take(i + 1) =~= items@.take(i as int).push(item));
            vstd::seq_lib::to_multiset_build(items@.take(i as int), item);
            let after = order@;
            assert forall|a: int, b: int| 0 <= a < b < after.len() implies !suits_better(
                zooms@,
                editions@,
                z,
                #[trigger] after[b],
                #[trigger] after[a],
            ) by {
                let pa = if a < at { a } else { a - 1 };
                let pb = if b < at { b } else { b - 1 };
                if a != at && b != at {
                    assert(!suits_better(zooms@, editions@, z, before[pb], before[pa]));
                } else if a == at {
                    assert(suits_better(zooms@, editions@, z, item, before[pb]));
                } else if at > 0 {
                    // `b` is the new item; the one right before it is not worse.
                    assert(!suits_better(zooms@, editions@, z, item, before[at - 1]));
                    if pa < at - 1 {
                        assert(!suits_better(zooms@, editions@, z, before[at - 1], before[pa]));
                    }
                }
            }
        }
        i += 1;
    }
    assert(items@.take(i as int) =~= items@);
    order
}

// ── Quilting ─────────────────────────────────────────────────────────────────

/// How areas are shared out. Nothing is asked of the results: what
/// [`quilt`] states holds whatever the operations give.
pub trait AreaOps<A> {
    /// What two areas have in common.
    fn common(&self, a: &A, b: &A) -> A;

    /// What of the first area lies outside the second.
    fn rest(&self, a: &A, b: &A) -> A;

    /// Whether an area is more than points and lines.
    fn has_area(&self, a: &A) -> bool;
}

/// Tells areas from points and lines. Nothing is asked of the answers.
pub trait AreaTest<A> {
    /// Whether an area is more than points and lines.
    fn is_wide(&self, a: &A) -> bool;
}

/// The operations of a lattice, with a test of areas.
pub struct ByLattice<T> {
    pub test: T,
}

impl<L: BoundedLattice, T: AreaTest<L>> AreaOps<L> for ByLattice<T> {
    fn common(&self, a: &L, b: &L) -> (r: L)
        ensures
            call_ensures(L::meet, (a, b), r),
    {
        a.meet(b)
    }

    fn rest(&self, a: &L, b: &L) -> (r: L)
        ensures
            call_ensures(L::minus, (a, b), r),
    {
        a.minus(b)
    }

    fn has_area(&self, a: &L) -> (r: bool)
        ensures
            call_ensures(T::is_wide, (&self.test, a), r),
    {
        self.test.is_wide(a)
    }
}

/// An item's share of a tile.
pub struct Pick<A> {
    pub item: usize,
    pub area: A,
}

/// One item's turn when a tile is divided.
pub struct Turn<A> {
    /// What the item covers of the part of the tile that is open.
    pub part: A,
    /// That is an area: it becomes the item's share.
    pub taken: bool,
    /// What is open after the turn.
    pub open: A,
    /// That is an area.
    pub more: bool,
}

/// `m` is what `common` gave for `a` and `b`.
pub open spec fn met<A, O: AreaOps<A>>(ops: O, a: A, b: A, m: A) -> bool {
    call_ensures(O::common, (&ops, &a, &b), m)
}

/// `r` is what `rest` gave for `a` and `b`.
pub open spec fn left<A, O: AreaOps<A>>(ops: O, a: A, b: A, r: A) -> bool {
    call_ensures(O::rest, (&ops, &a, &b), r)
}

/// `r` is what `has_area` gave for `a`.
pub open spec fn judged<A, O: AreaOps<A>>(ops: O, a: A, r: bool) -> bool {
    call_ensures(O::has_area, (&ops, &a), r)
}

/// The turn of an item that covers `coverage` while `open` is open.
pub open spec fn is_turn<A, O: AreaOps<A>>(ops: O, coverage: A, open: A, t: Turn<A>) -> bool {
    &&& met(ops, coverage, open, t.part)
    &&& judged(ops, t.part, t.taken)
    &&& t.taken ==> left(ops, open, t.part, t.open) && judged(ops, t.open, t.more)
    &&& !t.taken ==> t.open == open && t.more
}

/// The part of the tile that is open before turn `k`.
pub open spec fn open_at<A>(tile: A, turns: Seq<Turn<A>>, k: int) -> A {
    if k <= 0 {
        tile
    } else {
        turns[k - 1].open
    }
}

/// The items take their turns in the given order.
pub open spec fn is_trace<A, O: AreaOps<A>>(
    ops: O,
    tile: A,
    coverages: Seq<A>,
    order: Seq<usize>,
    turns: Seq<Turn<A>>,
) -> bool {
    &&& turns.len() <= order.len()
    &&& forall|k: int|
        0 <= k < turns.len() ==> is_turn(
            ops,
            coverages[order[k] as int],
            open_at(tile, turns, k),
            #[trigger] turns[k],
        )
}

/// The turns go on until one of them leaves no open area.
pub open spec fn is_complete<A>(order: Seq<usize>, turns: Seq<Turn<A>>) -> bool {
    &&& forall|k: int| 0 <= k < turns.len() - 1 ==> (#[trigger] turns[k]).more
    &&& turns.len() == order.len() || (turns.len() > 0 && !turns.last().more)
}

/// The shares taken in the first `n` turns.
pub open spec fn shares_of<A>(order: Seq<usize>, turns: Seq<Turn<A>>, n: int) -> Seq<Pick<A>>
    decreases n,
{
    if n <= 0 {
        Seq::empty()
    } else if turns[n - 1].taken {
        shares_of(order, turns, n - 1).push(Pick { item: order[n - 1], area: turns[n - 1].part })
    } else {
        shares_of(order, turns, n - 1)
    }
}

/// Divides a tile among the items: each one in its turn gets what it covers of
/// the part that is still open, if that is an area.
pub fn quilt<A, O: AreaOps<A>>(ops: &O, tile: A, coverages: &Vec<A>, order: &Vec<usize>) -> (picks: Vec<Pick<A>>)
    requires
        forall|k: int| 0 <= k < order@.len() ==> (#[trigger] order@[k]) < coverages@.len(),
    ensures
        exists|turns: Seq<Turn<A>>|
            #![trigger is_trace(*ops, tile, coverages@, order@, turns)]
            {
                &&& is_trace(*ops, tile, coverages@, order@, turns)
                &&& is_complete(order@, turns)
                &&& picks@ == shares_of(order@, turns, turns.len() as int)
            },
{
    let mut open: A = tile;
    let mut picks: Vec<Pick<A>> = Vec::new();
    let mut i: usize = 0;
    let ghost mut turns: Seq<Turn<A>> = Seq::empty();
    while i < order.len()
        invariant
            i <= order@.len(),
            forall|k: int| 0 <= k < order@.len() ==> (#[trigger] order@[k]) < coverages@.len(),
            turns.len() == i,
            is_trace(*ops, tile, coverages@, order@, turns),
            open == open_at(tile, turns, i as int),
            picks@ == shares_of(order@, turns, i as int),
            forall|k: int| 0 <= k < i ==> (#[trigger] turns[k]).more,
        decreases order@.len() - i,
    {
        let item: usize = order[i];
        let part: A = ops.common(&coverages[item], &open);
        if ops.has_area(&part) {
            let rest: A = ops.rest(&open, &part);
            let more: bool = ops.has_area(&rest);
            proof {
                let t = Turn { part, taken: true, open: rest, more };
                lemma_trace_step(*ops, tile, coverages@, order@, turns, t);
                lemma_shares_prefix(order@, turns, turns.push(t), i as int);
                turns = turns.push(t);
            }
            picks.push(Pick { item, area: part });
            if !more {
                return picks;
            }
            open = rest;
        } else {
            proof {
                let t = Turn { part, taken: false, open, more: true };
                lemma_trace_step(*ops, tile, coverages@, order@, turns, t);
                lemma_shares_prefix(order@, turns, turns.push(t), i as int);
                turns = turns.push(t);
            }
        }
        i += 1;
    }
    picks
}

proof fn lemma_shares_prefix<A>(order: Seq<usize>, a: Seq<Turn<A>>, b: Seq<Turn<A>>, n: int)
    requires
        0 <= n <= a.len(),
        n <= b.len(),
        forall|k: int| 0 <= k < n ==> a[k] == b[k],
    ensures
        shares_of(order, a, n) == shares_of(order, b, n),
    decreases n,
{
    if n > 0 {
        lemma_shares_prefix(order, a, b, n - 1);
    }
}

proof fn lemma_trace_step<A, O: AreaOps<A>>(
    ops: O,
    tile: A,
    coverages: Seq<A>,
    order: Seq<usize>,
    turns: Seq<Turn<A>>,
    t: Turn<A>,
)
    requires
        is_trace(ops, tile, coverages, order, turns),
        turns.len() < order.len(),
        is_turn(ops, coverages[order[turns.len() as int] as int], open_at(tile, turns, turns.len() as int), t),
    ensures
        is_trace(ops, tile, coverages, order, turns.push(t)),
{
    let more = turns.push(t);
    assert forall|k: int| 0 <= k < more.len() implies is_turn(
        ops,
        coverages[order[k] as int],
        open_at(tile, more, k),
        #[trigger] more[k],
    ) by {
        assert(open_at(tile, more, k) == open_at(tile, turns, k));
        if k < turns.len() {
            assert(more[k] == turns[k]);
        }
    }
}

/// `order` are the items that overlap the tile, best suited first.
pub open spec fn is_ranking(
    boxes: Seq<Bbox>,
    zooms: Seq<u8>,
    editions: Seq<EditionDate>,
    z: u8,
    tile: Bbox,
    order: Seq<usize>,
) -> bool {
    &&& order.to_multiset() == overlapping(boxes, tile, boxes.len() as int).to_multiset()
    &&& best_first(zooms, editions, z, order)
}

/// Finds the items for a tile of zoom level `z` and divides the tile among them.
/// Extents, coverages, native zoom levels and edition dates are listed by item,
/// `tile` is the extent of the tile and `area` its area.
pub fn plan_tile<A, O: AreaOps<A>>(
    ops: &O,
    boxes: &Vec<Bbox>,
    coverages: &Vec<A>,
    zooms: &Vec<u8>,
    editions: &Vec<EditionDate>,
    z: u8,
    tile: &Bbox,
    area: A,
) -> (picks: Vec<Pick<A>>)
    requires
        coverages@.len() == boxes@.len(),
        zooms@.len() == boxes@.len(),
        editions@.len() == boxes@.len(),
    ensures
        exists|order: Seq<usize>, turns: Seq<Turn<A>>|
            #![trigger is_trace(*ops, area, coverages@, order, turns)]
            {
                &&& is_ranking(boxes@, zooms@, editions@, z, *tile, order)
                &&& is_trace(*ops, area, coverages@, order, turns)
                &&& is_complete(order, turns)
                &&& picks@ == shares_of(order, turns, turns.len() as int)
            },
{
    let found: Vec<usize> = candidates(boxes, tile);
    let order: Vec<usize> = rank_candidates(zooms, editions, z, &found);
    assert(is_ranking(boxes@, zooms@, editions@, z, *tile, order@));
    quilt(ops, area, coverages, &order)
}

/// The operations are exact on what areas hold: `holds(a, p)` says that the point
/// `p` lies in `a`.
pub open spec fn are_exact<A, P, O: AreaOps<A>>(ops: O, holds: spec_fn(A, P) -> bool) -> bool {
    &&& forall|a: A, b: A, m: A, p: P|
        #![trigger met(ops, a, b, m), holds(m, p)]
        met(ops, a, b, m) ==> (holds(m, p) <==> holds(a, p) && holds(b, p))
    &&& forall|a: A, b: A, r: A, p: P|
        #![trigger left(ops, a, b, r), holds(r, p)]
        left(ops, a, b, r) ==> (holds(r, p) <==> holds(a, p) && !holds(b, p))
}

/// What is open before a turn are the points of the tile that no earlier share
/// holds, where the operations are exact.
pub proof fn open_is_what_shares_leave<A, P, O: AreaOps<A>>(
    ops: O,
    holds: spec_fn(A, P) -> bool,
    tile: A,
    coverages: Seq<A>,
    order: Seq<usize>,
    turns: Seq<Turn<A>>,
    n: int,
    p: P,
)
    requires
        are_exact(ops, holds),
        is_trace(ops, tile, coverages, order, turns),
        0 <= n <= turns.len(),
    ensures
        holds(open_at(tile, turns, n), p) <==> holds(tile, p) && forall|k: int|
            0 <= k < n && (#[trigger] turns[k]).taken ==> !holds(turns[k].part, p),
    decreases n,
{
    if n > 0 {
        open_is_what_shares_leave(ops, holds, tile, coverages, order, turns, n - 1, p);
        let t = turns[n - 1];
        assert(is_turn(ops, coverages[order[n - 1] as int], open_at(tile, turns, n - 1), t));
        if holds(open_at(tile, turns, n), p) {
            assert forall|k: int| 0 <= k < n && (#[trigger] turns[k]).taken implies !holds(turns[k].part, p) by {
                if k == n - 1 {
                    assert(left(ops, open_at(tile, turns, n - 1), t.part, t.open));
                }
            }
        } else if t.taken {
            assert(left(ops, open_at(tile, turns, n - 1), t.part, t.open));
            assert(holds(t.open, p) == (holds(open_at(tile, turns, n - 1), p) && !holds(t.part, p)));
            assert(turns[n - 1].taken);
        }
    }
}

/// A share holds the points of the tile that its item covers and no earlier share
/// holds, where the operations are exact: a point goes to the best suited item.
pub proof fn first_item_takes_a_point<A, P, O: AreaOps<A>>(
    ops: O,
    holds: spec_fn(A, P) -> bool,
    tile: A,
    coverages: Seq<A>,
    order: Seq<usize>,
    turns: Seq<Turn<A>>,
    n: int,
    p: P,
)
    requires
        are_exact(ops, holds),
        is_trace(ops, tile, coverages, order, turns),
        0 <= n < turns.len(),
    ensures
        holds(turns[n].part, p) <==> {
            &&& holds(tile, p)
            &&& holds(coverages[order[n] as int], p)
            &&& forall|k: int| 0 <= k < n && (#[trigger] turns[k]).taken ==> !holds(turns[k].part, p)
        },
{
    open_is_what_shares_leave(ops, holds, tile, coverages, order, turns, n, p);
    assert(met(ops, coverages[order[n] as int], open_at(tile, turns, n), turns[n].part));
}

/// No point lies in two shares, where the operations are exact.
pub proof fn shares_are_disjoint<A, P, O: AreaOps<A>>(
    ops: O,
    holds: spec_fn(A, P) -> bool,
    tile: A,
    coverages: Seq<A>,
    order: Seq<usize>,
    turns: Seq<Turn<A>>,
    i: int,
    j: int,
    p: P,
)
    requires
        are_exact(ops, holds),
        is_trace(ops, tile, coverages, order, turns),
        0 <= i < turns.len(),
        0 <= j < turns.len(),
        i != j,
        turns[i].taken,
        turns[j].taken,
    ensures
        !(holds(turns[i].part, p) && holds(turns[j].part, p)),
{
    let last = if i < j { j } else { i };
    first_item_takes_a_point(ops, holds, tile, coverages, order, turns, last, p);
}

/// A point lies in an area that was judged to be none: in a part that an item
/// was not given, or in what was left open at the end.
pub open spec fn in_sliver<A, P, O: AreaOps<A>>(
    ops: O,
    holds: spec_fn(A, P) -> bool,
    turns: Seq<Turn<A>>,
    p: P,
) -> bool {
    exists|k: int|
        0 <= k < turns.len() && {
            let t = #[trigger] turns[k];
            ||| !t.taken && judged(ops, t.part, false) && holds(t.part, p)
            ||| t.taken && !t.more && judged(ops, t.open, false) && holds(t.open, p)
        }
}

/// A point lies in a share.
pub open spec fn in_share<A, P>(holds: spec_fn(A, P) -> bool, turns: Seq<Turn<A>>, p: P) -> bool {
    exists|k: int| 0 <= k < turns.len() && (#[trigger] turns[k]).taken && holds(turns[k].part, p)
}

/// Every point of the tile that one of the items covers lies in a share, or in an
/// area that was judged to be none, where the operations are exact.
pub proof fn covered_points_are_shared_out<A, P, O: AreaOps<A>>(
    ops: O,
    holds: spec_fn(A, P) -> bool,
    tile: A,
    coverages: Seq<A>,
    order: Seq<usize>,
    turns: Seq<Turn<A>>,
    n: int,
    p: P,
)
    requires
        are_exact(ops, holds),
        is_trace(ops, tile, coverages, order, turns),
        is_complete(order, turns),
        0 <= n < order.len(),
        holds(tile, p),
        holds(coverages[order[n] as int], p),
    ensures
        in_share(holds, turns, p) || in_sliver(ops, holds, turns, p),
{
    if !in_share(holds, turns, p) {
        if n < turns.len() {
            first_item_takes_a_point(ops, holds, tile, coverages, order, turns, n, p);
            assert(is_turn(ops, coverages[order[n] as int], open_at(tile, turns, n), turns[n]));
            assert(!turns[n].taken && holds(turns[n].part, p));
        } else {
            let last = turns.len() - 1;
            open_is_what_shares_leave(ops, holds, tile, coverages, order, turns, turns.len() as int, p);
            assert(is_turn(ops, coverages[order[last] as int], open_at(tile, turns, last), turns[last]));
            assert(turns[last].taken && !turns[last].more && holds(turns[last].open, p));
        }
    }
}

/// A pick is the share of turn `k`.
pub open spec fn is_share_of<A>(order: Seq<usize>, turns: Seq<Turn<A>>, pick: Pick<A>, k: int) -> bool {
    0 <= k < turns.len() && turns[k].taken && pick == (Pick { item: order[k], area: turns[k].part })
}

proof fn lemma_shares<A>(order: Seq<usize>, turns: Seq<Turn<A>>, n: int) -> (at: Seq<int>)
    requires
        0 <= n <= turns.len(),
    ensures
        at.len() == shares_of(order, turns, n).len(),
        forall|i: int| 0 <= i < at.len() ==> is_share_of(order, turns, shares_of(order, turns, n)[i], #[trigger] at[i]),
        forall|i: int| 0 <= i < at.len() ==> #[trigger] at[i] < n,
        forall|i: int, j: int| 0 <= i < j < at.len() ==> #[trigger] at[i] < #[trigger] at[j],
        forall|k: int| 0 <= k < n && (#[trigger] turns[k]).taken ==> at.contains(k),
    decreases n,
{
    if n <= 0 {
        Seq::empty()
    } else {
        let before = lemma_shares(order, turns, n - 1);
        if turns[n - 1].taken {
            let at = before.push(n - 1);
            assert forall|k: int| 0 <= k < n && (#[trigger] turns[k]).taken implies at.contains(k) by {
                if k == n - 1 {
                    assert(at[before.len() as int] == k);
                } else {
                    let i = choose|i: int| 0 <= i < before.len() && before[i] == k;
                    assert(at[i] == k);
                }
            }
            at
        } else {
            before
        }
    }
}

proof fn lemma_overlapping(boxes: Seq<Bbox>, tile: Bbox, n: int)
    requires
        0 <= n <= boxes.len() <= usize::MAX,
    ensures
        overlapping(boxes, tile, n).no_duplicates(),
        forall|i: usize| #[trigger]
            overlapping(boxes, tile, n).contains(i) <==> i < n && boxes[i as int].touches(tile),
    decreases n,
{
    if n > 0 {
        lemma_overlapping(boxes, tile, n - 1);
        let before = overlapping(boxes, tile, n - 1);
        let after = overlapping(boxes, tile, n);
        let new = (n - 1) as usize;
        assert(!before.contains(new));
        if boxes[n - 1].touches(tile) {
            assert(after[before.len() as int] == new);
            assert forall|i: usize| #[trigger] after.contains(i) <==> i < n && boxes[i as int].touches(tile) by {
                if before.contains(i) {
                    let k = choose|k: int| 0 <= k < before.len() && before[k] == i;
                    assert(after[k] == i);
                }
                if after.contains(i) {
                    let k = choose|k: int| 0 <= k < after.len() && after[k] == i;
                    if k < before.len() {
                        assert(before[k] == i);
                    }
                }
            }
            assert(after.no_duplicates()) by {
                assert forall|a: int, b: int|
                    0 <= a < after.len() && 0 <= b < after.len() && a != b implies after[a] != after[b] by {
                    if a < before.len() && b < before.len() {
                        assert(before[a] != before[b]);
                    } else if a < before.len() {
                        assert(before.contains(before[a]));
                    } else {
                        assert(before.contains(before[b]));
                    }
                }
            }
        } else {
            assert forall|i: usize| #[trigger] after.contains(i) <==> i < n && boxes[i as int].touches(tile) by {
                assert(before.contains(i) <==> i < n - 1 && boxes[i as int].touches(tile));
            }
        }
    }
}

proof fn lemma_ranking(
    boxes: Seq<Bbox>,
    zooms: Seq<u8>,
    editions: Seq<EditionDate>,
    z: u8,
    tile: Bbox,
    order: Seq<usize>,
)
    requires
        boxes.len() <= usize::MAX,
        is_ranking(boxes, zooms, editions, z, tile, order),
    ensures
        order.no_duplicates(),
        forall|i: usize| #[trigger] order.contains(i) <==> i < boxes.len() && boxes[i as int].touches(tile),
{
    broadcast use vstd::multiset::group_multiset_axioms;

    let found = overlapping(boxes, tile, boxes.len() as int);
    lemma_overlapping(boxes, tile, boxes.len() as int);
    found.lemma_multiset_has_no_duplicates();
    order.lemma_multiset_has_no_duplicates_conv();
    order.to_multiset_ensures();
    found.to_multiset_ensures();
    assert forall|i: usize| #[trigger] order.contains(i) <==> i < boxes.len() && boxes[i as int].touches(tile) by {
        assert(order.contains(i) <==> order.to_multiset().count(i) > 0);
        assert(found.contains(i) <==> found.to_multiset().count(i) > 0);
    }
}

/// The extents of the items bound what they cover: an item that covers a point of
/// the tile has an extent that overlaps the tile's.
pub open spec fn extents_bound<A, P>(
    holds: spec_fn(A, P) -> bool,
    boxes: Seq<Bbox>,
    coverages: Seq<A>,
    tile: Bbox,
    area: A,
) -> bool {
    forall|i: int, p: P|
        0 <= i < boxes.len() && #[trigger] holds(coverages[i], p) && holds(area, p) ==> boxes[i].touches(tile)
}

/// The plan of a tile divides what the items cover of it, where the operations are
/// exact: no item has two shares, every share was judged to be an area, lies in
/// the tile and in the coverage of its item and has no point of another share, and
/// the shares hold every covered point of the tile that lies in no area judged to
/// be none.
pub proof fn a_plan_divides_the_covered_tile<A, P, O: AreaOps<A>>(
    ops: O,
    holds: spec_fn(A, P) -> bool,
    boxes: Seq<Bbox>,
    coverages: Seq<A>,
    zooms: Seq<u8>,
    editions: Seq<EditionDate>,
    z: u8,
    tile: Bbox,
    area: A,
    order: Seq<usize>,
    turns: Seq<Turn<A>>,
    picks: Seq<Pick<A>>,
)
    requires
        are_exact(ops, holds),
        boxes.len() <= usize::MAX,
        coverages.len() == boxes.len(),
        extents_bound(holds, boxes, coverages, tile, area),
        is_ranking(boxes, zooms, editions, z, tile, order),
        is_trace(ops, area, coverages, order, turns),
        is_complete(order, turns),
        picks == shares_of(order, turns, turns.len() as int),
    ensures
        forall|i: int, j: int|
            0 <= i < j < picks.len() ==> (#[trigger] picks[i]).item != (#[trigger] picks[j]).item,
        forall|i: int|
            0 <= i < picks.len() ==> (#[trigger] picks[i]).item < boxes.len() && judged(ops, picks[i].area, true),
        forall|i: int, p: P|
            0 <= i < picks.len() && #[trigger] holds(picks[i].area, p) ==> holds(area, p) && holds(
                coverages[picks[i].item as int],
                p,
            ),
        forall|i: int, j: int, p: P|
            0 <= i < j < picks.len() ==> !(#[trigger] holds(picks[i].area, p) && #[trigger] holds(picks[j].area, p)),
        forall|c: int, p: P|
            0 <= c < boxes.len() && holds(area, p) && #[trigger] holds(coverages[c], p) ==> in_sliver(
                ops,
                holds,
                turns,
                p,
            ) || exists|i: int| 0 <= i < picks.len() && holds((#[trigger] picks[i]).area, p),
{
    let at = lemma_shares(order, turns, turns.len() as int);
    lemma_ranking(boxes, zooms, editions, z, tile, order);
    assert forall|i: int, j: int| 0 <= i < j < picks.len() implies (#[trigger] picks[i]).item != (
    #[trigger] picks[j]).item by {
        assert(is_share_of(order, turns, picks[i], at[i]) && is_share_of(order, turns, picks[j], at[j]));
        assert(at[i] < at[j]);
        assert(order[at[i]] != order[at[j]]);
    }
    assert forall|i: int| 0 <= i < picks.len() implies (#[trigger] picks[i]).item < boxes.len() && judged(
        ops,
        picks[i].area,
        true,
    ) by {
        let k = at[i];
        assert(is_share_of(order, turns, picks[i], k));
        assert(is_turn(ops, coverages[order[k] as int], open_at(area, turns, k), turns[k]));
        assert(order.contains(order[k]));
    }
    assert forall|i: int, p: P| 0 <= i < picks.len() && #[trigger] holds(picks[i].area, p) implies holds(area, p)
        && holds(coverages[picks[i].item as int], p) by {
        let k = at[i];
        assert(is_share_of(order, turns, picks[i], k));
        first_item_takes_a_point(ops, holds, area, coverages, order, turns, k, p);
    }
    assert forall|i: int, j: int, p: P| 0 <= i < j < picks.len() implies !(#[trigger] holds(picks[i].area, p)
        && #[trigger] holds(picks[j].area, p)) by {
        assert(is_share_of(order, turns, picks[i], at[i]) && is_share_of(order, turns, picks[j], at[j]));
        assert(at[i] < at[j]);
        shares_are_disjoint(ops, holds, area, coverages, order, turns, at[i], at[j], p);
    }
    assert forall|c: int, p: P|
        0 <= c < boxes.len() && holds(area, p) && #[trigger] holds(coverages[c], p) implies in_sliver(
        ops,
        holds,
        turns,
        p,
    ) || exists|i: int| 0 <= i < picks.len() && holds((#[trigger] picks[i]).area, p) by {
        assert(boxes[c].touches(tile));
        assert(order.contains(c as usize));
        let n = choose|n: int| 0 <= n < order.len() && order[n] == c as usize;
        covered_points_are_shared_out(ops, holds, area, coverages, order, turns, n, p);
        if in_share(holds, turns, p) {
            let k = choose|k: int| 0 <= k < turns.len() && (#[trigger] turns[k]).taken && holds(turns[k].part, p);
            let i = choose|i: int| 0 <= i < at.len() && at[i] == k;
            assert(is_share_of(order, turns, picks[i], at[i]));
            assert(holds(picks[i].area, p));
        }
    }
}

/// Nothing of a tile is lost in a lattice: whatever covers all shares and the
/// part that is left open covers the tile.
pub proof fn shares_and_rest_cover_the_tile<L: BoundedLattice, T: AreaTest<L>>(
    ops: ByLattice<T>,
    tile: L,
    coverages: Seq<L>,
    order: Seq<usize>,
    turns: Seq<Turn<L>>,
    n: int,
    u: L,
)
    requires
        is_trace(ops, tile, coverages, order, turns),
        0 <= n <= turns.len(),
        tile.regular(),
        forall|k: int| 0 <= k < order.len() ==> (#[trigger] coverages[order[k] as int]).regular(),
        u.regular(),
        u.above(&open_at(tile, turns, n)),
        forall|k: int| 0 <= k < n && (#[trigger] turns[k]).taken ==> u.above(&turns[k].part),
    ensures
        u.above(&tile),
    decreases n,
{
    if n > 0 {
        lemma_turn_in_lattice(ops, tile, coverages, order, turns, n - 1);
        let t = turns[n - 1];
        assert(t.taken ==> u.above(&t.part));
        shares_and_rest_cover_the_tile(ops, tile, coverages, order, turns, n - 1, u);
    }
}

proof fn lemma_turn_in_lattice<L: BoundedLattice, T: AreaTest<L>>(
    ops: ByLattice<T>,
    tile: L,
    coverages: Seq<L>,
    order: Seq<usize>,
    turns: Seq<Turn<L>>,
    n: int,
)
    requires
        is_trace(ops, tile, coverages, order, turns),
        0 <= n < turns.len(),
        tile.regular(),
        forall|k: int| 0 <= k < order.len() ==> (#[trigger] coverages[order[k] as int]).regular(),
    ensures
        open_at(tile, turns, n).regular(),
        open_at(tile, turns, n + 1).regular(),
        turns[n].part.regular(),
        turns[n].taken ==> call_ensures(L::minus, (&open_at(tile, turns, n), &turns[n].part), turns[n].open),
        !turns[n].taken ==> turns[n].open == open_at(tile, turns, n),
    decreases n,
{
    if n > 0 {
        lemma_turn_in_lattice(ops, tile, coverages, order, turns, n - 1);
    }
    let open = open_at(tile, turns, n);
    let t = turns[n];
    assert(coverages[order[n] as int].regular());
    assert(is_turn(ops, coverages[order[n] as int], open, t));
    assert(call_ensures(L::meet, (&coverages[order[n] as int], &open), t.part));
    if t.taken {
        assert(call_ensures(L::minus, (&open, &t.part), t.open));
    }
}

// ── Which chart a tile shows ─────────────────────────────────────────────────

/// The charts for a tile of zoom level `z` stand in this order: those drawn for
/// `z` or a finer level before those drawn for a coarser one; of the former the
/// coarsest first, of the latter the finest first; of one level the later edition
/// first, and after that the one listed first.
pub proof fn charts_are_ranked_by_zoom_and_date(
    boxes: Seq<Bbox>,
    zooms: Seq<u8>,
    editions: Seq<EditionDate>,
    z: u8,
    tile: Bbox,
    order: Seq<usize>,
    i: int,
    j: int,
)
    requires
        is_ranking(boxes, zooms, editions, z, tile, order),
        0 <= i < order.len(),
        0 <= j < order.len(),
    ensures
        ({
            let a = order[i] as int;
            let b = order[j] as int;
            &&& zooms[a] >= z && zooms[b] < z ==> i < j
            &&& zooms[a] >= z && zooms[b] >= z && zooms[a] < zooms[b] ==> i < j
            &&& zooms[a] < z && zooms[b] < z && zooms[a] > zooms[b] ==> i < j
            &&& zooms[a] == zooms[b] && editions[a].key() > editions[b].key() ==> i < j
            &&& zooms[a] == zooms[b] && editions[a].key() == editions[b].key() && a < b ==> i < j
        }),
{
    if j < i {
        assert(!suits_better(zooms, editions, z, order[i], order[j]));
    }
}

/// The charts for a tile are those whose extent has a point in common with it,
/// each of them once. Edges count.
pub proof fn charts_are_those_that_meet_the_tile(
    boxes: Seq<Bbox>,
    zooms: Seq<u8>,
    editions: Seq<EditionDate>,
    z: u8,
    tile: Bbox,
    order: Seq<usize>,
)
    requires
        boxes.len() <= usize::MAX,
        is_ranking(boxes, zooms, editions, z, tile, order),
        tile.regular(),
        forall|k: int| 0 <= k < boxes.len() ==> (#[trigger] boxes[k]).regular(),
    ensures
        forall|i: int, j: int| 0 <= i < j < order.len() ==> order[i] != order[j],
        forall|k: int|
            0 <= k < boxes.len() ==> (order.contains(k as usize) <==> exists|x: int, y: int|
                #![trigger tile.has(2 * x, 2 * y)]
                {
                    &&& (#[trigger] boxes[k]).west.rank() <= x <= boxes[k].east.rank()
                    &&& boxes[k].south.rank() <= y <= boxes[k].north.rank()
                    &&& tile.west.rank() <= x <= tile.east.rank()
                    &&& tile.south.rank() <= y <= tile.north.rank()
                    &&& tile.has(2 * x, 2 * y)
                }),
{
    lemma_ranking(boxes, zooms, editions, z, tile, order);
    assert forall|i: int, j: int| 0 <= i < j < order.len() implies order[i] != order[j] by {}
    assert forall|k: int| 0 <= k < boxes.len() implies (order.contains(k as usize) <==> exists|x: int, y: int|
        #![trigger tile.has(2 * x, 2 * y)]
        {
            &&& (#[trigger] boxes[k]).west.rank() <= x <= boxes[k].east.rank()
            &&& boxes[k].south.rank() <= y <= boxes[k].north.rank()
            &&& tile.west.rank() <= x <= tile.east.rank()
            &&& tile.south.rank() <= y <= tile.north.rank()
            &&& tile.has(2 * x, 2 * y)
        }) by {
        let b = boxes[k];
        assert(order.contains(k as usize) <==> b.touches(tile));
        if b.touches(tile) {
            let x = if b.west.rank() >= tile.west.rank() { b.west.rank() } else { tile.west.rank() };
            let y = if b.south.rank() >= tile.south.rank() { b.south.rank() } else { tile.south.rank() };
            assert(tile.has(2 * x, 2 * y));
        }
    }
}

/// A point of a tile is painted from the chart that suits the zoom level best
/// among those that cover it, where the operations are exact: where chart `b` has
/// the point, a chart `a` that covers it and is drawn for a better level had its
/// turn before, and what it would have painted there was judged to be no area.
pub proof fn a_point_is_painted_from_the_best_chart<A, P, O: AreaOps<A>>(
    ops: O,
    holds: spec_fn(A, P) -> bool,
    boxes: Seq<Bbox>,
    coverages: Seq<A>,
    zooms: Seq<u8>,
    editions: Seq<EditionDate>,
    z: u8,
    tile: Bbox,
    area: A,
    order: Seq<usize>,
    turns: Seq<Turn<A>>,
    n: int,
    a: int,
    p: P,
)
    requires
        are_exact(ops, holds),
        boxes.len() <= usize::MAX,
        coverages.len() == boxes.len(),
        extents_bound(holds, boxes, coverages, tile, area),
        is_ranking(boxes, zooms, editions, z, tile, order),
        is_trace(ops, area, coverages, order, turns),
        0 <= n < turns.len(),
        turns[n].taken,
        holds(turns[n].part, p),
        0 <= a < boxes.len(),
        holds(coverages[a], p),
        ({
            let za = zooms[a];
            let zb = zooms[order[n] as int];
            ||| za >= z && zb < z
            ||| za >= z && zb >= z && za < zb
            ||| za < z && zb < z && za > zb
        }),
    ensures
        exists|m: int|
            0 <= m < n && order[m] == a && !(#[trigger] turns[m]).taken && judged(ops, turns[m].part, false) && holds(
                turns[m].part,
                p,
            ),
{
    first_item_takes_a_point(ops, holds, area, coverages, order, turns, n, p);
    lemma_ranking(boxes, zooms, editions, z, tile, order);
    assert(boxes[a].touches(tile));
    assert(order.contains(a as usize));
    let m = choose|m: int| 0 <= m < order.len() && order[m] == a as usize;
    charts_are_ranked_by_zoom_and_date(boxes, zooms, editions, z, tile, order, m, n);
    assert(m < n);
    first_item_takes_a_point(ops, holds, area, coverages, order, turns, m, p);
    assert(is_turn(ops, coverages[order[m] as int], open_at(area, turns, m), turns[m]));
    assert(holds(turns[m].part, p));
    assert(!turns[m].taken);
}

/// The one chart that is drawn for exactly the zoom level of a tile has the first
/// turn and is offered all that it covers of the tile, where the operations are
/// exact.
pub proof fn the_chart_of_the_zoom_level_has_the_tile<A, P, O: AreaOps<A>>(
    ops: O,
    holds: spec_fn(A, P) -> bool,
    boxes: Seq<Bbox>,
    coverages: Seq<A>,
    zooms: Seq<u8>,
    editions: Seq<EditionDate>,
    z: u8,
    tile: Bbox,
    area: A,
    order: Seq<usize>,
    turns: Seq<Turn<A>>,
    k: int,
    p: P,
)
    requires
        are_exact(ops, holds),
        boxes.len() <= usize::MAX,
        is_ranking(boxes, zooms, editions, z, tile, order),
        is_trace(ops, area, coverages, order, turns),
        is_complete(order, turns),
        0 <= k < order.len(),
        zooms[order[k] as int] == z,
        forall|j: int| 0 <= j < order.len() && j != k ==> zooms[(#[trigger] order[j]) as int] != z,
    ensures
        k == 0,
        turns.len() > 0,
        holds(turns[0].part, p) <==> holds(area, p) && holds(coverages[order[k] as int], p),
        turns[0].taken ==> shares_of(order, turns, turns.len() as int)[0] == (Pick {
            item: order[k],
            area: turns[0].part,
        }),
{
    if k > 0 {
        charts_are_ranked_by_zoom_and_date(boxes, zooms, editions, z, tile, order, k, 0);
        assert(zooms[order[0] as int] != z);
        assert(zooms[order[0] as int] < z || zooms[order[0] as int] > z);
    }
    first_item_takes_a_point(ops, holds, area, coverages, order, turns, 0, p);
    if turns[0].taken {
        let at = lemma_shares(order, turns, turns.len() as int);
        assert(at.contains(0));
        let i = choose|i: int| 0 <= i < at.len() && at[i] == 0;
        if i > 0 {
            assert(at[0] < at[i]);
            assert(is_share_of(order, turns, shares_of(order, turns, turns.len() as int)[0], at[0]));
        }
        assert(is_share_of(order, turns, shares_of(order, turns, turns.len() as int)[0], at[0]));
    }
}

/// Every chart lies in the zoom range. Its lowest level is two below that of the
/// coarsest chart, or 0 where that lies at 2 or below, and its highest level is
/// that of the finest chart.
pub proof fn zoom_range_fits_the_charts(zooms: Seq<u8>, lo: u8, hi: u8)
    requires
        is_least(zooms, lo),
        is_greatest(zooms, hi),
        zooms.len() > 0,
    ensures
        forall|i: int| 0 <= i < zooms.len() ==> floor_below(lo) <= #[trigger] zooms[i] <= hi,
        exists|i: int|
            0 <= i < zooms.len() && (zooms[i] == floor_below(lo) + 2 || (floor_below(lo) == 0 && zooms[i] <= 2)) && (
            forall|j: int| 0 <= j < zooms.len() ==> zooms[i] <= zooms[j]) && #[trigger] zooms[i] == zooms[i],
        exists|i: int| 0 <= i < zooms.len() && #[trigger] zooms[i] == hi,
{
    let i = choose|i: int| 0 <= i < zooms.len() && zooms[i] == lo;
    assert(zooms[i] == zooms[i]);
    let j = choose|j: int| 0 <= j < zooms.len() && zooms[j] == hi;
    assert(zooms[j] == hi);
}

/// The overall extent is no larger than the extents it is made of: each of its sides
/// is that side of one of them.
pub proof fn extent_is_tight(bottom: Bbox, boxes: Seq<Bbox>, n: int) -> (at: (int, int, int, int))
    requires
        0 < n <= boxes.len(),
        bottom.regular(),
        forall|b: Bbox| b.regular() ==> #[trigger] b.above(&bottom),
        forall|k: int| 0 <= k < boxes.len() ==> (#[trigger] boxes[k]).regular(),
    ensures
        0 <= at.0 < n && 0 <= at.1 < n && 0 <= at.2 < n && 0 <= at.3 < n,
        hull_from(bottom, boxes, n).west.equals(boxes[at.0].west),
        hull_from(bottom, boxes, n).south.equals(boxes[at.1].south),
        hull_from(bottom, boxes, n).east.equals(boxes[at.2].east),
        hull_from(bottom, boxes, n).north.equals(boxes[at.3].north),
    decreases n,
{
    assert(boxes[n - 1].regular());
    assert(boxes[n - 1].above(&bottom));
    if n == 1 {
        assert(hull_from(bottom, boxes, 0) == bottom);
        (0, 0, 0, 0)
    } else {
        let before = hull_from(bottom, boxes, n - 1);
        extent_contains_items(bottom, boxes, n - 1, 0);
        let b = extent_is_tight(bottom, boxes, n - 1);
        let last = boxes[n - 1];
        (
            if before.west.at_most(last.west) { b.0 } else { n - 1 },
            if before.south.at_most(last.south) { b.1 } else { n - 1 },
            if last.east.at_most(before.east) { b.2 } else { n - 1 },
            if last.north.at_most(before.north) { b.3 } else { n - 1 },
        )
    }
}

} // verus!
