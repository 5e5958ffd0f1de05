//! Tile numbers along a Hilbert curve.
use vstd::arithmetic::power2::{lemma2_to64, lemma_pow2_pos, lemma_pow2_strictly_increases, lemma_pow2_unfold, pow2};
use vstd::prelude::*;

verus! {

/// Side of the square that a curve of order `k` fills.
pub open spec fn side(k: nat) -> int {
    pow2(k) as int
}

/// Which quarter of the square comes how early on the curve: lower left, upper
/// left, upper right, lower right.
pub open spec fn quarter(right: bool, upper: bool) -> int {
    if !right && !upper {
        0
    } else if !right {
        1
    } else if upper {
        2
    } else {
        3
    }
}

/// Position within a quarter of side `h`, as its part of the curve sees it: the
/// first part is mirrored at the diagonal, the last one at the other diagonal.
pub open spec fn within(h: int, x: int, y: int) -> (int, int) {
    let u = if x >= h { x - h } else { x };
    let v = if y >= h { y - h } else { y };
    if y >= h {
        (u, v)
    } else if x >= h {
        (h - 1 - v, h - 1 - u)
    } else {
        (v, u)
    }
}

/// Number of the cell `(x, y)` on a Hilbert curve of order `k`.
pub open spec fn hilbert(k: nat, x: int, y: int) -> int
    decreases k,
{
    if k == 0 {
        0
    } else {
        let h = side((k - 1) as nat);
        let (u, v) = within(h, x, y);
        h * h * quarter(x >= h, y >= h) + hilbert((k - 1) as nat, u, v)
    }
}

/// Number of tiles of all zoom levels below `z`.
pub open spec fn tiles_below(z: nat) -> int
    decreases z,
{
    if z == 0 {
        0
    } else {
        tiles_below((z - 1) as nat) + side((z - 1) as nat) * side((z - 1) as nat)
    }
}

/// Number of the tile `(x, y)` of zoom level `z`: levels follow each other, and
/// within a level tiles follow the Hilbert curve.
pub open spec fn tile_number(z: nat, x: int, y: int) -> int {
    tiles_below(z) + hilbert(z, x, y)
}

proof fn lemma_side_zero()
    ensures
        side(0) == 1,
        side(0) * side(0) == 1,
{
    lemma2_to64();
    assert(side(0) * side(0) == 1) by (nonlinear_arith)
        requires
            side(0) == 1,
    ;
}

proof fn lemma_side(k: nat)
    requires
        k > 0,
    ensures
        side(k) == 2 * side((k - 1) as nat),
        side((k - 1) as nat) > 0,
{
    lemma_pow2_unfold(k);
    lemma_pow2_pos((k - 1) as nat);
}

proof fn lemma_within(h: int, x: int, y: int)
    requires
        0 <= x < 2 * h,
        0 <= y < 2 * h,
    ensures
        0 <= within(h, x, y).0 < h,
        0 <= within(h, x, y).1 < h,
{
}

/// The numbers of a curve of order `k` are those below the number of its cells.
pub proof fn hilbert_range(k: nat, x: int, y: int)
    requires
        0 <= x < side(k),
        0 <= y < side(k),
    ensures
        0 <= hilbert(k, x, y) < side(k) * side(k),
    decreases k,
{
    if k == 0 {
        lemma_side_zero();
    } else {
        lemma_side(k);
        let h = side((k - 1) as nat);
        lemma_within(h, x, y);
        let (u, v) = within(h, x, y);
        hilbert_range((k - 1) as nat, u, v);
        let q = quarter(x >= h, y >= h);
        assert(0 <= h * h * q <= h * h * 3) by (nonlinear_arith)
            requires
                0 <= q <= 3,
                h > 0,
        ;
        assert(side(k) * side(k) == 4 * (h * h)) by (nonlinear_arith)
            requires
                side(k) == 2 * h,
        ;
    }
}

/// Different cells have different numbers.
pub proof fn hilbert_injective(k: nat, x1: int, y1: int, x2: int, y2: int)
    requires
        0 <= x1 < side(k),
        0 <= y1 < side(k),
        0 <= x2 < side(k),
        0 <= y2 < side(k),
        hilbert(k, x1, y1) == hilbert(k, x2, y2),
    ensures
        x1 == x2,
        y1 == y2,
    decreases k,
{
    if k == 0 {
        lemma_side_zero();
    } else {
        lemma_side(k);
        let h = side((k - 1) as nat);
        lemma_within(h, x1, y1);
        lemma_within(h, x2, y2);
        let (u1, v1) = within(h, x1, y1);
        let (u2, v2) = within(h, x2, y2);
        hilbert_range((k - 1) as nat, u1, v1);
        hilbert_range((k - 1) as nat, u2, v2);
        let q1 = quarter(x1 >= h, y1 >= h);
        let q2 = quarter(x2 >= h, y2 >= h);
        let d1 = hilbert((k - 1) as nat, u1, v1);
        let d2 = hilbert((k - 1) as nat, u2, v2);
        let hh = h * h;
        assert(q1 == q2) by (nonlinear_arith)
            requires
                hh * q1 + d1 == hh * q2 + d2,
                0 <= d1 < hh,
                0 <= d2 < hh,
        ;
        hilbert_injective((k - 1) as nat, u1, v1, u2, v2);
    }
}

/// The curve starts in the lower left corner and ends in the lower right one.
pub proof fn hilbert_ends(k: nat)
    ensures
        hilbert(k, 0, 0) == 0,
        hilbert(k, side(k) - 1, 0) == side(k) * side(k) - 1,
    decreases k,
{
    if k == 0 {
        lemma_side_zero();
    } else {
        lemma_side(k);
        let h = side((k - 1) as nat);
        hilbert_ends((k - 1) as nat);
        assert(h * h * 0 == 0) by (nonlinear_arith);
        assert(side(k) * side(k) == 4 * (h * h)) by (nonlinear_arith)
            requires
                side(k) == 2 * h,
        ;
        assert(within(h, 2 * h - 1, 0) == (h - 1, 0int));
    }
}

/// Cells with consecutive numbers are neighbours.
pub proof fn hilbert_continuous(k: nat, x1: int, y1: int, x2: int, y2: int)
    requires
        0 <= x1 < side(k),
        0 <= y1 < side(k),
        0 <= x2 < side(k),
        0 <= y2 < side(k),
        hilbert(k, x2, y2) == hilbert(k, x1, y1) + 1,
    ensures
        (x1 == x2 && (y1 - y2 == 1 || y2 - y1 == 1)) || (y1 == y2 && (x1 - x2 == 1 || x2 - x1 == 1)),
    decreases k,
{
    if k == 0 {
        lemma_side_zero();
    } else {
        lemma_side(k);
        let j = (k - 1) as nat;
        let h = side(j);
        lemma_within(h, x1, y1);
        lemma_within(h, x2, y2);
        let (u1, v1) = within(h, x1, y1);
        let (u2, v2) = within(h, x2, y2);
        hilbert_range(j, u1, v1);
        hilbert_range(j, u2, v2);
        hilbert_ends(j);
        let q1 = quarter(x1 >= h, y1 >= h);
        let q2 = quarter(x2 >= h, y2 >= h);
        let d1 = hilbert(j, u1, v1);
        let d2 = hilbert(j, u2, v2);
        let hh = h * h;
        assert((q1 == q2 && d2 == d1 + 1) || (q2 == q1 + 1 && d1 == hh - 1 && d2 == 0)) by (nonlinear_arith)
            requires
                hh * q2 + d2 == hh * q1 + d1 + 1,
                0 <= d1 < hh,
                0 <= d2 < hh,
        ;
        if q1 == q2 {
            hilbert_continuous(j, u1, v1, u2, v2);
        } else {
            hilbert_injective(j, u1, v1, h - 1, 0);
            hilbert_injective(j, u2, v2, 0, 0);
        }
    }
}

proof fn lemma_tiles_below(z: nat)
    ensures
        3 * tiles_below(z) == side(z) * side(z) - 1,
    decreases z,
{
    if z == 0 {
        lemma_side_zero();
    } else {
        lemma_tiles_below((z - 1) as nat);
        lemma_side(z);
        let h = side((z - 1) as nat);
        assert(side(z) * side(z) == 4 * (h * h)) by (nonlinear_arith)
            requires
                side(z) == 2 * h,
        ;
    }
}

proof fn lemma_levels(z1: nat, z2: nat)
    requires
        z1 < z2,
    ensures
        tiles_below(z1) + side(z1) * side(z1) <= tiles_below(z2),
    decreases z2,
{
    if z1 + 1 < z2 {
        lemma_levels(z1, (z2 - 1) as nat);
        let h = side((z2 - 1) as nat);
        assert(h * h >= 0) by (nonlinear_arith);
    }
}

/// A tile of a lower zoom level comes before every tile of a higher one.
pub proof fn levels_follow_each_other(z1: nat, x1: int, y1: int, z2: nat, x2: int, y2: int)
    requires
        z1 < z2,
        0 <= x1 < side(z1),
        0 <= y1 < side(z1),
        0 <= x2 < side(z2),
        0 <= y2 < side(z2),
    ensures
        tile_number(z1, x1, y1) < tile_number(z2, x2, y2),
{
    hilbert_range(z1, x1, y1);
    hilbert_range(z2, x2, y2);
    lemma_levels(z1, z2);
}

/// No two tiles of any zoom levels share a number.
pub proof fn tile_numbers_are_unique(z1: nat, x1: int, y1: int, z2: nat, x2: int, y2: int)
    requires
        0 <= x1 < side(z1),
        0 <= y1 < side(z1),
        0 <= x2 < side(z2),
        0 <= y2 < side(z2),
        tile_number(z1, x1, y1) == tile_number(z2, x2, y2),
    ensures
        z1 == z2,
        x1 == x2,
        y1 == y2,
{
    if z1 < z2 {
        levels_follow_each_other(z1, x1, y1, z2, x2, y2);
    } else if z2 < z1 {
        levels_follow_each_other(z2, x2, y2, z1, x1, y1);
    } else {
        hilbert_injective(z1, x1, y1, x2, y2);
    }
}

proof fn lemma_side_bound(z: nat)
    requires
        z <= 32,
    ensures
        1 <= side(z) <= 0x1_0000_0000,
        side(z) * side(z) <= 0x1_0000_0000_0000_0000,
        z <= 31 ==> side(z) <= 0x8000_0000,
        z <= 31 ==> side(z) * side(z) <= 0x4000_0000_0000_0000,
{
    lemma2_to64();
    lemma_pow2_pos(z);
    if z < 31 {
        lemma_pow2_strictly_increases(z, 31);
    }
    assert(side(z) * side(z) <= 0x1_0000_0000 * 0x1_0000_0000) by (nonlinear_arith)
        requires
            1 <= side(z) <= 0x1_0000_0000,
    ;
    if z <= 31 {
        assert(side(z) * side(z) <= 0x8000_0000 * 0x8000_0000) by (nonlinear_arith)
            requires
                1 <= side(z) <= 0x8000_0000,
        ;
    }
}

/// Number of the cell `(x, y)` on the Hilbert curve that fills the square of
/// side `n`, which is a power of two.
pub fn hilbert_xy_to_d(n: u64, x: u64, y: u64) -> (d: u64)
    requires
        exists|k: nat| k <= 32 && n == #[trigger] side(k),
        x < n,
        y < n,
    ensures
        forall|k: nat| n == #[trigger] side(k) ==> d == hilbert(k, x as int, y as int),
{
    let ghost order = choose|k: nat| k <= 32 && n == #[trigger] side(k);
    proof {
        lemma_side_zero();
        lemma_side_bound(order);
        hilbert_range(order, x as int, y as int);
    }
    let mut d: u64 = 0;
    let mut x: u64 = x;
    let mut y: u64 = y;
    let mut s: u64 = n / 2;
    let ghost goal = hilbert(order, x as int, y as int);
    let ghost mut k = order;
    proof {
        if k > 0 {
            lemma_side(k);
        }
    }
    while s > 0
        invariant
            k <= 32,
            0 <= goal < 0x1_0000_0000_0000_0000,
            k > 0 ==> s == side((k - 1) as nat),
            k == 0 ==> s == 0,
            0 <= x < side(k),
            0 <= y < side(k),
            d + hilbert(k, x as int, y as int) == goal,
        decreases s,
    {
        proof {
            lemma_side_zero();
            lemma_side(k);
            lemma_side_bound((k - 1) as nat);
            lemma_within(s as int, x as int, y as int);
            hilbert_range((k - 1) as nat, within(s as int, x as int, y as int).0, within(s as int, x as int, y as int).1);
        }
        let right: bool = x >= s;
        let upper: bool = y >= s;
        let q: u64 = if !right && !upper {
            0
        } else if !right {
            1
        } else if upper {
            2
        } else {
            3
        };
        let u: u64 = if right { x - s } else { x };
        let v: u64 = if upper { y - s } else { y };
        proof {
            assert(s * s * q >= 0) by (nonlinear_arith);
            assert(s * s <= 0x4000_0000_0000_0000);
        }
        d = d + s * s * q;
        if upper {
            x = u;
            y = v;
        } else if right {
            x = s - 1 - v;
            y = s - 1 - u;
        } else {
            x = v;
            y = u;
        }
        proof {
            k = (k - 1) as nat;
            if k > 0 {
                lemma_side(k);
            }
        }
        s = s / 2;
    }
    proof {
        if k > 0 {
            lemma_side(k);
        }
        assert forall|j: nat| n == #[trigger] side(j) implies d == goal && j == order by {
            if j < order {
                lemma_pow2_strictly_increases(j, order);
            } else if order < j {
                lemma_pow2_strictly_increases(order, j);
            }
        }
    }
    d
}

/// Number of the tile `(x, y)` of zoom level `z` in an archive.
pub fn tile_id(z: u8, x: u32, y: u32) -> (id: u64)
    requires
        z <= 31,
        x < side(z as nat),
        y < side(z as nat),
    ensures
        id == tile_number(z as nat, x as int, y as int),
{
    let mut n: u64 = 1;
    let mut i: u8 = 0;
    proof {
        lemma2_to64();
    }
    while i < z
        invariant
            i <= z <= 31,
            n == side(i as nat),
        decreases z - i,
    {
        proof {
            lemma_side((i + 1) as nat);
            lemma_side_bound((i + 1) as nat);
        }
        n = 2 * n;
        i += 1;
    }
    proof {
        lemma_side_bound(z as nat);
        lemma_tiles_below(z as nat);
        hilbert_range(z as nat, x as int, y as int);
    }
    (n * n - 1) / 3 + hilbert_xy_to_d(n, x as u64, y as u64)
}

} // verus!
