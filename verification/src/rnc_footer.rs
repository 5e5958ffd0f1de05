//! The footer of a `.rnc` file: extent, scale and coverage of the cell.
use vstd::arithmetic::power2::{
    lemma2_to64, lemma2_to64_rest, lemma_pow2_adds, lemma_pow2_pos, lemma_pow2_strictly_increases, lemma_pow2_unfold,
    pow2,
};
use vstd::prelude::*;
use crate::bbox::Bbox;
use crate::s57::{close_ring, closed_ring};
use crate::scalar::{Position, Real};
use crate::senc::rings::lists;

verus! {

/// The footer of a cell.
#[derive(Debug)]
pub struct RncFooter {
    pub lat0: Real,
    pub lat1: Real,
    pub lon0: Real,
    pub lon1: Real,
    /// Scale denominator.
    pub scale: Real,
    /// Edition date as `DD/MM/YYYY`.
    pub edate: String,
    /// Name for people.
    pub name: String,
    /// Coverage rings, each a flat list of coordinate pairs.
    pub cover: Vec<Vec<Real>>,
}

/// The extent of a cell in the projection of its grid. The north edge has the
/// smaller `y`.
#[derive(Debug, Clone, Copy, PartialEq, Eq, Structural)]
pub struct MercExtent {
    pub xmin: Real,
    pub ymin: Real,
    pub xmax: Real,
    pub ymax: Real,
}

impl MercExtent {
    /// The extent has an area.
    pub open spec fn proper(self) -> bool {
        self.xmin.below(self.xmax) && self.ymin.below(self.ymax)
    }
}

/// The coverage field as written: numbers, lists, or anything else.
#[derive(Debug)]
pub enum CoverItem {
    Number(Real),
    List(Vec<CoverItem>),
    Other,
}

// ── Place of the footer ──────────────────────────────────────────────────────

/// The first bytes of a footer: `{"cover"`.
pub open spec fn marker() -> Seq<u8> {
    seq![0x7Bu8, 0x22u8, 0x63u8, 0x6Fu8, 0x76u8, 0x65u8, 0x72u8, 0x22u8]
}

/// A footer may start at `at`.
pub open spec fn marker_at(data: Seq<u8>, at: int) -> bool {
    0 <= at && at + 8 <= data.len() && data.subrange(at, at + 8) == marker()
}

fn is_marker(data: &[u8], at: usize) -> (r: bool)
    requires
        at + 8 <= data@.len(),
    ensures
        r == marker_at(data@, at as int),
{
    let n: usize = data.len();
    let r: bool = data[at] == 0x7B && data[at + 1] == 0x22 && data[at + 2] == 0x63 && data[at + 3] == 0x6F && data[at
        + 4] == 0x76 && data[at + 5] == 0x65 && data[at + 6] == 0x72 && data[at + 7] == 0x22;
    proof {
        let s = data@.subrange(at as int, at + 8);
        let m = marker();
        assert(s[0] == data@[at as int] && s[1] == data@[at + 1] && s[2] == data@[at + 2] && s[3] == data@[at + 3]
            && s[4] == data@[at + 4] && s[5] == data@[at + 5] && s[6] == data@[at + 6] && s[7] == data@[at + 7]);
        assert(m[0] == 0x7B && m[1] == 0x22 && m[2] == 0x63 && m[3] == 0x6F && m[4] == 0x76 && m[5] == 0x65 && m[6]
            == 0x72 && m[7] == 0x22);
        if r {
            assert(s =~= m);
        }
    }
    r
}

/// Where the footer of a file starts: at the last marker.
pub fn footer_start(data: &[u8]) -> (r: Option<usize>)
    ensures
        match r {
            Some(at) => marker_at(data@, at as int) && forall|k: int| at < k ==> !(#[trigger] marker_at(data@, k)),
            None => forall|k: int| !(#[trigger] marker_at(data@, k)),
        },
{
    if data.len() < 8 {
        return None;
    }
    let mut at: usize = data.len() - 8;
    while at > 0 && !is_marker(data, at)
        invariant
            at + 8 <= data@.len(),
            forall|k: int| at < k ==> !(#[trigger] marker_at(data@, k)),
        decreases at,
    {
        at -= 1;
    }
    if is_marker(data, at) {
        Some(at)
    } else {
        None
    }
}

// ── Coverage rings ───────────────────────────────────────────────────────────

/// The numbers among the first `n` items.
pub open spec fn numbers_in(items: Seq<CoverItem>, n: int) -> Seq<Real>
    decreases n,
{
    if n <= 0 {
        Seq::empty()
    } else {
        match items[n - 1] {
            CoverItem::Number(v) => numbers_in(items, n - 1).push(v),
            _ => numbers_in(items, n - 1),
        }
    }
}

/// The numbers of one ring of a nested list; none where it is no list.
pub open spec fn ring_numbers(item: CoverItem) -> Seq<Real> {
    match item {
        CoverItem::List(items) => numbers_in(items@, items@.len() as int),
        _ => Seq::empty(),
    }
}

/// The rings that a coverage field gives. Where its first item is a list, every
/// item is a ring; otherwise its numbers are one ring, if there are any.
pub open spec fn rings_given(cover: CoverItem) -> Seq<Seq<Real>> {
    match cover {
        CoverItem::List(items) => if items@.len() > 0 && items@[0] is List {
            Seq::new(items@.len(), |i: int| ring_numbers(items@[i]))
        } else {
            let ring = numbers_in(items@, items@.len() as int);
            if ring.len() == 0 {
                Seq::empty()
            } else {
                seq![ring]
            }
        },
        _ => Seq::empty(),
    }
}

fn collect_numbers(items: &Vec<CoverItem>) -> (r: Vec<Real>)
    ensures
        r@ == numbers_in(items@, items@.len() as int),
{
    let mut out: Vec<Real> = Vec::new();
    let mut i: usize = 0;
    while i < items.len()
        invariant
            i <= items@.len(),
            out@ == numbers_in(items@, i as int),
        decreases items@.len() - i,
    {
        if let CoverItem::Number(v) = &items[i] {
            out.push(*v);
        }
        i += 1;
    }
    out
}

/// Brings a coverage field, flat or nested, into a list of rings.
pub fn normalize_cover(cover: &CoverItem) -> (r: Vec<Vec<Real>>)
    ensures
        lists(r@) == rings_given(*cover),
{
    let mut out: Vec<Vec<Real>> = Vec::new();
    match cover {
        CoverItem::List(items) => {
            let nested: bool = items.len() > 0 && match &items[0] {
                CoverItem::List(_) => true,
                _ => false,
            };
            if nested {
                let mut i: usize = 0;
                while i < items.len()
                    invariant
                        i <= items@.len(),
                        out@.len() == i,
                        forall|k: int| 0 <= k < i ==> (#[trigger] out@[k])@ == ring_numbers(items@[k]),
                    decreases items@.len() - i,
                {
                    let ring: Vec<Real> = match &items[i] {
                        CoverItem::List(inner) => collect_numbers(inner),
                        _ => Vec::new(),
                    };
                    assert(ring@ =~= ring_numbers(items@[i as int]));
                    out.push(ring);
                    i += 1;
                }
                assert(lists(out@) =~= rings_given(*cover));
            } else {
                let ring: Vec<Real> = collect_numbers(items);
                if ring.len() > 0 {
                    let ghost given = ring@;
                    out.push(ring);
                    assert(lists(out@) =~= seq![given]);
                } else {
                    assert(lists(out@) =~= Seq::empty());
                }
            }
        },
        _ => {
            assert(lists(out@) =~= Seq::empty());
        },
    }
    out
}

/// `out` is a ring of coordinate pairs in degrees, closed.
pub open spec fn unprojected<U: Fn(Real, Real) -> Position>(ring: Seq<Real>, out: Seq<Position>, unproject: U) -> bool {
    exists|pts: Seq<Position>|
        #![trigger closed_ring(pts)]
        pts.len() == ring.len() / 2 && (forall|i: int|
            0 <= i < pts.len() ==> call_ensures(unproject, (ring[2 * i], ring[2 * i + 1]), #[trigger] pts[i])) && out
            == closed_ring(pts)
}

/// The ring has at least three pairs, and no half pair.
pub open spec fn is_ring(ring: Seq<Real>) -> bool {
    ring.len() >= 6 && ring.len() % 2 == 0
}

/// The test said `broad` of the ring.
pub open spec fn judged<A: Fn(&Vec<Position>) -> bool>(has_area: A, ring: Seq<Position>, broad: bool) -> bool {
    exists|v: Vec<Position>| v@ == ring && #[trigger] call_ensures(has_area, (&v,), broad)
}

/// `out` are those of the first `n` rings that are rings at all and have an
/// area, in degrees and closed.
pub open spec fn covered_rings<U: Fn(Real, Real) -> Position, A: Fn(&Vec<Position>) -> bool>(
    rings: Seq<Seq<Real>>,
    out: Seq<Seq<Position>>,
    unproject: U,
    has_area: A,
    n: int,
) -> bool
    decreases n,
{
    if n <= 0 {
        out.len() == 0
    } else if !is_ring(rings[n - 1]) {
        covered_rings(rings, out, unproject, has_area, n - 1)
    } else {
        exists|pts: Seq<Position>, broad: bool|
            #![trigger unprojected(rings[n - 1], pts, unproject), judged(has_area, pts, broad)]
            unprojected(rings[n - 1], pts, unproject) && judged(has_area, pts, broad) && if broad {
                out.len() > 0 && out.last() == pts && covered_rings(rings, out.drop_last(), unproject, has_area, n - 1)
            } else {
                covered_rings(rings, out, unproject, has_area, n - 1)
            }
    }
}

/// The whole number nearest to the magnitude of a finite number, the larger one
/// of two that are equally near.
pub open spec fn nearest(v: Real) -> int {
    (2 * v.steps() + pow2(1074)) / (pow2(1075) as int)
}

/// A scale as a whole number from 1 to the largest of 32 bits; 0 where it is no
/// number.
pub open spec fn whole_scale(v: Real) -> u32 {
    if v.nan() {
        0
    } else if v.sign() == 1 {
        1
    } else if v.exponent() == 0x7FF || nearest(v) > u32::MAX {
        u32::MAX
    } else if nearest(v) < 1 {
        1
    } else {
        nearest(v) as u32
    }
}

proof fn lemma_small(v: Real)
    requires
        v.exponent() < 1023,
    ensures
        nearest(v) <= 1,
{
    let e = v.exponent();
    lemma2_to64();
    lemma2_to64_rest();
    lemma_pow2_adds(53, 1021);
    lemma_pow2_unfold(1075);
    let x = if e == 0 { 0 } else { e - 1 };
    let m = if e == 0 { v.fraction() } else { 0x10_0000_0000_0000 + v.fraction() };
    lemma_pow2_pos(x as nat);
    assert(v.steps() <= m * pow2(x as nat)) by (nonlinear_arith)
        requires
            v.steps() == v.fraction() && x == 0 && m == v.fraction() && pow2(0) == 1 || v.steps() == m * pow2(x as nat),
    ;
    if x < 1021 {
        lemma_pow2_strictly_increases(x as nat, 1021);
    }
    assert(m * pow2(x as nat) <= pow2(53) * pow2(1021)) by (nonlinear_arith)
        requires
            0 <= m <= pow2(53),
            0 <= pow2(x as nat) <= pow2(1021),
    ;
    lemma_pow2_pos(1074);
    let top = 2 * v.steps() + pow2(1074);
    assert(top <= 3 * pow2(1074));
    assert(top / (2 * pow2(1074) as int) <= 1) by (nonlinear_arith)
        requires
            top <= 3 * pow2(1074),
            pow2(1074) > 0,
    ;
}

proof fn lemma_large(v: Real)
    requires
        1055 <= v.exponent() < 0x7FF,
    ensures
        nearest(v) > u32::MAX,
{
    let x = (v.exponent() - 1) as nat;
    lemma2_to64();
    lemma2_to64_rest();
    lemma_pow2_adds(52, 1054);
    lemma_pow2_adds(32, 1074);
    lemma_pow2_unfold(1075);
    lemma_pow2_pos(1074);
    if x > 1054 {
        lemma_pow2_strictly_increases(1054, x);
    }
    let m = 0x10_0000_0000_0000 + v.fraction();
    assert(m * pow2(x) >= pow2(52) * pow2(1054)) by (nonlinear_arith)
        requires
            m >= pow2(52),
            pow2(x) >= pow2(1054),
            pow2(52) >= 0,
            pow2(1054) >= 0,
    ;
    let top = 2 * v.steps() + pow2(1074);
    let half = pow2(1074) as int;
    assert(top >= 0x1_0000_0000 * (2 * half));
    assert(top / (2 * half) >= 0x1_0000_0000) by (nonlinear_arith)
        requires
            top >= 0x1_0000_0000 * (2 * half),
            half > 0,
    ;
}

proof fn lemma_between(v: Real, m: int, s: nat)
    requires
        1023 <= v.exponent() <= 1054,
        m == 0x10_0000_0000_0000 + v.fraction(),
        s == 1075 - v.exponent(),
    ensures
        nearest(v) == (m + pow2((s - 1) as nat)) / (pow2(s) as int),
{
    let e = v.exponent() as nat;
    let c = pow2(e) as int;
    lemma_pow2_unfold(e);
    lemma_pow2_adds((s - 1) as nat, e);
    lemma_pow2_adds(s, e);
    lemma_pow2_pos(e);
    lemma_pow2_pos(s);
    let half = pow2((s - 1) as nat) as int;
    let d = pow2(s) as int;
    let p = pow2((e - 1) as nat) as int;
    assert(2 * (m * p) + half * c == c * (m + half)) by (nonlinear_arith)
        requires
            c == 2 * p,
    ;
    assert(d * c == c * d) by (nonlinear_arith);
    vstd::arithmetic::div_mod::lemma_div_multiples_vanish_quotient(c, m + half, d);
}

/// Rounds a scale to a whole number.
fn round_scale(v: Real) -> (n: u32)
    ensures
        n == whole_scale(v),
{
    if v.is_nan() {
        return 0;
    }
    if v.bits >= 0x8000_0000_0000_0000 {
        return 1;
    }
    let e: u64 = v.bits / 0x10_0000_0000_0000;
    let fraction: u64 = v.bits % 0x10_0000_0000_0000;
    assert(e == v.exponent());
    if e < 1023 {
        proof {
            lemma_small(v);
        }
        return 1;
    }
    if e > 1054 {
        proof {
            if e < 0x7FF {
                lemma_large(v);
            }
        }
        return u32::MAX;
    }
    let m: u64 = 0x10_0000_0000_0000 + fraction;
    let mut half: u64 = 0x10_0000;
    let mut s: u64 = 21;
    proof {
        lemma2_to64();
    }
    while s < 1075 - e
        invariant
            21 <= s <= 1075 - e,
            1023 <= e <= 1054,
            half == pow2((s - 1) as nat),
            half > 0,
            half <= 0x8_0000_0000_0000,
        decreases 1075 - e - s,
    {
        proof {
            lemma_pow2_unfold(s as nat);
            lemma2_to64_rest();
            if s < 51 {
                lemma_pow2_strictly_increases(s as nat, 51);
            }
        }
        half = 2 * half;
        s += 1;
    }
    proof {
        lemma_between(v, m as int, s as nat);
        lemma_pow2_unfold(s as nat);
        assert((m + half) as int / (2 * half) >= 1) by (nonlinear_arith)
            requires
                m >= half,
                half > 0,
        ;
    }
    let n: u64 = (m + half) / (2 * half);
    if n > u32::MAX as u64 {
        u32::MAX
    } else {
        n as u32
    }
}

/// The corners of a rectangle as a closed ring, from the south-west on.
pub open spec fn rectangle(b: Bbox) -> Seq<Position> {
    seq![
        Position { lon: b.west, lat: b.south },
        Position { lon: b.east, lat: b.south },
        Position { lon: b.east, lat: b.north },
        Position { lon: b.west, lat: b.north },
        Position { lon: b.west, lat: b.south },
    ]
}

fn unproject_ring<U: Fn(Real, Real) -> Position>(ring: &Vec<Real>, unproject: &U) -> (out: Vec<Position>)
    requires
        forall|x: Real, y: Real| call_requires(*unproject, (x, y)),
    ensures
        unprojected(ring@, out@, *unproject),
{
    let half: usize = ring.len() / 2;
    let mut out: Vec<Position> = Vec::new();
    let mut i: usize = 0;
    while i < half
        invariant
            i <= half,
            2 * half <= ring@.len() <= usize::MAX,
            forall|x: Real, y: Real| call_requires(*unproject, (x, y)),
            out@.len() == i,
            forall|k: int|
                0 <= k < i ==> call_ensures(*unproject, (ring@[2 * k], ring@[2 * k + 1]), #[trigger] out@[k]),
        decreases half - i,
    {
        out.push(unproject(ring[2 * i], ring[2 * i + 1]));
        i += 1;
    }
    let ghost pts = out@;
    let ring: Vec<Position> = close_ring(out);
    assert(ring@ == closed_ring(pts));
    ring
}

impl RncFooter {
    /// The extent, its corners in order.
    pub open spec fn extent(&self) -> Bbox {
        Bbox {
            west: if self.lon0.at_most(self.lon1) {
                self.lon0
            } else {
                self.lon1
            },
            south: if self.lat0.at_most(self.lat1) {
                self.lat0
            } else {
                self.lat1
            },
            east: if self.lon0.at_most(self.lon1) {
                self.lon1
            } else {
                self.lon0
            },
            north: if self.lat0.at_most(self.lat1) {
                self.lat1
            } else {
                self.lat0
            },
        }
    }

    /// The extent of the cell. The footer may name the corners in any order.
    pub fn wgs84_bbox(&self) -> (b: Bbox)
        ensures
            b == self.extent(),
    {
        let east_first: bool = !self.lon0.le(self.lon1);
        let north_first: bool = !self.lat0.le(self.lat1);
        Bbox {
            west: if east_first { self.lon1 } else { self.lon0 },
            south: if north_first { self.lat1 } else { self.lat0 },
            east: if east_first { self.lon0 } else { self.lon1 },
            north: if north_first { self.lat0 } else { self.lat1 },
        }
    }

    /// `m` is the extent in the projection that `project` computes, from the
    /// north-west to the south-east corner.
    pub open spec fn projects_to<P: Fn(Real, Real) -> (Real, Real)>(&self, project: P, m: MercExtent) -> bool {
        let b = self.extent();
        exists|nw: (Real, Real), se: (Real, Real)|
            #![trigger call_ensures(project, (b.west, b.north), nw), call_ensures(project, (b.east, b.south), se)]
            {
                &&& call_ensures(project, (b.west, b.north), nw)
                &&& call_ensures(project, (b.east, b.south), se)
                &&& m == (MercExtent {
                    xmin: nw.0,
                    ymin: nw.1.smaller(se.1),
                    xmax: se.0,
                    ymax: nw.1.larger(se.1),
                })
            }
    }

    /// The extent in the projection of the grid. `project` takes a longitude and a
    /// latitude there.
    pub fn merc_bbox<P: Fn(Real, Real) -> (Real, Real)>(&self, project: &P) -> (m: MercExtent)
        requires
            forall|lon: Real, lat: Real| call_requires(*project, (lon, lat)),
        ensures
            self.projects_to(*project, m),
    {
        let b: Bbox = self.wgs84_bbox();
        let nw: (Real, Real) = project(b.west, b.north);
        let se: (Real, Real) = project(b.east, b.south);
        assert(call_ensures(*project, (b.west, b.north), nw));
        assert(call_ensures(*project, (b.east, b.south), se));
        MercExtent { xmin: nw.0, ymin: nw.1.min(se.1), xmax: se.0, ymax: nw.1.max(se.1) }
    }

    /// The scale denominator as a whole number.
    pub fn native_scale(&self) -> (n: u32)
        ensures
            n == whole_scale(self.scale),
    {
        round_scale(self.scale)
    }

    /// `out` is the coverage of the cell: its rings that have an area, or else the
    /// rectangle of its extent.
    pub open spec fn covers<U: Fn(Real, Real) -> Position, A: Fn(&Vec<Position>) -> bool>(
        &self,
        out: Seq<Seq<Position>>,
        unproject: U,
        has_area: A,
    ) -> bool {
        exists|kept: Seq<Seq<Position>>| #[trigger]
            covered_rings(lists(self.cover@), kept, unproject, has_area, self.cover@.len() as int) && out == (
            if kept.len() > 0 {
                kept
            } else {
                seq![rectangle(self.extent())]
            })
    }

    /// The coverage of the cell: its rings that have an area, each of them an
    /// exterior of its own, or else the rectangle of its extent. `unproject` puts
    /// a pair of coordinates in degrees and `has_area` says whether a ring has
    /// one.
    pub fn coverage<U: Fn(Real, Real) -> Position, A: Fn(&Vec<Position>) -> bool>(
        &self,
        unproject: U,
        has_area: A,
    ) -> (r: Vec<Vec<Position>>)
        requires
            forall|x: Real, y: Real| call_requires(unproject, (x, y)),
            forall|v: &Vec<Position>| call_requires(has_area, (v,)),
        ensures
            self.covers(lists(r@), unproject, has_area),
    {
        let mut out: Vec<Vec<Position>> = Vec::new();
        let mut i: usize = 0;
        while i < self.cover.len()
            invariant
                i <= self.cover@.len(),
                forall|x: Real, y: Real| call_requires(unproject, (x, y)),
                forall|v: &Vec<Position>| call_requires(has_area, (v,)),
                covered_rings(lists(self.cover@), lists(out@), unproject, has_area, i as int),
            decreases self.cover@.len() - i,
        {
            let ring: &Vec<Real> = &self.cover[i];
            let ghost all = lists(self.cover@);
            assert(all[i as int] == ring@);
            if ring.len() >= 6 && ring.len() % 2 == 0 {
                let pts: Vec<Position> = unproject_ring(ring, &unproject);
                let broad: bool = has_area(&pts);
                let ghost p = pts@;
                assert(judged(has_area, p, broad));
                assert(unprojected(all[i as int], p, unproject));
                if broad {
                    let ghost before = out@;
                    out.push(pts);
                    assert(lists(out@).drop_last() =~= lists(before));
                    assert(lists(out@).last() == p);
                }
            }
            i += 1;
        }
        let ghost kept = lists(out@);
        if out.len() == 0 {
            let b: Bbox = self.wgs84_bbox();
            let ring: Vec<Position> = vec![
                Position { lon: b.west, lat: b.south },
                Position { lon: b.east, lat: b.south },
                Position { lon: b.east, lat: b.north },
                Position { lon: b.west, lat: b.north },
                Position { lon: b.west, lat: b.south },
            ];
            assert(ring@ =~= rectangle(b));
            out.push(ring);
            assert(lists(out@) =~= seq![rectangle(b)]);
        }
        out
    }
}

/// Whatever order the footer names the corners in, the extent of numbers is not
/// inverted.
pub proof fn extent_is_ordered(f: RncFooter)
    requires
        !f.lat0.nan(),
        !f.lat1.nan(),
        !f.lon0.nan(),
        !f.lon1.nan(),
    ensures
        !f.extent().inverted(),
{
}

/// A footer begins with the characters `{"cover"`.
pub proof fn the_marker_spells_cover()
    ensures
        marker().len() == "{\"cover\""@.len(),
        forall|i: int| 0 <= i < marker().len() ==> #[trigger] marker()[i] as int == "{\"cover\""@[i] as int,
{
    reveal_strlit("{\"cover\"");
}

proof fn lemma_numbers(items: Seq<CoverItem>, numbers: Seq<Real>, n: int)
    requires
        0 <= n <= items.len(),
        numbers.len() == items.len(),
        forall|i: int| 0 <= i < items.len() ==> #[trigger] items[i] == CoverItem::Number(numbers[i]),
    ensures
        numbers_in(items, n) == numbers.take(n),
    decreases n,
{
    if n > 0 {
        lemma_numbers(items, numbers, n - 1);
        assert(items[n - 1] == CoverItem::Number(numbers[n - 1]));
        assert(numbers.take(n) =~= numbers.take(n - 1).push(numbers[n - 1]));
    } else {
        assert(numbers.take(n) =~= Seq::empty());
    }
}

/// A flat list of numbers is one ring with these numbers in their order.
pub proof fn a_flat_list_is_one_ring(items: Vec<CoverItem>, numbers: Seq<Real>)
    requires
        numbers.len() == items@.len(),
        numbers.len() > 0,
        forall|i: int| 0 <= i < items@.len() ==> #[trigger] items@[i] == CoverItem::Number(numbers[i]),
    ensures
        rings_given(CoverItem::List(items)) == seq![numbers],
{
    lemma_numbers(items@, numbers, numbers.len() as int);
    assert(items@[0] == CoverItem::Number(numbers[0]));
    assert(numbers.take(numbers.len() as int) =~= numbers);
}

/// A list of lists of numbers is one ring for each, in their order.
pub proof fn a_nested_list_is_its_rings(items: Vec<CoverItem>, rings: Seq<Seq<Real>>, k: int, inner: Vec<CoverItem>)
    requires
        rings.len() == items@.len(),
        0 <= k < rings.len(),
        forall|i: int| 0 <= i < items@.len() ==> (#[trigger] items@[i]) is List,
        items@[k] == CoverItem::List(inner),
        rings[k].len() == inner@.len(),
        forall|i: int| 0 <= i < inner@.len() ==> #[trigger] inner@[i] == CoverItem::Number(rings[k][i]),
    ensures
        rings_given(CoverItem::List(items)).len() == rings.len(),
        rings_given(CoverItem::List(items))[k] == rings[k],
{
    assert(items@[0] is List);
    lemma_numbers(inner@, rings[k], inner@.len() as int);
    assert(rings[k].take(inner@.len() as int) =~= rings[k]);
}

/// The extent of a cell has its west and east from the two longitudes of the
/// footer, its south and north from the two latitudes.
pub proof fn the_extent_has_the_corners_of_the_footer(f: RncFooter)
    ensures
        (f.extent().west == f.lon0 && f.extent().east == f.lon1) || (f.extent().west == f.lon1 && f.extent().east
            == f.lon0),
        (f.extent().south == f.lat0 && f.extent().north == f.lat1) || (f.extent().south == f.lat1 && f.extent().north
            == f.lat0),
        !f.lon0.nan() && !f.lon1.nan() ==> f.extent().west.at_most(f.extent().east),
        !f.lat0.nan() && !f.lat1.nan() ==> f.extent().south.at_most(f.extent().north),
{
}

/// The projected extent reaches from the projected north-west corner to the
/// projected south-east one, and the lesser of their vertical coordinates comes
/// first.
pub proof fn the_projected_extent_joins_the_corners<P: Fn(Real, Real) -> (Real, Real)>(
    f: RncFooter,
    project: P,
    m: MercExtent,
    nw: (Real, Real),
    se: (Real, Real),
)
    requires
        f.projects_to(project, m),
        forall|q: (Real, Real)| call_ensures(project, (f.extent().west, f.extent().north), q) ==> q == nw,
        forall|q: (Real, Real)| call_ensures(project, (f.extent().east, f.extent().south), q) ==> q == se,
        !nw.1.nan(),
        !se.1.nan(),
    ensures
        m.xmin == nw.0,
        m.xmax == se.0,
        m.ymin.at_most(nw.1) && m.ymin.at_most(se.1) && (m.ymin == nw.1 || m.ymin == se.1),
        nw.1.at_most(m.ymax) && se.1.at_most(m.ymax) && (m.ymax == nw.1 || m.ymax == se.1),
{
}

/// A ring of the coverage has the unprojected pairs of the footer in their order,
/// the first number of a pair before the second, and ends where it begins.
pub proof fn coverage_rings_are_the_unprojected_pairs<U: Fn(Real, Real) -> Position>(
    ring: Seq<Real>,
    out: Seq<Position>,
    unproject: U,
    i: int,
)
    requires
        is_ring(ring),
        unprojected(ring, out, unproject),
        0 <= i < ring.len() / 2,
    ensures
        out.len() == ring.len() / 2 || out.len() == ring.len() / 2 + 1,
        call_ensures(unproject, (ring[2 * i], ring[2 * i + 1]), out[i]),
        out.last() == out[0] || out.last().coincides(out[0]) || out[0].coincides(out.last()),
{
    let pts = choose|pts: Seq<Position>|
        #![trigger closed_ring(pts)]
        pts.len() == ring.len() / 2 && (forall|i: int|
            0 <= i < pts.len() ==> call_ensures(unproject, (ring[2 * i], ring[2 * i + 1]), #[trigger] pts[i])) && out
            == closed_ring(pts);
    assert(out[i] == pts[i]);
}

/// A scale is rounded to the nearest whole number: twice the number and twice the
/// scale differ by at most one.
pub proof fn scales_are_rounded_to_the_nearest(v: Real)
    requires
        !v.nan(),
        v.sign() == 0,
        v.exponent() < 0x7FF,
        1 <= nearest(v) <= u32::MAX,
    ensures
        whole_scale(v) == nearest(v),
        2 * v.steps() - pow2(1074) < whole_scale(v) * (2 * pow2(1074)) <= 2 * v.steps() + pow2(1074),
{
    lemma_pow2_unfold(1075);
    lemma_pow2_pos(1074);
    let half = pow2(1074) as int;
    let top = 2 * v.steps() + half;
    let q = top / (2 * half);
    vstd::arithmetic::div_mod::lemma_fundamental_div_mod(top, 2 * half);
    vstd::arithmetic::div_mod::lemma_mod_bound(top, 2 * half);
    assert(q * (2 * half) == (2 * half) * q) by (nonlinear_arith);
}

/// A scale below a half, or none above 0, counts as 1; one that is no number as 0,
/// and one beyond 32 bits as the greatest number of 32 bits.
pub proof fn scales_are_kept_in_range(v: Real)
    ensures
        v.nan() ==> whole_scale(v) == 0,
        !v.nan() ==> whole_scale(v) >= 1,
        !v.nan() && v.sign() == 1 ==> whole_scale(v) == 1,
        !v.nan() && v.sign() == 0 && v.exponent() < 1022 ==> whole_scale(v) == 1,
        !v.nan() && v.sign() == 0 && v.exponent() >= 1055 ==> whole_scale(v) == u32::MAX,
{
    if v.exponent() < 1023 {
        lemma_small(v);
    }
    if 1055 <= v.exponent() < 0x7FF {
        lemma_large(v);
    }
}

proof fn lemma_kept_rings<U: Fn(Real, Real) -> Position, A: Fn(&Vec<Position>) -> bool>(
    rings: Seq<Seq<Real>>,
    out: Seq<Seq<Position>>,
    unproject: U,
    has_area: A,
    n: int,
) -> (at: Seq<int>)
    requires
        covered_rings(rings, out, unproject, has_area, n),
        0 <= n <= rings.len(),
    ensures
        at.len() == out.len(),
        forall|k: int|
            0 <= k < at.len() ==> 0 <= #[trigger] at[k] < n && is_ring(rings[at[k]]) && unprojected(
                rings[at[k]],
                out[k],
                unproject,
            ) && judged(has_area, out[k], true),
        forall|k: int, l: int| 0 <= k < l < at.len() ==> at[k] < at[l],
        forall|i: int|
            0 <= i < n && is_ring(#[trigger] rings[i]) && !at.contains(i) ==> exists|pts: Seq<Position>|
                unprojected(rings[i], pts, unproject) && #[trigger] judged(has_area, pts, false),
    decreases n,
{
    if n <= 0 {
        Seq::empty()
    } else if !is_ring(rings[n - 1]) {
        lemma_kept_rings(rings, out, unproject, has_area, n - 1)
    } else {
        let (pts, broad) = choose|pts: Seq<Position>, broad: bool|
            #![trigger unprojected(rings[n - 1], pts, unproject), judged(has_area, pts, broad)]
            unprojected(rings[n - 1], pts, unproject) && judged(has_area, pts, broad) && if broad {
                out.len() > 0 && out.last() == pts && covered_rings(rings, out.drop_last(), unproject, has_area, n - 1)
            } else {
                covered_rings(rings, out, unproject, has_area, n - 1)
            };
        if broad {
            let before = lemma_kept_rings(rings, out.drop_last(), unproject, has_area, n - 1);
            let at = before.push(n - 1);
            assert forall|k: int| 0 <= k < at.len() implies 0 <= #[trigger] at[k] < n && is_ring(rings[at[k]])
                && unprojected(rings[at[k]], out[k], unproject) && judged(has_area, out[k], true) by {
                if k < before.len() {
                    assert(at[k] == before[k]);
                    assert(out.drop_last()[k] == out[k]);
                }
            }
            assert(at[before.len() as int] == n - 1);
            assert forall|i: int| 0 <= i < n && is_ring(#[trigger] rings[i]) && !at.contains(i) implies exists|
                pts: Seq<Position>,
            | unprojected(rings[i], pts, unproject) && #[trigger] judged(has_area, pts, false) by {
                if before.contains(i) {
                    let k = choose|k: int| 0 <= k < before.len() && before[k] == i;
                    assert(at[k] == i);
                }
            }
            at
        } else {
            lemma_kept_rings(rings, out, unproject, has_area, n - 1)
        }
    }
}

/// Every ring of at least three pairs that is found to have an area is part of the
/// coverage, in the order of the footer.
pub proof fn rings_with_an_area_cover<U: Fn(Real, Real) -> Position, A: Fn(&Vec<Position>) -> bool>(
    f: RncFooter,
    out: Seq<Seq<Position>>,
    unproject: U,
    has_area: A,
    i: int,
    j: int,
) -> (kl: (int, int))
    requires
        f.covers(out, unproject, has_area),
        0 <= i < j < f.cover@.len(),
        f.cover@[i]@.len() >= 6 && f.cover@[i]@.len() % 2 == 0,
        f.cover@[j]@.len() >= 6 && f.cover@[j]@.len() % 2 == 0,
        forall|pts: Seq<Position>| !#[trigger] judged(has_area, pts, false),
    ensures
        0 <= kl.0 < kl.1 < out.len(),
        unprojected(f.cover@[i]@, out[kl.0], unproject),
        unprojected(f.cover@[j]@, out[kl.1], unproject),
{
    let rings = lists(f.cover@);
    let kept = choose|kept: Seq<Seq<Position>>| #[trigger]
        covered_rings(rings, kept, unproject, has_area, f.cover@.len() as int) && out == (if kept.len() > 0 {
            kept
        } else {
            seq![rectangle(f.extent())]
        });
    let at = lemma_kept_rings(rings, kept, unproject, has_area, f.cover@.len() as int);
    assert(is_ring(rings[i]) && is_ring(rings[j]));
    assert(at.contains(i) && at.contains(j));
    let k = choose|k: int| 0 <= k < at.len() && at[k] == i;
    let l = choose|l: int| 0 <= l < at.len() && at[l] == j;
    if l < k {
        assert(at[l] < at[k]);
    }
    assert(at[k] == i && at[l] == j);
    (k, l)
}

/// A cell in whose footer no list of numbers has three pairs covers the rectangle of
/// its extent, corner by corner.
pub proof fn a_cell_without_rings_covers_its_extent<U: Fn(Real, Real) -> Position, A: Fn(&Vec<Position>) -> bool>(
    f: RncFooter,
    out: Seq<Seq<Position>>,
    unproject: U,
    has_area: A,
)
    requires
        f.covers(out, unproject, has_area),
        forall|i: int| 0 <= i < f.cover@.len() ==> (#[trigger] f.cover@[i])@.len() < 6,
    ensures
        out.len() == 1,
        out[0].len() == 5,
        out[0][0].lon == f.extent().west && out[0][0].lat == f.extent().south,
        out[0][1].lon == f.extent().east && out[0][1].lat == f.extent().south,
        out[0][2].lon == f.extent().east && out[0][2].lat == f.extent().north,
        out[0][3].lon == f.extent().west && out[0][3].lat == f.extent().north,
        out[0][4] == out[0][0],
{
    let rings = lists(f.cover@);
    let kept = choose|kept: Seq<Seq<Position>>| #[trigger]
        covered_rings(rings, kept, unproject, has_area, f.cover@.len() as int) && out == (if kept.len() > 0 {
            kept
        } else {
            seq![rectangle(f.extent())]
        });
    let at = lemma_kept_rings(rings, kept, unproject, has_area, f.cover@.len() as int);
    if at.len() > 0 {
        assert(is_ring(rings[at[0]]));
        assert(f.cover@[at[0]]@.len() < 6);
    }
}

} // verus!
