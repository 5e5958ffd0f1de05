//! Coverage as a union of rectangles.
//!
//! Unlike the bounding hull of two rectangles, their union does not claim the
//! corners that neither of them covers.
use vstd::prelude::*;
use crate::bbox::{high_edge, low_edge, Bbox};
use crate::lattice::BoundedLattice;
use crate::scalar::Real;

verus! {

/// A union of rectangles, which may overlap each other. One union is above
/// another where it covers all of its points.
#[derive(Debug)]
pub struct RectUnion {
    rects: Vec<Bbox>,
}

/// One of the rectangles has the point `(x, y)`.
pub open spec fn any_has(rects: Seq<Bbox>, x: int, y: int) -> bool {
    exists|i: int| 0 <= i < rects.len() && (#[trigger] rects[i]).has(x, y)
}

impl View for RectUnion {
    type V = Set<(int, int)>;

    /// The points that the union covers, in half steps of rank.
    closed spec fn view(&self) -> Set<(int, int)> {
        Set::new(|p: (int, int)| any_has(self.rects@, p.0, p.1))
    }
}

/// The points of one rectangle.
pub open spec fn region(b: Bbox) -> Set<(int, int)> {
    Set::new(|p: (int, int)| b.has(p.0, p.1))
}

/// Those of the first `n` rectangles that are not wholly within `area`. One with
/// a NaN for an edge never is.
pub open spec fn left_over(rects: Seq<Bbox>, area: Set<(int, int)>, n: int) -> Seq<Bbox>
    decreases n,
{
    if n <= 0 {
        Seq::empty()
    } else if rects[n - 1].regular() && region(rects[n - 1]).subset_of(area) {
        left_over(rects, area, n - 1)
    } else {
        left_over(rects, area, n - 1).push(rects[n - 1])
    }
}

/// The edges of a rectangle, in half steps of rank.
#[derive(Clone, Copy)]
struct Span {
    x0: i128,
    x1: i128,
    y0: i128,
    y1: i128,
}

impl Span {
    spec fn of(b: Bbox) -> Span {
        Span {
            x0: low_edge(b.west) as i128,
            x1: high_edge(b.east) as i128,
            y0: low_edge(b.south) as i128,
            y1: high_edge(b.north) as i128,
        }
    }

    spec fn has(self, x: int, y: int) -> bool {
        self.x0 <= x <= self.x1 && self.y0 <= y <= self.y1
    }

    fn new(b: &Bbox) -> (s: Span)
        ensures
            s == Span::of(*b),
            -0x1_0000_0000_0000_0000 < s.x0 < 0x1_0000_0000_0000_0000,
            -0x1_0000_0000_0000_0000 < s.x1 < 0x1_0000_0000_0000_0000,
            -0x1_0000_0000_0000_0000 < s.y0 < 0x1_0000_0000_0000_0000,
            -0x1_0000_0000_0000_0000 < s.y1 < 0x1_0000_0000_0000_0000,
            forall|x: int, y: int| s.has(x, y) == b.has(x, y),
    {
        Span {
            x0: lower(b.west),
            x1: upper(b.east),
            y0: lower(b.south),
            y1: upper(b.north),
        }
    }
}

fn lower(v: Real) -> (r: i128)
    ensures
        r == low_edge(v),
{
    if v.is_nan() {
        -2 * 0x7FF0_0000_0000_0000
    } else {
        2 * (v.rank_value() as i128)
    }
}

fn upper(v: Real) -> (r: i128)
    ensures
        r == high_edge(v),
{
    if v.is_nan() {
        2 * 0x7FF0_0000_0000_0000
    } else {
        2 * (v.rank_value() as i128)
    }
}

spec fn in_some(ranges: Seq<(i128, i128)>, y: int) -> bool {
    exists|i: int| 0 <= i < ranges.len() && (#[trigger] ranges[i]).0 <= y <= ranges[i].1
}

spec fn by_start(ranges: Seq<(i128, i128)>) -> bool {
    forall|i: int, j: int| 0 <= i <= j < ranges.len() ==> (#[trigger] ranges[i]).0 <= (#[trigger] ranges[j]).0
}

spec fn ends_bounded(ranges: Seq<(i128, i128)>) -> bool {
    forall|i: int| 0 <= i < ranges.len() ==> (#[trigger] ranges[i]).1 < 0x1_0000_0000_0000_0000
}

/// Puts a range into a list that is ordered by start.
fn insert_range(ranges: &mut Vec<(i128, i128)>, r: (i128, i128))
    requires
        by_start(old(ranges)@),
        ends_bounded(old(ranges)@),
        r.1 < 0x1_0000_0000_0000_0000,
    ensures
        by_start(final(ranges)@),
        ends_bounded(final(ranges)@),
        forall|y: int|
            in_some(final(ranges)@, y) <==> in_some(old(ranges)@, y) || r.0 <= y <= r.1,
{
    let ghost before = ranges@;
    let mut at: usize = ranges.len();
    while at > 0 && ranges[at - 1].0 > r.0
        invariant
            at <= ranges@.len(),
            ranges@ == before,
            forall|k: int| at <= k < before.len() ==> (#[trigger] before[k]).0 > r.0,
        decreases at,
    {
        at -= 1;
    }
    ranges.insert(at, r);
    proof {
        let after = ranges@;
        assert(after == before.insert(at as int, r));
        assert forall|i: int| 0 <= i < after.len() implies (#[trigger] after[i]).1 < 0x1_0000_0000_0000_0000 by {
            if i < at {
                assert(after[i] == before[i]);
            } else if i > at {
                assert(after[i] == before[i - 1]);
            }
        }
        assert forall|i: int, j: int| 0 <= i <= j < after.len() implies (#[trigger] after[i]).0 <= (
        #[trigger] after[j]).0 by {
            if at > 0 {
                assert(before[at - 1].0 <= r.0);
            }
            let bi = if i < at { i } else { i - 1 };
            let bj = if j < at { j } else { j - 1 };
            if i != at && j != at {
                assert(before[bi].0 <= before[bj].0);
            } else if i != at {
                assert(before[bi].0 <= before[at - 1].0);
            } else if j != at {
                assert(before[bj].0 > r.0);
            }
        }
        assert forall|y: int| in_some(after, y) <==> in_some(before, y) || r.0 <= y <= r.1 by {
            if in_some(after, y) {
                let i = choose|i: int| 0 <= i < after.len() && (#[trigger] after[i]).0 <= y <= after[i].1;
                if i < at {
                    assert(before[i] == after[i]);
                } else if i > at {
                    assert(before[i - 1] == after[i]);
                }
            }
            if in_some(before, y) {
                let i = choose|i: int| 0 <= i < before.len() && (#[trigger] before[i]).0 <= y <= before[i].1;
                if i < at {
                    assert(before[i] == after[i]);
                } else {
                    assert(before[i] == after[i + 1]);
                }
            }
            if r.0 <= y <= r.1 {
                assert(after[at as int] == r);
            }
        }
    }
}

/// Whether the ranges, ordered by start, leave no gap from `lo` to `hi`.
fn covers_interval(ranges: &Vec<(i128, i128)>, lo: i128, hi: i128) -> (r: bool)
    requires
        by_start(ranges@),
        -0x1_0000_0000_0000_0000 < lo < 0x1_0000_0000_0000_0000,
        hi < 0x1_0000_0000_0000_0000,
        ends_bounded(ranges@),
    ensures
        r == forall|y: int| lo <= y <= hi ==> #[trigger] in_some(ranges@, y),
{
    let mut covered: i128 = lo - 1;
    let mut i: usize = 0;
    while i < ranges.len() && covered < hi
        invariant
            i <= ranges@.len(),
            by_start(ranges@),
            lo - 1 <= covered < 0x1_0000_0000_0000_0000,
            -0x1_0000_0000_0000_0000 < lo,
            ends_bounded(ranges@),
            forall|k: int| 0 <= k < i ==> (#[trigger] ranges@[k]).1 <= covered,
            forall|y: int| lo <= y <= covered ==> in_some(ranges@, y),
        decreases ranges@.len() - i,
    {
        let (s, n) = ranges[i];
        if s > covered + 1 {
            proof {
                let y = covered + 1;
                if in_some(ranges@, y) {
                    let k = choose|k: int| 0 <= k < ranges@.len() && (#[trigger] ranges@[k]).0 <= y <= ranges@[k].1;
                    if k < i {
                        assert(ranges@[k].1 <= covered);
                    } else {
                        assert(ranges@[i as int].0 <= ranges@[k].0);
                    }
                }
                assert(!in_some(ranges@, y));
                assert(lo <= y <= hi);
            }
            return false;
        }
        if n > covered {
            proof {
                assert forall|y: int| lo <= y <= n implies in_some(ranges@, y) by {
                    if y > covered {
                        assert(ranges@[i as int].0 <= y <= ranges@[i as int].1);
                    }
                }
            }
            covered = n;
        }
        i += 1;
    }
    if covered < hi {
        proof {
            let y = covered + 1;
            if in_some(ranges@, y) {
                let k = choose|k: int| 0 <= k < ranges@.len() && (#[trigger] ranges@[k]).0 <= y <= ranges@[k].1;
                assert(ranges@[k].1 <= covered);
            }
            assert(!in_some(ranges@, y));
            assert(lo <= y <= hi);
        }
        return false;
    }
    true
}

spec fn bounded(spans: Seq<Span>) -> bool {
    forall|i: int|
        0 <= i < spans.len() ==> {
            &&& -0x1_0000_0000_0000_0000 < (#[trigger] spans[i]).x0 < 0x1_0000_0000_0000_0000
            &&& -0x1_0000_0000_0000_0000 < spans[i].x1 < 0x1_0000_0000_0000_0000
            &&& -0x1_0000_0000_0000_0000 < spans[i].y0 < 0x1_0000_0000_0000_0000
            &&& -0x1_0000_0000_0000_0000 < spans[i].y1 < 0x1_0000_0000_0000_0000
        }
}

spec fn span_has(spans: Seq<Span>, x: int, y: int) -> bool {
    exists|i: int| 0 <= i < spans.len() && (#[trigger] spans[i]).has(x, y)
}

/// The whole column of `t` at `x` is covered.
spec fn column_covered(spans: Seq<Span>, t: Span, x: int) -> bool {
    forall|y: int| t.y0 <= y <= t.y1 ==> #[trigger] span_has(spans, x, y)
}

/// Whether the rectangles that span the column at `x` cover it.
fn covers_column(spans: &Vec<Span>, t: Span, x: i128) -> (r: bool)
    requires
        bounded(spans@),
        bounded(seq![t]),
    ensures
        r == column_covered(spans@, t, x as int),
{
    proof {
        assert(seq![t][0] == t);
    }
    let mut ranges: Vec<(i128, i128)> = Vec::new();
    let mut i: usize = 0;
    while i < spans.len()
        invariant
            i <= spans@.len(),
            bounded(spans@),
            by_start(ranges@),
            ends_bounded(ranges@),
            forall|y: int| #[trigger] in_some(ranges@, y) <==> span_has(spans@.take(i as int), x as int, y),
        decreases spans@.len() - i,
    {
        let s: Span = spans[i];
        let ghost before = ranges@;
        proof {
            assert(spans@.take(i + 1) =~= spans@.take(i as int).push(s));
        }
        if s.x0 <= x && x <= s.x1 {
            insert_range(&mut ranges, (s.y0, s.y1));
        }
        proof {
            let old_part = spans@.take(i as int);
            let new_part = spans@.take(i + 1);
            assert forall|y: int| #[trigger] in_some(ranges@, y) <==> span_has(new_part, x as int, y) by {
                assert(in_some(before, y) <==> span_has(old_part, x as int, y));
                if span_has(old_part, x as int, y) {
                    let k = choose|k: int| 0 <= k < old_part.len() && (#[trigger] old_part[k]).has(x as int, y);
                    assert(new_part[k] == old_part[k]);
                }
                if span_has(new_part, x as int, y) {
                    let k = choose|k: int| 0 <= k < new_part.len() && (#[trigger] new_part[k]).has(x as int, y);
                    if k < i {
                        assert(old_part[k] == new_part[k]);
                    }
                }
                if s.has(x as int, y) {
                    assert(new_part[i as int] == s);
                }
            }
        }
        i += 1;
    }
    assert(spans@.take(i as int) =~= spans@);
    let r: bool = covers_interval(&ranges, t.y0, t.y1);
    proof {
        if column_covered(spans@, t, x as int) {
            assert forall|y: int| t.y0 <= y <= t.y1 implies #[trigger] in_some(ranges@, y) by {
                assert(span_has(spans@, x as int, y));
            }
        }
        if r {
            assert forall|y: int| t.y0 <= y <= t.y1 implies #[trigger] span_has(spans@, x as int, y) by {
                assert(in_some(ranges@, y));
            }
        }
    }
    r
}

/// Every column of `t` is covered where those are that follow the west edge of
/// `t` or the east edge of a rectangle.
proof fn lemma_columns(spans: Seq<Span>, t: Span, x: int)
    requires
        t.x0 <= x <= t.x1,
        column_covered(spans, t, t.x0 as int),
        forall|i: int|
            0 <= i < spans.len() && t.x0 < (#[trigger] spans[i]).x1 + 1 <= t.x1 ==> column_covered(
                spans,
                t,
                spans[i].x1 + 1,
            ),
    ensures
        column_covered(spans, t, x),
    decreases x - t.x0,
{
    if x > t.x0 {
        lemma_columns(spans, t, x - 1);
        assert forall|y: int| t.y0 <= y <= t.y1 implies #[trigger] span_has(spans, x, y) by {
            assert(span_has(spans, x - 1, y));
            let i = choose|i: int| 0 <= i < spans.len() && (#[trigger] spans[i]).has(x - 1, y);
            if spans[i].x1 == x - 1 {
                assert(column_covered(spans, t, spans[i].x1 + 1));
            } else {
                assert(spans[i].has(x, y));
            }
        }
    }
}

/// Whether the rectangles cover all of `t`.
fn covers_span(spans: &Vec<Span>, t: Span) -> (r: bool)
    requires
        bounded(spans@),
        bounded(seq![t]),
        t.x0 <= t.x1,
    ensures
        r == forall|x: int, y: int| t.has(x, y) ==> #[trigger] span_has(spans@, x, y),
{
    assert(seq![t][0] == t);
    if !covers_column(spans, t, t.x0) {
        proof {
            let y = choose|y: int| t.y0 <= y <= t.y1 && !(#[trigger] span_has(spans@, t.x0 as int, y));
            assert(t.has(t.x0 as int, y));
        }
        return false;
    }
    let mut i: usize = 0;
    while i < spans.len()
        invariant
            i <= spans@.len(),
            bounded(spans@),
            bounded(seq![t]),
            forall|k: int|
                0 <= k < i && t.x0 < (#[trigger] spans@[k]).x1 + 1 <= t.x1 ==> column_covered(
                    spans@,
                    t,
                    spans@[k].x1 + 1,
                ),
        decreases spans@.len() - i,
    {
        let x: i128 = spans[i].x1 + 1;
        if t.x0 < x && x <= t.x1 && !covers_column(spans, t, x) {
            proof {
                let y = choose|y: int| t.y0 <= y <= t.y1 && !(#[trigger] span_has(spans@, x as int, y));
                assert(t.has(x as int, y));
            }
            return false;
        }
        i += 1;
    }
    proof {
        assert forall|x: int, y: int| t.has(x, y) implies #[trigger] span_has(spans@, x, y) by {
            lemma_columns(spans@, t, x);
        }
    }
    true
}

impl RectUnion {
    /// No rectangle of the list is inverted.
    #[verifier::type_invariant]
    spec fn proper(self) -> bool {
        forall|i: int| 0 <= i < self.rects@.len() ==> !(#[trigger] self.rects@[i]).inverted()
    }

    /// The rectangles of the union.
    pub closed spec fn list(self) -> Seq<Bbox> {
        self.rects@
    }

    /// Whether the union covers all of `target`. One that has a NaN for an edge
    /// and is not inverted is never covered.
    pub fn covers_rect(&self, target: &Bbox) -> (r: bool)
        ensures
            r == (target.inverted() || (target.regular() && region(*target).subset_of(self@))),
    {
        if target.is_bottom() {
            return true;
        }
        if target.west.is_nan() || target.south.is_nan() || target.east.is_nan() || target.north.is_nan() {
            return false;
        }
        let t: Span = Span::new(target);
        let mut spans: Vec<Span> = Vec::new();
        let mut i: usize = 0;
        while i < self.rects.len()
            invariant
                i <= self.rects@.len(),
                spans@.len() == i,
                bounded(spans@),
                forall|k: int, x: int, y: int|
                    0 <= k < i ==> #[trigger] spans@[k].has(x, y) == self.rects@[k].has(x, y),
            decreases self.rects@.len() - i,
        {
            spans.push(Span::new(&self.rects[i]));
            i += 1;
        }
        let r: bool = covers_span(&spans, t);
        proof {
            assert forall|x: int, y: int| #[trigger] span_has(spans@, x, y) == any_has(self.rects@, x, y) by {
                if span_has(spans@, x, y) {
                    let k = choose|k: int| 0 <= k < spans@.len() && (#[trigger] spans@[k]).has(x, y);
                    assert(self.rects@[k].has(x, y));
                }
                if any_has(self.rects@, x, y) {
                    let k = choose|k: int| 0 <= k < self.rects@.len() && (#[trigger] self.rects@[k]).has(x, y);
                    assert(spans@[k].has(x, y));
                }
            }
            if r {
                assert forall|p: (int, int)| region(*target).contains(p) implies self@.contains(p) by {
                    assert(span_has(spans@, p.0, p.1));
                }
            }
            if region(*target).subset_of(self@) {
                assert forall|x: int, y: int| t.has(x, y) implies #[trigger] span_has(spans@, x, y) by {
                    assert(region(*target).contains((x, y)));
                }
            }
        }
        r
    }

    /// Whether the union covers nothing.
    pub fn is_bottom(&self) -> (r: bool)
        ensures
            r == (self@ == Set::<(int, int)>::empty()),
    {
        proof {
            use_type_invariant(self);
            if self.rects@.len() > 0 {
                let b = self.rects@[0];
                assert(!b.inverted());
                assert(b.has(low_edge(b.west), low_edge(b.south)));
                assert(any_has(self.rects@, low_edge(b.west), low_edge(b.south)));
                assert(self@.contains((low_edge(b.west), low_edge(b.south))));
            } else {
                assert(self@ =~= Set::empty());
            }
        }
        self.rects.len() == 0
    }
}

impl From<Bbox> for RectUnion {
    fn from(b: Bbox) -> (r: RectUnion)
        ensures
            r@ == region(b),
            b.regular() ==> r.regular(),
    {
        if b.is_bottom() {
            let r: RectUnion = RectUnion { rects: Vec::new() };
            assert(r@ =~= region(b));
            r
        } else {
            let r: RectUnion = RectUnion { rects: vec![b] };
            assert(r.rects@ =~= seq![b]);
            assert forall|p: (int, int)| r@.contains(p) == region(b).contains(p) by {
                if b.has(p.0, p.1) {
                    assert(r.rects@[0].has(p.0, p.1));
                }
            }
            assert(r@ =~= region(b));
            r
        }
    }
}

impl vstd::std_specs::convert::FromSpecImpl<Bbox> for RectUnion {
    open spec fn obeys_from_spec() -> bool {
        false
    }

    open spec fn from_spec(b: Bbox) -> RectUnion {
        choose|r: RectUnion| r@ == region(b)
    }
}

impl Default for RectUnion {
    fn default() -> (r: RectUnion)
        ensures
            r@ == Set::<(int, int)>::empty(),
    {
        RectUnion::bottom()
    }
}

proof fn lemma_any_has(rects: Seq<Bbox>, i: int, x: int, y: int)
    requires
        0 <= i < rects.len(),
        rects[i].has(x, y),
    ensures
        any_has(rects, x, y),
{
}

impl BoundedLattice for RectUnion {
    closed spec fn regular(&self) -> bool {
        forall|i: int| 0 <= i < self.rects@.len() ==> (#[trigger] self.rects@[i]).regular()
    }

    open spec fn above(&self, other: &RectUnion) -> bool {
        other@.subset_of(self@)
    }

    open spec fn void(&self) -> bool {
        self@ == Set::<(int, int)>::empty()
    }

    open spec fn shares(&self, other: &RectUnion) -> bool {
        exists|p: (int, int)| self@.contains(p) && #[trigger] other@.contains(p)
    }

    fn bottom() -> (r: RectUnion)
        ensures
            r@ == Set::<(int, int)>::empty(),
    {
        let r: RectUnion = RectUnion { rects: Vec::new() };
        assert(r@ =~= Set::empty());
        r
    }

    /// Both lists of rectangles.
    fn join(&self, other: &RectUnion) -> (r: RectUnion)
        ensures
            r@ == self@.union(other@),
    {
        proof {
            use_type_invariant(self);
            use_type_invariant(other);
        }
        let mut rects: Vec<Bbox> = Vec::new();
        let mut i: usize = 0;
        while i < self.rects.len()
            invariant
                i <= self.rects@.len(),
                rects@ == self.rects@.take(i as int),
            decreases self.rects@.len() - i,
        {
            rects.push(self.rects[i]);
            i += 1;
            assert(rects@ =~= self.rects@.take(i as int));
        }
        let mut j: usize = 0;
        assert(rects@ =~= self.rects@ + other.rects@.take(0));
        while j < other.rects.len()
            invariant
                j <= other.rects@.len(),
                rects@ == self.rects@ + other.rects@.take(j as int),
            decreases other.rects@.len() - j,
        {
            rects.push(other.rects[j]);
            j += 1;
            assert(rects@ =~= self.rects@ + other.rects@.take(j as int));
        }
        assert(rects@ =~= self.rects@ + other.rects@);
        assert forall|k: int| 0 <= k < rects@.len() implies !(#[trigger] rects@[k]).inverted() by {
            if k < self.rects@.len() {
                assert(!self.rects@[k].inverted());
            } else {
                assert(!other.rects@[k - self.rects@.len()].inverted());
            }
        }
        let r: RectUnion = RectUnion { rects };
        proof {
            assert forall|p: (int, int)| r@.contains(p) == self@.union(other@).contains(p) by {
                if r@.contains(p) {
                    let k = choose|k: int| 0 <= k < r.rects@.len() && (#[trigger] r.rects@[k]).has(p.0, p.1);
                    if k < self.rects@.len() {
                        lemma_any_has(self.rects@, k, p.0, p.1);
                    } else {
                        lemma_any_has(other.rects@, k - self.rects@.len(), p.0, p.1);
                    }
                }
                if self@.contains(p) {
                    let k = choose|k: int| 0 <= k < self.rects@.len() && (#[trigger] self.rects@[k]).has(p.0, p.1);
                    lemma_any_has(r.rects@, k, p.0, p.1);
                }
                if other@.contains(p) {
                    let k = choose|k: int| 0 <= k < other.rects@.len() && (#[trigger] other.rects@[k]).has(p.0, p.1);
                    lemma_any_has(r.rects@, self.rects@.len() + k, p.0, p.1);
                }
            }
            assert(r@ =~= self@.union(other@));
            if self.regular() && other.regular() {
                assert forall|k: int| 0 <= k < r.rects@.len() implies (#[trigger] r.rects@[k]).regular() by {
                    if k < self.rects@.len() {
                        assert(self.rects@[k].regular());
                    } else {
                        assert(other.rects@[k - self.rects@.len()].regular());
                    }
                }
            }
        }
        r
    }

    /// The intersections of all pairs.
    fn meet(&self, other: &RectUnion) -> (r: RectUnion)
        ensures
            r@ == self@.intersect(other@),
    {
        let mut rects: Vec<Bbox> = Vec::new();
        let mut i: usize = 0;
        while i < self.rects.len()
            invariant
                i <= self.rects@.len(),
                forall|k: int| 0 <= k < rects@.len() ==> !(#[trigger] rects@[k]).inverted(),
                self.regular() && other.regular() ==> forall|k: int|
                    0 <= k < rects@.len() ==> (#[trigger] rects@[k]).regular(),
                forall|x: int, y: int| #[trigger]
                    any_has(rects@, x, y) <==> any_has(self.rects@.take(i as int), x, y) && any_has(
                        other.rects@,
                        x,
                        y,
                    ),
            decreases self.rects@.len() - i,
        {
            let a: Bbox = self.rects[i];
            let ghost start = rects@;
            let mut j: usize = 0;
            while j < other.rects.len()
                invariant
                    i < self.rects@.len(),
                    a == self.rects@[i as int],
                    j <= other.rects@.len(),
                    forall|k: int| 0 <= k < rects@.len() ==> !(#[trigger] rects@[k]).inverted(),
                    self.regular() && other.regular() ==> forall|k: int|
                        0 <= k < rects@.len() ==> (#[trigger] rects@[k]).regular(),
                    forall|x: int, y: int| #[trigger]
                        any_has(rects@, x, y) <==> any_has(start, x, y) || (a.has(x, y) && any_has(
                            other.rects@.take(j as int),
                            x,
                            y,
                        )),
                decreases other.rects@.len() - j,
            {
                let b: Bbox = other.rects[j];
                let m: Bbox = a.meet(&b);
                let ghost before = rects@;
                if !m.is_bottom() {
                    rects.push(m);
                }
                proof {
                    if self.regular() && other.regular() {
                        assert(self.rects@[i as int].regular());
                        assert(other.rects@[j as int].regular());
                    }
                    let part = other.rects@.take(j as int);
                    let more = other.rects@.take(j + 1);
                    assert(more =~= part.push(b));
                    assert forall|x: int, y: int| #[trigger]
                        any_has(rects@, x, y) <==> any_has(start, x, y) || (a.has(x, y) && any_has(
                            more,
                            x,
                            y,
                        )) by {
                        lemma_push_has(part, b, x, y);
                        lemma_push_has(before, m, x, y);
                        crate::bbox::intersection_is_pointwise(a, b, x, y);
                        assert(any_has(before, x, y) <==> any_has(start, x, y) || (a.has(x, y) && any_has(
                            part,
                            x,
                            y,
                        )));
                    }
                }
                j += 1;
            }
            proof {
                assert(other.rects@.take(j as int) =~= other.rects@);
                let part = self.rects@.take(i as int);
                assert(self.rects@.take(i + 1) =~= part.push(a));
                assert forall|x: int, y: int| #[trigger]
                    any_has(rects@, x, y) <==> any_has(self.rects@.take(i + 1), x, y) && any_has(
                        other.rects@,
                        x,
                        y,
                    ) by {
                    lemma_push_has(part, a, x, y);
                    assert(any_has(start, x, y) <==> any_has(part, x, y) && any_has(other.rects@, x, y));
                }
            }
            i += 1;
        }
        assert(self.rects@.take(i as int) =~= self.rects@);
        let r: RectUnion = RectUnion { rects };
        proof {
            assert forall|p: (int, int)| r@.contains(p) == self@.intersect(other@).contains(p) by {
                assert(any_has(r.rects@, p.0, p.1) <==> any_has(self.rects@, p.0, p.1) && any_has(
                    other.rects@,
                    p.0,
                    p.1,
                ));
            }
            assert(r@ =~= self@.intersect(other@));
            if self.shares(other) {
                let p = choose|p: (int, int)| self@.contains(p) && #[trigger] other@.contains(p);
                assert(r@.contains(p));
            } else {
                assert(r@ =~= Set::empty());
            }
        }
        r
    }

    /// Whether every rectangle of `other` is covered.
    fn subsumes(&self, other: &RectUnion) -> (r: bool)
        ensures
            r == forall|i: int|
                0 <= i < other.list().len() ==> (#[trigger] other.list()[i]).regular() && region(
                    other.list()[i],
                ).subset_of(self@),
    {
        proof {
            use_type_invariant(other);
        }
        let mut i: usize = 0;
        while i < other.rects.len()
            invariant
                i <= other.rects@.len(),
                other.proper(),
                forall|k: int|
                    0 <= k < i ==> (#[trigger] other.rects@[k]).regular() && region(other.rects@[k]).subset_of(
                        self@,
                    ),
            decreases other.rects@.len() - i,
        {
            assert(!other.rects@[i as int].inverted());
            if !self.covers_rect(&other.rects[i]) {
                proof {
                    let b = other.list()[i as int];
                    if b.regular() && !region(b).subset_of(self@) {
                        let p = choose|p: (int, int)| region(b).contains(p) && !self@.contains(p);
                        assert(region(b).contains(p) && !self@.contains(p));
                        lemma_any_has(other.rects@, i as int, p.0, p.1);
                        assert(other@.contains(p));
                    }
                    if other.regular() {
                        assert(b.regular());
                    }
                }
                return false;
            }
            i += 1;
        }
        proof {
            assert forall|p: (int, int)| other@.contains(p) implies self@.contains(p) by {
                let k = choose|k: int| 0 <= k < other.rects@.len() && (#[trigger] other.rects@[k]).has(p.0, p.1);
                assert(region(other.rects@[k]).contains(p));
            }
        }
        true
    }

    /// Whether a rectangle of one list touches one of the other.
    fn overlaps(&self, other: &RectUnion) -> (r: bool)
        ensures
            r == exists|i: int, j: int|
                0 <= i < self.list().len() && 0 <= j < other.list().len() && #[trigger] self.list()[i].touches(
                    #[trigger] other.list()[j],
                ),
    {
        let mut i: usize = 0;
        while i < self.rects.len()
            invariant
                i <= self.rects@.len(),
                forall|a: int, b: int|
                    0 <= a < i && 0 <= b < other.rects@.len() ==> !(#[trigger] self.rects@[a].touches(
                        #[trigger] other.rects@[b],
                    )),
            decreases self.rects@.len() - i,
        {
            let mut j: usize = 0;
            while j < other.rects.len()
                invariant
                    i < self.rects@.len(),
                    j <= other.rects@.len(),
                    forall|b: int| 0 <= b < j ==> !self.rects@[i as int].touches(#[trigger] other.rects@[b]),
                decreases other.rects@.len() - j,
            {
                let a: Bbox = self.rects[i];
                if a.overlaps(&other.rects[j]) {
                    proof {
                        assert(self.list()[i as int].touches(other.list()[j as int]));
                        if self.regular() && other.regular() {
                            let b = other.rects@[j as int];
                            let c = a.common(b);
                            assert(self.rects@[i as int].regular() && b.regular());
                            let p = (low_edge(c.west), low_edge(c.south));
                            assert(a.has(p.0, p.1) && b.has(p.0, p.1));
                            lemma_any_has(self.rects@, i as int, p.0, p.1);
                            lemma_any_has(other.rects@, j as int, p.0, p.1);
                            assert(self@.contains(p) && other@.contains(p));
                        }
                    }
                    return true;
                }
                j += 1;
            }
            i += 1;
        }
        proof {
            if self.regular() && other.regular() && self.shares(other) {
                let p = choose|p: (int, int)| self@.contains(p) && #[trigger] other@.contains(p);
                let a = choose|a: int| 0 <= a < self.rects@.len() && (#[trigger] self.rects@[a]).has(p.0, p.1);
                let b = choose|b: int| 0 <= b < other.rects@.len() && (#[trigger] other.rects@[b]).has(p.0, p.1);
                assert(self.rects@[a].regular() && other.rects@[b].regular());
                assert(self.rects@[a].touches(other.rects@[b]));
            }
        }
        false
    }

    /// The rectangles that `other` does not cover whole.
    fn minus(&self, other: &RectUnion) -> (r: RectUnion)
        ensures
            r.list() == left_over(self.list(), other@, self.list().len() as int),
    {
        proof {
            use_type_invariant(self);
        }
        let mut rects: Vec<Bbox> = Vec::new();
        let mut i: usize = 0;
        while i < self.rects.len()
            invariant
                i <= self.rects@.len(),
                self.proper(),
                rects@ == left_over(self.rects@, other@, i as int),
                forall|k: int| 0 <= k < rects@.len() ==> self.rects@.contains(#[trigger] rects@[k]),
            decreases self.rects@.len() - i,
        {
            let b: Bbox = self.rects[i];
            assert(self.rects@[i as int] == b);
            if !other.covers_rect(&b) {
                rects.push(b);
            }
            i += 1;
        }
        let r: RectUnion = RectUnion { rects };
        proof {
            lemma_left_over(self.rects@, other@, self.rects@.len() as int);
            assert forall|p: (int, int)| r@.contains(p) implies self@.contains(p) by {
                let k = choose|k: int| 0 <= k < r.rects@.len() && (#[trigger] r.rects@[k]).has(p.0, p.1);
                let j = choose|j: int| 0 <= j < self.rects@.len() && self.rects@[j] == r.rects@[k];
                lemma_any_has(self.rects@, j, p.0, p.1);
            }
            assert forall|p: (int, int)| self@.contains(p) implies r@.contains(p) || other@.contains(p) by {
                assert(any_has(self.rects@, p.0, p.1));
            }
            if self.regular() {
                assert forall|k: int| 0 <= k < r.rects@.len() implies (#[trigger] r.rects@[k]).regular() by {
                    let j = choose|j: int| 0 <= j < self.rects@.len() && self.rects@[j] == r.rects@[k];
                    assert(self.rects@[j].regular());
                }
                if other.above(self) {
                    lemma_nothing_left(self, other, self.rects@.len() as int);
                    assert(r@ =~= Set::empty());
                }
            }
        }
        r
    }

    proof fn law_reflexive(a: RectUnion) {
    }

    proof fn law_transitive(a: RectUnion, b: RectUnion, c: RectUnion) {
    }
}

proof fn lemma_push_has(rects: Seq<Bbox>, b: Bbox, x: int, y: int)
    ensures
        any_has(rects.push(b), x, y) <==> any_has(rects, x, y) || b.has(x, y),
{
    let more = rects.push(b);
    if any_has(more, x, y) {
        let k = choose|k: int| 0 <= k < more.len() && (#[trigger] more[k]).has(x, y);
        if k < rects.len() {
            assert(rects[k].has(x, y));
        }
    }
    if any_has(rects, x, y) {
        let k = choose|k: int| 0 <= k < rects.len() && (#[trigger] rects[k]).has(x, y);
        assert(more[k].has(x, y));
    }
    if b.has(x, y) {
        assert(more[rects.len() as int].has(x, y));
    }
}

proof fn lemma_left_over(rects: Seq<Bbox>, area: Set<(int, int)>, n: int)
    requires
        0 <= n <= rects.len(),
    ensures
        forall|x: int, y: int| #[trigger]
            any_has(rects.take(n), x, y) ==> any_has(left_over(rects, area, n), x, y) || area.contains((x, y)),
        n == rects.len() ==> rects.take(n) == rects,
    decreases n,
{
    if n > 0 {
        lemma_left_over(rects, area, n - 1);
        let part = rects.take(n - 1);
        let b = rects[n - 1];
        assert(rects.take(n) =~= part.push(b));
        assert forall|x: int, y: int| #[trigger] any_has(rects.take(n), x, y) implies any_has(
            left_over(rects, area, n),
            x,
            y,
        ) || area.contains((x, y)) by {
            lemma_push_has(part, b, x, y);
            lemma_push_has(left_over(rects, area, n - 1), b, x, y);
            if b.has(x, y) {
                assert(region(b).contains((x, y)));
            }
        }
    }
    if n == rects.len() {
        assert(rects.take(n) =~= rects);
    }
}

proof fn lemma_nothing_left(a: &RectUnion, b: &RectUnion, n: int)
    requires
        a.regular(),
        b.above(a),
        0 <= n <= a.rects@.len(),
    ensures
        left_over(a.rects@, b@, n).len() == 0,
    decreases n,
{
    if n > 0 {
        lemma_nothing_left(a, b, n - 1);
        let r = a.rects@[n - 1];
        assert(r.regular());
        assert forall|p: (int, int)| region(r).contains(p) implies b@.contains(p) by {
            lemma_any_has(a.rects@, n - 1, p.0, p.1);
            assert(a@.contains(p));
        }
    }
}

} // verus!
