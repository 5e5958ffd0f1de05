//! Bounded lattices.
use vstd::prelude::*;

verus! {

/// A set with meet, join and a least element.
///
/// The order is: `a` is above `b` where `a` covers all of `b`. Coordinates that
/// are no numbers have no place in the order; the laws speak of regular values,
/// which have none.
pub trait BoundedLattice: Sized {
    /// No coordinate is a NaN.
    spec fn regular(&self) -> bool;

    /// `self` is above `other` in the order.
    spec fn above(&self, other: &Self) -> bool;

    /// `self` covers nothing.
    spec fn void(&self) -> bool;

    /// `self` and `other` have something in common.
    spec fn shares(&self, other: &Self) -> bool;

    /// The least element.
    fn bottom() -> (r: Self)
        ensures
            r.regular(),
            r.void(),
            forall|x: Self| x.regular() ==> #[trigger] x.above(&r),
    ;

    /// Least upper bound.
    fn join(&self, other: &Self) -> (r: Self)
        ensures
            self.regular() && other.regular() ==> {
                &&& r.regular()
                &&& r.above(self)
                &&& r.above(other)
                &&& forall|u: Self| u.regular() && u.above(self) && u.above(other) ==> #[trigger] u.above(&r)
            },
    ;

    /// Greatest lower bound. It is void where the two have nothing in common.
    fn meet(&self, other: &Self) -> (r: Self)
        ensures
            self.regular() && other.regular() ==> {
                &&& r.regular()
                &&& self.above(&r)
                &&& other.above(&r)
                &&& forall|l: Self| l.regular() && self.above(&l) && other.above(&l) ==> #[trigger] r.above(&l)
                &&& r.void() <==> !self.shares(other)
            },
    ;

    /// Whether `self` is above `other`.
    fn subsumes(&self, other: &Self) -> (r: bool)
        ensures
            self.regular() && other.regular() ==> r == self.above(other),
    ;

    /// Whether the two have something in common.
    fn overlaps(&self, other: &Self) -> (r: bool)
        ensures
            self.regular() && other.regular() ==> r == self.shares(other),
    ;

    /// A part of `self` that holds all that `other` does not cover: nothing
    /// where it covers everything. It may hold more, but no less.
    fn minus(&self, other: &Self) -> (r: Self)
        ensures
            self.regular() && other.regular() ==> {
                &&& r.regular()
                &&& other.above(self) ==> r.void()
                &&& !other.above(self) ==> self.above(&r)
                &&& forall|u: Self| u.regular() && #[trigger] u.above(&r) && u.above(other) ==> u.above(self)
            },
    ;

    /// The order is reflexive on regular values.
    proof fn law_reflexive(a: Self)
        requires
            a.regular(),
        ensures
            a.above(&a),
    ;

    /// The order is transitive.
    proof fn law_transitive(a: Self, b: Self, c: Self)
        requires
            a.above(&b),
            b.above(&c),
        ensures
            a.above(&c),
    ;
}

/// `j` is a least upper bound of `a` and `b`.
pub open spec fn is_join<L: BoundedLattice>(a: L, b: L, j: L) -> bool {
    &&& j.regular()
    &&& j.above(&a)
    &&& j.above(&b)
    &&& forall|u: L| u.regular() && u.above(&a) && u.above(&b) ==> #[trigger] u.above(&j)
}

/// `m` is a greatest lower bound of `a` and `b`.
pub open spec fn is_meet<L: BoundedLattice>(a: L, b: L, m: L) -> bool {
    &&& m.regular()
    &&& a.above(&m)
    &&& b.above(&m)
    &&& forall|l: L| l.regular() && a.above(&l) && b.above(&l) ==> #[trigger] m.above(&l)
}

/// Each is above the other: the two cover the same.
pub open spec fn equivalent<L: BoundedLattice>(a: L, b: L) -> bool {
    a.above(&b) && b.above(&a)
}

/// The order of the operands of a join or meet does not matter, and any two
/// results cover the same.
pub proof fn bounds_commute<L: BoundedLattice>(a: L, b: L, j: L, k: L, m: L, n: L)
    requires
        is_join(a, b, j),
        is_join(b, a, k),
        is_meet(a, b, m),
        is_meet(b, a, n),
    ensures
        equivalent(j, k),
        equivalent(m, n),
{
}

/// Joins and meets of three operands may be taken in any grouping.
pub proof fn bounds_associate<L: BoundedLattice>(a: L, b: L, c: L, ab: L, bc: L, l: L, r: L)
    requires
        is_join(a, b, ab),
        is_join(ab, c, l),
        is_join(b, c, bc),
        is_join(a, bc, r),
    ensures
        equivalent(l, r),
{
    L::law_transitive(l, ab, a);
    L::law_transitive(l, ab, b);
    L::law_transitive(r, bc, b);
    L::law_transitive(r, bc, c);
    assert(l.above(&bc));
    assert(r.above(&ab));
}

/// A value absorbs its meet with anything, and its join with anything.
pub proof fn bounds_absorb<L: BoundedLattice>(a: L, b: L, j: L, m: L, x: L, y: L)
    requires
        a.regular(),
        is_join(a, b, j),
        is_meet(a, j, x),
        is_meet(a, b, m),
        is_join(a, m, y),
    ensures
        equivalent(x, a),
        equivalent(y, a),
{
    L::law_reflexive(a);
}

/// The least element changes nothing that it is joined to.
pub proof fn bottom_is_neutral<L: BoundedLattice>(a: L, bottom: L, j: L)
    requires
        a.regular(),
        a.above(&bottom),
        is_join(a, bottom, j),
    ensures
        equivalent(j, a),
{
    L::law_reflexive(a);
}

/// Of two comparable values the smaller one is the meet and the larger one the
/// join.
pub proof fn comparable_bounds<L: BoundedLattice>(a: L, b: L, j: L, m: L)
    requires
        a.regular(),
        b.regular(),
        a.above(&b),
        is_join(a, b, j),
        is_meet(a, b, m),
    ensures
        equivalent(j, a),
        equivalent(m, b),
{
    L::law_reflexive(a);
    L::law_reflexive(b);
}

} // verus!
