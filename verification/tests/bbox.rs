use quilt_tiler::bbox::Bbox;
use quilt_tiler::lattice::BoundedLattice;
use quilt_tiler::scalar::{Position, Real};

fn r(v: f64) -> Real {
    Real::from_bits(v.to_bits())
}

fn b(west: f64, south: f64, east: f64, north: f64) -> Bbox {
    Bbox {
        west: r(west),
        south: r(south),
        east: r(east),
        north: r(north),
    }
}

/// Helper: a "normal" bbox around a region.
fn bbox_a() -> Bbox {
    b(1.0, 2.0, 5.0, 6.0)
}

/// A second bbox that partially overlaps `bbox_a`.
fn bbox_b() -> Bbox {
    b(3.0, 4.0, 7.0, 8.0)
}

/// A bbox fully inside `bbox_a`.
fn bbox_inner() -> Bbox {
    b(2.0, 3.0, 4.0, 5.0)
}

/// A bbox completely disjoint from `bbox_a`.
fn bbox_disjoint() -> Bbox {
    b(10.0, 10.0, 12.0, 12.0)
}

#[test]
fn bottom_is_bottom() {
    assert!(Bbox::bottom().is_bottom());
}

#[test]
fn normal_bbox_is_not_bottom() {
    assert!(!bbox_a().is_bottom());
}

#[test]
fn join_with_bottom_returns_other() {
    let a = bbox_a();
    let joined = a.join(&Bbox::bottom());
    assert_eq!(joined.west, a.west);
    assert_eq!(joined.south, a.south);
    assert_eq!(joined.east, a.east);
    assert_eq!(joined.north, a.north);
}

#[test]
fn join_bottom_with_other_returns_other() {
    let a = bbox_a();
    let joined = Bbox::bottom().join(&a);
    assert_eq!(joined.west, a.west);
    assert_eq!(joined.south, a.south);
    assert_eq!(joined.east, a.east);
    assert_eq!(joined.north, a.north);
}

#[test]
fn join_two_normal_is_bounding_hull() {
    let j = bbox_a().join(&bbox_b());
    assert_eq!(j.west, r(1.0));
    assert_eq!(j.south, r(2.0));
    assert_eq!(j.east, r(7.0));
    assert_eq!(j.north, r(8.0));
}

#[test]
fn meet_non_overlapping_returns_bottom() {
    let m = bbox_a().meet(&bbox_disjoint());
    assert!(m.is_bottom(), "meet of disjoint boxes must be bottom");
}

#[test]
fn meet_overlapping_returns_intersection() {
    let m = bbox_a().meet(&bbox_b());
    assert_eq!(m.west, r(3.0));
    assert_eq!(m.south, r(4.0));
    assert_eq!(m.east, r(5.0));
    assert_eq!(m.north, r(6.0));
}

#[test]
fn overlaps_returns_false_for_bottom() {
    assert!(!Bbox::bottom().overlaps(&bbox_a()));
    assert!(!bbox_a().overlaps(&Bbox::bottom()));
}

#[test]
fn overlaps_returns_false_for_disjoint() {
    assert!(!bbox_a().overlaps(&bbox_disjoint()));
}

#[test]
fn overlaps_returns_true_for_partial() {
    assert!(bbox_a().overlaps(&bbox_b()));
}

#[test]
fn overlaps_returns_true_for_contained() {
    assert!(bbox_a().overlaps(&bbox_inner()));
}

#[test]
fn overlaps_with_degenerate_inverted_bbox() {
    // An "inverted" bbox where west > east acts like bottom.
    let inverted = b(5.0, 2.0, 1.0, 6.0);
    assert!(inverted.is_bottom());
    assert!(!inverted.overlaps(&bbox_a()));
    assert!(!bbox_a().overlaps(&inverted));
}

#[test]
fn subsumes_inner() {
    assert!(bbox_a().subsumes(&bbox_inner()));
}

#[test]
fn bbox_subsumes_self() {
    assert!(bbox_a().subsumes(&bbox_a()));
}

#[test]
fn does_not_subsume_partial_overlap() {
    assert!(!bbox_a().subsumes(&bbox_b()));
}

#[test]
fn minus_full_subsumption_returns_bottom() {
    // bbox_a fully contains bbox_inner, so bbox_inner − bbox_a = ⊥
    let result = bbox_inner().minus(&bbox_a());
    assert!(
        result.is_bottom(),
        "fully subsumed minus must return bottom"
    );
}

#[test]
fn minus_partial_overlap_returns_self_conservative() {
    // Conservative contract: partial overlap → returns self unchanged.
    let a = bbox_a();
    let result = a.minus(&bbox_b());
    assert_eq!(result.west, a.west);
    assert_eq!(result.south, a.south);
    assert_eq!(result.east, a.east);
    assert_eq!(result.north, a.north);
}

#[test]
fn bbox_minus_disjoint_returns_self() {
    let a = bbox_a();
    let result = a.minus(&bbox_disjoint());
    assert_eq!(result.west, a.west);
    assert_eq!(result.east, a.east);
}

#[test]
fn minus_self_returns_bottom() {
    let result = bbox_a().minus(&bbox_a());
    assert!(result.is_bottom(), "a − a must be bottom");
}

#[test]
fn bbox_of_points_is_their_hull() {
    let at = |lon: f64, lat: f64| Position {
        lon: r(lon),
        lat: r(lat),
    };
    assert!(Bbox::of(&vec![]).is_none());
    assert_eq!(
        Bbox::of(&vec![at(3.0, -1.0), at(-2.5, 4.0), at(0.0, 7.0)]),
        Some(b(-2.5, -1.0, 3.0, 7.0))
    );
    assert_eq!(Bbox::point(r(1.0), r(2.0)), b(1.0, 2.0, 1.0, 2.0));
    assert_eq!(
        Bbox::from([r(1.0), r(2.0), r(3.0), r(4.0)]),
        b(1.0, 2.0, 3.0, 4.0)
    );
}

#[test]
fn bbox_ring_starts_and_ends_in_the_north_east() {
    let ring = bbox_a().to_ring();
    let corners: Vec<(f64, f64)> = ring
        .iter()
        .map(|p| (f64::from_bits(p.lon.bits), f64::from_bits(p.lat.bits)))
        .collect();
    assert_eq!(
        corners,
        vec![(5.0, 6.0), (1.0, 6.0), (1.0, 2.0), (5.0, 2.0), (5.0, 6.0)]
    );
}

#[test]
fn lattice_laws_on_boxes() {
    let (a, c) = (bbox_a(), bbox_b());
    assert_eq!(a.join(&c), c.join(&a));
    assert_eq!(a.meet(&c), c.meet(&a));
    assert_eq!(a.join(&a.meet(&c)), a);
    assert_eq!(a.meet(&a.join(&c)), a);
    assert_eq!(
        a.join(&c).join(&bbox_disjoint()),
        a.join(&c.join(&bbox_disjoint()))
    );
    assert!(a.join(&c).subsumes(&a) && a.subsumes(&a.meet(&c)));
}
