use quilt_tiler::bbox::Bbox;
use quilt_tiler::lattice::BoundedLattice;
use quilt_tiler::rect_union::RectUnion;
use quilt_tiler::scalar::Real;

fn r(v: f64) -> Real {
    Real::from_bits(v.to_bits())
}

fn rect(w: f64, s: f64, e: f64, n: f64) -> Bbox {
    Bbox {
        west: r(w),
        south: r(s),
        east: r(e),
        north: r(n),
    }
}

fn b(w: f64, s: f64, e: f64, n: f64) -> RectUnion {
    RectUnion::from(rect(w, s, e, n))
}

#[test]
fn bottom_is_empty() {
    assert!(RectUnion::bottom().is_bottom());
    assert!(!b(0.0, 0.0, 1.0, 1.0).is_bottom());
}

#[test]
fn single_rect_subsumes_itself() {
    let r = b(0.0, 0.0, 10.0, 10.0);
    assert!(r.subsumes(&r));
}

#[test]
fn ne_sw_do_not_cover_tile() {
    // The hull of NE+SW fills the tile, but the area does not.
    let tile = b(0.0, 0.0, 10.0, 10.0);
    let ne = b(5.0, 5.0, 10.0, 10.0);
    let sw = b(0.0, 0.0, 5.0, 5.0);
    let covered = ne.join(&sw);
    assert!(!covered.subsumes(&tile));
}

#[test]
fn north_south_halves_cover_tile() {
    let tile = b(0.0, 0.0, 10.0, 10.0);
    let north = b(0.0, 5.0, 10.0, 10.0);
    let south = b(0.0, 0.0, 10.0, 5.0);
    assert!(north.join(&south).subsumes(&tile));
}

#[test]
fn four_quadrants_cover_tile() {
    let tile = b(0.0, 0.0, 10.0, 10.0);
    let covered = b(0.0, 0.0, 5.0, 5.0)
        .join(&b(5.0, 0.0, 10.0, 5.0))
        .join(&b(0.0, 5.0, 5.0, 10.0))
        .join(&b(5.0, 5.0, 10.0, 10.0));
    assert!(covered.subsumes(&tile));
}

#[test]
fn three_quadrants_do_not_cover_tile() {
    let tile = b(0.0, 0.0, 10.0, 10.0);
    let covered = b(0.0, 0.0, 5.0, 5.0)
        .join(&b(5.0, 0.0, 10.0, 5.0))
        .join(&b(0.0, 5.0, 5.0, 10.0));
    // NW+SW+SE; NE missing.
    assert!(!covered.subsumes(&tile));
}

#[test]
fn partial_strip_does_not_cover() {
    let tile = b(0.0, 0.0, 10.0, 10.0);
    let partial = b(0.0, 0.0, 5.0, 10.0); // west half only
    assert!(!partial.subsumes(&tile));
}

#[test]
fn overlapping_rects_cover_tile() {
    // Two rects that overlap in the middle and together cover the tile.
    let tile = b(0.0, 0.0, 10.0, 10.0);
    let left = b(0.0, 0.0, 7.0, 10.0);
    let right = b(3.0, 0.0, 10.0, 10.0);
    assert!(left.join(&right).subsumes(&tile));
}

#[test]
fn a_gap_of_one_step_is_seen() {
    let next = f64::from_bits(5.0f64.to_bits() + 1);
    let tile = b(0.0, 0.0, 10.0, 10.0);
    let left = b(0.0, 0.0, 5.0, 10.0);
    let right = b(next, 0.0, 10.0, 10.0);
    assert!(!left.join(&right).subsumes(&tile));
}

#[test]
fn lines_and_points_are_covered_only_where_they_lie() {
    let area = b(0.0, 0.0, 10.0, 5.0);
    // A vertical line that sticks out to the north.
    assert!(!area.covers_rect(&rect(3.0, 0.0, 3.0, 8.0)));
    assert!(area.covers_rect(&rect(3.0, 0.0, 3.0, 5.0)));
    // A horizontal line that sticks out to the east.
    assert!(!area.covers_rect(&rect(8.0, 2.0, 12.0, 2.0)));
    assert!(area.covers_rect(&rect(4.0, 5.0, 4.0, 5.0)));
    assert!(!area.covers_rect(&rect(4.0, 6.0, 4.0, 6.0)));
    // Nothing is always covered, a NaN edge never.
    assert!(RectUnion::bottom().covers_rect(&rect(1.0, 1.0, 0.0, 0.0)));
    assert!(!area.covers_rect(&rect(f64::NAN, 0.0, 1.0, 1.0)));
}

#[test]
fn meet_overlap_and_minus_of_unions() {
    let two = b(0.0, 0.0, 2.0, 2.0).join(&b(4.0, 4.0, 6.0, 6.0));
    let probe = b(1.0, 1.0, 5.0, 5.0);
    let common = two.meet(&probe);
    assert!(common.covers_rect(&rect(1.0, 1.0, 2.0, 2.0)));
    assert!(common.covers_rect(&rect(4.0, 4.0, 5.0, 5.0)));
    assert!(!common.covers_rect(&rect(2.5, 2.5, 3.0, 3.0)));
    assert!(two.overlaps(&probe));
    assert!(!two.overlaps(&b(2.5, 2.5, 3.5, 3.5)));
    // Only the rectangle that is covered whole goes.
    let left = two.minus(&b(-1.0, -1.0, 3.0, 3.0));
    assert!(!left.covers_rect(&rect(0.0, 0.0, 1.0, 1.0)));
    assert!(left.covers_rect(&rect(4.0, 4.0, 6.0, 6.0)));
    assert!(two.minus(&two).is_bottom());
    assert!(RectUnion::default().is_bottom());
    assert!(b(1.0, 1.0, 0.0, 2.0).is_bottom());
}
