use quilt_tiler::bbox::Bbox;
use quilt_tiler::edition_date::EditionDate;
use quilt_tiler::lattice::BoundedLattice;
use quilt_tiler::rect_union::RectUnion;
use quilt_tiler::scalar::Real;
use quilt_tiler::tiles::{
    candidates, overall_extent, plan_tile, quilt, rank_candidates, zoom_range, AreaOps, AreaTest, ByLattice, CapTooLow, TileBlock,
};

fn r(v: f64) -> Real {
    Real::from_bits(v.to_bits())
}

fn rect(w: f64, s: f64, e: f64, n: f64) -> Bbox {
    Bbox {
        west: r(w),
        south: r(s),
        east: r(e),
        north: r(n),
    }
}

#[test]
fn zoom_range_starts_two_levels_below_the_data() {
    assert_eq!(zoom_range(&vec![12, 9, 15], None), Ok((7, 15)));
    assert_eq!(zoom_range(&vec![12, 9, 15], Some(13)), Ok((7, 13)));
    assert_eq!(zoom_range(&vec![12, 9, 15], Some(20)), Ok((7, 15)));
    assert_eq!(zoom_range(&vec![1], None), Ok((0, 1)));
    assert_eq!(zoom_range(&vec![], None), Ok((0, 0)));
    assert_eq!(
        zoom_range(&vec![12, 9], Some(6)),
        Err(CapTooLow { cap: 6, floor: 7 })
    );
}

#[test]
fn extent_is_the_hull_of_all_items() {
    let all = overall_extent(&vec![rect(0.0, 1.0, 2.0, 3.0), rect(-5.0, 2.0, 1.0, 9.0)]);
    assert_eq!(all, rect(-5.0, 1.0, 2.0, 9.0));
    assert!(overall_extent(&vec![]).is_bottom());
}

#[test]
fn blocks_list_their_tiles_row_by_row() {
    let b = TileBlock {
        col_lo: 5,
        row_lo: 7,
        col_hi: 7,
        row_hi: 8,
    };
    assert_eq!(b.count(), 6);
    let all: Vec<(u32, u32)> = (0..6).map(|i| b.tile_at(i)).collect();
    assert_eq!(all, vec![(5, 7), (6, 7), (7, 7), (5, 8), (6, 8), (7, 8)]);
}

#[test]
fn candidates_overlap_the_tile() {
    let boxes = vec![
        rect(0.0, 0.0, 1.0, 1.0),
        rect(5.0, 5.0, 6.0, 6.0),
        rect(0.5, 0.5, 9.0, 9.0),
    ];
    assert_eq!(candidates(&boxes, &rect(0.0, 0.0, 2.0, 2.0)), vec![0, 2]);
    assert_eq!(
        candidates(&boxes, &rect(20.0, 0.0, 22.0, 2.0)),
        Vec::<usize>::new()
    );
}

#[test]
fn best_suited_candidates_come_first() {
    // At zoom 12: the coarsest that is fine enough, then finer ones, then
    // those that are too coarse, the finest of them first.
    let zooms = vec![10, 14, 12, 8, 13];
    let editions = vec![EditionDate::unknown(); 5];
    let order = rank_candidates(&zooms, &editions, 12, &vec![0, 1, 2, 3, 4]);
    assert_eq!(order, vec![2, 4, 1, 0, 3]);
}

#[test]
fn the_later_edition_wins_ties() {
    let zooms = vec![12, 12, 12];
    let editions = vec![
        EditionDate::new(2024, 1, 1),
        EditionDate::unknown(),
        EditionDate::new(2025, 6, 1),
    ];
    assert_eq!(
        rank_candidates(&zooms, &editions, 12, &vec![0, 1, 2]),
        vec![2, 0, 1]
    );
    let same = vec![EditionDate::new(2024, 1, 1); 3];
    assert_eq!(
        rank_candidates(&zooms, &same, 12, &vec![2, 0, 1]),
        vec![0, 1, 2]
    );
}

/// Areas that cover one of the quarter-size squares in the middle of the unit
/// squares around the origin.
struct Probes;

impl AreaTest<RectUnion> for Probes {
    fn is_wide(&self, a: &RectUnion) -> bool {
        (0..40).any(|i| {
            (0..40).any(|j| {
                let (x, y) = (f64::from(i) + 0.25, f64::from(j) + 0.25);
                a.covers_rect(&rect(x, y, x + 0.5, y + 0.5))
            })
        })
    }
}

fn probes() -> ByLattice<Probes> {
    ByLattice { test: Probes }
}

#[test]
fn quilting_stops_when_the_tile_is_covered() {
    let tile = RectUnion::from(rect(0.0, 0.0, 10.0, 10.0));
    let coverages = vec![
        RectUnion::from(rect(20.0, 20.0, 30.0, 30.0)),
        RectUnion::from(rect(0.0, 0.0, 10.0, 10.0)),
        RectUnion::from(rect(0.0, 0.0, 10.0, 10.0)),
    ];
    let picks = quilt(&probes(), tile, &coverages, &vec![0, 1, 2]);
    let items: Vec<usize> = picks.iter().map(|p| p.item).collect();
    assert_eq!(items, vec![1]);
    assert!(picks[0].area.covers_rect(&rect(0.0, 0.0, 10.0, 10.0)));
}

#[test]
fn quilting_takes_every_item_that_adds_area() {
    let tile = RectUnion::from(rect(0.0, 0.0, 10.0, 10.0));
    let coverages = vec![
        RectUnion::from(rect(0.0, 0.0, 5.0, 10.0)),
        // Touches the tile along an edge only.
        RectUnion::from(rect(10.0, 0.0, 12.0, 10.0)),
        RectUnion::from(rect(4.0, 0.0, 12.0, 10.0)),
    ];
    let picks = quilt(&probes(), tile, &coverages, &vec![0, 1, 2]);
    let items: Vec<usize> = picks.iter().map(|p| p.item).collect();
    assert_eq!(items, vec![0, 2]);
    let all = picks[0].area.join(&picks[1].area);
    assert!(all.covers_rect(&rect(0.0, 0.0, 10.0, 10.0)));
}

#[test]
fn a_plan_selects_ranks_and_quilts() {
    let boxes = vec![
        rect(0.0, 0.0, 10.0, 10.0),
        rect(50.0, 50.0, 60.0, 60.0),
        rect(0.0, 0.0, 10.0, 10.0),
    ];
    let coverages: Vec<RectUnion> = boxes.iter().map(|b| RectUnion::from(*b)).collect();
    let zooms = vec![9, 12, 12];
    let editions = vec![EditionDate::unknown(); 3];
    let tile = rect(1.0, 1.0, 2.0, 2.0);
    let picks = plan_tile(
        &probes(),
        &boxes,
        &coverages,
        &zooms,
        &editions,
        12,
        &tile,
        RectUnion::from(tile),
    );
    let items: Vec<usize> = picks.iter().map(|p| p.item).collect();
    assert_eq!(items, vec![2]);
}

/// Areas of unit squares, numbered.
struct Squares;

impl AreaOps<Vec<u32>> for Squares {
    fn common(&self, a: &Vec<u32>, b: &Vec<u32>) -> Vec<u32> {
        a.iter().copied().filter(|s| b.contains(s)).collect()
    }

    fn rest(&self, a: &Vec<u32>, b: &Vec<u32>) -> Vec<u32> {
        a.iter().copied().filter(|s| !b.contains(s)).collect()
    }

    fn has_area(&self, a: &Vec<u32>) -> bool {
        !a.is_empty()
    }
}

#[test]
fn every_square_goes_to_the_first_item_that_covers_it() {
    let coverages = vec![vec![2, 3, 9], vec![3], vec![1, 2, 3], vec![4], vec![1]];
    let picks = quilt(&Squares, vec![1, 2, 3, 4], &coverages, &vec![0, 1, 2, 3, 4]);
    let shares: Vec<(usize, Vec<u32>)> = picks.into_iter().map(|p| (p.item, p.area)).collect();
    assert_eq!(
        shares,
        vec![(0, vec![2, 3]), (2, vec![1]), (3, vec![4])]
    );
}

#[test]
fn a_tile_that_nothing_covers_has_no_shares() {
    assert!(quilt(&Squares, vec![1, 2], &vec![vec![3]], &vec![0]).is_empty());
    assert!(quilt(&Squares, vec![1, 2], &vec![], &vec![]).is_empty());
}
