use quilt_tiler::hilbert::{hilbert_xy_to_d, tile_id};

#[test]
fn first_levels_follow_the_archive_format() {
    assert_eq!(tile_id(0, 0, 0), 0);
    assert_eq!(tile_id(1, 0, 0), 1);
    assert_eq!(tile_id(1, 0, 1), 2);
    assert_eq!(tile_id(1, 1, 1), 3);
    assert_eq!(tile_id(1, 1, 0), 4);
    assert_eq!(tile_id(2, 0, 0), 5);
    assert_eq!(tile_id(12, 3423, 1763), 19_078_479);
}

#[test]
fn a_level_is_one_continuous_curve() {
    let n = 16u64;
    let mut cells = vec![(0i64, 0i64); (n * n) as usize];
    for x in 0..n {
        for y in 0..n {
            cells[hilbert_xy_to_d(n, x, y) as usize] = (x as i64, y as i64);
        }
    }
    assert_eq!(cells[0], (0, 0));
    assert_eq!(cells[(n * n - 1) as usize], (n as i64 - 1, 0));
    for w in cells.windows(2) {
        let step = (w[0].0 - w[1].0).abs() + (w[0].1 - w[1].1).abs();
        assert_eq!(step, 1);
    }
}

#[test]
fn levels_follow_each_other_without_overlap() {
    assert_eq!(tile_id(3, 7, 0), 84);
    assert_eq!(tile_id(4, 0, 0), 85);
    assert_eq!(tile_id(31, 0, 0), 1_537_228_672_809_129_301);
    let last = (1u32 << 31) - 1;
    assert_eq!(tile_id(31, last, 0), 6_148_914_691_236_517_204);
    assert_eq!(hilbert_xy_to_d(1 << 32, (1 << 32) - 1, 0), u64::MAX);
}
