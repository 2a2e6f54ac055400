use voxel_world::coords::{cell_of, column_of_point, offset_in_cell, ChunkCoord};
use voxel_world::grid::VoxelGrid;

#[test]
fn set_then_get_returns_written_value() {
    let mut g = VoxelGrid::new(4, 3, 2);
    assert!(!g.get(1, 2, 1));
    assert!(g.set(1, 2, 1, true));
    assert!(g.get(1, 2, 1));
    assert!(!g.get(2, 2, 1));
    assert!(g.set(1, 2, 1, false));
    assert!(!g.get(1, 2, 1));
}

#[test]
fn rewriting_same_value_reports_no_change() {
    let mut g = VoxelGrid::new(2, 2, 2);
    assert!(g.set(0, 0, 0, true));
    assert!(!g.set(0, 0, 0, true));
    assert!(!g.set(1, 1, 1, false));
}

#[test]
fn out_of_bounds_access_is_empty_and_ignored() {
    let mut g = VoxelGrid::new(2, 2, 2);
    assert!(!g.set(-1, 0, 0, true));
    assert!(!g.set(2, 0, 0, true));
    assert!(!g.set(0, 0, 5, true));
    assert!(!g.get(-1, 0, 0));
    assert!(!g.get(0, 2, 0));
    assert!(!g.get(i32::MIN, i32::MAX, 0));
    for x in 0..2 {
        for y in 0..2 {
            for z in 0..2 {
                assert!(!g.get(x, y, z));
            }
        }
    }
}

#[test]
fn cells_are_independent() {
    let mut g = VoxelGrid::new(3, 3, 3);
    g.set(2, 0, 0, true);
    g.set(0, 1, 0, true);
    g.set(0, 0, 1, true);
    let mut solid = 0;
    for x in 0..3 {
        for y in 0..3 {
            for z in 0..3 {
                if g.get(x, y, z) {
                    solid += 1;
                }
            }
        }
    }
    assert_eq!(solid, 3);
    assert!(g.cell(2, 0, 0) && g.cell(0, 1, 0) && g.cell(0, 0, 1));
}

#[test]
fn height_fill_is_solid_below_column_height() {
    // width 2, depth 2, height 4; column (x, z) at x + z * 2.
    let heights = vec![0, 1, 3, 9];
    let g = VoxelGrid::from_heights(2, 4, 2, &heights);
    assert_eq!((g.width(), g.height(), g.depth()), (2, 4, 2));
    for y in 0..4 {
        assert!(!g.get(0, y, 0));
        assert_eq!(g.get(1, y, 0), y < 1);
        assert_eq!(g.get(0, y, 1), y < 3);
        assert!(g.get(1, y, 1));
    }
}

#[test]
fn floor_division_rounds_down() {
    assert_eq!(cell_of(7, 4), 1);
    assert_eq!(cell_of(-1, 4), -1);
    assert_eq!(cell_of(-4, 4), -1);
    assert_eq!(cell_of(-5, 4), -2);
    assert_eq!(offset_in_cell(-1, 4), 3);
    assert_eq!(offset_in_cell(-4, 4), 0);
    assert_eq!(offset_in_cell(9, 4), 1);
}

#[test]
fn world_point_maps_to_chunk_column() {
    // 1000 units per voxel, chunks 16 voxels wide.
    assert_eq!(column_of_point(0, 0, 1000, 16), Some(ChunkCoord::new(0, 0, 0)));
    assert_eq!(column_of_point(15_999, -1, 1000, 16), Some(ChunkCoord::new(0, 0, -1)));
    assert_eq!(column_of_point(16_000, -16_000, 1000, 16), Some(ChunkCoord::new(1, 0, -1)));
    assert_eq!(column_of_point(-16_001, 0, 1000, 16), Some(ChunkCoord::new(-2, 0, 0)));
    assert_eq!(column_of_point(i64::MAX, 0, 1, 1), None);
}
