use voxel_world::chunk::Chunk;
use voxel_world::coords::ChunkCoord;
use voxel_world::grid::VoxelGrid;
use voxel_world::mesher::Face;
use voxel_world::raycast::{raycast, RayHit, RayMarch};
use voxel_world::store::ChunkStore;

const UNITS: i64 = 1000;

fn single_voxel_store(size: u32) -> ChunkStore {
    let mut grid = VoxelGrid::new(size, size, size);
    grid.set(0, 0, 0, true);
    let mut s = ChunkStore::new();
    s.insert(Chunk::from_grid(ChunkCoord::new(0, 0, 0), grid));
    s
}

/// Origin and unit direction in voxels, marched in steps of a tenth of a
/// voxel up to `max_distance` voxels.
fn ray(origin: (f64, f64, f64), dir: (f64, f64, f64), max_distance: f64) -> RayMarch {
    let step = 0.1;
    let u = UNITS as f64;
    RayMarch {
        ox: (origin.0 * u).round() as i64,
        oy: (origin.1 * u).round() as i64,
        oz: (origin.2 * u).round() as i64,
        sx: (dir.0 * step * u).round() as i64,
        sy: (dir.1 * step * u).round() as i64,
        sz: (dir.2 * step * u).round() as i64,
        steps: (max_distance / step).round() as u32,
    }
}

#[test]
fn ray_along_x_hits_single_voxel() {
    let s = single_voxel_store(16);
    let hit = raycast(&s, &ray((-5.0, 0.5, 0.5), (1.0, 0.0, 0.0), 10.0), UNITS, 16).unwrap();
    assert_eq!(hit.chunk, ChunkCoord::new(0, 0, 0));
    assert_eq!((hit.x, hit.y, hit.z), (0, 0, 0));
    assert_eq!(hit.normal.normal(), (-1, 0, 0));
}

#[test]
fn ray_hits_one_voxel_grid() {
    let s = single_voxel_store(1);
    let hit = raycast(&s, &ray((-5.0, 0.5, 0.5), (1.0, 0.0, 0.0), 10.0), UNITS, 16);
    assert_eq!(
        hit,
        Some(RayHit { chunk: ChunkCoord::new(0, 0, 0), x: 0, y: 0, z: 0, normal: Face::NegX })
    );
}

#[test]
fn ray_along_y_misses() {
    let s = single_voxel_store(16);
    assert_eq!(raycast(&s, &ray((-5.0, 5.0, 5.0), (0.0, 1.0, 0.0), 10.0), UNITS, 16), None);
}

#[test]
fn ray_too_short_misses() {
    let s = single_voxel_store(16);
    assert_eq!(raycast(&s, &ray((-5.0, 0.5, 0.5), (1.0, 0.0, 0.0), 4.0), UNITS, 16), None);
}

#[test]
fn ray_from_above_reports_top_face() {
    let s = single_voxel_store(16);
    let hit = raycast(&s, &ray((0.5, 5.0, 0.5), (0.0, -1.0, 0.0), 10.0), UNITS, 16).unwrap();
    assert_eq!((hit.x, hit.y, hit.z), (0, 0, 0));
    assert_eq!(hit.normal, Face::PosY);
}

#[test]
fn ray_crosses_into_negative_chunk() {
    let mut grid = VoxelGrid::new(16, 16, 16);
    grid.set(15, 2, 3, true);
    let mut s = ChunkStore::new();
    s.insert(Chunk::from_grid(ChunkCoord::new(-1, 0, 0), grid));
    let hit = raycast(&s, &ray((3.0, 2.5, 3.5), (-1.0, 0.0, 0.0), 10.0), UNITS, 16).unwrap();
    assert_eq!(hit.chunk, ChunkCoord::new(-1, 0, 0));
    assert_eq!((hit.x, hit.y, hit.z), (15, 2, 3));
    assert_eq!(hit.normal, Face::PosX);
}

#[test]
fn first_solid_voxel_wins() {
    let mut grid = VoxelGrid::new(16, 16, 16);
    grid.set(2, 0, 0, true);
    grid.set(6, 0, 0, true);
    let mut s = ChunkStore::new();
    s.insert(Chunk::from_grid(ChunkCoord::new(0, 0, 0), grid));
    let hit = raycast(&s, &ray((0.5, 0.5, 0.5), (1.0, 0.0, 0.0), 10.0), UNITS, 16).unwrap();
    assert_eq!(hit.x, 2);
}
