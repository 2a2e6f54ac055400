use voxel_world::chunk::Chunk;
use voxel_world::coords::ChunkCoord;
use voxel_world::grid::VoxelGrid;
use voxel_world::store::{BuildOutcome, ChunkStore};

fn flat_chunk(x: i32, z: i32, size: u32, height: u32, fill: u32) -> Chunk {
    let heights = vec![fill; (size * size) as usize];
    Chunk::new(ChunkCoord::new(x, 0, z), size, height, size, &heights)
}

fn flat_chunk_at(c: ChunkCoord, fill: u32) -> Chunk {
    Chunk::new(c, 4, 4, 4, &vec![fill; 16])
}

#[test]
fn new_chunk_is_dirty_terrain() {
    let heights: Vec<u32> = (0..16).map(|i| i % 5).collect();
    let c = Chunk::new(ChunkCoord::new(2, 0, -3), 4, 8, 4, &heights);
    assert!(c.dirty);
    assert_eq!(c.renderable, None);
    assert_eq!(c.position, ChunkCoord::new(2, 0, -3));
    for x in 0..4u32 {
        for z in 0..4u32 {
            for y in 0..8u32 {
                assert_eq!(c.grid().cell(x, y, z), y < heights[(x + z * 4) as usize]);
            }
        }
    }
}

#[test]
fn noop_write_leaves_chunk_clean() {
    let mut c = flat_chunk(0, 0, 4, 4, 2);
    assert!(c.begin_build(0));
    assert!(c.finish_build());
    assert!(!c.dirty);
    assert!(!c.set_voxel(0, 0, 0, true));
    assert!(!c.remove_voxel(0, 3, 0));
    assert!(!c.dirty);
    assert!(c.remove_voxel(0, 0, 0));
    assert!(c.dirty);
    assert!(!c.grid().get(0, 0, 0));
}

#[test]
fn edit_during_build_keeps_chunk_dirty() {
    let mut c = flat_chunk(0, 0, 4, 4, 2);
    assert!(c.begin_build(0));
    assert!(!c.begin_build(0));
    assert!(c.remove_voxel(1, 1, 1));
    assert!(!c.finish_build());
    assert!(c.dirty);
    assert!(!c.is_building_now());
    assert!(c.begin_build(0));
    assert!(c.finish_build());
    assert!(!c.dirty);
    assert!(!c.finish_build());
}

#[test]
fn solidity_looks_into_neighbours() {
    let here = flat_chunk(0, 0, 4, 4, 1);
    let west = flat_chunk(-1, 0, 4, 4, 2);
    let mut east = flat_chunk(1, 0, 4, 4, 0);
    east.set_voxel(0, 3, 2, true);
    let neighbors: [Option<&Chunk>; 6] = [Some(&west), Some(&east), None, None, None, None];
    assert!(here.is_voxel_solid(0, 0, 0, &neighbors));
    assert!(!here.is_voxel_solid(0, 1, 0, &neighbors));
    assert!(here.is_voxel_solid(-1, 1, 0, &neighbors));
    assert!(!here.is_voxel_solid(-1, 2, 0, &neighbors));
    assert!(here.is_voxel_solid(4, 3, 2, &neighbors));
    assert!(!here.is_voxel_solid(4, 3, 1, &neighbors));
    // Missing neighbours, edges and corners are empty.
    assert!(!here.is_voxel_solid(0, -1, 0, &neighbors));
    assert!(!here.is_voxel_solid(0, 0, -1, &neighbors));
    assert!(!here.is_voxel_solid(-1, 0, -1, &neighbors));
}

#[test]
fn visibility_and_normal_follow_open_faces() {
    let here = flat_chunk(0, 0, 4, 4, 3);
    let west = flat_chunk(-1, 0, 4, 4, 2);
    let neighbors: [Option<&Chunk>; 6] = [Some(&west), None, None, None, None, None];
    // Buried voxel: every face closed.
    assert!(!here.is_voxel_visible(1, 1, 1, &neighbors));
    assert_eq!(here.calculate_normal(1, 1, 1, &neighbors), (0, 0, 0));
    // Top layer: the face above is open.
    assert!(here.is_voxel_visible(1, 2, 1, &neighbors));
    assert_eq!(here.calculate_normal(1, 2, 1, &neighbors), (0, 1, 0));
    // East edge with no east neighbour: +x and +y open.
    assert_eq!(here.calculate_normal(3, 2, 1, &neighbors), (1, 1, 0));
    // West edge: the west chunk is only two voxels high there.
    assert_eq!(here.calculate_normal(0, 2, 1, &neighbors), (-1, 1, 0));
    assert_eq!(here.calculate_normal(0, 1, 1, &neighbors), (0, 0, 0));
    // Bottom layer: nothing below this chunk.
    assert_eq!(here.calculate_normal(1, 0, 1, &neighbors), (0, -1, 0));
}

#[test]
fn store_insert_get_remove() {
    let mut s = ChunkStore::new();
    assert_eq!(s.len(), 0);
    let mut c = flat_chunk_at(ChunkCoord::new(1, 0, 2), 1);
    c.renderable = Some(77);
    assert!(s.insert(c));
    assert!(!s.insert(flat_chunk_at(ChunkCoord::new(1, 0, 2), 0)));
    assert!(s.insert(flat_chunk_at(ChunkCoord::new(2, 0, 2), 0)));
    assert_eq!(s.len(), 2);
    assert!(s.contains(ChunkCoord::new(1, 0, 2)));
    assert_eq!(s.get(ChunkCoord::new(1, 0, 2)).unwrap().renderable, Some(77));
    assert!(s.get(ChunkCoord::new(0, 0, 0)).is_none());
    let gone = s.remove(ChunkCoord::new(1, 0, 2)).unwrap();
    assert_eq!(gone.renderable, Some(77));
    assert!(s.remove(ChunkCoord::new(1, 0, 2)).is_none());
    assert_eq!(s.len(), 1);
    assert!(s.set_renderable(ChunkCoord::new(2, 0, 2), Some(5)));
    assert!(!s.set_renderable(ChunkCoord::new(9, 0, 9), Some(5)));
    assert_eq!(s.get(ChunkCoord::new(2, 0, 2)).unwrap().renderable, Some(5));
}

#[test]
fn store_neighbours_in_slot_order() {
    let mut s = ChunkStore::new();
    s.insert(flat_chunk(0, 0, 2, 2, 1));
    s.insert(flat_chunk(-1, 0, 2, 2, 1));
    s.insert(flat_chunk(0, 1, 2, 2, 1));
    let n = s.neighbors(ChunkCoord::new(0, 0, 0));
    assert_eq!(n[0].unwrap().position, ChunkCoord::new(-1, 0, 0));
    assert!(n[1].is_none() && n[2].is_none() && n[3].is_none() && n[4].is_none());
    assert_eq!(n[5].unwrap().position, ChunkCoord::new(0, 0, 1));
}

#[test]
fn removing_boundary_voxel_dirties_neighbour() {
    let mut s = ChunkStore::new();
    for x in -1..=1 {
        let mut c = flat_chunk(x, 0, 16, 16, 8);
        assert!(c.begin_build(0));
        assert!(c.finish_build());
        s.insert(c);
    }
    let dirtied = s.remove_voxel(ChunkCoord::new(0, 0, 0), 0, 3, 5);
    assert_eq!(dirtied, vec![ChunkCoord::new(0, 0, 0), ChunkCoord::new(-1, 0, 0)]);
    assert!(s.get(ChunkCoord::new(0, 0, 0)).unwrap().dirty);
    assert!(s.get(ChunkCoord::new(-1, 0, 0)).unwrap().dirty);
    assert!(!s.get(ChunkCoord::new(1, 0, 0)).unwrap().dirty);
    assert!(!s.get(ChunkCoord::new(0, 0, 0)).unwrap().grid().get(0, 3, 5));
}

#[test]
fn removing_inner_or_empty_voxel_dirties_only_what_changed() {
    let mut s = ChunkStore::new();
    for x in -1..=1 {
        let mut c = flat_chunk(x, 0, 16, 16, 8);
        c.begin_build(0);
        c.finish_build();
        s.insert(c);
    }
    assert!(s.remove_voxel(ChunkCoord::new(0, 0, 0), 0, 12, 5).is_empty());
    assert!(s.remove_voxel(ChunkCoord::new(5, 0, 5), 0, 1, 1).is_empty());
    assert!(!s.get(ChunkCoord::new(0, 0, 0)).unwrap().dirty);
    let dirtied = s.remove_voxel(ChunkCoord::new(0, 0, 0), 7, 3, 7);
    assert_eq!(dirtied, vec![ChunkCoord::new(0, 0, 0)]);
    assert!(!s.get(ChunkCoord::new(-1, 0, 0)).unwrap().dirty);
    // The far corner touches +x, -y and +z: only +x is loaded.
    let dirtied = s.remove_voxel(ChunkCoord::new(0, 0, 0), 15, 0, 15);
    assert_eq!(dirtied, vec![ChunkCoord::new(0, 0, 0), ChunkCoord::new(1, 0, 0)]);
}

#[test]
fn build_outcomes() {
    let mut s = ChunkStore::new();
    s.insert(flat_chunk(0, 0, 4, 4, 2));
    s.insert(flat_chunk(1, 0, 4, 4, 2));
    let c0 = ChunkCoord::new(0, 0, 0);
    let c1 = ChunkCoord::new(1, 0, 0);
    let mut pending = s.chunks_needing_build();
    pending.sort_by_key(|c| c.x);
    assert_eq!(pending, vec![c0, c1]);
    let t0 = s.begin_build(c0).unwrap();
    assert_eq!(t0, 0);
    assert_eq!(s.begin_build(c0), None);
    assert_eq!(s.chunks_needing_build(), vec![c1]);
    assert_eq!(s.finish_build(c0, t0 + 1), BuildOutcome::Discarded);
    assert_eq!(s.finish_build(c0, t0), BuildOutcome::Current);
    assert!(!s.get(c0).unwrap().dirty);
    assert_eq!(s.finish_build(c0, t0), BuildOutcome::Discarded);
    let t1 = s.begin_build(c1).unwrap();
    assert_eq!(t1, 1);
    s.remove_voxel(c1, 1, 1, 1);
    assert_eq!(s.finish_build(c1, t1), BuildOutcome::Stale);
    assert!(s.get(c1).unwrap().dirty);
    let t2 = s.begin_build(c1).unwrap();
    s.remove(c1);
    assert_eq!(s.finish_build(c1, t2), BuildOutcome::Discarded);
    assert!(s.chunks_needing_build().is_empty());
}

#[test]
fn result_for_evicted_chunk_is_not_taken_for_its_successor() {
    let mut s = ChunkStore::new();
    let c = ChunkCoord::new(3, 0, 3);
    s.insert(flat_chunk(3, 3, 4, 4, 2));
    let old_ticket = s.begin_build(c).unwrap();
    s.remove(c);
    s.insert(flat_chunk(3, 3, 4, 4, 1));
    let new_ticket = s.begin_build(c).unwrap();
    assert!(new_ticket > old_ticket);
    assert_eq!(s.finish_build(c, old_ticket), BuildOutcome::Discarded);
    assert!(s.get(c).unwrap().building);
    assert_eq!(s.finish_build(c, new_ticket), BuildOutcome::Current);
}

#[test]
fn chunk_mesh_of_flat_terrain_is_one_box() {
    let c = flat_chunk(0, 0, 16, 64, 10);
    let m = c.build_mesh().unwrap();
    assert_eq!(m.boxes.len(), 1);
    let b = m.boxes[0];
    assert_eq!((b.x, b.y, b.z, b.nx, b.ny, b.nz), (0, 0, 0, 16, 10, 16));
    let empty = Chunk::from_grid(ChunkCoord::new(0, 0, 0), VoxelGrid::new(2, 2, 2));
    assert!(empty.build_mesh().unwrap().mesh.vertices.is_empty());
}
