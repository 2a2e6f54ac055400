use voxel_world::grid::VoxelGrid;
use voxel_world::mesher::{build_mesh, greedy_boxes, mesh_from_boxes, Face, VoxelBox};

fn contains(b: &VoxelBox, x: u32, y: u32, z: u32) -> bool {
    b.x <= x && x < b.x + b.nx && b.y <= y && y < b.y + b.ny && b.z <= z && z < b.z + b.nz
}

fn check_cover(g: &VoxelGrid, boxes: &[VoxelBox]) {
    for x in 0..g.width() {
        for y in 0..g.height() {
            for z in 0..g.depth() {
                let n = boxes.iter().filter(|b| contains(b, x, y, z)).count();
                if g.cell(x, y, z) {
                    assert_eq!(n, 1, "solid voxel ({}, {}, {}) covered {} times", x, y, z, n);
                } else {
                    assert_eq!(n, 0, "empty voxel ({}, {}, {}) covered", x, y, z);
                }
            }
        }
    }
}

#[test]
fn boxes_cover_each_solid_voxel_once() {
    let mut g = VoxelGrid::new(5, 4, 3);
    let mut seed: u32 = 12345;
    for x in 0..5 {
        for y in 0..4 {
            for z in 0..3 {
                seed = seed.wrapping_mul(1103515245).wrapping_add(12345);
                g.set(x, y, z, (seed >> 16) % 3 != 0);
            }
        }
    }
    let boxes = greedy_boxes(&g);
    check_cover(&g, &boxes);
}

#[test]
fn boxes_cover_terrain() {
    let heights = vec![3, 0, 5, 5, 1, 2, 4, 4, 4];
    let g = VoxelGrid::from_heights(3, 6, 3, &heights);
    let boxes = greedy_boxes(&g);
    check_cover(&g, &boxes);
}

#[test]
fn empty_grid_gives_no_boxes_and_empty_mesh() {
    let g = VoxelGrid::new(4, 4, 4);
    assert!(greedy_boxes(&g).is_empty());
    let m = build_mesh(&g).unwrap();
    assert!(m.boxes.is_empty());
    assert!(m.mesh.vertices.is_empty());
    assert!(m.mesh.indices.is_empty());
}

#[test]
fn full_grid_gives_one_box() {
    let heights = vec![7; 3 * 5];
    let g = VoxelGrid::from_heights(3, 4, 5, &heights);
    let boxes = greedy_boxes(&g);
    assert_eq!(boxes, vec![VoxelBox { x: 0, y: 0, z: 0, nx: 3, ny: 4, nz: 5 }]);
    let m = build_mesh(&g).unwrap();
    assert_eq!(m.mesh.vertices.len(), 24);
    assert_eq!(m.mesh.indices.len(), 36);
}

#[test]
fn scan_grows_x_then_y_then_z() {
    // An L shape in the x-y plane: row y = 0 is solid for x in 0..3, and
    // column x = 0 for y in 0..2.
    let mut g = VoxelGrid::new(3, 2, 1);
    g.set(0, 0, 0, true);
    g.set(1, 0, 0, true);
    g.set(2, 0, 0, true);
    g.set(0, 1, 0, true);
    let boxes = greedy_boxes(&g);
    assert_eq!(
        boxes,
        vec![
            VoxelBox { x: 0, y: 0, z: 0, nx: 3, ny: 1, nz: 1 },
            VoxelBox { x: 0, y: 1, z: 0, nx: 1, ny: 1, nz: 1 },
        ]
    );
}

#[test]
fn mesh_of_one_box_has_outward_faces() {
    let b = VoxelBox { x: 1, y: 2, z: 3, nx: 2, ny: 3, nz: 4 };
    let m = mesh_from_boxes(&vec![b]);
    assert_eq!(m.vertices.len(), 24);
    assert_eq!(m.indices, {
        let mut v = Vec::new();
        for f in 0..6u32 {
            let base = 4 * f;
            v.extend_from_slice(&[base, base + 1, base + 2, base, base + 2, base + 3]);
        }
        v
    });
    let faces = [Face::NegX, Face::PosX, Face::NegY, Face::PosY, Face::NegZ, Face::PosZ];
    for (f, face) in faces.iter().enumerate() {
        let quad = &m.vertices[4 * f..4 * f + 4];
        for (k, v) in quad.iter().enumerate() {
            assert_eq!(v.face, *face);
            let uv = [(0, 0), (1, 0), (1, 1), (0, 1)][k];
            assert_eq!((v.u, v.v), uv);
        }
        let n = face.normal();
        // Every corner lies on the face's plane.
        for v in quad {
            match face {
                Face::NegX => assert_eq!(v.x, 1),
                Face::PosX => assert_eq!(v.x, 3),
                Face::NegY => assert_eq!(v.y, 2),
                Face::PosY => assert_eq!(v.y, 5),
                Face::NegZ => assert_eq!(v.z, 3),
                Face::PosZ => assert_eq!(v.z, 7),
            }
        }
        // Both triangles wind counter-clockwise seen from outside.
        for tri in [[0usize, 1, 2], [0, 2, 3]] {
            let p = |i: usize| (quad[tri[i]].x as i64, quad[tri[i]].y as i64, quad[tri[i]].z as i64);
            let (a, b, c) = (p(0), p(1), p(2));
            let u = (b.0 - a.0, b.1 - a.1, b.2 - a.2);
            let w = (c.0 - a.0, c.1 - a.1, c.2 - a.2);
            let cross = (u.1 * w.2 - u.2 * w.1, u.2 * w.0 - u.0 * w.2, u.0 * w.1 - u.1 * w.0);
            let dot = cross.0 * n.0 as i64 + cross.1 * n.1 as i64 + cross.2 * n.2 as i64;
            assert!(dot > 0, "face {:?} winds inward", face);
        }
    }
}

#[test]
fn second_box_indices_start_after_first() {
    let a = VoxelBox { x: 0, y: 0, z: 0, nx: 1, ny: 1, nz: 1 };
    let b = VoxelBox { x: 4, y: 0, z: 0, nx: 1, ny: 1, nz: 1 };
    let m = mesh_from_boxes(&vec![a, b]);
    assert_eq!(m.vertices.len(), 48);
    assert_eq!(m.indices.len(), 72);
    assert_eq!(&m.indices[36..42], &[24, 25, 26, 24, 26, 27]);
    assert_eq!((m.vertices[24].x, m.vertices[24].y, m.vertices[24].z), (4, 0, 0));
    assert_eq!((m.vertices[25].x, m.vertices[25].y, m.vertices[25].z), (4, 0, 1));
}

#[test]
fn same_voxels_give_same_mesh() {
    let heights = vec![2, 5, 1, 0, 3, 3, 4, 1, 2, 2, 6, 0];
    let g = VoxelGrid::from_heights(4, 6, 3, &heights);
    let a = build_mesh(&g).unwrap();
    let b = build_mesh(&g).unwrap();
    assert_eq!(a.boxes, b.boxes);
    assert_eq!(a.mesh.vertices, b.mesh.vertices);
    assert_eq!(a.mesh.indices, b.mesh.indices);
}
