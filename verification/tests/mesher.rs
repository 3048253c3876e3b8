use vox_mesh::chunk::{Chunk, Coord};
use vox_mesh::mesher::Mesh;
use vox_mesh::vox::IVec3;

fn grid(sx: u32, sy: u32, sz: u32) -> Chunk {
    Chunk::new(Coord { x: sx, y: sy, z: sz }).unwrap()
}

fn quad_count(m: &Mesh) -> usize {
    assert_eq!(m.indices.len() % 6, 0);
    assert_eq!(m.positions.len() % 4, 0);
    assert_eq!(m.positions.len() / 4, m.indices.len() / 6);
    assert_eq!(m.normals.len(), m.positions.len());
    assert_eq!(m.color_indices.len(), m.positions.len());
    m.indices.len() / 6
}

#[test]
fn all_air_grid_yields_an_empty_mesh() {
    let c = grid(4, 4, 4);
    let m = c.build();
    assert_eq!(m.positions.len(), 0);
    assert_eq!(m.indices.len(), 0);
    assert_eq!(m.normals.len(), 0);
    assert_eq!(m.color_indices.len(), 0);
}

#[test]
fn solid_cuboid_merges_to_exactly_six_quads() {
    let mut c = grid(3, 2, 4);
    for z in 1..=4 {
        for y in 1..=2 {
            for x in 1..=3 {
                c.set(Coord { x, y, z }, 5);
            }
        }
    }
    let m = c.build();
    assert_eq!(quad_count(&m), 6);
    // Every vertex carries the quad's 0-based palette slot.
    assert!(m.color_indices.iter().all(|&ci| ci == 4));
}

#[test]
fn unit_cube_has_one_quad_per_face() {
    let mut c = grid(1, 1, 1);
    c.set(Coord { x: 1, y: 1, z: 1 }, 7);
    let m = c.build();
    assert_eq!(quad_count(&m), 6);

    // Fixed sweep order: -x, +x, -y, +y, -z, +z; four corners per quad in
    // the order origin, +u, +v, +u+v.
    let co = |x: u32, y: u32, z: u32| Coord { x, y, z };
    let expected = vec![
        // -x: u along y, v along z, face plane x = 1
        co(1, 1, 1), co(1, 2, 1), co(1, 1, 2), co(1, 2, 2),
        // +x: face plane x = 2
        co(2, 1, 1), co(2, 2, 1), co(2, 1, 2), co(2, 2, 2),
        // -y: u along z, v along x, face plane y = 1
        co(1, 1, 1), co(1, 1, 2), co(2, 1, 1), co(2, 1, 2),
        // +y: face plane y = 2
        co(1, 2, 1), co(1, 2, 2), co(2, 2, 1), co(2, 2, 2),
        // -z: u along x, v along y, face plane z = 1
        co(1, 1, 1), co(2, 1, 1), co(1, 2, 1), co(2, 2, 1),
        // +z: face plane z = 2
        co(1, 1, 2), co(2, 1, 2), co(1, 2, 2), co(2, 2, 2),
    ];
    assert_eq!(m.positions, expected);

    let n = |x: i32, y: i32, z: i32| IVec3 { x, y, z };
    let expected_normals = vec![
        n(-1, 0, 0), n(-1, 0, 0), n(-1, 0, 0), n(-1, 0, 0),
        n(1, 0, 0), n(1, 0, 0), n(1, 0, 0), n(1, 0, 0),
        n(0, -1, 0), n(0, -1, 0), n(0, -1, 0), n(0, -1, 0),
        n(0, 1, 0), n(0, 1, 0), n(0, 1, 0), n(0, 1, 0),
        n(0, 0, -1), n(0, 0, -1), n(0, 0, -1), n(0, 0, -1),
        n(0, 0, 1), n(0, 0, 1), n(0, 0, 1), n(0, 0, 1),
    ];
    assert_eq!(m.normals, expected_normals);

    // Two triangles per quad, based at the quad's first vertex; negative
    // faces wind the other way around so all normals face outward.
    assert_eq!(&m.indices[0..6], &[0, 2, 3, 0, 3, 1]);
    assert_eq!(&m.indices[6..12], &[4, 5, 7, 4, 7, 6]);

    assert!(m.color_indices.iter().all(|&ci| ci == 6));
}

#[test]
fn checkerboard_isolated_voxels_never_merge() {
    // Voxels with no two adjacent: one quad per visible face, 6k in all.
    let mut c = grid(3, 3, 3);
    let mut k = 0;
    for z in 0..3u32 {
        for y in 0..3u32 {
            for x in 0..3u32 {
                if (x + y + z) % 2 == 0 {
                    c.set(Coord { x: x + 1, y: y + 1, z: z + 1 }, 2);
                    k += 1;
                }
            }
        }
    }
    assert_eq!(k, 14);
    let m = c.build();
    assert_eq!(quad_count(&m), 6 * k);
}

#[test]
fn two_same_material_voxels_in_a_row_merge() {
    let mut c = grid(2, 1, 1);
    c.set(Coord { x: 1, y: 1, z: 1 }, 3);
    c.set(Coord { x: 2, y: 1, z: 1 }, 3);
    let m = c.build();
    // A 2x1x1 bar: 6 faces as quads, the x-ends 1x1, the four sides 2x1
    // merged: exactly 6 quads.
    assert_eq!(quad_count(&m), 6);
}

#[test]
fn different_materials_do_not_merge() {
    let mut c = grid(2, 1, 1);
    c.set(Coord { x: 1, y: 1, z: 1 }, 3);
    c.set(Coord { x: 2, y: 1, z: 1 }, 4);
    let m = c.build();
    // Each voxel keeps 5 visible faces (the shared face pair is hidden);
    // nothing merges across the material change.
    assert_eq!(quad_count(&m), 10);
}

#[test]
fn internal_voids_are_not_meshed_away() {
    // A 3x3x3 shell with an air bubble in the middle: the outside merges
    // to 6 quads, and the bubble's 6 inner faces are emitted too.
    let mut c = grid(3, 3, 3);
    for z in 1..=3 {
        for y in 1..=3 {
            for x in 1..=3 {
                if !(x == 2 && y == 2 && z == 2) {
                    c.set(Coord { x, y, z }, 1);
                }
            }
        }
    }
    let m = c.build();
    assert_eq!(quad_count(&m), 12);
}

#[test]
fn meshing_the_same_grid_twice_is_byte_identical() {
    let build = || {
        let mut c = grid(4, 3, 2);
        for x in 1..=4 {
            c.set(Coord { x, y: 2, z: 1 }, (x % 3 + 1) as u8);
        }
        c.set(Coord { x: 1, y: 1, z: 2 }, 9);
        c.build()
    };
    let a = build();
    let b = build();
    assert_eq!(a.positions, b.positions);
    assert_eq!(a.normals, b.normals);
    assert_eq!(a.color_indices, b.color_indices);
    assert_eq!(a.indices, b.indices);
}
