use vox_mesh::chunk::{AssetVoxel, Chunk, Coord, VoxelVisibility};

fn grid(sx: u32, sy: u32, sz: u32) -> Chunk {
    Chunk::new(Coord { x: sx, y: sy, z: sz }).unwrap()
}

#[test]
fn round_trip_all_coords_of_a_small_grid() {
    let c = grid(3, 4, 5);
    let d = c.dims();
    assert_eq!(d, Coord { x: 5, y: 6, z: 7 });
    for z in 0..d.z {
        for y in 0..d.y {
            for x in 0..d.x {
                let co = Coord { x, y, z };
                let i = c.linearize(co);
                assert_eq!(c.delinearize(i), co);
            }
        }
    }
}

#[test]
fn linearize_is_x_fastest_then_y_then_z() {
    let c = grid(1, 1, 1);
    // dims are 3x3x3
    assert_eq!(c.linearize(Coord { x: 0, y: 0, z: 0 }), 0);
    assert_eq!(c.linearize(Coord { x: 1, y: 0, z: 0 }), 1);
    assert_eq!(c.linearize(Coord { x: 0, y: 1, z: 0 }), 3);
    assert_eq!(c.linearize(Coord { x: 0, y: 0, z: 1 }), 9);
    assert_eq!(c.linearize(Coord { x: 2, y: 2, z: 2 }), 26);
}

#[test]
fn new_grid_is_padded_and_empty() {
    let c = grid(2, 3, 4);
    assert_eq!(c.len(), 4 * 5 * 6);
    assert_eq!(c.min(), Coord { x: 1, y: 1, z: 1 });
    assert_eq!(c.max(), Coord { x: 2, y: 3, z: 4 });
    let d = c.dims();
    for z in 0..d.z {
        for y in 0..d.y {
            for x in 0..d.x {
                assert_eq!(c.get(Coord { x, y, z }), 0);
            }
        }
    }
}

#[test]
fn set_writes_one_interior_cell() {
    let mut c = grid(2, 2, 2);
    c.set(Coord { x: 1, y: 2, z: 1 }, 9);
    assert_eq!(c.get(Coord { x: 1, y: 2, z: 1 }), 9);
    assert_eq!(c.get(Coord { x: 1, y: 1, z: 1 }), 0);
    assert_eq!(c.get(Coord { x: 2, y: 2, z: 2 }), 0);
}

#[test]
fn oversized_model_is_rejected() {
    let r = Chunk::new(Coord { x: 4096, y: 4096, z: 4096 });
    assert!(matches!(r, Err(vox_mesh::DecodeError::ModelTooLarge)));
}

#[test]
fn visibility_and_merge_value_classify_cells() {
    let air = AssetVoxel { idx: 0 };
    let solid = AssetVoxel { idx: 17 };
    assert_eq!(air.get_visibility(), VoxelVisibility::Empty);
    assert_eq!(solid.get_visibility(), VoxelVisibility::Opaque);
    assert_eq!(air.merge_value(), 0);
    assert_eq!(solid.merge_value(), 17);
}
