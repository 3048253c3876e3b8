use vox_mesh::assemble::{build_grid, decode_file, extract_lights, VoxelLight};
use vox_mesh::chunk::Coord;
use vox_mesh::palette::Palette;
use vox_mesh::vox::{IVec3, VoxColor, VoxFile, VoxMaterial, VoxModel, VoxSceneNode, VoxVoxel};
use vox_mesh::DecodeError;

fn gray() -> VoxColor {
    VoxColor { r: 128, g: 128, b: 128, a: 255 }
}

fn plain_materials(n: usize) -> Vec<VoxMaterial> {
    (0..n).map(|_| VoxMaterial { emit: None }).collect()
}

fn single_model_file(m: VoxModel) -> VoxFile {
    VoxFile {
        models: vec![m],
        palette: vec![gray(); 8],
        materials: plain_materials(8),
        scenes: vec![VoxSceneNode::Shape { model_ids: vec![0] }],
    }
}

#[test]
fn one_emissive_voxel_yields_exactly_one_light() {
    // A dark 4x4x4 model with one emissive cell: material 5 has alpha 1.0.
    let mut materials = plain_materials(8);
    materials[5] = VoxMaterial { emit: Some(b"1.0".to_vec()) };
    let f = VoxFile {
        models: vec![VoxModel {
            size: Coord { x: 4, y: 4, z: 4 },
            voxels: vec![
                VoxVoxel { x: 0, y: 0, z: 0, i: 2 },
                VoxVoxel { x: 3, y: 3, z: 3, i: 2 },
                VoxVoxel { x: 1, y: 2, z: 3, i: 5 },
            ],
        }],
        palette: vec![gray(); 8],
        materials,
        scenes: vec![VoxSceneNode::Shape { model_ids: vec![0] }],
    };
    let scene = decode_file(&f).unwrap();
    assert_eq!(scene.meshes.len(), 1);
    let lights = &scene.meshes[0].lights;
    assert_eq!(lights.len(), 1);
    // The file's (x, y, z) = (1, 2, 3) lands at padded grid coordinate
    // (x + 1, z + 1, y + 1) = (2, 4, 3); alpha 1.0 times unit intensity is
    // 1000 thousandths.
    assert_eq!(
        lights[0],
        VoxelLight { x: 2, y: 4, z: 3, intensity_milli: 1000 }
    );
}

#[test]
fn a_whole_file_decodes_into_mesh_light_records() {
    let f = single_model_file(VoxModel {
        size: Coord { x: 2, y: 2, z: 2 },
        voxels: (0..8u8)
            .map(|i| VoxVoxel { x: i & 1, y: (i >> 1) & 1, z: (i >> 2) & 1, i: 3 })
            .collect(),
    });
    let scene = decode_file(&f).unwrap();
    assert_eq!(scene.palette.len(), 8);
    assert_eq!(scene.meshes.len(), 1);
    let rec = &scene.meshes[0];
    // A solid 2x2x2 cube merges to 6 quads.
    assert_eq!(rec.mesh.indices.len(), 36);
    assert_eq!(rec.mesh.positions.len(), 24);
    assert!(rec.mesh.color_indices.iter().all(|&ci| ci == 3));
    assert!(rec.lights.is_empty());
    assert!(rec.name.is_none());
    // Centering: the model's half extent in half-cell units.
    assert_eq!((rec.tx, rec.ty, rec.tz), (-2, -2, -2));
}

#[test]
fn decoding_is_deterministic_across_runs() {
    let build = || {
        let f = single_model_file(VoxModel {
            size: Coord { x: 3, y: 2, z: 2 },
            voxels: vec![
                VoxVoxel { x: 0, y: 0, z: 0, i: 1 },
                VoxVoxel { x: 1, y: 0, z: 0, i: 1 },
                VoxVoxel { x: 2, y: 1, z: 1, i: 4 },
            ],
        });
        decode_file(&f).unwrap()
    };
    let a = build();
    let b = build();
    assert_eq!(a.meshes.len(), b.meshes.len());
    for (ra, rb) in a.meshes.iter().zip(b.meshes.iter()) {
        assert_eq!(ra.mesh.positions, rb.mesh.positions);
        assert_eq!(ra.mesh.normals, rb.mesh.normals);
        assert_eq!(ra.mesh.color_indices, rb.mesh.color_indices);
        assert_eq!(ra.mesh.indices, rb.mesh.indices);
        assert_eq!(ra.lights, rb.lights);
    }
}

#[test]
fn voxels_outside_the_model_size_are_a_decode_error() {
    let f = single_model_file(VoxModel {
        size: Coord { x: 2, y: 2, z: 2 },
        voxels: vec![VoxVoxel { x: 2, y: 0, z: 0, i: 1 }],
    });
    assert!(matches!(decode_file(&f), Err(DecodeError::VoxelCoordOutOfRange)));
}

#[test]
fn material_indices_beyond_the_palette_are_a_decode_error() {
    let f = single_model_file(VoxModel {
        size: Coord { x: 2, y: 2, z: 2 },
        voxels: vec![VoxVoxel { x: 0, y: 0, z: 0, i: 8 }],
    });
    assert!(matches!(decode_file(&f), Err(DecodeError::MaterialIndexOutOfRange)));
}

#[test]
fn an_oversized_model_is_a_decode_error() {
    let f = single_model_file(VoxModel {
        size: Coord { x: 4000, y: 4000, z: 4000 },
        voxels: Vec::new(),
    });
    assert!(matches!(decode_file(&f), Err(DecodeError::ModelTooLarge)));
}

#[test]
fn an_empty_palette_fails_the_whole_file() {
    let f = VoxFile {
        models: vec![VoxModel { size: Coord { x: 1, y: 1, z: 1 }, voxels: Vec::new() }],
        palette: Vec::new(),
        materials: Vec::new(),
        scenes: vec![VoxSceneNode::Shape { model_ids: vec![0] }],
    };
    assert!(matches!(decode_file(&f), Err(DecodeError::EmptyPalette)));
}

#[test]
fn an_empty_model_yields_an_empty_record() {
    let f = single_model_file(VoxModel {
        size: Coord { x: 3, y: 3, z: 3 },
        voxels: Vec::new(),
    });
    let scene = decode_file(&f).unwrap();
    assert_eq!(scene.meshes.len(), 1);
    assert!(scene.meshes[0].mesh.positions.is_empty());
    assert!(scene.meshes[0].mesh.indices.is_empty());
    assert!(scene.meshes[0].lights.is_empty());
}

#[test]
fn records_keep_the_placement_order() {
    let mut f = single_model_file(VoxModel {
        size: Coord { x: 1, y: 1, z: 1 },
        voxels: vec![VoxVoxel { x: 0, y: 0, z: 0, i: 1 }],
    });
    f.models.push(VoxModel { size: Coord { x: 1, y: 1, z: 1 }, voxels: Vec::new() });
    f.scenes = vec![
        VoxSceneNode::Group { children: vec![1, 2] },
        VoxSceneNode::Transform {
            child: 3,
            translation: IVec3 { x: 0, y: 0, z: 0 },
            name: Some("first".to_string()),
        },
        VoxSceneNode::Transform {
            child: 4,
            translation: IVec3 { x: 0, y: 0, z: 0 },
            name: Some("second".to_string()),
        },
        VoxSceneNode::Shape { model_ids: vec![0] },
        VoxSceneNode::Shape { model_ids: vec![1] },
    ];
    let scene = decode_file(&f).unwrap();
    assert_eq!(scene.meshes.len(), 2);
    assert_eq!(scene.meshes[0].name.as_deref(), Some("first"));
    assert_eq!(scene.meshes[1].name.as_deref(), Some("second"));
    assert!(!scene.meshes[0].mesh.positions.is_empty());
    assert!(scene.meshes[1].mesh.positions.is_empty());
}

#[test]
fn lights_scale_alpha_by_intensity() {
    // alpha 0.25 at unit intensity: 250 thousandths.
    let mut materials = plain_materials(4);
    materials[0] = VoxMaterial { emit: Some(b"0.25".to_vec()) };
    let f = VoxFile {
        models: vec![VoxModel {
            size: Coord { x: 1, y: 1, z: 1 },
            voxels: vec![VoxVoxel { x: 0, y: 0, z: 0, i: 0 }],
        }],
        palette: vec![gray(); 4],
        materials,
        scenes: vec![VoxSceneNode::Shape { model_ids: vec![0] }],
    };
    let scene = decode_file(&f).unwrap();
    let lights = &scene.meshes[0].lights;
    assert_eq!(lights.len(), 1);
    assert_eq!(lights[0].intensity_milli, 250);
}

#[test]
fn extract_lights_scans_every_emissive_cell() {
    let mut materials = plain_materials(4);
    materials[1] = VoxMaterial { emit: Some(b"0.5".to_vec()) };
    let f = VoxFile {
        models: vec![VoxModel {
            size: Coord { x: 2, y: 1, z: 1 },
            voxels: vec![
                VoxVoxel { x: 0, y: 0, z: 0, i: 1 },
                VoxVoxel { x: 1, y: 0, z: 0, i: 1 },
            ],
        }],
        palette: vec![gray(); 4],
        materials,
        scenes: Vec::new(),
    };
    let p = Palette::resolve(&f).unwrap();
    let c = build_grid(&f.models[0], p.len()).unwrap();
    let lights = extract_lights(&c, &p);
    assert_eq!(
        lights,
        vec![
            VoxelLight { x: 1, y: 1, z: 1, intensity_milli: 500 },
            VoxelLight { x: 2, y: 1, z: 1, intensity_milli: 500 },
        ]
    );
}
