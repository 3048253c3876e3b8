use vox_mesh::chunk::Coord;
use vox_mesh::scene::decode_scene;
use vox_mesh::vox::{IVec3, VoxFile, VoxModel, VoxSceneNode};
use vox_mesh::DecodeError;

fn model(sx: u32, sy: u32, sz: u32) -> VoxModel {
    VoxModel { size: Coord { x: sx, y: sy, z: sz }, voxels: Vec::new() }
}

fn transform(child: u32, t: (i32, i32, i32), name: Option<&str>) -> VoxSceneNode {
    VoxSceneNode::Transform {
        child,
        translation: IVec3 { x: t.0, y: t.1, z: t.2 },
        name: name.map(|s| s.to_string()),
    }
}

fn file(models: Vec<VoxModel>, scenes: Vec<VoxSceneNode>) -> VoxFile {
    VoxFile { models, palette: Vec::new(), materials: Vec::new(), scenes }
}

#[test]
fn a_transform_over_a_group_places_both_shapes() {
    // Transform(t=(0,5,0)) -> Group -> [Shape(model A), Shape(model B)]
    let f = file(
        vec![model(2, 2, 2), model(4, 2, 2)],
        vec![
            transform(1, (0, 5, 0), None),
            VoxSceneNode::Group { children: vec![2, 3] },
            VoxSceneNode::Shape { model_ids: vec![0] },
            VoxSceneNode::Shape { model_ids: vec![1] },
        ],
    );
    let ps = decode_scene(&f).unwrap();
    assert_eq!(ps.len(), 2);

    // The file's (0, 5, 0) maps to the rendering space as (0, 0, 5); in
    // half-cell units that is (0, 0, 10), and each shape is centered by
    // subtracting its own extent (remapped to (sx, sz, sy)).
    assert_eq!(ps[0].model, 0);
    assert_eq!((ps[0].tx, ps[0].ty, ps[0].tz), (-2, -2, 8));
    assert!(ps[0].name.is_none());

    assert_eq!(ps[1].model, 1);
    assert_eq!((ps[1].tx, ps[1].ty, ps[1].tz), (-4, -2, 8));
    assert!(ps[1].name.is_none());
}

#[test]
fn x_translation_is_negated_by_the_axis_remap() {
    let f = file(
        vec![model(2, 2, 2)],
        vec![
            transform(1, (3, 0, 0), None),
            VoxSceneNode::Shape { model_ids: vec![0] },
        ],
    );
    let ps = decode_scene(&f).unwrap();
    assert_eq!((ps[0].tx, ps[0].ty, ps[0].tz), (-6 - 2, -2, -2));
}

#[test]
fn a_named_transform_names_its_shape() {
    let f = file(
        vec![model(1, 1, 1)],
        vec![
            transform(1, (0, 0, 0), Some("arm")),
            VoxSceneNode::Shape { model_ids: vec![0] },
        ],
    );
    let ps = decode_scene(&f).unwrap();
    assert_eq!(ps.len(), 1);
    assert_eq!(ps[0].name.as_deref(), Some("arm"));
}

#[test]
fn an_unnamed_transform_inherits_the_ancestor_name() {
    let f = file(
        vec![model(1, 1, 1)],
        vec![
            transform(1, (0, 0, 0), Some("arm")),
            transform(2, (0, 1, 0), None),
            VoxSceneNode::Shape { model_ids: vec![0] },
        ],
    );
    let ps = decode_scene(&f).unwrap();
    assert_eq!(ps[0].name.as_deref(), Some("arm"));
}

#[test]
fn a_nested_name_overrides_the_ancestor_name() {
    let f = file(
        vec![model(1, 1, 1)],
        vec![
            transform(1, (0, 0, 0), Some("arm")),
            transform(2, (0, 0, 0), Some("hand")),
            VoxSceneNode::Shape { model_ids: vec![0] },
        ],
    );
    let ps = decode_scene(&f).unwrap();
    assert_eq!(ps[0].name.as_deref(), Some("hand"));
}

#[test]
fn sibling_translations_do_not_leak_between_branches() {
    let f = file(
        vec![model(2, 2, 2)],
        vec![
            VoxSceneNode::Group { children: vec![1, 3] },
            transform(2, (0, 0, 7), None),
            VoxSceneNode::Shape { model_ids: vec![0] },
            VoxSceneNode::Shape { model_ids: vec![0] },
        ],
    );
    let ps = decode_scene(&f).unwrap();
    assert_eq!(ps.len(), 2);
    assert_eq!((ps[0].tx, ps[0].ty, ps[0].tz), (-2, 14 - 2, -2));
    assert_eq!((ps[1].tx, ps[1].ty, ps[1].tz), (-2, -2, -2));
}

#[test]
fn translations_accumulate_down_the_path() {
    let f = file(
        vec![model(0, 0, 0)],
        vec![
            transform(1, (1, 2, 3), None),
            transform(2, (10, 20, 30), None),
            VoxSceneNode::Shape { model_ids: vec![0] },
        ],
    );
    let ps = decode_scene(&f).unwrap();
    // Remapped per level: (-x, z, y) doubled; sizes are zero.
    assert_eq!((ps[0].tx, ps[0].ty, ps[0].tz), (-22, 66, 44));
}

#[test]
fn an_empty_scene_has_no_root_node() {
    let f = file(vec![model(1, 1, 1)], Vec::new());
    assert!(matches!(decode_scene(&f), Err(DecodeError::NodeIndexOutOfRange)));
}

#[test]
fn a_dangling_child_index_is_a_decode_error() {
    let f = file(vec![model(1, 1, 1)], vec![transform(9, (0, 0, 0), None)]);
    assert!(matches!(decode_scene(&f), Err(DecodeError::NodeIndexOutOfRange)));
}

#[test]
fn a_dangling_model_index_is_a_decode_error() {
    let f = file(
        vec![model(1, 1, 1)],
        vec![VoxSceneNode::Shape { model_ids: vec![3] }],
    );
    assert!(matches!(decode_scene(&f), Err(DecodeError::ModelIndexOutOfRange)));
}

#[test]
fn a_self_referencing_node_exhausts_the_depth_limit() {
    let f = file(vec![model(1, 1, 1)], vec![transform(0, (0, 0, 0), None)]);
    assert!(matches!(decode_scene(&f), Err(DecodeError::DepthLimitExceeded)));
}

#[test]
fn failing_branches_fail_the_whole_decode() {
    let f = file(
        vec![model(1, 1, 1)],
        vec![
            VoxSceneNode::Group { children: vec![1, 2] },
            VoxSceneNode::Shape { model_ids: vec![0] },
            VoxSceneNode::Shape { model_ids: vec![5] },
        ],
    );
    assert!(matches!(decode_scene(&f), Err(DecodeError::ModelIndexOutOfRange)));
}
