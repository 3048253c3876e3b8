//! The scene-graph decoder: flattens the file's tree of transform, group
//! and shape nodes into a list of placed models, accumulating a
//! translation and an inheritable name along each path.
//!
//! Coordinates are re-expressed in the rendering space's convention: the
//! file's `(x, y, z)` becomes `(-x, z, y)` (y up), and translations are
//! kept in half-cell units so that centering a model on its placement
//! (subtracting half its extent) stays exact in integers. Every node and
//! model index is validated; a graph nesting deeper than
//! [`MAX_SCENE_DEPTH`] is a decode error, so traversal cannot recurse
//! without bound on adversarial input.

use crate::vox::{VoxFile, VoxSceneNode};
use crate::DecodeError;
use vstd::prelude::*;

verus! {

/// Traversal depth limit: nesting deeper than this is a decode error.
pub const MAX_SCENE_DEPTH: u32 = 255;

/// Half-cell translation budget each traversal level can add: twice the
/// magnitude of a 32-bit node translation.
pub const LEVEL_BOUND: i64 = 0x1_0000_0000;

/// One placed model: a model index, a world translation in half-cell
/// units, and the name inherited from the path's transform nodes, if any.
pub struct Placement {
    pub model: u32,
    pub tx: i64,
    pub ty: i64,
    pub tz: i64,
    pub name: Option<String>,
}

/// A placement at the specification level.
pub ghost struct PlacementV {
    pub model: int,
    pub tx: int,
    pub ty: int,
    pub tz: int,
    pub name: Option<Seq<char>>,
}

/// The specification-level value of one placement.
pub open spec fn place_v(p: Placement) -> PlacementV {
    PlacementV {
        model: p.model as int,
        tx: p.tx as int,
        ty: p.ty as int,
        tz: p.tz as int,
        name: p.name.deep_view(),
    }
}

/// The specification-level value of a placement list.
pub open spec fn view_placements(s: Seq<Placement>) -> Seq<PlacementV> {
    Seq::new(s.len(), |i: int| place_v(s[i]))
}

/// How much accumulated translation a traversal that has `fuel` levels
/// left may already carry.
pub open spec fn acc_bound(fuel: int) -> int {
    (MAX_SCENE_DEPTH - fuel) * LEVEL_BOUND
}

/// The placements a shape node's model references emit, from reference
/// `mi` on: each reference yields one placement whose translation is the
/// accumulated one shifted back by the model's (axis-remapped) extent,
/// centering the model. An out-of-range model index is a decode error.
pub open spec fn shape_placements_spec(
    file: VoxFile,
    ids: Seq<u32>,
    mi: int,
    tx: int,
    ty: int,
    tz: int,
    name: Option<Seq<char>>,
) -> Result<Seq<PlacementV>, DecodeError>
    decreases ids.len() - mi,
{
    if mi < 0 || mi >= ids.len() {
        Ok(Seq::empty())
    } else {
        let id = ids[mi];
        if id >= file.models@.len() {
            Err(DecodeError::ModelIndexOutOfRange)
        } else {
            let m = file.models@[id as int];
            let p = PlacementV {
                model: id as int,
                tx: tx - m.size.x,
                ty: ty - m.size.z,
                tz: tz - m.size.y,
                name: name,
            };
            match shape_placements_spec(file, ids, mi + 1, tx, ty, tz, name) {
                Ok(rest) => Ok(seq![p] + rest),
                Err(e) => Err(e),
            }
        }
    }
}

/// The placements the subtree at node `idx` emits, carrying the
/// accumulated half-cell translation `(tx, ty, tz)`, the inherited name,
/// and `fuel` remaining traversal levels.
///
/// A transform node adds its (axis-remapped, doubled) translation and may
/// override the name; a group fans out to its children; a shape emits one
/// placement per model reference. An out-of-range node index is a decode
/// error, and so is running out of fuel.
pub open spec fn decode_node_spec(
    file: VoxFile,
    idx: int,
    tx: int,
    ty: int,
    tz: int,
    name: Option<Seq<char>>,
    fuel: nat,
) -> Result<Seq<PlacementV>, DecodeError>
    decreases fuel, 0nat, 0nat,
{
    if fuel == 0 {
        Err(DecodeError::DepthLimitExceeded)
    } else if idx < 0 || idx >= file.scenes@.len() {
        Err(DecodeError::NodeIndexOutOfRange)
    } else {
        match file.scenes@[idx] {
            VoxSceneNode::Transform { child, translation, name: nm } => decode_node_spec(
                file,
                child as int,
                tx - 2 * translation.x,
                ty + 2 * translation.z,
                tz + 2 * translation.y,
                match nm {
                    Some(s) => Some(s@),
                    None => name,
                },
                (fuel - 1) as nat,
            ),
            VoxSceneNode::Group { children } => decode_children_spec(
                file,
                children@,
                0,
                tx,
                ty,
                tz,
                name,
                (fuel - 1) as nat,
            ),
            VoxSceneNode::Shape { model_ids } => shape_placements_spec(
                file,
                model_ids@,
                0,
                tx,
                ty,
                tz,
                name,
            ),
        }
    }
}

/// The placements a group's children from `ci` on emit, concatenated in
/// child order; the first failing child fails the whole decode.
pub open spec fn decode_children_spec(
    file: VoxFile,
    children: Seq<u32>,
    ci: int,
    tx: int,
    ty: int,
    tz: int,
    name: Option<Seq<char>>,
    fuel: nat,
) -> Result<Seq<PlacementV>, DecodeError>
    decreases fuel, 1nat, children.len() - ci,
{
    if ci < 0 || ci >= children.len() {
        Ok(Seq::empty())
    } else {
        match decode_node_spec(file, children[ci] as int, tx, ty, tz, name, fuel) {
            Ok(first) => match decode_children_spec(
                file,
                children,
                ci + 1,
                tx,
                ty,
                tz,
                name,
                fuel,
            ) {
                Ok(rest) => Ok(first + rest),
                Err(e) => Err(e),
            },
            Err(e) => Err(e),
        }
    }
}

/// What decoding a whole file's scene graph yields: the traversal starts
/// at node 0 with no translation, no name, and the full fuel budget.
pub open spec fn decode_scene_spec(file: VoxFile) -> Result<Seq<PlacementV>, DecodeError> {
    decode_node_spec(file, 0, 0, 0, 0, None, MAX_SCENE_DEPTH as nat)
}

/// One step of a group walk: after a child decodes to `sub`, the suffix
/// relation moves from child `ci` to child `ci + 1` with `sub` appended to
/// the finished prefix.
proof fn lemma_children_step(
    file: VoxFile,
    ch: Seq<u32>,
    ci: int,
    tx: int,
    ty: int,
    tz: int,
    name: Option<Seq<char>>,
    fuel: nat,
    done: Seq<PlacementV>,
    sub: Seq<PlacementV>,
)
    requires
        0 <= ci < ch.len(),
        decode_node_spec(file, ch[ci] as int, tx, ty, tz, name, fuel) == Ok::<
            Seq<PlacementV>,
            DecodeError,
        >(sub),
        (match decode_children_spec(file, ch, ci, tx, ty, tz, name, fuel) {
            Ok(s) => decode_children_spec(file, ch, 0, tx, ty, tz, name, fuel) == Ok::<
                Seq<PlacementV>,
                DecodeError,
            >(done + s),
            Err(e) => decode_children_spec(file, ch, 0, tx, ty, tz, name, fuel) == Err::<
                Seq<PlacementV>,
                DecodeError,
            >(e),
        }),
    ensures
        (match decode_children_spec(file, ch, ci + 1, tx, ty, tz, name, fuel) {
            Ok(s) => decode_children_spec(file, ch, 0, tx, ty, tz, name, fuel) == Ok::<
                Seq<PlacementV>,
                DecodeError,
            >((done + sub) + s),
            Err(e) => decode_children_spec(file, ch, 0, tx, ty, tz, name, fuel) == Err::<
                Seq<PlacementV>,
                DecodeError,
            >(e),
        }),
{
    match decode_children_spec(file, ch, ci + 1, tx, ty, tz, name, fuel) {
        Ok(rest) => {
            assert(decode_children_spec(file, ch, ci, tx, ty, tz, name, fuel) == Ok::<
                Seq<PlacementV>,
                DecodeError,
            >(sub + rest));
            assert(done + (sub + rest) =~= (done + sub) + rest);
        },
        Err(_) => {},
    }
}

/// One step of a shape walk: after model reference `mi` emits placement
/// `pv`, the suffix relation moves from `mi` to `mi + 1`.
proof fn lemma_shape_step(
    file: VoxFile,
    ids: Seq<u32>,
    mi: int,
    tx: int,
    ty: int,
    tz: int,
    name: Option<Seq<char>>,
    done: Seq<PlacementV>,
    pv: PlacementV,
)
    requires
        0 <= mi < ids.len(),
        ids[mi] < file.models@.len(),
        pv == (PlacementV {
            model: ids[mi] as int,
            tx: tx - file.models@[ids[mi] as int].size.x,
            ty: ty - file.models@[ids[mi] as int].size.z,
            tz: tz - file.models@[ids[mi] as int].size.y,
            name: name,
        }),
        (match shape_placements_spec(file, ids, mi, tx, ty, tz, name) {
            Ok(s) => shape_placements_spec(file, ids, 0, tx, ty, tz, name) == Ok::<
                Seq<PlacementV>,
                DecodeError,
            >(done + s),
            Err(e) => shape_placements_spec(file, ids, 0, tx, ty, tz, name) == Err::<
                Seq<PlacementV>,
                DecodeError,
            >(e),
        }),
    ensures
        (match shape_placements_spec(file, ids, mi + 1, tx, ty, tz, name) {
            Ok(s) => shape_placements_spec(file, ids, 0, tx, ty, tz, name) == Ok::<
                Seq<PlacementV>,
                DecodeError,
            >((done + seq![pv]) + s),
            Err(e) => shape_placements_spec(file, ids, 0, tx, ty, tz, name) == Err::<
                Seq<PlacementV>,
                DecodeError,
            >(e),
        }),
{
    match shape_placements_spec(file, ids, mi + 1, tx, ty, tz, name) {
        Ok(rest) => {
            assert(shape_placements_spec(file, ids, mi, tx, ty, tz, name) == Ok::<
                Seq<PlacementV>,
                DecodeError,
            >(seq![pv] + rest));
            assert(done + (seq![pv] + rest) =~= (done + seq![pv]) + rest);
        },
        Err(_) => {},
    }
}

/// Clones an optional name; the value is unchanged.
pub fn clone_name(n: &Option<String>) -> (r: Option<String>)
    ensures
        r.deep_view() == n.deep_view(),
{
    match n {
        Some(s) => Some(s.clone()),
        None => None,
    }
}

/// Decodes the subtree at node `idx`; the executable mirror of
/// [`decode_node_spec`].
fn decode_node(
    file: &VoxFile,
    idx: u32,
    tx: i64,
    ty: i64,
    tz: i64,
    name: &Option<String>,
    fuel: u32,
) -> (r: Result<Vec<Placement>, DecodeError>)
    requires
        fuel <= MAX_SCENE_DEPTH,
        -acc_bound(fuel as int) <= tx <= acc_bound(fuel as int),
        -acc_bound(fuel as int) <= ty <= acc_bound(fuel as int),
        -acc_bound(fuel as int) <= tz <= acc_bound(fuel as int),
    ensures
        (match r {
            Ok(v) => decode_node_spec(
                *file,
                idx as int,
                tx as int,
                ty as int,
                tz as int,
                name.deep_view(),
                fuel as nat,
            ) == Ok::<Seq<PlacementV>, DecodeError>(view_placements(v@)),
            Err(e) => decode_node_spec(
                *file,
                idx as int,
                tx as int,
                ty as int,
                tz as int,
                name.deep_view(),
                fuel as nat,
            ) == Err::<Seq<PlacementV>, DecodeError>(e),
        }),
    decreases fuel,
{
    if fuel == 0 {
        return Err(DecodeError::DepthLimitExceeded);
    }
    if idx as usize >= file.scenes.len() {
        return Err(DecodeError::NodeIndexOutOfRange);
    }
    let node = &file.scenes[idx as usize];
    match node {
        VoxSceneNode::Transform { child, translation, name: nm } => {
            let ntx = tx - 2 * translation.x as i64;
            let nty = ty + 2 * translation.z as i64;
            let ntz = tz + 2 * translation.y as i64;
            let next_name: &Option<String> = if nm.is_some() {
                nm
            } else {
                name
            };
            decode_node(file, *child, ntx, nty, ntz, next_name, fuel - 1)
        },
        VoxSceneNode::Group { children } => {
            let ghost ch = children@;
            let ghost f2 = (fuel - 1) as nat;
            let mut out: Vec<Placement> = Vec::new();
            let mut ci: usize = 0;
            while ci < children.len()
                invariant
                    0 <= ci <= ch.len(),
                    ch == children@,
                    (match decode_children_spec(
                        *file,
                        ch,
                        ci as int,
                        tx as int,
                        ty as int,
                        tz as int,
                        name.deep_view(),
                        f2,
                    ) {
                        Ok(s) => decode_children_spec(
                            *file,
                            ch,
                            0,
                            tx as int,
                            ty as int,
                            tz as int,
                            name.deep_view(),
                            f2,
                        ) == Ok::<Seq<PlacementV>, DecodeError>(view_placements(out@) + s),
                        Err(e) => decode_children_spec(
                            *file,
                            ch,
                            0,
                            tx as int,
                            ty as int,
                            tz as int,
                            name.deep_view(),
                            f2,
                        ) == Err::<Seq<PlacementV>, DecodeError>(e),
                    }),
                decreases ch.len() - ci,
            {
                let ghost out_before = out@;
                match decode_node(file, children[ci], tx, ty, tz, name, fuel - 1) {
                    Ok(mut sub) => {
                        let ghost subv = sub@;
                        out.append(&mut sub);
                        proof {
                            assert(view_placements(out@) =~= view_placements(out_before)
                                + view_placements(subv));
                            lemma_children_step(
                                *file,
                                ch,
                                ci as int,
                                tx as int,
                                ty as int,
                                tz as int,
                                name.deep_view(),
                                f2,
                                view_placements(out_before),
                                view_placements(subv),
                            );
                        }
                    },
                    Err(e) => {
                        return Err(e);
                    },
                }
                ci = ci + 1;
            }
            proof {
                assert(view_placements(out@) + Seq::<PlacementV>::empty() =~= view_placements(
                    out@,
                ));
            }
            Ok(out)
        },
        VoxSceneNode::Shape { model_ids } => {
            let ghost ids = model_ids@;
            let mut out: Vec<Placement> = Vec::new();
            let mut mi: usize = 0;
            while mi < model_ids.len()
                invariant
                    0 <= mi <= ids.len(),
                    ids == model_ids@,
                    (match shape_placements_spec(
                        *file,
                        ids,
                        mi as int,
                        tx as int,
                        ty as int,
                        tz as int,
                        name.deep_view(),
                    ) {
                        Ok(s) => shape_placements_spec(
                            *file,
                            ids,
                            0,
                            tx as int,
                            ty as int,
                            tz as int,
                            name.deep_view(),
                        ) == Ok::<Seq<PlacementV>, DecodeError>(view_placements(out@) + s),
                        Err(e) => shape_placements_spec(
                            *file,
                            ids,
                            0,
                            tx as int,
                            ty as int,
                            tz as int,
                            name.deep_view(),
                        ) == Err::<Seq<PlacementV>, DecodeError>(e),
                    }),
                decreases ids.len() - mi,
            {
                let id = model_ids[mi];
                if id as usize >= file.models.len() {
                    return Err(DecodeError::ModelIndexOutOfRange);
                }
                let m = &file.models[id as usize];
                let p = Placement {
                    model: id,
                    tx: tx - m.size.x as i64,
                    ty: ty - m.size.z as i64,
                    tz: tz - m.size.y as i64,
                    name: clone_name(name),
                };
                let ghost out_before = out@;
                let ghost pv = place_v(p);
                out.push(p);
                proof {
                    assert(view_placements(out@) =~= view_placements(out_before) + seq![pv]);
                    lemma_shape_step(
                        *file,
                        ids,
                        mi as int,
                        tx as int,
                        ty as int,
                        tz as int,
                        name.deep_view(),
                        view_placements(out_before),
                        pv,
                    );
                }
                mi = mi + 1;
            }
            proof {
                assert(view_placements(out@) + Seq::<PlacementV>::empty() =~= view_placements(
                    out@,
                ));
            }
            Ok(out)
        },
    }
}

/// Flattens a decoded file's scene graph into placed models, starting at
/// the root node (index 0) with no accumulated translation and no name.
/// The output order is the traversal order, so it is deterministic.
pub fn decode_scene(file: &VoxFile) -> (r: Result<Vec<Placement>, DecodeError>)
    ensures
        (match r {
            Ok(v) => decode_scene_spec(*file) == Ok::<Seq<PlacementV>, DecodeError>(
                view_placements(v@),
            ),
            Err(e) => decode_scene_spec(*file) == Err::<Seq<PlacementV>, DecodeError>(e),
        }),
{
    let none: Option<String> = None;
    decode_node(file, 0, 0, 0, 0, &none, MAX_SCENE_DEPTH)
}

} // verus!
