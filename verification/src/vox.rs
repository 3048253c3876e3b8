//! The decoded shape of a voxel file: a models array, a color palette, a
//! materials array and a flat scene-node array. Parsing the raw binary
//! format is a collaborator's job; this module is the contract the core
//! depends on. All references between the arrays are integer indices and
//! are validated at decode time, never trusted.

use crate::chunk::Coord;
use vstd::prelude::*;

verus! {

/// A palette color: 8-bit sRGB channels plus alpha, exactly as the file
/// stores them.
#[derive(Clone, Copy, Debug, PartialEq, Eq, Structural)]
pub struct VoxColor {
    pub r: u8,
    pub g: u8,
    pub b: u8,
    pub a: u8,
}

/// A signed 3-axis vector in the file's native coordinate space.
#[derive(Clone, Copy, Debug, PartialEq, Eq, Structural)]
pub struct IVec3 {
    pub x: i32,
    pub y: i32,
    pub z: i32,
}

/// One sparse voxel entry of a model: a coordinate inside the model's size
/// and a 0-based material index into the palette.
#[derive(Clone, Copy, Debug, PartialEq, Eq, Structural)]
pub struct VoxVoxel {
    pub x: u8,
    pub y: u8,
    pub z: u8,
    pub i: u8,
}

/// A voxel model: an unpadded 3-axis size and a sparse voxel list.
/// Immutable once parsed.
#[derive(Clone)]
pub struct VoxModel {
    pub size: Coord,
    pub voxels: Vec<VoxVoxel>,
}

/// A material: only the emission property matters to this core. `emit`
/// holds the raw decimal text (as bytes) of the file's emission strength,
/// if the material declares one.
#[derive(Clone)]
pub struct VoxMaterial {
    pub emit: Option<Vec<u8>>,
}

/// A scene-graph node. Nodes are stored in a flat array and refer to each
/// other by index; a valid file's graph is a tree rooted at index 0, but
/// every index is validated during decoding.
pub enum VoxSceneNode {
    /// Contributes a translation, may override the inherited name, and
    /// forwards traversal to exactly one child.
    Transform { child: u32, translation: IVec3, name: Option<String> },
    /// Fans out to multiple children, each inheriting the accumulated
    /// translation and name unchanged.
    Group { children: Vec<u32> },
    /// A leaf: each referenced model index yields one placed model.
    Shape { model_ids: Vec<u32> },
}

/// A decoded voxel file.
pub struct VoxFile {
    pub models: Vec<VoxModel>,
    pub palette: Vec<VoxColor>,
    pub materials: Vec<VoxMaterial>,
    pub scenes: Vec<VoxSceneNode>,
}

} // verus!
