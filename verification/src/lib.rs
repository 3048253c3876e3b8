//! Conversion of palette-indexed voxel models into renderable surface
//! geometry plus emissive point lights.
//!
//! The pipeline: a decoded voxel file (models, palette, materials, scene
//! nodes) is flattened by the scene-graph decoder into placed models; each
//! model is copied into a padded voxel grid ([`chunk::Chunk`]); the greedy
//! mesher merges coplanar same-material faces into quads and emits a mesh;
//! the assembler scans the same grid for emissive cells and builds a light
//! list. All coordinates and intensities are integers: colors are 8-bit sRGB
//! channels, emission strengths are fixed-point thousandths, and world
//! translations are in half-cell units so that centering a model on its
//! placement stays exact.

#![verifier::loop_isolation(false)]

use vstd::prelude::*;

pub mod assemble;
pub mod chunk;
pub mod mesher;
pub mod palette;
pub mod scene;
pub mod vox;

verus! {

/// A decoding failure. Either the input is malformed (an index referenced
/// outside its array) or a resource bound was exceeded. Decoding an asset
/// either succeeds as a whole or fails with one of these; nothing is
/// silently clamped or skipped.
#[derive(Clone, Copy, Debug, PartialEq, Eq, Structural)]
pub enum DecodeError {
    /// A scene-node index lies outside the scene-node array.
    NodeIndexOutOfRange,
    /// A shape's model index lies outside the models array.
    ModelIndexOutOfRange,
    /// A voxel entry's coordinate lies outside its model's size.
    VoxelCoordOutOfRange,
    /// A voxel entry's material index cannot be shifted into a cell value
    /// or lies outside the resolved palette.
    MaterialIndexOutOfRange,
    /// The source palette has no entries.
    EmptyPalette,
    /// The scene graph nests deeper than the traversal limit.
    DepthLimitExceeded,
    /// A model's padded grid would exceed the cell-count limit.
    ModelTooLarge,
}

} // verus!
