//! The mesh and light assembler: for each placed model the decoder emits,
//! build its padded voxel grid, run the greedy mesher over it, and scan the
//! same grid for emissive cells to build a point-light list. The whole
//! pipeline — resolve the palette, flatten the scene graph, assemble every
//! placement in order — either succeeds as a unit or fails with the first
//! decode error; the output order is the placement order.
//!
//! When models are copied into their grids the file's axes are re-expressed
//! in the rendering convention (the grid's y axis is the file's z axis),
//! and material indices are shifted by one so that cell value `0` is
//! unambiguously air.

use crate::chunk::{delin_spec, lin_spec, Chunk, Coord, GridView, MAX_CELLS};
use crate::mesher::{all_quads, mesh_of, Mesh, MeshModel};
use crate::palette::{resolved_samples, sample_of, Palette, PaletteSample};
use crate::scene::{
    clone_name, decode_scene, decode_scene_spec, place_v, view_placements, PlacementV,
};
use crate::vox::{VoxFile, VoxModel, VoxVoxel};
use crate::DecodeError;
use vstd::prelude::*;

verus! {

/// The padded grid dimensions for a model of the given (file-space) size:
/// the file's z axis becomes the grid's y axis, and every axis grows by
/// the 1-cell border on each side.
pub open spec fn grid_dims(size: Coord) -> Coord {
    Coord { x: (size.x + 2) as u32, y: (size.z + 2) as u32, z: (size.y + 2) as u32 }
}

/// The model's padded grid fits under the cell-count limit.
pub open spec fn grid_size_ok(m: VoxModel) -> bool {
    (m.size.x + 2) * (m.size.z + 2) * (m.size.y + 2) <= MAX_CELLS
}

/// The all-air cell array for a model of the given size.
pub open spec fn zero_cells(size: Coord) -> Seq<u8> {
    Seq::new((grid_dims(size).x * grid_dims(size).y * grid_dims(size).z) as nat, |t: int| 0u8)
}

/// The grid coordinate a sparse voxel entry is written to: offset by the
/// border, with the file's y and z axes swapped.
pub open spec fn entry_coord(v: VoxVoxel) -> (int, int, int) {
    (v.x + 1, v.z + 1, v.y + 1)
}

/// The cell array after the first `vi` sparse entries were written, or the
/// error the first invalid entry among them raises: an entry outside the
/// model's size is a coordinate error; a material index of 255 (which the
/// one-shift cannot represent) or at least the palette length is a
/// material error. Later entries overwrite earlier ones.
pub open spec fn fill_result(m: VoxModel, plen: int, vi: int) -> Result<Seq<u8>, DecodeError>
    decreases vi,
{
    if vi <= 0 {
        Ok(zero_cells(m.size))
    } else {
        match fill_result(m, plen, vi - 1) {
            Ok(cells) => {
                let v = m.voxels@[vi - 1];
                if !(v.x < m.size.x && v.y < m.size.y && v.z < m.size.z) {
                    Err(DecodeError::VoxelCoordOutOfRange)
                } else if v.i == 255 || v.i >= plen {
                    Err(DecodeError::MaterialIndexOutOfRange)
                } else {
                    Ok(
                        cells.update(
                            lin_spec(
                                grid_dims(m.size),
                                entry_coord(v).0,
                                entry_coord(v).1,
                                entry_coord(v).2,
                            ),
                            (v.i + 1) as u8,
                        ),
                    )
                }
            },
            Err(e) => Err(e),
        }
    }
}

/// The grid a model builds against a palette of `plen` samples, or the
/// decode error it raises: too large a model, or an invalid sparse entry.
pub open spec fn build_grid_spec(m: VoxModel, plen: int) -> Result<GridView, DecodeError> {
    if !grid_size_ok(m) {
        Err(DecodeError::ModelTooLarge)
    } else {
        match fill_result(m, plen, m.voxels@.len() as int) {
            Ok(cells) => Ok(
                GridView {
                    dims: grid_dims(m.size),
                    cells: cells,
                    min: Coord { x: 1, y: 1, z: 1 },
                    max: Coord { x: m.size.x as u32, y: m.size.z as u32, z: m.size.y as u32 },
                },
            ),
            Err(e) => Err(e),
        }
    }
}

/// An invalid entry fails the whole fill, whatever follows it.
proof fn lemma_fill_err_persists(m: VoxModel, plen: int, vi: int, vj: int, e: DecodeError)
    requires
        0 <= vi <= vj,
        fill_result(m, plen, vi) == Err::<Seq<u8>, DecodeError>(e),
    ensures
        fill_result(m, plen, vj) == Err::<Seq<u8>, DecodeError>(e),
    decreases vj - vi,
{
    if vi < vj {
        lemma_fill_err_persists(m, plen, vi, vj - 1, e);
    }
}

/// Builds the padded voxel grid for one model: every dimension grows by 2,
/// the file's y and z axes are swapped, each sparse entry is written at
/// its border-offset coordinate with its material index shifted up by one,
/// and every entry is validated against the model size and the palette
/// length.
pub fn build_grid(m: &VoxModel, plen: usize) -> (r: Result<Chunk, DecodeError>)
    ensures
        (match r {
            Ok(c) => {
                &&& build_grid_spec(*m, plen as int) == Ok::<GridView, DecodeError>(c@)
                &&& c.wf()
                &&& forall|t: int|
                    0 <= t < c@.cells.len() ==> c@.cells[t] == 0 || c@.cells[t] - 1 < plen
            },
            Err(e) => build_grid_spec(*m, plen as int) == Err::<GridView, DecodeError>(e),
        }),
{
    let gsize = Coord { x: m.size.x, y: m.size.z, z: m.size.y };
    let mut c = match Chunk::new(gsize) {
        Ok(c) => c,
        Err(e) => {
            return Err(e);
        },
    };
    proof {
        assert(c@.cells =~= zero_cells(m.size));
        assert(fill_result(*m, plen as int, 0) == Ok::<Seq<u8>, DecodeError>(zero_cells(m.size)));
    }
    let n = m.voxels.len();
    let mut vi: usize = 0;
    while vi < n
        invariant
            0 <= vi <= n,
            n == m.voxels@.len(),
            c.wf(),
            c@.dims == grid_dims(m.size),
            c@.min == (Coord { x: 1, y: 1, z: 1 }),
            c@.max == (Coord { x: m.size.x as u32, y: m.size.z as u32, z: m.size.y as u32 }),
            fill_result(*m, plen as int, vi as int) == Ok::<Seq<u8>, DecodeError>(c@.cells),
            forall|t: int| 0 <= t < c@.cells.len() ==> c@.cells[t] == 0 || c@.cells[t] - 1 < plen,
        decreases n - vi,
    {
        let v = m.voxels[vi];
        if !((v.x as u32) < m.size.x && (v.y as u32) < m.size.y && (v.z as u32) < m.size.z) {
            proof {
                lemma_fill_err_persists(
                    *m,
                    plen as int,
                    vi as int + 1,
                    n as int,
                    DecodeError::VoxelCoordOutOfRange,
                );
            }
            return Err(DecodeError::VoxelCoordOutOfRange);
        }
        if v.i == 255 || v.i as usize >= plen {
            proof {
                lemma_fill_err_persists(
                    *m,
                    plen as int,
                    vi as int + 1,
                    n as int,
                    DecodeError::MaterialIndexOutOfRange,
                );
            }
            return Err(DecodeError::MaterialIndexOutOfRange);
        }
        let ghost cells_before = c@.cells;
        c.set(
            Coord { x: v.x as u32 + 1, y: v.z as u32 + 1, z: v.y as u32 + 1 },
            v.i + 1,
        );
        proof {
            crate::chunk::lemma_lin_in_range(
                grid_dims(m.size),
                entry_coord(v).0,
                entry_coord(v).1,
                entry_coord(v).2,
            );
            assert(c@.cells == cells_before.update(
                lin_spec(grid_dims(m.size), entry_coord(v).0, entry_coord(v).1, entry_coord(v).2),
                (v.i + 1) as u8,
            ));
            assert(fill_result(*m, plen as int, vi as int + 1) == Ok::<Seq<u8>, DecodeError>(
                c@.cells,
            ));
        }
        vi = vi + 1;
    }
    Ok(c)
}

/// An emissive-voxel point light: the grid-local coordinate of the
/// emissive cell and its brightness, the emission sample's gate times its
/// intensity, in fixed-point thousandths.
#[derive(Clone, Copy, Debug, PartialEq, Eq, Structural)]
pub struct VoxelLight {
    pub x: u32,
    pub y: u32,
    pub z: u32,
    pub intensity_milli: u64,
}

/// Cell `idx` of the grid carries an emissive sample: it is not air and
/// its sample's emission gate is positive.
pub open spec fn is_lit(g: GridView, samples: Seq<PaletteSample>, idx: int) -> bool {
    g.cells[idx] != 0 && sample_of(samples, g.cells[idx] as int).emission.alpha_milli > 0
}

/// The light an emissive cell contributes.
pub open spec fn light_for(g: GridView, samples: Seq<PaletteSample>, idx: int) -> VoxelLight {
    VoxelLight {
        x: delin_spec(g.dims, idx).0 as u32,
        y: delin_spec(g.dims, idx).1 as u32,
        z: delin_spec(g.dims, idx).2 as u32,
        intensity_milli: (sample_of(samples, g.cells[idx] as int).emission.alpha_milli * sample_of(
            samples,
            g.cells[idx] as int,
        ).emission.intensity_milli / 1000) as u64,
    }
}

/// The lights of the first `n` cells, in cell-index order.
pub open spec fn lights_upto(g: GridView, samples: Seq<PaletteSample>, n: int) -> Seq<VoxelLight>
    decreases n,
{
    if n <= 0 {
        Seq::empty()
    } else {
        let rest = lights_upto(g, samples, n - 1);
        if is_lit(g, samples, n - 1) {
            rest.push(light_for(g, samples, n - 1))
        } else {
            rest
        }
    }
}

/// All the lights a grid yields against a sample table: one per emissive
/// cell, in cell-index order.
pub open spec fn lights_spec(g: GridView, samples: Seq<PaletteSample>) -> Seq<VoxelLight> {
    lights_upto(g, samples, g.cells.len() as int)
}

/// Scans every cell of a grid and collects one point light per emissive
/// cell, at that cell's grid coordinate, in cell-index order.
pub fn extract_lights(c: &Chunk, p: &Palette) -> (out: Vec<VoxelLight>)
    requires
        c.wf(),
        forall|t: int|
            0 <= t < c@.cells.len() ==> c@.cells[t] == 0 || c@.cells[t] - 1
                < p.spec_samples().len(),
    ensures
        out@ == lights_spec(c@, p.spec_samples()),
{
    let n = c.len();
    let mut out: Vec<VoxelLight> = Vec::new();
    let mut idx: usize = 0;
    while idx < n
        invariant
            0 <= idx <= n,
            n == c@.cells.len(),
            out@ == lights_upto(c@, p.spec_samples(), idx as int),
        decreases n - idx,
    {
        let co = c.delinearize(idx);
        let mval = c.get(co);
        if mval != 0 {
            let s = p.sample(mval);
            if s.emission.alpha_milli > 0 {
                proof {
                    assert(s.emission.alpha_milli as int * s.emission.intensity_milli as int
                        <= u64::MAX) by (nonlinear_arith)
                        requires
                            0 <= s.emission.alpha_milli <= u32::MAX,
                            0 <= s.emission.intensity_milli <= u32::MAX,
                    ;
                }
                let inten = s.emission.alpha_milli as u64 * s.emission.intensity_milli as u64
                    / 1000;
                out.push(VoxelLight { x: co.x, y: co.y, z: co.z, intensity_milli: inten });
            }
        }
        idx = idx + 1;
    }
    out
}

/// One assembled record: a model's mesh, its emissive-cell lights, its
/// world translation in half-cell units, and its inherited name.
pub struct LitMesh {
    pub mesh: Mesh,
    pub lights: Vec<VoxelLight>,
    pub tx: i64,
    pub ty: i64,
    pub tz: i64,
    pub name: Option<String>,
}

/// A record at the specification level.
pub ghost struct LitMeshV {
    pub mesh: MeshModel,
    pub lights: Seq<VoxelLight>,
    pub tx: int,
    pub ty: int,
    pub tz: int,
    pub name: Option<Seq<char>>,
}

/// The specification-level value of one record.
pub open spec fn lit_mesh_v(l: LitMesh) -> LitMeshV {
    LitMeshV {
        mesh: l.mesh.model(),
        lights: l.lights@,
        tx: l.tx as int,
        ty: l.ty as int,
        tz: l.tz as int,
        name: l.name.deep_view(),
    }
}

/// The specification-level value of a record list.
pub open spec fn view_lit_meshes(s: Seq<LitMesh>) -> Seq<LitMeshV> {
    Seq::new(s.len(), |i: int| lit_mesh_v(s[i]))
}

/// What assembling one placement yields: the placed model's grid is built,
/// meshed, and scanned for lights; the placement's translation and name
/// carry over unchanged.
pub open spec fn assemble_spec(
    file: VoxFile,
    samples: Seq<PaletteSample>,
    pv: PlacementV,
) -> Result<LitMeshV, DecodeError> {
    if !(0 <= pv.model < file.models@.len()) {
        Err(DecodeError::ModelIndexOutOfRange)
    } else {
        match build_grid_spec(file.models@[pv.model], samples.len() as int) {
            Ok(g) => Ok(
                LitMeshV {
                    mesh: mesh_of(all_quads(g)),
                    lights: lights_spec(g, samples),
                    tx: pv.tx,
                    ty: pv.ty,
                    tz: pv.tz,
                    name: pv.name,
                },
            ),
            Err(e) => Err(e),
        }
    }
}

/// What assembling the first `n` placements yields, in placement order;
/// the first failing placement fails the whole decode.
pub open spec fn assemble_all_spec(
    file: VoxFile,
    samples: Seq<PaletteSample>,
    pvs: Seq<PlacementV>,
    n: int,
) -> Result<Seq<LitMeshV>, DecodeError>
    decreases n,
{
    if n <= 0 {
        Ok(Seq::empty())
    } else {
        match assemble_all_spec(file, samples, pvs, n - 1) {
            Ok(done) => match assemble_spec(file, samples, pvs[n - 1]) {
                Ok(l) => Ok(done.push(l)),
                Err(e) => Err(e),
            },
            Err(e) => Err(e),
        }
    }
}

/// A failed placement fails the whole decode, whatever follows it.
proof fn lemma_assemble_err_persists(
    file: VoxFile,
    samples: Seq<PaletteSample>,
    pvs: Seq<PlacementV>,
    i: int,
    j: int,
    e: DecodeError,
)
    requires
        0 <= i <= j,
        assemble_all_spec(file, samples, pvs, i) == Err::<Seq<LitMeshV>, DecodeError>(e),
    ensures
        assemble_all_spec(file, samples, pvs, j) == Err::<Seq<LitMeshV>, DecodeError>(e),
    decreases j - i,
{
    if i < j {
        lemma_assemble_err_persists(file, samples, pvs, i, j - 1, e);
    }
}

/// What decoding a whole file yields: the resolved sample table (empty
/// palettes are rejected), the flattened scene, and one assembled record
/// per placement, in placement order.
pub open spec fn decode_file_spec(file: VoxFile) -> Result<Seq<LitMeshV>, DecodeError> {
    if file.palette@.len() == 0 {
        Err(DecodeError::EmptyPalette)
    } else {
        match decode_scene_spec(file) {
            Ok(pvs) => assemble_all_spec(file, resolved_samples(file), pvs, pvs.len() as int),
            Err(e) => Err(e),
        }
    }
}

/// A decoded asset, ready for a rendering collaborator: one record per
/// placed model, plus the shared resolved palette the mesh's per-vertex
/// palette slots refer to.
pub struct VoxelScene {
    pub meshes: Vec<LitMesh>,
    pub palette: Palette,
}

/// Decodes a whole file: resolves the palette, flattens the scene graph,
/// and assembles every placed model in placement order. Either the whole
/// asset decodes, or the first error is returned and nothing is.
pub fn decode_file(file: &VoxFile) -> (r: Result<VoxelScene, DecodeError>)
    ensures
        (match r {
            Ok(vs) => {
                &&& decode_file_spec(*file) == Ok::<Seq<LitMeshV>, DecodeError>(
                    view_lit_meshes(vs.meshes@),
                )
                &&& vs.palette.spec_samples() == resolved_samples(*file)
            },
            Err(e) => decode_file_spec(*file) == Err::<Seq<LitMeshV>, DecodeError>(e),
        }),
{
    let palette = match Palette::resolve(file) {
        Ok(p) => p,
        Err(e) => {
            return Err(e);
        },
    };
    let placements = match decode_scene(file) {
        Ok(v) => v,
        Err(e) => {
            return Err(e);
        },
    };
    let ghost pvs = view_placements(placements@);
    let ghost samples = resolved_samples(*file);
    let np = placements.len();
    let mut meshes: Vec<LitMesh> = Vec::new();
    proof {
        assert(view_lit_meshes(meshes@) =~= Seq::<LitMeshV>::empty());
    }
    let mut ri: usize = 0;
    while ri < np
        invariant
            0 <= ri <= np,
            np == placements@.len(),
            pvs == view_placements(placements@),
            samples == resolved_samples(*file),
            palette.spec_samples() == samples,
            pvs.len() == np,
            assemble_all_spec(*file, samples, pvs, ri as int) == Ok::<Seq<LitMeshV>, DecodeError>(
                view_lit_meshes(meshes@),
            ),
        decreases np - ri,
    {
        let ghost pv = pvs[ri as int];
        proof {
            assert(pv == place_v(placements@[ri as int]));
        }
        let model_id = placements[ri].model;
        if model_id as usize >= file.models.len() {
            proof {
                lemma_assemble_err_persists(
                    *file,
                    samples,
                    pvs,
                    ri as int + 1,
                    np as int,
                    DecodeError::ModelIndexOutOfRange,
                );
            }
            return Err(DecodeError::ModelIndexOutOfRange);
        }
        let grid = match build_grid(&file.models[model_id as usize], palette.len()) {
            Ok(c) => c,
            Err(e) => {
                proof {
                    lemma_assemble_err_persists(*file, samples, pvs, ri as int + 1, np as int, e);
                }
                return Err(e);
            },
        };
        let mesh = grid.build();
        let lights = extract_lights(&grid, &palette);
        let rec = LitMesh {
            mesh,
            lights,
            tx: placements[ri].tx,
            ty: placements[ri].ty,
            tz: placements[ri].tz,
            name: clone_name(&placements[ri].name),
        };
        let ghost before = meshes@;
        proof {
            assert(assemble_spec(*file, samples, pv) == Ok::<LitMeshV, DecodeError>(
                lit_mesh_v(rec),
            ));
        }
        meshes.push(rec);
        proof {
            assert(view_lit_meshes(meshes@) =~= view_lit_meshes(before).push(lit_mesh_v(rec)));
            assert(assemble_all_spec(*file, samples, pvs, ri as int + 1) == Ok::<
                Seq<LitMeshV>,
                DecodeError,
            >(view_lit_meshes(meshes@)));
        }
        ri = ri + 1;
    }
    Ok(VoxelScene { meshes, palette })
}

} // verus!
