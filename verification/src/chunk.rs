//! The padded voxel grid: a rectangular 3-axis array of 8-bit material
//! indices with a 1-cell empty border on every face, plus the bijective
//! mapping between 3-axis coordinates and flat cell indices (x fastest,
//! then y, then z).

use crate::DecodeError;
use vstd::arithmetic::div_mod::{
    lemma_fundamental_div_mod, lemma_fundamental_div_mod_converse,
};
use vstd::prelude::*;

verus! {

/// Upper bound on the number of cells a padded grid may hold; a model whose
/// padded extent would exceed it is rejected as a decode error.
pub const MAX_CELLS: u64 = 33554432;

/// A 3-axis grid coordinate or extent.
#[derive(Clone, Copy, Debug, PartialEq, Eq, Structural)]
pub struct Coord {
    pub x: u32,
    pub y: u32,
    pub z: u32,
}

/// Whether a cell blocks sight: material index `0` is empty air, anything
/// else is an opaque unit cube.
#[derive(Clone, Copy, Debug, PartialEq, Eq, Structural)]
pub enum VoxelVisibility {
    Empty,
    Opaque,
}

/// The visibility class of a material index: `0` is empty, all else opaque.
pub open spec fn spec_visibility(idx: u8) -> VoxelVisibility {
    if idx == 0 {
        VoxelVisibility::Empty
    } else {
        VoxelVisibility::Opaque
    }
}

/// One cell value: an 8-bit material index where `0` is reserved for air
/// and a non-zero value `m` refers to palette slot `m - 1`.
#[derive(Clone, Copy, Debug, PartialEq, Eq, Structural, Default)]
pub struct AssetVoxel {
    pub idx: u8,
}

impl AssetVoxel {
    /// Face-visibility class of this cell: empty exactly when the index is 0.
    pub fn get_visibility(&self) -> (v: VoxelVisibility)
        ensures
            v == spec_visibility(self.idx),
    {
        if self.idx == 0 {
            VoxelVisibility::Empty
        } else {
            VoxelVisibility::Opaque
        }
    }

    /// The merge key used by the mesher: two faces may join exactly when
    /// their cells' merge values are equal. It is the material index itself.
    pub fn merge_value(&self) -> (m: u8)
        ensures
            m == self.idx,
    {
        self.idx
    }
}

/// Flat index of coordinate `c` in a grid of dimensions `dims`:
/// x varies fastest, then y, then z.
pub open spec fn lin_spec(dims: Coord, cx: int, cy: int, cz: int) -> int {
    cx + dims.x * (cy + dims.y * cz)
}

/// The three coordinates recovered from flat index `i`, as
/// `(x, y, z) == (i % dx, (i / dx) % dy, (i / dx) / dy)`.
pub open spec fn delin_spec(dims: Coord, i: int) -> (int, int, int) {
    (i % (dims.x as int), (i / (dims.x as int)) % (dims.y as int), (i / (dims.x as int)) / (dims.y as int))
}

/// `c` lies inside a grid of dimensions `dims`.
pub open spec fn coord_in_dims(dims: Coord, cx: int, cy: int, cz: int) -> bool {
    &&& 0 <= cx < dims.x
    &&& 0 <= cy < dims.y
    &&& 0 <= cz < dims.z
}

/// A valid coordinate's flat index lies within the cell array, and every
/// intermediate value of the linearization is bounded by the index itself.
pub proof fn lemma_lin_in_range(dims: Coord, cx: int, cy: int, cz: int)
    requires
        coord_in_dims(dims, cx, cy, cz),
    ensures
        0 <= lin_spec(dims, cx, cy, cz) < dims.x * dims.y * dims.z,
        0 <= dims.y * cz <= cy + dims.y * cz <= lin_spec(dims, cx, cy, cz),
{
    assert(0 <= cx + dims.x * (cy + dims.y * cz) < dims.x * dims.y * dims.z
        && 0 <= dims.y * cz <= cy + dims.y * cz <= cx + dims.x * (cy + dims.y * cz))
        by (nonlinear_arith)
        requires
            0 <= cx < dims.x,
            0 <= cy < dims.y,
            0 <= cz < dims.z,
    ;
}

/// Round-trip law: delinearizing the flat index of any valid coordinate
/// recovers that coordinate.
pub proof fn lemma_delin_of_lin(dims: Coord, cx: int, cy: int, cz: int)
    requires
        coord_in_dims(dims, cx, cy, cz),
    ensures
        delin_spec(dims, lin_spec(dims, cx, cy, cz)) == (cx, cy, cz),
{
    let dx = dims.x as int;
    let dy = dims.y as int;
    let i = lin_spec(dims, cx, cy, cz);
    assert(i == (cy + dy * cz) * dx + cx) by (nonlinear_arith)
        requires
            i == cx + dx * (cy + dy * cz),
    ;
    lemma_fundamental_div_mod_converse(i, dx, cy + dy * cz, cx);
    assert(i % dx == cx);
    assert(i / dx == cy + dy * cz);
    assert(cy + dy * cz == cz * dy + cy) by (nonlinear_arith);
    lemma_fundamental_div_mod_converse(cy + dy * cz, dy, cz, cy);
}

/// Inverse round trip: linearizing the coordinate recovered from any
/// in-range flat index gives that index back, and the coordinate is valid.
pub proof fn lemma_lin_of_delin(dims: Coord, i: int)
    requires
        dims.x >= 1,
        dims.y >= 1,
        dims.z >= 1,
        0 <= i < dims.x * dims.y * dims.z,
    ensures
        coord_in_dims(dims, delin_spec(dims, i).0, delin_spec(dims, i).1, delin_spec(dims, i).2),
        lin_spec(dims, delin_spec(dims, i).0, delin_spec(dims, i).1, delin_spec(dims, i).2) == i,
{
    let dx = dims.x as int;
    let dy = dims.y as int;
    let dz = dims.z as int;
    let r = i / dx;
    lemma_fundamental_div_mod(i, dx);
    lemma_fundamental_div_mod(r, dy);
    assert(r < dy * dz) by (nonlinear_arith)
        requires
            i < dx * dy * dz,
            dx >= 1,
            i == dx * (i / dx) + i % dx,
            0 <= i % dx,
            r == i / dx,
    ;
    assert(r / dy < dz) by (nonlinear_arith)
        requires
            r < dy * dz,
            dy >= 1,
            r == dy * (r / dy) + r % dy,
            0 <= r % dy,
    ;
    assert(0 <= r / dy) by (nonlinear_arith)
        requires
            r >= 0,
            dy >= 1,
            r == dy * (r / dy) + r % dy,
            r % dy < dy,
    ;
}

/// What a padded voxel grid holds, at the specification level: its padded
/// dimensions, its cell array (x fastest, then y, then z), and the
/// inclusive region `[min, max]` the mesher covers.
#[verifier::ext_equal]
pub ghost struct GridView {
    pub dims: Coord,
    pub cells: Seq<u8>,
    pub min: Coord,
    pub max: Coord,
}

impl GridView {
    /// The material index stored at a valid coordinate.
    pub open spec fn cell(self, cx: int, cy: int, cz: int) -> u8 {
        self.cells[lin_spec(self.dims, cx, cy, cz)]
    }

    /// `c` lies strictly inside the border.
    pub open spec fn interior(self, cx: int, cy: int, cz: int) -> bool {
        &&& 1 <= cx <= self.dims.x - 2
        &&& 1 <= cy <= self.dims.y - 2
        &&& 1 <= cz <= self.dims.z - 2
    }

    /// Well-formedness: the cell array's length is the product of the
    /// dimensions; every dimension is at least 2 (the model extent plus
    /// the 1-cell border); the cell count is at most [`MAX_CELLS`]; the
    /// meshed region stays inside the interior `[1, dim - 2]` on every
    /// axis; and every border cell is empty.
    pub open spec fn wf(self) -> bool {
        &&& self.cells.len() == self.dims.x * self.dims.y * self.dims.z
        &&& self.dims.x >= 2
        &&& self.dims.y >= 2
        &&& self.dims.z >= 2
        &&& self.dims.x * self.dims.y * self.dims.z <= MAX_CELLS
        &&& self.min.x >= 1 && self.min.y >= 1 && self.min.z >= 1
        &&& self.min.x <= self.max.x + 1
        &&& self.min.y <= self.max.y + 1
        &&& self.min.z <= self.max.z + 1
        &&& self.max.x <= self.dims.x - 2
        &&& self.max.y <= self.dims.y - 2
        &&& self.max.z <= self.dims.z - 2
        &&& forall|cx: int, cy: int, cz: int|
            coord_in_dims(self.dims, cx, cy, cz) && !self.interior(cx, cy, cz)
                ==> self.cell(cx, cy, cz) == 0
    }
}

/// A padded voxel grid together with the inclusive region `[min, max]`
/// (in padded coordinates) that the mesher covers. Its specification-level
/// value is a [`GridView`].
pub struct Chunk {
    dims: Coord,
    cells: Vec<u8>,
    min: Coord,
    max: Coord,
}

impl View for Chunk {
    type V = GridView;

    closed spec fn view(&self) -> GridView {
        GridView { dims: self.dims, cells: self.cells@, min: self.min, max: self.max }
    }
}

impl Chunk {
    /// Well-formedness of the underlying grid; see [`GridView::wf`].
    pub open spec fn wf(self) -> bool {
        self@.wf()
    }

    /// Builds the all-air padded grid for a model of unpadded size `size`:
    /// every dimension grows by 2 and every cell starts as material `0`.
    /// The meshed region is the whole interior. Fails if the padded cell
    /// count would exceed [`MAX_CELLS`].
    pub fn new(size: Coord) -> (r: Result<Chunk, DecodeError>)
        ensures
            match r {
                Ok(c) => {
                    &&& c.wf()
                    &&& c@.dims == (Coord { x: (size.x + 2) as u32, y: (size.y + 2) as u32, z: (size.z + 2) as u32 })
                    &&& c@.min == (Coord { x: 1u32, y: 1u32, z: 1u32 })
                    &&& c@.max == (Coord { x: size.x as u32, y: size.y as u32, z: size.z as u32 })
                    &&& forall|i: int| 0 <= i < c@.cells.len() ==> c@.cells[i] == 0
                    &&& (size.x + 2) * (size.y + 2) * (size.z + 2) <= MAX_CELLS
                },
                Err(e) => {
                    &&& e == DecodeError::ModelTooLarge
                    &&& (size.x + 2) * (size.y + 2) * (size.z + 2) > MAX_CELLS
                },
            },
    {
        if size.x as u64 + 2 > MAX_CELLS || size.y as u64 + 2 > MAX_CELLS
            || size.z as u64 + 2 > MAX_CELLS {
            proof {
                assert((size.x + 2) * (size.y + 2) * (size.z + 2) > MAX_CELLS)
                    by (nonlinear_arith)
                    requires
                        size.x + 2 > MAX_CELLS || size.y + 2 > MAX_CELLS || size.z + 2 > MAX_CELLS,
                        size.x >= 0 && size.y >= 0 && size.z >= 0,
                        MAX_CELLS >= 1,
                ;
            }
            return Err(DecodeError::ModelTooLarge);
        }
        let dx = size.x as u64 + 2;
        let dy = size.y as u64 + 2;
        let dz = size.z as u64 + 2;
        proof {
            assert(dx * dy <= MAX_CELLS * MAX_CELLS) by (nonlinear_arith)
                requires
                    0 <= dx <= MAX_CELLS,
                    0 <= dy <= MAX_CELLS,
            ;
        }
        let xy = dx * dy;
        if xy > MAX_CELLS {
            proof {
                assert(dx * dy * dz > MAX_CELLS) by (nonlinear_arith)
                    requires
                        dx * dy > MAX_CELLS,
                        dz >= 2,
                ;
            }
            return Err(DecodeError::ModelTooLarge);
        }
        proof {
            assert(xy * dz <= MAX_CELLS * MAX_CELLS) by (nonlinear_arith)
                requires
                    0 <= xy <= MAX_CELLS,
                    0 <= dz <= MAX_CELLS,
            ;
        }
        let total = xy * dz;
        if total > MAX_CELLS {
            return Err(DecodeError::ModelTooLarge);
        }
        let mut cells: Vec<u8> = Vec::new();
        let n = total as usize;
        let mut i: usize = 0;
        while i < n
            invariant
                cells@.len() == i,
                i <= n,
                forall|j: int| 0 <= j < i ==> cells@[j] == 0,
            decreases n - i,
        {
            cells.push(0);
            i = i + 1;
        }
        let dims = Coord { x: size.x + 2, y: size.y + 2, z: size.z + 2 };
        let result = Chunk {
            dims,
            cells,
            min: Coord { x: 1, y: 1, z: 1 },
            max: Coord { x: size.x, y: size.y, z: size.z },
        };
        proof {
            assert forall|cx: int, cy: int, cz: int|
                coord_in_dims(result@.dims, cx, cy, cz) && !result@.interior(cx, cy, cz)
                    implies result@.cell(cx, cy, cz) == 0 by {
                lemma_lin_in_range(result@.dims, cx, cy, cz);
            }
        }
        Ok(result)
    }

    /// The padded dimensions.
    pub fn dims(&self) -> (d: Coord)
        ensures
            d == self@.dims,
    {
        self.dims
    }

    /// Inclusive lower corner of the meshed region.
    pub fn min(&self) -> (c: Coord)
        ensures
            c == self@.min,
    {
        self.min
    }

    /// Inclusive upper corner of the meshed region.
    pub fn max(&self) -> (c: Coord)
        ensures
            c == self@.max,
    {
        self.max
    }

    /// Number of cells.
    pub fn len(&self) -> (n: usize)
        requires
            self.wf(),
        ensures
            n == self@.cells.len(),
    {
        self.cells.len()
    }

    /// Flat index of a valid coordinate (x fastest, then y, then z).
    pub fn linearize(&self, c: Coord) -> (i: usize)
        requires
            self.wf(),
            coord_in_dims(self@.dims, c.x as int, c.y as int, c.z as int),
        ensures
            i == lin_spec(self@.dims, c.x as int, c.y as int, c.z as int),
            i < self@.cells.len(),
    {
        proof {
            lemma_lin_in_range(self.dims, c.x as int, c.y as int, c.z as int);
            assert(self@.dims.x * (c.y + self@.dims.y * c.z)
                <= lin_spec(self@.dims, c.x as int, c.y as int, c.z as int));
        }
        c.x as usize + self.dims.x as usize * (c.y as usize + self.dims.y as usize * c.z as usize)
    }

    /// The coordinate whose flat index is `i`; the inverse of
    /// [`Chunk::linearize`].
    pub fn delinearize(&self, i: usize) -> (c: Coord)
        requires
            self.wf(),
            i < self@.cells.len(),
        ensures
            (c.x as int, c.y as int, c.z as int) == delin_spec(self@.dims, i as int),
            coord_in_dims(self@.dims, c.x as int, c.y as int, c.z as int),
            lin_spec(self@.dims, c.x as int, c.y as int, c.z as int) == i,
    {
        proof {
            lemma_lin_of_delin(self.dims, i as int);
        }
        let x = i % self.dims.x as usize;
        let r = i / self.dims.x as usize;
        let y = r % self.dims.y as usize;
        let z = r / self.dims.y as usize;
        Coord { x: x as u32, y: y as u32, z: z as u32 }
    }

    /// The material index at a valid coordinate.
    pub fn get(&self, c: Coord) -> (v: u8)
        requires
            self.wf(),
            coord_in_dims(self@.dims, c.x as int, c.y as int, c.z as int),
        ensures
            v == self@.cell(c.x as int, c.y as int, c.z as int),
    {
        let i = self.linearize(c);
        self.cells[i]
    }

    /// Writes a material index into the padded interior (the caller offsets
    /// unpadded model coordinates by +1 on each axis before calling); only
    /// the addressed cell changes.
    pub fn set(&mut self, c: Coord, material: u8)
        requires
            old(self).wf(),
            old(self)@.interior(c.x as int, c.y as int, c.z as int),
        ensures
            final(self).wf(),
            final(self)@.dims == old(self)@.dims,
            final(self)@.min == old(self)@.min,
            final(self)@.max == old(self)@.max,
            final(self)@.cells == old(self)@.cells.update(
                lin_spec(old(self)@.dims, c.x as int, c.y as int, c.z as int),
                material,
            ),
    {
        proof {
            lemma_lin_in_range(self.dims, c.x as int, c.y as int, c.z as int);
        }
        let i = self.linearize(c);
        self.cells.set(i, material);
        proof {
            assert(self@.dims == old(self)@.dims);
            assert forall|cx: int, cy: int, cz: int|
                coord_in_dims(self@.dims, cx, cy, cz) && !self@.interior(cx, cy, cz)
                    implies self@.cell(cx, cy, cz) == 0 by {
                lemma_lin_in_range(self.dims, cx, cy, cz);
                assert(coord_in_dims(old(self)@.dims, cx, cy, cz));
                assert(!old(self)@.interior(cx, cy, cz));
                assert(old(self)@.cell(cx, cy, cz) == 0);
                if lin_spec(self@.dims, cx, cy, cz)
                    == lin_spec(self@.dims, c.x as int, c.y as int, c.z as int) {
                    lemma_delin_of_lin(self.dims, cx, cy, cz);
                    lemma_delin_of_lin(self.dims, c.x as int, c.y as int, c.z as int);
                    assert(cx == c.x as int && cy == c.y as int && cz == c.z as int);
                    assert(false);
                }
            }
        }
    }
}

} // verus!
