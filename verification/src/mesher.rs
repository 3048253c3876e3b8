//! The greedy mesher: converts a padded voxel grid into a quad mesh in
//! which coplanar, same-material, visible faces are merged into maximal
//! rectangles, swept over the six axis-aligned face directions.
//!
//! The whole algorithm is specified functionally: [`all_quads`] is the
//! exact quad sequence and [`mesh_of`] the exact vertex/index sequences, so
//! the executable mesher is deterministic by contract. The scan order is
//! fixed: directions `-x, +x, -y, +y, -z, +z`, planes from the region's
//! lower bound up, and cells within a plane row-major (the in-plane u axis
//! fastest). For each unvisited visible face cell the rectangle first grows
//! along u while the merge key matches, then along v while every cell of
//! the candidate row matches; covered cells are marked visited.
//!
//! Color resolution is deferred: each quad's four vertices carry the quad's
//! 0-based palette slot (`key - 1`) rather than a resolved color.

use crate::chunk::{
    coord_in_dims, delin_spec, lin_spec, spec_visibility, Chunk, Coord, GridView, VoxelVisibility,
};
use crate::vox::IVec3;
use vstd::prelude::*;

verus! {

// ---------------------------------------------------------------------
// Directions and in-plane axes
// ---------------------------------------------------------------------

/// The normal axis of direction `dir` (directions are `2*axis + sign`,
/// so `0,1` are `-x,+x`, `2,3` are `-y,+y`, `4,5` are `-z,+z`).
pub open spec fn axis_of(dir: int) -> int {
    dir / 2
}

/// Whether the direction's normal points toward the positive side.
pub open spec fn is_pos(dir: int) -> bool {
    dir % 2 == 1
}

/// The in-plane axis that varies fastest during the scan.
pub open spec fn u_axis(a: int) -> int {
    if a == 0 {
        1
    } else if a == 1 {
        2
    } else {
        0
    }
}

/// The other in-plane axis.
pub open spec fn v_axis(a: int) -> int {
    if a == 0 {
        2
    } else if a == 1 {
        0
    } else {
        1
    }
}

/// Component `a` of a coordinate.
pub open spec fn comp(c: Coord, a: int) -> int {
    if a == 0 {
        c.x as int
    } else if a == 1 {
        c.y as int
    } else {
        c.z as int
    }
}

/// The x component of the absolute coordinate whose normal-axis component
/// is `pn` and whose in-plane components are `u` and `v`, for normal axis
/// `a`.
pub open spec fn coord_x(a: int, pn: int, u: int, v: int) -> int {
    if a == 0 {
        pn
    } else if a == 1 {
        v
    } else {
        u
    }
}

/// The y component; see [`coord_x`].
pub open spec fn coord_y(a: int, pn: int, u: int, v: int) -> int {
    if a == 0 {
        u
    } else if a == 1 {
        pn
    } else {
        v
    }
}

/// The z component; see [`coord_x`].
pub open spec fn coord_z(a: int, pn: int, u: int, v: int) -> int {
    if a == 0 {
        v
    } else if a == 1 {
        u
    } else {
        pn
    }
}

// ---------------------------------------------------------------------
// The meshed region seen from one direction
// ---------------------------------------------------------------------

/// Lower bound of the meshed region along axis `a`.
pub open spec fn min_ax(c: GridView, a: int) -> int {
    comp(c.min, a)
}

/// Upper bound (inclusive) of the meshed region along axis `a`.
pub open spec fn max_ax(c: GridView, a: int) -> int {
    comp(c.max, a)
}

/// Lower bound of the region along direction `dir`'s u axis.
pub open spec fn min_u(c: GridView, dir: int) -> int {
    min_ax(c, u_axis(axis_of(dir)))
}

/// Lower bound of the region along direction `dir`'s v axis.
pub open spec fn min_v(c: GridView, dir: int) -> int {
    min_ax(c, v_axis(axis_of(dir)))
}

/// Number of region cells along direction `dir`'s u axis.
pub open spec fn width(c: GridView, dir: int) -> int {
    let a = u_axis(axis_of(dir));
    if max_ax(c, a) < min_ax(c, a) {
        0
    } else {
        max_ax(c, a) - min_ax(c, a) + 1
    }
}

/// Number of region cells along direction `dir`'s v axis.
pub open spec fn height(c: GridView, dir: int) -> int {
    let a = v_axis(axis_of(dir));
    if max_ax(c, a) < min_ax(c, a) {
        0
    } else {
        max_ax(c, a) - min_ax(c, a) + 1
    }
}

// ---------------------------------------------------------------------
// Face visibility
// ---------------------------------------------------------------------

/// The material index of the cell at plane `pn`, in-plane coordinates
/// `(u, v)`, looking along direction `dir`.
pub open spec fn cell_at(c: GridView, dir: int, pn: int, u: int, v: int) -> u8 {
    let a = axis_of(dir);
    c.cell(coord_x(a, pn, u, v), coord_y(a, pn, u, v), coord_z(a, pn, u, v))
}

/// A face is visible when its cell is opaque and the neighbor the face
/// points toward is empty: the face lies on a solid-to-air boundary,
/// oriented outward.
pub open spec fn face_visible(c: GridView, dir: int, pn: int, u: int, v: int) -> bool {
    let step: int = if is_pos(dir) {
        1
    } else {
        -1
    };
    &&& spec_visibility(cell_at(c, dir, pn, u, v)) == VoxelVisibility::Opaque
    &&& spec_visibility(cell_at(c, dir, pn + step, u, v)) == VoxelVisibility::Empty
}

// ---------------------------------------------------------------------
// Greedy growth within one plane
// ---------------------------------------------------------------------

/// Region-relative cell `(i, j)` of the plane can join a rectangle keyed
/// `k`: it lies in the region, is not yet covered by an earlier quad, its
/// face is visible, and its merge key matches.
pub open spec fn mergeable(
    c: GridView,
    dir: int,
    pn: int,
    visited: Seq<bool>,
    k: u8,
    i: int,
    j: int,
) -> bool {
    &&& 0 <= i < width(c, dir)
    &&& 0 <= j < height(c, dir)
    &&& !visited[j * width(c, dir) + i]
    &&& face_visible(c, dir, pn, min_u(c, dir) + i, min_v(c, dir) + j)
    &&& cell_at(c, dir, pn, min_u(c, dir) + i, min_v(c, dir) + j) == k
}

/// Length of the maximal mergeable run along u starting at `(i, j)`.
pub open spec fn run_w(
    c: GridView,
    dir: int,
    pn: int,
    visited: Seq<bool>,
    k: u8,
    i: int,
    j: int,
) -> int
    decreases width(c, dir) - i,
{
    if !mergeable(c, dir, pn, visited, k, i, j) {
        0
    } else {
        1 + run_w(c, dir, pn, visited, k, i + 1, j)
    }
}

/// Row `j` supports a rectangle of width `w` starting at column `i`: every
/// cell of the row segment is mergeable with key `k`.
pub open spec fn row_ok(
    c: GridView,
    dir: int,
    pn: int,
    visited: Seq<bool>,
    k: u8,
    i: int,
    w: int,
    j: int,
) -> bool {
    forall|t: int| i <= t < i + w ==> mergeable(c, dir, pn, visited, k, t, j)
}

/// Number of consecutive rows from `j` on that support the rectangle.
pub open spec fn run_h(
    c: GridView,
    dir: int,
    pn: int,
    visited: Seq<bool>,
    k: u8,
    i: int,
    w: int,
    j: int,
) -> int
    decreases height(c, dir) - j,
{
    if j >= height(c, dir) || w <= 0 || !row_ok(c, dir, pn, visited, k, i, w, j) {
        0
    } else {
        1 + run_h(c, dir, pn, visited, k, i, w, j + 1)
    }
}

/// Plane-local flat index `t` lies inside the rectangle of origin
/// `(i, j)` and extent `(w, h)`, in a plane `wd` cells wide.
pub open spec fn in_rect(t: int, wd: int, i: int, j: int, w: int, h: int) -> bool {
    &&& i <= t % wd < i + w
    &&& j <= t / wd < j + h
}

/// Marks every cell of the rectangle visited.
pub open spec fn mark_rect(
    visited: Seq<bool>,
    wd: int,
    i: int,
    j: int,
    w: int,
    h: int,
) -> Seq<bool> {
    Seq::new(visited.len(), |t: int| in_rect(t, wd, i, j, w, h) || visited[t])
}

// ---------------------------------------------------------------------
// Quads and the plane scan
// ---------------------------------------------------------------------

/// One merged rectangle of same-material visible faces.
#[derive(Clone, Copy, Debug, PartialEq, Eq, Structural)]
pub struct Quad {
    /// Face direction, `0..6`: axis `dir / 2`, positive side when
    /// `dir % 2 == 1`.
    pub dir: u8,
    /// Coordinate of the quad's cells along the normal axis.
    pub plane: u32,
    /// Absolute grid coordinate of the quad's first cell along the u axis.
    pub u0: u32,
    /// Absolute grid coordinate of the quad's first cell along the v axis.
    pub v0: u32,
    /// Extent along the u axis, at least 1.
    pub w: u32,
    /// Extent along the v axis, at least 1.
    pub h: u32,
    /// The merge key: the (non-zero) material index of every covered cell.
    pub key: u8,
}

/// The evolving state of one plane's scan: which cells earlier quads
/// cover, and the quads emitted so far.
pub ghost struct PlaneState {
    pub visited: Seq<bool>,
    pub quads: Seq<Quad>,
}

/// The scan state before any cell of the plane is processed.
pub open spec fn scan_init(c: GridView, dir: int) -> PlaneState {
    PlaneState {
        visited: Seq::new((width(c, dir) * height(c, dir)) as nat, |t: int| false),
        quads: Seq::empty(),
    }
}

/// Processes scan position `s` of the plane: if the cell is uncovered and
/// its face visible, grow the maximal greedy rectangle from it, emit the
/// quad and mark the covered cells; otherwise leave the state unchanged.
pub open spec fn scan_step(c: GridView, dir: int, pn: int, st: PlaneState, s: int) -> PlaneState {
    let wd = width(c, dir);
    let i = s % wd;
    let j = s / wd;
    let k = cell_at(c, dir, pn, min_u(c, dir) + i, min_v(c, dir) + j);
    if mergeable(c, dir, pn, st.visited, k, i, j) {
        let w = run_w(c, dir, pn, st.visited, k, i, j);
        let h = run_h(c, dir, pn, st.visited, k, i, w, j);
        PlaneState {
            visited: mark_rect(st.visited, wd, i, j, w, h),
            quads: st.quads.push(
                Quad {
                    dir: dir as u8,
                    plane: pn as u32,
                    u0: (min_u(c, dir) + i) as u32,
                    v0: (min_v(c, dir) + j) as u32,
                    w: w as u32,
                    h: h as u32,
                    key: k,
                },
            ),
        }
    } else {
        st
    }
}

/// The scan state after the first `s` cells of the plane were processed
/// in row-major order.
pub open spec fn scan(c: GridView, dir: int, pn: int, s: int) -> PlaneState
    decreases s,
{
    if s <= 0 {
        scan_init(c, dir)
    } else {
        scan_step(c, dir, pn, scan(c, dir, pn, s - 1), s - 1)
    }
}

/// All quads one plane contributes.
pub open spec fn plane_quads(c: GridView, dir: int, pn: int) -> Seq<Quad> {
    scan(c, dir, pn, width(c, dir) * height(c, dir)).quads
}

/// The quads of direction `dir` for all planes below `pn_end`, in sweep
/// order.
pub open spec fn planes_quads(c: GridView, dir: int, pn_end: int) -> Seq<Quad>
    decreases pn_end - min_ax(c, axis_of(dir)),
{
    if pn_end <= min_ax(c, axis_of(dir)) {
        Seq::empty()
    } else {
        planes_quads(c, dir, pn_end - 1) + plane_quads(c, dir, pn_end - 1)
    }
}

/// The quads of all directions below `dir_end`, in direction order.
pub open spec fn dirs_quads(c: GridView, dir_end: int) -> Seq<Quad>
    decreases dir_end,
{
    if dir_end <= 0 {
        Seq::empty()
    } else {
        dirs_quads(c, dir_end - 1) + planes_quads(
            c,
            dir_end - 1,
            max_ax(c, axis_of(dir_end - 1)) + 1,
        )
    }
}

/// The exact quad sequence the mesher emits for a grid.
pub open spec fn all_quads(c: GridView) -> Seq<Quad> {
    dirs_quads(c, 6)
}

// ---------------------------------------------------------------------
// From quads to mesh buffers
// ---------------------------------------------------------------------

/// The mesh's buffers, at the specification level.
pub ghost struct MeshModel {
    pub positions: Seq<Coord>,
    pub normals: Seq<IVec3>,
    pub colors: Seq<u32>,
    pub indices: Seq<u32>,
}

/// A quad corner, `du` cells along u and `dv` cells along v from the
/// quad's origin; faces on the positive side lie one cell further along
/// the normal axis.
pub open spec fn quad_corner(q: Quad, du: int, dv: int) -> Coord {
    let a = axis_of(q.dir as int);
    let pn = q.plane + if is_pos(q.dir as int) {
        1int
    } else {
        0int
    };
    let u = q.u0 + du;
    let v = q.v0 + dv;
    Coord {
        x: coord_x(a, pn, u, v) as u32,
        y: coord_y(a, pn, u, v) as u32,
        z: coord_z(a, pn, u, v) as u32,
    }
}

/// The four corner positions of a quad, in the fixed order origin,
/// +u, +v, +u+v.
pub open spec fn quad_positions(q: Quad) -> Seq<Coord> {
    seq![
        quad_corner(q, 0, 0),
        quad_corner(q, q.w as int, 0),
        quad_corner(q, 0, q.h as int),
        quad_corner(q, q.w as int, q.h as int),
    ]
}

/// The unit normal of a direction.
pub open spec fn dir_normal(dir: int) -> IVec3 {
    let s: int = if is_pos(dir) {
        1
    } else {
        -1
    };
    let a = axis_of(dir);
    IVec3 {
        x: if a == 0 {
            s as i32
        } else {
            0
        },
        y: if a == 1 {
            s as i32
        } else {
            0
        },
        z: if a == 2 {
            s as i32
        } else {
            0
        },
    }
}

/// The six triangle indices of a quad whose four corners start at vertex
/// `b`: two triangles wound counter-clockwise seen from outside the
/// solid.
pub open spec fn quad_indices(dir: int, b: int) -> Seq<u32> {
    if is_pos(dir) {
        seq![
            b as u32,
            (b + 1) as u32,
            (b + 3) as u32,
            b as u32,
            (b + 3) as u32,
            (b + 2) as u32,
        ]
    } else {
        seq![
            b as u32,
            (b + 2) as u32,
            (b + 3) as u32,
            b as u32,
            (b + 3) as u32,
            (b + 1) as u32,
        ]
    }
}

/// The empty mesh.
pub open spec fn mesh_empty() -> MeshModel {
    MeshModel {
        positions: Seq::empty(),
        normals: Seq::empty(),
        colors: Seq::empty(),
        indices: Seq::empty(),
    }
}

/// Appends one quad's geometry to a mesh: four corners, four copies of
/// the face normal, four copies of the quad's 0-based palette slot
/// (`key - 1`), and six triangle indices based at the previous vertex
/// count.
pub open spec fn mesh_push_quad(m: MeshModel, q: Quad) -> MeshModel {
    MeshModel {
        positions: m.positions + quad_positions(q),
        normals: m.normals + seq![
            dir_normal(q.dir as int),
            dir_normal(q.dir as int),
            dir_normal(q.dir as int),
            dir_normal(q.dir as int),
        ],
        colors: m.colors + seq![
            (q.key - 1) as u32,
            (q.key - 1) as u32,
            (q.key - 1) as u32,
            (q.key - 1) as u32,
        ],
        indices: m.indices + quad_indices(q.dir as int, m.positions.len() as int),
    }
}

/// The exact mesh buffers a quad sequence produces.
pub open spec fn mesh_of(quads: Seq<Quad>) -> MeshModel
    decreases quads.len(),
{
    if quads.len() == 0 {
        mesh_empty()
    } else {
        mesh_push_quad(mesh_of(quads.drop_last()), quads.last())
    }
}

// ---------------------------------------------------------------------
// Bounds on the scan and its quads
// ---------------------------------------------------------------------

/// Every quad the mesher emits satisfies this: it lies inside the meshed
/// region of its direction, has positive extents, and a non-zero key.
pub open spec fn quad_wf(c: GridView, q: Quad) -> bool {
    let d = q.dir as int;
    let a = axis_of(d);
    &&& q.dir < 6
    &&& min_ax(c, a) <= q.plane <= max_ax(c, a)
    &&& q.w >= 1
    &&& q.h >= 1
    &&& min_u(c, d) <= q.u0
    &&& q.u0 + q.w - 1 <= min_u(c, d) + width(c, d) - 1
    &&& min_v(c, d) <= q.v0
    &&& q.v0 + q.h - 1 <= min_v(c, d) + height(c, d) - 1
    &&& q.key != 0
}

/// A mergeable run along u never reaches past the region's width, and
/// every cell it spans is mergeable.
proof fn lemma_run_w_bound(c: GridView, dir: int, pn: int, visited: Seq<bool>, k: u8, i: int, j: int)
    ensures
        0 <= run_w(c, dir, pn, visited, k, i, j),
        i <= width(c, dir) ==> i + run_w(c, dir, pn, visited, k, i, j) <= width(c, dir),
        mergeable(c, dir, pn, visited, k, i, j) ==> run_w(c, dir, pn, visited, k, i, j) >= 1,
        forall|t: int|
            i <= t < i + run_w(c, dir, pn, visited, k, i, j)
                ==> mergeable(c, dir, pn, visited, k, t, j),
    decreases width(c, dir) - i,
{
    if mergeable(c, dir, pn, visited, k, i, j) {
        lemma_run_w_bound(c, dir, pn, visited, k, i + 1, j);
    }
}

/// A mergeable run of rows never reaches past the region's height.
proof fn lemma_run_h_bound(
    c: GridView,
    dir: int,
    pn: int,
    visited: Seq<bool>,
    k: u8,
    i: int,
    w: int,
    j: int,
)
    ensures
        0 <= run_h(c, dir, pn, visited, k, i, w, j),
        j <= height(c, dir) ==> j + run_h(c, dir, pn, visited, k, i, w, j) <= height(c, dir),
        (j < height(c, dir) && w >= 1 && row_ok(c, dir, pn, visited, k, i, w, j)) ==> run_h(
            c,
            dir,
            pn,
            visited,
            k,
            i,
            w,
            j,
        ) >= 1,
    decreases height(c, dir) - j,
{
    if !(j >= height(c, dir) || w <= 0 || !row_ok(c, dir, pn, visited, k, i, w, j)) {
        lemma_run_h_bound(c, dir, pn, visited, k, i, w, j + 1);
    }
}

/// The scan preserves the visited array's length, emits at most one quad
/// per cell, and every quad it emits is well-formed.
proof fn lemma_scan_wf(c: GridView, dir: int, pn: int, s: int)
    requires
        c.wf(),
        0 <= dir < 6,
        min_ax(c, axis_of(dir)) <= pn <= max_ax(c, axis_of(dir)),
    ensures
        scan(c, dir, pn, s).visited.len() == width(c, dir) * height(c, dir),
        scan(c, dir, pn, s).quads.len() <= if s >= 0 {
            s
        } else {
            0
        },
        forall|t: int|
            0 <= t < scan(c, dir, pn, s).quads.len()
                ==> quad_wf(c, #[trigger] scan(c, dir, pn, s).quads[t]),
    decreases s,
{
    if s > 0 {
        lemma_scan_wf(c, dir, pn, s - 1);
        let st = scan(c, dir, pn, s - 1);
        let wd = width(c, dir);
        let i = (s - 1) % wd;
        let j = (s - 1) / wd;
        let k = cell_at(c, dir, pn, min_u(c, dir) + i, min_v(c, dir) + j);
        if mergeable(c, dir, pn, st.visited, k, i, j) {
            lemma_run_w_bound(c, dir, pn, st.visited, k, i, j);
            let w = run_w(c, dir, pn, st.visited, k, i, j);
            lemma_run_h_bound(c, dir, pn, st.visited, k, i, w, j);
            let h = run_h(c, dir, pn, st.visited, k, i, w, j);
            assert(w >= 1);
            assert(row_ok(c, dir, pn, st.visited, k, i, w, j));
            assert(h >= 1);
            let q = Quad {
                dir: dir as u8,
                plane: pn as u32,
                u0: (min_u(c, dir) + i) as u32,
                v0: (min_v(c, dir) + j) as u32,
                w: w as u32,
                h: h as u32,
                key: k,
            };
            assert(scan(c, dir, pn, s).quads == st.quads.push(q));
            assert(0 <= i < width(c, dir) && 0 <= j < height(c, dir));
            assert(i + w <= width(c, dir));
            assert(j + h <= height(c, dir));
            assert(q.u0 == min_u(c, dir) + i);
            assert(q.v0 == min_v(c, dir) + j);
            assert(q.w == w && q.h == h);
            assert(q.plane == pn);
            assert(q.key != 0);
            assert(quad_wf(c, q));
            assert forall|t: int|
                0 <= t < scan(c, dir, pn, s).quads.len()
                    implies quad_wf(c, #[trigger] scan(c, dir, pn, s).quads[t]) by {
                if t < st.quads.len() {
                    assert(scan(c, dir, pn, s).quads[t] == st.quads[t]);
                } else {
                    assert(scan(c, dir, pn, s).quads[t] == q);
                }
            }
        } else {
            assert(scan(c, dir, pn, s) == st);
        }
    }
}

/// The region of one plane never holds more cells than the whole grid.
proof fn lemma_plane_cells_bound(c: GridView, dir: int)
    requires
        c.wf(),
        0 <= dir < 6,
    ensures
        0 <= width(c, dir) * height(c, dir),
        width(c, dir) * height(c, dir) * (max_ax(c, axis_of(dir)) + 1 - min_ax(c, axis_of(dir)))
            <= crate::chunk::MAX_CELLS,
        width(c, dir) * height(c, dir) <= crate::chunk::MAX_CELLS,
{
    let a = axis_of(dir);
    let w = width(c, dir);
    let h = height(c, dir);
    let p = max_ax(c, a) + 1 - min_ax(c, a);
    let du = c.dims.x as int;
    let dv = c.dims.y as int;
    let dn = c.dims.z as int;
    assert(w >= 0 && h >= 0);
    // On each axis the region extent is at most the dimension minus the
    // two border cells, so the per-plane cell count times the plane count
    // is at most the grid's cell count.
    assert(c.dims.x * c.dims.y * c.dims.z <= crate::chunk::MAX_CELLS);
    if a == 0 {
        assert(w * h * p <= crate::chunk::MAX_CELLS && w * h <= crate::chunk::MAX_CELLS && 0 <= w
            * h) by (nonlinear_arith)
            requires
                0 <= w <= dv - 2,
                0 <= h <= dn - 2,
                0 <= p <= du - 2,
                du >= 2 && dv >= 2 && dn >= 2,
                du * dv * dn <= crate::chunk::MAX_CELLS,
        ;
    } else if a == 1 {
        assert(w * h * p <= crate::chunk::MAX_CELLS && w * h <= crate::chunk::MAX_CELLS && 0 <= w
            * h) by (nonlinear_arith)
            requires
                0 <= w <= dn - 2,
                0 <= h <= du - 2,
                0 <= p <= dv - 2,
                du >= 2 && dv >= 2 && dn >= 2,
                du * dv * dn <= crate::chunk::MAX_CELLS,
        ;
    } else {
        assert(w * h * p <= crate::chunk::MAX_CELLS && w * h <= crate::chunk::MAX_CELLS && 0 <= w
            * h) by (nonlinear_arith)
            requires
                0 <= w <= du - 2,
                0 <= h <= dv - 2,
                0 <= p <= dn - 2,
                du >= 2 && dv >= 2 && dn >= 2,
                du * dv * dn <= crate::chunk::MAX_CELLS,
        ;
    }
}

/// All quads of one direction's planes below `pn_end` are well-formed,
/// and their number is bounded by the cells swept so far.
proof fn lemma_planes_quads_wf(c: GridView, dir: int, pn_end: int)
    requires
        c.wf(),
        0 <= dir < 6,
        min_ax(c, axis_of(dir)) <= pn_end <= max_ax(c, axis_of(dir)) + 1,
    ensures
        planes_quads(c, dir, pn_end).len() <= width(c, dir) * height(c, dir) * (pn_end
            - min_ax(c, axis_of(dir))),
        planes_quads(c, dir, pn_end).len() <= crate::chunk::MAX_CELLS,
        forall|t: int|
            0 <= t < planes_quads(c, dir, pn_end).len()
                ==> quad_wf(c, #[trigger] planes_quads(c, dir, pn_end)[t]),
    decreases pn_end - min_ax(c, axis_of(dir)),
{
    let wh = width(c, dir) * height(c, dir);
    let mn = min_ax(c, axis_of(dir));
    lemma_plane_cells_bound(c, dir);
    if pn_end <= mn {
    } else {
        lemma_planes_quads_wf(c, dir, pn_end - 1);
        lemma_scan_wf(c, dir, pn_end - 1, wh);
        assert(wh * (pn_end - mn) == wh * (pn_end - 1 - mn) + wh) by (nonlinear_arith);
        assert(wh * (pn_end - mn) <= wh * (max_ax(c, axis_of(dir)) + 1 - mn)) by (nonlinear_arith)
            requires
                wh >= 0,
                pn_end <= max_ax(c, axis_of(dir)) + 1,
        ;
    }
}

/// Every quad the mesher emits is well-formed, and there are at most
/// [`crate::chunk::MAX_CELLS`] of them per direction.
proof fn lemma_dirs_quads_wf(c: GridView, dir_end: int)
    requires
        c.wf(),
        dir_end <= 6,
    ensures
        dirs_quads(c, dir_end).len() <= 6 * crate::chunk::MAX_CELLS,
        forall|t: int|
            0 <= t < dirs_quads(c, dir_end).len()
                ==> quad_wf(c, #[trigger] dirs_quads(c, dir_end)[t]),
    decreases dir_end,
{
    if dir_end > 0 {
        lemma_dirs_quads_wf(c, dir_end - 1);
        lemma_planes_quads_wf(c, dir_end - 1, max_ax(c, axis_of(dir_end - 1)) + 1);
        assert(dirs_quads(c, dir_end - 1).len() <= 5 * crate::chunk::MAX_CELLS) by {
            lemma_dirs_quads_len_step(c, dir_end - 1);
        }
    }
}

/// Each direction contributes at most [`crate::chunk::MAX_CELLS`] quads.
proof fn lemma_dirs_quads_len_step(c: GridView, dir_end: int)
    requires
        c.wf(),
        dir_end <= 6,
    ensures
        dirs_quads(c, dir_end).len() <= if dir_end >= 0 {
            dir_end * crate::chunk::MAX_CELLS
        } else {
            0
        },
    decreases dir_end,
{
    if dir_end > 0 {
        lemma_dirs_quads_len_step(c, dir_end - 1);
        lemma_planes_quads_wf(c, dir_end - 1, max_ax(c, axis_of(dir_end - 1)) + 1);
    }
}

/// Mesh buffer lengths follow the quad count: four vertices and six
/// indices per quad.
pub proof fn lemma_mesh_of_len(quads: Seq<Quad>)
    ensures
        mesh_of(quads).positions.len() == 4 * quads.len(),
        mesh_of(quads).normals.len() == 4 * quads.len(),
        mesh_of(quads).colors.len() == 4 * quads.len(),
        mesh_of(quads).indices.len() == 6 * quads.len(),
    decreases quads.len(),
{
    if quads.len() > 0 {
        lemma_mesh_of_len(quads.drop_last());
    }
}

// ---------------------------------------------------------------------
// Plane-index arithmetic
// ---------------------------------------------------------------------

/// Splitting a flat plane index into row and column, for a non-empty
/// plane.
proof fn lemma_plane_idx(wd: int, ht: int, s: int)
    requires
        0 <= s,
        s < wd * ht,
        0 <= wd,
        0 <= ht,
    ensures
        wd >= 1,
        0 <= s % wd < wd,
        0 <= s / wd < ht,
        s == wd * (s / wd) + s % wd,
{
    assert(wd >= 1) by (nonlinear_arith)
        requires
            0 <= s,
            s < wd * ht,
            0 <= wd,
            0 <= ht,
    ;
    vstd::arithmetic::div_mod::lemma_fundamental_div_mod(s, wd);
    assert(0 <= s / wd && s / wd < ht) by (nonlinear_arith)
        requires
            s == wd * (s / wd) + s % wd,
            0 <= s % wd < wd,
            s < wd * ht,
            0 <= s,
            wd >= 1,
    ;
}

/// Combining a row and a column into a flat plane index.
proof fn lemma_plane_idx2(wd: int, ht: int, i: int, j: int)
    requires
        0 <= i < wd,
        0 <= j < ht,
    ensures
        0 <= j * wd + i < wd * ht,
        (j * wd + i) % wd == i,
        (j * wd + i) / wd == j,
{
    vstd::arithmetic::div_mod::lemma_fundamental_div_mod_converse(j * wd + i, wd, j, i);
    assert(0 <= j * wd + i < wd * ht) by (nonlinear_arith)
        requires
            0 <= i < wd,
            0 <= j < ht,
    ;
}

// ---------------------------------------------------------------------
// Executable helpers
// ---------------------------------------------------------------------

/// The bounds of the meshed region as one face direction sees them.
struct PlaneFrame {
    a: u8,
    minn: u32,
    maxn: u32,
    minu: u32,
    minv: u32,
    wd: u32,
    ht: u32,
}

/// `f` holds direction `dir`'s view of `c`'s meshed region.
spec fn frame_ok(f: PlaneFrame, c: GridView, dir: int) -> bool {
    &&& f.a == axis_of(dir)
    &&& f.minn == min_ax(c, axis_of(dir))
    &&& f.maxn == max_ax(c, axis_of(dir))
    &&& f.minu == min_u(c, dir)
    &&& f.minv == min_v(c, dir)
    &&& f.wd == width(c, dir)
    &&& f.ht == height(c, dir)
}

/// Component `a` of a coordinate.
fn comp_of(c: Coord, a: u8) -> (r: u32)
    requires
        a < 3,
    ensures
        r == comp(c, a as int),
{
    if a == 0 {
        c.x
    } else if a == 1 {
        c.y
    } else {
        c.z
    }
}

/// The absolute coordinate with normal-axis component `pn` and in-plane
/// components `u`, `v`, for normal axis `a`.
fn abs_coord(a: u8, pn: u32, u: u32, v: u32) -> (r: Coord)
    requires
        a < 3,
    ensures
        r.x == coord_x(a as int, pn as int, u as int, v as int),
        r.y == coord_y(a as int, pn as int, u as int, v as int),
        r.z == coord_z(a as int, pn as int, u as int, v as int),
{
    if a == 0 {
        Coord { x: pn, y: u, z: v }
    } else if a == 1 {
        Coord { x: v, y: pn, z: u }
    } else {
        Coord { x: u, y: v, z: pn }
    }
}

/// Computes direction `dir`'s view of the meshed region.
fn plane_frame(c: &Chunk, dir: u8) -> (f: PlaneFrame)
    requires
        c.wf(),
        dir < 6,
    ensures
        frame_ok(f, c@, dir as int),
{
    let a = dir / 2;
    let ua = if a == 0 {
        1
    } else if a == 1 {
        2
    } else {
        0
    };
    let va = if a == 0 {
        2
    } else if a == 1 {
        0
    } else {
        1
    };
    let minn = comp_of(c.min(), a);
    let maxn = comp_of(c.max(), a);
    let minu = comp_of(c.min(), ua);
    let maxu = comp_of(c.max(), ua);
    let minv = comp_of(c.min(), va);
    let maxv = comp_of(c.max(), va);
    let wd = if maxu < minu {
        0
    } else {
        maxu - minu + 1
    };
    let ht = if maxv < minv {
        0
    } else {
        maxv - minv + 1
    };
    PlaneFrame { a, minn, maxn, minu, minv, wd, ht }
}

/// A vector of `n` `false` flags: no plane cell is covered yet.
fn falses(n: usize) -> (v: Vec<bool>)
    ensures
        v@ == Seq::new(n as nat, |t: int| false),
{
    let mut v: Vec<bool> = Vec::new();
    let mut i: usize = 0;
    while i < n
        invariant
            i <= n,
            v@.len() == i,
            forall|t: int| 0 <= t < i ==> !v@[t],
        decreases n - i,
    {
        v.push(false);
        i = i + 1;
    }
    proof {
        assert(v@ =~= Seq::new(n as nat, |t: int| false));
    }
    v
}

/// Decides [`mergeable`] for region-relative plane cell `(i, j)`.
fn mergeable_at(
    c: &Chunk,
    dir: u8,
    f: &PlaneFrame,
    pn: u32,
    visited: &Vec<bool>,
    k: u8,
    i: u32,
    j: u32,
) -> (b: bool)
    requires
        c.wf(),
        dir < 6,
        frame_ok(*f, c@, dir as int),
        f.minn <= pn <= f.maxn,
        visited@.len() == width(c@, dir as int) * height(c@, dir as int),
    ensures
        b == mergeable(c@, dir as int, pn as int, visited@, k, i as int, j as int),
{
    if i >= f.wd || j >= f.ht {
        return false;
    }
    let n = visited.len();
    proof {
        lemma_plane_idx2(f.wd as int, f.ht as int, i as int, j as int);
        assert(f.wd as int * f.ht as int <= u64::MAX) by (nonlinear_arith)
            requires
                0 <= f.wd <= u32::MAX,
                0 <= f.ht <= u32::MAX,
        ;
        assert(j * f.wd + i < n);
    }
    let idx = (j as u64 * f.wd as u64 + i as u64) as usize;
    if visited[idx] {
        return false;
    }
    let u = f.minu + i;
    let v = f.minv + j;
    let p = abs_coord(f.a, pn, u, v);
    let cv = c.get(p);
    let pn2 = if dir % 2 == 1 {
        pn + 1
    } else {
        pn - 1
    };
    let q = abs_coord(f.a, pn2, u, v);
    let nv = c.get(q);
    cv != 0 && nv == 0 && cv == k
}

/// Decides [`row_ok`]: every cell of the row segment is mergeable.
fn row_ok_at(
    c: &Chunk,
    dir: u8,
    f: &PlaneFrame,
    pn: u32,
    visited: &Vec<bool>,
    k: u8,
    i: u32,
    w: u32,
    j: u32,
) -> (b: bool)
    requires
        c.wf(),
        dir < 6,
        frame_ok(*f, c@, dir as int),
        f.minn <= pn <= f.maxn,
        visited@.len() == width(c@, dir as int) * height(c@, dir as int),
        i + w <= width(c@, dir as int),
    ensures
        b == row_ok(c@, dir as int, pn as int, visited@, k, i as int, w as int, j as int),
{
    let mut t: u32 = 0;
    while t < w
        invariant
            t <= w,
            forall|t2: int|
                i <= t2 < i + t ==> mergeable(c@, dir as int, pn as int, visited@, k, t2, j as int),
        decreases w - t,
    {
        if !mergeable_at(c, dir, f, pn, visited, k, i + t, j) {
            return false;
        }
        t = t + 1;
    }
    true
}

/// Decides [`in_rect`] for one plane cell.
fn in_rect_exec(t: usize, wd: u32, i: u32, j: u32, w: u32, h: u32) -> (b: bool)
    requires
        wd >= 1,
        i + w <= u32::MAX,
        j + h <= u32::MAX,
    ensures
        b == in_rect(t as int, wd as int, i as int, j as int, w as int, h as int),
{
    let ci = t % wd as usize;
    let cj = t / wd as usize;
    i as usize <= ci && ci < (i + w) as usize && j as usize <= cj && cj < (j + h) as usize
}

/// The plane after the rectangle's cells among the first `cut` have been
/// marked: the partially marked plane a scan of [`mark_rect_exec`]'s loop
/// leaves behind.
spec fn mark_upto(orig: Seq<bool>, wd: int, i: int, j: int, w: int, h: int, cut: int) -> Seq<
    bool,
> {
    Seq::new(
        orig.len(),
        |t: int|
            if t < cut && in_rect(t, wd, i, j, w, h) {
                true
            } else {
                orig[t]
            },
    )
}

/// Marks the rectangle of origin `(i, j)` and extent `(w, h)` visited, in
/// a plane `wd` by `ht`, returning the updated plane. Only the rectangle's
/// rows are rescanned.
fn mark_rect_exec(cover: Vec<bool>, wd: u32, ht: u32, i: u32, j: u32, w: u32, h: u32) -> (r: Vec<
    bool,
>)
    requires
        wd >= 1,
        i + w <= wd,
        j + h <= ht,
        cover@.len() == wd * ht,
    ensures
        r@ == mark_rect(cover@, wd as int, i as int, j as int, w as int, h as int),
{
    let ghost orig = cover@;
    let mut visited = cover;
    let n = visited.len();
    proof {
        assert((j + h) * wd <= ht * wd && ht * wd == wd * ht && (j as int) * wd <= (j + h) * wd)
            by (nonlinear_arith)
            requires
                j + h <= ht,
                wd >= 0,
                h >= 0,
                j >= 0,
        ;
    }
    let lo = j as usize * wd as usize;
    let hi = (j + h) as usize * wd as usize;
    proof {
        // Below the first marked row no cell lies in the rectangle, so the
        // loop may start at the rectangle's first cell.
        assert forall|t2: int| 0 <= t2 < lo implies !in_rect(
            t2,
            wd as int,
            i as int,
            j as int,
            w as int,
            h as int,
        ) by {
            vstd::arithmetic::div_mod::lemma_fundamental_div_mod(t2, wd as int);
            assert(t2 / (wd as int) < j) by (nonlinear_arith)
                requires
                    t2 < (j as int) * (wd as int),
                    wd >= 1,
                    t2 == (wd as int) * (t2 / (wd as int)) + t2 % (wd as int),
                    0 <= t2 % (wd as int) < wd,
            ;
        }
        assert(visited@ =~= mark_upto(
            orig,
            wd as int,
            i as int,
            j as int,
            w as int,
            h as int,
            lo as int,
        ));
    }
    let mut t: usize = lo;
    while t < hi
        invariant
            lo <= t <= hi,
            hi <= n,
            n == orig.len(),
            visited@ == mark_upto(
                orig,
                wd as int,
                i as int,
                j as int,
                w as int,
                h as int,
                t as int,
            ),
        decreases hi - t,
    {
        let ghost before = visited@;
        let m = in_rect_exec(t, wd, i, j, w, h);
        if m {
            visited.set(t, true);
        }
        proof {
            assert(visited@ =~= mark_upto(
                orig,
                wd as int,
                i as int,
                j as int,
                w as int,
                h as int,
                t as int + 1,
            ));
        }
        t = t + 1;
    }
    proof {
        // Above the last marked row no cell lies in the rectangle either,
        // so marking the first `hi` cells marked the whole rectangle.
        assert forall|t2: int| hi <= t2 < orig.len() implies !in_rect(
            t2,
            wd as int,
            i as int,
            j as int,
            w as int,
            h as int,
        ) by {
            vstd::arithmetic::div_mod::lemma_fundamental_div_mod(t2, wd as int);
            assert(t2 / (wd as int) >= j + h) by (nonlinear_arith)
                requires
                    t2 >= ((j + h) as int) * (wd as int),
                    wd >= 1,
                    t2 == (wd as int) * (t2 / (wd as int)) + t2 % (wd as int),
                    0 <= t2 % (wd as int) < wd,
            ;
        }
        assert(visited@ =~= mark_rect(orig, wd as int, i as int, j as int, w as int, h as int));
    }
    visited
}

/// Collects the quads of all six directions, in the fixed sweep order:
/// exactly [`all_quads`].
#[verifier::rlimit(100)]
fn collect_quads(c: &Chunk) -> (qs: Vec<Quad>)
    requires
        c.wf(),
    ensures
        qs@ == all_quads(c@),
{
    let mut quads: Vec<Quad> = Vec::new();
    let mut dir: u8 = 0;
    while dir < 6
        invariant
            dir <= 6,
            quads@ == dirs_quads(c@, dir as int),
        decreases 6 - dir,
    {
        let f = plane_frame(c, dir);
        proof {
            lemma_plane_cells_bound(c@, dir as int);
            assert(planes_quads(c@, dir as int, f.minn as int) == Seq::<Quad>::empty());
        }
        let mut pn: u32 = f.minn;
        while pn <= f.maxn
            invariant
                f.minn <= pn <= f.maxn + 1,
                quads@ == dirs_quads(c@, dir as int) + planes_quads(c@, dir as int, pn as int),
            decreases f.maxn + 1 - pn,
        {
            let wh64 = f.wd as u64 * f.ht as u64;
            let wh = wh64 as usize;
            let mut visited = falses(wh);
            proof {
                assert(visited@ =~= scan_init(c@, dir as int).visited);
                assert(scan(c@, dir as int, pn as int, 0) == scan_init(c@, dir as int));
            }
            let mut s: usize = 0;
            let ghost qbase = quads@;
            while s < wh
                invariant
                    0 <= s <= wh,
                    wh == width(c@, dir as int) * height(c@, dir as int),
                    f.minn <= pn <= f.maxn,
                    visited@ == scan(c@, dir as int, pn as int, s as int).visited,
                    quads@ == qbase + scan(c@, dir as int, pn as int, s as int).quads,
                decreases wh - s,
            {
                let ghost st = scan(c@, dir as int, pn as int, s as int);
                proof {
                    lemma_plane_idx(f.wd as int, f.ht as int, s as int);
                    lemma_scan_wf(c@, dir as int, pn as int, s as int);
                }
                let i = (s % f.wd as usize) as u32;
                let j = (s / f.wd as usize) as u32;
                let u = f.minu + i;
                let v = f.minv + j;
                let p = abs_coord(f.a, pn, u, v);
                let k = c.get(p);
                let ghost kspec = cell_at(
                    c@,
                    dir as int,
                    pn as int,
                    min_u(c@, dir as int) + (s as int) % width(c@, dir as int),
                    min_v(c@, dir as int) + (s as int) / width(c@, dir as int),
                );
                proof {
                    assert(k == kspec);
                }
                if mergeable_at(c, dir, &f, pn, &visited, k, i, j) {
                    proof {
                        lemma_run_w_bound(
                            c@,
                            dir as int,
                            pn as int,
                            visited@,
                            k,
                            i as int,
                            j as int,
                        );
                    }
                    // Grow the run along u while the next cell merges.
                    let mut e: u32 = i + 1;
                    while e < f.wd && mergeable_at(c, dir, &f, pn, &visited, k, e, j)
                        invariant
                            i < e <= f.wd,
                            run_w(c@, dir as int, pn as int, visited@, k, i as int, j as int)
                                == (e - i) + run_w(
                                c@,
                                dir as int,
                                pn as int,
                                visited@,
                                k,
                                e as int,
                                j as int,
                            ),
                        decreases f.wd - e,
                    {
                        proof {
                            lemma_run_w_bound(
                                c@,
                                dir as int,
                                pn as int,
                                visited@,
                                k,
                                e as int,
                                j as int,
                            );
                        }
                        e = e + 1;
                    }
                    let w = e - i;
                    proof {
                        assert(run_w(c@, dir as int, pn as int, visited@, k, e as int, j as int)
                            == 0);
                        assert(w == run_w(
                            c@,
                            dir as int,
                            pn as int,
                            visited@,
                            k,
                            i as int,
                            j as int,
                        ));
                        lemma_run_h_bound(
                            c@,
                            dir as int,
                            pn as int,
                            visited@,
                            k,
                            i as int,
                            w as int,
                            j as int,
                        );
                        assert(row_ok(
                            c@,
                            dir as int,
                            pn as int,
                            visited@,
                            k,
                            i as int,
                            w as int,
                            j as int,
                        ));
                    }
                    // Grow the rectangle along v while whole rows merge.
                    let mut g: u32 = j + 1;
                    while g < f.ht && row_ok_at(c, dir, &f, pn, &visited, k, i, w, g)
                        invariant
                            j < g <= f.ht,
                            i + w <= f.wd,
                            run_h(
                                c@,
                                dir as int,
                                pn as int,
                                visited@,
                                k,
                                i as int,
                                w as int,
                                j as int,
                            ) == (g - j) + run_h(
                                c@,
                                dir as int,
                                pn as int,
                                visited@,
                                k,
                                i as int,
                                w as int,
                                g as int,
                            ),
                        decreases f.ht - g,
                    {
                        proof {
                            lemma_run_h_bound(
                                c@,
                                dir as int,
                                pn as int,
                                visited@,
                                k,
                                i as int,
                                w as int,
                                g as int,
                            );
                        }
                        g = g + 1;
                    }
                    let h = g - j;
                    proof {
                        assert(run_h(
                            c@,
                            dir as int,
                            pn as int,
                            visited@,
                            k,
                            i as int,
                            w as int,
                            g as int,
                        ) == 0);
                        assert(h == run_h(
                            c@,
                            dir as int,
                            pn as int,
                            visited@,
                            k,
                            i as int,
                            w as int,
                            j as int,
                        ));
                        lemma_run_h_bound(
                            c@,
                            dir as int,
                            pn as int,
                            visited@,
                            k,
                            i as int,
                            w as int,
                            j as int,
                        );
                    }
                    visited = mark_rect_exec(visited, f.wd, f.ht, i, j, w, h);
                    quads.push(Quad { dir, plane: pn, u0: u, v0: v, w, h, key: k });
                    proof {
                        let snext = scan(c@, dir as int, pn as int, s as int + 1);
                        assert(snext == scan_step(c@, dir as int, pn as int, st, s as int));
                        assert(visited@ == snext.visited);
                        assert(quads@ == qbase + snext.quads);
                    }
                } else {
                    proof {
                        assert(scan(c@, dir as int, pn as int, s as int + 1) == scan_step(
                            c@,
                            dir as int,
                            pn as int,
                            st,
                            s as int,
                        ));
                        assert(scan(c@, dir as int, pn as int, s as int + 1) == st);
                    }
                }
                s = s + 1;
            }
            proof {
                assert(planes_quads(c@, dir as int, pn as int + 1) == planes_quads(
                    c@,
                    dir as int,
                    pn as int,
                ) + plane_quads(c@, dir as int, pn as int));
            }
            pn = pn + 1;
        }
        proof {
            assert(dirs_quads(c@, dir as int + 1) == dirs_quads(c@, dir as int) + planes_quads(
                c@,
                dir as int,
                max_ax(c@, axis_of(dir as int)) + 1,
            ));
        }
        dir = dir + 1;
    }
    quads
}

/// A polygon mesh: flat-shaded merged quads as a triangle list. Vertex
/// positions are in padded-grid units; each vertex carries the face
/// normal and the quad's 0-based palette slot, to be resolved against the
/// shared palette at render time.
pub struct Mesh {
    pub positions: Vec<Coord>,
    pub normals: Vec<IVec3>,
    pub color_indices: Vec<u32>,
    pub indices: Vec<u32>,
}

impl Mesh {
    /// The buffers, at the specification level.
    pub open spec fn model(self) -> MeshModel {
        MeshModel {
            positions: self.positions@,
            normals: self.normals@,
            colors: self.color_indices@,
            indices: self.indices@,
        }
    }
}

impl Chunk {
    /// Runs the greedy mesher on this grid. The result is a pure function
    /// of the grid: its buffers equal [`mesh_of`] of [`all_quads`], so two
    /// runs on equal grids produce byte-identical vertex and index
    /// sequences.
    #[verifier::rlimit(60)]
    pub fn build(&self) -> (m: Mesh)
        requires
            self.wf(),
        ensures
            m.model() == mesh_of(all_quads(self@)),
    {
        let quads = collect_quads(self);
        proof {
            lemma_dirs_quads_wf(self@, 6);
        }
        let mut positions: Vec<Coord> = Vec::new();
        let mut normals: Vec<IVec3> = Vec::new();
        let mut color_indices: Vec<u32> = Vec::new();
        let mut indices: Vec<u32> = Vec::new();
        let nq = quads.len();
        let mut qi: usize = 0;
        while qi < nq
            invariant
                0 <= qi <= nq,
                nq == quads@.len(),
                quads@ == all_quads(self@),
                positions@ == mesh_of(quads@.take(qi as int)).positions,
                normals@ == mesh_of(quads@.take(qi as int)).normals,
                color_indices@ == mesh_of(quads@.take(qi as int)).colors,
                indices@ == mesh_of(quads@.take(qi as int)).indices,
            decreases nq - qi,
        {
            let ghost prefix = quads@.take(qi as int);
            proof {
                lemma_mesh_of_len(prefix);
                assert(quad_wf(self@, all_quads(self@)[qi as int]));
                assert(quads@.take(qi as int + 1).drop_last() =~= prefix);
                assert(quads@.take(qi as int + 1).last() == quads@[qi as int]);
            }
            let q = quads[qi];
            let a = q.dir / 2;
            let pos = if q.dir % 2 == 1 {
                q.plane + 1
            } else {
                q.plane
            };
            let c00 = abs_coord(a, pos, q.u0, q.v0);
            let c10 = abs_coord(a, pos, q.u0 + q.w, q.v0);
            let c01 = abs_coord(a, pos, q.u0, q.v0 + q.h);
            let c11 = abs_coord(a, pos, q.u0 + q.w, q.v0 + q.h);
            proof {
                assert(c00 == quad_corner(q, 0, 0));
                assert(c10 == quad_corner(q, q.w as int, 0));
                assert(c01 == quad_corner(q, 0, q.h as int));
                assert(c11 == quad_corner(q, q.w as int, q.h as int));
            }
            let b = positions.len() as u32;
            positions.push(c00);
            positions.push(c10);
            positions.push(c01);
            positions.push(c11);
            let sgn: i32 = if q.dir % 2 == 1 {
                1
            } else {
                -1
            };
            let nv = IVec3 {
                x: if a == 0 {
                    sgn
                } else {
                    0
                },
                y: if a == 1 {
                    sgn
                } else {
                    0
                },
                z: if a == 2 {
                    sgn
                } else {
                    0
                },
            };
            proof {
                assert(nv == dir_normal(q.dir as int));
            }
            normals.push(nv);
            normals.push(nv);
            normals.push(nv);
            normals.push(nv);
            let col = (q.key - 1) as u32;
            color_indices.push(col);
            color_indices.push(col);
            color_indices.push(col);
            color_indices.push(col);
            if q.dir % 2 == 1 {
                indices.push(b);
                indices.push(b + 1);
                indices.push(b + 3);
                indices.push(b);
                indices.push(b + 3);
                indices.push(b + 2);
            } else {
                indices.push(b);
                indices.push(b + 2);
                indices.push(b + 3);
                indices.push(b);
                indices.push(b + 3);
                indices.push(b + 1);
            }
            proof {
                let now = mesh_of(quads@.take(qi as int + 1));
                assert(now == mesh_push_quad(mesh_of(prefix), quads@[qi as int]));
                assert(positions@ =~= now.positions);
                assert(normals@ =~= now.normals);
                assert(color_indices@ =~= now.colors);
                assert(indices@ =~= now.indices);
            }
            qi = qi + 1;
        }
        proof {
            assert(quads@.take(nq as int) =~= quads@);
        }
        Mesh { positions, normals, color_indices, indices }
    }
}

/// In an all-air grid no face is visible, so no cell is ever mergeable.
proof fn lemma_air_not_mergeable(c: GridView, dir: int, pn: int, visited: Seq<bool>, k: u8, i: int, j: int)
    requires
        c.wf(),
        0 <= dir < 6,
        min_ax(c, axis_of(dir)) <= pn <= max_ax(c, axis_of(dir)),
        forall|t: int| 0 <= t < c.cells.len() ==> c.cells[t] == 0,
    ensures
        !mergeable(c, dir, pn, visited, k, i, j),
{
    if mergeable(c, dir, pn, visited, k, i, j) {
        let a = axis_of(dir);
        let u = min_u(c, dir) + i;
        let v = min_v(c, dir) + j;
        let cx = coord_x(a, pn, u, v);
        let cy = coord_y(a, pn, u, v);
        let cz = coord_z(a, pn, u, v);
        assert(coord_in_dims(c.dims, cx, cy, cz));
        crate::chunk::lemma_lin_in_range(c.dims, cx, cy, cz);
        assert(c.cell(cx, cy, cz) == 0);
        assert(!face_visible(c, dir, pn, u, v));
    }
}

/// In an all-air grid the plane scan emits nothing.
proof fn lemma_air_scan_empty(c: GridView, dir: int, pn: int, s: int)
    requires
        c.wf(),
        0 <= dir < 6,
        min_ax(c, axis_of(dir)) <= pn <= max_ax(c, axis_of(dir)),
        forall|t: int| 0 <= t < c.cells.len() ==> c.cells[t] == 0,
    ensures
        scan(c, dir, pn, s).quads == Seq::<Quad>::empty(),
    decreases s,
{
    if s > 0 {
        lemma_air_scan_empty(c, dir, pn, s - 1);
        let st = scan(c, dir, pn, s - 1);
        let wd = width(c, dir);
        let i = (s - 1) % wd;
        let j = (s - 1) / wd;
        let k = cell_at(c, dir, pn, min_u(c, dir) + i, min_v(c, dir) + j);
        lemma_air_not_mergeable(c, dir, pn, st.visited, k, i, j);
        assert(scan(c, dir, pn, s) == st);
    }
}

/// In an all-air grid no plane of any direction contributes a quad.
proof fn lemma_air_planes_empty(c: GridView, dir: int, pn_end: int)
    requires
        c.wf(),
        0 <= dir < 6,
        pn_end <= max_ax(c, axis_of(dir)) + 1,
        forall|t: int| 0 <= t < c.cells.len() ==> c.cells[t] == 0,
    ensures
        planes_quads(c, dir, pn_end) == Seq::<Quad>::empty(),
    decreases pn_end - min_ax(c, axis_of(dir)),
{
    if pn_end > min_ax(c, axis_of(dir)) {
        lemma_air_planes_empty(c, dir, pn_end - 1);
        lemma_air_scan_empty(c, dir, pn_end - 1, width(c, dir) * height(c, dir));
        assert(planes_quads(c, dir, pn_end) =~= Seq::<Quad>::empty());
    }
}

/// Air invariant: a grid entirely composed of material `0` yields no quad
/// at all, hence a mesh with no vertices and no indices.
pub proof fn lemma_air_yields_empty_mesh(c: GridView)
    requires
        c.wf(),
        forall|t: int| 0 <= t < c.cells.len() ==> c.cells[t] == 0,
    ensures
        all_quads(c) == Seq::<Quad>::empty(),
        mesh_of(all_quads(c)) == mesh_empty(),
{
    assert(dirs_quads(c, 0) == Seq::<Quad>::empty());
    lemma_air_planes_empty(c, 0, max_ax(c, axis_of(0)) + 1);
    assert(dirs_quads(c, 1) =~= Seq::<Quad>::empty());
    lemma_air_planes_empty(c, 1, max_ax(c, axis_of(1)) + 1);
    assert(dirs_quads(c, 2) =~= Seq::<Quad>::empty());
    lemma_air_planes_empty(c, 2, max_ax(c, axis_of(2)) + 1);
    assert(dirs_quads(c, 3) =~= Seq::<Quad>::empty());
    lemma_air_planes_empty(c, 3, max_ax(c, axis_of(3)) + 1);
    assert(dirs_quads(c, 4) =~= Seq::<Quad>::empty());
    lemma_air_planes_empty(c, 4, max_ax(c, axis_of(4)) + 1);
    assert(dirs_quads(c, 5) =~= Seq::<Quad>::empty());
    lemma_air_planes_empty(c, 5, max_ax(c, axis_of(5)) + 1);
    assert(dirs_quads(c, 6) =~= Seq::<Quad>::empty());
}

/// A solid cuboid of uniform material `k`: the meshed region is the whole
/// interior, it is non-empty on every axis, and every interior cell holds
/// `k`.
pub open spec fn solid(g: GridView, k: u8) -> bool {
    &&& k != 0
    &&& g.min == (Coord { x: 1u32, y: 1u32, z: 1u32 })
    &&& g.max.x == g.dims.x - 2 && g.max.y == g.dims.y - 2 && g.max.z == g.dims.z - 2
    &&& g.max.x >= 1 && g.max.y >= 1 && g.max.z >= 1
    &&& forall|cx: int, cy: int, cz: int| g.interior(cx, cy, cz) ==> g.cell(cx, cy, cz) == k
}

/// The one plane of a direction whose faces lie on the solid's surface:
/// the far side for positive directions, the near side for negative ones.
pub open spec fn active_plane(g: GridView, dir: int) -> int {
    if is_pos(dir) {
        max_ax(g, axis_of(dir))
    } else {
        min_ax(g, axis_of(dir))
    }
}

/// In a solid cuboid every region cell holds `k`, and its face toward
/// direction `dir` is visible exactly on the direction's surface plane.
proof fn lemma_solid_visibility(g: GridView, k: u8, dir: int, pn: int, i: int, j: int)
    requires
        g.wf(),
        solid(g, k),
        0 <= dir < 6,
        min_ax(g, axis_of(dir)) <= pn <= max_ax(g, axis_of(dir)),
        0 <= i < width(g, dir),
        0 <= j < height(g, dir),
    ensures
        cell_at(g, dir, pn, min_u(g, dir) + i, min_v(g, dir) + j) == k,
        face_visible(g, dir, pn, min_u(g, dir) + i, min_v(g, dir) + j) <==> pn == active_plane(
            g,
            dir,
        ),
{
    let a = axis_of(dir);
    let u = min_u(g, dir) + i;
    let v = min_v(g, dir) + j;
    let step: int = if is_pos(dir) {
        1
    } else {
        -1
    };
    assert(g.interior(coord_x(a, pn, u, v), coord_y(a, pn, u, v), coord_z(a, pn, u, v)));
    let qx = coord_x(a, pn + step, u, v);
    let qy = coord_y(a, pn + step, u, v);
    let qz = coord_z(a, pn + step, u, v);
    if pn == active_plane(g, dir) {
        // The neighbor lies on the empty border.
        assert(coord_in_dims(g.dims, qx, qy, qz));
        assert(!g.interior(qx, qy, qz));
        assert(g.cell(qx, qy, qz) == 0);
    } else {
        // The neighbor is still inside the solid.
        assert(g.interior(qx, qy, qz));
        assert(g.cell(qx, qy, qz) == k);
    }
}

/// A plane of a solid cuboid away from the surface emits nothing.
proof fn lemma_solid_inactive_scan(g: GridView, k: u8, dir: int, pn: int, s: int)
    requires
        g.wf(),
        solid(g, k),
        0 <= dir < 6,
        min_ax(g, axis_of(dir)) <= pn <= max_ax(g, axis_of(dir)),
        pn != active_plane(g, dir),
    ensures
        scan(g, dir, pn, s).quads == Seq::<Quad>::empty(),
    decreases s,
{
    if s > 0 {
        lemma_solid_inactive_scan(g, k, dir, pn, s - 1);
        let st = scan(g, dir, pn, s - 1);
        let wd = width(g, dir);
        let i = (s - 1) % wd;
        let j = (s - 1) / wd;
        let kk = cell_at(g, dir, pn, min_u(g, dir) + i, min_v(g, dir) + j);
        if mergeable(g, dir, pn, st.visited, kk, i, j) {
            lemma_solid_visibility(g, k, dir, pn, i, j);
            assert(false);
        }
        assert(scan(g, dir, pn, s) == st);
    }
}

/// A run over cells that are all mergeable reaches the region's far edge.
proof fn lemma_run_w_full(
    g: GridView,
    dir: int,
    pn: int,
    visited: Seq<bool>,
    k: u8,
    i: int,
    j: int,
)
    requires
        0 <= i <= width(g, dir),
        forall|t: int| i <= t < width(g, dir) ==> mergeable(g, dir, pn, visited, k, t, j),
    ensures
        run_w(g, dir, pn, visited, k, i, j) == width(g, dir) - i,
    decreases width(g, dir) - i,
{
    if i < width(g, dir) {
        lemma_run_w_full(g, dir, pn, visited, k, i + 1, j);
    }
}

/// A rectangle whose every remaining row is fully mergeable grows to the
/// region's bottom edge.
proof fn lemma_run_h_full(
    g: GridView,
    dir: int,
    pn: int,
    visited: Seq<bool>,
    k: u8,
    i: int,
    w: int,
    j: int,
)
    requires
        w >= 1,
        0 <= j <= height(g, dir),
        forall|jj: int|
            j <= jj < height(g, dir) ==> row_ok(g, dir, pn, visited, k, i, w, jj),
    ensures
        run_h(g, dir, pn, visited, k, i, w, j) == height(g, dir) - j,
    decreases height(g, dir) - j,
{
    if j < height(g, dir) {
        lemma_run_h_full(g, dir, pn, visited, k, i, w, j + 1);
    }
}

/// Once a scan's covered set has grown to the whole plane, the scan emits
/// nothing more.
proof fn lemma_scan_stuck(g: GridView, dir: int, pn: int, s0: int, s: int)
    requires
        0 <= s0 <= s,
        forall|t: int|
            0 <= t < scan(g, dir, pn, s0).visited.len() ==> scan(g, dir, pn, s0).visited[t],
        scan(g, dir, pn, s0).visited.len() == width(g, dir) * height(g, dir),
    ensures
        scan(g, dir, pn, s) == scan(g, dir, pn, s0),
    decreases s - s0,
{
    if s > s0 {
        lemma_scan_stuck(g, dir, pn, s0, s - 1);
        let st = scan(g, dir, pn, s - 1);
        let wd = width(g, dir);
        let i = (s - 1) % wd;
        let j = (s - 1) / wd;
        let kk = cell_at(g, dir, pn, min_u(g, dir) + i, min_v(g, dir) + j);
        if mergeable(g, dir, pn, st.visited, kk, i, j) {
            lemma_plane_idx2(wd, height(g, dir), i, j);
            assert(st.visited[j * wd + i]);
            assert(false);
        }
        assert(scan(g, dir, pn, s) == st);
    }
}

/// The surface plane of a solid cuboid emits exactly one quad: the first
/// cell starts a rectangle, the rectangle grows over the whole plane, and
/// everything is covered afterwards.
proof fn lemma_solid_active_plane(g: GridView, k: u8, dir: int)
    requires
        g.wf(),
        solid(g, k),
        0 <= dir < 6,
    ensures
        plane_quads(g, dir, active_plane(g, dir)).len() == 1,
{
    let pn = active_plane(g, dir);
    let wd = width(g, dir);
    let ht = height(g, dir);
    let st0 = scan_init(g, dir);
    assert(wd >= 1 && ht >= 1);
    // Every region cell of this plane is mergeable on the fresh plane.
    assert forall|i: int, j: int| 0 <= i < wd && 0 <= j < ht implies mergeable(
        g,
        dir,
        pn,
        st0.visited,
        k,
        i,
        j,
    ) by {
        lemma_solid_visibility(g, k, dir, pn, i, j);
        lemma_plane_idx2(wd, ht, i, j);
        assert(!st0.visited[j * wd + i]);
    }
    // The first scan step grows the rectangle over the whole plane.
    lemma_plane_idx2(wd, ht, 0, 0);
    let kk = cell_at(g, dir, pn, min_u(g, dir) + 0int, min_v(g, dir) + 0int);
    lemma_solid_visibility(g, k, dir, pn, 0, 0);
    assert(kk == k);
    assert(mergeable(g, dir, pn, st0.visited, kk, 0int % wd, 0int / wd));
    lemma_run_w_full(g, dir, pn, st0.visited, k, 0, 0);
    let w = run_w(g, dir, pn, st0.visited, kk, 0, 0);
    assert(w == wd);
    assert forall|jj: int| 0 <= jj < ht implies row_ok(g, dir, pn, st0.visited, kk, 0, w, jj) by {
    }
    lemma_run_h_full(g, dir, pn, st0.visited, k, 0, w, 0);
    let h = run_h(g, dir, pn, st0.visited, kk, 0, w, 0);
    assert(h == ht);
    assert(scan(g, dir, pn, 0) == st0);
    let st1 = scan(g, dir, pn, 1);
    assert(st1 == scan_step(g, dir, pn, st0, 0));
    assert(st1.quads.len() == 1);
    // The rectangle covered every cell of the plane.
    assert forall|t: int| 0 <= t < st1.visited.len() implies st1.visited[t] by {
        lemma_plane_idx(wd, ht, t);
        assert(in_rect(t, wd, 0, 0, wd, ht));
    }
    lemma_scan_wf(g, dir, pn, 1);
    lemma_scan_stuck(g, dir, pn, 1, wd * ht);
}

/// Full-merge invariant: a solid cuboid of uniform material with no
/// internal voids meshes to exactly six quads, one per face, whatever its
/// size.
pub proof fn lemma_solid_cuboid_six_quads(g: GridView, k: u8)
    requires
        g.wf(),
        solid(g, k),
    ensures
        all_quads(g).len() == 6,
{
    assert forall|dir: int| 0 <= dir < 6 implies planes_quads(
        g,
        dir,
        max_ax(g, axis_of(dir)) + 1,
    ).len() == 1 by {
        lemma_solid_planes(g, k, dir, max_ax(g, axis_of(dir)) + 1);
    }
    assert(dirs_quads(g, 0).len() == 0);
    assert(dirs_quads(g, 1).len() == 1);
    assert(dirs_quads(g, 2).len() == 2);
    assert(dirs_quads(g, 3).len() == 3);
    assert(dirs_quads(g, 4).len() == 4);
    assert(dirs_quads(g, 5).len() == 5);
    assert(dirs_quads(g, 6).len() == 6);
}

/// The planes of one direction swept so far contribute exactly one quad
/// once the sweep has passed the surface plane, and none before.
proof fn lemma_solid_planes(g: GridView, k: u8, dir: int, pn_end: int)
    requires
        g.wf(),
        solid(g, k),
        0 <= dir < 6,
        min_ax(g, axis_of(dir)) <= pn_end <= max_ax(g, axis_of(dir)) + 1,
    ensures
        planes_quads(g, dir, pn_end).len() == if pn_end > active_plane(g, dir) {
            1int
        } else {
            0int
        },
    decreases pn_end - min_ax(g, axis_of(dir)),
{
    let mn = min_ax(g, axis_of(dir));
    if pn_end > mn {
        lemma_solid_planes(g, k, dir, pn_end - 1);
        if pn_end - 1 == active_plane(g, dir) {
            lemma_solid_active_plane(g, k, dir);
        } else {
            lemma_solid_inactive_scan(
                g,
                k,
                dir,
                pn_end - 1,
                width(g, dir) * height(g, dir),
            );
        }
    }
}

/// No two opaque cells are adjacent: every neighbor of an opaque cell is
/// air. (Well-formedness keeps opaque cells off the border, so all six
/// neighbor coordinates are valid.)
pub open spec fn isolated(g: GridView) -> bool {
    forall|cx: int, cy: int, cz: int|
        (coord_in_dims(g.dims, cx, cy, cz) && #[trigger] g.cell(cx, cy, cz) != 0) ==> (
        g.cell(cx + 1, cy, cz) == 0 && g.cell(cx - 1, cy, cz) == 0 && g.cell(cx, cy + 1, cz) == 0
            && g.cell(cx, cy - 1, cz) == 0 && g.cell(cx, cy, cz + 1) == 0 && g.cell(
            cx,
            cy,
            cz - 1,
        ) == 0)
}

/// Number of visible faces among the first `s` scan positions of a plane.
pub open spec fn face_count(g: GridView, dir: int, pn: int, s: int) -> int
    decreases s,
{
    if s <= 0 {
        0
    } else {
        face_count(g, dir, pn, s - 1) + if face_visible(
            g,
            dir,
            pn,
            min_u(g, dir) + (s - 1) % width(g, dir),
            min_v(g, dir) + (s - 1) / width(g, dir),
        ) {
            1int
        } else {
            0int
        }
    }
}

/// Visible faces of one direction, over all planes below `pn_end`.
pub open spec fn planes_faces(g: GridView, dir: int, pn_end: int) -> int
    decreases pn_end - min_ax(g, axis_of(dir)),
{
    if pn_end <= min_ax(g, axis_of(dir)) {
        0
    } else {
        planes_faces(g, dir, pn_end - 1) + face_count(
            g,
            dir,
            pn_end - 1,
            width(g, dir) * height(g, dir),
        )
    }
}

/// Visible faces of all directions below `dir_end`.
pub open spec fn dirs_faces(g: GridView, dir_end: int) -> int
    decreases dir_end,
{
    if dir_end <= 0 {
        0
    } else {
        dirs_faces(g, dir_end - 1) + planes_faces(
            g,
            dir_end - 1,
            max_ax(g, axis_of(dir_end - 1)) + 1,
        )
    }
}

/// The total number of visible faces of the grid, over all six directions.
pub open spec fn total_faces(g: GridView) -> int {
    dirs_faces(g, 6)
}

/// In an isolated grid, the in-plane neighbors (one step along u or v) of
/// an opaque region cell are air.
proof fn lemma_isolated_neighbors(g: GridView, dir: int, pn: int, i: int, j: int)
    requires
        g.wf(),
        isolated(g),
        0 <= dir < 6,
        min_ax(g, axis_of(dir)) <= pn <= max_ax(g, axis_of(dir)),
        0 <= i < width(g, dir),
        0 <= j < height(g, dir),
        cell_at(g, dir, pn, min_u(g, dir) + i, min_v(g, dir) + j) != 0,
    ensures
        cell_at(g, dir, pn, min_u(g, dir) + i + 1, min_v(g, dir) + j) == 0,
        cell_at(g, dir, pn, min_u(g, dir) + i, min_v(g, dir) + j + 1) == 0,
{
    let a = axis_of(dir);
    let u = min_u(g, dir) + i;
    let v = min_v(g, dir) + j;
    let cx = coord_x(a, pn, u, v);
    let cy = coord_y(a, pn, u, v);
    let cz = coord_z(a, pn, u, v);
    assert(coord_in_dims(g.dims, cx, cy, cz));
    assert(g.cell(cx, cy, cz) != 0);
    if a == 0 {
        assert(cell_at(g, dir, pn, u + 1, v) == g.cell(cx, cy + 1, cz));
        assert(cell_at(g, dir, pn, u, v + 1) == g.cell(cx, cy, cz + 1));
    } else if a == 1 {
        assert(cell_at(g, dir, pn, u + 1, v) == g.cell(cx, cy, cz + 1));
        assert(cell_at(g, dir, pn, u, v + 1) == g.cell(cx + 1, cy, cz));
    } else {
        assert(cell_at(g, dir, pn, u + 1, v) == g.cell(cx + 1, cy, cz));
        assert(cell_at(g, dir, pn, u, v + 1) == g.cell(cx, cy + 1, cz));
    }
}

/// In an isolated grid a plane scan emits one unit quad per visible face:
/// rectangles never grow, and the covered set is exactly the visible faces
/// already scanned.
proof fn lemma_isolated_scan(g: GridView, dir: int, pn: int, s: int)
    requires
        g.wf(),
        isolated(g),
        0 <= dir < 6,
        min_ax(g, axis_of(dir)) <= pn <= max_ax(g, axis_of(dir)),
        0 <= s <= width(g, dir) * height(g, dir),
    ensures
        scan(g, dir, pn, s).quads.len() == face_count(g, dir, pn, s),
        scan(g, dir, pn, s).visited.len() == width(g, dir) * height(g, dir),
        forall|t: int|
            0 <= t < width(g, dir) * height(g, dir)
                ==> (#[trigger] scan(g, dir, pn, s).visited[t] <==> (t < s && face_visible(
                g,
                dir,
                pn,
                min_u(g, dir) + t % width(g, dir),
                min_v(g, dir) + t / width(g, dir),
            ))),
        forall|t: int|
            0 <= t < scan(g, dir, pn, s).quads.len()
                ==> (#[trigger] scan(g, dir, pn, s).quads[t]).w == 1 && scan(
                g,
                dir,
                pn,
                s,
            ).quads[t].h == 1,
    decreases s,
{
    let wd = width(g, dir);
    let ht = height(g, dir);
    if s > 0 {
        lemma_isolated_scan(g, dir, pn, s - 1);
        let st = scan(g, dir, pn, s - 1);
        let i = (s - 1) % wd;
        let j = (s - 1) / wd;
        lemma_plane_idx(wd, ht, s - 1);
        lemma_plane_idx2(wd, ht, i, j);
        let k = cell_at(g, dir, pn, min_u(g, dir) + i, min_v(g, dir) + j);
        assert(!st.visited[j * wd + i]);
        if mergeable(g, dir, pn, st.visited, k, i, j) {
            // The face is visible; the rectangle cannot grow in either
            // direction because both in-plane neighbors are air.
            lemma_isolated_neighbors(g, dir, pn, i, j);
            assert(!mergeable(g, dir, pn, st.visited, k, i + 1, j));
            assert(run_w(g, dir, pn, st.visited, k, i + 1, j) == 0);
            assert(run_w(g, dir, pn, st.visited, k, i, j) == 1);
            assert(!mergeable(g, dir, pn, st.visited, k, i, j + 1));
            assert(!row_ok(g, dir, pn, st.visited, k, i, 1, j + 1));
            assert(run_h(g, dir, pn, st.visited, k, i, 1, j + 1) == 0);
            assert(run_h(g, dir, pn, st.visited, k, i, 1, j) == 1);
            let stn = scan(g, dir, pn, s);
            assert(stn.quads == st.quads.push(
                Quad {
                    dir: dir as u8,
                    plane: pn as u32,
                    u0: (min_u(g, dir) + i) as u32,
                    v0: (min_v(g, dir) + j) as u32,
                    w: 1u32,
                    h: 1u32,
                    key: k,
                },
            ));
            assert(stn.visited == mark_rect(st.visited, wd, i, j, 1, 1));
            assert forall|t: int|
                0 <= t < wd * ht implies (#[trigger] stn.visited[t] <==> (t < s && face_visible(
                g,
                dir,
                pn,
                min_u(g, dir) + t % wd,
                min_v(g, dir) + t / wd,
            ))) by {
                lemma_plane_idx(wd, ht, t);
                if in_rect(t, wd, i, j, 1, 1) {
                    vstd::arithmetic::div_mod::lemma_fundamental_div_mod(t, wd);
                    assert(t == s - 1);
                } else {
                    assert(stn.visited[t] == st.visited[t]);
                    if t == s - 1 {
                        assert(in_rect(t, wd, i, j, 1, 1));
                    }
                }
            }
        } else {
            assert(scan(g, dir, pn, s) == st);
            assert(!face_visible(g, dir, pn, min_u(g, dir) + i, min_v(g, dir) + j));
        }
    }
}

/// Unit-quad law for one direction's planes.
proof fn lemma_isolated_planes(g: GridView, dir: int, pn_end: int)
    requires
        g.wf(),
        isolated(g),
        0 <= dir < 6,
        min_ax(g, axis_of(dir)) <= pn_end <= max_ax(g, axis_of(dir)) + 1,
    ensures
        planes_quads(g, dir, pn_end).len() == planes_faces(g, dir, pn_end),
        forall|t: int|
            0 <= t < planes_quads(g, dir, pn_end).len()
                ==> (#[trigger] planes_quads(g, dir, pn_end)[t]).w == 1 && planes_quads(
                g,
                dir,
                pn_end,
            )[t].h == 1,
    decreases pn_end - min_ax(g, axis_of(dir)),
{
    if pn_end > min_ax(g, axis_of(dir)) {
        lemma_isolated_planes(g, dir, pn_end - 1);
        lemma_plane_cells_bound(g, dir);
        lemma_isolated_scan(g, dir, pn_end - 1, width(g, dir) * height(g, dir));
    }
}

/// Face-count invariant: in a grid whose opaque cells are
/// checkerboard-isolated (no two adjacent) no faces can merge, so the
/// mesher emits exactly one quad per visible face, each one a unit square.
pub proof fn lemma_isolated_one_quad_per_face(g: GridView)
    requires
        g.wf(),
        isolated(g),
    ensures
        all_quads(g).len() == total_faces(g),
        forall|t: int|
            0 <= t < all_quads(g).len() ==> (#[trigger] all_quads(g)[t]).w == 1 && all_quads(
                g,
            )[t].h == 1,
{
    assert forall|dir: int| 0 <= dir < 6 implies planes_quads(
        g,
        dir,
        max_ax(g, axis_of(dir)) + 1,
    ).len() == planes_faces(g, dir, max_ax(g, axis_of(dir)) + 1) && (forall|t: int|
        0 <= t < planes_quads(g, dir, max_ax(g, axis_of(dir)) + 1).len()
            ==> (#[trigger] planes_quads(g, dir, max_ax(g, axis_of(dir)) + 1)[t]).w == 1
            && planes_quads(g, dir, max_ax(g, axis_of(dir)) + 1)[t].h == 1) by {
        lemma_isolated_planes(g, dir, max_ax(g, axis_of(dir)) + 1);
    }
    assert(dirs_quads(g, 0).len() == dirs_faces(g, 0));
    assert(dirs_quads(g, 1).len() == dirs_faces(g, 1));
    assert(dirs_quads(g, 2).len() == dirs_faces(g, 2));
    assert(dirs_quads(g, 3).len() == dirs_faces(g, 3));
    assert(dirs_quads(g, 4).len() == dirs_faces(g, 4));
    assert(dirs_quads(g, 5).len() == dirs_faces(g, 5));
    assert(dirs_quads(g, 6).len() == dirs_faces(g, 6));
    assert forall|t: int|
        0 <= t < all_quads(g).len() implies (#[trigger] all_quads(g)[t]).w == 1 && all_quads(
            g,
        )[t].h == 1 by {
        lemma_all_quads_unit(g, 6, t);
    }
}

/// Every quad of the first `dir_end` directions of an isolated grid is a
/// unit square.
proof fn lemma_all_quads_unit(g: GridView, dir_end: int, t: int)
    requires
        g.wf(),
        isolated(g),
        0 <= dir_end <= 6,
        0 <= t < dirs_quads(g, dir_end).len(),
    ensures
        dirs_quads(g, dir_end)[t].w == 1,
        dirs_quads(g, dir_end)[t].h == 1,
    decreases dir_end,
{
    let prev = dirs_quads(g, dir_end - 1);
    if t < prev.len() {
        lemma_all_quads_unit(g, dir_end - 1, t);
    } else {
        lemma_isolated_planes(g, dir_end - 1, max_ax(g, axis_of(dir_end - 1)) + 1);
    }
}

/// Number of opaque cells among the first `n` of the cell array.
pub open spec fn opaque_upto(g: GridView, n: int) -> int
    decreases n,
{
    if n <= 0 {
        0
    } else {
        opaque_upto(g, n - 1) + if g.cells[n - 1] != 0 {
            1int
        } else {
            0int
        }
    }
}

/// Number of opaque cells of the grid.
pub open spec fn opaque_count(g: GridView) -> int {
    opaque_upto(g, g.cells.len() as int)
}

/// The meshed region is the whole interior of the grid.
pub open spec fn full_region(g: GridView) -> bool {
    &&& g.min == (Coord { x: 1u32, y: 1u32, z: 1u32 })
    &&& g.max.x == g.dims.x - 2
    &&& g.max.y == g.dims.y - 2
    &&& g.max.z == g.dims.z - 2
}

/// Component `a` of the coordinate `(x, y, z)`.
pub open spec fn axis_comp(a: int, x: int, y: int, z: int) -> int {
    if a == 0 {
        x
    } else if a == 1 {
        y
    } else {
        z
    }
}

/// The normal-axis component of cell `t`'s coordinate, for direction `dir`.
pub open spec fn nrm_of(g: GridView, dir: int, t: int) -> int {
    let d = delin_spec(g.dims, t);
    axis_comp(axis_of(dir), d.0, d.1, d.2)
}

/// The plane scan position of cell `t`, for direction `dir`.
pub open spec fn pos_of(g: GridView, dir: int, t: int) -> int {
    let d = delin_spec(g.dims, t);
    let a = axis_of(dir);
    let u = axis_comp(u_axis(a), d.0, d.1, d.2);
    let v = axis_comp(v_axis(a), d.0, d.1, d.2);
    (v - min_v(g, dir)) * width(g, dir) + (u - min_u(g, dir))
}

/// Cell `t` is opaque and its `dir` face was scanned before plane `pn`,
/// position `s`.
pub open spec fn face_covered(g: GridView, dir: int, pn: int, s: int, t: int) -> bool {
    &&& 0 <= t < g.cells.len()
    &&& g.cells[t] != 0
    &&& (nrm_of(g, dir, t) < pn || (nrm_of(g, dir, t) == pn && pos_of(g, dir, t) < s))
}

/// The set of opaque cells among the first `n`, with its count.
spec fn opaque_set(g: GridView, n: int) -> Set<int>
    decreases n,
{
    if n <= 0 {
        Set::empty()
    } else {
        let p = opaque_set(g, n - 1);
        if g.cells[n - 1] != 0 {
            p.insert(n - 1)
        } else {
            p
        }
    }
}

/// The opaque-cell set is finite, counts [`opaque_upto`], and holds
/// exactly the opaque indices below `n`.
proof fn lemma_opaque_set(g: GridView, n: int)
    requires
        0 <= n,
    ensures
        opaque_set(g, n).finite(),
        opaque_set(g, n).len() == opaque_upto(g, n),
        forall|t: int| opaque_set(g, n).contains(t) <==> (0 <= t < n && g.cells[t] != 0),
    decreases n,
{
    broadcast use vstd::set::group_set_axioms;

    if n > 0 {
        lemma_opaque_set(g, n - 1);
        if g.cells[n - 1] != 0 {
            assert(!opaque_set(g, n - 1).contains(n - 1));
        }
    }
}

/// Extracting the components of a composed coordinate gives back the
/// plane and in-plane values, and composing extracted components gives
/// back the coordinate.
proof fn lemma_axis_roundtrip(a: int, pn: int, u: int, v: int, x: int, y: int, z: int)
    requires
        0 <= a < 3,
    ensures
        axis_comp(a, coord_x(a, pn, u, v), coord_y(a, pn, u, v), coord_z(a, pn, u, v)) == pn,
        axis_comp(
            u_axis(a),
            coord_x(a, pn, u, v),
            coord_y(a, pn, u, v),
            coord_z(a, pn, u, v),
        ) == u,
        axis_comp(
            v_axis(a),
            coord_x(a, pn, u, v),
            coord_y(a, pn, u, v),
            coord_z(a, pn, u, v),
        ) == v,
        coord_x(
            a,
            axis_comp(a, x, y, z),
            axis_comp(u_axis(a), x, y, z),
            axis_comp(v_axis(a), x, y, z),
        ) == x,
        coord_y(
            a,
            axis_comp(a, x, y, z),
            axis_comp(u_axis(a), x, y, z),
            axis_comp(v_axis(a), x, y, z),
        ) == y,
        coord_z(
            a,
            axis_comp(a, x, y, z),
            axis_comp(u_axis(a), x, y, z),
            axis_comp(v_axis(a), x, y, z),
        ) == z,
{
    if a == 0 {
    } else if a == 1 {
    } else {
    }
}

/// The linear cell index of plane `pn`, scan position `s`, for direction
/// `dir`.
pub open spec fn face_cell_index(g: GridView, dir: int, pn: int, s: int) -> int {
    let i = s % width(g, dir);
    let j = s / width(g, dir);
    let a = axis_of(dir);
    let u = min_u(g, dir) + i;
    let v = min_v(g, dir) + j;
    lin_spec(g.dims, coord_x(a, pn, u, v), coord_y(a, pn, u, v), coord_z(a, pn, u, v))
}

/// The opaque cells whose `dir` faces the scan has passed: `acc` extended
/// by the visible positions of plane `pn` below `s`.
spec fn face_set_plane(g: GridView, dir: int, pn: int, s: int, acc: Set<int>) -> Set<int>
    decreases s,
{
    if s <= 0 {
        acc
    } else {
        let p = face_set_plane(g, dir, pn, s - 1, acc);
        if face_visible(
            g,
            dir,
            pn,
            min_u(g, dir) + (s - 1) % width(g, dir),
            min_v(g, dir) + (s - 1) / width(g, dir),
        ) {
            p.insert(face_cell_index(g, dir, pn, s - 1))
        } else {
            p
        }
    }
}

/// The same set accumulated over all planes below `pn_end`.
spec fn face_set_planes(g: GridView, dir: int, pn_end: int) -> Set<int>
    decreases pn_end - min_ax(g, axis_of(dir)),
{
    if pn_end <= min_ax(g, axis_of(dir)) {
        Set::empty()
    } else {
        face_set_plane(
            g,
            dir,
            pn_end - 1,
            width(g, dir) * height(g, dir),
            face_set_planes(g, dir, pn_end - 1),
        )
    }
}

/// In an isolated grid an opaque region cell's face toward any direction
/// is visible: the neighbor along the normal axis is air.
proof fn lemma_isolated_opaque_visible(g: GridView, dir: int, pn: int, i: int, j: int)
    requires
        g.wf(),
        isolated(g),
        0 <= dir < 6,
        min_ax(g, axis_of(dir)) <= pn <= max_ax(g, axis_of(dir)),
        0 <= i < width(g, dir),
        0 <= j < height(g, dir),
        cell_at(g, dir, pn, min_u(g, dir) + i, min_v(g, dir) + j) != 0,
    ensures
        face_visible(g, dir, pn, min_u(g, dir) + i, min_v(g, dir) + j),
{
    let a = axis_of(dir);
    let u = min_u(g, dir) + i;
    let v = min_v(g, dir) + j;
    let cx = coord_x(a, pn, u, v);
    let cy = coord_y(a, pn, u, v);
    let cz = coord_z(a, pn, u, v);
    assert(coord_in_dims(g.dims, cx, cy, cz));
    assert(g.cell(cx, cy, cz) != 0);
    let step: int = if is_pos(dir) {
        1
    } else {
        -1
    };
    if a == 0 {
        assert(cell_at(g, dir, pn + step, u, v) == if step == 1 {
            g.cell(cx + 1, cy, cz)
        } else {
            g.cell(cx - 1, cy, cz)
        });
    } else if a == 1 {
        assert(cell_at(g, dir, pn + step, u, v) == if step == 1 {
            g.cell(cx, cy + 1, cz)
        } else {
            g.cell(cx, cy - 1, cz)
        });
    } else {
        assert(cell_at(g, dir, pn + step, u, v) == if step == 1 {
            g.cell(cx, cy, cz + 1)
        } else {
            g.cell(cx, cy, cz - 1)
        });
    }
}

/// Walking one plane of an isolated grid extends the face set by exactly
/// the plane's visible faces, which are its opaque cells.
proof fn lemma_face_set_plane(g: GridView, dir: int, pn: int, s: int, acc: Set<int>)
    requires
        g.wf(),
        isolated(g),
        full_region(g),
        0 <= dir < 6,
        min_ax(g, axis_of(dir)) <= pn <= max_ax(g, axis_of(dir)),
        0 <= s <= width(g, dir) * height(g, dir),
        acc.finite(),
        forall|t: int| acc.contains(t) <==> face_covered(g, dir, pn, 0, t),
    ensures
        face_set_plane(g, dir, pn, s, acc).finite(),
        face_set_plane(g, dir, pn, s, acc).len() == acc.len() + face_count(g, dir, pn, s),
        forall|t: int|
            face_set_plane(g, dir, pn, s, acc).contains(t) <==> face_covered(g, dir, pn, s, t),
    decreases s,
{
    broadcast use vstd::set::group_set_axioms;

    let wd = width(g, dir);
    let ht = height(g, dir);
    let a = axis_of(dir);
    if s > 0 {
        lemma_face_set_plane(g, dir, pn, s - 1, acc);
        let prev = face_set_plane(g, dir, pn, s - 1, acc);
        lemma_plane_idx(wd, ht, s - 1);
        let i = (s - 1) % wd;
        let j = (s - 1) / wd;
        let u = min_u(g, dir) + i;
        let v = min_v(g, dir) + j;
        let cx = coord_x(a, pn, u, v);
        let cy = coord_y(a, pn, u, v);
        let cz = coord_z(a, pn, u, v);
        assert(coord_in_dims(g.dims, cx, cy, cz));
        crate::chunk::lemma_lin_in_range(g.dims, cx, cy, cz);
        let q = face_cell_index(g, dir, pn, s - 1);
        crate::chunk::lemma_delin_of_lin(g.dims, cx, cy, cz);
        assert(0 <= a < 3);
        lemma_axis_roundtrip(a, pn, u, v, cx, cy, cz);
        assert(nrm_of(g, dir, q) == pn);
        assert(pos_of(g, dir, q) == j * wd + i);
        assert(j * wd + i == s - 1) by (nonlinear_arith)
            requires
                s - 1 == wd * j + i,
        ;
        assert(g.cells[q] == cell_at(g, dir, pn, u, v));
        if face_visible(g, dir, pn, u, v) {
            assert(!face_covered(g, dir, pn, s - 1, q));
            assert(!prev.contains(q));
            assert forall|t: int|
                face_set_plane(g, dir, pn, s, acc).contains(t) <==> face_covered(
                    g,
                    dir,
                    pn,
                    s,
                    t,
                ) by {
                assert(prev.contains(t) <==> face_covered(g, dir, pn, s - 1, t));
                if t == q {
                    assert(face_covered(g, dir, pn, s, q));
                } else if face_covered(g, dir, pn, s, t) && !face_covered(g, dir, pn, s - 1, t) {
                    // A newly covered cell sits exactly at this scan
                    // position, so it is the inserted one.
                    lemma_face_at_position(g, dir, pn, s - 1, t);
                    assert(t == q);
                }
            }
        } else {
            assert forall|t: int|
                face_set_plane(g, dir, pn, s, acc).contains(t) <==> face_covered(
                    g,
                    dir,
                    pn,
                    s,
                    t,
                ) by {
                assert(prev.contains(t) <==> face_covered(g, dir, pn, s - 1, t));
                if face_covered(g, dir, pn, s, t) && !face_covered(g, dir, pn, s - 1, t) {
                    lemma_face_at_position(g, dir, pn, s - 1, t);
                    lemma_isolated_opaque_visible(g, dir, pn, i, j);
                    assert(false);
                }
            }
        }
    }
}

/// An opaque cell whose face sits at plane `pn`, scan position `s`, is the
/// cell the scan reads there, and that position is in range.
proof fn lemma_face_at_position(g: GridView, dir: int, pn: int, s: int, t: int)
    requires
        g.wf(),
        full_region(g),
        0 <= dir < 6,
        0 <= t < g.cells.len(),
        g.cells[t] != 0,
        nrm_of(g, dir, t) == pn,
        pos_of(g, dir, t) == s,
    ensures
        0 <= s < width(g, dir) * height(g, dir),
        t == face_cell_index(g, dir, pn, s),
        cell_at(
            g,
            dir,
            pn,
            min_u(g, dir) + s % width(g, dir),
            min_v(g, dir) + s / width(g, dir),
        ) != 0,
{
    let a = axis_of(dir);
    let wd = width(g, dir);
    let ht = height(g, dir);
    crate::chunk::lemma_lin_of_delin(g.dims, t);
    let d = delin_spec(g.dims, t);
    let x = d.0;
    let y = d.1;
    let z = d.2;
    // An opaque cell is interior, so its in-plane offsets lie inside the
    // region.
    assert(g.cell(x, y, z) == g.cells[t]);
    assert(g.interior(x, y, z)) by {
        if !g.interior(x, y, z) {
            assert(g.cell(x, y, z) == 0);
        }
    }
    assert(0 <= a < 3);
    lemma_axis_roundtrip(a, pn, 0, 0, x, y, z);
    let u = axis_comp(u_axis(a), x, y, z);
    let v = axis_comp(v_axis(a), x, y, z);
    let i = u - min_u(g, dir);
    let j = v - min_v(g, dir);
    assert(0 <= i < wd && 0 <= j < ht) by {
        if a == 0 {
        } else if a == 1 {
        } else {
        }
    }
    vstd::arithmetic::div_mod::lemma_fundamental_div_mod_converse(s, wd, j, i);
    lemma_plane_idx2(wd, ht, i, j);
    assert(s % wd == i && s / wd == j);
    assert(coord_x(a, pn, u, v) == x && coord_y(a, pn, u, v) == y && coord_z(a, pn, u, v) == z);
    crate::chunk::lemma_delin_of_lin(g.dims, x, y, z);
    assert(face_cell_index(g, dir, pn, s) == lin_spec(g.dims, x, y, z));
    assert(lin_spec(g.dims, x, y, z) == t);
}

/// Sweeping all planes of one direction covers each opaque cell's face
/// toward that direction exactly once.
proof fn lemma_face_set_planes(g: GridView, dir: int, pn_end: int)
    requires
        g.wf(),
        isolated(g),
        full_region(g),
        0 <= dir < 6,
        min_ax(g, axis_of(dir)) <= pn_end <= max_ax(g, axis_of(dir)) + 1,
    ensures
        face_set_planes(g, dir, pn_end).finite(),
        face_set_planes(g, dir, pn_end).len() == planes_faces(g, dir, pn_end),
        forall|t: int|
            face_set_planes(g, dir, pn_end).contains(t) <==> face_covered(g, dir, pn_end, 0, t),
    decreases pn_end - min_ax(g, axis_of(dir)),
{
    broadcast use vstd::set::group_set_axioms;

    let mn = min_ax(g, axis_of(dir));
    if pn_end <= mn {
        assert forall|t: int|
            face_set_planes(g, dir, pn_end).contains(t) <==> face_covered(
                g,
                dir,
                pn_end,
                0,
                t,
            ) by {
            assert(!Set::<int>::empty().contains(t));
            if face_covered(g, dir, pn_end, 0, t) {
                lemma_opaque_nrm_in_range(g, dir, t);
                lemma_face_at_position(g, dir, nrm_of(g, dir, t), pos_of(g, dir, t), t);
                assert(false);
            }
        }
    } else {
        lemma_face_set_planes(g, dir, pn_end - 1);
        lemma_face_set_plane(
            g,
            dir,
            pn_end - 1,
            width(g, dir) * height(g, dir),
            face_set_planes(g, dir, pn_end - 1),
        );
        assert forall|t: int|
            face_set_planes(g, dir, pn_end).contains(t) <==> face_covered(
                g,
                dir,
                pn_end,
                0,
                t,
            ) by {
            assert(face_set_plane(
                g,
                dir,
                pn_end - 1,
                width(g, dir) * height(g, dir),
                face_set_planes(g, dir, pn_end - 1),
            ).contains(t) <==> face_covered(
                g,
                dir,
                pn_end - 1,
                width(g, dir) * height(g, dir),
                t,
            ));
            if face_covered(g, dir, pn_end, 0, t) && !face_covered(
                g,
                dir,
                pn_end - 1,
                width(g, dir) * height(g, dir),
                t,
            ) {
                // The face lies at an in-range position of some plane, so
                // it must already be covered by the sweep through
                // pn_end - 1.
                lemma_face_at_position(g, dir, nrm_of(g, dir, t), pos_of(g, dir, t), t);
                assert(false);
            }
        }
    }
}

/// An opaque cell's normal-axis component lies inside the region.
proof fn lemma_opaque_nrm_in_range(g: GridView, dir: int, t: int)
    requires
        g.wf(),
        full_region(g),
        0 <= dir < 6,
        0 <= t < g.cells.len(),
        g.cells[t] != 0,
    ensures
        min_ax(g, axis_of(dir)) <= nrm_of(g, dir, t) <= max_ax(g, axis_of(dir)),
{
    crate::chunk::lemma_lin_of_delin(g.dims, t);
    let d = delin_spec(g.dims, t);
    assert(g.interior(d.0, d.1, d.2)) by {
        if !g.interior(d.0, d.1, d.2) {
            assert(g.cell(d.0, d.1, d.2) == 0);
        }
    }
    assert(g.cell(d.0, d.1, d.2) == g.cells[t]);
    let a = axis_of(dir);
    if a == 0 {
    } else if a == 1 {
    } else {
    }
}

/// Face-count invariant, counted: in an isolated grid whose region is the
/// whole interior, each of the six sweeps sees every opaque cell's face
/// exactly once, so the mesher emits exactly `6 k` quads for `k` opaque
/// cells.
pub proof fn lemma_isolated_six_quads_per_voxel(g: GridView)
    requires
        g.wf(),
        isolated(g),
        full_region(g),
    ensures
        all_quads(g).len() == 6 * opaque_count(g),
{
    broadcast use vstd::set::group_set_axioms;

    lemma_isolated_one_quad_per_face(g);
    let n = g.cells.len() as int;
    lemma_opaque_set(g, n);
    assert forall|dir: int| 0 <= dir < 6 implies planes_faces(
        g,
        dir,
        max_ax(g, axis_of(dir)) + 1,
    ) == opaque_count(g) by {
        lemma_face_set_planes(g, dir, max_ax(g, axis_of(dir)) + 1);
        assert forall|t: int|
            face_set_planes(g, dir, max_ax(g, axis_of(dir)) + 1).contains(t) <==> opaque_set(
                g,
                n,
            ).contains(t) by {
            assert(face_set_planes(g, dir, max_ax(g, axis_of(dir)) + 1).contains(t)
                <==> face_covered(g, dir, max_ax(g, axis_of(dir)) + 1, 0, t));
            assert(opaque_set(g, n).contains(t) <==> (0 <= t < n && g.cells[t] != 0));
            if 0 <= t < n && g.cells[t] != 0 {
                lemma_opaque_nrm_in_range(g, dir, t);
            }
        }
        assert(face_set_planes(g, dir, max_ax(g, axis_of(dir)) + 1) =~= opaque_set(g, n));
    }
    assert(dirs_faces(g, 0) == 0);
    assert(dirs_faces(g, 1) == 1 * opaque_count(g));
    assert(dirs_faces(g, 2) == 2 * opaque_count(g));
    assert(dirs_faces(g, 3) == 3 * opaque_count(g));
    assert(dirs_faces(g, 4) == 4 * opaque_count(g));
    assert(dirs_faces(g, 5) == 5 * opaque_count(g));
    assert(dirs_faces(g, 6) == 6 * opaque_count(g));
}

/// Determinism law: meshing equal grids, in the same process or another,
/// yields identical vertex, normal, color and index sequences, because the
/// mesh is a function of the grid alone.
pub proof fn lemma_build_deterministic(c1: GridView, c2: GridView, m1: Mesh, m2: Mesh)
    requires
        c1 == c2,
        m1.model() == mesh_of(all_quads(c1)),
        m2.model() == mesh_of(all_quads(c2)),
    ensures
        m1.model() == m2.model(),
{
}

} // verus!
