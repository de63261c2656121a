//! Unstructured mesh topology: cells, faces, connectivity, in integer grid terms.
//!
//! The mesh is generated from a masked grid but stored and walked as an unstructured
//! mesh: a cell knows its neighbours through its faces, not through index arithmetic.
//! Identifiers are typed: `CellId`, `FaceId` and `VertexId` cannot be mixed up.

use vstd::prelude::*;

use crate::decomposition::domain_cells;
use crate::error::MeshError;
use crate::mask::{count_true, Mask, MaskModel};
use crate::rows::{build_rows, end_below, end_count, lemma_count_hits, listed, sum_hits, sum_listed};

verus! {

/// Identifier of a vertex.
#[derive(Clone, Copy, Debug, PartialEq, Eq, PartialOrd, Ord, Hash, Structural)]
pub struct VertexId(pub u32);

/// Identifier of a cell.
#[derive(Clone, Copy, Debug, PartialEq, Eq, PartialOrd, Ord, Hash, Structural)]
pub struct CellId(pub u32);

/// Identifier of a face.
#[derive(Clone, Copy, Debug, PartialEq, Eq, PartialOrd, Ord, Hash, Structural)]
pub struct FaceId(pub u32);

impl VertexId {
    /// Index usable to read an array.
    pub fn index(self) -> (r: usize)
        ensures
            r == self.0,
    {
        self.0 as usize
    }
}

impl CellId {
    /// Index usable to read an array.
    pub fn index(self) -> (r: usize)
        ensures
            r == self.0,
    {
        self.0 as usize
    }
}

impl FaceId {
    /// Index usable to read an array.
    pub fn index(self) -> (r: usize)
        ensures
            r == self.0,
    {
        self.0 as usize
    }
}


/// Shape of a cell and the vertices that make it, counterclockwise.
#[derive(Clone, Copy, Debug, PartialEq, Eq)]
pub enum CellKind {
    /// Triangle: produced by chamfering a corner of the mask.
    Tri([VertexId; 3]),
    /// Quadrangle: the common case.
    Quad([VertexId; 4]),
}

impl CellKind {
    /// Vertices of the cell, counterclockwise.
    pub open spec fn vertex_seq(self) -> Seq<VertexId> {
        match self {
            CellKind::Tri(v) => v@,
            CellKind::Quad(v) => v@,
        }
    }

    /// Vertex indices of the cell, counterclockwise.
    pub open spec fn ids(self) -> Seq<nat> {
        match self {
            CellKind::Tri(v) => seq![v[0].0 as nat, v[1].0 as nat, v[2].0 as nat],
            CellKind::Quad(v) => seq![v[0].0 as nat, v[1].0 as nat, v[2].0 as nat, v[3].0 as nat],
        }
    }

    /// Vertices of the cell, counterclockwise.
    pub fn vertices(&self) -> (r: &[VertexId])
        ensures
            r@ == self.vertex_seq(),
            r@.len() == self.ids().len(),
            forall|j: int| 0 <= j < r@.len() ==> #[trigger] r@[j].0 == self.ids()[j],
    {
        match self {
            CellKind::Tri(v) => v.as_slice(),
            CellKind::Quad(v) => v.as_slice(),
        }
    }

    /// VTK cell type code (`5` = triangle, `9` = quadrangle).
    pub fn vtk_code(&self) -> (r: u8)
        ensures
            r == (if self is Tri { 5u8 } else { 9u8 }),
    {
        match self {
            CellKind::Tri(_) => 5,
            CellKind::Quad(_) => 9,
        }
    }
}

/// Nature of a domain boundary.
///
/// The derived order keys the boundary groups, so they always come out in the same order.
#[derive(Clone, Copy, Debug, PartialEq, Eq, PartialOrd, Ord, Hash, Structural)]
pub enum BoundaryKind {
    /// Inlet of the test section (left edge of the domain).
    Inlet,
    /// Outlet (right edge).
    Outlet,
    /// Wall of the test section (top and bottom).
    Wall,
    /// Wall of the obstacle.
    Obstacle,
}

/// What lies across a face: a neighbouring cell, or the boundary and its nature.
#[derive(Clone, Copy, Debug, PartialEq, Eq, Structural)]
pub enum Side {
    /// A neighbouring cell.
    Inner(CellId),
    /// The domain boundary, and its nature.
    Boundary(BoundaryKind),
}

/// Corners of cell `(row, col)` in vertex-grid coordinates, counterclockwise.
///
/// `(row, col)` is the **top left** corner of cell `(row, col)`; the flags say whether the
/// neighbour below, right, above, left is an obstacle wall. When exactly two
/// perpendicular walls meet, the corner between them is removed and the cell becomes a
/// triangle: a stair step becomes a 45° facet.
pub open spec fn corners_of(row: int, col: int, down: bool, right: bool, up: bool, left: bool) -> Seq<(int, int)> {
    let bl = (row + 1, col);
    let br = (row + 1, col + 1);
    let tr = (row, col + 1);
    let tl = (row, col);
    if down && right && !up && !left {
        seq![bl, tr, tl]
    } else if !down && right && up && !left {
        seq![bl, br, tl]
    } else if !down && !right && up && left {
        seq![bl, br, tr]
    } else if down && !right && !up && left {
        seq![br, tr, tl]
    } else {
        seq![bl, br, tr, tl]
    }
}

/// The chamfer: when exactly two perpendicular neighbours are walls, the cell keeps the
/// three corners of its square other than the one between those walls; otherwise it keeps
/// all four. Corners are `(row, col)` on the vertex grid, `(row, col)` being the top left.
pub proof fn lemma_chamfer(row: int, col: int, down: bool, right: bool, up: bool, left: bool)
    ensures
        ({
            let p = corners_of(row, col, down, right, up, left);
            let bl = (row + 1, col);
            let br = (row + 1, col + 1);
            let tr = (row, col + 1);
            let tl = (row, col);
            let cut = if down && right && !up && !left {
                Some(br)
            } else if right && up && !down && !left {
                Some(tr)
            } else if up && left && !down && !right {
                Some(tl)
            } else if left && down && !right && !up {
                Some(bl)
            } else {
                None::<(int, int)>
            };
            &&& p.no_duplicates()
            &&& forall|q: (int, int)| #[trigger] p.contains(q) <==> ((q == bl || q == br || q == tr || q == tl) && cut != Some(q))
            &&& p.len() == if cut is Some { 3int } else { 4int }
        }),
{
    let p = corners_of(row, col, down, right, up, left);
    let bl = (row + 1, col);
    let br = (row + 1, col + 1);
    let tr = (row, col + 1);
    let tl = (row, col);
    assert(p.contains(p[0]) && p.contains(p[1]) && p.contains(p[2]));
    if p.len() == 4 {
        assert(p.contains(p[3]));
    }
}

/// Twice the signed area of the triangle (origin, `p`, `q`), for grid points `(row, col)`
/// placed at `x = col`, `y = -row` (rows grow downwards).
pub open spec fn cross(p: (int, int), q: (int, int)) -> int {
    p.1 * (-q.0) - q.1 * (-p.0)
}

/// Shoelace sum over the first `i` sides of polygon `p`.
pub open spec fn shoelace(p: Seq<(int, int)>, i: nat) -> int
    decreases i,
{
    if i == 0 {
        0
    } else {
        shoelace(p, (i - 1) as nat) + cross(p[i - 1], p[(i as int) % (p.len() as int)])
    }
}

/// Twice the signed area of polygon `p`: positive when `p` turns counterclockwise.
pub open spec fn doubled_area(p: Seq<(int, int)>) -> int {
    shoelace(p, p.len())
}

/// Every cell is a counterclockwise polygon of positive area: twice its area, in cell
/// units, is 2 for a quadrangle and 1 for a chamfered triangle.
#[verifier::spinoff_prover]
pub proof fn lemma_corners_area(row: int, col: int, down: bool, right: bool, up: bool, left: bool)
    ensures
        doubled_area(corners_of(row, col, down, right, up, left)) == if corners_of(row, col, down, right, up, left).len()
            == 3 {
            1int
        } else {
            2int
        },
{
    let p = corners_of(row, col, down, right, up, left);
    assert(cross((row + 1, col), (row + 1, col + 1)) + cross((row + 1, col + 1), (row, col + 1)) + cross((row, col + 1), (row, col))
        + cross((row, col), (row + 1, col)) == 2) by (nonlinear_arith);
    assert(cross((row + 1, col), (row, col + 1)) + cross((row, col + 1), (row, col)) + cross((row, col), (row + 1, col)) == 1)
        by (nonlinear_arith);
    assert(cross((row + 1, col), (row + 1, col + 1)) + cross((row + 1, col + 1), (row, col)) + cross((row, col), (row + 1, col))
        == 1) by (nonlinear_arith);
    assert(cross((row + 1, col), (row + 1, col + 1)) + cross((row + 1, col + 1), (row, col + 1)) + cross((row, col + 1), (row + 1, col))
        == 1) by (nonlinear_arith);
    assert(cross((row + 1, col + 1), (row, col + 1)) + cross((row, col + 1), (row, col)) + cross((row, col), (row + 1, col + 1))
        == 1) by (nonlinear_arith);
    lemma_shoelace_small(p);
}

/// The shoelace sum of a triangle or a quadrangle, written out.
proof fn lemma_shoelace_small(p: Seq<(int, int)>)
    ensures
        p.len() == 3 ==> doubled_area(p) == cross(p[0], p[1]) + cross(p[1], p[2]) + cross(p[2], p[0]),
        p.len() == 4 ==> doubled_area(p) == cross(p[0], p[1]) + cross(p[1], p[2]) + cross(p[2], p[3]) + cross(p[3], p[0]),
{
    let n = p.len() as int;
    if n == 3 || n == 4 {
        assert(1int % n == 1);
        assert(2int % n == 2);
        assert(shoelace(p, 0) == 0);
        assert(shoelace(p, 1) == cross(p[0], p[1]));
        assert(shoelace(p, 2) == shoelace(p, 1) + cross(p[1], p[2]));
        if n == 3 {
            assert(3int % n == 0);
            assert(shoelace(p, 3) == shoelace(p, 2) + cross(p[2], p[0]));
        } else {
            assert(3int % n == 3);
            assert(4int % n == 0);
            assert(shoelace(p, 3) == shoelace(p, 2) + cross(p[2], p[3]));
            assert(shoelace(p, 4) == shoelace(p, 3) + cross(p[3], p[0]));
        }
    }
}

/// Edge `j` of polygon `p`, as a vector: from corner `j` to the next one.
pub open spec fn edge_vector(p: Seq<(int, int)>, j: int) -> (int, int) {
    let q = p[(j + 1) % (p.len() as int)];
    (q.0 - p[j].0, q.1 - p[j].1)
}

/// Edge `j` of polygon `p` turned a quarter turn: for a counterclockwise cell, in grid
/// coordinates `(row, col)`, its outward normal scaled by its length.
pub open spec fn scaled_normal(p: Seq<(int, int)>, j: int) -> (int, int) {
    (edge_vector(p, j).1, -edge_vector(p, j).0)
}

/// Sum of the scaled normals of the first `i` edges of `p`.
pub open spec fn normal_sum(p: Seq<(int, int)>, i: nat) -> (int, int)
    decreases i,
{
    if i == 0 {
        (0, 0)
    } else {
        let s = normal_sum(p, (i - 1) as nat);
        (s.0 + scaled_normal(p, i - 1).0, s.1 + scaled_normal(p, i - 1).1)
    }
}

/// The first `i` scaled normals add up to the turned vector from corner `0` to corner `i`.
proof fn lemma_normal_sum_partial(p: Seq<(int, int)>, i: nat)
    requires
        1 <= p.len(),
        i <= p.len(),
    ensures
        normal_sum(p, i) == (p[(i as int) % (p.len() as int)].1 - p[0].1, -(p[(i as int) % (p.len() as int)].0 - p[0].0)),
    decreases i,
{
    let n = p.len();
    if i > 0 {
        lemma_normal_sum_partial(p, (i - 1) as nat);
        vstd::arithmetic::div_mod::lemma_small_mod((i - 1) as nat, n);
    } else {
        vstd::arithmetic::div_mod::lemma_small_mod(0, n);
    }
    if i < n {
        vstd::arithmetic::div_mod::lemma_small_mod(i, n);
    } else {
        vstd::arithmetic::div_mod::lemma_mod_self_0(n as int);
    }
}

/// The outward normals of a closed polygon, each scaled by the length of its edge, add up
/// to zero: the edges of a closed polygon add up to zero, and turning them all a quarter
/// turn keeps that sum zero. So a uniform flow has no net flux through any cell.
pub proof fn lemma_normals_sum_to_zero(p: Seq<(int, int)>)
    requires
        1 <= p.len(),
    ensures
        normal_sum(p, p.len()) == (0int, 0int),
{
    lemma_normal_sum_partial(p, p.len());
}

/// Is `(row, col)` an obstacle wall of `m` (inside the grid and solid)?
pub open spec fn obstacle_at(m: MaskModel, row: int, col: int) -> bool {
    0 <= row < m.rows && 0 <= col < m.cols && !m.fluid_at(row, col)
}

/// Corners of the cell at `cell`, chamfered against the obstacles of `m`.
pub open spec fn cell_corners_in(m: MaskModel, cell: (int, int)) -> Seq<(int, int)> {
    let (r, c) = cell;
    corners_of(r, c, obstacle_at(m, r + 1, c), obstacle_at(m, r, c + 1), obstacle_at(m, r - 1, c), obstacle_at(m, r, c - 1))
}

/// Corners of cell `(row, col)`, counterclockwise, with the corner caught between two
/// perpendicular walls removed.
fn cell_corners(row: usize, col: usize, down: bool, right: bool, up: bool, left: bool) -> (r: Vec<(usize, usize)>)
    requires
        row < usize::MAX,
        col < usize::MAX,
    ensures
        r@.len() == corners_of(row as int, col as int, down, right, up, left).len(),
        forall|j: int|
            0 <= j < r@.len() ==> (#[trigger] r@[j]).0 as int == corners_of(row as int, col as int, down, right, up, left)[j].0
                && r@[j].1 as int == corners_of(row as int, col as int, down, right, up, left)[j].1,
{
    let bl = (row + 1, col);
    let br = (row + 1, col + 1);
    let tr = (row, col + 1);
    let tl = (row, col);
    let mut out: Vec<(usize, usize)> = Vec::new();
    if down && right && !up && !left {
        out.push(bl);
        out.push(tr);
        out.push(tl);
    } else if !down && right && up && !left {
        out.push(bl);
        out.push(br);
        out.push(tl);
    } else if !down && !right && up && left {
        out.push(bl);
        out.push(br);
        out.push(tr);
    } else if down && !right && !up && left {
        out.push(br);
        out.push(tr);
        out.push(tl);
    } else {
        out.push(bl);
        out.push(br);
        out.push(tr);
        out.push(tl);
    }
    out
}


/// Number of a corner: the number it already has, or the next one.
pub open spec fn number_corner(verts: Seq<(int, int)>, p: (int, int)) -> (Seq<(int, int)>, nat) {
    if verts.contains(p) {
        (verts, verts.index_of(p) as nat)
    } else {
        (verts.push(p), verts.len())
    }
}

/// Numbers the corners of one cell, in order, after the vertices `verts`.
pub open spec fn number_corners(verts: Seq<(int, int)>, corners: Seq<(int, int)>) -> (Seq<(int, int)>, Seq<nat>)
    decreases corners.len(),
{
    if corners.len() == 0 {
        (verts, Seq::empty())
    } else {
        let (v1, ids) = number_corners(verts, corners.drop_last());
        let (v2, id) = number_corner(v1, corners.last());
        (v2, ids.push(id))
    }
}

/// Vertices (by grid position, in order of first use) and vertex numbers of each cell,
/// for the cells `cells` of mask `m`, walked in order.
pub open spec fn number_cells(m: MaskModel, cells: Seq<(int, int)>) -> (Seq<(int, int)>, Seq<Seq<nat>>)
    decreases cells.len(),
{
    if cells.len() == 0 {
        (Seq::empty(), Seq::empty())
    } else {
        let (v, cs) = number_cells(m, cells.drop_last());
        let (v2, ids) = number_corners(v, cell_corners_in(m, cells.last()));
        (v2, cs.push(ids))
    }
}

/// Position of a vertex-grid point in the lookup table.
pub open spec fn slot(width: int, row: int, col: int) -> int {
    row * width + col
}

/// The lookup table is a one-to-one map of the vertex grid.
proof fn lemma_slot(width: int, rows: int, r1: int, c1: int, r2: int, c2: int)
    requires
        width > 0,
        0 <= r1 <= rows,
        0 <= r2 <= rows,
        0 <= c1 < width,
        0 <= c2 < width,
    ensures
        0 <= slot(width, r1, c1) < (rows + 1) * width,
        slot(width, r1, c1) == slot(width, r2, c2) ==> r1 == r2 && c1 == c2,
{
    assert(0 <= r1 * width + c1 < (rows + 1) * width) by (nonlinear_arith)
        requires
            width > 0,
            0 <= r1 <= rows,
            0 <= c1 < width,
    ;
    if r1 < r2 {
        assert(r1 * width + c1 < r2 * width + c2) by (nonlinear_arith)
            requires
                width > 0,
                r1 < r2,
                0 <= c1 < width,
                0 <= c2,
        ;
    } else if r2 < r1 {
        assert(r2 * width + c2 < r1 * width + c1) by (nonlinear_arith)
            requires
                width > 0,
                r2 < r1,
                0 <= c2 < width,
                0 <= c1,
        ;
    }
}

/// The vertex lookup table agrees with the numbered vertices.
pub open spec fn table_matches(table: Seq<u32>, verts: Seq<(int, int)>, rows: int, cols: int) -> bool {
    &&& table.len() == (rows + 1) * (cols + 1)
    &&& verts.no_duplicates()
    &&& forall|i: int| 0 <= i < verts.len() ==> 0 <= (#[trigger] verts[i]).0 <= rows && 0 <= verts[i].1 <= cols
    &&& forall|r: int, c: int|
        0 <= r <= rows && 0 <= c <= cols ==> #[trigger] table[slot(cols + 1, r, c)] == (if verts.contains((r, c)) {
            verts.index_of((r, c)) as u32
        } else {
            u32::MAX
        })
}

/// Vertex positions as integers.
pub open spec fn points_view(points: Seq<(usize, usize)>) -> Seq<(int, int)> {
    points.map_values(|p: (usize, usize)| (p.0 as int, p.1 as int))
}

/// Vertex numbers as integers.
pub open spec fn ids_view(ids: Seq<VertexId>) -> Seq<nat> {
    ids.map_values(|v: VertexId| v.0 as nat)
}

/// Number of grid point `(row, col)`, created on first use.
fn vertex_id(
    row: usize,
    col: usize,
    rows: usize,
    cols: usize,
    vertices: &mut Vec<(usize, usize)>,
    table: &mut Vec<u32>,
) -> (r: VertexId)
    requires
        row <= rows,
        col <= cols,
        table_matches(old(table)@, points_view(old(vertices)@), rows as int, cols as int),
        old(vertices)@.len() < u32::MAX,
    ensures
        table_matches(final(table)@, points_view(final(vertices)@), rows as int, cols as int),
        (points_view(final(vertices)@), r.0 as nat) == number_corner(points_view(old(vertices)@), (row as int, col as int)),
{
    let ghost verts = points_view(vertices@);
    let ghost p = (row as int, col as int);
    let n = table.len();
    proof {
        lemma_slot(cols + 1, rows as int, row as int, col as int, row as int, col as int);
        assert(cols + 1 <= n && row * (cols + 1) <= n) by (nonlinear_arith)
            requires
                n == (rows + 1) * (cols + 1),
                row <= rows,
        ;
    }
    let k = row * (cols + 1) + col;
    if table[k] == u32::MAX {
        proof {
            if verts.contains(p) {
                let i = verts.index_of(p);
                assert(verts[i] == p);
            }
        }
        table.set(k, vertices.len() as u32);
        vertices.push((row, col));
        proof {
            let nv = points_view(vertices@);
            assert(nv =~= verts.push(p));
            assert forall|i: int, j: int| 0 <= i < nv.len() && 0 <= j < nv.len() && i != j implies nv[i] != nv[j] by {
                if i < verts.len() && j < verts.len() {
                } else if i == verts.len() {
                    assert(nv[j] == verts[j]);
                    assert(verts.contains(verts[j]));
                } else {
                    assert(nv[i] == verts[i]);
                    assert(verts.contains(verts[i]));
                }
            }
            assert forall|r: int, c: int| 0 <= r <= rows && 0 <= c <= cols implies #[trigger] table@[slot(cols + 1, r, c)] == (if nv.contains((r, c)) {
                nv.index_of((r, c)) as u32
            } else {
                u32::MAX
            }) by {
                lemma_slot(cols + 1, rows as int, r, c, row as int, col as int);
                if r == row && c == col {
                    assert(nv[verts.len() as int] == p);
                    assert(nv.contains(p));
                    let j = nv.index_of(p);
                    assert(nv[j] == p);
                } else {
                    assert(table@[slot(cols + 1, r, c)] == old(table)@[slot(cols + 1, r, c)]);
                    if verts.contains((r, c)) {
                        let i = verts.index_of((r, c));
                        assert(nv[i] == (r, c));
                        assert(nv.contains((r, c)));
                        let j = nv.index_of((r, c));
                        assert(nv[j] == (r, c));
                    }
                    if nv.contains((r, c)) {
                        let j = nv.index_of((r, c));
                        assert(nv[j] == (r, c));
                        assert(verts[j] == (r, c));
                    }
                }
            }
        }
    } else {
        proof {
            assert(verts.contains(p));
            let i = verts.index_of(p);
            assert(verts[i] == p);
        }
    }
    VertexId(table[k])
}


/// Numbering corners never forgets a vertex, and adds at most one per corner.
proof fn lemma_number_corners_len(verts: Seq<(int, int)>, corners: Seq<(int, int)>)
    ensures
        verts.len() <= number_corners(verts, corners).0.len() <= verts.len() + corners.len(),
        number_corners(verts, corners).1.len() == corners.len(),
    decreases corners.len(),
{
    if corners.len() > 0 {
        lemma_number_corners_len(verts, corners.drop_last());
    }
}

/// Numbering a prefix of the corners gives no more vertices than numbering them all.
proof fn lemma_number_corners_prefix(verts: Seq<(int, int)>, corners: Seq<(int, int)>, k: int)
    requires
        0 <= k <= corners.len(),
    ensures
        number_corners(verts, corners.take(k)).0.len() <= number_corners(verts, corners).0.len(),
    decreases corners.len(),
{
    if k < corners.len() {
        assert(corners.drop_last().take(k) == corners.take(k));
        lemma_number_corners_prefix(verts, corners.drop_last(), k);
        let (v1, _) = number_corners(verts, corners.drop_last());
        assert(v1.len() <= number_corner(v1, corners.last()).0.len());
    } else {
        assert(corners.take(k) == corners);
    }
}

/// Numbering a prefix of the cells gives no more vertices than numbering them all.
proof fn lemma_number_cells_prefix(m: MaskModel, cells: Seq<(int, int)>, k: int)
    requires
        0 <= k <= cells.len(),
    ensures
        number_cells(m, cells.take(k)).0.len() <= number_cells(m, cells).0.len(),
        number_cells(m, cells).1.len() == cells.len(),
    decreases cells.len(),
{
    if cells.len() > 0 {
        lemma_number_cells_prefix(m, cells.drop_last(), if k < cells.len() { k } else { 0 });
        let (v, _) = number_cells(m, cells.drop_last());
        lemma_number_corners_len(v, cell_corners_in(m, cells.last()));
        if k < cells.len() {
            assert(cells.drop_last().take(k) == cells.take(k));
        } else {
            assert(cells.take(k) == cells);
        }
    } else {
        assert(cells.take(k) == cells);
    }
}

/// Numbers picked by corner numbering are numbers of existing vertices.
proof fn lemma_number_corners_ids(verts: Seq<(int, int)>, corners: Seq<(int, int)>)
    ensures
        forall|j: int|
            0 <= j < number_corners(verts, corners).1.len() ==> #[trigger] number_corners(verts, corners).1[j]
                < number_corners(verts, corners).0.len(),
    decreases corners.len(),
{
    if corners.len() > 0 {
        lemma_number_corners_ids(verts, corners.drop_last());
        lemma_number_corners_len(verts, corners.drop_last());
        let (v1, ids) = number_corners(verts, corners.drop_last());
        let p = corners.last();
        if v1.contains(p) {
            let i = v1.index_of(p);
            assert(0 <= i < v1.len());
        }
        let (v2, _) = number_corner(v1, p);
        assert(v1.len() <= v2.len());
    }
}

/// Every cell numbered by `number_cells` uses existing vertices only.
proof fn lemma_number_cells_ids(m: MaskModel, cells: Seq<(int, int)>)
    ensures
        forall|k: int, j: int|
            0 <= k < number_cells(m, cells).1.len() && 0 <= j < number_cells(m, cells).1[k].len() ==> #[trigger] number_cells(
                m,
                cells,
            ).1[k][j] < number_cells(m, cells).0.len(),
        forall|k: int|
            0 <= k < number_cells(m, cells).1.len() ==> (#[trigger] number_cells(m, cells).1[k]).len() == 3 || number_cells(
                m,
                cells,
            ).1[k].len() == 4,
        number_cells(m, cells).1.len() == cells.len(),
    decreases cells.len(),
{
    if cells.len() > 0 {
        lemma_number_cells_ids(m, cells.drop_last());
        let (v, cs) = number_cells(m, cells.drop_last());
        let corners = cell_corners_in(m, cells.last());
        lemma_number_corners_ids(v, corners);
        lemma_number_corners_len(v, corners);
        let (v2, ids) = number_corners(v, corners);
        assert forall|k: int, j: int| 0 <= k < cs.push(ids).len() && 0 <= j < cs.push(ids)[k].len() implies #[trigger] cs.push(ids)[k][j] < v2.len() by {
            if k < cs.len() {
                assert(cs.push(ids)[k] == cs[k]);
            }
        }
        assert forall|k: int| 0 <= k < cs.push(ids).len() implies (#[trigger] cs.push(ids)[k]).len() == 3 || cs.push(ids)[k].len() == 4 by {
            if k < cs.len() {
                assert(cs.push(ids)[k] == cs[k]);
            }
        }
    }
}

/// Is `p` a point of the vertex grid of `rows` × `cols` cells?
pub open spec fn on_grid(p: (int, int), rows: int, cols: int) -> bool {
    0 <= p.0 <= rows && 0 <= p.1 <= cols
}

/// Numbering corners on the grid keeps the vertices distinct and on the grid.
proof fn lemma_number_corners_distinct(verts: Seq<(int, int)>, corners: Seq<(int, int)>, rows: int, cols: int)
    requires
        verts.no_duplicates(),
        forall|i: int| 0 <= i < verts.len() ==> on_grid(#[trigger] verts[i], rows, cols),
        forall|j: int| 0 <= j < corners.len() ==> on_grid(#[trigger] corners[j], rows, cols),
    ensures
        number_corners(verts, corners).0.no_duplicates(),
        forall|i: int|
            0 <= i < number_corners(verts, corners).0.len() ==> on_grid(#[trigger] number_corners(verts, corners).0[i], rows, cols),
    decreases corners.len(),
{
    if corners.len() > 0 {
        let init = corners.drop_last();
        assert forall|j: int| 0 <= j < init.len() implies on_grid(#[trigger] init[j], rows, cols) by {
            assert(init[j] == corners[j]);
        }
        lemma_number_corners_distinct(verts, init, rows, cols);
        let v1 = number_corners(verts, init).0;
        let p = corners.last();
        assert(on_grid(corners[corners.len() - 1], rows, cols));
        if !v1.contains(p) {
            let v2 = v1.push(p);
            assert forall|i: int, j: int| 0 <= i < v2.len() && 0 <= j < v2.len() && i != j implies v2[i] != v2[j] by {
                if i < v1.len() && j < v1.len() {
                    assert(v1[i] != v1[j]);
                } else if i < v1.len() {
                    assert(v2[i] == v1[i]);
                } else {
                    assert(v2[j] == v1[j]);
                }
            }
            assert forall|i: int| 0 <= i < v2.len() implies on_grid(#[trigger] v2[i], rows, cols) by {
                if i < v1.len() {
                    assert(v2[i] == v1[i]);
                }
            }
        }
    }
}

/// The vertices numbered for cells of the grid are distinct points of the grid.
proof fn lemma_number_cells_distinct(m: MaskModel, cells: Seq<(int, int)>)
    requires
        forall|k: int| 0 <= k < cells.len() ==> 0 <= (#[trigger] cells[k]).0 < m.rows && 0 <= cells[k].1 < m.cols,
    ensures
        number_cells(m, cells).0.no_duplicates(),
        forall|i: int|
            0 <= i < number_cells(m, cells).0.len() ==> on_grid(#[trigger] number_cells(m, cells).0[i], m.rows as int, m.cols as int),
    decreases cells.len(),
{
    if cells.len() > 0 {
        let init = cells.drop_last();
        assert forall|k: int| 0 <= k < init.len() implies 0 <= (#[trigger] init[k]).0 < m.rows && 0 <= init[k].1 < m.cols by {
            assert(init[k] == cells[k]);
        }
        lemma_number_cells_distinct(m, init);
        let v = number_cells(m, init).0;
        let (r, c) = cells.last();
        assert(0 <= cells[cells.len() - 1].0 < m.rows && 0 <= cells[cells.len() - 1].1 < m.cols);
        let corners = cell_corners_in(m, cells.last());
        assert forall|j: int| 0 <= j < corners.len() implies on_grid(#[trigger] corners[j], m.rows as int, m.cols as int) by {
            assert(corners.len() == 3 || corners.len() == 4);
        }
        lemma_number_corners_distinct(v, corners, m.rows as int, m.cols as int);
    }
}

/// Distinct points of the grid are no more than the grid has.
proof fn lemma_grid_count(points: Seq<(int, int)>, rows: nat, cols: nat)
    requires
        points.no_duplicates(),
        forall|i: int| 0 <= i < points.len() ==> on_grid(#[trigger] points[i], rows as int, cols as int),
    ensures
        points.len() <= (rows + 1) * (cols + 1),
{
    let w: int = cols as int + 1;
    let n: int = (rows as int + 1) * w;
    let slots = points.map_values(|p: (int, int)| slot(w, p.0, p.1));
    assert forall|i: int| 0 <= i < slots.len() implies 0 <= #[trigger] slots[i] < n by {
        lemma_slot(w, rows as int, points[i].0, points[i].1, points[i].0, points[i].1);
    }
    assert forall|i: int, j: int| 0 <= i < slots.len() && 0 <= j < slots.len() && i != j implies slots[i] != slots[j] by {
        lemma_slot(w, rows as int, points[i].0, points[i].1, points[j].0, points[j].1);
        assert(points[i] != points[j]);
    }
    slots.unique_seq_to_set();
    vstd::set_lib::lemma_int_range(0, n);
    assert(slots.to_set().subset_of(vstd::set_lib::set_int_range(0, n)));
    vstd::set_lib::lemma_len_subset(slots.to_set(), vstd::set_lib::set_int_range(0, n));
}

/// A mask numbers no more vertices than its vertex grid has points, and has no more
/// cells than that.
proof fn lemma_mask_counts(m: MaskModel)
    ensures
        number_cells(m, domain_cells(m)).0.len() <= (m.rows + 1) * (m.cols + 1),
        domain_cells(m).len() <= (m.rows + 1) * (m.cols + 1),
{
    let all = domain_cells(m);
    crate::decomposition::lemma_domain_cells_in_grid(m);
    crate::decomposition::lemma_domain_cells_distinct(m);
    lemma_number_cells_distinct(m, all);
    lemma_grid_count(number_cells(m, all).0, m.rows, m.cols);
    assert forall|i: int| 0 <= i < all.len() implies on_grid(#[trigger] all[i], m.rows as int, m.cols as int) by {}
    lemma_grid_count(all, m.rows, m.cols);
}

/// The cells of a mask with their vertices, before any face is built.
///
/// Vertices are identified by their position on the vertex grid, `(row, col)` being the
/// top left corner of cell `(row, col)`; they are numbered in order of first use, walking
/// the fluid cells row by row and each cell's corners counterclockwise.
#[derive(Debug)]
pub struct MeshCells {
    vertices: Vec<(usize, usize)>,
    cells: Vec<CellKind>,
}

/// Mathematical model of the cells of a mesh.
pub struct MeshCellsModel {
    /// Grid position of each vertex.
    pub vertices: Seq<(int, int)>,
    /// Vertex numbers of each cell, counterclockwise.
    pub cells: Seq<Seq<nat>>,
}

/// Vertex numbers of a list of cells.
pub open spec fn kinds_view(cells: Seq<CellKind>) -> Seq<Seq<nat>> {
    cells.map_values(|k: CellKind| k.ids())
}

impl View for MeshCells {
    type V = MeshCellsModel;

    closed spec fn view(&self) -> MeshCellsModel {
        MeshCellsModel { vertices: points_view(self.vertices@), cells: kinds_view(self.cells@) }
    }
}

impl MeshCellsModel {
    /// Every cell uses existing vertices; all numbers fit their identifier types.
    pub open spec fn well_formed(self) -> bool {
        &&& self.vertices.len() < u32::MAX
        &&& self.cells.len() <= u32::MAX
        &&& forall|k: int, j: int|
            0 <= k < self.cells.len() && 0 <= j < self.cells[k].len() ==> #[trigger] self.cells[k][j] < self.vertices.len()
    }
}

impl MeshCells {
    #[verifier::type_invariant]
    spec fn consistent(self) -> bool {
        &&& self@.well_formed()
        &&& unique_sides(self.cells@)
    }

    /// The cells, with their shapes.
    pub closed spec fn kinds(&self) -> Seq<CellKind> {
        self.cells@
    }

    /// Grid position of each vertex, in numbering order.
    pub fn vertices(&self) -> (r: &[(usize, usize)])
        ensures
            points_view(r@) == self@.vertices,
    {
        self.vertices.as_slice()
    }

    /// The cells, with their shapes, in numbering order.
    pub fn cells(&self) -> (r: &[CellKind])
        ensures
            r@ == self.kinds(),
            kinds_view(r@) == self@.cells,
    {
        self.cells.as_slice()
    }

    /// The vertices and the cells, taken apart.
    pub(crate) fn into_parts(self) -> (r: (Vec<(usize, usize)>, Vec<CellKind>))
        ensures
            points_view(r.0@) == self@.vertices,
            r.1@ == self.kinds(),
            kinds_view(r.1@) == self@.cells,
            self@.well_formed(),
            unique_sides(self.kinds()),
    {
        proof {
            use_type_invariant(&self);
        }
        (self.vertices, self.cells)
    }

    /// The cells of `mask`, with their chamfered corners and numbered vertices: one cell
    /// per fluid cell of the mask.
    ///
    /// A fluid cell of which exactly two perpendicular neighbours are obstacle walls
    /// has the corner between them cut off: it becomes a triangle.
    pub fn from_mask(mask: &Mask) -> (r: MeshCells)
        requires
            (mask@.rows + 1) * (mask@.cols + 1) < u32::MAX,
            mask@.rows < isize::MAX,
            mask@.cols < isize::MAX,
        ensures
            r@.vertices == number_cells(mask@, domain_cells(mask@)).0,
            r@.cells == number_cells(mask@, domain_cells(mask@)).1,
            kinds_view(r.kinds()) == number_cells(mask@, domain_cells(mask@)).1,
            r@.cells.len() == count_true(mask@.fluid),
    {
        let rows = mask.rows();
        let cols = mask.cols();
        let ghost m = mask@;
        let ghost all = domain_cells(m);
        let ghost total = number_cells(m, all).0.len();
        proof {
            lemma_mask_counts(m);
            assert(rows + 1 <= (rows + 1) * (cols + 1) && cols + 1 <= (rows + 1) * (cols + 1)) by (nonlinear_arith);
        }
        let size = (rows + 1) * (cols + 1);
        let mut table: Vec<u32> = Vec::new();
        let mut i: usize = 0;
        while i < size
            invariant
                i <= size,
                table@.len() == i,
                forall|x: int| 0 <= x < i ==> table@[x] == u32::MAX,
            decreases size - i,
        {
            table.push(u32::MAX);
            i = i + 1;
        }
        let mut vertices: Vec<(usize, usize)> = Vec::new();
        let mut cells: Vec<CellKind> = Vec::new();
        let ghost mut seen: Seq<(int, int)> = Seq::empty();
        proof {
            assert(table_matches(table@, points_view(vertices@), rows as int, cols as int)) by {
                assert forall|r: int, c: int| 0 <= r <= rows && 0 <= c <= cols implies #[trigger] table@[slot(cols + 1, r, c)] == (if points_view(vertices@).contains((r, c)) {
                    points_view(vertices@).index_of((r, c)) as u32
                } else {
                    u32::MAX
                }) by {
                    lemma_slot(cols + 1, rows as int, r, c, r, c);
                }
            }
        }
        let mut row: usize = 0;
        while row < rows
            invariant
                m == mask@,
                rows == m.rows,
                cols == m.cols,
                all == domain_cells(m),
                total == number_cells(m, all).0.len(),
                total < u32::MAX,
                all.len() <= u32::MAX,
                rows < isize::MAX,
                cols < isize::MAX,
                row <= rows,
                seen == crate::decomposition::band_cells(m, row as nat, 0, cols as int),
                table_matches(table@, points_view(vertices@), rows as int, cols as int),
                (points_view(vertices@), kinds_view(cells@)) == number_cells(m, seen),
            decreases rows - row,
        {
            let mut col: usize = 0;
            let ghost before_row = seen;
            while col < cols
                invariant
                    m == mask@,
                    rows == m.rows,
                    cols == m.cols,
                    all == domain_cells(m),
                    total == number_cells(m, all).0.len(),
                    total < u32::MAX,
                    all.len() <= u32::MAX,
                    rows < isize::MAX,
                    cols < isize::MAX,
                    row < rows,
                    col <= cols,
                    before_row == crate::decomposition::band_cells(m, row as nat, 0, cols as int),
                    seen == before_row + crate::decomposition::row_cells(m, row as int, 0, col as int),
                    table_matches(table@, points_view(vertices@), rows as int, cols as int),
                    (points_view(vertices@), kinds_view(cells@)) == number_cells(m, seen),
                decreases cols - col,
            {
                if mask.is_fluid(row, col) {
                    let ghost prior = seen;
                    proof {
                        seen = seen.push((row as int, col as int));
                        assert(seen == before_row + crate::decomposition::row_cells(m, row as int, 0, col as int + 1));
                        assert(seen.drop_last() == prior);
                        crate::decomposition::lemma_prefix_of_domain(m, row as int, col as int + 1);
                        lemma_number_cells_prefix(m, all, seen.len() as int);
                    }
                    let r = row as isize;
                    let c = col as isize;
                    let down = mask.is_obstacle(r + 1, c);
                    let right = mask.is_obstacle(r, c + 1);
                    let up = mask.is_obstacle(r - 1, c);
                    let left = mask.is_obstacle(r, c - 1);
                    let corners = cell_corners(row, col, down, right, up, left);
                    let ghost cs = cell_corners_in(m, (row as int, col as int));
                    assert(points_view(corners@) == cs);
                    let ghost v0 = points_view(vertices@);
                    let mut ids: Vec<VertexId> = Vec::new();
                    let mut j: usize = 0;
                    while j < corners.len()
                        invariant
                            rows == m.rows,
                            cols == m.cols,
                            row < rows,
                            col < cols,
                            points_view(corners@) == cs,
                            cs.len() == 3 || cs.len() == 4,
                            forall|x: int| 0 <= x < cs.len() ==> 0 <= (#[trigger] cs[x]).0 <= rows && 0 <= cs[x].1 <= cols,
                            j <= corners@.len(),
                            table_matches(table@, points_view(vertices@), rows as int, cols as int),
                            (points_view(vertices@), ids_view(ids@)) == number_corners(v0, cs.take(j as int)),
                            number_corners(v0, cs).0.len() < u32::MAX,
                        decreases corners@.len() - j,
                    {
                        proof {
                            lemma_number_corners_prefix(v0, cs, j as int + 1);
                            assert(cs.take(j as int + 1).drop_last() == cs.take(j as int));
                            lemma_number_corners_len(v0, cs.take(j as int));
                        }
                        let (vr, vc) = corners[j];
                        let id = vertex_id(vr, vc, rows, cols, &mut vertices, &mut table);
                        ids.push(id);
                        j = j + 1;
                        assert(ids_view(ids@) =~= number_corners(v0, cs.take(j as int)).1);
                    }
                    assert(cs.take(cs.len() as int) == cs);
                    proof {
                        lemma_number_corners_len(v0, cs);
                        assert(ids@.len() == ids_view(ids@).len());
                    }
                    let kind = if ids.len() == 3 {
                        CellKind::Tri([ids[0], ids[1], ids[2]])
                    } else {
                        CellKind::Quad([ids[0], ids[1], ids[2], ids[3]])
                    };
                    assert(kind.ids() == ids_view(ids@));
                    cells.push(kind);
                    assert(kinds_view(cells@) =~= number_cells(m, seen).1);
                } else {
                    proof {
                        assert(seen == before_row + crate::decomposition::row_cells(m, row as int, 0, col as int + 1));
                    }
                }
                col = col + 1;
            }
            proof {
                assert(seen == crate::decomposition::band_cells(m, (row + 1) as nat, 0, cols as int));
            }
            row = row + 1;
        }
        proof {
            lemma_number_cells_ids(m, all);
            crate::decomposition::lemma_domain_cells_count(m);
            crate::surface::lemma_mask_cells_unique_sides(m, cells@);
        }
        MeshCells { vertices, cells }
    }
}


/// The connectivity of a face: its two vertices, the cell its normal points out of, and
/// what lies across.
#[derive(Clone, Copy, Debug, PartialEq, Eq, Structural)]
pub struct FaceLink {
    /// First vertex.
    pub a: VertexId,
    /// Second vertex.
    pub b: VertexId,
    /// Cell of which the face's normal is outgoing.
    pub left: CellId,
    /// What lies across.
    pub right: Side,
}

impl FaceLink {
    /// Neighbouring cell, if there is one.
    pub fn neighbor(&self) -> (r: Option<CellId>)
        ensures
            r == (match self.right {
                Side::Inner(c) => Some(c),
                Side::Boundary(_) => None::<CellId>,
            }),
    {
        match self.right {
            Side::Inner(c) => Some(c),
            Side::Boundary(_) => None,
        }
    }

    /// Is the face on the domain boundary?
    pub fn is_boundary(&self) -> (r: bool)
        ensures
            r == (self.right is Boundary),
    {
        self.neighbor().is_none()
    }
}

/// Key of the undirected edge `{a, b}`: the sorted pair, packed in one integer.
pub open spec fn edge_code(a: VertexId, b: VertexId) -> u64 {
    if a.0 < b.0 {
        (a.0 as int * 0x1_0000_0000 + b.0 as int) as u64
    } else {
        (b.0 as int * 0x1_0000_0000 + a.0 as int) as u64
    }
}

/// State of the edge pairing: faces built so far, the face of each edge met so far, and
/// the first edge found shared by three cells.
pub struct Pairing {
    /// Faces built so far.
    pub faces: Seq<FaceLink>,
    /// Face number of each edge met so far.
    pub seen: Map<u64, usize>,
    /// Sorted vertices of the first edge met a third time.
    pub error: Option<(u32, u32)>,
}

/// Pairing after meeting edge `a → b` of cell `cell`: a first meeting creates a face
/// (provisionally on the boundary, outgoing from `cell`); a second one makes it inner; a
/// third one means the mesh is not a surface.
pub open spec fn pair_edge(st: Pairing, cell: CellId, a: VertexId, b: VertexId) -> Pairing {
    if st.error is Some {
        st
    } else {
        let key = edge_code(a, b);
        if st.seen.contains_key(key) {
            let f = st.seen[key] as int;
            match st.faces[f].right {
                Side::Inner(_) => Pairing {
                    error: Some(if a.0 < b.0 { (a.0, b.0) } else { (b.0, a.0) }),
                    ..st
                },
                Side::Boundary(_) => Pairing {
                    faces: st.faces.update(f, FaceLink { right: Side::Inner(cell), ..st.faces[f] }),
                    ..st
                },
            }
        } else {
            Pairing {
                faces: st.faces.push(FaceLink { a, b, left: cell, right: Side::Boundary(BoundaryKind::Wall) }),
                seen: st.seen.insert(key, st.faces.len() as usize),
                error: None,
            }
        }
    }
}

/// Pairing after the first `k` edges of cell `cell`, of vertices `verts`.
pub open spec fn pair_cell_edges(st: Pairing, cell: CellId, verts: Seq<VertexId>, k: nat) -> Pairing
    decreases k,
{
    if k == 0 {
        st
    } else {
        pair_edge(
            pair_cell_edges(st, cell, verts, (k - 1) as nat),
            cell,
            verts[k - 1],
            verts[(k as int) % (verts.len() as int)],
        )
    }
}

/// Pairing after all the edges of all the cells, in order.
pub open spec fn pair_cells(cells: Seq<CellKind>) -> Pairing
    decreases cells.len(),
{
    if cells.len() == 0 {
        Pairing { faces: Seq::empty(), seen: Map::empty(), error: None }
    } else {
        let n = (cells.len() - 1) as nat;
        let verts = cells.last().vertex_seq();
        pair_cell_edges(pair_cells(cells.drop_last()), CellId(n as u32), verts, verts.len())
    }
}

/// Pairing states in which every recorded face number designates a face.
pub open spec fn pairing_ok(st: Pairing) -> bool {
    forall|key: u64| #[trigger] st.seen.contains_key(key) ==> (st.seen[key] as int) < st.faces.len()
}

/// Pairs the cells' edges into faces.
///
/// An edge met once is a boundary face; twice, an inner face; three times, a broken
/// mesh. The key of an edge is the sorted pair of its vertices, so that both adjacent
/// cells land on the same entry.
pub(crate) fn build_faces(cells: &Vec<CellKind>) -> (r: Result<Vec<FaceLink>, MeshError>)
    requires
        cells@.len() <= u32::MAX,
    ensures
        match r {
            Ok(faces) => pair_cells(cells@).error is None && faces@ == pair_cells(cells@).faces,
            Err(e) => pair_cells(cells@).error matches Some((a, b)) && e == MeshError::NonManifoldEdge { a, b },
        },
{
    broadcast use vstd::std_specs::hash::group_hash_axioms;

    let mut faces: Vec<FaceLink> = Vec::new();
    let mut seen: vstd::hash_map::HashMapWithView<u64, usize> = vstd::hash_map::HashMapWithView::new();
    let mut i: usize = 0;
    assert(cells@.take(0) == Seq::<CellKind>::empty());
    while i < cells.len()
        invariant
            i <= cells@.len(),
            cells@.len() <= u32::MAX,
            pair_cells(cells@.take(i as int)) == (Pairing { faces: faces@, seen: seen@, error: None }),
            pairing_ok(Pairing { faces: faces@, seen: seen@, error: None }),
        decreases cells@.len() - i,
    {
        let id = CellId(i as u32);
        let verts = cells[i].vertices();
        let n = verts.len();
        let ghost start = Pairing { faces: faces@, seen: seen@, error: None };
        assert(cells@.take(i as int + 1).drop_last() == cells@.take(i as int));
        assert(n == 3 || n == 4);
        let mut k: usize = 0;
        while k < n
            invariant
                i < cells@.len(),
                cells@.len() <= u32::MAX,
                id == CellId(i as u32),
                n == verts@.len(),
                verts@ == cells@[i as int].vertex_seq(),
                n == 3 || n == 4,
                k <= n,
                pair_cells(cells@.take(i as int)) == start,
                pair_cell_edges(start, id, verts@, k as nat) == (Pairing { faces: faces@, seen: seen@, error: None }),
                pairing_ok(Pairing { faces: faces@, seen: seen@, error: None }),
            decreases n - k,
        {
            let a = verts[k];
            let b = verts[(k + 1) % n];
            let key: u64 = if a.0 < b.0 {
                (a.0 as u64) * 0x1_0000_0000 + (b.0 as u64)
            } else {
                (b.0 as u64) * 0x1_0000_0000 + (a.0 as u64)
            };
            assert(key == edge_code(a, b));
            let ghost before = Pairing { faces: faces@, seen: seen@, error: None };
            match seen.get(&key) {
                Some(fid) => {
                    let fid = *fid;
                    let face = faces[fid];
                    match face.right {
                        Side::Inner(_) => {
                            let (lo, hi) = if a.0 < b.0 { (a.0, b.0) } else { (b.0, a.0) };
                            proof {
                                assert(seen@[key] == fid);
                                assert(pair_edge(before, id, a, b).error is Some);
                                assert(pair_cell_edges(start, id, verts@, (k + 1) as nat) == pair_edge(before, id, a, b));
                                lemma_pairing_error_sticks(start, id, verts@, (k + 1) as nat, n as nat);
                                let prefix = cells@.take(i as int + 1);
                                assert(prefix.drop_last() == cells@.take(i as int));
                                assert(prefix.last() == cells@[i as int]);
                                assert(pair_cells(prefix) == pair_cell_edges(start, id, verts@, n as nat));
                                lemma_pairing_error_sticks_cells(cells@, i as int + 1);
                            }
                            return Err(MeshError::NonManifoldEdge { a: lo, b: hi });
                        },
                        Side::Boundary(_) => {
                            faces.set(fid, FaceLink { right: Side::Inner(id), ..face });
                        },
                    }
                },
                None => {
                    faces.push(FaceLink { a, b, left: id, right: Side::Boundary(BoundaryKind::Wall) });
                    seen.insert(key, faces.len() - 1);
                },
            }
            k = k + 1;
            assert(Pairing { faces: faces@, seen: seen@, error: None } == pair_edge(before, id, a, b));
        }
        i = i + 1;
        assert(pair_cells(cells@.take(i as int)) == pair_cell_edges(start, id, verts@, n as nat));
    }
    assert(cells@.take(cells@.len() as int) == cells@);
    Ok(faces)
}

/// Once an edge has been met a third time, the pairing stops.
proof fn lemma_pairing_error_sticks(st: Pairing, cell: CellId, verts: Seq<VertexId>, k: nat, n: nat)
    requires
        k <= n,
        pair_cell_edges(st, cell, verts, k).error is Some,
    ensures
        pair_cell_edges(st, cell, verts, n) == pair_cell_edges(st, cell, verts, k),
    decreases n - k,
{
    if k < n {
        lemma_pairing_error_sticks(st, cell, verts, k, (n - 1) as nat);
    }
}

/// An error met among the first `i` cells is the error of all of them.
proof fn lemma_pairing_error_sticks_cells(cells: Seq<CellKind>, i: int)
    requires
        0 <= i <= cells.len(),
        pair_cells(cells.take(i)).error is Some,
    ensures
        pair_cells(cells) == pair_cells(cells.take(i)),
    decreases cells.len() - i,
{
    if i < cells.len() {
        assert(cells.drop_last().take(i) == cells.take(i));
        lemma_pairing_error_sticks_cells(cells.drop_last(), i);
        let verts = cells.last().vertex_seq();
        lemma_pairing_error_sticks(pair_cells(cells.drop_last()), CellId((cells.len() - 1) as u32), verts, 0, verts.len());
    } else {
        assert(cells.take(i) == cells);
    }
}


/// Key of side `j` of a cell: from its vertex `j` to the next one.
pub open spec fn side_key(kind: CellKind, j: int) -> u64 {
    let v = kind.vertex_seq();
    edge_code(v[j], v[(j + 1) % (v.len() as int)])
}

/// No cell has two sides along the same edge.
pub open spec fn unique_sides(cells: Seq<CellKind>) -> bool {
    forall|k: int, i: int, j: int|
        0 <= k < cells.len() && 0 <= i < cells[k].vertex_seq().len() && 0 <= j < cells[k].vertex_seq().len()
            && #[trigger] side_key(cells[k], i) == #[trigger] side_key(cells[k], j) ==> i == j
}

/// How many of the first `k` sides of a cell have key `key`.
pub open spec fn side_hits(kind: CellKind, k: nat, key: u64) -> nat
    decreases k,
{
    if k == 0 {
        0
    } else {
        side_hits(kind, (k - 1) as nat, key) + if side_key(kind, k - 1) == key {
            1nat
        } else {
            0nat
        }
    }
}

/// How many sides of the cells have key `key`.
pub open spec fn key_count(cells: Seq<CellKind>, key: u64) -> nat
    decreases cells.len(),
{
    if cells.len() == 0 {
        0
    } else {
        key_count(cells.drop_last(), key) + side_hits(cells.last(), cells.last().vertex_seq().len(), key)
    }
}

/// A pairing state that has met `count(key)` sides of each key: a key has a face once
/// met, that face runs along a side of that key, and it is inner once met twice.
pub open spec fn pairing_tracks(st: Pairing, count: spec_fn(u64) -> nat) -> bool {
    &&& st.error is None
    &&& pairing_ok(st)
    &&& forall|key: u64| #[trigger] st.seen.contains_key(key) <==> count(key) > 0
    &&& forall|key: u64|
        #[trigger] st.seen.contains_key(key) ==> edge_code(st.faces[st.seen[key] as int].a, st.faces[st.seen[key] as int].b)
            == key && (st.faces[st.seen[key] as int].right is Inner <==> count(key) >= 2)
}

/// Fewer sides, fewer hits.
proof fn lemma_side_hits_mono(kind: CellKind, k: nat, n: nat, key: u64)
    requires
        k <= n,
    ensures
        side_hits(kind, k, key) <= side_hits(kind, n, key),
    decreases n - k,
{
    if k < n {
        lemma_side_hits_mono(kind, k, (n - 1) as nat, key);
    }
}

/// Pairing the sides of one more cell, when no key goes past two sides.
proof fn lemma_pair_cell_edges_tracks(st: Pairing, cell: CellId, kind: CellKind, k: nat, before: spec_fn(u64) -> nat)
    requires
        k <= kind.vertex_seq().len(),
        st.faces.len() + kind.vertex_seq().len() < usize::MAX,
        pairing_tracks(st, before),
        forall|key: u64| #[trigger] before(key) + side_hits(kind, kind.vertex_seq().len(), key) <= 2,
    ensures
        pairing_tracks(
            pair_cell_edges(st, cell, kind.vertex_seq(), k),
            |key: u64| before(key) + side_hits(kind, k, key),
        ),
        pair_cell_edges(st, cell, kind.vertex_seq(), k).faces.len() <= st.faces.len() + k,
    decreases k,
{
    let verts = kind.vertex_seq();
    let n = verts.len();
    if k == 0 {
        let c0 = |key: u64| before(key) + side_hits(kind, 0, key);
        assert(c0 =~= before);
    } else {
        lemma_pair_cell_edges_tracks(st, cell, kind, (k - 1) as nat, before);
        let prev = pair_cell_edges(st, cell, verts, (k - 1) as nat);
        let c1 = |key: u64| before(key) + side_hits(kind, (k - 1) as nat, key);
        let c2 = |key: u64| before(key) + side_hits(kind, k, key);
        let a = verts[k - 1];
        let b = verts[(k as int) % (n as int)];
        let kappa = edge_code(a, b);
        assert(((k - 1) + 1) % (n as int) == (k as int) % (n as int));
        assert(side_key(kind, k - 1) == kappa);
        let next = pair_edge(prev, cell, a, b);
        assert(next == pair_cell_edges(st, cell, verts, k));
        lemma_side_hits_mono(kind, k, n, kappa);
        assert(before(kappa) + side_hits(kind, n, kappa) <= 2);
        assert(c1(kappa) <= 1);
        assert forall|key: u64| #[trigger] c2(key) == c1(key) + if key == kappa {
            1nat
        } else {
            0nat
        } by {}
        if c1(kappa) == 0 {
            assert(!prev.seen.contains_key(kappa));
            let f = prev.faces.len();
            assert(next.seen[kappa] as int == f);
            assert forall|key: u64| #[trigger] next.seen.contains_key(key) implies (next.seen[key] as int) < next.faces.len() by {
                if key != kappa {
                    assert(prev.seen.contains_key(key));
                }
            }
            assert forall|key: u64| #[trigger] next.seen.contains_key(key) <==> c2(key) > 0 by {}
            assert forall|key: u64| #[trigger] next.seen.contains_key(key) implies edge_code(
                next.faces[next.seen[key] as int].a,
                next.faces[next.seen[key] as int].b,
            ) == key && (next.faces[next.seen[key] as int].right is Inner <==> c2(key) >= 2) by {
                if key != kappa {
                    assert(prev.seen.contains_key(key));
                    assert(next.faces[next.seen[key] as int] == prev.faces[prev.seen[key] as int]);
                }
            }
        } else {
            assert(prev.seen.contains_key(kappa));
            let f = prev.seen[kappa] as int;
            assert(!(prev.faces[f].right is Inner));
            assert forall|key: u64| #[trigger] next.seen.contains_key(key) implies (next.seen[key] as int) < next.faces.len() by {
                assert(prev.seen.contains_key(key));
            }
            assert forall|key: u64| #[trigger] next.seen.contains_key(key) <==> c2(key) > 0 by {}
            assert forall|key: u64| #[trigger] next.seen.contains_key(key) implies edge_code(
                next.faces[next.seen[key] as int].a,
                next.faces[next.seen[key] as int].b,
            ) == key && (next.faces[next.seen[key] as int].right is Inner <==> c2(key) >= 2) by {
                assert(prev.seen.contains_key(key));
                if key != kappa {
                    assert(prev.seen[key] as int != f);
                    assert(next.faces[next.seen[key] as int] == prev.faces[prev.seen[key] as int]);
                }
            }
        }
    }
}

/// When no key is the key of more than two sides, the pairing never finds an edge shared
/// by three cells, and every key met has its face.
pub proof fn lemma_pair_cells_tracks(cells: Seq<CellKind>)
    requires
        4 * cells.len() < usize::MAX,
        forall|key: u64| #[trigger] key_count(cells, key) <= 2,
    ensures
        pairing_tracks(pair_cells(cells), |key: u64| key_count(cells, key)),
        pair_cells(cells).error is None,
        pair_cells(cells).faces.len() <= 4 * cells.len(),
    decreases cells.len(),
{
    if cells.len() == 0 {
        let zero = |key: u64| key_count(cells, key);
        assert(pair_cells(cells).seen =~= Map::<u64, usize>::empty());
        assert forall|key: u64| #[trigger] pair_cells(cells).seen.contains_key(key) <==> zero(key) > 0 by {}
    } else {
        let before = cells.drop_last();
        assert forall|key: u64| #[trigger] key_count(before, key) <= 2 by {
            assert(key_count(cells, key) <= 2);
        }
        lemma_pair_cells_tracks(before);
        let last = cells.last();
        let n = (cells.len() - 1) as nat;
        let count = |key: u64| key_count(before, key);
        lemma_vertex_seq_ids(last);
        assert forall|key: u64| #[trigger] count(key) + side_hits(last, last.vertex_seq().len(), key) <= 2 by {
            assert(key_count(cells, key) <= 2);
        }
        lemma_pair_cell_edges_tracks(pair_cells(before), CellId(n as u32), last, last.vertex_seq().len(), count);
        let total = |key: u64| count(key) + side_hits(last, last.vertex_seq().len(), key);
        assert(total =~= (|key: u64| key_count(cells, key)));
    }
}

/// `a → b` is an edge of `kind`, in the cell's counterclockwise direction.
pub open spec fn is_edge_of(kind: CellKind, a: VertexId, b: VertexId) -> bool {
    let v = kind.vertex_seq();
    exists|j: int| 0 <= j < v.len() && #[trigger] v[j] == a && v[(j + 1) % (v.len() as int)] == b
}

/// Faces whose vertices are among the first `nv`, whose cells are among the first `n` of
/// `cells`, and each of which runs along an edge of its left cell, counterclockwise: its
/// normal points out of that cell.
pub open spec fn faces_sound(faces: Seq<FaceLink>, cells: Seq<CellKind>, n: nat, nv: nat) -> bool {
    forall|f: int|
        0 <= f < faces.len() ==> {
            let face = #[trigger] faces[f];
            &&& face.a.0 < nv
            &&& face.b.0 < nv
            &&& face.left.0 < n
            &&& (face.right matches Side::Inner(c) ==> c.0 < n)
            &&& is_edge_of(cells[face.left.0 as int], face.a, face.b)
        }
}

/// The vertices of a cell, as identifiers and as numbers.
pub(crate) proof fn lemma_vertex_seq_ids(kind: CellKind)
    ensures
        kind.vertex_seq().len() == kind.ids().len(),
        kind.vertex_seq().len() == 3 || kind.vertex_seq().len() == 4,
        forall|j: int| 0 <= j < kind.ids().len() ==> #[trigger] kind.vertex_seq()[j].0 == kind.ids()[j],
{
}

/// Pairing the edges of one more cell keeps the faces sound and adds at most one face per
/// edge.
proof fn lemma_pair_cell_edges_sound(st: Pairing, cells: Seq<CellKind>, i: nat, k: nat, nv: nat)
    requires
        i < cells.len(),
        i <= u32::MAX,
        k <= cells[i as int].vertex_seq().len(),
        faces_sound(st.faces, cells, i, nv),
        pairing_ok(st),
        forall|j: int| 0 <= j < cells[i as int].ids().len() ==> #[trigger] cells[i as int].ids()[j] < nv,
    ensures
        faces_sound(pair_cell_edges(st, CellId(i as u32), cells[i as int].vertex_seq(), k).faces, cells, i + 1, nv),
        pairing_ok(pair_cell_edges(st, CellId(i as u32), cells[i as int].vertex_seq(), k)),
        pair_cell_edges(st, CellId(i as u32), cells[i as int].vertex_seq(), k).faces.len() <= st.faces.len() + k,
    decreases k,
{
    let verts = cells[i as int].vertex_seq();
    lemma_vertex_seq_ids(cells[i as int]);
    if k == 0 {
        assert forall|f: int| 0 <= f < st.faces.len() implies {
            let face = #[trigger] st.faces[f];
            &&& face.a.0 < nv
            &&& face.b.0 < nv
            &&& face.left.0 < i + 1
            &&& (face.right matches Side::Inner(c) ==> c.0 < i + 1)
            &&& is_edge_of(cells[face.left.0 as int], face.a, face.b)
        } by {}
    } else {
        lemma_pair_cell_edges_sound(st, cells, i, (k - 1) as nat, nv);
        let prev = pair_cell_edges(st, CellId(i as u32), verts, (k - 1) as nat);
        let a = verts[k - 1];
        let b = verts[(k as int) % (verts.len() as int)];
        let next = pair_edge(prev, CellId(i as u32), a, b);
        assert(next == pair_cell_edges(st, CellId(i as u32), verts, k));
        assert(pairing_ok(next)) by {
            assert forall|key: u64| #[trigger] next.seen.contains_key(key) implies (next.seen[key] as int) < next.faces.len() by {
                if prev.error is None && !prev.seen.contains_key(edge_code(a, b)) && key != edge_code(a, b) {
                    assert(prev.seen.contains_key(key));
                }
            }
        }
        assert(a.0 < nv && b.0 < nv) by {
            assert(verts[k - 1].0 == cells[i as int].ids()[k - 1]);
            assert(verts[(k as int) % (verts.len() as int)].0 == cells[i as int].ids()[(k as int) % (verts.len() as int)]);
        }
        assert(is_edge_of(cells[i as int], a, b)) by {
            assert(verts[k - 1] == a && verts[((k - 1) + 1) % (verts.len() as int)] == b);
        }
        assert forall|f: int| 0 <= f < next.faces.len() implies {
            let face = #[trigger] next.faces[f];
            &&& face.a.0 < nv
            &&& face.b.0 < nv
            &&& face.left.0 < i + 1
            &&& (face.right matches Side::Inner(c) ==> c.0 < i + 1)
            &&& is_edge_of(cells[face.left.0 as int], face.a, face.b)
        } by {
            if f < prev.faces.len() {
                let old_face = prev.faces[f];
                assert(old_face.a.0 < nv && old_face.b.0 < nv && (old_face.left.0 as int) < i + 1);
            }
        }
    }
}

/// Pairing the edges of the cells gives sound faces, at most four per cell.
pub(crate) proof fn lemma_pair_cells_sound(cells: Seq<CellKind>, nv: nat)
    requires
        cells.len() <= u32::MAX,
        forall|k: int, j: int| 0 <= k < cells.len() && 0 <= j < cells[k].ids().len() ==> #[trigger] cells[k].ids()[j] < nv,
    ensures
        faces_sound(pair_cells(cells).faces, cells, cells.len(), nv),
        pairing_ok(pair_cells(cells)),
        pair_cells(cells).faces.len() <= 4 * cells.len(),
    decreases cells.len(),
{
    if cells.len() > 0 {
        let n = (cells.len() - 1) as nat;
        let before = cells.drop_last();
        assert forall|k: int, j: int| 0 <= k < before.len() && 0 <= j < before[k].ids().len() implies #[trigger] before[k].ids()[j] < nv by {
            assert(before[k] == cells[k]);
        }
        lemma_pair_cells_sound(before, nv);
        let st = pair_cells(before);
        assert forall|f: int| 0 <= f < st.faces.len() implies {
            let face = #[trigger] st.faces[f];
            &&& face.a.0 < nv
            &&& face.b.0 < nv
            &&& face.left.0 < n
            &&& (face.right matches Side::Inner(c) ==> c.0 < n)
            &&& is_edge_of(cells[face.left.0 as int], face.a, face.b)
        } by {
            let face = st.faces[f];
            assert(before[face.left.0 as int] == cells[face.left.0 as int]);
        }
        assert(cells.last() == cells[n as int]);
        assert forall|j: int| 0 <= j < cells[n as int].ids().len() implies #[trigger] cells[n as int].ids()[j] < nv by {}
        lemma_vertex_seq_ids(cells[n as int]);
        lemma_pair_cell_edges_sound(st, cells, n, cells[n as int].vertex_seq().len(), nv);
    }
}

/// Every recorded edge key designates a face along that edge.
pub open spec fn keys_match(st: Pairing) -> bool {
    forall|key: u64|
        #[trigger] st.seen.contains_key(key) ==> edge_code(st.faces[st.seen[key] as int].a, st.faces[st.seen[key] as int].b)
            == key
}

/// Every inner face joins two distinct cells, and its right cell has its edge too, one
/// way round or the other.
pub open spec fn faces_paired(faces: Seq<FaceLink>, cells: Seq<CellKind>) -> bool {
    forall|f: int|
        0 <= f < faces.len() ==> match (#[trigger] faces[f]).right {
            Side::Inner(c) => c != faces[f].left && (is_edge_of(cells[c.0 as int], faces[f].a, faces[f].b) || is_edge_of(
                cells[c.0 as int],
                faces[f].b,
                faces[f].a,
            )),
            Side::Boundary(_) => true,
        }
}

/// `face` runs along one of the first `k` sides of the polygon `verts`.
pub open spec fn made_by(face: FaceLink, verts: Seq<VertexId>, k: nat) -> bool {
    exists|j: int| 0 <= j < k && #[trigger] verts[j] == face.a && verts[(j + 1) % (verts.len() as int)] == face.b
}

/// Pairing the sides of cell `i` keeps inner faces between distinct cells having their
/// edge; the faces cell `i` creates run along its sides.
proof fn lemma_pair_cell_edges_paired(st: Pairing, all: Seq<CellKind>, i: nat, k: nat)
    requires
        i < all.len(),
        i <= u32::MAX,
        unique_sides(all),
        k <= all[i as int].vertex_seq().len(),
        st.faces.len() + all[i as int].vertex_seq().len() < usize::MAX,
        pairing_ok(st),
        keys_match(st),
        forall|f: int| 0 <= f < st.faces.len() ==> (#[trigger] st.faces[f]).left.0 < i,
        faces_paired(st.faces, all),
    ensures
        ({
            let verts = all[i as int].vertex_seq();
            let next = pair_cell_edges(st, CellId(i as u32), verts, k);
            &&& pairing_ok(next)
            &&& keys_match(next)
            &&& forall|f: int|
                0 <= f < next.faces.len() ==> (#[trigger] next.faces[f]).left.0 < i || (next.faces[f].left == CellId(i as u32)
                    && made_by(next.faces[f], verts, k))
            &&& faces_paired(next.faces, all)
            &&& next.faces.len() <= st.faces.len() + k
        }),
    decreases k,
{
    let verts = all[i as int].vertex_seq();
    let n = verts.len();
    let me = CellId(i as u32);
    lemma_vertex_seq_ids(all[i as int]);
    if k > 0 {
        lemma_pair_cell_edges_paired(st, all, i, (k - 1) as nat);
        let prev = pair_cell_edges(st, me, verts, (k - 1) as nat);
        let a = verts[k - 1];
        let b = verts[(k as int) % (n as int)];
        let key = edge_code(a, b);
        let next = pair_edge(prev, me, a, b);
        assert(next == pair_cell_edges(st, me, verts, k));
        assert(((k - 1) + 1) % (n as int) == (k as int) % (n as int));
        assert(side_key(all[i as int], k - 1) == key);
        assert(is_edge_of(all[i as int], a, b)) by {
            assert(verts[k - 1] == a && verts[((k - 1) + 1) % (n as int)] == b);
        }
        if prev.error is None && prev.seen.contains_key(key) {
            let f = prev.seen[key] as int;
            let face = prev.faces[f];
            if face.right is Boundary {
                assert(edge_code(face.a, face.b) == key);
                crate::surface::lemma_edge_code_pair(face.a, face.b, a, b);
                if face.left == me {
                    assert(made_by(face, verts, (k - 1) as nat));
                    let j = choose|j: int|
                        0 <= j < k - 1 && #[trigger] verts[j] == face.a && verts[(j + 1) % (verts.len() as int)] == face.b;
                    assert(side_key(all[i as int], j) == key);
                    assert(false);
                }
                assert(face.a == a || face.a == b);
                assert forall|g: int| 0 <= g < next.faces.len() implies match (#[trigger] next.faces[g]).right {
                    Side::Inner(c) => c != next.faces[g].left && (is_edge_of(all[c.0 as int], next.faces[g].a, next.faces[g].b)
                        || is_edge_of(all[c.0 as int], next.faces[g].b, next.faces[g].a)),
                    Side::Boundary(_) => true,
                } by {
                    if g != f {
                        assert(next.faces[g] == prev.faces[g]);
                    }
                }
                assert forall|g: int| 0 <= g < next.faces.len() implies (#[trigger] next.faces[g]).left.0 < i || (
                next.faces[g].left == me && made_by(next.faces[g], verts, k)) by {
                    if prev.faces[g].left == me {
                        let j = choose|j: int|
                            0 <= j < k - 1 && #[trigger] verts[j] == prev.faces[g].a && verts[(j + 1) % (verts.len() as int)]
                                == prev.faces[g].b;
                        assert(verts[j] == next.faces[g].a);
                    }
                }
                assert forall|kk: u64| #[trigger] next.seen.contains_key(kk) implies edge_code(
                    next.faces[next.seen[kk] as int].a,
                    next.faces[next.seen[kk] as int].b,
                ) == kk by {
                    assert(prev.seen.contains_key(kk));
                }
            }
        } else if prev.error is None {
            let f = prev.faces.len() as int;
            assert forall|g: int| 0 <= g < next.faces.len() implies match (#[trigger] next.faces[g]).right {
                Side::Inner(c) => c != next.faces[g].left && (is_edge_of(all[c.0 as int], next.faces[g].a, next.faces[g].b)
                    || is_edge_of(all[c.0 as int], next.faces[g].b, next.faces[g].a)),
                Side::Boundary(_) => true,
            } by {
                if g < f {
                    assert(next.faces[g] == prev.faces[g]);
                }
            }
            assert forall|g: int| 0 <= g < next.faces.len() implies (#[trigger] next.faces[g]).left.0 < i || (
            next.faces[g].left == me && made_by(next.faces[g], verts, k)) by {
                if g < f {
                    assert(next.faces[g] == prev.faces[g]);
                    if prev.faces[g].left == me {
                        let j = choose|j: int|
                            0 <= j < k - 1 && #[trigger] verts[j] == prev.faces[g].a && verts[(j + 1) % (verts.len() as int)]
                                == prev.faces[g].b;
                        assert(verts[j] == next.faces[g].a);
                    }
                } else {
                    assert(verts[k - 1] == next.faces[g].a);
                }
            }
            assert forall|kk: u64| #[trigger] next.seen.contains_key(kk) implies edge_code(
                next.faces[next.seen[kk] as int].a,
                next.faces[next.seen[kk] as int].b,
            ) == kk by {
                if kk != key {
                    assert(prev.seen.contains_key(kk));
                    assert(next.faces[next.seen[kk] as int] == prev.faces[prev.seen[kk] as int]);
                } else {
                    assert(next.seen[key] as int == f);
                    assert(next.faces[f].a == a && next.faces[f].b == b);
                }
            }
            assert forall|kk: u64| #[trigger] next.seen.contains_key(kk) implies (next.seen[kk] as int) < next.faces.len() by {
                if kk != key {
                    assert(prev.seen.contains_key(kk));
                }
            }
        }
        if next == prev {
            assert forall|g: int| 0 <= g < next.faces.len() implies (#[trigger] next.faces[g]).left.0 < i || (
            next.faces[g].left == me && made_by(next.faces[g], verts, k)) by {
                if prev.faces[g].left == me {
                    let j = choose|j: int|
                        0 <= j < k - 1 && #[trigger] verts[j] == prev.faces[g].a && verts[(j + 1) % (verts.len() as int)]
                            == prev.faces[g].b;
                    assert(verts[j] == next.faces[g].a);
                }
            }
        }
    }
}

/// [`lemma_pair_cells_paired`] for the first `i` cells of `all`.
proof fn lemma_pair_cells_paired_prefix(all: Seq<CellKind>, i: nat)
    requires
        i <= all.len(),
        4 * all.len() < usize::MAX,
        all.len() <= u32::MAX,
        unique_sides(all),
    ensures
        pair_cells(all.take(i as int)).faces.len() <= 4 * i,
        pairing_ok(pair_cells(all.take(i as int))),
        keys_match(pair_cells(all.take(i as int))),
        forall|f: int|
            0 <= f < pair_cells(all.take(i as int)).faces.len() ==> (#[trigger] pair_cells(all.take(i as int)).faces[f]).left.0 < i,
        faces_paired(pair_cells(all.take(i as int)).faces, all),
    decreases i,
{
    if i == 0 {
        assert(all.take(0).len() == 0);
        assert(pair_cells(all.take(0)).seen =~= Map::<u64, usize>::empty());
    } else {
        let p = (i - 1) as nat;
        lemma_pair_cells_paired_prefix(all, p);
        let prefix = all.take(i as int);
        assert(prefix.drop_last() == all.take(p as int));
        assert(prefix.last() == all[p as int]);
        let st = pair_cells(all.take(p as int));
        let verts = all[p as int].vertex_seq();
        lemma_vertex_seq_ids(all[p as int]);
        lemma_pair_cell_edges_paired(st, all, p, verts.len());
        assert(pair_cells(prefix) == pair_cell_edges(st, CellId(p as u32), verts, verts.len()));
    }
}

/// When no cell has two sides along the same edge, the pairing makes every inner face
/// join two distinct cells, both having its edge.
pub(crate) proof fn lemma_pair_cells_paired(cells: Seq<CellKind>)
    requires
        cells.len() <= u32::MAX,
        4 * cells.len() < usize::MAX,
        unique_sides(cells),
    ensures
        faces_paired(pair_cells(cells).faces, cells),
{
    lemma_pair_cells_paired_prefix(cells, cells.len());
    assert(cells.take(cells.len() as int) == cells);
}

/// At most as many inner faces as faces.
pub(crate) proof fn lemma_inner_count_bound(faces: Seq<FaceLink>)
    ensures
        inner_count(faces) <= faces.len(),
    decreases faces.len(),
{
    if faces.len() > 0 {
        lemma_inner_count_bound(faces.drop_last());
    }
}

/// The faces of `faces` that touch cell `cell`, in face order; a face whose two sides are
/// that cell appears twice.
pub open spec fn touching(faces: Seq<FaceLink>, cell: nat) -> Seq<FaceId>
    decreases faces.len(),
{
    if faces.len() == 0 {
        Seq::empty()
    } else {
        let rest = touching(faces.drop_last(), cell);
        let f = FaceId((faces.len() - 1) as u32);
        let face = faces.last();
        let with_left = if face.left.0 == cell {
            rest.push(f)
        } else {
            rest
        };
        if face.right == Side::Inner(CellId(cell as u32)) {
            with_left.push(f)
        } else {
            with_left
        }
    }
}

/// Number of inner faces.
pub open spec fn inner_count(faces: Seq<FaceLink>) -> nat
    decreases faces.len(),
{
    if faces.len() == 0 {
        0
    } else {
        inner_count(faces.drop_last()) + if faces.last().right is Inner {
            1nat
        } else {
            0nat
        }
    }
}

/// Total length of the face lists of cells `0..k`.
pub open spec fn sum_touching(faces: Seq<FaceLink>, k: nat) -> nat
    decreases k,
{
    if k == 0 {
        0
    } else {
        sum_touching(faces, (k - 1) as nat) + touching(faces, (k - 1) as nat).len()
    }
}

/// Faces whose cells are all among the first `n`.
pub open spec fn faces_within(faces: Seq<FaceLink>, n: nat) -> bool {
    forall|f: int|
        0 <= f < faces.len() ==> (#[trigger] faces[f]).left.0 < n && (faces[f].right matches Side::Inner(c) ==> c.0 < n)
}

/// Adding a face adds it to the list of its left cell, and of its right cell.
proof fn lemma_sum_touching_push(faces: Seq<FaceLink>, face: FaceLink, k: nat)
    requires
        faces.len() < u32::MAX + 1,
        k <= u32::MAX + 1,
    ensures
        sum_touching(faces.push(face), k) == sum_touching(faces, k) + sum_hits(face.left.0 as int, k) + match face.right {
            Side::Inner(c) => sum_hits(c.0 as int, k),
            Side::Boundary(_) => 0nat,
        },
    decreases k,
{
    if k > 0 {
        lemma_sum_touching_push(faces, face, (k - 1) as nat);
        let c = (k - 1) as nat;
        assert(faces.push(face).drop_last() == faces);
        if let Side::Inner(r) = face.right {
            assert((face.right == Side::Inner(CellId(c as u32))) == (r.0 == c));
        }
    }
}

/// Each boundary face is listed once, under its cell, and each inner face twice, under
/// each of its two cells.
pub proof fn lemma_sum_touching_total(faces: Seq<FaceLink>, n: nat)
    requires
        faces_within(faces, n),
        faces.len() <= u32::MAX + 1,
        n <= u32::MAX + 1,
    ensures
        sum_touching(faces, n) == faces.len() + inner_count(faces),
    decreases faces.len(),
{
    if faces.len() == 0 {
        lemma_sum_touching_empty(faces, n);
    } else {
        let before = faces.drop_last();
        assert forall|f: int| 0 <= f < before.len() implies (#[trigger] before[f]).left.0 < n && (before[f].right matches Side::Inner(c) ==> c.0 < n) by {
            assert(before[f] == faces[f]);
        }
        lemma_sum_touching_total(before, n);
        let face = faces.last();
        assert(faces == before.push(face));
        assert(face == faces[faces.len() - 1]);
        lemma_sum_touching_push(before, face, n);
        lemma_count_hits(face.left.0 as int, n);
        if let Side::Inner(c) = face.right {
            lemma_count_hits(c.0 as int, n);
        }
    }
}

/// Without faces, every list is empty.
proof fn lemma_sum_touching_empty(faces: Seq<FaceLink>, k: nat)
    requires
        faces.len() == 0,
    ensures
        sum_touching(faces, k) == 0,
    decreases k,
{
    if k > 0 {
        lemma_sum_touching_empty(faces, (k - 1) as nat);
    }
}

/// Sums over more cells are larger; one list is no longer than the sum it is part of.
pub(crate) proof fn lemma_sum_touching_mono(faces: Seq<FaceLink>, i: nat, k: nat)
    requires
        i <= k,
    ensures
        sum_touching(faces, i) <= sum_touching(faces, k),
        i < k ==> sum_touching(faces, i) + touching(faces, i).len() <= sum_touching(faces, k),
    decreases k - i,
{
    if i < k {
        lemma_sum_touching_mono(faces, i, (k - 1) as nat);
    }
}

/// The owners a face names: its left cell, and its right cell if it is inner.
pub open spec fn face_owners(face: FaceLink) -> (Option<u32>, Option<u32>) {
    (
        Some(face.left.0),
        match face.right {
            Side::Inner(c) => Some(c.0),
            Side::Boundary(_) => None,
        },
    )
}

/// The owners named by each face.
pub open spec fn cell_ends(faces: Seq<FaceLink>) -> Seq<(Option<u32>, Option<u32>)> {
    faces.map_values(|f: FaceLink| face_owners(f))
}

/// The faces of a cell are the faces naming it as an owner.
proof fn lemma_touching_listed(faces: Seq<FaceLink>, cell: nat)
    requires
        cell <= u32::MAX,
    ensures
        touching(faces, cell) == listed(cell_ends(faces), cell),
    decreases faces.len(),
{
    if faces.len() > 0 {
        lemma_touching_listed(faces.drop_last(), cell);
        assert(cell_ends(faces).drop_last() =~= cell_ends(faces.drop_last()));
        assert(cell_ends(faces).last() == face_owners(faces.last()));
    }
}

/// Summing the lists of cells is summing the rows of their owners.
proof fn lemma_sum_touching_listed(faces: Seq<FaceLink>, k: nat)
    requires
        k <= u32::MAX + 1,
    ensures
        sum_touching(faces, k) == sum_listed(cell_ends(faces), k),
    decreases k,
{
    if k > 0 {
        lemma_sum_touching_listed(faces, (k - 1) as nat);
        lemma_touching_listed(faces, (k - 1) as nat);
    }
}

/// Each face names its left cell, and inner faces their right cell too.
proof fn lemma_cell_ends_count(faces: Seq<FaceLink>)
    ensures
        end_count(cell_ends(faces)) == faces.len() + inner_count(faces),
    decreases faces.len(),
{
    if faces.len() > 0 {
        lemma_cell_ends_count(faces.drop_last());
        assert(cell_ends(faces).drop_last() =~= cell_ends(faces.drop_last()));
        assert(cell_ends(faces).last() == face_owners(faces.last()));
    }
}

/// The owners named by each face, as a vector.
fn cell_ends_of(faces: &Vec<FaceLink>) -> (r: Vec<(Option<u32>, Option<u32>)>)
    ensures
        r@ == cell_ends(faces@),
{
    let mut out: Vec<(Option<u32>, Option<u32>)> = Vec::new();
    let mut f: usize = 0;
    while f < faces.len()
        invariant
            f <= faces@.len(),
            out@ == cell_ends(faces@.take(f as int)),
        decreases faces@.len() - f,
    {
        let face = faces[f];
        let right = match face.right {
            Side::Inner(c) => Some(c.0),
            Side::Boundary(_) => None,
        };
        out.push((Some(face.left.0), right));
        f = f + 1;
        assert(out@ =~= cell_ends(faces@.take(f as int)));
    }
    assert(faces@.take(faces@.len() as int) == faces@);
    out
}

/// Builds the cell → faces connectivity, in compressed rows: the faces of cell `c` are
/// `indices[offsets[c] .. offsets[c + 1]]`, in face order.
pub(crate) fn build_cell_faces(faces: &Vec<FaceLink>, n: usize) -> (r: (Vec<usize>, Vec<FaceId>))
    requires
        faces_within(faces@, n as nat),
        faces@.len() <= u32::MAX + 1,
        n < usize::MAX,
        n <= u32::MAX + 1,
        faces@.len() + inner_count(faces@) <= usize::MAX,
    ensures
        r.0@.len() == n + 1,
        r.0@[n as int] == r.1@.len(),
        forall|c: int| 0 <= c <= n ==> #[trigger] r.0@[c] == sum_touching(faces@, c as nat),
        forall|c: int|
            0 <= c < n ==> #[trigger] r.1@.subrange(r.0@[c] as int, r.0@[c + 1] as int) == touching(faces@, c as nat),
{
    let items = cell_ends_of(faces);
    proof {
        lemma_cell_ends_count(faces@);
        assert forall|i: int| 0 <= i < items@.len() implies end_below((#[trigger] items@[i]).0, n as nat) && end_below(
            items@[i].1,
            n as nat,
        ) by {
            assert(items@[i] == face_owners(faces@[i]));
        }
    }
    let (offsets, rows) = build_rows(&items, n);
    proof {
        assert forall|c: int| 0 <= c <= n implies #[trigger] offsets@[c] == sum_touching(faces@, c as nat) by {
            lemma_sum_touching_listed(faces@, c as nat);
        }
        assert forall|c: int| 0 <= c < n implies #[trigger] rows@.subrange(offsets@[c] as int, offsets@[c + 1] as int)
            == touching(faces@, c as nat) by {
            lemma_touching_listed(faces@, c as nat);
        }
    }
    (offsets, rows)
}

} // verus!
