//! The mesh topology: cells, faces, the cell → faces connectivity and the boundary
//! groups, all in integer vertex-grid terms.
//!
//! Boundary faces are classified by position: a face lying on the first column of
//! vertices is the inlet, on the last one the outlet, on the top or bottom row a wall of
//! the test section, and anywhere else a wall of the obstacle. Which column comes first
//! depends on the direction in which the columns are laid out.

use vstd::prelude::*;

use crate::error::MeshError;
use crate::rows::{build_rows, end_below, end_count, lemma_listed_contains, lemma_listed_faces, lemma_sum_listed_mono, listed, sum_listed};
use crate::mesh::{
    build_cell_faces, build_faces, faces_paired, faces_sound, is_edge_of, lemma_pair_cells_paired, inner_count, kinds_view, lemma_inner_count_bound,
    lemma_pair_cells_sound, lemma_sum_touching_total, pair_cells, points_view, touching,
    BoundaryKind, CellId, CellKind, FaceId, FaceLink, MeshCells, Side, VertexId,
};

verus! {

/// Smallest element of `s` (zero for an empty sequence).
pub open spec fn seq_min(s: Seq<int>) -> int
    decreases s.len(),
{
    if s.len() == 0 {
        0
    } else if s.len() == 1 {
        s[0]
    } else {
        let m = seq_min(s.drop_last());
        if s.last() < m {
            s.last()
        } else {
            m
        }
    }
}

/// Largest element of `s` (zero for an empty sequence).
pub open spec fn seq_max(s: Seq<int>) -> int
    decreases s.len(),
{
    if s.len() == 0 {
        0
    } else if s.len() == 1 {
        s[0]
    } else {
        let m = seq_max(s.drop_last());
        if s.last() > m {
            s.last()
        } else {
            m
        }
    }
}

/// Rows of a list of grid points.
pub open spec fn rows_of(v: Seq<(int, int)>) -> Seq<int> {
    v.map_values(|p: (int, int)| p.0)
}

/// Columns of a list of grid points.
pub open spec fn cols_of(v: Seq<(int, int)>) -> Seq<int> {
    v.map_values(|p: (int, int)| p.1)
}

/// Nature of the boundary face from grid point `p` to grid point `q`, among the vertices
/// `verts`. With `columns_rightward`, the smallest column is the inlet side; otherwise
/// the largest one is.
pub open spec fn boundary_kind_at(p: (int, int), q: (int, int), verts: Seq<(int, int)>, columns_rightward: bool) -> BoundaryKind {
    let lo_c = seq_min(cols_of(verts));
    let hi_c = seq_max(cols_of(verts));
    let lo_r = seq_min(rows_of(verts));
    let hi_r = seq_max(rows_of(verts));
    let first = if columns_rightward {
        lo_c
    } else {
        hi_c
    };
    let last = if columns_rightward {
        hi_c
    } else {
        lo_c
    };
    if p.1 == first && q.1 == first {
        BoundaryKind::Inlet
    } else if p.1 == last && q.1 == last {
        BoundaryKind::Outlet
    } else if (p.0 == lo_r && q.0 == lo_r) || (p.0 == hi_r && q.0 == hi_r) {
        BoundaryKind::Wall
    } else {
        BoundaryKind::Obstacle
    }
}

/// A face with its boundary nature settled (inner faces are left as they are).
pub open spec fn classify_face(face: FaceLink, verts: Seq<(int, int)>, columns_rightward: bool) -> FaceLink {
    match face.right {
        Side::Inner(_) => face,
        Side::Boundary(_) => FaceLink {
            right: Side::Boundary(
                boundary_kind_at(verts[face.a.0 as int], verts[face.b.0 as int], verts, columns_rightward),
            ),
            ..face
        },
    }
}

/// All the faces, with their boundary natures settled.
pub open spec fn classified(faces: Seq<FaceLink>, verts: Seq<(int, int)>, columns_rightward: bool) -> Seq<FaceLink> {
    faces.map_values(|f: FaceLink| classify_face(f, verts, columns_rightward))
}

/// The boundary faces of nature `kind`, in face order.
pub open spec fn group_of(faces: Seq<FaceLink>, kind: BoundaryKind) -> Seq<FaceId>
    decreases faces.len(),
{
    if faces.len() == 0 {
        Seq::empty()
    } else {
        let rest = group_of(faces.drop_last(), kind);
        if faces.last().right == Side::Boundary(kind) {
            rest.push(FaceId((faces.len() - 1) as u32))
        } else {
            rest
        }
    }
}

/// Number of triangles.
pub open spec fn tri_count(cells: Seq<CellKind>) -> nat
    decreases cells.len(),
{
    if cells.len() == 0 {
        0
    } else {
        tri_count(cells.drop_last()) + if cells.last() is Tri {
            1nat
        } else {
            0nat
        }
    }
}

/// Is `v` an end of a face on the domain's edge (inlet, outlet or wall)?
pub open spec fn on_domain_edge(faces: Seq<FaceLink>, v: VertexId) -> bool {
    exists|f: int|
        0 <= f < faces.len() && (#[trigger] faces[f]).right is Boundary && faces[f].right != Side::Boundary(
            BoundaryKind::Obstacle,
        ) && (faces[f].a == v || faces[f].b == v)
}

/// Neither end of face `id` lies on the domain's edge.
pub open spec fn clear_of_domain_edge(faces: Seq<FaceLink>, id: FaceId) -> bool {
    !on_domain_edge(faces, faces[id.0 as int].a) && !on_domain_edge(faces, faces[id.0 as int].b)
}

/// The first end of face `id` found on the domain's edge: `a`, else `b`, else none.
pub open spec fn first_touch(faces: Seq<FaceLink>, id: FaceId) -> Option<VertexId> {
    let face = faces[id.0 as int];
    if on_domain_edge(faces, face.a) {
        Some(face.a)
    } else if on_domain_edge(faces, face.b) {
        Some(face.b)
    } else {
        None
    }
}

/// The boundary groups list, for each nature, exactly the faces of that nature, each
/// once and in increasing face order.
pub proof fn lemma_group_of(faces: Seq<FaceLink>, kind: BoundaryKind)
    requires
        faces.len() <= u32::MAX + 1,
    ensures
        forall|i: int|
            0 <= i < group_of(faces, kind).len() ==> (#[trigger] group_of(faces, kind)[i]).0 < faces.len()
                && faces[group_of(faces, kind)[i].0 as int].right == Side::Boundary(kind),
        forall|f: int|
            0 <= f < faces.len() ==> (group_of(faces, kind).contains(FaceId(f as u32)) <==> (#[trigger] faces[f]).right
                == Side::Boundary(kind)),
        forall|i: int, j: int|
            0 <= i < j < group_of(faces, kind).len() ==> (#[trigger] group_of(faces, kind)[i]).0 < (#[trigger] group_of(
                faces,
                kind,
            )[j]).0,
    decreases faces.len(),
{
    if faces.len() > 0 {
        let before = faces.drop_last();
        lemma_group_of(before, kind);
        let rest = group_of(before, kind);
        let g = group_of(faces, kind);
        let last = (faces.len() - 1) as int;
        assert forall|i: int| 0 <= i < g.len() implies (#[trigger] g[i]).0 < faces.len() && faces[g[i].0 as int].right
            == Side::Boundary(kind) by {
            if i < rest.len() {
                assert(g[i] == rest[i]);
                assert(faces[rest[i].0 as int] == before[rest[i].0 as int]);
            }
        }
        assert forall|f: int| 0 <= f < faces.len() implies (g.contains(FaceId(f as u32)) <==> (#[trigger] faces[f]).right
            == Side::Boundary(kind)) by {
            if f < last {
                assert(faces[f] == before[f]);
                if g.contains(FaceId(f as u32)) {
                    let i = choose|i: int| 0 <= i < g.len() && g[i] == FaceId(f as u32);
                    if i < rest.len() {
                        assert(g[i] == rest[i]);
                    }
                }
                if rest.contains(FaceId(f as u32)) {
                    let i = choose|i: int| 0 <= i < rest.len() && rest[i] == FaceId(f as u32);
                    assert(g[i] == rest[i]);
                }
            } else {
                if faces[f].right == Side::Boundary(kind) {
                    assert(g[rest.len() as int] == FaceId(f as u32));
                } else {
                    if g.contains(FaceId(f as u32)) {
                        let i = choose|i: int| 0 <= i < g.len() && g[i] == FaceId(f as u32);
                        assert(g[i] == rest[i]);
                    }
                }
            }
        }
        assert forall|i: int, j: int| 0 <= i < j < g.len() implies (#[trigger] g[i]).0 < (#[trigger] g[j]).0 by {
            assert(g[i] == rest[i]);
            if j < rest.len() {
                assert(g[j] == rest[j]);
            }
        }
    }
}

/// The face list of a cell holds exactly the faces of which that cell is the left cell
/// or the neighbour, in face order.
pub proof fn lemma_touching(faces: Seq<FaceLink>, cell: nat)
    requires
        faces.len() <= u32::MAX + 1,
        cell <= u32::MAX,
    ensures
        forall|i: int|
            0 <= i < touching(faces, cell).len() ==> (#[trigger] touching(faces, cell)[i]).0 < faces.len() && (
            faces[touching(faces, cell)[i].0 as int].left == CellId(cell as u32) || faces[touching(
                faces,
                cell,
            )[i].0 as int].right == Side::Inner(CellId(cell as u32))),
        forall|f: int|
            0 <= f < faces.len() ==> (touching(faces, cell).contains(FaceId(f as u32)) <==> ((#[trigger] faces[f]).left
                == CellId(cell as u32) || faces[f].right == Side::Inner(CellId(cell as u32)))),
        forall|i: int, j: int|
            0 <= i < j < touching(faces, cell).len() ==> (#[trigger] touching(faces, cell)[i]).0 <= (
            #[trigger] touching(faces, cell)[j]).0,
    decreases faces.len(),
{
    if faces.len() > 0 {
        let before = faces.drop_last();
        lemma_touching(before, cell);
        let rest = touching(before, cell);
        let t = touching(faces, cell);
        let last = (faces.len() - 1) as int;
        let me = CellId(cell as u32);
        assert((faces.last().left.0 == cell) == (faces.last().left == me));
        assert forall|i: int| 0 <= i < t.len() implies (#[trigger] t[i]).0 < faces.len() && (faces[t[i].0 as int].left
            == me || faces[t[i].0 as int].right == Side::Inner(me)) by {
            if i < rest.len() {
                assert(t[i] == rest[i]);
                assert(faces[rest[i].0 as int] == before[rest[i].0 as int]);
            }
        }
        assert forall|f: int| 0 <= f < faces.len() implies (t.contains(FaceId(f as u32)) <==> ((#[trigger] faces[f]).left
            == me || faces[f].right == Side::Inner(me))) by {
            if f < last {
                assert(faces[f] == before[f]);
                if t.contains(FaceId(f as u32)) {
                    let i = choose|i: int| 0 <= i < t.len() && t[i] == FaceId(f as u32);
                    if i < rest.len() {
                        assert(t[i] == rest[i]);
                    }
                }
                if rest.contains(FaceId(f as u32)) {
                    let i = choose|i: int| 0 <= i < rest.len() && rest[i] == FaceId(f as u32);
                    assert(t[i] == rest[i]);
                }
            } else {
                if faces[f].left == me || faces[f].right == Side::Inner(me) {
                    assert(t[rest.len() as int] == FaceId(f as u32));
                } else {
                    if t.contains(FaceId(f as u32)) {
                        let i = choose|i: int| 0 <= i < t.len() && t[i] == FaceId(f as u32);
                        assert(t[i] == rest[i]);
                    }
                }
            }
        }
        assert forall|i: int, j: int| 0 <= i < j < t.len() implies (#[trigger] t[i]).0 <= (#[trigger] t[j]).0 by {
            if i < rest.len() {
                assert(t[i] == rest[i]);
            }
            if j < rest.len() {
                assert(t[j] == rest[j]);
            }
        }
    }
}

/// The connectivity is symmetric: when a face listed under cell `c` has a neighbour
/// across, that neighbour lists the face too.
pub proof fn lemma_connectivity_is_symmetric(faces: Seq<FaceLink>, c: nat, f: int)
    requires
        faces.len() <= u32::MAX + 1,
        c <= u32::MAX,
        0 <= f < faces.len(),
        touching(faces, c).contains(FaceId(f as u32)),
        faces[f].right is Inner,
    ensures
        ({
            let other = if faces[f].left == CellId(c as u32) {
                faces[f].right->Inner_0
            } else {
                faces[f].left
            };
            touching(faces, other.0 as nat).contains(FaceId(f as u32))
        }),
{
    lemma_touching(faces, c);
    let other = if faces[f].left == CellId(c as u32) {
        faces[f].right->Inner_0
    } else {
        faces[f].left
    };
    lemma_touching(faces, other.0 as nat);
    assert(CellId(other.0 as nat as u32) == other);
}

/// The boundary groups together hold every boundary face: their sizes and the number
/// of inner faces add up to the number of faces.
pub proof fn lemma_groups_cover_the_boundary(faces: Seq<FaceLink>)
    ensures
        group_of(faces, BoundaryKind::Inlet).len() + group_of(faces, BoundaryKind::Outlet).len() + group_of(
            faces,
            BoundaryKind::Wall,
        ).len() + group_of(faces, BoundaryKind::Obstacle).len() + inner_count(faces) == faces.len(),
    decreases faces.len(),
{
    if faces.len() > 0 {
        lemma_groups_cover_the_boundary(faces.drop_last());
    }
}

/// Mathematical model of a mesh topology.
pub struct TopologyModel {
    /// Grid position of each vertex.
    pub vertices: Seq<(int, int)>,
    /// Shape and vertices of each cell.
    pub cells: Seq<CellKind>,
    /// Each face: its vertices, its left cell, what lies across.
    pub faces: Seq<FaceLink>,
}

impl TopologyModel {
    /// At least one cell, numbers that fit their identifier types, cells on existing
    /// vertices, and faces each running along an edge of its left cell.
    pub open spec fn well_formed(self) -> bool {
        &&& self.cells.len() >= 1
        &&& self.vertices.len() < u32::MAX
        &&& 4 * self.cells.len() <= u32::MAX
        &&& 8 * self.cells.len() <= usize::MAX
        &&& self.faces.len() <= 4 * self.cells.len()
        &&& forall|k: int, j: int|
            0 <= k < self.cells.len() && 0 <= j < self.cells[k].ids().len() ==> #[trigger] self.cells[k].ids()[j]
                < self.vertices.len()
        &&& faces_sound(self.faces, self.cells, self.cells.len(), self.vertices.len())
        &&& faces_paired(self.faces, self.cells)
    }
}

/// The vertices an inner face joins in the vertex graph; a boundary face joins none.
pub open spec fn edge_owners(face: FaceLink) -> (Option<u32>, Option<u32>) {
    if face.right is Inner {
        (Some(face.a.0), Some(face.b.0))
    } else {
        (None, None)
    }
}

/// The vertices each face joins in the vertex graph.
pub open spec fn vertex_ends(faces: Seq<FaceLink>) -> Seq<(Option<u32>, Option<u32>)> {
    faces.map_values(|f: FaceLink| edge_owners(f))
}

/// The vertex at the other end of `face` from vertex `v`.
pub open spec fn other_end(face: FaceLink, v: nat) -> VertexId {
    if face.a.0 == v {
        face.b
    } else {
        face.a
    }
}

/// The neighbours of vertex `v` in the vertex graph, one per inner face at `v`, in face
/// order.
pub open spec fn vertex_neighbours(faces: Seq<FaceLink>, v: nat) -> Seq<VertexId> {
    listed(vertex_ends(faces), v).map_values(|f: FaceId| other_end(faces[f.0 as int], v))
}

/// The vertex graph is symmetric: an inner face at vertex `v` that leads to vertex `w` is
/// also an inner face at `w`, and leads back to `v`. The two directions of an edge share
/// their face, hence their weight.
pub proof fn lemma_vertex_graph_is_symmetric(faces: Seq<FaceLink>, v: nat, j: int)
    requires
        faces.len() <= u32::MAX,
        0 <= j < listed(vertex_ends(faces), v).len(),
    ensures
        ({
            let f = listed(vertex_ends(faces), v)[j];
            let w = other_end(faces[f.0 as int], v);
            &&& f.0 < faces.len()
            &&& faces[f.0 as int].right is Inner
            &&& listed(vertex_ends(faces), w.0 as nat).contains(f)
            &&& other_end(faces[f.0 as int], w.0 as nat).0 == v
        }),
{
    let items = vertex_ends(faces);
    lemma_listed_faces(items, v);
    let f = listed(items, v)[j];
    let i = f.0 as int;
    let face = faces[i];
    assert(items[i] == edge_owners(face));
    let w = other_end(face, v);
    lemma_listed_contains(items, w.0 as nat, i);
    assert(f == FaceId(i as u32));
}

/// Each inner face joins two vertices.
proof fn lemma_vertex_ends_count(faces: Seq<FaceLink>)
    ensures
        end_count(vertex_ends(faces)) == 2 * inner_count(faces),
    decreases faces.len(),
{
    if faces.len() > 0 {
        lemma_vertex_ends_count(faces.drop_last());
        assert(vertex_ends(faces).drop_last() =~= vertex_ends(faces.drop_last()));
        assert(vertex_ends(faces).last() == edge_owners(faces.last()));
    }
}

/// The vertices each face joins, as a vector.
fn vertex_ends_of(faces: &Vec<FaceLink>) -> (r: Vec<(Option<u32>, Option<u32>)>)
    ensures
        r@ == vertex_ends(faces@),
{
    let mut out: Vec<(Option<u32>, Option<u32>)> = Vec::new();
    let mut f: usize = 0;
    while f < faces.len()
        invariant
            f <= faces@.len(),
            out@ == vertex_ends(faces@.take(f as int)),
        decreases faces@.len() - f,
    {
        let face = faces[f];
        let ends = match face.right {
            Side::Inner(_) => (Some(face.a.0), Some(face.b.0)),
            Side::Boundary(_) => (None, None),
        };
        out.push(ends);
        f = f + 1;
        assert(out@ =~= vertex_ends(faces@.take(f as int)));
    }
    assert(faces@.take(faces@.len() as int) == faces@);
    out
}

/// An unstructured 2D mesh, as topology: vertices on the grid, cells, faces, the faces
/// of each cell, and the boundary faces grouped by nature.
#[derive(Debug)]
pub struct Topology {
    vertices: Vec<(usize, usize)>,
    cells: Vec<CellKind>,
    faces: Vec<FaceLink>,
    // Cell → faces connectivity in compressed rows: the faces of cell `c` are
    // `indices[offsets[c] .. offsets[c + 1]]`.
    offsets: Vec<usize>,
    indices: Vec<FaceId>,
    inlet: Vec<FaceId>,
    outlet: Vec<FaceId>,
    wall: Vec<FaceId>,
    obstacle: Vec<FaceId>,
}

impl View for Topology {
    type V = TopologyModel;

    closed spec fn view(&self) -> TopologyModel {
        TopologyModel { vertices: points_view(self.vertices@), cells: self.cells@, faces: self.faces@ }
    }
}

/// Grid bounds of a nonempty list of vertices: smallest and largest row, smallest and
/// largest column.
fn grid_bounds(vertices: &Vec<(usize, usize)>) -> (r: (usize, usize, usize, usize))
    requires
        vertices@.len() >= 1,
    ensures
        r.0 == seq_min(rows_of(points_view(vertices@))),
        r.1 == seq_max(rows_of(points_view(vertices@))),
        r.2 == seq_min(cols_of(points_view(vertices@))),
        r.3 == seq_max(cols_of(points_view(vertices@))),
{
    let ghost all = points_view(vertices@);
    let mut lo_r = vertices[0].0;
    let mut hi_r = vertices[0].0;
    let mut lo_c = vertices[0].1;
    let mut hi_c = vertices[0].1;
    proof {
        let first = all.take(1);
        assert(rows_of(first) =~= seq![vertices@[0].0 as int]);
        assert(cols_of(first) =~= seq![vertices@[0].1 as int]);
    }
    let mut i: usize = 1;
    while i < vertices.len()
        invariant
            all == points_view(vertices@),
            1 <= i <= vertices@.len(),
            lo_r == seq_min(rows_of(all.take(i as int))),
            hi_r == seq_max(rows_of(all.take(i as int))),
            lo_c == seq_min(cols_of(all.take(i as int))),
            hi_c == seq_max(cols_of(all.take(i as int))),
        decreases vertices@.len() - i,
    {
        let (r, c) = vertices[i];
        proof {
            let prefix = all.take(i as int + 1);
            assert(rows_of(prefix).drop_last() =~= rows_of(all.take(i as int)));
            assert(cols_of(prefix).drop_last() =~= cols_of(all.take(i as int)));
            assert(rows_of(prefix).last() == r);
            assert(cols_of(prefix).last() == c);
        }
        if r < lo_r {
            lo_r = r;
        }
        if r > hi_r {
            hi_r = r;
        }
        if c < lo_c {
            lo_c = c;
        }
        if c > hi_c {
            hi_c = c;
        }
        i = i + 1;
    }
    assert(all.take(all.len() as int) =~= all);
    (lo_r, hi_r, lo_c, hi_c)
}

/// Settles the nature of every boundary face and gathers the boundary faces by nature.
fn classify_faces(
    faces: &Vec<FaceLink>,
    vertices: &Vec<(usize, usize)>,
    columns_rightward: bool,
) -> (r: (Vec<FaceLink>, Vec<FaceId>, Vec<FaceId>, Vec<FaceId>, Vec<FaceId>))
    requires
        vertices@.len() >= 1,
        faces@.len() <= u32::MAX + 1,
        forall|f: int| 0 <= f < faces@.len() ==> (#[trigger] faces@[f]).a.0 < vertices@.len() && faces@[f].b.0 < vertices@.len(),
    ensures
        r.0@ == classified(faces@, points_view(vertices@), columns_rightward),
        r.1@ == group_of(r.0@, BoundaryKind::Inlet),
        r.2@ == group_of(r.0@, BoundaryKind::Outlet),
        r.3@ == group_of(r.0@, BoundaryKind::Wall),
        r.4@ == group_of(r.0@, BoundaryKind::Obstacle),
{
    let ghost verts = points_view(vertices@);
    let ghost target = classified(faces@, verts, columns_rightward);
    let (lo_r, hi_r, lo_c, hi_c) = grid_bounds(vertices);
    let first = if columns_rightward {
        lo_c
    } else {
        hi_c
    };
    let last = if columns_rightward {
        hi_c
    } else {
        lo_c
    };
    let mut out: Vec<FaceLink> = Vec::new();
    let mut inlet: Vec<FaceId> = Vec::new();
    let mut outlet: Vec<FaceId> = Vec::new();
    let mut wall: Vec<FaceId> = Vec::new();
    let mut obstacle: Vec<FaceId> = Vec::new();
    let mut f: usize = 0;
    while f < faces.len()
        invariant
            verts == points_view(vertices@),
            target == classified(faces@, verts, columns_rightward),
            faces@.len() <= u32::MAX + 1,
            forall|g: int| 0 <= g < faces@.len() ==> (#[trigger] faces@[g]).a.0 < vertices@.len() && faces@[g].b.0 < vertices@.len(),
            lo_r == seq_min(rows_of(verts)),
            hi_r == seq_max(rows_of(verts)),
            lo_c == seq_min(cols_of(verts)),
            hi_c == seq_max(cols_of(verts)),
            first == (if columns_rightward { lo_c } else { hi_c }),
            last == (if columns_rightward { hi_c } else { lo_c }),
            f <= faces@.len(),
            out@ == target.take(f as int),
            inlet@ == group_of(out@, BoundaryKind::Inlet),
            outlet@ == group_of(out@, BoundaryKind::Outlet),
            wall@ == group_of(out@, BoundaryKind::Wall),
            obstacle@ == group_of(out@, BoundaryKind::Obstacle),
        decreases faces@.len() - f,
    {
        let face = faces[f];
        let ghost before = out@;
        let id = FaceId(f as u32);
        match face.right {
            Side::Inner(_) => {
                out.push(face);
            },
            Side::Boundary(_) => {
                let (ra, ca) = vertices[face.a.index()];
                let (rb, cb) = vertices[face.b.index()];
                let kind = if ca == first && cb == first {
                    BoundaryKind::Inlet
                } else if ca == last && cb == last {
                    BoundaryKind::Outlet
                } else if (ra == lo_r && rb == lo_r) || (ra == hi_r && rb == hi_r) {
                    BoundaryKind::Wall
                } else {
                    BoundaryKind::Obstacle
                };
                out.push(FaceLink { right: Side::Boundary(kind), ..face });
                match kind {
                    BoundaryKind::Inlet => inlet.push(id),
                    BoundaryKind::Outlet => outlet.push(id),
                    BoundaryKind::Wall => wall.push(id),
                    BoundaryKind::Obstacle => obstacle.push(id),
                }
            },
        }
        proof {
            assert(target[f as int] == classify_face(faces@[f as int], verts, columns_rightward));
            assert(out@ =~= target.take(f as int + 1));
            assert(out@.drop_last() == before);
        }
        f = f + 1;
    }
    assert(target.take(faces@.len() as int) =~= target);
    (out, inlet, outlet, wall, obstacle)
}

/// Classification keeps each face's vertices, left cell and neighbour.
proof fn lemma_classified_sound(faces: Seq<FaceLink>, cells: Seq<CellKind>, verts: Seq<(int, int)>, columns_rightward: bool)
    requires
        faces_sound(faces, cells, cells.len(), verts.len()),
    ensures
        faces_sound(classified(faces, verts, columns_rightward), cells, cells.len(), verts.len()),
        classified(faces, verts, columns_rightward).len() == faces.len(),
        inner_count(classified(faces, verts, columns_rightward)) == inner_count(faces),
    decreases faces.len(),
{
    let c = classified(faces, verts, columns_rightward);
    assert forall|f: int| 0 <= f < c.len() implies {
        let face = #[trigger] c[f];
        &&& face.a.0 < verts.len()
        &&& face.b.0 < verts.len()
        &&& face.left.0 < cells.len()
        &&& (face.right matches Side::Inner(x) ==> x.0 < cells.len())
        &&& crate::mesh::is_edge_of(cells[face.left.0 as int], face.a, face.b)
    } by {
        assert(c[f] == classify_face(faces[f], verts, columns_rightward));
    }
    if faces.len() > 0 {
        let before = faces.drop_last();
        assert forall|f: int| 0 <= f < before.len() implies {
            let face = #[trigger] before[f];
            &&& face.a.0 < verts.len()
            &&& face.b.0 < verts.len()
            &&& face.left.0 < cells.len()
            &&& (face.right matches Side::Inner(x) ==> x.0 < cells.len())
            &&& crate::mesh::is_edge_of(cells[face.left.0 as int], face.a, face.b)
        } by {
            assert(before[f] == faces[f]);
        }
        lemma_classified_sound(before, cells, verts, columns_rightward);
        assert(classified(before, verts, columns_rightward) =~= c.drop_last());
    }
}

/// Settling the boundary natures leaves the inner faces as they are.
proof fn lemma_classified_paired(faces: Seq<FaceLink>, cells: Seq<CellKind>, verts: Seq<(int, int)>, columns_rightward: bool)
    requires
        faces_paired(faces, cells),
    ensures
        faces_paired(classified(faces, verts, columns_rightward), cells),
{
    let c = classified(faces, verts, columns_rightward);
    assert forall|f: int| 0 <= f < c.len() implies match (#[trigger] c[f]).right {
        Side::Inner(x) => x != c[f].left && (is_edge_of(cells[x.0 as int], c[f].a, c[f].b) || is_edge_of(
            cells[x.0 as int],
            c[f].b,
            c[f].a,
        )),
        Side::Boundary(_) => true,
    } by {
        assert(c[f] == classify_face(faces[f], verts, columns_rightward));
    }
}

/// When no face has the same cell on both sides, the faces of a cell come once each, in
/// increasing order.
proof fn lemma_touching_increase(faces: Seq<FaceLink>, cell: nat)
    requires
        faces.len() <= u32::MAX + 1,
        cell <= u32::MAX,
        forall|f: int| 0 <= f < faces.len() ==> (#[trigger] faces[f]).right != Side::Inner(faces[f].left),
    ensures
        forall|i: int| 0 <= i < touching(faces, cell).len() ==> (#[trigger] touching(faces, cell)[i]).0 < faces.len(),
        forall|i: int, j: int|
            0 <= i < j < touching(faces, cell).len() ==> (#[trigger] touching(faces, cell)[i]).0 < (
            #[trigger] touching(faces, cell)[j]).0,
    decreases faces.len(),
{
    if faces.len() > 0 {
        let before = faces.drop_last();
        assert forall|f: int| 0 <= f < before.len() implies (#[trigger] before[f]).right != Side::Inner(before[f].left) by {
            assert(before[f] == faces[f]);
        }
        lemma_touching_increase(before, cell);
        let rest = touching(before, cell);
        let t = touching(faces, cell);
        let last = faces.last();
        let me = CellId(cell as u32);
        assert(last == faces[faces.len() - 1]);
        assert((last.left.0 == cell) == (last.left == me));
        assert(!(last.left == me && last.right == Side::Inner(me)));
        assert forall|i: int| 0 <= i < t.len() implies (#[trigger] t[i]).0 < faces.len() by {
            if i < rest.len() {
                assert(t[i] == rest[i]);
            }
        }
        assert forall|i: int, j: int| 0 <= i < j < t.len() implies (#[trigger] t[i]).0 < (#[trigger] t[j]).0 by {
            assert(t[i] == rest[i]);
            if j < rest.len() {
                assert(t[j] == rest[j]);
            }
        }
    }
}

/// The faces of a cell come once each, in increasing order: no face has the same cell on
/// both sides.
pub proof fn lemma_cell_faces_increase(t: TopologyModel, cell: nat)
    requires
        t.well_formed(),
        cell < t.cells.len(),
    ensures
        forall|i: int, j: int|
            0 <= i < j < touching(t.faces, cell).len() ==> (#[trigger] touching(t.faces, cell)[i]).0 < (
            #[trigger] touching(t.faces, cell)[j]).0,
{
    assert forall|f: int| 0 <= f < t.faces.len() implies (#[trigger] t.faces[f]).right != Side::Inner(t.faces[f].left) by {
        if let Side::Inner(c) = t.faces[f].right {
            assert(c != t.faces[f].left);
        }
    }
    lemma_touching_increase(t.faces, cell);
}

impl Topology {
    #[verifier::type_invariant]
    spec fn consistent(self) -> bool {
        let n = self.cells@.len();
        &&& self@.well_formed()
        &&& self.offsets@.len() == n + 1
        &&& self.offsets@[n as int] == self.indices@.len()
        &&& forall|c: int| 0 <= c < n ==> #[trigger] self.offsets@[c] <= self.offsets@[c + 1]
        &&& forall|c: int| 0 <= c <= n ==> #[trigger] self.offsets@[c] <= self.indices@.len()
        &&& forall|c: int|
            0 <= c < n ==> #[trigger] self.indices@.subrange(self.offsets@[c] as int, self.offsets@[c + 1] as int)
                == touching(self.faces@, c as nat)
        &&& self.inlet@ == group_of(self.faces@, BoundaryKind::Inlet)
        &&& self.outlet@ == group_of(self.faces@, BoundaryKind::Outlet)
        &&& self.wall@ == group_of(self.faces@, BoundaryKind::Wall)
        &&& self.obstacle@ == group_of(self.faces@, BoundaryKind::Obstacle)
    }

    /// Builds the faces, their connectivity and the boundary groups of `cells`.
    ///
    /// `columns_rightward` says whether the columns of the vertex grid go left to right
    /// (the inlet is then on the first column) or right to left.
    pub fn new(cells: MeshCells, columns_rightward: bool) -> (r: Result<Topology, MeshError>)
        requires
            4 * cells@.cells.len() <= u32::MAX,
            8 * cells@.cells.len() <= usize::MAX,
        ensures
            match r {
                Ok(t) => {
                    &&& cells@.cells.len() > 0
                    &&& pair_cells(cells.kinds()).error is None
                    &&& t@.vertices == cells@.vertices
                    &&& t@.cells == cells.kinds()
                    &&& t@.faces == classified(pair_cells(cells.kinds()).faces, cells@.vertices, columns_rightward)
                    &&& t@.well_formed()
                },
                Err(e) => if cells@.cells.len() == 0 {
                    e == MeshError::EmptyDomain
                } else {
                    pair_cells(cells.kinds()).error matches Some((a, b)) && e == (MeshError::NonManifoldEdge { a, b })
                },
            },
    {
        let ghost kinds = cells.kinds();
        let (vertices, kinds_vec) = cells.into_parts();
        if kinds_vec.len() == 0 {
            return Err(MeshError::EmptyDomain);
        }
        let raw = match build_faces(&kinds_vec) {
            Ok(f) => f,
            Err(e) => {
                return Err(e);
            },
        };
        let ghost nv = vertices@.len();
        proof {
            assert forall|k: int, j: int| 0 <= k < kinds.len() && 0 <= j < kinds[k].ids().len() implies #[trigger] kinds[k].ids()[j] < nv by {
                assert(kinds_view(kinds)[k] == kinds[k].ids());
            }
            lemma_pair_cells_sound(kinds, nv);
            lemma_pair_cells_paired(kinds);
            assert(kinds[0].ids().len() > 0);
            assert(kinds[0].ids()[0] < nv);
        }
        let (faces, inlet, outlet, wall, obstacle) = classify_faces(&raw, &vertices, columns_rightward);
        let n = kinds_vec.len();
        proof {
            lemma_classified_sound(raw@, kinds, points_view(vertices@), columns_rightward);
            lemma_classified_paired(raw@, kinds, points_view(vertices@), columns_rightward);
            lemma_inner_count_bound(faces@);
            assert forall|f: int| 0 <= f < faces@.len() implies (#[trigger] faces@[f]).left.0 < n && (faces@[f].right matches Side::Inner(c) ==> c.0 < n) by {}
        }
        let (offsets, indices) = build_cell_faces(&faces, n);
        proof {
            assert forall|c: int| 0 <= c < n implies #[trigger] offsets@[c] <= offsets@[c + 1] by {
                assert(offsets@[c + 1] == crate::mesh::sum_touching(faces@, (c + 1) as nat));
            }
            assert forall|c: int| 0 <= c <= n implies #[trigger] offsets@[c] <= indices@.len() by {
                crate::mesh::lemma_sum_touching_mono(faces@, c as nat, n as nat);
            }
        }
        Ok(Topology { vertices, cells: kinds_vec, faces, offsets, indices, inlet, outlet, wall, obstacle })
    }

    /// Number of vertices.
    pub fn n_vertices(&self) -> (r: usize)
        ensures
            r == self@.vertices.len(),
    {
        self.vertices.len()
    }

    /// Number of cells.
    pub fn n_cells(&self) -> (r: usize)
        ensures
            r == self@.cells.len(),
    {
        self.cells.len()
    }

    /// Number of faces.
    pub fn n_faces(&self) -> (r: usize)
        ensures
            r == self@.faces.len(),
    {
        self.faces.len()
    }

    /// Grid position of every vertex.
    pub fn vertices(&self) -> (r: &[(usize, usize)])
        ensures
            points_view(r@) == self@.vertices,
    {
        self.vertices.as_slice()
    }

    /// All the cells.
    pub fn cells(&self) -> (r: &[CellKind])
        ensures
            r@ == self@.cells,
    {
        self.cells.as_slice()
    }

    /// All the faces.
    pub fn faces(&self) -> (r: &[FaceLink])
        ensures
            r@ == self@.faces,
    {
        self.faces.as_slice()
    }

    /// One cell.
    pub fn cell(&self, id: CellId) -> (r: CellKind)
        requires
            id.0 < self@.cells.len(),
        ensures
            r == self@.cells[id.0 as int],
    {
        self.cells[id.index()]
    }

    /// One face.
    pub fn face(&self, id: FaceId) -> (r: FaceLink)
        requires
            id.0 < self@.faces.len(),
        ensures
            r == self@.faces[id.0 as int],
    {
        self.faces[id.index()]
    }

    /// The faces of a cell, in face order.
    pub fn cell_faces(&self, id: CellId) -> (r: &[FaceId])
        requires
            id.0 < self@.cells.len(),
        ensures
            r@ == touching(self@.faces, id.0 as nat),
    {
        proof {
            use_type_invariant(self);
        }
        let c = id.index();
        let start = self.offsets[c];
        let end = self.offsets[c + 1];
        vstd::slice::slice_subrange(self.indices.as_slice(), start, end)
    }

    /// The graph of the vertices joined by inner faces, in compressed rows: the inner
    /// faces at vertex `v` are `faces[offsets[v] .. offsets[v + 1]]`, in face order, and
    /// `neighbours[s]` is the vertex at the other end of face `faces[s]`.
    ///
    /// Each inner face is listed twice, once at each end; boundary faces are not listed.
    pub fn vertex_adjacency(&self) -> (r: (Vec<usize>, Vec<VertexId>, Vec<FaceId>))
        ensures
            r.0@.len() == self@.vertices.len() + 1,
            r.0@[self@.vertices.len() as int] == r.1@.len(),
            r.1@.len() == r.2@.len(),
            r.2@.len() == 2 * inner_count(self@.faces),
            forall|v: int| 0 <= v <= self@.vertices.len() ==> #[trigger] r.0@[v] == sum_listed(vertex_ends(self@.faces), v as nat),
            forall|v: int|
                0 <= v < self@.vertices.len() ==> #[trigger] r.2@.subrange(r.0@[v] as int, r.0@[v + 1] as int) == listed(
                    vertex_ends(self@.faces),
                    v as nat,
                ),
            forall|v: int|
                0 <= v < self@.vertices.len() ==> #[trigger] r.1@.subrange(r.0@[v] as int, r.0@[v + 1] as int)
                    == vertex_neighbours(self@.faces, v as nat),
    {
        proof {
            use_type_invariant(self);
            lemma_inner_count_bound(self.faces@);
        }
        let ghost faces = self.faces@;
        let nv = self.vertices.len();
        let items = vertex_ends_of(&self.faces);
        proof {
            lemma_vertex_ends_count(faces);
            assert forall|i: int| 0 <= i < items@.len() implies end_below((#[trigger] items@[i]).0, nv as nat) && end_below(
                items@[i].1,
                nv as nat,
            ) by {
                assert(items@[i] == edge_owners(faces[i]));
                assert(faces_sound(faces, self.cells@, self.cells@.len(), nv as nat));
            }
        }
        let (offsets, rows) = build_rows(&items, nv);
        let mut neighbours: Vec<VertexId> = Vec::new();
        let mut v: usize = 0;
        while v < nv
            invariant
                faces == self.faces@,
                items@ == vertex_ends(faces),
                items@.len() == faces.len(),
                faces.len() <= u32::MAX,
                v <= nv,
                offsets@.len() == nv + 1,
                offsets@[nv as int] == rows@.len(),
                forall|w: int| 0 <= w <= nv ==> #[trigger] offsets@[w] == sum_listed(items@, w as nat),
                forall|w: int|
                    0 <= w < nv ==> #[trigger] rows@.subrange(offsets@[w] as int, offsets@[w + 1] as int) == listed(items@, w as nat),
                neighbours@.len() == offsets@[v as int],
                forall|w: int, j: int|
                    0 <= w < v && 0 <= j < listed(items@, w as nat).len() ==> neighbours@[offsets@[w] + j] == other_end(
                        faces[#[trigger] listed(items@, w as nat)[j].0 as int],
                        w as nat,
                    ),
                forall|w: int| 0 <= w < v ==> #[trigger] offsets@[w] + listed(items@, w as nat).len() <= offsets@[v as int],
            decreases nv - v,
        {
            let ghost row = listed(items@, v as nat);
            proof {
                lemma_sum_listed_mono(items@, v as nat, nv as nat);
                lemma_listed_faces(items@, v as nat);
                assert(rows@.subrange(offsets@[v as int] as int, offsets@[v + 1] as int) == row);
            }
            let start = offsets[v];
            let end = offsets[v + 1];
            proof {
                assert forall|j: int| 0 <= j < row.len() implies rows@[start + j] == #[trigger] row[j] by {
                    assert(rows@.subrange(start as int, end as int)[j] == rows@[start + j]);
                }
            }
            let mut s = start;
            while s < end
                invariant
                    faces == self.faces@,
                    items@ == vertex_ends(faces),
                    items@.len() == faces.len(),
                    v < nv,
                    offsets@.len() == nv + 1,
                    start == offsets@[v as int],
                    end == offsets@[v + 1],
                    start <= s <= end,
                    end <= rows@.len(),
                    row == listed(items@, v as nat),
                    row.len() == end - start,
                    forall|j: int| 0 <= j < row.len() ==> rows@[start + j] == #[trigger] row[j],
                    forall|j: int| 0 <= j < row.len() ==> (#[trigger] row[j]).0 < faces.len(),
                    neighbours@.len() == s,
                    forall|w: int, j: int|
                        0 <= w < v && 0 <= j < listed(items@, w as nat).len() ==> neighbours@[offsets@[w] + j] == other_end(
                            faces[#[trigger] listed(items@, w as nat)[j].0 as int],
                            w as nat,
                        ),
                    forall|j: int| 0 <= j < s - start ==> neighbours@[start + j] == other_end(faces[#[trigger] row[j].0 as int], v as nat),
                    forall|w: int| 0 <= w < v ==> #[trigger] offsets@[w] + listed(items@, w as nat).len() <= start,
                decreases end - s,
            {
                let fid = rows[s];
                assert(fid == row[s - start]);
                let face = self.faces[fid.index()];
                let other = if face.a.index() == v {
                    face.b
                } else {
                    face.a
                };
                neighbours.push(other);
                s = s + 1;
            }
            proof {
                assert forall|w: int, j: int|
                    0 <= w < v + 1 && 0 <= j < listed(items@, w as nat).len() implies neighbours@[offsets@[w] + j] == other_end(
                        faces[#[trigger] listed(items@, w as nat)[j].0 as int],
                        w as nat,
                    ) by {}
            }
            v = v + 1;
            proof {
                assert forall|w: int| 0 <= w < v implies #[trigger] offsets@[w] + listed(items@, w as nat).len() <= offsets@[v as int] by {
                    lemma_sum_listed_mono(items@, w as nat, v as nat);
                }
            }
        }
        proof {
            assert forall|w: int| 0 <= w < nv implies #[trigger] neighbours@.subrange(offsets@[w] as int, offsets@[w + 1] as int)
                == vertex_neighbours(faces, w as nat) by {
                lemma_sum_listed_mono(items@, w as nat, nv as nat);
                assert(neighbours@.subrange(offsets@[w] as int, offsets@[w + 1] as int) =~= vertex_neighbours(faces, w as nat));
            }
        }
        (offsets, neighbours, rows)
    }

    /// The boundary faces of one nature, in face order.
    pub fn group(&self, kind: BoundaryKind) -> (r: &[FaceId])
        ensures
            r@ == group_of(self@.faces, kind),
    {
        proof {
            use_type_invariant(self);
        }
        match kind {
            BoundaryKind::Inlet => self.inlet.as_slice(),
            BoundaryKind::Outlet => self.outlet.as_slice(),
            BoundaryKind::Wall => self.wall.as_slice(),
            BoundaryKind::Obstacle => self.obstacle.as_slice(),
        }
    }

    /// Checks that no vertex is shared between the obstacle and the domain's edge.
    ///
    /// Such a vertex would carry two natures at once. The first obstacle face (in face
    /// order) with an end on the domain's edge is reported, with that end (`a` first).
    pub fn check_obstacle_clear_of_boundary(&self) -> (r: Result<(), MeshError>)
        ensures
            match r {
                Ok(()) => forall|i: int|
                    0 <= i < group_of(self@.faces, BoundaryKind::Obstacle).len() ==> #[trigger] first_touch(
                        self@.faces,
                        group_of(self@.faces, BoundaryKind::Obstacle)[i],
                    ) is None,
                Err(e) => exists|i: int|
                    0 <= i < group_of(self@.faces, BoundaryKind::Obstacle).len() && (forall|j: int|
                        0 <= j < i ==> #[trigger] first_touch(self@.faces, group_of(self@.faces, BoundaryKind::Obstacle)[j])
                            is None) && first_touch(self@.faces, group_of(self@.faces, BoundaryKind::Obstacle)[i])
                        == Some(e->vertex) && e is ObstacleTouchesBoundary,
            },
    {
        proof {
            use_type_invariant(self);
            lemma_group_of(self.faces@, BoundaryKind::Obstacle);
        }
        let ghost all = self.faces@;
        let nv = self.vertices.len();
        let mut marks: Vec<bool> = Vec::new();
        let mut v: usize = 0;
        while v < nv
            invariant
                v <= nv,
                marks@.len() == v,
                forall|x: int| 0 <= x < v ==> !marks@[x],
            decreases nv - v,
        {
            marks.push(false);
            v = v + 1;
        }
        proof {
            assert forall|x: int| 0 <= x < nv implies #[trigger] marks@[x] == on_domain_edge(all.take(0), VertexId(x as u32)) by {}
        }
        let mut f: usize = 0;
        while f < self.faces.len()
            invariant
                all == self.faces@,
                self@.well_formed(),
                nv == self@.vertices.len(),
                f <= all.len(),
                marks@.len() == nv,
                forall|x: int| 0 <= x < nv ==> #[trigger] marks@[x] == on_domain_edge(all.take(f as int), VertexId(x as u32)),
            decreases all.len() - f,
        {
            let face = self.faces[f];
            let ghost old_marks = marks@;
            assert(face.a.0 < nv && face.b.0 < nv);
            let edge = match face.right {
                Side::Boundary(BoundaryKind::Obstacle) => false,
                Side::Boundary(_) => true,
                Side::Inner(_) => false,
            };
            if edge {
                marks.set(face.a.index(), true);
                marks.set(face.b.index(), true);
            }
            proof {
                let prefix = all.take(f as int + 1);
                let old_prefix = all.take(f as int);
                assert(prefix[f as int] == face);
                assert forall|x: int| 0 <= x < nv implies #[trigger] marks@[x] == on_domain_edge(prefix, VertexId(x as u32)) by {
                    let vx = VertexId(x as u32);
                    if on_domain_edge(old_prefix, vx) {
                        let g = choose|g: int|
                            0 <= g < old_prefix.len() && (#[trigger] old_prefix[g]).right is Boundary && old_prefix[g].right
                                != Side::Boundary(BoundaryKind::Obstacle) && (old_prefix[g].a == vx || old_prefix[g].b == vx);
                        assert(prefix[g] == old_prefix[g]);
                    }
                    if on_domain_edge(prefix, vx) {
                        let g = choose|g: int|
                            0 <= g < prefix.len() && (#[trigger] prefix[g]).right is Boundary && prefix[g].right
                                != Side::Boundary(BoundaryKind::Obstacle) && (prefix[g].a == vx || prefix[g].b == vx);
                        if g < f {
                            assert(prefix[g] == old_prefix[g]);
                        } else {
                            assert(edge);
                            assert(face.a == vx || face.b == vx);
                        }
                    }
                    if edge && (face.a == vx || face.b == vx) {
                        assert(prefix[f as int] == face);
                    }
                }
            }
            f = f + 1;
        }
        proof {
            assert(all.take(all.len() as int) =~= all);
        }
        let ghost obs = group_of(all, BoundaryKind::Obstacle);
        let mut i: usize = 0;
        while i < self.obstacle.len()
            invariant
                all == self.faces@,
                obs == group_of(all, BoundaryKind::Obstacle),
                self.obstacle@ == obs,
                self@.well_formed(),
                nv == self@.vertices.len(),
                marks@.len() == nv,
                forall|x: int| 0 <= x < nv ==> #[trigger] marks@[x] == on_domain_edge(all, VertexId(x as u32)),
                forall|k: int| 0 <= k < obs.len() ==> (#[trigger] obs[k]).0 < all.len(),
                i <= obs.len(),
                forall|j: int| 0 <= j < i ==> #[trigger] first_touch(all, obs[j]) is None,
            decreases obs.len() - i,
        {
            let id = self.obstacle[i];
            let face = self.faces[id.index()];
            assert(face.a.0 < nv && face.b.0 < nv);
            assert(VertexId(face.a.0 as u32) == face.a);
            assert(VertexId(face.b.0 as u32) == face.b);
            if marks[face.a.index()] {
                return Err(MeshError::ObstacleTouchesBoundary { vertex: face.a });
            }
            if marks[face.b.index()] {
                return Err(MeshError::ObstacleTouchesBoundary { vertex: face.b });
            }
            i = i + 1;
        }
        Ok(())
    }

    /// Number of triangles and of quadrangles.
    pub fn shape_counts(&self) -> (r: (usize, usize))
        ensures
            r.0 == tri_count(self@.cells),
            r.0 + r.1 == self@.cells.len(),
    {
        let ghost all = self.cells@;
        let mut tri: usize = 0;
        let mut i: usize = 0;
        while i < self.cells.len()
            invariant
                all == self.cells@,
                i <= all.len(),
                tri == tri_count(all.take(i as int)),
                tri <= i,
            decreases all.len() - i,
        {
            assert(all.take(i as int + 1).drop_last() =~= all.take(i as int));
            if let CellKind::Tri(_) = self.cells[i] {
                tri = tri + 1;
            }
            i = i + 1;
        }
        assert(all.take(all.len() as int) =~= all);
        (tri, self.cells.len() - tri)
    }
}

} // verus!
