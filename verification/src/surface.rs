//! Why a mesh drawn from a mask is a surface: no edge is shared by three cells.
//!
//! Each cell of the mask is a unit square, possibly chamfered into a triangle; its sides
//! join corners of that square. A segment between two distinct grid points lies in at
//! most two unit squares, a cell has at most one side along a given segment, and the
//! cells of the mask are distinct squares: so at most two sides of the whole mesh run
//! along the same segment, and the face pairing never meets an edge a third time.

use vstd::prelude::*;

use crate::decomposition::{domain_cells, lemma_domain_cells_distinct};
use crate::mask::MaskModel;
use crate::mesh::{
    cell_corners_in, corners_of, edge_code, key_count, kinds_view, lemma_pair_cells_tracks,
    lemma_vertex_seq_ids, number_cells, number_corner, number_corners, pair_cells, side_hits,
    side_key, unique_sides, CellKind, VertexId,
};

verus! {

/// Does the unit square of cell `cell` have grid point `p` as a corner?
pub open spec fn square_has(cell: (int, int), p: (int, int)) -> bool {
    cell.0 <= p.0 <= cell.0 + 1 && cell.1 <= p.1 <= cell.1 + 1
}

/// The segment `p`–`q` is the segment `s`–`t`, either way round.
pub open spec fn same_segment(p: (int, int), q: (int, int), s: (int, int), t: (int, int)) -> bool {
    (p == s && q == t) || (p == t && q == s)
}

/// The square below and right of the segment `p`–`q`, if it is a unit side.
pub open spec fn far_square(p: (int, int), q: (int, int)) -> (int, int) {
    (if p.0 < q.0 { q.0 } else { p.0 } - 1, if p.1 < q.1 { q.1 } else { p.1 } - 1)
}

/// The square above and left of the segment `p`–`q`, if it is a unit side.
pub open spec fn near_square(p: (int, int), q: (int, int)) -> (int, int) {
    (if p.0 < q.0 { p.0 } else { q.0 }, if p.1 < q.1 { p.1 } else { q.1 })
}

/// Only two unit squares can hold both ends of a segment.
proof fn lemma_squares_of_segment(cell: (int, int), p: (int, int), q: (int, int))
    requires
        p != q,
        square_has(cell, p),
        square_has(cell, q),
    ensures
        cell == far_square(p, q) || cell == near_square(p, q),
{
}

/// Corner `j` of polygon `p` and the next one.
pub open spec fn side_of(p: Seq<(int, int)>, j: int) -> ((int, int), (int, int)) {
    (p[j], p[(j + 1) % (p.len() as int)])
}

/// The corners of a cell lie on its square, its sides join distinct points, and no two
/// of its sides run along the same segment.
proof fn lemma_corners_sides(row: int, col: int, down: bool, right: bool, up: bool, left: bool)
    ensures
        ({
            let p = corners_of(row, col, down, right, up, left);
            &&& p.len() == 3 || p.len() == 4
            &&& forall|j: int| 0 <= j < p.len() ==> square_has((row, col), #[trigger] p[j])
            &&& forall|j: int| 0 <= j < p.len() ==> (#[trigger] side_of(p, j)).0 != side_of(p, j).1
            &&& forall|i: int, j: int|
                0 <= i < p.len() && 0 <= j < p.len() && same_segment(
                    (#[trigger] side_of(p, i)).0,
                    side_of(p, i).1,
                    (#[trigger] side_of(p, j)).0,
                    side_of(p, j).1,
                ) ==> i == j
        }),
{
    let p = corners_of(row, col, down, right, up, left);
    let n = p.len() as int;
    assert forall|j: int| 0 <= j < n implies (#[trigger] side_of(p, j)).0 != side_of(p, j).1 by {
        if n == 3 {
            assert(j == 0 || j == 1 || j == 2);
        } else {
            assert(j == 0 || j == 1 || j == 2 || j == 3);
        }
    }
    assert forall|i: int, j: int|
        0 <= i < n && 0 <= j < n && same_segment(
            (#[trigger] side_of(p, i)).0,
            side_of(p, i).1,
            (#[trigger] side_of(p, j)).0,
            side_of(p, j).1,
        ) implies i == j by {
        if n == 3 {
            assert(i == 0 || i == 1 || i == 2);
            assert(j == 0 || j == 1 || j == 2);
        } else {
            assert(i == 0 || i == 1 || i == 2 || i == 3);
            assert(j == 0 || j == 1 || j == 2 || j == 3);
        }
    }
}

/// The key of an edge gives back its two vertices, up to order.
pub(crate) proof fn lemma_edge_code_pair(a: VertexId, b: VertexId, c: VertexId, d: VertexId)
    requires
        edge_code(a, b) == edge_code(c, d),
    ensures
        (a.0 == c.0 && b.0 == d.0) || (a.0 == d.0 && b.0 == c.0),
{
    let lo1: int = if a.0 < b.0 { a.0 as int } else { b.0 as int };
    let hi1: int = if a.0 < b.0 { b.0 as int } else { a.0 as int };
    let lo2: int = if c.0 < d.0 { c.0 as int } else { d.0 as int };
    let hi2: int = if c.0 < d.0 { d.0 as int } else { c.0 as int };
    let x1 = lo1 * 0x1_0000_0000 + hi1;
    let x2 = lo2 * 0x1_0000_0000 + hi2;
    assert(0 <= x1 <= u64::MAX && 0 <= x2 <= u64::MAX) by (nonlinear_arith)
        requires
            0 <= lo1 < 0x1_0000_0000,
            0 <= hi1 < 0x1_0000_0000,
            0 <= lo2 < 0x1_0000_0000,
            0 <= hi2 < 0x1_0000_0000,
            x1 == lo1 * 0x1_0000_0000 + hi1,
            x2 == lo2 * 0x1_0000_0000 + hi2,
    ;
    assert(edge_code(a, b) == x1);
    assert(edge_code(c, d) == x2);
    assert(lo1 == lo2 && hi1 == hi2) by (nonlinear_arith)
        requires
            0 <= hi1 < 0x1_0000_0000,
            0 <= hi2 < 0x1_0000_0000,
            lo1 * 0x1_0000_0000 + hi1 == lo2 * 0x1_0000_0000 + hi2,
    ;
}

/// Numbering corners keeps the vertices numbered before, and the number of each corner
/// designates that corner.
proof fn lemma_number_corners_at(verts: Seq<(int, int)>, corners: Seq<(int, int)>)
    ensures
        ({
            let (v, ids) = number_corners(verts, corners);
            &&& verts.len() <= v.len()
            &&& forall|i: int| 0 <= i < verts.len() ==> #[trigger] v[i] == verts[i]
            &&& ids.len() == corners.len()
            &&& forall|j: int| 0 <= j < corners.len() ==> #[trigger] ids[j] < v.len() && v[ids[j] as int] == corners[j]
        }),
    decreases corners.len(),
{
    if corners.len() > 0 {
        let init = corners.drop_last();
        lemma_number_corners_at(verts, init);
        let (v1, ids1) = number_corners(verts, init);
        let p = corners.last();
        let (v2, id) = number_corner(v1, p);
        if v1.contains(p) {
            let i = v1.index_of(p);
            assert(v1[i] == p);
        }
        let ids = ids1.push(id);
        assert forall|j: int| 0 <= j < corners.len() implies #[trigger] ids[j] < v2.len() && v2[ids[j] as int] == corners[j] by {
            if j < init.len() {
                assert(ids[j] == ids1[j]);
                assert(init[j] == corners[j]);
            }
        }
    }
}

/// The vertex numbers of each numbered cell designate that cell's corners.
proof fn lemma_number_cells_at(m: MaskModel, cells: Seq<(int, int)>)
    ensures
        ({
            let (v, cs) = number_cells(m, cells);
            &&& cs.len() == cells.len()
            &&& forall|k: int| 0 <= k < cells.len() ==> (#[trigger] cs[k]).len() == cell_corners_in(m, cells[k]).len()
            &&& forall|k: int, j: int|
                0 <= k < cells.len() && 0 <= j < cs[k].len() ==> #[trigger] cs[k][j] < v.len() && v[cs[k][j] as int]
                    == cell_corners_in(m, cells[k])[j]
        }),
    decreases cells.len(),
{
    if cells.len() > 0 {
        let init = cells.drop_last();
        lemma_number_cells_at(m, init);
        let (v, cs) = number_cells(m, init);
        let corners = cell_corners_in(m, cells.last());
        lemma_number_corners_at(v, corners);
        let (v2, ids) = number_corners(v, corners);
        let all = cs.push(ids);
        assert forall|k: int| 0 <= k < cells.len() implies (#[trigger] all[k]).len() == cell_corners_in(m, cells[k]).len() by {
            if k < init.len() {
                assert(all[k] == cs[k]);
                assert(init[k] == cells[k]);
            }
        }
        assert forall|k: int, j: int| 0 <= k < cells.len() && 0 <= j < all[k].len() implies #[trigger] all[k][j] < v2.len()
            && v2[all[k][j] as int] == cell_corners_in(m, cells[k])[j] by {
            if k < init.len() {
                assert(all[k] == cs[k]);
                assert(init[k] == cells[k]);
                assert(cs[k][j] < v.len());
            }
        }
    }
}

/// The cells `kinds` are those of mask `m`, numbered as a mesh of the whole domain
/// numbers them (what [`crate::mesh::MeshCells::from_mask`] builds).
pub open spec fn numbers_mask(m: MaskModel, kinds: Seq<CellKind>) -> bool {
    kinds_view(kinds) == number_cells(m, domain_cells(m)).1
}

/// Corners of the `k`-th cell of the domain of `m`.
pub open spec fn domain_corners(m: MaskModel, k: int) -> Seq<(int, int)> {
    cell_corners_in(m, domain_cells(m)[k])
}

/// The facts of [`lemma_corners_sides`] for the `k`-th cell of the domain.
proof fn lemma_domain_corners_sides(m: MaskModel, k: int)
    ensures
        ({
            let p = domain_corners(m, k);
            &&& p.len() == 3 || p.len() == 4
            &&& forall|j: int| 0 <= j < p.len() ==> square_has(domain_cells(m)[k], #[trigger] p[j])
            &&& forall|j: int| 0 <= j < p.len() ==> (#[trigger] side_of(p, j)).0 != side_of(p, j).1
            &&& forall|i: int, j: int|
                0 <= i < p.len() && 0 <= j < p.len() && same_segment(
                    (#[trigger] side_of(p, i)).0,
                    side_of(p, i).1,
                    (#[trigger] side_of(p, j)).0,
                    side_of(p, j).1,
                ) ==> i == j
        }),
{
    let (r, c) = domain_cells(m)[k];
    lemma_corners_sides(
        r,
        c,
        crate::mesh::obstacle_at(m, r + 1, c),
        crate::mesh::obstacle_at(m, r, c + 1),
        crate::mesh::obstacle_at(m, r - 1, c),
        crate::mesh::obstacle_at(m, r, c - 1),
    );
}

/// Side `j` of the `k`-th numbered cell joins the vertices at the ends of side `j` of
/// that cell's corners.
proof fn lemma_side_positions(m: MaskModel, kinds: Seq<CellKind>, k: int, j: int)
    requires
        numbers_mask(m, kinds),
        0 <= k < kinds.len(),
        0 <= j < kinds[k].vertex_seq().len(),
    ensures
        kinds.len() == domain_cells(m).len(),
        kinds[k].vertex_seq().len() == domain_corners(m, k).len(),
        ({
            let v = number_cells(m, domain_cells(m)).0;
            let vs = kinds[k].vertex_seq();
            &&& v[vs[j].0 as int] == side_of(domain_corners(m, k), j).0
            &&& v[vs[(j + 1) % (vs.len() as int)].0 as int] == side_of(domain_corners(m, k), j).1
        }),
{
    let all = domain_cells(m);
    lemma_number_cells_at(m, all);
    lemma_vertex_seq_ids(kinds[k]);
    let cs = number_cells(m, all).1;
    assert(kinds_view(kinds).len() == kinds.len());
    assert(kinds_view(kinds)[k] == kinds[k].ids());
    let vs = kinds[k].vertex_seq();
    let n = vs.len() as int;
    let j2 = (j + 1) % n;
    assert(vs[j].0 == cs[k][j]);
    assert(vs[j2].0 == cs[k][j2]);
}

/// Two sides with the same key run along the same segment.
proof fn lemma_same_key_same_segment(m: MaskModel, kinds: Seq<CellKind>, k1: int, j1: int, k2: int, j2: int)
    requires
        numbers_mask(m, kinds),
        0 <= k1 < kinds.len(),
        0 <= j1 < kinds[k1].vertex_seq().len(),
        0 <= k2 < kinds.len(),
        0 <= j2 < kinds[k2].vertex_seq().len(),
        side_key(kinds[k1], j1) == side_key(kinds[k2], j2),
    ensures
        same_segment(
            side_of(domain_corners(m, k1), j1).0,
            side_of(domain_corners(m, k1), j1).1,
            side_of(domain_corners(m, k2), j2).0,
            side_of(domain_corners(m, k2), j2).1,
        ),
{
    lemma_side_positions(m, kinds, k1, j1);
    lemma_side_positions(m, kinds, k2, j2);
    let v1 = kinds[k1].vertex_seq();
    let v2 = kinds[k2].vertex_seq();
    lemma_edge_code_pair(
        v1[j1],
        v1[(j1 + 1) % (v1.len() as int)],
        v2[j2],
        v2[(j2 + 1) % (v2.len() as int)],
    );
}

/// No cell of a mask has two sides along the same edge.
pub(crate) proof fn lemma_mask_cells_unique_sides(m: MaskModel, kinds: Seq<CellKind>)
    requires
        numbers_mask(m, kinds),
    ensures
        unique_sides(kinds),
{
    assert forall|k: int, i: int, j: int|
        0 <= k < kinds.len() && 0 <= i < kinds[k].vertex_seq().len() && 0 <= j < kinds[k].vertex_seq().len()
            && #[trigger] side_key(kinds[k], i) == #[trigger] side_key(kinds[k], j) implies i == j by {
        lemma_same_key_same_segment(m, kinds, k, i, k, j);
        lemma_side_positions(m, kinds, k, i);
        lemma_domain_corners_sides(m, k);
    }
}

/// A side counted among the first `k` has an index below `k`.
proof fn lemma_side_hits_witness(kind: CellKind, k: nat, key: u64)
    requires
        side_hits(kind, k, key) > 0,
    ensures
        exists|j: int| 0 <= j < k && #[trigger] side_key(kind, j) == key,
    decreases k,
{
    if side_key(kind, k - 1) != key {
        lemma_side_hits_witness(kind, (k - 1) as nat, key);
    }
}

/// A key carried by at most one side is counted at most once.
proof fn lemma_side_hits_at_most_one(kind: CellKind, k: nat, key: u64)
    requires
        forall|i: int, j: int|
            0 <= i < k && 0 <= j < k && #[trigger] side_key(kind, i) == key && #[trigger] side_key(kind, j) == key ==> i == j,
    ensures
        side_hits(kind, k, key) <= 1,
    decreases k,
{
    if k > 0 {
        lemma_side_hits_at_most_one(kind, (k - 1) as nat, key);
        if side_key(kind, k - 1) == key && side_hits(kind, (k - 1) as nat, key) > 0 {
            lemma_side_hits_witness(kind, (k - 1) as nat, key);
        }
    }
}

/// A key counted among the cells is the key of some side of some cell.
proof fn lemma_key_count_witness(cells: Seq<CellKind>, key: u64)
    requires
        key_count(cells, key) > 0,
    ensures
        exists|k: int, j: int|
            0 <= k < cells.len() && 0 <= j < cells[k].vertex_seq().len() && #[trigger] side_key(cells[k], j) == key,
    decreases cells.len(),
{
    let init = cells.drop_last();
    if key_count(init, key) > 0 {
        lemma_key_count_witness(init, key);
        let (k, j) = choose|k: int, j: int|
            0 <= k < init.len() && 0 <= j < init[k].vertex_seq().len() && #[trigger] side_key(init[k], j) == key;
        assert(cells[k] == init[k]);
    } else {
        let last = cells.last();
        lemma_side_hits_witness(last, last.vertex_seq().len(), key);
        let j = choose|j: int| 0 <= j < last.vertex_seq().len() && #[trigger] side_key(last, j) == key;
        assert(cells[cells.len() - 1] == last);
    }
}

/// Does square `c` come among the first `i` cells of `cells`?
pub open spec fn met(cells: Seq<(int, int)>, i: int, c: (int, int)) -> bool {
    exists|k: int| 0 <= k < i && #[trigger] cells[k] == c
}

/// How many of the squares that can hold the segment `p`–`q` come among the first `i`
/// cells of `cells`.
pub open spec fn squares_met(cells: Seq<(int, int)>, i: int, p: (int, int), q: (int, int)) -> nat {
    (if met(cells, i, far_square(p, q)) {
        1nat
    } else {
        0nat
    }) + (if near_square(p, q) != far_square(p, q) && met(cells, i, near_square(p, q)) {
        1nat
    } else {
        0nat
    })
}

/// Sides of key `key`, all along the segment `p`–`q`, are no more among the first `i`
/// cells than the squares holding that segment.
proof fn lemma_key_count_squares(m: MaskModel, kinds: Seq<CellKind>, key: u64, p: (int, int), q: (int, int), i: int)
    requires
        numbers_mask(m, kinds),
        0 <= i <= kinds.len(),
        p != q,
        forall|k: int, j: int|
            0 <= k < kinds.len() && 0 <= j < kinds[k].vertex_seq().len() && #[trigger] side_key(kinds[k], j) == key
                ==> same_segment(side_of(domain_corners(m, k), j).0, side_of(domain_corners(m, k), j).1, p, q),
    ensures
        key_count(kinds.take(i), key) <= squares_met(domain_cells(m), i, p, q),
    decreases i,
{
    let all = domain_cells(m);
    if i > 0 {
        lemma_key_count_squares(m, kinds, key, p, q, i - 1);
        let k = i - 1;
        assert(kinds.take(i).drop_last() == kinds.take(k));
        assert(kinds.take(i).last() == kinds[k]);
        let kind = kinds[k];
        let n = kind.vertex_seq().len();
        lemma_vertex_seq_ids(kind);
        lemma_side_positions(m, kinds, k, 0);
        lemma_domain_corners_sides(m, k);
        let corners = domain_corners(m, k);
        assert forall|i1: int, j1: int|
            0 <= i1 < n && 0 <= j1 < n && #[trigger] side_key(kind, i1) == key && #[trigger] side_key(kind, j1) == key implies i1
            == j1 by {
            assert(same_segment(side_of(corners, i1).0, side_of(corners, i1).1, p, q));
            assert(same_segment(side_of(corners, j1).0, side_of(corners, j1).1, p, q));
            assert(same_segment(side_of(corners, i1).0, side_of(corners, i1).1, side_of(corners, j1).0, side_of(corners, j1).1));
        }
        lemma_side_hits_at_most_one(kind, n, key);
        if side_hits(kind, n, key) > 0 {
            lemma_side_hits_witness(kind, n, key);
            let j = choose|j: int| 0 <= j < n && #[trigger] side_key(kind, j) == key;
            assert(same_segment(side_of(corners, j).0, side_of(corners, j).1, p, q));
            let j2 = (j + 1) % (n as int);
            assert(square_has(all[k], corners[j]));
            assert(square_has(all[k], corners[j2]));
            lemma_squares_of_segment(all[k], p, q);
            lemma_domain_cells_distinct(m);
            assert(!met(all, k, all[k]));
            assert(met(all, i, all[k]));
        }
        assert(met(all, k, far_square(p, q)) ==> met(all, i, far_square(p, q)));
        assert(met(all, k, near_square(p, q)) ==> met(all, i, near_square(p, q)));
    }
}

/// Every edge of the cells of a mask is a side of at most two cells: the cells of a mask
/// pair into faces without ever meeting an edge a third time, so building the topology of
/// a mask's cells never fails with [`crate::error::MeshError::NonManifoldEdge`].
pub proof fn lemma_mask_cells_are_manifold(m: MaskModel, kinds: Seq<CellKind>)
    requires
        numbers_mask(m, kinds),
        4 * kinds.len() < usize::MAX,
    ensures
        forall|key: u64| #[trigger] key_count(kinds, key) <= 2,
        pair_cells(kinds).error is None,
{
    assert forall|key: u64| #[trigger] key_count(kinds, key) <= 2 by {
        if key_count(kinds, key) > 0 {
            lemma_key_count_witness(kinds, key);
            let (k, j) = choose|k: int, j: int|
                0 <= k < kinds.len() && 0 <= j < kinds[k].vertex_seq().len() && #[trigger] side_key(kinds[k], j) == key;
            lemma_side_positions(m, kinds, k, j);
            lemma_domain_corners_sides(m, k);
            let p = side_of(domain_corners(m, k), j).0;
            let q = side_of(domain_corners(m, k), j).1;
            assert forall|k2: int, j2: int|
                0 <= k2 < kinds.len() && 0 <= j2 < kinds[k2].vertex_seq().len() && #[trigger] side_key(kinds[k2], j2) == key
                    implies same_segment(side_of(domain_corners(m, k2), j2).0, side_of(domain_corners(m, k2), j2).1, p, q) by {
                lemma_same_key_same_segment(m, kinds, k2, j2, k, j);
            }
            lemma_key_count_squares(m, kinds, key, p, q, kinds.len() as int);
            assert(kinds.take(kinds.len() as int) == kinds);
        }
    }
    lemma_pair_cells_tracks(kinds);
}

} // verus!
