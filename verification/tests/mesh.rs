//! The mesh topology built from a mask: cells, faces, connectivity, boundary groups.
//!
//! The checks on a whole test section run on a drawn-in one with a rounded obstacle,
//! which has every feature a domain can have: chamfered corners, and the four kinds of
//! boundary.

use std::collections::HashMap;

use wind_tunnel::error::MeshError;
use wind_tunnel::mask::Mask;
use wind_tunnel::mesh::{BoundaryKind, CellId, CellKind, FaceId, MeshCells, Side, VertexId};
use wind_tunnel::topology::Topology;

/// A test section with a rounded obstacle, clear of the walls.
const TUNNEL: &str = "\
% veine d'essai : un obstacle arrondi au milieu
........................
........................
..........###...........
.........#####..........
.........#####..........
..........###...........
........................
........................
";

fn topology_of(text: &str) -> Topology {
    let mask = Mask::parse(text).unwrap();
    Topology::new(MeshCells::from_mask(&mask), true).unwrap()
}

fn tunnel() -> (Mask, Topology) {
    let mask = Mask::parse(TUNNEL).unwrap();
    let mesh = Topology::new(MeshCells::from_mask(&mask), true).unwrap();
    (mask, mesh)
}

/// Area of a cell for cells of side `h`, the top row of vertices being at `y = rows * h`.
fn cell_area(mesh: &Topology, kind: &CellKind, rows: usize, h: f64) -> f64 {
    let points: Vec<(f64, f64)> = kind
        .vertices()
        .iter()
        .map(|v| {
            let (r, c) = mesh.vertices()[v.index()];
            (c as f64 * h, (rows - r) as f64 * h)
        })
        .collect();
    let n = points.len();
    let mut twice = 0.0;
    for k in 0..n {
        let (x0, y0) = points[k];
        let (x1, y1) = points[(k + 1) % n];
        twice += x0 * y1 - x1 * y0;
    }
    twice / 2.0
}

fn total_area(mesh: &Topology, rows: usize, h: f64) -> f64 {
    mesh.cells().iter().map(|k| cell_area(mesh, k, rows, h)).sum()
}

/// `normal × length` of a face, outgoing from its left cell, in grid units (`x = col`,
/// `y = -row`): the side vector turned clockwise.
fn scaled_normal(mesh: &Topology, a: VertexId, b: VertexId) -> (i64, i64) {
    let (ra, ca) = mesh.vertices()[a.index()];
    let (rb, cb) = mesh.vertices()[b.index()];
    let (dx, dy) = (cb as i64 - ca as i64, ra as i64 - rb as i64);
    (dy, -dx)
}

fn normals_sum_to_zero(mesh: &Topology) {
    for i in 0..mesh.n_cells() {
        let id = CellId(i as u32);
        let mut sum = (0i64, 0i64);
        for &fid in mesh.cell_faces(id) {
            let f = mesh.face(fid);
            let (nx, ny) = scaled_normal(mesh, f.a, f.b);
            let sign = if f.left == id { 1 } else { -1 };
            sum = (sum.0 + sign * nx, sum.1 + sign * ny);
        }
        assert_eq!(sum, (0, 0), "cellule {i}");
    }
}

fn connectivity_symmetric(mesh: &Topology) {
    for i in 0..mesh.n_cells() {
        let id = CellId(i as u32);
        for &fid in mesh.cell_faces(id) {
            let face = mesh.face(fid);
            let other = match face.right {
                Side::Inner(c) if face.left == id => c,
                Side::Inner(_) => face.left,
                Side::Boundary(_) => continue,
            };
            assert!(
                mesh.cell_faces(other).contains(&fid),
                "la face {} manque chez la cellule {}",
                fid.index(),
                other.index()
            );
        }
    }
}

fn edges_seen_once_or_twice(mesh: &Topology) {
    let mut count: HashMap<(u32, u32), usize> = HashMap::new();
    for cell in mesh.cells() {
        let vertices = cell.vertices();
        for (k, &a) in vertices.iter().enumerate() {
            let b = vertices[(k + 1) % vertices.len()];
            let key = if a.0 < b.0 { (a.0, b.0) } else { (b.0, a.0) };
            *count.entry(key).or_default() += 1;
        }
    }
    assert!(count.values().all(|&n| n == 1 || n == 2));
    assert_eq!(count.len(), mesh.n_faces());
    let inner = mesh.faces().iter().filter(|f| !f.is_boundary()).count();
    assert_eq!(inner, count.values().filter(|&&n| n == 2).count());
}

fn groups_populated(mesh: &Topology) {
    let kinds = [BoundaryKind::Inlet, BoundaryKind::Outlet, BoundaryKind::Wall, BoundaryKind::Obstacle];
    for kind in kinds {
        assert!(!mesh.group(kind).is_empty(), "groupe {kind:?} vide");
    }
    let boundary: usize = kinds.iter().map(|&k| mesh.group(k).len()).sum();
    assert_eq!(boundary, mesh.faces().iter().filter(|f| f.is_boundary()).count());
}

#[test]
fn mesh_of_a_two_by_two_mask() {
    let m = topology_of("..\n..\n");
    assert_eq!(m.n_cells(), 4);
    assert_eq!(m.n_faces(), 12); // 4 cells × 4 edges − 4 shared inner edges
    assert!((total_area(&m, 2, 1.0) - 4.0).abs() < 1e-12);
}

#[test]
fn chamfer_produces_a_triangle() {
    // the bottom right corner of cell (0,0) sits between two walls
    let m = topology_of(".#\n##\n");
    let (tri, quad) = m.shape_counts();
    assert_eq!((tri, quad), (1, 0));
    assert!((total_area(&m, 2, 1.0) - 0.5).abs() < 1e-12);
}

#[test]
fn obstacle_touching_the_boundary_is_rejected() {
    let m = topology_of(".#\n##\n");
    assert!(m.check_obstacle_clear_of_boundary().is_err());
}

#[test]
fn obstacle_clear_of_the_boundary_is_accepted() {
    let m = topology_of("....\n..#.\n.##.\n....\n");
    assert!(m.check_obstacle_clear_of_boundary().is_ok());
}

#[test]
fn inner_faces_are_shared_by_two_cells() {
    let m = topology_of("...\n...\n");
    let inner = m.faces().iter().filter(|f| !f.is_boundary()).count();
    assert_eq!(inner, 7); // 2 rows × 2 verticals + 3 horizontals
}

#[test]
fn mesh_oriented_normals_sum_to_zero() {
    normals_sum_to_zero(&topology_of("...\n.#.\n...\n"));
}

#[test]
fn boundary_groups_are_classified() {
    let m = topology_of("...\n.#.\n...\n");
    assert_eq!(m.group(BoundaryKind::Inlet).len(), 3);
    assert_eq!(m.group(BoundaryKind::Outlet).len(), 3);
    assert_eq!(m.group(BoundaryKind::Wall).len(), 6);
    assert_eq!(m.group(BoundaryKind::Obstacle).len(), 4);
}

#[test]
fn total_area_matches_the_mask() {
    let (mask, mesh) = tunnel();
    let h = 0.25;
    let (tri, _) = mesh.shape_counts();
    let expected = mask.fluid_count() as f64 * h * h - tri as f64 * h * h / 2.0;
    let area = total_area(&mesh, mask.rows(), h);
    assert!((area - expected).abs() < 1e-9, "aire {area} ≠ {expected}");
}

#[test]
fn the_mesh_is_mixed() {
    let (_, mesh) = tunnel();
    let (tri, quad) = mesh.shape_counts();
    assert!(tri > 0, "aucun triangle : le chanfreinage ne s'applique pas");
    assert!(quad > tri, "le cas courant doit rester le quadrangle");
    assert_eq!(tri + quad, mesh.n_cells());
}

#[test]
fn each_edge_is_seen_once_or_twice() {
    edges_seen_once_or_twice(&tunnel().1);
}

#[test]
fn oriented_normals_sum_to_zero() {
    normals_sum_to_zero(&tunnel().1);
}

#[test]
fn connectivity_is_symmetric() {
    connectivity_symmetric(&tunnel().1);
}

#[test]
fn every_boundary_group_is_populated() {
    groups_populated(&tunnel().1);
}

#[test]
fn l_aire_totale_correspond_au_masque() {
    let (mask, mesh) = tunnel();
    let h = 0.25;
    let (tri, _) = mesh.shape_counts();
    let attendu = mask.fluid_count() as f64 * h * h - tri as f64 * h * h / 2.0;
    assert!((total_area(&mesh, mask.rows(), h) - attendu).abs() < 1e-9);
}

#[test]
fn le_maillage_est_mixte() {
    let (_, mesh) = tunnel();
    let (tri, quad) = mesh.shape_counts();
    assert!(tri > 0);
    assert!(quad > tri);
    assert_eq!(tri + quad, mesh.n_cells());
}

#[test]
fn chaque_arete_est_vue_une_ou_deux_fois() {
    edges_seen_once_or_twice(&tunnel().1);
}

#[test]
fn la_somme_des_normales_orientees_est_nulle() {
    normals_sum_to_zero(&tunnel().1);
}

#[test]
fn la_connectivite_est_symetrique() {
    connectivity_symmetric(&tunnel().1);
}

#[test]
fn tous_les_groupes_de_bord_sont_peuples() {
    groups_populated(&tunnel().1);
}

#[test]
fn one_cell_per_fluid_cell() {
    let (mask, mesh) = tunnel();
    assert_eq!(mesh.n_cells(), mask.fluid_count());
}

#[test]
fn a_single_cell_is_a_square_with_four_boundary_faces() {
    let m = topology_of(".\n");
    assert_eq!((m.n_vertices(), m.n_cells(), m.n_faces()), (4, 1, 4));
    assert_eq!(m.cell(CellId(0)).vertices(), &[VertexId(0), VertexId(1), VertexId(2), VertexId(3)]);
    assert_eq!(m.vertices(), &[(1, 0), (1, 1), (0, 1), (0, 0)]);
    assert_eq!(m.cell(CellId(0)).vtk_code(), 9);
    assert_eq!(m.cell_faces(CellId(0)), &[FaceId(0), FaceId(1), FaceId(2), FaceId(3)]);
    // bottom, right, top, left
    assert_eq!(m.face(FaceId(0)).right, Side::Boundary(BoundaryKind::Wall));
    assert_eq!(m.face(FaceId(1)).right, Side::Boundary(BoundaryKind::Outlet));
    assert_eq!(m.face(FaceId(2)).right, Side::Boundary(BoundaryKind::Wall));
    assert_eq!(m.face(FaceId(3)).right, Side::Boundary(BoundaryKind::Inlet));
}

#[test]
fn columns_laid_right_to_left_swap_inlet_and_outlet() {
    let mask = Mask::parse(".\n").unwrap();
    let m = Topology::new(MeshCells::from_mask(&mask), false).unwrap();
    assert_eq!(m.group(BoundaryKind::Inlet), &[FaceId(1)]);
    assert_eq!(m.group(BoundaryKind::Outlet), &[FaceId(3)]);
}

#[test]
fn the_chamfer_takes_the_corner_between_the_walls() {
    let m = topology_of(".#\n##\n");
    match m.cell(CellId(0)) {
        // bottom left, top right, top left: the bottom right corner is gone
        CellKind::Tri(v) => {
            let points: Vec<(usize, usize)> = v.iter().map(|x| m.vertices()[x.index()]).collect();
            assert_eq!(points, vec![(1, 0), (0, 1), (0, 0)]);
        }
        CellKind::Quad(_) => panic!("un triangle était attendu"),
    }
    assert_eq!(m.cell(CellId(0)).vtk_code(), 5);
}

#[test]
fn a_cell_lists_its_faces_in_face_order() {
    let m = topology_of("..\n");
    // cell 0: bottom, shared side, top, left; cell 1: bottom, right, top, shared side
    assert_eq!(m.cell_faces(CellId(0)), &[FaceId(0), FaceId(1), FaceId(2), FaceId(3)]);
    assert_eq!(m.cell_faces(CellId(1)), &[FaceId(1), FaceId(4), FaceId(5), FaceId(6)]);
    assert_eq!(m.face(FaceId(1)).right, Side::Inner(CellId(1)));
    assert_eq!(m.face(FaceId(1)).neighbor(), Some(CellId(1)));
}

#[test]
fn an_empty_cell_list_is_an_empty_domain() {
    // a mask can only be built with fluid, so the topology sees an empty list through a
    // slice of no column
    let mask = Mask::parse("..\n").unwrap().columns(1..1);
    assert!(matches!(Topology::new(MeshCells::from_mask(&mask), true), Err(MeshError::EmptyDomain)));
}

#[test]
fn the_reported_vertex_is_on_both_the_obstacle_and_the_edge() {
    let m = topology_of("..\n.#\n");
    match m.check_obstacle_clear_of_boundary() {
        Err(MeshError::ObstacleTouchesBoundary { vertex }) => {
            let walls: Vec<FaceId> = [BoundaryKind::Inlet, BoundaryKind::Outlet, BoundaryKind::Wall]
                .iter()
                .flat_map(|&k| m.group(k).to_vec())
                .collect();
            assert!(walls.iter().any(|&f| m.face(f).a == vertex || m.face(f).b == vertex));
            assert!(m.group(BoundaryKind::Obstacle).iter().any(|&f| m.face(f).a == vertex || m.face(f).b == vertex));
        }
        other => panic!("attendu ObstacleTouchesBoundary, obtenu {other:?}"),
    }
}

#[test]
fn each_face_is_listed_once_or_twice_in_all() {
    let (_, mesh) = tunnel();
    let listed: usize = (0..mesh.n_cells()).map(|i| mesh.cell_faces(CellId(i as u32)).len()).sum();
    let inner = mesh.faces().iter().filter(|f| !f.is_boundary()).count();
    assert_eq!(listed, mesh.n_faces() + inner);
}

#[test]
fn every_face_runs_along_its_left_cell_counterclockwise() {
    let (_, mesh) = tunnel();
    for f in mesh.faces() {
        let v = mesh.cell(f.left).vertices().to_vec();
        let n = v.len();
        assert!((0..n).any(|j| v[j] == f.a && v[(j + 1) % n] == f.b));
    }
}

#[test]
fn every_cell_has_positive_area() {
    let (mask, mesh) = tunnel();
    for kind in mesh.cells() {
        let a = cell_area(&mesh, kind, mask.rows(), 1.0);
        let expected = if matches!(kind, CellKind::Tri(_)) { 0.5 } else { 1.0 };
        assert_eq!(a, expected);
    }
}

#[test]
fn cells_meeting_at_a_corner_only_still_pair_cleanly() {
    // Two obstacles meeting by a corner: the two fluid cells facing that corner are both
    // chamfered, and every edge is still a side of one or two cells.
    let m = topology_of("....\n.#..\n..#.\n....\n");
    edges_seen_once_or_twice(&m);
    assert_eq!(m.n_cells(), 14);
    let triangles = m.cells().iter().filter(|c| matches!(c, CellKind::Tri(_))).count();
    assert_eq!(triangles, 2);
}

#[test]
fn the_vertex_graph_of_a_two_by_two_mask() {
    let m = topology_of("..\n..\n");
    let (offsets, neighbours, faces) = m.vertex_adjacency();
    // Only the centre vertex has four inner faces; the four inner faces each reach it.
    assert_eq!(offsets, vec![0, 1, 5, 6, 6, 7, 7, 7, 8, 8]);
    assert_eq!(neighbours[1..5].to_vec(), vec![VertexId(0), VertexId(2), VertexId(4), VertexId(7)]);
    assert_eq!(faces[1..5].to_vec(), vec![FaceId(0), FaceId(1), FaceId(4), FaceId(8)]);
}

#[test]
fn each_inner_face_joins_its_two_vertices_in_the_vertex_graph() {
    let (_, m) = tunnel();
    let (offsets, neighbours, faces) = m.vertex_adjacency();
    let inner = m.faces().iter().filter(|f| !f.is_boundary()).count();
    assert_eq!(faces.len(), 2 * inner);
    assert_eq!(neighbours.len(), faces.len());
    assert_eq!(offsets.len(), m.n_vertices() + 1);
    for v in 0..m.n_vertices() {
        let row = offsets[v]..offsets[v + 1];
        assert!(faces[row.clone()].windows(2).all(|w| w[0].0 < w[1].0), "rangée {v} hors d'ordre");
        for s in row {
            let face = m.face(faces[s]);
            assert!(!face.is_boundary());
            let (a, b) = (face.a.index(), face.b.index());
            assert!(a == v || b == v);
            let other = if a == v { face.b } else { face.a };
            assert_eq!(neighbours[s], other);
            // The way back: the same face, at the other end, leads to `v`.
            let w = other.index();
            let back = (offsets[w]..offsets[w + 1]).find(|&t| faces[t] == faces[s]).expect("arête sans retour");
            assert_eq!(neighbours[back].index(), v);
        }
    }
}

#[test]
fn an_inner_face_joins_two_distinct_cells_that_both_have_its_edge() {
    let (_, m) = tunnel();
    let has_edge = |c: CellId, a: VertexId, b: VertexId| {
        let v = m.cells()[c.index()].vertices();
        (0..v.len()).any(|j| {
            let (p, q) = (v[j], v[(j + 1) % v.len()]);
            (p, q) == (a, b) || (p, q) == (b, a)
        })
    };
    for face in m.faces() {
        assert!(has_edge(face.left, face.a, face.b));
        if let Side::Inner(right) = face.right {
            assert_ne!(right, face.left);
            assert!(has_edge(right, face.a, face.b));
        }
    }
    for c in 0..m.n_cells() {
        let row = m.cell_faces(CellId(c as u32));
        assert!(row.windows(2).all(|w| w[0].0 < w[1].0), "cellule {c}");
    }
}
