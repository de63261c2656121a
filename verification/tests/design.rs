//! The connectivity miniature: typed identifiers, a two-way `Side`, neighbour queries.

use wind_tunnel::design::{neighbours, BoundaryKind, CellId, Face, Side, VertexId};

/// An inner face, between cells 7 and 9.
fn inner_face() -> Face {
    Face {
        a: VertexId(0),
        b: VertexId(1),
        left: CellId(7),
        right: Side::Inner(CellId(9)),
    }
}

/// A wall face, on the side of cell 7.
fn wall_face() -> Face {
    Face {
        a: VertexId(1),
        b: VertexId(2),
        left: CellId(7),
        right: Side::Boundary(BoundaryKind::Wall),
    }
}

#[test]
fn an_identifier_is_an_index() {
    assert_eq!(CellId(7).index(), 7usize);
    assert_eq!(VertexId(0).index(), 0usize);
}

#[test]
fn an_inner_face_links_its_two_cells() {
    let face = inner_face();
    assert!(!face.is_boundary());
    assert_eq!(face.neighbour(CellId(7)), Some(CellId(9)));
    assert_eq!(face.neighbour(CellId(9)), Some(CellId(7)));
}

#[test]
fn a_boundary_face_has_no_neighbour() {
    let face = wall_face();
    assert!(face.is_boundary());
    assert_eq!(face.neighbour(CellId(7)), None);
}

#[test]
fn a_face_ignores_a_cell_it_does_not_touch() {
    assert_eq!(inner_face().neighbour(CellId(42)), None);
}

#[test]
fn every_side_is_either_inner_or_boundary() {
    // No `_` arm: the match compiles only because `Side` has exactly two cases.
    for side in [Side::Inner(CellId(1)), Side::Boundary(BoundaryKind::Outlet)] {
        let described = match side {
            Side::Inner(id) => format!("cellule {}", id.index()),
            Side::Boundary(kind) => format!("bord {kind:?}"),
        };
        assert!(!described.is_empty());
    }
}

#[test]
fn boundary_kinds_are_distinct() {
    assert_ne!(BoundaryKind::Inlet, BoundaryKind::Outlet);
    assert_eq!(BoundaryKind::Wall, BoundaryKind::Wall);
}

#[test]
fn the_enum_costs_no_more_than_a_flag() {
    assert!(
        std::mem::size_of::<Side>() <= 8,
        "Side occupe {} octets",
        std::mem::size_of::<Side>()
    );
}

#[test]
fn the_neighbours_of_a_cell() {
    let faces = [inner_face(), wall_face()];
    assert_eq!(neighbours(&faces, CellId(7)), vec![CellId(9)]);
    assert_eq!(neighbours(&faces, CellId(9)), vec![CellId(7)]);
    assert!(neighbours(&faces, CellId(42)).is_empty());
    assert_eq!(faces.len(), 2);
}

#[test]
fn a_neighbour_leads_back() {
    let face = inner_face();
    let there = face.neighbour(CellId(7)).unwrap();
    assert_eq!(face.neighbour(there), Some(CellId(7)));
}

#[test]
fn neighbours_come_in_face_order() {
    let faces = [
        Face { a: VertexId(0), b: VertexId(1), left: CellId(2), right: Side::Inner(CellId(5)) },
        Face { a: VertexId(1), b: VertexId(2), left: CellId(3), right: Side::Inner(CellId(2)) },
        Face { a: VertexId(2), b: VertexId(3), left: CellId(2), right: Side::Boundary(BoundaryKind::Inlet) },
        Face { a: VertexId(3), b: VertexId(0), left: CellId(2), right: Side::Inner(CellId(1)) },
    ];
    assert_eq!(neighbours(&faces, CellId(2)), vec![CellId(5), CellId(3), CellId(1)]);
}
