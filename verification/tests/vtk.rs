//! The connectivity sections of the VTK output.

use wind_tunnel::mask::Mask;
use wind_tunnel::mesh::MeshCells;
use wind_tunnel::topology::Topology;
use wind_tunnel::vtk::cell_sections;

fn cells_of(text: &str) -> Topology {
    Topology::new(MeshCells::from_mask(&Mask::parse(text).unwrap()), true).unwrap()
}

#[test]
fn the_cells_of_a_two_by_two_mask_are_written_with_their_vertices() {
    let mesh = cells_of("..\n..\n");
    assert_eq!(
        cell_sections(mesh.cells()),
        "CELLS 4 20\n4 0 1 2 3\n4 1 4 5 2\n4 6 7 1 0\n4 7 8 4 1\nCELL_TYPES 4\n9\n9\n9\n9\n"
    );
}

#[test]
fn a_chamfered_cell_is_written_as_a_triangle() {
    let mesh = cells_of("....\n.#..\n..#.\n....\n");
    let text = cell_sections(mesh.cells());
    let triangles = mesh.cells().iter().filter(|c| c.vertices().len() == 3).count();
    assert!(triangles > 0);
    let lines: Vec<&str> = text.lines().collect();
    let n = mesh.n_cells();
    assert_eq!(lines.len(), 2 * n + 2);
    assert_eq!(lines[n + 1], format!("CELL_TYPES {n}"));
    for (k, cell) in mesh.cells().iter().enumerate() {
        let expected = if cell.vertices().len() == 3 { "5" } else { "9" };
        assert_eq!(lines[n + 2 + k], expected);
        assert!(lines[1 + k].starts_with(&format!("{} ", cell.vertices().len())));
    }
}

#[test]
fn no_cells_give_empty_sections() {
    assert_eq!(cell_sections(&[]), "CELLS 0 0\nCELL_TYPES 0\n");
}
