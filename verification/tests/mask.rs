//! Reading the mask: what is fluid, what is an obstacle, how the grid is refined or cut.

use wind_tunnel::error::MeshError;
use wind_tunnel::mask::{Mask, COMMENT, FLUID, SOLID};

#[test]
fn masque_minimal() {
    let m = Mask::parse("..\n.#\n").unwrap();
    assert_eq!((m.rows(), m.cols()), (2, 2));
    assert_eq!(m.fluid_count(), 3);
    assert!(m.is_fluid(0, 0));
    assert!(!m.is_fluid(1, 1));
}

#[test]
fn commentaires_et_lignes_vides_ignores() {
    let m = Mask::parse("% titre\n\n..\n..\n").unwrap();
    assert_eq!((m.rows(), m.cols()), (2, 2));
}

#[test]
fn hors_grille_n_est_pas_un_obstacle() {
    let m = Mask::parse(".#\n..\n").unwrap();
    assert!(!m.is_obstacle(-1, 0), "l'extérieur est le bord de la veine");
    assert!(!m.is_obstacle(0, 5));
    assert!(m.is_obstacle(0, 1));
    assert!(!m.is_obstacle(0, 0));
}

#[test]
fn the_three_characters_of_the_format() {
    assert_eq!((FLUID, SOLID, COMMENT), ('.', '#', '%'));
}

#[test]
fn outside_the_grid_is_not_fluid() {
    let m = Mask::parse("..\n..\n").unwrap();
    assert!(!m.is_fluid(2, 0));
    assert!(!m.is_fluid(0, 2));
    assert!(!m.is_obstacle(0, -1));
    assert!(!m.is_obstacle(2, 1));
}

#[test]
fn trailing_blanks_do_not_count() {
    let m = Mask::parse("..  \n..\t\n").unwrap();
    assert_eq!((m.rows(), m.cols()), (2, 2));
}

#[test]
fn a_comment_may_sit_between_rows() {
    let m = Mask::parse("...\n% au milieu\n.#.\n").unwrap();
    assert_eq!((m.rows(), m.cols()), (2, 3));
    assert!(m.is_obstacle(1, 1));
}

#[test]
fn crlf_line_endings_are_read() {
    let m = Mask::parse("..\r\n.#\r\n").unwrap();
    assert_eq!((m.rows(), m.cols()), (2, 2));
    assert_eq!(m.fluid_count(), 3);
}

#[test]
fn a_diagonal_does_not_connect() {
    // two fluid cells touching by a corner only are two pieces
    assert!(Mask::parse(".#\n#.\n").is_err());
}

#[test]
fn an_obstacle_around_which_the_fluid_flows_keeps_it_whole() {
    let m = Mask::parse(".....\n.###.\n.....\n").unwrap();
    assert_eq!(m.fluid_count(), 12);
}

#[test]
fn refining_splits_each_cell() {
    let m = Mask::parse("..\n.#\n").unwrap();
    let r = m.refine(3);
    assert_eq!((r.rows(), r.cols()), (6, 6));
    assert_eq!(r.fluid_count(), 27);
    assert!(r.is_fluid(2, 2));
    assert!(!r.is_fluid(3, 3));
    assert!(!r.is_fluid(5, 5));
    assert!(r.is_fluid(5, 2));
}

#[test]
fn refining_by_one_changes_nothing() {
    let m = Mask::parse("...\n.#.\n").unwrap();
    let r = m.refine(1);
    assert_eq!((r.rows(), r.cols()), (2, 3));
    for row in 0..2 {
        for col in 0..3 {
            assert_eq!(r.is_fluid(row, col), m.is_fluid(row, col));
        }
    }
}

#[test]
fn a_slice_of_columns_keeps_its_rows() {
    let m = Mask::parse("....\n.##.\n....\n").unwrap();
    let s = m.columns(1..3);
    assert_eq!((s.rows(), s.cols()), (3, 2));
    assert!(s.is_fluid(0, 0));
    assert!(!s.is_fluid(1, 0));
    assert!(!s.is_fluid(1, 1));
    assert_eq!(s.fluid_count(), 4);
}

#[test]
fn a_cut_of_a_connected_mask_may_fall_apart() {
    // Connected through its second column; its first column alone is in two pieces.
    let m = Mask::parse("..\n#.\n..\n").unwrap();
    assert_eq!(m.check_connected(), Ok(()));
    let cut = m.columns(0..1);
    assert_eq!(cut.check_connected(), Err(MeshError::Disconnected { components: 2 }));
}
