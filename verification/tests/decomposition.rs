//! Splitting the domain into bands: who owns what, and in which order cells travel.

use wind_tunnel::decomposition::{pack, pack_into, unpack, Bands, Layout, HALO};
use wind_tunnel::error::MeshError;
use wind_tunnel::mask::Mask;
use wind_tunnel::mesh::{CellId, MeshCells};
use wind_tunnel::topology::Topology;

/// A test section with a rounded obstacle: it has chamfered corners, whose cells depend
/// on their neighbours.
const TUNNEL: &str = "\
% veine d'essai : un obstacle arrondi au milieu
........................
........................
..........###...........
.........#####..........
.........#####..........
..........###...........
........................
........................
";

fn mask() -> Mask {
    Mask::parse(TUNNEL).unwrap()
}

#[test]
fn bands_cover_every_column_exactly_once() {
    for (cols, parts) in [(12, 3), (10, 3), (10, 4), (7, 1), (9, 3), (100, 7)] {
        let bands = Bands::new(cols, parts, 1).unwrap();
        let mut next = 0;
        for part in 0..parts {
            let owned = bands.owned(part);
            assert_eq!(owned.start, next, "bande {part} de {cols} colonnes en {parts}");
            assert!(owned.end > owned.start, "bande {part} vide");
            next = owned.end;
        }
        assert_eq!(next, cols, "les bandes doivent couvrir tout le masque");
    }
}

#[test]
fn bands_narrower_than_the_halo_are_refused() {
    assert!(Bands::new(10, 5, 3).is_err(), "bandes de 2 colonnes, halo 3");
    assert!(Bands::new(10, 1, 3).is_ok(), "un seul rang n'a pas de halo");
}

#[test]
fn extended_bands_stay_inside_the_domain() {
    let bands = Bands::new(24, 3, HALO).unwrap();
    assert_eq!(bands.extended(0).start, 0, "pas de halo hors du domaine");
    assert_eq!(bands.extended(2).end, 24);
    assert_eq!(bands.extended(1), bands.owned(1).start - HALO..bands.owned(1).end + HALO);
}

#[test]
fn halo_send_recv_lists_match() {
    let mask = mask();
    let bands = Bands::new(mask.cols(), 3, HALO).unwrap();
    let layouts: Vec<Layout> = (0..3).map(|p| Layout::new(&mask, &bands, p)).collect();
    let globals: Vec<Vec<_>> = layouts.iter().map(|l| l.global_cells(&mask)).collect();

    for part in 0..2 {
        let (left, right) = (&layouts[part], &layouts[part + 1]);
        assert!(!left.send_right.is_empty(), "coupure {part} vide");
        let sent: Vec<_> = left.send_right.iter().map(|&c| globals[part][c.index()]).collect();
        let received: Vec<_> = right.recv_left.iter().map(|&c| globals[part + 1][c.index()]).collect();
        assert_eq!(sent, received, "coupure {part}, sens gauche → droite");

        let sent: Vec<_> = right.send_left.iter().map(|&c| globals[part + 1][c.index()]).collect();
        let received: Vec<_> = left.recv_right.iter().map(|&c| globals[part][c.index()]).collect();
        assert_eq!(sent, received, "coupure {part}, sens droite → gauche");
    }

    assert!(layouts[0].send_left.is_empty(), "le rang 0 n'a pas de voisin à gauche");
    assert!(layouts[0].recv_left.is_empty());
    assert!(layouts[2].send_right.is_empty(), "le dernier rang n'a pas de voisin à droite");
    assert!(layouts[2].recv_right.is_empty());
}

#[test]
fn every_cell_of_the_domain_is_owned_by_exactly_one_rank() {
    let mask = mask();
    let parts = 4;
    let bands = Bands::new(mask.cols(), parts, HALO).unwrap();
    let mesh = Topology::new(MeshCells::from_mask(&mask), true).unwrap();

    let mut owner = vec![usize::MAX; mesh.n_cells()];
    for part in 0..parts {
        let layout = Layout::new(&mask, &bands, part);
        let globals = layout.global_cells(&mask);
        for &local in &layout.owned {
            let global = globals[local.index()];
            assert_eq!(owner[global.index()], usize::MAX, "cellule possédée deux fois");
            owner[global.index()] = part;
        }
    }
    assert!(owner.iter().all(|&o| o != usize::MAX), "cellule sans propriétaire");
}

#[test]
fn bands_are_as_even_as_possible() {
    let bands = Bands::new(10, 3, 1).unwrap();
    assert_eq!((bands.owned(0), bands.owned(1), bands.owned(2)), (0..4, 4..7, 7..10));
    assert_eq!((bands.cols(), bands.parts(), bands.halo()), (10, 3, 1));
}

#[test]
fn refused_splits_say_why() {
    assert_eq!(Bands::new(10, 5, 3).unwrap_err(), MeshError::BandsTooNarrow { cols: 10, parts: 5, halo: 3 });
    assert_eq!(Bands::new(0, 2, 1).unwrap_err(), MeshError::EmptyDomain);
    assert_eq!(Bands::new(5, 0, 1).unwrap_err(), MeshError::EmptyDomain);
}

#[test]
fn neighbour_ranks() {
    let mask = mask();
    let bands = Bands::new(mask.cols(), 3, HALO).unwrap();
    let first = Layout::new(&mask, &bands, 0);
    let middle = Layout::new(&mask, &bands, 1);
    let last = Layout::new(&mask, &bands, 2);
    assert_eq!((first.left(), first.right()), (None, Some(1)));
    assert_eq!((middle.left(), middle.right()), (Some(0), Some(2)));
    assert_eq!((last.left(), last.right()), (Some(1), None));
}

#[test]
fn a_single_band_is_the_whole_domain() {
    let mask = mask();
    let bands = Bands::new(mask.cols(), 1, HALO).unwrap();
    let layout = Layout::new(&mask, &bands, 0);
    assert_eq!(layout.extended, 0..mask.cols());
    assert_eq!(layout.owned.len(), mask.fluid_count());
    assert!(layout.send_left.is_empty() && layout.send_right.is_empty());
    let globals = layout.global_cells(&mask);
    let expected: Vec<CellId> = (0..mask.fluid_count() as u32).map(CellId).collect();
    assert_eq!(globals, expected);
}

#[test]
fn a_halo_is_as_wide_as_asked() {
    // 24 columns, 3 bands of 8: rank 1 receives 3 columns on each side
    let mask = mask();
    let bands = Bands::new(mask.cols(), 3, HALO).unwrap();
    let layout = Layout::new(&mask, &bands, 1);
    assert_eq!(layout.extended, 5..19);
    // columns 5..8 and 16..19 hold 8 rows of fluid each
    assert_eq!(layout.recv_left.len(), 3 * 8);
    assert_eq!(layout.recv_right.len(), 3 * 8);
}

#[test]
fn pack_reads_the_cells_in_the_given_order() {
    let values = [10.0, 11.0, 12.0, 13.0];
    assert_eq!(pack(&values, &[CellId(3), CellId(0), CellId(3)]), vec![13.0, 10.0, 13.0]);
    assert!(pack(&values, &[]).is_empty());
}

#[test]
fn pack_into_empties_the_buffer_first() {
    let values = [1u32, 2, 3];
    let mut out = vec![7, 7, 7, 7, 7];
    pack_into(&values, &[CellId(2), CellId(1)], &mut out);
    assert_eq!(out, vec![3, 2]);
}

#[test]
fn unpack_writes_only_the_given_cells_and_the_last_write_wins() {
    let mut values = vec![0.0; 5];
    unpack(&mut values, &[CellId(4), CellId(1)], &[4.5, 1.5]);
    assert_eq!(values, vec![0.0, 1.5, 0.0, 0.0, 4.5]);
    unpack(&mut values, &[CellId(2), CellId(2)], &[8.0, 9.0]);
    assert_eq!(values, vec![0.0, 1.5, 9.0, 0.0, 4.5]);
}

#[test]
fn unpacking_what_was_packed_changes_nothing() {
    let mut values = vec![3, 1, 4, 1, 5, 9];
    let ids = [CellId(5), CellId(0), CellId(2)];
    let sent = pack(&values, &ids);
    unpack(&mut values, &ids, &sent);
    assert_eq!(values, vec![3, 1, 4, 1, 5, 9]);
}

#[test]
fn an_exchange_fills_each_ghost_cell_with_its_owner_value() {
    // Each rank's field holds, in every cell, the global number of that cell: the
    // owned cells are right, the ghost cells are left at a sentinel before the exchange.
    let mask = mask();
    let bands = Bands::new(mask.cols(), 3, HALO).unwrap();
    let layouts: Vec<Layout> = (0..3).map(|p| Layout::new(&mask, &bands, p)).collect();
    let globals: Vec<Vec<CellId>> = layouts.iter().map(|l| l.global_cells(&mask)).collect();
    let mut fields: Vec<Vec<u32>> = layouts
        .iter()
        .zip(&globals)
        .map(|(layout, global)| {
            let mut field = vec![u32::MAX; global.len()];
            for &id in &layout.owned {
                field[id.index()] = global[id.index()].0;
            }
            field
        })
        .collect();
    for part in 0..2 {
        let to_right = pack(&fields[part], &layouts[part].send_right);
        let to_left = pack(&fields[part + 1], &layouts[part + 1].send_left);
        unpack(&mut fields[part + 1], &layouts[part + 1].recv_left, &to_right);
        unpack(&mut fields[part], &layouts[part].recv_right, &to_left);
    }
    for part in 0..3 {
        for (k, value) in fields[part].iter().enumerate() {
            assert_eq!(*value, globals[part][k].0, "rang {part}, cellule locale {k}");
        }
    }
}

/// The square `(row, col)` of a cell: the smallest row and column among its corners.
fn square_of(cells: &MeshCells, k: usize) -> (usize, usize) {
    let corners: Vec<(usize, usize)> = cells.cells()[k].vertices().iter().map(|v| cells.vertices()[v.index()]).collect();
    (corners.iter().map(|p| p.0).min().unwrap(), corners.iter().map(|p| p.1).min().unwrap())
}

#[test]
fn the_band_mesh_numbers_its_cells_as_the_layout_does() {
    let mask = mask();
    let whole = MeshCells::from_mask(&mask);
    let bands = Bands::new(mask.cols(), 3, HALO).unwrap();
    for part in 0..3 {
        let layout = Layout::new(&mask, &bands, part);
        let start = layout.extended.start;
        let local = MeshCells::from_mask(&mask.columns(layout.extended.clone()));
        let globals = layout.global_cells(&mask);
        assert_eq!(local.cells().len(), globals.len(), "rang {part}");
        for (k, g) in globals.iter().enumerate() {
            let (row, col) = square_of(&local, k);
            assert_eq!((row, col + start), square_of(&whole, g.index()), "rang {part}, cellule locale {k}");
        }
    }
}

#[test]
fn bands_are_as_equal_as_possible_the_wider_first() {
    for (cols, parts) in [(12, 3), (10, 3), (10, 4), (7, 1), (9, 3), (100, 7)] {
        let bands = Bands::new(cols, parts, 1).unwrap();
        let widths: Vec<usize> = (0..parts).map(|p| bands.owned(p).len()).collect();
        assert!(widths.windows(2).all(|w| w[0] >= w[1]), "{cols} colonnes en {parts} : {widths:?}");
        assert!(widths[0] - widths[parts - 1] <= 1, "{cols} colonnes en {parts} : {widths:?}");
    }
    let bands = Bands::new(10, 4, 1).unwrap();
    assert_eq!((0..4).map(|p| bands.owned(p).len()).collect::<Vec<_>>(), vec![3, 3, 2, 2]);
}
