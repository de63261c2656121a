//! Each way of getting the mask wrong gives its own error, saying what and where.

use wind_tunnel::error::{invalid_char_message, MeshError};
use wind_tunnel::mask::Mask;
use wind_tunnel::mesh::VertexId;

#[test]
fn inconsistent_line_length() {
    match Mask::parse("...\n..\n") {
        Err(MeshError::RaggedMask { line, expected, got }) => {
            assert_eq!((line, expected, got), (2, 3, 2));
        }
        other => panic!("attendu RaggedMask, obtenu {other:?}"),
    }
}

#[test]
fn unknown_character_is_located() {
    match Mask::parse("..\n.x\n") {
        Err(MeshError::InvalidChar { line, col, ch }) => {
            assert_eq!((line, col, ch), (2, 2, 'x'));
        }
        other => panic!("attendu InvalidChar, obtenu {other:?}"),
    }
}

#[test]
fn a_fully_solid_domain() {
    assert!(matches!(Mask::parse("###\n###\n"), Err(MeshError::EmptyDomain)));
}

#[test]
fn a_domain_split_in_two() {
    match Mask::parse("...\n###\n...\n") {
        Err(MeshError::Disconnected { components }) => assert_eq!(components, 2),
        other => panic!("attendu Disconnected, obtenu {other:?}"),
    }
}

#[test]
fn the_error_message_points_at_the_fault() {
    let err = Mask::parse("..\n.@\n").unwrap_err();
    let message = err.message();
    assert!(message.contains("ligne 2"), "message : {message}");
    assert!(message.contains("colonne 2"), "message : {message}");
}

#[test]
fn an_empty_text_has_no_fluid() {
    assert!(matches!(Mask::parse(""), Err(MeshError::EmptyDomain)));
    assert!(matches!(Mask::parse("% rien\n\n"), Err(MeshError::EmptyDomain)));
}

#[test]
fn line_numbers_count_comments_and_blank_lines() {
    match Mask::parse("% titre\n\n...\n..\n") {
        Err(MeshError::RaggedMask { line, expected, got }) => assert_eq!((line, expected, got), (4, 3, 2)),
        other => panic!("attendu RaggedMask, obtenu {other:?}"),
    }
}

#[test]
fn the_first_fault_in_file_order_wins() {
    // a bad character on line 1 is reported before the short line 2
    match Mask::parse(".?.\n..\n") {
        Err(MeshError::InvalidChar { line, col, ch }) => assert_eq!((line, col, ch), (1, 2, '?')),
        other => panic!("attendu InvalidChar, obtenu {other:?}"),
    }
}

#[test]
fn three_pieces_are_counted() {
    match Mask::parse(".#.#.\n.#.#.\n") {
        Err(MeshError::Disconnected { components }) => assert_eq!(components, 3),
        other => panic!("attendu Disconnected, obtenu {other:?}"),
    }
}

#[test]
fn every_message_carries_its_numbers() {
    assert_eq!(MeshError::EmptyDomain.message(), "le masque ne contient aucune cellule fluide");
    assert_eq!(
        MeshError::RaggedMask { line: 12, expected: 305, got: 7 }.message(),
        "ligne 12 : largeur 7, alors que la première ligne en annonce 305"
    );
    assert_eq!(
        MeshError::InvalidChar { line: 2, col: 10, ch: 'x' }.message(),
        "ligne 2, colonne 10 : caractère 'x' inattendu (attendu « . » ou « # »)"
    );
    assert_eq!(
        MeshError::Disconnected { components: 2 }.message(),
        "le domaine fluide compte 2 morceaux séparés ; il en faut exactement un"
    );
    assert_eq!(
        MeshError::BandsTooNarrow { cols: 10, parts: 5, halo: 3 }.message(),
        "10 colonnes en 5 bandes donnent des bandes de moins de 3 colonne(s) : \
         réduisez le nombre de rangs, ou raffinez le masque"
    );
    assert_eq!(
        MeshError::NonManifoldEdge { a: 0, b: 4294967295 }.message(),
        "l'arête (0, 4294967295) est partagée par plus de deux cellules"
    );
    assert_eq!(
        MeshError::ObstacleTouchesBoundary { vertex: VertexId(90) }.message(),
        "l'obstacle touche le bord du domaine au sommet 90 : \
         laissez un jeu d'au moins une cellule entre l'obstacle et le bord"
    );
}

#[test]
fn a_character_is_quoted_and_escaped() {
    let tab = MeshError::InvalidChar { line: 1, col: 1, ch: '\t' }.message();
    assert!(tab.contains("caractère '\\t' inattendu"), "{tab}");
    let quote = MeshError::InvalidChar { line: 1, col: 1, ch: '\'' }.message();
    assert!(quote.contains("caractère '\\'' inattendu"), "{quote}");
}

#[test]
fn the_unexpected_character_message_quotes_what_it_is_given() {
    assert_eq!(
        invalid_char_message(3, 7, "'\\t'"),
        "ligne 3, colonne 7 : caractère '\\t' inattendu (attendu « . » ou « # »)"
    );
}
