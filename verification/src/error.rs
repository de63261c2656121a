//! What can go wrong between the mask text and the mesh topology.
//!
//! Each variant carries what is needed to diagnose the fault without reading the code:
//! a line number, a column, a count.

use vstd::prelude::*;

use crate::mesh::VertexId;

verus! {

/// What can fail between the mask file and the built mesh topology.
#[derive(Clone, Copy, Debug, PartialEq, Eq, Structural)]
pub enum MeshError {
    /// The mask holds no fluid cell.
    EmptyDomain,
    /// Two lines of the mask do not have the same width.
    RaggedMask {
        /// Line number (from 1) in the file.
        line: usize,
        /// Expected width, set by the first content line.
        expected: usize,
        /// Width actually read.
        got: usize,
    },
    /// The mask holds a character that is neither fluid nor solid.
    InvalidChar {
        /// Line number (from 1) in the file.
        line: usize,
        /// Column number (from 1).
        col: usize,
        /// The offending character.
        ch: char,
    },
    /// The fluid domain is made of several pieces.
    Disconnected {
        /// Number of connected components found.
        components: usize,
    },
    /// The requested split into bands would give bands narrower than the halo.
    BandsTooNarrow {
        /// Number of columns of the mask.
        cols: usize,
        /// Requested number of bands.
        parts: usize,
        /// Halo width, in columns.
        halo: usize,
    },
    /// An edge is shared by more than two cells: the mesh is not a surface.
    NonManifoldEdge {
        /// First vertex of the edge.
        a: u32,
        /// Second vertex of the edge.
        b: u32,
    },
    /// An obstacle touches the domain boundary at this vertex.
    ObstacleTouchesBoundary {
        /// The shared vertex.
        vertex: VertexId,
    },
}

/// The character for digit `d` (`d < 10`).
pub open spec fn digit_char(d: nat) -> char {
    (48 + d) as char
}

/// Decimal writing of `n`, without leading zeros.
pub open spec fn decimal(n: nat) -> Seq<char>
    decreases n,
{
    if n < 10 {
        seq![digit_char(n)]
    } else {
        decimal(n / 10).push(digit_char(n % 10))
    }
}

/// What `{:?}` writes for a character: the character between single quotes, escaped.
pub uninterp spec fn debug_char(c: char) -> Seq<char>;

/// Writes `c` as `{:?}` does.
///
/// Calls std's `Debug` formatting of `char`; its result is named, not stated.
#[verifier::external_body]
fn char_debug(c: char) -> (r: String)
    ensures
        r@ == debug_char(c),
{
    format!("{c:?}")
}

/// Appends the decimal writing of `n`.
pub(crate) fn push_decimal(s: &mut String, n: usize)
    ensures
        final(s)@ == old(s)@ + decimal(n as nat),
    decreases n,
{
    if n >= 10 {
        push_decimal(s, n / 10);
    }
    let d = n % 10;
    let digit = if d == 0 {
        "0"
    } else if d == 1 {
        "1"
    } else if d == 2 {
        "2"
    } else if d == 3 {
        "3"
    } else if d == 4 {
        "4"
    } else if d == 5 {
        "5"
    } else if d == 6 {
        "6"
    } else if d == 7 {
        "7"
    } else if d == 8 {
        "8"
    } else {
        "9"
    };
    proof {
        reveal_strlit("0");
        reveal_strlit("1");
        reveal_strlit("2");
        reveal_strlit("3");
        reveal_strlit("4");
        reveal_strlit("5");
        reveal_strlit("6");
        reveal_strlit("7");
        reveal_strlit("8");
        reveal_strlit("9");
        assert(digit@ =~= seq![digit_char(d as nat)]);
    }
    s.append(digit);
    proof {
        if n >= 10 {
            assert(decimal(n as nat) == decimal((n / 10) as nat).push(digit_char(d as nat)));
        }
    }
    assert(s@ =~= old(s)@ + decimal(n as nat));
}

/// The message of an unexpected character at `line`, `col`, the character being written
/// as `quoted`.
pub open spec fn invalid_char_text(line: nat, col: nat, quoted: Seq<char>) -> Seq<char> {
    "ligne "@ + decimal(line) + ", colonne "@ + decimal(col) + " : caractère "@ + quoted
        + " inattendu (attendu « . » ou « # »)"@
}

/// The message of an unexpected character at `line`, `col`, given the character as
/// `{:?}` writes it.
pub fn invalid_char_message(line: usize, col: usize, quoted: &str) -> (r: String)
    ensures
        r@ == invalid_char_text(line as nat, col as nat, quoted@),
{
    let mut s = String::from_str("ligne ");
    push_decimal(&mut s, line);
    s.append(", colonne ");
    push_decimal(&mut s, col);
    s.append(" : caractère ");
    s.append(quoted);
    s.append(" inattendu (attendu « . » ou « # »)");
    s
}

/// The message of an error, in French, as the program prints it.
pub open spec fn message_of(e: MeshError) -> Seq<char> {
    match e {
        MeshError::EmptyDomain => "le masque ne contient aucune cellule fluide"@,
        MeshError::RaggedMask { line, expected, got } => "ligne "@ + decimal(line as nat) + " : largeur "@ + decimal(
            got as nat,
        ) + ", alors que la première ligne en annonce "@ + decimal(expected as nat),
        MeshError::InvalidChar { line, col, ch } => invalid_char_text(line as nat, col as nat, debug_char(ch)),
        MeshError::BandsTooNarrow { cols, parts, halo } => decimal(cols as nat) + " colonnes en "@ + decimal(parts as nat)
            + " bandes donnent des bandes de moins de "@ + decimal(halo as nat)
            + " colonne(s) : réduisez le nombre de rangs, ou raffinez le masque"@,
        MeshError::Disconnected { components } => "le domaine fluide compte "@ + decimal(components as nat)
            + " morceaux séparés ; il en faut exactement un"@,
        MeshError::NonManifoldEdge { a, b } => "l'arête ("@ + decimal(a as nat) + ", "@ + decimal(b as nat)
            + ") est partagée par plus de deux cellules"@,
        MeshError::ObstacleTouchesBoundary { vertex } => "l'obstacle touche le bord du domaine au sommet "@ + decimal(
            vertex.0 as nat,
        ) + " : laissez un jeu d'au moins une cellule entre l'obstacle et le bord"@,
    }
}

impl MeshError {
    /// The message of the error, which says what is wrong and where.
    pub fn message(&self) -> (r: String)
        ensures
            r@ == message_of(*self),
    {
        match *self {
            MeshError::EmptyDomain => String::from_str("le masque ne contient aucune cellule fluide"),
            MeshError::RaggedMask { line, expected, got } => {
                let mut s = String::from_str("ligne ");
                push_decimal(&mut s, line);
                s.append(" : largeur ");
                push_decimal(&mut s, got);
                s.append(", alors que la première ligne en annonce ");
                push_decimal(&mut s, expected);
                s
            },
            MeshError::InvalidChar { line, col, ch } => {
                let quoted = char_debug(ch);
                invalid_char_message(line, col, quoted.as_str())
            },
            MeshError::BandsTooNarrow { cols, parts, halo } => {
                let mut s = String::new();
                push_decimal(&mut s, cols);
                s.append(" colonnes en ");
                push_decimal(&mut s, parts);
                s.append(" bandes donnent des bandes de moins de ");
                push_decimal(&mut s, halo);
                s.append(" colonne(s) : réduisez le nombre de rangs, ou raffinez le masque");
                s
            },
            MeshError::Disconnected { components } => {
                let mut s = String::from_str("le domaine fluide compte ");
                push_decimal(&mut s, components);
                s.append(" morceaux séparés ; il en faut exactement un");
                s
            },
            MeshError::NonManifoldEdge { a, b } => {
                let mut s = String::from_str("l'arête (");
                push_decimal(&mut s, a as usize);
                s.append(", ");
                push_decimal(&mut s, b as usize);
                s.append(") est partagée par plus de deux cellules");
                s
            },
            MeshError::ObstacleTouchesBoundary { vertex } => {
                let mut s = String::from_str("l'obstacle touche le bord du domaine au sommet ");
                push_decimal(&mut s, vertex.index());
                s.append(" : laissez un jeu d'au moins une cellule entre l'obstacle et le bord");
                s
            },
        }
    }
}

} // verus!
