//! The connectivity sections of a VTK legacy ASCII file (`UNSTRUCTURED_GRID`): each cell
//! as its vertex count followed by its vertex numbers, then each cell's type code.
//!
//! These are the integer parts of the file; the points and the field values, written
//! with floating-point numbers, are written around them by the program.

use vstd::prelude::*;

use crate::error::{decimal, push_decimal};
use crate::mesh::{CellKind, VertexId};

verus! {

/// ` v0 v1 …`: each vertex number, after a space.
pub open spec fn vertex_numbers(vs: Seq<VertexId>) -> Seq<char>
    decreases vs.len(),
{
    if vs.len() == 0 {
        Seq::empty()
    } else {
        vertex_numbers(vs.drop_last()) + " "@ + decimal(vs.last().0 as nat)
    }
}

/// The line of one cell: its vertex count, then its vertex numbers.
pub open spec fn cell_line(kind: CellKind) -> Seq<char> {
    decimal(kind.vertex_seq().len()) + vertex_numbers(kind.vertex_seq()) + "\n"@
}

/// The lines of the cells, in order.
pub open spec fn cell_lines(cells: Seq<CellKind>) -> Seq<char>
    decreases cells.len(),
{
    if cells.len() == 0 {
        Seq::empty()
    } else {
        cell_lines(cells.drop_last()) + cell_line(cells.last())
    }
}

/// VTK type code of a cell: `5` for a triangle, `9` for a quadrangle.
pub open spec fn type_code(kind: CellKind) -> nat {
    if kind is Tri {
        5
    } else {
        9
    }
}

/// The type lines of the cells, in order.
pub open spec fn type_lines(cells: Seq<CellKind>) -> Seq<char>
    decreases cells.len(),
{
    if cells.len() == 0 {
        Seq::empty()
    } else {
        type_lines(cells.drop_last()) + decimal(type_code(cells.last())) + "\n"@
    }
}

/// Number of integers in the `CELLS` section: each cell's vertices, plus its count.
pub open spec fn entries(cells: Seq<CellKind>) -> nat
    decreases cells.len(),
{
    if cells.len() == 0 {
        0
    } else {
        entries(cells.drop_last()) + cells.last().vertex_seq().len() + 1
    }
}

/// The size announced for the `CELLS` section is the number of integers its lines hold:
/// each cell adds its vertex count and its vertex numbers, 4 for a triangle and 5 for a
/// quadrangle.
pub proof fn lemma_entries_count(cells: Seq<CellKind>, c: CellKind)
    ensures
        entries(Seq::<CellKind>::empty()) == 0,
        entries(cells.push(c)) == entries(cells) + c.vertex_seq().len() + 1,
        c is Tri ==> entries(cells.push(c)) == entries(cells) + 4,
        c is Quad ==> entries(cells.push(c)) == entries(cells) + 5,
{
    assert(cells.push(c).drop_last() == cells);
    crate::mesh::lemma_vertex_seq_ids(c);
}

/// The `CELLS` and `CELL_TYPES` sections for `cells`.
pub open spec fn cell_sections_text(cells: Seq<CellKind>) -> Seq<char> {
    "CELLS "@ + decimal(cells.len()) + " "@ + decimal(entries(cells)) + "\n"@ + cell_lines(cells) + "CELL_TYPES "@
        + decimal(cells.len()) + "\n"@ + type_lines(cells)
}

/// There are at most five integers per cell.
proof fn lemma_entries_bound(cells: Seq<CellKind>)
    ensures
        entries(cells) <= 5 * cells.len(),
    decreases cells.len(),
{
    if cells.len() > 0 {
        lemma_entries_bound(cells.drop_last());
        crate::mesh::lemma_vertex_seq_ids(cells.last());
    }
}

/// Writes the `CELLS` and `CELL_TYPES` sections of a VTK legacy file for `cells`.
pub fn cell_sections(cells: &[CellKind]) -> (r: String)
    requires
        5 * cells@.len() <= usize::MAX,
    ensures
        r@ == cell_sections_text(cells@),
{
    let n = cells.len();
    let mut total: usize = 0;
    let mut i: usize = 0;
    while i < n
        invariant
            n == cells@.len(),
            5 * n <= usize::MAX,
            i <= n,
            total == entries(cells@.take(i as int)),
        decreases n - i,
    {
        proof {
            assert(cells@.take(i as int + 1).drop_last() == cells@.take(i as int));
            lemma_entries_bound(cells@.take(i as int + 1));
        }
        total = total + cells[i].vertices().len() + 1;
        i = i + 1;
    }
    assert(cells@.take(n as int) == cells@);
    let mut out = String::new();
    out.append("CELLS ");
    push_decimal(&mut out, n);
    out.append(" ");
    push_decimal(&mut out, total);
    out.append("\n");
    let ghost head = out@;
    let mut k: usize = 0;
    while k < n
        invariant
            n == cells@.len(),
            k <= n,
            out@ == head + cell_lines(cells@.take(k as int)),
        decreases n - k,
    {
        let vertices = cells[k].vertices();
        push_decimal(&mut out, vertices.len());
        let ghost line_start = out@;
        let mut j: usize = 0;
        while j < vertices.len()
            invariant
                j <= vertices@.len(),
                out@ == line_start + vertex_numbers(vertices@.take(j as int)),
            decreases vertices@.len() - j,
        {
            out.append(" ");
            push_decimal(&mut out, vertices[j].index());
            proof {
                assert(vertices@.take(j as int + 1).drop_last() == vertices@.take(j as int));
            }
            j = j + 1;
            assert(out@ =~= line_start + vertex_numbers(vertices@.take(j as int)));
        }
        out.append("\n");
        proof {
            assert(vertices@.take(vertices@.len() as int) == vertices@);
            assert(cells@.take(k as int + 1).drop_last() == cells@.take(k as int));
            assert(cells@.take(k as int + 1).last() == cells@[k as int]);
        }
        k = k + 1;
        assert(out@ =~= head + cell_lines(cells@.take(k as int)));
    }
    out.append("CELL_TYPES ");
    push_decimal(&mut out, n);
    out.append("\n");
    let ghost middle = out@;
    let mut t: usize = 0;
    while t < n
        invariant
            n == cells@.len(),
            t <= n,
            out@ == middle + type_lines(cells@.take(t as int)),
        decreases n - t,
    {
        let code = cells[t].vtk_code();
        push_decimal(&mut out, code as usize);
        out.append("\n");
        proof {
            assert(cells@.take(t as int + 1).drop_last() == cells@.take(t as int));
            assert(cells@.take(t as int + 1).last() == cells@[t as int]);
        }
        t = t + 1;
        assert(out@ =~= middle + type_lines(cells@.take(t as int)));
    }
    assert(out@ =~= cell_sections_text(cells@));
    out
}

} // verus!
