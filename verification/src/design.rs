//! A miniature of the mesh connectivity: who sits on each side of a face.
//!
//! Two distinct identifier types, an enumeration for "the other side" that cannot hold an
//! incoherent state, and the neighbour queries built on top of them.

use vstd::prelude::*;

verus! {

/// Identifier of a cell.
#[derive(Clone, Copy, Debug, PartialEq, Eq, Hash, Structural)]
pub struct CellId(pub u32);

impl CellId {
    /// The index to read an array with.
    pub fn index(self) -> (r: usize)
        ensures
            r == self.0,
    {
        self.0 as usize
    }
}

/// Identifier of a vertex.
#[derive(Clone, Copy, Debug, PartialEq, Eq, Hash, Structural)]
pub struct VertexId(pub u32);

impl VertexId {
    /// The index to read an array with.
    pub fn index(self) -> (r: usize)
        ensures
            r == self.0,
    {
        self.0 as usize
    }
}

/// Nature of a domain boundary.
#[derive(Clone, Copy, Debug, PartialEq, Eq, Structural)]
pub enum BoundaryKind {
    /// An impermeable wall.
    Wall,
    /// The domain inlet.
    Inlet,
    /// The domain outlet.
    Outlet,
}

/// What lies on the other side of a face: a cell, or a boundary.
#[derive(Clone, Copy, Debug, PartialEq, Eq, Structural)]
pub enum Side {
    /// A neighbouring cell.
    Inner(CellId),
    /// A boundary condition.
    Boundary(BoundaryKind),
}

/// A face, oriented from `a` to `b`, with `left` on one side and `right` on the other.
#[derive(Clone, Copy, Debug, PartialEq, Eq, Structural)]
pub struct Face {
    /// First vertex.
    pub a: VertexId,
    /// Second vertex.
    pub b: VertexId,
    /// The left cell: there always is one.
    pub left: CellId,
    /// What lies on the right.
    pub right: Side,
}

/// The cell across `face`, seen from `from`; `None` on a boundary or when `from` does not
/// touch the face.
pub open spec fn neighbour_of(face: Face, from: CellId) -> Option<CellId> {
    match face.right {
        Side::Inner(right) => if from == face.left {
            Some(right)
        } else if from == right {
            Some(face.left)
        } else {
            None
        },
        Side::Boundary(_) => None,
    }
}

/// The neighbours of `cell` across `faces`, in face order.
pub open spec fn neighbours_of(faces: Seq<Face>, cell: CellId) -> Seq<CellId>
    decreases faces.len(),
{
    if faces.len() == 0 {
        Seq::empty()
    } else {
        let rest = neighbours_of(faces.drop_last(), cell);
        match neighbour_of(faces.last(), cell) {
            Some(n) => rest.push(n),
            None => rest,
        }
    }
}

impl Face {
    /// Is the face on a domain boundary?
    pub fn is_boundary(&self) -> (r: bool)
        ensures
            r == (self.right is Boundary),
    {
        match self.right {
            Side::Boundary(_) => true,
            Side::Inner(_) => false,
        }
    }

    /// The cell on the other side, seen from `from`.
    ///
    /// `None` when the face is on a boundary, or when `from` is not one of its cells.
    pub fn neighbour(&self, from: CellId) -> (r: Option<CellId>)
        ensures
            r == neighbour_of(*self, from),
    {
        match self.right {
            Side::Inner(right) => {
                if from == self.left {
                    Some(right)
                } else if from == right {
                    Some(self.left)
                } else {
                    None
                }
            },
            Side::Boundary(_) => None,
        }
    }
}

/// The neighbours of a cell, in the order of the given faces.
pub fn neighbours(faces: &[Face], cell: CellId) -> (r: Vec<CellId>)
    ensures
        r@ == neighbours_of(faces@, cell),
{
    let mut out: Vec<CellId> = Vec::new();
    let mut i: usize = 0;
    while i < faces.len()
        invariant
            i <= faces@.len(),
            out@ == neighbours_of(faces@.take(i as int), cell),
        decreases faces@.len() - i,
    {
        assert(faces@.take(i as int + 1).drop_last() == faces@.take(i as int));
        if let Some(n) = faces[i].neighbour(cell) {
            out.push(n);
        }
        i = i + 1;
    }
    assert(faces@.take(faces@.len() as int) == faces@);
    out
}

/// Seen from one of its cells, an inner face leads to the other one, and back.
pub proof fn lemma_neighbour_is_symmetric(face: Face, from: CellId)
    requires
        neighbour_of(face, from) is Some,
    ensures
        neighbour_of(face, neighbour_of(face, from)->0) == Some(from),
{
}

} // verus!
