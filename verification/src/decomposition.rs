//! Splitting the domain into vertical bands, one per rank.
//!
//! This is who owns what, who sends what to whom, and in which order — the part of a
//! distributed run that does not talk about message passing, and can therefore be
//! checked on its own. Each rank meshes only **its** band, widened by `halo` columns on
//! each side; nobody holds the whole domain.
//!
//! ```text
//! global mask, 30 columns, 3 bands, halo of 3 columns
//!
//!  columns    0 ........... 9 | 10 ......... 19 | 20 ......... 29
//!             \____ rank 0 ___/ \____ rank 1 ___/ \____ rank 2 ___/
//!
//! rank 1 meshes columns 7 to 22:
//!
//!      7 8 9 | 10 ......... 19 | 20 21 22
//!      \_____/                  \________/
//!       received from rank 0     received from rank 2
//!            10 11 12 ... 17 18 19
//!            \______/     \______/
//!         sent to 0       sent to 2
//! ```

use std::ops::Range;

use vstd::prelude::*;

use crate::error::MeshError;
use crate::mask::{count_true, Mask, MaskModel};
use crate::mesh::CellId;

verus! {

/// Halo width needed by this mesh, in columns: the residual of an owned cell reads its
/// neighbour's value, a second-order scheme reads that neighbour's gradient, and that
/// gradient depends on centroids, which depend on the chamfer of the next layer.
pub const HALO: usize = 3;

/// Mathematical model of a split into bands.
pub struct BandsModel {
    /// Number of columns of the split mask.
    pub cols: nat,
    /// Number of bands.
    pub parts: nat,
    /// Halo width, in columns.
    pub halo: nat,
}

impl BandsModel {
    /// The split is usable: every band is at least as wide as the halo (and as one
    /// column).
    pub open spec fn valid(self) -> bool {
        &&& self.cols > 0
        &&& self.parts > 0
        &&& self.parts > 1 ==> self.cols / self.parts >= if self.halo > 1 { self.halo } else { 1 }
    }

    /// Common width of the bands, before the remainder is handed out.
    pub open spec fn width(self) -> int {
        self.cols as int / self.parts as int
    }

    /// Columns left over by the even split, one for each of the first bands.
    pub open spec fn remainder(self) -> int {
        self.cols as int % self.parts as int
    }

    /// First column owned by band `part`.
    pub open spec fn owned_start(self, part: int) -> int {
        part * self.width() + if part < self.remainder() {
            part
        } else {
            self.remainder()
        }
    }

    /// One past the last column owned by band `part`.
    pub open spec fn owned_end(self, part: int) -> int {
        self.owned_start(part) + self.width() + if part < self.remainder() {
            1int
        } else {
            0int
        }
    }

    /// First column meshed by band `part`: its own, widened by the halo, within the domain.
    pub open spec fn extended_start(self, part: int) -> int {
        if self.owned_start(part) >= self.halo {
            self.owned_start(part) - self.halo
        } else {
            0
        }
    }

    /// One past the last column meshed by band `part`.
    pub open spec fn extended_end(self, part: int) -> int {
        if self.owned_end(part) + self.halo <= self.cols {
            self.owned_end(part) + self.halo
        } else {
            self.cols as int
        }
    }
}

/// The split of a mask into vertical bands.
#[derive(Debug)]
pub struct Bands {
    cols: usize,
    parts: usize,
    halo: usize,
}

impl View for Bands {
    type V = BandsModel;

    closed spec fn view(&self) -> BandsModel {
        BandsModel { cols: self.cols as nat, parts: self.parts as nat, halo: self.halo as nat }
    }
}

/// Bounds of band `part`, in the arithmetic form the executable code computes them.
proof fn lemma_owned_bounds(b: BandsModel, part: int)
    requires
        b.valid(),
        0 <= part < b.parts,
    ensures
        b.cols == b.parts * b.width() + b.remainder(),
        0 <= b.remainder() < b.parts,
        b.width() >= 1,
        0 <= part * b.width() <= b.cols,
        0 <= b.owned_start(part) < b.owned_end(part) <= b.cols,
{
    let w = b.width();
    let r = b.remainder();
    let n = b.parts as int;
    let c = b.cols as int;
    vstd::arithmetic::div_mod::lemma_fundamental_div_mod(c, n);
    vstd::arithmetic::div_mod::lemma_mod_bound(c, n);
    assert(w >= 1) by {
        if n > 1 {
        } else {
            assert(c / 1 == c);
        }
    }
    assert(c == n * w + r);
    assert(0 <= part * w <= c && b.owned_end(part) <= c) by (nonlinear_arith)
        requires
            c == n * w + r,
            0 <= r < n,
            w >= 1,
            0 <= part < n,
            b.owned_end(part) == part * w + (if part < r { part } else { r }) + w + (if part < r { 1int } else { 0int }),
    ;
}

impl Clone for Bands {
    fn clone(&self) -> (r: Self)
        ensures
            r@ == self@,
    {
        proof {
            use_type_invariant(self);
        }
        Bands { cols: self.cols, parts: self.parts, halo: self.halo }
    }
}

impl Bands {
    #[verifier::type_invariant]
    spec fn usable(self) -> bool {
        self@.valid()
    }

    /// Splits `cols` columns into `parts` bands, with a halo of `halo` columns.
    ///
    /// Fails if a band would be narrower than the halo: it could not provide its
    /// neighbour with the columns that neighbour expects.
    pub fn new(cols: usize, parts: usize, halo: usize) -> (r: Result<Bands, MeshError>)
        ensures
            cols == 0 || parts == 0 ==> r == Err::<Bands, MeshError>(MeshError::EmptyDomain),
            cols > 0 && parts > 0 && parts > 1 && cols / parts < (if halo > 1 { halo } else { 1 }) ==> r
                == Err::<Bands, MeshError>(MeshError::BandsTooNarrow { cols, parts, halo }),
            r is Ok ==> r->Ok_0@ == (BandsModel { cols: cols as nat, parts: parts as nat, halo: halo as nat }),
            r is Ok <==> (BandsModel { cols: cols as nat, parts: parts as nat, halo: halo as nat }).valid(),
    {
        if cols == 0 || parts == 0 {
            return Err(MeshError::EmptyDomain);
        }
        let at_least = if halo > 1 { halo } else { 1 };
        if parts > 1 && cols / parts < at_least {
            return Err(MeshError::BandsTooNarrow { cols, parts, halo });
        }
        Ok(Bands { cols, parts, halo })
    }

    /// Number of columns of the split mask.
    pub fn cols(&self) -> (r: usize)
        ensures
            r == self@.cols,
            self@.valid(),
    {
        proof {
            use_type_invariant(self);
        }
        self.cols
    }

    /// Number of bands, that is of ranks.
    pub fn parts(&self) -> (r: usize)
        ensures
            r == self@.parts,
            self@.valid(),
    {
        proof {
            use_type_invariant(self);
        }
        self.parts
    }

    /// Halo width, in columns — see [`HALO`].
    pub fn halo(&self) -> (r: usize)
        ensures
            r == self@.halo,
            self@.valid(),
    {
        proof {
            use_type_invariant(self);
        }
        self.halo
    }

    /// Columns owned by band `part`, halo excluded.
    ///
    /// Bands are as even as possible: each gets `cols / parts` columns, and the first
    /// `cols % parts` get one more.
    pub fn owned(&self, part: usize) -> (r: Range<usize>)
        requires
            part < self@.parts,
        ensures
            r.start == self@.owned_start(part as int),
            r.end == self@.owned_end(part as int),
            r.start < r.end <= self@.cols,
    {
        proof {
            use_type_invariant(self);
            lemma_owned_bounds(self@, part as int);
        }
        let width = self.cols / self.parts;
        let remainder = self.cols % self.parts;
        let start = part * width + if part < remainder { part } else { remainder };
        let end = start + width + if part < remainder { 1 } else { 0 };
        start..end
    }

    /// Columns actually meshed by band `part`: its own and its halo, cut at the edges of
    /// the domain.
    pub fn extended(&self, part: usize) -> (r: Range<usize>)
        requires
            part < self@.parts,
        ensures
            r.start == self@.extended_start(part as int),
            r.end == self@.extended_end(part as int),
            r.start <= self@.owned_start(part as int),
            self@.owned_end(part as int) <= r.end <= self@.cols,
    {
        let owned = self.owned(part);
        let halo = self.halo();
        let cols = self.cols();
        let start = if owned.start >= halo { owned.start - halo } else { 0 };
        let end = if halo <= cols - owned.end { owned.end + halo } else { cols };
        start..end
    }
}

/// Band `p + 1` starts where band `p` ends.
proof fn lemma_next_band(b: BandsModel, p: int)
    requires
        b.valid(),
        0 <= p < b.parts - 1,
    ensures
        b.owned_end(p) == b.owned_start(p + 1),
{
    let w = b.width();
    assert((p + 1) * w == p * w + w) by (nonlinear_arith);
}

/// The bands tile the columns: they follow one another without gap nor overlap, from the
/// first column to the last, and none is empty.
pub proof fn lemma_bands_tile_the_columns(b: BandsModel)
    requires
        b.valid(),
    ensures
        b.owned_start(0) == 0,
        b.owned_end(b.parts - 1) == b.cols,
        forall|p: int| 0 <= p < b.parts - 1 ==> #[trigger] b.owned_end(p) == b.owned_start(p + 1),
        forall|p: int| 0 <= p < b.parts ==> #[trigger] b.owned_start(p) < b.owned_end(p),
{
    lemma_owned_bounds(b, 0);
    let w = b.width();
    let r = b.remainder();
    let last = b.parts - 1;
    assert(b.owned_end(last) == b.cols) by (nonlinear_arith)
        requires
            b.cols == b.parts * w + r,
            0 <= r < b.parts,
            last == b.parts - 1,
            b.owned_end(last) == last * w + r + w,
    ;
    assert forall|p: int| 0 <= p < b.parts - 1 implies #[trigger] b.owned_end(p) == b.owned_start(p + 1) by {
        lemma_next_band(b, p);
    }
    assert forall|p: int| 0 <= p < b.parts implies #[trigger] b.owned_start(p) < b.owned_end(p) by {
        lemma_owned_bounds(b, p);
    }
}


/// The bands are as equal as possible, the wider ones first: two bands differ by one
/// column at most, and a band is never narrower than a band to its right.
pub proof fn lemma_bands_as_equal_as_possible(b: BandsModel)
    requires
        b.valid(),
    ensures
        forall|p: int, q: int|
            0 <= p <= q < b.parts ==> 0 <= (#[trigger] b.owned_end(p) - b.owned_start(p)) - (#[trigger] b.owned_end(q)
                - b.owned_start(q)) <= 1,
{
}

/// Fluid cells `(row, col)` of row `row` with `start <= col < end`, left to right.
pub open spec fn row_cells(m: MaskModel, row: int, start: int, end: int) -> Seq<(int, int)>
    decreases end - start,
{
    if end <= start {
        Seq::empty()
    } else if m.fluid_at(row, end - 1) {
        row_cells(m, row, start, end - 1).push((row, end - 1))
    } else {
        row_cells(m, row, start, end - 1)
    }
}

/// Fluid cells of the first `rows` rows with `start <= col < end`, row by row, then
/// column by column: the order in which a mesh of those columns numbers its cells.
pub open spec fn band_cells(m: MaskModel, rows: nat, start: int, end: int) -> Seq<(int, int)>
    decreases rows,
{
    if rows == 0 {
        Seq::empty()
    } else {
        band_cells(m, (rows - 1) as nat, start, end) + row_cells(m, rows - 1, start, end)
    }
}

/// Local identifiers, in order, of the cells whose column satisfies `keep`: the `k`-th
/// cell of `cells` has identifier `k`.
pub open spec fn select(cells: Seq<(int, int)>, keep: spec_fn(int) -> bool) -> Seq<CellId>
    decreases cells.len(),
{
    if cells.len() == 0 {
        Seq::empty()
    } else {
        let rest = select(cells.drop_last(), keep);
        if keep(cells.last().1) {
            rest.push(CellId((cells.len() - 1) as u32))
        } else {
            rest
        }
    }
}

/// Columns `[start, end)`.
pub open spec fn columns_between(start: int, end: int) -> spec_fn(int) -> bool {
    |c: int| start <= c < end
}

/// Columns of band `part` whose cells are ghosts received from the left rank.
pub open spec fn recv_left_cols(b: BandsModel, part: int) -> spec_fn(int) -> bool {
    |c: int| c < b.owned_start(part)
}

/// Columns of band `part` whose cells are ghosts received from the right rank.
pub open spec fn recv_right_cols(b: BandsModel, part: int) -> spec_fn(int) -> bool {
    |c: int| c >= b.owned_end(part)
}

/// Owned columns of band `part` to send to the left rank: the first `halo` ones.
pub open spec fn send_left_cols(b: BandsModel, part: int) -> spec_fn(int) -> bool {
    |c: int| part > 0 && b.owned_start(part) <= c < b.owned_end(part) && c < b.owned_start(part) + b.halo
}

/// Owned columns of band `part` to send to the right rank: the last `halo` ones.
pub open spec fn send_right_cols(b: BandsModel, part: int) -> spec_fn(int) -> bool {
    |c: int| part + 1 < b.parts && b.owned_start(part) <= c < b.owned_end(part) && c + b.halo >= b.owned_end(part)
}

/// The cells meshed by band `part`, in local numbering order.
pub open spec fn local_cells(m: MaskModel, b: BandsModel, part: int) -> Seq<(int, int)> {
    band_cells(m, m.rows, b.extended_start(part), b.extended_end(part))
}

/// Counting the fluid flags of the first `c` cells of row `r` counts the fluid cells of
/// that row up to column `c`.
proof fn lemma_row_count(m: MaskModel, r: int, c: int)
    requires
        m.well_formed(),
        0 <= r < m.rows,
        0 <= c <= m.cols,
    ensures
        count_true(m.fluid.take(r * m.cols + c)) == count_true(m.fluid.take(r * m.cols)) + row_cells(m, r, 0, c).len(),
    decreases c,
{
    if c > 0 {
        lemma_row_count(m, r, c - 1);
        let k = r * m.cols + c - 1;
        assert(r * m.cols + m.cols <= m.rows * m.cols) by (nonlinear_arith)
            requires
                r < m.rows,
        ;
        assert(0 <= r * m.cols) by (nonlinear_arith)
            requires
                0 <= r,
        ;
        let t = m.fluid.take(k + 1);
        assert(t.drop_last() == m.fluid.take(k));
        assert(t.last() == m.fluid[k]);
        assert(m.fluid_at(r, c - 1) == m.fluid[k]);
    }
}

/// The domain lists one cell per fluid flag of the mask.
pub proof fn lemma_domain_cells_count(m: MaskModel)
    requires
        m.well_formed(),
    ensures
        domain_cells(m).len() == count_true(m.fluid),
{
    lemma_band_count(m, m.rows);
    assert(m.fluid.take((m.rows * m.cols) as int) == m.fluid);
}

/// The first `r` rows of the domain count the fluid flags of the first `r` rows.
proof fn lemma_band_count(m: MaskModel, r: nat)
    requires
        m.well_formed(),
        r <= m.rows,
    ensures
        band_cells(m, r, 0, m.cols as int).len() == count_true(m.fluid.take((r * m.cols) as int)),
    decreases r,
{
    if r == 0 {
        assert(m.fluid.take(0).len() == 0);
    } else {
        lemma_band_count(m, (r - 1) as nat);
        lemma_row_count(m, r - 1, m.cols as int);
        assert((r - 1) * m.cols + m.cols == r * m.cols) by (nonlinear_arith);
    }
}

/// One more column of a row.
proof fn lemma_row_cells_len_mono(m: MaskModel, row: int, start: int, c: int, end: int)
    requires
        start <= c <= end,
    ensures
        row_cells(m, row, start, c).len() <= row_cells(m, row, start, end).len(),
    decreases end - c,
{
    if c < end {
        lemma_row_cells_len_mono(m, row, start, c, end - 1);
    }
}

/// More rows, more cells.
proof fn lemma_band_cells_len_mono(m: MaskModel, r: nat, rows: nat, start: int, end: int)
    requires
        r <= rows,
    ensures
        band_cells(m, r, start, end).len() <= band_cells(m, rows, start, end).len(),
    decreases rows - r,
{
    if r < rows {
        lemma_band_cells_len_mono(m, r, (rows - 1) as nat, start, end);
    }
}

/// Past the last column, a row has no cell.
proof fn lemma_row_cells_outside(m: MaskModel, row: int, start: int, end: int)
    requires
        start >= m.cols,
    ensures
        row_cells(m, row, start, end).len() == 0,
    decreases end - start,
{
    if end > start {
        lemma_row_cells_outside(m, row, start, end - 1);
    }
}

/// A segment of a row has no more cells than the whole row.
proof fn lemma_row_cells_within(m: MaskModel, row: int, start: int, end: int)
    requires
        0 <= start <= end,
    ensures
        row_cells(m, row, start, end).len() <= row_cells(m, row, 0, m.cols as int).len(),
{
    let cols = m.cols as int;
    if start >= cols {
        lemma_row_cells_outside(m, row, start, end);
    } else if end <= cols {
        lemma_row_cells_split(m, row, 0, start, cols);
        lemma_row_cells_split(m, row, start, end, cols);
    } else {
        lemma_row_cells_split(m, row, start, cols, end);
        lemma_row_cells_outside(m, row, cols, end);
        lemma_row_cells_split(m, row, 0, start, cols);
    }
}

/// A band has no more cells than the whole domain over the same rows.
proof fn lemma_band_cells_within(m: MaskModel, rows: nat, start: int, end: int)
    requires
        0 <= start <= end,
    ensures
        band_cells(m, rows, start, end).len() <= band_cells(m, rows, 0, m.cols as int).len(),
    decreases rows,
{
    if rows > 0 {
        lemma_band_cells_within(m, (rows - 1) as nat, start, end);
        lemma_row_cells_within(m, rows - 1, start, end);
    }
}

/// What a rank needs to know about its band, in **local** numbering.
///
/// The identifiers are those of the mesh of the band: there is no global numbering of
/// the cells anywhere, and that is on purpose.
#[derive(Debug)]
pub struct Layout {
    /// Rank of this band.
    pub part: usize,
    /// Total number of bands.
    pub parts: usize,
    /// Columns of the global mask actually meshed.
    pub extended: Range<usize>,
    /// Cells this rank is responsible for — the only ones whose value is authoritative.
    pub owned: Vec<CellId>,
    /// Cells to send to the left rank.
    pub send_left: Vec<CellId>,
    /// Ghost cells to receive from the left rank.
    pub recv_left: Vec<CellId>,
    /// Cells to send to the right rank.
    pub send_right: Vec<CellId>,
    /// Ghost cells to receive from the right rank.
    pub recv_right: Vec<CellId>,
}

/// A copy of a list of identifiers.
fn copy_ids(ids: &Vec<CellId>) -> (r: Vec<CellId>)
    ensures
        r@ == ids@,
{
    let mut out: Vec<CellId> = Vec::new();
    let mut i: usize = 0;
    while i < ids.len()
        invariant
            i <= ids@.len(),
            out@ == ids@.take(i as int),
        decreases ids@.len() - i,
    {
        out.push(ids[i]);
        i = i + 1;
        assert(out@ =~= ids@.take(i as int));
    }
    assert(ids@.take(ids@.len() as int) == ids@);
    out
}

impl Clone for Layout {
    fn clone(&self) -> (r: Self)
        ensures
            r.part == self.part,
            r.parts == self.parts,
            r.extended == self.extended,
            r.owned@ == self.owned@,
            r.send_left@ == self.send_left@,
            r.recv_left@ == self.recv_left@,
            r.send_right@ == self.send_right@,
            r.recv_right@ == self.recv_right@,
    {
        Layout {
            part: self.part,
            parts: self.parts,
            extended: self.extended.start..self.extended.end,
            owned: copy_ids(&self.owned),
            send_left: copy_ids(&self.send_left),
            recv_left: copy_ids(&self.recv_left),
            send_right: copy_ids(&self.send_right),
            recv_right: copy_ids(&self.recv_right),
        }
    }
}

impl Layout {
    /// Builds the plan of band `part` from the global mask.
    ///
    /// Lists follow the row-by-row, column-by-column walk of the **global** mask, so the
    /// two ranks of a cut derive them from the same object and necessarily agree: that is
    /// what lets the exchange send values only, never identifiers.
    ///
    /// A cell left of the owned columns is a ghost coming from the left rank; right of
    /// them, from the right rank; otherwise it is owned, and also *sent* if it lies in
    /// the first [`Bands::halo`] owned columns (to the left neighbour) or in the last ones
    /// (to the right neighbour). An edge rank has no neighbour on that side: its lists
    /// stay empty there.
    pub fn new(mask: &Mask, bands: &Bands, part: usize) -> (r: Layout)
        requires
            part < bands@.parts,
            count_true(mask@.fluid) <= u32::MAX,
        ensures
            r.part == part,
            r.parts == bands@.parts,
            r.extended.start == bands@.extended_start(part as int),
            r.extended.end == bands@.extended_end(part as int),
            r.owned@ == select(
                local_cells(mask@, bands@, part as int),
                columns_between(bands@.owned_start(part as int), bands@.owned_end(part as int)),
            ),
            r.recv_left@ == select(local_cells(mask@, bands@, part as int), recv_left_cols(bands@, part as int)),
            r.recv_right@ == select(local_cells(mask@, bands@, part as int), recv_right_cols(bands@, part as int)),
            r.send_left@ == select(local_cells(mask@, bands@, part as int), send_left_cols(bands@, part as int)),
            r.send_right@ == select(local_cells(mask@, bands@, part as int), send_right_cols(bands@, part as int)),
    {
        let extended = bands.extended(part);
        let owned_cols = bands.owned(part);
        let halo = bands.halo();
        let parts = bands.parts();
        let rows = mask.rows();
        let ghost m = mask@;
        let ghost b = bands@;
        let ghost p = part as int;
        let ghost all = local_cells(m, b, p);
        let ghost (s, e) = (extended.start as int, extended.end as int);
        proof {
            lemma_domain_cells_count(m);
            lemma_band_cells_within(m, m.rows, s, e);
        }

        let mut owned: Vec<CellId> = Vec::new();
        let mut send_left: Vec<CellId> = Vec::new();
        let mut recv_left: Vec<CellId> = Vec::new();
        let mut send_right: Vec<CellId> = Vec::new();
        let mut recv_right: Vec<CellId> = Vec::new();
        let mut next: u32 = 0;
        let ghost mut cells: Seq<(int, int)> = Seq::empty();

        let mut row: usize = 0;
        while row < rows
            invariant
                m == mask@,
                b == bands@,
                p == part,
                p < b.parts,
                rows == m.rows,
                all == local_cells(m, b, p),
                all.len() <= u32::MAX,
                s == b.extended_start(p),
                e == b.extended_end(p),
                s == extended.start,
                e == extended.end,
                owned_cols.start == b.owned_start(p),
                owned_cols.end == b.owned_end(p),
                s <= owned_cols.start < owned_cols.end <= e,
                halo == b.halo,
                parts == b.parts,
                row <= rows,
                cells == band_cells(m, row as nat, s, e),
                next == cells.len(),
                owned@ == select(cells, columns_between(b.owned_start(p), b.owned_end(p))),
                recv_left@ == select(cells, recv_left_cols(b, p)),
                recv_right@ == select(cells, recv_right_cols(b, p)),
                send_left@ == select(cells, send_left_cols(b, p)),
                send_right@ == select(cells, send_right_cols(b, p)),
            decreases rows - row,
        {
            let mut col: usize = extended.start;
            let ghost before_row = cells;
            while col < extended.end
                invariant
                    m == mask@,
                    b == bands@,
                    p == part,
                    p < b.parts,
                    rows == m.rows,
                    all == local_cells(m, b, p),
                    all.len() <= u32::MAX,
                    s == b.extended_start(p),
                    e == b.extended_end(p),
                    s == extended.start,
                    e == extended.end,
                    owned_cols.start == b.owned_start(p),
                    owned_cols.end == b.owned_end(p),
                    s <= owned_cols.start < owned_cols.end <= e,
                    halo == b.halo,
                    parts == b.parts,
                    row < rows,
                    s <= col <= e,
                    before_row == band_cells(m, row as nat, s, e),
                    cells == before_row + row_cells(m, row as int, s, col as int),
                    next == cells.len(),
                    owned@ == select(cells, columns_between(b.owned_start(p), b.owned_end(p))),
                    recv_left@ == select(cells, recv_left_cols(b, p)),
                    recv_right@ == select(cells, recv_right_cols(b, p)),
                    send_left@ == select(cells, send_left_cols(b, p)),
                    send_right@ == select(cells, send_right_cols(b, p)),
                decreases e - col,
            {
                let ghost prior = cells;
                if mask.is_fluid(row, col) {
                    proof {
                        lemma_row_cells_len_mono(m, row as int, s, col as int + 1, e);
                        lemma_band_cells_len_mono(m, (row + 1) as nat, m.rows, s, e);
                        assert(band_cells(m, (row + 1) as nat, s, e) == before_row + row_cells(m, row as int, s, e));
                        cells = cells.push((row as int, col as int));
                        assert(cells == before_row + row_cells(m, row as int, s, col as int + 1));
                        assert(cells.drop_last() == prior);
                    }
                    let id = CellId(next);
                    next = next + 1;
                    if col < owned_cols.start {
                        recv_left.push(id);
                    } else if col >= owned_cols.end {
                        recv_right.push(id);
                    } else {
                        owned.push(id);
                        if part > 0 && col - owned_cols.start < halo {
                            send_left.push(id);
                        }
                        if part + 1 < parts && owned_cols.end - col <= halo {
                            send_right.push(id);
                        }
                    }
                } else {
                    assert(cells == before_row + row_cells(m, row as int, s, col as int + 1));
                }
                col = col + 1;
            }
            proof {
                assert(cells == band_cells(m, (row + 1) as nat, s, e));
            }
            row = row + 1;
        }
        Layout {
            part,
            parts,
            extended,
            owned,
            send_left,
            recv_left,
            send_right,
            recv_right,
        }
    }

    /// Left neighbour rank, if there is one.
    pub fn left(&self) -> (r: Option<usize>)
        ensures
            r == (if self.part > 0 { Some((self.part - 1) as usize) } else { None::<usize> }),
    {
        if self.part > 0 {
            Some(self.part - 1)
        } else {
            None
        }
    }

    /// Right neighbour rank, if there is one.
    pub fn right(&self) -> (r: Option<usize>)
        ensures
            r == (if self.part + 1 < self.parts { Some((self.part + 1) as usize) } else { None::<usize> }),
    {
        if self.part < self.parts && self.parts - self.part > 1 {
            Some(self.part + 1)
        } else {
            None
        }
    }

    /// Identifier, in a mesh of the whole domain, of each local cell.
    ///
    /// Used by checks and to assemble a single output; the distributed run never needs
    /// it, which shows that no rank has to know the whole domain.
    pub fn global_cells(&self, mask: &Mask) -> (r: Vec<CellId>)
        requires
            count_true(mask@.fluid) <= u32::MAX,
        ensures
            r@ == select(
                band_cells(mask@, mask@.rows, 0, mask@.cols as int),
                columns_between(self.extended.start as int, self.extended.end as int),
            ),
    {
        let rows = mask.rows();
        let cols = mask.cols();
        let ghost m = mask@;
        let ghost keep = columns_between(self.extended.start as int, self.extended.end as int);
        let ghost all = band_cells(m, m.rows, 0, m.cols as int);
        proof {
            lemma_domain_cells_count(m);
        }
        let mut ids: Vec<CellId> = Vec::new();
        let mut next: u32 = 0;
        let ghost mut cells: Seq<(int, int)> = Seq::empty();
        let mut row: usize = 0;
        while row < rows
            invariant
                m == mask@,
                rows == m.rows,
                cols == m.cols,
                all == band_cells(m, m.rows, 0, m.cols as int),
                all.len() <= u32::MAX,
                keep == columns_between(self.extended.start as int, self.extended.end as int),
                row <= rows,
                cells == band_cells(m, row as nat, 0, cols as int),
                next == cells.len(),
                ids@ == select(cells, keep),
            decreases rows - row,
        {
            let mut col: usize = 0;
            let ghost before_row = cells;
            while col < cols
                invariant
                    m == mask@,
                    rows == m.rows,
                    cols == m.cols,
                    all == band_cells(m, m.rows, 0, m.cols as int),
                    all.len() <= u32::MAX,
                    keep == columns_between(self.extended.start as int, self.extended.end as int),
                    row < rows,
                    col <= cols,
                    before_row == band_cells(m, row as nat, 0, cols as int),
                    cells == before_row + row_cells(m, row as int, 0, col as int),
                    next == cells.len(),
                    ids@ == select(cells, keep),
                decreases cols - col,
            {
                let ghost prior = cells;
                if mask.is_fluid(row, col) {
                    proof {
                        lemma_row_cells_len_mono(m, row as int, 0, col as int + 1, cols as int);
                        lemma_band_cells_len_mono(m, (row + 1) as nat, m.rows, 0, cols as int);
                        assert(band_cells(m, (row + 1) as nat, 0, cols as int) == before_row + row_cells(m, row as int, 0, cols as int));
                        cells = cells.push((row as int, col as int));
                        assert(cells == before_row + row_cells(m, row as int, 0, col as int + 1));
                        assert(cells.drop_last() == prior);
                    }
                    if self.extended.start <= col && col < self.extended.end {
                        ids.push(CellId(next));
                    }
                    next = next + 1;
                } else {
                    assert(cells == before_row + row_cells(m, row as int, 0, col as int + 1));
                }
                col = col + 1;
            }
            proof {
                assert(cells == band_cells(m, (row + 1) as nat, 0, cols as int));
            }
            row = row + 1;
        }
        ids
    }
}


/// The cells of `cells` whose column satisfies `keep`, in order.
pub open spec fn keep_cells(cells: Seq<(int, int)>, keep: spec_fn(int) -> bool) -> Seq<(int, int)>
    decreases cells.len(),
{
    if cells.len() == 0 {
        Seq::empty()
    } else {
        let rest = keep_cells(cells.drop_last(), keep);
        if keep(cells.last().1) {
            rest.push(cells.last())
        } else {
            rest
        }
    }
}

/// The cells that the identifiers `ids` designate in `cells`.
pub open spec fn positions(cells: Seq<(int, int)>, ids: Seq<CellId>) -> Seq<(int, int)> {
    ids.map_values(|id: CellId| cells[id.0 as int])
}

/// `keep`, restricted to columns `[start, end)`.
pub open spec fn within(start: int, end: int, keep: spec_fn(int) -> bool) -> spec_fn(int) -> bool {
    |c: int| start <= c < end && keep(c)
}

/// Every column.
pub open spec fn any_column() -> spec_fn(int) -> bool {
    |c: int| true
}

/// The selected identifiers designate exactly the kept cells.
proof fn lemma_select_positions(cells: Seq<(int, int)>, keep: spec_fn(int) -> bool)
    requires
        cells.len() <= u32::MAX + 1,
    ensures
        select(cells, keep).len() == keep_cells(cells, keep).len(),
        forall|i: int|
            0 <= i < select(cells, keep).len() ==> (#[trigger] select(cells, keep)[i]).0 < cells.len()
                && cells[select(cells, keep)[i].0 as int] == keep_cells(cells, keep)[i],
        positions(cells, select(cells, keep)) == keep_cells(cells, keep),
    decreases cells.len(),
{
    if cells.len() > 0 {
        let before = cells.drop_last();
        lemma_select_positions(before, keep);
        assert forall|i: int|
            0 <= i < select(cells, keep).len() implies (#[trigger] select(cells, keep)[i]).0 < cells.len()
                && cells[select(cells, keep)[i].0 as int] == keep_cells(cells, keep)[i] by {
            if i < select(before, keep).len() {
                assert(select(cells, keep)[i] == select(before, keep)[i]);
                assert(keep_cells(cells, keep)[i] == keep_cells(before, keep)[i]);
                assert(before[select(before, keep)[i].0 as int] == cells[select(before, keep)[i].0 as int]);
            }
        }
    }
    assert(positions(cells, select(cells, keep)) =~= keep_cells(cells, keep));
}

/// Keeping commutes with concatenation.
proof fn lemma_keep_cells_concat(a: Seq<(int, int)>, b: Seq<(int, int)>, keep: spec_fn(int) -> bool)
    ensures
        keep_cells(a + b, keep) == keep_cells(a, keep) + keep_cells(b, keep),
    decreases b.len(),
{
    if b.len() == 0 {
        assert(a + b == a);
        assert(keep_cells(b, keep) == Seq::<(int, int)>::empty());
        assert(keep_cells(a, keep) + keep_cells(b, keep) == keep_cells(a, keep));
    } else {
        assert((a + b).drop_last() == a + b.drop_last());
        assert((a + b).last() == b.last());
        lemma_keep_cells_concat(a, b.drop_last(), keep);
        if keep(b.last().1) {
            assert(keep_cells(a + b, keep) =~= keep_cells(a, keep) + keep_cells(b, keep));
        } else {
            assert(keep_cells(a + b, keep) =~= keep_cells(a, keep) + keep_cells(b, keep));
        }
    }
}

/// Two predicates that agree on the columns present keep the same cells.
proof fn lemma_keep_cells_congruent(cells: Seq<(int, int)>, k1: spec_fn(int) -> bool, k2: spec_fn(int) -> bool)
    requires
        forall|i: int| 0 <= i < cells.len() ==> k1(#[trigger] cells[i].1) == k2(cells[i].1),
    ensures
        keep_cells(cells, k1) == keep_cells(cells, k2),
    decreases cells.len(),
{
    if cells.len() > 0 {
        let before = cells.drop_last();
        assert forall|i: int| 0 <= i < before.len() implies k1(#[trigger] before[i].1) == k2(before[i].1) by {
            assert(before[i] == cells[i]);
        }
        lemma_keep_cells_congruent(before, k1, k2);
        assert(k1(cells[cells.len() - 1].1) == k2(cells[cells.len() - 1].1));
    }
}

/// Nothing kept.
proof fn lemma_keep_cells_none(cells: Seq<(int, int)>, keep: spec_fn(int) -> bool)
    requires
        forall|i: int| 0 <= i < cells.len() ==> !keep(#[trigger] cells[i].1),
    ensures
        keep_cells(cells, keep) == Seq::<(int, int)>::empty(),
    decreases cells.len(),
{
    if cells.len() > 0 {
        let before = cells.drop_last();
        assert forall|i: int| 0 <= i < before.len() implies !keep(#[trigger] before[i].1) by {
            assert(before[i] == cells[i]);
        }
        lemma_keep_cells_none(before, keep);
        assert(!keep(cells[cells.len() - 1].1));
    }
}

/// Everything kept.
proof fn lemma_keep_cells_all(cells: Seq<(int, int)>, keep: spec_fn(int) -> bool)
    requires
        forall|i: int| 0 <= i < cells.len() ==> keep(#[trigger] cells[i].1),
    ensures
        keep_cells(cells, keep) == cells,
    decreases cells.len(),
{
    if cells.len() > 0 {
        let before = cells.drop_last();
        assert forall|i: int| 0 <= i < before.len() implies keep(#[trigger] before[i].1) by {
            assert(before[i] == cells[i]);
        }
        lemma_keep_cells_all(before, keep);
        assert(keep(cells[cells.len() - 1].1));
        assert(before.push(cells.last()) == cells);
    }
}

/// The cells of a row segment lie in that row and those columns.
proof fn lemma_row_cells_columns(m: MaskModel, row: int, start: int, end: int)
    ensures
        forall|i: int|
            0 <= i < row_cells(m, row, start, end).len() ==> start <= (#[trigger] row_cells(m, row, start, end)[i]).1 < end
                && row_cells(m, row, start, end)[i].0 == row,
    decreases end - start,
{
    if end > start {
        lemma_row_cells_columns(m, row, start, end - 1);
        let before = row_cells(m, row, start, end - 1);
        let cells = row_cells(m, row, start, end);
        assert forall|i: int| 0 <= i < cells.len() implies start <= (#[trigger] cells[i]).1 < end && cells[i].0 == row by {
            if i < before.len() {
                assert(cells[i] == before[i]);
            }
        }
    }
}

/// Along a row segment, columns strictly increase.
proof fn lemma_row_cells_increase(m: MaskModel, row: int, start: int, end: int)
    ensures
        forall|i: int, j: int|
            0 <= i < j < row_cells(m, row, start, end).len() ==> (#[trigger] row_cells(m, row, start, end)[i]).1
                < (#[trigger] row_cells(m, row, start, end)[j]).1,
    decreases end - start,
{
    if end > start {
        lemma_row_cells_increase(m, row, start, end - 1);
        lemma_row_cells_columns(m, row, start, end - 1);
        let before = row_cells(m, row, start, end - 1);
        let cells = row_cells(m, row, start, end);
        assert forall|i: int, j: int| 0 <= i < j < cells.len() implies (#[trigger] cells[i]).1 < (#[trigger] cells[j]).1 by {
            assert(cells[i] == before[i]);
            if j < before.len() {
                assert(cells[j] == before[j]);
            }
        }
    }
}

/// The cells of the first `rows` rows lie in those rows, and no cell comes twice.
proof fn lemma_band_cells_distinct(m: MaskModel, rows: nat, start: int, end: int)
    ensures
        forall|i: int| 0 <= i < band_cells(m, rows, start, end).len() ==> 0 <= (#[trigger] band_cells(m, rows, start, end)[i]).0 < rows,
        band_cells(m, rows, start, end).no_duplicates(),
    decreases rows,
{
    if rows > 0 {
        lemma_band_cells_distinct(m, (rows - 1) as nat, start, end);
        lemma_row_cells_columns(m, rows - 1, start, end);
        lemma_row_cells_increase(m, rows - 1, start, end);
        let a = band_cells(m, (rows - 1) as nat, start, end);
        let r = row_cells(m, rows - 1, start, end);
        let all = a + r;
        assert forall|i: int| 0 <= i < all.len() implies 0 <= (#[trigger] all[i]).0 < rows by {
            if i >= a.len() {
                assert(all[i] == r[i - a.len()]);
            }
        }
        assert forall|i: int, j: int| 0 <= i < all.len() && 0 <= j < all.len() && i != j implies all[i] != all[j] by {
            if i < a.len() && j < a.len() {
                assert(a[i] != a[j]);
            } else if i >= a.len() && j >= a.len() {
                let x = i - a.len();
                let y = j - a.len();
                assert(all[i] == r[x] && all[j] == r[y]);
                if x < y {
                    assert(r[x].1 < r[y].1);
                } else {
                    assert(r[y].1 < r[x].1);
                }
            } else if i < a.len() {
                assert(all[j] == r[j - a.len()]);
                assert(a[i].0 < rows - 1);
            } else {
                assert(all[i] == r[i - a.len()]);
                assert(a[j].0 < rows - 1);
            }
        }
    }
}

/// The cells of the domain lie in the mask's grid.
pub(crate) proof fn lemma_domain_cells_in_grid(m: MaskModel)
    ensures
        forall|i: int|
            0 <= i < domain_cells(m).len() ==> 0 <= (#[trigger] domain_cells(m)[i]).0 < m.rows && 0 <= domain_cells(m)[i].1
                < m.cols,
{
    lemma_band_cells_distinct(m, m.rows, 0, m.cols as int);
    lemma_band_cells_columns(m, m.rows, 0, m.cols as int);
}

/// Cells moved `s` columns to the left.
pub open spec fn shifted(cells: Seq<(int, int)>, s: int) -> Seq<(int, int)> {
    cells.map_values(|p: (int, int)| (p.0, p.1 - s))
}

/// `cut` is made of the columns `s .. e` of `m`.
pub open spec fn cut_from(cut: MaskModel, m: MaskModel, s: int, e: int) -> bool {
    &&& 0 <= s <= e <= m.cols
    &&& cut.rows == m.rows
    &&& cut.cols == e - s
    &&& forall|i: int, j: int| 0 <= i < cut.rows && 0 <= j < cut.cols ==> #[trigger] cut.fluid_at(i, j) == m.fluid_at(i, s + j)
}

/// A row of the cut is the matching row segment of the mask, moved to the left.
proof fn lemma_cut_row(cut: MaskModel, m: MaskModel, s: int, e: int, row: int, c: int)
    requires
        cut_from(cut, m, s, e),
        0 <= row < m.rows,
        0 <= c <= e - s,
    ensures
        row_cells(cut, row, 0, c) == shifted(row_cells(m, row, s, s + c), s),
    decreases c,
{
    if c > 0 {
        lemma_cut_row(cut, m, s, e, row, c - 1);
        assert(cut.fluid_at(row, c - 1) == m.fluid_at(row, s + (c - 1)));
        assert(row_cells(cut, row, 0, c) =~= shifted(row_cells(m, row, s, s + c), s));
    } else {
        assert(row_cells(cut, row, 0, c) =~= shifted(row_cells(m, row, s, s + c), s));
    }
}

/// The first `rows` rows of the cut are those of the band of columns `s .. e`, moved to
/// the left.
proof fn lemma_cut_band(cut: MaskModel, m: MaskModel, s: int, e: int, rows: nat)
    requires
        cut_from(cut, m, s, e),
        rows <= m.rows,
    ensures
        band_cells(cut, rows, 0, cut.cols as int) == shifted(band_cells(m, rows, s, e), s),
    decreases rows,
{
    if rows > 0 {
        lemma_cut_band(cut, m, s, e, (rows - 1) as nat);
        lemma_cut_row(cut, m, s, e, rows - 1, e - s);
        let a = band_cells(m, (rows - 1) as nat, s, e);
        let r = row_cells(m, rows - 1, s, e);
        assert(shifted(a + r, s) =~= shifted(a, s) + shifted(r, s));
    } else {
        assert(band_cells(cut, rows, 0, cut.cols as int) =~= shifted(band_cells(m, rows, s, e), s));
    }
}

/// A mesh of the columns `s .. e` cut out of a mask walks its cells in the order the band
/// of those columns walks them in the whole mask: the cells of the cut are the cells of
/// the band, moved `s` columns to the left.
pub proof fn lemma_cut_cells(cut: MaskModel, m: MaskModel, s: int, e: int)
    requires
        cut_from(cut, m, s, e),
    ensures
        domain_cells(cut) == shifted(band_cells(m, m.rows, s, e), s),
{
    lemma_cut_band(cut, m, s, e, m.rows);
}

/// The mesh a band builds from its columns cut out of the mask numbers its cells as the
/// layout does: local cell `k` of that mesh is the cell that [`Layout::global_cells`]
/// gives it in the mesh of the whole domain.
pub proof fn lemma_band_mesh_cells(m: MaskModel, b: BandsModel, part: int, cut: MaskModel)
    requires
        b.valid(),
        b.cols == m.cols,
        0 <= part < b.parts,
        band_cells(m, m.rows, 0, m.cols as int).len() <= u32::MAX,
        cut_from(cut, m, b.extended_start(part), b.extended_end(part)),
    ensures
        ({
            let all = band_cells(m, m.rows, 0, m.cols as int);
            let ids = select(all, columns_between(b.extended_start(part), b.extended_end(part)));
            let local = domain_cells(cut);
            &&& ids.len() == local.len()
            &&& forall|k: int|
                0 <= k < local.len() ==> (#[trigger] ids[k]).0 < all.len() && all[ids[k].0 as int] == (
                    local[k].0,
                    local[k].1 + b.extended_start(part),
                )
        }),
{
    let all = band_cells(m, m.rows, 0, m.cols as int);
    let st = b.extended_start(part);
    let ids = select(all, columns_between(st, b.extended_end(part)));
    lemma_global_cells_locate(m, b, part);
    lemma_select_positions(all, columns_between(st, b.extended_end(part)));
    lemma_cut_cells(cut, m, st, b.extended_end(part));
    let lc = local_cells(m, b, part);
    assert(positions(all, ids).len() == ids.len());
    assert forall|k: int| 0 <= k < domain_cells(cut).len() implies (#[trigger] ids[k]).0 < all.len() && all[ids[k].0 as int] == (
        domain_cells(cut)[k].0,
        domain_cells(cut)[k].1 + st,
    ) by {
        assert(positions(all, ids)[k] == lc[k]);
        assert(domain_cells(cut)[k] == (lc[k].0, lc[k].1 - st));
    }
}

/// No cell of the domain comes twice in the walk.
pub(crate) proof fn lemma_domain_cells_distinct(m: MaskModel)
    ensures
        domain_cells(m).no_duplicates(),
{
    lemma_band_cells_distinct(m, m.rows, 0, m.cols as int);
}

/// A row segment is the concatenation of its two halves.
proof fn lemma_row_cells_split(m: MaskModel, row: int, a: int, b: int, c: int)
    requires
        a <= b <= c,
    ensures
        row_cells(m, row, a, c) == row_cells(m, row, a, b) + row_cells(m, row, b, c),
    decreases c - b,
{
    if c == b {
        assert(row_cells(m, row, a, b) + row_cells(m, row, b, c) =~= row_cells(m, row, a, b));
    } else {
        lemma_row_cells_split(m, row, a, b, c - 1);
        assert(row_cells(m, row, a, c) =~= row_cells(m, row, a, b) + row_cells(m, row, b, c));
    }
}

/// Keeping cells of a band is keeping, among all the cells of the domain, those of the
/// band's columns.
proof fn lemma_band_restriction(m: MaskModel, rows: nat, start: int, end: int, cols: int, keep: spec_fn(int) -> bool)
    requires
        0 <= start <= end <= cols,
    ensures
        keep_cells(band_cells(m, rows, start, end), keep) == keep_cells(
            band_cells(m, rows, 0, cols),
            within(start, end, keep),
        ),
    decreases rows,
{
    let k2 = within(start, end, keep);
    if rows > 0 {
        let r = rows - 1;
        lemma_band_restriction(m, (rows - 1) as nat, start, end, cols, keep);
        lemma_keep_cells_concat(band_cells(m, (rows - 1) as nat, start, end), row_cells(m, r, start, end), keep);
        lemma_keep_cells_concat(band_cells(m, (rows - 1) as nat, 0, cols), row_cells(m, r, 0, cols), k2);
        lemma_row_cells_split(m, r, 0, start, cols);
        lemma_row_cells_split(m, r, start, end, cols);
        let left = row_cells(m, r, 0, start);
        let middle = row_cells(m, r, start, end);
        let right = row_cells(m, r, end, cols);
        assert(row_cells(m, r, 0, cols) == left + (middle + right));
        lemma_keep_cells_concat(left, middle + right, k2);
        lemma_keep_cells_concat(middle, right, k2);
        lemma_row_cells_columns(m, r, 0, start);
        lemma_row_cells_columns(m, r, start, end);
        lemma_row_cells_columns(m, r, end, cols);
        assert forall|i: int| 0 <= i < left.len() implies !k2(#[trigger] left[i].1) by {}
        assert forall|i: int| 0 <= i < right.len() implies !k2(#[trigger] right[i].1) by {}
        assert forall|i: int| 0 <= i < middle.len() implies keep(#[trigger] middle[i].1) == k2(middle[i].1) by {}
        lemma_keep_cells_none(left, k2);
        lemma_keep_cells_none(right, k2);
        lemma_keep_cells_congruent(middle, keep, k2);
        assert(keep_cells(left, k2) + (keep_cells(middle, k2) + keep_cells(right, k2)) == keep_cells(middle, keep));
    }
}

/// The cells of a band, through the identifiers [`Layout::global_cells`] gives them, are
/// the very cells the band meshes: local cell `k` is global cell `global_cells()[k]`.
pub proof fn lemma_global_cells_locate(m: MaskModel, b: BandsModel, part: int)
    requires
        b.valid(),
        b.cols == m.cols,
        0 <= part < b.parts,
        band_cells(m, m.rows, 0, m.cols as int).len() <= u32::MAX,
    ensures
        positions(
            band_cells(m, m.rows, 0, m.cols as int),
            select(
                band_cells(m, m.rows, 0, m.cols as int),
                columns_between(b.extended_start(part), b.extended_end(part)),
            ),
        ) == local_cells(m, b, part),
{
    let all = band_cells(m, m.rows, 0, m.cols as int);
    let s = b.extended_start(part);
    let e = b.extended_end(part);
    lemma_owned_bounds(b, part);
    lemma_select_positions(all, columns_between(s, e));
    lemma_band_restriction(m, m.rows, s, e, m.cols as int, any_column());
    assert(within(s, e, any_column()) =~= columns_between(s, e));
    let local = local_cells(m, b, part);
    lemma_band_cells_columns(m, m.rows, s, e);
    lemma_keep_cells_all(local, any_column());
}

/// The cells of a band lie in its columns.
proof fn lemma_band_cells_columns(m: MaskModel, rows: nat, start: int, end: int)
    ensures
        forall|i: int|
            0 <= i < band_cells(m, rows, start, end).len() ==> start <= (#[trigger] band_cells(m, rows, start, end)[i]).1 < end,
    decreases rows,
{
    if rows > 0 {
        lemma_band_cells_columns(m, (rows - 1) as nat, start, end);
        lemma_row_cells_columns(m, rows - 1, start, end);
        let a = band_cells(m, (rows - 1) as nat, start, end);
        let r = row_cells(m, rows - 1, start, end);
        assert forall|i: int| 0 <= i < (a + r).len() implies start <= (#[trigger] (a + r)[i]).1 < end by {
            if i >= a.len() {
                assert((a + r)[i] == r[i - a.len()]);
            }
        }
    }
}

/// Across each cut, the cells that the left rank sends are, in the same order, the ghost
/// cells the right rank receives — and the other way round. Both ranks derive their
/// lists from the same global walk, so the exchange needs to carry values only.
pub proof fn lemma_halo_lists_match(m: MaskModel, b: BandsModel, part: int)
    requires
        b.valid(),
        b.cols == m.cols,
        0 <= part,
        part + 1 < b.parts,
        local_cells(m, b, part).len() <= u32::MAX,
        local_cells(m, b, part + 1).len() <= u32::MAX,
    ensures
        positions(local_cells(m, b, part), select(local_cells(m, b, part), send_right_cols(b, part)))
            == positions(
            local_cells(m, b, part + 1),
            select(local_cells(m, b, part + 1), recv_left_cols(b, part + 1)),
        ),
        positions(local_cells(m, b, part + 1), select(local_cells(m, b, part + 1), send_left_cols(b, part + 1)))
            == positions(local_cells(m, b, part), select(local_cells(m, b, part), recv_right_cols(b, part))),
{
    let p = part;
    let q = part + 1;
    let cols = m.cols as int;
    lemma_owned_bounds(b, p);
    lemma_owned_bounds(b, q);
    lemma_bands_tile_the_columns(b);
    assert(b.owned_end(p) == b.owned_start(q));
    let (sp, ep) = (b.extended_start(p), b.extended_end(p));
    let (sq, eq) = (b.extended_start(q), b.extended_end(q));
    let lp = local_cells(m, b, p);
    let lq = local_cells(m, b, q);
    let all = band_cells(m, m.rows, 0, cols);
    // Each band is at least `halo` columns wide.
    assert(b.owned_end(p) - b.owned_start(p) >= b.halo && b.owned_end(q) - b.owned_start(q) >= b.halo);
    lemma_select_positions(lp, send_right_cols(b, p));
    lemma_select_positions(lq, recv_left_cols(b, q));
    lemma_select_positions(lq, send_left_cols(b, q));
    lemma_select_positions(lp, recv_right_cols(b, p));
    lemma_band_restriction(m, m.rows, sp, ep, cols, send_right_cols(b, p));
    lemma_band_restriction(m, m.rows, sq, eq, cols, recv_left_cols(b, q));
    lemma_band_restriction(m, m.rows, sq, eq, cols, send_left_cols(b, q));
    lemma_band_restriction(m, m.rows, sp, ep, cols, recv_right_cols(b, p));
    assert(within(sp, ep, send_right_cols(b, p)) =~= within(sq, eq, recv_left_cols(b, q)));
    assert(within(sq, eq, send_left_cols(b, q)) =~= within(sp, ep, recv_right_cols(b, p)));
}

/// All the cells of the mask, in the numbering of a mesh of the whole domain.
pub open spec fn domain_cells(m: MaskModel) -> Seq<(int, int)> {
    band_cells(m, m.rows, 0, m.cols as int)
}

/// Across each cut, both ranks name the same cells of the domain, in the same order: the
/// cells the left rank sends, taken through its [`Layout::global_cells`], are the ghost
/// cells the right rank receives, taken through its own — and the other way round.
pub proof fn lemma_halo_lists_match_globally(m: MaskModel, b: BandsModel, part: int)
    requires
        b.valid(),
        b.cols == m.cols,
        0 <= part,
        part + 1 < b.parts,
        band_cells(m, m.rows, 0, m.cols as int).len() <= u32::MAX,
    ensures
        ({
            let all = band_cells(m, m.rows, 0, m.cols as int);
            let gp = select(all, columns_between(b.extended_start(part), b.extended_end(part)));
            let gq = select(all, columns_between(b.extended_start(part + 1), b.extended_end(part + 1)));
            let send_right = select(local_cells(m, b, part), send_right_cols(b, part));
            let recv_left = select(local_cells(m, b, part + 1), recv_left_cols(b, part + 1));
            let send_left = select(local_cells(m, b, part + 1), send_left_cols(b, part + 1));
            let recv_right = select(local_cells(m, b, part), recv_right_cols(b, part));
            &&& send_right.len() == recv_left.len()
            &&& send_left.len() == recv_right.len()
            &&& forall|k: int|
                0 <= k < send_right.len() ==> gp[(#[trigger] send_right[k]).0 as int] == gq[recv_left[k].0 as int]
            &&& forall|k: int|
                0 <= k < send_left.len() ==> gq[(#[trigger] send_left[k]).0 as int] == gp[recv_right[k].0 as int]
        }),
{
    let p = part;
    let q = part + 1;
    let all = band_cells(m, m.rows, 0, m.cols as int);
    let lp = local_cells(m, b, p);
    let lq = local_cells(m, b, q);
    let gp = select(all, columns_between(b.extended_start(p), b.extended_end(p)));
    let gq = select(all, columns_between(b.extended_start(q), b.extended_end(q)));
    lemma_owned_bounds(b, p);
    lemma_owned_bounds(b, q);
    lemma_band_cells_within(m, m.rows, b.extended_start(p), b.extended_end(p));
    lemma_band_cells_within(m, m.rows, b.extended_start(q), b.extended_end(q));
    lemma_halo_lists_match(m, b, p);
    lemma_global_cells_locate(m, b, p);
    lemma_global_cells_locate(m, b, q);
    lemma_select_positions(all, columns_between(b.extended_start(p), b.extended_end(p)));
    lemma_select_positions(all, columns_between(b.extended_start(q), b.extended_end(q)));
    let send_right = select(lp, send_right_cols(b, p));
    let recv_left = select(lq, recv_left_cols(b, q));
    let send_left = select(lq, send_left_cols(b, q));
    let recv_right = select(lp, recv_right_cols(b, p));
    lemma_select_positions(lp, send_right_cols(b, p));
    lemma_select_positions(lq, recv_left_cols(b, q));
    lemma_select_positions(lq, send_left_cols(b, q));
    lemma_select_positions(lp, recv_right_cols(b, p));
    lemma_domain_cells_distinct(m);
    assert(positions(lp, send_right).len() == send_right.len());
    assert(positions(lq, recv_left).len() == recv_left.len());
    assert(positions(lq, send_left).len() == send_left.len());
    assert(positions(lp, recv_right).len() == recv_right.len());
    assert(positions(all, gp).len() == gp.len());
    assert(positions(all, gq).len() == gq.len());
    assert forall|k: int| 0 <= k < send_right.len() implies gp[(#[trigger] send_right[k]).0 as int] == gq[recv_left[k].0 as int] by {
        let i = send_right[k].0 as int;
        let j = recv_left[k].0 as int;
        assert(positions(lp, send_right)[k] == positions(lq, recv_left)[k]);
        assert(positions(all, gp)[i] == lp[i]);
        assert(positions(all, gq)[j] == lq[j]);
        assert(all[gp[i].0 as int] == all[gq[j].0 as int]);
    }
    assert forall|k: int| 0 <= k < send_left.len() implies gq[(#[trigger] send_left[k]).0 as int] == gp[recv_right[k].0 as int] by {
        let i = send_left[k].0 as int;
        let j = recv_right[k].0 as int;
        assert(positions(lq, send_left)[k] == positions(lp, recv_right)[k]);
        assert(positions(all, gq)[i] == lq[i]);
        assert(positions(all, gp)[j] == lp[j]);
        assert(all[gq[i].0 as int] == all[gp[j].0 as int]);
    }
}

/// Cell `i` is selected exactly when its column is kept.
proof fn lemma_select_contains(cells: Seq<(int, int)>, keep: spec_fn(int) -> bool, i: int)
    requires
        cells.len() <= u32::MAX + 1,
        0 <= i < cells.len(),
    ensures
        select(cells, keep).contains(CellId(i as u32)) <==> keep(cells[i].1),
    decreases cells.len(),
{
    let before = cells.drop_last();
    let s = select(cells, keep);
    let r = select(before, keep);
    lemma_select_positions(before, keep);
    if i < cells.len() - 1 {
        lemma_select_contains(before, keep, i);
        assert(before[i] == cells[i]);
        if r.contains(CellId(i as u32)) {
            let j = choose|j: int| 0 <= j < r.len() && r[j] == CellId(i as u32);
            assert(s[j] == r[j]);
        }
        if s.contains(CellId(i as u32)) {
            let j = choose|j: int| 0 <= j < s.len() && s[j] == CellId(i as u32);
            if j < r.len() {
                assert(s[j] == r[j]);
            } else {
                assert(s[j] == CellId((cells.len() - 1) as u32));
            }
        }
    } else {
        if keep(cells.last().1) {
            assert(s[r.len() as int] == CellId(i as u32));
        }
        if s.contains(CellId(i as u32)) {
            let j = choose|j: int| 0 <= j < s.len() && s[j] == CellId(i as u32);
            if j < r.len() {
                assert(s[j] == r[j]);
                assert(r[j].0 < before.len());
            }
        }
    }
}

/// The identifiers, in the mesh of the whole domain, of the cells of band `part`: what
/// [`Layout::global_cells`] returns.
pub open spec fn band_globals(m: MaskModel, b: BandsModel, part: int) -> Seq<CellId> {
    select(band_cells(m, m.rows, 0, m.cols as int), columns_between(b.extended_start(part), b.extended_end(part)))
}

/// The local identifiers of the cells band `part` owns: what [`Layout::new`] lists as
/// owned.
pub open spec fn band_owned(m: MaskModel, b: BandsModel, part: int) -> Seq<CellId> {
    select(local_cells(m, b, part), columns_between(b.owned_start(part), b.owned_end(part)))
}

/// Owned cell `k` of band `p`: its global identifier names a cell of the domain, in the
/// band's owned columns.
proof fn lemma_owned_cell(m: MaskModel, b: BandsModel, p: int, k: int)
    requires
        b.valid(),
        b.cols == m.cols,
        band_cells(m, m.rows, 0, m.cols as int).len() <= u32::MAX,
        0 <= p < b.parts,
        0 <= k < band_owned(m, b, p).len(),
    ensures
        ({
            let all = band_cells(m, m.rows, 0, m.cols as int);
            let i = band_owned(m, b, p)[k].0 as int;
            let gi = band_globals(m, b, p)[i];
            &&& 0 <= i < local_cells(m, b, p).len()
            &&& i < band_globals(m, b, p).len()
            &&& gi.0 < all.len()
            &&& b.owned_start(p) <= all[gi.0 as int].1 < b.owned_end(p)
        }),
{
    let all = band_cells(m, m.rows, 0, m.cols as int);
    lemma_owned_bounds(b, p);
    lemma_band_cells_within(m, m.rows, b.extended_start(p), b.extended_end(p));
    lemma_global_cells_locate(m, b, p);
    let lp = local_cells(m, b, p);
    let gp = band_globals(m, b, p);
    let own = band_owned(m, b, p);
    lemma_select_positions(lp, columns_between(b.owned_start(p), b.owned_end(p)));
    lemma_select_positions(all, columns_between(b.extended_start(p), b.extended_end(p)));
    let i = own[k].0 as int;
    assert(own.contains(CellId(i as u32)));
    lemma_select_contains(lp, columns_between(b.owned_start(p), b.owned_end(p)), i);
    assert(positions(all, gp).len() == gp.len());
    assert(positions(all, gp)[i] == lp[i]);
}

/// The rank owning cell `g` of the domain, and the place of that cell in its owned list.
proof fn lemma_owner_of_cell(m: MaskModel, b: BandsModel, g: int) -> (r: (int, int))
    requires
        b.valid(),
        b.cols == m.cols,
        band_cells(m, m.rows, 0, m.cols as int).len() <= u32::MAX,
        0 <= g < band_cells(m, m.rows, 0, m.cols as int).len(),
    ensures
        0 <= r.0 < b.parts,
        0 <= r.1 < band_owned(m, b, r.0).len(),
        band_globals(m, b, r.0)[band_owned(m, b, r.0)[r.1].0 as int] == CellId(g as u32),
        b.owned_start(r.0) <= band_cells(m, m.rows, 0, m.cols as int)[g].1 < b.owned_end(r.0),
{
    let all = band_cells(m, m.rows, 0, m.cols as int);
    lemma_each_cell_has_one_owner(m, b);
    assert(all == domain_cells(m));
    assert(all[g] == domain_cells(m)[g]);
    let p = choose|p: int| 0 <= p < b.parts && #[trigger] b.owned_start(p) <= all[g].1 < b.owned_end(p);
    lemma_owned_bounds(b, p);
    lemma_band_cells_within(m, m.rows, b.extended_start(p), b.extended_end(p));
    lemma_global_cells_locate(m, b, p);
    let gp = band_globals(m, b, p);
    let lp = local_cells(m, b, p);
    lemma_select_positions(all, columns_between(b.extended_start(p), b.extended_end(p)));
    lemma_select_contains(all, columns_between(b.extended_start(p), b.extended_end(p)), g);
    assert(gp.contains(CellId(g as u32)));
    let i = choose|i: int| 0 <= i < gp.len() && gp[i] == CellId(g as u32);
    assert(positions(all, gp).len() == gp.len());
    assert(positions(all, gp)[i] == all[gp[i].0 as int]);
    assert(lp[i] == all[g]);
    lemma_select_contains(lp, columns_between(b.owned_start(p), b.owned_end(p)), i);
    let own = band_owned(m, b, p);
    assert(own.contains(CellId(i as u32)));
    let k = choose|k: int| 0 <= k < own.len() && own[k] == CellId(i as u32);
    assert(gp[own[k].0 as int] == CellId(g as u32));
    (p, k)
}

/// Cell `g` of the domain is, through its global identifier, an owned cell of some rank,
/// in that rank's owned columns.
pub open spec fn owned_by_some_rank(m: MaskModel, b: BandsModel, g: int) -> bool {
    exists|p: int, k: int|
        0 <= p < b.parts && 0 <= k < band_owned(m, b, p).len() && #[trigger] band_globals(m, b, p)[band_owned(m, b, p)[k].0 as int]
            == CellId(g as u32) && b.owned_start(p) <= band_cells(m, m.rows, 0, m.cols as int)[g].1 < b.owned_end(p)
}

/// Taken through their global identifiers, the owned cells of all the ranks are every
/// cell of the domain, each exactly once.
pub proof fn lemma_owned_cells_partition(m: MaskModel, b: BandsModel)
    requires
        b.valid(),
        b.cols == m.cols,
        band_cells(m, m.rows, 0, m.cols as int).len() <= u32::MAX,
    ensures
        forall|g: int| 0 <= g < band_cells(m, m.rows, 0, m.cols as int).len() ==> #[trigger] owned_by_some_rank(m, b, g),
        forall|p: int, q: int, k: int, l: int|
            0 <= p < b.parts && 0 <= q < b.parts && 0 <= k < band_owned(m, b, p).len() && 0 <= l < band_owned(
                m,
                b,
                q,
            ).len() && #[trigger] band_globals(m, b, p)[band_owned(m, b, p)[k].0 as int] == #[trigger] band_globals(
                m,
                b,
                q,
            )[band_owned(m, b, q)[l].0 as int] ==> p == q && k == l,
{
    assert forall|p: int, q: int, k: int, l: int|
        0 <= p < b.parts && 0 <= q < b.parts && 0 <= k < band_owned(m, b, p).len() && 0 <= l < band_owned(m, b, q).len()
            && #[trigger] band_globals(m, b, p)[band_owned(m, b, p)[k].0 as int] == #[trigger] band_globals(m, b, q)[band_owned(
            m,
            b,
            q,
        )[l].0 as int] implies p == q && k == l by {
        lemma_owned_cell(m, b, p, k);
        lemma_owned_cell(m, b, q, l);
        lemma_each_cell_has_one_owner(m, b);
        let all = band_cells(m, m.rows, 0, m.cols as int);
        let gi = band_globals(m, b, p)[band_owned(m, b, p)[k].0 as int];
        assert(all == domain_cells(m));
        assert(all[gi.0 as int] == domain_cells(m)[gi.0 as int]);
        assert(p == q);
        let lp = local_cells(m, b, p);
        lemma_owned_bounds(b, p);
        lemma_band_cells_within(m, m.rows, b.extended_start(p), b.extended_end(p));
        lemma_select_increasing(all, columns_between(b.extended_start(p), b.extended_end(p)));
        lemma_select_increasing(lp, columns_between(b.owned_start(p), b.owned_end(p)));
        let own = band_owned(m, b, p);
        let gp = band_globals(m, b, p);
        if k != l {
            assert(own[k].0 != own[l].0);
            assert(gp[own[k].0 as int] != gp[own[l].0 as int]);
        }
    }
    assert forall|g: int| 0 <= g < band_cells(m, m.rows, 0, m.cols as int).len() implies #[trigger] owned_by_some_rank(m, b, g) by {
        let (p, k) = lemma_owner_of_cell(m, b, g);
    }
}

/// Every cell of the domain is owned by exactly one rank.
pub proof fn lemma_each_cell_has_one_owner(m: MaskModel, b: BandsModel)
    requires
        b.valid(),
        b.cols == m.cols,
    ensures
        forall|k: int|
            #![trigger domain_cells(m)[k]]
            0 <= k < domain_cells(m).len() ==> exists|p: int|
                0 <= p < b.parts && #[trigger] b.owned_start(p) <= domain_cells(m)[k].1 < b.owned_end(p),
        forall|k: int, p: int, q: int|
            #![trigger domain_cells(m)[k], b.owned_start(p), b.owned_start(q)]
            0 <= k < domain_cells(m).len() && 0 <= p < b.parts && 0 <= q < b.parts
                && b.owned_start(p) <= domain_cells(m)[k].1 < b.owned_end(p)
                && b.owned_start(q) <= domain_cells(m)[k].1 < b.owned_end(q) ==> p == q,
{
    lemma_band_cells_columns(m, m.rows, 0, m.cols as int);
    lemma_owned_bounds(b, 0);
    assert forall|k: int| #![trigger domain_cells(m)[k]] 0 <= k < domain_cells(m).len() implies exists|p: int|
        0 <= p < b.parts && #[trigger] b.owned_start(p) <= domain_cells(m)[k].1 < b.owned_end(p) by {
        assert(0 <= domain_cells(m)[k].1 < b.cols);
        let p = lemma_owner_of_column(b, domain_cells(m)[k].1, 0);
    }
    assert forall|k: int, p: int, q: int|
        #![trigger domain_cells(m)[k], b.owned_start(p), b.owned_start(q)]
        0 <= k < domain_cells(m).len() && 0 <= p < b.parts && 0 <= q < b.parts
            && b.owned_start(p) <= domain_cells(m)[k].1 < b.owned_end(p)
            && b.owned_start(q) <= domain_cells(m)[k].1 < b.owned_end(q) implies p == q by {
        if p < q {
            lemma_bands_ordered(b, p, q);
        } else if q < p {
            lemma_bands_ordered(b, q, p);
        }
    }
}

/// Bands come left to right.
proof fn lemma_bands_ordered(b: BandsModel, p: int, q: int)
    requires
        b.valid(),
        0 <= p < q < b.parts,
    ensures
        b.owned_end(p) <= b.owned_start(q),
    decreases q - p,
{
    lemma_next_band(b, q - 1);
    if p < q - 1 {
        lemma_bands_ordered(b, p, q - 1);
        lemma_owned_bounds(b, q - 1);
    }
}

/// The band, from `from` on, that owns column `c`.
proof fn lemma_owner_of_column(b: BandsModel, c: int, from: int) -> (p: int)
    requires
        b.valid(),
        0 <= from < b.parts,
        b.owned_start(from) <= c < b.cols,
    ensures
        from <= p < b.parts,
        b.owned_start(p) <= c < b.owned_end(p),
    decreases b.parts - from,
{
    if c < b.owned_end(from) {
        from
    } else {
        if from + 1 >= b.parts {
            lemma_bands_tile_the_columns(b);
            assert(false);
        }
        lemma_next_band(b, from);
        lemma_owner_of_column(b, c, from + 1)
    }
}


/// The cells walked so far, up to cell `(row, col - 1)`, are a prefix of the domain walk.
pub(crate) proof fn lemma_prefix_of_domain(m: MaskModel, row: int, col: int)
    requires
        0 <= row < m.rows,
        0 <= col <= m.cols,
    ensures
        ({
            let seen = band_cells(m, row as nat, 0, m.cols as int) + row_cells(m, row, 0, col);
            seen.len() <= domain_cells(m).len() && domain_cells(m).take(seen.len() as int) == seen
        }),
{
    let seen = band_cells(m, row as nat, 0, m.cols as int) + row_cells(m, row, 0, col);
    lemma_row_cells_split(m, row, 0, col, m.cols as int);
    let full_row = band_cells(m, (row + 1) as nat, 0, m.cols as int);
    assert(full_row == seen + row_cells(m, row, col, m.cols as int));
    lemma_band_prefix(m, (row + 1) as nat, m.rows, 0, m.cols as int);
    assert(full_row.take(seen.len() as int) == seen);
}

/// The walk of fewer rows is a prefix of the walk of more rows.
proof fn lemma_band_prefix(m: MaskModel, r: nat, rows: nat, start: int, end: int)
    requires
        r <= rows,
    ensures
        band_cells(m, r, start, end).len() <= band_cells(m, rows, start, end).len(),
        band_cells(m, rows, start, end).take(band_cells(m, r, start, end).len() as int) == band_cells(m, r, start, end),
    decreases rows - r,
{
    if r < rows {
        lemma_band_prefix(m, r, (rows - 1) as nat, start, end);
        let a = band_cells(m, (rows - 1) as nat, start, end);
        let b = band_cells(m, r, start, end);
        assert((a + row_cells(m, rows - 1, start, end)).take(b.len() as int) =~= a.take(b.len() as int));
    } else {
        assert(band_cells(m, rows, start, end).take(band_cells(m, r, start, end).len() as int) =~= band_cells(m, r, start, end));
    }
}

/// Values of the cells `ids`, in that order.
pub open spec fn gathered<T>(values: Seq<T>, ids: Seq<CellId>) -> Seq<T> {
    ids.map_values(|id: CellId| values[id.0 as int])
}

/// `values` after writing `incoming[k]` into cell `ids[k]`, for `k` from `0` to `n - 1`,
/// in that order.
pub open spec fn scattered<T>(values: Seq<T>, ids: Seq<CellId>, incoming: Seq<T>, n: nat) -> Seq<T>
    decreases n,
{
    if n == 0 {
        values
    } else {
        scattered(values, ids, incoming, (n - 1) as nat).update(ids[n - 1].0 as int, incoming[n - 1])
    }
}

/// Every identifier of `ids` designates one of `n` cells.
pub open spec fn ids_within(ids: Seq<CellId>, n: int) -> bool {
    forall|k: int| 0 <= k < ids.len() ==> (#[trigger] ids[k]).0 < n
}

/// Copies the values of the cells `ids` into `out`, in that order.
///
/// [`pack`] without the allocation: `out` is emptied, then filled, so the capacity it
/// gained at the first call serves all the following ones.
pub fn pack_into<T: Copy>(values: &[T], ids: &[CellId], out: &mut Vec<T>)
    requires
        ids_within(ids@, values@.len() as int),
    ensures
        final(out)@ == gathered(values@, ids@),
{
    out.clear();
    let mut k: usize = 0;
    while k < ids.len()
        invariant
            k <= ids@.len(),
            ids_within(ids@, values@.len() as int),
            out@ == gathered(values@, ids@.take(k as int)),
        decreases ids@.len() - k,
    {
        let id = ids[k];
        out.push(values[id.index()]);
        k = k + 1;
        assert(out@ =~= gathered(values@, ids@.take(k as int)));
    }
    assert(ids@.take(ids@.len() as int) == ids@);
}

/// The values of the cells `ids`, in that order: what a rank sends across a cut.
pub fn pack<T: Copy>(values: &[T], ids: &[CellId]) -> (r: Vec<T>)
    requires
        ids_within(ids@, values@.len() as int),
    ensures
        r@ == gathered(values@, ids@),
{
    let mut out: Vec<T> = Vec::new();
    pack_into(values, ids, &mut out);
    out
}

/// Writes the received values into the cells `ids`, in that order: what a rank does with
/// what comes across a cut.
///
/// There must be one value per cell; a mismatch is the symptom of two sides of a cut that
/// disagree.
pub fn unpack<T: Copy>(values: &mut Vec<T>, ids: &[CellId], incoming: &[T])
    requires
        ids@.len() == incoming@.len(),
        ids_within(ids@, old(values)@.len() as int),
    ensures
        final(values)@ == scattered(old(values)@, ids@, incoming@, ids@.len()),
{
    let ghost start = values@;
    let mut k: usize = 0;
    while k < ids.len()
        invariant
            k <= ids@.len(),
            ids@.len() == incoming@.len(),
            ids_within(ids@, start.len() as int),
            values@ == scattered(start, ids@, incoming@, k as nat),
        decreases ids@.len() - k,
    {
        proof {
            lemma_scattered_len(start, ids@, incoming@, k as nat);
        }
        let id = ids[k];
        values.set(id.index(), incoming[k]);
        k = k + 1;
    }
}

/// Writing values keeps the number of cells.
proof fn lemma_scattered_len<T>(values: Seq<T>, ids: Seq<CellId>, incoming: Seq<T>, n: nat)
    requires
        n <= ids.len(),
        ids_within(ids, values.len() as int),
    ensures
        scattered(values, ids, incoming, n).len() == values.len(),
    decreases n,
{
    if n > 0 {
        lemma_scattered_len(values, ids, incoming, (n - 1) as nat);
    }
}

/// After writing the first `n` values into distinct cells, each of those cells holds its
/// value, and every other cell is untouched.
proof fn lemma_scattered_at<T>(values: Seq<T>, ids: Seq<CellId>, incoming: Seq<T>, n: nat)
    requires
        n <= ids.len(),
        n <= incoming.len(),
        ids_within(ids, values.len() as int),
        ids.no_duplicates(),
    ensures
        forall|k: int| 0 <= k < n ==> scattered(values, ids, incoming, n)[#[trigger] ids[k].0 as int] == incoming[k],
        forall|c: int|
            0 <= c < values.len() && (forall|k: int| 0 <= k < n ==> #[trigger] ids[k].0 != c) ==> scattered(
                values,
                ids,
                incoming,
                n,
            )[c] == values[c],
    decreases n,
{
    if n > 0 {
        lemma_scattered_at(values, ids, incoming, (n - 1) as nat);
        lemma_scattered_len(values, ids, incoming, (n - 1) as nat);
        let last = n - 1;
        assert forall|k: int| 0 <= k < n implies scattered(values, ids, incoming, n)[#[trigger] ids[k].0 as int] == incoming[k] by {
            if k < last {
                assert(ids[k] != ids[last]);
                assert(ids[k].0 != ids[last].0);
            }
        }
        assert forall|c: int|
            0 <= c < values.len() && (forall|k: int| 0 <= k < n ==> #[trigger] ids[k].0 != c) implies scattered(
                values,
                ids,
                incoming,
                n,
            )[c] == values[c] by {
            assert(ids[last].0 != c);
        }
    }
}

/// Unpacking into distinct cells delivers the values: reading those cells back gives
/// exactly what was unpacked, and no other cell changes.
pub proof fn lemma_unpack_delivers<T>(values: Seq<T>, ids: Seq<CellId>, incoming: Seq<T>)
    requires
        ids.len() == incoming.len(),
        ids_within(ids, values.len() as int),
        ids.no_duplicates(),
    ensures
        scattered(values, ids, incoming, ids.len()).len() == values.len(),
        gathered(scattered(values, ids, incoming, ids.len()), ids) == incoming,
        forall|c: int|
            0 <= c < values.len() && !ids.contains(CellId(c as u32)) ==> scattered(values, ids, incoming, ids.len())[c]
                == values[c],
{
    lemma_scattered_len(values, ids, incoming, ids.len());
    lemma_scattered_at(values, ids, incoming, ids.len());
    let after = scattered(values, ids, incoming, ids.len());
    assert(gathered(after, ids) =~= incoming);
    assert forall|c: int| 0 <= c < values.len() && !ids.contains(CellId(c as u32)) implies after[c] == values[c] by {
        assert forall|k: int| 0 <= k < ids.len() implies #[trigger] ids[k].0 != c by {
            if ids[k].0 == c {
                assert(ids[k] == CellId(c as u32));
            }
        }
    }
}

/// Unpacking into a field the values packed from that same field changes nothing.
pub proof fn lemma_unpack_of_pack<T>(values: Seq<T>, ids: Seq<CellId>)
    requires
        ids_within(ids, values.len() as int),
    ensures
        scattered(values, ids, gathered(values, ids), ids.len()) == values,
{
    lemma_unpack_of_pack_prefix(values, ids, ids.len());
}

/// [`lemma_unpack_of_pack`] for the first `n` cells.
proof fn lemma_unpack_of_pack_prefix<T>(values: Seq<T>, ids: Seq<CellId>, n: nat)
    requires
        n <= ids.len(),
        ids_within(ids, values.len() as int),
    ensures
        scattered(values, ids, gathered(values, ids), n) == values,
    decreases n,
{
    if n > 0 {
        lemma_unpack_of_pack_prefix(values, ids, (n - 1) as nat);
        let id = ids[n - 1].0 as int;
        assert(values.update(id, values[id]) =~= values);
    }
}

/// Selected identifiers strictly increase.
proof fn lemma_select_increasing(cells: Seq<(int, int)>, keep: spec_fn(int) -> bool)
    requires
        cells.len() <= u32::MAX + 1,
    ensures
        forall|i: int, j: int|
            0 <= i < j < select(cells, keep).len() ==> (#[trigger] select(cells, keep)[i]).0 < (#[trigger] select(
                cells,
                keep,
            )[j]).0,
        select(cells, keep).no_duplicates(),
    decreases cells.len(),
{
    if cells.len() > 0 {
        let before = cells.drop_last();
        lemma_select_increasing(before, keep);
        lemma_select_positions(before, keep);
        let s = select(cells, keep);
        let r = select(before, keep);
        assert forall|i: int, j: int| 0 <= i < j < s.len() implies (#[trigger] s[i]).0 < (#[trigger] s[j]).0 by {
            assert(s[i] == r[i]);
            if j < r.len() {
                assert(s[j] == r[j]);
            }
        }
        assert forall|i: int, j: int| 0 <= i < s.len() && 0 <= j < s.len() && i != j implies s[i] != s[j] by {
            if i < j {
                assert(s[i].0 < s[j].0);
            } else {
                assert(s[j].0 < s[i].0);
            }
        }
    }
}

/// The selected cells of `cells` and what a rank holding one value per cell packs for
/// them: the identifiers are cells of the band, distinct, and read back after unpacking.
proof fn lemma_select_unpack<T>(cells: Seq<(int, int)>, keep: spec_fn(int) -> bool, values: Seq<T>, incoming: Seq<T>)
    requires
        cells.len() <= u32::MAX,
        values.len() == cells.len(),
        incoming.len() == select(cells, keep).len(),
    ensures
        ids_within(select(cells, keep), values.len() as int),
        gathered(scattered(values, select(cells, keep), incoming, incoming.len()), select(cells, keep)) == incoming,
{
    lemma_select_positions(cells, keep);
    lemma_select_increasing(cells, keep);
    lemma_unpack_delivers(values, select(cells, keep), incoming);
}

/// The exchange across the cut between bands `part` and `part + 1` delivers what it
/// should: once each rank has unpacked, into its ghost cells, what the other packed from
/// the cells it sends, each ghost cell holds the value that its owner holds for the very
/// same cell of the domain.
pub proof fn lemma_exchange_delivers<T>(m: MaskModel, b: BandsModel, part: int, left: Seq<T>, right: Seq<T>)
    requires
        b.valid(),
        b.cols == m.cols,
        0 <= part,
        part + 1 < b.parts,
        local_cells(m, b, part).len() <= u32::MAX,
        local_cells(m, b, part + 1).len() <= u32::MAX,
        left.len() == local_cells(m, b, part).len(),
        right.len() == local_cells(m, b, part + 1).len(),
    ensures
        ({
            let lp = local_cells(m, b, part);
            let lq = local_cells(m, b, part + 1);
            let send_right = select(lp, send_right_cols(b, part));
            let recv_left = select(lq, recv_left_cols(b, part + 1));
            let send_left = select(lq, send_left_cols(b, part + 1));
            let recv_right = select(lp, recv_right_cols(b, part));
            let right_after = scattered(right, recv_left, gathered(left, send_right), recv_left.len());
            let left_after = scattered(left, recv_right, gathered(right, send_left), recv_right.len());
            &&& ids_within(send_right, left.len() as int) && ids_within(recv_right, left.len() as int)
            &&& ids_within(send_left, right.len() as int) && ids_within(recv_left, right.len() as int)
            &&& send_right.len() == recv_left.len() && send_left.len() == recv_right.len()
            &&& forall|k: int|
                0 <= k < recv_left.len() ==> lq[(#[trigger] recv_left[k]).0 as int] == lp[send_right[k].0 as int]
                    && right_after[recv_left[k].0 as int] == left[send_right[k].0 as int]
            &&& forall|k: int|
                0 <= k < recv_right.len() ==> lp[(#[trigger] recv_right[k]).0 as int] == lq[send_left[k].0 as int]
                    && left_after[recv_right[k].0 as int] == right[send_left[k].0 as int]
        }),
{
    let lp = local_cells(m, b, part);
    let lq = local_cells(m, b, part + 1);
    let send_right = select(lp, send_right_cols(b, part));
    let recv_left = select(lq, recv_left_cols(b, part + 1));
    let send_left = select(lq, send_left_cols(b, part + 1));
    let recv_right = select(lp, recv_right_cols(b, part));
    lemma_halo_lists_match(m, b, part);
    lemma_select_positions(lp, send_right_cols(b, part));
    lemma_select_positions(lq, send_left_cols(b, part + 1));
    assert(positions(lp, send_right).len() == send_right.len());
    assert(positions(lq, recv_left).len() == recv_left.len());
    assert(positions(lq, send_left).len() == send_left.len());
    assert(positions(lp, recv_right).len() == recv_right.len());
    lemma_select_unpack(lq, recv_left_cols(b, part + 1), right, gathered(left, send_right));
    lemma_select_unpack(lp, recv_right_cols(b, part), left, gathered(right, send_left));
    let right_after = scattered(right, recv_left, gathered(left, send_right), recv_left.len());
    let left_after = scattered(left, recv_right, gathered(right, send_left), recv_right.len());
    assert forall|k: int| 0 <= k < recv_left.len() implies lq[(#[trigger] recv_left[k]).0 as int] == lp[send_right[k].0 as int]
        && right_after[recv_left[k].0 as int] == left[send_right[k].0 as int] by {
        assert(positions(lq, recv_left)[k] == positions(lp, send_right)[k]);
        assert(gathered(right_after, recv_left)[k] == gathered(left, send_right)[k]);
    }
    assert forall|k: int| 0 <= k < recv_right.len() implies lp[(#[trigger] recv_right[k]).0 as int] == lq[send_left[k].0 as int]
        && left_after[recv_right[k].0 as int] == right[send_left[k].0 as int] by {
        assert(positions(lp, recv_right)[k] == positions(lq, send_left)[k]);
        assert(gathered(left_after, recv_right)[k] == gathered(right, send_left)[k]);
    }
}

} // verus!
