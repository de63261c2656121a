//! Reading and validating the domain mask.
//!
//! A mask is a text file: `.` for a fluid cell, `#` for a solid one. Lines starting with
//! `%` are comments, blank lines are ignored.
//!
//! ```text
//! % a test section with an obstacle
//! ...........
//! ....###....
//! ....###....
//! ...........
//! ```
//!
//! The format is drawn by hand, so it is where wrong data comes in: a short line, a
//! stray character, an obstacle cutting the domain in two. This module says so
//! precisely rather than produce a silently wrong mesh.

use vstd::prelude::*;

use crate::error::MeshError;

verus! {

/// Character of a fluid cell.
pub const FLUID: char = '.';
/// Character of a solid cell.
pub const SOLID: char = '#';
/// Prefix of comment lines.
pub const COMMENT: char = '%';

/// Mathematical model of a mask: a `rows × cols` grid stored row by row.
pub struct MaskModel {
    /// Number of rows.
    pub rows: nat,
    /// Number of columns.
    pub cols: nat,
    /// Fluid flag of each cell, row by row; row 0 is the top of the domain.
    pub fluid: Seq<bool>,
}

impl MaskModel {
    /// The flat storage holds exactly one flag per cell.
    pub open spec fn well_formed(self) -> bool {
        self.fluid.len() == self.rows * self.cols
    }

    /// Is `(row, col)` a fluid cell? Outside the grid, it is not.
    pub open spec fn fluid_at(self, row: int, col: int) -> bool {
        0 <= row < self.rows && 0 <= col < self.cols && self.fluid[row * self.cols + col]
    }

    /// Are the cells of flat indices `k` and `n` two fluid cells sharing a side?
    pub open spec fn adjacent(self, k: int, n: int) -> bool {
        &&& 0 <= k < self.fluid.len()
        &&& 0 <= n < self.fluid.len()
        &&& self.fluid[k]
        &&& self.fluid[n]
        &&& {
            ||| n == k + self.cols
            ||| k == n + self.cols
            ||| (n == k + 1 && k % (self.cols as int) != self.cols - 1)
            ||| (k == n + 1 && n % (self.cols as int) != self.cols - 1)
        }
    }

    /// `p` is a walk through fluid cells, each step to a side neighbour.
    pub open spec fn is_path(self, p: Seq<int>) -> bool {
        &&& p.len() > 0
        &&& 0 <= p[0] < self.fluid.len()
        &&& self.fluid[p[0]]
        &&& forall|i: int| 0 <= i < p.len() - 1 ==> #[trigger] self.adjacent(p[i], p[i + 1])
    }

    /// Fluid cell `b` can be reached from fluid cell `a`.
    pub open spec fn connected(self, a: int, b: int) -> bool {
        exists|p: Seq<int>| #[trigger] self.is_path(p) && p[0] == a && p.last() == b
    }

    /// Cell `k` is the first cell of its connected piece of fluid.
    pub open spec fn is_representative(self, k: int) -> bool {
        &&& 0 <= k < self.fluid.len()
        &&& self.fluid[k]
        &&& forall|j: int| 0 <= j < k ==> !#[trigger] self.connected(j, k)
    }

    /// Number of representatives among the first `k` cells.
    pub open spec fn count_representatives(self, k: nat) -> nat
        decreases k,
    {
        if k == 0 {
            0
        } else {
            self.count_representatives((k - 1) as nat) + if self.is_representative(k - 1) {
                1nat
            } else {
                0nat
            }
        }
    }

    /// Number of connected pieces of fluid.
    pub open spec fn components(self) -> nat {
        self.count_representatives(self.fluid.len())
    }
}

/// Number of `true` flags in `s`.
pub open spec fn count_true(s: Seq<bool>) -> nat
    decreases s.len(),
{
    if s.len() == 0 {
        0
    } else {
        count_true(s.drop_last()) + if s.last() {
            1nat
        } else {
            0nat
        }
    }
}

/// Unicode `White_Space` property, as `char::is_whitespace` tests it.
pub open spec fn white_space(c: char) -> bool {
    let u = c as u32;
    ||| 0x9 <= u <= 0xD
    ||| u == 0x20
    ||| u == 0x85
    ||| u == 0xA0
    ||| u == 0x1680
    ||| 0x2000 <= u <= 0x200A
    ||| u == 0x2028
    ||| u == 0x2029
    ||| u == 0x202F
    ||| u == 0x205F
    ||| u == 0x3000
}

/// `s` without its trailing white space.
pub open spec fn trim_end(s: Seq<char>) -> Seq<char>
    decreases s.len(),
{
    if s.len() > 0 && white_space(s.last()) {
        trim_end(s.drop_last())
    } else {
        s
    }
}

/// The lines of `s`: the pieces between `'\n'` characters.
///
/// A final empty piece (text ending with a newline) is kept; it is blank, and blank
/// lines are skipped, so it changes nothing to what is read.
pub open spec fn split_lines(s: Seq<char>) -> Seq<Seq<char>>
    decreases s.len(),
{
    if s.len() == 0 {
        seq![Seq::empty()]
    } else {
        let before = split_lines(s.drop_last());
        if s.last() == '\n' {
            before.push(Seq::empty())
        } else {
            before.update(before.len() - 1, before.last().push(s.last()))
        }
    }
}

/// Index of the first character of `line`, from `j` on, that is neither fluid nor solid.
pub open spec fn first_invalid(line: Seq<char>, j: nat) -> Option<nat>
    decreases line.len() - j,
{
    if j >= line.len() {
        None
    } else if line[j as int] != FLUID && line[j as int] != SOLID {
        Some(j)
    } else {
        first_invalid(line, j + 1)
    }
}

/// Fluid flags of a valid row.
pub open spec fn row_flags(line: Seq<char>) -> Seq<bool> {
    line.map_values(|c: char| c == FLUID)
}

/// Reads the lines from `i` on, having read `rows` rows of width `cols` so far.
pub open spec fn parse_lines(
    lines: Seq<Seq<char>>,
    i: nat,
    rows: nat,
    cols: nat,
    fluid: Seq<bool>,
) -> Result<MaskModel, MeshError>
    decreases lines.len() - i,
{
    if i >= lines.len() {
        Ok(MaskModel { rows, cols, fluid })
    } else {
        let line = trim_end(lines[i as int]);
        if line.len() == 0 || line[0] == COMMENT {
            parse_lines(lines, i + 1, rows, cols, fluid)
        } else if rows > 0 && line.len() != cols {
            Err(
                MeshError::RaggedMask {
                    line: (i + 1) as usize,
                    expected: cols as usize,
                    got: line.len() as usize,
                },
            )
        } else {
            match first_invalid(line, 0) {
                Some(j) => Err(
                    MeshError::InvalidChar {
                        line: (i + 1) as usize,
                        col: (j + 1) as usize,
                        ch: line[j as int],
                    },
                ),
                None => parse_lines(lines, i + 1, rows + 1, line.len(), fluid + row_flags(line)),
            }
        }
    }
}

/// The mask that `text` describes, or the first fault found in it.
pub open spec fn parse_spec(text: Seq<char>) -> Result<MaskModel, MeshError> {
    match parse_lines(split_lines(text), 0, 0, 0, Seq::empty()) {
        Err(e) => Err(e),
        Ok(m) => if m.rows == 0 || !m.fluid.contains(true) {
            Err(MeshError::EmptyDomain)
        } else if m.components() > 1 {
            Err(MeshError::Disconnected { components: m.components() as usize })
        } else {
            Ok(m)
        },
    }
}

/// One step of `parse_lines` on a row holding an invalid character.
proof fn lemma_parse_lines_invalid(
    lines: Seq<Seq<char>>,
    i: nat,
    rows: nat,
    cols: nat,
    fluid: Seq<bool>,
    j: nat,
)
    requires
        i < lines.len(),
        trim_end(lines[i as int]).len() > 0,
        trim_end(lines[i as int])[0] != COMMENT,
        !(rows > 0 && trim_end(lines[i as int]).len() != cols),
        first_invalid(trim_end(lines[i as int]), 0) == Some(j),
    ensures
        parse_lines(lines, i, rows, cols, fluid) == Err::<MaskModel, MeshError>(
            MeshError::InvalidChar {
                line: (i + 1) as usize,
                col: (j + 1) as usize,
                ch: trim_end(lines[i as int])[j as int],
            },
        ),
{
}

/// Views of a list of lines.
pub open spec fn lines_view(lines: Seq<Vec<char>>) -> Seq<Seq<char>> {
    lines.map_values(|l: Vec<char>| l@)
}

/// Does `c` have the Unicode `White_Space` property?
fn is_white_space(c: char) -> (r: bool)
    ensures
        r == white_space(c),
{
    let u = c as u32;
    (0x9 <= u && u <= 0xD) || u == 0x20 || u == 0x85 || u == 0xA0 || u == 0x1680 || (0x2000 <= u
        && u <= 0x200A) || u == 0x2028 || u == 0x2029 || u == 0x202F || u == 0x205F || u == 0x3000
}

/// Length of `line` once its trailing white space is removed.
fn trimmed_len(line: &Vec<char>) -> (w: usize)
    ensures
        w <= line@.len(),
        trim_end(line@) == line@.take(w as int),
{
    let mut w = line.len();
    assert(line@.take(w as int) == line@);
    while w > 0 && is_white_space(line[w - 1])
        invariant
            w <= line@.len(),
            trim_end(line@) == trim_end(line@.take(w as int)),
        decreases w,
    {
        assert(line@.take(w as int).drop_last() == line@.take(w - 1));
        w = w - 1;
    }
    w
}

/// The characters of `text`.
fn chars_of(text: &str) -> (r: Vec<char>)
    ensures
        r@ == text@,
{
    broadcast use vstd::string::group_string_axioms;

    let mut out: Vec<char> = Vec::new();
    for c in it: text.chars()
        invariant
            out@ == it.seq().take(it.index() as int),
    {
        out.push(c);
    }
    out
}

/// The lines of a character sequence, split at each `'\n'`.
pub(crate) fn lines_of(chars: &Vec<char>) -> (r: Vec<Vec<char>>)
    ensures
        lines_view(r@) == split_lines(chars@),
{
    let mut done: Vec<Vec<char>> = Vec::new();
    let mut cur: Vec<char> = Vec::new();
    let mut i: usize = 0;
    assert(chars@.take(0) == Seq::<char>::empty());
    assert(lines_view(done@).push(cur@) == split_lines(Seq::<char>::empty()));
    while i < chars.len()
        invariant
            i <= chars@.len(),
            lines_view(done@).push(cur@) == split_lines(chars@.take(i as int)),
        decreases chars@.len() - i,
    {
        let c = chars[i];
        let ghost prefix = chars@.take(i as int + 1);
        assert(prefix.drop_last() == chars@.take(i as int));
        assert(prefix.last() == c);
        let ghost before_done = done@;
        let ghost before_cur = cur@;
        if c == '\n' {
            done.push(cur);
            cur = Vec::new();
            assert(lines_view(done@) =~= lines_view(before_done).push(before_cur));
        } else {
            cur.push(c);
            let ghost lines = lines_view(done@).push(before_cur);
            assert(lines.update(lines.len() - 1, lines.last().push(c)) =~= lines_view(done@).push(
                cur@,
            ));
        }
        i = i + 1;
    }
    assert(chars@.take(chars@.len() as int) == chars@);
    done.push(cur);
    done
}

/// A rectangular grid of fluid or solid cells. Row 0 is the **top** of the domain.
#[derive(Debug)]
pub struct Mask {
    rows: usize,
    cols: usize,
    fluid: Vec<bool>,
}

impl View for Mask {
    type V = MaskModel;

    closed spec fn view(&self) -> MaskModel {
        MaskModel { rows: self.rows as nat, cols: self.cols as nat, fluid: self.fluid@ }
    }
}

/// A one-cell walk.
proof fn lemma_connected_reflexive(m: MaskModel, a: int)
    requires
        0 <= a < m.fluid.len(),
        m.fluid[a],
    ensures
        m.connected(a, a),
{
    let p = seq![a];
    assert(m.is_path(p));
}

/// A walk extended by one step.
proof fn lemma_connected_step(m: MaskModel, a: int, x: int, y: int)
    requires
        m.connected(a, x),
        m.adjacent(x, y),
    ensures
        m.connected(a, y),
{
    let p = choose|p: Seq<int>| #[trigger] m.is_path(p) && p[0] == a && p.last() == x;
    let q = p.push(y);
    assert forall|i: int| 0 <= i < q.len() - 1 implies #[trigger] m.adjacent(q[i], q[i + 1]) by {
        if i < p.len() - 1 {
            assert(m.adjacent(p[i], p[i + 1]));
        }
    }
    assert(m.is_path(q));
}

/// A walk that starts in a set closed under adjacency never leaves it.
proof fn lemma_walk_stays_in_closed_set(m: MaskModel, p: Seq<int>, seen: Seq<bool>)
    requires
        m.is_path(p),
        seen.len() == m.fluid.len(),
        seen[p[0]],
        forall|x: int, y: int| 0 <= x < seen.len() && seen[x] && #[trigger] m.adjacent(x, y) ==> seen[y],
    ensures
        0 <= p.last() < seen.len(),
        seen[p.last()],
    decreases p.len(),
{
    if p.len() > 1 {
        let q = p.drop_last();
        assert forall|i: int| 0 <= i < q.len() - 1 implies #[trigger] m.adjacent(q[i], q[i + 1]) by {
            assert(m.adjacent(p[i], p[i + 1]));
        }
        lemma_walk_stays_in_closed_set(m, q, seen);
        let i = p.len() - 2;
        assert(m.adjacent(p[i], p[i + 1]));
    }
}

/// The side neighbours of cell `k`, as the breadth-first search enumerates them.
proof fn lemma_adjacent_cases(m: MaskModel, k: int, y: int)
    requires
        m.well_formed(),
        m.cols > 0,
        0 <= k < m.fluid.len(),
        0 <= y < m.fluid.len(),
    ensures
        k % (m.cols as int) > 0 ==> k >= 1,
        k % (m.cols as int) + 1 < m.cols ==> k + 1 < m.fluid.len(),
        m.adjacent(k, y) <==> (m.fluid[k] && m.fluid[y] && {
            ||| (k >= m.cols && y == k - m.cols)
            ||| (k + m.cols < m.fluid.len() && y == k + m.cols)
            ||| (k % (m.cols as int) > 0 && y == k - 1)
            ||| (k % (m.cols as int) + 1 < m.cols && y == k + 1)
        }),
{
    let c = m.cols as int;
    let rows = m.rows as int;
    let q = k / c;
    let r = k % c;
    let qy = y / c;
    let ry = y % c;
    assert(k == c * q + r && 0 <= r < c) by {
        vstd::arithmetic::div_mod::lemma_fundamental_div_mod(k, c);
        vstd::arithmetic::div_mod::lemma_mod_bound(k, c);
    }
    assert(y == c * qy + ry && 0 <= ry < c) by {
        vstd::arithmetic::div_mod::lemma_fundamental_div_mod(y, c);
        vstd::arithmetic::div_mod::lemma_mod_bound(y, c);
    }
    assert(m.fluid.len() == rows * c);
    if r + 1 < c {
        assert(k + 1 < rows * c) by (nonlinear_arith)
            requires
                k == c * q + r,
                0 <= r,
                r + 1 < c,
                k < rows * c,
        ;
    }
    if y == k - 1 && r > 0 {
        assert(y == q * c + (r - 1)) by (nonlinear_arith)
            requires
                k == c * q + r,
                y == k - 1,
        ;
        vstd::arithmetic::div_mod::lemma_fundamental_div_mod_converse(y, c, q, r - 1);
    }
    if k == y + 1 && ry != c - 1 {
        assert(k == qy * c + (ry + 1)) by (nonlinear_arith)
            requires
                y == c * qy + ry,
                k == y + 1,
        ;
        vstd::arithmetic::div_mod::lemma_fundamental_div_mod_converse(k, c, qy, ry + 1);
    }
}

/// Setting one more flag adds one to the count.
proof fn lemma_count_true_set(s: Seq<bool>, k: int)
    requires
        0 <= k < s.len(),
        !s[k],
    ensures
        count_true(s.update(k, true)) == count_true(s) + 1,
        count_true(s) < s.len(),
    decreases s.len(),
{
    let t = s.update(k, true);
    if k == s.len() - 1 {
        assert(t.drop_last() == s.drop_last());
        lemma_count_true_bound(s.drop_last());
    } else {
        assert(t.drop_last() == s.drop_last().update(k, true));
        lemma_count_true_set(s.drop_last(), k);
    }
}

/// A count never exceeds the length.
proof fn lemma_count_true_bound(s: Seq<bool>)
    ensures
        count_true(s) <= s.len(),
    decreases s.len(),
{
    if s.len() > 0 {
        lemma_count_true_bound(s.drop_last());
    }
}

impl Mask {
    #[verifier::type_invariant]
    spec fn grid_is_complete(self) -> bool {
        self.fluid@.len() == self.rows * self.cols
    }

    /// Parses a mask from its text.
    ///
    /// Faults are reported in file order, with 1-based line and column numbers: a line of
    /// the wrong width, a character that is neither `.` nor `#`, a mask without fluid, a
    /// fluid domain in several pieces.
    pub fn parse(text: &str) -> (r: Result<Mask, MeshError>)
        ensures
            match r {
                Ok(mask) => parse_spec(text@) == Ok::<MaskModel, MeshError>(mask@),
                Err(e) => parse_spec(text@) == Err::<MaskModel, MeshError>(e),
            },
    {
        let chars = chars_of(text);
        let lines = lines_of(&chars);
        let ghost all = lines_view(lines@);
        let n_lines = lines.len();
        assert(split_lines(text@) == all);
        let mut fluid: Vec<bool> = Vec::new();
        let mut cols: usize = 0;
        let mut rows: usize = 0;
        let mut i: usize = 0;
        while i < lines.len()
            invariant
                all == lines_view(lines@),
                all.len() == lines@.len(),
                n_lines == lines@.len(),
                split_lines(text@) == all,
                i <= lines@.len(),
                rows <= i,
                fluid@.len() == rows * cols,
                parse_lines(all, 0, 0, 0, Seq::empty()) == parse_lines(all, i as nat, rows as nat, cols as nat, fluid@),
            decreases lines@.len() - i,
        {
            let line = &lines[i];
            let width = trimmed_len(line);
            let ghost trimmed = trim_end(all[i as int]);
            assert(all[i as int] == line@);
            if width == 0 || line[0] == COMMENT {
                i = i + 1;
                continue;
            }
            assert(trimmed.len() == width && trimmed[0] == line@[0]);
            if rows > 0 && width != cols {
                assert(parse_lines(all, i as nat, rows as nat, cols as nat, fluid@) == Err::<MaskModel, MeshError>(MeshError::RaggedMask { line: (i + 1) as usize, expected: cols, got: width }));
                return Err(MeshError::RaggedMask { line: i + 1, expected: cols, got: width });
            }
            let ghost before = fluid@;
            let ghost fluid_before_row = fluid@;
            let mut j: usize = 0;
            while j < width
                invariant
                    i < lines@.len(),
                    all.len() == lines@.len(),
                    n_lines == lines@.len(),
                    split_lines(text@) == all,
                    trimmed == line@.take(width as int),
                    width <= line@.len(),
                    j <= width,
                    first_invalid(trimmed, 0) == first_invalid(trimmed, j as nat),
                    fluid@ == before + row_flags(trimmed.take(j as int)),
                    before == fluid_before_row,
                    parse_lines(all, 0, 0, 0, Seq::empty()) == parse_lines(all, i as nat, rows as nat, cols as nat, fluid_before_row),
                    trimmed == trim_end(all[i as int]),
                    trimmed.len() == width,
                    width > 0,
                    trimmed[0] != COMMENT,
                    rows > 0 ==> width == cols,
                decreases width - j,
            {
                let ch = line[j];
                assert(trimmed[j as int] == ch);
                if ch == FLUID {
                    fluid.push(true);
                } else if ch == SOLID {
                    fluid.push(false);
                } else {
                    assert(first_invalid(trimmed, j as nat) == Some(j as nat));
                    assert(first_invalid(trimmed, 0) == Some(j as nat));
                    assert(!(trimmed.len() == 0 || trimmed[0] == COMMENT));
                    assert(!(rows > 0 && trimmed.len() != cols));
                    assert(trimmed[j as int] == ch);
                    proof {
                        lemma_parse_lines_invalid(all, i as nat, rows as nat, cols as nat, fluid_before_row, j as nat);
                    }
                    return Err(MeshError::InvalidChar { line: i + 1, col: j + 1, ch });
                }
                assert(row_flags(trimmed.take(j as int + 1)) =~= row_flags(trimmed.take(j as int)).push(ch == FLUID));
                j = j + 1;
            }
            assert(trimmed.take(width as int) == trimmed);
            proof {
                assert(fluid@.len() == (rows + 1) * width) by (nonlinear_arith)
                    requires
                        fluid@.len() == rows * cols + width,
                        rows > 0 ==> width == cols,
                        rows == 0 ==> rows * cols == 0,
                ;
            }
            rows = rows + 1;
            cols = width;
            i = i + 1;
        }
        let mut any_fluid = false;
        let mut k: usize = 0;
        while k < fluid.len()
            invariant
                k <= fluid@.len(),
                any_fluid == exists|x: int| 0 <= x < k && #[trigger] fluid@[x],
            decreases fluid@.len() - k,
        {
            any_fluid = any_fluid || fluid[k];
            k = k + 1;
        }
        assert(any_fluid == fluid@.contains(true));
        if rows == 0 || !any_fluid {
            return Err(MeshError::EmptyDomain);
        }
        let mask = Mask { rows, cols, fluid };
        match mask.check_connected() {
            Ok(()) => Ok(mask),
            Err(e) => Err(e),
        }
    }

    /// Number of rows.
    pub fn rows(&self) -> (r: usize)
        ensures
            r == self@.rows,
            self@.well_formed(),
    {
        proof {
            use_type_invariant(self);
        }
        self.rows
    }

    /// Number of columns.
    pub fn cols(&self) -> (r: usize)
        ensures
            r == self@.cols,
            self@.well_formed(),
    {
        proof {
            use_type_invariant(self);
        }
        self.cols
    }

    /// Is cell `(row, col)` fluid? Outside the grid, the answer is `false`.
    pub fn is_fluid(&self, row: usize, col: usize) -> (r: bool)
        ensures
            r == self@.fluid_at(row as int, col as int),
    {
        proof {
            use_type_invariant(self);
        }
        let n = self.fluid.len();
        if row >= self.rows || col >= self.cols {
            return false;
        }
        proof {
            assert(row * self.cols + col < self.rows * self.cols) by (nonlinear_arith)
                requires
                    row < self.rows,
                    col < self.cols,
            ;
        }
        self.fluid[row * self.cols + col]
    }

    /// Is cell `(row, col)` an obstacle wall?
    ///
    /// The outside of the grid does **not** count as an obstacle: it is the edge of the
    /// test section, not an object placed in it. The distinction decides the chamfering
    /// of corners when the mesh is built. Signed so that the neighbours of an edge cell
    /// can be queried without unsigned overflow.
    pub fn is_obstacle(&self, row: isize, col: isize) -> (r: bool)
        ensures
            r == (0 <= row < self@.rows && 0 <= col < self@.cols && !self@.fluid_at(
                row as int,
                col as int,
            )),
    {
        if row < 0 || col < 0 || row as usize >= self.rows() || col as usize >= self.cols() {
            return false;
        }
        !self.is_fluid(row as usize, col as usize)
    }

    /// Checks that the fluid is in one piece; otherwise says in how many.
    pub fn check_connected(&self) -> (r: Result<(), MeshError>)
        ensures
            match r {
                Ok(()) => self@.components() <= 1,
                Err(e) => self@.components() > 1 && e == (MeshError::Disconnected { components: self@.components() as usize }),
            },
    {
        let components = self.count_components();
        if components > 1 {
            return Err(MeshError::Disconnected { components });
        }
        Ok(())
    }

    /// Number of connected pieces of fluid, by breadth-first search.
    ///
    /// Each search starts from the first fluid cell not reached yet, and reaches exactly
    /// the piece that cell belongs to; the number of searches is the number of pieces.
    fn count_components(&self) -> (r: usize)
        ensures
            r == self@.components(),
    {
        proof {
            use_type_invariant(self);
        }
        let ghost m = self@;
        let n = self.fluid.len();
        let cols = self.cols;
        if n > 0 {
            assert(cols > 0 && cols <= n) by (nonlinear_arith)
                requires
                    n == self.rows * cols,
                    n > 0,
            ;
        }
        let mut seen: Vec<bool> = Vec::new();
        let mut i: usize = 0;
        while i < n
            invariant
                i <= n,
                seen@.len() == i,
                forall|x: int| 0 <= x < i ==> !seen@[x],
            decreases n - i,
        {
            seen.push(false);
            i = i + 1;
        }
        let mut components: usize = 0;
        let mut queue: Vec<usize> = Vec::new();
        let mut start: usize = 0;
        while start < n
            invariant
                m == self@,
                m.well_formed(),
                n == m.fluid.len(),
                cols == m.cols,
                n > 0 ==> cols > 0 && cols <= n,
                start <= n,
                seen@.len() == n,
                queue@.len() == 0,
                components <= start,
                components == m.count_representatives(start as nat),
                forall|x: int| 0 <= x < start && m.fluid[x] ==> seen@[x],
                forall|x: int|
                    0 <= x < n && #[trigger] seen@[x] ==> m.fluid[x] && exists|s: int|
                        0 <= s < start && #[trigger] m.connected(s, x),
                forall|x: int, y: int| 0 <= x < n && seen@[x] && #[trigger] m.adjacent(x, y) ==> seen@[y],
            decreases n - start,
        {
            if !self.fluid[start] {
                assert(!m.is_representative(start as int));
            } else if seen[start] {
                assert(!m.is_representative(start as int)) by {
                    let s = choose|s: int| 0 <= s < start && #[trigger] m.connected(s, start as int);
                    assert(m.connected(s, start as int));
                }
            } else {
                assert(m.is_representative(start as int)) by {
                    assert forall|j: int| 0 <= j < start implies !#[trigger] m.connected(j, start as int) by {
                        if m.connected(j, start as int) {
                            let p = choose|p: Seq<int>| #[trigger] m.is_path(p) && p[0] == j && p.last() == start as int;
                            lemma_walk_stays_in_closed_set(m, p, seen@);
                        }
                    }
                }
                components = components + 1;
                proof {
                    lemma_connected_reflexive(m, start as int);
                }
                let ghost prev = seen@;
                seen.set(start, true);
                queue.push(start);
                proof {
                    assert forall|x: int, y: int|
                        0 <= x < n && seen@[x] && !queue@.contains(x as usize) && #[trigger] m.adjacent(x, y) implies seen@[y] by {
                        if x == start as int {
                            assert(queue@[0] == start);
                            assert(queue@.contains(x as usize));
                        }
                        assert(prev[x]);
                    }
                    lemma_count_true_bound(seen@);
                }
                loop
                    invariant
                        m == self@,
                        m.well_formed(),
                        n == m.fluid.len(),
                        cols == m.cols,
                        cols > 0,
                        cols <= n,
                        start < n,
                        seen@.len() == n,
                        seen@[start as int],
                        count_true(seen@) <= n,
                        forall|q: int| 0 <= q < queue@.len() ==> #[trigger] queue@[q] < n && seen@[queue@[q] as int],
                        forall|x: int| 0 <= x < start && m.fluid[x] ==> seen@[x],
                        forall|x: int|
                            0 <= x < n && #[trigger] seen@[x] ==> m.fluid[x] && exists|s: int|
                                0 <= s <= start && #[trigger] m.connected(s, x),
                        forall|x: int, y: int|
                            0 <= x < n && seen@[x] && !queue@.contains(x as usize) && #[trigger] m.adjacent(x, y) ==> seen@[y],
                    ensures
                        forall|x: int, y: int| 0 <= x < n && seen@[x] && #[trigger] m.adjacent(x, y) ==> seen@[y],
                        forall|x: int| 0 <= x < start && m.fluid[x] ==> seen@[x],
                        forall|x: int|
                            0 <= x < n && #[trigger] seen@[x] ==> m.fluid[x] && exists|s: int|
                                0 <= s <= start && #[trigger] m.connected(s, x),
                        seen@.len() == n,
                        seen@[start as int],
                        queue@.len() == 0,
                    decreases n - count_true(seen@), queue@.len(),
                {
                    let ghost before = seen@;
                    let ghost old_queue = queue@;
                    match queue.pop() {
                        None => {
                            assert forall|x: int, y: int| 0 <= x < n && seen@[x] && #[trigger] m.adjacent(x, y) implies seen@[y] by {
                                assert(!queue@.contains(x as usize));
                            }
                            break;
                        },
                        Some(k) => {
                            assert(old_queue[old_queue.len() - 1] == k);
                            proof {
                                lemma_adjacent_cases(m, k as int, k as int);
                            }
                            let row_above = k >= cols;
                            let row_below = k < n - cols;
                            let col_left = k % cols > 0;
                            let col_right = k % cols + 1 < cols;
                            let candidates: [(bool, usize); 4] = [
                                (row_above, if row_above { k - cols } else { 0 }),
                                (row_below, if row_below { k + cols } else { 0 }),
                                (col_left, if col_left { k - 1 } else { 0 }),
                                (col_right, if col_right { k + 1 } else { 0 }),
                            ];
                            let ghost queue_after_pop = queue@;
                            proof {
                                assert(candidates@[0] == (row_above, if row_above { (k - cols) as usize } else { 0usize }));
                                assert(candidates@[1] == (row_below, if row_below { (k + cols) as usize } else { 0usize }));
                                assert(candidates@[2] == (col_left, if col_left { (k - 1) as usize } else { 0usize }));
                                assert(candidates@[3] == (col_right, if col_right { (k + 1) as usize } else { 0usize }));
                                assert forall|y: int| 0 <= y < n && #[trigger] m.adjacent(k as int, y) implies exists|d: int| 0 <= d < 4 && (#[trigger] candidates@[d]).0 && candidates@[d].1 == y by {
                                    lemma_adjacent_cases(m, k as int, y);
                                    if k >= cols && y == k - cols {
                                        assert(candidates@[0].0 && candidates@[0].1 == y);
                                    } else if k + cols < n && y == k + cols {
                                        assert(candidates@[1].0 && candidates@[1].1 == y);
                                    } else if k % cols > 0 && y == k - 1 {
                                        assert(candidates@[2].0 && candidates@[2].1 == y);
                                    } else {
                                        assert(candidates@[3].0 && candidates@[3].1 == y);
                                    }
                                }
                                assert forall|d: int| 0 <= d < 4 && (#[trigger] candidates@[d]).0 && m.fluid[k as int] && m.fluid[candidates@[d].1 as int] implies m.adjacent(k as int, candidates@[d].1 as int) by {
                                    assert(candidates@[d].1 < n);
                                    lemma_adjacent_cases(m, k as int, candidates@[d].1 as int);
                                }
                            }
                            let mut c: usize = 0;
                            while c < 4
                                invariant
                                    m == self@,
                                    m.well_formed(),
                                    n == m.fluid.len(),
                                    cols == m.cols,
                                    cols > 0,
                                    start < n,
                                    k < n,
                                    seen@[k as int],
                                    seen@[start as int],
                                    count_true(seen@) <= n,
                                    c <= 4,
                                    seen@.len() == n,
                                    candidates@.len() == 4,
                                    forall|d: int| 0 <= d < 4 ==> (#[trigger] candidates@[d]).0 ==> candidates@[d].1 < n,
                                    forall|d: int| 0 <= d < 4 ==> (#[trigger] candidates@[d]).0 ==> m.fluid[k as int] && m.fluid[candidates@[d].1 as int] ==> m.adjacent(k as int, candidates@[d].1 as int),
                                    forall|y: int| 0 <= y < n && #[trigger] m.adjacent(k as int, y) ==> exists|d: int| 0 <= d < 4 && (#[trigger] candidates@[d]).0 && candidates@[d].1 == y,
                                    forall|d: int| 0 <= d < c ==> (#[trigger] candidates@[d]).0 ==> m.fluid[candidates@[d].1 as int] ==> seen@[candidates@[d].1 as int],
                                    forall|x: int| 0 <= x < n && before[x] ==> seen@[x],
                                    queue@.len() >= queue_after_pop.len(),
                                    forall|q: int| 0 <= q < queue_after_pop.len() ==> queue@[q] == queue_after_pop[q],
                                    forall|q: int| 0 <= q < queue@.len() ==> #[trigger] queue@[q] < n && seen@[queue@[q] as int],
                                    forall|q: int| queue_after_pop.len() <= q < queue@.len() ==> !before[#[trigger] queue@[q] as int],
                                    forall|x: int| 0 <= x < n && #[trigger] seen@[x] && !before[x] ==> exists|q: int| queue_after_pop.len() <= q < queue@.len() && #[trigger] queue@[q] == x as usize,
                                    forall|x: int| 0 <= x < start && m.fluid[x] ==> seen@[x],
                                    forall|x: int|
                                        0 <= x < n && #[trigger] seen@[x] ==> m.fluid[x] && exists|s: int|
                                            0 <= s <= start && #[trigger] m.connected(s, x),
                                    count_true(seen@) >= count_true(before),
                                    count_true(seen@) == count_true(before) ==> queue@.len() == queue_after_pop.len(),
                                decreases 4 - c,
                            {
                                let (valid, y) = candidates[c];
                                if valid && self.fluid[y] && !seen[y] {
                                    let ghost prior = seen@;
                                    proof {
                                        let s = choose|s: int| 0 <= s <= start && #[trigger] m.connected(s, k as int);
                                        assert(m.connected(s, k as int));
                                        lemma_connected_step(m, s, k as int, y as int);
                                        lemma_count_true_set(prior, y as int);
                                    }
                                    let ghost prior_queue = queue@;
                                    seen.set(y, true);
                                    queue.push(y);
                                    proof {
                                        assert(queue@[queue@.len() - 1] == y);
                                        assert forall|x: int| 0 <= x < n && seen@[x] && !before[x] implies exists|q: int| queue_after_pop.len() <= q < queue@.len() && #[trigger] queue@[q] == x as usize by {
                                            if x == y as int {
                                                assert(queue@[queue@.len() - 1] == x as usize);
                                            } else {
                                                assert(prior[x]);
                                                assert(exists|q: int| queue_after_pop.len() <= q < prior_queue.len() && #[trigger] prior_queue[q] == x as usize);
                                                let q = choose|q: int| queue_after_pop.len() <= q < prior_queue.len() && #[trigger] prior_queue[q] == x as usize;
                                                assert(queue@[q] == x as usize);
                                            }
                                        }
                                    }
                                }
                                c = c + 1;
                            }
                            assert forall|x: int, y: int|
                                0 <= x < n && seen@[x] && !queue@.contains(x as usize) && #[trigger] m.adjacent(x, y) implies seen@[y] by {
                                if x == k as int {
                                    let d = choose|d: int| 0 <= d < 4 && (#[trigger] candidates@[d]).0 && candidates@[d].1 == y;
                                } else if before[x] {
                                    if old_queue.contains(x as usize) {
                                        let q = choose|q: int| 0 <= q < old_queue.len() && old_queue[q] == x as usize;
                                        if q < old_queue.len() - 1 {
                                            assert(queue_after_pop[q] == old_queue[q]);
                                            assert(queue@[q] == queue_after_pop[q]);
                                            assert(queue@.contains(x as usize));
                                        }
                                    }
                                } else {
                                    let q = choose|q: int| queue_after_pop.len() <= q < queue@.len() && #[trigger] queue@[q] == x as usize;
                                    assert(queue@.contains(x as usize));
                                }
                            }
                        },
                    }
                }
            }
            start = start + 1;
        }
        assert(components == m.components());
        components
    }

    /// Number of fluid cells.
    pub fn fluid_count(&self) -> (r: usize)
        ensures
            r == count_true(self@.fluid),
    {
        let mut count: usize = 0;
        let mut i: usize = 0;
        while i < self.fluid.len()
            invariant
                i <= self.fluid@.len(),
                count == count_true(self.fluid@.take(i as int)),
                count <= i,
            decreases self.fluid@.len() - i,
        {
            assert(self.fluid@.take(i as int + 1).drop_last() == self.fluid@.take(i as int));
            if self.fluid[i] {
                count = count + 1;
            }
            i = i + 1;
        }
        assert(self.fluid@.take(self.fluid@.len() as int) == self.fluid@);
        count
    }

    /// The same domain with each cell split into `k × k` cells.
    pub fn refine(&self, k: usize) -> (r: Mask)
        requires
            k >= 1,
            self@.rows * k <= usize::MAX,
            self@.cols * k <= usize::MAX,
            (self@.rows * k) * (self@.cols * k) <= usize::MAX,
        ensures
            r@.rows == self@.rows * k,
            r@.cols == self@.cols * k,
            forall|i: int, j: int|
                0 <= i < r@.rows && 0 <= j < r@.cols ==> #[trigger] r@.fluid_at(i, j) == self@.fluid_at(i / k as int, j / k as int),
    {
        proof {
            use_type_invariant(self);
        }
        let rows = self.rows * k;
        let cols = self.cols * k;
        let mut fluid: Vec<bool> = Vec::new();
        let mut i: usize = 0;
        while i < rows
            invariant
                rows == self@.rows * k,
                cols == self@.cols * k,
                rows * cols <= usize::MAX,
                k >= 1,
                self.fluid@.len() == self@.rows * self@.cols,
                i <= rows,
                fluid@.len() == i * cols,
                forall|a: int, b: int|
                    0 <= a < i && 0 <= b < cols ==> #[trigger] fluid@[a * cols + b] == self@.fluid_at(a / k as int, b / k as int),
            decreases rows - i,
        {
            let mut j: usize = 0;
            let ghost row_start = fluid@.len();
            proof {
                assert(i * cols + cols <= rows * cols) by (nonlinear_arith)
                    requires
                        i < rows,
                ;
                assert(i / k < self@.rows) by (nonlinear_arith)
                    requires
                        i < rows,
                        rows == self@.rows * k,
                        k >= 1,
                ;
            }
            while j < cols
                invariant
                    rows == self@.rows * k,
                    cols == self@.cols * k,
                    k >= 1,
                    self.fluid@.len() == self@.rows * self@.cols,
                    i < rows,
                    i / k < self@.rows,
                    i * cols + cols <= rows * cols,
                    rows * cols <= usize::MAX,
                    j <= cols,
                    row_start == i * cols,
                    fluid@.len() == i * cols + j,
                    forall|a: int, b: int|
                        0 <= a < i && 0 <= b < cols ==> #[trigger] fluid@[a * cols + b] == self@.fluid_at(a / k as int, b / k as int),
                    forall|b: int| 0 <= b < j ==> #[trigger] fluid@[i * cols + b] == self@.fluid_at((i / k) as int, b / k as int),
                decreases cols - j,
            {
                let si = i / k;
                let sj = j / k;
                proof {
                    assert(sj < self@.cols) by (nonlinear_arith)
                        requires
                            j < cols,
                            cols == self@.cols * k,
                            k >= 1,
                            sj == j / k,
                    ;
                    assert(si * self@.cols + sj < self@.rows * self@.cols) by (nonlinear_arith)
                        requires
                            si < self@.rows,
                            sj < self@.cols,
                    ;
                }
                let total = self.fluid.len();
                assert(si * self.cols + sj < total);
                fluid.push(self.fluid[si * self.cols + sj]);
                proof {
                    assert forall|a: int, b: int| 0 <= a < i && 0 <= b < cols implies #[trigger] fluid@[a * cols + b]
                        == self@.fluid_at(a / k as int, b / k as int) by {
                        assert(a * cols + b < i * cols) by (nonlinear_arith)
                            requires
                                a < i,
                                b < cols,
                        ;
                    }
                }
                j = j + 1;
            }
            proof {
                assert forall|a: int, b: int| 0 <= a < i + 1 && 0 <= b < cols implies #[trigger] fluid@[a * cols + b]
                    == self@.fluid_at(a / k as int, b / k as int) by {
                    if a == i {
                        assert(fluid@[i * cols + b] == self@.fluid_at((i / k) as int, b / k as int));
                    }
                }
                assert(fluid@.len() == (i + 1) * cols) by (nonlinear_arith)
                    requires
                        fluid@.len() == i * cols + cols,
                ;
            }
            i = i + 1;
        }
        let r = Mask { rows, cols, fluid };
        proof {
            assert forall|a: int, b: int| 0 <= a < r@.rows && 0 <= b < r@.cols implies #[trigger] r@.fluid_at(a, b)
                == self@.fluid_at(a / k as int, b / k as int) by {
                assert(fluid@[a * cols + b] == self@.fluid_at(a / k as int, b / k as int));
            }
        }
        r
    }

    /// The columns `range.start .. range.end` of the mask, as a mask of their own.
    pub fn columns(&self, range: core::ops::Range<usize>) -> (r: Mask)
        requires
            range.start <= range.end <= self@.cols,
        ensures
            r@.rows == self@.rows,
            r@.cols == range.end - range.start,
            forall|i: int, j: int|
                0 <= i < r@.rows && 0 <= j < r@.cols ==> #[trigger] r@.fluid_at(i, j) == self@.fluid_at(i, range.start + j),
    {
        proof {
            use_type_invariant(self);
        }
        let rows = self.rows;
        let cols = range.end - range.start;
        let mut fluid: Vec<bool> = Vec::new();
        proof {
            assert(rows * cols <= rows * self.cols) by (nonlinear_arith)
                requires
                    cols <= self.cols,
            ;
        }
        let mut i: usize = 0;
        while i < rows
            invariant
                rows == self@.rows,
                cols == range.end - range.start,
                range.start <= range.end <= self@.cols,
                self.fluid@.len() == self@.rows * self@.cols,
                rows * cols <= rows * self@.cols,
                i <= rows,
                fluid@.len() == i * cols,
                forall|a: int, b: int|
                    0 <= a < i && 0 <= b < cols ==> #[trigger] fluid@[a * cols + b] == self@.fluid_at(a, range.start + b),
            decreases rows - i,
        {
            proof {
                assert(i * cols + cols <= rows * cols) by (nonlinear_arith)
                    requires
                        i < rows,
                ;
                assert(i * self@.cols + self@.cols <= rows * self@.cols) by (nonlinear_arith)
                    requires
                        i < rows,
                ;
            }
            let mut j: usize = 0;
            while j < cols
                invariant
                    rows == self@.rows,
                    cols == range.end - range.start,
                    range.start <= range.end <= self@.cols,
                    self.fluid@.len() == self@.rows * self@.cols,
                    i < rows,
                    i * cols + cols <= rows * cols,
                    i * self@.cols + self@.cols <= rows * self@.cols,
                    rows * cols <= rows * self@.cols,
                    j <= cols,
                    fluid@.len() == i * cols + j,
                    forall|a: int, b: int|
                        0 <= a < i && 0 <= b < cols ==> #[trigger] fluid@[a * cols + b] == self@.fluid_at(a, range.start + b),
                    forall|b: int| 0 <= b < j ==> #[trigger] fluid@[i * cols + b] == self@.fluid_at(i as int, range.start + b),
                decreases cols - j,
            {
                let total = self.fluid.len();
                assert(i * self.cols + range.start + j < total);
                fluid.push(self.fluid[i * self.cols + range.start + j]);
                proof {
                    assert forall|a: int, b: int| 0 <= a < i && 0 <= b < cols implies #[trigger] fluid@[a * cols + b]
                        == self@.fluid_at(a, range.start + b) by {
                        assert(a * cols + b < i * cols) by (nonlinear_arith)
                            requires
                                a < i,
                                b < cols,
                        ;
                    }
                }
                j = j + 1;
            }
            proof {
                assert forall|a: int, b: int| 0 <= a < i + 1 && 0 <= b < cols implies #[trigger] fluid@[a * cols + b]
                    == self@.fluid_at(a, range.start + b) by {
                    if a == i {
                        assert(fluid@[i * cols + b] == self@.fluid_at(i as int, range.start + b));
                    }
                }
                assert(fluid@.len() == (i + 1) * cols) by (nonlinear_arith)
                    requires
                        fluid@.len() == i * cols + cols,
                ;
            }
            i = i + 1;
        }
        let r = Mask { rows, cols, fluid };
        proof {
            assert forall|a: int, b: int| 0 <= a < r@.rows && 0 <= b < r@.cols implies #[trigger] r@.fluid_at(a, b)
                == self@.fluid_at(a, range.start + b) by {
                assert(fluid@[a * cols + b] == self@.fluid_at(a, range.start + b));
            }
        }
        r
    }
}

} // verus!
