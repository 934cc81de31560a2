//! The character grid.
//!
//! A [`TextBuffer`] is a fixed-size rectangular array of optional characters.
//! Blank cells are stored as `None`; writing a space clears a cell.  The
//! buffer offers the four traversal orders that the analysis engine scans —
//! row-major, column-major, and the two 45-degree diagonal orders — plus
//! bounds-checked point lookup and simple editing operations (paste, clear,
//! window, resize).

use vstd::prelude::*;
use vstd::string::StrSliceExecFns;

use crate::Resize;
use crate::rect::Rectangle;
use crate::tc::TextCoordinate;

verus! {

/// The dimensions of a buffer, in grid cells.
pub struct Size {
    pub num_rows: u32,
    pub num_cols: u32,
}

/// Writing a space stores a blank: the stored value for `ch`.
pub open spec fn norm_char(ch: Option<char>) -> Option<char> {
    if ch == Some(' ') {
        None
    } else {
        ch
    }
}

/// ASCII whitespace, as trimmed from row ends when rendering.
pub open spec fn is_ascii_ws(c: char) -> bool {
    c == ' ' || c == '\t' || c == '\n' || c == '\r' || c == '\u{c}'
}

/// `s` without its trailing ASCII whitespace.
pub open spec fn trim_trailing_ws(s: Seq<char>) -> Seq<char>
    decreases s.len(),
{
    if s.len() > 0 && is_ascii_ws(s.last()) {
        trim_trailing_ws(s.drop_last())
    } else {
        s
    }
}

/// The pieces of `s` separated by `'\n'`, the separators removed.  An empty
/// input gives one empty piece; a trailing `'\n'` gives a trailing empty
/// piece.
pub open spec fn split_newlines(s: Seq<char>) -> Seq<Seq<char>>
    decreases s.len(),
{
    if s.len() == 0 {
        seq![Seq::<char>::empty()]
    } else if s.last() == '\n' {
        split_newlines(s.drop_last()).push(Seq::<char>::empty())
    } else {
        let r = split_newlines(s.drop_last());
        r.update(r.len() - 1, r.last().push(s.last()))
    }
}

/// `s` without one trailing carriage return, if it has one.
pub open spec fn strip_cr(s: Seq<char>) -> Seq<char> {
    if s.len() > 0 && s.last() == '\r' {
        s.drop_last()
    } else {
        s
    }
}

/// The lines of `s`: pieces separated by `'\n'`, each terminated piece
/// stripped of one trailing `'\r'`, and a final empty piece dropped.
pub open spec fn lines_of(s: Seq<char>) -> Seq<Seq<char>> {
    let p = split_newlines(s);
    let body = p.drop_last().map_values(|t: Seq<char>| strip_cr(t));
    if p.last().len() == 0 {
        body
    } else {
        body.push(p.last())
    }
}

/// The length of the longest of the given lines.
pub open spec fn max_line_len(lines: Seq<Seq<char>>) -> int
    decreases lines.len(),
{
    if lines.len() == 0 {
        0
    } else {
        let rest = max_line_len(lines.drop_last());
        if lines.last().len() > rest {
            lines.last().len() as int
        } else {
            rest
        }
    }
}

/// Every line starts at column `pos.x` on row `pos.y +` its index; this says
/// that no written cell's coordinate overflows `u32`.
pub open spec fn paste_fits(lines: Seq<Seq<char>>, pos: TextCoordinate) -> bool {
    pos.y + lines.len() <= u32::MAX + 1 && forall|i: int|
        0 <= i < lines.len() ==> pos.x + #[trigger] lines[i].len() <= u32::MAX + 1
}

/// Whether pasting `lines` at `pos` writes the cell `(x, y)`.
pub open spec fn paste_covers(lines: Seq<Seq<char>>, pos: TextCoordinate, x: int, y: int) -> bool {
    pos.y <= y < pos.y + lines.len() && pos.x <= x && x - pos.x < lines[y - pos.y].len()
}

/// Whether pasting has written cell `(x, y)` once the first `li` lines are
/// done and `ci` characters of line `li` are placed.
pub open spec fn paste_covers_partial(
    lines: Seq<Seq<char>>,
    pos: TextCoordinate,
    li: int,
    ci: int,
    x: int,
    y: int,
) -> bool {
    paste_covers(lines.take(li), pos, x, y) || (y == pos.y + li && pos.x <= x && x - pos.x < ci)
}

/// The row index, counted from the top pasted row, of the last line that
/// writes at least one cell; 0 when no line does.
pub open spec fn last_written_row(lines: Seq<Seq<char>>) -> int
    decreases lines.len(),
{
    if lines.len() == 0 {
        0
    } else if lines.last().len() > 0 {
        lines.len() - 1
    } else {
        last_written_row(lines.drop_last())
    }
}

/// The bounding rectangle that `paste` reports: `pos` together with the
/// furthest written cell (or `pos` itself when nothing is written).
pub open spec fn spec_paste_rect(lines: Seq<Seq<char>>, pos: TextCoordinate) -> Rectangle {
    Rectangle {
        corner_1: pos,
        corner_2: TextCoordinate {
            x: if max_line_len(lines) > 0 {
                (pos.x + max_line_len(lines) - 1) as u32
            } else {
                pos.x
            },
            y: (pos.y + last_written_row(lines)) as u32,
        },
    }
}

/// The lines joined with single `'\n'` separators.
pub open spec fn join_lines(rows: Seq<Seq<char>>) -> Seq<char>
    decreases rows.len(),
{
    if rows.len() == 0 {
        Seq::empty()
    } else if rows.len() == 1 {
        rows[0]
    } else {
        join_lines(rows.drop_last()) + seq!['\n'] + rows.last()
    }
}

/// The words of a cell sequence: maximal runs of populated cells that are
/// horizontally adjacent, each with the coordinate of its first cell.
/// `cur` carries the run being read: its start, the previous cell, and the
/// characters so far.
pub open spec fn words_rec(
    cells: Seq<(TextCoordinate, char)>,
    cur: Option<(TextCoordinate, TextCoordinate, Seq<char>)>,
) -> Seq<(TextCoordinate, Seq<char>)>
    decreases cells.len(),
{
    if cells.len() == 0 {
        match cur {
            None => Seq::empty(),
            Some((st, _, buf)) => seq![(st, buf)],
        }
    } else {
        let (pos, ch) = cells[0];
        match cur {
            None => words_rec(cells.drop_first(), Some((pos, pos, seq![ch]))),
            Some((st, prev, buf)) => {
                if pos.y == prev.y && prev.x + 1 == pos.x {
                    words_rec(cells.drop_first(), Some((st, pos, buf.push(ch))))
                } else {
                    seq![(st, buf)] + words_rec(cells.drop_first(), Some((pos, pos, seq![ch])))
                }
            },
        }
    }
}

/// The views of a word list.
pub open spec fn word_views(ws: Seq<(TextCoordinate, String)>) -> Seq<(TextCoordinate, Seq<char>)> {
    ws.map_values(|p: (TextCoordinate, String)| (p.0, p.1@))
}

/// The views of a line list.
pub open spec fn line_views(ls: Seq<Vec<char>>) -> Seq<Seq<char>> {
    ls.map_values(|v: Vec<char>| v@)
}

/// The index of the first `'"'` in `s`, or `s.len()` when there is none.
pub open spec fn first_quote_idx(s: Seq<char>) -> int
    decreases s.len(),
{
    if s.len() == 0 {
        0
    } else if s[0] == '"' {
        0
    } else {
        1 + first_quote_idx(s.drop_first())
    }
}

/// The index of the last `'"'` in `s`, or `-1` when there is none.
pub open spec fn last_quote_idx(s: Seq<char>) -> int
    decreases s.len(),
{
    if s.len() == 0 {
        -1
    } else if s.last() == '"' {
        s.len() - 1
    } else {
        last_quote_idx(s.drop_last())
    }
}

/// What remains of `s` strictly between its first `'"'` and the last `'"'`
/// after that one; empty when there are fewer than two quotes.
pub open spec fn strip_outer_spec(s: Seq<char>) -> Seq<char> {
    let a = first_quote_idx(s);
    if a == s.len() {
        Seq::empty()
    } else {
        let t = s.skip(a + 1);
        let b = last_quote_idx(t);
        if b < 0 {
            Seq::empty()
        } else {
            t.take(b)
        }
    }
}

/// A rectangular grid of optional characters, indexed row-major.
#[derive(Clone, Debug, Hash)]
pub struct TextBuffer {
    buffer: Vec<Option<char>>,
    num_rows: u32,
    num_cols: u32,
}

/// Row-times-column index math: the flat index determines the coordinate.
proof fn lemma_flat_index_inj(c: int, x1: int, y1: int, x2: int, y2: int)
    requires
        0 <= x1 < c,
        0 <= x2 < c,
        0 <= y1,
        0 <= y2,
        y1 * c + x1 == y2 * c + x2,
    ensures
        x1 == x2,
        y1 == y2,
{
    vstd::arithmetic::div_mod::lemma_fundamental_div_mod_converse(y1 * c + x1, c, y1, x1);
    vstd::arithmetic::div_mod::lemma_fundamental_div_mod_converse(y2 * c + x2, c, y2, x2);
}

proof fn lemma_flat_index_bound(c: int, r: int, x: int, y: int)
    requires
        0 <= x < c,
        0 <= y < r,
    ensures
        0 <= y * c + x < r * c,
{
    assert(y * c + x < r * c) by (nonlinear_arith)
        requires
            0 <= x < c,
            0 <= y < r,
    ;
    assert(0 <= y * c) by (nonlinear_arith)
        requires
            0 <= y,
            0 <= c,
    ;
}

impl TextBuffer {
    /// Well-formedness: the stored grid has exactly `rows * cols` cells, that
    /// product fits in `u32`, and no cell stores a literal space.  Every
    /// constructor establishes this and every method preserves it.
    pub closed spec fn wf(self) -> bool {
        &&& self.buffer@.len() == self.num_rows as int * self.num_cols as int
        &&& self.num_rows as int * self.num_cols as int <= u32::MAX as int
        &&& forall|i: int| 0 <= i < self.buffer@.len() ==> #[trigger] self.buffer@[i] != Some(' ')
    }

    /// Number of rows.
    pub closed spec fn spec_rows(self) -> u32 {
        self.num_rows
    }

    /// Number of columns.
    pub closed spec fn spec_cols(self) -> u32 {
        self.num_cols
    }

    /// Whether `(x, y)` is a cell of the grid.
    pub open spec fn in_dims(self, x: int, y: int) -> bool {
        0 <= x < self.spec_cols() && 0 <= y < self.spec_rows()
    }

    /// The content of cell `(x, y)`; `None` outside the grid.
    pub closed spec fn cell(self, x: int, y: int) -> Option<char> {
        if self.in_dims(x, y) {
            self.buffer@[y * self.num_cols as int + x]
        } else {
            None
        }
    }

    /// An empty grid of the given dimensions.
    pub fn new(rows: u32, cols: u32) -> (r: Self)
        requires
            rows as int * cols as int <= u32::MAX as int,
        ensures
            r.wf(),
            r.spec_rows() == rows,
            r.spec_cols() == cols,
            forall|x: int, y: int| #[trigger] r.cell(x, y) == None::<char>,
    {
        let n = (rows as u64 * cols as u64) as usize;
        let mut buffer: Vec<Option<char>> = Vec::new();
        let mut i: usize = 0;
        while i < n
            invariant
                buffer@.len() == i,
                i <= n,
                forall|k: int| 0 <= k < i ==> #[trigger] buffer@[k] == None::<char>,
            decreases n - i,
        {
            buffer.push(None);
            i = i + 1;
        }
        let r = Self { buffer, num_rows: rows, num_cols: cols };
        proof {
            assert(rows as int * cols as int >= 0) by (nonlinear_arith);
            assert forall|x: int, y: int| #[trigger] r.cell(x, y) == None::<char> by {
                if r.in_dims(x, y) {
                    lemma_flat_index_bound(cols as int, rows as int, x, y);
                }
            }
        }
        r
    }

    /// The grid's dimensions.
    pub fn size(&self) -> (r: Size)
        ensures
            r.num_rows == self.spec_rows(),
            r.num_cols == self.spec_cols(),
    {
        Size { num_cols: self.num_cols, num_rows: self.num_rows }
    }

    /// Whether `tc` lies inside the grid.
    pub fn contains(&self, tc: &TextCoordinate) -> (r: bool)
        ensures
            r == self.in_dims(tc.x as int, tc.y as int),
    {
        tc.y < self.num_rows && tc.x < self.num_cols
    }

    /// Bounds-checked point lookup.
    pub fn get(&self, pos: TextCoordinate) -> (r: Option<char>)
        requires
            self.wf(),
        ensures
            r == self.cell(pos.x as int, pos.y as int),
    {
        if pos.x < self.num_cols && pos.y < self.num_rows {
            proof {
                lemma_flat_index_bound(
                    self.num_cols as int,
                    self.num_rows as int,
                    pos.x as int,
                    pos.y as int,
                );
            }
            self.buffer[(pos.x + pos.y * self.num_cols) as usize]
        } else {
            None
        }
    }

    /// The populated cells among the first `n` cells in row-major order,
    /// with their coordinates.
    pub closed spec fn row_major_upto(self, n: int) -> Seq<(TextCoordinate, char)>
        decreases n,
    {
        if n <= 0 {
            Seq::empty()
        } else {
            let i = n - 1;
            let x = i % (self.spec_cols() as int);
            let y = i / (self.spec_cols() as int);
            self.row_major_upto(n - 1) + match self.cell(x, y) {
                Some(c) => seq![(TextCoordinate { x: x as u32, y: y as u32 }, c)],
                None => Seq::empty(),
            }
        }
    }

    /// All populated cells in row-major order (left to right, top to bottom).
    pub open spec fn row_major_cells(self) -> Seq<(TextCoordinate, char)> {
        self.row_major_upto(self.spec_rows() as int * self.spec_cols() as int)
    }

    /// The populated cells among the first `n` cells in column-major order.
    pub closed spec fn col_major_upto(self, n: int) -> Seq<(TextCoordinate, char)>
        decreases n,
    {
        if n <= 0 {
            Seq::empty()
        } else {
            let i = n - 1;
            let x = i / (self.spec_rows() as int);
            let y = i % (self.spec_rows() as int);
            self.col_major_upto(n - 1) + match self.cell(x, y) {
                Some(c) => seq![(TextCoordinate { x: x as u32, y: y as u32 }, c)],
                None => Seq::empty(),
            }
        }
    }

    /// All populated cells in column-major order (top to bottom, left to
    /// right).
    pub open spec fn col_major_cells(self) -> Seq<(TextCoordinate, char)> {
        self.col_major_upto(self.spec_rows() as int * self.spec_cols() as int)
    }

    /// How many diagonals the grid has: one per row of the first column and
    /// one per remaining column of the anchoring row.
    pub open spec fn diag_num_starts(self) -> int {
        self.spec_rows() + if self.spec_cols() > 0 {
            self.spec_cols() - 1
        } else {
            0
        }
    }

    /// Column where down-right diagonal `s` starts.
    pub open spec fn diag_dr_start_x(self, s: int) -> int {
        if s < self.spec_rows() {
            0
        } else {
            s - self.spec_rows() + 1
        }
    }

    /// Row where down-right diagonal `s` starts.
    pub open spec fn diag_dr_start_y(self, s: int) -> int {
        if s < self.spec_rows() {
            s
        } else {
            0
        }
    }

    /// Number of cells on the down-right diagonal starting at `(sx, sy)`.
    pub open spec fn diag_dr_len(self, sx: int, sy: int) -> int {
        let mx = self.spec_cols() - sx;
        let my = self.spec_rows() - sy;
        if mx < my {
            mx
        } else {
            my
        }
    }

    /// The populated cells among the first `m` cells of the down-right
    /// diagonal starting at `(sx, sy)`.
    pub closed spec fn diag_run_dr(self, sx: int, sy: int, m: int) -> Seq<(TextCoordinate, char)>
        decreases m,
    {
        if m <= 0 {
            Seq::empty()
        } else {
            self.diag_run_dr(sx, sy, m - 1) + match self.cell(sx + m - 1, sy + m - 1) {
                Some(c) => seq![
                    (TextCoordinate { x: (sx + m - 1) as u32, y: (sy + m - 1) as u32 }, c),
                ],
                None => Seq::empty(),
            }
        }
    }

    /// The populated cells of the first `s` down-right diagonals.
    pub closed spec fn diag_dr_upto(self, s: int) -> Seq<(TextCoordinate, char)>
        decreases s,
    {
        if s <= 0 {
            Seq::empty()
        } else {
            self.diag_dr_upto(s - 1) + self.diag_run_dr(
                self.diag_dr_start_x(s - 1),
                self.diag_dr_start_y(s - 1),
                self.diag_dr_len(self.diag_dr_start_x(s - 1), self.diag_dr_start_y(s - 1)),
            )
        }
    }

    /// All populated cells in down-right diagonal order: diagonals taken from
    /// the top-left downward along the first column, then rightward along the
    /// first row; each diagonal walked towards the bottom-right.
    pub open spec fn diag_dr_cells(self) -> Seq<(TextCoordinate, char)> {
        self.diag_dr_upto(self.diag_num_starts())
    }

    /// Column where up-right diagonal `s` starts.
    pub open spec fn diag_ur_start_x(self, s: int) -> int {
        if s < self.spec_rows() {
            0
        } else {
            s - self.spec_rows() + 1
        }
    }

    /// Row where up-right diagonal `s` starts (its lowest cell).
    pub open spec fn diag_ur_start_y(self, s: int) -> int {
        if s < self.spec_rows() {
            s
        } else {
            self.spec_rows() - 1
        }
    }

    /// Number of cells on the up-right diagonal starting at `(sx, sy)`.
    pub open spec fn diag_ur_len(self, sx: int, sy: int) -> int {
        let mx = self.spec_cols() - sx;
        let my = sy + 1;
        if mx < my {
            mx
        } else {
            my
        }
    }

    /// The populated cells among the first `m` cells of the up-right diagonal
    /// starting at `(sx, sy)`.
    pub closed spec fn diag_run_ur(self, sx: int, sy: int, m: int) -> Seq<(TextCoordinate, char)>
        decreases m,
    {
        if m <= 0 {
            Seq::empty()
        } else {
            self.diag_run_ur(sx, sy, m - 1) + match self.cell(sx + m - 1, sy - (m - 1)) {
                Some(c) => seq![
                    (TextCoordinate { x: (sx + m - 1) as u32, y: (sy - (m - 1)) as u32 }, c),
                ],
                None => Seq::empty(),
            }
        }
    }

    /// The populated cells of the first `s` up-right diagonals.
    pub closed spec fn diag_ur_upto(self, s: int) -> Seq<(TextCoordinate, char)>
        decreases s,
    {
        if s <= 0 {
            Seq::empty()
        } else {
            self.diag_ur_upto(s - 1) + self.diag_run_ur(
                self.diag_ur_start_x(s - 1),
                self.diag_ur_start_y(s - 1),
                self.diag_ur_len(self.diag_ur_start_x(s - 1), self.diag_ur_start_y(s - 1)),
            )
        }
    }

    /// All populated cells in up-right diagonal order: diagonals anchored
    /// down the first column and then along the bottom row, each walked
    /// towards the top-right.
    pub open spec fn diag_ur_cells(self) -> Seq<(TextCoordinate, char)> {
        self.diag_ur_upto(self.diag_num_starts())
    }

    /// All populated cells in row-major order, with their coordinates.
    pub fn iter(&self) -> (r: Vec<(TextCoordinate, char)>)
        requires
            self.wf(),
        ensures
            r@ == self.row_major_cells(),
    {
        let mut r: Vec<(TextCoordinate, char)> = Vec::new();
        let n = self.buffer.len();
        let mut i: usize = 0;
        while i < n
            invariant
                self.wf(),
                n == self.spec_rows() as int * self.spec_cols() as int,
                i <= n,
                r@ == self.row_major_upto(i as int),
            decreases n - i,
        {
            proof {
                assert(self.num_cols as int > 0) by (nonlinear_arith)
                    requires
                        (i as int) < self.spec_rows() as int * self.spec_cols() as int,
                        0 <= i as int,
                ;
            }
            let xs = i % (self.num_cols as usize);
            let ys = i / (self.num_cols as usize);
            proof {
                vstd::arithmetic::div_mod::lemma_mod_division_less_than_divisor(
                    i as int,
                    self.num_cols as int,
                );
                vstd::arithmetic::div_mod::lemma_fundamental_div_mod(i as int, self.num_cols as int);
                assert((i as int) / (self.num_cols as int) < self.num_rows as int)
                    by (nonlinear_arith)
                    requires
                        self.num_cols as int >= 1,
                        (i as int) < self.num_rows as int * self.num_cols as int,
                        i as int == (self.num_cols as int) * ((i as int) / (self.num_cols as int))
                            + (i as int) % (self.num_cols as int),
                        0 <= (i as int) % (self.num_cols as int) < self.num_cols as int,
                ;
                let q = (i as int) / (self.num_cols as int);
                let rm = (i as int) % (self.num_cols as int);
                assert(i as int == (self.num_cols as int) * q + rm);
                assert(xs as int == rm);
                assert(ys as int == q);
                assert((ys as int) * (self.num_cols as int) + xs as int == i as int);
                assert(self.cell(xs as int, ys as int) == self.buffer@[i as int]);
            }
            let x = xs as u32;
            let y = ys as u32;
            if let Some(c) = self.buffer[i] {
                r.push((TextCoordinate { x, y }, c));
            }
            i = i + 1;
        }
        r
    }

    /// All populated cells in column-major order, with their coordinates.
    pub fn iter_vert(&self) -> (r: Vec<(TextCoordinate, char)>)
        requires
            self.wf(),
        ensures
            r@ == self.col_major_cells(),
    {
        let mut r: Vec<(TextCoordinate, char)> = Vec::new();
        let n = self.buffer.len();
        let mut i: usize = 0;
        while i < n
            invariant
                self.wf(),
                n == self.spec_rows() as int * self.spec_cols() as int,
                i <= n,
                r@ == self.col_major_upto(i as int),
            decreases n - i,
        {
            proof {
                assert(self.num_rows as int > 0) by (nonlinear_arith)
                    requires
                        (i as int) < self.spec_rows() as int * self.spec_cols() as int,
                        0 <= i as int,
                ;
            }
            let xs = i / (self.num_rows as usize);
            let ys = i % (self.num_rows as usize);
            proof {
                vstd::arithmetic::div_mod::lemma_mod_division_less_than_divisor(
                    i as int,
                    self.num_rows as int,
                );
                vstd::arithmetic::div_mod::lemma_fundamental_div_mod(i as int, self.num_rows as int);
                assert((i as int) / (self.num_rows as int) < self.num_cols as int)
                    by (nonlinear_arith)
                    requires
                        self.num_rows as int >= 1,
                        (i as int) < self.num_rows as int * self.num_cols as int,
                        i as int == (self.num_rows as int) * ((i as int) / (self.num_rows as int))
                            + (i as int) % (self.num_rows as int),
                        0 <= (i as int) % (self.num_rows as int) < self.num_rows as int,
                ;
                lemma_flat_index_bound(
                    self.num_cols as int,
                    self.num_rows as int,
                    xs as int,
                    ys as int,
                );
                assert(self.cell(xs as int, ys as int) == self.buffer@[
                    (ys as int) * (self.num_cols as int) + xs as int
                ]);
            }
            let x = xs as u32;
            let y = ys as u32;
            let idx = (x + y * self.num_cols) as usize;
            if let Some(c) = self.buffer[idx] {
                r.push((TextCoordinate { x, y }, c));
            }
            i = i + 1;
        }
        r
    }

    /// All populated cells in down-right diagonal order.
    pub fn iter_diag_down_right(&self) -> (r: Vec<(TextCoordinate, char)>)
        requires
            self.wf(),
        ensures
            r@ == self.diag_dr_cells(),
    {
        let rows = self.num_rows;
        let cols = self.num_cols;
        let starts: u64 = rows as u64 + if cols > 0 {
            (cols - 1) as u64
        } else {
            0
        };
        let mut r: Vec<(TextCoordinate, char)> = Vec::new();
        let mut s: u64 = 0;
        while s < starts
            invariant
                self.wf(),
                rows == self.spec_rows(),
                cols == self.spec_cols(),
                starts == self.diag_num_starts(),
                s <= starts,
                r@ == self.diag_dr_upto(s as int),
            decreases starts - s,
        {
            let sx: u32 = if s < rows as u64 {
                0
            } else {
                (s - rows as u64 + 1) as u32
            };
            let sy: u32 = if s < rows as u64 {
                s as u32
            } else {
                0
            };
            let mx: u32 = cols - sx;
            let my: u32 = rows - sy;
            let m: u32 = if mx < my {
                mx
            } else {
                my
            };
            let mut o: u32 = 0;
            while o < m
                invariant
                    self.wf(),
                    sx == self.diag_dr_start_x(s as int),
                    sy == self.diag_dr_start_y(s as int),
                    m == self.diag_dr_len(sx as int, sy as int),
                    sx as int + m <= self.spec_cols(),
                    sy as int + m <= self.spec_rows(),
                    o <= m,
                    r@ == self.diag_dr_upto(s as int) + self.diag_run_dr(sx as int, sy as int, o as int),
                decreases m - o,
            {
                let tc = TextCoordinate { x: sx + o, y: sy + o };
                if let Some(c) = self.get(tc) {
                    r.push((tc, c));
                }
                o = o + 1;
            }
            s = s + 1;
        }
        r
    }

    /// All populated cells in up-right diagonal order.
    pub fn iter_diag_up_right(&self) -> (r: Vec<(TextCoordinate, char)>)
        requires
            self.wf(),
        ensures
            r@ == self.diag_ur_cells(),
    {
        let rows = self.num_rows;
        let cols = self.num_cols;
        let starts: u64 = rows as u64 + if cols > 0 {
            (cols - 1) as u64
        } else {
            0
        };
        let mut r: Vec<(TextCoordinate, char)> = Vec::new();
        let mut s: u64 = 0;
        while s < starts
            invariant
                self.wf(),
                rows == self.spec_rows(),
                cols == self.spec_cols(),
                starts == self.diag_num_starts(),
                s <= starts,
                r@ == self.diag_ur_upto(s as int),
            decreases starts - s,
        {
            let sx: u32 = if s < rows as u64 {
                0
            } else {
                (s - rows as u64 + 1) as u32
            };
            let sy: u32 = if s < rows as u64 {
                s as u32
            } else if rows > 0 {
                rows - 1
            } else {
                0
            };
            let mx: u32 = cols - sx;
            let m: u32 = if rows == 0 {
                0
            } else if mx < sy + 1 {
                mx
            } else {
                sy + 1
            };
            proof {
                let sys = self.diag_ur_start_y(s as int);
                assert(m == self.diag_ur_len(self.diag_ur_start_x(s as int), sys));
                assert(self.diag_run_ur(sx as int, sys, 0) == Seq::<(TextCoordinate, char)>::empty());
            }
            let mut o: u32 = 0;
            while o < m
                invariant
                    self.wf(),
                    m > 0 ==> rows > 0 && rows == self.spec_rows() && sx == self.diag_ur_start_x(
                        s as int,
                    ) && sy == self.diag_ur_start_y(s as int) && m == self.diag_ur_len(
                        sx as int,
                        sy as int,
                    ) && sx as int + m <= self.spec_cols() && m <= sy + 1,
                    o <= m,
                    r@ == self.diag_ur_upto(s as int) + self.diag_run_ur(sx as int, sy as int, o as int),
                decreases m - o,
            {
                let tc = TextCoordinate { x: sx + o, y: sy - o };
                if let Some(c) = self.get(tc) {
                    r.push((tc, c));
                }
                o = o + 1;
            }
            proof {
                let sxs = self.diag_ur_start_x(s as int);
                let sys = self.diag_ur_start_y(s as int);
                let lens = self.diag_ur_len(sxs, sys);
                if m == 0 {
                    assert(self.diag_run_ur(sx as int, sy as int, 0)
                        =~= Seq::<(TextCoordinate, char)>::empty());
                    assert(lens <= 0);
                    assert(self.diag_run_ur(sxs, sys, lens)
                        =~= Seq::<(TextCoordinate, char)>::empty());
                }
                assert(r@ == self.diag_ur_upto(s as int + 1));
            }
            s = s + 1;
        }
        r
    }

    /// Write `ch` at `pos`: a space (or `None`) clears the cell; writes
    /// outside the grid are ignored.
    pub fn set_text(&mut self, pos: &TextCoordinate, ch: Option<char>)
        requires
            old(self).wf(),
        ensures
            final(self).wf(),
            final(self).spec_rows() == old(self).spec_rows(),
            final(self).spec_cols() == old(self).spec_cols(),
            forall|x: int, y: int|
                #[trigger] final(self).cell(x, y) == if x == pos.x && y == pos.y && old(
                    self,
                ).in_dims(x, y) {
                    norm_char(ch)
                } else {
                    old(self).cell(x, y)
                },
    {
        let ch = match ch {
            Some(c) => if c == ' ' {
                None
            } else {
                Some(c)
            },
            None => None,
        };
        if pos.x < self.num_cols && pos.y < self.num_rows {
            proof {
                lemma_flat_index_bound(
                    self.num_cols as int,
                    self.num_rows as int,
                    pos.x as int,
                    pos.y as int,
                );
            }
            let idx = (pos.x + pos.y * self.num_cols) as usize;
            self.buffer.set(idx, ch);
            proof {
                assert forall|x: int, y: int|
                    #[trigger] final(self).cell(x, y) == if x == pos.x && y == pos.y && old(
                        self,
                    ).in_dims(x, y) {
                        norm_char(ch)
                    } else {
                        old(self).cell(x, y)
                    } by {
                    if self.in_dims(x, y) {
                        lemma_flat_index_bound(
                            self.num_cols as int,
                            self.num_rows as int,
                            x,
                            y,
                        );
                        if y * self.num_cols as int + x == idx as int {
                            lemma_flat_index_inj(
                                self.num_cols as int,
                                x,
                                y,
                                pos.x as int,
                                pos.y as int,
                            );
                        }
                    }
                }
            }
        }
    }

    /// Write `ch` at `pos` only when it is present; `None` leaves the cell
    /// alone (but a space still clears it).
    pub fn merge_text(&mut self, pos: &TextCoordinate, ch: Option<char>)
        requires
            old(self).wf(),
        ensures
            final(self).wf(),
            final(self).spec_rows() == old(self).spec_rows(),
            final(self).spec_cols() == old(self).spec_cols(),
            forall|x: int, y: int|
                #[trigger] final(self).cell(x, y) == if ch is Some && x == pos.x && y == pos.y
                    && old(self).in_dims(x, y) {
                    norm_char(ch)
                } else {
                    old(self).cell(x, y)
                },
    {
        if let Some(c) = ch {
            self.set_text(pos, Some(c));
        }
    }

    /// Clear every cell.
    pub fn clear_all(&mut self)
        requires
            old(self).wf(),
        ensures
            final(self).wf(),
            final(self).spec_rows() == old(self).spec_rows(),
            final(self).spec_cols() == old(self).spec_cols(),
            forall|x: int, y: int| #[trigger] final(self).cell(x, y) == None::<char>,
    {
        let n = self.buffer.len();
        let mut i: usize = 0;
        while i < n
            invariant
                self.buffer@.len() == n,
                self.num_rows == old(self).num_rows,
                self.num_cols == old(self).num_cols,
                n == self.num_rows as int * self.num_cols as int,
                n <= u32::MAX,
                i <= n,
                forall|k: int| 0 <= k < i ==> #[trigger] self.buffer@[k] == None::<char>,
                forall|k: int| 0 <= k < n ==> #[trigger] self.buffer@[k] != Some(' '),
            decreases n - i,
        {
            self.buffer.set(i, None);
            i = i + 1;
        }
        proof {
            assert forall|x: int, y: int| #[trigger] final(self).cell(x, y) == None::<char> by {
                if self.in_dims(x, y) {
                    lemma_flat_index_bound(
                        self.num_cols as int,
                        self.num_rows as int,
                        x,
                        y,
                    );
                }
            }
        }
    }
}

impl TextBuffer {
    /// Write the lines of `initial_text` into the grid starting at `pos`,
    /// spaces clearing cells, and report the bounding rectangle of `pos` and
    /// every written cell.
    pub fn paste(&mut self, initial_text: &str, pos: TextCoordinate) -> (r: Rectangle)
        requires
            old(self).wf(),
            paste_fits(lines_of(initial_text@), pos),
        ensures
            final(self).wf(),
            final(self).spec_rows() == old(self).spec_rows(),
            final(self).spec_cols() == old(self).spec_cols(),
            forall|x: int, y: int|
                #[trigger] final(self).cell(x, y) == if old(self).in_dims(x, y) && paste_covers(
                    lines_of(initial_text@),
                    pos,
                    x,
                    y,
                ) {
                    norm_char(Some(lines_of(initial_text@)[y - pos.y][x - pos.x]))
                } else {
                    old(self).cell(x, y)
                },
            r == spec_paste_rect(lines_of(initial_text@), pos),
    {
        let chars = chars_of(initial_text);
        let lines = lines_vec(&chars);
        let ghost ls = lines_of(initial_text@);
        let mut corner_2 = pos;
        let nl = lines.len();
        let mut li: usize = 0;
        while li < nl
            invariant
                self.wf(),
                self.spec_rows() == old(self).spec_rows(),
                self.spec_cols() == old(self).spec_cols(),
                line_views(lines@) == ls,
                nl == ls.len(),
                li <= nl,
                paste_fits(ls, pos),
                forall|x: int, y: int|
                    #[trigger] self.cell(x, y) == if old(self).in_dims(x, y) && paste_covers(
                        ls.take(li as int),
                        pos,
                        x,
                        y,
                    ) {
                        norm_char(Some(ls[y - pos.y][x - pos.x]))
                    } else {
                        old(self).cell(x, y)
                    },
                corner_2.x as int == pos.x + if max_line_len(ls.take(li as int)) > 0 {
                    max_line_len(ls.take(li as int)) - 1
                } else {
                    0
                },
                corner_2.y as int == pos.y + last_written_row(ls.take(li as int)),
            decreases nl - li,
        {
            proof {
                lemma_max_line_len_nonneg(ls.take(li as int));
                lemma_max_line_len_nonneg(ls.take(li as int + 1));
                assert(ls.take(li as int + 1).drop_last() =~= ls.take(li as int));
            }
            let line = &lines[li];
            let nc = line.len();
            let mut ci: usize = 0;
            while ci < nc
                invariant
                    self.wf(),
                    self.spec_rows() == old(self).spec_rows(),
                    self.spec_cols() == old(self).spec_cols(),
                    line_views(lines@) == ls,
                    nl == ls.len(),
                    li < nl,
                    line@ == ls[li as int],
                    nc == ls[li as int].len(),
                    ci <= nc,
                    paste_fits(ls, pos),
                    forall|x: int, y: int|
                        #[trigger] self.cell(x, y) == if old(self).in_dims(x, y)
                            && paste_covers_partial(ls, pos, li as int, ci as int, x, y) {
                            norm_char(Some(ls[y - pos.y][x - pos.x]))
                        } else {
                            old(self).cell(x, y)
                        },
                    corner_2.x as int == if ci > 0 && pos.x + ci - 1 > pos.x + (if max_line_len(
                        ls.take(li as int),
                    ) > 0 {
                        max_line_len(ls.take(li as int)) - 1
                    } else {
                        0
                    }) {
                        pos.x + ci - 1
                    } else {
                        pos.x + if max_line_len(ls.take(li as int)) > 0 {
                            max_line_len(ls.take(li as int)) - 1
                        } else {
                            0
                        }
                    },
                    corner_2.y as int == if ci > 0 && pos.y + li > pos.y + last_written_row(
                        ls.take(li as int),
                    ) {
                        pos.y + li
                    } else {
                        pos.y + last_written_row(ls.take(li as int))
                    },
                decreases nc - ci,
            {
                let ch = line[ci];
                let cpos = TextCoordinate { x: pos.x + ci as u32, y: pos.y + li as u32 };
                if cpos.x > corner_2.x {
                    corner_2.x = cpos.x;
                }
                if cpos.y > corner_2.y {
                    corner_2.y = cpos.y;
                }
                self.set_text(&cpos, Some(ch));
                ci = ci + 1;
            }
            proof {
                lemma_last_written_row_bound(ls.take(li as int));
                lemma_max_line_len_nonneg(ls.take(li as int));
                assert(ls.take(li as int + 1).drop_last() =~= ls.take(li as int));
                assert(max_line_len(ls.take(li as int + 1)) == if ls[li as int].len() as int
                    > max_line_len(ls.take(li as int)) {
                    ls[li as int].len() as int
                } else {
                    max_line_len(ls.take(li as int))
                });
                assert forall|x: int, y: int|
                    (old(self).in_dims(x, y) && paste_covers_partial(ls, pos, li as int, nc as int, x, y))
                        == (old(self).in_dims(x, y) && paste_covers(
                        ls.take(li as int + 1),
                        pos,
                        x,
                        y,
                    )) by {
                    if pos.y <= y < pos.y + li as int + 1 {
                        assert(ls.take(li as int + 1)[y - pos.y] == ls[y - pos.y]);
                    }
                }
            }
            li = li + 1;
        }
        proof {
            assert(ls.take(nl as int) =~= ls);
        }
        Rectangle { corner_1: pos, corner_2 }
    }

    /// A buffer sized to hold `text` — one row per newline-separated piece,
    /// one column per character of the longest piece — with `text` pasted at
    /// the top-left corner.
    pub fn with_text(text: &str) -> (r: TextBuffer)
        requires
            split_newlines(text@).len() <= u32::MAX,
            max_line_len(split_newlines(text@)) <= u32::MAX,
            split_newlines(text@).len() * max_line_len(split_newlines(text@)) <= u32::MAX,
        ensures
            r.wf(),
            r.spec_rows() == split_newlines(text@).len(),
            r.spec_cols() == max_line_len(split_newlines(text@)),
            forall|x: int, y: int|
                #[trigger] r.cell(x, y) == if r.in_dims(x, y) && paste_covers(
                    lines_of(text@),
                    TextCoordinate { x: 0, y: 0 },
                    x,
                    y,
                ) {
                    norm_char(Some(lines_of(text@)[y][x]))
                } else {
                    None
                },
    {
        let chars = chars_of(text);
        let pieces = split_lines_vec(&chars);
        let ghost ps = split_newlines(text@);
        let num_rows = pieces.len() as u32;
        let mut num_cols: u32 = 0;
        let np = pieces.len();
        let mut i: usize = 0;
        while i < np
            invariant
                np == ps.len(),
                line_views(pieces@) == ps,
                i <= np,
                num_cols as int == max_line_len(ps.take(i as int)),
                max_line_len(ps) <= u32::MAX,
            decreases np - i,
        {
            proof {
                assert(ps.take(i as int + 1).drop_last() =~= ps.take(i as int));
                lemma_take_max_line_len_le(ps, i as int + 1);
            }
            let l = pieces[i].len();
            if l as u64 > num_cols as u64 {
                num_cols = l as u32;
            }
            i = i + 1;
        }
        proof {
            assert(ps.take(np as int) =~= ps);
            lemma_lines_of_fit(text@);
        }
        let mut me = TextBuffer::new(num_rows, num_cols);
        me.paste(text, TextCoordinate { x: 0, y: 0 });
        me
    }
}

/// Lines never outgrow the pieces they come from: `lines_of` has no more
/// pieces than `split_newlines`, and no longer ones.
proof fn lemma_lines_of_fit(s: Seq<char>)
    ensures
        lines_of(s).len() <= split_newlines(s).len(),
        forall|i: int|
            0 <= i < lines_of(s).len() ==> #[trigger] lines_of(s)[i].len() <= max_line_len(
                split_newlines(s),
            ),
{
    let p = split_newlines(s);
    lemma_split_newlines_nonempty(s);
    assert forall|i: int|
        0 <= i < lines_of(s).len() implies #[trigger] lines_of(s)[i].len() <= max_line_len(p) by {
        if i < p.len() - 1 {
            assert(lines_of(s)[i] == strip_cr(p.drop_last()[i]));
            assert(p.drop_last()[i] == p[i]);
        } else {
            assert(lines_of(s)[i] == p[i]);
        }
        lemma_max_line_len_ge(p, i);
    }
}

/// The longest line of a prefix is no longer than that of the whole.
proof fn lemma_take_max_line_len_le(lines: Seq<Seq<char>>, n: int)
    requires
        0 <= n <= lines.len(),
    ensures
        max_line_len(lines.take(n)) <= max_line_len(lines),
    decreases lines.len() - n,
{
    if n == lines.len() {
        assert(lines.take(n) =~= lines);
    } else {
        lemma_take_max_line_len_le(lines, n + 1);
        assert(lines.take(n + 1).drop_last() =~= lines.take(n));
        lemma_max_line_len_nonneg(lines.take(n));
    }
}

/// The last written row index stays below the number of lines (and is 0 for
/// no lines).
proof fn lemma_last_written_row_bound(lines: Seq<Seq<char>>)
    ensures
        0 <= last_written_row(lines),
        last_written_row(lines) <= if lines.len() == 0 {
            0int
        } else {
            lines.len() - 1
        },
    decreases lines.len(),
{
    if lines.len() > 0 {
        lemma_last_written_row_bound(lines.drop_last());
    }
}

impl TextBuffer {
    /// What any cell lookup can yield: never a stored space (a written
    /// space clears the cell), and nothing at all outside the grid.
    pub proof fn lemma_no_blank(self)
        requires
            self.wf(),
        ensures
            forall|x: int, y: int| #[trigger] self.cell(x, y) != Some(' '),
            forall|x: int, y: int|
                !self.in_dims(x, y) ==> #[trigger] self.cell(x, y) == None::<char>,
    {
        assert forall|x: int, y: int| #[trigger] self.cell(x, y) != Some(' ') by {
            if self.in_dims(x, y) {
                lemma_flat_index_bound(self.num_cols as int, self.num_rows as int, x, y);
            }
        }
    }

    /// Clear every cell covered by `selection`, borders included.
    pub fn clear_rectangle(&mut self, selection: Rectangle)
        requires
            old(self).wf(),
        ensures
            final(self).wf(),
            final(self).spec_rows() == old(self).spec_rows(),
            final(self).spec_cols() == old(self).spec_cols(),
            forall|x: int, y: int|
                #[trigger] final(self).cell(x, y) == if selection.spec_left() <= x
                    <= selection.spec_right() && selection.spec_top() <= y
                    <= selection.spec_bottom() {
                    None::<char>
                } else {
                    old(self).cell(x, y)
                },
    {
        let min_x = selection.left();
        let max_x = if selection.corner_1.x >= selection.corner_2.x {
            selection.corner_1.x
        } else {
            selection.corner_2.x
        };
        let min_y = selection.top();
        let max_y = if selection.corner_1.y >= selection.corner_2.y {
            selection.corner_1.y
        } else {
            selection.corner_2.y
        };
        // Cells beyond the grid are blank already, so walk only the part of
        // the selection that the grid covers.
        let y_stop: u32 = if max_y < self.num_rows {
            max_y + 1
        } else {
            self.num_rows
        };
        let x_stop: u32 = if max_x < self.num_cols {
            max_x + 1
        } else {
            self.num_cols
        };
        let mut y: u32 = min_y;
        while y < y_stop
            invariant
                self.wf(),
                self.spec_rows() == old(self).spec_rows(),
                self.spec_cols() == old(self).spec_cols(),
                min_x == selection.spec_left(),
                max_x == selection.spec_right(),
                min_y == selection.spec_top(),
                max_y == selection.spec_bottom(),
                y_stop == if max_y < self.spec_rows() { max_y + 1 } else { self.spec_rows() as int },
                x_stop == if max_x < self.spec_cols() { max_x + 1 } else { self.spec_cols() as int },
                min_y <= y,
                y <= y_stop || y == min_y,
                forall|xx: int, yy: int|
                    #[trigger] self.cell(xx, yy) == if min_x <= xx <= max_x && min_y <= yy
                        && yy < y {
                        None::<char>
                    } else {
                        old(self).cell(xx, yy)
                    },
            decreases y_stop - y,
        {
            let mut x: u32 = min_x;
            while x < x_stop
                invariant
                    self.wf(),
                    self.spec_rows() == old(self).spec_rows(),
                    self.spec_cols() == old(self).spec_cols(),
                    min_x == selection.spec_left(),
                    max_x == selection.spec_right(),
                    min_y == selection.spec_top(),
                    max_y == selection.spec_bottom(),
                    x_stop == if max_x < self.spec_cols() { max_x + 1 } else { self.spec_cols() as int },
                    min_y <= y < y_stop,
                    y_stop <= max_y + 1,
                    min_x <= x,
                    x <= x_stop || x == min_x,
                    forall|xx: int, yy: int|
                        #[trigger] self.cell(xx, yy) == if min_x <= xx <= max_x && min_y <= yy
                            && (yy < y || (yy == y && xx < x)) {
                            None::<char>
                        } else {
                            old(self).cell(xx, yy)
                        },
                decreases x_stop - x,
            {
                self.set_text(&TextCoordinate { x, y }, None);
                x = x + 1;
            }
            proof {
                assert forall|xx: int, yy: int|
                    #[trigger] self.cell(xx, yy) == if min_x <= xx <= max_x && min_y <= yy
                        && yy < y + 1 {
                        None::<char>
                    } else {
                        old(self).cell(xx, yy)
                    } by {
                    if min_x <= xx <= max_x && min_y <= yy && yy == y && xx >= x_stop {
                        assert(!self.in_dims(xx, yy));
                        assert(!old(self).in_dims(xx, yy));
                    }
                }
            }
            y = y + 1;
        }
        proof {
            assert forall|xx: int, yy: int|
                #[trigger] self.cell(xx, yy) == if min_x <= xx <= max_x && min_y <= yy
                    <= max_y {
                    None::<char>
                } else {
                    old(self).cell(xx, yy)
                } by {
                if min_x <= xx <= max_x && min_y <= yy <= max_y && yy >= y_stop {
                    assert(!self.in_dims(xx, yy));
                    assert(!old(self).in_dims(xx, yy));
                }
            }
        }
    }

    /// A new buffer holding the rectangle's window of this one: cell
    /// `(x, y)` of the result is cell `(left + x, top + y)` here.
    pub fn window(&self, rect: &Rectangle) -> (out: TextBuffer)
        requires
            self.wf(),
            (rect.spec_right() - rect.spec_left() + 1) * (rect.spec_bottom() - rect.spec_top()
                + 1) <= u32::MAX,
        ensures
            out.wf(),
            out.spec_rows() == rect.spec_bottom() - rect.spec_top() + 1,
            out.spec_cols() == rect.spec_right() - rect.spec_left() + 1,
            forall|x: int, y: int|
                out.in_dims(x, y) ==> #[trigger] out.cell(x, y) == self.cell(
                    rect.spec_left() + x,
                    rect.spec_top() + y,
                ),
    {
        proof {
            assert(rect.spec_right() - rect.spec_left() < u32::MAX && rect.spec_bottom()
                - rect.spec_top() < u32::MAX) by (nonlinear_arith)
                requires
                    (rect.spec_right() - rect.spec_left() + 1) * (rect.spec_bottom()
                        - rect.spec_top() + 1) <= u32::MAX,
                    rect.spec_right() >= rect.spec_left(),
                    rect.spec_bottom() >= rect.spec_top(),
            ;
            self.lemma_no_blank();
        }
        let h = rect.height();
        let w = rect.width();
        let mut out_buffer = TextBuffer::new(h, w);
        let min_x = rect.left();
        let min_y = rect.top();
        let mut row: u32 = 0;
        while row < h
            invariant
                self.wf(),
                out_buffer.wf(),
                out_buffer.spec_rows() == h,
                out_buffer.spec_cols() == w,
                w == rect.spec_right() - rect.spec_left() + 1,
                h == rect.spec_bottom() - rect.spec_top() + 1,
                min_x == rect.spec_left(),
                min_y == rect.spec_top(),
                row <= h,
                forall|x: int, y: int| #[trigger] self.cell(x, y) != Some(' '),
                forall|x: int, y: int|
                    out_buffer.in_dims(x, y) ==> #[trigger] out_buffer.cell(x, y) == if y < row {
                        self.cell(min_x + x, min_y + y)
                    } else {
                        None::<char>
                    },
            decreases h - row,
        {
            let mut col: u32 = 0;
            while col < w
                invariant
                    self.wf(),
                    out_buffer.wf(),
                    out_buffer.spec_rows() == h,
                    out_buffer.spec_cols() == w,
                    w == rect.spec_right() - rect.spec_left() + 1,
                    h == rect.spec_bottom() - rect.spec_top() + 1,
                    min_x == rect.spec_left(),
                    min_y == rect.spec_top(),
                    row < h,
                    col <= w,
                    forall|x: int, y: int| #[trigger] self.cell(x, y) != Some(' '),
                    forall|x: int, y: int|
                        out_buffer.in_dims(x, y) ==> #[trigger] out_buffer.cell(x, y) == if y
                            < row || (y == row && x < col) {
                            self.cell(min_x + x, min_y + y)
                        } else {
                            None::<char>
                        },
                decreases w - col,
            {
                let v = self.get(TextCoordinate { x: min_x + col, y: min_y + row });
                out_buffer.set_text(&TextCoordinate { x: col, y: row }, v);
                col = col + 1;
            }
            row = row + 1;
        }
        out_buffer
    }

    /// A new buffer of the requested size holding this one's content where
    /// the two overlap, blank elsewhere.
    pub fn resize(&self, resize: Resize) -> (out: TextBuffer)
        requires
            self.wf(),
            resize.num_rows as int * resize.num_cols as int <= u32::MAX as int,
        ensures
            out.wf(),
            out.spec_rows() == resize.num_rows,
            out.spec_cols() == resize.num_cols,
            forall|x: int, y: int|
                out.in_dims(x, y) ==> #[trigger] out.cell(x, y) == self.cell(x, y),
    {
        proof {
            self.lemma_no_blank();
        }
        let mut output = TextBuffer::new(resize.num_rows, resize.num_cols);
        let mut row: u32 = 0;
        while row < resize.num_rows
            invariant
                self.wf(),
                output.wf(),
                output.spec_rows() == resize.num_rows,
                output.spec_cols() == resize.num_cols,
                row <= resize.num_rows,
                forall|x: int, y: int| #[trigger] self.cell(x, y) != Some(' '),
                forall|x: int, y: int|
                    output.in_dims(x, y) ==> #[trigger] output.cell(x, y) == if y < row {
                        self.cell(x, y)
                    } else {
                        None::<char>
                    },
            decreases resize.num_rows - row,
        {
            let mut col: u32 = 0;
            while col < resize.num_cols
                invariant
                    self.wf(),
                    output.wf(),
                    output.spec_rows() == resize.num_rows,
                    output.spec_cols() == resize.num_cols,
                    row < resize.num_rows,
                    col <= resize.num_cols,
                    forall|x: int, y: int| #[trigger] self.cell(x, y) != Some(' '),
                    forall|x: int, y: int|
                        output.in_dims(x, y) ==> #[trigger] output.cell(x, y) == if y < row || (
                        y == row && x < col) {
                            self.cell(x, y)
                        } else {
                            None::<char>
                        },
                decreases resize.num_cols - col,
            {
                let tc = TextCoordinate { x: col, y: row };
                let v = self.get(tc);
                output.set_text(&tc, v);
                col = col + 1;
            }
            row = row + 1;
        }
        output
    }
}

impl TextBuffer {
    /// Every cell a traversal reports lies inside the grid and holds the
    /// reported character.
    proof fn lemma_upto_in_dims(self, n: int, col_major: bool)
        requires
            0 <= n <= self.spec_rows() as int * self.spec_cols() as int,
        ensures
            !col_major ==> forall|k: int|
                0 <= k < self.row_major_upto(n).len() ==> self.in_dims(
                    (#[trigger] self.row_major_upto(n)[k]).0.x as int,
                    self.row_major_upto(n)[k].0.y as int,
                ) && self.cell(
                    self.row_major_upto(n)[k].0.x as int,
                    self.row_major_upto(n)[k].0.y as int,
                ) == Some(self.row_major_upto(n)[k].1),
            col_major ==> forall|k: int|
                0 <= k < self.col_major_upto(n).len() ==> self.in_dims(
                    (#[trigger] self.col_major_upto(n)[k]).0.x as int,
                    self.col_major_upto(n)[k].0.y as int,
                ) && self.cell(
                    self.col_major_upto(n)[k].0.x as int,
                    self.col_major_upto(n)[k].0.y as int,
                ) == Some(self.col_major_upto(n)[k].1),
        decreases n,
    {
        if n > 0 {
            self.lemma_upto_in_dims(n - 1, col_major);
            if !col_major {
                let pre = self.row_major_upto(n - 1);
                let cur = self.row_major_upto(n);
                assert forall|k: int|
                    0 <= k < cur.len() implies self.in_dims(
                    (#[trigger] cur[k]).0.x as int,
                    cur[k].0.y as int,
                ) && self.cell(cur[k].0.x as int, cur[k].0.y as int) == Some(cur[k].1) by {
                    if k < pre.len() {
                        assert(cur[k] == pre[k]);
                    } else {
                        let i = n - 1;
                        let x = i % (self.spec_cols() as int);
                        let y = i / (self.spec_cols() as int);
                        assert(self.cell(x, y) is Some);
                    }
                }
            } else {
                let pre = self.col_major_upto(n - 1);
                let cur = self.col_major_upto(n);
                assert forall|k: int|
                    0 <= k < cur.len() implies self.in_dims(
                    (#[trigger] cur[k]).0.x as int,
                    cur[k].0.y as int,
                ) && self.cell(cur[k].0.x as int, cur[k].0.y as int) == Some(cur[k].1) by {
                    if k < pre.len() {
                        assert(cur[k] == pre[k]);
                    } else {
                        let i = n - 1;
                        let x = i / (self.spec_rows() as int);
                        let y = i % (self.spec_rows() as int);
                        assert(self.cell(x, y) is Some);
                    }
                }
            }
        }
    }

    /// Every cell the row-major traversal reports lies inside the grid and
    /// holds the reported character.
    pub proof fn lemma_row_major_in_dims(self)
        requires
            self.spec_rows() as int * self.spec_cols() as int >= 0,
        ensures
            forall|k: int|
                0 <= k < self.row_major_cells().len() ==> self.in_dims(
                    (#[trigger] self.row_major_cells()[k]).0.x as int,
                    self.row_major_cells()[k].0.y as int,
                ) && self.cell(
                    self.row_major_cells()[k].0.x as int,
                    self.row_major_cells()[k].0.y as int,
                ) == Some(self.row_major_cells()[k].1),
    {
        self.lemma_upto_in_dims(self.spec_rows() as int * self.spec_cols() as int, false);
    }

    /// Every cell the column-major traversal reports lies inside the grid
    /// and holds the reported character.
    pub proof fn lemma_col_major_in_dims(self)
        requires
            self.spec_rows() as int * self.spec_cols() as int >= 0,
        ensures
            forall|k: int|
                0 <= k < self.col_major_cells().len() ==> self.in_dims(
                    (#[trigger] self.col_major_cells()[k]).0.x as int,
                    self.col_major_cells()[k].0.y as int,
                ) && self.cell(
                    self.col_major_cells()[k].0.x as int,
                    self.col_major_cells()[k].0.y as int,
                ) == Some(self.col_major_cells()[k].1),
    {
        self.lemma_upto_in_dims(self.spec_rows() as int * self.spec_cols() as int, true);
    }

    /// Every cell a diagonal run reports holds the reported character.
    proof fn lemma_diag_run_cells(self, sx: int, sy: int, m: int, down_right: bool)
        ensures
            down_right ==> forall|k: int|
                0 <= k < self.diag_run_dr(sx, sy, m).len() ==> self.cell(
                    (#[trigger] self.diag_run_dr(sx, sy, m)[k]).0.x as int,
                    self.diag_run_dr(sx, sy, m)[k].0.y as int,
                ) == Some(self.diag_run_dr(sx, sy, m)[k].1),
            !down_right ==> forall|k: int|
                0 <= k < self.diag_run_ur(sx, sy, m).len() ==> self.cell(
                    (#[trigger] self.diag_run_ur(sx, sy, m)[k]).0.x as int,
                    self.diag_run_ur(sx, sy, m)[k].0.y as int,
                ) == Some(self.diag_run_ur(sx, sy, m)[k].1),
        decreases m,
    {
        if m > 0 {
            self.lemma_diag_run_cells(sx, sy, m - 1, down_right);
            if down_right {
                let pre = self.diag_run_dr(sx, sy, m - 1);
                let cur = self.diag_run_dr(sx, sy, m);
                assert forall|k: int|
                    0 <= k < cur.len() implies self.cell(
                    (#[trigger] cur[k]).0.x as int,
                    cur[k].0.y as int,
                ) == Some(cur[k].1) by {
                    if k < pre.len() {
                        assert(cur[k] == pre[k]);
                    } else {
                        assert(self.cell(sx + m - 1, sy + m - 1) is Some);
                    }
                }
            } else {
                let pre = self.diag_run_ur(sx, sy, m - 1);
                let cur = self.diag_run_ur(sx, sy, m);
                assert forall|k: int|
                    0 <= k < cur.len() implies self.cell(
                    (#[trigger] cur[k]).0.x as int,
                    cur[k].0.y as int,
                ) == Some(cur[k].1) by {
                    if k < pre.len() {
                        assert(cur[k] == pre[k]);
                    } else {
                        assert(self.cell(sx + m - 1, sy - (m - 1)) is Some);
                    }
                }
            }
        }
    }

    /// Every cell the first `s` diagonals report holds the reported
    /// character.
    proof fn lemma_diag_upto_cells(self, s: int, down_right: bool)
        ensures
            down_right ==> forall|k: int|
                0 <= k < self.diag_dr_upto(s).len() ==> self.cell(
                    (#[trigger] self.diag_dr_upto(s)[k]).0.x as int,
                    self.diag_dr_upto(s)[k].0.y as int,
                ) == Some(self.diag_dr_upto(s)[k].1),
            !down_right ==> forall|k: int|
                0 <= k < self.diag_ur_upto(s).len() ==> self.cell(
                    (#[trigger] self.diag_ur_upto(s)[k]).0.x as int,
                    self.diag_ur_upto(s)[k].0.y as int,
                ) == Some(self.diag_ur_upto(s)[k].1),
        decreases s,
    {
        if s > 0 {
            self.lemma_diag_upto_cells(s - 1, down_right);
            if down_right {
                let sx = self.diag_dr_start_x(s - 1);
                let sy = self.diag_dr_start_y(s - 1);
                self.lemma_diag_run_cells(sx, sy, self.diag_dr_len(sx, sy), true);
                let pre = self.diag_dr_upto(s - 1);
                let run = self.diag_run_dr(sx, sy, self.diag_dr_len(sx, sy));
                let cur = self.diag_dr_upto(s);
                assert forall|k: int|
                    0 <= k < cur.len() implies self.cell(
                    (#[trigger] cur[k]).0.x as int,
                    cur[k].0.y as int,
                ) == Some(cur[k].1) by {
                    if k < pre.len() {
                        assert(cur[k] == pre[k]);
                    } else {
                        assert(cur[k] == run[k - pre.len()]);
                    }
                }
            } else {
                let sx = self.diag_ur_start_x(s - 1);
                let sy = self.diag_ur_start_y(s - 1);
                self.lemma_diag_run_cells(sx, sy, self.diag_ur_len(sx, sy), false);
                let pre = self.diag_ur_upto(s - 1);
                let run = self.diag_run_ur(sx, sy, self.diag_ur_len(sx, sy));
                let cur = self.diag_ur_upto(s);
                assert forall|k: int|
                    0 <= k < cur.len() implies self.cell(
                    (#[trigger] cur[k]).0.x as int,
                    cur[k].0.y as int,
                ) == Some(cur[k].1) by {
                    if k < pre.len() {
                        assert(cur[k] == pre[k]);
                    } else {
                        assert(cur[k] == run[k - pre.len()]);
                    }
                }
            }
        }
    }

    /// Every cell the down-right diagonal traversal reports holds the
    /// reported character.
    pub proof fn lemma_diag_dr_cells_hold(self)
        ensures
            forall|k: int|
                0 <= k < self.diag_dr_cells().len() ==> self.cell(
                    (#[trigger] self.diag_dr_cells()[k]).0.x as int,
                    self.diag_dr_cells()[k].0.y as int,
                ) == Some(self.diag_dr_cells()[k].1),
    {
        self.lemma_diag_upto_cells(self.diag_num_starts(), true);
    }

    /// Every cell the up-right diagonal traversal reports holds the
    /// reported character.
    pub proof fn lemma_diag_ur_cells_hold(self)
        ensures
            forall|k: int|
                0 <= k < self.diag_ur_cells().len() ==> self.cell(
                    (#[trigger] self.diag_ur_cells()[k]).0.x as int,
                    self.diag_ur_cells()[k].0.y as int,
                ) == Some(self.diag_ur_cells()[k].1),
    {
        self.lemma_diag_upto_cells(self.diag_num_starts(), false);
    }

    /// Row `y` as characters, blanks shown as spaces.
    pub open spec fn spec_row(self, y: int) -> Seq<char> {
        Seq::new(
            self.spec_cols() as nat,
            |x: int|
                match self.cell(x, y) {
                    Some(c) => c,
                    None => ' ',
                },
        )
    }

    /// The first `n` rows, each trimmed of trailing whitespace, the empty
    /// ones dropped.
    pub open spec fn kept_rows_upto(self, n: int) -> Seq<Seq<char>>
        decreases n,
    {
        if n <= 0 {
            Seq::empty()
        } else {
            self.kept_rows_upto(n - 1) + if trim_trailing_ws(self.spec_row(n - 1)).len() > 0 {
                seq![trim_trailing_ws(self.spec_row(n - 1))]
            } else {
                Seq::empty()
            }
        }
    }

    /// What `render` prints: the rows trimmed of trailing whitespace, empty
    /// rows dropped, the rest joined with newlines.
    pub open spec fn spec_render(self) -> Seq<char> {
        join_lines(self.kept_rows_upto(self.spec_rows() as int))
    }

    /// The grid as text: each row trimmed of trailing whitespace, empty rows
    /// dropped, the remaining rows joined with single newlines.
    pub fn render(&self) -> (r: String)
        requires
            self.wf(),
        ensures
            r@ == self.spec_render(),
    {
        let mut out = String::new();
        let mut any = false;
        let rows = self.num_rows;
        let cols = self.num_cols;
        let mut y: u32 = 0;
        while y < rows
            invariant
                self.wf(),
                rows == self.spec_rows(),
                cols == self.spec_cols(),
                y <= rows,
                any == (self.kept_rows_upto(y as int).len() > 0),
                out@ == join_lines(self.kept_rows_upto(y as int)),
            decreases rows - y,
        {
            let ghost row_s = self.spec_row(y as int);
            // How many characters stay once trailing whitespace goes.
            let mut keep: u32 = 0;
            let mut x: u32 = 0;
            while x < cols
                invariant
                    self.wf(),
                    rows == self.spec_rows(),
                    cols == self.spec_cols(),
                    y < rows,
                    row_s == self.spec_row(y as int),
                    x <= cols,
                    keep <= x,
                    forall|k: int| keep <= k < x ==> is_ascii_ws(#[trigger] row_s[k]),
                    keep > 0 ==> !is_ascii_ws(row_s[keep - 1]),
                decreases cols - x,
            {
                let c = match self.get(TextCoordinate { x, y }) {
                    Some(c) => c,
                    None => ' ',
                };
                if !(c == ' ' || c == '\t' || c == '\n' || c == '\r' || c == '\u{c}') {
                    keep = x + 1;
                }
                x = x + 1;
            }
            proof {
                lemma_trim_is_take(row_s, keep as int);
                assert(self.kept_rows_upto(y as int + 1) == self.kept_rows_upto(y as int)
                    + if trim_trailing_ws(row_s).len() > 0 {
                    seq![trim_trailing_ws(row_s)]
                } else {
                    Seq::<Seq<char>>::empty()
                });
            }
            if keep > 0 {
                if any {
                    push_char(&mut out, '\n');
                }
                let ghost out_pre = out@;
                let mut x2: u32 = 0;
                while x2 < keep
                    invariant
                        self.wf(),
                        rows == self.spec_rows(),
                        cols == self.spec_cols(),
                        y < rows,
                        row_s == self.spec_row(y as int),
                        keep <= cols,
                        x2 <= keep,
                        out@ == out_pre + row_s.take(x2 as int),
                    decreases keep - x2,
                {
                    let c = match self.get(TextCoordinate { x: x2, y }) {
                        Some(c) => c,
                        None => ' ',
                    };
                    push_char(&mut out, c);
                    proof {
                        assert(row_s.take(x2 as int + 1) =~= row_s.take(x2 as int).push(
                            row_s[x2 as int],
                        ));
                    }
                    x2 = x2 + 1;
                }
                proof {
                    let kept = self.kept_rows_upto(y as int);
                    let t = trim_trailing_ws(row_s);
                    assert(out@ == out_pre + t);
                    lemma_join_push(kept, t);
                    assert(self.kept_rows_upto(y as int + 1) =~= kept.push(t));
                }
                any = true;
            } else {
                proof {
                    assert(self.kept_rows_upto(y as int + 1) =~= self.kept_rows_upto(y as int));
                }
            }
            y = y + 1;
        }
        out
    }

    /// The words of the grid in reading order.
    pub open spec fn spec_words(self) -> Seq<(TextCoordinate, Seq<char>)> {
        words_rec(self.row_major_cells(), None)
    }

    /// The maximal horizontal runs of populated cells, in reading order, each
    /// with the coordinate of its first character.
    pub fn words(&self) -> (r: Vec<(TextCoordinate, String)>)
        requires
            self.wf(),
        ensures
            word_views(r@) == self.spec_words(),
    {
        let cells = self.iter();
        let mut out: Vec<(TextCoordinate, String)> = Vec::new();
        let mut cur: Option<(TextCoordinate, TextCoordinate)> = None;
        let mut buf = String::new();
        let n = cells.len();
        let mut i: usize = 0;
        proof {
            assert(cells@.skip(0) =~= cells@);
            assert(word_views(out@) =~= Seq::<(TextCoordinate, Seq<char>)>::empty());
        }
        while i < n
            invariant
                n == cells@.len(),
                cells@ == self.row_major_cells(),
                i <= n,
                words_rec(cells@, None) == word_views(out@) + words_rec(
                    cells@.skip(i as int),
                    match cur {
                        None => None,
                        Some((st, prev)) => Some((st, prev, buf@)),
                    },
                ),
                cur is None ==> buf@ == Seq::<char>::empty(),
            decreases n - i,
        {
            let (pos, ch) = cells[i];
            proof {
                assert(cells@.skip(i as int).drop_first() =~= cells@.skip(i as int + 1));
                assert(cells@.skip(i as int)[0] == cells@[i as int]);
            }
            match cur {
                Some((st, prev)) => {
                    if pos.y == prev.y && pos.x >= 1 && pos.x - 1 == prev.x {
                        push_char(&mut buf, ch);
                        cur = Some((st, pos));
                    } else {
                        let ghost out_pre = out@;
                        let mut done = String::new();
                        core::mem::swap(&mut done, &mut buf);
                        out.push((st, done));
                        push_char(&mut buf, ch);
                        cur = Some((pos, pos));
                        proof {
                            assert(word_views(out@) =~= word_views(out_pre).push((st, done@)));
                        }
                    }
                },
                None => {
                    push_char(&mut buf, ch);
                    cur = Some((pos, pos));
                },
            }
            i = i + 1;
        }
        proof {
            assert(cells@.skip(n as int) =~= Seq::<(TextCoordinate, char)>::empty());
        }
        if let Some((st, _)) = cur {
            let ghost out_pre = out@;
            out.push((st, buf));
            proof {
                assert(word_views(out@) =~= word_views(out_pre).push((st, buf@)));
            }
        }
        out
    }
}

/// When everything from `j` on is whitespace and the character before `j`
/// is not, trimming keeps exactly the first `j` characters.
proof fn lemma_trim_is_take(s: Seq<char>, j: int)
    requires
        0 <= j <= s.len(),
        forall|k: int| j <= k < s.len() ==> is_ascii_ws(#[trigger] s[k]),
        j > 0 ==> !is_ascii_ws(s[j - 1]),
    ensures
        trim_trailing_ws(s) == s.take(j),
    decreases s.len(),
{
    if s.len() == j {
        assert(s.take(j) =~= s);
    } else {
        assert(is_ascii_ws(s.last()));
        lemma_trim_is_take(s.drop_last(), j);
        assert(s.drop_last().take(j) =~= s.take(j));
    }
}

/// Joining after appending one more line appends a separator and the line.
proof fn lemma_join_push(rows: Seq<Seq<char>>, t: Seq<char>)
    ensures
        join_lines(rows.push(t)) == if rows.len() == 0 {
            t
        } else {
            join_lines(rows) + seq!['\n'] + t
        },
{
    assert(rows.push(t).drop_last() =~= rows);
    assert(rows.push(t).last() == t);
    if rows.len() == 0 {
        assert(join_lines(rows.push(t)) == rows.push(t)[0]);
        assert(rows.push(t)[0] == t);
    }
}

/// Everything strictly between the first quote of `x` and the last quote
/// after it; empty when `x` has fewer than two quotes.
pub fn strip_outer(x: &str) -> (r: String)
    ensures
        r@ == strip_outer_spec(x@),
{
    let chars = chars_of(x);
    let n = chars.len();
    let mut a: usize = 0;
    while a < n && *(&chars[a]) != '"'
        invariant
            n == chars@.len(),
            chars@ == x@,
            a <= n,
            forall|k: int| 0 <= k < a ==> chars@[k] != '"',
        decreases n - a,
    {
        a = a + 1;
    }
    proof {
        lemma_first_quote(x@, a as int);
    }
    let mut r = String::new();
    if a == n {
        return r;
    }
    // Find the last quote after position `a`.
    let ghost t = x@.skip(a as int + 1);
    let mut b: usize = n;
    let mut j: usize = n;
    while j > a + 1
        invariant
            n == chars@.len(),
            chars@ == x@,
            a < n,
            a + 1 <= j <= n,
            b <= n,
            b == n ==> forall|k: int| j <= k < n ==> chars@[k] != '"',
            b < n ==> j <= b && chars@[b as int] == '"' && forall|k: int|
                b < k < n ==> chars@[k] != '"',
        decreases j,
    {
        j = j - 1;
        if b == n && chars[j] == '"' {
            b = j;
        }
    }
    proof {
        assert(t.len() == n - (a + 1));
        assert(forall|k: int| 0 <= k < t.len() ==> #[trigger] t[k] == x@[k + a + 1]);
        if b == n {
            lemma_last_quote_none(t);
        } else {
            assert(j == a + 1);
            assert(a + 1 <= b < n);
            assert(t[b - (a + 1)] == '"');
            assert forall|k: int| b - (a + 1) < k < t.len() implies t[k] != '"' by {
                assert(t[k] == chars@[k + a + 1]);
            }
            lemma_last_quote_at(t, b - (a + 1));
        }
    }
    if b == n {
        return r;
    }
    proof {
        assert(t.take(0) =~= Seq::<char>::empty());
    }
    let mut i: usize = a + 1;
    while i < b
        invariant
            n == chars@.len(),
            chars@ == x@,
            a + 1 <= i <= b < n,
            t == x@.skip(a as int + 1),
            r@ == t.take(i - (a + 1)),
        decreases b - i,
    {
        push_char(&mut r, chars[i]);
        proof {
            assert(t[i - (a + 1)] == x@[i as int]);
            assert(t.take(i + 1 - (a + 1)) =~= t.take(i - (a + 1)).push(t[i - (a + 1)]));
        }
        i = i + 1;
    }
    r
}

/// When no quote sits before `a` and `a` is a quote or the end, the first
/// quote index is `a`.
proof fn lemma_first_quote(s: Seq<char>, a: int)
    requires
        0 <= a <= s.len(),
        forall|k: int| 0 <= k < a ==> s[k] != '"',
        a < s.len() ==> s[a] == '"',
    ensures
        first_quote_idx(s) == a,
    decreases s.len(),
{
    if s.len() == 0 {
    } else if a == 0 {
    } else {
        assert(s[0] != '"');
        lemma_first_quote(s.drop_first(), a - 1);
        assert(forall|k: int| 0 <= k < a - 1 ==> s.drop_first()[k] == s[k + 1]);
    }
}

/// A sequence without quotes has no last-quote index.
proof fn lemma_last_quote_none(s: Seq<char>)
    requires
        forall|k: int| 0 <= k < s.len() ==> s[k] != '"',
    ensures
        last_quote_idx(s) == -1,
    decreases s.len(),
{
    if s.len() > 0 {
        lemma_last_quote_none(s.drop_last());
    }
}

/// When `b` is a quote and nothing after it is, the last quote index is `b`.
proof fn lemma_last_quote_at(s: Seq<char>, b: int)
    requires
        0 <= b < s.len(),
        s[b] == '"',
        forall|k: int| b < k < s.len() ==> s[k] != '"',
    ensures
        last_quote_idx(s) == b,
    decreases s.len(),
{
    if b == s.len() - 1 {
    } else {
        lemma_last_quote_at(s.drop_last(), b);
    }
}

/// Relies on String::push: appends exactly the given character.
#[verifier::external_body]
fn push_char(s: &mut String, c: char)
    ensures
        final(s)@ == old(s)@.push(c),
{
    s.push(c);
}

/// The characters of `s`, in order.
fn chars_of(s: &str) -> (r: Vec<char>)
    ensures
        r@ == s@,
{
    let n = s.unicode_len();
    let mut r: Vec<char> = Vec::new();
    let mut i: usize = 0;
    while i < n
        invariant
            n == s@.len(),
            i <= n,
            r@ == s@.take(i as int),
        decreases n - i,
    {
        let c = s.get_char(i);
        r.push(c);
        proof {
            assert(s@.take(i as int + 1) =~= s@.take(i as int).push(s@[i as int]));
        }
        i = i + 1;
    }
    proof {
        assert(s@.take(n as int) =~= s@);
    }
    r
}

/// The `'\n'`-separated pieces of `chars`, separators removed.
fn split_lines_vec(chars: &Vec<char>) -> (r: Vec<Vec<char>>)
    ensures
        line_views(r@) == split_newlines(chars@),
{
    let mut done: Vec<Vec<char>> = Vec::new();
    let mut cur: Vec<char> = Vec::new();
    let n = chars.len();
    let mut i: usize = 0;
    while i < n
        invariant
            i <= n,
            n == chars@.len(),
            line_views(done@).push(cur@) == split_newlines(chars@.take(i as int)),
        decreases n - i,
    {
        let ghost pre = line_views(done@).push(cur@);
        let c = chars[i];
        if c == '\n' {
            done.push(cur);
            cur = Vec::new();
            proof {
                assert(line_views(done@).push(cur@) =~~= pre.push(Seq::<char>::empty()));
            }
        } else {
            cur.push(c);
            proof {
                assert(line_views(done@).push(cur@) =~~= pre.update(
                    pre.len() - 1,
                    pre.last().push(c),
                ));
            }
        }
        proof {
            assert(chars@.take(i as int + 1).drop_last() =~= chars@.take(i as int));
            assert(chars@.take(i as int + 1).last() == chars@[i as int]);
        }
        i = i + 1;
    }
    proof {
        assert(chars@.take(n as int) =~= chars@);
    }
    done.push(cur);
    proof {
        assert(line_views(done@) =~~= line_views(done@.drop_last()).push(cur@));
    }
    done
}

proof fn lemma_split_newlines_nonempty(s: Seq<char>)
    ensures
        split_newlines(s).len() >= 1,
    decreases s.len(),
{
    if s.len() > 0 {
        lemma_split_newlines_nonempty(s.drop_last());
    }
}

proof fn lemma_max_line_len_ge(lines: Seq<Seq<char>>, i: int)
    requires
        0 <= i < lines.len(),
    ensures
        lines[i].len() <= max_line_len(lines),
    decreases lines.len(),
{
    lemma_max_line_len_nonneg(lines);
    if i < lines.len() - 1 {
        lemma_max_line_len_ge(lines.drop_last(), i);
    }
}

proof fn lemma_max_line_len_nonneg(lines: Seq<Seq<char>>)
    ensures
        max_line_len(lines) >= 0,
    decreases lines.len(),
{
    if lines.len() > 0 {
        lemma_max_line_len_nonneg(lines.drop_last());
    }
}

/// The lines of `chars`, as `str::lines` reads them.
fn lines_vec(chars: &Vec<char>) -> (r: Vec<Vec<char>>)
    ensures
        line_views(r@) == lines_of(chars@),
{
    let mut p = split_lines_vec(chars);
    let ghost ps = split_newlines(chars@);
    proof {
        lemma_split_newlines_nonempty(chars@);
    }
    let last = match p.pop() {
        Some(v) => v,
        None => Vec::new(),
    };
    let ghost body_target = ps.drop_last().map_values(|t: Seq<char>| strip_cr(t));
    let n = p.len();
    let mut body: Vec<Vec<char>> = Vec::new();
    let mut j: usize = 0;
    while j < n
        invariant
            j <= n,
            n == p@.len(),
            line_views(p@) == ps.drop_last(),
            body_target == ps.drop_last().map_values(|t: Seq<char>| strip_cr(t)),
            body@.len() == j,
            forall|k: int| 0 <= k < j ==> #[trigger] body@[k]@ == body_target[k],
        decreases n - j,
    {
        let mut piece = p[j].clone();
        proof {
            assert(piece@ == p@[j as int]@);
        }
        if piece.len() > 0 && piece[piece.len() - 1] == '\r' {
            piece.pop();
            proof {
                assert(piece@ =~= strip_cr(p@[j as int]@));
            }
        }
        body.push(piece);
        j = j + 1;
    }
    if last.len() > 0 {
        body.push(last);
        proof {
            assert(line_views(body@) =~~= lines_of(chars@));
        }
    } else {
        proof {
            assert(line_views(body@) =~~= lines_of(chars@));
        }
    }
    body
}

} // verus!
