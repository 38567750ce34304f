//! Keeps a copy of the screen by following what the program writes.
//!
//! To take away what was drawn over the screen one has to know what was there before. A
//! complete imitation of a terminal is not needed: the characters, how they look, and where
//! the cursor is.
use vstd::prelude::*;
use vstd::string::*;
use crate::sgr::{
    first_number, move_text, move_to, param_numbers, plain, set_sgr, sgr_applied, sgr_text,
};
use crate::width::{char_width, columns};

pub use crate::sgr::{
    Attr, Color, BLINK, BOLD, DIM, HIDDEN, ITALIC, REVERSE, STRIKE, UNDERLINE,
};

verus! {

/// One place on the screen.
#[derive(Clone, Copy, PartialEq, Eq, Debug, Structural)]
pub struct Cell {
    pub ch: char,
    pub attr: Attr,
    /// How many columns the character takes; none where the one before reaches over.
    pub width: u8,
}

/// A place where nothing was written.
pub open spec fn blank() -> Cell {
    Cell { ch: ' ', attr: plain(), width: 1 }
}

impl Default for Cell {
    fn default() -> (r: Self)
        ensures
            r == blank(),
    {
        Cell { ch: ' ', attr: Attr::default(), width: 1 }
    }
}

/// The rows of a screen.
pub type Grid = Vec<Vec<Cell>>;

/// What a screen holds.
pub struct ScreenText {
    pub rows: int,
    pub cols: int,
    pub grid: Seq<Seq<Cell>>,
    /// The main screen while the other one is shown.
    pub saved: Option<Seq<Seq<Cell>>>,
    pub row: int,
    pub col: int,
    /// The last column was written, and the next character goes to the next row.
    pub wrap_pending: bool,
    pub pen: Attr,
    pub saved_cursor: (int, int, Attr),
    pub top: int,
    pub bottom: int,
    pub autowrap: bool,
    pub cursor_visible: bool,
    pub alt_screen: bool,
    pub touched: bool,
}

/// A row where nothing was written.
pub open spec fn blank_row(cols: int) -> Seq<Cell> {
    Seq::new(cols as nat, |i: int| blank())
}

/// A screen where nothing was written.
pub open spec fn blank_grid(rows: int, cols: int) -> Seq<Seq<Cell>> {
    Seq::new(rows as nat, |i: int| blank_row(cols))
}

/// Whether a grid has so many rows and columns.
pub open spec fn sized(g: Seq<Seq<Cell>>, rows: int, cols: int) -> bool {
    g.len() == rows && forall|i: int| 0 <= i < rows ==> (#[trigger] g[i]).len() == cols
}

/// What holds of every screen: the grids have its size, the cursor and the part that scrolls
/// are on it, and the main screen is put aside exactly while the other one is shown.
pub open spec fn fits(s: ScreenText) -> bool {
    &&& 1 <= s.rows
    &&& 1 <= s.cols
    &&& sized(s.grid, s.rows, s.cols)
    &&& s.saved is Some ==> sized(s.saved->0, s.rows, s.cols)
    &&& s.alt_screen == s.saved is Some
    &&& 0 <= s.row < s.rows
    &&& 0 <= s.col < s.cols
    &&& 0 <= s.top <= s.bottom < s.rows
}

/// The smaller of two.
pub open spec fn least(a: int, b: int) -> int {
    if a < b {
        a
    } else {
        b
    }
}

/// The larger of two.
pub open spec fn most(a: int, b: int) -> int {
    if a < b {
        b
    } else {
        a
    }
}

/// A new screen.
pub open spec fn fresh(rows: int, cols: int) -> ScreenText {
    ScreenText {
        rows,
        cols,
        grid: blank_grid(rows, cols),
        saved: None,
        row: 0,
        col: 0,
        wrap_pending: false,
        pen: plain(),
        saved_cursor: (0, 0, plain()),
        top: 0,
        bottom: rows - 1,
        autowrap: true,
        cursor_visible: true,
        alt_screen: false,
        touched: false,
    }
}

/// A screen whose size has changed: what was on it is forgotten.
pub open spec fn resized(s: ScreenText, rows: int, cols: int) -> ScreenText {
    ScreenText {
        rows,
        cols,
        grid: blank_grid(rows, cols),
        saved: if s.saved is Some {
            Some(blank_grid(rows, cols))
        } else {
            None
        },
        row: least(s.row, rows - 1),
        col: least(s.col, cols - 1),
        top: 0,
        bottom: rows - 1,
        wrap_pending: false,
        ..s
    }
}

/// What is at a place; off the screen nothing was written.
pub open spec fn cell_at(s: ScreenText, row: int, col: int) -> Cell {
    if 0 <= row < s.grid.len() && 0 <= col < s.grid[row].len() {
        s.grid[row][col]
    } else {
        blank()
    }
}

/// The rows from `top` to `bottom` moved up by `n`.
pub open spec fn scrolled_up(g: Seq<Seq<Cell>>, top: int, bottom: int, n: int, cols: int) -> Seq<
    Seq<Cell>,
> {
    Seq::new(
        g.len(),
        |r: int|
            if top <= r <= bottom {
                if r + n <= bottom {
                    g[r + n]
                } else {
                    blank_row(cols)
                }
            } else {
                g[r]
            },
    )
}

/// The rows from `top` to `bottom` moved down by `n`.
pub open spec fn scrolled_down(
    g: Seq<Seq<Cell>>,
    top: int,
    bottom: int,
    n: int,
    cols: int,
) -> Seq<Seq<Cell>> {
    Seq::new(
        g.len(),
        |r: int|
            if top <= r <= bottom {
                if r - n >= top {
                    g[r - n]
                } else {
                    blank_row(cols)
                }
            } else {
                g[r]
            },
    )
}

/// The cursor goes down one row; at the end of the part that scrolls that part moves up.
pub open spec fn line_fed(s: ScreenText) -> ScreenText {
    if s.row == s.bottom {
        ScreenText {
            wrap_pending: false,
            grid: scrolled_up(s.grid, s.top, s.bottom, 1, s.cols),
            ..s
        }
    } else {
        ScreenText { wrap_pending: false, row: least(s.row + 1, s.rows - 1), ..s }
    }
}

/// A place that was erased: of the look only what is behind the characters stays.
pub open spec fn erased(pen: Attr) -> Cell {
    Cell { ch: ' ', attr: Attr { bg: pen.bg, ..plain() }, width: 1 }
}

/// A row with the places from `from` up to `to` erased.
pub open spec fn row_erased(r: Seq<Cell>, from: int, to: int, pen: Attr) -> Seq<Cell> {
    Seq::new(
        r.len(),
        |c: int|
            if from <= c < to {
                erased(pen)
            } else {
                r[c]
            },
    )
}

/// A row with `n` places put in at `col`.
pub open spec fn row_inserted(r: Seq<Cell>, col: int, n: int) -> Seq<Cell> {
    Seq::new(
        r.len(),
        |c: int|
            if c < col {
                r[c]
            } else if c < col + n {
                blank()
            } else {
                r[c - n]
            },
    )
}

/// A row with `n` places taken out at `col`.
pub open spec fn row_deleted(r: Seq<Cell>, col: int, n: int) -> Seq<Cell> {
    Seq::new(
        r.len(),
        |c: int|
            if c < col {
                r[c]
            } else if c + n < r.len() {
                r[c + n]
            } else {
                blank()
            },
    )
}

/// A row with a character of `w` columns written at `col`.
pub open spec fn row_written(r: Seq<Cell>, col: int, ch: char, attr: Attr, w: int) -> Seq<Cell> {
    Seq::new(
        r.len(),
        |c: int|
            if c == col {
                Cell { ch, attr, width: (w % 256) as u8 }
            } else if col < c < col + w {
                Cell { ch: ' ', attr, width: 0 }
            } else {
                r[c]
            },
    )
}

/// How many columns a character takes, none if it has no width of its own.
pub open spec fn taken(c: char) -> int {
    match columns(c) {
        Some(n) => n as int,
        None => 0,
    }
}

/// Where a character goes that takes `w` columns: to the next row if it does not fit on
/// this one, or over the end of this one if rows are not continued.
pub open spec fn placed(s: ScreenText, w: int) -> ScreenText {
    if s.wrap_pending || s.col + w > s.cols {
        if s.autowrap {
            line_fed(ScreenText { col: 0, ..s })
        } else {
            ScreenText { col: most(s.cols - w, 0), ..s }
        }
    } else {
        s
    }
}

/// A screen on which a character was written.
pub open spec fn printed(s: ScreenText, c: char) -> ScreenText {
    put_down(s, c, taken(c))
}

/// A screen on which a character was written that takes `w` columns.
pub open spec fn put_down(s: ScreenText, c: char, w: int) -> ScreenText {
    if w == 0 {
        s
    } else {
        let t = placed(s, w);
        ScreenText {
            grid: t.grid.update(t.row, row_written(t.grid[t.row], t.col, c, t.pen, w)),
            col: least(t.col + w, t.cols - 1),
            wrap_pending: t.col + w >= t.cols,
            ..t
        }
    }
}

/// A screen after a control character.
pub open spec fn executed(s: ScreenText, byte: u8) -> ScreenText {
    if byte == 0x08 {
        ScreenText { wrap_pending: false, col: most(s.col - 1, 0), ..s }
    } else if byte == 0x09 {
        ScreenText { wrap_pending: false, col: least((s.col / 8 + 1) * 8, s.cols - 1), ..s }
    } else if 0x0a <= byte <= 0x0c {
        line_fed(s)
    } else if byte == 0x0d {
        ScreenText { wrap_pending: false, col: 0, ..s }
    } else {
        s
    }
}

/// A screen after a command to the terminal; only those matter that change the colour of
/// the cursor.
pub open spec fn commanded(s: ScreenText, params: Seq<Seq<u8>>) -> ScreenText {
    if params.len() > 0 && (params[0] == seq![0x31u8, 0x32u8] || params[0] == seq![
        0x31u8,
        0x31u8,
        0x32u8,
    ]) {
        ScreenText { touched: true, ..s }
    } else {
        s
    }
}

/// The argument `i` of a sequence; nought, or none, stands for `unset`.
pub open spec fn arg_of(params: Seq<Seq<u16>>, i: int, unset: int) -> int {
    let v = if 0 <= i < params.len() {
        first_number(params[i])
    } else {
        0
    };
    if v == 0 {
        unset
    } else {
        v as int
    }
}

/// A screen after a move of the cursor.
pub open spec fn cursor_moved(s: ScreenText, params: Seq<Seq<u16>>, action: char) -> ScreenText {
    let n = arg_of(params, 0, 1);
    let t = ScreenText { wrap_pending: false, ..s };
    if action == 'A' {
        ScreenText { row: most(s.row - n, 0), ..t }
    } else if action == 'B' {
        ScreenText { row: least(s.row + n, s.rows - 1), ..t }
    } else if action == 'C' {
        ScreenText { col: least(s.col + n, s.cols - 1), ..t }
    } else if action == 'D' {
        ScreenText { col: most(s.col - n, 0), ..t }
    } else if action == 'E' {
        ScreenText { row: least(s.row + n, s.rows - 1), col: 0, ..t }
    } else if action == 'F' {
        ScreenText { row: most(s.row - n, 0), col: 0, ..t }
    } else if action == 'G' || action == '`' {
        ScreenText { col: least(n - 1, s.cols - 1), ..t }
    } else if action == 'd' {
        ScreenText { row: least(n - 1, s.rows - 1), ..t }
    } else {
        ScreenText {
            row: least(n - 1, s.rows - 1),
            col: least(arg_of(params, 1, 1) - 1, s.cols - 1),
            ..t
        }
    }
}

/// Whether a sequence moves the cursor.
pub open spec fn moves(action: char) -> bool {
    'A' <= action <= 'H' || action == '`' || action == 'd' || action == 'f'
}

/// The screen with part of it erased, by the cursor: from it, up to it, or all.
pub open spec fn grid_erased(s: ScreenText, mode: int) -> Seq<Seq<Cell>> {
    Seq::new(
        s.grid.len(),
        |r: int|
            if mode == 0 {
                if r < s.row {
                    s.grid[r]
                } else if r == s.row {
                    row_erased(s.grid[r], s.col, s.cols, s.pen)
                } else {
                    row_erased(s.grid[r], 0, s.cols, s.pen)
                }
            } else if mode == 1 {
                if r < s.row {
                    row_erased(s.grid[r], 0, s.cols, s.pen)
                } else if r == s.row {
                    row_erased(s.grid[r], 0, s.col + 1, s.pen)
                } else {
                    s.grid[r]
                }
            } else {
                row_erased(s.grid[r], 0, s.cols, s.pen)
            },
    )
}

/// The screen with the row of the cursor replaced.
pub open spec fn row_replaced(s: ScreenText, r: Seq<Cell>) -> ScreenText {
    ScreenText { grid: s.grid.update(s.row, r), ..s }
}

/// A screen after its contents were changed round the cursor.
pub open spec fn edited_by(s: ScreenText, params: Seq<Seq<u16>>, action: char) -> ScreenText {
    let n = arg_of(params, 0, 1);
    let mode = arg_of(params, 0, 0);
    let r = s.grid[s.row];
    if action == 'J' {
        ScreenText { grid: grid_erased(s, mode), ..s }
    } else if action == 'K' {
        if mode == 0 {
            row_replaced(s, row_erased(r, s.col, s.cols, s.pen))
        } else if mode == 1 {
            row_replaced(s, row_erased(r, 0, s.col + 1, s.pen))
        } else {
            row_replaced(s, row_erased(r, 0, s.cols, s.pen))
        }
    } else if action == 'X' {
        row_replaced(s, row_erased(r, s.col, s.col + n, s.pen))
    } else if action == '@' {
        row_replaced(s, row_inserted(r, s.col, n))
    } else if action == 'P' {
        row_replaced(s, row_deleted(r, s.col, n))
    } else if action == 'L' {
        if s.top <= s.row <= s.bottom {
            ScreenText { grid: scrolled_down(s.grid, s.row, s.bottom, n, s.cols), ..s }
        } else {
            s
        }
    } else if action == 'M' {
        if s.top <= s.row <= s.bottom {
            ScreenText { grid: scrolled_up(s.grid, s.row, s.bottom, n, s.cols), ..s }
        } else {
            s
        }
    } else if action == 'S' {
        ScreenText { grid: scrolled_up(s.grid, s.top, s.bottom, n, s.cols), ..s }
    } else {
        ScreenText { grid: scrolled_down(s.grid, s.top, s.bottom, n, s.cols), ..s }
    }
}

/// Whether a sequence changes the contents round the cursor.
pub open spec fn edits(action: char) -> bool {
    action == 'J' || action == 'K' || action == 'X' || action == '@' || action == 'P' || action
        == 'L' || action == 'M' || action == 'S' || action == 'T'
}

/// A screen on which the part that scrolls was set.
pub open spec fn margins_set(s: ScreenText, params: Seq<Seq<u16>>) -> ScreenText {
    let top = arg_of(params, 0, 1) - 1;
    let bottom = arg_of(params, 1, s.rows % 0x10000) - 1;
    let home = ScreenText { row: 0, col: 0, ..s };
    if top < bottom < s.rows {
        ScreenText { top, bottom, ..home }
    } else {
        home
    }
}

/// A screen whose cursor was remembered.
pub open spec fn cursor_saved(s: ScreenText) -> ScreenText {
    ScreenText { saved_cursor: (s.row, s.col, s.pen), ..s }
}

/// A screen whose cursor is where it was remembered.
pub open spec fn cursor_restored(s: ScreenText) -> ScreenText {
    ScreenText {
        row: least(s.saved_cursor.0, s.rows - 1),
        col: least(s.saved_cursor.1, s.cols - 1),
        pen: s.saved_cursor.2,
        ..s
    }
}

/// A screen that shows the other screen, or the main one.
pub open spec fn alt_set(s: ScreenText, on: bool) -> ScreenText {
    if on == s.alt_screen {
        s
    } else if on {
        ScreenText {
            saved: Some(s.grid),
            grid: blank_grid(s.rows, s.cols),
            alt_screen: true,
            ..s
        }
    } else {
        ScreenText {
            grid: match s.saved {
                Some(g) => g,
                None => s.grid,
            },
            saved: None,
            alt_screen: false,
            ..s
        }
    }
}

/// A screen on which a private mode was set or reset.
pub open spec fn mode_set(s: ScreenText, mode: u16, on: bool) -> ScreenText {
    if mode == 7 {
        ScreenText { autowrap: on, ..s }
    } else if mode == 25 {
        ScreenText { cursor_visible: on, ..s }
    } else if mode == 47 || mode == 1047 || mode == 1049 {
        alt_set(s, on)
    } else {
        s
    }
}

/// A screen on which the first `n` of the private modes were set or reset.
pub open spec fn modes_set(s: ScreenText, params: Seq<Seq<u16>>, on: bool, n: int) -> ScreenText
    decreases n,
{
    if n <= 0 {
        s
    } else {
        mode_set(modes_set(s, params, on, n - 1), first_number(params[n - 1]), on)
    }
}

/// A screen after a control sequence without marks.
pub open spec fn unmarked(s: ScreenText, params: Seq<Seq<u16>>, action: char) -> ScreenText {
    if moves(action) {
        cursor_moved(s, params, action)
    } else if edits(action) {
        edited_by(s, params, action)
    } else if action == 'm' {
        ScreenText { pen: sgr_applied(s.pen, params), ..s }
    } else if action == 'r' {
        margins_set(s, params)
    } else if action == 's' {
        cursor_saved(s)
    } else if action == 'u' {
        cursor_restored(s)
    } else {
        s
    }
}

/// A screen after a control sequence. One with marks is another command even where it ends
/// with the same character: of those only private modes and the shape of the cursor are
/// followed.
pub open spec fn controlled(
    s: ScreenText,
    params: Seq<Seq<u16>>,
    marks: Seq<u8>,
    action: char,
) -> ScreenText {
    if marks.len() == 0 {
        unmarked(s, params, action)
    } else if action == 'q' && marks[0] == 0x20 {
        ScreenText { touched: true, ..s }
    } else if (action == 'h' || action == 'l') && marks[0] == 0x3f {
        modes_set(s, params, action == 'h', params.len() as int)
    } else {
        s
    }
}

/// A screen after a sequence of an escape and one character.
pub open spec fn escaped(s: ScreenText, marks: Seq<u8>, byte: u8) -> ScreenText {
    if marks.len() > 0 {
        s
    } else if byte == 0x37 {
        cursor_saved(s)
    } else if byte == 0x38 {
        cursor_restored(s)
    } else if byte == 0x44 {
        line_fed(s)
    } else if byte == 0x45 {
        line_fed(ScreenText { col: 0, ..s })
    } else if byte == 0x4d {
        if s.row == s.top {
            ScreenText {
                grid: scrolled_down(s.grid, s.top, s.bottom, 1, s.cols),
                wrap_pending: false,
                ..s
            }
        } else {
            ScreenText { row: most(s.row - 1, 0), wrap_pending: false, ..s }
        }
    } else if byte == 0x63 {
        fresh(s.rows, s.cols)
    } else {
        s
    }
}

/// The first column of the character that reaches over the column `c`.
pub open spec fn char_start(s: ScreenText, row: int, c: int) -> int
    decreases c,
{
    if c > 0 && cell_at(s, row, c).width == 0 {
        char_start(s, row, c - 1)
    } else {
        c
    }
}

/// The first column from `c` on where a character starts.
pub open spec fn char_end(s: ScreenText, row: int, c: int) -> int
    decreases s.cols - c,
{
    if c < s.cols && cell_at(s, row, c).width == 0 {
        char_end(s, row, c + 1)
    } else {
        c
    }
}

/// The characters of a row from `c` up to `end`, with the looks that they need after `cur`.
pub open spec fn cells_text(s: ScreenText, row: int, c: int, end: int, cur: Option<Attr>) -> Seq<
    char,
>
    decreases
            (if c < end {
                end - c
            } else {
                0
            }),
{
    if c >= end {
        seq![]
    } else {
        let cell = cell_at(s, row, c);
        if cell.width == 0 {
            cells_text(s, row, c + 1, end, cur)
        } else {
            (if cur == Some(cell.attr) {
                seq![]
            } else {
                sgr_text(cell.attr)
            }) + seq![cell.ch] + cells_text(s, row, c + cell.width, end, Some(cell.attr))
        }
    }
}

/// What writes the `len` columns from `col` on of a row again. Characters that are only
/// half in there are written whole.
pub open spec fn region_text(s: ScreenText, row: int, col: int, len: int) -> Seq<char> {
    if row >= s.rows || len == 0 {
        seq![]
    } else {
        let start = char_start(s, row, least(col, s.cols));
        let end = char_end(s, row, least(col + len, s.cols));
        if start >= end {
            seq![]
        } else {
            move_text(row, start) + cells_text(s, row, start, end, None)
        }
    }
}

/// What writes the first `n` rows again.
pub open spec fn rows_text(s: ScreenText, n: int) -> Seq<char>
    decreases n,
{
    if n <= 0 {
        seq![]
    } else {
        rows_text(s, n - 1) + region_text(s, n - 1, 0, s.cols)
    }
}

/// What rows hold.
pub open spec fn grid_cells(v: Seq<Vec<Cell>>) -> Seq<Seq<Cell>> {
    v.map_values(|r: Vec<Cell>| r@)
}

/// What the rows hold that were put aside.
pub open spec fn opt_grid(v: Option<Grid>) -> Option<Seq<Seq<Cell>>> {
    match v {
        Some(g) => Some(grid_cells(g@)),
        None => None,
    }
}

/// A copy of the screen.
pub struct Screen {
    pub rows: usize,
    pub cols: usize,
    pub grid: Grid,
    /// The main screen while the other one is shown.
    pub saved_grid: Option<Grid>,
    pub row: usize,
    pub col: usize,
    /// The last column was written, and the next character goes to the next row.
    pub wrap_pending: bool,
    pub pen: Attr,
    pub saved_cursor: (usize, usize, Attr),
    pub scroll_top: usize,
    pub scroll_bot: usize,
    pub autowrap: bool,
    pub cursor_visible: bool,
    pub alt_screen: bool,
    /// The program has changed the shape or the colour of the cursor.
    pub cursor_style_touched: bool,
}

impl View for Screen {
    type V = ScreenText;

    open spec fn view(&self) -> ScreenText {
        ScreenText {
            rows: self.rows as int,
            cols: self.cols as int,
            grid: grid_cells(self.grid@),
            saved: opt_grid(self.saved_grid),
            row: self.row as int,
            col: self.col as int,
            wrap_pending: self.wrap_pending,
            pen: self.pen,
            saved_cursor: (
                self.saved_cursor.0 as int,
                self.saved_cursor.1 as int,
                self.saved_cursor.2,
            ),
            top: self.scroll_top as int,
            bottom: self.scroll_bot as int,
            autowrap: self.autowrap,
            cursor_visible: self.cursor_visible,
            alt_screen: self.alt_screen,
            touched: self.cursor_style_touched,
        }
    }
}

/// A row where nothing was written.
fn new_row(cols: usize) -> (r: Vec<Cell>)
    ensures
        r@ == blank_row(cols as int),
{
    let mut row: Vec<Cell> = Vec::new();
    let mut i: usize = 0;
    while i < cols
        invariant
            i <= cols,
            row@.len() == i,
            forall|j: int| 0 <= j < i ==> row@[j] == blank(),
        decreases cols - i,
    {
        row.push(Cell::default());
        i = i + 1;
    }
    assert(row@ =~= blank_row(cols as int));
    row
}

/// A screen where nothing was written.
fn new_grid(rows: usize, cols: usize) -> (r: Grid)
    ensures
        grid_cells(r@) == blank_grid(rows as int, cols as int),
{
    let mut grid: Grid = Vec::new();
    let mut i: usize = 0;
    while i < rows
        invariant
            i <= rows,
            grid@.len() == i,
            forall|j: int| 0 <= j < i ==> (#[trigger] grid@[j])@ == blank_row(cols as int),
        decreases rows - i,
    {
        grid.push(new_row(cols));
        i = i + 1;
    }
    assert(grid_cells(grid@) =~= blank_grid(rows as int, cols as int));
    grid
}

fn smaller(a: usize, b: usize) -> (r: usize)
    ensures
        r == least(a as int, b as int),
{
    if a < b {
        a
    } else {
        b
    }
}

/// `a` less `b`, or nought.
fn minus(a: usize, b: usize) -> (r: usize)
    ensures
        r == most(a - b, 0),
{
    if b <= a {
        a - b
    } else {
        0
    }
}

/// `a` and `b` together, up to `end`.
fn plus(a: usize, b: usize, end: usize) -> (r: usize)
    requires
        a <= end,
    ensures
        r == least(a + b, end as int),
{
    if b < end - a {
        a + b
    } else {
        end
    }
}

/// A row with the places from `from` up to `to` erased.
fn erase_row(r: &Vec<Cell>, from: usize, to: usize, pen: Attr) -> (out: Vec<Cell>)
    ensures
        out@ == row_erased(r@, from as int, to as int, pen),
{
    let none = Attr { fg: Color::Default, bg: pen.bg, flags: 0 };
    let mut out: Vec<Cell> = Vec::new();
    let mut c: usize = 0;
    while c < r.len()
        invariant
            c <= r@.len(),
            out@.len() == c,
            none == (Attr { bg: pen.bg, ..plain() }),
            forall|j: int|
                0 <= j < c ==> out@[j] == row_erased(r@, from as int, to as int, pen)[j],
        decreases r.len() - c,
    {
        if from <= c && c < to {
            out.push(Cell { ch: ' ', attr: none, width: 1 });
        } else {
            out.push(r[c]);
        }
        c = c + 1;
    }
    assert(out@ =~= row_erased(r@, from as int, to as int, pen));
    out
}

/// A row with `n` places put in at `col`.
fn insert_cells(r: &Vec<Cell>, col: usize, n: usize) -> (out: Vec<Cell>)
    ensures
        out@ == row_inserted(r@, col as int, n as int),
{
    let mut out: Vec<Cell> = Vec::new();
    let mut c: usize = 0;
    while c < r.len()
        invariant
            c <= r@.len(),
            out@.len() == c,
            forall|j: int| 0 <= j < c ==> out@[j] == row_inserted(r@, col as int, n as int)[j],
        decreases r.len() - c,
    {
        if c < col {
            out.push(r[c]);
        } else if c - col < n {
            out.push(Cell::default());
        } else {
            out.push(r[c - n]);
        }
        c = c + 1;
    }
    assert(out@ =~= row_inserted(r@, col as int, n as int));
    out
}

/// A row with `n` places taken out at `col`.
fn delete_cells(r: &Vec<Cell>, col: usize, n: usize) -> (out: Vec<Cell>)
    ensures
        out@ == row_deleted(r@, col as int, n as int),
{
    let mut out: Vec<Cell> = Vec::new();
    let mut c: usize = 0;
    while c < r.len()
        invariant
            c <= r@.len(),
            out@.len() == c,
            forall|j: int| 0 <= j < c ==> out@[j] == row_deleted(r@, col as int, n as int)[j],
        decreases r.len() - c,
    {
        if c < col {
            out.push(r[c]);
        } else if n < r.len() - c {
            out.push(r[c + n]);
        } else {
            out.push(Cell::default());
        }
        c = c + 1;
    }
    assert(out@ =~= row_deleted(r@, col as int, n as int));
    out
}

/// A row with a character of `w` columns written at `col`.
fn write_char(r: &Vec<Cell>, col: usize, ch: char, attr: Attr, w: usize) -> (out: Vec<Cell>)
    ensures
        out@ == row_written(r@, col as int, ch, attr, w as int),
{
    let mut out: Vec<Cell> = Vec::new();
    let mut c: usize = 0;
    while c < r.len()
        invariant
            c <= r@.len(),
            out@.len() == c,
            forall|j: int|
                0 <= j < c ==> out@[j] == row_written(r@, col as int, ch, attr, w as int)[j],
        decreases r.len() - c,
    {
        if c == col {
            out.push(Cell { ch, attr, width: (w % 256) as u8 });
        } else if col < c && c - col < w {
            out.push(Cell { ch: ' ', attr, width: 0 });
        } else {
            out.push(r[c]);
        }
        c = c + 1;
    }
    assert(out@ =~= row_written(r@, col as int, ch, attr, w as int));
    out
}

/// The argument `i` of a sequence.
fn arg(params: &Vec<Vec<u16>>, i: usize, unset: u16) -> (r: usize)
    ensures
        r == arg_of(param_numbers(params@), i as int, unset as int),
        unset > 0 ==> r > 0,
        r <= 0xffff,
{
    if i < params.len() {
        assert(param_numbers(params@)[i as int] == params@[i as int]@);
        if params[i].len() > 0 && params[i][0] != 0 {
            return params[i][0] as usize;
        }
    }
    unset as usize
}

impl Screen {
    /// What holds of every screen.
    pub open spec fn wf(&self) -> bool {
        fits(self@)
    }

    /// How many rows and columns there are.
    pub(crate) fn size(&self) -> (r: (usize, usize))
        ensures
            r.0 == self@.rows,
            r.1 == self@.cols,
    {
        (self.rows, self.cols)
    }

    /// The row and the column of the cursor.
    pub(crate) fn cursor(&self) -> (r: (usize, usize))
        ensures
            r.0 == self@.row,
            r.1 == self@.col,
    {
        (self.row, self.col)
    }

    /// The look of what is written next, and whether the cursor shows.
    pub(crate) fn look(&self) -> (r: (Attr, bool))
        ensures
            r.0 == self@.pen,
            r.1 == self@.cursor_visible,
    {
        (self.pen, self.cursor_visible)
    }

    /// A screen where nothing was written.
    pub fn new(rows: usize, cols: usize) -> (r: Screen)
        ensures
            r.wf(),
            r@ == fresh(most(rows as int, 1), most(cols as int, 1)),
    {
        let rows: usize = if rows < 1 {
            1
        } else {
            rows
        };
        let cols: usize = if cols < 1 {
            1
        } else {
            cols
        };
        Screen {
            rows,
            cols,
            grid: new_grid(rows, cols),
            saved_grid: None,
            row: 0,
            col: 0,
            wrap_pending: false,
            pen: Attr::default(),
            saved_cursor: (0, 0, Attr::default()),
            scroll_top: 0,
            scroll_bot: rows - 1,
            autowrap: true,
            cursor_visible: true,
            alt_screen: false,
            cursor_style_touched: false,
        }
    }

    /// Whether the program has changed how the cursor looks since this was last asked.
    pub fn take_cursor_style_touched(&mut self) -> (r: bool)
        ensures
            r == old(self)@.touched,
            final(self)@ == (ScreenText { touched: false, ..old(self)@ }),
    {
        let r = self.cursor_style_touched;
        self.cursor_style_touched = false;
        r
    }

    /// Follows a change of size.
    pub fn resize(&mut self, rows: usize, cols: usize)
        requires
            old(self).wf(),
        ensures
            final(self).wf(),
            final(self)@ == resized(old(self)@, most(rows as int, 1), most(cols as int, 1)),
    {
        let rows: usize = if rows < 1 {
            1
        } else {
            rows
        };
        let cols: usize = if cols < 1 {
            1
        } else {
            cols
        };
        self.rows = rows;
        self.cols = cols;
        self.grid = new_grid(rows, cols);
        let aside = match &self.saved_grid {
            Some(_) => true,
            None => false,
        };
        if aside {
            self.saved_grid = Some(new_grid(rows, cols));
        }
        self.row = smaller(self.row, rows - 1);
        self.col = smaller(self.col, cols - 1);
        self.scroll_top = 0;
        self.scroll_bot = rows - 1;
        self.wrap_pending = false;
    }

    /// Sets where the cursor is, as the terminal has reported it.
    pub fn set_cursor(&mut self, row: usize, col: usize)
        requires
            old(self).wf(),
        ensures
            final(self).wf(),
            final(self)@ == (ScreenText {
                row: least(row as int, old(self)@.rows - 1),
                col: least(col as int, old(self)@.cols - 1),
                wrap_pending: false,
                ..old(self)@
            }),
    {
        self.row = smaller(row, self.rows - 1);
        self.col = smaller(col, self.cols - 1);
        self.wrap_pending = false;
    }

    /// What is at a place.
    pub fn cell(&self, row: usize, col: usize) -> (r: Cell)
        ensures
            r == cell_at(self@, row as int, col as int),
    {
        if row < self.grid.len() {
            assert(self@.grid[row as int] == self.grid@[row as int]@);
            if col < self.grid[row].len() {
                return self.grid[row][col];
            }
        }
        Cell::default()
    }

    /// The first column of the character that reaches over the column `c`.
    pub(crate) fn first_column(&self, row: usize, c: usize) -> (r: usize)
        ensures
            r == char_start(self@, row as int, c as int),
            r <= c,
    {
        let mut start: usize = c;
        while start > 0 && self.cell(row, start).width == 0
            invariant
                start <= c,
                char_start(self@, row as int, c as int) == char_start(
                    self@,
                    row as int,
                    start as int,
                ),
            decreases start,
        {
            start = start - 1;
        }
        start
    }

    /// What writes a part of a row again, from the copy.
    pub fn restore_region(&self, row: usize, col: usize, len: usize) -> (r: String)
        requires
            self.wf(),
        ensures
            r@ == region_text(self@, row as int, col as int, len as int),
    {
        if row >= self.rows || len == 0 {
            return String::new();
        }
        let mut start: usize = smaller(col, self.cols);
        let mut end: usize = plus(start, len, self.cols);
        let ghost s = self@;
        let ghost to = end as int;
        assert(to == least(col + len, s.cols));
        start = self.first_column(row, start);
        while end < self.cols && self.cell(row, end).width == 0
            invariant
                s == self@,
                end <= self.cols,
                char_end(s, row as int, to) == char_end(s, row as int, end as int),
            decreases self.cols - end,
        {
            end = end + 1;
        }
        if start >= end {
            return String::new();
        }
        let mut out = move_to(row, start);
        let ghost all = cells_text(s, row as int, start as int, end as int, None);
        let ghost head = out@;
        let mut cur: Option<Attr> = None;
        let mut c: usize = start;
        assert(out@ + all =~= head + all);
        while c < end
            invariant
                s == self@,
                c <= end,
                head + all == out@ + cells_text(s, row as int, c as int, end as int, cur),
            decreases end - c,
        {
            let ghost so_far = out@;
            let ghost was = cur;
            let cell = self.cell(row, c);
            if cell.width == 0 {
                c = c + 1;
            } else {
                let mut shown = false;
                if let Some(a) = cur {
                    shown = a == cell.attr;
                }
                if !shown {
                    let look = cell.attr.sgr();
                    out.append(look.as_str());
                    cur = Some(cell.attr);
                }
                out.push(cell.ch);
                let ghost next = c + cell.width;
                c = plus(c, cell.width as usize, end);
                proof {
                    assert(cur == Some(cell.attr));
                    let rest = cells_text(s, row as int, next, end as int, cur);
                    if next > end {
                        assert(rest == cells_text(s, row as int, c as int, end as int, cur));
                    }
                    let mark = if was == Some(cell.attr) {
                        seq![]
                    } else {
                        sgr_text(cell.attr)
                    };
                    assert(so_far + (mark + seq![cell.ch] + rest) =~= out@ + rest);
                }
            }
        }
        assert(out@ + cells_text(s, row as int, c as int, end as int, cur) =~= out@);
        out
    }

    /// What writes the whole screen again, from the copy.
    pub fn repaint(&self) -> (r: String)
        requires
            self.wf(),
        ensures
            r@ == rows_text(self@, self@.rows),
    {
        let mut out = String::new();
        let mut row: usize = 0;
        while row < self.rows
            invariant
                self.wf(),
                row <= self@.rows,
                self.rows == self@.rows,
                self.cols == self@.cols,
                out@ == rows_text(self@, row as int),
            decreases self.rows - row,
        {
            let line = self.restore_region(row, 0, self.cols);
            out.append(line.as_str());
            row = row + 1;
        }
        out
    }

    /// Puts a row in the place of another.
    fn put_row(&mut self, row: usize, r: Vec<Cell>)
        requires
            old(self).wf(),
            row < old(self)@.rows,
            r@.len() == old(self)@.cols,
        ensures
            final(self).wf(),
            final(self)@ == (ScreenText {
                grid: old(self)@.grid.update(row as int, r@),
                ..old(self)@
            }),
    {
        let ghost was = self.grid@;
        let ghost cells = r@;
        self.grid.set(row, r);
        proof {
            assert(grid_cells(self.grid@) =~= grid_cells(was).update(row as int, cells));
        }
    }

    /// Moves the rows from `top` to the end of the part that scrolls up.
    fn scroll_up(&mut self, top: usize, n: usize)
        requires
            old(self).wf(),
            top <= old(self)@.bottom,
        ensures
            final(self).wf(),
            final(self)@ == (ScreenText {
                grid: scrolled_up(
                    old(self)@.grid,
                    top as int,
                    old(self)@.bottom,
                    n as int,
                    old(self)@.cols,
                ),
                ..old(self)@
            }),
    {
        let ghost s = self@;
        let ghost g = s.grid;
        let bottom = self.scroll_bot;
        let mut i: usize = 0;
        assert(scrolled_up(g, top as int, bottom as int, 0, s.cols) =~= g);
        while i < n
            invariant
                i <= n,
                fits(s),
                top <= bottom,
                bottom == s.bottom,
                g == s.grid,
                self@ == (ScreenText {
                    grid: scrolled_up(g, top as int, bottom as int, i as int, s.cols),
                    ..s
                }),
            decreases n - i,
        {
            let ghost now = self@.grid;
            let ghost before = self.grid@;
            assert(now.len() == before.len() && now.len() == s.rows);
            let cols = self.cols;
            let row = new_row(cols);
            let ghost cells = row@;
            self.grid.remove(top);
            self.grid.insert(bottom, row);
            i = i + 1;
            proof {
                let then = scrolled_up(g, top as int, bottom as int, i as int, s.cols);
                assert(grid_cells(before.remove(top as int).insert(bottom as int, row))
                    =~= now.remove(top as int).insert(bottom as int, cells));
                assert(now.remove(top as int).insert(bottom as int, cells) =~= then);
            }
        }
        assert(sized(self@.grid, s.rows, s.cols));
    }

    /// Moves the rows from `top` to the end of the part that scrolls down.
    fn scroll_down(&mut self, top: usize, n: usize)
        requires
            old(self).wf(),
            top <= old(self)@.bottom,
        ensures
            final(self).wf(),
            final(self)@ == (ScreenText {
                grid: scrolled_down(
                    old(self)@.grid,
                    top as int,
                    old(self)@.bottom,
                    n as int,
                    old(self)@.cols,
                ),
                ..old(self)@
            }),
    {
        let ghost s = self@;
        let ghost g = s.grid;
        let bottom = self.scroll_bot;
        let mut i: usize = 0;
        assert(scrolled_down(g, top as int, bottom as int, 0, s.cols) =~= g);
        while i < n
            invariant
                i <= n,
                fits(s),
                top <= bottom,
                bottom == s.bottom,
                g == s.grid,
                self@ == (ScreenText {
                    grid: scrolled_down(g, top as int, bottom as int, i as int, s.cols),
                    ..s
                }),
            decreases n - i,
        {
            let ghost now = self@.grid;
            let ghost before = self.grid@;
            assert(now.len() == before.len() && now.len() == s.rows);
            let cols = self.cols;
            let row = new_row(cols);
            let ghost cells = row@;
            self.grid.remove(bottom);
            self.grid.insert(top, row);
            i = i + 1;
            proof {
                let then = scrolled_down(g, top as int, bottom as int, i as int, s.cols);
                assert(grid_cells(before.remove(bottom as int).insert(top as int, row))
                    =~= now.remove(bottom as int).insert(top as int, cells));
                assert(now.remove(bottom as int).insert(top as int, cells) =~= then);
            }
        }
        assert(sized(self@.grid, s.rows, s.cols));
    }

    /// Moves the cursor down one row.
    fn linefeed(&mut self)
        requires
            old(self).wf(),
        ensures
            final(self).wf(),
            final(self)@ == line_fed(old(self)@),
    {
        self.wrap_pending = false;
        if self.row == self.scroll_bot {
            let top = self.scroll_top;
            self.scroll_up(top, 1);
        } else if self.row < self.rows - 1 {
            self.row = self.row + 1;
        }
    }

    /// Erases part of a row.
    fn clear_cells(&mut self, row: usize, from: usize, to: usize)
        requires
            old(self).wf(),
            row < old(self)@.rows,
        ensures
            final(self).wf(),
            final(self)@ == (ScreenText {
                grid: old(self)@.grid.update(
                    row as int,
                    row_erased(old(self)@.grid[row as int], from as int, to as int, old(self)@.pen),
                ),
                ..old(self)@
            }),
    {
        assert(self@.grid[row as int] == self.grid@[row as int]@);
        let r = erase_row(&self.grid[row], from, to, self.pen);
        self.put_row(row, r);
    }

    /// Erases the rows from `from` up to `to`.
    fn clear_rows(&mut self, from: usize, to: usize)
        requires
            old(self).wf(),
            from <= to <= old(self)@.rows,
        ensures
            final(self).wf(),
            final(self)@ == (ScreenText {
                grid: Seq::new(
                    old(self)@.grid.len(),
                    |r: int|
                        if from <= r < to {
                            row_erased(old(self)@.grid[r], 0, old(self)@.cols, old(self)@.pen)
                        } else {
                            old(self)@.grid[r]
                        },
                ),
                ..old(self)@
            }),
    {
        let ghost s = self@;
        let mut r: usize = from;
        while r < to
            invariant
                from <= r <= to <= s.rows,
                fits(s),
                s == old(self)@,
                self.wf(),
                self@ == (ScreenText { grid: self@.grid, ..s }),
                forall|k: int|
                    0 <= k < s.rows ==> #[trigger] self@.grid[k] == if from <= k < r {
                        row_erased(s.grid[k], 0, s.cols, s.pen)
                    } else {
                        s.grid[k]
                    },
            decreases to - r,
        {
            let cols = self.cols;
            self.clear_cells(r, 0, cols);
            r = r + 1;
        }
        assert(self@.grid =~= Seq::new(
            s.grid.len(),
            |r: int|
                if from <= r < to {
                    row_erased(s.grid[r], 0, s.cols, s.pen)
                } else {
                    s.grid[r]
                },
        ));
    }

    /// Writes a character where the cursor is.
    pub fn print(&mut self, c: char)
        requires
            old(self).wf(),
        ensures
            final(self).wf(),
            final(self)@ == printed(old(self)@, c),
    {
        let w: usize = match char_width(c) {
            Some(n) => n,
            None => 0,
        };
        self.put(c, w);
    }

    /// Writes a character that takes `w` columns where the cursor is.
    pub fn put(&mut self, c: char, w: usize)
        requires
            old(self).wf(),
        ensures
            final(self).wf(),
            final(self)@ == put_down(old(self)@, c, w as int),
    {
        if w == 0 {
            return;
        }
        if self.wrap_pending || w > self.cols - self.col {
            if self.autowrap {
                self.col = 0;
                self.linefeed();
            } else {
                self.col = minus(self.cols, w);
                assert(self.col < self.cols);
            }
        }
        let ghost t = self@;
        assert(t == placed(old(self)@, w as int));
        assert(t.grid[t.row] == self.grid@[self.row as int]@);
        let (row, col) = (self.row, self.col);
        let r = write_char(&self.grid[row], col, c, self.pen, w);
        self.put_row(row, r);
        self.wrap_pending = w >= self.cols - col;
        self.col = plus(col, w, self.cols - 1);
    }

    /// Follows a control character.
    pub fn execute(&mut self, byte: u8)
        requires
            old(self).wf(),
        ensures
            final(self).wf(),
            final(self)@ == executed(old(self)@, byte),
    {
        match byte {
            0x08 => {
                self.wrap_pending = false;
                self.col = minus(self.col, 1);
            },
            0x09 => {
                self.wrap_pending = false;
                let stop: usize = self.col / 8 * 8;
                self.col = plus(stop, 8, self.cols - 1);
            },
            0x0a..=0x0c => {
                self.linefeed();
            },
            0x0d => {
                self.wrap_pending = false;
                self.col = 0;
            },
            _ => {},
        }
    }

    /// Follows a command to the terminal.
    pub fn osc_dispatch(&mut self, params: &Vec<Vec<u8>>)
        requires
            old(self).wf(),
        ensures
            final(self).wf(),
            final(self)@ == commanded(old(self)@, params@.map_values(|p: Vec<u8>| p@)),
    {
        let ghost all = params@.map_values(|p: Vec<u8>| p@);
        if params.len() > 0 {
            let first = &params[0];
            assert(all[0] == first@);
            let short = first.len() == 2 && first[0] == 0x31 && first[1] == 0x32;
            let long = first.len() == 3 && first[0] == 0x31 && first[1] == 0x31 && first[2] == 0x32;
            assert(short == (first@ =~= seq![0x31u8, 0x32u8]));
            assert(long == (first@ =~= seq![0x31u8, 0x31u8, 0x32u8]));
            if short || long {
                self.cursor_style_touched = true;
            }
        }
    }

    /// Moves the cursor.
    fn move_cursor(&mut self, params: &Vec<Vec<u16>>, action: char)
        requires
            old(self).wf(),
            moves(action),
        ensures
            final(self).wf(),
            final(self)@ == cursor_moved(old(self)@, param_numbers(params@), action),
    {
        let n = arg(params, 0, 1);
        self.wrap_pending = false;
        let (row, col) = (self.row, self.col);
        let (last_row, last_col) = (self.rows - 1, self.cols - 1);
        match action {
            'A' => {
                self.row = minus(row, n);
            },
            'B' => {
                self.row = plus(row, n, last_row);
            },
            'C' => {
                self.col = plus(col, n, last_col);
            },
            'D' => {
                self.col = minus(col, n);
            },
            'E' => {
                self.row = plus(row, n, last_row);
                self.col = 0;
            },
            'F' => {
                self.row = minus(row, n);
                self.col = 0;
            },
            'G' | '`' => {
                self.col = smaller(n - 1, last_col);
            },
            'd' => {
                self.row = smaller(n - 1, last_row);
            },
            _ => {
                self.row = smaller(n - 1, last_row);
                self.col = smaller(arg(params, 1, 1) - 1, last_col);
            },
        }
    }

    /// Erases part of the screen.
    fn erase_display(&mut self, mode: usize)
        requires
            old(self).wf(),
        ensures
            final(self).wf(),
            final(self)@ == (ScreenText {
                grid: grid_erased(old(self)@, mode as int),
                ..old(self)@
            }),
    {
        let ghost s = self@;
        let (row, col, rows, cols) = (self.row, self.col, self.rows, self.cols);
        if mode == 0 {
            self.clear_cells(row, col, cols);
            self.clear_rows(row + 1, rows);
        } else if mode == 1 {
            self.clear_rows(0, row);
            self.clear_cells(row, 0, col + 1);
        } else {
            self.clear_rows(0, rows);
        }
        assert(self@.grid =~= grid_erased(s, mode as int));
    }

    /// Changes the contents round the cursor.
    fn edit(&mut self, params: &Vec<Vec<u16>>, action: char)
        requires
            old(self).wf(),
            edits(action),
        ensures
            final(self).wf(),
            final(self)@ == edited_by(old(self)@, param_numbers(params@), action),
    {
        let n = arg(params, 0, 1);
        let mode = arg(params, 0, 0);
        let (row, col, cols) = (self.row, self.col, self.cols);
        assert(self@.grid[row as int] == self.grid@[row as int]@);
        match action {
            'J' => {
                self.erase_display(mode);
            },
            'K' => {
                if mode == 0 {
                    self.clear_cells(row, col, cols);
                } else if mode == 1 {
                    self.clear_cells(row, 0, col + 1);
                } else {
                    self.clear_cells(row, 0, cols);
                }
            },
            'X' => {
                let ghost r = self@.grid[row as int];
                let to = plus(col, n, cols);
                self.clear_cells(row, col, to);
                assert(row_erased(r, col as int, to as int, self@.pen) =~= row_erased(
                    r,
                    col as int,
                    col + n,
                    self@.pen,
                ));
            },
            '@' => {
                let r = insert_cells(&self.grid[row], col, n);
                self.put_row(row, r);
            },
            'P' => {
                let r = delete_cells(&self.grid[row], col, n);
                self.put_row(row, r);
            },
            'L' => {
                if self.scroll_top <= row && row <= self.scroll_bot {
                    self.scroll_down(row, n);
                }
            },
            'M' => {
                if self.scroll_top <= row && row <= self.scroll_bot {
                    self.scroll_up(row, n);
                }
            },
            'S' => {
                let top = self.scroll_top;
                self.scroll_up(top, n);
            },
            _ => {
                let top = self.scroll_top;
                self.scroll_down(top, n);
            },
        }
    }

    /// Sets the part that scrolls.
    fn set_margins(&mut self, params: &Vec<Vec<u16>>)
        requires
            old(self).wf(),
        ensures
            final(self).wf(),
            final(self)@ == margins_set(old(self)@, param_numbers(params@)),
    {
        let top: usize = arg(params, 0, 1) - 1;
        let below = arg(params, 1, (self.rows % 0x10000) as u16);
        if below > 0 && top < below - 1 && below - 1 < self.rows {
            self.scroll_top = top;
            self.scroll_bot = below - 1;
        }
        self.row = 0;
        self.col = 0;
    }

    /// Remembers where the cursor is.
    fn save_cursor(&mut self)
        requires
            old(self).wf(),
        ensures
            final(self).wf(),
            final(self)@ == cursor_saved(old(self)@),
    {
        self.saved_cursor = (self.row, self.col, self.pen);
    }

    /// Puts the cursor where it was remembered.
    fn restore_cursor(&mut self)
        requires
            old(self).wf(),
        ensures
            final(self).wf(),
            final(self)@ == cursor_restored(old(self)@),
    {
        let (row, col, pen) = self.saved_cursor;
        self.row = smaller(row, self.rows - 1);
        self.col = smaller(col, self.cols - 1);
        self.pen = pen;
    }

    /// Shows the other screen, or the main one.
    fn set_alt_screen(&mut self, on: bool)
        requires
            old(self).wf(),
        ensures
            final(self).wf(),
            final(self)@ == alt_set(old(self)@, on),
    {
        if on == self.alt_screen {
            return;
        }
        if on {
            let mut grid = new_grid(self.rows, self.cols);
            std::mem::swap(&mut self.grid, &mut grid);
            self.saved_grid = Some(grid);
            self.alt_screen = true;
        } else {
            let mut aside: Option<Grid> = None;
            std::mem::swap(&mut self.saved_grid, &mut aside);
            if let Some(grid) = aside {
                self.grid = grid;
            }
            self.alt_screen = false;
        }
    }

    /// Sets or resets private modes.
    fn set_modes(&mut self, params: &Vec<Vec<u16>>, on: bool)
        requires
            old(self).wf(),
        ensures
            final(self).wf(),
            final(self)@ == modes_set(
                old(self)@,
                param_numbers(params@),
                on,
                params@.len() as int,
            ),
    {
        let ghost all = param_numbers(params@);
        let ghost s = self@;
        let mut i: usize = 0;
        while i < params.len()
            invariant
                i <= params@.len(),
                all == param_numbers(params@),
                self.wf(),
                self@ == modes_set(s, all, on, i as int),
            decreases params.len() - i,
        {
            assert(all[i as int] == params@[i as int]@);
            let mode: u16 = if params[i].len() > 0 {
                params[i][0]
            } else {
                0
            };
            match mode {
                7 => {
                    self.autowrap = on;
                },
                25 => {
                    self.cursor_visible = on;
                },
                47 | 1047 | 1049 => {
                    self.set_alt_screen(on);
                },
                _ => {},
            }
            i = i + 1;
        }
    }

    /// Follows a control sequence.
    pub fn csi_dispatch(&mut self, params: &Vec<Vec<u16>>, intermediates: &[u8], action: char)
        requires
            old(self).wf(),
        ensures
            final(self).wf(),
            final(self)@ == controlled(
                old(self)@,
                param_numbers(params@),
                intermediates@,
                action,
            ),
    {
        if intermediates.len() > 0 {
            let mark = intermediates[0];
            if action == 'q' && mark == 0x20 {
                self.cursor_style_touched = true;
            } else if (action == 'h' || action == 'l') && mark == 0x3f {
                self.set_modes(params, action == 'h');
            }
            return;
        }
        match action {
            'A'..='H' | '`' | 'd' | 'f' => {
                self.move_cursor(params, action);
            },
            'J' | 'K' | 'X' | '@' | 'P' | 'L' | 'M' | 'S' | 'T' => {
                self.edit(params, action);
            },
            'm' => {
                self.pen = set_sgr(self.pen, params);
            },
            'r' => {
                self.set_margins(params);
            },
            's' => {
                self.save_cursor();
            },
            'u' => {
                self.restore_cursor();
            },
            _ => {},
        }
    }

    /// Follows a sequence of an escape and one character.
    pub fn esc_dispatch(&mut self, intermediates: &[u8], byte: u8)
        requires
            old(self).wf(),
        ensures
            final(self).wf(),
            final(self)@ == escaped(old(self)@, intermediates@, byte),
    {
        if intermediates.len() > 0 {
            return;
        }
        match byte {
            0x37 => {
                self.save_cursor();
            },
            0x38 => {
                self.restore_cursor();
            },
            0x44 => {
                self.linefeed();
            },
            0x45 => {
                self.col = 0;
                self.linefeed();
            },
            0x4d => {
                if self.row == self.scroll_top {
                    let top = self.scroll_top;
                    self.scroll_down(top, 1);
                } else {
                    self.row = minus(self.row, 1);
                }
                self.wrap_pending = false;
            },
            0x63 => {
                *self = Screen::new(self.rows, self.cols);
            },
            _ => {},
        }
    }
}

/// A sequence with marks that is not followed changes nothing, whatever it would be without
/// them: neither the look nor the cursor.
pub proof fn law_unknown_marks_change_nothing(
    s: ScreenText,
    params: Seq<Seq<u16>>,
    marks: Seq<u8>,
    action: char,
)
    requires
        marks.len() > 0,
        !(marks[0] == 0x20 && action == 'q'),
        !(marks[0] == 0x3f && (action == 'h' || action == 'l')),
    ensures
        controlled(s, params, marks, action) == s,
{
}

/// While the other screen is shown, nothing that is written touches the main one.
pub proof fn law_the_main_screen_is_left_alone(
    s: ScreenText,
    params: Seq<Seq<u16>>,
    action: char,
    c: char,
    byte: u8,
)
    ensures
        printed(s, c).saved == s.saved,
        executed(s, byte).saved == s.saved,
        unmarked(s, params, action).saved == s.saved,
        byte != 0x63 ==> escaped(s, seq![], byte).saved == s.saved,
{
}

/// The main screen comes back as it was when the other one was shown.
pub proof fn law_the_main_screen_comes_back(s: ScreenText, t: ScreenText)
    requires
        !s.alt_screen,
        t.alt_screen,
        t.saved == alt_set(s, true).saved,
    ensures
        alt_set(t, false).grid == s.grid,
        !alt_set(t, false).alt_screen,
{
}

/// A cursor that was remembered comes back with its look.
pub proof fn law_a_remembered_cursor_comes_back(s: ScreenText, t: ScreenText)
    requires
        fits(s),
        t.rows == s.rows,
        t.cols == s.cols,
        t.saved_cursor == cursor_saved(s).saved_cursor,
    ensures
        cursor_restored(t).row == s.row,
        cursor_restored(t).col == s.col,
        cursor_restored(t).pen == s.pen,
{
}

/// Writing a character that fits shows it where the cursor was, and elsewhere changes
/// nothing.
pub proof fn law_a_character_shows_where_the_cursor_is(s: ScreenText, c: char, row: int, col: int)
    requires
        fits(s),
        !s.wrap_pending,
        0 < taken(c) < 256,
        s.col + taken(c) <= s.cols,
        0 <= row < s.rows,
        0 <= col < s.cols,
    ensures
        cell_at(printed(s, c), s.row, s.col) == (Cell {
            ch: c,
            attr: s.pen,
            width: taken(c) as u8,
        }),
        !(row == s.row && s.col <= col < s.col + taken(c)) ==> cell_at(printed(s, c), row, col)
            == cell_at(s, row, col),
{
}

} // verus!
