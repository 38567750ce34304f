//! What was drawn over the screen is taken away again.
//!
//! The sequences that are written to the terminal are taken as steps here, and the terminal
//! as a screen that follows them.
use vstd::prelude::*;
use crate::display::{Seg, Shown};
use crate::machine::{Style, Tint};
use crate::render::{
    all_drawn, char_drawn, drawing_at, drawn, erased_text, line_beside, line_drawn, line_steps,
    look_of, next_row, parts_drawn, restored_text, text_drawn, tint_or_nothing, Drawing,
};
use crate::steps::{
    after_step, after_steps, lemma_one_step, lemma_one_step_text, lemma_steps_join,
    lemma_text_joins, steps_text, Step,
};
use crate::screen::{
    cell_at, cells_text, char_end, char_start, fits, least, region_text, row_written, taken, Cell,
    ScreenText,
};
use crate::sgr::{as_params, law_a_look_comes_back, Attr};

verus! {

/// The steps that write the characters of a row from `c` up to `end`.
pub open spec fn cells_steps(s: ScreenText, row: int, c: int, end: int, cur: Option<Attr>) -> Seq<
    Step,
>
    decreases
            (if c < end {
                end - c
            } else {
                0
            }),
{
    if c >= end {
        seq![]
    } else {
        let cell = cell_at(s, row, c);
        if cell.width == 0 {
            cells_steps(s, row, c + 1, end, cur)
        } else {
            (if cur == Some(cell.attr) {
                seq![]
            } else {
                seq![Step::Look(cell.attr)]
            }) + seq![Step::Put(cell.ch)] + cells_steps(
                s,
                row,
                c + cell.width,
                end,
                Some(cell.attr),
            )
        }
    }
}

/// The steps that write a part of a row again.
pub open spec fn region_steps(s: ScreenText, row: int, col: int, len: int) -> Seq<Step> {
    if row >= s.rows || len == 0 {
        seq![]
    } else {
        let start = char_start(s, row, least(col, s.cols));
        let end = char_end(s, row, least(col + len, s.cols));
        if start >= end {
            seq![]
        } else {
            seq![Step::Move(row, start)] + cells_steps(s, row, start, end, None)
        }
    }
}

/// The steps that take the first `n` rows of a drawing away.
pub open spec fn erased_steps(s: ScreenText, painted: Seq<(int, int, int)>, n: int) -> Seq<Step>
    decreases n,
{
    if n <= 0 {
        seq![]
    } else {
        let p = painted[n - 1];
        erased_steps(s, painted, n - 1) + region_steps(s, p.0, p.1, p.2)
    }
}

/// The steps that put a terminal back to where the program left it.
pub open spec fn restored_steps(s: ScreenText) -> Seq<Step> {
    seq![Step::Look(s.pen), Step::Move(s.row, s.col), Step::Show(s.cursor_visible)]
}

proof fn lemma_cells_text(s: ScreenText, row: int, c: int, end: int, cur: Option<Attr>)
    ensures
        steps_text(cells_steps(s, row, c, end, cur)) == cells_text(s, row, c, end, cur),
    decreases
            (if c < end {
                end - c
            } else {
                0
            }),
{
    if c < end {
        let cell = cell_at(s, row, c);
        if cell.width == 0 {
            lemma_cells_text(s, row, c + 1, end, cur);
        } else {
            let rest = cells_steps(s, row, c + cell.width, end, Some(cell.attr));
            lemma_cells_text(s, row, c + cell.width, end, Some(cell.attr));
            let look = if cur == Some(cell.attr) {
                seq![]
            } else {
                seq![Step::Look(cell.attr)]
            };
            let put = seq![Step::Put(cell.ch)];
            lemma_text_joins(look + put, rest);
            lemma_text_joins(look, put);
            lemma_one_step_text(Step::Put(cell.ch));
            lemma_one_step_text(Step::Look(cell.attr));
        }
    }
}

proof fn lemma_region_text(s: ScreenText, row: int, col: int, len: int)
    ensures
        steps_text(region_steps(s, row, col, len)) == region_text(s, row, col, len),
{
    if row < s.rows && len != 0 {
        let start = char_start(s, row, least(col, s.cols));
        let end = char_end(s, row, least(col + len, s.cols));
        if start < end {
            lemma_cells_text(s, row, start, end, None);
            lemma_text_joins(seq![Step::Move(row, start)], cells_steps(s, row, start, end, None));
            lemma_one_step_text(Step::Move(row, start));
        }
    }
}

/// What is written to take a drawing away is what the steps write.
pub proof fn law_erasing_is_these_steps(s: ScreenText, painted: Seq<(int, int, int)>, n: int)
    requires
        0 <= n <= painted.len(),
    ensures
        steps_text(erased_steps(s, painted, n)) == erased_text(s, painted, n),
    decreases n,
{
    if n > 0 {
        law_erasing_is_these_steps(s, painted, n - 1);
        let p = painted[n - 1];
        lemma_region_text(s, p.0, p.1, p.2);
        lemma_text_joins(erased_steps(s, painted, n - 1), region_steps(s, p.0, p.1, p.2));
    }
}

/// What is written to put a terminal back is what the steps write.
pub proof fn law_restoring_is_these_steps(s: ScreenText)
    ensures
        steps_text(restored_steps(s)) == restored_text(s),
{
    let a = Step::Look(s.pen);
    let b = Step::Move(s.row, s.col);
    let c = Step::Show(s.cursor_visible);
    assert(restored_steps(s) =~= seq![a] + seq![b] + seq![c]);
    lemma_text_joins(seq![a] + seq![b], seq![c]);
    lemma_text_joins(seq![a], seq![b]);
    lemma_one_step_text(a);
    lemma_one_step_text(b);
    lemma_one_step_text(c);
}

/// Whether a row holds whole characters from the column `c` on: no half of a wide one was
/// written over.
pub open spec fn whole_from(r: Seq<Cell>, c: int) -> bool
    decreases r.len() - c,
{
    if c < 0 || c >= r.len() {
        c == r.len()
    } else {
        let cell = r[c];
        &&& cell.width >= 1
        &&& cell.width == taken(cell.ch)
        &&& c + cell.width <= r.len()
        &&& forall|k: int|
            c < k < c + cell.width ==> #[trigger] r[k] == (Cell {
                ch: ' ',
                attr: cell.attr,
                width: 0,
            })
        &&& whole_from(r, c + cell.width)
    }
}

/// Whether all rows of a screen hold whole characters.
pub open spec fn whole(s: ScreenText) -> bool {
    forall|r: int| 0 <= r < s.rows ==> whole_from(#[trigger] s.grid[r], 0)
}

/// Where a place takes columns, a character starts there.
proof fn lemma_starts(r: Seq<Cell>, b: int, c: int)
    requires
        whole_from(r, b),
        0 <= b <= c < r.len(),
        r[c].width != 0,
    ensures
        whole_from(r, c),
    decreases c - b,
{
    if b < c {
        let w = r[b].width as int;
        if c < b + w {
            assert(r[c].width == 0);
        } else {
            lemma_starts(r, b + w, c);
        }
    }
}

proof fn lemma_start(s: ScreenText, row: int, c: int)
    requires
        fits(s),
        0 <= row < s.rows,
        whole_from(s.grid[row], 0),
        0 <= c <= s.cols,
    ensures
        0 <= char_start(s, row, c) <= c,
        whole_from(s.grid[row], char_start(s, row, c)),
        c < s.cols ==> char_start(s, row, c) < s.cols,
    decreases c,
{
    if c > 0 && cell_at(s, row, c).width == 0 {
        lemma_start(s, row, c - 1);
    } else if c < s.cols && c > 0 {
        lemma_starts(s.grid[row], 0, c);
    }
}

proof fn lemma_end(s: ScreenText, row: int, c: int)
    requires
        fits(s),
        0 <= row < s.rows,
        0 <= c <= s.cols,
    ensures
        c <= char_end(s, row, c) <= s.cols,
        char_end(s, row, c) < s.cols ==> s.grid[row][char_end(s, row, c)].width != 0,
    decreases s.cols - c,
{
    if c < s.cols && cell_at(s, row, c).width == 0 {
        lemma_end(s, row, c + 1);
    }
}

/// A grid with the columns from `c` up to `end` of a row taken from another.
pub open spec fn patched(g: Seq<Seq<Cell>>, from: Seq<Seq<Cell>>, row: int, c: int, end: int) -> Seq<
    Seq<Cell>,
> {
    g.update(
        row,
        Seq::new(
            g[row].len(),
            |k: int|
                if c <= k < end {
                    from[row][k]
                } else {
                    g[row][k]
                },
        ),
    )
}

/// Whether a terminal has the size of a screen, and a size that sequences can name.
pub open spec fn same_size(t: ScreenText, s: ScreenText) -> bool {
    &&& fits(t)
    &&& t.rows == s.rows <= 0xffff
    &&& t.cols == s.cols <= 0xffff
}

pub proof fn lemma_look(t: ScreenText, a: Attr)
    ensures
        after_step(t, Step::Look(a)) == (ScreenText { pen: a, ..t }),
{
    law_a_look_comes_back(a, t.pen);
}

pub proof fn lemma_move(t: ScreenText, row: int, col: int)
    requires
        fits(t),
        0 <= row < t.rows <= 0xffff,
        0 <= col < t.cols <= 0xffff,
    ensures
        after_step(t, Step::Move(row, col)) == (ScreenText { row, col, wrap_pending: false, ..t }),
{
    let args = seq![(row + 1) as nat, (col + 1) as nat];
    let params = as_params(args);
    assert(params[0] == seq![args[0] as u16]);
    assert(params[1] == seq![args[1] as u16]);
}

/// One character written again.
proof fn lemma_put(s: ScreenText, t: ScreenText, row: int, c: int)
    requires
        fits(s),
        same_size(t, s),
        0 <= row < s.rows,
        0 <= c < s.cols,
        whole_from(s.grid[row], c),
        t.row == row,
        t.col == c,
        !t.wrap_pending,
        t.pen == s.grid[row][c].attr,
    ensures
        ({
            let w = s.grid[row][c].width as int;
            let u = after_step(t, Step::Put(s.grid[row][c].ch));
            &&& u.grid == patched(t.grid, s.grid, row, c, c + w)
            &&& same_size(u, s)
            &&& u.row == row
            &&& u.pen == t.pen
            &&& c + w < s.cols ==> u.col == c + w && !u.wrap_pending
            &&& u == (ScreenText { grid: u.grid, col: u.col, wrap_pending: u.wrap_pending, ..t })
        }),
{
    let cell = s.grid[row][c];
    let w = cell.width as int;
    let u = after_step(t, Step::Put(cell.ch));
    let r = row_written(t.grid[row], c, cell.ch, t.pen, w);
    assert(r =~= Seq::new(
        t.grid[row].len(),
        |k: int|
            if c <= k < c + w {
                s.grid[row][k]
            } else {
                t.grid[row][k]
            },
    ));
    assert(u.grid == t.grid.update(row, r));
}

/// The steps that write one character.
spec fn cell_steps(cell: Cell, cur: Option<Attr>) -> Seq<Step> {
    (if cur == Some(cell.attr) {
        seq![]
    } else {
        seq![Step::Look(cell.attr)]
    }) + seq![Step::Put(cell.ch)]
}

proof fn lemma_cell(s: ScreenText, t: ScreenText, row: int, c: int, cur: Option<Attr>)
    requires
        fits(s),
        same_size(t, s),
        0 <= row < s.rows,
        0 <= c < s.cols,
        whole_from(s.grid[row], c),
        t.row == row,
        t.col == c,
        !t.wrap_pending,
        cur is Some ==> t.pen == cur->0,
    ensures
        ({
            let cell = s.grid[row][c];
            let w = cell.width as int;
            let u = after_steps(t, cell_steps(cell, cur));
            &&& u.grid == patched(t.grid, s.grid, row, c, c + w)
            &&& same_size(u, s)
            &&& u.row == row
            &&& u.pen == cell.attr
            &&& c + w < s.cols ==> u.col == c + w && !u.wrap_pending
            &&& u == (ScreenText {
                grid: u.grid,
                col: u.col,
                wrap_pending: u.wrap_pending,
                pen: u.pen,
                ..t
            })
        }),
{
    let cell = s.grid[row][c];
    let look = if cur == Some(cell.attr) {
        seq![]
    } else {
        seq![Step::Look(cell.attr)]
    };
    let t1 = after_steps(t, look);
    if cur != Some(cell.attr) {
        lemma_one_step(t, Step::Look(cell.attr));
        lemma_look(t, cell.attr);
    }
    assert(t1 == (ScreenText { pen: cell.attr, ..t }));
    lemma_put(s, t1, row, c);
    lemma_one_step(t1, Step::Put(cell.ch));
    lemma_steps_join(t, look, seq![Step::Put(cell.ch)]);
}

proof fn lemma_patches_join(
    g: Seq<Seq<Cell>>,
    from: Seq<Seq<Cell>>,
    row: int,
    a: int,
    b: int,
    c: int,
)
    requires
        0 <= row < g.len(),
        a <= b <= c,
    ensures
        patched(patched(g, from, row, a, b), from, row, b, c) == patched(g, from, row, a, c),
{
    let one = patched(patched(g, from, row, a, b), from, row, b, c);
    let two = patched(g, from, row, a, c);
    assert(one[row] =~= two[row]);
    assert(one =~= two);
}

proof fn lemma_cells_come_back(
    s: ScreenText,
    t: ScreenText,
    row: int,
    c: int,
    end: int,
    cur: Option<Attr>,
)
    requires
        fits(s),
        same_size(t, s),
        0 <= row < s.rows,
        0 <= c < end <= s.cols,
        whole_from(s.grid[row], c),
        end < s.cols ==> s.grid[row][end].width != 0,
        t.row == row,
        t.col == c,
        !t.wrap_pending,
        cur is Some ==> t.pen == cur->0,
    ensures
        ({
            let u = after_steps(t, cells_steps(s, row, c, end, cur));
            &&& u.grid == patched(t.grid, s.grid, row, c, end)
            &&& same_size(u, s)
            &&& u == (ScreenText {
                grid: u.grid,
                row: u.row,
                col: u.col,
                wrap_pending: u.wrap_pending,
                pen: u.pen,
                ..t
            })
        }),
    decreases end - c,
{
    let cell = s.grid[row][c];
    let w = cell.width as int;
    if end < s.cols && c + w > end {
        assert(s.grid[row][end].width == 0);
    }
    let rest = cells_steps(s, row, c + w, end, Some(cell.attr));
    assert(cells_steps(s, row, c, end, cur) == cell_steps(cell, cur) + rest);
    let t2 = after_steps(t, cell_steps(cell, cur));
    lemma_cell(s, t, row, c, cur);
    lemma_steps_join(t, cell_steps(cell, cur), rest);
    if c + w < end {
        lemma_cells_come_back(s, t2, row, c + w, end, Some(cell.attr));
        lemma_patches_join(t.grid, s.grid, row, c, c + w, end);
    } else {
        assert(rest =~= seq![]);
    }
}

proof fn lemma_region_comes_back(s: ScreenText, t: ScreenText, row: int, col: int, len: int)
    requires
        fits(s),
        same_size(t, s),
        0 <= row,
        0 <= col,
        0 <= len,
        row < s.rows ==> whole_from(s.grid[row], 0),
    ensures
        ({
            let u = after_steps(t, region_steps(s, row, col, len));
            &&& same_size(u, s)
            &&& u == (ScreenText {
                grid: u.grid,
                row: u.row,
                col: u.col,
                wrap_pending: u.wrap_pending,
                pen: u.pen,
                ..t
            })
            &&& forall|r: int, k: int|
                0 <= r < s.rows && 0 <= k < s.cols ==> #[trigger] u.grid[r][k] == s.grid[r][k]
                    || u.grid[r][k] == t.grid[r][k] && !(r == row && col <= k < col + len)
        }),
{
    let steps = region_steps(s, row, col, len);
    if row < s.rows && len != 0 {
        let from = least(col, s.cols);
        let to = least(col + len, s.cols);
        let start = char_start(s, row, from);
        let end = char_end(s, row, to);
        lemma_start(s, row, from);
        lemma_end(s, row, to);
        if start < end {
            let cells = cells_steps(s, row, start, end, None);
            lemma_move(t, row, start);
            let t1 = after_step(t, Step::Move(row, start));
            lemma_one_step(t, Step::Move(row, start));
            lemma_steps_join(t, seq![Step::Move(row, start)], cells);
            lemma_cells_come_back(s, t1, row, start, end, None);
            let u = after_steps(t, steps);
            assert(u.grid == patched(t.grid, s.grid, row, start, end));
        }
    }
}

/// Whether a place was drawn on, by one of the first `n` rows of a drawing.
pub open spec fn drawn_on(painted: Seq<(int, int, int)>, n: int, row: int, col: int) -> bool {
    exists|i: int|
        0 <= i < n && (#[trigger] painted[i]).0 == row && painted[i].1 <= col < painted[i].1
            + painted[i].2
}

proof fn lemma_erasing(s: ScreenText, t: ScreenText, painted: Seq<(int, int, int)>, n: int)
    requires
        fits(s),
        whole(s),
        same_size(t, s),
        0 <= n <= painted.len(),
        forall|i: int|
            0 <= i < n ==> 0 <= (#[trigger] painted[i]).0 && 0 <= painted[i].1 && 0
                <= painted[i].2,
    ensures
        ({
            let u = after_steps(t, erased_steps(s, painted, n));
            &&& same_size(u, s)
            &&& u == (ScreenText {
                grid: u.grid,
                row: u.row,
                col: u.col,
                wrap_pending: u.wrap_pending,
                pen: u.pen,
                ..t
            })
            &&& forall|r: int, k: int|
                0 <= r < s.rows && 0 <= k < s.cols ==> #[trigger] u.grid[r][k] == s.grid[r][k]
                    || u.grid[r][k] == t.grid[r][k] && !drawn_on(painted, n, r, k)
        }),
    decreases n,
{
    if n > 0 {
        lemma_erasing(s, t, painted, n - 1);
        let p = painted[n - 1];
        let v = after_steps(t, erased_steps(s, painted, n - 1));
        lemma_region_comes_back(s, v, p.0, p.1, p.2);
        lemma_steps_join(t, erased_steps(s, painted, n - 1), region_steps(s, p.0, p.1, p.2));
        let u = after_steps(t, erased_steps(s, painted, n));
        assert forall|r: int, k: int|
            0 <= r < s.rows && 0 <= k < s.cols implies #[trigger] u.grid[r][k] == s.grid[r][k]
            || u.grid[r][k] == t.grid[r][k] && !drawn_on(painted, n, r, k) by {
            if u.grid[r][k] != s.grid[r][k] {
                assert(v.grid[r][k] == u.grid[r][k]);
                if drawn_on(painted, n, r, k) {
                    let i = choose|i: int|
                        0 <= i < n && (#[trigger] painted[i]).0 == r && painted[i].1 <= k
                            < painted[i].1 + painted[i].2;
                    if i < n - 1 {
                        assert(drawn_on(painted, n - 1, r, k));
                    }
                }
            }
        }
    }
}

/// A terminal is put back to where the program left it, and shows what it showed.
pub proof fn law_the_terminal_is_put_back(s: ScreenText, u: ScreenText)
    requires
        fits(s),
        same_size(u, s),
    ensures
        ({
            let v = after_steps(u, restored_steps(s));
            &&& v.grid == u.grid
            &&& v.row == s.row
            &&& v.col == s.col
            &&& v.pen == s.pen
            &&& v.cursor_visible == s.cursor_visible
        }),
{
    let a = Step::Look(s.pen);
    let b = Step::Move(s.row, s.col);
    let c = Step::Show(s.cursor_visible);
    assert(restored_steps(s) =~= seq![a] + seq![b] + seq![c]);
    lemma_steps_join(u, seq![a] + seq![b], seq![c]);
    lemma_steps_join(u, seq![a], seq![b]);
    lemma_one_step(u, a);
    let u1 = after_step(u, a);
    lemma_look(u, s.pen);
    lemma_one_step(u1, b);
    lemma_move(u1, s.row, s.col);
    let u2 = after_step(u1, b);
    lemma_one_step(u2, c);
    let params = as_params(seq![25nat]);
    assert(params[0] == seq![25u16]);
    reveal_with_fuel(crate::screen::modes_set, 2);
}

/// Taking a drawing away brings the screen back: a terminal that shows the screen but for
/// what was drawn shows the screen again, and then its cursor and its look are where the
/// program left them. The screen has to hold whole characters.
pub proof fn law_a_drawing_is_taken_away(
    s: ScreenText,
    t: ScreenText,
    painted: Seq<(int, int, int)>,
)
    requires
        fits(s),
        whole(s),
        same_size(t, s),
        forall|i: int|
            0 <= i < painted.len() ==> 0 <= (#[trigger] painted[i]).0 && 0 <= painted[i].1 && 0
                <= painted[i].2,
        forall|r: int, k: int|
            0 <= r < s.rows && 0 <= k < s.cols && !drawn_on(painted, painted.len() as int, r, k)
                ==> #[trigger] t.grid[r][k] == s.grid[r][k],
    ensures
        ({
            let u = after_steps(t, erased_steps(s, painted, painted.len() as int));
            let v = after_steps(u, restored_steps(s));
            &&& u.grid == s.grid
            &&& v.grid == s.grid
            &&& v.row == s.row
            &&& v.col == s.col
            &&& v.pen == s.pen
            &&& v.cursor_visible == s.cursor_visible
        }),
{
    lemma_erasing(s, t, painted, painted.len() as int);
    let u = after_steps(t, erased_steps(s, painted, painted.len() as int));
    assert forall|r: int| 0 <= r < s.rows implies #[trigger] u.grid[r] == s.grid[r] by {
        assert forall|k: int| 0 <= k < s.cols implies u.grid[r][k] == s.grid[r][k] by {
            if !drawn_on(painted, painted.len() as int, r, k) {
                assert(t.grid[r][k] == s.grid[r][k]);
            }
        }
        assert(u.grid[r] =~= s.grid[r]);
    }
    assert(u.grid =~= s.grid);
    law_the_terminal_is_put_back(s, u);
}

/// A place that was drawn on stays so when more is drawn.
proof fn lemma_drawn_on_grows(
    a: Seq<(int, int, int)>,
    b: Seq<(int, int, int)>,
    row: int,
    col: int,
)
    requires
        drawn_on(a, a.len() as int, row, col),
        a.len() <= b.len(),
        forall|i: int|
            0 <= i < a.len() ==> (#[trigger] a[i]).0 == b[i].0 && a[i].1 == b[i].1 && a[i].2
                <= b[i].2,
    ensures
        drawn_on(b, b.len() as int, row, col),
{
    let i = choose|i: int|
        0 <= i < a.len() && (#[trigger] a[i]).0 == row && a[i].1 <= col < a[i].1 + a[i].2;
    assert(b[i].0 == row);
}

/// A terminal on which something is about to be drawn.
struct Base {
    /// The screen that it showed before anything was drawn.
    screen: ScreenText,
    /// The part of the screen that may be drawn on, with the place to start from.
    part: ScreenText,
    /// The terminal itself.
    terminal: ScreenText,
    /// What is drawn on it already.
    painted: Seq<(int, int, int)>,
}

/// What holds of such a terminal.
spec fn based(b: Base) -> bool {
    &&& fits(b.screen)
    &&& same_size(b.screen, b.screen)
    &&& shows_but(b.terminal, b.screen, b.painted)
    &&& b.part.cols == b.screen.cols
    &&& 0 <= b.part.row < b.part.rows <= b.screen.rows
    &&& 0 <= b.part.col < b.part.cols
    &&& in_places(b.painted)
}

/// Whether what is remembered as drawn has a place and a length.
pub open spec fn in_places(painted: Seq<(int, int, int)>) -> bool {
    forall|i: int|
        0 <= i < painted.len() ==> 0 <= (#[trigger] painted[i]).0 && 0 <= painted[i].1 && 0
            <= painted[i].2
}

/// All that is drawn, with the row that is being made.
spec fn so_far(b: Base, d: Drawing) -> Seq<(int, int, int)> {
    (b.painted + d.painted).push((d.row, d.start, d.col - d.start))
}

/// The steps of a drawing, with those of the row that is being made.
spec fn steps_so_far(d: Drawing) -> Seq<Step> {
    d.out + line_steps(d.row, d.start, d.body)
}

/// Whether a terminal shows a screen but for what was drawn.
pub open spec fn shows_but(
    t: ScreenText,
    s: ScreenText,
    painted: Seq<(int, int, int)>,
) -> bool {
    &&& same_size(t, s)
    &&& forall|r: int, k: int|
        0 <= r < s.rows && 0 <= k < s.cols && !drawn_on(painted, painted.len() as int, r, k)
            ==> #[trigger] t.grid[r][k] == s.grid[r][k]
}

/// What holds of a drawing that is being made.
spec fn on_the_way(d: Drawing, b: Base) -> bool {
    let u = after_steps(b.terminal, steps_so_far(d));
    let cols = b.screen.cols;
    &&& shows_but(u, b.screen, so_far(b, d))
    &&& u.autowrap == b.terminal.autowrap
    &&& 0 <= d.start <= d.col
    &&& d.start < cols
    &&& 0 <= d.row
    &&& !d.full ==> d.row < b.part.rows
    &&& d.body.len() == 0 ==> d.col == d.start && d.style is None
    &&& d.body.len() > 0 ==> {
        &&& u.row == d.row
        &&& u.col == least(d.col, cols - 1)
        &&& u.wrap_pending == (d.col >= cols)
        &&& d.style is Some
        &&& u.pen == look_of(d.style->0)
    }
    &&& in_places(d.painted)
}

/// Whether a character is written where the cursor is: it fits, or the terminal does not wrap
/// and the cursor is at the start of a row.
spec fn stays_on_row(t: ScreenText, w: int) -> bool {
    t.col + w <= t.cols || (!t.autowrap && t.col == 0)
}

/// A character drawn where the cursor of the terminal is.
proof fn lemma_put_within(t: ScreenText, s: ScreenText, painted: Seq<(int, int, int)>, c: char)
    requires
        shows_but(t, s, painted),
        !t.wrap_pending,
        taken(c) > 0,
        stays_on_row(t, taken(c)),
    ensures
        ({
            let u = after_step(t, Step::Put(c));
            &&& u.autowrap == t.autowrap
            &&& shows_but(u, s, painted.push((t.row, t.col, taken(c))))
            &&& u.row == t.row
            &&& u.col == least(t.col + taken(c), s.cols - 1)
            &&& u.wrap_pending == (t.col + taken(c) >= s.cols)
            &&& u.pen == t.pen
        }),
{
    let w = taken(c);
    let u = after_step(t, Step::Put(c));
    let more = painted.push((t.row, t.col, w));
    assert(u.grid == t.grid.update(t.row, row_written(t.grid[t.row], t.col, c, t.pen, w)));
    assert forall|r: int, k: int|
        0 <= r < s.rows && 0 <= k < s.cols && !drawn_on(
            more,
            more.len() as int,
            r,
            k,
        ) implies #[trigger] u.grid[r][k] == s.grid[r][k] by {
        if drawn_on(painted, painted.len() as int, r, k) {
            lemma_drawn_on_grows(painted, more, r, k);
        }
        assert(t.grid[r][k] == s.grid[r][k]);
        if r == t.row && t.col <= k < t.col + w {
            assert(more[painted.len() as int] == (t.row, t.col, w));
        }
    }
}

/// Where a row is drawn further, what is drawn on it is one piece.
proof fn lemma_pieces_join(
    t: ScreenText,
    s: ScreenText,
    painted: Seq<(int, int, int)>,
    row: int,
    a: int,
    n: int,
    m: int,
)
    requires
        shows_but(t, s, painted.push((row, a, n)).push((row, a + n, m))),
        0 <= n,
        0 <= m,
    ensures
        shows_but(t, s, painted.push((row, a, n + m))),
{
    let two = painted.push((row, a, n)).push((row, a + n, m));
    let one = painted.push((row, a, n + m));
    assert forall|r: int, k: int|
        0 <= r < s.rows && 0 <= k < s.cols && !drawn_on(
            one,
            one.len() as int,
            r,
            k,
        ) implies #[trigger] t.grid[r][k] == s.grid[r][k] by {
        if drawn_on(two, two.len() as int, r, k) {
            let i = choose|i: int|
                0 <= i < two.len() && (#[trigger] two[i]).0 == r && two[i].1 <= k < two[i].1
                    + two[i].2;
            let j = if i < painted.len() {
                i
            } else {
                painted.len() as int
            };
            assert(one[j].0 == r && one[j].1 <= k < one[j].1 + one[j].2);
        }
    }
}

/// The steps up to right before the next character.
spec fn steps_before(d: Drawing) -> Seq<Step> {
    if d.body.len() == 0 {
        d.out + seq![Step::Move(d.row, d.start)]
    } else {
        steps_so_far(d)
    }
}

/// Right before the next character the cursor is at its place.
proof fn lemma_before_the_next(d: Drawing, b: Base)
    requires
        based(b),
        on_the_way(d, b),
        !d.full,
        d.col < b.screen.cols,
    ensures
        ({
            let v = after_steps(b.terminal, steps_before(d));
            &&& v.row == d.row
            &&& v.col == d.col
            &&& !v.wrap_pending
            &&& v.autowrap == b.terminal.autowrap
            &&& shows_but(v, b.screen, so_far(b, d))
            &&& d.style is Some ==> v.pen == look_of(d.style->0)
        }),
{
    if d.body.len() == 0 {
        let t = b.terminal;
        let u = after_steps(t, steps_so_far(d));
        let first = seq![Step::Move(d.row, d.start)];
        assert(steps_so_far(d) =~= d.out);
        lemma_steps_join(t, d.out, first);
        lemma_one_step(u, Step::Move(d.row, d.start));
        lemma_move(u, d.row, d.start);
    }
}

/// The steps of one character.
spec fn char_steps(d: Drawing, style: Style, c: char) -> Seq<Step> {
    (if d.style == Some(style) {
        seq![]
    } else {
        seq![Step::Look(look_of(style))]
    }) + seq![Step::Put(c)]
}

proof fn lemma_look_and_put(
    v: ScreenText,
    s: ScreenText,
    painted: Seq<(int, int, int)>,
    d: Drawing,
    style: Style,
    c: char,
)
    requires
        shows_but(v, s, painted),
        !v.wrap_pending,
        taken(c) > 0,
        stays_on_row(v, taken(c)),
        d.style is Some ==> v.pen == look_of(d.style->0),
    ensures
        ({
            let y = after_steps(v, char_steps(d, style, c));
            &&& y.autowrap == v.autowrap
            &&& shows_but(y, s, painted.push((v.row, v.col, taken(c))))
            &&& y.row == v.row
            &&& y.col == least(v.col + taken(c), s.cols - 1)
            &&& y.wrap_pending == (v.col + taken(c) >= s.cols)
            &&& y.pen == look_of(style)
        }),
{
    let look = look_of(style);
    let mark = if d.style == Some(style) {
        seq![]
    } else {
        seq![Step::Look(look)]
    };
    let put = seq![Step::Put(c)];
    let x = after_steps(v, mark);
    lemma_steps_join(v, mark, put);
    if d.style != Some(style) {
        lemma_one_step(v, Step::Look(look));
        lemma_look(v, look);
    }
    assert(x == (ScreenText { pen: look, ..v }));
    lemma_one_step(x, Step::Put(c));
    lemma_put_within(x, s, painted, c);
}

/// The drawing with one character more on its row.
spec fn char_put(d: Drawing, style: Style, c: char) -> Drawing {
    Drawing {
        body: d.body + char_steps(d, style, c),
        style: Some(style),
        col: d.col + taken(c),
        ..d
    }
}

/// One more character on the row that is being made.
proof fn lemma_char_on_row(d: Drawing, b: Base, style: Style, c: char)
    requires
        based(b),
        on_the_way(d, b),
        !d.full,
        taken(c) > 0,
        d.col < b.screen.cols,
        d.col + taken(c) <= b.screen.cols || (!b.terminal.autowrap && d.col == 0),
    ensures
        on_the_way(char_put(d, style, c), b),
{
    let w = taken(c);
    let e = char_put(d, style, c);
    let steps = char_steps(d, style, c);
    let v = after_steps(b.terminal, steps_before(d));
    lemma_before_the_next(d, b);
    lemma_look_and_put(v, b.screen, so_far(b, d), d, style, c);
    lemma_steps_join(b.terminal, steps_before(d), steps);
    assert(e.body =~= d.body + steps);
    assert(steps_so_far(e) =~= steps_before(d) + steps);
    let all = b.painted + d.painted;
    let y = after_steps(v, steps);
    lemma_pieces_join(y, b.screen, all, d.row, d.start, d.col - d.start, w);
    assert(so_far(b, e) == all.push((d.row, d.start, d.col - d.start + w)));
}

/// The row that is being made is done, and another is begun.
proof fn lemma_row_on_the_way(d: Drawing, b: Base)
    requires
        based(b),
        on_the_way(d, b),
        !d.full,
    ensures
        on_the_way(next_row(d, b.part), b),
{
    let s = b.screen;
    let e = next_row(d, b.part);
    assert(steps_so_far(e) =~= steps_so_far(d));
    let u = after_steps(b.terminal, steps_so_far(d));
    let was = so_far(b, d);
    let now = so_far(b, e);
    assert(b.painted + e.painted =~= was);
    assert forall|r: int, k: int|
        0 <= r < s.rows && 0 <= k < s.cols && !drawn_on(
            now,
            now.len() as int,
            r,
            k,
        ) implies #[trigger] u.grid[r][k] == s.grid[r][k] by {
        if drawn_on(was, was.len() as int, r, k) {
            lemma_drawn_on_grows(was, now, r, k);
        }
    }
}

/// Whether every character that steps write fits on a row.
pub open spec fn fitting(steps: Seq<Step>, cols: int) -> bool {
    forall|i: int|
        0 <= i < steps.len() ==> ((#[trigger] steps[i]) matches Step::Put(c) ==> taken(c) <= cols)
}

/// Whether every character that was drawn so far fits on a row, where the terminal wraps.
spec fn good_so_far(d: Drawing, b: Base) -> bool {
    b.terminal.autowrap ==> fitting(steps_so_far(d), b.screen.cols)
}

/// A character is drawn behind what is drawn already.
proof fn lemma_drawn_behind(d: Drawing, v: ScreenText, style: Style, c: char)
    ensures
        ({
            let e = char_drawn(d, v, style, c);
            &&& steps_so_far(d).len() <= steps_so_far(e).len()
            &&& steps_so_far(e).take(steps_so_far(d).len() as int) == steps_so_far(d)
        }),
{
    let e = char_drawn(d, v, style, c);
    let a = steps_so_far(d);
    let f = if d.col + taken(c) > v.cols {
        next_row(d, v)
    } else {
        d
    };
    assert(steps_so_far(next_row(d, v)) =~= a);
    if !d.full && taken(c) != 0 && !f.full {
        assert(e.body =~= f.body + char_steps(f, style, c));
        let b = steps_so_far(e);
        if f.body.len() == 0 {
            assert(steps_so_far(f) =~= f.out);
        }
        assert(b.take(a.len() as int) =~= a);
    } else {
        assert(steps_so_far(e) =~= a);
        assert(a.take(a.len() as int) =~= a);
    }
}

proof fn lemma_good_before(d: Drawing, b: Base, style: Style, c: char)
    requires
        good_so_far(char_drawn(d, b.part, style, c), b),
    ensures
        good_so_far(d, b),
{
    lemma_drawn_behind(d, b.part, style, c);
    let a = steps_so_far(d);
    let e = steps_so_far(char_drawn(d, b.part, style, c));
    if b.terminal.autowrap {
        assert forall|i: int| 0 <= i < a.len() implies ((#[trigger] a[i]) matches Step::Put(
            x,
        ) ==> taken(x) <= b.screen.cols) by {
            assert(e.take(a.len() as int)[i] == e[i]);
        }
    }
}

proof fn lemma_char_on_the_way(d: Drawing, b: Base, style: Style, c: char)
    requires
        based(b),
        on_the_way(d, b),
        good_so_far(char_drawn(d, b.part, style, c), b),
        taken(c) >= 0,
    ensures
        on_the_way(char_drawn(d, b.part, style, c), b),
{
    let w = taken(c);
    if !d.full && w > 0 {
        let f = if d.col + w > b.part.cols {
            next_row(d, b.part)
        } else {
            d
        };
        if d.col + w > b.part.cols {
            lemma_row_on_the_way(d, b);
        }
        let e = char_drawn(d, b.part, style, c);
        if !f.full {
            assert(e.body =~= char_put(f, style, c).body);
            assert(e == char_put(f, style, c));
            let all = steps_so_far(e);
            assert(all[all.len() - 1] == Step::Put(c));
            lemma_char_on_row(f, b, style, c);
        }
    }
}

proof fn lemma_taken(c: char)
    ensures
        taken(c) >= 0,
{
}

proof fn lemma_text_good_before(d: Drawing, b: Base, seg: Seg, n: int)
    requires
        0 <= n <= seg.text.len(),
        good_so_far(text_drawn(d, b.part, seg, n), b),
    ensures
        good_so_far(d, b),
    decreases n,
{
    if n > 0 {
        let c = seg.text[n - 1];
        lemma_good_before(text_drawn(d, b.part, seg, n - 1), b, seg.style, c);
        lemma_text_good_before(d, b, seg, n - 1);
    }
}

proof fn lemma_text_on_the_way(d: Drawing, b: Base, seg: Seg, n: int)
    requires
        based(b),
        on_the_way(d, b),
        0 <= n <= seg.text.len(),
        good_so_far(text_drawn(d, b.part, seg, n), b),
    ensures
        on_the_way(text_drawn(d, b.part, seg, n), b),
    decreases n,
{
    if n > 0 {
        let c = seg.text[n - 1];
        let before = text_drawn(d, b.part, seg, n - 1);
        lemma_good_before(before, b, seg.style, c);
        lemma_text_on_the_way(d, b, seg, n - 1);
        lemma_taken(c);
        lemma_char_on_the_way(before, b, seg.style, c);
    }
}

/// What was drawn on a place that takes no columns is nowhere.
proof fn lemma_nothing_more(t: ScreenText, s: ScreenText, painted: Seq<(int, int, int)>, r: int, c: int)
    requires
        shows_but(t, s, painted),
    ensures
        shows_but(t, s, painted.push((r, c, 0))),
{
    let more = painted.push((r, c, 0));
    assert forall|i: int, k: int|
        0 <= i < s.rows && 0 <= k < s.cols && !drawn_on(
            more,
            more.len() as int,
            i,
            k,
        ) implies #[trigger] t.grid[i][k] == s.grid[i][k] by {
        if drawn_on(painted, painted.len() as int, i, k) {
            lemma_drawn_on_grows(painted, more, i, k);
        }
    }
}

proof fn lemma_parts_on_the_way(b: Base, segs: Seq<Seg>, n: int)
    requires
        based(b),
        0 <= n <= segs.len(),
        good_so_far(parts_drawn(drawing_at(b.part), b.part, segs, n), b),
    ensures
        on_the_way(parts_drawn(drawing_at(b.part), b.part, segs, n), b),
    decreases n,
{
    if n > 0 {
        let d = parts_drawn(drawing_at(b.part), b.part, segs, n - 1);
        let seg = segs[n - 1];
        lemma_text_good_before(d, b, seg, seg.text.len() as int);
        lemma_parts_on_the_way(b, segs, n - 1);
        lemma_text_on_the_way(d, b, seg, seg.text.len() as int);
    } else {
        let d = drawing_at(b.part);
        assert(steps_so_far(d) =~= seq![]);
        assert(after_steps(b.terminal, seq![]) == b.terminal);
        assert(b.painted + d.painted =~= b.painted);
        lemma_nothing_more(b.terminal, b.screen, b.painted, d.row, d.start);
    }
}

/// What is drawn on a terminal stays on the places that are remembered.
proof fn lemma_drawing_stays(b: Base, segs: Seq<Seg>)
    requires
        based(b),
        b.terminal.autowrap ==> fitting(drawn(b.part, segs).out, b.screen.cols),
    ensures
        ({
            let d = drawn(b.part, segs);
            &&& after_steps(b.terminal, d.out).autowrap == b.terminal.autowrap
            &&& shows_but(after_steps(b.terminal, d.out), b.screen, b.painted + d.painted)
            &&& in_places(b.painted + d.painted)
        }),
{
    let d = parts_drawn(drawing_at(b.part), b.part, segs, segs.len() as int);
    let e = drawn(b.part, segs);
    lemma_full_rows_are_empty(b, segs, segs.len() as int);
    assert(steps_so_far(d) =~= e.out);
    lemma_parts_on_the_way(b, segs, segs.len() as int);
    let s = b.screen;
    let u = after_steps(b.terminal, steps_so_far(d));
    let all = so_far(b, d);
    let some = b.painted + d.painted;
    if d.body.len() > 0 && d.row < b.part.rows {
        assert(e.out == steps_so_far(d));
        assert(b.painted + e.painted =~= all);
    } else {
        assert(d.body.len() == 0) by {
            if d.body.len() > 0 {
                assert(u.row == d.row);
            }
        }
        assert(steps_so_far(d) =~= d.out);
        assert forall|r: int, k: int|
            0 <= r < s.rows && 0 <= k < s.cols && !drawn_on(
                some,
                some.len() as int,
                r,
                k,
            ) implies #[trigger] u.grid[r][k] == s.grid[r][k] by {
            if drawn_on(all, all.len() as int, r, k) {
                let i = choose|i: int|
                    0 <= i < all.len() && (#[trigger] all[i]).0 == r && all[i].1 <= k < all[i].1
                        + all[i].2;
                assert(some[i] == all[i]);
            }
        }
    }
}

/// Below the part that may be drawn on nothing is drawn.
spec fn empty_below(d: Drawing, v: ScreenText) -> bool {
    d.row >= v.rows ==> d.body.len() == 0 && d.full
}

proof fn lemma_text_keeps_below_empty(d: Drawing, v: ScreenText, seg: Seg, n: int)
    requires
        empty_below(d, v),
    ensures
        empty_below(text_drawn(d, v, seg, n), v),
    decreases n,
{
    if n > 0 {
        lemma_text_keeps_below_empty(d, v, seg, n - 1);
    }
}

proof fn lemma_full_rows_are_empty(b: Base, segs: Seq<Seg>, n: int)
    requires
        based(b),
    ensures
        empty_below(parts_drawn(drawing_at(b.part), b.part, segs, n), b.part),
    decreases n,
{
    if n > 0 {
        lemma_full_rows_are_empty(b, segs, n - 1);
        let d = parts_drawn(drawing_at(b.part), b.part, segs, n - 1);
        lemma_text_keeps_below_empty(d, b.part, segs[n - 1], segs[n - 1].text.len() as int);
    }
}

/// The colour near the cursor stays on the place that is remembered.
proof fn lemma_tint_stays(
    s: ScreenText,
    t: ScreenText,
    painted: Seq<(int, int, int)>,
    tint: Option<Tint>,
)
    requires
        fits(s),
        same_size(s, s),
        shows_but(t, s, painted),
        in_places(painted),
    ensures
        ({
            let p = tint_or_nothing(s, tint);
            &&& after_steps(t, p.steps).autowrap == t.autowrap
            &&& shows_but(after_steps(t, p.steps), s, painted + p.painted)
            &&& in_places(painted + p.painted)
        }),
{
    let p = tint_or_nothing(s, tint);
    let none: Seq<(int, int, int)> = seq![];
    assert(painted + none =~= painted);
    assert(after_steps(t, seq![]) == t);
    if let Some(k) = tint {
        let at = s.col + k.offset;
        let (c, ch) = match k.glyph {
            Some(g) => (at, g),
            None => {
                let c = char_start(s, s.row, at);
                (c, cell_at(s, s.row, c).ch)
            },
        };
        lemma_char_start_range(s, s.row, at);
        lemma_taken(ch);
        if at < s.cols && taken(ch) != 0 && c + taken(ch) <= s.cols {
            lemma_tint_at(s, t, painted, k.style, c, ch);
        }
    }
}

proof fn lemma_tint_at(
    s: ScreenText,
    t: ScreenText,
    painted: Seq<(int, int, int)>,
    style: Style,
    c: int,
    ch: char,
)
    requires
        fits(s),
        same_size(s, s),
        shows_but(t, s, painted),
        in_places(painted),
        0 <= c,
        taken(ch) > 0,
        c + taken(ch) <= s.cols,
    ensures
        ({
            let steps = seq![Step::Move(s.row, c), Step::Look(look_of(style)), Step::Put(ch)];
            let more = painted + seq![(s.row, c, taken(ch))];
            &&& after_steps(t, steps).autowrap == t.autowrap
            &&& shows_but(after_steps(t, steps), s, more)
            &&& in_places(more)
        }),
{
    let a = Step::Move(s.row, c);
    let look = look_of(style);
    let m = Step::Look(look);
    let d = Step::Put(ch);
    assert(seq![a, m, d] =~= seq![a] + seq![m] + seq![d]);
    lemma_steps_join(t, seq![a] + seq![m], seq![d]);
    lemma_steps_join(t, seq![a], seq![m]);
    lemma_one_step(t, a);
    lemma_move(t, s.row, c);
    let t1 = after_step(t, a);
    lemma_one_step(t1, m);
    lemma_look(t1, look);
    let t2 = after_step(t1, m);
    assert(shows_but(t2, s, painted));
    lemma_one_step(t2, d);
    lemma_put_within(t2, s, painted, ch);
    assert(painted + seq![(s.row, c, taken(ch))] =~= painted.push((s.row, c, taken(ch))));
}

proof fn lemma_char_start_range(s: ScreenText, row: int, c: int)
    requires
        0 <= c,
    ensures
        0 <= char_start(s, row, c) <= c,
    decreases c,
{
    if c > 0 && cell_at(s, row, c).width == 0 {
        lemma_char_start_range(s, row, c - 1);
    }
}

/// Whether all that is drawn for what is shown stays where it is drawn: the terminal does not
/// wrap, or no character that is drawn is wider than a row.
pub open spec fn drawable(s: ScreenText, p: Shown) -> bool {
    s.autowrap ==> fitting(all_drawn(s, p).steps, s.cols)
}

proof fn lemma_fitting_parts(a: Seq<Step>, b: Seq<Step>, c: Seq<Step>, cols: int)
    requires
        fitting(a + b + c, cols),
    ensures
        fitting(a, cols),
        fitting(c, cols),
{
    let all = a + b + c;
    assert forall|i: int| 0 <= i < a.len() implies ((#[trigger] a[i]) matches Step::Put(x)
        ==> taken(x) <= cols) by {
        assert(all[i] == a[i]);
    }
    assert forall|i: int| 0 <= i < c.len() implies ((#[trigger] c[i]) matches Step::Put(x)
        ==> taken(x) <= cols) by {
        assert(all[a.len() + b.len() + i] == c[i]);
    }
}

/// What is drawn stays on the places that are remembered as drawn on: elsewhere the terminal
/// shows what it showed. Every character has to fit on a row.
pub proof fn law_a_drawing_stays_in_its_place(s: ScreenText, p: Shown)
    requires
        fits(s),
        same_size(s, s),
        drawable(s, p),
    ensures
        ({
            let d = all_drawn(s, p);
            &&& shows_but(after_steps(s, d.steps), s, d.painted)
            &&& in_places(d.painted)
        }),
{
    let none: Seq<(int, int, int)> = seq![];
    let d = drawn(s, p.at_cursor);
    let t = tint_or_nothing(s, p.cursor_tint);
    let l = line_drawn(s, p.floating);
    if s.autowrap {
        lemma_fitting_parts(d.out, t.steps, l.steps, s.cols);
    }
    lemma_drawing_stays(Base { screen: s, part: s, terminal: s, painted: none }, p.at_cursor);
    assert(none + d.painted =~= d.painted);
    let s1 = after_steps(s, d.out);
    lemma_tint_stays(s, s1, d.painted, p.cursor_tint);
    let s2 = after_steps(s1, t.steps);
    lemma_steps_join(s, d.out, t.steps);
    let two = d.painted + t.painted;
    lemma_steps_join(s, d.out + t.steps, l.steps);
    match line_beside(s) {
        Some(v) => {
            lemma_drawing_stays(
                Base { screen: s, part: v, terminal: s2, painted: two },
                p.floating,
            );
        },
        None => {
            assert(two + l.painted =~= two);
            assert(after_steps(s2, l.steps) == s2);
        },
    }
}

/// What is drawn and taken away again leaves no trace: the terminal shows the screen, with
/// its cursor and its look where the program left them. Left out are a character wider than
/// a row on a terminal that wraps, which goes where it was not drawn, and rows and columns
/// that no sequence can name.
pub proof fn law_drawing_leaves_no_trace(s: ScreenText, p: Shown)
    requires
        fits(s),
        whole(s),
        same_size(s, s),
        drawable(s, p),
    ensures
        ({
            let d = all_drawn(s, p);
            let t = after_steps(s, d.steps);
            let u = after_steps(t, erased_steps(s, d.painted, d.painted.len() as int));
            let v = after_steps(u, restored_steps(s));
            &&& u.grid == s.grid
            &&& v.grid == s.grid
            &&& v.row == s.row
            &&& v.col == s.col
            &&& v.pen == s.pen
            &&& v.cursor_visible == s.cursor_visible
        }),
{
    law_a_drawing_stays_in_its_place(s, p);
    let d = all_drawn(s, p);
    law_a_drawing_is_taken_away(s, after_steps(s, d.steps), d.painted);
}

} // verus!
