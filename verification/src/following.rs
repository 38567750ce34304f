//! What a terminal does with the program's output, place by place.
use vstd::prelude::*;
use crate::screen::{
    cell_at, controlled, escaped, executed, fits, fresh, printed, resized, taken, unmarked,
    ScreenText,
};
use crate::sgr::{
    sgr_applied, Attr, Color, BLINK, BOLD, DIM, HIDDEN, ITALIC, REVERSE, STRIKE, UNDERLINE,
};
use crate::screen::Cell;

verus! {

/// A sequence with one number.
pub open spec fn one(n: u16) -> Seq<Seq<u16>> {
    seq![seq![n]]
}

/// A sequence with two numbers.
pub open spec fn two(a: u16, b: u16) -> Seq<Seq<u16>> {
    seq![seq![a], seq![b]]
}

/// A sequence without a number.
pub open spec fn without() -> Seq<Seq<u16>> {
    seq![]
}

/// How often something is done: nought stands for once.
pub open spec fn times(n: u16) -> int {
    if n == 0 {
        1
    } else {
        n as int
    }
}

/// Whether a place is on a screen.
pub open spec fn on_screen(s: ScreenText, row: int, col: int) -> bool {
    0 <= row < s.rows && 0 <= col < s.cols
}

/// Whether a place is that of the cursor or comes after it, row by row.
pub open spec fn from_cursor(s: ScreenText, row: int, col: int) -> bool {
    row > s.row || (row == s.row && col >= s.col)
}

/// Whether a place is that of the cursor or comes before it, row by row.
pub open spec fn up_to_cursor(s: ScreenText, row: int, col: int) -> bool {
    row < s.row || (row == s.row && col <= s.col)
}

/// A blank that keeps only the colour behind the characters.
pub open spec fn wiped(s: ScreenText) -> Cell {
    Cell { ch: ' ', attr: Attr { fg: Color::Default, bg: s.pen.bg, flags: 0 }, width: 1 }
}

/// A place where nothing was written.
pub open spec fn untouched() -> Cell {
    Cell { ch: ' ', attr: Attr { fg: Color::Default, bg: Color::Default, flags: 0 }, width: 1 }
}

/// Whether nothing but the contents of a screen differs.
pub open spec fn same_but_grid(t: ScreenText, s: ScreenText) -> bool {
    t == (ScreenText { grid: t.grid, ..s }) && fits(t)
}

/// Erasing the display erases exactly what is asked for, wherever the cursor is: what comes
/// from it on, what comes up to it, or the whole screen. Every other place stays, and so does
/// the cursor.
pub proof fn law_erasing_the_display(s: ScreenText, mode: u16, row: int, col: int)
    requires
        fits(s),
        on_screen(s, row, col),
    ensures
        ({
            let t = unmarked(s, one(mode), 'J');
            let gone = (mode == 0 && from_cursor(s, row, col)) || (mode == 1 && up_to_cursor(
                s,
                row,
                col,
            )) || mode >= 2;
            &&& same_but_grid(t, s)
            &&& gone ==> cell_at(t, row, col) == wiped(s)
            &&& !gone ==> cell_at(t, row, col) == cell_at(s, row, col)
            &&& unmarked(s, without(), 'J') == unmarked(s, one(0), 'J')
        }),
{
    assert(one(mode)[0] == seq![mode]);
    assert(one(0)[0] == seq![0u16]);
}

/// Erasing a line erases exactly what is asked for on the row of the cursor, and nothing on
/// other rows.
pub proof fn law_erasing_a_line(s: ScreenText, mode: u16, row: int, col: int)
    requires
        fits(s),
        on_screen(s, row, col),
    ensures
        ({
            let t = unmarked(s, one(mode), 'K');
            let gone = row == s.row && ((mode == 0 && col >= s.col) || (mode == 1 && col <= s.col)
                || mode >= 2);
            &&& same_but_grid(t, s)
            &&& gone ==> cell_at(t, row, col) == wiped(s)
            &&& !gone ==> cell_at(t, row, col) == cell_at(s, row, col)
            &&& unmarked(s, without(), 'K') == unmarked(s, one(0), 'K')
        }),
{
    assert(one(mode)[0] == seq![mode]);
    assert(one(0)[0] == seq![0u16]);
}

/// Erasing characters erases as many places as are asked for from the cursor on, and moves
/// nothing.
pub proof fn law_erasing_characters(s: ScreenText, n: u16, row: int, col: int)
    requires
        fits(s),
        on_screen(s, row, col),
    ensures
        ({
            let t = unmarked(s, one(n), 'X');
            let gone = row == s.row && s.col <= col && col - s.col < times(n);
            &&& same_but_grid(t, s)
            &&& gone ==> cell_at(t, row, col) == wiped(s)
            &&& !gone ==> cell_at(t, row, col) == cell_at(s, row, col)
        }),
{
    assert(one(n)[0] == seq![n]);
}

/// Inserting moves what comes from the cursor on to the right, as far as the row goes; what
/// is then free is blank. Before the cursor and on other rows nothing changes.
pub proof fn law_inserting_moves_to_the_right(s: ScreenText, n: u16, row: int, col: int)
    requires
        fits(s),
        on_screen(s, row, col),
    ensures
        ({
            let t = unmarked(s, one(n), '@');
            &&& same_but_grid(t, s)
            &&& row != s.row || col < s.col ==> cell_at(t, row, col) == cell_at(s, row, col)
            &&& row == s.row && col >= s.col && col + times(n) < s.cols ==> cell_at(
                t,
                row,
                col + times(n),
            ) == cell_at(s, row, col)
            &&& row == s.row && s.col <= col < s.col + times(n) ==> cell_at(t, row, col)
                == untouched()
        }),
{
    assert(one(n)[0] == seq![n]);
}

/// Deleting moves what comes behind the deleted places to the left; the end of the row is
/// then blank. Before the cursor and on other rows nothing changes.
pub proof fn law_deleting_moves_to_the_left(s: ScreenText, n: u16, row: int, col: int)
    requires
        fits(s),
        on_screen(s, row, col),
    ensures
        ({
            let t = unmarked(s, one(n), 'P');
            &&& same_but_grid(t, s)
            &&& row != s.row || col < s.col ==> cell_at(t, row, col) == cell_at(s, row, col)
            &&& row == s.row && col >= s.col + times(n) ==> cell_at(t, row, col - times(n))
                == cell_at(s, row, col)
            &&& row == s.row && col >= s.col && col + times(n) >= s.cols ==> cell_at(t, row, col)
                == untouched()
        }),
{
    assert(one(n)[0] == seq![n]);
}

/// Deleting as many places as were inserted brings back what was not moved off the row.
pub proof fn law_deleting_undoes_inserting(s: ScreenText, n: u16, row: int, col: int)
    requires
        fits(s),
        on_screen(s, row, col),
        row != s.row || col < s.col || col + times(n) < s.cols,
    ensures
        cell_at(unmarked(unmarked(s, one(n), '@'), one(n), 'P'), row, col) == cell_at(s, row, col),
{
    let t = unmarked(s, one(n), '@');
    law_inserting_moves_to_the_right(s, n, row, col);
    if row == s.row && col >= s.col {
        law_deleting_moves_to_the_left(t, n, row, col + times(n));
    } else {
        law_deleting_moves_to_the_left(t, n, row, col);
    }
}

/// Lines that are put in at the cursor move those from it on down, up to the end of the part
/// that scrolls, and are blank. Outside that part nothing happens.
pub proof fn law_inserting_lines(s: ScreenText, n: u16, row: int, col: int)
    requires
        fits(s),
        on_screen(s, row, col),
    ensures
        ({
            let t = unmarked(s, one(n), 'L');
            let inside = s.top <= s.row <= s.bottom && s.row <= row <= s.bottom;
            &&& same_but_grid(t, s)
            &&& !inside ==> cell_at(t, row, col) == cell_at(s, row, col)
            &&& inside && row + times(n) <= s.bottom ==> cell_at(t, row + times(n), col)
                == cell_at(s, row, col)
            &&& inside && row < s.row + times(n) ==> cell_at(t, row, col) == untouched()
        }),
{
    assert(one(n)[0] == seq![n]);
}

/// Lines that are taken out at the cursor let those below move up, within the part that
/// scrolls; its end is then blank.
pub proof fn law_deleting_lines(s: ScreenText, n: u16, row: int, col: int)
    requires
        fits(s),
        on_screen(s, row, col),
    ensures
        ({
            let t = unmarked(s, one(n), 'M');
            let inside = s.top <= s.row <= s.bottom && s.row <= row <= s.bottom;
            &&& same_but_grid(t, s)
            &&& !inside ==> cell_at(t, row, col) == cell_at(s, row, col)
            &&& inside && row - times(n) >= s.row ==> cell_at(t, row - times(n), col) == cell_at(
                s,
                row,
                col,
            )
            &&& inside && row + times(n) > s.bottom ==> cell_at(t, row, col) == untouched()
        }),
{
    assert(one(n)[0] == seq![n]);
}

/// Scrolling moves the part that scrolls, up or down, and nothing else; the rows that are
/// then free are blank.
pub proof fn law_scrolling(s: ScreenText, n: u16, row: int, col: int)
    requires
        fits(s),
        on_screen(s, row, col),
    ensures
        ({
            let up = unmarked(s, one(n), 'S');
            let down = unmarked(s, one(n), 'T');
            let inside = s.top <= row <= s.bottom;
            &&& same_but_grid(up, s)
            &&& same_but_grid(down, s)
            &&& !inside ==> cell_at(up, row, col) == cell_at(s, row, col) && cell_at(down, row, col)
                == cell_at(s, row, col)
            &&& inside && row - times(n) >= s.top ==> cell_at(up, row - times(n), col) == cell_at(
                s,
                row,
                col,
            )
            &&& inside && row + times(n) <= s.bottom ==> cell_at(down, row + times(n), col)
                == cell_at(s, row, col)
            &&& inside && row + times(n) > s.bottom ==> cell_at(up, row, col) == untouched()
            &&& inside && row - times(n) < s.top ==> cell_at(down, row, col) == untouched()
        }),
{
    assert(one(n)[0] == seq![n]);
}

/// Whether only the cursor has moved, to a row and a column.
pub open spec fn moved_to(t: ScreenText, s: ScreenText, row: int, col: int) -> bool {
    t == (ScreenText { row, col, wrap_pending: false, ..s }) && fits(t)
}

/// A line feed moves the cursor down one row and changes nothing else; at the end of the part
/// that scrolls the cursor stays and that part moves up by one row.
pub proof fn law_a_line_feed(s: ScreenText, byte: u8, row: int, col: int)
    requires
        fits(s),
        on_screen(s, row, col),
        byte == 0x0a || byte == 0x0b || byte == 0x0c,
    ensures
        ({
            let t = executed(s, byte);
            &&& s.row != s.bottom && s.row + 1 < s.rows ==> moved_to(t, s, s.row + 1, s.col)
            &&& s.row != s.bottom && s.row + 1 == s.rows ==> moved_to(t, s, s.row, s.col)
            &&& s.row == s.bottom ==> t.row == s.row && t.col == s.col && !t.wrap_pending
            &&& s.row == s.bottom && s.top < row <= s.bottom ==> cell_at(t, row - 1, col) == cell_at(
                s,
                row,
                col,
            )
            &&& s.row == s.bottom && row == s.bottom ==> cell_at(t, row, col) == untouched()
            &&& s.row == s.bottom && !(s.top <= row <= s.bottom) ==> cell_at(t, row, col) == cell_at(
                s,
                row,
                col,
            )
            &&& t == escaped(s, seq![], 0x44)
        }),
{
}

/// The other way round: the cursor goes up one row, or the part that scrolls moves down.
pub proof fn law_a_reverse_line_feed(s: ScreenText, row: int, col: int)
    requires
        fits(s),
        on_screen(s, row, col),
    ensures
        ({
            let t = escaped(s, seq![], 0x4d);
            &&& s.row != s.top && s.row > 0 ==> moved_to(t, s, s.row - 1, s.col)
            &&& s.row != s.top && s.row == 0 ==> moved_to(t, s, 0, s.col)
            &&& s.row == s.top ==> t.row == s.row && t.col == s.col
            &&& s.row == s.top && s.top <= row < s.bottom ==> cell_at(t, row + 1, col) == cell_at(
                s,
                row,
                col,
            )
            &&& s.row == s.top && row == s.top ==> cell_at(t, row, col) == untouched()
            &&& s.row == s.top && !(s.top <= row <= s.bottom) ==> cell_at(t, row, col) == cell_at(
                s,
                row,
                col,
            )
        }),
{
}

/// A line feed takes a reverse one back where nothing scrolls.
pub proof fn law_a_line_feed_undoes_a_reverse_one(s: ScreenText)
    requires
        fits(s),
        s.row > 0,
        s.row != s.top,
        s.row - 1 != s.bottom,
    ensures
        executed(escaped(s, seq![], 0x4d), 0x0a) == (ScreenText { wrap_pending: false, ..s }),
{
    law_a_reverse_line_feed(s, 0, 0);
    law_a_line_feed(escaped(s, seq![], 0x4d), 0x0a, 0, 0);
}

/// A carriage return goes to the start of the row, a backspace one column back, and a tab to
/// the next column whose number eight divides, as far as the row goes. A new line is a
/// carriage return and a line feed. Other control characters change nothing.
pub proof fn law_control_characters(s: ScreenText, byte: u8)
    requires
        fits(s),
    ensures
        moved_to(executed(s, 0x0d), s, s.row, 0),
        s.col > 0 ==> moved_to(executed(s, 0x08), s, s.row, s.col - 1),
        s.col == 0 ==> moved_to(executed(s, 0x08), s, s.row, 0),
        ({
            let t = executed(s, 0x09);
            &&& moved_to(t, s, s.row, t.col)
            &&& t.col % 8 == 0 || t.col == s.cols - 1
            &&& s.col < t.col <= s.col + 8 || (t.col == s.col && s.col == s.cols - 1)
            &&& forall|c: int| s.col < c < t.col ==> #[trigger] (c % 8) != 0
        }),
        escaped(s, seq![], 0x45) == executed(executed(s, 0x0d), 0x0a),
        !(0x08 <= byte <= 0x0d) ==> executed(s, byte) == s,
{
    let t = executed(s, 0x09);
    assert forall|c: int| s.col < c < t.col implies #[trigger] (c % 8) != 0 by {
        assert(c < (s.col / 8 + 1) * 8);
    }
}

/// The cursor goes to the row and the column that are named, counted from one; what is beyond
/// the screen counts as its end. What is not named is the first row or column.
pub proof fn law_the_cursor_goes_where_it_is_told(s: ScreenText, r: u16, c: u16)
    requires
        fits(s),
    ensures
        1 <= r <= s.rows && 1 <= c <= s.cols ==> moved_to(
            unmarked(s, two(r, c), 'H'),
            s,
            r - 1,
            c - 1,
        ),
        moved_to(unmarked(s, without(), 'H'), s, 0, 0),
        moved_to(unmarked(s, two(0, 0), 'H'), s, 0, 0),
        r > s.rows ==> unmarked(s, two(r, c), 'H').row == s.rows - 1,
        c > s.cols ==> unmarked(s, two(r, c), 'H').col == s.cols - 1,
        unmarked(s, two(r, c), 'f') == unmarked(s, two(r, c), 'H'),
        1 <= c <= s.cols ==> moved_to(unmarked(s, one(c), 'G'), s, s.row, c - 1),
        c > s.cols ==> moved_to(unmarked(s, one(c), 'G'), s, s.row, s.cols - 1),
        unmarked(s, one(c), '`') == unmarked(s, one(c), 'G'),
        1 <= r <= s.rows ==> moved_to(unmarked(s, one(r), 'd'), s, r - 1, s.col),
        r > s.rows ==> moved_to(unmarked(s, one(r), 'd'), s, s.rows - 1, s.col),
{
    assert(two(r, c)[0] == seq![r] && two(r, c)[1] == seq![c]);
    assert(two(0, 0)[0] == seq![0u16] && two(0, 0)[1] == seq![0u16]);
    assert(one(c)[0] == seq![c]);
    assert(one(r)[0] == seq![r]);
}

/// The cursor goes up, down, right and left by as many places as are named, and no further
/// than the screen goes; with the next and the previous line it goes to their start.
pub proof fn law_the_cursor_moves_by_steps(s: ScreenText, n: u16)
    requires
        fits(s),
    ensures
        moved_to(
            unmarked(s, one(n), 'A'),
            s,
            if s.row >= times(n) {
                s.row - times(n)
            } else {
                0
            },
            s.col,
        ),
        moved_to(
            unmarked(s, one(n), 'B'),
            s,
            if s.row + times(n) < s.rows {
                s.row + times(n)
            } else {
                s.rows - 1
            },
            s.col,
        ),
        moved_to(
            unmarked(s, one(n), 'C'),
            s,
            s.row,
            if s.col + times(n) < s.cols {
                s.col + times(n)
            } else {
                s.cols - 1
            },
        ),
        moved_to(
            unmarked(s, one(n), 'D'),
            s,
            s.row,
            if s.col >= times(n) {
                s.col - times(n)
            } else {
                0
            },
        ),
        unmarked(s, one(n), 'E') == executed(unmarked(s, one(n), 'B'), 0x0d),
        unmarked(s, one(n), 'F') == executed(unmarked(s, one(n), 'A'), 0x0d),
{
    assert(one(n)[0] == seq![n]);
}

/// A character that no longer fits on its row goes to the start of the next one, where the
/// terminal wraps; at the end of the part that scrolls the rows move up first.
pub proof fn law_characters_wrap(s: ScreenText, c: char)
    requires
        fits(s),
        s.autowrap,
        s.wrap_pending || s.col + taken(c) > s.cols,
        0 < taken(c) <= s.cols,
        taken(c) < 256,
    ensures
        ({
            let t = printed(s, c);
            let fed = executed(s, 0x0a);
            &&& t.row == fed.row
            &&& cell_at(t, t.row, 0) == (Cell { ch: c, attr: s.pen, width: taken(c) as u8 })
            &&& t == printed(executed(fed, 0x0d), c)
        }),
{
}

/// A character that reaches the end of its row leaves the cursor there, and the next one
/// wraps; one that does not moves the cursor behind it.
pub proof fn law_the_cursor_follows_a_character(s: ScreenText, c: char)
    requires
        fits(s),
        !s.wrap_pending,
        0 < taken(c),
        s.col + taken(c) <= s.cols,
    ensures
        ({
            let t = printed(s, c);
            &&& t.row == s.row
            &&& t.pen == s.pen
            &&& s.col + taken(c) < s.cols ==> t.col == s.col + taken(c) && !t.wrap_pending
            &&& s.col + taken(c) == s.cols ==> t.col == s.cols - 1 && t.wrap_pending
        }),
{
}

/// Behind the first column of a wide character nothing else is shown.
pub proof fn law_a_wide_character_covers_its_columns(s: ScreenText, c: char, k: int)
    requires
        fits(s),
        !s.wrap_pending,
        s.col + taken(c) <= s.cols,
        0 < k < taken(c),
    ensures
        cell_at(printed(s, c), s.row, s.col + k) == (Cell { ch: ' ', attr: s.pen, width: 0 }),
{
}

/// Where the terminal does not wrap, a character that no longer fits is written over the end
/// of the row, and no row moves.
pub proof fn law_without_wrapping_the_row_is_kept(s: ScreenText, c: char, row: int, col: int)
    requires
        fits(s),
        !s.autowrap,
        0 < taken(c) <= s.cols,
        taken(c) < 256,
        s.wrap_pending || s.col + taken(c) > s.cols,
        on_screen(s, row, col),
    ensures
        ({
            let t = printed(s, c);
            &&& t.row == s.row
            &&& cell_at(t, s.row, s.cols - taken(c)).ch == c
            &&& row != s.row || col < s.cols - taken(c) ==> cell_at(t, row, col) == cell_at(
                s,
                row,
                col,
            )
        }),
{
}

/// A character that takes no column changes nothing.
pub proof fn law_what_takes_no_column_changes_nothing(s: ScreenText, c: char)
    requires
        taken(c) == 0,
    ensures
        printed(s, c) == s,
{
}

/// The part that scrolls is set by its first and its last row, counted from one, if there are
/// at least two of them on the screen; the cursor goes home either way.
pub proof fn law_the_part_that_scrolls_is_set(s: ScreenText, a: u16, b: u16)
    requires
        fits(s),
        s.rows <= 0xffff,
    ensures
        ({
            let t = unmarked(s, two(a, b), 'r');
            &&& t.row == 0 && t.col == 0 && t.grid == s.grid && t.pen == s.pen
            &&& 1 <= a < b <= s.rows ==> t.top == a - 1 && t.bottom == b - 1
            &&& 1 <= a && 1 <= b && !(a < b <= s.rows) ==> t.top == s.top && t.bottom == s.bottom
        }),
        s.rows > 1 ==> unmarked(s, without(), 'r').top == 0 && unmarked(s, without(), 'r').bottom
            == s.rows - 1,
{
    assert(two(a, b)[0] == seq![a] && two(a, b)[1] == seq![b]);
}

/// Whether a private mode shows the other screen.
pub open spec fn other_screen(mode: u16) -> bool {
    mode == 47 || mode == 1047 || mode == 1049
}

/// The other screen is blank when it is shown, and the main one comes back as it was. The
/// modes for wrapping and for the cursor do what they say; all of them leave what is shown.
pub proof fn law_private_modes(s: ScreenText, mode: u16, row: int, col: int)
    requires
        fits(s),
        on_screen(s, row, col),
    ensures
        ({
            let on = controlled(s, one(mode), seq![0x3fu8], 'h');
            let off = controlled(s, one(mode), seq![0x3fu8], 'l');
            &&& mode == 7 ==> on == (ScreenText { autowrap: true, ..s }) && off == (ScreenText {
                autowrap: false,
                ..s
            })
            &&& mode == 25 ==> on == (ScreenText { cursor_visible: true, ..s }) && off == (
            ScreenText { cursor_visible: false, ..s })
            &&& other_screen(mode) ==> {
                &&& on.alt_screen && !off.alt_screen
                &&& on.row == s.row && on.col == s.col && on.pen == s.pen
                &&& off.row == s.row && off.col == s.col && off.pen == s.pen
                &&& !s.alt_screen ==> cell_at(on, row, col) == untouched() && off == s
                &&& !s.alt_screen ==> controlled(on, one(mode), seq![0x3fu8], 'l') == s
                &&& s.alt_screen ==> on == s
            }
            &&& mode != 7 && mode != 25 && !other_screen(mode) ==> on == s && off == s
        }),
{
    reveal_with_fuel(crate::screen::modes_set, 2);
    assert(one(mode)[0] == seq![mode]);
    let on = controlled(s, one(mode), seq![0x3fu8], 'h');
    if other_screen(mode) && !s.alt_screen {
        assert(controlled(on, one(mode), seq![0x3fu8], 'l').grid == s.grid);
    }
}

/// After a full reset the screen is as a new one, and a new one is blank, with the cursor at
/// its start and everything scrolling. So is one whose size has changed, but for the cursor,
/// which stays where it was as far as it can.
pub proof fn law_new_screens_are_blank(s: ScreenText, rows: int, cols: int, row: int, col: int)
    requires
        fits(s),
        rows > 0,
        cols > 0,
        0 <= row < rows,
        0 <= col < cols,
    ensures
        escaped(s, seq![], 0x63) == fresh(s.rows, s.cols),
        ({
            let t = fresh(rows, cols);
            &&& fits(t)
            &&& cell_at(t, row, col) == untouched()
            &&& t.row == 0 && t.col == 0 && t.top == 0 && t.bottom == rows - 1
            &&& t.autowrap && t.cursor_visible && !t.alt_screen && !t.wrap_pending
            &&& t.pen == untouched().attr
        }),
        ({
            let t = resized(s, rows, cols);
            &&& fits(t)
            &&& cell_at(t, row, col) == untouched()
            &&& t.rows == rows && t.cols == cols && t.top == 0 && t.bottom == rows - 1
            &&& s.row < rows ==> t.row == s.row
            &&& s.row >= rows ==> t.row == rows - 1
            &&& s.col < cols ==> t.col == s.col
            &&& s.col >= cols ==> t.col == cols - 1
            &&& t.pen == s.pen && t.alt_screen == s.alt_screen
        }),
{
}

/// The flag of a look that a number sets, and the number that takes it back.
pub open spec fn flag_of(n: u16) -> Option<(u8, u16)> {
    match n {
        1 => Some((BOLD, 22)),
        2 => Some((DIM, 22)),
        3 => Some((ITALIC, 23)),
        4 => Some((UNDERLINE, 24)),
        5 => Some((BLINK, 25)),
        7 => Some((REVERSE, 27)),
        8 => Some((HIDDEN, 28)),
        9 => Some((STRIKE, 29)),
        _ => None,
    }
}

/// A number sets its own flag and takes back no other; the number that takes it back leaves
/// the other flags, but that bold and dim are taken back together. The colours stay.
pub proof fn law_flags_are_set_and_taken_back(pen: Attr, n: u16)
    requires
        flag_of(n) is Some,
    ensures
        ({
            let (flag, off) = flag_of(n)->0;
            let gone = if off == 22 {
                BOLD | DIM
            } else {
                flag
            };
            &&& sgr_applied(pen, one(n)) == (Attr { flags: pen.flags | flag, ..pen })
            &&& sgr_applied(pen, one(off)) == (Attr { flags: pen.flags & !gone, ..pen })
        }),
        sgr_applied(pen, one(0)) == untouched().attr,
        sgr_applied(pen, without()) == untouched().attr,
{
    let (flag, off) = flag_of(n)->0;
    assert(one(n)[0] == seq![n]);
    assert(one(off)[0] == seq![off]);
    assert(one(0)[0] == seq![0u16]);
    reveal_with_fuel(crate::sgr::sgr_from, 2);
}

/// A number sets one of the first sixteen colours of the characters, or of what is behind
/// them, and nothing else; there are numbers to take them back.
pub proof fn law_colours_are_set(pen: Attr, i: u16)
    requires
        i < 16,
    ensures
        ({
            let n: int = if i < 8 {
                30 + i
            } else {
                82 + i
            };
            &&& sgr_applied(pen, one(n as u16)) == (Attr { fg: Color::Indexed(i as u8), ..pen })
            &&& sgr_applied(pen, one((n + 10) as u16)) == (Attr {
                bg: Color::Indexed(i as u8),
                ..pen
            })
        }),
        sgr_applied(pen, one(39)) == (Attr { fg: Color::Default, ..pen }),
        sgr_applied(pen, one(49)) == (Attr { bg: Color::Default, ..pen }),
{
    let n: int = if i < 8 {
        30 + i
    } else {
        82 + i
    };
    assert(one(n as u16)[0] == seq![n as u16]);
    assert(one((n + 10) as u16)[0] == seq![(n + 10) as u16]);
    assert(one(39)[0] == seq![39u16]);
    assert(one(49)[0] == seq![49u16]);
    reveal_with_fuel(crate::sgr::sgr_from, 2);
}

/// A colour by its number or by its three parts may be written with colons, with or without
/// the place for a colour space.
pub proof fn law_colours_with_colons(pen: Attr, r: u8, g: u8, b: u8, space: u16)
    ensures
        sgr_applied(pen, seq![seq![38u16, 5, r as u16]]) == (Attr { fg: Color::Indexed(r), ..pen }),
        sgr_applied(pen, seq![seq![48u16, 5, r as u16]]) == (Attr { bg: Color::Indexed(r), ..pen }),
        sgr_applied(pen, seq![seq![38u16, 2, r as u16, g as u16, b as u16]]) == (Attr {
            fg: Color::Rgb(r, g, b),
            ..pen
        }),
        sgr_applied(pen, seq![seq![48u16, 2, space, r as u16, g as u16, b as u16]]) == (Attr {
            bg: Color::Rgb(r, g, b),
            ..pen
        }),
{
    reveal_with_fuel(crate::sgr::sgr_from, 2);
    let a = seq![38u16, 5, r as u16];
    let a2 = seq![48u16, 5, r as u16];
    let c = seq![38u16, 2, r as u16, g as u16, b as u16];
    let d = seq![48u16, 2, space, r as u16, g as u16, b as u16];
    assert(seq![a][0] == a && seq![a2][0] == a2 && seq![c][0] == c && seq![d][0] == d);
    assert(a.skip(1) =~= seq![5u16, r as u16]);
    assert(a2.skip(1) =~= seq![5u16, r as u16]);
    assert(c.skip(1) =~= seq![2u16, r as u16, g as u16, b as u16]);
    assert(d.skip(1) =~= seq![2u16, space, r as u16, g as u16, b as u16]);
}

} // verus!
