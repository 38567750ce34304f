//! What is drawn is seen on the terminal, character by character.
use vstd::prelude::*;
use vstd::string::*;
use crate::display::Seg;
use crate::machine::{Style, Tint};
use crate::render::{
    char_drawn, drawing_at, drawn, line_beside, look_of, parts_drawn, text_drawn, tint_drawn,
    Drawing,
};
use crate::screen::{cell_at, char_start, fits, least, row_written, taken, ScreenText};
use crate::sgr::{Color, BOLD, DIM, REVERSE, UNDERLINE};
use crate::steps::{after_step, after_steps, lemma_one_step, lemma_steps_join, step_text, Step};
use crate::text::{decimal, lemma_take_next};
use crate::undo::{lemma_look, lemma_move};

verus! {

/// Characters with their styles, as many columns as they take.
pub open spec fn span(f: Seq<(char, Style)>) -> int
    decreases f.len(),
{
    if f.len() == 0 {
        0
    } else {
        span(f.drop_last()) + taken(f.last().0)
    }
}

/// The first `n` characters of a part, each with its style.
pub open spec fn styled(seg: Seg, n: int) -> Seq<(char, Style)>
    decreases n,
{
    if n <= 0 {
        seq![]
    } else {
        styled(seg, n - 1).push((seg.text[n - 1], seg.style))
    }
}

/// The characters of the first `n` parts, each with its style.
pub open spec fn all_styled(segs: Seq<Seg>, n: int) -> Seq<(char, Style)>
    decreases n,
{
    if n <= 0 {
        seq![]
    } else {
        all_styled(segs, n - 1) + styled(segs[n - 1], segs[n - 1].text.len() as int)
    }
}

/// Whether a terminal shows characters from a place on.
pub open spec fn shows(u: ScreenText, row: int, col: int, f: Seq<(char, Style)>) -> bool {
    forall|i: int|
        0 <= i < f.len() ==> {
            let c = cell_at(u, row, col + span(#[trigger] f.take(i)));
            c.ch == f[i].0 && c.attr == look_of(f[i].1)
        }
}

/// Whether all characters take a column.
pub open spec fn visible(f: Seq<(char, Style)>) -> bool {
    forall|i: int| 0 <= i < f.len() ==> taken((#[trigger] f[i]).0) > 0
}

proof fn lemma_span_grows(f: Seq<(char, Style)>, i: int)
    requires
        visible(f),
        0 <= i <= f.len(),
    ensures
        0 <= span(f.take(i)) <= span(f),
        i < f.len() ==> span(f.take(i)) + taken(f[i].0) <= span(f),
    decreases f.len() - i,
{
    if i < f.len() {
        lemma_span_grows(f, i + 1);
        lemma_take_next(f, i);
        assert(taken(f[i].0) > 0);
        lemma_span_positive(f.take(i));
    } else {
        assert(f.take(i) =~= f);
        lemma_span_positive(f);
    }
}

proof fn lemma_span_positive(f: Seq<(char, Style)>)
    ensures
        span(f) >= 0,
    decreases f.len(),
{
    if f.len() > 0 {
        lemma_span_positive(f.drop_last());
    }
}

spec fn steps_of(d: Drawing) -> Seq<Step> {
    seq![Step::Move(d.row, d.start)] + d.body
}

/// What holds of a drawing on one row.
spec fn right(s: ScreenText, d: Drawing, f: Seq<(char, Style)>) -> bool {
    let u = after_steps(s, steps_of(d));
    &&& d.out.len() == 0
    &&& d.painted.len() == 0
    &&& d.row == s.row
    &&& d.start == s.col
    &&& d.col == s.col + span(f)
    &&& d.col <= s.cols
    &&& !d.full
    &&& visible(f)
    &&& fits(u) && u.rows == s.rows && u.cols == s.cols
    &&& u.row == s.row
    &&& u.col == least(d.col, s.cols - 1)
    &&& u.wrap_pending == (d.col >= s.cols)
    &&& f.len() == 0 ==> d.body.len() == 0 && d.style is None
    &&& f.len() > 0 ==> d.body.len() > 0 && d.style is Some && u.pen == look_of(d.style->0)
    &&& shows(u, s.row, s.col, f)
}

proof fn lemma_put(u: ScreenText, s: ScreenText, f: Seq<(char, Style)>, style: Style, c: char)
    requires
        fits(u),
        u.rows == s.rows,
        u.cols == s.cols,
        fits(s),
        u.row == s.row,
        u.col == s.col + span(f),
        !u.wrap_pending,
        u.pen == look_of(style),
        taken(c) > 0,
        u.col + taken(c) <= u.cols,
        visible(f),
        shows(u, s.row, s.col, f),
    ensures
        ({
            let y = after_step(u, Step::Put(c));
            &&& fits(y) && y.rows == s.rows && y.cols == s.cols
            &&& y.row == s.row
            &&& y.col == least(u.col + taken(c), s.cols - 1)
            &&& y.wrap_pending == (u.col + taken(c) >= s.cols)
            &&& y.pen == u.pen
            &&& shows(y, s.row, s.col, f.push((c, style)))
        }),
{
    let y = after_step(u, Step::Put(c));
    let g = f.push((c, style));
    assert(y.grid == u.grid.update(u.row, row_written(u.grid[u.row], u.col, c, u.pen, taken(c))));
    lemma_span_positive(f);
    assert forall|i: int| 0 <= i < g.len() implies {
        let x = cell_at(y, s.row, s.col + span(#[trigger] g.take(i)));
        x.ch == g[i].0 && x.attr == look_of(g[i].1)
    } by {
        if i < f.len() {
            assert(g.take(i) =~= f.take(i));
            lemma_span_grows(f, i);
            assert(taken(f[i].0) > 0);
            let x = cell_at(u, s.row, s.col + span(f.take(i)));
            assert(x.ch == f[i].0);
        } else {
            assert(g.take(i) =~= f);
        }
    }
}

proof fn lemma_char(s: ScreenText, d: Drawing, f: Seq<(char, Style)>, style: Style, c: char)
    requires
        fits(s),
        s.rows <= 0xffff,
        s.cols <= 0xffff,
        right(s, d, f),
        taken(c) > 0,
        d.col + taken(c) <= s.cols,
    ensures
        right(s, char_drawn(d, s, style, c), f.push((c, style))),
{
    let e = char_drawn(d, s, style, c);
    let g = f.push((c, style));
    let u = after_steps(s, steps_of(d));
    let look = look_of(style);
    let mark = if d.style == Some(style) {
        seq![]
    } else {
        seq![Step::Look(look)]
    };
    let put = seq![Step::Put(c)];
    assert(steps_of(e) =~= steps_of(d) + mark + put);
    lemma_steps_join(s, steps_of(d) + mark, put);
    lemma_steps_join(s, steps_of(d), mark);
    let x = after_steps(u, mark);
    if d.style != Some(style) {
        lemma_one_step(u, Step::Look(look));
        lemma_look(u, look);
    }
    assert(x == (ScreenText { pen: look, ..u }));
    lemma_one_step(x, Step::Put(c));
    assert(shows(x, s.row, s.col, f)) by {
        assert forall|i: int| 0 <= i < f.len() implies {
            let a = cell_at(x, s.row, s.col + span(#[trigger] f.take(i)));
            a.ch == f[i].0 && a.attr == look_of(f[i].1)
        } by {
            let a = cell_at(u, s.row, s.col + span(f.take(i)));
            assert(a.ch == f[i].0);
        }
    }
    lemma_put(x, s, f, style, c);
    assert(g.drop_last() =~= f);
    assert(visible(g)) by {
        assert forall|i: int| 0 <= i < g.len() implies taken((#[trigger] g[i]).0) > 0 by {
            if i < f.len() {
                assert(g[i] == f[i]);
            }
        }
    }
}

proof fn lemma_text(s: ScreenText, d: Drawing, f: Seq<(char, Style)>, seg: Seg, n: int)
    requires
        fits(s),
        s.rows <= 0xffff,
        s.cols <= 0xffff,
        right(s, d, f),
        0 <= n <= seg.text.len(),
        visible(f + styled(seg, n)),
        s.col + span(f + styled(seg, n)) <= s.cols,
    ensures
        right(s, text_drawn(d, s, seg, n), f + styled(seg, n)),
    decreases n,
{
    let g = f + styled(seg, n);
    if n > 0 {
        let had = f + styled(seg, n - 1);
        let c = seg.text[n - 1];
        assert(g =~= had.push((c, seg.style)));
        assert(g.drop_last() =~= had);
        assert(visible(had)) by {
            assert forall|i: int| 0 <= i < had.len() implies taken((#[trigger] had[i]).0) > 0 by {
                assert(g[i] == had[i]);
            }
        }
        assert(taken(g[had.len() as int].0) > 0);
        lemma_text(s, d, f, seg, n - 1);
        lemma_char(s, text_drawn(d, s, seg, n - 1), had, seg.style, c);
    } else {
        assert(g =~= f);
    }
}

proof fn lemma_span_add(a: Seq<(char, Style)>, b: Seq<(char, Style)>)
    ensures
        span(a + b) == span(a) + span(b),
        span(b) >= 0,
    decreases b.len(),
{
    if b.len() > 0 {
        lemma_span_add(a, b.drop_last());
        assert((a + b).drop_last() =~= a + b.drop_last());
    } else {
        assert(a + b =~= a);
    }
}

proof fn lemma_parts(s: ScreenText, segs: Seq<Seg>, n: int)
    requires
        fits(s),
        s.rows <= 0xffff,
        s.cols <= 0xffff,
        0 <= n <= segs.len(),
        visible(all_styled(segs, n)),
        s.col + span(all_styled(segs, n)) <= s.cols,
    ensures
        right(s, parts_drawn(drawing_at(s), s, segs, n), all_styled(segs, n)),
    decreases n,
{
    let none: Seq<(char, Style)> = seq![];
    if n > 0 {
        let had = all_styled(segs, n - 1);
        let seg = segs[n - 1];
        let more = styled(seg, seg.text.len() as int);
        let all = all_styled(segs, n);
        lemma_span_add(had, more);
        assert(visible(had)) by {
            assert forall|i: int| 0 <= i < had.len() implies taken((#[trigger] had[i]).0) > 0 by {
                assert(all[i] == had[i]);
            }
        }
        lemma_parts(s, segs, n - 1);
        lemma_text(
            s,
            parts_drawn(drawing_at(s), s, segs, n - 1),
            had,
            seg,
            seg.text.len() as int,
        );
    } else {
        let d = drawing_at(s);
        assert(steps_of(d) =~= seq![Step::Move(s.row, s.col)]);
        lemma_one_step(s, Step::Move(s.row, s.col));
        lemma_move(s, s.row, s.col);
    }
}

/// What is drawn at the cursor is seen there: where it fits on the row, every character of it
/// stands behind the ones before it, in the look of its style.
pub proof fn law_what_is_drawn_is_seen(s: ScreenText, segs: Seq<Seg>)
    requires
        fits(s),
        s.rows <= 0xffff,
        s.cols <= 0xffff,
        visible(all_styled(segs, segs.len() as int)),
        s.col + span(all_styled(segs, segs.len() as int)) <= s.cols,
    ensures
        shows(
            after_steps(s, drawn(s, segs).out),
            s.row,
            s.col,
            all_styled(segs, segs.len() as int),
        ),
{
    let f = all_styled(segs, segs.len() as int);
    lemma_parts(s, segs, segs.len() as int);
    let d = parts_drawn(drawing_at(s), s, segs, segs.len() as int);
    if f.len() > 0 {
        assert(drawn(s, segs).out =~= steps_of(d));
    }
}

proof fn lemma_colour_put(s: ScreenText, c: int, style: Style, ch: char)
    requires
        fits(s),
        s.rows <= 0xffff,
        s.cols <= 0xffff,
        0 <= c,
        taken(ch) > 0,
        c + taken(ch) <= s.cols,
    ensures
        ({
            let v = seq![Step::Move(s.row, c), Step::Look(look_of(style)), Step::Put(ch)];
            let x = cell_at(after_steps(s, v), s.row, c);
            x.ch == ch && x.attr == look_of(style)
        }),
{
    let a = Step::Move(s.row, c);
    let b = Step::Look(look_of(style));
    let d = Step::Put(ch);
    let v = seq![a, b, d];
    assert(v =~= seq![a] + seq![b] + seq![d]);
    lemma_steps_join(s, seq![a] + seq![b], seq![d]);
    lemma_steps_join(s, seq![a], seq![b]);
    lemma_one_step(s, a);
    lemma_move(s, s.row, c);
    let t = after_step(s, a);
    lemma_one_step(t, b);
    lemma_look(t, look_of(style));
    let u = after_step(t, b);
    lemma_one_step(u, d);
    let y = after_step(u, d);
    assert(y.grid == u.grid.update(u.row, row_written(u.grid[u.row], u.col, ch, u.pen, taken(ch))));
}

/// The colour of the mode is seen as many columns behind the cursor as it is asked for: with
/// its mark in it, or with the character that stands there.
pub proof fn law_the_colour_is_seen(s: ScreenText, t: Tint)
    requires
        fits(s),
        s.rows <= 0xffff,
        s.cols <= 0xffff,
    ensures
        ({
            let at = s.col + t.offset;
            let had = cell_at(s, s.row, at);
            let x = cell_at(after_steps(s, tint_drawn(s, t).steps), s.row, at);
            &&& t.glyph is Some && taken(t.glyph->0) > 0 && at + taken(t.glyph->0) <= s.cols
                ==> x.ch == t.glyph->0 && x.attr == look_of(t.style)
            &&& t.glyph is None && had.width > 0 && taken(had.ch) > 0 && at + taken(had.ch) <= s.cols
                ==> x.ch == had.ch && x.attr == look_of(t.style)
            &&& at >= s.cols ==> tint_drawn(s, t).steps.len() == 0
        }),
{
    let at = s.col + t.offset;
    let had = cell_at(s, s.row, at);
    if t.glyph is Some {
        if taken(t.glyph->0) > 0 && at + taken(t.glyph->0) <= s.cols {
            lemma_colour_put(s, at, t.style, t.glyph->0);
        }
    } else if had.width > 0 && taken(had.ch) > 0 && at + taken(had.ch) <= s.cols {
        assert(char_start(s, s.row, at) == at);
        lemma_colour_put(s, at, t.style, had.ch);
    }
}

/// What has a line of its own gets the row below the cursor, or the one above it where the
/// cursor is on the last row, from the first column on. It never goes beyond that row.
pub proof fn law_a_line_of_its_own(s: ScreenText)
    requires
        fits(s),
    ensures
        s.row + 1 < s.rows ==> line_beside(s) is Some && (line_beside(s)->0).row == s.row + 1,
        s.row + 1 == s.rows && s.row > 0 ==> line_beside(s) is Some && (line_beside(s)->0).row
            == s.row - 1,
        s.rows == 1 ==> line_beside(s) is None,
        line_beside(s) is Some ==> ({
            let v = line_beside(s)->0;
            v.col == 0 && v.rows == v.row + 1 && v.cols == s.cols && v.grid == s.grid
        }),
{
}

/// A character that does not fit on its row is drawn at the start of the next one; below the
/// last row nothing is drawn any more.
pub proof fn law_drawing_goes_on_below(d: Drawing, s: ScreenText, style: Style, c: char)
    requires
        !d.full,
        0 < taken(c) <= s.cols,
        d.col + taken(c) > s.cols,
    ensures
        ({
            let e = char_drawn(d, s, style, c);
            &&& d.row + 1 < s.rows ==> e.row == d.row + 1 && e.start == 0 && e.col == taken(c)
                && !e.full && e.body == seq![Step::Look(look_of(style)), Step::Put(c)]
            &&& d.row + 1 >= s.rows ==> e.full && char_drawn(e, s, style, c) == e
            &&& e.painted == d.painted.push((d.row, d.start, d.col - d.start))
            &&& d.body.len() > 0 ==> e.out == d.out + (seq![Step::Move(d.row, d.start)] + d.body)
        }),
{
    let e = char_drawn(d, s, style, c);
    if d.row + 1 < s.rows {
        assert(e.body =~= seq![Step::Look(look_of(style)), Step::Put(c)]);
    }
}

/// A reading is bold and underlined, and reversed under the cursor; letters that wait are
/// green, the candidate in hand is red, what is only offered is dim, what is chosen in a list
/// is reversed. The modes have a background each.
pub proof fn law_styles_look_different(a: Style, b: Style)
    ensures
        look_of(a) == look_of(b) && a != b ==> (a == Style::ListItem && b == Style::Completion) || (a
            == Style::Completion && b == Style::ListItem),
        look_of(Style::Reading).flags == BOLD + UNDERLINE,
        look_of(Style::ReadingCursor).flags == BOLD + UNDERLINE + REVERSE,
        look_of(Style::Candidate).flags == BOLD + UNDERLINE,
        look_of(Style::Candidate).fg == Color::Indexed(1),
        look_of(Style::Romaji).fg == Color::Indexed(2),
        look_of(Style::ListItem).flags == DIM,
        look_of(Style::Completion).flags == DIM,
        look_of(Style::ListSelected).flags == REVERSE,
{
}

/// Rows and columns are written counted from one, the row first.
pub proof fn law_places_are_written_from_one(row: int, col: int)
    requires
        row >= 0,
        col >= 0,
    ensures
        step_text(Step::Move(row, col)) == "\x1b["@ + decimal((row + 1) as nat) + ";"@ + decimal(
            (col + 1) as nat,
        ) + "H"@,
        step_text(Step::Show(true)) == "\x1b[?25h"@,
        step_text(Step::Show(false)) == "\x1b[?25l"@,
{
    reveal_strlit(";");
    reveal_strlit("H");
    assert(";"@ =~= seq![';']);
    assert("H"@ =~= seq!['H']);
}

} // verus!
