//! Draws what is being typed over the screen.
//!
//! Nothing is ever written into the program's own screen: the text is drawn from the cursor
//! on, and taken away by writing again what the copy of the screen holds there.
use vstd::prelude::*;
use vstd::string::*;
use crate::key::push_bytes;
use crate::display::{Seg, Shown};
use crate::machine::{Style, Tint};
use crate::screen::{cell_at, char_start, region_text, taken, Screen, ScreenText};
use crate::sgr::{move_text, move_to, plain, sgr_text, Attr, Color};
use crate::steps::{
    lemma_one_step_text, lemma_steps_show, lemma_text_joins, lemma_three_steps_text, steps_text,
    Step,
};
use crate::skk::{segs_of, Preedit, Segment};
use crate::text::{chars_of, lemma_take_next};
use crate::width::char_width;

verus! {

/// How a part of what is being typed looks.
pub open spec fn look_of(style: Style) -> Attr {
    let p = plain();
    match style {
        Style::Reading => Attr { flags: 0x09, ..p },
        Style::ReadingCursor => Attr { flags: 0x29, ..p },
        Style::Romaji => Attr { flags: 0x01, fg: Color::Indexed(2), ..p },
        Style::Candidate => Attr { flags: 0x09, fg: Color::Indexed(1), ..p },
        Style::ListItem => Attr { flags: 0x02, ..p },
        Style::ListSelected => Attr { flags: 0x20, ..p },
        Style::Completion => Attr { flags: 0x02, ..p },
        Style::ModeHiragana => Attr { fg: Color::Indexed(0), bg: Color::Indexed(113), ..p },
        Style::ModeKatakana => Attr { fg: Color::Indexed(0), bg: Color::Indexed(81), ..p },
        Style::ModeHankaku => Attr { fg: Color::Indexed(0), bg: Color::Indexed(73), ..p },
        Style::ModeZenkaku => Attr { fg: Color::Indexed(0), bg: Color::Indexed(177), ..p },
    }
}

/// How a part of what is being typed looks: a reading is bold and underlined, letters that
/// are no kana yet are green, the chosen candidate is red, and what is only offered is dim.
fn style_look(style: Style) -> (r: Attr)
    ensures
        r == look_of(style),
{
    let p = Attr::default();
    match style {
        Style::Reading => Attr { flags: 0x09, ..p },
        Style::ReadingCursor => Attr { flags: 0x29, ..p },
        Style::Romaji => Attr { flags: 0x01, fg: Color::Indexed(2), ..p },
        Style::Candidate => Attr { flags: 0x09, fg: Color::Indexed(1), ..p },
        Style::ListItem => Attr { flags: 0x02, ..p },
        Style::ListSelected => Attr { flags: 0x20, ..p },
        Style::Completion => Attr { flags: 0x02, ..p },
        Style::ModeHiragana => Attr { fg: Color::Indexed(0), bg: Color::Indexed(113), ..p },
        Style::ModeKatakana => Attr { fg: Color::Indexed(0), bg: Color::Indexed(81), ..p },
        Style::ModeHankaku => Attr { fg: Color::Indexed(0), bg: Color::Indexed(73), ..p },
        Style::ModeZenkaku => Attr { fg: Color::Indexed(0), bg: Color::Indexed(177), ..p },
    }
}

/// The sequence that sets how a part of what is being typed looks.
fn style_sgr(style: Style) -> (r: String)
    ensures
        r@ == sgr_text(look_of(style)),
{
    style_look(style).sgr()
}

/// What was drawn on one row: the row, the first column, and how many columns.
pub type Painted = (usize, usize, usize);

/// What was drawn.
pub open spec fn painted_of(v: Seq<Painted>) -> Seq<(int, int, int)> {
    v.map_values(|p: Painted| (p.0 as int, p.1 as int, p.2 as int))
}

/// A drawing that is being made.
pub struct Drawing {
    /// The rows that are done.
    pub out: Seq<Step>,
    pub painted: Seq<(int, int, int)>,
    pub row: int,
    pub col: int,
    /// The first column of this row.
    pub start: int,
    /// What is drawn on this row.
    pub body: Seq<Step>,
    pub style: Option<Style>,
    /// The screen has no more rows.
    pub full: bool,
}

/// A drawing that starts at the cursor.
pub open spec fn drawing_at(s: ScreenText) -> Drawing {
    Drawing {
        out: seq![],
        painted: seq![],
        row: s.row,
        col: s.col,
        start: s.col,
        body: seq![],
        style: None,
        full: false,
    }
}

/// The steps that draw one row; a row with nothing on it needs none.
pub open spec fn line_steps(row: int, start: int, body: Seq<Step>) -> Seq<Step> {
    if body.len() == 0 {
        seq![]
    } else {
        seq![Step::Move(row, start)] + body
    }
}

/// The drawing with this row done.
pub open spec fn row_done(d: Drawing) -> Drawing {
    Drawing {
        out: d.out + line_steps(d.row, d.start, d.body),
        painted: d.painted.push((d.row, d.start, d.col - d.start)),
        ..d
    }
}

/// The drawing at the start of the next row.
pub open spec fn next_row(d: Drawing, s: ScreenText) -> Drawing {
    Drawing {
        row: d.row + 1,
        col: 0,
        start: 0,
        body: seq![],
        style: None,
        full: d.row + 1 >= s.rows,
        ..row_done(d)
    }
}

/// The drawing with one character more. One that does not fit goes to the next row, and
/// below the last row nothing is drawn: the screen must not scroll.
pub open spec fn char_drawn(d: Drawing, s: ScreenText, style: Style, c: char) -> Drawing {
    let w = taken(c);
    if d.full || w == 0 {
        d
    } else {
        let e = if d.col + w > s.cols {
            next_row(d, s)
        } else {
            d
        };
        if e.full {
            e
        } else {
            Drawing {
                body: e.body + (if e.style == Some(style) {
                    seq![]
                } else {
                    seq![Step::Look(look_of(style))]
                }) + seq![Step::Put(c)],
                style: Some(style),
                col: e.col + w,
                ..e
            }
        }
    }
}

/// The drawing with the first `n` characters of a text more.
pub open spec fn text_drawn(d: Drawing, s: ScreenText, seg: Seg, n: int) -> Drawing
    decreases n,
{
    if n <= 0 {
        d
    } else {
        char_drawn(text_drawn(d, s, seg, n - 1), s, seg.style, seg.text[n - 1])
    }
}

/// The drawing with the first `n` parts more.
pub open spec fn parts_drawn(d: Drawing, s: ScreenText, segs: Seq<Seg>, n: int) -> Drawing
    decreases n,
{
    if n <= 0 {
        d
    } else {
        let before = parts_drawn(d, s, segs, n - 1);
        text_drawn(before, s, segs[n - 1], segs[n - 1].text.len() as int)
    }
}

/// The whole drawing.
pub open spec fn drawn(s: ScreenText, segs: Seq<Seg>) -> Drawing {
    let d = parts_drawn(drawing_at(s), s, segs, segs.len() as int);
    if d.body.len() > 0 && d.row < s.rows {
        row_done(d)
    } else {
        d
    }
}

/// What is written for a drawing; the cursor is hidden while it is drawn.
pub open spec fn drawn_text(steps: Seq<Step>) -> Seq<char> {
    if steps.len() == 0 {
        seq![]
    } else {
        steps_text(seq![Step::Show(false)] + steps)
    }
}

/// The steps that draw something, and where it is then.
pub struct Picture {
    pub steps: Seq<Step>,
    pub painted: Seq<(int, int, int)>,
}

/// A colour laid near the cursor: over a mark of its own, or over the character that is
/// there. Beyond the end of the row there is none.
pub open spec fn tint_drawn(s: ScreenText, t: Tint) -> Picture {
    let at = s.col + t.offset;
    let (c, ch) = match t.glyph {
        Some(g) => (at, g),
        None => {
            let c = char_start(s, s.row, at);
            (c, cell_at(s, s.row, c).ch)
        },
    };
    let w = taken(ch);
    if at >= s.cols || w == 0 || c + w > s.cols {
        Picture { steps: seq![], painted: seq![] }
    } else {
        Picture {
            steps: seq![Step::Move(s.row, c), Step::Look(look_of(t.style)), Step::Put(ch)],
            painted: seq![(s.row, c, w)],
        }
    }
}

/// A screen that ends with the row for what has a line of its own, and has its cursor at the
/// start of that row: the one below the cursor, or above it on the last row.
pub open spec fn line_beside(s: ScreenText) -> Option<ScreenText> {
    if s.row + 1 < s.rows {
        Some(ScreenText { row: s.row + 1, col: 0, rows: s.row + 2, ..s })
    } else if s.row > 0 {
        Some(ScreenText { row: s.row - 1, col: 0, rows: s.row, ..s })
    } else {
        None
    }
}

/// What has a line of its own, drawn on that line as far as it fits.
pub open spec fn line_drawn(s: ScreenText, segs: Seq<Seg>) -> Picture {
    match line_beside(s) {
        Some(v) => Picture { steps: drawn(v, segs).out, painted: drawn(v, segs).painted },
        None => Picture { steps: seq![], painted: seq![] },
    }
}

/// The colour near the cursor, if there is one.
pub open spec fn tint_or_nothing(s: ScreenText, t: Option<Tint>) -> Picture {
    match t {
        Some(t) => tint_drawn(s, t),
        None => Picture { steps: seq![], painted: seq![] },
    }
}

/// All that is shown of what is being typed: from the cursor on, near the cursor, and on a
/// line of its own.
pub open spec fn all_drawn(s: ScreenText, p: Shown) -> Picture {
    let d = drawn(s, p.at_cursor);
    let t = tint_or_nothing(s, p.cursor_tint);
    let l = line_drawn(s, p.floating);
    Picture { steps: d.out + t.steps + l.steps, painted: d.painted + t.painted + l.painted }
}

/// What takes the first `n` rows of a drawing away.
pub open spec fn erased_text(s: ScreenText, painted: Seq<(int, int, int)>, n: int) -> Seq<char>
    decreases n,
{
    if n <= 0 {
        seq![]
    } else {
        let p = painted[n - 1];
        erased_text(s, painted, n - 1) + region_text(s, p.0, p.1, p.2)
    }
}

/// What puts the terminal back to where the program left it.
pub open spec fn restored_text(s: ScreenText) -> Seq<char> {
    sgr_text(s.pen) + move_text(s.row, s.col) + (if s.cursor_visible {
        "\x1b[?25h"@
    } else {
        "\x1b[?25l"@
    })
}

/// The bytes of a text.
pub fn bytes_of(s: &String) -> (r: Vec<u8>)
    ensures
        r@ == vstd::utf8::encode_utf8(s@),
{
    let mut out: Vec<u8> = Vec::new();
    push_bytes(&mut out, s.as_str().as_bytes());
    assert(out@ =~= vstd::utf8::encode_utf8(s@));
    out
}

/// What is drawn over the screen.
pub struct Overlay {
    pub painted: Vec<Painted>,
}

impl View for Overlay {
    type V = Seq<(int, int, int)>;

    open spec fn view(&self) -> Seq<(int, int, int)> {
        painted_of(self.painted@)
    }
}

impl Default for Overlay {
    fn default() -> (r: Self)
        ensures
            r@.len() == 0,
    {
        Overlay { painted: Vec::new() }
    }
}

impl Overlay {
    /// Nothing is drawn.
    pub fn new() -> (r: Overlay)
        ensures
            r@.len() == 0,
    {
        Overlay::default()
    }

    /// Whether nothing is drawn.
    pub fn is_empty(&self) -> (r: bool)
        ensures
            r == (self@.len() == 0),
    {
        self.painted.len() == 0
    }

    /// Forgets what was drawn without taking it away.
    pub fn forget(&mut self)
        ensures
            final(self)@.len() == 0,
    {
        self.painted = Vec::new();
    }

    /// Takes away what was drawn, from the copy of the screen.
    pub fn erase(&mut self, screen: &Screen) -> (r: Vec<u8>)
        requires
            screen.wf(),
        ensures
            final(self)@.len() == 0,
            r@ == vstd::utf8::encode_utf8(
                erased_text(screen@, old(self)@, old(self)@.len() as int),
            ),
    {
        let ghost all = self@;
        let mut out = String::new();
        let mut i: usize = 0;
        while i < self.painted.len()
            invariant
                i <= self.painted@.len(),
                all == self@,
                screen.wf(),
                out@ == erased_text(screen@, all, i as int),
            decreases self.painted.len() - i,
        {
            let (row, col, len) = self.painted[i];
            assert(all[i as int] == (row as int, col as int, len as int));
            let region = screen.restore_region(row, col, len);
            out.append(region.as_str());
            i = i + 1;
        }
        self.painted = Vec::new();
        bytes_of(&out)
    }

    /// Draws parts of a text from the cursor on.
    pub fn draw(&mut self, screen: &Screen, segments: &[Segment]) -> (r: Vec<u8>)
        requires
            screen.wf(),
        ensures
            ({
                let d = drawn(screen@, segs_of(segments@));
                &&& final(self)@ == d.painted
                &&& r@ == vstd::utf8::encode_utf8(drawn_text(d.out))
            }),
    {
        let (rows, cols) = screen.size();
        let (row, col) = screen.cursor();
        let pen = draw_from(rows, cols, row, col, segments, Ghost(screen@));
        self.painted = pen.painted;
        hidden_while(pen.out, Ghost(pen.out_steps@))
    }

    /// Draws all that is shown of what is being typed.
    pub fn draw_preedit(&mut self, screen: &Screen, p: &Preedit) -> (r: Vec<u8>)
        requires
            screen.wf(),
        ensures
            ({
                let d = all_drawn(screen@, p@);
                &&& final(self)@ == d.painted
                &&& r@ == vstd::utf8::encode_utf8(drawn_text(d.steps))
            }),
    {
        let ghost s = screen@;
        let (rows, cols) = screen.size();
        let (row, col) = screen.cursor();
        let pen = draw_from(rows, cols, row, col, p.at_cursor.as_slice(), Ghost(s));
        let mut out = pen.out;
        let mut painted = pen.painted;
        let ghost first = drawn(s, p@.at_cursor);
        let (tint, tinted) = draw_tint(screen, &p.cursor_tint);
        let ghost t = tint_or_nothing(s, p@.cursor_tint);
        proof {
            lemma_text_joins(first.out, t.steps);
        }
        out.append(tint.as_str());
        add_painted(&mut painted, &tinted);
        let (line, lined) = draw_line(screen, p.floating.as_slice());
        let ghost l = line_drawn(s, p@.floating);
        proof {
            lemma_text_joins(first.out + t.steps, l.steps);
        }
        out.append(line.as_str());
        add_painted(&mut painted, &lined);
        self.painted = painted;
        hidden_while(out, Ghost(all_drawn(s, p@).steps))
    }

    /// Puts the terminal back to where the program left it.
    pub fn restore_terminal(screen: &Screen) -> (r: Vec<u8>)
        requires
            screen.wf(),
        ensures
            r@ == vstd::utf8::encode_utf8(restored_text(screen@)),
    {
        let (pen, shows) = screen.look();
        let (row, col) = screen.cursor();
        let (rows, cols) = screen.size();
        assert(row < rows && col < cols);
        let mut out = pen.sgr();
        let place = move_to(row, col);
        out.append(place.as_str());
        if shows {
            out.append("\x1b[?25h");
        } else {
            out.append("\x1b[?25l");
        }
        bytes_of(&out)
    }
}

/// The bytes of a drawing, during which the cursor is hidden.
fn hidden_while(out: String, Ghost(steps): Ghost<Seq<Step>>) -> (r: Vec<u8>)
    requires
        out@ == steps_text(steps),
    ensures
        r@ == vstd::utf8::encode_utf8(drawn_text(steps)),
{
    proof {
        lemma_steps_show(steps);
        lemma_text_joins(seq![Step::Show(false)], steps);
        lemma_one_step_text(Step::Show(false));
    }
    if out.as_str().is_empty() {
        return bytes_of(&out);
    }
    let mut text = "\x1b[?25l".to_owned();
    text.append(out.as_str());
    bytes_of(&text)
}

/// Adds to what was drawn.
fn add_painted(to: &mut Vec<Painted>, more: &Vec<Painted>)
    ensures
        painted_of(final(to)@) == painted_of(old(to)@) + painted_of(more@),
{
    let ghost first = painted_of(to@);
    let ghost all = painted_of(more@);
    let mut i: usize = 0;
    assert(painted_of(to@) =~= first + all.take(0));
    while i < more.len()
        invariant
            i <= more@.len(),
            all == painted_of(more@),
            painted_of(to@) == first + all.take(i as int),
        decreases more.len() - i,
    {
        let ghost had = painted_of(to@);
        let one = more[i];
        to.push(one);
        i = i + 1;
        proof {
            lemma_take_next(all, i - 1);
            assert(painted_of(to@) =~= had.push((one.0 as int, one.1 as int, one.2 as int)));
            assert(painted_of(to@) =~= first + all.take(i as int));
        }
    }
    assert(all.take(i as int) =~= all);
}

proof fn lemma_tint(s: ScreenText, t: Tint, c: int, ch: char)
    requires
        s.col + t.offset < s.cols,
        match t.glyph {
            Some(g) => c == s.col + t.offset && ch == g,
            None => c == char_start(s, s.row, s.col + t.offset) && ch == cell_at(s, s.row, c).ch,
        },
        taken(ch) != 0,
        c + taken(ch) <= s.cols,
    ensures
        steps_text(tint_drawn(s, t).steps) == move_text(s.row, c) + sgr_text(look_of(t.style))
            + seq![ch],
        tint_drawn(s, t).painted == seq![(s.row, c, taken(ch))],
{
    lemma_three_steps_text(Step::Move(s.row, c), Step::Look(look_of(t.style)), Step::Put(ch));
}

/// Draws the colour near the cursor.
fn draw_tint(screen: &Screen, tint: &Option<Tint>) -> (r: (String, Vec<Painted>))
    requires
        screen.wf(),
    ensures
        r.0@ == steps_text(tint_or_nothing(screen@, *tint).steps),
        painted_of(r.1@) == tint_or_nothing(screen@, *tint).painted,
{
    let ghost s = screen@;
    let ghost p = tint_or_nothing(s, *tint);
    let mut out = String::new();
    let mut painted: Vec<Painted> = Vec::new();
    assert(painted_of(painted@) =~= seq![]);
    assert(steps_text(seq![]) =~= seq![]);
    let t = match tint {
        Some(t) => *t,
        None => {
            return (out, painted);
        },
    };
    let (rows, cols) = screen.size();
    let (row, col) = screen.cursor();
    if t.offset >= cols - col {
        return (out, painted);
    }
    let at: usize = col + t.offset;
    let (c, ch) = match t.glyph {
        Some(g) => (at, g),
        None => {
            let c = screen.first_column(row, at);
            (c, screen.cell(row, c).ch)
        },
    };
    let w: usize = match char_width(ch) {
        Some(n) => n,
        None => 0,
    };
    if w == 0 || w > cols - c {
        return (out, painted);
    }
    let look = style_sgr(t.style);
    out = move_to(row, c);
    out.append(look.as_str());
    out.push(ch);
    let one: Painted = (row, c, w);
    painted.push(one);
    proof {
        lemma_tint(s, t, c as int, ch);
        assert(p == tint_drawn(s, t));
        assert(out@ =~= steps_text(p.steps));
        assert(painted_of(painted@) =~= p.painted);
    }
    (out, painted)
}

/// Draws what has a line of its own.
fn draw_line(screen: &Screen, segments: &[Segment]) -> (r: (String, Vec<Painted>))
    requires
        screen.wf(),
    ensures
        r.0@ == steps_text(line_drawn(screen@, segs_of(segments@)).steps),
        painted_of(r.1@) == line_drawn(screen@, segs_of(segments@)).painted,
{
    let ghost s = screen@;
    let (rows, cols) = screen.size();
    let (row, _) = screen.cursor();
    let line: usize = if row < rows - 1 {
        row + 1
    } else if row > 0 {
        row - 1
    } else {
        let none: Vec<Painted> = Vec::new();
        assert(painted_of(none@) =~= seq![]);
        assert(steps_text(seq![]) =~= seq![]);
        return (String::new(), none);
    };
    let pen = draw_from(line + 1, cols, line, 0, segments, Ghost(line_beside(s)->0));
    (pen.out, pen.painted)
}

/// Draws parts of a text from a place on.
fn draw_from(
    rows: usize,
    cols: usize,
    row: usize,
    col: usize,
    segments: &[Segment],
    Ghost(s): Ghost<ScreenText>,
) -> (r: Pen)
    requires
        rows == s.rows,
        cols == s.cols,
        row == s.row,
        col == s.col,
        row < rows,
        col < cols,
    ensures
        r.told(),
        r.out_steps@ == drawn(s, segs_of(segments@)).out,
        painted_of(r.painted@) == drawn(s, segs_of(segments@)).painted,
{
    let ghost segs = segs_of(segments@);
    let mut pen = Pen {
        out: String::new(),
        painted: Vec::new(),
        row,
        col,
        start: col,
        body: String::new(),
        style: None,
        full: false,
        out_steps: Ghost(Seq::empty()),
        body_steps: Ghost(Seq::empty()),
    };
    assert(pen@.painted =~= seq![]);
    let mut i: usize = 0;
    while i < segments.len()
        invariant
            i <= segments@.len(),
            segs == segs_of(segments@),
            rows == s.rows,
            cols == s.cols,
            pen.fit(s),
            pen@ == parts_drawn(drawing_at(s), s, segs, i as int),
        decreases segments.len() - i,
    {
        let ghost seg = segs[i as int];
        assert(seg == segments@[i as int]@);
        let ghost before = pen@;
        let style = segments[i].style;
        let chars = chars_of(segments[i].text.as_str());
        let mut j: usize = 0;
        while j < chars.len()
            invariant
                j <= chars@.len(),
                chars@ == seg.text,
                style == seg.style,
                rows == s.rows,
                cols == s.cols,
                pen.fit(s),
                pen@ == text_drawn(before, s, seg, j as int),
            decreases chars.len() - j,
        {
            pen.put(rows, cols, style, chars[j], Ghost(s));
            j = j + 1;
        }
        i = i + 1;
    }
    proof {
        lemma_steps_show(pen@.body);
    }
    if !pen.body.as_str().is_empty() && pen.row < rows {
        pen.finish_row();
    }
    assert(pen@ == drawn(s, segs));
    pen
}

/// A drawing that is being made.
struct Pen {
    out: String,
    painted: Vec<Painted>,
    row: usize,
    col: usize,
    start: usize,
    body: String,
    style: Option<Style>,
    full: bool,
    out_steps: Ghost<Seq<Step>>,
    body_steps: Ghost<Seq<Step>>,
}

impl View for Pen {
    type V = Drawing;

    closed spec fn view(&self) -> Drawing {
        Drawing {
            out: self.out_steps@,
            painted: painted_of(self.painted@),
            row: self.row as int,
            col: self.col as int,
            start: self.start as int,
            body: self.body_steps@,
            style: self.style,
            full: self.full,
        }
    }
}

impl Pen {
    /// What is written is what the steps write.
    spec fn told(&self) -> bool {
        self.out@ == steps_text(self.out_steps@) && self.body@ == steps_text(self.body_steps@)
    }

    /// The drawing is on the screen, unless the screen is full.
    spec fn fit(&self, s: ScreenText) -> bool {
        &&& self.told()
        &&& self.start <= self.col
        &&& self.start < s.cols <= usize::MAX
        &&& self.row <= s.rows <= usize::MAX
        &&& self.full == (self.row >= s.rows)
    }

    /// Writes this row out.
    fn finish_row(&mut self)
        requires
            old(self).told(),
            old(self).start <= old(self).col,
            old(self).start < usize::MAX,
            old(self).row < usize::MAX,
        ensures
            final(self).told(),
            final(self)@ == row_done(old(self)@),
    {
        let ghost was = self.painted@;
        let ghost d = self@;
        let len: usize = self.col - self.start;
        let p: Painted = (self.row, self.start, len);
        proof {
            lemma_steps_show(d.body);
            let first = seq![Step::Move(d.row, d.start)];
            lemma_text_joins(d.out, line_steps(d.row, d.start, d.body));
            lemma_text_joins(first, d.body);
            lemma_one_step_text(Step::Move(d.row, d.start));
        }
        if !self.body.as_str().is_empty() {
            let place = move_to(self.row, self.start);
            self.out.append(place.as_str());
            self.out.append(self.body.as_str());
        }
        self.painted.push(p);
        self.out_steps = Ghost(d.out + line_steps(d.row, d.start, d.body));
        proof {
            assert(self.out@ =~= steps_text(self.out_steps@));
            assert(painted_of(self.painted@) =~= painted_of(was).push(
                (p.0 as int, p.1 as int, p.2 as int),
            ));
        }
    }

    /// Draws one character.
    fn put(&mut self, rows: usize, cols: usize, style: Style, c: char, Ghost(s): Ghost<ScreenText>)
        requires
            old(self).fit(s),
            rows == s.rows,
            cols == s.cols,
        ensures
            final(self).fit(s),
            final(self)@ == char_drawn(old(self)@, s, style, c),
    {
        let w: usize = match char_width(c) {
            Some(n) => n,
            None => 0,
        };
        if self.full || w == 0 {
            return;
        }
        if self.col > cols || w > cols - self.col {
            self.finish_row();
            self.row = self.row + 1;
            self.col = 0;
            self.start = 0;
            self.body = String::new();
            self.body_steps = Ghost(Seq::empty());
            self.style = None;
            self.full = self.row >= rows;
            assert(self.body@ =~= steps_text(self.body_steps@));
            assert(self@ == next_row(old(self)@, s));
            if self.full {
                return;
            }
        }
        let ghost e = self@;
        let ghost text = self.body@;
        let mut shown = false;
        if let Some(now) = self.style {
            shown = now == style;
        }
        if !shown {
            let look = style_sgr(style);
            self.body.append(look.as_str());
            self.style = Some(style);
        }
        self.body.push(c);
        self.col = self.col + w;
        let ghost mark = if e.style == Some(style) {
            seq![]
        } else {
            seq![Step::Look(look_of(style))]
        };
        self.body_steps = Ghost(e.body + mark + seq![Step::Put(c)]);
        proof {
            lemma_text_joins(e.body + mark, seq![Step::Put(c)]);
            lemma_text_joins(e.body, mark);
            lemma_one_step_text(Step::Put(c));
            lemma_one_step_text(Step::Look(look_of(style)));
            assert(self.body@ =~= text + steps_text(mark) + seq![c]);
        }
    }
}

} // verus!
