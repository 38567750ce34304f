//! One run of the engine between a terminal and a program: what is written to which of them
//! when something happens.
//!
//! Nothing here reads or writes by itself. Whoever runs the session hands in what came, and
//! writes what comes out.
use vstd::prelude::*;
use vstd::string::*;
use crate::config::{Config, Marker};
use crate::display::preedit_of;
use crate::input::{
    all_bytes, bound_by, decoded, remembered, report_at, report_from, take_cursor_report,
    unfinished, Decoder, DecoderText, SeqTracker,
};
use crate::key::{key_bytes, key_texts, push_bytes, Key, KeyText};
use crate::machine::{handled, passing, reply_bytes, Mode, Phase, State};
use crate::manners::{free, law_letters_go_through};
use crate::render::{all_drawn, drawn_text, erased_text, restored_text, Overlay};
use crate::screen::{fresh, least, most, resized, Screen, ScreenText};
use crate::skk::Skk;
use crate::snippet::Now;
use crate::soundness::usable;
use crate::text::{lemma_take_next, opt_text};

verus! {

/// The shape and the colour of the cursor that stand for a mode. Unless a mark under the
/// cursor tells the mode, the shape alone does: a colour may get lost on its way.
pub open spec fn cursor_text(mode: Mode, marker: Marker) -> Seq<char> {
    match marker {
        Marker::Cell | Marker::Symbol => "\x1b[4 q\x1b]112\x07"@,
        Marker::Beside => match mode {
            Mode::Ascii => "\x1b[4 q\x1b]112\x07"@,
            Mode::Hiragana => "\x1b[2 q\x1b]112\x07"@,
            Mode::Katakana => "\x1b[6 q\x1b]112\x07"@,
            Mode::HankakuKatakana => "\x1b[5 q\x1b]112\x07"@,
            Mode::ZenkakuAscii => "\x1b[1 q\x1b]112\x07"@,
        },
        _ => match mode {
            Mode::Ascii => "\x1b[4 q\x1b]112\x07"@,
            Mode::Hiragana => "\x1b[2 q\x1b]12;#7fd75f\x07"@,
            Mode::Katakana => "\x1b[6 q\x1b]12;#5fd7ff\x07"@,
            Mode::HankakuKatakana => "\x1b[5 q\x1b]12;#5fafaf\x07"@,
            Mode::ZenkakuAscii => "\x1b[1 q\x1b]12;#d787ff\x07"@,
        },
    }
}

/// The shape and the colour of the cursor that stand for a mode.
pub fn cursor_indicator(mode: Mode, marker: Marker) -> (r: &'static str)
    ensures
        r@ == cursor_text(mode, marker),
{
    match marker {
        // A colour lies under the cursor, and a block would hide it.
        Marker::Cell | Marker::Symbol => "\x1b[4 q\x1b]112\x07",
        // A coloured box stands beside the cursor, which then needs no colour.
        Marker::Beside => match mode {
            Mode::Ascii => "\x1b[4 q\x1b]112\x07",
            Mode::Hiragana => "\x1b[2 q\x1b]112\x07",
            Mode::Katakana => "\x1b[6 q\x1b]112\x07",
            Mode::HankakuKatakana => "\x1b[5 q\x1b]112\x07",
            Mode::ZenkakuAscii => "\x1b[1 q\x1b]112\x07",
        },
        _ => match mode {
            Mode::Ascii => "\x1b[4 q\x1b]112\x07",
            Mode::Hiragana => "\x1b[2 q\x1b]12;#7fd75f\x07",
            Mode::Katakana => "\x1b[6 q\x1b]12;#5fd7ff\x07",
            Mode::HankakuKatakana => "\x1b[5 q\x1b]12;#5fafaf\x07",
            Mode::ZenkakuAscii => "\x1b[1 q\x1b]12;#d787ff\x07",
        },
    }
}

/// The bytes of a text.
pub open spec fn utf8(t: Seq<char>) -> Seq<u8> {
    vstd::utf8::encode_utf8(t)
}

/// What a session holds.
pub struct SessionText {
    pub engine: State,
    pub screen: ScreenText,
    /// What is drawn over the screen.
    pub painted: Seq<(int, int, int)>,
    pub decoder: DecoderText,
    /// What is unfinished of the program's output.
    pub tail: Seq<u8>,
    /// Something was drawn over the screen when the program's output came.
    pub had_overlay: bool,
    /// The terminal was asked where its cursor is.
    pub awaiting_report: bool,
    /// It is known where the cursor is.
    pub anchored: bool,
    /// The cursor shows the mode.
    pub shows_mode: bool,
    /// Something was written to the terminal.
    pub touched: bool,
    /// The cursor has to be made to show the mode again.
    pub cursor_dirty: bool,
    /// Something may have been learned since it was last saved.
    pub unsaved: bool,
}

/// The bytes that make the cursor show the mode.
#[verifier::opaque]
pub open spec fn cursor_bytes(s: SessionText) -> Seq<u8> {
    utf8(cursor_text(s.engine.mode, s.engine.cfg.mode_marker))
}

/// Whether there is something to show.
pub open spec fn shows_something(s: State) -> bool {
    let p = preedit_of(s);
    p.at_cursor.len() > 0 || p.floating.len() > 0 || p.cursor_tint is Some
}

/// Whether what is being typed can be drawn: there is something, it is known where, and the
/// program is not in the middle of a sequence.
pub open spec fn can_draw(s: SessionText) -> bool {
    shows_something(s.engine) && s.tail.len() == 0 && s.anchored
}

/// A session that has drawn what is being typed, and what was written for that.
#[verifier::opaque]
pub open spec fn with_drawing(s: SessionText) -> (SessionText, Seq<u8>) {
    if can_draw(s) {
        let d = all_drawn(s.screen, preedit_of(s.engine));
        (
            SessionText { painted: d.painted, touched: true, ..s },
            utf8(drawn_text(d.steps)) + utf8(restored_text(s.screen)),
        )
    } else if s.had_overlay && s.tail.len() == 0 {
        (s, utf8(restored_text(s.screen)))
    } else {
        (s, seq![])
    }
}

/// What takes the drawing away.
#[verifier::opaque]
pub open spec fn erasing(s: SessionText) -> Seq<u8> {
    utf8(erased_text(s.screen, s.painted, s.painted.len() as int))
}

/// A session that is about to pass the program's output on, and what is written before:
/// the program writes where it believes to be.
pub open spec fn before_output(s: SessionText) -> (SessionText, Seq<u8>) {
    let away = erasing(s);
    (
        SessionText { painted: seq![], had_overlay: s.painted.len() > 0, ..s },
        if away.len() > 0 {
            away + utf8(restored_text(s.screen))
        } else {
            seq![]
        },
    )
}

/// A session that has followed the program's output, and what is written: the output, and
/// then, unless it stops in the middle of something, the cursor and the drawing.
pub open spec fn after_output(s: SessionText, data: Seq<u8>) -> (SessionText, Seq<u8>) {
    let s1 = SessionText {
        tail: unfinished(remembered(s.tail + data)),
        cursor_dirty: s.cursor_dirty || s.screen.touched,
        screen: ScreenText { touched: false, ..s.screen },
        awaiting_report: false,
        ..s
    };
    let again = s1.cursor_dirty && s1.tail.len() == 0 && s1.shows_mode;
    let s2 = SessionText { cursor_dirty: s1.cursor_dirty && !again, ..s1 };
    let d = with_drawing(s2);
    (
        d.0,
        data + (if again {
            cursor_bytes(s2)
        } else {
            seq![]
        }) + d.1,
    )
}

/// What came of keys.
pub struct Typed {
    pub engine: State,
    pub to_child: Seq<u8>,
    pub mode_changed: bool,
    pub committed: bool,
    pub edit: Option<Seq<char>>,
}

/// `n` times the key that goes left.
pub open spec fn lefts(n: nat) -> Seq<u8>
    decreases n,
{
    if n == 0 {
        seq![]
    } else {
        lefts((n - 1) as nat) + seq![0x1bu8, 0x5bu8, 0x44u8]
    }
}

/// What comes of the first `n` keys. What is handed to the program goes out in the order of
/// the keys; after a snippet the cursor goes back to its place.
pub open spec fn typed(s: State, keys: Seq<KeyText>, n: int) -> Typed
    decreases n,
{
    if n <= 0 {
        Typed { engine: s, to_child: seq![], mode_changed: false, committed: false, edit: None }
    } else {
        let t = typed(s, keys, n - 1);
        let (engine, r) = handled(t.engine, keys[n - 1]);
        Typed {
            engine,
            to_child: t.to_child + reply_bytes(r) + lefts(r.cursor_back),
            mode_changed: t.mode_changed || r.mode_changed,
            committed: t.committed || r.commit.len() > 0,
            edit: if t.edit is Some {
                t.edit
            } else {
                r.edit_snippet
            },
        }
    }
}

/// A session that has taken the report of the cursor out of what came from the terminal, if
/// it waits for one.
#[verifier::opaque]
pub open spec fn report_taken(s: SessionText, data: Seq<u8>) -> (SessionText, Seq<u8>) {
    match report_from(data, 0) {
        Some(i) if s.awaiting_report => {
            let (pos, end) = report_at(data, i)->0;
            (
                SessionText {
                    screen: ScreenText {
                        row: least(pos.0, s.screen.rows - 1),
                        col: least(pos.1, s.screen.cols - 1),
                        wrap_pending: false,
                        ..s.screen
                    },
                    awaiting_report: false,
                    anchored: true,
                    ..s
                },
                data.take(i) + data.skip(end),
            )
        },
        _ => (s, data),
    }
}

/// What is written when something came from the terminal.
pub struct Sent {
    pub to_child: Seq<u8>,
    pub to_terminal: Seq<u8>,
    /// The reading under which a snippet is to be written.
    pub edit: Option<Seq<char>>,
}

/// A session that has taken what came from the terminal, and what is written.
pub open spec fn after_input(s: SessionText, data: Seq<u8>, now: Now) -> (SessionText, Sent) {
    let (s1, rest) = report_taken(s, data);
    let d = decoded(s1.decoder.bound, s1.decoder.pasting, s1.decoder.partial + rest);
    let t = typed(State { now, ..s1.engine }, d.keys, d.keys.len() as int);
    let away = erasing(s1);
    let turn = t.mode_changed && s1.shows_mode;
    let s2 = SessionText {
        engine: t.engine,
        decoder: DecoderText { partial: d.partial, pasting: d.pasting, ..s1.decoder },
        unsaved: s1.unsaved || t.committed,
        had_overlay: s1.painted.len() > 0,
        painted: seq![],
        cursor_dirty: s1.cursor_dirty || (turn && s1.tail.len() > 0),
        touched: s1.touched || (turn && s1.tail.len() == 0),
        ..s1
    };
    let r = with_drawing(s2);
    (
        r.0,
        Sent {
            to_child: t.to_child,
            to_terminal: away + (if turn && s1.tail.len() == 0 {
                cursor_bytes(s2)
            } else {
                seq![]
            }) + r.1,
            edit: t.edit,
        },
    )
}

/// What is written at the end: the drawing goes, and the cursor and the look are put back.
/// A terminal to which nothing was written is left alone.
pub open spec fn farewell_bytes(s: SessionText) -> Seq<u8> {
    if s.touched {
        erasing(s) + (if s.shows_mode {
            utf8("\x1b[0 q\x1b]112\x07"@)
        } else {
            seq![]
        }) + utf8("\x1b[0m\x1b[?25h"@)
    } else {
        seq![]
    }
}

/// A run of the engine.
pub struct Session {
    skk: Skk,
    screen: Screen,
    overlay: Overlay,
    decoder: Decoder,
    tracker: SeqTracker,
    mid_sequence: bool,
    had_overlay: bool,
    awaiting_report: bool,
    anchored: bool,
    shows_mode: bool,
    touched: bool,
    cursor_dirty: bool,
    unsaved: bool,
}

/// What is to be written when something came from the terminal.
pub struct Outgoing {
    pub to_child: Vec<u8>,
    pub to_terminal: Vec<u8>,
    /// The reading under which a snippet is to be written.
    pub edit: Option<String>,
}

impl View for Outgoing {
    type V = Sent;

    open spec fn view(&self) -> Sent {
        Sent {
            to_child: self.to_child@,
            to_terminal: self.to_terminal@,
            edit: opt_text(self.edit),
        }
    }
}

impl View for Session {
    type V = SessionText;

    closed spec fn view(&self) -> SessionText {
        SessionText {
            engine: self.skk@,
            screen: self.screen@,
            painted: self.overlay@,
            decoder: self.decoder@,
            tail: self.tracker@,
            had_overlay: self.had_overlay,
            awaiting_report: self.awaiting_report,
            anchored: self.anchored,
            shows_mode: self.shows_mode,
            touched: self.touched,
            cursor_dirty: self.cursor_dirty,
            unsaved: self.unsaved,
        }
    }
}

fn push_text(out: &mut Vec<u8>, t: &str)
    ensures
        final(out)@ == old(out)@ + utf8(t@),
{
    push_bytes(out, t.as_bytes());
}

impl Session {
    /// The parts are sound, and it is remembered whether the program stops in the middle of
    /// something.
    pub closed spec fn wf(&self) -> bool {
        &&& self.skk.wf()
        &&& self.screen.wf()
        &&& self.mid_sequence == (self.tracker@.len() > 0)
    }

    /// A session. Where the terminal has not told where its cursor is, the last row is the
    /// best guess, and nothing is drawn until it is known.
    pub fn new(skk: Skk, rows: usize, cols: usize, origin: Option<(usize, usize)>, shows_mode: bool)
        -> (r: Session)
        requires
            skk.wf(),
        ensures
            r.wf(),
            ({
                let blank = fresh(most(rows as int, 1), most(cols as int, 1));
                let (row, col) = match origin {
                    Some(p) => (p.0 as int, p.1 as int),
                    None => (blank.rows - 1, 0),
                };
                r@ == (SessionText {
                    engine: skk@,
                    screen: ScreenText {
                        row: least(row, blank.rows - 1),
                        col: least(col, blank.cols - 1),
                        ..blank
                    },
                    painted: seq![],
                    decoder: DecoderText {
                        partial: seq![],
                        bound: bound_by(skk@.cfg),
                        pasting: None,
                    },
                    tail: seq![],
                    had_overlay: false,
                    awaiting_report: false,
                    anchored: origin is Some,
                    shows_mode,
                    touched: shows_mode,
                    cursor_dirty: false,
                    unsaved: false,
                })
            }),
    {
        let mut screen = Screen::new(rows, cols);
        let (last, _) = screen.size();
        match origin {
            Some((row, col)) => {
                screen.set_cursor(row, col);
            },
            None => {
                screen.set_cursor(last - 1, 0);
            },
        }
        let decoder = Decoder::new(skk.config());
        let overlay = Overlay::new();
        let tracker = SeqTracker::new();
        assert(overlay@ =~= seq![]);
        assert(tracker@ =~= seq![]);
        Session {
            skk,
            screen,
            overlay,
            decoder,
            tracker,
            mid_sequence: false,
            had_overlay: false,
            awaiting_report: false,
            anchored: origin.is_some(),
            shows_mode,
            touched: shows_mode,
            cursor_dirty: false,
            unsaved: false,
        }
    }

    /// What is written at the start: the cursor shows the mode before anything is typed.
    pub fn greeting(&self) -> (r: Vec<u8>)
        ensures
            r@ == if self@.shows_mode {
                cursor_bytes(self@)
            } else {
                seq![]
            },
    {
        let mut out: Vec<u8> = Vec::new();
        if self.shows_mode {
            self.push_cursor(&mut out);
        }
        assert(out@ =~= if self@.shows_mode {
            cursor_bytes(self@)
        } else {
            seq![]
        });
        out
    }

    /// Writes what makes the cursor show the mode.
    fn push_cursor(&self, out: &mut Vec<u8>)
        ensures
            final(out)@ == old(out)@ + cursor_bytes(self@),
    {
        proof {
            reveal(cursor_bytes);
        }
        push_text(out, cursor_indicator(self.skk.mode(), self.skk.marker()));
    }

    /// Takes the drawing away.
    fn erase(&mut self) -> (r: Vec<u8>)
        requires
            old(self).wf(),
        ensures
            final(self).wf(),
            final(self)@ == (SessionText {
                painted: seq![],
                had_overlay: old(self)@.painted.len() > 0,
                ..old(self)@
            }),
            r@ == erasing(old(self)@),
    {
        proof {
            reveal(erasing);
        }
        self.had_overlay = !self.overlay.is_empty();
        let out = self.overlay.erase(&self.screen);
        assert(self.overlay@ =~= seq![]);
        out
    }

    /// Takes the report of the cursor out of what came, if one is waited for.
    fn take_report(&mut self, data: &[u8]) -> (r: Vec<u8>)
        requires
            old(self).wf(),
        ensures
            final(self).wf(),
            (final(self)@, r@) == report_taken(old(self)@, data@),
    {
        proof {
            reveal(report_taken);
        }
        if self.awaiting_report {
            if let Some((pos, left)) = take_cursor_report(data) {
                self.screen.set_cursor(pos.0, pos.1);
                self.awaiting_report = false;
                self.anchored = true;
                return left;
            }
        }
        let mut rest: Vec<u8> = Vec::new();
        push_bytes(&mut rest, data);
        assert(rest@ =~= data@);
        rest
    }

    /// Draws what is being typed, if it can be drawn.
    fn redraw(&mut self, out: &mut Vec<u8>)
        requires
            old(self).wf(),
        ensures
            final(self).wf(),
            final(self)@ == with_drawing(old(self)@).0,
            final(out)@ == old(out)@ + with_drawing(old(self)@).1,
    {
        proof {
            reveal(with_drawing);
        }
        let ghost s = self@;
        let ghost before = out@;
        let p = self.skk.preedit();
        if !p.is_empty() && !self.mid_sequence && self.anchored {
            let bytes = self.overlay.draw_preedit(&self.screen, &p);
            push_bytes(out, bytes.as_slice());
            let back = Overlay::restore_terminal(&self.screen);
            push_bytes(out, back.as_slice());
            self.touched = true;
            assert(out@ =~= before + with_drawing(s).1);
        } else if self.had_overlay && !self.mid_sequence {
            let back = Overlay::restore_terminal(&self.screen);
            push_bytes(out, back.as_slice());
            assert(out@ =~= before + with_drawing(s).1);
        } else {
            assert(out@ =~= before + with_drawing(s).1);
        }
    }

    /// Prepares for the program's output. What comes out is written before it.
    pub fn before_output(&mut self) -> (r: Vec<u8>)
        requires
            old(self).wf(),
        ensures
            final(self).wf(),
            (final(self)@, r@) == before_output(old(self)@),
    {
        let mut out = self.erase();
        if out.len() > 0 {
            let back = Overlay::restore_terminal(&self.screen);
            push_bytes(&mut out, back.as_slice());
        } else {
            assert(out@ =~= seq![]);
        }
        out
    }

    /// The copy of the screen, to follow the program's output with.
    pub fn screen_mut(&mut self) -> (r: &mut Screen)
        requires
            old(self).wf(),
        ensures
            r.wf(),
            r@ == old(self)@.screen,
            final(self)@ == (SessionText { screen: final(r)@, ..old(self)@ }),
            final(r).wf() ==> final(self).wf(),
    {
        &mut self.screen
    }

    /// The copy of the screen.
    pub fn screen(&self) -> (r: &Screen)
        requires
            self.wf(),
        ensures
            r.wf(),
            r@ == self@.screen,
    {
        &self.screen
    }

    /// The engine.
    pub fn skk_mut(&mut self) -> (r: &mut Skk)
        requires
            old(self).wf(),
        ensures
            r.wf(),
            r@ == old(self)@.engine,
            final(self)@ == (SessionText { engine: final(r)@, ..old(self)@ }),
            final(r).wf() ==> final(self).wf(),
    {
        &mut self.skk
    }

    /// Passes the program's output on, once the copy of the screen has followed it.
    pub fn after_output(&mut self, data: &[u8]) -> (r: Vec<u8>)
        requires
            old(self).wf(),
        ensures
            final(self).wf(),
            (final(self)@, r@) == after_output(old(self)@, data@),
    {
        let ghost s = self@;
        let mut out: Vec<u8> = Vec::new();
        push_bytes(&mut out, data);
        assert(out@ =~= data@);
        self.mid_sequence = self.tracker.feed(data);
        if self.screen.take_cursor_style_touched() {
            self.cursor_dirty = true;
        }
        self.awaiting_report = false;
        let ghost s1 = self@;
        assert(s1 == (SessionText {
            tail: unfinished(remembered(s.tail + data@)),
            cursor_dirty: s.cursor_dirty || s.screen.touched,
            screen: ScreenText { touched: false, ..s.screen },
            awaiting_report: false,
            ..s
        }));
        if self.cursor_dirty && !self.mid_sequence && self.shows_mode {
            self.push_cursor(&mut out);
            self.cursor_dirty = false;
            assert(cursor_bytes(self@) == cursor_bytes(s1)) by {
                reveal(cursor_bytes);
            }
        }
        let ghost again = s1.cursor_dirty && s1.tail.len() == 0 && s1.shows_mode;
        assert(out@ =~= data@ + (if again {
            cursor_bytes(self@)
        } else {
            seq![]
        }));
        self.redraw(&mut out);
        out
    }

    /// Takes what came from the terminal.
    pub fn on_input(&mut self, data: &[u8], now: Now) -> (r: Outgoing)
        requires
            old(self).wf(),
        ensures
            final(self).wf(),
            (final(self)@, r@) == after_input(old(self)@, data@, now),
    {
        let rest = self.take_report(data);
        let ghost s1 = self@;
        self.skk.set_now(now);
        let keys = self.decoder.feed(rest.as_slice());
        let ghost d = decoded(s1.decoder.bound, s1.decoder.pasting, s1.decoder.partial + rest@);
        let (to_child, mode_changed, committed, edit) = type_keys(&mut self.skk, &keys);
        let ghost t = typed(State { now, ..s1.engine }, d.keys, d.keys.len() as int);
        if committed {
            self.unsaved = true;
        }
        assert(erasing(self@) == erasing(s1)) by {
            reveal(erasing);
        }
        let mut out = self.erase();
        let ghost away = out@;
        let ghost turn = t.mode_changed && s1.shows_mode;
        if mode_changed && self.shows_mode {
            if self.mid_sequence {
                self.cursor_dirty = true;
            } else {
                self.push_cursor(&mut out);
                self.touched = true;
            }
        }
        assert(out@ =~= away + (if turn && s1.tail.len() == 0 {
            cursor_bytes(self@)
        } else {
            seq![]
        })) by {
            reveal(cursor_bytes);
        }
        self.redraw(&mut out);
        Outgoing { to_child, to_terminal: out, edit }
    }

    /// Follows a change of the terminal's size. What was drawn is forgotten, for its place
    /// means nothing any more, and the terminal is to be asked where its cursor is.
    pub fn on_resize(&mut self, rows: usize, cols: usize) -> (r: Vec<u8>)
        requires
            old(self).wf(),
        ensures
            final(self).wf(),
            final(self)@ == (SessionText {
                screen: resized(old(self)@.screen, most(rows as int, 1), most(cols as int, 1)),
                painted: seq![],
                awaiting_report: true,
                ..old(self)@
            }),
            r@ == utf8("\x1b[6n"@),
    {
        self.screen.resize(rows, cols);
        self.overlay.forget();
        assert(self.overlay@ =~= seq![]);
        self.awaiting_report = true;
        let mut out: Vec<u8> = Vec::new();
        push_text(&mut out, "\x1b[6n");
        assert(out@ =~= utf8("\x1b[6n"@));
        out
    }

    /// Follows a change of the setup.
    pub fn on_config(&mut self, cfg: Config)
        requires
            old(self).wf(),
            usable(cfg@),
        ensures
            final(self).wf(),
            final(self)@ == (SessionText {
                engine: State { cfg: cfg@, ..old(self)@.engine },
                decoder: DecoderText { bound: bound_by(cfg@), ..old(self)@.decoder },
                ..old(self)@
            }),
    {
        self.decoder.set_config(&cfg);
        self.skk.set_config(cfg);
    }

    /// Goes on after another program has used the screen: what was drawn is gone.
    pub fn after_editor(&mut self)
        requires
            old(self).wf(),
        ensures
            final(self).wf(),
            final(self)@ == (SessionText { painted: seq![], touched: true, ..old(self)@ }),
    {
        self.overlay = Overlay::new();
        assert(self.overlay@ =~= seq![]);
        self.touched = true;
    }

    /// Whether what was learned is to be saved now that nothing is typed.
    pub fn on_pause(&mut self) -> (r: bool)
        requires
            old(self).wf(),
        ensures
            final(self).wf(),
            r == old(self)@.unsaved,
            final(self)@ == (SessionText { unsaved: false, ..old(self)@ }),
    {
        let r = self.unsaved;
        self.unsaved = false;
        r
    }

    /// What is written at the end.
    pub fn farewell(&mut self) -> (r: Vec<u8>)
        requires
            old(self).wf(),
        ensures
            final(self).wf(),
            r@ == farewell_bytes(old(self)@),
            final(self)@ == if old(self)@.touched {
                SessionText { painted: seq![], ..old(self)@ }
            } else {
                old(self)@
            },
    {
        let ghost s = self@;
        if !self.touched {
            return Vec::new();
        }
        let had = self.had_overlay;
        let mut out = self.erase();
        self.had_overlay = had;
        if self.shows_mode {
            push_text(&mut out, "\x1b[0 q\x1b]112\x07");
        }
        push_text(&mut out, "\x1b[0m\x1b[?25h");
        assert(out@ =~= farewell_bytes(s));
        out
    }
}

/// Lets the engine take keys.
fn type_keys(skk: &mut Skk, keys: &Vec<Key>) -> (r: (Vec<u8>, bool, bool, Option<String>))
    requires
        old(skk).wf(),
    ensures
        final(skk).wf(),
        ({
            let t = typed(old(skk)@, key_texts(keys@), keys@.len() as int);
            &&& final(skk)@ == t.engine
            &&& r.0@ == t.to_child
            &&& r.1 == t.mode_changed
            &&& r.2 == t.committed
            &&& opt_text(r.3) == t.edit
        }),
{
    let ghost s = skk@;
    let ghost all = key_texts(keys@);
    let mut to_child: Vec<u8> = Vec::new();
    let mut mode_changed = false;
    let mut committed = false;
    let mut edit: Option<String> = None;
    let mut i: usize = 0;
    assert(to_child@ =~= seq![]);
    while i < keys.len()
        invariant
            i <= keys@.len(),
            all == key_texts(keys@),
            skk.wf(),
            skk@ == typed(s, all, i as int).engine,
            to_child@ == typed(s, all, i as int).to_child,
            mode_changed == typed(s, all, i as int).mode_changed,
            committed == typed(s, all, i as int).committed,
            opt_text(edit) == typed(s, all, i as int).edit,
        decreases keys.len() - i,
    {
        let ghost before = to_child@;
        assert(all[i as int] == keys@[i as int]@);
        let r = skk.handle(keys[i].copied());
        let bytes = r.to_child();
        push_bytes(&mut to_child, bytes.as_slice());
        let ghost most = to_child@;
        let mut k: usize = 0;
        assert(to_child@ =~= most + lefts(0));
        while k < r.cursor_back
            invariant
                k <= r.cursor_back,
                to_child@ == most + lefts(k as nat),
            decreases r.cursor_back - k,
        {
            to_child.push(0x1b);
            to_child.push(0x5b);
            to_child.push(0x44);
            k = k + 1;
            assert(to_child@ =~= most + lefts(k as nat));
        }
        if !r.commit.as_str().is_empty() {
            committed = true;
        }
        if r.mode_changed {
            mode_changed = true;
        }
        if edit.is_none() {
            edit = r.edit_snippet;
        }
        i = i + 1;
    }
    (to_child, mode_changed, committed, edit)
}

/// While the program is in the middle of a sequence nothing comes between: its output goes
/// to the terminal as it is.
pub proof fn law_nothing_comes_between(s: SessionText, data: Seq<u8>)
    requires
        unfinished(remembered(s.tail + data)).len() > 0,
    ensures
        after_output(s, data).1 == data,
{
    reveal(with_drawing);
    assert(after_output(s, data).1 =~= data);
}

/// Without the mark of the mode, and as long as nothing is being typed, not a byte is written
/// that the program has not written, and not a byte is left out.
pub proof fn law_nothing_is_written_by_itself(s: SessionText, data: Seq<u8>)
    requires
        s.painted.len() == 0,
        !s.shows_mode,
        !shows_something(s.engine),
    ensures
        ({
            let (s1, first) = before_output(s);
            let (s2, rest) = after_output(s1, data);
            &&& first.len() == 0
            &&& rest == data
            &&& s2.painted.len() == 0
            &&& s2.touched == s.touched
            &&& s2.engine == s.engine
        }),
{
    reveal(with_drawing);
    reveal(erasing);
    let (s1, first) = before_output(s);
    let (s2, rest) = after_output(s1, data);
    let none: Seq<char> = seq![];
    assert(erased_text(s.screen, s.painted, 0) =~= none);
    assert(utf8(none) =~= seq![]);
    assert(rest =~= data);
}

/// A terminal to which nothing was written is left alone at the end.
pub proof fn law_an_untouched_terminal_is_left_alone(s: SessionText)
    requires
        !s.touched,
    ensures
        farewell_bytes(s).len() == 0,
{
}

/// What is typed in the mode for letters reaches the program byte by byte, in order: no key
/// is lost, added or changed.
pub proof fn law_typed_letters_reach_the_program(s: State, keys: Seq<KeyText>, n: int)
    requires
        0 <= n <= keys.len(),
        s.regs.len() == 0,
        s.filling is None,
        s.mode == Mode::Ascii,
        s.phase == Phase::Direct,
        !s.sticky,
        forall|i: int| 0 <= i < n ==> free(s.cfg.kana, #[trigger] keys[i]),
    ensures
        ({
            let t = typed(s, keys, n);
            &&& t.to_child == all_bytes(keys.take(n))
            &&& !t.mode_changed
            &&& !t.committed
            &&& t.edit is None
            &&& t.engine.mode == Mode::Ascii
            &&& t.engine.phase == Phase::Direct
            &&& t.engine.regs == s.regs
            &&& t.engine.filling == s.filling
            &&& !t.engine.sticky
            &&& t.engine.cfg == s.cfg
            &&& t.engine.dict == s.dict
        }),
    decreases n,
{
    if n > 0 {
        law_typed_letters_reach_the_program(s, keys, n - 1);
        let t = typed(s, keys, n - 1);
        let k = keys[n - 1];
        law_letters_go_through(t.engine, k);
        let none: Seq<char> = seq![];
        assert(utf8(none) =~= seq![]);
        assert(reply_bytes(passing(k)) =~= key_bytes(k));
        lemma_take_next(keys, n - 1);
        lemma_bytes_push(keys.take(n - 1), k);
        assert(typed(s, keys, n).to_child =~= t.to_child + key_bytes(k));
    } else {
        assert(keys.take(0) =~= seq![]);
    }
}

proof fn lemma_bytes_push(v: Seq<KeyText>, k: KeyText)
    ensures
        all_bytes(v.push(k)) == all_bytes(v) + key_bytes(k),
    decreases v.len(),
{
    if v.len() > 0 {
        assert(v.push(k).skip(1) =~= v.skip(1).push(k));
        lemma_bytes_push(v.skip(1), k);
        assert(all_bytes(v.push(k)) =~= all_bytes(v) + key_bytes(k));
    } else {
        let none: Seq<KeyText> = seq![];
        assert(v.push(k).skip(1) =~= none);
        assert(v.push(k)[0] == k);
        assert(all_bytes(none) =~= seq![]);
        assert(all_bytes(v.push(k)) =~= key_bytes(k));
        assert(all_bytes(v) + key_bytes(k) =~= key_bytes(k));
    }
}

/// Where no mark under the cursor tells the mode, the shape of the cursor alone tells any two
/// modes apart.
pub proof fn law_shapes_tell_the_modes_apart(a: Mode, b: Mode, marker: Marker)
    requires
        a != b,
        marker != Marker::Cell,
        marker != Marker::Symbol,
    ensures
        cursor_text(a, marker).len() > 2,
        cursor_text(b, marker).len() > 2,
        cursor_text(a, marker)[2] != cursor_text(b, marker)[2],
{
    reveal_strlit("\x1b[4 q\x1b]112\x07");
    reveal_strlit("\x1b[2 q\x1b]112\x07");
    reveal_strlit("\x1b[6 q\x1b]112\x07");
    reveal_strlit("\x1b[5 q\x1b]112\x07");
    reveal_strlit("\x1b[1 q\x1b]112\x07");
    reveal_strlit("\x1b[2 q\x1b]12;#7fd75f\x07");
    reveal_strlit("\x1b[6 q\x1b]12;#5fd7ff\x07");
    reveal_strlit("\x1b[5 q\x1b]12;#5fafaf\x07");
    reveal_strlit("\x1b[1 q\x1b]12;#d787ff\x07");
}

} // verus!
