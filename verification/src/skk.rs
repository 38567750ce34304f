//! The engine.
//!
//! Text that is not confirmed never leaves it: what is confirmed is in `Response::commit`,
//! what is being typed is shown by `Skk::preedit`, and the candidates by
//! `Skk::candidates`. A key that the engine has no use for comes back in
//! `Response::passthrough`.
use vstd::prelude::*;
use vstd::string::*;
pub use crate::key::{Key, PASTE_END, PASTE_START, SHIFT_TAB};
pub use crate::machine::{Mode, Phase, Style, Tint};
use crate::config::{Config, DynamicCompletion, Layout, Marker, OkuriMatch, Slot};
use crate::context::{clues_to, mention_texts, Context, Mention, ScreenText};
use crate::dict::{looked_up, utf8_text, Dict};
use crate::display::{
    candidate_segs, completion_segs, current_shown, direct_segs, fill_segs, label, letter_segs,
    list_segs, list_upto, mode_style, mode_symbol, pending_text, phase_floating, phase_segs,
    preedit_of, reading_segs, reading_tail, reg_segs, repeated, seg, seg_if, sticky_hint,
    suggestion_at_cursor, suggestion_floating, suggestion_list, tint_of, Seg, Shown,
};
use crate::filling::Filling;
use crate::jisyo::{cand_texts, Candidate};
use crate::key::{push_bytes, raw_bytes, KeyText};

use crate::machine::{
    all_flushed, among, auto_started, by_okuri, by_rank, candidate_committed, candidate_learned,
    candidates_for, captured, caught, choice_place, choice_turned, choices_added, choices_of,
    chooses, chosen, cleared, combined, commit_noted, completed, composing, composing_step,
    context_ranked, converting, current, deleted_at, deleted_before, direct, direct_dispatched,
    direct_step, dispatched, edited, edits, falling, falling_place, fed, fill_choices,
    filling_finished, filling_key, first_place, found_now, gathered, handled, has_choice, idle,
    initial, inserted, kana_mode, key_of, key_step, list_shown, next_index, not_among,
    offer_answered, offering, okuri_ordered, opened, orderable, page_end, page_start, passing,
    pasted_text, pending_flushed, picked, prefix_key, printable, purged, quiet, reading_backspaced,
    reading_confirmed, reading_typed, registering, registration_aborted, registration_finished,
    registration_key, reply_bytes, reset, resumed, saying, select_place, selecting, settled_in_slot,
    shaped, shown, shown_reading, silence, slot_added, slot_backspaced, slot_moved,
    starts_conversion, stepped_back, sticky_taken, suffix_key, suggested, suggestions, turning,
    typed_in_slot, unheaded, unselected, untailed, unwritten, with_buffer, with_reading,
    word_in_hand, written, Choice, Compl, Fill, Reg, Reply, State, COMPLETIONS, DYNAMIC_SHOWN,
};
use crate::num::{abstract_numbers, expand, numbers};
use crate::romaji::{flushed, to_hankaku_katakana, to_hiragana, to_katakana, to_zenkaku, Romaji};
use crate::snippet::{expand_variables, preview_placeholders, Now};
use crate::soundness::{
    law_flushing_keeps_the_state_sound, lemma_back_sound, lemma_committed_sound,
    lemma_dispatched_sound, lemma_fed, lemma_fill_sound, lemma_flush_sound, lemma_gathered,
    lemma_next_sound, lemma_page, lemma_ranked_sound, lemma_select_place, lemma_settled_sound,
    lemma_sticky_taken, lemma_suggestions_frame, sound, suggestions_extend, usable,
};
use crate::text::{
    char_text, chars_of, copy_chars, has_char, has_text, is_control, is_upper, joined,
    lemma_take_next, number_text, opt_text, slice_text, text_of, texts, to_capital, to_lower,
};

verus! {

/// A part of what is shown.
#[derive(Clone, Debug, PartialEq)]
pub struct Segment {
    pub style: Style,
    pub text: String,
}

impl View for Segment {
    type V = Seg;

    open spec fn view(&self) -> Seg {
        Seg { style: self.style, text: self.text@ }
    }
}

pub open spec fn segs_of(v: Seq<Segment>) -> Seq<Seg> {
    v.map_values(|s: Segment| s@)
}

/// The candidates while one is chosen, for a window of their own.
#[derive(Clone, Debug, PartialEq)]
pub struct CandidateView {
    pub items: Vec<CandidateItem>,
    pub selected: usize,
    /// The keys that choose from the list; as many as a page holds.
    pub select_keys: Vec<char>,
    /// How many candidates are shown one by one before the list.
    pub inline_until: usize,
}

/// One candidate as it is shown.
#[derive(Clone, Debug, PartialEq)]
pub struct CandidateItem {
    pub text: String,
    pub annotation: Option<String>,
}

/// All that is shown of what is being typed.
#[derive(Clone, Debug, PartialEq)]
pub struct Preedit {
    pub at_cursor: Vec<Segment>,
    /// For a line of its own.
    pub floating: Vec<Segment>,
    pub cursor_tint: Option<Tint>,
}

impl View for Preedit {
    type V = Shown;

    open spec fn view(&self) -> Shown {
        Shown {
            at_cursor: segs_of(self.at_cursor@),
            floating: segs_of(self.floating@),
            cursor_tint: self.cursor_tint,
        }
    }
}

impl Default for Preedit {
    /// Nothing is shown.
    fn default() -> (r: Self)
        ensures
            r@ == (Shown { at_cursor: seq![], floating: seq![], cursor_tint: None }),
    {
        let at_cursor: Vec<Segment> = Vec::new();
        let floating: Vec<Segment> = Vec::new();
        assert(segs_of(at_cursor@) =~= seq![]);
        assert(segs_of(floating@) =~= seq![]);
        Preedit { at_cursor, floating, cursor_tint: None }
    }
}

impl Preedit {
    /// Whether there is nothing to show.
    pub fn is_empty(&self) -> (r: bool)
        ensures
            r == (self@.at_cursor.len() == 0 && self@.floating.len() == 0
                && self@.cursor_tint is None),
    {
        self.at_cursor.len() == 0 && self.floating.len() == 0 && self.cursor_tint.is_none()
    }
}

/// What comes out of a key.
#[derive(Clone, Debug, PartialEq)]
pub struct Response {
    /// Text for the child.
    pub commit: String,
    /// The key itself, where the engine has no use for it.
    pub passthrough: Option<Key>,
    pub mode_changed: bool,
    /// How far the cursor goes back after the text.
    pub cursor_back: usize,
    /// The reading under which a snippet is to be written.
    pub edit_snippet: Option<String>,
}

pub open spec fn key_text(k: Option<Key>) -> Option<KeyText> {
    match k {
        Some(k) => Some(k@),
        None => None,
    }
}

impl View for Response {
    type V = Reply;

    open spec fn view(&self) -> Reply {
        Reply {
            commit: self.commit@,
            passthrough: key_text(self.passthrough),
            mode_changed: self.mode_changed,
            cursor_back: self.cursor_back as nat,
            edit_snippet: opt_text(self.edit_snippet),
        }
    }
}

impl Default for Response {
    fn default() -> (r: Self)
        ensures
            r@ == silence(),
    {
        let r = Response {
            commit: String::new(),
            passthrough: None,
            mode_changed: false,
            cursor_back: 0,
            edit_snippet: None,
        };
        assert(r.commit@ =~= seq![]);
        r
    }
}

impl Response {
    fn text(t: String) -> (r: Self)
        ensures
            r@ == saying(t@),
    {
        Response {
            commit: t,
            passthrough: None,
            mode_changed: false,
            cursor_back: 0,
            edit_snippet: None,
        }
    }

    fn key(k: Key) -> (r: Self)
        ensures
            r@ == passing(k@),
    {
        let r = Response {
            commit: String::new(),
            passthrough: Some(k),
            mode_changed: false,
            cursor_back: 0,
            edit_snippet: None,
        };
        assert(r.commit@ =~= seq![]);
        r
    }

    fn turned() -> (r: Self)
        ensures
            r@ == turning(),
    {
        let r = Response {
            commit: String::new(),
            passthrough: None,
            mode_changed: true,
            cursor_back: 0,
            edit_snippet: None,
        };
        assert(r.commit@ =~= seq![]);
        r
    }

    fn text_and_key(t: String, k: Key) -> (r: Self)
        ensures
            r@ == (Reply { passthrough: Some(k@), ..saying(t@) }),
    {
        Response {
            commit: t,
            passthrough: Some(k),
            mode_changed: false,
            cursor_back: 0,
            edit_snippet: None,
        }
    }

    /// The bytes for the child: the text, then the key.
    pub fn to_child(&self) -> (r: Vec<u8>)
        ensures
            r@ == reply_bytes(self@),
    {
        let mut out: Vec<u8> = Vec::new();
        push_bytes(&mut out, self.commit.as_str().as_bytes());
        if let Some(k) = &self.passthrough {
            let more = raw_bytes(k);
            push_bytes(&mut out, more.as_slice());
        }
        assert(out@ =~= reply_bytes(self@));
        out
    }

    fn with_cursor_back(self, back: usize) -> (r: Self)
        ensures
            r@ == (Reply { cursor_back: back as nat, ..self@ }),
    {
        Response {
            commit: self.commit,
            passthrough: self.passthrough,
            mode_changed: self.mode_changed,
            cursor_back: back,
            edit_snippet: self.edit_snippet,
        }
    }

    /// Whether nothing is handed out.
    pub fn is_empty(&self) -> (r: bool)
        ensures
            r == quiet(self@),
    {
        self.commit.as_str().is_empty() && self.passthrough.is_none()
    }
}

/// A word being registered.
struct Registration {
    key: String,
    buffer: String,
    reading: Vec<char>,
    okuri_head: Option<char>,
    okuri_kana: String,
    abbrev: bool,
    auto_suffix: String,
    offering_snippet: bool,
}

impl View for Registration {
    type V = Reg;

    closed spec fn view(&self) -> Reg {
        Reg {
            key: self.key@,
            buffer: self.buffer@,
            reading: self.reading@,
            okuri_head: self.okuri_head,
            okuri_kana: self.okuri_kana@,
            abbrev: self.abbrev,
            auto_suffix: self.auto_suffix@,
            offering_snippet: self.offering_snippet,
        }
    }
}

impl Registration {
    /// The word that is registered, as it is shown.
    fn label(&self) -> (r: String)
        ensures
            r@ == label(self@),
    {
        let reading = text_of(&self.reading);
        match self.okuri_head {
            Some(_) => {
                let head = joined(reading.as_str(), "*");
                joined(head.as_str(), self.okuri_kana.as_str())
            },
            None => reading,
        }
    }
}

/// A candidate and the reading it was found under.
struct Item {
    key: String,
    cand: Candidate,
}

impl View for Item {
    type V = Choice;

    closed spec fn view(&self) -> Choice {
        Choice { key: self.key@, cand: self.cand@ }
    }
}

spec fn items_of(v: Seq<Item>) -> Seq<Choice> {
    v.map_values(|c: Item| c@)
}

spec fn regs_of(v: Seq<Registration>) -> Seq<Reg> {
    v.map_values(|r: Registration| r@)
}

impl Item {
    fn copied(&self) -> (r: Item)
        ensures
            r@ == self@,
    {
        Item { key: self.key.clone(), cand: self.cand.copied() }
    }
}

/// A completion of the reading.
struct Completion {
    original: Vec<char>,
    words: Vec<String>,
    index: usize,
}

impl View for Completion {
    type V = Compl;

    closed spec fn view(&self) -> Compl {
        Compl { original: self.original@, words: texts(self.words@), index: self.index as int }
    }
}

/// The engine.
pub struct Skk {
    pub mode: Mode,
    phase: Phase,
    romaji: Romaji,
    reading: Vec<char>,
    read_cursor: usize,
    okuri_head: Option<char>,
    okuri_kana: String,
    abbrev: bool,
    sticky: bool,
    candidates: Vec<Item>,
    cand_index: usize,
    numbers: Vec<String>,
    dict_key: String,
    dict: Dict,
    cfg: Config,
    regs: Vec<Registration>,
    completion: Option<Completion>,
    suggestion: Vec<String>,
    last_commit: Option<(String, String)>,
    context: Option<Context>,
    context_note: Option<String>,
    fresh: bool,
    now: Now,
    filling: Option<Filling>,
    fill_suffix: String,
    auto_suffix: String,
}

spec fn compl_of(c: Option<Completion>) -> Option<Compl> {
    match c {
        Some(c) => Some(c@),
        None => None,
    }
}

spec fn fill_text(f: Option<Filling>) -> Option<Fill> {
    match f {
        Some(f) => Some(f@),
        None => None,
    }
}

spec fn last_of(p: Option<(String, String)>) -> Option<(Seq<char>, Seq<char>)> {
    match p {
        Some(p) => Some((p.0@, p.1@)),
        None => None,
    }
}

spec fn screen_of(c: Option<Context>) -> Option<ScreenText> {
    match c {
        Some(c) => Some(c@),
        None => None,
    }
}

impl View for Skk {
    type V = State;

    closed spec fn view(&self) -> State {
        State {
            mode: self.mode,
            phase: self.phase,
            waiting: self.romaji.waiting(),
            reading: self.reading@,
            cursor: self.read_cursor as int,
            okuri_head: self.okuri_head,
            okuri_kana: self.okuri_kana@,
            abbrev: self.abbrev,
            sticky: self.sticky,
            candidates: items_of(self.candidates@),
            cand_index: self.cand_index as int,
            numbers: texts(self.numbers@),
            dict_key: self.dict_key@,
            dict: self.dict@,
            cfg: self.cfg@,
            regs: regs_of(self.regs@),
            completion: compl_of(self.completion),
            suggestion: texts(self.suggestion@),
            last_commit: last_of(self.last_commit),
            context: screen_of(self.context),
            context_note: opt_text(self.context_note),
            fresh: self.fresh,
            now: self.now,
            filling: fill_text(self.filling),
            fill_suffix: self.fill_suffix@,
            auto_suffix: self.auto_suffix@,
        }
    }
}

impl Skk {
    /// The parts are in order, and the romaji follow the setup.
    spec fn rep(&self) -> bool {
        &&& self.romaji.wf()
        &&& self.romaji.azik_on() == self.cfg@.azik
        &&& self.romaji.marks() == self.cfg@.kutouten
        &&& self.dict.wf()
        &&& self.context is Some ==> self.context->0.wf()
        &&& self.filling is Some ==> self.filling->0.wf()
    }

    /// The parts are in order, and the state is sound.
    spec fn kept(&self) -> bool {
        self.rep() && sound(self@)
    }

    /// The parts are in order, the state is sound, and the completions that are shown go on
    /// after the reading.
    pub closed spec fn wf(&self) -> bool {
        self.kept() && suggestions_extend(self@)
    }

    /// What holds of the state of every engine.
    pub proof fn law_the_state_is_sound(&self)
        requires
            self.wf(),
        ensures
            sound(self@),
            suggestions_extend(self@),
    {
    }

    /// Ends the conversion.
    fn reset(&mut self)
        requires
            old(self).kept(),
        ensures
            final(self).kept(),
            final(self)@ == reset(old(self)@),
    {
        self.completion = None;
        self.phase = Phase::Direct;
        self.romaji.clear();
        self.reading = Vec::new();
        self.read_cursor = 0;
        self.okuri_head = None;
        self.okuri_kana = String::new();
        self.abbrev = false;
        self.candidates = Vec::new();
        self.cand_index = 0;
        self.numbers = Vec::new();
        self.dict_key = String::new();
        self.auto_suffix = String::new();
        proof {
            let want = reset(old(self)@);
            assert(self@.waiting =~= want.waiting);
            assert(self@.reading =~= want.reading);
            assert(self@.okuri_kana =~= want.okuri_kana);
            assert(self@.candidates =~= want.candidates);
            assert(self@.numbers =~= want.numbers);
            assert(self@.dict_key =~= want.dict_key);
            assert(self@.auto_suffix =~= want.auto_suffix);
        }
    }

    /// Puts `t` into the reading at the cursor.
    fn insert_reading(&mut self, t: &str)
        requires
            old(self).kept(),
        ensures
            final(self).kept(),
            final(self)@ == inserted(old(self)@, t@),
    {
        let more = chars_of(t);
        let n: usize = more.len();
        self.reading = spliced(&self.reading, self.read_cursor, &more);
        let total: usize = self.reading.len();
        assert(self.read_cursor + n <= total);
        self.read_cursor = self.read_cursor + n;
    }
}

/// `v` with `more` put in at `at`.
fn spliced(v: &Vec<char>, at: usize, more: &Vec<char>) -> (r: Vec<char>)
    requires
        at <= v@.len(),
    ensures
        r@ == v@.take(at as int) + more@ + v@.skip(at as int),
{
    let mut out: Vec<char> = Vec::new();
    let mut i: usize = 0;
    while i < at
        invariant
            i <= at <= v@.len(),
            out@ == v@.take(i as int),
        decreases at - i,
    {
        out.push(v[i]);
        i = i + 1;
        assert(out@ =~= v@.take(i as int));
    }
    let mut j: usize = 0;
    assert(out@ =~= v@.take(at as int) + more@.take(0));
    while j < more.len()
        invariant
            j <= more@.len(),
            at <= v@.len(),
            out@ == v@.take(at as int) + more@.take(j as int),
        decreases more.len() - j,
    {
        out.push(more[j]);
        j = j + 1;
        assert(out@ =~= v@.take(at as int) + more@.take(j as int));
    }
    let ghost head = out@;
    assert(head =~= v@.take(at as int) + more@);
    let mut i: usize = at;
    assert(out@ =~= head + v@.subrange(at as int, i as int));
    while i < v.len()
        invariant
            at <= i <= v@.len(),
            out@ == head + v@.subrange(at as int, i as int),
        decreases v.len() - i,
    {
        out.push(v[i]);
        i = i + 1;
        assert(out@ =~= head + v@.subrange(at as int, i as int));
    }
    assert(v@.subrange(at as int, v@.len() as int) =~= v@.skip(at as int));
    out
}


/// The character at `at` taken out of `v`.
fn without(v: &Vec<char>, at: usize) -> (r: Vec<char>)
    requires
        at < v@.len(),
    ensures
        r@ == v@.remove(at as int),
{
    let mut out: Vec<char> = Vec::new();
    let mut i: usize = 0;
    while i < v.len()
        invariant
            i <= v@.len(),
            at < v@.len(),
            out@ == if i <= at {
                v@.take(i as int)
            } else {
                v@.take(i as int).remove(at as int)
            },
        decreases v.len() - i,
    {
        if i != at {
            out.push(v[i]);
        }
        i = i + 1;
        proof {
            lemma_take_next(v@, i - 1);
            if i > at {
                assert(out@ =~= v@.take(i as int).remove(at as int));
            }
        }
    }
    assert(v@.take(i as int) =~= v@);
    out
}

impl Skk {
    /// Sets the reading, with the cursor at its end.
    fn set_reading(&mut self, t: Vec<char>)
        requires
            old(self).kept(),
        ensures
            final(self).kept(),
            final(self)@ == with_reading(old(self)@, t@),
    {
        self.reading = t;
        self.read_cursor = self.reading.len();
    }

    /// Deletes the character before the cursor. Returns whether there was one.
    fn delete_before_cursor(&mut self) -> (r: bool)
        requires
            old(self).kept(),
        ensures
            final(self).kept(),
            r == (old(self)@.cursor > 0),
            final(self)@ == deleted_before(old(self)@),
    {
        if self.read_cursor == 0 {
            return false;
        }
        self.read_cursor = self.read_cursor - 1;
        self.reading = without(&self.reading, self.read_cursor);
        true
    }

    /// Deletes the character at the cursor. Returns whether there was one.
    fn delete_at_cursor(&mut self) -> (r: bool)
        requires
            old(self).kept(),
        ensures
            final(self).kept(),
            r == (old(self)@.cursor < old(self)@.reading.len()),
            final(self)@ == deleted_at(old(self)@),
    {
        if self.read_cursor >= self.reading.len() {
            return false;
        }
        self.reading = without(&self.reading, self.read_cursor);
        true
    }

    /// Moves the cursor by one character; it stops at both ends.
    fn move_cursor(&mut self, forward: bool)
        requires
            old(self).kept(),
        ensures
            final(self).kept(),
            final(self)@ == (State {
                cursor: if forward {
                    if old(self)@.cursor < old(self)@.reading.len() {
                        old(self)@.cursor + 1
                    } else {
                        old(self)@.cursor
                    }
                } else if old(self)@.cursor > 0 {
                    old(self)@.cursor - 1
                } else {
                    0
                },
                ..old(self)@
            }),
    {
        if forward {
            if self.read_cursor < self.reading.len() {
                self.read_cursor = self.read_cursor + 1;
            }
        } else if self.read_cursor > 0 {
            self.read_cursor = self.read_cursor - 1;
        }
    }

    /// Whether the cursor is before the end of the reading.
    fn cursor_inside_reading(&self) -> (r: bool)
        ensures
            r == (self@.cursor < self@.reading.len()),
    {
        self.read_cursor < self.reading.len()
    }

    /// Types one character into the romaji.
    fn feed(&mut self, c: char) -> (r: String)
        requires
            old(self).kept(),
        ensures
            final(self).kept(),
            (final(self)@, r@) == fed(old(self)@, c),
    {
        proof {
            reveal(fed);
        }
        self.romaji.feed(c)
    }

    /// Ends the letters that wait.
    fn flush_pending(&mut self)
        requires
            old(self).kept(),
        ensures
            final(self).kept(),
            final(self)@ == pending_flushed(old(self)@),
    {
        proof {
            reveal(pending_flushed);
        }
        let t = self.romaji.flush();
        assert(self@ == (State { waiting: seq![], ..old(self)@ }));
        if t.as_str().is_empty() {
            return;
        }
        if self.okuri_head.is_some() {
            self.okuri_kana.append(t.as_str());
        } else {
            self.insert_reading(t.as_str());
        }
    }

    /// Kana as the mode writes them.
    fn shape(&self, kana: &str) -> (r: String)
        ensures
            r@ == shaped(self@.mode, kana@),
    {
        match self.mode {
            Mode::Katakana => to_katakana(kana),
            Mode::HankakuKatakana => to_hankaku_katakana(kana),
            _ => kana.to_owned(),
        }
    }

    /// A part of the reading as it is shown.
    fn shown_reading(&self, kana: &str) -> (r: String)
        ensures
            r@ == shown_reading(self@, kana@),
    {
        if self.abbrev {
            kana.to_owned()
        } else {
            self.shape(kana)
        }
    }

    /// Begins the registration of the reading.
    fn begin_registration(&mut self)
        requires
            old(self).kept(),
        ensures
            final(self).kept(),
            final(self)@ == registering(old(self)@),
    {
        proof {
            reveal(registering);
        }
        let reading = copy_chars(&self.reading);
        let reg = Registration {
            key: self.dict_key.clone(),
            buffer: String::new(),
            reading,
            okuri_head: self.okuri_head,
            okuri_kana: self.okuri_kana.clone(),
            abbrev: self.abbrev,
            auto_suffix: self.auto_suffix.clone(),
            offering_snippet: false,
        };
        let ghost had = regs_of(self.regs@);
        self.regs.push(reg);
        proof {
            assert(reg@.buffer =~= seq![]);
            assert(regs_of(self.regs@) =~= had.push(reg@));
        }
        self.reset();
    }

    /// The candidates of a reading as choices.
    fn items_for(&self, key: &str) -> (r: Vec<Item>)
        requires
            self.dict.wf(),
        ensures
            items_of(r@) == choices_of(key@, looked_up(self@.dict, key@)),
    {
        let cands = self.dict.lookup(key);
        let ghost all = cand_texts(cands@);
        let ghost want = choices_of(key@, all);
        let mut out: Vec<Item> = Vec::new();
        let mut i: usize = 0;
        assert(items_of(out@) =~= want.take(0));
        while i < cands.len()
            invariant
                i <= cands@.len(),
                all == cand_texts(cands@),
                want == choices_of(key@, all),
                items_of(out@) == want.take(i as int),
            decreases cands.len() - i,
        {
            let ghost had = items_of(out@);
            let c = Item { key: key.to_owned(), cand: cands[i].copied() };
            out.push(c);
            i = i + 1;
            proof {
                lemma_take_next(want, i - 1);
                assert(all[i - 1] == cands@[i - 1]@);
                assert(items_of(out@) =~= had.push(c@));
            }
        }
        assert(want.take(i as int) =~= want);
        out
    }

    /// The candidates of a reading, and of the reading with its numbers abstracted.
    fn find_candidates(&self, key: &str) -> (r: (Vec<Item>, Vec<String>))
        requires
            self.dict.wf(),
        ensures
            items_of(r.0@) == candidates_for(self@.dict, key@),
            texts(r.1@) == numbers(key@),
    {
        proof {
            reveal(candidates_for);
        }
        let mut out = self.items_for(key);
        let (abs, nums) = abstract_numbers(key);
        if !(*abs.as_str() == *key) {
            let more = self.dict.lookup(abs.as_str());
            let ghost first = items_of(out@);
            let ghost all = cand_texts(more@);
            let mut i: usize = 0;
            while i < more.len()
                invariant
                    i <= more@.len(),
                    all == cand_texts(more@),
                    items_of(out@) == choices_added(first, abs@, all, i as int),
                decreases more.len() - i,
            {
                let ghost had = items_of(out@);
                assert(all[i as int] == more@[i as int]@);
                if !has_item(&out, more[i].text.as_str()) {
                    let c = Item { key: abs.clone(), cand: more[i].copied() };
                    out.push(c);
                    assert(items_of(out@) =~= had.push(c@));
                }
                i = i + 1;
            }
        }
        (out, nums)
    }

    /// Orders choices by the okurigana.
    fn sort_by_okuri(&self, items: Vec<Item>) -> (r: Vec<Item>)
        requires
            self.dict.wf(),
        ensures
            items_of(r@) == okuri_ordered(self@, items_of(items@)),
    {
        proof {
            reveal(okuri_ordered);
            reveal(by_okuri);
        }
        if self.okuri_kana.as_str().is_empty() {
            return items;
        }
        let wanted = self.dict.okuri_candidates(self.dict_key.as_str(), self.okuri_kana.as_str());
        if wanted.len() == 0 {
            return items;
        }
        match self.cfg.okuri_match() {
            OkuriMatch::Off => items,
            OkuriMatch::First => {
                let ghost v = items_of(items@);
                let ghost ws = texts(wanted@);
                let mut out: Vec<Item> = Vec::new();
                let mut i: usize = 0;
                assert(items_of(out@) =~= seq![]);
                while i < wanted.len()
                    invariant
                        i <= wanted@.len(),
                        v == items_of(items@),
                        ws == texts(wanted@),
                        items_of(out@) == picked(v, ws, i as int),
                    decreases wanted.len() - i,
                {
                    let ghost had = items_of(out@);
                    let mut more = written_items(&items, wanted[i].as_str());
                    let ghost new = items_of(more@);
                    assert(ws[i as int] == wanted@[i as int]@);
                    out.append(&mut more);
                    assert(items_of(out@) =~= had + new);
                    i = i + 1;
                }
                let ghost had = items_of(out@);
                let mut rest = parted_items(&items, &wanted, false);
                let ghost new = items_of(rest@);
                out.append(&mut rest);
                assert(items_of(out@) =~= had + new);
                out
            },
            OkuriMatch::Only => {
                let only = parted_items(&items, &wanted, true);
                assert(items_of(only@).len() == only@.len());
                if only.len() > 0 {
                    only
                } else {
                    items
                }
            },
        }
    }

    /// Looks the candidates of the reading up.
    fn gather(&mut self)
        requires
            old(self).kept(),
            old(self)@.phase != Phase::Selecting,
        ensures
            final(self).kept(),
            final(self)@ == gathered(old(self)@),
    {
        proof {
            reveal(gathered);
        }
        let mut key = text_of(&self.reading);
        if let Some(h) = self.okuri_head {
            key.push(h);
        }
        assert(key@ == key_of(self@));
        let (found, nums) = self.find_candidates(key.as_str());
        self.dict_key = key;
        self.numbers = nums;
        let ordered = self.sort_by_okuri(found);
        self.candidates = ordered;
    }

    /// Begins the conversion of the reading. Without a candidate the word is registered.
    fn start_conversion(&mut self)
        requires
            old(self).kept(),
            old(self)@.phase != Phase::Selecting,
        ensures
            final(self).kept(),
            final(self)@ == converting(old(self)@),
    {
        proof {
            reveal(converting);
            lemma_flush_sound(self@);
        }
        self.flush_pending();
        self.read_cursor = self.reading.len();
        if self.reading.len() == 0 {
            return;
        }
        proof {
            lemma_gathered(self@);
        }
        self.gather();
        assert(self@.candidates.len() == self.candidates@.len());
        if self.candidates.len() == 0 {
            self.begin_registration();
            return;
        }
        self.cand_index = 0;
        self.phase = Phase::Selecting;
        self.fresh = true;
    }
}

/// Whether a candidate is written like one of the choices.
fn has_item(v: &Vec<Item>, text: &str) -> (r: bool)
    ensures
        r == has_choice(items_of(v@), text@),
{
    let mut i: usize = 0;
    while i < v.len()
        invariant
            i <= v@.len(),
            forall|j: int| 0 <= j < i ==> (#[trigger] items_of(v@)[j]).cand.text != text@,
        decreases v.len() - i,
    {
        assert(items_of(v@)[i as int] == v@[i as int]@);
        if *v[i].cand.text.as_str() == *text {
            assert(items_of(v@)[i as int].cand.text == text@);
            return true;
        }
        i = i + 1;
    }
    false
}

/// The choices written `text`.
fn written_items(v: &Vec<Item>, text: &str) -> (r: Vec<Item>)
    ensures
        items_of(r@) == items_of(v@).filter(written(text@)),
{
    let ghost keep = written(text@);
    let ghost all = items_of(v@);
    let mut out: Vec<Item> = Vec::new();
    let mut i: usize = 0;
    assert(items_of(out@) =~= all.take(0).filter(keep)) by {
        assert(all.take(0) =~= seq![]);
    }
    while i < v.len()
        invariant
            i <= v@.len(),
            keep == written(text@),
            all == items_of(v@),
            items_of(out@) == all.take(i as int).filter(keep),
        decreases v.len() - i,
    {
        broadcast use Seq::lemma_filter_push;

        let ghost had = items_of(out@);
        proof {
            lemma_take_next(all, i as int);
            assert(all[i as int] == v@[i as int]@);
        }
        if *v[i].cand.text.as_str() == *text {
            let c = v[i].copied();
            out.push(c);
            assert(items_of(out@) =~= had.push(c@));
        }
        i = i + 1;
    }
    assert(all.take(i as int) =~= all);
    out
}

/// The choices written otherwise than `text`.
fn unwritten_items(v: &Vec<Item>, text: &str) -> (r: Vec<Item>)
    ensures
        items_of(r@) == items_of(v@).filter(unwritten(text@)),
{
    let ghost keep = unwritten(text@);
    let ghost all = items_of(v@);
    let mut out: Vec<Item> = Vec::new();
    let mut i: usize = 0;
    assert(items_of(out@) =~= all.take(0).filter(keep)) by {
        assert(all.take(0) =~= seq![]);
    }
    while i < v.len()
        invariant
            i <= v@.len(),
            keep == unwritten(text@),
            all == items_of(v@),
            items_of(out@) == all.take(i as int).filter(keep),
        decreases v.len() - i,
    {
        broadcast use Seq::lemma_filter_push;

        let ghost had = items_of(out@);
        proof {
            lemma_take_next(all, i as int);
            assert(all[i as int] == v@[i as int]@);
        }
        if !(*v[i].cand.text.as_str() == *text) {
            let c = v[i].copied();
            out.push(c);
            assert(items_of(out@) =~= had.push(c@));
        }
        i = i + 1;
    }
    assert(all.take(i as int) =~= all);
    out
}

/// The choices written like one of `wanted`, or like none of them.
fn parted_items(v: &Vec<Item>, wanted: &Vec<String>, inside: bool) -> (r: Vec<Item>)
    ensures
        items_of(r@) == items_of(v@).filter(
            if inside {
                among(texts(wanted@))
            } else {
                not_among(texts(wanted@))
            },
        ),
{
    let ghost ws = texts(wanted@);
    let ghost keep = if inside {
        among(ws)
    } else {
        not_among(ws)
    };
    let ghost all = items_of(v@);
    let mut out: Vec<Item> = Vec::new();
    let mut i: usize = 0;
    assert(items_of(out@) =~= all.take(0).filter(keep)) by {
        assert(all.take(0) =~= seq![]);
    }
    while i < v.len()
        invariant
            i <= v@.len(),
            ws == texts(wanted@),
            keep == if inside {
                among(ws)
            } else {
                not_among(ws)
            },
            all == items_of(v@),
            items_of(out@) == all.take(i as int).filter(keep),
        decreases v.len() - i,
    {
        broadcast use Seq::lemma_filter_push;

        let ghost had = items_of(out@);
        proof {
            lemma_take_next(all, i as int);
            assert(all[i as int] == v@[i as int]@);
        }
        if has_text(wanted, v[i].cand.text.as_str()) == inside {
            let c = v[i].copied();
            out.push(c);
            assert(items_of(out@) =~= had.push(c@));
        }
        i = i + 1;
    }
    assert(all.take(i as int) =~= all);
    out
}


/// `t` without the marks of affixes at its end.
fn strip_tail(t: &str) -> (r: String)
    ensures
        r@ == untailed(t@),
{
    let v = chars_of(t);
    let mut n: usize = v.len();
    assert(v@.take(n as int) =~= v@);
    while n > 0 && v[n - 1] == '>'
        invariant
            n <= v@.len(),
            untailed(v@) == untailed(v@.take(n as int)),
        decreases n,
    {
        proof {
            lemma_take_next(v@, n - 1);
        }
        n = n - 1;
    }
    proof {
        if n > 0 {
            lemma_take_next(v@, n - 1);
        }
        assert(v@.subrange(0, n as int) =~= v@.take(n as int));
    }
    slice_text(&v, 0, n)
}

/// `t` without the marks of affixes at its start.
fn strip_head(t: &str) -> (r: String)
    ensures
        r@ == unheaded(t@),
{
    let v = chars_of(t);
    let mut n: usize = 0;
    assert(v@.skip(0) =~= v@);
    while n < v.len() && v[n] == '>'
        invariant
            n <= v@.len(),
            unheaded(v@) == unheaded(v@.skip(n as int)),
        decreases v.len() - n,
    {
        proof {
            crate::text::lemma_skip_next(v@, n as int);
        }
        n = n + 1;
    }
    proof {
        if n < v@.len() {
            crate::text::lemma_skip_next(v@, n as int);
        }
        assert(v@.subrange(n as int, v@.len() as int) =~= v@.skip(n as int));
    }
    slice_text(&v, n, v.len())
}

/// Whether a reading is that of a prefix.
fn is_prefix_key(k: &str) -> (r: bool)
    ensures
        r == prefix_key(k@),
{
    let v = chars_of(k);
    v.len() > 0 && v[v.len() - 1] == '>'
}

/// Whether a reading is that of a suffix.
fn is_suffix_key(k: &str) -> (r: bool)
    ensures
        r == suffix_key(k@),
{
    let v = chars_of(k);
    v.len() > 0 && v[0] == '>'
}

/// The reading and the text of two words confirmed one after the other.
fn combine(last: &(String, String), key: &str, text: &str) -> (r: Option<(String, String)>)
    ensures
        match r {
            Some(p) => combined((last.0@, last.1@), key@, text@) == Some((p.0@, p.1@)),
            None => combined((last.0@, last.1@), key@, text@) is None,
        },
{
    proof {
        reveal(combined);
    }
    let both = joined(last.1.as_str(), text);
    if both.as_str().is_empty() {
        return None;
    }
    let after_prefix = is_prefix_key(last.0.as_str());
    if after_prefix && !is_prefix_key(key) && !is_suffix_key(key) {
        let v = chars_of(last.0.as_str());
        let head = slice_text(&v, 0, v.len() - 1);
        assert(head@ =~= last.0@.drop_last());
        return Some((joined(head.as_str(), key), both));
    }
    if is_suffix_key(key) && !is_suffix_key(last.0.as_str()) && !after_prefix {
        let v = chars_of(key);
        let tail = slice_text(&v, 1, v.len());
        assert(tail@ =~= key@.skip(1));
        return Some((joined(last.0.as_str(), tail.as_str()), both));
    }
    None
}

impl Skk {
    /// Where the candidate in hand stands.
    fn current_candidate(&self) -> (r: Option<&Item>)
        ensures
            match r {
                Some(c) => current(self@) == Some(c@),
                None => current(self@) is None,
            },
    {
        if self.cand_index < self.candidates.len() {
            assert(items_of(self.candidates@)[self.cand_index as int]
                == self.candidates@[self.cand_index as int]@);
            Some(&self.candidates[self.cand_index])
        } else {
            None
        }
    }

    /// A candidate with its numbers and dates filled in.
    fn open_candidate(&self, c: &Item) -> (r: String)
        ensures
            r@ == opened(self@, c@),
    {
        proof {
            reveal(opened);
        }
        let t = expand(c.cand.text.as_str(), &self.numbers);
        expand_variables(t.as_str(), &self.now)
    }

    /// A candidate as it is shown.
    fn shown(&self, c: &Item) -> (r: String)
        requires
            self.dict.wf(),
        ensures
            r@ == shown(self@, c@),
    {
        proof {
            reveal(shown);
        }
        let mut t = self.open_candidate(c);
        if self.dict.is_snippet(c.key.as_str(), c.cand.text.as_str()) {
            t = preview_placeholders(t.as_str());
        }
        if is_prefix_key(c.key.as_str()) {
            strip_tail(t.as_str())
        } else if is_suffix_key(c.key.as_str()) {
            strip_head(t.as_str())
        } else {
            t
        }
    }

    /// Notes that a word was confirmed, and learns it together with the one before it.
    fn note_commit(&mut self, key: String, text: String, okuri: bool)
        requires
            old(self).kept(),
        ensures
            final(self).kept(),
            final(self)@ == commit_noted(old(self)@, key@, text@, okuri),
    {
        proof {
            reveal(commit_noted);
        }
        if self.cfg.learn_combined() && !okuri {
            let both: Option<(String, String)> = match &self.last_commit {
                Some(last) => combine(last, key.as_str(), text.as_str()),
                None => None,
            };
            if let Some((k, t)) = both {
                let cand = Candidate { text: t, annotation: None };
                self.dict.learn(k.as_str(), &cand);
            }
        }
        if okuri {
            self.last_commit = None;
        } else {
            self.last_commit = Some((key, text));
        }
    }

    /// Learns a candidate, and which okurigana it was chosen with.
    fn learn_candidate(&mut self, c: &Item)
        requires
            old(self).kept(),
        ensures
            final(self).kept(),
            final(self)@ == (State { dict: candidate_learned(old(self)@, c@), ..old(self)@ }),
    {
        proof {
            reveal(candidate_learned);
        }
        self.dict.learn(c.key.as_str(), &c.cand);
        if self.okuri_head.is_some() {
            self.dict.learn_okuri(
                c.key.as_str(),
                self.okuri_kana.as_str(),
                c.cand.text.as_str(),
            );
        }
    }

    /// Confirms the candidate in hand.
    fn commit_candidate(&mut self) -> (r: String)
        requires
            old(self).kept(),
        ensures
            final(self).kept(),
            (final(self)@, r@) == candidate_committed(old(self)@),
    {
        proof {
            reveal(candidate_committed);
        }
        let picked: Option<(Item, Option<Filling>, String)> = match self.current_candidate() {
            Some(c) => {
                let raw = self.open_candidate(c);
                proof {
                    lemma_fill_sound(raw@);
                }
                let filling = if self.dict.is_snippet(c.key.as_str(), c.cand.text.as_str()) {
                    Filling::new(raw.as_str())
                } else {
                    None
                };
                match filling {
                    Some(f) => Some((c.copied(), Some(f), raw)),
                    None => Some((c.copied(), None, self.shown(c))),
                }
            },
            None => None,
        };
        match picked {
            None => {
                self.reset();
                let t = String::new();
                assert(t@ =~= seq![]);
                t
            },
            Some((c, filling, text)) => {
                let okuri = self.okuri_head.is_some();
                self.learn_candidate(&c);
                let suffix = joined(self.okuri_kana.as_str(), self.auto_suffix.as_str());
                let key = self.dict_key.clone();
                self.note_commit(key, text.clone(), okuri);
                self.reset();
                match filling {
                    Some(f) => {
                        self.filling = Some(f);
                        self.fill_suffix = suffix;
                        let t = String::new();
                        assert(t@ =~= seq![]);
                        t
                    },
                    None => joined(text.as_str(), suffix.as_str()),
                }
            },
        }
    }

    /// Confirms the reading as it stands.
    fn confirm_reading(&mut self) -> (r: String)
        requires
            old(self).kept(),
            old(self)@.phase != Phase::Selecting,
        ensures
            final(self).kept(),
            (final(self)@, r@) == reading_confirmed(old(self)@),
    {
        proof {
            reveal(reading_confirmed);
            lemma_flush_sound(self@);
        }
        self.flush_pending();
        let reading = text_of(&self.reading);
        let body = self.shown_reading(reading.as_str());
        let t = joined(body.as_str(), self.okuri_kana.as_str());
        self.reset();
        t
    }

    /// A key while nothing is converted.
    fn direct_inner(&mut self, key: Key) -> (r: Response)
        requires
            old(self).kept(),
            old(self)@.phase == Phase::Direct,
        ensures
            final(self).kept(),
            (final(self)@, r@) == direct_step(old(self)@, key@),
    {
        proof {
            reveal(direct_step);
        }
        if !self.is_kana_mode() {
            if self.cfg.is(Slot::Kana, &key) {
                self.mode = Mode::Hiragana;
                return Response::turned();
            }
            if self.mode == Mode::ZenkakuAscii {
                if let Key::Char(c) = &key {
                    let t = char_text(to_zenkaku(*c));
                    return Response::text(t);
                }
            }
            return Response::key(key);
        }
        if self.cfg.is(Slot::Confirm, &key) {
            let t = self.romaji.flush();
            let shaped = self.shape(t.as_str());
            return Response::text(shaped);
        }
        if self.cfg.is(Slot::Cancel, &key) {
            self.romaji.clear();
            return Response::default();
        }
        if self.cfg.is(Slot::Backspace, &key) {
            if self.romaji.backspace() {
                return Response::default();
            }
            return Response::key(key);
        }
        let none = self.romaji.is_empty();
        if none && self.cfg.is(Slot::Ascii, &key) {
            self.mode = Mode::Ascii;
            return Response::turned();
        }
        if none && self.cfg.is(Slot::Zenkaku, &key) {
            self.mode = Mode::ZenkakuAscii;
            return Response::turned();
        }
        if none && self.cfg.is(Slot::HankakuKatakana, &key) {
            self.mode = if self.mode == Mode::HankakuKatakana {
                Mode::Hiragana
            } else {
                Mode::HankakuKatakana
            };
            return Response::turned();
        }
        if none && self.cfg.is(Slot::Katakana, &key) {
            self.mode = if self.mode == Mode::Hiragana {
                Mode::Katakana
            } else {
                Mode::Hiragana
            };
            return Response::turned();
        }
        if self.cfg.is(Slot::StartConversion, &key) {
            self.phase = Phase::Composing;
            self.romaji.clear();
            return Response::default();
        }
        if none && self.cfg.is(Slot::Abbrev, &key) {
            self.phase = Phase::Composing;
            self.abbrev = true;
            return Response::default();
        }
        if let Key::Char(c) = &key {
            if is_upper(*c) {
                self.phase = Phase::Composing;
                let kana = self.feed(to_lower(*c));
                self.insert_reading(kana.as_str());
                return Response::default();
            }
            let kana = self.feed(*c);
            proof {
                lemma_fed(old(self)@, *c);
            }
            let t = self.shape(kana.as_str());
            return Response::text(t);
        }
        let t = self.romaji.flush();
        let shaped = self.shape(t.as_str());
        Response::text_and_key(shaped, key)
    }

    fn is_kana_mode(&self) -> (r: bool)
        ensures
            r == kana_mode(self@.mode),
    {
        self.mode.is_kana()
    }

    /// A key while nothing is converted. What is handed out parts the words around it.
    fn handle_direct(&mut self, key: Key) -> (r: Response)
        requires
            old(self).kept(),
            old(self)@.phase == Phase::Direct,
        ensures
            final(self).kept(),
            (final(self)@, r@) == direct(old(self)@, key@),
    {
        proof {
            reveal(direct);
        }
        let r = self.direct_inner(key);
        if !r.is_empty() {
            self.last_commit = None;
        }
        r
    }
}

impl Mode {
    /// The modes that make kana.
    fn is_kana(&self) -> (r: bool)
        ensures
            r == kana_mode(*self),
    {
        match self {
            Mode::Hiragana => true,
            Mode::Katakana => true,
            Mode::HankakuKatakana => true,
            _ => false,
        }
    }
}


impl Skk {
    /// Takes a completion of the reading, the next or the previous one.
    fn step_completion(&mut self, forward: bool)
        requires
            old(self).kept(),
            old(self)@.phase == Phase::Composing,
        ensures
            final(self).kept(),
            final(self)@ == completed(old(self)@, forward),
    {
        proof {
            reveal(completed);
            lemma_flush_sound(self@);
        }
        if self.abbrev {
            return;
        }
        let word: String = match &mut self.completion {
            None => {
                self.flush_pending();
                let reading = text_of(&self.reading);
                let words = self.dict.complete(reading.as_str(), COMPLETIONS);
                assert(texts(words@).len() == words@.len());
                if words.len() == 0 {
                    return;
                }
                assert(texts(words@)[0] == words@[0]@);
                let word = words[0].clone();
                let original = copy_chars(&self.reading);
                self.completion = Some(Completion { original, words, index: 0 });
                word
            },
            Some(c) => {
                let n: usize = c.words.len();
                let index: usize = if forward {
                    if c.index + 1 < n {
                        c.index + 1
                    } else {
                        0
                    }
                } else if c.index > 0 {
                    c.index - 1
                } else {
                    n - 1
                };
                proof {
                    let i = c.index as int;
                    let m = n as int;
                    assert(index == if forward {
                        (i + 1) % m
                    } else {
                        (i + m - 1) % m
                    }) by (nonlinear_arith)
                        requires
                            0 <= i < m,
                            forward ==> index == if i + 1 < m {
                                i + 1
                            } else {
                                0
                            },
                            !forward ==> index == if i > 0 {
                                i - 1
                            } else {
                                m - 1
                            },
                    ;
                    assert(texts(c.words@)[index as int] == c.words@[index as int]@);
                }
                c.index = index;
                c.words[index].clone()
            },
        };
        let chars = chars_of(word.as_str());
        self.set_reading(chars);
    }

    /// Starts the conversion before the last of the kana, if that starts one.
    fn auto_start(&mut self, kana: &str) -> (r: bool)
        requires
            old(self).kept(),
            old(self)@.phase == Phase::Composing,
        ensures
            final(self).kept(),
            r == starts_conversion(old(self)@, kana@),
            final(self)@ == if r {
                auto_started(old(self)@, kana@)
            } else {
                old(self)@
            },
    {
        proof {
            reveal(auto_started);
        }
        let v = chars_of(kana);
        if v.len() == 0 {
            return false;
        }
        let last = v[v.len() - 1];
        if self.abbrev || !self.cfg.starts_henkan(last) {
            return false;
        }
        if self.reading.len() == 0 && v.len() == 1 {
            return false;
        }
        let head = slice_text(&v, 0, v.len() - 1);
        assert(head@ =~= kana@.drop_last());
        self.insert_reading(head.as_str());
        self.auto_suffix = char_text(last);
        self.start_conversion();
        true
    }

    /// A character while a reading is typed.
    fn type_reading(&mut self, c: char)
        requires
            old(self).kept(),
            old(self)@.phase == Phase::Composing,
        ensures
            final(self).kept(),
            final(self)@ == reading_typed(old(self)@, c),
    {
        proof {
            reveal(reading_typed);
        }
        if self.abbrev {
            let t = char_text(c);
            self.insert_reading(t.as_str());
            return;
        }
        if is_upper(c) && self.reading.len() > 0 {
            let low = to_lower(c);
            if self.okuri_head.is_none() {
                self.okuri_head = Some(low);
            }
            proof {
                lemma_fed(self@, low);
            }
            let kana = self.feed(low);
            if !kana.as_str().is_empty() {
                self.okuri_kana.append(kana.as_str());
                self.start_conversion();
            }
            return;
        }
        if is_upper(c) {
            let kana = self.feed(to_lower(c));
            self.insert_reading(kana.as_str());
            return;
        }
        proof {
            lemma_fed(self@, c);
        }
        let kana = self.feed(c);
        if self.okuri_head.is_some() {
            self.okuri_kana.append(kana.as_str());
            if !self.okuri_kana.as_str().is_empty() && self.romaji.is_empty() {
                self.start_conversion();
            }
            return;
        }
        if !self.auto_start(kana.as_str()) {
            self.insert_reading(kana.as_str());
        }
    }

    /// Deletes one character backwards while a reading is typed.
    fn backspace_reading(&mut self)
        requires
            old(self).kept(),
            old(self)@.phase == Phase::Composing,
        ensures
            final(self).kept(),
            final(self)@ == reading_backspaced(old(self)@),
    {
        proof {
            reveal(reading_backspaced);
        }
        if self.romaji.backspace() {
            return;
        }
        if self.cursor_inside_reading() {
            self.delete_before_cursor();
        } else if !self.okuri_kana.as_str().is_empty() {
            let v = chars_of(self.okuri_kana.as_str());
            self.okuri_kana = slice_text(&v, 0, v.len() - 1);
            assert(self.okuri_kana@ =~= old(self).okuri_kana@.drop_last());
        } else if self.okuri_head.is_some() {
            self.okuri_head = None;
        } else if !self.delete_before_cursor() {
            self.reset();
        }
    }

    /// A key that edits the reading, if it is one.
    fn edit_key(&mut self, key: &Key) -> (r: bool)
        requires
            old(self).kept(),
            old(self)@.phase == Phase::Composing,
        ensures
            final(self).kept(),
            r == edits(old(self)@.cfg, key@),
            final(self)@ == if r {
                edited(old(self)@, key@)
            } else {
                old(self)@
            },
    {
        proof {
            reveal(edited);
            lemma_flush_sound(self@);
        }
        if self.cfg.is(Slot::MoveLeft, key) {
            self.flush_pending();
            self.move_cursor(false);
            return true;
        }
        if self.cfg.is(Slot::MoveRight, key) {
            self.flush_pending();
            self.move_cursor(true);
            return true;
        }
        if self.cfg.is(Slot::MoveHome, key) {
            self.flush_pending();
            self.read_cursor = 0;
            return true;
        }
        if self.cfg.is(Slot::MoveEnd, key) {
            self.flush_pending();
            self.read_cursor = self.reading.len();
            return true;
        }
        if self.cfg.is(Slot::DeleteForward, key) {
            self.delete_at_cursor();
            return true;
        }
        if self.cfg.is(Slot::Backspace, key) {
            self.backspace_reading();
            return true;
        }
        false
    }

    /// A key while a reading is typed.
    fn composing_inner(&mut self, key: Key) -> (r: Response)
        requires
            old(self).kept(),
            old(self)@.phase == Phase::Composing,
        ensures
            final(self).kept(),
            (final(self)@, r@) == composing_step(old(self)@, key@),
    {
        proof {
            reveal(composing_step);
            lemma_flush_sound(self@);
        }
        if self.cfg.is(Slot::Cancel, &key) {
            let original: Option<Vec<char>> = match &self.completion {
                Some(c) => Some(copy_chars(&c.original)),
                None => None,
            };
            match original {
                Some(t) => {
                    self.completion = None;
                    self.set_reading(t);
                },
                None => {
                    self.reset();
                },
            }
            return Response::default();
        }
        if key.same(&Key::Enter) || self.cfg.is(Slot::Confirm, &key) {
            let t = self.confirm_reading();
            return Response::text(t);
        }
        if self.edit_key(&key) {
            return Response::default();
        }
        if self.cfg.is(Slot::Affix, &key) && self.reading.len() > 0 && self.okuri_head.is_none()
            && !self.abbrev {
            self.flush_pending();
            self.reading.push('>');
            self.start_conversion();
            return Response::default();
        }
        if self.cfg.is(Slot::Complete, &key) {
            self.step_completion(true);
            return Response::default();
        }
        if self.cfg.is(Slot::CompletePrevious, &key) {
            self.step_completion(false);
            return Response::default();
        }
        if self.cfg.is(Slot::Convert, &key) {
            self.completion = None;
            self.start_conversion();
            return Response::default();
        }
        if !self.abbrev && self.cfg.is(Slot::HankakuKatakana, &key) {
            self.flush_pending();
            let reading = text_of(&self.reading);
            let a = to_hankaku_katakana(reading.as_str());
            let b = to_hankaku_katakana(self.okuri_kana.as_str());
            let t = joined(a.as_str(), b.as_str());
            self.reset();
            return Response::text(t);
        }
        if self.okuri_head.is_none() && !self.abbrev && self.cfg.is(Slot::Katakana, &key) {
            let katakana = self.mode == Mode::Katakana;
            self.flush_pending();
            let reading = text_of(&self.reading);
            let t = if katakana {
                to_hiragana(reading.as_str())
            } else {
                to_katakana(reading.as_str())
            };
            self.reset();
            return Response::text(t);
        }
        if let Key::Char(c) = &key {
            self.type_reading(*c);
            return Response::default();
        }
        let t = self.confirm_reading();
        Response::text_and_key(t, key)
    }

    /// A key while a reading is typed. Any other key than those for completions ends them.
    fn handle_composing(&mut self, key: Key) -> (r: Response)
        requires
            old(self).kept(),
            old(self)@.phase == Phase::Composing,
        ensures
            final(self).kept(),
            (final(self)@, r@) == composing(old(self)@, key@),
    {
        proof {
            reveal(composing);
        }
        let keep = self.cfg.is(Slot::Complete, &key) || self.cfg.is(Slot::CompletePrevious, &key)
            || self.cfg.is(Slot::Cancel, &key);
        let r = self.composing_inner(key);
        if !keep {
            self.completion = None;
        }
        r
    }
}


/// The first place of `c` among the keys that choose from the list.
fn place_of(v: &Vec<char>, c: char) -> (r: usize)
    ensures
        r == select_place(v@, c),
{
    let mut i: usize = 0;
    assert(v@.skip(0) =~= v@);
    while i < v.len() && v[i] != c
        invariant
            i <= v@.len(),
            select_place(v@, c) == i + select_place(v@.skip(i as int), c),
        decreases v.len() - i,
    {
        proof {
            crate::text::lemma_skip_next(v@, i as int);
        }
        i = i + 1;
    }
    proof {
        if i < v@.len() {
            crate::text::lemma_skip_next(v@, i as int);
        }
    }
    i
}

impl Skk {
    /// Whether the list of candidates is shown.
    fn list_visible(&self) -> (r: bool)
        ensures
            r == list_shown(self@),
    {
        self.cand_index >= self.cfg.inline_candidates()
    }

    /// The page of the list: where it starts and where it ends.
    fn page_range(&self) -> (r: (usize, usize))
        requires
            self.kept(),
            self@.phase == Phase::Selecting,
            list_shown(self@),
        ensures
            r.0 == page_start(self@),
            r.1 == page_end(self@),
    {
        proof {
            lemma_page(self@);
            reveal(page_start);
            reveal(page_end);
        }
        let inline: usize = self.cfg.inline_candidates();
        let size: usize = self.cfg.page_size();
        let d: usize = self.cand_index - inline;
        proof {
            let x = d as int;
            let y = size as int;
            assert(0 <= x / y * y <= x) by (nonlinear_arith)
                requires
                    x >= 0,
                    y > 0,
            ;
        }
        let start: usize = inline + d / size * size;
        let n: usize = self.candidates.len();
        assert(self@.candidates.len() == n);
        let end: usize = if n - start <= size {
            n
        } else {
            start + size
        };
        (start, end)
    }

    /// Goes on to the next candidate. Returns whether there was none.
    fn next_candidate(&mut self) -> (r: bool)
        requires
            old(self).kept(),
            old(self)@.phase == Phase::Selecting,
        ensures
            final(self).kept(),
            r == (next_index(old(self)@) is None),
            final(self)@ == match next_index(old(self)@) {
                Some(i) => State { cand_index: i, ..old(self)@ },
                None => old(self)@,
            },
    {
        proof {
            reveal(next_index);
            lemma_next_sound(self@);
        }
        let inline: usize = self.cfg.inline_candidates();
        let n: usize = self.candidates.len();
        assert(self@.candidates.len() == n);
        if self.cand_index + 1 < inline {
            if self.cand_index + 1 >= n {
                return true;
            }
            self.cand_index = self.cand_index + 1;
            return false;
        }
        if !self.list_visible() {
            if n > inline {
                self.cand_index = inline;
                return false;
            }
            return true;
        }
        let (_, end) = self.page_range();
        if end < n {
            self.cand_index = end;
            return false;
        }
        true
    }

    /// Back from ▼ to ▽.
    fn unselect(&mut self)
        requires
            old(self).kept(),
        ensures
            final(self).kept(),
            final(self)@ == unselected(old(self)@),
    {
        self.phase = Phase::Composing;
        self.candidates = Vec::new();
        self.cand_index = 0;
        assert(items_of(self.candidates@) =~= seq![]);
    }

    /// Goes back to the previous candidate.
    fn prev_candidate(&mut self)
        requires
            old(self).kept(),
            old(self)@.phase == Phase::Selecting,
        ensures
            final(self).kept(),
            final(self)@ == stepped_back(old(self)@),
    {
        proof {
            reveal(stepped_back);
            lemma_back_sound(self@);
        }
        if self.cand_index == 0 {
            self.unselect();
            return;
        }
        if !self.list_visible() {
            self.cand_index = self.cand_index - 1;
            return;
        }
        proof {
            lemma_page(self@);
        }
        let inline: usize = self.cfg.inline_candidates();
        let size: usize = self.cfg.page_size();
        let (start, _) = self.page_range();
        if start == inline {
            self.cand_index = inline - 1;
        } else if start > size && start - size > inline {
            self.cand_index = start - size;
        } else {
            self.cand_index = inline;
        }
    }

    /// Throws the candidate in hand out.
    fn purge_candidate(&mut self)
        requires
            old(self).kept(),
            old(self)@.phase == Phase::Selecting,
        ensures
            final(self).kept(),
            final(self)@ == purged(old(self)@),
    {
        proof {
            reveal(purged);
        }
        let c: Item = match self.current_candidate() {
            Some(c) => c.copied(),
            None => {
                return;
            },
        };
        self.dict.purge(c.key.as_str(), c.cand.text.as_str());
        let left = unwritten_items(&self.candidates, c.cand.text.as_str());
        self.candidates = left;
        assert(self@.candidates.len() == self.candidates@.len());
        if self.candidates.len() == 0 {
            self.phase = Phase::Composing;
            self.cand_index = 0;
        } else if self.cand_index >= self.candidates.len() {
            self.cand_index = self.candidates.len() - 1;
        }
    }

    /// Keeps a key that stands for Shift, or applies the one that was kept.
    fn take_sticky(&mut self, key: Key) -> (r: Option<Key>)
        requires
            old(self).kept(),
        ensures
            final(self).kept(),
            (final(self)@, key_text(r)) == sticky_taken(old(self)@, key@),
    {
        proof {
            reveal(sticky_taken);
        }
        if self.sticky {
            self.sticky = false;
            return match key {
                Key::Char(c) => Some(Key::Char(to_capital(c))),
                k => Some(k),
            };
        }
        if self.is_kana_mode() && !self.abbrev && self.cfg.is(Slot::Sticky, &key) {
            self.sticky = true;
            return None;
        }
        Some(key)
    }

    /// A key while nothing is converted, with regard to Shift pressed ahead.
    fn dispatch_direct(&mut self, key: Key) -> (r: Response)
        requires
            old(self).kept(),
            old(self)@.phase == Phase::Direct,
        ensures
            final(self).kept(),
            (final(self)@, r@) == direct_dispatched(old(self)@, key@),
    {
        proof {
            reveal(direct_dispatched);
            lemma_sticky_taken(self@, key@);
        }
        match self.take_sticky(key) {
            None => Response::default(),
            Some(k) => self.handle_direct(k),
        }
    }

    /// A key that chooses from the list, if it is one.
    fn select_key(&mut self, key: &Key) -> (r: Option<Response>)
        requires
            old(self).kept(),
            old(self)@.phase == Phase::Selecting,
        ensures
            final(self).kept(),
            r is Some <==> chooses(old(self)@, key@),
            r is Some ==> (final(self)@, r->0@) == chosen(old(self)@, key->Char_0),
            r is None ==> final(self)@ == old(self)@,
    {
        proof {
            reveal(chosen);
        }
        if let Key::Char(c) = key {
            if self.list_visible() && has_char(self.cfg.select_keys(), *c) {
                proof {
                    lemma_page(self@);
                    lemma_select_place(self@.cfg.select, *c);
                }
                let (start, end) = self.page_range();
                let n = place_of(self.cfg.select_keys(), *c);
                if n < end - start {
                    self.cand_index = start + n;
                    let t = self.commit_candidate();
                    return Some(Response::text(t));
                }
                return Some(Response::default());
            }
        }
        None
    }

    /// A key while a candidate is chosen.
    fn handle_selecting(&mut self, key: Key) -> (r: Response)
        requires
            old(self).kept(),
            old(self)@.phase == Phase::Selecting,
        ensures
            final(self).kept(),
            (final(self)@, r@) == selecting(old(self)@, key@),
    {
        proof {
            reveal(selecting);
            lemma_committed_sound(self@);
        }
        if self.cfg.is(Slot::Cancel, &key) {
            self.unselect();
            return Response::default();
        }
        if key.same(&Key::Enter) || self.cfg.is(Slot::Confirm, &key) {
            let t = self.commit_candidate();
            return Response::text(t);
        }
        if self.cfg.is(Slot::Affix, &key) {
            let t = self.commit_candidate();
            self.phase = Phase::Composing;
            let mark: Vec<char> = vec!['>'];
            assert(mark@ =~= seq!['>']);
            self.set_reading(mark);
            return Response::text(t);
        }
        if self.cfg.is(Slot::Purge, &key) {
            self.purge_candidate();
            return Response::default();
        }
        if self.cfg.is(Slot::Convert, &key) {
            if self.next_candidate() {
                self.begin_registration();
            }
            return Response::default();
        }
        if self.cfg.is(Slot::Previous, &key) {
            self.prev_candidate();
            return Response::default();
        }
        if let Some(r) = self.select_key(&key) {
            return r;
        }
        if self.cfg.is(Slot::Backspace, &key) {
            self.prev_candidate();
            return Response::default();
        }
        let t = self.commit_candidate();
        match key {
            Key::Char(c) => {
                let q = self.dispatch_direct(Key::Char(c));
                Response {
                    commit: joined(t.as_str(), q.commit.as_str()),
                    passthrough: q.passthrough,
                    mode_changed: q.mode_changed,
                    cursor_back: q.cursor_back,
                    edit_snippet: q.edit_snippet,
                }
            },
            k => Response::text_and_key(t, k),
        }
    }

    /// A key, whatever is being converted.
    fn dispatch(&mut self, key: Key) -> (r: Response)
        requires
            old(self).kept(),
        ensures
            final(self).kept(),
            (final(self)@, r@) == dispatched(old(self)@, key@),
    {
        proof {
            reveal(dispatched);
            lemma_sticky_taken(self@, key@);
        }
        match self.take_sticky(key) {
            None => Response::default(),
            Some(k) => match self.phase {
                Phase::Direct => self.handle_direct(k),
                Phase::Composing => self.handle_composing(k),
                Phase::Selecting => self.handle_selecting(k),
            },
        }
    }
}


/// The characters of a text that may be part of a word.
fn printable_text(t: &str) -> (r: String)
    ensures
        r@ == t@.filter(printable()),
{
    let v = chars_of(t);
    let ghost keep = printable();
    let mut out: String = String::new();
    let mut i: usize = 0;
    assert(out@ =~= v@.take(0).filter(keep)) by {
        assert(v@.take(0) =~= seq![]);
    }
    while i < v.len()
        invariant
            i <= v@.len(),
            keep == printable(),
            out@ == v@.take(i as int).filter(keep),
        decreases v.len() - i,
    {
        broadcast use Seq::lemma_filter_push;

        proof {
            lemma_take_next(v@, i as int);
        }
        if !is_control(v[i]) {
            out.push(v[i]);
        }
        i = i + 1;
    }
    assert(v@.take(i as int) =~= v@);
    out
}

impl Registration {
    /// The same registration with another buffer and offer.
    fn with(self, buffer: String, offering_snippet: bool) -> (r: Registration)
        ensures
            r@ == (Reg { buffer: buffer@, offering_snippet, ..self@ }),
    {
        Registration {
            key: self.key,
            buffer,
            reading: self.reading,
            okuri_head: self.okuri_head,
            okuri_kana: self.okuri_kana,
            abbrev: self.abbrev,
            auto_suffix: self.auto_suffix,
            offering_snippet,
        }
    }
}

impl Skk {
    /// Takes the registration on top off.
    fn pop_registration(&mut self) -> (r: Registration)
        requires
            old(self).kept(),
            old(self)@.regs.len() > 0,
        ensures
            final(self).kept(),
            r@ == old(self)@.regs.last(),
            final(self)@ == (State { regs: old(self)@.regs.drop_last(), ..old(self)@ }),
    {
        let ghost had = regs_of(self.regs@);
        assert(had.len() == self.regs@.len());
        let reg = self.regs.pop().unwrap();
        proof {
            assert(had.last() == reg@);
            assert(regs_of(self.regs@) =~= had.drop_last());
        }
        reg
    }

    /// Puts a registration on top.
    fn push_registration(&mut self, reg: Registration)
        requires
            old(self).kept(),
        ensures
            final(self).kept(),
            final(self)@ == (State { regs: old(self)@.regs.push(reg@), ..old(self)@ }),
    {
        let ghost had = regs_of(self.regs@);
        self.regs.push(reg);
        assert(regs_of(self.regs@) =~= had.push(reg@));
    }

    /// Sets the buffer of the registration on top.
    fn set_buffer(&mut self, t: String)
        requires
            old(self).kept(),
            old(self)@.regs.len() > 0,
        ensures
            final(self).kept(),
            final(self)@ == with_buffer(old(self)@, t@),
    {
        let ghost all = self@.regs;
        let reg = self.pop_registration();
        let offering = reg.offering_snippet;
        self.push_registration(reg.with(t, offering));
        assert(self@.regs =~= with_buffer(old(self)@, t@).regs);
    }

    /// Makes or takes back the offer to write a snippet.
    fn set_offering(&mut self, on: bool)
        requires
            old(self).kept(),
            old(self)@.regs.len() > 0,
        ensures
            final(self).kept(),
            final(self)@ == offering(old(self)@, on),
    {
        let reg = self.pop_registration();
        let buffer = reg.buffer.clone();
        self.push_registration(reg.with(buffer, on));
        assert(self@.regs =~= offering(old(self)@, on).regs);
    }

    /// The buffer of the registration on top.
    fn buffer(&self) -> (r: String)
        requires
            self@.regs.len() > 0,
        ensures
            r@ == self@.regs.last().buffer,
    {
        assert(self@.regs.last() == self.regs@[self.regs@.len() - 1]@);
        self.regs[self.regs.len() - 1].buffer.clone()
    }

    /// While a word is registered, what would be handed out goes into the registration.
    fn capture(&mut self, r: Response) -> (q: Response)
        requires
            old(self).kept(),
        ensures
            final(self).kept(),
            (final(self)@, q@) == captured(old(self)@, r@),
    {
        proof {
            reveal(captured);
            reveal(caught);
        }
        assert(self@.regs.len() == self.regs@.len());
        if self.regs.len() == 0 {
            return r;
        }
        let mut t = self.buffer();
        let ghost had = t@;
        let more = printable_text(r.commit.as_str());
        t.append(more.as_str());
        if let Some(Key::Char(c)) = &r.passthrough {
            if !is_control(*c) {
                t.push(*c);
            }
        }
        assert(t@ =~= had + caught(r@));
        self.set_buffer(t);
        if r.mode_changed {
            Response::turned()
        } else {
            Response::default()
        }
    }

    /// Returns to the reading of a registration.
    fn resume_composing(&mut self, reg: Registration)
        requires
            old(self).kept(),
        ensures
            final(self).kept(),
            final(self)@ == resumed(old(self)@, reg@),
    {
        proof {
            reveal(resumed);
        }
        self.reset();
        self.phase = Phase::Composing;
        self.okuri_head = reg.okuri_head;
        self.okuri_kana = reg.okuri_kana;
        self.abbrev = reg.abbrev;
        self.set_reading(reg.reading);
    }

    /// Gives the registration on top up.
    fn abort_registration(&mut self)
        requires
            old(self).kept(),
            old(self)@.regs.len() > 0,
        ensures
            final(self).kept(),
            final(self)@ == registration_aborted(old(self)@),
    {
        proof {
            reveal(registration_aborted);
        }
        let reg = self.pop_registration();
        self.resume_composing(reg);
    }

    /// Learns and hands out the word that was registered. An empty one is given up.
    fn finish_registration(&mut self) -> (r: Response)
        requires
            old(self).kept(),
            old(self)@.regs.len() > 0,
        ensures
            final(self).kept(),
            (final(self)@, r@) == registration_finished(old(self)@),
    {
        proof {
            reveal(registration_finished);
        }
        let flushed = self.romaji.flush();
        let shaped = self.shape(flushed.as_str());
        let reg = self.pop_registration();
        let buffer = joined(reg.buffer.as_str(), shaped.as_str());
        if buffer.as_str().is_empty() {
            self.resume_composing(reg);
            return Response::default();
        }
        let cand = Candidate { text: buffer, annotation: None };
        self.dict.learn(reg.key.as_str(), &cand);
        if reg.okuri_head.is_some() {
            self.dict.learn_okuri(reg.key.as_str(), reg.okuri_kana.as_str(), cand.text.as_str());
        }
        let head = joined(cand.text.as_str(), reg.okuri_kana.as_str());
        let text = joined(head.as_str(), reg.auto_suffix.as_str());
        self.capture(Response::text(text))
    }

    /// A key while a word is registered and no snippet is offered.
    fn handle_registration(&mut self, key: Key) -> (r: Response)
        requires
            old(self).kept(),
            old(self)@.regs.len() > 0,
        ensures
            final(self).kept(),
            (final(self)@, r@) == registration_key(old(self)@, key@),
    {
        proof {
            reveal(registration_key);
        }
        let direct_now = self.phase == Phase::Direct;
        if direct_now && key.same(&Key::Enter) {
            return self.finish_registration();
        }
        if direct_now && self.romaji.is_empty() {
            let buffer = self.buffer();
            if self.cfg.is(Slot::Cancel, &key) {
                self.abort_registration();
                return Response::default();
            }
            if self.cfg.is(Slot::Backspace, &key) {
                if buffer.as_str().is_empty() {
                    self.abort_registration();
                } else {
                    let v = chars_of(buffer.as_str());
                    let shorter = slice_text(&v, 0, v.len() - 1);
                    assert(shorter@ =~= buffer@.drop_last());
                    self.set_buffer(shorter);
                }
                return Response::default();
            }
            if self.cfg.is(Slot::Convert, &key) && buffer.as_str().is_empty() {
                self.set_offering(true);
                return Response::default();
            }
        }
        let r = self.dispatch(key);
        self.capture(r)
    }

    /// The answer to the offer to write a snippet.
    fn answer_snippet_offer(&mut self, key: Key) -> (r: Response)
        requires
            old(self).kept(),
            old(self)@.regs.len() > 0,
        ensures
            final(self).kept(),
            (final(self)@, r@) == offer_answered(old(self)@, key@),
    {
        proof {
            reveal(offer_answered);
        }
        self.set_offering(false);
        if key.same(&Key::Enter) || self.cfg.is(Slot::Confirm, &key) {
            let word = self.word_in_hand();
            proof {
                reveal(word_in_hand);
            }
            self.abort_registration();
            let r = Response {
                commit: String::new(),
                passthrough: None,
                mode_changed: false,
                cursor_back: 0,
                edit_snippet: Some(word),
            };
            assert(r.commit@ =~= seq![]);
            return r;
        }
        if self.cfg.is(Slot::Cancel, &key) {
            return Response::default();
        }
        let r = self.handle_registration(key);
        self.refresh_suggestion();
        r
    }

    /// The word that is being typed.
    fn word_in_hand(&self) -> (r: String)
        ensures
            r@ == word_in_hand(self@),
    {
        proof {
            reveal(word_in_hand);
        }
        assert(self@.regs.len() == self.regs@.len());
        if self.regs.len() > 0 {
            assert(self@.regs.last() == self.regs@[self.regs@.len() - 1]@);
            return text_of(&self.regs[self.regs.len() - 1].reading);
        }
        match self.phase {
            Phase::Direct => {
                let t = String::new();
                assert(t@ =~= seq![]);
                t
            },
            _ => text_of(&self.reading),
        }
    }

    /// Looks up the completions that are shown while typing.
    fn refresh_suggestion(&mut self)
        requires
            old(self).kept(),
        ensures
            final(self).wf(),
            final(self)@ == suggested(old(self)@),
    {
        proof {
            reveal(suggestions);
        }
        let none: Vec<String> = Vec::new();
        assert(texts(none@) =~= seq![]);
        if self.phase != Phase::Composing || self.abbrev || self.completion.is_some()
            || self.okuri_head.is_some() || !self.romaji.is_empty() || self.reading.len() == 0
            || self.read_cursor != self.reading.len() {
            self.suggestion = none;
            return;
        }
        let limit: usize = match self.cfg.dynamic_completion() {
            DynamicCompletion::Off => {
                self.suggestion = none;
                return;
            },
            DynamicCompletion::Single => 1,
            DynamicCompletion::Multiple => DYNAMIC_SHOWN,
        };
        let reading = text_of(&self.reading);
        self.suggestion = self.dict.complete(reading.as_str(), limit);
        proof {
            assert forall|i: int| 0 <= i < self@.suggestion.len() implies self@.reading.len() <= (
            #[trigger] self@.suggestion[i]).len() by {
                assert(crate::dict::extends(texts(self.suggestion@)[i], reading@));
            }
        }
    }

    /// Puts `t` behind what stands in the place that is filled in now.
    fn add_to_slot(&mut self, t: &str)
        requires
            old(self).kept(),
        ensures
            final(self).kept(),
            final(self)@ == slot_added(old(self)@, t@),
    {
        if t.is_empty() {
            return;
        }
        if let Some(f) = &mut self.filling {
            let mut v = f.value();
            v.append(t);
            f.set_value(v);
        }
    }

    /// Puts what is being typed into the place that is filled in now.
    fn settle_into_the_slot(&mut self)
        requires
            old(self).kept(),
            old(self)@.filling is Some,
        ensures
            final(self).kept(),
            final(self)@.filling is Some,
            final(self)@ == settled_in_slot(old(self)@),
    {
        proof {
            reveal(settled_in_slot);
            lemma_settled_sound(self@);
        }
        let mut t: String = String::new();
        assert(t@ =~= seq![]);
        if self.phase != Phase::Direct {
            let r = self.dispatch(Key::Enter);
            t = r.commit;
        }
        let flushed = self.romaji.flush();
        let shaped = self.shape(flushed.as_str());
        t.append(shaped.as_str());
        self.add_to_slot(t.as_str());
    }

    /// Hands the snippet out.
    fn finish_filling(&mut self) -> (r: Response)
        requires
            old(self).kept(),
            old(self)@.filling is Some,
        ensures
            final(self).kept(),
            (final(self)@, r@) == filling_finished(old(self)@),
    {
        proof {
            reveal(filling_finished);
        }
        let (text, back) = match &self.filling {
            Some(f) => f.build(),
            None => (String::new(), 0),
        };
        let all = joined(text.as_str(), self.fill_suffix.as_str());
        self.filling = None;
        self.fill_suffix = String::new();
        assert(self.fill_suffix@ =~= seq![]);
        self.reset();
        Response::text(all).with_cursor_back(back)
    }

    /// Takes another of the choices of the place that is filled in now.
    fn turn_choice(&mut self, back: bool)
        requires
            old(self).kept(),
            old(self)@.filling is Some,
            fill_choices(old(self)@.filling->0).len() > 0,
        ensures
            final(self).kept(),
            final(self)@ == (State {
                filling: Some(choice_turned(old(self)@.filling->0, back)),
                ..old(self)@
            }),
    {
        proof {
            reveal(choice_turned);
        }
        if let Some(f) = &mut self.filling {
            let choices = f.choices();
            let value = f.value();
            let n: usize = choices.len();
            assert(texts(choices@).len() == n);
            let at: usize = text_place(&choices, value.as_str());
            let next: usize = if back {
                if at > 0 {
                    at - 1
                } else {
                    n - 1
                }
            } else if at + 1 < n {
                at + 1
            } else {
                0
            };
            proof {
                let i = at as int;
                let m = n as int;
                assert(next == if back {
                    (i + m - 1) % m
                } else {
                    (i + 1) % m
                }) by (nonlinear_arith)
                    requires
                        0 <= i < m,
                        !back ==> next == if i + 1 < m {
                            i + 1
                        } else {
                            0
                        },
                        back ==> next == if i > 0 {
                            i - 1
                        } else {
                            m - 1
                        },
                ;
                assert(texts(choices@)[next as int] == choices@[next as int]@);
            }
            let t = choices[next].clone();
            f.set_value(t);
        }
    }

    /// Whether the place that is filled in now offers choices.
    fn has_choices(&self) -> (r: bool)
        requires
            self.kept(),
            self@.filling is Some,
        ensures
            r == (fill_choices(self@.filling->0).len() > 0),
    {
        match &self.filling {
            Some(f) => {
                let v = f.choices();
                assert(texts(v@).len() == v@.len());
                v.len() > 0
            },
            None => false,
        }
    }

    /// Goes to another place, or hands the snippet out behind the last one.
    fn move_slot(&mut self, back: bool) -> (r: Response)
        requires
            old(self).kept(),
            old(self)@.filling is Some,
        ensures
            final(self).kept(),
            (final(self)@, r@) == slot_moved(old(self)@, back),
    {
        proof {
            reveal(slot_moved);
        }
        let mut done = false;
        if let Some(f) = &mut self.filling {
            let at: usize = f.position();
            if back {
                f.move_to(
                    if at > 0 {
                        at - 1
                    } else {
                        0
                    },
                );
            } else if f.count() - at > 1 {
                f.move_to(at + 1);
            } else {
                done = true;
            }
        }
        if done {
            return self.finish_filling();
        }
        Response::default()
    }

    /// Deletes the last character of the place that is filled in now.
    fn backspace_slot(&mut self)
        requires
            old(self).kept(),
            old(self)@.filling is Some,
        ensures
            final(self).kept(),
            final(self)@ == slot_backspaced(old(self)@),
    {
        proof {
            reveal(slot_backspaced);
        }
        if let Some(f) = &mut self.filling {
            let v = chars_of(f.value().as_str());
            if v.len() > 0 {
                let t = slice_text(&v, 0, v.len() - 1);
                assert(t@ =~= v@.drop_last());
                f.set_value(t);
            } else {
                let t = text_of(&v);
                f.set_value(t);
            }
        }
    }

    /// Types a key into the place that is filled in now.
    fn type_in_slot(&mut self, key: Key) -> (r: Response)
        requires
            old(self).kept(),
            old(self)@.filling is Some,
        ensures
            final(self).kept(),
            (final(self)@, r@) == typed_in_slot(old(self)@, key@),
    {
        proof {
            reveal(typed_in_slot);
            lemma_dispatched_sound(self@, key@);
        }
        let r = self.dispatch(key);
        self.add_to_slot(r.commit.as_str());
        assert(self@.regs.len() == self.regs@.len());
        if self.regs.len() > 0 {
            let word = self.word_in_hand();
            proof {
                reveal(word_in_hand);
            }
            self.regs = Vec::new();
            assert(regs_of(self.regs@) =~= seq![]);
            self.reset();
            self.add_to_slot(word.as_str());
        }
        if r.mode_changed {
            Response::turned()
        } else {
            Response::default()
        }
    }

    /// A key while a snippet is filled in.
    fn handle_filling(&mut self, key: Key) -> (r: Response)
        requires
            old(self).kept(),
            old(self)@.filling is Some,
        ensures
            final(self).kept(),
            (final(self)@, r@) == filling_key(old(self)@, key@),
    {
        proof {
            reveal(filling_key);
        }
        if self.has_choices() && (self.cfg.is(Slot::Convert, &key) || self.cfg.is(
            Slot::Previous,
            &key,
        )) {
            let back = self.cfg.is(Slot::Previous, &key);
            self.turn_choice(back);
            return Response::default();
        }
        if key.same(&Key::Tab) || key.same(&Key::ShiftTab) {
            self.settle_into_the_slot();
            return self.move_slot(key.same(&Key::ShiftTab));
        }
        if key.same(&Key::Enter) || self.cfg.is(Slot::Confirm, &key) {
            if self.phase != Phase::Direct || !self.romaji.is_empty() {
                self.settle_into_the_slot();
                return Response::default();
            }
            return self.finish_filling();
        }
        if self.cfg.is(Slot::Cancel, &key) && self.romaji.is_empty() {
            self.filling = None;
            self.fill_suffix = String::new();
            assert(self.fill_suffix@ =~= seq![]);
            return Response::default();
        }
        if self.cfg.is(Slot::Backspace, &key) && self.romaji.is_empty() {
            self.backspace_slot();
            return Response::default();
        }
        self.type_in_slot(key)
    }

    /// A key, before the completions that are shown are looked up again.
    fn handle_key(&mut self, key: Key) -> (r: Response)
        requires
            old(self).kept(),
        ensures
            final(self).kept(),
            (final(self)@, r@) == key_step(old(self)@, key@),
    {
        proof {
            reveal(key_step);
        }
        if self.mode != Mode::Ascii && self.cfg.is(Slot::SnippetEdit, &key) {
            let r = Response {
                commit: String::new(),
                passthrough: None,
                mode_changed: false,
                cursor_back: 0,
                edit_snippet: Some(self.word_in_hand()),
            };
            assert(r.commit@ =~= seq![]);
            return r;
        }
        if self.filling.is_some() {
            return self.handle_filling(key);
        }
        assert(self@.regs.len() == self.regs@.len());
        if self.regs.len() == 0 {
            let leave = self.mode != Mode::Ascii && self.cfg.is(Slot::AsciiKeys, &key);
            let r = self.dispatch(key);
            if leave {
                self.mode = Mode::Ascii;
                return Response {
                    commit: r.commit,
                    passthrough: r.passthrough,
                    mode_changed: true,
                    cursor_back: r.cursor_back,
                    edit_snippet: r.edit_snippet,
                };
            }
            return r;
        }
        if let Key::Raw(_) = &key {
            return Response::default();
        }
        if let Key::Paste(bytes) = &key {
            let mut t = self.buffer();
            let more = paste_text(bytes);
            t.append(more.as_str());
            self.set_buffer(t);
            return Response::default();
        }
        assert(self@.regs.last() == self.regs@[self.regs@.len() - 1]@);
        if self.regs[self.regs.len() - 1].offering_snippet {
            return self.answer_snippet_offer(key);
        }
        self.handle_registration(key)
    }

    /// What a key does.
    pub fn handle(&mut self, key: Key) -> (r: Response)
        requires
            old(self).wf(),
        ensures
            final(self).wf(),
            (final(self)@, r@) == handled(old(self)@, key@),
    {
        self.fresh = false;
        let r = self.handle_key(key);
        self.refresh_suggestion();
        r
    }
}

/// What was pasted, as far as it goes into a registration.
fn paste_text(bytes: &Vec<u8>) -> (r: String)
    ensures
        r@ == pasted_text(bytes@),
{
    proof {
        reveal(pasted_text);
    }
    match utf8_text(bytes) {
        Some(s) => printable_text(s.as_str()),
        None => {
            let t = String::new();
            assert(t@ =~= seq![]);
            t
        },
    }
}

/// The first place of `t` in `v`; 0 where there is none.
fn text_place(v: &Vec<String>, t: &str) -> (r: usize)
    requires
        v@.len() > 0,
    ensures
        r < v@.len(),
        r == choice_place(texts(v@), t@),
{
    let ghost all = texts(v@);
    let mut i: usize = 0;
    assert(all.skip(0) =~= all);
    while i < v.len()
        invariant
            i <= v@.len(),
            all == texts(v@),
            forall|j: int| 0 <= j < i ==> #[trigger] all[j] != t@,
            first_place(all, t@) == i + first_place(all.skip(i as int), t@),
        decreases v.len() - i,
    {
        proof {
            crate::text::lemma_skip_next(all, i as int);
            assert(all[i as int] == v@[i as int]@);
        }
        if *v[i].as_str() == *t {
            assert(all.contains(t@));
            return i;
        }
        i = i + 1;
    }
    0
}


/// Adds a part.
fn add(out: &mut Vec<Segment>, style: Style, text: String)
    ensures
        segs_of(final(out)@) == segs_of(old(out)@) + seg(style, text@),
{
    let ghost had = segs_of(out@);
    let s = Segment { style, text };
    out.push(s);
    assert(segs_of(out@) =~= had + seg(style, text@));
}

/// Adds a part, unless it is empty.
fn add_if(out: &mut Vec<Segment>, style: Style, text: String)
    ensures
        segs_of(final(out)@) == segs_of(old(out)@) + seg_if(style, text@),
{
    if text.as_str().is_empty() {
        assert(segs_of(out@) =~= segs_of(old(out)@) + seg_if(style, text@));
    } else {
        self::add(out, style, text);
    }
}

/// Adds the parts of `more`.
fn add_all(out: &mut Vec<Segment>, more: Vec<Segment>)
    ensures
        segs_of(final(out)@) == segs_of(old(out)@) + segs_of(more@),
{
    let ghost had = segs_of(out@);
    let ghost new = segs_of(more@);
    let mut more = more;
    out.append(&mut more);
    assert(segs_of(out@) =~= had + new);
}

/// No parts.
fn no_segs() -> (r: Vec<Segment>)
    ensures
        segs_of(r@) == Seq::<Seg>::empty(),
{
    let v: Vec<Segment> = Vec::new();
    assert(segs_of(v@) =~= Seq::<Seg>::empty());
    v
}

/// Three texts, one after the other.
fn joined3(a: &str, b: &str, c: &str) -> (r: String)
    ensures
        r@ == a@ + b@ + c@,
{
    let ab = joined(a, b);
    joined(ab.as_str(), c)
}

/// `n` times the character `c`.
fn repeat(c: char, n: usize) -> (r: String)
    ensures
        r@ == repeated(c, n as nat),
{
    let mut out: String = String::new();
    let mut i: usize = 0;
    assert(out@ =~= repeated(c, 0));
    while i < n
        invariant
            i <= n,
            out@ == repeated(c, i as nat),
        decreases n - i,
    {
        out.push(c);
        i = i + 1;
        assert(out@ =~= repeated(c, i as nat));
    }
    out
}

impl Skk {
    /// The mark that Shift pressed ahead will make.
    fn sticky_hint(&self) -> (r: String)
        ensures
            r@ == sticky_hint(self@),
    {
        let none = String::new();
        assert(none@ =~= seq![]);
        if !self.sticky {
            return none;
        }
        match self.phase {
            Phase::Direct => "▽".to_owned(),
            Phase::Selecting => "▽".to_owned(),
            Phase::Composing => {
                if self.okuri_head.is_none() {
                    "*".to_owned()
                } else {
                    none
                }
            },
        }
    }

    /// The candidate in hand as it is shown.
    fn current_shown(&self) -> (r: String)
        requires
            self.dict.wf(),
        ensures
            r@ == current_shown(self@),
    {
        match self.current_candidate() {
            Some(c) => self.shown(c),
            None => {
                let t = String::new();
                assert(t@ =~= seq![]);
                t
            },
        }
    }

    /// What is being typed on one line, inside a snippet that is filled in.
    fn pending_text(&self) -> (r: String)
        requires
            self.dict.wf(),
        ensures
            r@ == pending_text(self@),
    {
        let hint = self.sticky_hint();
        match self.phase {
            Phase::Direct => joined(hint.as_str(), self.romaji.pending()),
            Phase::Composing => {
                let reading = text_of(&self.reading);
                let shown = self.shown_reading(reading.as_str());
                let head = joined3("▽", shown.as_str(), self.romaji.pending());
                joined(head.as_str(), hint.as_str())
            },
            Phase::Selecting => {
                let shown = self.current_shown();
                joined3("▼", shown.as_str(), hint.as_str())
            },
        }
    }

    /// A snippet that is filled in.
    fn fill_segments(&self, f: &Filling) -> (r: Vec<Segment>)
        requires
            self.dict.wf(),
            f.wf(),
        ensures
            segs_of(r@) == fill_segs(self@, f@),
    {
        let mut out = no_segs();
        let count: usize = f.count();
        let place: usize = f.position();
        let at = number_text((place + 1) as u64);
        let n = number_text(count as u64);
        let a = joined3("[埋め ", at.as_str(), "/");
        let head = joined3(a.as_str(), n.as_str(), "]");
        self::add(&mut out, Style::ListItem, head);
        let pending = self.pending_text();
        let shown = f.preview_with(pending.as_str());
        self::add(&mut out, Style::Candidate, shown);
        let choices = f.choices();
        assert(texts(choices@).len() == choices@.len());
        if choices.len() > 1 {
            let m = number_text(choices.len() as u64);
            self::add(&mut out, Style::ListItem, joined3(" ; ", m.as_str(), " 択"));
        }
        assert(segs_of(out@) =~= fill_segs(self@, f@));
        out
    }

    /// The registration on top.
    fn registration_segments(&self) -> (r: Vec<Segment>)
        ensures
            segs_of(r@) == reg_segs(self@),
    {
        let mut out = no_segs();
        let depth: usize = self.regs.len();
        assert(self@.regs.len() == depth);
        if depth > 0 {
            let reg = &self.regs[depth - 1];
            assert(self@.regs.last() == reg@);
            let open = repeat('[', depth);
            let close = repeat(']', depth);
            let name = reg.label();
            let head = joined3(open.as_str(), "登録:", name.as_str());
            self::add(&mut out, Style::ListItem, joined(head.as_str(), close.as_str()));
            add_if(&mut out, Style::Reading, reg.buffer.clone());
        }
        assert(segs_of(out@) =~= reg_segs(self@));
        out
    }

    /// The letters typed while nothing is converted.
    fn direct_segments(&self) -> (r: Vec<Segment>)
        ensures
            segs_of(r@) == direct_segs(self@),
    {
        let mut out = no_segs();
        let hint = self.sticky_hint();
        add_if(&mut out, Style::Reading, hint);
        add_if(&mut out, Style::Romaji, self.romaji.pending().to_owned());
        assert(segs_of(out@) =~= direct_segs(self@));
        out
    }

    /// What follows the reading.
    fn reading_tail(&self) -> (r: String)
        ensures
            r@ == reading_tail(self@),
    {
        if self.okuri_head.is_some() {
            joined("*", self.okuri_kana.as_str())
        } else {
            self.sticky_hint()
        }
    }

    /// The reading.
    fn reading_segments(&self) -> (r: Vec<Segment>)
        requires
            self.kept(),
        ensures
            segs_of(r@) == reading_segs(self@),
    {
        let mut out = no_segs();
        let n: usize = self.reading.len();
        let before = slice_text(&self.reading, 0, self.read_cursor);
        assert(before@ =~= self@.reading.take(self@.cursor));
        let shown = self.shown_reading(before.as_str());
        let head = joined("▽", shown.as_str());
        let tail = self.reading_tail();
        let ghost after = self@.reading.skip(self@.cursor);
        if self.read_cursor == n {
            self::add(&mut out, Style::Reading, joined(head.as_str(), tail.as_str()));
            add_if(&mut out, Style::Romaji, self.romaji.pending().to_owned());
        } else {
            self::add(&mut out, Style::Reading, head);
            add_if(&mut out, Style::Romaji, self.romaji.pending().to_owned());
            let c = char_text(self.reading[self.read_cursor]);
            assert(c@ == seq![after[0]]);
            let under = self.shown_reading(c.as_str());
            self::add(&mut out, Style::ReadingCursor, under);
            let rest = slice_text(&self.reading, self.read_cursor + 1, n);
            assert(rest@ =~= after.skip(1));
            let shown = self.shown_reading(rest.as_str());
            add_if(&mut out, Style::Reading, joined(shown.as_str(), tail.as_str()));
        }
        assert(segs_of(out@) =~= reading_segs(self@));
        out
    }

    /// What a completion would become, and which of them it is.
    fn completion_hint(&self) -> (r: Vec<Segment>)
        requires
            self.kept(),
        ensures
            segs_of(r@) == completion_segs(self@),
    {
        let mut out = no_segs();
        if let Some(c) = &self.completion {
            let reading = text_of(&self.reading);
            let v = self.dict.lookup(reading.as_str());
            let ghost cs = cand_texts(v@);
            assert(cs.len() == v@.len());
            if v.len() > 0 {
                assert(cs[0] == v@[0]@);
                self::add(&mut out, Style::ListItem, joined(" ", v[0].text.as_str()));
                if let Some(a) = &v[0].annotation {
                    self::add(&mut out, Style::ListItem, joined(" ; ", a.as_str()));
                }
            }
            assert(texts(c.words@).len() == c.words@.len());
            let count: usize = c.words.len();
            let at = number_text((c.index + 1) as u64);
            let n = number_text(count as u64);
            let a = joined3(" [", at.as_str(), "/");
            self::add(&mut out, Style::ListItem, joined3(a.as_str(), n.as_str(), "]"));
        }
        assert(segs_of(out@) =~= completion_segs(self@));
        out
    }

    /// The completions as a list.
    fn suggestion_segments(&self) -> (r: Vec<Segment>)
        ensures
            segs_of(r@) == suggestion_list(self@, self@.suggestion.len() as int),
    {
        let mut out = no_segs();
        let inline = self.cfg.layout() == Layout::Inline;
        let mut i: usize = 0;
        assert(self@.suggestion.len() == self.suggestion@.len());
        while i < self.suggestion.len()
            invariant
                i <= self.suggestion@.len(),
                self@.suggestion.len() == self.suggestion@.len(),
                inline == (self@.cfg.layout == Layout::Inline),
                segs_of(out@) == suggestion_list(self@, i as int),
            decreases self.suggestion.len() - i,
        {
            assert(self@.suggestion[i as int] == self.suggestion@[i as int]@);
            let shown = self.shown_reading(self.suggestion[i].as_str());
            let t = if i == 0 && !inline {
                assert(Seq::<char>::empty() + shown@ =~= shown@);
                shown
            } else {
                joined(" ", shown.as_str())
            };
            self::add(&mut out, Style::Completion, t);
            i = i + 1;
        }
        out
    }

    /// The completions that are shown at the cursor, and on a line of their own.
    fn show_suggestion(&self) -> (r: (Vec<Segment>, Vec<Segment>))
        requires
            self.wf(),
            self@.phase == Phase::Composing,
        ensures
            segs_of(r.0@) == suggestion_at_cursor(self@),
            segs_of(r.1@) == suggestion_floating(self@),
    {
        assert(self@.suggestion.len() == self.suggestion@.len());
        if self.suggestion.len() == 0 {
            return (no_segs(), no_segs());
        }
        match self.cfg.dynamic_completion() {
            DynamicCompletion::Off => (no_segs(), no_segs()),
            DynamicCompletion::Single => {
                assert(self@.suggestion[0] == self.suggestion@[0]@);
                let v = chars_of(self.suggestion[0].as_str());
                let rest = slice_text(&v, self.reading.len(), v.len());
                assert(rest@ =~= self@.suggestion[0].skip(self@.reading.len() as int));
                let shown = self.shown_reading(rest.as_str());
                let mut out = no_segs();
                self::add(&mut out, Style::Completion, shown);
                assert(segs_of(out@) =~= suggestion_at_cursor(self@));
                (out, no_segs())
            },
            DynamicCompletion::Multiple => {
                let list = self.suggestion_segments();
                if self.cfg.layout() == Layout::Inline {
                    (list, no_segs())
                } else {
                    (no_segs(), list)
                }
            },
        }
    }

    /// The page of the list, and how many candidates come after it.
    fn list_segments(&self) -> (r: Vec<Segment>)
        requires
            self.kept(),
            self@.phase == Phase::Selecting,
            list_shown(self@),
        ensures
            segs_of(r@) == list_segs(self@),
    {
        proof {
            lemma_page(self@);
        }
        let (start, end) = self.page_range();
        let mut out = no_segs();
        let mut i: usize = start;
        assert(self@.candidates.len() == self.candidates@.len());
        while i < end
            invariant
                self.kept(),
                start <= i <= end,
                start == page_start(self@),
                end == page_end(self@),
                end <= self.candidates@.len(),
                self@.candidates.len() == self.candidates@.len(),
                end - start <= self@.cfg.select.len(),
                segs_of(out@) == list_upto(self@, i as int),
            decreases end - i,
        {
            let style = if i == self.cand_index {
                Style::ListSelected
            } else {
                Style::ListItem
            };
            assert(self@.candidates[i as int] == self.candidates@[i as int]@);
            let c = self.cfg.select_keys()[i - start];
            let key = char_text(c);
            let shown = self.shown(&self.candidates[i]);
            let ghost had = segs_of(out@);
            self::add(&mut out, style, joined3(key.as_str(), ":", shown.as_str()));
            i = i + 1;
            if i < end {
                self::add(&mut out, Style::ListItem, " ".to_owned());
            }
            assert(segs_of(out@) =~= list_upto(self@, i as int));
        }
        let rest: usize = self.candidates.len() - end;
        if rest > 0 {
            let n = number_text(rest as u64);
            self::add(&mut out, Style::ListItem, joined3("  [残り ", n.as_str(), "]"));
        }
        assert(segs_of(out@) =~= list_segs(self@));
        out
    }

    /// The candidate in hand.
    fn candidate_segments(&self) -> (r: Vec<Segment>)
        requires
            self.kept(),
        ensures
            segs_of(r@) == candidate_segs(self@),
    {
        let mut out = no_segs();
        let shown = self.current_shown();
        let head = joined3("▼", shown.as_str(), self.okuri_kana.as_str());
        self::add(&mut out, Style::Candidate, joined(head.as_str(), self.auto_suffix.as_str()));
        let hint = self.sticky_hint();
        add_if(&mut out, Style::Reading, hint);
        if let Some(c) = self.current_candidate() {
            if let Some(a) = &c.cand.annotation {
                if !self.list_visible() {
                    self::add(&mut out, Style::ListItem, joined(" ; ", a.as_str()));
                }
            }
        }
        assert(segs_of(out@) =~= candidate_segs(self@));
        out
    }

    /// What is shown of the conversion: at the cursor, and on a line of its own.
    fn phase_segments(&self) -> (r: (Vec<Segment>, Vec<Segment>))
        requires
            self.wf(),
        ensures
            segs_of(r.0@) == phase_segs(self@),
            segs_of(r.1@) == phase_floating(self@),
    {
        match self.phase {
            Phase::Direct => (self.direct_segments(), no_segs()),
            Phase::Composing => {
                let mut out = self.reading_segments();
                add_all(&mut out, self.completion_hint());
                let (near, floating) = self.show_suggestion();
                add_all(&mut out, near);
                (out, floating)
            },
            Phase::Selecting => {
                let mut out = self.candidate_segments();
                if !self.list_visible() {
                    assert(segs_of(out@) =~= phase_segs(self@));
                    return (out, no_segs());
                }
                let list = self.list_segments();
                match self.cfg.layout() {
                    Layout::Inline => {
                        let ghost had = segs_of(out@);
                        self::add(&mut out, Style::ListItem, " ".to_owned());
                        add_all(&mut out, list);
                        assert(segs_of(out@) =~= phase_segs(self@));
                        (out, no_segs())
                    },
                    Layout::Float => {
                        assert(segs_of(out@) =~= phase_segs(self@));
                        (out, list)
                    },
                }
            },
        }
    }

    /// The colour of the mode.
    fn mode_style(&self) -> (r: Option<Style>)
        ensures
            r == mode_style(self@.mode),
    {
        match self.mode {
            Mode::Ascii => None,
            Mode::Hiragana => Some(Style::ModeHiragana),
            Mode::Katakana => Some(Style::ModeKatakana),
            Mode::HankakuKatakana => Some(Style::ModeHankaku),
            Mode::ZenkakuAscii => Some(Style::ModeZenkaku),
        }
    }

    /// The colour under the cursor.
    fn cursor_tint(&self, typing: bool) -> (r: Option<Tint>)
        ensures
            r == tint_of(self@, typing),
    {
        let m = self.cfg.mode_marker();
        match self.mode_style() {
            Some(style) => {
                if !typing && (m == Marker::Cell || m == Marker::Symbol || m == Marker::Beside) {
                    let offset: usize = if m == Marker::Beside {
                        1
                    } else {
                        0
                    };
                    let glyph: Option<char> = if m == Marker::Symbol {
                        let i: usize = match self.mode {
                            Mode::Hiragana => 0,
                            Mode::Katakana => 1,
                            Mode::HankakuKatakana => 2,
                            _ => 3,
                        };
                        Some(self.cfg.mode_symbol(i))
                    } else {
                        None
                    };
                    Some(Tint { style, offset, glyph })
                } else {
                    None
                }
            },
            None => None,
        }
    }

    /// The letter of the mode, where it is shown.
    fn letter_segments(&self) -> (r: Vec<Segment>)
        ensures
            segs_of(r@) == letter_segs(self@),
    {
        let mut out = no_segs();
        if let Some(style) = self.mode_style() {
            if self.cfg.mode_marker() == Marker::Letter {
                let letter = match self.mode {
                    Mode::Hiragana => "あ",
                    Mode::Katakana => "ア",
                    Mode::HankakuKatakana => "半",
                    _ => "Ａ",
                };
                self::add(&mut out, style, letter.to_owned());
            }
        }
        assert(segs_of(out@) =~= letter_segs(self@));
        out
    }

    /// All that is shown of what is being typed.
    pub fn preedit(&self) -> (r: Preedit)
        requires
            self.wf(),
        ensures
            r@ == preedit_of(self@),
    {
        if let Some(f) = &self.filling {
            let segs = self.fill_segments(f);
            return Preedit { at_cursor: segs, floating: no_segs(), cursor_tint: None };
        }
        let mut segs = self.registration_segments();
        assert(self@.regs.len() == self.regs@.len());
        if self.regs.len() > 0 {
            assert(self@.regs.last() == self.regs@[self.regs@.len() - 1]@);
            if self.regs[self.regs.len() - 1].offering_snippet {
                self::add(&mut segs, Style::Candidate, "▼[スニペットを登録]".to_owned());
                return Preedit { at_cursor: segs, floating: no_segs(), cursor_tint: None };
            }
        }
        let (typed, floating) = self.phase_segments();
        add_all(&mut segs, typed);
        assert(segs_of(segs@).len() == segs@.len());
        let cursor_tint = self.cursor_tint(segs.len() > 0);
        add_all(&mut segs, self.letter_segments());
        Preedit { at_cursor: segs, floating, cursor_tint }
    }
}


/// The numbers of a list of ranks.
pub open spec fn rank_numbers(v: Seq<u64>) -> Seq<nat> {
    v.map_values(|n: u64| n as nat)
}

/// The choices in the order of their falling ranks.
fn rank_items(v: &Vec<Item>, ranks: &Vec<u64>) -> (r: Vec<Item>)
    requires
        v@.len() == ranks@.len(),
    ensures
        items_of(r@) == by_rank(items_of(v@), rank_numbers(ranks@), ranks@.len() as int),
{
    let ghost all = items_of(v@);
    let ghost rs = rank_numbers(ranks@);
    let mut out: Vec<Item> = Vec::new();
    let mut order: Vec<u64> = Vec::new();
    let mut i: usize = 0;
    proof {
        assert(items_of(out@) =~= seq![]);
        assert(rank_numbers(order@) =~= seq![]);
    }
    while i < v.len()
        invariant
            i <= v@.len(),
            v@.len() == ranks@.len(),
            all == items_of(v@),
            rs == rank_numbers(ranks@),
            out@.len() == i,
            order@.len() == i,
            items_of(out@) == by_rank(all, rs, i as int),
            rank_numbers(order@) == falling(rs, i as int),
        decreases v.len() - i,
    {
        let ghost had = items_of(out@);
        let ghost fall = rank_numbers(order@);
        let r: u64 = ranks[i];
        let mut at: usize = order.len();
        assert(fall.take(at as int) =~= fall);
        while at > 0 && order[at - 1] < r
            invariant
                at <= order@.len(),
                fall == rank_numbers(order@),
                falling_place(fall, r as nat) == falling_place(fall.take(at as int), r as nat),
            decreases at,
        {
            proof {
                lemma_take_next(fall, at - 1);
            }
            at = at - 1;
        }
        proof {
            if at > 0 {
                lemma_take_next(fall, at - 1);
            }
            assert(falling_place(fall, r as nat) == at);
        }
        let c = v[i].copied();
        out.insert(at, c);
        order.insert(at, r);
        proof {
            assert(all[i as int] == c@);
            assert(rs[i as int] == r as nat);
            assert(items_of(out@) =~= had.insert(at as int, c@));
            assert(rank_numbers(order@) =~= fall.insert(at as int, r as nat));
        }
        i = i + 1;
    }
    out
}

impl Skk {
    /// An engine that starts with plain letters.
    pub fn new(dict: Dict, cfg: Config) -> (r: Skk)
        requires
            dict.wf(),
            usable(cfg@),
        ensures
            r.wf(),
            r@ == initial(dict@, cfg@),
    {
        let mut romaji = Romaji::new();
        romaji.set_kutouten(cfg.kutouten());
        romaji.set_azik(cfg.azik());
        let r = Skk {
            mode: Mode::Ascii,
            phase: Phase::Direct,
            romaji,
            reading: Vec::new(),
            read_cursor: 0,
            okuri_head: None,
            okuri_kana: String::new(),
            abbrev: false,
            sticky: false,
            candidates: Vec::new(),
            cand_index: 0,
            numbers: Vec::new(),
            dict_key: String::new(),
            dict,
            cfg,
            regs: Vec::new(),
            completion: None,
            suggestion: Vec::new(),
            last_commit: None,
            context: None,
            context_note: None,
            fresh: false,
            now: Now::default(),
            filling: None,
            fill_suffix: String::new(),
            auto_suffix: String::new(),
        };
        proof {
            let want = initial(dict@, cfg@);
            assert(r@.reading =~= want.reading);
            assert(r@.okuri_kana =~= want.okuri_kana);
            assert(r@.candidates =~= want.candidates);
            assert(r@.numbers =~= want.numbers);
            assert(r@.dict_key =~= want.dict_key);
            assert(r@.regs =~= want.regs);
            assert(r@.suggestion =~= want.suggestion);
            assert(r@.fill_suffix =~= want.fill_suffix);
            assert(r@.auto_suffix =~= want.auto_suffix);
        }
        r
    }

    /// How the input mode is shown.
    pub fn marker(&self) -> (r: Marker)
        ensures
            r == self@.cfg.mode_marker,
    {
        self.cfg.mode_marker()
    }

    /// The dictionaries, to be read anew or saved.
    pub fn dict_mut(&mut self) -> (r: &mut Dict)
        requires
            old(self).wf(),
        ensures
            r.wf(),
            r@ == old(self)@.dict,
            final(self)@ == (State { dict: final(r)@, ..old(self)@ }),
            final(r).wf() ==> final(self).wf(),
    {
        proof {
            lemma_suggestions_frame(self@);
        }
        &mut self.dict
    }

    /// Changes the setup; what is being typed stays.
    pub fn set_config(&mut self, cfg: Config)
        requires
            old(self).wf(),
            usable(cfg@),
        ensures
            final(self).wf(),
            final(self)@ == (State { cfg: cfg@, ..old(self)@ }),
    {
        proof {
            lemma_suggestions_frame(self@);
        }
        self.romaji.set_kutouten(cfg.kutouten());
        self.romaji.set_azik(cfg.azik());
        self.cfg = cfg;
    }

    /// Tells the time that snippets show.
    pub fn set_now(&mut self, now: Now)
        requires
            old(self).wf(),
        ensures
            final(self).wf(),
            final(self)@ == (State { now, ..old(self)@ }),
    {
        proof {
            lemma_suggestions_frame(self@);
        }
        self.now = now;
    }

    /// The setup.
    pub fn config(&self) -> (r: &Config)
        ensures
            r@ == self@.cfg,
    {
        &self.cfg
    }

    /// The input mode.
    pub fn mode(&self) -> (r: Mode)
        ensures
            r == self@.mode,
    {
        self.mode
    }

    /// Whether nothing is being typed.
    pub fn is_idle(&self) -> (r: bool)
        ensures
            r == idle(self@),
    {
        assert(self@.regs.len() == self.regs@.len());
        self.regs.len() == 0 && self.phase == Phase::Direct && self.romaji.is_empty()
            && self.filling.is_none() && !self.sticky
    }

    /// Goes back to plain letters, unless something is being typed. Returns whether it did.
    pub fn leave_to_ascii(&mut self) -> (r: bool)
        requires
            old(self).wf(),
        ensures
            final(self).wf(),
            r == (old(self)@.mode != Mode::Ascii && idle(old(self)@)),
            final(self)@ == if r {
                State { mode: Mode::Ascii, ..old(self)@ }
            } else {
                old(self)@
            },
    {
        proof {
            lemma_suggestions_frame(self@);
        }
        if self.mode == Mode::Ascii || !self.is_idle() {
            return false;
        }
        self.mode = Mode::Ascii;
        true
    }

    /// Confirms what is being typed, as far as it can be.
    pub fn flush(&mut self) -> (r: String)
        requires
            old(self).wf(),
        ensures
            final(self).wf(),
            (final(self)@, r@) == all_flushed(old(self)@),
    {
        proof {
            lemma_suggestions_frame(self@);
        }
        proof {
            reveal(all_flushed);
            law_flushing_keeps_the_state_sound(self@);
        }
        assert(self@.regs.len() == self.regs@.len());
        if self.regs.len() > 0 {
            let t = String::new();
            assert(t@ =~= seq![]);
            return t;
        }
        let t: String = match self.phase {
            Phase::Direct => {
                let t = self.romaji.flush();
                self.shape(t.as_str())
            },
            Phase::Composing => self.confirm_reading(),
            Phase::Selecting => self.commit_candidate(),
        };
        if !t.as_str().is_empty() {
            self.last_commit = None;
        }
        t
    }

    /// Throws away what is being typed; the mode stays.
    pub fn clear(&mut self)
        requires
            old(self).wf(),
        ensures
            final(self).wf(),
            final(self)@ == cleared(old(self)@),
    {
        self.regs = Vec::new();
        assert(regs_of(self.regs@) =~= seq![]);
        self.filling = None;
        self.fill_suffix = String::new();
        self.sticky = false;
        self.last_commit = None;
        self.reset();
    }

    /// The candidates, while one is chosen.
    pub fn candidates(&self) -> (r: Option<CandidateView>)
        requires
            self.wf(),
        ensures
            r is Some <==> self@.phase == Phase::Selecting,
            r is Some ==> r->0.items@.len() == self@.candidates.len(),
            r is Some ==> forall|i: int|
                0 <= i < self@.candidates.len() ==> (#[trigger] r->0.items@[i]).text@ == shown(
                    self@,
                    self@.candidates[i],
                ) && opt_text(r->0.items@[i].annotation) == self@.candidates[i].cand.annotation,
            r is Some ==> r->0.selected == self@.cand_index && r->0.selected < r->0.items@.len(),
            r is Some ==> r->0.select_keys@ == self@.cfg.select,
            r is Some ==> r->0.inline_until == self@.cfg.inline_candidates,
    {
        if self.phase != Phase::Selecting {
            return None;
        }
        let mut items: Vec<CandidateItem> = Vec::new();
        let mut i: usize = 0;
        assert(self@.candidates.len() == self.candidates@.len());
        while i < self.candidates.len()
            invariant
                i <= self.candidates@.len(),
                self.kept(),
                self@.candidates.len() == self.candidates@.len(),
                items@.len() == i,
                forall|j: int|
                    0 <= j < i ==> (#[trigger] items@[j]).text@ == shown(
                        self@,
                        self@.candidates[j],
                    ) && opt_text(items@[j].annotation) == self@.candidates[j].cand.annotation,
            decreases self.candidates.len() - i,
        {
            let c = &self.candidates[i];
            assert(self@.candidates[i as int] == c@);
            let annotation: Option<String> = match &c.cand.annotation {
                Some(a) => Some(a.clone()),
                None => None,
            };
            let text = self.shown(c);
            items.push(CandidateItem { text, annotation });
            i = i + 1;
        }
        Some(
            CandidateView {
                items,
                selected: self.cand_index,
                select_keys: copy_chars(self.cfg.select_keys()),
                inline_until: self.cfg.inline_candidates(),
            },
        )
    }

    /// What was noted of the last ordering by the screen.
    pub fn take_context_note(&mut self) -> (r: Option<String>)
        requires
            old(self).wf(),
        ensures
            final(self).wf(),
            opt_text(r) == old(self)@.context_note,
            final(self)@ == (State { context_note: None, ..old(self)@ }),
    {
        proof {
            lemma_suggestions_frame(self@);
        }
        self.context_note.take()
    }

    /// Whether it is worth telling what is on the screen.
    pub fn wants_context(&self) -> (r: bool)
        ensures
            r == self@.cfg.context_order,
    {
        self.cfg.context_order()
    }

    /// Tells what is on the screen, and where the cursor is, counted in characters. An
    /// empty screen is forgotten.
    pub fn set_context(&mut self, text: &str, cursor: usize)
        requires
            old(self).wf(),
        ensures
            final(self).wf(),
            final(self)@ == (State {
                context: if text@.len() == 0 {
                    None
                } else {
                    Some(
                        ScreenText {
                            chars: text@,
                            cursor: if cursor <= text@.len() {
                                cursor as int
                            } else {
                                text@.len() as int
                            },
                        },
                    )
                },
                ..old(self)@
            }),
    {
        proof {
            lemma_suggestions_frame(self@);
        }
        if text.is_empty() {
            self.context = None;
        } else {
            self.context = Some(Context::new(text, cursor));
        }
    }

    /// The candidates that the screen may order, as they were found. None where it may not.
    fn orderable_items(&self) -> (r: Option<Vec<Item>>)
        requires
            self.wf(),
        ensures
            r is Some == orderable(self@),
            r matches Some(v) ==> items_of(v@) == found_now(self@),
    {
        if !self.fresh || self.phase != Phase::Selecting || !self.cfg.context_order() {
            return None;
        }
        match &self.context {
            None => {
                return None;
            },
            Some(ctx) => {
                if ctx.is_empty() {
                    return None;
                }
            },
        }
        let (found, _) = self.find_candidates(self.dict_key.as_str());
        assert(items_of(found@).len() == found@.len());
        if found.len() < 2 {
            None
        } else {
            Some(found)
        }
    }

    /// The clues that the screen gives to each candidate that was found, while it may order
    /// them.
    pub fn context_clues(&self) -> (r: Vec<Vec<Mention>>)
        requires
            self.wf(),
        ensures
            !orderable(self@) ==> r@.len() == 0,
            orderable(self@) ==> r@.len() == found_now(self@).len(),
            orderable(self@) ==> forall|i: int|
                0 <= i < r@.len() ==> mention_texts((#[trigger] r@[i])@) == clues_to(
                    self@.context->0,
                    found_now(self@)[i].cand.text,
                    found_now(self@)[i].cand.annotation,
                ),
    {
        let mut out: Vec<Vec<Mention>> = Vec::new();
        if let Some(found) = self.orderable_items() {
            let ghost all = items_of(found@);
            if let Some(ctx) = &self.context {
                let mut i: usize = 0;
                while i < found.len()
                    invariant
                        i <= found@.len(),
                        all == items_of(found@),
                        ctx.wf(),
                        out@.len() == i,
                        forall|j: int|
                            0 <= j < i ==> mention_texts((#[trigger] out@[j])@) == clues_to(
                                ctx@,
                                all[j].cand.text,
                                all[j].cand.annotation,
                            ),
                    decreases found.len() - i,
                {
                    let c = &found[i];
                    assert(all[i as int] == c@);
                    out.push(ctx.explain(c.cand.text.as_str(), &c.cand.annotation));
                    i = i + 1;
                }
            }
        }
        out
    }

    /// The words that the screen may order, in the order of their clues.
    pub fn context_words(&self) -> (r: Vec<String>)
        requires
            self.wf(),
        ensures
            !orderable(self@) ==> r@.len() == 0,
            orderable(self@) ==> texts(r@) == found_now(self@).map_values(|c: Choice| c.cand.text),
    {
        let mut out: Vec<String> = Vec::new();
        if let Some(found) = self.orderable_items() {
            let ghost all = items_of(found@);
            let mut i: usize = 0;
            while i < found.len()
                invariant
                    i <= found@.len(),
                    all == items_of(found@),
                    out@.len() == i,
                    forall|j: int| 0 <= j < i ==> (#[trigger] out@[j])@ == all[j].cand.text,
                decreases found.len() - i,
            {
                assert(all[i as int] == found@[i as int]@);
                out.push(found[i].cand.text.clone());
                i = i + 1;
            }
            assert(texts(out@) =~= all.map_values(|c: Choice| c.cand.text));
        }
        out
    }

    /// The reading that the dictionary was last asked for.
    pub fn asked(&self) -> (r: &str)
        ensures
            r@ == self@.dict_key,
    {
        self.dict_key.as_str()
    }

    /// Orders the candidates by ranks, the highest first; 0 is no rank. `note` is kept for
    /// those who want to know why.
    pub fn rank_by_context(&mut self, ranks: &Vec<u64>, note: String)
        requires
            old(self).wf(),
        ensures
            final(self).wf(),
            final(self)@ == context_ranked(old(self)@, rank_numbers(ranks@), note@),
    {
        proof {
            lemma_suggestions_frame(self@);
            lemma_ranked_sound(self@, rank_numbers(ranks@), note@);
        }
        let found = match self.orderable_items() {
            None => {
                return;
            },
            Some(v) => v,
        };
        assert(items_of(found@).len() == found@.len());
        if ranks.len() != found.len() {
            return;
        }
        let mut any = false;
        let mut i: usize = 0;
        while i < ranks.len()
            invariant
                i <= ranks@.len(),
                any == exists|j: int| 0 <= j < i && #[trigger] rank_numbers(ranks@)[j] > 0,
            decreases ranks.len() - i,
        {
            assert(rank_numbers(ranks@)[i as int] == ranks@[i as int]);
            if ranks[i] > 0 {
                any = true;
            }
            i = i + 1;
        }
        if !any {
            return;
        }
        let ranked = rank_items(&found, ranks);
        self.candidates = self.sort_by_okuri(ranked);
        self.cand_index = 0;
        self.context_note = Some(note);
        self.fresh = false;
    }
}

} // verus!
