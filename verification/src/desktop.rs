//! The engine as an input method of a desktop uses it.
//!
//! Keys come as the numbers that a window system gives them, and what is shown goes to the
//! desktop in pieces with a style each. Candidates go to a window of their own.
use vstd::prelude::*;
use vstd::string::*;
use crate::config::{
    config_error, configured, default_config, law_empty_file_gives_the_defaults, toml_shape, Config,
    ConfigText,
};
use crate::display::{preedit_of, Seg};
use crate::key::{Key, KeyText};
use crate::machine::{
    all_flushed, cleared, context_ranked, handled, initial, list_shown, shown, Choice, Mode, Phase,
    State, Style,
};
use crate::skk::{rank_numbers, segs_of, Skk};
use crate::soundness::{law_an_accepted_setup_is_usable, usable};
use crate::text::{chars_of, lemma_take_next, opt_text, text_of};

verus! {

pub const TTYSKK_MODE_ASCII: i32 = 0;

pub const TTYSKK_MODE_HIRAGANA: i32 = 1;

pub const TTYSKK_MODE_KATAKANA: i32 = 2;

pub const TTYSKK_MODE_HANKAKU_KATAKANA: i32 = 3;

pub const TTYSKK_MODE_ZENKAKU_ASCII: i32 = 4;

pub const TTYSKK_STYLE_READING: i32 = 0;

pub const TTYSKK_STYLE_ROMAJI: i32 = 1;

pub const TTYSKK_STYLE_CANDIDATE: i32 = 2;

/// The character of the reading that the cursor is on.
pub const TTYSKK_STYLE_READING_CURSOR: i32 = 3;

/// A completion that is shown while typing.
pub const TTYSKK_STYLE_COMPLETION: i32 = 4;

/// The number of a mode.
pub open spec fn mode_number(m: Mode) -> i32 {
    match m {
        Mode::Ascii => TTYSKK_MODE_ASCII,
        Mode::Hiragana => TTYSKK_MODE_HIRAGANA,
        Mode::Katakana => TTYSKK_MODE_KATAKANA,
        Mode::HankakuKatakana => TTYSKK_MODE_HANKAKU_KATAKANA,
        Mode::ZenkakuAscii => TTYSKK_MODE_ZENKAKU_ASCII,
    }
}

/// The number of a mode.
pub fn mode_code(m: Mode) -> (r: i32)
    ensures
        r == mode_number(m),
{
    match m {
        Mode::Ascii => TTYSKK_MODE_ASCII,
        Mode::Hiragana => TTYSKK_MODE_HIRAGANA,
        Mode::Katakana => TTYSKK_MODE_KATAKANA,
        Mode::HankakuKatakana => TTYSKK_MODE_HANKAKU_KATAKANA,
        Mode::ZenkakuAscii => TTYSKK_MODE_ZENKAKU_ASCII,
    }
}

/// The number of a style. The mark of the mode is shown by the desktop itself, and the list
/// of candidates has a window of its own: neither is part of what is being typed.
pub open spec fn style_number(s: Style) -> Option<i32> {
    match s {
        Style::Reading => Some(TTYSKK_STYLE_READING),
        Style::ReadingCursor => Some(TTYSKK_STYLE_READING_CURSOR),
        Style::Romaji => Some(TTYSKK_STYLE_ROMAJI),
        Style::Candidate => Some(TTYSKK_STYLE_CANDIDATE),
        Style::Completion => Some(TTYSKK_STYLE_COMPLETION),
        _ => None,
    }
}

/// The number of a style, for what is part of what is being typed.
pub fn style_code(s: Style) -> (r: Option<i32>)
    ensures
        r == style_number(s),
{
    match s {
        Style::Reading => Some(TTYSKK_STYLE_READING),
        Style::ReadingCursor => Some(TTYSKK_STYLE_READING_CURSOR),
        Style::Romaji => Some(TTYSKK_STYLE_ROMAJI),
        Style::Candidate => Some(TTYSKK_STYLE_CANDIDATE),
        Style::Completion => Some(TTYSKK_STYLE_COMPLETION),
        _ => None,
    }
}

/// Whether a key only modifies others: Shift and its like, and the locks.
pub open spec fn modifies(keysym: u32) -> bool {
    0xfe01 <= keysym <= 0xfe13 || keysym == 0xff7e || keysym == 0xff7f || 0xffe1 <= keysym <= 0xffee
}

/// Whether a key only modifies others. Pressing one does nothing: it must not confirm what
/// is being typed.
pub fn is_modifier(keysym: u32) -> (r: bool)
    ensures
        r == modifies(keysym),
{
    (0xfe01 <= keysym && keysym <= 0xfe13) || keysym == 0xff7e || keysym == 0xff7f || (0xffe1
        <= keysym && keysym <= 0xffee)
}

/// The bit of `bits` that has the weight `w`.
pub open spec fn bit(bits: u32, w: u32) -> bool {
    (bits / w) % 2 == 1
}

/// The key that a number with modifiers stands for. With Alt or Super a key is not for the
/// engine, and neither is one without a character or a name, such as an arrow.
pub open spec fn key_of_sym(keysym: u32, modifiers: u32) -> Option<KeyText> {
    let ctrl = bit(modifiers, 4);
    let shift = bit(modifiers, 1);
    if bit(modifiers, 8) || bit(modifiers, 64) {
        None
    } else if keysym == 0xff0d || keysym == 0xff8d {
        Some(KeyText::Enter)
    } else if keysym == 0xff08 {
        Some(KeyText::Backspace)
    } else if keysym == 0xff09 && !shift && !ctrl {
        Some(KeyText::Tab)
    } else if keysym == 0xfe20 {
        Some(KeyText::ShiftTab)
    } else if keysym == 0xff1b {
        Some(KeyText::Esc)
    } else if 0x20 <= keysym <= 0x7e {
        if !ctrl {
            Some(KeyText::Char(keysym as char))
        } else if keysym == 0x20 {
            Some(KeyText::Ctrl(0))
        } else if 0x61 <= keysym <= 0x7a {
            Some(KeyText::Ctrl((keysym - 0x60) as u8))
        } else if 0x41 <= keysym <= 0x5a {
            Some(KeyText::Ctrl((keysym - 0x40) as u8))
        } else {
            None
        }
    } else if 0x0100_0000 <= keysym <= 0x0110_ffff && !ctrl {
        let n = (keysym - 0x0100_0000) as u32;
        if vstd::utf8::is_scalar(n) {
            Some(KeyText::Char(n as char))
        } else {
            None
        }
    } else {
        None
    }
}

/// The key of a character, by its number.
fn char_key(n: u32) -> (r: Option<Key>)
    ensures
        match r {
            Some(k) => vstd::utf8::is_scalar(n) && k@ == KeyText::Char(n as char),
            None => !vstd::utf8::is_scalar(n),
        },
{
    match char::from_u32(n) {
        Some(c) => {
            proof {
                vstd::utf8::char_u32_cast(c, n);
            }
            Some(Key::Char(c))
        },
        None => None,
    }
}

/// Turns the number of a key and its modifiers into a key.
pub fn to_key(keysym: u32, modifiers: u32) -> (r: Option<Key>)
    ensures
        match r {
            Some(k) => key_of_sym(keysym, modifiers) == Some(k@),
            None => key_of_sym(keysym, modifiers) is None,
        },
{
    let ctrl = (modifiers / 4) % 2 == 1;
    let shift = (modifiers / 1) % 2 == 1;
    if (modifiers / 8) % 2 == 1 || (modifiers / 64) % 2 == 1 {
        return None;
    }
    if keysym == 0xff0d || keysym == 0xff8d {
        Some(Key::Enter)
    } else if keysym == 0xff08 {
        Some(Key::Backspace)
    } else if keysym == 0xff09 && !shift && !ctrl {
        Some(Key::Tab)
    } else if keysym == 0xfe20 {
        Some(Key::ShiftTab)
    } else if keysym == 0xff1b {
        Some(Key::Esc)
    } else if 0x20 <= keysym && keysym <= 0x7e {
        if !ctrl {
            char_key(keysym)
        } else if keysym == 0x20 {
            Some(Key::Ctrl(0))
        } else if 0x61 <= keysym && keysym <= 0x7a {
            Some(Key::Ctrl((keysym - 0x60) as u8))
        } else if 0x41 <= keysym && keysym <= 0x5a {
            Some(Key::Ctrl((keysym - 0x40) as u8))
        } else {
            None
        }
    } else if 0x0100_0000 <= keysym && keysym <= 0x0110_ffff && !ctrl {
        char_key(keysym - 0x0100_0000)
    } else {
        None
    }
}

/// Characters other than the one that ends a text of C.
pub open spec fn not_nul() -> spec_fn(char) -> bool {
    |c: char| c != '\0'
}

/// A text that C can hold.
fn for_c(s: &str) -> (r: String)
    ensures
        r@ == s@.filter(not_nul()),
{
    let v = chars_of(s);
    let mut out = String::new();
    let mut i: usize = 0;
    assert(v@.take(0).filter(not_nul()) =~= seq![]);
    while i < v.len()
        invariant
            i <= v@.len(),
            v@ == s@,
            out@ == v@.take(i as int).filter(not_nul()),
        decreases v.len() - i,
    {
        proof {
            lemma_take_next(v@, i as int);
            Seq::lemma_filter_push(v@.take(i as int), v@[i as int], not_nul());
        }
        if v[i] != '\0' {
            out.push(v[i]);
        }
        i = i + 1;
    }
    assert(v@.take(i as int) =~= v@);
    out
}

/// The first `n` pieces of what is being typed, with the numbers of their styles.
pub open spec fn pieces_for_c(v: Seq<Seg>, n: int) -> Seq<(Seq<char>, i32)>
    decreases n,
{
    if n <= 0 {
        seq![]
    } else {
        let so_far = pieces_for_c(v, n - 1);
        match style_number(v[n - 1].style) {
            Some(k) => so_far.push((v[n - 1].text.filter(not_nul()), k)),
            None => so_far,
        }
    }
}

/// What a candidate is for the desktop: its text, and its annotation or nothing.
pub open spec fn choice_for_c(s: State, c: Choice) -> (Seq<char>, Seq<char>) {
    (
        shown(s, c).filter(not_nul()),
        match c.cand.annotation {
            Some(a) => a.filter(not_nul()),
            None => seq![],
        },
    )
}

/// The candidates for the desktop; none unless one is chosen.
pub open spec fn choices_for_c(s: State) -> Seq<(Seq<char>, Seq<char>)> {
    if s.phase == Phase::Selecting {
        s.candidates.map_values(|c: Choice| choice_for_c(s, c))
    } else {
        seq![]
    }
}

pub open spec fn piece_texts(v: Seq<(String, i32)>) -> Seq<(Seq<char>, i32)> {
    v.map_values(|p: (String, i32)| (p.0@, p.1))
}

pub open spec fn pair_texts(v: Seq<(String, String)>) -> Seq<(Seq<char>, Seq<char>)> {
    v.map_values(|p: (String, String)| (p.0@, p.1@))
}

/// The setup that a text gives; nothing where it is refused.
pub open spec fn setup_of(text: Seq<char>) -> Option<ConfigText> {
    match toml_shape(text) {
        Some(doc) => if config_error(doc) is None {
            Some(configured(doc))
        } else {
            None
        },
        None => None,
    }
}

/// What a key of a desktop makes of the engine: the state after it, the text that is confirmed,
/// and whether the engine has a use for the key.
pub open spec fn taken_from_desktop(s: State, keysym: u32, modifiers: u32) -> (
    State,
    Seq<char>,
    bool,
) {
    if modifies(keysym) {
        (s, seq![], false)
    } else {
        match key_of_sym(keysym, modifiers) {
            None => (all_flushed(s).0, all_flushed(s).1, false),
            Some(k) => (
                handled(s, k).0,
                handled(s, k).1.commit,
                handled(s, k).1.passthrough is None,
            ),
        }
    }
}

/// The engine with what came of the last key, ready to be handed to the desktop.
pub struct TtyskkEngine {
    skk: Skk,
    commit: String,
    preedit: Vec<(String, i32)>,
    candidates: Vec<(String, String)>,
    selected: usize,
    list_visible: bool,
    labels: String,
}

/// What is handed to the desktop.
pub struct Handed {
    pub commit: Seq<char>,
    pub preedit: Seq<(Seq<char>, i32)>,
    pub candidates: Seq<(Seq<char>, Seq<char>)>,
    pub selected: int,
    pub list_visible: bool,
    pub labels: Seq<char>,
}

/// What is handed to the desktop in a state of the engine, with the text that was confirmed.
pub open spec fn handed(s: State, commit: Seq<char>) -> Handed {
    let p = preedit_of(s);
    let all = p.at_cursor + p.floating;
    let choosing = s.phase == Phase::Selecting;
    Handed {
        commit: commit.filter(not_nul()),
        preedit: pieces_for_c(all, all.len() as int),
        candidates: choices_for_c(s),
        selected: if choosing {
            s.cand_index
        } else {
            0
        },
        list_visible: choosing && list_shown(s),
        labels: if choosing {
            s.cfg.select.filter(not_nul())
        } else {
            seq![]
        },
    }
}

impl TtyskkEngine {
    /// The state of the engine.
    pub closed spec fn state(&self) -> State {
        self.skk@
    }

    /// What is handed to the desktop.
    pub closed spec fn hands(&self) -> Handed {
        Handed {
            commit: self.commit@,
            preedit: piece_texts(self.preedit@),
            candidates: pair_texts(self.candidates@),
            selected: self.selected as int,
            list_visible: self.list_visible,
            labels: self.labels@,
        }
    }

    pub closed spec fn wf(&self) -> bool {
        self.skk.wf()
    }

    /// Takes over what there is to hand out.
    fn refresh(&mut self, commit: &str)
        requires
            old(self).wf(),
        ensures
            final(self).wf(),
            final(self).state() == old(self).state(),
            final(self).hands() == handed(old(self).state(), commit@),
    {
        let ghost s = self.skk@;
        self.commit = for_c(commit);
        let mut p = self.skk.preedit();
        let ghost all = preedit_of(s).at_cursor + preedit_of(s).floating;
        let ghost at = segs_of(p.at_cursor@);
        let ghost fl = segs_of(p.floating@);
        let mut segs = p.at_cursor;
        let mut more = p.floating;
        segs.append(&mut more);
        assert(segs_of(segs@) =~= at + fl);
        let mut pieces: Vec<(String, i32)> = Vec::new();
        let mut i: usize = 0;
        assert(piece_texts(pieces@) =~= seq![]);
        while i < segs.len()
            invariant
                i <= segs@.len(),
                all == segs_of(segs@),
                piece_texts(pieces@) == pieces_for_c(all, i as int),
            decreases segs.len() - i,
        {
            let ghost had = piece_texts(pieces@);
            assert(all[i as int] == segs@[i as int]@);
            if let Some(style) = style_code(segs[i].style) {
                let text = for_c(segs[i].text.as_str());
                let one = (text, style);
                pieces.push(one);
                assert(piece_texts(pieces@) =~= had.push((one.0@, one.1)));
            }
            i = i + 1;
        }
        self.preedit = pieces;
        self.candidates = Vec::new();
        self.selected = 0;
        self.list_visible = false;
        self.labels = String::new();
        if let Some(view) = self.skk.candidates() {
            self.list_visible = view.selected >= view.inline_until;
            let mut list: Vec<(String, String)> = Vec::new();
            let mut j: usize = 0;
            while j < view.items.len()
                invariant
                    j <= view.items@.len(),
                    view.items@.len() == s.candidates.len(),
                    forall|k: int|
                        0 <= k < s.candidates.len() ==> (#[trigger] view.items@[k]).text@ == shown(
                            s,
                            s.candidates[k],
                        ) && opt_text(view.items@[k].annotation)
                            == s.candidates[k].cand.annotation,
                    pair_texts(list@).len() == j,
                    forall|k: int|
                        0 <= k < j ==> #[trigger] pair_texts(list@)[k] == choice_for_c(
                            s,
                            s.candidates[k],
                        ),
                decreases view.items.len() - j,
            {
                let ghost had = pair_texts(list@);
                let item = &view.items[j];
                assert(view.items@[j as int] == *item);
                let text = for_c(item.text.as_str());
                let note = match &item.annotation {
                    Some(a) => for_c(a.as_str()),
                    None => String::new(),
                };
                let one = (text, note);
                list.push(one);
                j = j + 1;
                proof {
                    assert(one.1@ =~= choice_for_c(s, s.candidates[j - 1]).1);
                    assert(pair_texts(list@) =~= had.push((one.0@, one.1@)));
                }
            }
            self.candidates = list;
            self.selected = view.selected;
            let keys = text_of(&view.select_keys);
            self.labels = for_c(keys.as_str());
        }
        proof {
            assert(pair_texts(self.candidates@) =~= choices_for_c(s));
            assert(self.labels@ =~= handed(s, commit@).labels);
        }
    }

    /// The engine for a desktop. A setup that cannot be worked with is not taken: the
    /// defaults are.
    pub fn new(dict: crate::dict::Dict, config: Option<&str>) -> (r: TtyskkEngine)
        requires
            dict.wf(),
        ensures
            r.wf(),
            r.state() == initial(
                dict@,
                match config {
                    Some(text) => match setup_of(text@) {
                        Some(cfg) => cfg,
                        None => default_config(),
                    },
                    None => default_config(),
                },
            ),
            r.hands() == handed(r.state(), seq![]),
    {
        let cfg = match config {
            Some(text) => {
                proof {
                    lemma_setup_is_usable(text@);
                }
                match Config::parse(text) {
                    Ok(cfg) => cfg,
                    Err(_) => Config::default(),
                }
            },
            None => Config::default(),
        };
        proof {
            law_empty_file_gives_the_defaults();
            law_an_accepted_setup_is_usable(Seq::empty());
        }
        let ghost c = cfg@;
        let ghost d = dict@;
        let mut r = TtyskkEngine {
            skk: Skk::new(dict, cfg),
            commit: String::new(),
            preedit: Vec::new(),
            candidates: Vec::new(),
            selected: 0,
            list_visible: false,
            labels: String::new(),
        };
        assert(r.state() == initial(d, c));
        r.refresh("");
        proof {
            reveal_strlit("");
            assert(""@ =~= seq![]);
        }
        r
    }

    /// Changes the setup, unless it cannot be read.
    pub fn set_config(&mut self, text: &str) -> (r: bool)
        requires
            old(self).wf(),
        ensures
            final(self).wf(),
            final(self).hands() == old(self).hands(),
            match setup_of(text@) {
                Some(cfg) => r && final(self).state() == (State { cfg, ..old(self).state() }),
                None => !r && final(self).state() == old(self).state(),
            },
    {
        proof {
            lemma_setup_is_usable(text@);
        }
        match Config::parse(text) {
            Ok(cfg) => {
                self.skk.set_config(cfg);
                true
            },
            Err(_) => false,
        }
    }

    /// Throws away what is being typed; the mode stays.
    pub fn reset(&mut self)
        requires
            old(self).wf(),
        ensures
            final(self).wf(),
            final(self).state() == cleared(old(self).state()),
            final(self).hands() == handed(final(self).state(), seq![]),
    {
        self.skk.clear();
        self.refresh("");
        proof {
            reveal_strlit("");
            assert(""@ =~= seq![]);
        }
    }

    /// Takes a key, and tells whether the engine has a use for it. Where it has none, what
    /// was being typed may have been confirmed all the same.
    pub fn key(&mut self, keysym: u32, modifiers: u32) -> (r: bool)
        requires
            old(self).wf(),
        ensures
            final(self).wf(),
            ({
                let s = old(self).state();
                let t = final(self).state();
                if modifies(keysym) {
                    !r && t == s && final(self).hands() == handed(s, seq![])
                } else {
                    match key_of_sym(keysym, modifiers) {
                        None => {
                            &&& !r
                            &&& t == all_flushed(s).0
                            &&& final(self).hands() == handed(t, all_flushed(s).1)
                        },
                        Some(k) => {
                            &&& r == handled(s, k).1.passthrough is None
                            &&& t == handled(s, k).0
                            &&& final(self).hands() == handed(t, handled(s, k).1.commit)
                        },
                    }
                }
            }),
            ({
                let t = taken_from_desktop(old(self).state(), keysym, modifiers);
                final(self).state() == t.0 && final(self).hands() == handed(t.0, t.1) && r == t.2
            }),
    {
        if is_modifier(keysym) {
            self.refresh("");
            proof {
            reveal_strlit("");
            assert(""@ =~= seq![]);
        }
            return false;
        }
        match to_key(keysym, modifiers) {
            None => {
                let commit = self.skk.flush();
                self.refresh(commit.as_str());
                false
            },
            Some(key) => {
                let r = self.skk.handle(key);
                self.refresh(r.commit.as_str());
                r.passthrough.is_none()
            },
        }
    }

    /// Orders the candidates by the ranks that the screen gives them.
    pub fn rank(&mut self, ranks: &Vec<u64>, note: String)
        requires
            old(self).wf(),
        ensures
            final(self).wf(),
            final(self).state() == context_ranked(old(self).state(), rank_numbers(ranks@), note@),
            final(self).hands() == (Handed {
                commit: old(self).hands().commit,
                ..handed(final(self).state(), seq![])
            }),
    {
        let kept = self.commit.clone();
        self.skk.rank_by_context(ranks, note);
        self.refresh("");
        proof {
            reveal_strlit("");
            assert(""@ =~= seq![]);
        }
        self.commit = kept;
    }

    /// The text that the last key has confirmed.
    pub fn commit(&self) -> (r: &str)
        ensures
            r@ == self.hands().commit,
    {
        self.commit.as_str()
    }

    /// The number of the mode.
    pub fn mode(&self) -> (r: i32)
        ensures
            r == mode_number(self.state().mode),
    {
        mode_code(self.skk.mode())
    }

    /// The pieces of what is being typed.
    pub fn preedit(&self) -> (r: &Vec<(String, i32)>)
        ensures
            piece_texts(r@) == self.hands().preedit,
    {
        &self.preedit
    }

    /// The candidates with their annotations.
    pub fn candidates(&self) -> (r: &Vec<(String, String)>)
        ensures
            pair_texts(r@) == self.hands().candidates,
    {
        &self.candidates
    }

    /// The place of the candidate in hand.
    pub fn selected(&self) -> (r: usize)
        ensures
            r == self.hands().selected,
    {
        self.selected
    }

    /// Whether the list of candidates is to be shown.
    pub fn list_visible(&self) -> (r: bool)
        ensures
            r == self.hands().list_visible,
    {
        self.list_visible
    }

    /// The keys that choose from the list.
    pub fn labels(&self) -> (r: &str)
        ensures
            r@ == self.hands().labels,
    {
        self.labels.as_str()
    }

    /// The engine itself.
    pub fn skk_mut(&mut self) -> (r: &mut Skk)
        requires
            old(self).wf(),
        ensures
            r.wf(),
            r@ == old(self).state(),
            final(self).state() == final(r)@,
            final(self).hands() == old(self).hands(),
            final(r).wf() ==> final(self).wf(),
    {
        &mut self.skk
    }

    /// The engine itself, to look at.
    pub fn skk(&self) -> (r: &Skk)
        ensures
            r@ == self.state(),
            self.wf() ==> r.wf(),
    {
        &self.skk
    }
}

proof fn lemma_setup_is_usable(text: Seq<char>)
    ensures
        setup_of(text) is Some ==> usable(setup_of(text)->0),
{
    match toml_shape(text) {
        Some(doc) => {
            if config_error(doc) is None {
                law_an_accepted_setup_is_usable(doc);
            }
        },
        None => {},
    }
}

/// Pressing a key that only modifies others changes nothing that is being typed.
pub proof fn law_modifiers_are_no_keys(keysym: u32, modifiers: u32)
    requires
        modifies(keysym),
    ensures
        key_of_sym(keysym, modifiers) is None,
{
}

} // verus!
