//! The rules of the engine: what each key does to its state, and what comes out.
//!
//! The state is either direct (▽ and ▼ are not shown), composing a reading (▽) or
//! selecting a candidate (▼). Registrations of unknown words are stacked on top, and a
//! snippet with places to fill in stands above all.
use vstd::prelude::*;
use crate::config::{page_len, ConfigText, DynamicCompletion, OkuriMatch};
use crate::context::ScreenText;
use crate::dict::{
    completions, from_snippet, learned, looked_up, noted, okuri_learned, okuri_looked_up, DictText,
};
use crate::jisyo::{CandText, ChangeText};
use crate::key::{has, held, key_bytes, KeyText};
use crate::num::{abstracted, expanded, numbers};
use crate::romaji::{flushed, in_hankaku, in_hiragana, in_katakana, settled, table, zenkaku_form};
use crate::snippet::{pieces, preview, seed, variables_opened, Now, PieceText};
use crate::text::{capital, control, lower, replaced, upper};

verus! {

/// What the letters typed become.
#[derive(Clone, Copy, PartialEq, Eq, Debug, Structural)]
pub enum Mode {
    Ascii,
    Hiragana,
    Katakana,
    HankakuKatakana,
    ZenkakuAscii,
}

/// Where a conversion stands.
#[derive(Clone, Copy, PartialEq, Eq, Debug, Structural)]
pub enum Phase {
    /// No conversion.
    Direct,
    /// ▽: a reading is typed.
    Composing,
    /// ▼: a candidate is chosen.
    Selecting,
}

/// How a part of what is being typed looks.
#[derive(Clone, Copy, PartialEq, Eq, Debug, Structural)]
pub enum Style {
    Reading,
    ReadingCursor,
    Romaji,
    Candidate,
    ListItem,
    ListSelected,
    Completion,
    ModeHiragana,
    ModeKatakana,
    ModeHankaku,
    ModeZenkaku,
}

/// A colour laid under a cell near the cursor.
#[derive(Clone, Copy, Debug, PartialEq, Eq, Structural)]
pub struct Tint {
    pub style: Style,
    /// How many cells to the right of the cursor.
    pub offset: usize,
    /// The mark to show in the cell, if any.
    pub glyph: Option<char>,
}

/// A candidate and the reading it was found under.
pub struct Choice {
    pub key: Seq<char>,
    pub cand: CandText,
}

/// A word being registered.
pub struct Reg {
    pub key: Seq<char>,
    pub buffer: Seq<char>,
    pub reading: Seq<char>,
    pub okuri_head: Option<char>,
    pub okuri_kana: Seq<char>,
    pub abbrev: bool,
    pub auto_suffix: Seq<char>,
    pub offering_snippet: bool,
}

/// A completion of the reading.
pub struct Compl {
    pub original: Seq<char>,
    pub words: Seq<Seq<char>>,
    pub index: int,
}

/// A snippet whose places are being filled in.
pub struct Fill {
    pub pieces: Seq<PieceText>,
    /// The places in the order they are filled in.
    pub order: Seq<nat>,
    /// The one that is filled in now.
    pub at: int,
    pub values: Map<nat, Seq<char>>,
}

/// The state of the engine.
pub struct State {
    pub mode: Mode,
    pub phase: Phase,
    /// The letters that are not kana yet.
    pub waiting: Seq<char>,
    pub reading: Seq<char>,
    /// Where the next kana of the reading goes.
    pub cursor: int,
    pub okuri_head: Option<char>,
    pub okuri_kana: Seq<char>,
    /// The reading is made of plain letters.
    pub abbrev: bool,
    /// Shift was pressed ahead of the next character.
    pub sticky: bool,
    pub candidates: Seq<Choice>,
    pub cand_index: int,
    pub numbers: Seq<Seq<char>>,
    pub dict_key: Seq<char>,
    pub dict: DictText,
    pub cfg: ConfigText,
    pub regs: Seq<Reg>,
    pub completion: Option<Compl>,
    pub suggestion: Seq<Seq<char>>,
    /// The reading and the text confirmed last, while nothing came in between.
    pub last_commit: Option<(Seq<char>, Seq<char>)>,
    pub context: Option<ScreenText>,
    pub context_note: Option<Seq<char>>,
    /// The candidates were found just now and may still be ordered by the screen.
    pub fresh: bool,
    pub now: Now,
    pub filling: Option<Fill>,
    pub fill_suffix: Seq<char>,
    /// What started the conversion; it goes behind the candidate.
    pub auto_suffix: Seq<char>,
}

/// What comes out of a key.
pub struct Reply {
    /// Text for the child.
    pub commit: Seq<char>,
    /// The key itself, where the engine has no use for it.
    pub passthrough: Option<KeyText>,
    pub mode_changed: bool,
    /// How far the cursor goes back after the text.
    pub cursor_back: nat,
    /// The reading under which a snippet is to be written.
    pub edit_snippet: Option<Seq<char>>,
}

pub open spec fn silence() -> Reply {
    Reply {
        commit: seq![],
        passthrough: None,
        mode_changed: false,
        cursor_back: 0,
        edit_snippet: None,
    }
}

pub open spec fn saying(t: Seq<char>) -> Reply {
    Reply { commit: t, ..silence() }
}

pub open spec fn passing(k: KeyText) -> Reply {
    Reply { passthrough: Some(k), ..silence() }
}

pub open spec fn turning() -> Reply {
    Reply { mode_changed: true, ..silence() }
}

/// The bytes for the child.
pub open spec fn reply_bytes(r: Reply) -> Seq<u8> {
    vstd::utf8::encode_utf8(r.commit) + match r.passthrough {
        Some(k) => key_bytes(k),
        None => seq![],
    }
}

/// The modes that make kana.
pub open spec fn kana_mode(m: Mode) -> bool {
    m == Mode::Hiragana || m == Mode::Katakana || m == Mode::HankakuKatakana
}

/// Kana as the mode writes them.
pub open spec fn shaped(m: Mode, kana: Seq<char>) -> Seq<char> {
    match m {
        Mode::Katakana => in_katakana(kana),
        Mode::HankakuKatakana => in_hankaku(kana),
        _ => kana,
    }
}

/// A part of the reading as it is shown.
pub open spec fn shown_reading(s: State, kana: Seq<char>) -> Seq<char> {
    if s.abbrev {
        kana
    } else {
        shaped(s.mode, kana)
    }
}

/// Nothing is being typed.
pub open spec fn idle(s: State) -> bool {
    s.regs.len() == 0 && s.phase == Phase::Direct && s.waiting.len() == 0 && s.filling is None
        && !s.sticky
}

/// The conversion is over.
pub open spec fn reset(s: State) -> State {
    State {
        completion: None,
        phase: Phase::Direct,
        waiting: seq![],
        reading: seq![],
        cursor: 0,
        okuri_head: None,
        okuri_kana: seq![],
        abbrev: false,
        candidates: seq![],
        cand_index: 0,
        numbers: seq![],
        dict_key: seq![],
        auto_suffix: seq![],
        ..s
    }
}

/// One more character typed: the kana that settle, and the state with the letters that wait.
#[verifier::opaque]
pub open spec fn fed(s: State, c: char) -> (State, Seq<char>) {
    let r = settled(table(s.cfg.azik), s.waiting.push(c));
    (State { waiting: r.1, ..s }, s.cfg.kutouten.marked(r.0))
}

/// `t` put into the reading at the cursor.
pub open spec fn inserted(s: State, t: Seq<char>) -> State {
    State {
        reading: s.reading.take(s.cursor) + t + s.reading.skip(s.cursor),
        cursor: s.cursor + t.len(),
        ..s
    }
}

/// A new reading, with the cursor at its end.
pub open spec fn with_reading(s: State, t: Seq<char>) -> State {
    State { reading: t, cursor: t.len() as int, ..s }
}

/// The character before the cursor deleted, if there is one.
pub open spec fn deleted_before(s: State) -> State {
    if s.cursor > 0 {
        State { reading: s.reading.remove(s.cursor - 1), cursor: s.cursor - 1, ..s }
    } else {
        s
    }
}

/// The character at the cursor deleted, if there is one.
pub open spec fn deleted_at(s: State) -> State {
    if s.cursor < s.reading.len() {
        State { reading: s.reading.remove(s.cursor), ..s }
    } else {
        s
    }
}

/// The letters that wait end: a lone n is ん, anything else is dropped.
#[verifier::opaque]
pub open spec fn pending_flushed(s: State) -> State {
    let t = flushed(s.waiting);
    let s1 = State { waiting: seq![], ..s };
    if t.len() == 0 {
        s1
    } else if s.okuri_head is Some {
        State { okuri_kana: s1.okuri_kana + t, ..s1 }
    } else {
        inserted(s1, t)
    }
}

/// Whether a candidate is written like one of the choices.
pub open spec fn has_choice(v: Seq<Choice>, text: Seq<char>) -> bool {
    exists|i: int| 0 <= i < v.len() && (#[trigger] v[i]).cand.text == text
}

/// The candidates of a reading as choices.
pub open spec fn choices_of(key: Seq<char>, v: Seq<CandText>) -> Seq<Choice> {
    v.map_values(|c: CandText| Choice { key, cand: c })
}

/// `v` with the first `n` of `more` behind it, as far as they are new.
pub open spec fn choices_added(
    v: Seq<Choice>,
    key: Seq<char>,
    more: Seq<CandText>,
    n: int,
) -> Seq<Choice>
    decreases n,
{
    if n <= 0 {
        v
    } else {
        let had = choices_added(v, key, more, n - 1);
        if has_choice(had, more[n - 1].text) {
            had
        } else {
            had.push(Choice { key, cand: more[n - 1] })
        }
    }
}

/// A choice written `text`.
pub open spec fn written(text: Seq<char>) -> spec_fn(Choice) -> bool {
    |c: Choice| c.cand.text == text
}

/// A choice written otherwise than `text`.
pub open spec fn unwritten(text: Seq<char>) -> spec_fn(Choice) -> bool {
    |c: Choice| c.cand.text != text
}

/// A choice written like one of `wanted`.
pub open spec fn among(wanted: Seq<Seq<char>>) -> spec_fn(Choice) -> bool {
    |c: Choice| wanted.contains(c.cand.text)
}

/// A choice written like none of `wanted`.
pub open spec fn not_among(wanted: Seq<Seq<char>>) -> spec_fn(Choice) -> bool {
    |c: Choice| !wanted.contains(c.cand.text)
}

/// The choices written like the first `n` of `wanted`, in the order of `wanted`.
pub open spec fn picked(v: Seq<Choice>, wanted: Seq<Seq<char>>, n: int) -> Seq<Choice>
    decreases n,
{
    if n <= 0 {
        seq![]
    } else {
        picked(v, wanted, n - 1) + v.filter(written(wanted[n - 1]))
    }
}

/// The choices ordered by the okurigana: those wanted come first, or alone.
#[verifier::opaque]
pub open spec fn by_okuri(m: OkuriMatch, v: Seq<Choice>, wanted: Seq<Seq<char>>) -> Seq<Choice> {
    if wanted.len() == 0 {
        v
    } else {
        match m {
            OkuriMatch::Off => v,
            OkuriMatch::First => picked(v, wanted, wanted.len() as int) + v.filter(
                not_among(wanted),
            ),
            OkuriMatch::Only => if v.filter(among(wanted)).len() > 0 {
                v.filter(among(wanted))
            } else {
                v
            },
        }
    }
}

/// The choices of the state ordered by its okurigana.
#[verifier::opaque]
pub open spec fn okuri_ordered(s: State, v: Seq<Choice>) -> Seq<Choice> {
    if s.okuri_kana.len() == 0 {
        v
    } else {
        by_okuri(s.cfg.okuri_match, v, okuri_looked_up(s.dict, s.dict_key, s.okuri_kana))
    }
}

/// The registration of the reading begins.
#[verifier::opaque]
pub open spec fn registering(s: State) -> State {
    reset(
        State {
            regs: s.regs.push(
                Reg {
                    key: s.dict_key,
                    buffer: seq![],
                    reading: s.reading,
                    okuri_head: s.okuri_head,
                    okuri_kana: s.okuri_kana,
                    abbrev: s.abbrev,
                    auto_suffix: s.auto_suffix,
                    offering_snippet: false,
                },
            ),
            ..s
        },
    )
}

/// The reading to ask the dictionary for.
pub open spec fn key_of(s: State) -> Seq<char> {
    match s.okuri_head {
        Some(h) => s.reading.push(h),
        None => s.reading,
    }
}

/// The candidates of a reading, and of the reading with its numbers abstracted.
#[verifier::opaque]
pub open spec fn candidates_for(d: DictText, key: Seq<char>) -> Seq<Choice> {
    let plain = choices_of(key, looked_up(d, key));
    let abs = abstracted(key);
    if abs == key {
        plain
    } else {
        let more = looked_up(d, abs);
        choices_added(plain, abs, more, more.len() as int)
    }
}

/// The candidates of the reading are looked up.
#[verifier::opaque]
pub open spec fn gathered(s: State) -> State {
    let key = key_of(s);
    let s1 = State { dict_key: key, numbers: numbers(key), ..s };
    State { candidates: okuri_ordered(s1, candidates_for(s.dict, key)), ..s1 }
}

/// The conversion of the reading begins. Without a candidate the word is registered.
#[verifier::opaque]
pub open spec fn converting(s: State) -> State {
    let s1 = pending_flushed(s);
    let s2 = State { cursor: s1.reading.len() as int, ..s1 };
    if s2.reading.len() == 0 {
        s2
    } else {
        let s4 = gathered(s2);
        if s4.candidates.len() == 0 {
            registering(s4)
        } else {
            State { cand_index: 0, phase: Phase::Selecting, fresh: true, ..s4 }
        }
    }
}

/// `t` without the marks of affixes at its end.
pub open spec fn untailed(t: Seq<char>) -> Seq<char>
    decreases t.len(),
{
    if t.len() > 0 && t.last() == '>' {
        untailed(t.drop_last())
    } else {
        t
    }
}

/// `t` without the marks of affixes at its start.
pub open spec fn unheaded(t: Seq<char>) -> Seq<char>
    decreases t.len(),
{
    if t.len() > 0 && t[0] == '>' {
        unheaded(t.skip(1))
    } else {
        t
    }
}

/// A reading of a prefix.
pub open spec fn prefix_key(k: Seq<char>) -> bool {
    k.len() > 0 && k.last() == '>'
}

/// A reading of a suffix.
pub open spec fn suffix_key(k: Seq<char>) -> bool {
    k.len() > 0 && k[0] == '>'
}

/// A candidate with its numbers and dates filled in.
#[verifier::opaque]
pub open spec fn opened(s: State, c: Choice) -> Seq<char> {
    variables_opened(expanded(c.cand.text, s.numbers), s.now)
}

/// A candidate as it is shown.
#[verifier::opaque]
pub open spec fn shown(s: State, c: Choice) -> Seq<char> {
    let t = opened(s, c);
    let t = if from_snippet(s.dict, c.key, c.cand.text) {
        preview(t)
    } else {
        t
    };
    if prefix_key(c.key) {
        untailed(t)
    } else if suffix_key(c.key) {
        unheaded(t)
    } else {
        t
    }
}

/// The reading and the text of two words confirmed one after the other, where the first
/// is a prefix or the second is a suffix.
#[verifier::opaque]
pub open spec fn combined(
    last: (Seq<char>, Seq<char>),
    key: Seq<char>,
    text: Seq<char>,
) -> Option<(Seq<char>, Seq<char>)> {
    let both = last.1 + text;
    if both.len() == 0 {
        None
    } else if prefix_key(last.0) && !prefix_key(key) && !suffix_key(key) {
        Some((last.0.drop_last() + key, both))
    } else if suffix_key(key) && !suffix_key(last.0) && !prefix_key(last.0) {
        Some((last.0 + key.skip(1), both))
    } else {
        None
    }
}

/// A word was confirmed: it may be learned together with the one before it.
#[verifier::opaque]
pub open spec fn commit_noted(s: State, key: Seq<char>, text: Seq<char>, okuri: bool) -> State {
    let d = if s.cfg.learn_combined && !okuri && s.last_commit is Some {
        match combined(s.last_commit->0, key, text) {
            Some(p) => learned(s.dict, p.0, CandText { text: p.1, annotation: None }),
            None => s.dict,
        }
    } else {
        s.dict
    };
    State {
        dict: d,
        last_commit: if okuri {
            None
        } else {
            Some((key, text))
        },
        ..s
    }
}

/// The places of the first `n` parts, each once, in the order they are written.
pub open spec fn stops_upto(v: Seq<PieceText>, n: int) -> Seq<nat>
    decreases n,
{
    if n <= 0 {
        seq![]
    } else {
        let had = stops_upto(v, n - 1);
        match v[n - 1] {
            PieceText::Stop { index, default, choices } => if index != 0 && !had.contains(index) {
                had.push(index)
            } else {
                had
            },
            PieceText::Text(_) => had,
        }
    }
}

/// What stands in the places of the first `n` parts before anything is typed.
pub open spec fn seeds_upto(v: Seq<PieceText>, n: int) -> Map<nat, Seq<char>>
    decreases n,
{
    if n <= 0 {
        Map::empty()
    } else {
        let had = seeds_upto(v, n - 1);
        match v[n - 1] {
            PieceText::Stop { index, default, choices } => if had.dom().contains(index) {
                had
            } else {
                had.insert(index, seed(v[n - 1]))
            },
            PieceText::Text(_) => had,
        }
    }
}

/// Where `n` goes in a list that grows.
pub open spec fn rising_place(v: Seq<nat>, n: nat) -> int
    decreases v.len(),
{
    if v.len() == 0 || v.last() <= n {
        v.len() as int
    } else {
        rising_place(v.drop_last(), n)
    }
}

/// The first `n` numbers in rising order.
pub open spec fn rising(v: Seq<nat>, n: int) -> Seq<nat>
    decreases n,
{
    if n <= 0 {
        seq![]
    } else {
        let had = rising(v, n - 1);
        had.insert(rising_place(had, v[n - 1]), v[n - 1])
    }
}

/// A snippet to fill in; nothing where it has no place to fill in.
#[verifier::opaque]
pub open spec fn fill_of(body: Seq<char>) -> Option<Fill> {
    let v = pieces(body);
    let stops = stops_upto(v, v.len() as int);
    if stops.len() == 0 {
        None
    } else {
        Some(
            Fill {
                pieces: v,
                order: rising(stops, stops.len() as int),
                at: 0,
                values: seeds_upto(v, v.len() as int),
            },
        )
    }
}

/// The place that is filled in now.
pub open spec fn fill_place(f: Fill) -> nat {
    f.order[f.at]
}

/// What stands in a place.
pub open spec fn fill_value_at(f: Fill, index: nat) -> Seq<char> {
    if f.values.dom().contains(index) {
        f.values[index]
    } else {
        seq![]
    }
}

/// What stands in the place that is filled in now.
pub open spec fn fill_value(f: Fill) -> Seq<char> {
    fill_value_at(f, fill_place(f))
}

/// Another value in the place that is filled in now.
pub open spec fn fill_set(f: Fill, t: Seq<char>) -> Fill {
    Fill { values: f.values.insert(fill_place(f), t), ..f }
}

/// The choices of the place `now`, from the part `i` on.
pub open spec fn choices_from(v: Seq<PieceText>, now: nat, i: int) -> Seq<Seq<char>>
    decreases v.len() - i,
{
    if i < 0 || i >= v.len() {
        seq![]
    } else {
        match v[i] {
            PieceText::Stop { index, default, choices } => if index == now {
                choices
            } else {
                choices_from(v, now, i + 1)
            },
            PieceText::Text(_) => choices_from(v, now, i + 1),
        }
    }
}

/// The choices of the place that is filled in now.
#[verifier::opaque]
pub open spec fn fill_choices(f: Fill) -> Seq<Seq<char>> {
    choices_from(f.pieces, fill_place(f), 0)
}

/// The first `n` parts with what stands in their places, and where place 0 stands.
pub open spec fn built_upto(f: Fill, n: int) -> (Seq<char>, Option<int>)
    decreases n,
{
    if n <= 0 {
        (seq![], None)
    } else {
        let had = built_upto(f, n - 1);
        match f.pieces[n - 1] {
            PieceText::Text(t) => (had.0 + t, had.1),
            PieceText::Stop { index, default, choices } => if index == 0 {
                (had.0, Some(had.0.len() as int))
            } else {
                (had.0 + fill_value_at(f, index), had.1)
            },
        }
    }
}

/// The snippet as it is handed out, and how far the cursor goes back from its end: to
/// place 0, as long as that is on the same line.
#[verifier::opaque]
pub open spec fn fill_built(f: Fill) -> (Seq<char>, nat) {
    let r = built_upto(f, f.pieces.len() as int);
    (
        r.0,
        match r.1 {
            Some(at) => if r.0.skip(at).contains('\n') {
                0nat
            } else {
                (r.0.len() - at) as nat
            },
            None => 0nat,
        },
    )
}

/// The first `n` parts with what stands in their places, and `pending` behind the place
/// that is filled in now.
pub open spec fn fill_shown_upto(f: Fill, pending: Seq<char>, n: int) -> Seq<char>
    decreases n,
{
    if n <= 0 {
        seq![]
    } else {
        let had = fill_shown_upto(f, pending, n - 1);
        match f.pieces[n - 1] {
            PieceText::Text(t) => had + t,
            PieceText::Stop { index, default, choices } => if index == 0 {
                had
            } else if index == fill_place(f) {
                had + fill_value_at(f, index) + pending
            } else {
                had + fill_value_at(f, index)
            },
        }
    }
}

/// How many characters of a snippet are shown while it is filled in.
pub const SHOWN_WIDTH: usize = 40;

/// The snippet as it is shown while it is filled in: on one line, cut short.
#[verifier::opaque]
pub open spec fn fill_shown(f: Fill, pending: Seq<char>) -> Seq<char> {
    let t = replaced(
        fill_shown_upto(f, pending, f.pieces.len() as int),
        '\n',
        "⏎"@,
    );
    if t.len() <= SHOWN_WIDTH {
        t
    } else {
        t.take(SHOWN_WIDTH - 1) + "…"@
    }
}

/// The candidate in hand.
pub open spec fn current(s: State) -> Option<Choice> {
    if 0 <= s.cand_index < s.candidates.len() {
        Some(s.candidates[s.cand_index])
    } else {
        None
    }
}

/// The dictionaries after the candidate in hand was confirmed.
#[verifier::opaque]
pub open spec fn candidate_learned(s: State, c: Choice) -> DictText {
    let d = learned(s.dict, c.key, c.cand);
    if s.okuri_head is Some {
        okuri_learned(d, c.key, s.okuri_kana, c.cand.text)
    } else {
        d
    }
}

/// The candidate in hand is confirmed: the state after it, and the text, as it was shown. A
/// snippet with places to fill in gives no text yet.
#[verifier::opaque]
pub open spec fn candidate_committed(s: State) -> (State, Seq<char>) {
    match current(s) {
        None => (reset(s), seq![]),
        Some(c) => {
            let raw = opened(s, c);
            let f = fill_of(raw);
            let fills = from_snippet(s.dict, c.key, c.cand.text) && f is Some;
            let text = if fills {
                raw
            } else {
                shown(s, c)
            };
            let okuri = s.okuri_head is Some;
            let s1 = State { dict: candidate_learned(s, c), ..s };
            let s2 = commit_noted(s1, s.dict_key, text, okuri);
            let suffix = s.okuri_kana + s.auto_suffix;
            if fills {
                (State { filling: f, fill_suffix: suffix, ..reset(s2) }, seq![])
            } else {
                (reset(s2), text + suffix)
            }
        },
    }
}

/// The reading is confirmed as it stands.
#[verifier::opaque]
pub open spec fn reading_confirmed(s: State) -> (State, Seq<char>) {
    let s1 = pending_flushed(s);
    (reset(s1), shown_reading(s1, s1.reading) + s1.okuri_kana)
}

/// A key while nothing is converted.
#[verifier::opaque]
pub open spec fn direct_step(s: State, key: KeyText) -> (State, Reply) {
    let cfg = s.cfg;
    let none = s.waiting.len() == 0;
    if !kana_mode(s.mode) {
        if has(cfg.kana, key) {
            (State { mode: Mode::Hiragana, ..s }, turning())
        } else if key is Char && s.mode == Mode::ZenkakuAscii {
            (s, saying(seq![zenkaku_form(key->Char_0)]))
        } else {
            (s, passing(key))
        }
    } else if has(cfg.confirm, key) {
        (State { waiting: seq![], ..s }, saying(shaped(s.mode, flushed(s.waiting))))
    } else if has(cfg.cancel, key) {
        (State { waiting: seq![], ..s }, silence())
    } else if has(cfg.backspace, key) {
        if none {
            (s, passing(key))
        } else {
            (State { waiting: s.waiting.drop_last(), ..s }, silence())
        }
    } else if none && has(cfg.ascii, key) {
        (State { mode: Mode::Ascii, ..s }, turning())
    } else if none && has(cfg.zenkaku, key) {
        (State { mode: Mode::ZenkakuAscii, ..s }, turning())
    } else if none && has(cfg.hankaku_katakana, key) {
        let mode = if s.mode == Mode::HankakuKatakana {
            Mode::Hiragana
        } else {
            Mode::HankakuKatakana
        };
        (State { mode, ..s }, turning())
    } else if none && has(cfg.katakana, key) {
        let mode = if s.mode == Mode::Hiragana {
            Mode::Katakana
        } else {
            Mode::Hiragana
        };
        (State { mode, ..s }, turning())
    } else if has(cfg.start_conversion, key) {
        (State { phase: Phase::Composing, waiting: seq![], ..s }, silence())
    } else if none && has(cfg.abbrev, key) {
        (State { phase: Phase::Composing, abbrev: true, ..s }, silence())
    } else if key is Char && upper(key->Char_0) {
        let r = fed(State { phase: Phase::Composing, ..s }, lower(key->Char_0));
        (inserted(r.0, r.1), silence())
    } else if key is Char {
        let r = fed(s, key->Char_0);
        (r.0, saying(shaped(s.mode, r.1)))
    } else {
        (
            State { waiting: seq![], ..s },
            Reply { passthrough: Some(key), ..saying(shaped(s.mode, flushed(s.waiting))) },
        )
    }
}

/// Nothing is handed out.
pub open spec fn quiet(r: Reply) -> bool {
    r.commit.len() == 0 && r.passthrough is None
}

/// A key while nothing is converted. What is handed out parts the words around it.
#[verifier::opaque]
pub open spec fn direct(s: State, key: KeyText) -> (State, Reply) {
    let r = direct_step(s, key);
    if quiet(r.1) {
        r
    } else {
        (State { last_commit: None, ..r.0 }, r.1)
    }
}

/// How many completions are offered.
pub const COMPLETIONS: usize = 64;

/// How many completions are shown while typing.
pub const DYNAMIC_SHOWN: usize = 5;

/// The reading is completed, or the next or the previous completion is taken.
#[verifier::opaque]
pub open spec fn completed(s: State, forward: bool) -> State {
    if s.abbrev {
        s
    } else {
        match s.completion {
            None => {
                let s1 = pending_flushed(s);
                let words = completions(s1.dict, s1.reading, COMPLETIONS as nat);
                if words.len() == 0 {
                    s1
                } else {
                    with_reading(
                        State {
                            completion: Some(Compl { original: s1.reading, words, index: 0 }),
                            ..s1
                        },
                        words[0],
                    )
                }
            },
            Some(c) => {
                let n = c.words.len() as int;
                let index = if forward {
                    (c.index + 1) % n
                } else {
                    (c.index + n - 1) % n
                };
                with_reading(State { completion: Some(Compl { index, ..c }), ..s }, c.words[index])
            },
        }
    }
}

/// Whether kana end in a character that starts a conversion.
pub open spec fn starts_conversion(s: State, kana: Seq<char>) -> bool {
    kana.len() > 0 && !s.abbrev && s.cfg.auto_start_henkan.contains(kana.last()) && !(
    s.reading.len() == 0 && kana.len() == 1)
}

/// The conversion starts before the last of the kana, which goes behind the candidate.
#[verifier::opaque]
pub open spec fn auto_started(s: State, kana: Seq<char>) -> State {
    converting(State { auto_suffix: seq![kana.last()], ..inserted(s, kana.drop_last()) })
}

/// A character while a reading is typed.
#[verifier::opaque]
pub open spec fn reading_typed(s: State, c: char) -> State {
    if s.abbrev {
        inserted(s, seq![c])
    } else if upper(c) && s.reading.len() > 0 {
        let s1 = State {
            okuri_head: if s.okuri_head is None {
                Some(lower(c))
            } else {
                s.okuri_head
            },
            ..s
        };
        let r = fed(s1, lower(c));
        if r.1.len() == 0 {
            r.0
        } else {
            converting(State { okuri_kana: r.0.okuri_kana + r.1, ..r.0 })
        }
    } else if upper(c) {
        let r = fed(s, lower(c));
        inserted(r.0, r.1)
    } else {
        let r = fed(s, c);
        if s.okuri_head is Some {
            let s1 = State { okuri_kana: r.0.okuri_kana + r.1, ..r.0 };
            if s1.okuri_kana.len() > 0 && s1.waiting.len() == 0 {
                converting(s1)
            } else {
                s1
            }
        } else if starts_conversion(r.0, r.1) {
            auto_started(r.0, r.1)
        } else {
            inserted(r.0, r.1)
        }
    }
}

/// One character deleted backwards while a reading is typed.
#[verifier::opaque]
pub open spec fn reading_backspaced(s: State) -> State {
    if s.waiting.len() > 0 {
        State { waiting: s.waiting.drop_last(), ..s }
    } else if s.cursor < s.reading.len() {
        deleted_before(s)
    } else if s.okuri_kana.len() > 0 {
        State { okuri_kana: s.okuri_kana.drop_last(), ..s }
    } else if s.okuri_head is Some {
        State { okuri_head: None, ..s }
    } else if s.cursor > 0 {
        deleted_before(s)
    } else {
        reset(s)
    }
}

/// The reading written in katakana, or in hiragana while katakana is the mode.
pub open spec fn other_kana(m: Mode, t: Seq<char>) -> Seq<char> {
    if m == Mode::Katakana {
        in_hiragana(t)
    } else {
        in_katakana(t)
    }
}

/// The keys that edit the reading.
pub open spec fn edits(cfg: ConfigText, key: KeyText) -> bool {
    has(cfg.move_left, key) || has(cfg.move_right, key) || has(cfg.move_home, key) || has(
        cfg.move_end,
        key,
    ) || has(cfg.delete_forward, key) || has(cfg.backspace, key)
}

/// The reading edited. The letters that wait end before the cursor moves.
#[verifier::opaque]
pub open spec fn edited(s: State, key: KeyText) -> State {
    let cfg = s.cfg;
    let s1 = pending_flushed(s);
    if has(cfg.move_left, key) {
        State {
            cursor: if s1.cursor > 0 {
                s1.cursor - 1
            } else {
                0
            },
            ..s1
        }
    } else if has(cfg.move_right, key) {
        State {
            cursor: if s1.cursor < s1.reading.len() {
                s1.cursor + 1
            } else {
                s1.cursor
            },
            ..s1
        }
    } else if has(cfg.move_home, key) {
        State { cursor: 0, ..s1 }
    } else if has(cfg.move_end, key) {
        State { cursor: s1.reading.len() as int, ..s1 }
    } else if has(cfg.delete_forward, key) {
        deleted_at(s)
    } else {
        reading_backspaced(s)
    }
}

/// A key while a reading is typed.
#[verifier::opaque]
pub open spec fn composing_step(s: State, key: KeyText) -> (State, Reply) {
    let cfg = s.cfg;
    if has(cfg.cancel, key) {
        match s.completion {
            Some(c) => (with_reading(State { completion: None, ..s }, c.original), silence()),
            None => (reset(s), silence()),
        }
    } else if key is Enter || has(cfg.confirm, key) {
        let r = reading_confirmed(s);
        (r.0, saying(r.1))
    } else if edits(cfg, key) {
        (edited(s, key), silence())
    } else if has(cfg.affix, key) && s.reading.len() > 0 && s.okuri_head is None && !s.abbrev {
        let s1 = pending_flushed(s);
        (converting(State { reading: s1.reading.push('>'), ..s1 }), silence())
    } else if has(cfg.complete, key) {
        (completed(s, true), silence())
    } else if has(cfg.complete_previous, key) {
        (completed(s, false), silence())
    } else if has(cfg.convert, key) {
        (converting(State { completion: None, ..s }), silence())
    } else if !s.abbrev && has(cfg.hankaku_katakana, key) {
        let s1 = pending_flushed(s);
        (reset(s1), saying(in_hankaku(s1.reading) + in_hankaku(s1.okuri_kana)))
    } else if s.okuri_head is None && !s.abbrev && has(cfg.katakana, key) {
        let s1 = pending_flushed(s);
        (reset(s1), saying(other_kana(s.mode, s1.reading)))
    } else if key is Char {
        (reading_typed(s, key->Char_0), silence())
    } else {
        let r = reading_confirmed(s);
        (r.0, Reply { passthrough: Some(key), ..saying(r.1) })
    }
}

/// A key while a reading is typed. Any other key than those for completions ends them.
#[verifier::opaque]
pub open spec fn composing(s: State, key: KeyText) -> (State, Reply) {
    let r = composing_step(s, key);
    if has(s.cfg.complete, key) || has(s.cfg.complete_previous, key)
        || has(s.cfg.cancel, key) {
        r
    } else {
        (State { completion: None, ..r.0 }, r.1)
    }
}

/// Whether the list of candidates is shown.
pub open spec fn list_shown(s: State) -> bool {
    s.cand_index >= s.cfg.inline_candidates
}

/// Where the page of the list starts.
#[verifier::opaque]
pub open spec fn page_start(s: State) -> int {
    let inline = s.cfg.inline_candidates as int;
    let size = page_len(s.cfg) as int;
    inline + (s.cand_index - inline) / size * size
}

/// Where the page of the list ends.
#[verifier::opaque]
pub open spec fn page_end(s: State) -> int {
    let end = page_start(s) + page_len(s.cfg);
    if end <= s.candidates.len() {
        end
    } else {
        s.candidates.len() as int
    }
}

/// The next candidate, or the next page of the list; nothing where there is no more.
#[verifier::opaque]
pub open spec fn next_index(s: State) -> Option<int> {
    let inline = s.cfg.inline_candidates as int;
    let n = s.candidates.len() as int;
    if s.cand_index + 1 < inline {
        if s.cand_index + 1 >= n {
            None
        } else {
            Some(s.cand_index + 1)
        }
    } else if !list_shown(s) {
        if n > inline {
            Some(inline)
        } else {
            None
        }
    } else if page_end(s) < n {
        Some(page_end(s))
    } else {
        None
    }
}

/// Back from ▼ to ▽.
pub open spec fn unselected(s: State) -> State {
    State { phase: Phase::Composing, candidates: seq![], cand_index: 0, ..s }
}

/// The previous candidate, or the previous page of the list. Before the first one the
/// reading is there again.
#[verifier::opaque]
pub open spec fn stepped_back(s: State) -> State {
    let inline = s.cfg.inline_candidates as int;
    if s.cand_index == 0 {
        unselected(s)
    } else if !list_shown(s) {
        State { cand_index: s.cand_index - 1, ..s }
    } else if page_start(s) == inline {
        State { cand_index: inline - 1, ..s }
    } else {
        let back = page_start(s) - page_len(s.cfg);
        State {
            cand_index: if back > inline {
                back
            } else {
                inline
            },
            ..s
        }
    }
}

/// The candidate in hand is thrown out of the user's dictionary and of the choices.
#[verifier::opaque]
pub open spec fn purged(s: State) -> State {
    match current(s) {
        None => s,
        Some(c) => {
            let left = s.candidates.filter(unwritten(c.cand.text));
            let s1 = State {
                dict: noted(s.dict, ChangeText::Purge(c.key, c.cand.text)),
                candidates: left,
                ..s
            };
            if left.len() == 0 {
                State { phase: Phase::Composing, cand_index: 0, ..s1 }
            } else if s.cand_index >= left.len() {
                State { cand_index: left.len() - 1, ..s1 }
            } else {
                s1
            }
        },
    }
}

/// The first place of `c` among the keys that choose from the list.
pub open spec fn select_place(v: Seq<char>, c: char) -> int
    decreases v.len(),
{
    if v.len() == 0 || v[0] == c {
        0
    } else {
        1 + select_place(v.skip(1), c)
    }
}

/// A key that was pressed after Shift was pressed ahead, or Shift pressed ahead: then the
/// key is kept.
#[verifier::opaque]
pub open spec fn sticky_taken(s: State, key: KeyText) -> (State, Option<KeyText>) {
    if s.sticky {
        (
            State { sticky: false, ..s },
            Some(
                match key {
                    KeyText::Char(c) => KeyText::Char(capital(c)),
                    k => k,
                },
            ),
        )
    } else if kana_mode(s.mode) && !s.abbrev && has(s.cfg.sticky, key) {
        (State { sticky: true, ..s }, None)
    } else {
        (s, Some(key))
    }
}

/// A key while nothing is converted, with regard to Shift pressed ahead.
#[verifier::opaque]
pub open spec fn direct_dispatched(s: State, key: KeyText) -> (State, Reply) {
    let t = sticky_taken(s, key);
    match t.1 {
        None => (t.0, silence()),
        Some(k) => direct(t.0, k),
    }
}

/// Whether a key chooses from the list.
pub open spec fn chooses(s: State, key: KeyText) -> bool {
    key is Char && list_shown(s) && s.cfg.select.contains(key->Char_0)
}

/// The candidate that `c` stands for is confirmed, if the page has it.
#[verifier::opaque]
pub open spec fn chosen(s: State, c: char) -> (State, Reply) {
    let i = page_start(s) + select_place(s.cfg.select, c);
    if i < page_end(s) {
        let r = candidate_committed(State { cand_index: i, ..s });
        (r.0, saying(r.1))
    } else {
        (s, silence())
    }
}

/// A key while a candidate is chosen.
#[verifier::opaque]
pub open spec fn selecting(s: State, key: KeyText) -> (State, Reply) {
    let cfg = s.cfg;
    if has(cfg.cancel, key) {
        (unselected(s), silence())
    } else if key is Enter || has(cfg.confirm, key) {
        let r = candidate_committed(s);
        (r.0, saying(r.1))
    } else if has(cfg.affix, key) {
        let r = candidate_committed(s);
        (with_reading(State { phase: Phase::Composing, ..r.0 }, seq!['>']), saying(r.1))
    } else if has(cfg.purge, key) {
        (purged(s), silence())
    } else if has(cfg.convert, key) {
        match next_index(s) {
            Some(i) => (State { cand_index: i, ..s }, silence()),
            None => (registering(s), silence()),
        }
    } else if has(cfg.previous, key) {
        (stepped_back(s), silence())
    } else if chooses(s, key) {
        chosen(s, key->Char_0)
    } else if has(cfg.backspace, key) {
        (stepped_back(s), silence())
    } else if key is Char {
        let r = candidate_committed(s);
        let q = direct_dispatched(r.0, key);
        (q.0, Reply { commit: r.1 + q.1.commit, ..q.1 })
    } else {
        let r = candidate_committed(s);
        (r.0, Reply { passthrough: Some(key), ..saying(r.1) })
    }
}

/// A key, whatever is being converted.
#[verifier::opaque]
pub open spec fn dispatched(s: State, key: KeyText) -> (State, Reply) {
    let t = sticky_taken(s, key);
    match t.1 {
        None => (t.0, silence()),
        Some(k) => match s.phase {
            Phase::Direct => direct(t.0, k),
            Phase::Composing => composing(t.0, k),
            Phase::Selecting => selecting(t.0, k),
        },
    }
}

/// A character that may be part of a word.
pub open spec fn printable() -> spec_fn(char) -> bool {
    |c: char| !control(c)
}

/// The registration on top with another buffer.
pub open spec fn with_buffer(s: State, t: Seq<char>) -> State {
    let n = s.regs.len() - 1;
    State { regs: s.regs.update(n, Reg { buffer: t, ..s.regs[n] }), ..s }
}

/// The characters that a reply adds to a registration.
#[verifier::opaque]
pub open spec fn caught(r: Reply) -> Seq<char> {
    r.commit.filter(printable()) + match r.passthrough {
        Some(KeyText::Char(c)) => if control(c) {
            seq![]
        } else {
            seq![c]
        },
        _ => seq![],
    }
}

/// While a word is registered, what would be handed out goes into the registration.
#[verifier::opaque]
pub open spec fn captured(s: State, r: Reply) -> (State, Reply) {
    if s.regs.len() == 0 {
        (s, r)
    } else {
        (
            with_buffer(s, s.regs.last().buffer + caught(r)),
            Reply { mode_changed: r.mode_changed, ..silence() },
        )
    }
}

/// The reading of a registration is there again.
#[verifier::opaque]
pub open spec fn resumed(s: State, reg: Reg) -> State {
    with_reading(
        State {
            phase: Phase::Composing,
            okuri_head: reg.okuri_head,
            okuri_kana: reg.okuri_kana,
            abbrev: reg.abbrev,
            ..reset(s)
        },
        reg.reading,
    )
}

/// The registration on top is given up.
#[verifier::opaque]
pub open spec fn registration_aborted(s: State) -> State {
    resumed(State { regs: s.regs.drop_last(), ..s }, s.regs.last())
}

/// The registration on top is done: the word is learned and handed out. An empty one is
/// given up.
#[verifier::opaque]
pub open spec fn registration_finished(s: State) -> (State, Reply) {
    let reg = s.regs.last();
    let buffer = reg.buffer + shaped(s.mode, flushed(s.waiting));
    let s1 = State { waiting: seq![], regs: s.regs.drop_last(), ..s };
    if buffer.len() == 0 {
        (resumed(s1, reg), silence())
    } else {
        let cand = CandText { text: buffer, annotation: None };
        let d = learned(s1.dict, reg.key, cand);
        let d = if reg.okuri_head is Some {
            okuri_learned(d, reg.key, reg.okuri_kana, buffer)
        } else {
            d
        };
        captured(
            State { dict: d, ..s1 },
            saying(buffer + reg.okuri_kana + reg.auto_suffix),
        )
    }
}

/// A key while a word is registered and no snippet is offered.
#[verifier::opaque]
pub open spec fn registration_key(s: State, key: KeyText) -> (State, Reply) {
    let reg = s.regs.last();
    let direct_now = s.phase == Phase::Direct;
    let none = direct_now && s.waiting.len() == 0;
    if direct_now && key is Enter {
        registration_finished(s)
    } else if none && has(s.cfg.cancel, key) {
        (registration_aborted(s), silence())
    } else if none && has(s.cfg.backspace, key) {
        if reg.buffer.len() == 0 {
            (registration_aborted(s), silence())
        } else {
            (with_buffer(s, reg.buffer.drop_last()), silence())
        }
    } else if none && has(s.cfg.convert, key) && reg.buffer.len() == 0 {
        (offering(s, true), silence())
    } else {
        let r = dispatched(s, key);
        captured(r.0, r.1)
    }
}

/// The registration on top with or without the offer to write a snippet.
pub open spec fn offering(s: State, on: bool) -> State {
    let n = s.regs.len() - 1;
    State { regs: s.regs.update(n, Reg { offering_snippet: on, ..s.regs[n] }), ..s }
}

/// The answer to the offer to write a snippet.
#[verifier::opaque]
pub open spec fn offer_answered(s: State, key: KeyText) -> (State, Reply) {
    let s1 = offering(s, false);
    if key is Enter || has(s.cfg.confirm, key) {
        (
            registration_aborted(s1),
            Reply { edit_snippet: Some(s.regs.last().reading), ..silence() },
        )
    } else if has(s.cfg.cancel, key) {
        (s1, silence())
    } else {
        let r = registration_key(s1, key);
        (suggested(r.0), r.1)
    }
}

/// What was pasted, as far as it goes into a registration.
#[verifier::opaque]
pub open spec fn pasted_text(bytes: Seq<u8>) -> Seq<char> {
    if vstd::utf8::valid_utf8(bytes) {
        vstd::utf8::decode_utf8(bytes).filter(printable())
    } else {
        seq![]
    }
}

/// The word that is being typed.
#[verifier::opaque]
pub open spec fn word_in_hand(s: State) -> Seq<char> {
    if s.regs.len() > 0 {
        s.regs.last().reading
    } else if s.phase == Phase::Direct {
        seq![]
    } else {
        s.reading
    }
}

/// The place that is filled in now gets `t` behind what stands in it.
pub open spec fn slot_added(s: State, t: Seq<char>) -> State {
    match s.filling {
        Some(f) if t.len() > 0 => State { filling: Some(fill_set(f, fill_value(f) + t)), ..s },
        _ => s,
    }
}

/// What is being typed goes into the place that is filled in now.
#[verifier::opaque]
pub open spec fn settled_in_slot(s: State) -> State {
    let r = if s.phase == Phase::Direct {
        (s, silence())
    } else {
        dispatched(s, KeyText::Enter)
    };
    let s1 = State { waiting: seq![], ..r.0 };
    slot_added(s1, r.1.commit + shaped(s1.mode, flushed(r.0.waiting)))
}

/// The snippet is filled in and handed out.
#[verifier::opaque]
pub open spec fn filling_finished(s: State) -> (State, Reply) {
    let b = fill_built(s.filling->0);
    (
        State { filling: None, fill_suffix: seq![], ..reset(s) },
        Reply { cursor_back: b.1, ..saying(b.0 + s.fill_suffix) },
    )
}

/// The first place of `t` in `v`; 0 where there is none.
pub open spec fn choice_place(v: Seq<Seq<char>>, t: Seq<char>) -> int {
    if v.contains(t) {
        first_place(v, t)
    } else {
        0
    }
}

pub open spec fn first_place(v: Seq<Seq<char>>, t: Seq<char>) -> int
    decreases v.len(),
{
    if v.len() == 0 || v[0] == t {
        0
    } else {
        1 + first_place(v.skip(1), t)
    }
}

/// Another of the choices of the place that is filled in now.
#[verifier::opaque]
pub open spec fn choice_turned(f: Fill, back: bool) -> Fill {
    let v = fill_choices(f);
    let n = v.len() as int;
    let at = choice_place(v, fill_value(f));
    fill_set(
        f,
        v[if back {
            (at + n - 1) % n
        } else {
            (at + 1) % n
        }],
    )
}

/// The next place, or the previous one. Behind the last one the snippet is handed out.
#[verifier::opaque]
pub open spec fn slot_moved(s: State, back: bool) -> (State, Reply) {
    let f = s.filling->0;
    if back {
        let at = if f.at > 0 {
            f.at - 1
        } else {
            0
        };
        (State { filling: Some(Fill { at, ..f }), ..s }, silence())
    } else if f.at + 1 < f.order.len() {
        (State { filling: Some(Fill { at: f.at + 1, ..f }), ..s }, silence())
    } else {
        filling_finished(s)
    }
}

/// A key typed into the place that is filled in now. What would be handed out goes there,
/// and so does the reading of an unknown word.
#[verifier::opaque]
pub open spec fn typed_in_slot(s: State, key: KeyText) -> (State, Reply) {
    let r = dispatched(s, key);
    let s1 = slot_added(r.0, r.1.commit);
    let s2 = if s1.regs.len() > 0 {
        slot_added(reset(State { regs: seq![], ..s1 }), s1.regs.last().reading)
    } else {
        s1
    };
    (s2, Reply { mode_changed: r.1.mode_changed, ..silence() })
}

/// The last character of the place that is filled in now deleted.
#[verifier::opaque]
pub open spec fn slot_backspaced(s: State) -> State {
    let f = s.filling->0;
    let v = fill_value(f);
    State {
        filling: Some(
            fill_set(
                f,
                if v.len() > 0 {
                    v.drop_last()
                } else {
                    v
                },
            ),
        ),
        ..s
    }
}

/// A key while a snippet is filled in.
#[verifier::opaque]
pub open spec fn filling_key(s: State, key: KeyText) -> (State, Reply) {
    let f = s.filling->0;
    let cfg = s.cfg;
    if fill_choices(f).len() > 0 && (has(cfg.convert, key) || has(cfg.previous, key)) {
        (
            State { filling: Some(choice_turned(f, has(cfg.previous, key))), ..s },
            silence(),
        )
    } else if key is Tab || key is ShiftTab {
        slot_moved(settled_in_slot(s), key is ShiftTab)
    } else if key is Enter || has(cfg.confirm, key) {
        if s.phase != Phase::Direct || s.waiting.len() > 0 {
            (settled_in_slot(s), silence())
        } else {
            filling_finished(s)
        }
    } else if has(cfg.cancel, key) && s.waiting.len() == 0 {
        (State { filling: None, fill_suffix: seq![], ..s }, silence())
    } else if has(cfg.backspace, key) && s.waiting.len() == 0 {
        (slot_backspaced(s), silence())
    } else {
        typed_in_slot(s, key)
    }
}

/// The completions that are shown while typing.
#[verifier::opaque]
pub open spec fn suggestions(s: State) -> Seq<Seq<char>> {
    if s.phase != Phase::Composing || s.abbrev || s.completion is Some || s.okuri_head is Some
        || s.waiting.len() > 0 || s.reading.len() == 0 || s.cursor != s.reading.len() {
        seq![]
    } else {
        match s.cfg.dynamic_completion {
            DynamicCompletion::Off => seq![],
            DynamicCompletion::Single => completions(s.dict, s.reading, 1),
            DynamicCompletion::Multiple => completions(s.dict, s.reading, DYNAMIC_SHOWN as nat),
        }
    }
}

/// The state with the completions that are shown while typing.
pub open spec fn suggested(s: State) -> State {
    State { suggestion: suggestions(s), ..s }
}

/// A key, before the completions that are shown are looked up again.
#[verifier::opaque]
pub open spec fn key_step(s: State, key: KeyText) -> (State, Reply) {
    if s.mode != Mode::Ascii && has(s.cfg.snippet_edit, key) {
        (s, Reply { edit_snippet: Some(word_in_hand(s)), ..silence() })
    } else if s.filling is Some {
        filling_key(s, key)
    } else if s.regs.len() == 0 {
        let r = dispatched(s, key);
        if s.mode != Mode::Ascii && held(s.cfg.ascii_keys, key) {
            (State { mode: Mode::Ascii, ..r.0 }, Reply { mode_changed: true, ..r.1 })
        } else {
            r
        }
    } else if key is Raw {
        (s, silence())
    } else if key is Paste {
        (
            with_buffer(s, s.regs.last().buffer + pasted_text(key->Paste_0)),
            silence(),
        )
    } else if s.regs.last().offering_snippet {
        offer_answered(s, key)
    } else {
        registration_key(s, key)
    }
}

/// What a key does.
pub open spec fn handled(s: State, key: KeyText) -> (State, Reply) {
    let r = key_step(State { fresh: false, ..s }, key);
    (suggested(r.0), r.1)
}

/// What is being typed is confirmed, as far as it can be.
#[verifier::opaque]
pub open spec fn all_flushed(s: State) -> (State, Seq<char>) {
    if s.regs.len() > 0 {
        (s, seq![])
    } else {
        let r = match s.phase {
            Phase::Direct => (
                State { waiting: seq![], ..s },
                shaped(s.mode, flushed(s.waiting)),
            ),
            Phase::Composing => reading_confirmed(s),
            Phase::Selecting => candidate_committed(s),
        };
        if r.1.len() == 0 {
            r
        } else {
            (State { last_commit: None, ..r.0 }, r.1)
        }
    }
}

/// What is being typed is thrown away.
pub open spec fn cleared(s: State) -> State {
    reset(
        State {
            regs: seq![],
            last_commit: None,
            filling: None,
            fill_suffix: seq![],
            sticky: false,
            ..s
        },
    )
}

/// The candidates that the dictionary has for what is being converted, before the okurigana
/// has ordered or left out any.
pub open spec fn found_now(s: State) -> Seq<Choice> {
    candidates_for(s.dict, s.dict_key)
}

/// Whether the screen may still order the candidates: they were found just now, there are
/// several of them, and something is on the screen.
pub open spec fn orderable(s: State) -> bool {
    s.fresh && s.phase == Phase::Selecting && s.cfg.context_order && s.context is Some
        && s.context->0.chars.len() > 0 && found_now(s).len() >= 2
}

/// Where a choice of rank `r` goes among ranks that fall: behind its equals.
pub open spec fn falling_place(ranks: Seq<nat>, r: nat) -> int
    decreases ranks.len(),
{
    if ranks.len() == 0 || ranks.last() >= r {
        ranks.len() as int
    } else {
        falling_place(ranks.drop_last(), r)
    }
}

/// The first `n` ranks, falling.
pub open spec fn falling(ranks: Seq<nat>, n: int) -> Seq<nat>
    decreases n,
{
    if n <= 0 {
        seq![]
    } else {
        let had = falling(ranks, n - 1);
        had.insert(falling_place(had, ranks[n - 1]), ranks[n - 1])
    }
}

/// The first `n` choices in the order of their falling ranks; equals keep their order.
pub open spec fn by_rank(v: Seq<Choice>, ranks: Seq<nat>, n: int) -> Seq<Choice>
    decreases n,
{
    if n <= 0 {
        seq![]
    } else {
        by_rank(v, ranks, n - 1).insert(
            falling_place(falling(ranks, n - 1), ranks[n - 1]),
            v[n - 1],
        )
    }
}

/// Whether a list of ranks says anything.
pub open spec fn telling(ranks: Seq<nat>) -> bool {
    exists|i: int| 0 <= i < ranks.len() && #[trigger] ranks[i] > 0
}

/// The candidates that were found, ordered by the ranks that the screen gives them. Where it
/// gives none the order stays. The okurigana has the last word.
pub open spec fn context_ranked(s: State, ranks: Seq<nat>, note: Seq<char>) -> State {
    if orderable(s) && ranks.len() == found_now(s).len() && telling(ranks) {
        State {
            candidates: okuri_ordered(s, by_rank(found_now(s), ranks, ranks.len() as int)),
            cand_index: 0,
            context_note: Some(note),
            fresh: false,
            ..s
        }
    } else {
        s
    }
}

/// The state that the engine starts with.
pub open spec fn initial(dict: DictText, cfg: ConfigText) -> State {
    State {
        mode: Mode::Ascii,
        phase: Phase::Direct,
        waiting: seq![],
        reading: seq![],
        cursor: 0,
        okuri_head: None,
        okuri_kana: seq![],
        abbrev: false,
        sticky: false,
        candidates: seq![],
        cand_index: 0,
        numbers: seq![],
        dict_key: seq![],
        dict,
        cfg,
        regs: seq![],
        completion: None,
        suggestion: seq![],
        last_commit: None,
        context: None,
        context_note: None,
        fresh: false,
        now: Now {
            year: 0,
            month: 0,
            day: 0,
            hour: 0,
            minute: 0,
            second: 0,
            weekday: 0,
            unix: 0,
        },
        filling: None,
        fill_suffix: seq![],
        auto_suffix: seq![],
    }
}

} // verus!
