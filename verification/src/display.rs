//! What is shown of the state: the parts of what is being typed.
use vstd::prelude::*;
use crate::config::{DynamicCompletion, Layout, Marker};
use crate::dict::looked_up;
use crate::machine::{
    current, fill_choices, fill_shown, list_shown, page_end, page_start, shown, shown_reading, Fill,
    Mode, Phase, Reg, State, Style, Tint,
};
use crate::text::decimal;

verus! {

/// A part of what is shown.
pub struct Seg {
    pub style: Style,
    pub text: Seq<char>,
}

/// All that is shown: at the cursor, on a line of its own, and under the cursor.
pub struct Shown {
    pub at_cursor: Seq<Seg>,
    pub floating: Seq<Seg>,
    pub cursor_tint: Option<Tint>,
}

pub open spec fn seg(style: Style, text: Seq<char>) -> Seq<Seg> {
    seq![Seg { style, text }]
}

/// A part that is left out where it is empty.
pub open spec fn seg_if(style: Style, text: Seq<char>) -> Seq<Seg> {
    if text.len() == 0 {
        seq![]
    } else {
        seg(style, text)
    }
}

/// `n` times the character `c`.
pub open spec fn repeated(c: char, n: nat) -> Seq<char> {
    Seq::new(n, |i: int| c)
}

/// The mark that Shift pressed ahead will make.
pub open spec fn sticky_hint(s: State) -> Seq<char> {
    if !s.sticky {
        seq![]
    } else {
        match s.phase {
            Phase::Direct => "▽"@,
            Phase::Selecting => "▽"@,
            Phase::Composing => if s.okuri_head is None {
                "*"@
            } else {
                seq![]
            },
        }
    }
}

/// The candidate in hand as it is shown.
pub open spec fn current_shown(s: State) -> Seq<char> {
    match current(s) {
        Some(c) => shown(s, c),
        None => seq![],
    }
}

/// What is being typed on one line, inside a snippet that is filled in.
pub open spec fn pending_text(s: State) -> Seq<char> {
    match s.phase {
        Phase::Direct => sticky_hint(s) + s.waiting,
        Phase::Composing => "▽"@ + shown_reading(s, s.reading) + s.waiting + sticky_hint(s),
        Phase::Selecting => "▼"@ + current_shown(s) + sticky_hint(s),
    }
}

/// A snippet that is filled in: which place, what it looks like, how many choices.
pub open spec fn fill_segs(s: State, f: Fill) -> Seq<Seg> {
    let n = fill_choices(f).len();
    seg(
        Style::ListItem,
        "[埋め "@ + decimal((f.at + 1) as nat) + "/"@ + decimal(f.order.len()) + "]"@,
    ) + seg(Style::Candidate, fill_shown(f, pending_text(s))) + if n > 1 {
        seg(Style::ListItem, " ; "@ + decimal(n) + " 択"@)
    } else {
        seq![]
    }
}

/// The word that is registered.
pub open spec fn label(r: Reg) -> Seq<char> {
    match r.okuri_head {
        Some(_) => r.reading + "*"@ + r.okuri_kana,
        None => r.reading,
    }
}

/// The registration on top; brackets show how many there are.
pub open spec fn reg_segs(s: State) -> Seq<Seg> {
    let depth = s.regs.len();
    if depth == 0 {
        seq![]
    } else {
        let r = s.regs.last();
        seg(
            Style::ListItem,
            repeated('[', depth) + "登録:"@ + label(r) + repeated(']', depth),
        ) + seg_if(Style::Reading, r.buffer)
    }
}

/// The letters typed while nothing is converted.
pub open spec fn direct_segs(s: State) -> Seq<Seg> {
    seg_if(Style::Reading, sticky_hint(s)) + seg_if(Style::Romaji, s.waiting)
}

/// What follows the reading: the okurigana, or the mark of Shift pressed ahead.
pub open spec fn reading_tail(s: State) -> Seq<char> {
    if s.okuri_head is Some {
        "*"@ + s.okuri_kana
    } else {
        sticky_hint(s)
    }
}

/// The reading. Where the cursor is inside it, the character under the cursor is a part of
/// its own.
pub open spec fn reading_segs(s: State) -> Seq<Seg> {
    let before = s.reading.take(s.cursor);
    let after = s.reading.skip(s.cursor);
    let head = "▽"@ + shown_reading(s, before);
    if after.len() == 0 {
        seg(Style::Reading, head + reading_tail(s)) + seg_if(Style::Romaji, s.waiting)
    } else {
        seg(Style::Reading, head) + seg_if(Style::Romaji, s.waiting) + seg(
            Style::ReadingCursor,
            shown_reading(s, seq![after[0]]),
        ) + seg_if(Style::Reading, shown_reading(s, after.skip(1)) + reading_tail(s))
    }
}

/// What a completion would become, and which of them it is.
pub open spec fn completion_segs(s: State) -> Seq<Seg> {
    match s.completion {
        None => seq![],
        Some(c) => {
            let v = looked_up(s.dict, s.reading);
            let what = if v.len() == 0 {
                seq![]
            } else {
                seg(Style::ListItem, " "@ + v[0].text) + match v[0].annotation {
                    Some(a) => seg(Style::ListItem, " ; "@ + a),
                    None => seq![],
                }
            };
            what + seg(
                Style::ListItem,
                " ["@ + decimal((c.index + 1) as nat) + "/"@ + decimal(c.words.len()) + "]"@,
            )
        },
    }
}

/// The first `n` completions as a list.
pub open spec fn suggestion_list(s: State, n: int) -> Seq<Seg>
    decreases n,
{
    if n <= 0 {
        seq![]
    } else {
        let sep = if n == 1 && s.cfg.layout != Layout::Inline {
            seq![]
        } else {
            " "@
        };
        suggestion_list(s, n - 1) + seg(
            Style::Completion,
            sep + shown_reading(s, s.suggestion[n - 1]),
        )
    }
}

/// The completions that are shown at the cursor while typing.
pub open spec fn suggestion_at_cursor(s: State) -> Seq<Seg> {
    if s.suggestion.len() == 0 {
        seq![]
    } else {
        match s.cfg.dynamic_completion {
            DynamicCompletion::Off => seq![],
            DynamicCompletion::Single => seg(
                Style::Completion,
                shown_reading(s, s.suggestion[0].skip(s.reading.len() as int)),
            ),
            DynamicCompletion::Multiple => if s.cfg.layout == Layout::Inline {
                suggestion_list(s, s.suggestion.len() as int)
            } else {
                seq![]
            },
        }
    }
}

/// The completions that are shown on a line of their own while typing.
pub open spec fn suggestion_floating(s: State) -> Seq<Seg> {
    if s.suggestion.len() > 0 && s.cfg.dynamic_completion == DynamicCompletion::Multiple
        && s.cfg.layout != Layout::Inline {
        suggestion_list(s, s.suggestion.len() as int)
    } else {
        seq![]
    }
}

/// The candidates `page_start..i` of the list, each with its key.
pub open spec fn list_upto(s: State, i: int) -> Seq<Seg>
    decreases i - page_start(s),
{
    let start = page_start(s);
    if i <= start {
        seq![]
    } else {
        let style = if i - 1 == s.cand_index {
            Style::ListSelected
        } else {
            Style::ListItem
        };
        list_upto(s, i - 1) + seg(
            style,
            seq![s.cfg.select[i - 1 - start]] + ":"@ + shown(s, s.candidates[i - 1]),
        ) + if i < page_end(s) {
            seg(Style::ListItem, " "@)
        } else {
            seq![]
        }
    }
}

/// The page of the list, and how many candidates come after it.
pub open spec fn list_segs(s: State) -> Seq<Seg> {
    let rest = s.candidates.len() - page_end(s);
    list_upto(s, page_end(s)) + if rest > 0 {
        seg(Style::ListItem, "  [残り "@ + decimal(rest as nat) + "]"@)
    } else {
        seq![]
    }
}

/// The candidate in hand.
pub open spec fn candidate_segs(s: State) -> Seq<Seg> {
    seg(Style::Candidate, "▼"@ + current_shown(s) + s.okuri_kana + s.auto_suffix) + seg_if(
        Style::Reading,
        sticky_hint(s),
    ) + match current(s) {
        Some(c) => match c.cand.annotation {
            Some(a) => if list_shown(s) {
                seq![]
            } else {
                seg(Style::ListItem, " ; "@ + a)
            },
            None => seq![],
        },
        None => seq![],
    }
}

/// What is shown at the cursor of the conversion itself.
pub open spec fn phase_segs(s: State) -> Seq<Seg> {
    match s.phase {
        Phase::Direct => direct_segs(s),
        Phase::Composing => reading_segs(s) + completion_segs(s) + suggestion_at_cursor(s),
        Phase::Selecting => candidate_segs(s) + if list_shown(s) && s.cfg.layout
            == Layout::Inline {
            seg(Style::ListItem, " "@) + list_segs(s)
        } else {
            seq![]
        },
    }
}

/// What is shown on a line of its own.
pub open spec fn phase_floating(s: State) -> Seq<Seg> {
    match s.phase {
        Phase::Direct => seq![],
        Phase::Composing => suggestion_floating(s),
        Phase::Selecting => if list_shown(s) && s.cfg.layout == Layout::Float {
            list_segs(s)
        } else {
            seq![]
        },
    }
}

/// The colour of the mode; plain letters have none.
pub open spec fn mode_style(m: Mode) -> Option<Style> {
    match m {
        Mode::Ascii => None,
        Mode::Hiragana => Some(Style::ModeHiragana),
        Mode::Katakana => Some(Style::ModeKatakana),
        Mode::HankakuKatakana => Some(Style::ModeHankaku),
        Mode::ZenkakuAscii => Some(Style::ModeZenkaku),
    }
}

/// The mark of the mode.
pub open spec fn mode_symbol(s: State) -> char {
    match s.mode {
        Mode::Hiragana => s.cfg.mode_symbols[0],
        Mode::Katakana => s.cfg.mode_symbols[1],
        Mode::HankakuKatakana => s.cfg.mode_symbols[2],
        _ => s.cfg.mode_symbols[3],
    }
}

/// The letter of the mode.
pub open spec fn mode_letter(m: Mode) -> Seq<char> {
    match m {
        Mode::Hiragana => "あ"@,
        Mode::Katakana => "ア"@,
        Mode::HankakuKatakana => "半"@,
        _ => "Ａ"@,
    }
}

/// The colour under the cursor. It is left out while something is typed there.
pub open spec fn tint_of(s: State, typing: bool) -> Option<Tint> {
    let m = s.cfg.mode_marker;
    match mode_style(s.mode) {
        Some(style) => if !typing && (m == Marker::Cell || m == Marker::Symbol || m
            == Marker::Beside) {
            Some(
                Tint {
                    style,
                    offset: if m == Marker::Beside {
                        1
                    } else {
                        0
                    },
                    glyph: if m == Marker::Symbol {
                        Some(mode_symbol(s))
                    } else {
                        None
                    },
                },
            )
        } else {
            None
        },
        None => None,
    }
}

/// The letter of the mode, where it is shown.
pub open spec fn letter_segs(s: State) -> Seq<Seg> {
    match mode_style(s.mode) {
        Some(style) => if s.cfg.mode_marker == Marker::Letter {
            seg(style, mode_letter(s.mode))
        } else {
            seq![]
        },
        None => seq![],
    }
}

/// All that is shown of the state.
pub open spec fn preedit_of(s: State) -> Shown {
    match s.filling {
        Some(f) => Shown { at_cursor: fill_segs(s, f), floating: seq![], cursor_tint: None },
        None => if s.regs.len() > 0 && s.regs.last().offering_snippet {
            Shown {
                at_cursor: reg_segs(s) + seg(
                    Style::Candidate,
                    "▼[スニペットを登録]"@,
                ),
                floating: seq![],
                cursor_tint: None,
            }
        } else {
            let segs = reg_segs(s) + phase_segs(s);
            Shown {
                at_cursor: segs + letter_segs(s),
                floating: phase_floating(s),
                cursor_tint: tint_of(s, segs.len() > 0),
            }
        },
    }
}

} // verus!
