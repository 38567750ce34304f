//! How the mode and the keys pressed ahead are shown.
use vstd::prelude::*;
use vstd::string::*;
use crate::config::Marker;
use crate::display::{
    direct_segs, letter_segs, mode_letter, mode_style, phase_segs, preedit_of, reading_tail,
    reg_segs, seg_if, sticky_hint, Seg,
};
use crate::machine::{Fill, Mode, Phase, State, Style};
use crate::text::decimal;

verus! {

/// Whether nothing is being typed.
pub open spec fn nothing_typed(s: State) -> bool {
    s.filling is None && s.regs.len() == 0 && s.phase == Phase::Direct && s.waiting.len() == 0
        && !s.sticky
}

/// The place of the mark of a mode in the setup.
pub open spec fn mark_place(m: Mode) -> int {
    match m {
        Mode::Hiragana => 0,
        Mode::Katakana => 1,
        Mode::HankakuKatakana => 2,
        Mode::ZenkakuAscii => 3,
        Mode::Ascii => 4,
    }
}

/// The modes have a colour and a letter each, but for the one for letters, which has none.
pub proof fn law_modes_look_different(a: Mode, b: Mode)
    ensures
        mode_style(a) is None <==> a == Mode::Ascii,
        mode_style(a) == mode_style(b) ==> a == b,
        a != Mode::Ascii && b != Mode::Ascii && mode_letter(a) == mode_letter(b) ==> a == b,
        a != Mode::Ascii ==> mode_letter(a).len() == 1,
{
    reveal_strlit("あ");
    reveal_strlit("ア");
    reveal_strlit("半");
    reveal_strlit("Ａ");
    assert("あ"@.len() == 1 && "あ"@[0] == 'あ');
    assert("ア"@.len() == 1 && "ア"@[0] == 'ア');
    assert("半"@.len() == 1 && "半"@[0] == '半');
    assert("Ａ"@.len() == 1 && "Ａ"@[0] == 'Ａ');
}

/// At rest the mode is shown as the setup asks: by a colour under the cursor, by its mark
/// there, by a colour beside the cursor, by its letter, or not at all. The mode for letters
/// is never shown.
pub proof fn law_the_mode_is_marked(s: State)
    requires
        nothing_typed(s),
    ensures
        ({
            let p = preedit_of(s);
            let m = s.cfg.mode_marker;
            let style = mode_style(s.mode);
            &&& p.floating.len() == 0
            &&& s.mode == Mode::Ascii || m == Marker::Off ==> p.at_cursor.len() == 0
                && p.cursor_tint is None
            &&& m != Marker::Letter ==> p.at_cursor.len() == 0
            &&& m == Marker::Letter ==> p.cursor_tint is None
            &&& s.mode != Mode::Ascii && m == Marker::Letter ==> p.at_cursor.len() == 1
                && p.at_cursor[0].text == mode_letter(s.mode) && Some(p.at_cursor[0].style) == style
            &&& s.mode != Mode::Ascii && (m == Marker::Cell || m == Marker::Symbol || m
                == Marker::Beside) ==> p.cursor_tint is Some && Some((p.cursor_tint->0).style)
                == style && (p.cursor_tint->0).offset == (if m == Marker::Beside {
                1int
            } else {
                0int
            })
            &&& s.mode != Mode::Ascii && m == Marker::Symbol ==> (p.cursor_tint->0).glyph == Some(
                s.cfg.mode_symbols[mark_place(s.mode)],
            )
            &&& s.mode != Mode::Ascii && (m == Marker::Cell || m == Marker::Beside) ==> (
            p.cursor_tint->0).glyph is None
        }),
{
    let none: Seq<Seg> = seq![];
    assert(sticky_hint(s).len() == 0);
    assert(direct_segs(s) =~= none);
    assert(reg_segs(s) =~= none);
    assert(phase_segs(s) =~= none);
    assert(none + none =~= none);
    assert(none + letter_segs(s) =~= letter_segs(s));
}

/// While letters wait the colour of the mode gives way to them.
pub proof fn law_typing_hides_the_colour(s: State)
    requires
        s.filling is None,
        s.regs.len() == 0,
        s.phase == Phase::Direct,
        s.waiting.len() > 0,
    ensures
        preedit_of(s).cursor_tint is None,
{
    let all = reg_segs(s) + phase_segs(s);
    let w = seg_if(Style::Romaji, s.waiting);
    assert(w.len() == 1);
    assert(phase_segs(s) == direct_segs(s));
    assert(direct_segs(s).len() > 0);
    assert(all.len() > 0);
}

/// Shift that was pressed ahead is shown by the mark of what it will begin.
pub proof fn law_a_key_pressed_ahead_is_shown(s: State)
    ensures
        s.sticky && s.phase == Phase::Direct ==> sticky_hint(s) == "▽"@,
        s.sticky && s.phase == Phase::Selecting ==> sticky_hint(s) == "▽"@,
        s.sticky && s.phase == Phase::Composing && s.okuri_head is None ==> sticky_hint(s) == "*"@
            && reading_tail(s) == "*"@,
        !s.sticky ==> sticky_hint(s).len() == 0,
        s.okuri_head is Some ==> reading_tail(s) == "*"@ + s.okuri_kana,
{
}

/// A snippet that is filled in is shown with the number of its place, counted from one.
pub proof fn law_a_place_is_numbered(s: State, f: Fill)
    requires
        s.filling == Some(f),
        f.at >= 0,
    ensures
        preedit_of(s).at_cursor.len() >= 2,
        preedit_of(s).at_cursor[0].text == "[埋め "@ + decimal((f.at + 1) as nat) + "/"@ + decimal(
            f.order.len(),
        ) + "]"@,
        preedit_of(s).floating.len() == 0,
        preedit_of(s).cursor_tint is None,
{
}

} // verus!
