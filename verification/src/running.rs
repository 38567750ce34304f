//! What a run writes to the program and to the terminal.
use vstd::prelude::*;
use vstd::string::*;
use crate::arriving::{law_a_key_arrives_as_itself, lemma_character_bytes};
use crate::config::Marker;
use crate::display::preedit_of;
use crate::input::{after, decoded, report_at, report_from};
use crate::key::KeyText;
use crate::machine::{handled, kana_mode, reply_bytes, shaped, Mode, Phase, State};
use crate::manners::plainly_typing;
use crate::render::{all_drawn, drawn_text, restored_text};
use crate::session::{
    after_input, after_output, before_output, can_draw, cursor_bytes, cursor_text, erasing,
    farewell_bytes, lefts, report_taken, typed, utf8, with_drawing, SessionText,
};
use crate::snippet::Now;
use crate::typing::{
    after_typing, handed_out, kana_of_letters, law_typed_letters_are_handed_out_as_kana,
    small_letters,
};

verus! {

/// The program's output reaches the terminal whole and first of all; what is drawn again
/// comes behind it.
pub proof fn law_output_reaches_the_terminal_whole(s: SessionText, data: Seq<u8>)
    ensures
        data.is_prefix_of(after_output(s, data).1),
{
    let all = after_output(s, data).1;
    assert(data =~= all.subrange(0, data.len() as int));
}

/// Before the program's output the drawing is taken away, and then nothing is drawn any more.
pub proof fn law_the_drawing_goes_before_the_output(s: SessionText)
    ensures
        before_output(s).0.painted.len() == 0,
        before_output(s).0.engine == s.engine,
        before_output(s).0.screen == s.screen,
        erasing(s).is_prefix_of(before_output(s).1),
{
    let e = erasing(s);
    let all = before_output(s).1;
    assert(e =~= all.subrange(0, e.len() as int));
}

/// Keys may come in any number of pieces: what goes to the program is the same, in the same
/// order.
pub proof fn law_keys_may_come_in_pieces(s: State, a: Seq<KeyText>, b: Seq<KeyText>, n: int)
    requires
        0 <= n <= b.len(),
    ensures
        ({
            let one = typed(s, a, a.len() as int);
            let two = typed(one.engine, b, n);
            let all = typed(s, a + b, a.len() + n);
            &&& all.to_child == one.to_child + two.to_child
            &&& all.engine == two.engine
            &&& all.mode_changed == (one.mode_changed || two.mode_changed)
            &&& all.committed == (one.committed || two.committed)
            &&& all.edit == (if one.edit is Some {
                one.edit
            } else {
                two.edit
            })
        }),
    decreases n,
{
    let one = typed(s, a, a.len() as int);
    if n > 0 {
        law_keys_may_come_in_pieces(s, a, b, n - 1);
        assert((a + b)[a.len() + n - 1] == b[n - 1]);
        let two = typed(one.engine, b, n);
        let all = typed(s, a + b, a.len() + n);
        assert(all.to_child =~= one.to_child + two.to_child);
    } else {
        lemma_first_keys(s, a, b, a.len() as int);
        assert(one.to_child + typed(one.engine, b, 0).to_child =~= one.to_child);
    }
}

proof fn lemma_first_keys(s: State, a: Seq<KeyText>, b: Seq<KeyText>, n: int)
    requires
        0 <= n <= a.len(),
    ensures
        typed(s, a + b, n) == typed(s, a, n),
    decreases n,
{
    if n > 0 {
        lemma_first_keys(s, a, b, n - 1);
        assert((a + b)[n - 1] == a[n - 1]);
    }
}

/// Letters that are typed among the kana, given as keys.
pub open spec fn are_keys_of(keys: Seq<KeyText>, v: Seq<char>) -> bool {
    &&& keys.len() == v.len()
    &&& forall|i: int| 0 <= i < v.len() ==> #[trigger] keys[i] == KeyText::Char(v[i])
}

/// Letters that are typed among the kana reach the program as the kana that they spell
/// all together.
pub proof fn law_the_program_gets_the_kana(s: State, keys: Seq<KeyText>, v: Seq<char>, n: int)
    requires
        plainly_typing(s),
        s.phase == Phase::Direct,
        kana_mode(s.mode),
        !s.sticky,
        s.waiting.len() == 0,
        small_letters(s.cfg, v),
        are_keys_of(keys, v),
        0 <= n <= v.len(),
    ensures
        typed(s, keys, n).to_child == utf8(shaped(s.mode, kana_of_letters(s, v.take(n)))),
        typed(s, keys, n).engine == after_typing(s, v, n),
{
    lemma_letters_sent(s, keys, v, n);
    law_typed_letters_are_handed_out_as_kana(s, v, n);
}

proof fn lemma_letters_sent(s: State, keys: Seq<KeyText>, v: Seq<char>, n: int)
    requires
        plainly_typing(s),
        s.phase == Phase::Direct,
        kana_mode(s.mode),
        !s.sticky,
        s.waiting.len() == 0,
        small_letters(s.cfg, v),
        are_keys_of(keys, v),
        0 <= n <= v.len(),
    ensures
        typed(s, keys, n).to_child == utf8(handed_out(s, v, n)),
        typed(s, keys, n).engine == after_typing(s, v, n),
    decreases n,
{
    let none: Seq<char> = seq![];
    if n > 0 {
        lemma_letters_sent(s, keys, v, n - 1);
        law_typed_letters_are_handed_out_as_kana(s, v, n - 1);
        let t = after_typing(s, v, n - 1);
        let key = keys[n - 1];
        let r = handled(t, key).1;
        assert(small_letters(s.cfg, v));
        assert(crate::typing::only_spells(s.cfg, v[n - 1]));
        crate::typing::lemma_letter_is_kept(t, v[n - 1]);
        let a = handed_out(s, v, n - 1);
        lemma_utf8_add(a, r.commit);
        assert(reply_bytes(r) =~= utf8(r.commit));
        assert(lefts(0) =~= seq![]);
        assert(typed(s, keys, n).to_child =~= utf8(a) + utf8(r.commit));
    } else {
        assert(utf8(none) =~= seq![]);
    }
}

proof fn lemma_utf8_add(a: Seq<char>, b: Seq<char>)
    ensures
        utf8(a + b) == utf8(a) + utf8(b),
    decreases a.len(),
{
    if a.len() == 0 {
        assert(a + b =~= b);
        assert(utf8(a) =~= seq![]);
        assert(utf8(a) + utf8(b) =~= utf8(b));
    } else {
        let t = a.drop_first();
        lemma_utf8_add(t, b);
        assert((a + b).drop_first() =~= t + b);
        assert((a + b)[0] == a[0]);
        vstd::utf8::encode_utf8_first_scalar(a + b);
        vstd::utf8::encode_utf8_first_scalar(a);
        assert(utf8(a + b) =~= utf8(a) + utf8(b));
    }
}

/// After a snippet the cursor goes left as often as it has to.
pub proof fn law_the_cursor_goes_left(n: nat, i: int)
    ensures
        lefts(n).len() == 3 * n,
        0 <= i < n ==> lefts(n).subrange(3 * i, 3 * i + 3) == seq![0x1bu8, 0x5b, 0x44],
    decreases n,
{
    if n > 0 {
        law_the_cursor_goes_left((n - 1) as nat, i);
        let had = lefts((n - 1) as nat);
        if 0 <= i < n - 1 {
            assert(lefts(n).subrange(3 * i, 3 * i + 3) =~= had.subrange(3 * i, 3 * i + 3));
        } else if i == n - 1 {
            assert(lefts(n).subrange(3 * i, 3 * i + 3) =~= seq![0x1bu8, 0x5b, 0x44]);
        }
    }
}

/// The shape of the cursor that stands for a mode.
pub open spec fn shape_of(m: Mode) -> char {
    match m {
        Mode::Ascii => '4',
        Mode::Hiragana => '2',
        Mode::Katakana => '6',
        Mode::HankakuKatakana => '5',
        Mode::ZenkakuAscii => '1',
    }
}

/// The cursor is an underline among letters, a block among hiragana, a bar among katakana, a
/// blinking one among half-width katakana and a blinking block among wide letters. Where a
/// mark under it tells the mode it is always an underline. Among letters its colour is the
/// terminal's own.
pub proof fn law_the_cursor_shows_the_mode(m: Mode, marker: Marker)
    ensures
        cursor_text(m, marker).len() > 5,
        cursor_text(m, marker)[2] == (if marker == Marker::Cell || marker == Marker::Symbol {
            '4'
        } else {
            shape_of(m)
        }),
        m == Mode::Ascii || marker == Marker::Cell || marker == Marker::Symbol || marker
            == Marker::Beside ==> cursor_text(m, marker).skip(5) == "\x1b]112\x07"@,
{
    reveal_strlit("\x1b]112\x07");
    reveal_strlit("\x1b[4 q\x1b]112\x07");
    reveal_strlit("\x1b[2 q\x1b]112\x07");
    reveal_strlit("\x1b[6 q\x1b]112\x07");
    reveal_strlit("\x1b[5 q\x1b]112\x07");
    reveal_strlit("\x1b[1 q\x1b]112\x07");
    reveal_strlit("\x1b[2 q\x1b]12;#7fd75f\x07");
    reveal_strlit("\x1b[6 q\x1b]12;#5fd7ff\x07");
    reveal_strlit("\x1b[5 q\x1b]12;#5fafaf\x07");
    reveal_strlit("\x1b[1 q\x1b]12;#d787ff\x07");
    let t = cursor_text(m, marker);
    if m == Mode::Ascii || marker == Marker::Cell || marker == Marker::Symbol || marker
        == Marker::Beside {
        assert(t.skip(5) =~= "\x1b]112\x07"@);
    }
}

/// At the end a drawing that is still there goes first, and the look of the terminal and its
/// cursor are put back last.
pub proof fn law_the_terminal_is_left_in_order(s: SessionText)
    requires
        s.touched,
    ensures
        erasing(s).is_prefix_of(farewell_bytes(s)),
        utf8("\x1b[0m\x1b[?25h"@).is_suffix_of(farewell_bytes(s)),
{
    let all = farewell_bytes(s);
    let e = erasing(s);
    let z = utf8("\x1b[0m\x1b[?25h"@);
    assert(e =~= all.subrange(0, e.len() as int));
    assert(z =~= all.subrange(all.len() - z.len(), all.len() as int));
}

/// Whether characters are printable ones of one byte each.
pub open spec fn one_byte_each(v: Seq<char>) -> bool {
    forall|i: int| 0 <= i < v.len() ==> ' ' <= #[trigger] v[i] && v[i] < '\x7f'
}

proof fn lemma_bytes_decoded(bound: Seq<KeyText>, v: Seq<char>)
    requires
        one_byte_each(v),
    ensures
        are_keys_of(decoded(bound, None, utf8(v)).keys, v),
        forall|i: int| 0 <= i < utf8(v).len() ==> #[trigger] utf8(v)[i] != 0x1b,
    decreases v.len(),
{
    let b = utf8(v);
    if v.len() > 0 {
        let c = v[0];
        let rest = v.skip(1);
        let one = seq![c];
        let a = utf8(one);
        let r = utf8(rest);
        assert(' ' <= v[0] && v[0] < '\x7f');
        assert(one + rest =~= v);
        lemma_utf8_add(one, rest);
        lemma_character_bytes(c);
        assert(a.len() == 1 && a[0] == c as u32);
        law_a_key_arrives_as_itself(KeyText::Char(c), r, bound);
        assert forall|i: int| 0 <= i < rest.len() implies ' ' <= #[trigger] rest[i] && rest[i]
            < '\x7f' by {
            assert(' ' <= v[i + 1]);
        }
        lemma_bytes_decoded(bound, rest);
        assert(b == a + r);
        assert(b[0] == a[0]);
        assert(b.skip(1) =~= r);
        let d = decoded(bound, None, b);
        let e = decoded(bound, None, r);
        assert(d == after(seq![KeyText::Char(c)], e));
        assert forall|i: int| 0 <= i < v.len() implies #[trigger] d.keys[i] == KeyText::Char(
            v[i],
        ) by {
            if i > 0 {
                assert(d.keys[i] == e.keys[i - 1]);
                assert(rest[i - 1] == v[i]);
            }
        }
        assert forall|i: int| 0 <= i < b.len() implies #[trigger] b[i] != 0x1b by {
            if i > 0 {
                assert(b[i] == r[i - 1]);
            }
        }
    } else {
        assert(b =~= seq![]);
    }
}

proof fn lemma_no_report(b: Seq<u8>, i: int)
    requires
        0 <= i <= b.len(),
        forall|j: int| 0 <= j < b.len() ==> #[trigger] b[j] != 0x1b,
    ensures
        report_from(b, i) is None,
    decreases b.len() - i,
{
    if i < b.len() {
        assert(b[i] != 0x1b);
        assert(report_at(b, i) is None);
        lemma_no_report(b, i + 1);
    }
}

/// The bytes of letters that come from the terminal reach the program as the bytes of the
/// kana that the letters spell.
pub proof fn law_bytes_become_kana(s: SessionText, v: Seq<char>, now: Now)
    requires
        plainly_typing(s.engine),
        s.engine.phase == Phase::Direct,
        kana_mode(s.engine.mode),
        !s.engine.sticky,
        s.engine.waiting.len() == 0,
        small_letters(s.engine.cfg, v),
        one_byte_each(v),
        s.decoder.partial.len() == 0,
        s.decoder.pasting is None,
    ensures
        after_input(s, utf8(v), now).1.to_child == utf8(
            shaped(s.engine.mode, kana_of_letters(State { now, ..s.engine }, v)),
        ),
{
    let b = utf8(v);
    reveal(report_taken);
    lemma_bytes_decoded(s.decoder.bound, v);
    lemma_no_report(b, 0);
    assert(report_taken(s, b) == (s, b));
    assert(s.decoder.partial + b =~= b);
    let e = State { now, ..s.engine };
    let keys = decoded(s.decoder.bound, None, b).keys;
    law_the_program_gets_the_kana(e, keys, v, v.len() as int);
    assert(v.take(v.len() as int) =~= v);
}

/// What is drawn goes before what puts the terminal back, which is the last thing that is
/// written. Nothing is written in the middle of a sequence of the program.
pub proof fn law_the_terminal_is_put_back_last(s: SessionText)
    ensures
        ({
            let r = with_drawing(s);
            let back = utf8(restored_text(s.screen));
            &&& s.tail.len() > 0 ==> r.1.len() == 0 && r.0 == s
            &&& can_draw(s) || (s.had_overlay && s.tail.len() == 0) ==> back.is_suffix_of(r.1)
            &&& can_draw(s) ==> utf8(
                drawn_text(all_drawn(s.screen, preedit_of(s.engine)).steps),
            ).is_prefix_of(r.1) && r.0.touched
            &&& !can_draw(s) && !s.had_overlay ==> r.1.len() == 0
            &&& r.0.screen == s.screen && r.0.engine == s.engine
        }),
{
    reveal(with_drawing);
    let r = with_drawing(s);
    let back = utf8(restored_text(s.screen));
    if can_draw(s) {
        let d = utf8(drawn_text(all_drawn(s.screen, preedit_of(s.engine)).steps));
        assert(d =~= r.1.subrange(0, d.len() as int));
        assert(back =~= r.1.subrange(r.1.len() - back.len(), r.1.len() as int));
    } else if s.had_overlay && s.tail.len() == 0 {
        assert(back =~= r.1.subrange(0, back.len() as int));
    }
}

/// When keys change the mode the cursor is made to show it, right behind what takes the
/// drawing away; in the middle of a sequence of the program it is put off until the output
/// comes to rest.
pub proof fn law_a_change_of_mode_is_shown(s: SessionText, data: Seq<u8>, now: Now)
    requires
        s.shows_mode,
        !s.awaiting_report,
        ({
            let d = decoded(s.decoder.bound, s.decoder.pasting, s.decoder.partial + data);
            typed(State { now, ..s.engine }, d.keys, d.keys.len() as int).mode_changed
        }),
    ensures
        ({
            let r = after_input(s, data, now);
            &&& s.tail.len() == 0 ==> (erasing(s) + cursor_bytes(r.0)).is_prefix_of(
                r.1.to_terminal,
            )
            &&& s.tail.len() > 0 ==> r.0.cursor_dirty
        }),
{
    reveal(report_taken);
    reveal(with_drawing);
    reveal(cursor_bytes);
    let r = after_input(s, data, now);
    assert(report_taken(s, data) == (s, data));
    if s.tail.len() == 0 {
        let a = erasing(s) + cursor_bytes(r.0);
        assert(a =~= r.1.to_terminal.subrange(0, a.len() as int));
    }
}

/// A cursor that has yet to show the mode does so behind the next output that comes to rest.
pub proof fn law_the_cursor_shows_the_mode_again(s: SessionText, data: Seq<u8>)
    requires
        s.cursor_dirty || s.screen.touched,
        s.shows_mode,
    ensures
        ({
            let r = after_output(s, data);
            &&& r.0.tail.len() == 0 ==> (data + cursor_bytes(r.0)).is_prefix_of(r.1)
                && !r.0.cursor_dirty
            &&& r.0.tail.len() > 0 ==> r.0.cursor_dirty && r.1 == data
        }),
{
    reveal(with_drawing);
    reveal(cursor_bytes);
    let r = after_output(s, data);
    if r.0.tail.len() == 0 {
        let a = data + cursor_bytes(r.0);
        assert(a =~= r.1.subrange(0, a.len() as int));
    } else {
        assert(r.1 =~= data);
    }
}

/// Whatever keys have confirmed is to be saved, and stays to be saved until it is.
pub proof fn law_what_is_confirmed_is_to_be_saved(s: SessionText, data: Seq<u8>, now: Now)
    requires
        !s.awaiting_report,
    ensures
        ({
            let d = decoded(s.decoder.bound, s.decoder.pasting, s.decoder.partial + data);
            let t = typed(State { now, ..s.engine }, d.keys, d.keys.len() as int);
            let r = after_input(s, data, now);
            &&& t.committed || s.unsaved ==> r.0.unsaved
            &&& !t.committed && !s.unsaved ==> !r.0.unsaved
            &&& r.1.edit == t.edit
        }),
{
    reveal(report_taken);
    reveal(with_drawing);
    assert(report_taken(s, data) == (s, data));
}

/// Keys have confirmed something when one of them has handed text out.
pub proof fn law_handing_out_is_confirming(s: State, keys: Seq<KeyText>, n: int, k: int)
    requires
        0 <= k < n <= keys.len(),
        handled(typed(s, keys, k).engine, keys[k]).1.commit.len() > 0,
    ensures
        typed(s, keys, n).committed,
    decreases n,
{
    if k < n - 1 {
        law_handing_out_is_confirming(s, keys, n - 1, k);
    }
}

} // verus!
