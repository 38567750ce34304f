//! What the keys of the engine do to what is being typed.
use vstd::prelude::*;
use crate::dict::{from_snippet, learned, looked_up, noted, okuri_learned, DictText};
use crate::jisyo::{CandText, ChangeText};
use crate::key::{has, held, KeyText};
use crate::learning::law_what_was_learned_comes_first;
use crate::machine::{
    among, by_okuri, candidate_committed, candidates_for, captured, choices_added, choices_of,
    combined, commit_noted, completed, composing, composing_step, converting, current, direct,
    direct_step, dispatched, edited, edits, gathered, handled, has_choice, idle, kana_mode,
    key_step, not_among, okuri_ordered, pending_flushed, picked, purged, quiet, reading_backspaced,
    reading_confirmed, reading_typed, registering, registration_finished, registration_key,
    selecting, shaped, sticky_taken, unwritten, written, Choice, Compl, Mode, Phase, State,
    COMPLETIONS,
};
use crate::manners::{free, plainly_typing};
use crate::num::abstracted;
use crate::romaji::{flushed, in_hankaku, in_hiragana, in_katakana};
use crate::typing::after_typing;

verus! {

/// Whether a key goes straight to what is being typed.
pub open spec fn straight(s: State, key: KeyText) -> bool {
    &&& plainly_typing(s)
    &&& !s.sticky
    &&& free(s.cfg.sticky, key)
    &&& free(s.cfg.snippet_edit, key)
    &&& held(s.cfg.ascii_keys, key) == false
}

/// Whether the state is that of kana typed with nothing waiting.
pub open spec fn at_kana(s: State) -> bool {
    s.phase == Phase::Direct && kana_mode(s.mode) && s.waiting.len() == 0
}

/// Outside the kana, the key for kana leads to hiragana and hands nothing out.
pub proof fn law_the_kana_key_leads_to_hiragana(s: State, key: KeyText)
    requires
        straight(s, key),
        s.phase == Phase::Direct,
        !kana_mode(s.mode),
        has(s.cfg.kana, key),
    ensures
        handled(s, key).0.mode == Mode::Hiragana,
        handled(s, key).1.mode_changed,
        quiet(handled(s, key).1),
{
    reveal(key_step);
    reveal(dispatched);
    reveal(sticky_taken);
    reveal(direct);
    reveal(direct_step);
}

/// Among the kana, the keys for letters, wide letters and the other kana lead to those modes
/// and hand nothing out. The key for katakana leads from hiragana to katakana and from the
/// others to hiragana; the one for half-width katakana leads there, and from there back.
pub proof fn law_mode_keys_lead_to_their_modes(s: State, key: KeyText)
    requires
        straight(s, key),
        at_kana(s),
        free(s.cfg.confirm, key),
        free(s.cfg.cancel, key),
        free(s.cfg.backspace, key),
    ensures
        has(s.cfg.ascii, key) ==> handled(s, key).0.mode == Mode::Ascii && quiet(
            handled(s, key).1,
        ),
        free(s.cfg.ascii, key) && has(s.cfg.zenkaku, key) ==> handled(s, key).0.mode
            == Mode::ZenkakuAscii && quiet(handled(s, key).1),
        free(s.cfg.ascii, key) && free(s.cfg.zenkaku, key) && has(s.cfg.hankaku_katakana, key) ==> {
            &&& s.mode == Mode::HankakuKatakana ==> handled(s, key).0.mode == Mode::Hiragana
            &&& s.mode != Mode::HankakuKatakana ==> handled(s, key).0.mode == Mode::HankakuKatakana
            &&& quiet(handled(s, key).1)
        },
        free(s.cfg.ascii, key) && free(s.cfg.zenkaku, key) && free(s.cfg.hankaku_katakana, key)
            && has(s.cfg.katakana, key) ==> {
            &&& s.mode == Mode::Hiragana ==> handled(s, key).0.mode == Mode::Katakana
            &&& s.mode != Mode::Hiragana ==> handled(s, key).0.mode == Mode::Hiragana
            &&& quiet(handled(s, key).1)
        },
{
    reveal(key_step);
    reveal(dispatched);
    reveal(sticky_taken);
    reveal(direct);
    reveal(direct_step);
}

/// The wide form of a character, by its number.
pub open spec fn wide_number(c: char) -> int {
    if c == ' ' {
        0x3000
    } else if '!' <= c <= '~' {
        c as int + 0xfee0
    } else {
        c as int
    }
}

/// In the mode for wide letters a character is handed out in its wide form, which stands as
/// far behind it in the list of characters as all others do; a blank is a wide blank.
pub proof fn law_wide_letters_are_handed_out(s: State, c: char)
    requires
        straight(s, KeyText::Char(c)),
        s.phase == Phase::Direct,
        s.mode == Mode::ZenkakuAscii,
        free(s.cfg.kana, KeyText::Char(c)),
    ensures
        ({
            let r = handled(s, KeyText::Char(c)).1;
            &&& r.commit.len() == 1
            &&& r.commit[0] as int == wide_number(c)
            &&& r.passthrough is None
        }),
{
    reveal(key_step);
    reveal(dispatched);
    reveal(sticky_taken);
    reveal(direct);
    reveal(direct_step);
}

/// The key for an empty reading begins one with nothing in it, and the key for letters begins
/// one that takes characters as they are.
pub proof fn law_a_reading_may_begin_empty(s: State, key: KeyText)
    requires
        straight(s, key),
        at_kana(s),
        free(s.cfg.confirm, key),
        free(s.cfg.cancel, key),
        free(s.cfg.backspace, key),
        free(s.cfg.ascii, key),
        free(s.cfg.zenkaku, key),
        free(s.cfg.hankaku_katakana, key),
        free(s.cfg.katakana, key),
    ensures
        ({
            let t = handled(s, key).0;
            &&& has(s.cfg.start_conversion, key) || has(s.cfg.abbrev, key) ==> t.phase
                == Phase::Composing && t.reading == s.reading && quiet(handled(s, key).1)
            &&& has(s.cfg.start_conversion, key) ==> t.abbrev == s.abbrev
            &&& free(s.cfg.start_conversion, key) && has(s.cfg.abbrev, key) ==> t.abbrev
        }),
{
    reveal(key_step);
    reveal(dispatched);
    reveal(sticky_taken);
    reveal(direct);
    reveal(direct_step);
}

/// Whether a character is no key while a reading is typed.
pub open spec fn no_key(s: State, c: char) -> bool {
    let key = KeyText::Char(c);
    &&& free(s.cfg.sticky, key)
    &&& free(s.cfg.snippet_edit, key)
    &&& held(s.cfg.ascii_keys, key) == false
    &&& free(s.cfg.cancel, key)
    &&& free(s.cfg.confirm, key)
    &&& !edits(s.cfg, key)
    &&& free(s.cfg.affix, key)
    &&& free(s.cfg.complete, key)
    &&& free(s.cfg.complete_previous, key)
    &&& free(s.cfg.convert, key)
}

/// A reading for letters takes every character as it is typed, where the cursor is.
pub proof fn law_letters_are_taken_as_they_are(s: State, v: Seq<char>, n: int)
    requires
        plainly_typing(s),
        !s.sticky,
        s.phase == Phase::Composing,
        s.abbrev,
        0 <= s.cursor <= s.reading.len(),
        0 <= n <= v.len(),
        forall|i: int| 0 <= i < v.len() ==> no_key(s, #[trigger] v[i]),
    ensures
        ({
            let t = after_typing(s, v, n);
            &&& t.phase == Phase::Composing
            &&& t.abbrev
            &&& t.reading == s.reading.take(s.cursor) + v.take(n) + s.reading.skip(s.cursor)
            &&& t.cursor == s.cursor + n
            &&& plainly_typing(t)
            &&& !t.sticky
            &&& t.cfg == s.cfg
        }),
    decreases n,
{
    if n > 0 {
        law_letters_are_taken_as_they_are(s, v, n - 1);
        let t = after_typing(s, v, n - 1);
        let c = v[n - 1];
        assert(no_key(s, c));
        reveal(key_step);
        reveal(dispatched);
        reveal(sticky_taken);
        reveal(composing);
        reveal(composing_step);
        reveal(reading_typed);
        let u = handled(t, KeyText::Char(c)).0;
        assert(u.reading =~= s.reading.take(s.cursor) + v.take(n) + s.reading.skip(s.cursor));
    } else {
        assert(s.reading =~= s.reading.take(s.cursor) + v.take(0) + s.reading.skip(s.cursor));
    }
}

/// Whether a reading with nothing waiting is typed.
pub open spec fn at_reading(s: State) -> bool {
    s.phase == Phase::Composing && s.waiting.len() == 0 && 0 <= s.cursor <= s.reading.len()
}

/// The reading is confirmed as it stands, in the shape of the mode and with its okurigana, and
/// nothing of it is left.
pub proof fn law_a_reading_is_confirmed_as_it_stands(s: State, key: KeyText)
    requires
        straight(s, key),
        at_reading(s),
        free(s.cfg.cancel, key),
        has(s.cfg.confirm, key),
    ensures
        ({
            let r = handled(s, key);
            &&& s.abbrev ==> r.1.commit == s.reading + s.okuri_kana
            &&& !s.abbrev ==> r.1.commit == shaped(s.mode, s.reading) + s.okuri_kana
            &&& r.1.passthrough is None
            &&& idle(r.0)
            &&& r.0.dict == s.dict
        }),
{
    reveal(key_step);
    reveal(dispatched);
    reveal(sticky_taken);
    reveal(composing);
    reveal(composing_step);
    reveal(reading_confirmed);
    reveal(pending_flushed);
    lemma_nothing_waits(s);
}

proof fn lemma_nothing_waits(s: State)
    requires
        s.waiting.len() == 0,
    ensures
        flushed(s.waiting).len() == 0,
{
    reveal_strlit("n");
    assert("n"@.len() == 1);
}

/// Whether a key is none of those that are asked before the kana of a reading.
pub open spec fn past_editing(s: State, key: KeyText) -> bool {
    &&& free(s.cfg.cancel, key)
    &&& free(s.cfg.confirm, key)
    &&& !edits(s.cfg, key)
    &&& free(s.cfg.affix, key)
    &&& free(s.cfg.complete, key)
    &&& free(s.cfg.complete_previous, key)
    &&& free(s.cfg.convert, key)
    &&& !(key is Enter)
}

/// The key for half-width katakana hands the reading out in them, and the one for katakana
/// hands it out in katakana, or in hiragana while katakana are typed. Nothing is learned.
pub proof fn law_a_reading_is_handed_out_in_other_kana(s: State, key: KeyText)
    requires
        straight(s, key),
        at_reading(s),
        !s.abbrev,
        past_editing(s, key),
    ensures
        has(s.cfg.hankaku_katakana, key) ==> {
            &&& handled(s, key).1.commit == in_hankaku(s.reading) + in_hankaku(s.okuri_kana)
            &&& idle(handled(s, key).0)
            &&& handled(s, key).0.dict == s.dict
        },
        free(s.cfg.hankaku_katakana, key) && has(s.cfg.katakana, key) && s.okuri_head is None ==> {
            &&& s.mode == Mode::Katakana ==> handled(s, key).1.commit == in_hiragana(s.reading)
            &&& s.mode != Mode::Katakana ==> handled(s, key).1.commit == in_katakana(s.reading)
            &&& idle(handled(s, key).0)
            &&& handled(s, key).0.dict == s.dict
        },
{
    reveal(key_step);
    reveal(dispatched);
    reveal(sticky_taken);
    reveal(composing);
    reveal(composing_step);
    reveal(pending_flushed);
    lemma_nothing_waits(s);
}

/// Whether a key only edits a reading.
pub open spec fn edits_only(s: State, key: KeyText) -> bool {
    free(s.cfg.cancel, key) && free(s.cfg.confirm, key) && !(key is Enter)
}

proof fn lemma_edited(s: State, key: KeyText)
    requires
        straight(s, key),
        at_reading(s),
        edits_only(s, key),
        edits(s.cfg, key),
    ensures
        ({
            let t = edited(State { fresh: false, ..s }, key);
            let u = handled(s, key).0;
            &&& quiet(handled(s, key).1)
            &&& u.reading == t.reading
            &&& u.cursor == t.cursor
            &&& u.phase == t.phase
            &&& u.okuri_kana == t.okuri_kana
            &&& u.okuri_head == t.okuri_head
            &&& u.waiting == t.waiting
        }),
{
    reveal(key_step);
    reveal(dispatched);
    reveal(sticky_taken);
    reveal(composing);
    reveal(composing_step);
}

/// The keys for moving move the cursor in the reading by one character, or to its start or
/// end, and no further; the reading stays.
pub proof fn law_the_cursor_moves_in_the_reading(s: State, key: KeyText)
    requires
        straight(s, key),
        at_reading(s),
        edits_only(s, key),
        edits(s.cfg, key),
    ensures
        ({
            let t = handled(s, key).0;
            let left = has(s.cfg.move_left, key);
            let right = !left && has(s.cfg.move_right, key);
            let home = !left && !right && has(s.cfg.move_home, key);
            let end = !left && !right && !home && has(s.cfg.move_end, key);
            &&& left || right || home || end ==> t.reading == s.reading && t.phase
                == Phase::Composing && t.okuri_kana == s.okuri_kana
            &&& left && s.cursor > 0 ==> t.cursor == s.cursor - 1
            &&& left && s.cursor == 0 ==> t.cursor == 0
            &&& right && s.cursor < s.reading.len() ==> t.cursor == s.cursor + 1
            &&& right && s.cursor == s.reading.len() ==> t.cursor == s.cursor
            &&& home ==> t.cursor == 0
            &&& end ==> t.cursor == s.reading.len()
            &&& quiet(handled(s, key).1)
        }),
{
    lemma_edited(s, key);
    reveal(edited);
    reveal(pending_flushed);
    lemma_nothing_waits(s);
}

/// Deleting takes out the character that the cursor stands before, and the backspace key the
/// one behind which it stands; the others stay in their order. The okurigana is taken back
/// first, and a reading of which nothing is left is given up.
pub proof fn law_characters_are_taken_out_of_the_reading(s: State, key: KeyText)
    requires
        straight(s, key),
        at_reading(s),
        edits_only(s, key),
        free(s.cfg.move_left, key),
        free(s.cfg.move_right, key),
        free(s.cfg.move_home, key),
        free(s.cfg.move_end, key),
        edits(s.cfg, key),
    ensures
        ({
            let t = handled(s, key).0;
            let del = has(s.cfg.delete_forward, key);
            let bare = s.okuri_kana.len() == 0 && s.okuri_head is None;
            &&& del && s.cursor < s.reading.len() ==> t.reading == s.reading.take(s.cursor)
                + s.reading.skip(s.cursor + 1) && t.cursor == s.cursor
            &&& del && s.cursor == s.reading.len() ==> t.reading == s.reading && t.cursor
                == s.cursor
            &&& !del && s.cursor > 0 && (bare || s.cursor < s.reading.len()) ==> t.reading
                == s.reading.take(s.cursor - 1) + s.reading.skip(s.cursor) && t.cursor == s.cursor
                - 1
            &&& !del && s.cursor == 0 && s.reading.len() > 0 ==> t.reading == s.reading && t.phase
                == Phase::Composing || bare
            &&& !del && s.reading.len() == 0 && bare ==> t.phase == Phase::Direct
            &&& !del && s.cursor == s.reading.len() && s.okuri_kana.len() > 0 ==> t.reading
                == s.reading && t.okuri_kana == s.okuri_kana.drop_last() && t.okuri_head
                == s.okuri_head
            &&& !del && s.cursor == s.reading.len() && s.okuri_kana.len() == 0 && s.okuri_head
                is Some ==> t.reading == s.reading && t.okuri_head is None
            &&& quiet(handled(s, key).1)
        }),
{
    lemma_edited(s, key);
    reveal(edited);
    reveal(pending_flushed);
    reveal(reading_backspaced);
    lemma_nothing_waits(s);
    let u = handled(s, key).0;
    if s.cursor < s.reading.len() {
        assert(s.reading.remove(s.cursor) =~= s.reading.take(s.cursor) + s.reading.skip(
            s.cursor + 1,
        ));
    }
    if s.cursor > 0 {
        assert(s.reading.remove(s.cursor - 1) =~= s.reading.take(s.cursor - 1) + s.reading.skip(
            s.cursor,
        ));
    }
}

/// A backspace takes back a letter that waits before anything else.
pub proof fn law_a_waiting_letter_is_taken_back_first(s: State, key: KeyText)
    requires
        straight(s, key),
        s.waiting.len() > 0,
        free(s.cfg.cancel, key),
        free(s.cfg.confirm, key),
        has(s.cfg.backspace, key),
        free(s.cfg.move_left, key),
        free(s.cfg.move_right, key),
        free(s.cfg.move_home, key),
        free(s.cfg.move_end, key),
        free(s.cfg.delete_forward, key),
        s.phase == Phase::Composing || (s.phase == Phase::Direct && kana_mode(s.mode)),
        !(key is Enter),
    ensures
        handled(s, key).0.waiting == s.waiting.drop_last(),
        handled(s, key).0.reading == s.reading,
        handled(s, key).0.phase == s.phase,
        quiet(handled(s, key).1),
{
    reveal(key_step);
    reveal(dispatched);
    reveal(sticky_taken);
    reveal(direct);
    reveal(direct_step);
    reveal(composing);
    reveal(composing_step);
    reveal(edited);
    reveal(reading_backspaced);
}

/// The conversion of a reading without okurigana asks the dictionary for the reading, and
/// shows what it has, in its order; where it has nothing, the word is registered under that
/// reading.
pub proof fn law_converting_asks_for_the_reading(s: State, key: KeyText)
    requires
        straight(s, key),
        at_reading(s),
        s.reading.len() > 0,
        s.okuri_head is None,
        s.okuri_kana.len() == 0,
        free(s.cfg.cancel, key),
        free(s.cfg.confirm, key),
        !edits(s.cfg, key),
        free(s.cfg.affix, key),
        free(s.cfg.complete, key),
        free(s.cfg.complete_previous, key),
        has(s.cfg.convert, key),
        !(key is Enter),
    ensures
        ({
            let t = handled(s, key).0;
            let found = candidates_for(s.dict, s.reading);
            &&& found.len() > 0 ==> {
                &&& t.phase == Phase::Selecting
                &&& t.candidates == found
                &&& t.cand_index == 0
                &&& t.dict_key == s.reading
                &&& t.reading == s.reading
            }
            &&& found.len() == 0 ==> {
                &&& t.phase == Phase::Direct
                &&& t.regs.len() == 1
                &&& t.regs.last().key == s.reading
                &&& t.regs.last().reading == s.reading
                &&& t.regs.last().buffer.len() == 0
            }
            &&& t.dict == s.dict
            &&& quiet(handled(s, key).1)
        }),
{
    reveal(key_step);
    reveal(dispatched);
    reveal(sticky_taken);
    reveal(composing);
    reveal(composing_step);
    reveal(converting);
    reveal(pending_flushed);
    reveal(gathered);
    reveal(registering);
    reveal(okuri_ordered);
    lemma_nothing_waits(s);
}

proof fn lemma_choices_added(v: Seq<Choice>, key: Seq<char>, more: Seq<CandText>, n: int)
    requires
        0 <= n <= more.len(),
    ensures
        ({
            let all = choices_added(v, key, more, n);
            &&& v.len() <= all.len()
            &&& all.take(v.len() as int) == v
            &&& forall|i: int| 0 <= i < n ==> has_choice(all, (#[trigger] more[i]).text)
            &&& forall|i: int|
                v.len() <= i < all.len() ==> (#[trigger] all[i]).key == key && more.contains(
                    all[i].cand,
                )
        }),
    decreases n,
{
    let all = choices_added(v, key, more, n);
    if n > 0 {
        lemma_choices_added(v, key, more, n - 1);
        let had = choices_added(v, key, more, n - 1);
        assert(all.take(v.len() as int) =~= had.take(v.len() as int));
        assert forall|i: int| 0 <= i < n implies has_choice(all, (#[trigger] more[i]).text) by {
            if i < n - 1 || has_choice(had, more[n - 1].text) {
                assert(has_choice(had, more[i].text));
                let k = choose|k: int|
                    0 <= k < had.len() && (#[trigger] had[k]).cand.text == more[i].text;
                assert(all[k] == had[k]);
            } else {
                assert(all[had.len() as int].cand.text == more[i].text);
            }
        }
        assert forall|i: int| v.len() <= i < all.len() implies (#[trigger] all[i]).key == key
            && more.contains(all[i].cand) by {
            if i < had.len() {
                assert(all[i] == had[i]);
            } else {
                assert(more[n - 1] == all[i].cand);
            }
        }
    } else {
        assert(v.take(v.len() as int) =~= v);
    }
}

/// The candidates of a reading are what the dictionary has under it, in its order, and then
/// what it has under the reading with its numbers taken out, as far as that is new.
pub proof fn law_candidates_are_what_the_dictionary_has(d: DictText, key: Seq<char>)
    ensures
        ({
            let v = candidates_for(d, key);
            let own = looked_up(d, key);
            let more = looked_up(d, abstracted(key));
            &&& own.len() <= v.len()
            &&& forall|i: int|
                0 <= i < own.len() ==> (#[trigger] v[i]).key == key && v[i].cand == own[i]
            &&& forall|i: int|
                own.len() <= i < v.len() ==> (#[trigger] v[i]).key == abstracted(key)
                    && more.contains(v[i].cand)
            &&& forall|i: int|
                0 <= i < more.len() ==> has_choice(v, (#[trigger] more[i]).text)
        }),
{
    reveal(candidates_for);
    let plain = choices_of(key, looked_up(d, key));
    let more = looked_up(d, abstracted(key));
    lemma_choices_added(plain, abstracted(key), more, more.len() as int);
    let v = candidates_for(d, key);
    let own = looked_up(d, key);
    assert forall|i: int| 0 <= i < own.len() implies (#[trigger] v[i]).key == key && v[i].cand
        == own[i] by {
        assert(v.take(plain.len() as int)[i] == plain[i] || v == plain);
    }
    if abstracted(key) == key {
        assert forall|i: int| 0 <= i < more.len() implies has_choice(
            v,
            (#[trigger] more[i]).text,
        ) by {
            assert(v[i].cand.text == more[i].text);
        }
    }
}

/// Throwing a candidate out takes it, and what is written the same, out of the candidates and
/// out of the user's dictionary; the others stay in their order. Where none is left the
/// reading comes back.
pub proof fn law_a_candidate_is_thrown_out(s: State, key: KeyText, c: Choice)
    requires
        straight(s, key),
        s.phase == Phase::Selecting,
        current(s) == Some(c),
        free(s.cfg.cancel, key),
        free(s.cfg.confirm, key),
        free(s.cfg.affix, key),
        has(s.cfg.purge, key),
        !(key is Enter),
    ensures
        ({
            let t = handled(s, key).0;
            &&& t.candidates == s.candidates.filter(|x: Choice| x.cand.text != c.cand.text)
            &&& t.dict == noted(s.dict, ChangeText::Purge(c.key, c.cand.text))
            &&& t.candidates.len() == 0 ==> t.phase == Phase::Composing && t.reading == s.reading
            &&& t.candidates.len() > 0 ==> t.phase == Phase::Selecting && t.cand_index
                < t.candidates.len()
            &&& quiet(handled(s, key).1)
        }),
{
    reveal(key_step);
    reveal(dispatched);
    reveal(sticky_taken);
    reveal(selecting);
    reveal(purged);
    let f = |x: Choice| x.cand.text != c.cand.text;
    assert(f =~= unwritten(c.cand.text));
}

/// The key for affixes converts the reading as the beginning of a word; while a candidate is
/// chosen it hands that out and begins the reading of an ending.
pub proof fn law_affixes_are_marked(s: State, key: KeyText)
    requires
        straight(s, key),
        free(s.cfg.cancel, key),
        free(s.cfg.confirm, key),
        has(s.cfg.affix, key),
        !(key is Enter),
    ensures
        at_reading(s) && s.reading.len() > 0 && s.okuri_head is None && !s.abbrev && !edits(
            s.cfg,
            key,
        ) && handled(s, key).0.phase == Phase::Selecting ==> {
            &&& handled(s, key).0.dict_key == s.reading.push('>')
            &&& quiet(handled(s, key).1)
        },
        s.phase == Phase::Selecting ==> {
            let t = State { fresh: false, ..s };
            &&& handled(s, key).0.phase == Phase::Composing
            &&& handled(s, key).0.reading == seq!['>']
            &&& handled(s, key).1.commit == candidate_committed(t).1
            &&& handled(s, key).1.passthrough is None
        },
{
    reveal(key_step);
    reveal(dispatched);
    reveal(sticky_taken);
    reveal(composing);
    reveal(composing_step);
    reveal(selecting);
    reveal(converting);
    reveal(pending_flushed);
    reveal(gathered);
    reveal(registering);
    if s.waiting.len() == 0 {
        lemma_nothing_waits(s);
    }
    lemma_nothing_waits(State { waiting: seq![], ..s });
}

/// A registered word is handed out with its okurigana and what follows it, and comes first
/// the next time its reading is asked for.
pub proof fn law_a_registered_word_is_learned(s: State)
    requires
        s.filling is None,
        s.regs.len() == 1,
        !s.regs.last().offering_snippet,
        s.phase == Phase::Direct,
        s.waiting.len() == 0,
        s.regs.last().buffer.len() > 0,
        !from_snippet(s.dict, s.regs.last().key, s.regs.last().buffer),
    ensures
        ({
            let reg = s.regs.last();
            let r = handled(s, KeyText::Enter);
            let v = looked_up(r.0.dict, reg.key);
            &&& r.1.commit == reg.buffer + reg.okuri_kana + reg.auto_suffix
            &&& r.1.passthrough is None
            &&& r.0.regs.len() == 0
            &&& v.len() > 0
            &&& v[0].text == reg.buffer
        }),
{
    reveal(has);
    reveal(key_step);
    reveal(registration_key);
    reveal(registration_finished);
    reveal(captured);
    lemma_nothing_waits(s);
    let reg = s.regs.last();
    let none: Seq<char> = seq![];
    assert(flushed(s.waiting) =~= none);
    assert(shaped(s.mode, none) =~= none) by {
        assert(in_katakana(none) =~= none);
        assert(none.flat_map(|c: char| crate::romaji::hankaku_of(c)) =~= none);
    }
    assert(reg.buffer + none =~= reg.buffer);
    let cand = CandText { text: reg.buffer, annotation: None };
    law_what_was_learned_comes_first(s.dict, reg.key, cand);
    let d = learned(s.dict, reg.key, cand);
    assert(looked_up(okuri_learned(d, reg.key, reg.okuri_kana, reg.buffer), reg.key) == looked_up(
        d,
        reg.key,
    )) by {
        reveal(okuri_learned);
        reveal(noted);
        reveal(looked_up);
    }
}

/// A word that is confirmed right behind a beginning is learned together with it, under the
/// two readings put together; and so is an ending behind a word.
pub proof fn law_words_are_learned_together(
    s: State,
    last: (Seq<char>, Seq<char>),
    key: Seq<char>,
    text: Seq<char>,
)
    requires
        s.cfg.learn_combined,
        s.last_commit == Some(last),
        last.1.len() + text.len() > 0,
        last.0.len() > 0,
        key.len() > 0,
    ensures
        ({
            let d = commit_noted(s, key, text, false).dict;
            let head = last.0.last() == '>' && key.last() != '>' && key[0] != '>';
            let tail = key[0] == '>' && last.0[0] != '>' && last.0.last() != '>';
            let whole = if head {
                last.0.take(last.0.len() - 1) + key
            } else {
                last.0 + key.skip(1)
            };
            &&& (head || tail) && !from_snippet(s.dict, whole, last.1 + text) ==> {
                let v = looked_up(d, whole);
                v.len() > 0 && v[0].text == last.1 + text
            }
            &&& !head && !tail ==> d == s.dict
        }),
{
    reveal(commit_noted);
    reveal(combined);
    assert(last.0.drop_last() =~= last.0.take(last.0.len() - 1));
    if let Some(p) = combined(last, key, text) {
        if !from_snippet(s.dict, p.0, p.1) {
            law_what_was_learned_comes_first(s.dict, p.0, CandText { text: p.1, annotation: None });
        }
    }
}

/// What was chosen with an okurigana before comes before the rest, or alone, as the setup
/// asks; without such a choice the order stays.
pub proof fn law_the_okurigana_orders_the_candidates(
    v: Seq<Choice>,
    wanted: Seq<Seq<char>>,
    m: crate::config::OkuriMatch,
    i: int,
    j: int,
)
    requires
        0 <= i < j < by_okuri(m, v, wanted).len(),
    ensures
        ({
            let r = by_okuri(m, v, wanted);
            &&& m is First && wanted.len() > 0 && wanted.contains(r[j].cand.text) ==> wanted.contains(
                r[i].cand.text,
            )
            &&& m is Only && wanted.contains(r[j].cand.text) ==> wanted.contains(r[i].cand.text)
                || wanted.len() == 0
            &&& m is Off ==> r == v
            &&& wanted.len() == 0 ==> r == v
        }),
{
    reveal(by_okuri);
    let r = by_okuri(m, v, wanted);
    if wanted.len() > 0 && m is First {
        let a = picked(v, wanted, wanted.len() as int);
        let b = v.filter(not_among(wanted));
        if i < a.len() {
            lemma_picked_wanted(v, wanted, wanted.len() as int, i);
        } else {
            v.lemma_filter_pred(not_among(wanted), j - a.len());
            assert(r[j] == b[j - a.len()]);
        }
    } else if wanted.len() > 0 && m is Only {
        let a = v.filter(among(wanted));
        if a.len() > 0 {
            v.lemma_filter_pred(among(wanted), i);
        } else {
            if wanted.contains(v[j].cand.text) {
                v.lemma_filter_contains(among(wanted), j);
            }
        }
    }
}

proof fn lemma_picked_wanted(v: Seq<Choice>, wanted: Seq<Seq<char>>, n: int, i: int)
    requires
        0 <= n <= wanted.len(),
        0 <= i < picked(v, wanted, n).len(),
    ensures
        wanted.contains(picked(v, wanted, n)[i].cand.text),
    decreases n,
{
    if n > 0 {
        let had = picked(v, wanted, n - 1);
        if i < had.len() {
            lemma_picked_wanted(v, wanted, n - 1, i);
        } else {
            v.lemma_filter_pred(written(wanted[n - 1]), i - had.len());
            assert(wanted.contains(wanted[n - 1]));
        }
    }
}

/// Completing leads through the completions one by one, from the last to the first again,
/// and the other way round; the reading is always one of them. Taking it back brings the
/// reading that was typed.
pub proof fn law_completions_are_gone_through(s: State, c: Compl)
    requires
        s.phase == Phase::Composing,
        !s.abbrev,
        s.completion == Some(c),
        0 <= c.index < c.words.len(),
    ensures
        ({
            let on = completed(s, true);
            let n = c.words.len();
            let next = if c.index + 1 < n {
                c.index + 1
            } else {
                0
            };
            &&& on.completion is Some
            &&& on.completion->0.index == next
            &&& on.completion->0.original == c.original
            &&& on.completion->0.words == c.words
            &&& on.reading == c.words[next]
            &&& on.cursor == on.reading.len()
            &&& completed(on, false).reading == c.words[c.index]
            &&& completed(on, false).completion == Some(c)
        }),
{
    reveal(completed);
    let n = c.words.len() as int;
    let next = if c.index + 1 < n {
        c.index + 1
    } else {
        0
    };
    assert((c.index + 1) % n == next) by {
        if c.index + 1 == n {
            vstd::arithmetic::div_mod::lemma_mod_self_0(n);
        } else {
            vstd::arithmetic::div_mod::lemma_small_mod((c.index + 1) as nat, n as nat);
        }
    }
    assert((next + n - 1) % n == c.index) by {
        if c.index + 1 == n {
            vstd::arithmetic::div_mod::lemma_small_mod((n - 1) as nat, n as nat);
        } else {
            vstd::arithmetic::div_mod::lemma_mod_add_multiples_vanish(c.index, n);
            vstd::arithmetic::div_mod::lemma_small_mod(c.index as nat, n as nat);
        }
    }
}

/// The first completion is that of the dictionary, and the reading that was typed is kept.
pub proof fn law_completing_begins_with_the_first(s: State)
    requires
        at_reading(s),
        !s.abbrev,
        s.completion is None,
    ensures
        ({
            let words = crate::dict::completions(s.dict, s.reading, COMPLETIONS as nat);
            let t = completed(s, true);
            &&& words.len() > 0 ==> t.reading == words[0] && t.completion == Some(
                Compl { original: s.reading, words, index: 0 },
            )
            &&& words.len() == 0 ==> t.reading == s.reading && t.completion is None
        }),
{
    reveal(completed);
    reveal(pending_flushed);
    lemma_nothing_waits(s);
}

/// The keys for completing complete the reading, and hand nothing out; taking a completion
/// back brings the reading that was typed.
pub proof fn law_the_keys_for_completing(s: State, key: KeyText)
    requires
        straight(s, key),
        s.phase == Phase::Composing,
        free(s.cfg.confirm, key),
        !(key is Enter),
    ensures
        free(s.cfg.cancel, key) && !edits(s.cfg, key) && free(s.cfg.affix, key) && has(
            s.cfg.complete,
            key,
        ) ==> handled(s, key).0.reading == completed(State { fresh: false, ..s }, true).reading
            && quiet(handled(s, key).1),
        free(s.cfg.cancel, key) && !edits(s.cfg, key) && free(s.cfg.affix, key) && free(
            s.cfg.complete,
            key,
        ) && has(s.cfg.complete_previous, key) ==> handled(s, key).0.reading == completed(
            State { fresh: false, ..s },
            false,
        ).reading && quiet(handled(s, key).1),
        has(s.cfg.cancel, key) && s.completion is Some ==> handled(s, key).0.reading
            == s.completion->0.original && handled(s, key).0.phase == Phase::Composing && quiet(
            handled(s, key).1,
        ),
{
    reveal(key_step);
    reveal(dispatched);
    reveal(sticky_taken);
    reveal(composing);
    reveal(composing_step);
}

} // verus!
