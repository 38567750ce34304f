//! How the engine behaves towards the program behind it.
use vstd::prelude::*;
use crate::config::{default_config, named_keys, page_len, ConfigText};
use crate::dict::{from_snippet, learned, looked_up, noted, okuri_learned};
use crate::key::{has, held, KeyText};
use crate::learning::law_what_was_learned_comes_first;
use crate::machine::{
    all_flushed, candidate_committed, candidate_learned, captured, caught, cleared, commit_noted,
    composing, composing_step, converting, current, direct, direct_step, dispatched, edits,
    fill_choices, fill_of, filling_key, gathered, handled, idle, kana_mode, key_step, list_shown,
    next_index, offer_answered, offering, opened, page_start, passing, printable, quiet,
    reading_confirmed, registration_aborted, registration_finished, registration_key, resumed,
    selecting, shaped, shown, silence, stepped_back, sticky_taken, suggested, suggestions,
    typed_in_slot, with_buffer, Choice, Mode, Phase, State,
};
use crate::romaji::flushed;
use crate::soundness::{lemma_captured, lemma_dispatched_sound, sound, usable};
use crate::text::capital;
use crate::waiting::at_rest;

verus! {

/// Whether a key is not bound by a list.
pub open spec fn free(v: Seq<KeyText>, key: KeyText) -> bool {
    has(v, key) == false
}

/// Nothing is registered or filled in.
pub open spec fn plainly_typing(s: State) -> bool {
    s.regs.len() == 0 && s.filling is None
}

/// In the mode for letters everything goes to the program as it is, but for the key that
/// turns kana on. The engine shows nothing and keeps nothing.
pub proof fn law_letters_go_through(s: State, key: KeyText)
    requires
        plainly_typing(s),
        s.mode == Mode::Ascii,
        s.phase == Phase::Direct,
        !s.sticky,
        free(s.cfg.kana, key),
    ensures
        handled(s, key).1 == passing(key),
        handled(s, key).0.mode == Mode::Ascii,
        handled(s, key).0.phase == Phase::Direct,
        handled(s, key).0.waiting == s.waiting,
        handled(s, key).0.dict == s.dict,
        handled(s, key).0.cfg == s.cfg,
        handled(s, key).0.regs == s.regs,
        handled(s, key).0.filling == s.filling,
        !handled(s, key).0.sticky,
{
    reveal(key_step);
    reveal(dispatched);
    reveal(sticky_taken);
    reveal(direct);
    reveal(direct_step);
}

proof fn lemma_enter_is_free(c: ConfigText)
    ensures
        useless(c, KeyText::Enter),
        free(c.affix, KeyText::Enter),
        free(c.purge, KeyText::Enter),
        free(c.convert, KeyText::Enter),
        free(c.previous, KeyText::Enter),
        free(c.complete, KeyText::Enter),
        free(c.complete_previous, KeyText::Enter),
{
    reveal(has);
}

/// While something is being converted, Enter only confirms, whatever keys are bound: the
/// reading as it stands, or the candidate in hand. No line feed goes to the program, which
/// would take it for a command.
pub proof fn law_enter_only_confirms(s: State)
    requires
        plainly_typing(s),
        s.phase != Phase::Direct,
    ensures
        ({
            let r = handled(s, KeyText::Enter);
            let t = State { fresh: false, sticky: false, ..s };
            &&& r.1.passthrough is None
            &&& s.phase == Phase::Composing ==> r.1.commit == reading_confirmed(t).1
            &&& s.phase == Phase::Selecting ==> r.1.commit == candidate_committed(t).1
            &&& r.0.phase == Phase::Direct
        }),
{
    reveal(key_step);
    reveal(dispatched);
    reveal(sticky_taken);
    reveal(composing);
    reveal(composing_step);
    reveal(selecting);
    reveal(reading_confirmed);
    reveal(candidate_committed);
    lemma_enter_is_free(s.cfg);
    assert((State { fresh: false, ..s }) == (State { fresh: false, sticky: s.sticky, ..s }));
}

/// While nothing is being converted, Enter reaches the program in every mode, whatever keys
/// are bound.
pub proof fn law_enter_reaches_the_program(s: State)
    requires
        plainly_typing(s),
        s.phase == Phase::Direct,
    ensures
        handled(s, KeyText::Enter).1.passthrough == Some(KeyText::Enter),
        handled(s, KeyText::Enter).1.commit == (if kana_mode(s.mode) {
            shaped(s.mode, flushed(s.waiting))
        } else {
            seq![]
        }),
{
    reveal(key_step);
    reveal(dispatched);
    reveal(sticky_taken);
    reveal(direct);
    reveal(direct_step);
    lemma_enter_is_free(s.cfg);
}

proof fn lemma_registration_is_quiet(s: State, key: KeyText)
    requires
        sound(s),
        usable(s.cfg),
        s.regs.len() > 0,
        !(s.regs.len() == 1 && s.phase == Phase::Direct && key is Enter),
    ensures
        quiet(registration_key(s, key).1),
{
    reveal(registration_key);
    reveal(registration_finished);
    let r = dispatched(s, key);
    lemma_dispatched_sound(s, key);
    lemma_captured(r.0, r.1);
    if s.phase == Phase::Direct && key is Enter {
        reveal(captured);
    }
}

/// While a word is registered nothing goes to the program, whatever is typed. Only Enter
/// that ends the outermost registration hands the word out.
pub proof fn law_registering_hands_nothing_out(s: State, key: KeyText)
    requires
        sound(s),
        usable(s.cfg),
        s.regs.len() > 0,
        s.filling is None,
        !(s.regs.len() == 1 && s.phase == Phase::Direct && key is Enter),
    ensures
        quiet(handled(s, key).1),
{
    reveal(key_step);
    let t = State { fresh: false, ..s };
    if t.regs.last().offering_snippet {
        reveal(offer_answered);
        let u = offering(t, false);
        lemma_registration_is_quiet(u, key);
    } else {
        lemma_registration_is_quiet(t, key);
    }
}

/// Taking back the choice of a candidate brings the reading back, and hands nothing out.
pub proof fn law_cancelling_a_choice_brings_the_reading_back(s: State, key: KeyText)
    requires
        plainly_typing(s),
        s.phase == Phase::Selecting,
        !s.sticky,
        has(s.cfg.cancel, key),
        free(s.cfg.sticky, key),
        free(s.cfg.snippet_edit, key),
    ensures
        quiet(handled(s, key).1),
        handled(s, key).0.phase == Phase::Composing,
        handled(s, key).0.reading == s.reading,
        handled(s, key).0.okuri_head == s.okuri_head,
        handled(s, key).0.okuri_kana == s.okuri_kana,
        handled(s, key).0.dict == s.dict,
{
    reveal(key_step);
    reveal(dispatched);
    reveal(sticky_taken);
    reveal(selecting);
}

/// Taking back a reading leaves no trace: nothing is handed out, learned or kept.
pub proof fn law_cancelling_a_reading_leaves_nothing(s: State, key: KeyText)
    requires
        plainly_typing(s),
        s.phase == Phase::Composing,
        s.completion is None,
        !s.sticky,
        has(s.cfg.cancel, key),
        free(s.cfg.sticky, key),
        free(s.cfg.snippet_edit, key),
    ensures
        quiet(handled(s, key).1),
        idle(handled(s, key).0),
        handled(s, key).0.reading.len() == 0,
        handled(s, key).0.dict == s.dict,
{
    reveal(key_step);
    reveal(dispatched);
    reveal(sticky_taken);
    reveal(composing);
    reveal(composing_step);
}

/// Giving a registration up brings the reading back with its okurigana; the word is not
/// learned.
pub proof fn law_giving_up_a_registration_brings_the_reading_back(s: State, key: KeyText)
    requires
        s.regs.len() > 0,
        s.filling is None,
        s.phase == Phase::Direct,
        s.waiting.len() == 0,
        !s.regs.last().offering_snippet,
        has(s.cfg.cancel, key),
        !(key is Raw || key is Paste || key is Enter),
        free(s.cfg.snippet_edit, key),
    ensures
        quiet(handled(s, key).1),
        handled(s, key).0.regs == s.regs.drop_last(),
        handled(s, key).0.phase == Phase::Composing,
        handled(s, key).0.reading == s.regs.last().reading,
        handled(s, key).0.okuri_head == s.regs.last().okuri_head,
        handled(s, key).0.okuri_kana == s.regs.last().okuri_kana,
        handled(s, key).0.dict == s.dict,
{
    reveal(key_step);
    reveal(registration_key);
    reveal(registration_aborted);
    reveal(resumed);
}

/// Pressing Shift ahead and then a character is pressing that character with Shift. The
/// completions that are shown are those of the state, as after every key.
pub proof fn law_shift_may_be_pressed_ahead(s: State, key: KeyText, c: char)
    requires
        plainly_typing(s),
        !s.sticky,
        s.suggestion == suggestions(State { fresh: false, ..s }),
        s.mode == Mode::Hiragana || s.mode == Mode::Katakana || s.mode == Mode::HankakuKatakana,
        !s.abbrev,
        has(s.cfg.sticky, key),
        free(s.cfg.snippet_edit, key),
        held(s.cfg.ascii_keys, key) == false,
        free(s.cfg.sticky, KeyText::Char(capital(c))),
        free(s.cfg.snippet_edit, KeyText::Char(c)),
        free(s.cfg.snippet_edit, KeyText::Char(capital(c))),
        held(s.cfg.ascii_keys, KeyText::Char(c)) == false,
        held(s.cfg.ascii_keys, KeyText::Char(capital(c))) == false,
    ensures
        handled(s, key).1 == silence(),
        handled(handled(s, key).0, KeyText::Char(c)) == handled(s, KeyText::Char(capital(c))),
{
    reveal(key_step);
    reveal(sticky_taken);
    reveal(dispatched);
    reveal(suggestions);
    let u = State { fresh: false, ..s };
    let t = handled(s, key).0;
    assert(t == (State { sticky: true, ..u }));
    let back = sticky_taken(t, KeyText::Char(c));
    assert(back.0 == u);
}

/// Confirming what is being typed leaves nothing behind.
pub proof fn law_flushing_leaves_nothing(s: State)
    requires
        plainly_typing(s),
        !s.sticky,
        s.phase != Phase::Selecting,
    ensures
        idle(all_flushed(s).0),
{
    reveal(all_flushed);
    reveal(crate::machine::reading_confirmed);
    reveal(crate::machine::pending_flushed);
}

/// Throwing away what is being typed leaves nothing behind, and learns nothing.
pub proof fn law_clearing_leaves_nothing(s: State)
    ensures
        idle(cleared(s)),
        cleared(s).dict == s.dict,
        cleared(s).mode == s.mode,
{
}

/// Whether a key has no use while nothing is converted.
pub open spec fn useless(c: ConfigText, key: KeyText) -> bool {
    &&& free(c.kana, key)
    &&& free(c.confirm, key)
    &&& free(c.cancel, key)
    &&& free(c.backspace, key)
    &&& free(c.ascii, key)
    &&& free(c.zenkaku, key)
    &&& free(c.hankaku_katakana, key)
    &&& free(c.katakana, key)
    &&& free(c.start_conversion, key)
    &&& free(c.abbrev, key)
    &&& free(c.sticky, key)
    &&& free(c.snippet_edit, key)
}

/// A paste is no typing: it goes to the program whole, whatever the mode, and only the
/// letters that waited go before it.
pub proof fn law_a_paste_goes_through(s: State, bytes: Seq<u8>)
    requires
        plainly_typing(s),
        s.phase == Phase::Direct,
        !s.sticky,
        useless(s.cfg, KeyText::Paste(bytes)),
    ensures
        ({
            let key = KeyText::Paste(bytes);
            let r = handled(s, key).1;
            &&& r.passthrough == Some(key)
            &&& kana_mode(s.mode) ==> r.commit == shaped(s.mode, flushed(s.waiting))
            &&& !kana_mode(s.mode) ==> r.commit.len() == 0
        }),
{
    reveal(key_step);
    reveal(dispatched);
    reveal(sticky_taken);
    reveal(direct);
    reveal(direct_step);
}

/// A key that turns kana off, such as Escape for an editor, does so and reaches the program
/// all the same.
pub proof fn law_escape_turns_kana_off(s: State, key: KeyText)
    requires
        plainly_typing(s),
        kana_mode(s.mode),
        s.phase == Phase::Direct,
        !s.sticky,
        held(s.cfg.ascii_keys, key),
        useless(s.cfg, key),
        !(key is Char),
    ensures
        handled(s, key).0.mode == Mode::Ascii,
        handled(s, key).1.passthrough == Some(key),
        handled(s, key).1.mode_changed,
{
    reveal(key_step);
    reveal(dispatched);
    reveal(sticky_taken);
    reveal(direct);
    reveal(direct_step);
}

/// While a reading is typed its characters stay with the engine: none of them reaches the
/// program before it is confirmed.
pub proof fn law_a_reading_stays_with_the_engine(s: State, c: char)
    requires
        plainly_typing(s),
        s.phase == Phase::Composing,
        !s.sticky,
        free(s.cfg.confirm, KeyText::Char(c)),
        free(s.cfg.hankaku_katakana, KeyText::Char(c)),
        free(s.cfg.katakana, KeyText::Char(c)),
    ensures
        quiet(handled(s, KeyText::Char(c)).1),
{
    reveal(key_step);
    reveal(dispatched);
    reveal(sticky_taken);
    reveal(composing);
    reveal(composing_step);
}

/// What is handed out is what was shown: the candidate without the mark of an affix, with its
/// numbers and dates filled in, and what follows it. Only a snippet with places to fill in
/// hands out nothing yet.
pub proof fn law_what_is_shown_is_handed_out(s: State, c: Choice)
    requires
        current(s) == Some(c),
        !(from_snippet(s.dict, c.key, c.cand.text) && fill_of(opened(s, c)) is Some),
    ensures
        candidate_committed(s).1 == shown(s, c) + (s.okuri_kana + s.auto_suffix),
{
    reveal(candidate_committed);
}

/// A candidate that is confirmed comes first the next time. Snippets keep their place; and
/// where two words are learned as one, the second may be the one that comes first.
pub proof fn law_a_confirmed_candidate_comes_first(s: State, c: Choice)
    requires
        plainly_typing(s),
        s.phase == Phase::Selecting,
        !s.sticky,
        current(s) == Some(c),
        !from_snippet(s.dict, c.key, c.cand.text),
        !s.cfg.learn_combined || s.last_commit is None,
    ensures
        ({
            let v = looked_up(handled(s, KeyText::Enter).0.dict, c.key);
            v.len() > 0 && v[0] == c.cand
        }),
{
    reveal(key_step);
    reveal(dispatched);
    reveal(sticky_taken);
    reveal(selecting);
    reveal(candidate_committed);
    reveal(commit_noted);
    lemma_enter_is_free(s.cfg);
    let d = learned(s.dict, c.key, c.cand);
    law_what_was_learned_comes_first(s.dict, c.key, c.cand);
    let t = candidate_learned(State { fresh: false, ..s }, c);
    assert(looked_up(t, c.key) == looked_up(d, c.key)) by {
        reveal(candidate_learned);
        reveal(okuri_learned);
        reveal(noted);
        reveal(looked_up);
    }
    assert(handled(s, KeyText::Enter).0.dict == t);
}

/// Whether the candidate in hand is one that stands alone, or the first of a page of the list:
/// those are the ones that stepping on and back lead to.
pub open spec fn paged(s: State) -> bool {
    list_shown(s) ==> page_start(s) == s.cand_index
}

/// Whether a key steps on to the next candidate, and does nothing else.
pub open spec fn steps_on(c: ConfigText, key: KeyText) -> bool {
    &&& has(c.convert, key)
    &&& free(c.cancel, key)
    &&& free(c.confirm, key)
    &&& free(c.affix, key)
    &&& free(c.purge, key)
    &&& free(c.sticky, key)
    &&& free(c.snippet_edit, key)
    &&& held(c.ascii_keys, key) == false
}

/// Whether a key steps back to the candidate before, and does nothing else.
pub open spec fn steps_back(c: ConfigText, key: KeyText) -> bool {
    &&& has(c.previous, key)
    &&& free(c.convert, key)
    &&& free(c.cancel, key)
    &&& free(c.confirm, key)
    &&& free(c.affix, key)
    &&& free(c.purge, key)
    &&& free(c.sticky, key)
    &&& free(c.snippet_edit, key)
    &&& held(c.ascii_keys, key) == false
}

proof fn lemma_page_follows(s: State)
    requires
        usable(s.cfg),
        list_shown(s),
        page_start(s) == s.cand_index,
    ensures
        ({
            let size = page_len(s.cfg) as int;
            let next = State { cand_index: s.cand_index + size, ..s };
            page_start(next) == next.cand_index
        }),
{
    reveal(page_start);
    let size = page_len(s.cfg) as int;
    let inline = s.cfg.inline_candidates as int;
    let q = (s.cand_index - inline) / size;
    let d = s.cand_index + size - inline;
    assert(d == (q + 1) * size) by (nonlinear_arith)
        requires
            d == q * size + size,
    ;
    vstd::arithmetic::div_mod::lemma_div_multiples_vanish(q + 1, size);
    assert((q + 1) * size == size * (q + 1)) by (nonlinear_arith);
}

proof fn lemma_first_page(s: State)
    requires
        usable(s.cfg),
        s.cand_index == s.cfg.inline_candidates,
    ensures
        page_start(s) == s.cand_index,
{
    reveal(page_start);
    let size = page_len(s.cfg) as int;
    assert(0int / size == 0) by (nonlinear_arith)
        requires
            size >= 1,
    ;
    assert(0int * size == 0) by (nonlinear_arith);
}

/// Stepping back undoes stepping on.
proof fn lemma_back_undoes(s: State)
    requires
        usable(s.cfg),
        0 <= s.cand_index,
        paged(s),
        next_index(s) is Some,
    ensures
        ({
            let next = State { cand_index: next_index(s)->0, ..s };
            paged(next) && next.cand_index > 0 && stepped_back(next) == s
        }),
{
    reveal(page_start);
    reveal(crate::machine::page_end);
    reveal(next_index);
    reveal(stepped_back);
    let inline = s.cfg.inline_candidates as int;
    let next = State { cand_index: next_index(s)->0, ..s };
    if s.cand_index + 1 < inline {
        assert(stepped_back(next) == s);
    } else if !list_shown(s) {
        lemma_first_page(next);
        assert(stepped_back(next) == s);
    } else {
        lemma_page_follows(s);
        assert(next.cand_index == s.cand_index + page_len(s.cfg));
        assert(page_start(next) == next.cand_index);
        assert(stepped_back(next).cand_index == s.cand_index);
        assert(stepped_back(next) == s);
    }
}

/// Whether a key reaches the candidates: while a word is registered all but sequences and
/// pastes do; while a snippet is filled in, all but those that move between its places, take
/// back a character or turn the choices of a place.
pub open spec fn reaches_candidates(s: State, key: KeyText) -> bool {
    &&& s.filling is None && s.regs.len() > 0 ==> !(key is Raw || key is Paste)
    &&& s.filling is Some ==> {
        &&& s.regs.len() == 0
        &&& fill_choices(s.filling->0).len() == 0
        &&& !(key is Tab || key is ShiftTab)
        &&& free(s.cfg.backspace, key)
    }
}

/// The state in which nothing is offered: any key but one that takes it ends an offer.
pub open spec fn unoffered(s: State) -> State {
    if s.filling is None && s.regs.len() > 0 && s.regs.last().offering_snippet {
        offering(s, false)
    } else {
        s
    }
}

/// A key that reaches the candidates and hands nothing out does what it does to them.
proof fn lemma_reached(s: State, key: KeyText, t: State)
    requires
        reaches_candidates(s, key),
        s.phase == Phase::Selecting,
        free(s.cfg.snippet_edit, key),
        free(s.cfg.confirm, key),
        free(s.cfg.cancel, key),
        held(s.cfg.ascii_keys, key) == false,
        !(key is Enter),
        dispatched(unoffered(State { fresh: false, ..s }), key) == (t, silence()),
        t.regs == unoffered(s).regs,
        t.filling == s.filling,
    ensures
        handled(s, key) == (suggested(t), silence()),
{
    reveal(key_step);
    let u = State { fresh: false, ..s };
    if s.filling is Some {
        reveal(filling_key);
        reveal(typed_in_slot);
    } else if s.regs.len() > 0 {
        reveal(offer_answered);
        reveal(registration_key);
        reveal(captured);
        let none: Seq<char> = seq![];
        assert(none.filter(printable()) =~= none);
        reveal(caught);
        assert(caught(silence()) =~= none);
        let buffer = t.regs.last().buffer;
        assert(buffer + none =~= buffer);
        assert(with_buffer(t, buffer).regs =~= t.regs);
        assert(captured(t, silence()) == (t, silence()));
        assert(registration_key(unoffered(u), key) == (t, silence()));
        assert(suggestions(suggested(t)) == suggestions(t)) by {
            reveal(suggestions);
        }
    }
}

pub proof fn lemma_step_on(s: State, on: KeyText)
    requires
        sound(s),
        s.phase == Phase::Selecting,
        !s.sticky,
        paged(s),
        next_index(s) is Some,
        steps_on(s.cfg, on),
        reaches_candidates(s, on),
    ensures
        handled(s, on) == (
            suggested(
                State {
                    cand_index: next_index(s)->0,
                    fresh: false,
                    ..unoffered(s)
                },
            ),
            silence(),
        ),
        paged(handled(s, on).0),
{
    reveal(dispatched);
    reveal(sticky_taken);
    reveal(selecting);
    reveal(has);
    let u = State { fresh: false, ..unoffered(s) };
    assert(unoffered(State { fresh: false, ..s }) == u);
    lemma_back_undoes(s);
    assert(next_index(u) == next_index(s)) by {
        reveal(next_index);
        reveal(page_start);
        reveal(crate::machine::page_end);
    }
    let next = State { cand_index: next_index(s)->0, ..u };
    lemma_reached(s, on, next);
    assert(paged(suggested(next))) by {
        reveal(page_start);
        assert(paged(State { cand_index: next_index(s)->0, ..s }));
    }
}

/// The key for the candidate before takes back what the key for the next one did, also while
/// a word is registered or a snippet is filled in: the same candidate is in hand, everything
/// else is as it was, and nothing is handed out.
pub proof fn law_stepping_back_undoes_stepping_on(s: State, on: KeyText, back: KeyText)
    requires
        sound(s),
        s.phase == Phase::Selecting,
        !s.sticky,
        paged(s),
        next_index(s) is Some,
        steps_on(s.cfg, on),
        steps_back(s.cfg, back),
        reaches_candidates(s, on),
        reaches_candidates(s, back),
    ensures
        quiet(handled(s, on).1),
        quiet(handled(handled(s, on).0, back).1),
        paged(handled(s, on).0),
        handled(handled(s, on).0, back).0 == suggested(State { fresh: false, ..unoffered(s) }),
{
    reveal(dispatched);
    reveal(sticky_taken);
    reveal(selecting);
    reveal(has);
    lemma_step_on(s, on);
    lemma_back_undoes(s);
    let u = State { fresh: false, ..unoffered(s) };
    let t = handled(s, on).0;
    assert(unoffered(t) == t) by {
        if s.filling is None && s.regs.len() > 0 {
            assert(!t.regs.last().offering_snippet);
        }
    }
    assert((State { fresh: false, ..t }) == t);
    let v = State { suggestion: t.suggestion, ..u };
    assert(stepped_back(t) == v) by {
        reveal(stepped_back);
        reveal(page_start);
    }
    assert(t.cand_index > 0);
    lemma_reached(t, back, v);
    assert(suggestions(v) == suggestions(u)) by {
        reveal(suggestions);
    }
}

/// A conversion begins with a candidate from which one can step on and back.
pub proof fn law_a_conversion_begins_paged(s: State)
    requires
        usable(s.cfg),
        s.phase != Phase::Selecting,
        converting(s).phase == Phase::Selecting,
    ensures
        paged(converting(s)),
        converting(s).cand_index == 0,
{
    reveal(converting);
    reveal(gathered);
    reveal(crate::machine::pending_flushed);
    reveal(crate::machine::registering);
    let c = converting(s).cfg;
    assert(c == s.cfg);
}

/// Whether a key has no use at all, as an arrow that nothing is bound to.
pub open spec fn unused(c: ConfigText, key: KeyText) -> bool {
    &&& key is Raw
    &&& useless(c, key)
    &&& !edits(c, key)
    &&& free(c.affix, key)
    &&& free(c.purge, key)
    &&& free(c.convert, key)
    &&& free(c.previous, key)
    &&& free(c.complete, key)
    &&& free(c.complete_previous, key)
    &&& held(c.ascii_keys, key) == false
}

/// Confirming what is being typed hands out what a key without a use would make the engine
/// hand out before it passes the key on, and leaves the engine alike.
pub proof fn law_flushing_is_like_an_unused_key(s: State, key: KeyText)
    requires
        plainly_typing(s),
        !s.sticky,
        unused(s.cfg, key),
        at_rest(s),
    ensures
        ({
            let f = all_flushed(s);
            let h = handled(s, key);
            &&& f.1 == h.1.commit
            &&& h.1.passthrough == Some(key)
            &&& f.0.phase == Phase::Direct && h.0.phase == Phase::Direct
            &&& f.0.mode == s.mode && h.0.mode == s.mode
            &&& f.0.waiting == h.0.waiting
            &&& f.0.dict == h.0.dict
            &&& f.0.filling == h.0.filling
            &&& f.0.fill_suffix == h.0.fill_suffix
            &&& f.0.regs == h.0.regs
            &&& s.phase != Phase::Direct ==> f.0.candidates.len() == 0
        }),
{
    reveal(crate::machine::shown);
    reveal(crate::machine::opened);
    reveal(key_step);
    reveal(dispatched);
    reveal(sticky_taken);
    reveal(direct);
    reveal(direct_step);
    reveal(composing);
    reveal(composing_step);
    reveal(selecting);
    reveal(reading_confirmed);
    reveal(crate::machine::pending_flushed);
    reveal(candidate_committed);
    reveal(candidate_learned);
    reveal(commit_noted);
    reveal(all_flushed);
    let u = State { fresh: false, ..s };
    if s.phase == Phase::Direct && !kana_mode(s.mode) {
        assert(s.waiting =~= seq![]);
        reveal_strlit("n");
        assert("n"@.len() == 1);
    } else if s.phase == Phase::Selecting {
        assert(current(u) == current(s));
        assert(candidate_committed(u).1 == candidate_committed(s).1);
    } else if s.phase == Phase::Composing {
        assert(reading_confirmed(u).1 == reading_confirmed(s).1);
    }
}

/// While a word is registered nothing is confirmed from outside: what was typed of it stays.
pub proof fn law_flushing_keeps_a_registration(s: State)
    requires
        s.regs.len() > 0,
    ensures
        all_flushed(s) == (s, Seq::<char>::empty()),
{
    reveal(all_flushed);
}

/// The state after a key was pressed `n` times.
pub open spec fn pressed(s: State, key: KeyText, n: nat) -> State
    decreases n,
{
    if n == 0 {
        s
    } else {
        handled(pressed(s, key, (n - 1) as nat), key).0
    }
}

/// From the first candidate on, any number of steps on can be taken back one by one, also
/// while a word is registered or a snippet is filled in: the same candidate of the same ones
/// is in hand again.
pub proof fn law_every_step_can_be_taken_back(s: State, on: KeyText, back: KeyText, n: nat)
    requires
        sound(s),
        s.phase == Phase::Selecting,
        s.cand_index == 0,
        !s.sticky,
        forall|i: nat| i <= n ==> next_index(#[trigger] pressed(s, on, i)) is Some,
        steps_on(s.cfg, on),
        steps_back(s.cfg, back),
        reaches_candidates(s, on),
        reaches_candidates(s, back),
    ensures
        ({
            let t = pressed(s, on, n);
            let u = handled(pressed(s, on, n + 1), back).0;
            &&& t.phase == Phase::Selecting
            &&& u.phase == Phase::Selecting
            &&& t.candidates == s.candidates
            &&& u.candidates == s.candidates
            &&& u.cand_index == t.cand_index
        }),
{
    lemma_pressed_on(s, on, n);
    let t = pressed(s, on, n);
    assert(next_index(t) is Some);
    law_stepping_back_undoes_stepping_on(t, on, back);
    assert(pressed(s, on, n + 1) == handled(t, on).0);
}

proof fn lemma_pressed_on(s: State, on: KeyText, n: nat)
    requires
        sound(s),
        s.phase == Phase::Selecting,
        s.cand_index == 0,
        !s.sticky,
        forall|i: nat| i < n ==> next_index(#[trigger] pressed(s, on, i)) is Some,
        steps_on(s.cfg, on),
        reaches_candidates(s, on),
    ensures
        ({
            let t = pressed(s, on, n);
            &&& sound(t)
            &&& t.phase == Phase::Selecting
            &&& !t.sticky
            &&& paged(t)
            &&& t.cfg == s.cfg
            &&& t.candidates == s.candidates
            &&& t.filling == s.filling
            &&& t.regs.len() == s.regs.len()
        }),
    decreases n,
{
    if n > 0 {
        let m = (n - 1) as nat;
        lemma_pressed_on(s, on, m);
        let t = pressed(s, on, m);
        assert(next_index(t) is Some);
        lemma_step_on(t, on);
        reveal(next_index);
        reveal(crate::machine::page_end);
        reveal(page_start);
    }
}

/// With the keys that are bound from the start, space steps on and x steps back, and an arrow
/// that points up has no use.
pub proof fn law_the_usual_keys(s: State)
    requires
        s.cfg == default_config(),
    ensures
        steps_on(s.cfg, KeyText::Char(' ')),
        steps_back(s.cfg, KeyText::Char('x')),
        unused(s.cfg, KeyText::Raw(seq![0x1b, 0x5b, 0x41])),
{
    reveal(has);
    reveal(held);
    let c = default_config();
    assert(c.convert[0] == KeyText::Char(' '));
    assert(c.previous[0] == KeyText::Char('x'));
    let up = seq![0x1bu8, 0x5b, 0x41];
    lemma_not_up("left"@, 0x02);
    lemma_not_up("right"@, 0x06);
    lemma_not_up("home"@, 0x01);
    lemma_not_up("end"@, 0x05);
}

proof fn lemma_not_up(name: Seq<char>, b: u8)
    requires
        name == "left"@ || name == "right"@ || name == "home"@ || name == "end"@,
    ensures
        !(seq![KeyText::Ctrl(b)] + named_keys(name)->0).contains(
            KeyText::Raw(seq![0x1b, 0x5b, 0x41]),
        ),
{
    reveal_strlit("left");
    reveal_strlit("right");
    reveal_strlit("up");
    reveal_strlit("down");
    reveal_strlit("home");
    reveal_strlit("end");
    assert("left"@[0] == 'l' && "right"@[0] == 'r' && "up"@[0] == 'u' && "down"@[0] == 'd'
        && "home"@[0] == 'h' && "end"@[0] == 'e');
    let up = KeyText::Raw(seq![0x1b, 0x5b, 0x41]);
    let v = named_keys(name)->0;
    let all = seq![KeyText::Ctrl(b)] + v;
    assert forall|i: int| 0 <= i < v.len() implies v[i] != up by {
        assert(v[i] is Raw);
        let r = v[i]->Raw_0;
        assert(r.len() != 3 || r[2] != 0x41 || r[1] != 0x5b);
        assert(up->Raw_0.len() == 3 && up->Raw_0[1] == 0x5b && up->Raw_0[2] == 0x41);
    }
    if all.contains(up) {
        let i = choose|i: int| 0 <= i < all.len() && all[i] == up;
        if i > 0 {
            assert(v[i - 1] == up);
        }
    }
}

} // verus!
