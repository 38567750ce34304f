//! What keys do while letters wait, and what one key after another does.
use vstd::prelude::*;
use vstd::string::*;
use crate::handling::straight;
use crate::key::{has, KeyText};
use crate::machine::{
    candidate_committed, composing, composing_step, converting, direct, direct_dispatched,
    direct_step, dispatched, edited, edits, fed, handled, kana_mode, key_step, pending_flushed,
    quiet, reading_confirmed, selecting, shaped, sticky_taken, suggested, suggestions, Phase, State,
};
use crate::manners::free;
use crate::romaji::flushed;

verus! {

/// An n that waits ends as ん, in the reading or in its okurigana; other letters that wait
/// are dropped. Nothing waits then.
pub proof fn law_letters_that_wait_come_to_an_end(s: State)
    requires
        0 <= s.cursor <= s.reading.len(),
    ensures
        ({
            let t = pending_flushed(s);
            &&& t.waiting.len() == 0
            &&& s.waiting == "n"@ && s.okuri_head is None ==> t.reading == s.reading.take(s.cursor)
                + "ん"@ + s.reading.skip(s.cursor) && t.cursor == s.cursor + 1 && t.okuri_kana
                == s.okuri_kana
            &&& s.waiting == "n"@ && s.okuri_head is Some ==> t.okuri_kana == s.okuri_kana + "ん"@
                && t.reading == s.reading
            &&& s.waiting != "n"@ ==> t.reading == s.reading && t.okuri_kana == s.okuri_kana
                && t.cursor == s.cursor
            &&& t.mode == s.mode && t.phase == s.phase && t.dict == s.dict
        }),
{
    reveal(pending_flushed);
    reveal_strlit("ん");
    assert("ん"@.len() == 1);
}

/// Whether a key ends what waits before it does anything to a reading: it confirms, moves the
/// cursor, converts, or asks for the other kana.
pub open spec fn ends_letters(s: State, key: KeyText) -> bool {
    &&& free(s.cfg.cancel, key)
    &&& free(s.cfg.backspace, key)
    &&& free(s.cfg.delete_forward, key)
    &&& free(s.cfg.affix, key)
    &&& {
        ||| has(s.cfg.confirm, key)
        ||| key is Enter
        ||| edits(s.cfg, key)
        ||| has(s.cfg.convert, key)
        ||| (!s.abbrev && has(s.cfg.hankaku_katakana, key))
        ||| (!s.abbrev && s.okuri_head is None && has(s.cfg.katakana, key))
        ||| !(key is Char)
    }
}

/// A key that ends the letters that wait does what it does to the reading with their kana.
pub proof fn law_letters_end_before_the_key(s: State, key: KeyText)
    requires
        straight(s, key),
        s.phase == Phase::Composing,
        s.completion is None,
        free(s.cfg.complete, key),
        free(s.cfg.complete_previous, key),
        ends_letters(s, key),
    ensures
        handled(s, key) == handled(pending_flushed(s), key),
{
    reveal(has);
    reveal(key_step);
    reveal(dispatched);
    reveal(sticky_taken);
    reveal(composing);
    reveal(composing_step);
    reveal(reading_confirmed);
    reveal(edited);
    reveal(converting);
    lemma_flushing_twice(s);
    let a = State { fresh: false, ..s };
    let b = State { fresh: false, ..pending_flushed(s) };
    assert(pending_flushed(a) == b) by {
        reveal(pending_flushed);
    }
    assert(pending_flushed(b) == b) by {
        reveal(pending_flushed);
    }
    assert(a.cfg == b.cfg && a.abbrev == b.abbrev && a.okuri_head == b.okuri_head && a.completion
        == b.completion && a.mode == b.mode && a.phase == b.phase && a.regs == b.regs && a.filling
        == b.filling && a.sticky == b.sticky) by {
        reveal(pending_flushed);
    }
}

proof fn lemma_flushing_twice(s: State)
    ensures
        pending_flushed(pending_flushed(s)) == pending_flushed(s),
{
    reveal(pending_flushed);
    reveal_strlit("n");
    let none: Seq<char> = seq![];
    let t = pending_flushed(s);
    assert("n"@.len() == 1);
    assert(t.waiting =~= none);
    assert(flushed(none).len() == 0);
}

/// Among the kana the key that cancels drops the letters that wait, and the one that confirms
/// hands out what they end as. A backspace with nothing to take back reaches the program.
pub proof fn law_keys_for_letters_that_wait(s: State, key: KeyText)
    requires
        straight(s, key),
        s.phase == Phase::Direct,
        kana_mode(s.mode),
    ensures
        ({
            let r = handled(s, key);
            &&& has(s.cfg.confirm, key) ==> r.1.commit == shaped(s.mode, flushed(s.waiting))
                && r.1.passthrough is None && r.0.waiting.len() == 0
            &&& free(s.cfg.confirm, key) && has(s.cfg.cancel, key) ==> quiet(r.1)
                && r.0.waiting.len() == 0
            &&& free(s.cfg.confirm, key) && free(s.cfg.cancel, key) && has(s.cfg.backspace, key)
                && s.waiting.len() == 0 ==> r.1.passthrough == Some(key) && r.1.commit.len() == 0
            &&& r.0.mode == s.mode || s.waiting.len() == 0
        }),
{
    reveal(has);
    reveal(key_step);
    reveal(dispatched);
    reveal(sticky_taken);
    reveal(direct);
    reveal(direct_step);
    reveal(fed);
}

/// Taking a completion back brings the reading that was completed back.
pub proof fn law_a_completion_is_taken_back(s: State, key: KeyText)
    requires
        straight(s, key),
        s.phase == Phase::Composing,
        s.completion is Some,
        has(s.cfg.cancel, key),
    ensures
        handled(s, key).0.reading == (s.completion->0).original,
        handled(s, key).0.cursor == (s.completion->0).original.len(),
        handled(s, key).0.completion is None,
        handled(s, key).0.phase == Phase::Composing,
        quiet(handled(s, key).1),
{
    reveal(key_step);
    reveal(dispatched);
    reveal(sticky_taken);
    reveal(composing);
    reveal(composing_step);
}

/// Whether a key is none of those that are asked while a candidate is chosen.
pub open spec fn no_choice(s: State, key: KeyText) -> bool {
    &&& free(s.cfg.cancel, key)
    &&& free(s.cfg.confirm, key)
    &&& free(s.cfg.affix, key)
    &&& free(s.cfg.purge, key)
    &&& free(s.cfg.convert, key)
    &&& free(s.cfg.previous, key)
    &&& free(s.cfg.backspace, key)
    &&& !s.cfg.select.contains(key->Char_0)
}

/// A character that is no key for the candidates confirms the one in hand and is then typed:
/// it is like the key that confirms, and then the character.
pub proof fn law_a_character_confirms_and_is_typed(s: State, ok: KeyText, key: KeyText)
    requires
        straight(s, ok),
        straight(s, key),
        s.phase == Phase::Selecting,
        key is Char,
        no_choice(s, key),
        has(s.cfg.confirm, ok),
        free(s.cfg.cancel, ok),
        handled(s, ok).0.filling is None,
    ensures
        ({
            let a = handled(s, ok);
            let b = handled(a.0, key);
            let r = handled(s, key);
            &&& r.1.commit == a.1.commit + b.1.commit
            &&& r.1.passthrough == b.1.passthrough
            &&& r.0 == b.0
        }),
{
    let t = State { fresh: false, ..s };
    let c = candidate_committed(t).0;
    lemma_committed(t);
    lemma_confirming(s, ok);
    lemma_confirming_character(s, key);
    let a = handled(s, ok);
    lemma_typed_directly(a.0, key);
    let x = suggestions(c);
    assert((State { fresh: false, ..a.0 }) == State { suggestion: x, ..c });
    lemma_direct_as_shown(c, key, x);
    lemma_suggested_alike(direct(c, key).0, x);
}

proof fn lemma_suggested_alike(s: State, x: Seq<Seq<char>>)
    ensures
        suggested(State { suggestion: x, ..s }) == suggested(s),
{
    reveal(suggestions);
}

proof fn lemma_direct_as_shown(s: State, key: KeyText, x: Seq<Seq<char>>)
    ensures
        direct(State { suggestion: x, ..s }, key).0 == (State {
            suggestion: x,
            ..direct(s, key).0
        }),
        direct(State { suggestion: x, ..s }, key).1 == direct(s, key).1,
{
    reveal(direct);
    reveal(direct_step);
    reveal(fed);
}

proof fn lemma_typed_directly(s: State, key: KeyText)
    requires
        straight(s, key),
        s.phase == Phase::Direct,
    ensures
        handled(s, key) == (
            suggested(direct(State { fresh: false, ..s }, key).0),
            direct(State { fresh: false, ..s }, key).1,
        ),
{
    reveal(key_step);
    reveal(dispatched);
    reveal(sticky_taken);
}

proof fn lemma_confirming(s: State, ok: KeyText)
    requires
        straight(s, ok),
        s.phase == Phase::Selecting,
        has(s.cfg.confirm, ok),
        free(s.cfg.cancel, ok),
    ensures
        handled(s, ok).0 == suggested(candidate_committed(State { fresh: false, ..s }).0),
        handled(s, ok).1.commit == candidate_committed(State { fresh: false, ..s }).1,
        handled(s, ok).1.passthrough is None,
{
    reveal(key_step);
    reveal(dispatched);
    reveal(sticky_taken);
    reveal(selecting);
}

proof fn lemma_confirming_character(s: State, key: KeyText)
    requires
        straight(s, key),
        s.phase == Phase::Selecting,
        key is Char,
        no_choice(s, key),
    ensures
        ({
            let c = candidate_committed(State { fresh: false, ..s });
            let q = direct(c.0, key);
            &&& handled(s, key).0 == suggested(q.0)
            &&& handled(s, key).1.commit == c.1 + q.1.commit
            &&& handled(s, key).1.passthrough == q.1.passthrough
        }),
{
    reveal(key_step);
    reveal(dispatched);
    reveal(direct_dispatched);
    reveal(sticky_taken);
    reveal(selecting);
    lemma_committed(State { fresh: false, ..s });
}

proof fn lemma_committed(s: State)
    requires
        !s.fresh,
        !s.sticky,
    ensures
        ({
            let c = candidate_committed(s).0;
            &&& !c.fresh && !c.sticky
            &&& c.cfg == s.cfg && c.regs == s.regs && c.mode == s.mode
            &&& c.phase == Phase::Direct
        }),
{
    reveal(candidate_committed);
    reveal(crate::machine::candidate_learned);
    reveal(crate::machine::commit_noted);
}

} // verus!
