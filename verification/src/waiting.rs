//! Letters that wait to become kana wait only while kana are typed.
use vstd::prelude::*;
use crate::config::{default_config, ConfigText};
use crate::key::{has, held, KeyText};
use crate::machine::{
    all_flushed, auto_started, candidate_committed, captured, chosen, cleared, completed, composing,
    composing_step, converting, direct, direct_dispatched, direct_step, dispatched, edited, fed,
    filling_finished, filling_key, gathered, handled, initial, kana_mode, key_step, offer_answered,
    pending_flushed, purged, reading_backspaced, reading_confirmed, reading_typed, registering,
    registration_aborted, registration_finished, registration_key, resumed, selecting,
    settled_in_slot, slot_backspaced, slot_moved, stepped_back, sticky_taken, typed_in_slot, Phase,
    State,
};

verus! {

/// Outside the kana no letters wait while nothing is converted.
pub open spec fn at_rest(s: State) -> bool {
    s.phase == Phase::Direct && !kana_mode(s.mode) ==> s.waiting.len() == 0
}

/// Whether the keys that turn kana off leave no letters waiting: they are no characters, and
/// neither take a letter back nor stand for Shift.
pub open spec fn clearing(c: ConfigText) -> bool {
    forall|k: KeyText| #[trigger]
        held(c.ascii_keys, k) ==> !(k is Char) && has(c.backspace, k) == false && has(c.sticky, k)
            == false
}

/// No letters wait while nothing is converted.
spec fn empty_when_direct(s: State) -> bool {
    s.phase == Phase::Direct ==> s.waiting.len() == 0
}

proof fn lemma_converting_rests(s: State)
    requires
        s.phase == Phase::Composing,
    ensures
        empty_when_direct(converting(s)),
        converting(s).mode == s.mode,
        converting(s).cfg == s.cfg,
{
    reveal(converting);
    reveal(pending_flushed);
    reveal(gathered);
    reveal(registering);
}

proof fn lemma_reading_typed_rests(s: State, c: char)
    requires
        s.phase == Phase::Composing,
    ensures
        empty_when_direct(reading_typed(s, c)),
        reading_typed(s, c).mode == s.mode,
{
    reveal(reading_typed);
    reveal(fed);
    reveal(auto_started);
    let t = reading_typed(s, c);
    if t.phase == Phase::Direct {
        if !s.abbrev && upper_then(s, c) {
            let s1 = State {
                okuri_head: if s.okuri_head is None {
                    Some(crate::text::lower(c))
                } else {
                    s.okuri_head
                },
                ..s
            };
            let r = fed(s1, crate::text::lower(c));
            lemma_converting_rests(State { okuri_kana: r.0.okuri_kana + r.1, ..r.0 });
        } else {
            let r = fed(s, c);
            if s.okuri_head is Some {
                lemma_converting_rests(State { okuri_kana: r.0.okuri_kana + r.1, ..r.0 });
            } else {
                lemma_converting_rests(
                    State {
                        auto_suffix: seq![r.1.last()],
                        ..crate::machine::inserted(r.0, r.1.drop_last())
                    },
                );
            }
        }
    }
    lemma_reading_typed_mode(s, c);
}

spec fn upper_then(s: State, c: char) -> bool {
    crate::text::upper(c) && s.reading.len() > 0
}

proof fn lemma_reading_typed_mode(s: State, c: char)
    ensures
        reading_typed(s, c).mode == s.mode,
{
    reveal(reading_typed);
    reveal(fed);
    reveal(auto_started);
    reveal(converting);
    reveal(pending_flushed);
    reveal(gathered);
    reveal(registering);
}

proof fn lemma_edited_rests(s: State, key: KeyText)
    requires
        s.phase == Phase::Composing,
    ensures
        empty_when_direct(edited(s, key)),
        edited(s, key).mode == s.mode,
{
    reveal(edited);
    reveal(pending_flushed);
    reveal(reading_backspaced);
}

proof fn lemma_composing_rests(s: State, key: KeyText)
    requires
        s.phase == Phase::Composing,
    ensures
        empty_when_direct(composing(s, key).0),
        composing(s, key).0.mode == s.mode,
{
    reveal(composing);
    reveal(composing_step);
    reveal(reading_confirmed);
    reveal(pending_flushed);
    reveal(completed);
    lemma_edited_rests(s, key);
    if key is Char {
        lemma_reading_typed_rests(s, key->Char_0);
    }
    let s1 = pending_flushed(s);
    lemma_converting_rests(State { reading: s1.reading.push('>'), ..s1 });
    lemma_converting_rests(State { completion: None, ..s });
}

proof fn lemma_direct_rests(s: State, key: KeyText)
    requires
        at_rest(s),
        s.phase == Phase::Direct,
    ensures
        at_rest(direct(s, key).0),
        !(key is Char) && has(s.cfg.backspace, key) == false ==> empty_when_direct(
            direct(s, key).0,
        ),
{
    reveal(direct);
    reveal(direct_step);
    reveal(fed);
}

proof fn lemma_committed_rests(s: State)
    ensures
        candidate_committed(s).0.phase == Phase::Direct,
        candidate_committed(s).0.waiting.len() == 0,
        candidate_committed(s).0.mode == s.mode,
        candidate_committed(s).0.cfg == s.cfg,
{
    reveal(candidate_committed);
    reveal(crate::machine::commit_noted);
}

proof fn lemma_selecting_rests(s: State, key: KeyText)
    requires
        s.phase == Phase::Selecting,
    ensures
        at_rest(selecting(s, key).0),
        !(key is Char) ==> empty_when_direct(selecting(s, key).0),
{
    reveal(selecting);
    reveal(purged);
    reveal(registering);
    reveal(stepped_back);
    reveal(chosen);
    reveal(direct_dispatched);
    reveal(sticky_taken);
    lemma_committed_rests(s);
    if key is Char {
        let t = candidate_committed(s).0;
        let u = sticky_taken(t, key);
        if let Some(k) = u.1 {
            lemma_direct_rests(u.0, k);
        }
        let i = crate::machine::page_start(s) + crate::machine::select_place(
            s.cfg.select,
            key->Char_0,
        );
        lemma_committed_rests(State { cand_index: i, ..s });
    }
}

proof fn lemma_dispatched_rests(s: State, key: KeyText)
    requires
        at_rest(s),
    ensures
        at_rest(dispatched(s, key).0),
        !(key is Char) && has(s.cfg.backspace, key) == false && has(s.cfg.sticky, key) == false
            ==> empty_when_direct(dispatched(s, key).0),
{
    reveal(dispatched);
    reveal(sticky_taken);
    let t = sticky_taken(s, key);
    if let Some(k) = t.1 {
        match s.phase {
            Phase::Direct => lemma_direct_rests(t.0, k),
            Phase::Composing => lemma_composing_rests(t.0, k),
            Phase::Selecting => lemma_selecting_rests(t.0, k),
        }
    }
}

proof fn lemma_registration_rests(s: State, key: KeyText)
    requires
        at_rest(s),
        s.regs.len() > 0,
    ensures
        at_rest(registration_key(s, key).0),
{
    reveal(registration_key);
    reveal(registration_finished);
    reveal(registration_aborted);
    reveal(resumed);
    reveal(captured);
    lemma_dispatched_rests(s, key);
}

proof fn lemma_filling_rests(s: State, key: KeyText)
    requires
        at_rest(s),
    ensures
        at_rest(filling_key(s, key).0),
{
    reveal(filling_key);
    reveal(filling_finished);
    reveal(settled_in_slot);
    reveal(slot_moved);
    reveal(slot_backspaced);
    reveal(typed_in_slot);
    lemma_dispatched_rests(s, key);
    lemma_dispatched_rests(s, KeyText::Enter);
}

/// Outside the kana no letters wait while nothing is converted, whatever key comes, as long
/// as the keys that turn kana off leave none.
pub proof fn law_letters_wait_only_for_kana(s: State, key: KeyText)
    requires
        at_rest(s),
        clearing(s.cfg),
    ensures
        at_rest(handled(s, key).0),
{
    reveal(key_step);
    let t = State { fresh: false, ..s };
    if s.filling is Some {
        lemma_filling_rests(t, key);
    } else if s.regs.len() == 0 {
        lemma_dispatched_rests(t, key);
    } else if s.regs.last().offering_snippet {
        reveal(offer_answered);
        reveal(registration_aborted);
        reveal(resumed);
        lemma_registration_rests(crate::machine::offering(t, false), key);
    } else {
        lemma_registration_rests(t, key);
    }
}

/// No letters wait in the beginning, nor after what is typed was confirmed or thrown away; and
/// the keys that turn kana off in the setup one starts with leave none.
pub proof fn law_no_letters_wait_in_the_beginning(s: State, d: crate::dict::DictText)
    requires
        at_rest(s),
    ensures
        at_rest(initial(d, default_config())),
        at_rest(all_flushed(s).0),
        at_rest(cleared(s)),
        clearing(default_config()),
{
    reveal(all_flushed);
    reveal(reading_confirmed);
    reveal(pending_flushed);
    lemma_committed_rests(s);
    reveal(held);
    reveal(has);
    let c = default_config();
    assert forall|k: KeyText| #[trigger] held(c.ascii_keys, k) implies !(k is Char) && has(
        c.backspace,
        k,
    ) == false && has(c.sticky, k) == false by {
        let i = choose|i: int| 0 <= i < c.ascii_keys.len() && c.ascii_keys[i] == k;
        assert(k == KeyText::Esc || k == KeyText::Ctrl(0x03));
        if c.backspace.contains(k) {
            let j = choose|j: int| 0 <= j < c.backspace.len() && c.backspace[j] == k;
            assert(c.backspace[j] == KeyText::Backspace || c.backspace[j] == KeyText::Ctrl(0x08));
        }
    }
}

} // verus!
