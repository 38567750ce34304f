//! What the keys do while a snippet is filled in.
use vstd::prelude::*;
use crate::key::{has, KeyText};
use crate::machine::{
    choice_turned, fill_built, fill_choices, fill_place, fill_value, filling_finished, filling_key,
    handled, key_step, settled_in_slot, shaped, slot_backspaced, slot_moved, Fill, Phase, State,
};
use crate::manners::free;
use crate::romaji::flushed;
use crate::soundness::sound;

verus! {

/// Whether a snippet is filled in and nothing waits to be put into it.
pub open spec fn at_place(s: State, f: Fill) -> bool {
    &&& s.filling == Some(f)
    &&& s.phase == Phase::Direct
    &&& s.waiting.len() == 0
    &&& sound(s)
}

/// Whether a key is not for editing snippets.
pub open spec fn no_edit(s: State, key: KeyText) -> bool {
    free(s.cfg.snippet_edit, key)
}

proof fn lemma_settles(s: State, f: Fill)
    requires
        at_place(s, f),
    ensures
        settled_in_slot(s) == (State { waiting: seq![], ..s }),
{
    reveal(settled_in_slot);
    reveal_strlit("n");
    let none: Seq<char> = seq![];
    assert(s.waiting =~= none);
    assert(flushed(s.waiting) =~= none);
    assert(shaped(s.mode, none) =~= none) by {
        assert(crate::romaji::in_katakana(none) =~= none);
        assert(none.flat_map(|c: char| crate::romaji::hankaku_of(c)) =~= none);
    }
    assert(none + none =~= none);
}

/// The key for the next place goes to the place with the next number, and from the last one
/// it hands the snippet out. What was filled in stays.
pub proof fn law_tab_goes_to_the_next_place(s: State, f: Fill)
    requires
        at_place(s, f),
        no_edit(s, KeyText::Tab),
        fill_choices(f).len() == 0 || (free(s.cfg.convert, KeyText::Tab) && free(
            s.cfg.previous,
            KeyText::Tab,
        )),
    ensures
        ({
            let r = handled(s, KeyText::Tab);
            &&& f.at + 1 < f.order.len() ==> {
                &&& r.0.filling is Some
                &&& r.0.filling->0 == (Fill { at: f.at + 1, ..f })
                &&& r.1.commit.len() == 0
            }
            &&& f.at + 1 == f.order.len() ==> {
                &&& r.0.filling is None
                &&& r.1.commit == fill_built(f).0 + s.fill_suffix
                &&& r.1.cursor_back == fill_built(f).1
            }
            &&& r.1.passthrough is None
        }),
{
    reveal(key_step);
    reveal(filling_key);
    reveal(slot_moved);
    reveal(filling_finished);
    let u = State { fresh: false, ..s };
    lemma_settles(u, f);
}

/// The key for the place before goes back to it, and stays at the first one; so it takes back
/// what the key for the next place did.
pub proof fn law_shift_tab_goes_back(s: State, f: Fill)
    requires
        at_place(s, f),
        no_edit(s, KeyText::ShiftTab),
        fill_choices(f).len() == 0 || (free(s.cfg.convert, KeyText::ShiftTab) && free(
            s.cfg.previous,
            KeyText::ShiftTab,
        )),
    ensures
        ({
            let r = handled(s, KeyText::ShiftTab);
            &&& r.0.filling is Some
            &&& f.at > 0 ==> r.0.filling->0 == (Fill { at: f.at - 1, ..f })
            &&& f.at == 0 ==> r.0.filling->0 == f
            &&& r.1.commit.len() == 0
            &&& r.1.passthrough is None
        }),
{
    reveal(key_step);
    reveal(filling_key);
    reveal(slot_moved);
    let u = State { fresh: false, ..s };
    lemma_settles(u, f);
}

/// Enter hands the snippet out as it is filled in, with what follows it, and sends the cursor
/// to its last place. What is being typed in a place is put there first.
pub proof fn law_enter_hands_the_snippet_out(s: State, f: Fill)
    requires
        at_place(s, f),
    ensures
        ({
            let r = handled(s, KeyText::Enter);
            &&& r.0.filling is None
            &&& r.1.commit == fill_built(f).0 + s.fill_suffix
            &&& r.1.cursor_back == fill_built(f).1
            &&& r.1.passthrough is None
        }),
{
    reveal(has);
    reveal(key_step);
    reveal(filling_key);
    reveal(filling_finished);
}

/// Giving a snippet up hands nothing out; taking a character back takes the last one of the
/// place; the keys for converting turn the choices of a place that has some.
pub proof fn law_other_keys_of_a_place(s: State, f: Fill, key: KeyText)
    requires
        at_place(s, f),
        no_edit(s, key),
        !(key is Tab || key is ShiftTab || key is Enter),
        free(s.cfg.confirm, key),
    ensures
        ({
            let r = handled(s, key);
            let turns = fill_choices(f).len() > 0 && (has(s.cfg.convert, key) || has(
                s.cfg.previous,
                key,
            ));
            &&& turns ==> r.0.filling == Some(choice_turned(f, has(s.cfg.previous, key)))
            &&& !turns && has(s.cfg.cancel, key) ==> r.0.filling is None
            &&& !turns && free(s.cfg.cancel, key) && has(s.cfg.backspace, key) ==> {
                &&& r.0.filling is Some
                &&& fill_place(r.0.filling->0) == fill_place(f)
                &&& fill_value(f).len() > 0 ==> fill_value(r.0.filling->0) == fill_value(
                    f,
                ).drop_last()
                &&& fill_value(f).len() == 0 ==> fill_value(r.0.filling->0) == fill_value(f)
            }
            &&& turns || has(s.cfg.cancel, key) || has(s.cfg.backspace, key) ==> r.1.commit.len()
                == 0 && r.1.passthrough is None
        }),
{
    reveal(key_step);
    reveal(filling_key);
    reveal(slot_backspaced);
}

} // verus!
