//! What is registered, offered and suggested.
use vstd::prelude::*;
use vstd::string::*;
use crate::config::DynamicCompletion;
use crate::dict::completions;
use crate::key::{has, KeyText};
use crate::machine::{
    captured, caught, handled, key_step, offer_answered, offering, pasted_text, printable,
    registration_aborted, registration_finished, registration_key, resumed, saying, shaped, silence,
    suggested, suggestions, word_in_hand, Mode, Phase, Reg, Reply, State,
};
use crate::manners::free;
use crate::romaji::{flushed, in_katakana};
use crate::text::control;

verus! {

/// Whether a text has no control character.
pub open spec fn plain_text(t: Seq<char>) -> bool {
    forall|i: int| 0 <= i < t.len() ==> !control(#[trigger] t[i])
}

proof fn lemma_plain(t: Seq<char>)
    requires
        plain_text(t),
    ensures
        t.filter(printable()) == t,
    decreases t.len(),
{
    reveal(Seq::filter);
    if t.len() > 0 {
        let u = t.drop_last();
        assert forall|i: int| 0 <= i < u.len() implies !control(#[trigger] u[i]) by {
            assert(!control(t[i]));
        }
        lemma_plain(u);
        assert(!control(t[t.len() - 1]));
        assert(u.push(t.last()) =~= t);
    }
}

/// Whether a word is registered and waits for keys.
pub open spec fn waits_for_a_word(s: State) -> bool {
    s.filling is None && s.regs.len() > 0 && !s.regs.last().offering_snippet
}

/// Text that is pasted while a word is registered goes into the word.
pub proof fn law_a_paste_goes_into_the_word(s: State, t: Seq<char>)
    requires
        s.filling is None,
        s.regs.len() > 0,
        plain_text(t),
        free(s.cfg.snippet_edit, KeyText::Paste(vstd::utf8::encode_utf8(t))),
    ensures
        ({
            let r = handled(s, KeyText::Paste(vstd::utf8::encode_utf8(t)));
            &&& r.1 == silence()
            &&& r.0.regs.len() == s.regs.len()
            &&& r.0.regs.last().buffer == s.regs.last().buffer + t
            &&& r.0.regs.drop_last() == s.regs.drop_last()
            &&& r.0.mode == s.mode && r.0.phase == s.phase && r.0.dict == s.dict
        }),
{
    reveal(key_step);
    reveal(pasted_text);
    vstd::utf8::encode_utf8_valid_utf8(t);
    vstd::utf8::encode_utf8_decode_utf8(t);
    lemma_plain(t);
    let r = handled(s, KeyText::Paste(vstd::utf8::encode_utf8(t)));
    assert(r.0.regs.drop_last() =~= s.regs.drop_last());
}

/// A key without a name does nothing while a word is registered.
pub proof fn law_other_sequences_do_nothing(s: State, b: Seq<u8>)
    requires
        s.filling is None,
        s.regs.len() > 0,
        free(s.cfg.snippet_edit, KeyText::Raw(b)),
    ensures
        handled(s, KeyText::Raw(b)).1 == silence(),
        handled(s, KeyText::Raw(b)).0 == suggested(State { fresh: false, ..s }),
{
    reveal(key_step);
}

/// What would be handed out goes into the word that is registered, and a character that would
/// reach the program does too.
pub proof fn law_what_is_said_goes_into_the_word(s: State, t: Seq<char>, c: char)
    requires
        s.regs.len() > 0,
        plain_text(t),
        !control(c),
    ensures
        captured(s, saying(t)).0.regs.last().buffer == s.regs.last().buffer + t,
        captured(s, saying(t)).1 == silence(),
        captured(
            s,
            Reply { passthrough: Some(KeyText::Char(c)), ..saying(t) },
        ).0.regs.last().buffer == s.regs.last().buffer + t + seq![c],
        captured(s, Reply { passthrough: Some(KeyText::Char(c)), ..saying(t) }).1 == silence(),
{
    reveal(captured);
    reveal(caught);
    lemma_plain(t);
    let none: Seq<char> = seq![];
    assert(t + none =~= t);
    assert(s.regs.last().buffer + (t + seq![c]) =~= s.regs.last().buffer + t + seq![c]);
}

/// Backspace takes the last character of the word that is registered back; where there is
/// none, the registration is given up and the reading is there again.
pub proof fn law_the_word_is_taken_back(s: State, key: KeyText)
    requires
        waits_for_a_word(s),
        s.phase == Phase::Direct,
        s.waiting.len() == 0,
        has(s.cfg.backspace, key),
        free(s.cfg.cancel, key),
        !(key is Raw || key is Paste || key is Enter),
        free(s.cfg.snippet_edit, key),
    ensures
        handled(s, key).1 == silence(),
        s.regs.last().buffer.len() > 0 ==> handled(s, key).0.regs.len() == s.regs.len() && handled(
            s,
            key,
        ).0.regs.last().buffer == s.regs.last().buffer.drop_last(),
        s.regs.last().buffer.len() == 0 ==> handled(s, key).0.regs == s.regs.drop_last() && handled(
            s,
            key,
        ).0.phase == Phase::Composing && handled(s, key).0.reading == s.regs.last().reading,
{
    reveal(has);
    reveal(key_step);
    reveal(registration_key);
    reveal(registration_aborted);
    reveal(resumed);
}

/// The key that converts, pressed before anything is typed, offers to write a snippet.
pub proof fn law_a_snippet_is_offered(s: State, key: KeyText)
    requires
        waits_for_a_word(s),
        s.phase == Phase::Direct,
        s.waiting.len() == 0,
        s.regs.last().buffer.len() == 0,
        has(s.cfg.convert, key),
        free(s.cfg.cancel, key),
        free(s.cfg.backspace, key),
        !(key is Raw || key is Paste || key is Enter),
        free(s.cfg.snippet_edit, key),
    ensures
        handled(s, key).1 == silence(),
        handled(s, key).0.regs.len() == s.regs.len(),
        handled(s, key).0.regs.last() == (Reg { offering_snippet: true, ..s.regs.last() }),
{
    reveal(has);
    reveal(key_step);
    reveal(registration_key);
}

/// Enter takes the offer: a snippet is to be written for the reading, which is there again.
/// The key that cancels only takes the offer back.
pub proof fn law_the_offer_is_answered(s: State, key: KeyText)
    requires
        s.filling is None,
        s.regs.len() > 0,
        s.regs.last().offering_snippet,
        !(key is Raw || key is Paste),
        free(s.cfg.snippet_edit, key),
    ensures
        key is Enter ==> ({
            let r = handled(s, key);
            &&& r.1.edit_snippet == Some(s.regs.last().reading)
            &&& r.1.commit.len() == 0 && r.1.passthrough is None
            &&& r.0.regs == s.regs.drop_last()
            &&& r.0.phase == Phase::Composing
            &&& r.0.reading == s.regs.last().reading
            &&& r.0.dict == s.dict
        }),
        has(s.cfg.cancel, key) && !(key is Enter) && free(s.cfg.confirm, key) ==> ({
            let r = handled(s, key);
            &&& r.1 == silence()
            &&& r.0.regs.len() == s.regs.len()
            &&& r.0.regs.last() == (Reg { offering_snippet: false, ..s.regs.last() })
            &&& r.0.regs.drop_last() == s.regs.drop_last()
        }),
{
    reveal(has);
    reveal(key_step);
    reveal(offer_answered);
    reveal(registration_aborted);
    reveal(resumed);
    let t = offering(State { fresh: false, ..s }, false);
    assert(t.regs.drop_last() =~= s.regs.drop_last());
}

/// Whether a word that is registered inside another registration can go into that one's word.
spec fn goes_below(s: State) -> bool {
    &&& s.regs.len() > 1
    &&& s.waiting.len() == 0
    &&& s.regs.last().buffer.len() > 0
    &&& plain_text(s.regs.last().buffer)
    &&& plain_text(s.regs.last().okuri_kana)
    &&& plain_text(s.regs.last().auto_suffix)
}

proof fn lemma_finished_below(s: State)
    requires
        goes_below(s),
    ensures
        ({
            let r = registration_finished(s);
            let n = s.regs.len() - 2;
            let reg = s.regs.last();
            &&& r.1 == silence()
            &&& r.0.regs.len() == n + 1
            &&& r.0.regs.last().buffer == s.regs[n].buffer + (reg.buffer + reg.okuri_kana
                + reg.auto_suffix)
            &&& r.0.regs.last().reading == s.regs[n].reading
        }),
{
    reveal(registration_finished);
    let reg = s.regs.last();
    let none: Seq<char> = seq![];
    reveal_strlit("n");
    assert("n"@.len() == 1);
    assert(s.waiting =~= none);
    assert(flushed(s.waiting) =~= none);
    assert(shaped(s.mode, none) =~= none) by {
        assert(in_katakana(none) =~= none);
        assert(none.flat_map(|c: char| crate::romaji::hankaku_of(c)) =~= none);
    }
    assert(reg.buffer + none =~= reg.buffer);
    let t = reg.buffer + reg.okuri_kana + reg.auto_suffix;
    assert(plain_text(t));
    reveal(captured);
    reveal(caught);
    lemma_plain(t);
    assert(t + none =~= t);
}

/// A word that is registered inside another registration goes into that one's word.
pub proof fn law_a_word_goes_into_the_word_around_it(s: State)
    requires
        waits_for_a_word(s),
        s.regs.len() > 1,
        s.phase == Phase::Direct,
        s.waiting.len() == 0,
        s.regs.last().buffer.len() > 0,
        plain_text(s.regs.last().buffer),
        plain_text(s.regs.last().okuri_kana),
        plain_text(s.regs.last().auto_suffix),
        free(s.cfg.snippet_edit, KeyText::Enter),
    ensures
        ({
            let r = handled(s, KeyText::Enter);
            let n = s.regs.len() - 2;
            let reg = s.regs.last();
            &&& r.1 == silence()
            &&& r.0.regs.len() == n + 1
            &&& r.0.regs.last().buffer == s.regs[n].buffer + (reg.buffer + reg.okuri_kana
                + reg.auto_suffix)
            &&& r.0.regs.last().reading == s.regs[n].reading
        }),
{
    reveal(key_step);
    reveal(registration_key);
    let t = State { fresh: false, ..s };
    lemma_finished_below(t);
    assert(key_step(t, KeyText::Enter) == registration_finished(t));
}

/// The key for snippets asks to write one for the reading in hand, and changes nothing.
pub proof fn law_the_key_for_snippets(s: State, key: KeyText)
    requires
        s.mode != Mode::Ascii,
        has(s.cfg.snippet_edit, key),
    ensures
        ({
            let r = handled(s, key);
            &&& r.1.commit.len() == 0 && r.1.passthrough is None && !r.1.mode_changed
            &&& r.0 == suggested(State { fresh: false, ..s })
            &&& s.regs.len() > 0 ==> r.1.edit_snippet == Some(s.regs.last().reading)
            &&& s.regs.len() == 0 && s.phase != Phase::Direct ==> r.1.edit_snippet == Some(s.reading)
            &&& s.regs.len() == 0 && s.phase == Phase::Direct ==> r.1.edit_snippet is Some && (
            r.1.edit_snippet->0).len() == 0
        }),
{
    reveal(key_step);
    reveal(word_in_hand);
}

/// Completions are suggested for a reading of kana at whose end the cursor stands, one or a
/// few as the setup says, and at no other time.
pub proof fn law_completions_are_suggested(s: State)
    ensures
        s.phase == Phase::Composing && !s.abbrev && s.completion is None && s.okuri_head is None
            && s.waiting.len() == 0 && s.reading.len() > 0 && s.cursor == s.reading.len() ==> ({
            &&& s.cfg.dynamic_completion == DynamicCompletion::Single ==> suggestions(s)
                == completions(s.dict, s.reading, 1)
            &&& s.cfg.dynamic_completion == DynamicCompletion::Multiple ==> suggestions(s)
                == completions(s.dict, s.reading, 5)
        }),
        s.cfg.dynamic_completion == DynamicCompletion::Off || s.phase != Phase::Composing || s.abbrev
            || s.okuri_head is Some || s.waiting.len() > 0 || s.reading.len() == 0 || s.cursor
            != s.reading.len() || s.completion is Some ==> suggestions(s).len() == 0,
{
    reveal(suggestions);
}

/// After every key the completions that are shown are those for the state.
pub proof fn law_suggestions_are_up_to_date(s: State, key: KeyText)
    ensures
        handled(s, key).0.suggestion == suggestions(handled(s, key).0),
{
    reveal(suggestions);
}

} // verus!
