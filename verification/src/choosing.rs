//! Every candidate can be reached and chosen.
use vstd::prelude::*;
use crate::config::page_len;
use crate::key::{has, KeyText};
use crate::machine::{
    candidate_committed, chosen, current, dispatched, gathered, handled, key_step, list_shown,
    next_index, page_end, page_start, quiet, selecting, shown, stepped_back, sticky_taken, Choice,
    Phase, State,
};
use crate::manners::{
    free, lemma_step_on, paged, plainly_typing, pressed, reaches_candidates, steps_back, steps_on,
};
use crate::num::numbers;
use crate::soundness::sound;

verus! {

/// Whether a candidate can be seen: it is in hand, or on the page of the list that is shown.
pub open spec fn in_sight(s: State, i: int) -> bool {
    if list_shown(s) {
        page_start(s) <= i < page_end(s)
    } else {
        s.cand_index == i
    }
}

/// Where a number of steps leads: one by one at first, then page by page.
spec fn led_to(s: State, k: int) -> int {
    let inline = s.cfg.inline_candidates as int;
    if k < inline {
        k
    } else {
        inline + (k - inline) * page_len(s.cfg)
    }
}

proof fn lemma_page_of(s: State, j: int)
    requires
        sound(s),
        0 <= j,
        s.cand_index == s.cfg.inline_candidates + j * page_len(s.cfg),
    ensures
        list_shown(s),
        page_start(s) == s.cand_index,
{
    reveal(page_start);
    let size = page_len(s.cfg) as int;
    assert(j * size >= 0) by (nonlinear_arith)
        requires
            j >= 0,
            size >= 1,
    ;
    vstd::arithmetic::div_mod::lemma_div_multiples_vanish(j, size);
    assert(j * size == size * j) by (nonlinear_arith);
}

/// One step leads to the next of these places, as long as there is a candidate.
proof fn lemma_next(s: State, k: int)
    requires
        sound(s),
        s.phase == Phase::Selecting,
        0 <= k,
        s.cand_index == led_to(s, k),
        led_to(s, k + 1) < s.candidates.len(),
    ensures
        next_index(s) == Some(led_to(s, k + 1)),
        paged(s),
{
    reveal(next_index);
    reveal(page_end);
    let inline = s.cfg.inline_candidates as int;
    let size = page_len(s.cfg) as int;
    if k >= inline {
        lemma_page_of(s, k - inline);
        assert((k + 1 - inline) * size == (k - inline) * size + size) by (nonlinear_arith);
    } else if k + 1 == inline {
        assert(0int * size == 0) by (nonlinear_arith);
    }
}

proof fn lemma_led(s: State, on: KeyText, k: nat)
    requires
        sound(s),
        s.phase == Phase::Selecting,
        s.cand_index == 0,
        !s.sticky,
        steps_on(s.cfg, on),
        reaches_candidates(s, on),
        led_to(s, k as int) < s.candidates.len(),
    ensures
        ({
            let t = pressed(s, on, k);
            &&& t.cand_index == led_to(s, k as int)
            &&& sound(t)
            &&& t.phase == Phase::Selecting
            &&& !t.sticky
            &&& t.cfg == s.cfg
            &&& t.candidates == s.candidates
            &&& t.filling == s.filling
            &&& t.regs.len() == s.regs.len()
        }),
    decreases k,
{
    let inline = s.cfg.inline_candidates as int;
    let size = page_len(s.cfg) as int;
    if k > 0 {
        let m = (k - 1) as nat;
        if k > inline {
            assert((k - inline) * size == (m - inline) * size + size) by (nonlinear_arith)
                requires
                    k == m + 1,
            ;
        } else if k == inline {
            assert(0int * size == 0) by (nonlinear_arith);
        }
        lemma_led(s, on, m);
        let t = pressed(s, on, m);
        lemma_next(t, m as int);
        lemma_step_on(t, on);
    } else if inline == 0 {
        assert(0int * size == 0) by (nonlinear_arith);
    }
}

/// Every candidate can be reached: pressing the key for the next candidate often enough
/// brings each of them in sight, the last page of the list as well, however few stand on it.
pub proof fn law_every_candidate_can_be_reached(s: State, on: KeyText, i: int) -> (k: nat)
    requires
        sound(s),
        s.phase == Phase::Selecting,
        s.cand_index == 0,
        !s.sticky,
        steps_on(s.cfg, on),
        reaches_candidates(s, on),
        0 <= i < s.candidates.len(),
    ensures
        pressed(s, on, k).phase == Phase::Selecting,
        pressed(s, on, k).candidates == s.candidates,
        in_sight(pressed(s, on, k), i),
{
    let inline = s.cfg.inline_candidates as int;
    let size = page_len(s.cfg) as int;
    if i < inline {
        lemma_led(s, on, i as nat);
        i as nat
    } else {
        let j = (i - inline) / size;
        let k = (inline + j) as nat;
        vstd::arithmetic::div_mod::lemma_fundamental_div_mod(i - inline, size);
        assert(size * j == j * size) by (nonlinear_arith);
        assert(j >= 0) by {
            vstd::arithmetic::div_mod::lemma_div_pos_is_pos(i - inline, size);
        }
        assert(0 <= (i - inline) % size < size) by {
            vstd::arithmetic::div_mod::lemma_mod_bound(i - inline, size);
        }
        lemma_led(s, on, k);
        let t = pressed(s, on, k);
        lemma_page_of(t, j);
        reveal(page_end);
        k
    }
}

/// Only behind the last candidate there is no next one.
pub proof fn law_only_the_last_candidate_has_no_next(s: State)
    requires
        sound(s),
        s.phase == Phase::Selecting,
        next_index(s) is None,
    ensures
        in_sight(s, s.candidates.len() - 1),
        list_shown(s) ==> page_end(s) == s.candidates.len(),
{
    reveal(next_index);
    reveal(page_end);
    reveal(page_start);
    let size = page_len(s.cfg) as int;
    let inline = s.cfg.inline_candidates as int;
    if list_shown(s) {
        vstd::arithmetic::div_mod::lemma_fundamental_div_mod(s.cand_index - inline, size);
        vstd::arithmetic::div_mod::lemma_mod_bound(s.cand_index - inline, size);
        let q = (s.cand_index - inline) / size;
        assert(size * q == q * size) by (nonlinear_arith);
    }
}

/// Stepping on never leads back, nor past a candidate that was not shown: what comes in sight
/// begins right behind what was in sight.
pub proof fn law_no_candidate_is_passed_over(s: State)
    requires
        sound(s),
        s.phase == Phase::Selecting,
        next_index(s) is Some,
    ensures
        ({
            let i = next_index(s)->0;
            let t = State { cand_index: i, ..s };
            &&& s.cand_index < i < s.candidates.len()
            &&& in_sight(t, i)
            &&& forall|j: int| s.cand_index <= j < i ==> #[trigger] in_sight(s, j)
        }),
{
    reveal(next_index);
    reveal(page_end);
    reveal(page_start);
    let size = page_len(s.cfg) as int;
    let inline = s.cfg.inline_candidates as int;
    let i = next_index(s)->0;
    let t = State { cand_index: i, ..s };
    if list_shown(s) {
        vstd::arithmetic::div_mod::lemma_fundamental_div_mod(s.cand_index - inline, size);
        vstd::arithmetic::div_mod::lemma_mod_bound(s.cand_index - inline, size);
        let q = (s.cand_index - inline) / size;
        assert(size * q == q * size) by (nonlinear_arith);
    }
    if list_shown(t) {
        vstd::arithmetic::div_mod::lemma_fundamental_div_mod(i - inline, size);
        vstd::arithmetic::div_mod::lemma_mod_bound(i - inline, size);
        let q = (i - inline) / size;
        assert(size * q == q * size) by (nonlinear_arith);
    }
}

/// The keys of the list choose what stands at their place on the page: the key number `j`
/// hands out the candidate number `j` of the page, as it is shown, and ends the choice.
pub proof fn law_a_key_of_the_list_chooses_its_candidate(s: State, j: int, c: Choice)
    requires
        plainly_typing(s),
        sound(s),
        s.phase == Phase::Selecting,
        !s.sticky,
        list_shown(s),
        s.cfg.select.no_duplicates(),
        0 <= j < s.cfg.select.len(),
        page_start(s) + j < s.candidates.len(),
        c == s.candidates[page_start(s) + j],
        !(crate::dict::from_snippet(s.dict, c.key, c.cand.text) && crate::machine::fill_of(
            crate::machine::opened(s, c),
        ) is Some),
        ({
            let key = KeyText::Char(s.cfg.select[j]);
            &&& free(s.cfg.cancel, key)
            &&& free(s.cfg.confirm, key)
            &&& free(s.cfg.affix, key)
            &&& free(s.cfg.purge, key)
            &&& free(s.cfg.convert, key)
            &&& free(s.cfg.previous, key)
            &&& free(s.cfg.sticky, key)
            &&& free(s.cfg.snippet_edit, key)
        }),
    ensures
        ({
            let r = handled(s, KeyText::Char(s.cfg.select[j]));
            &&& r.1.commit == shown(s, c) + (s.okuri_kana + s.auto_suffix)
            &&& r.1.passthrough is None
            &&& r.0.phase == Phase::Direct
        }),
{
    reveal(key_step);
    reveal(dispatched);
    reveal(sticky_taken);
    reveal(selecting);
    reveal(chosen);
    reveal(page_end);
    reveal(candidate_committed);
    reveal(shown);
    reveal(crate::machine::opened);
    let key = KeyText::Char(s.cfg.select[j]);
    lemma_select_place(s.cfg.select, j);
    assert(s.cfg.select.contains(s.cfg.select[j]));
    let u = State { fresh: false, ..s };
    let i = page_start(s) + j;
    assert(page_start(u) == page_start(s)) by {
        reveal(page_start);
    }
    assert(page_end(u) == page_end(s));
    let t = State { cand_index: i, ..u };
    lemma_page_start_range(s);
    assert(current(t) == Some(c));
    assert(shown(t, c) == shown(s, c));
}

proof fn lemma_page_start_range(s: State)
    requires
        sound(s),
        list_shown(s),
    ensures
        0 <= page_start(s) <= s.cand_index,
{
    reveal(page_start);
    let size = page_len(s.cfg) as int;
    let inline = s.cfg.inline_candidates as int;
    vstd::arithmetic::div_mod::lemma_fundamental_div_mod(s.cand_index - inline, size);
    vstd::arithmetic::div_mod::lemma_mod_bound(s.cand_index - inline, size);
    vstd::arithmetic::div_mod::lemma_div_pos_is_pos(s.cand_index - inline, size);
    let q = (s.cand_index - inline) / size;
    assert(size * q == q * size) by (nonlinear_arith);
    assert(q * size >= 0) by (nonlinear_arith)
        requires
            q >= 0,
            size >= 1,
    ;
}

proof fn lemma_select_place(v: Seq<char>, j: int)
    requires
        v.no_duplicates(),
        0 <= j < v.len(),
    ensures
        crate::machine::select_place(v, v[j]) == j,
    decreases v.len(),
{
    if j > 0 {
        assert(v[0] != v[j]);
        let w = v.skip(1);
        assert(w.no_duplicates()) by {
            assert forall|a: int, b: int| 0 <= a < w.len() && 0 <= b < w.len() && a != b implies w[a]
                != w[b] by {
                assert(v[a + 1] != v[b + 1]);
            }
        }
        assert(w[j - 1] == v[j]);
        lemma_select_place(w, j - 1);
    }
}

/// Stepping back from the first candidate brings the reading back, and hands nothing out.
pub proof fn law_before_the_first_candidate_stands_the_reading(s: State, back: KeyText)
    requires
        s.phase == Phase::Selecting,
        s.cand_index == 0,
        !s.sticky,
        plainly_typing(s),
        steps_back(s.cfg, back),
        !(back is Enter),
    ensures
        handled(s, back).0.phase == Phase::Composing,
        handled(s, back).0.reading == s.reading,
        handled(s, back).0.okuri_head == s.okuri_head,
        handled(s, back).0.okuri_kana == s.okuri_kana,
        handled(s, back).0.dict == s.dict,
        handled(s, back).0.candidates.len() == 0,
        quiet(handled(s, back).1),
{
    reveal(key_step);
    reveal(dispatched);
    reveal(sticky_taken);
    reveal(selecting);
    reveal(has);
    reveal(stepped_back);
}

/// A reading with an okurigana is asked for with the letter that the okurigana begins with
/// behind it, and a reading without one as it stands.
pub proof fn law_an_okurigana_is_asked_for_by_its_letter(s: State)
    ensures
        s.okuri_head matches Some(h) ==> gathered(s).dict_key == s.reading + seq![h],
        s.okuri_head is None ==> gathered(s).dict_key == s.reading,
        gathered(s).numbers == numbers(gathered(s).dict_key),
        gathered(s).reading == s.reading,
{
    reveal(gathered);
    if s.okuri_head is Some {
        assert(s.reading.push(s.okuri_head->0) =~= s.reading + seq![s.okuri_head->0]);
    }
}

} // verus!
