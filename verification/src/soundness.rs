//! What every state of the engine has in common, whatever keys led to it.
use vstd::prelude::*;
use crate::config::ConfigText;
use crate::key::KeyText;
use crate::machine::{
    all_flushed, auto_started, by_okuri, by_rank, candidate_committed, captured, choice_turned,
    chosen, commit_noted, completed, composing, composing_step, context_ranked, converting, direct,
    direct_dispatched, direct_step, dispatched, edited, falling, falling_place, fed, fill_of,
    filling_finished, filling_key, found_now, gathered, handled, inserted, key_step, next_index,
    not_among, offer_answered, offering, okuri_ordered, orderable, page_end, page_start,
    pending_flushed, picked, purged, quiet, reading_backspaced, reading_confirmed, reading_typed,
    registering, registration_aborted, registration_finished, registration_key, resumed, rising,
    rising_place, select_place, selecting, settled_in_slot, slot_backspaced, slot_moved,
    starts_conversion, stepped_back, sticky_taken, typed_in_slot, written, Choice, Phase, State,
};

verus! {

/// A setup that the engine can work with: some candidate is shown before the list, some key
/// chooses from the list, and every mode has its mark.
pub open spec fn usable(c: ConfigText) -> bool {
    c.inline_candidates >= 1 && c.select.len() >= 1 && c.mode_symbols.len() == 4
}

/// The cursor is in the reading, a candidate is in hand while one is chosen, and a
/// completion and a place to fill in are there where they are counted.
pub open spec fn sound(s: State) -> bool {
    &&& usable(s.cfg)
    &&& 0 <= s.cursor <= s.reading.len()
    &&& s.phase == Phase::Selecting ==> 0 <= s.cand_index < s.candidates.len()
    &&& s.completion is Some ==> 0 <= s.completion->0.index < s.completion->0.words.len()
    &&& s.filling is Some ==> 0 <= s.filling->0.at < s.filling->0.order.len()
}

/// What no step changes: the setup, and what is around it.
pub open spec fn same_frame(s: State, t: State) -> bool {
    t.cfg == s.cfg && t.context == s.context && t.now == s.now
}

pub proof fn lemma_fed(s: State, c: char)
    ensures
        fed(s, c).0 == (State { waiting: fed(s, c).0.waiting, ..s }),
{
    reveal(fed);
}

pub proof fn lemma_flush_sound(s: State)
    requires
        sound(s),
        s.phase != Phase::Selecting,
    ensures
        sound(pending_flushed(s)),
        same_frame(s, pending_flushed(s)),
        pending_flushed(s).regs == s.regs,
        pending_flushed(s).phase == s.phase,
        pending_flushed(s).filling == s.filling,
        pending_flushed(s).waiting == Seq::<char>::empty(),
{
    reveal(pending_flushed);
}

pub proof fn lemma_registering(s: State)
    requires
        sound(s),
    ensures
        sound(registering(s)),
        same_frame(s, registering(s)),
        registering(s).phase == Phase::Direct,
        registering(s).filling == s.filling,
        registering(s).regs.len() == s.regs.len() + 1,
{
    reveal(registering);
}

pub proof fn lemma_gathered(s: State)
    ensures
        gathered(s) == (State {
            dict_key: gathered(s).dict_key,
            numbers: gathered(s).numbers,
            candidates: gathered(s).candidates,
            ..s
        }),
{
    reveal(gathered);
}

pub proof fn lemma_converting_sound(s: State)
    requires
        sound(s),
        s.phase != Phase::Selecting,
    ensures
        sound(converting(s)),
        same_frame(s, converting(s)),
        converting(s).regs.len() >= s.regs.len(),
        converting(s).filling == s.filling,
{
    reveal(converting);
    lemma_flush_sound(s);
    let s1 = pending_flushed(s);
    let s2 = State { cursor: s1.reading.len() as int, ..s1 };
    lemma_gathered(s2);
    let s4 = gathered(s2);
    lemma_registering(s4);
}

proof fn lemma_rising_len(v: Seq<nat>, n: int)
    requires
        0 <= n <= v.len(),
    ensures
        rising(v, n).len() == n,
    decreases n,
{
    if n > 0 {
        lemma_rising_len(v, n - 1);
        lemma_rising_place(rising(v, n - 1), v[n - 1]);
    }
}

proof fn lemma_rising_place(v: Seq<nat>, n: nat)
    ensures
        0 <= rising_place(v, n) <= v.len(),
    decreases v.len(),
{
    if v.len() > 0 && v.last() > n {
        lemma_rising_place(v.drop_last(), n);
    }
}

pub proof fn lemma_fill_sound(body: Seq<char>)
    ensures
        fill_of(body) is Some ==> fill_of(body)->0.at == 0 && fill_of(body)->0.order.len() > 0,
{
    reveal(fill_of);
    let v = crate::snippet::pieces(body);
    let stops = crate::machine::stops_upto(v, v.len() as int);
    lemma_rising_len(stops, stops.len() as int);
}

pub proof fn lemma_noted_frame(s: State, key: Seq<char>, text: Seq<char>, okuri: bool)
    ensures
        commit_noted(s, key, text, okuri) == (State {
            dict: commit_noted(s, key, text, okuri).dict,
            last_commit: commit_noted(s, key, text, okuri).last_commit,
            ..s
        }),
{
    reveal(commit_noted);
}

pub proof fn lemma_committed_sound(s: State)
    requires
        sound(s),
    ensures
        sound(candidate_committed(s).0),
        same_frame(s, candidate_committed(s).0),
        candidate_committed(s).0.phase == Phase::Direct,
        candidate_committed(s).0.regs == s.regs,
        candidate_committed(s).0.sticky == s.sticky,
        candidate_committed(s).0.mode == s.mode,
        candidate_committed(s).0.waiting == Seq::<char>::empty(),
        s.filling is Some ==> candidate_committed(s).0.filling is Some,
{
    reveal(candidate_committed);
    match crate::machine::current(s) {
        Some(c) => {
            let raw = crate::machine::opened(s, c);
            lemma_fill_sound(raw);
            let fills = crate::dict::from_snippet(s.dict, c.key, c.cand.text)
                && crate::machine::fill_of(raw) is Some;
            let text = if fills {
                raw
            } else {
                crate::machine::shown(s, c)
            };
            let s1 = State { dict: crate::machine::candidate_learned(s, c), ..s };
            lemma_noted_frame(s1, s.dict_key, text, s.okuri_head is Some);
        },
        None => {},
    }
}

pub proof fn lemma_completed_sound(s: State, forward: bool)
    requires
        sound(s),
        s.phase == Phase::Composing,
    ensures
        sound(completed(s, forward)),
        same_frame(s, completed(s, forward)),
        completed(s, forward).regs == s.regs,
        completed(s, forward).filling == s.filling,
{
    reveal(completed);
    lemma_flush_sound(s);
}

pub proof fn lemma_direct_sound(s: State, key: KeyText)
    requires
        sound(s),
        s.phase == Phase::Direct,
    ensures
        sound(direct(s, key).0),
        same_frame(s, direct(s, key).0),
        direct(s, key).0.filling == s.filling,
        direct(s, key).0.regs == s.regs,
{
    reveal(direct);
    reveal(direct_step);
    if key is Char {
        let c = key->Char_0;
        let low = crate::text::lower(c);
        lemma_fed(State { phase: Phase::Composing, ..s }, low);
        lemma_fed(s, c);
    }
}

pub proof fn lemma_typed_sound(s: State, c: char)
    requires
        sound(s),
        s.phase == Phase::Composing,
    ensures
        sound(reading_typed(s, c)),
        same_frame(s, reading_typed(s, c)),
        reading_typed(s, c).regs.len() >= s.regs.len(),
        reading_typed(s, c).filling == s.filling,
{
    reveal(reading_typed);
    reveal(auto_started);
    let low = crate::text::lower(c);
    if s.abbrev {
    } else if crate::text::upper(c) && s.reading.len() > 0 {
        let s1 = State {
            okuri_head: if s.okuri_head is None {
                Some(low)
            } else {
                s.okuri_head
            },
            ..s
        };
        lemma_fed(s1, low);
        let r = fed(s1, low);
        lemma_converting_sound(State { okuri_kana: r.0.okuri_kana + r.1, ..r.0 });
    } else if crate::text::upper(c) {
        lemma_fed(s, low);
    } else {
        lemma_fed(s, c);
        let r = fed(s, c);
        if s.okuri_head is Some {
            lemma_converting_sound(State { okuri_kana: r.0.okuri_kana + r.1, ..r.0 });
        } else if starts_conversion(r.0, r.1) {
            lemma_converting_sound(
                State { auto_suffix: seq![r.1.last()], ..inserted(r.0, r.1.drop_last()) },
            );
        }
    }
}

pub proof fn lemma_backspaced_sound(s: State)
    requires
        sound(s),
        s.phase == Phase::Composing,
    ensures
        sound(reading_backspaced(s)),
        same_frame(s, reading_backspaced(s)),
        reading_backspaced(s).regs == s.regs,
        reading_backspaced(s).filling == s.filling,
{
    reveal(reading_backspaced);
}

pub proof fn lemma_confirmed_sound(s: State)
    requires
        sound(s),
        s.phase == Phase::Composing,
    ensures
        sound(reading_confirmed(s).0),
        same_frame(s, reading_confirmed(s).0),
        reading_confirmed(s).0.regs == s.regs,
        reading_confirmed(s).0.phase == Phase::Direct,
        reading_confirmed(s).0.filling == s.filling,
{
    reveal(reading_confirmed);
    lemma_flush_sound(s);
}

pub proof fn lemma_edited_sound(s: State, key: KeyText)
    requires
        sound(s),
        s.phase == Phase::Composing,
    ensures
        sound(edited(s, key)),
        same_frame(s, edited(s, key)),
        edited(s, key).regs == s.regs,
        edited(s, key).filling == s.filling,
{
    reveal(edited);
    lemma_flush_sound(s);
    lemma_backspaced_sound(s);
}

pub proof fn lemma_composing_sound(s: State, key: KeyText)
    requires
        sound(s),
        s.phase == Phase::Composing,
    ensures
        sound(composing(s, key).0),
        same_frame(s, composing(s, key).0),
        composing(s, key).0.regs.len() >= s.regs.len(),
        composing(s, key).0.filling == s.filling,
{
    reveal(composing);
    reveal(composing_step);
    lemma_flush_sound(s);
    let s1 = pending_flushed(s);
    lemma_converting_sound(State { reading: s1.reading.push('>'), ..s1 });
    lemma_converting_sound(State { completion: None, ..s });
    lemma_completed_sound(s, true);
    lemma_completed_sound(s, false);
    lemma_edited_sound(s, key);
    lemma_confirmed_sound(s);
    if key is Char {
        lemma_typed_sound(s, key->Char_0);
    }
}

/// A page of the list holds the candidate in hand and ends within the candidates.
pub proof fn lemma_page(s: State)
    requires
        sound(s),
        s.phase == Phase::Selecting,
        crate::machine::list_shown(s),
    ensures
        s.cfg.inline_candidates <= page_start(s) <= s.cand_index,
        s.cand_index < page_start(s) + crate::config::page_len(s.cfg),
        s.cand_index < page_end(s) <= s.candidates.len(),
        page_end(s) - page_start(s) <= s.cfg.select.len(),
{
    reveal(page_start);
    reveal(page_end);
    let inline = s.cfg.inline_candidates as int;
    let size = crate::config::page_len(s.cfg) as int;
    let d = s.cand_index - inline;
    assert(d / size * size <= d < d / size * size + size) by (nonlinear_arith)
        requires
            d >= 0,
            size > 0,
    ;
}

pub proof fn lemma_select_place(v: Seq<char>, c: char)
    ensures
        0 <= select_place(v, c) <= v.len(),
    decreases v.len(),
{
    if v.len() > 0 && v[0] != c {
        lemma_select_place(v.skip(1), c);
    }
}

pub proof fn lemma_next_sound(s: State)
    requires
        sound(s),
        s.phase == Phase::Selecting,
    ensures
        next_index(s) is Some ==> 0 <= next_index(s)->0 < s.candidates.len(),
{
    reveal(next_index);
    if crate::machine::list_shown(s) {
        lemma_page(s);
    }
}

pub proof fn lemma_back_sound(s: State)
    requires
        sound(s),
        s.phase == Phase::Selecting,
    ensures
        sound(stepped_back(s)),
        same_frame(s, stepped_back(s)),
        stepped_back(s).regs == s.regs,
        stepped_back(s).filling == s.filling,
{
    reveal(stepped_back);
    if crate::machine::list_shown(s) {
        lemma_page(s);
    }
}

pub proof fn lemma_purged_sound(s: State)
    requires
        sound(s),
        s.phase == Phase::Selecting,
    ensures
        sound(purged(s)),
        same_frame(s, purged(s)),
        purged(s).regs == s.regs,
        purged(s).filling == s.filling,
{
    reveal(purged);
}

pub proof fn lemma_sticky_taken(s: State, key: KeyText)
    ensures
        sticky_taken(s, key).0 == (State { sticky: sticky_taken(s, key).0.sticky, ..s }),
{
    reveal(sticky_taken);
}

pub proof fn lemma_direct_dispatched_sound(s: State, key: KeyText)
    requires
        sound(s),
        s.phase == Phase::Direct,
    ensures
        sound(direct_dispatched(s, key).0),
        same_frame(s, direct_dispatched(s, key).0),
        direct_dispatched(s, key).0.regs == s.regs,
        direct_dispatched(s, key).0.filling == s.filling,
{
    reveal(direct_dispatched);
    lemma_sticky_taken(s, key);
    let t = sticky_taken(s, key);
    if t.1 is Some {
        lemma_direct_sound(t.0, t.1->0);
    }
}

pub proof fn lemma_chosen_sound(s: State, c: char)
    requires
        sound(s),
        s.phase == Phase::Selecting,
        crate::machine::list_shown(s),
    ensures
        sound(chosen(s, c).0),
        same_frame(s, chosen(s, c).0),
        chosen(s, c).0.regs == s.regs,
        s.filling is Some ==> chosen(s, c).0.filling is Some,
{
    reveal(chosen);
    lemma_page(s);
    let i = page_start(s) + select_place(s.cfg.select, c);
    lemma_select_place(s.cfg.select, c);
    if i < page_end(s) {
        lemma_committed_sound(State { cand_index: i, ..s });
    }
}

pub proof fn lemma_selecting_sound(s: State, key: KeyText)
    requires
        sound(s),
        s.phase == Phase::Selecting,
    ensures
        sound(selecting(s, key).0),
        same_frame(s, selecting(s, key).0),
        selecting(s, key).0.regs.len() >= s.regs.len(),
        s.filling is Some ==> selecting(s, key).0.filling is Some,
{
    reveal(selecting);
    lemma_committed_sound(s);
    lemma_purged_sound(s);
    lemma_next_sound(s);
    lemma_registering(s);
    lemma_back_sound(s);
    let r = candidate_committed(s);
    if key is Char {
        if crate::machine::list_shown(s) {
            lemma_chosen_sound(s, key->Char_0);
        }
        lemma_direct_dispatched_sound(r.0, key);
    }
}

/// Whatever is being converted, a key leaves a sound state.
pub proof fn lemma_dispatched_sound(s: State, key: KeyText)
    requires
        sound(s),
    ensures
        sound(dispatched(s, key).0),
        same_frame(s, dispatched(s, key).0),
        dispatched(s, key).0.regs.len() >= s.regs.len(),
        s.filling is Some ==> dispatched(s, key).0.filling is Some,
{
    reveal(dispatched);
    lemma_sticky_taken(s, key);
    let t = sticky_taken(s, key);
    if t.1 is Some {
        match s.phase {
            Phase::Direct => {
                lemma_direct_sound(t.0, t.1->0);
            },
            Phase::Composing => {
                lemma_composing_sound(t.0, t.1->0);
            },
            Phase::Selecting => {
                lemma_selecting_sound(t.0, t.1->0);
            },
        }
    }
}

/// What is typed goes into the place, and a snippet is still filled in.
pub proof fn lemma_settled_sound(s: State)
    requires
        sound(s),
        s.filling is Some,
    ensures
        sound(settled_in_slot(s)),
        same_frame(s, settled_in_slot(s)),
        settled_in_slot(s).filling is Some,
{
    reveal(settled_in_slot);
    lemma_dispatched_sound(s, KeyText::Enter);
}

pub proof fn lemma_finished_sound(s: State)
    requires
        sound(s),
        s.filling is Some,
    ensures
        sound(filling_finished(s).0),
        same_frame(s, filling_finished(s).0),
{
    reveal(filling_finished);
}

pub proof fn lemma_moved_sound(s: State, back: bool)
    requires
        sound(s),
        s.filling is Some,
    ensures
        sound(slot_moved(s, back).0),
        same_frame(s, slot_moved(s, back).0),
{
    reveal(slot_moved);
    lemma_finished_sound(s);
}

/// The completions that are shown go on after the reading.
pub open spec fn suggestions_extend(s: State) -> bool {
    forall|i: int|
        0 <= i < s.suggestion.len() && s.phase == Phase::Composing ==> s.reading.len()
            <= (#[trigger] s.suggestion[i]).len()
}

pub proof fn lemma_typed_in_slot(s: State, key: KeyText)
    requires
        sound(s),
        s.filling is Some,
    ensures
        sound(typed_in_slot(s, key).0),
        same_frame(s, typed_in_slot(s, key).0),
{
    reveal(typed_in_slot);
    lemma_dispatched_sound(s, key);
}

/// Whether the completions go on after the reading depends on nothing else.
pub proof fn lemma_suggestions_frame(s: State)
    requires
        suggestions_extend(s),
    ensures
        forall|t: State|
            t.suggestion == s.suggestion && t.phase == s.phase && t.reading == s.reading
                ==> #[trigger] suggestions_extend(t),
        forall|t: State| t.phase != Phase::Composing ==> #[trigger] suggestions_extend(t),
{
    assert forall|t: State|
        t.suggestion == s.suggestion && t.phase == s.phase && t.reading
            == s.reading implies #[trigger] suggestions_extend(t) by {
        assert forall|i: int|
            0 <= i < t.suggestion.len() && t.phase == Phase::Composing implies t.reading.len()
            <= (#[trigger] t.suggestion[i]).len() by {
            assert(s.reading.len() <= s.suggestion[i].len());
        }
    }
}

pub proof fn lemma_filling_sound(s: State, key: KeyText)
    requires
        sound(s),
        s.filling is Some,
    ensures
        sound(filling_key(s, key).0),
        same_frame(s, filling_key(s, key).0),
{
    reveal(filling_key);
    reveal(choice_turned);
    reveal(slot_backspaced);
    lemma_typed_in_slot(s, key);
    lemma_settled_sound(s);
    lemma_finished_sound(s);
    lemma_moved_sound(settled_in_slot(s), key is ShiftTab);
}

pub proof fn lemma_captured(s: State, r: crate::machine::Reply)
    ensures
        captured(s, r).0 == (State { regs: captured(s, r).0.regs, ..s }),
        captured(s, r).0.regs.len() == s.regs.len(),
        s.regs.len() > 0 ==> quiet(captured(s, r).1),
{
    reveal(captured);
}

pub proof fn lemma_resumed_sound(s: State, reg: crate::machine::Reg)
    requires
        sound(s),
    ensures
        sound(resumed(s, reg)),
        same_frame(s, resumed(s, reg)),
        resumed(s, reg).regs == s.regs,
{
    reveal(resumed);
}

pub proof fn lemma_registration_sound(s: State, key: KeyText)
    requires
        sound(s),
        s.regs.len() > 0,
    ensures
        sound(registration_key(s, key).0),
        same_frame(s, registration_key(s, key).0),
{
    reveal(registration_key);
    reveal(registration_finished);
    reveal(registration_aborted);
    let popped = State { regs: s.regs.drop_last(), ..s };
    lemma_resumed_sound(popped, s.regs.last());
    lemma_resumed_sound(
        State { waiting: seq![], regs: s.regs.drop_last(), ..s },
        s.regs.last(),
    );
    lemma_dispatched_sound(s, key);
    let r = dispatched(s, key);
    lemma_captured(r.0, r.1);
    let reg = s.regs.last();
    let buffer = reg.buffer + crate::machine::shaped(
        s.mode,
        crate::romaji::flushed(s.waiting),
    );
    let cand = crate::jisyo::CandText { text: buffer, annotation: None };
    let d = crate::dict::learned(s.dict, reg.key, cand);
    let d2 = if reg.okuri_head is Some {
        crate::dict::okuri_learned(d, reg.key, reg.okuri_kana, buffer)
    } else {
        d
    };
    lemma_captured(
        State { waiting: seq![], regs: s.regs.drop_last(), dict: d2, ..s },
        crate::machine::saying(buffer + reg.okuri_kana + reg.auto_suffix),
    );
}

pub proof fn lemma_offer_sound(s: State, key: KeyText)
    requires
        sound(s),
        s.regs.len() > 0,
    ensures
        sound(offer_answered(s, key).0),
        same_frame(s, offer_answered(s, key).0),
{
    reveal(offer_answered);
    reveal(registration_aborted);
    let s1 = offering(s, false);
    lemma_registration_sound(s1, key);
    lemma_resumed_sound(State { regs: s1.regs.drop_last(), ..s1 }, s1.regs.last());
}

pub proof fn lemma_step_sound(s: State, key: KeyText)
    requires
        sound(s),
    ensures
        sound(key_step(s, key).0),
        same_frame(s, key_step(s, key).0),
{
    reveal(key_step);
    lemma_dispatched_sound(s, key);
    if s.filling is Some {
        lemma_filling_sound(s, key);
    }
    if s.regs.len() > 0 {
        lemma_registration_sound(s, key);
        lemma_offer_sound(s, key);
    }
}

/// Every key leaves a sound state, and leaves the setup alone.
pub proof fn law_every_key_keeps_the_state_sound(s: State, key: KeyText)
    requires
        sound(s),
    ensures
        sound(handled(s, key).0),
        same_frame(s, handled(s, key).0),
{
    lemma_step_sound(State { fresh: false, ..s }, key);
}

/// Confirming what is typed leaves a sound state.
pub proof fn law_flushing_keeps_the_state_sound(s: State)
    requires
        sound(s),
    ensures
        sound(all_flushed(s).0),
        s.regs.len() == 0 ==> all_flushed(s).0.phase == Phase::Direct
            && all_flushed(s).0.waiting.len() == 0,
{
    reveal(all_flushed);
    match s.phase {
        Phase::Direct => {},
        Phase::Composing => {
            lemma_confirmed_sound(s);
            reveal(reading_confirmed);
        },
        Phase::Selecting => {
            lemma_committed_sound(s);
        },
    }
}

proof fn lemma_falling(ranks: Seq<nat>, n: int)
    requires
        0 <= n <= ranks.len(),
    ensures
        falling(ranks, n).len() == n,
    decreases n,
{
    if n > 0 {
        lemma_falling(ranks, n - 1);
        lemma_falling_place(falling(ranks, n - 1), ranks[n - 1]);
    }
}

pub proof fn lemma_falling_place(ranks: Seq<nat>, r: nat)
    ensures
        0 <= falling_place(ranks, r) <= ranks.len(),
    decreases ranks.len(),
{
    if ranks.len() > 0 && ranks.last() < r {
        lemma_falling_place(ranks.drop_last(), r);
    }
}

/// Ordering by rank neither loses nor makes candidates.
pub proof fn law_ranking_keeps_the_candidates(v: Seq<Choice>, ranks: Seq<nat>, n: int)
    requires
        0 <= n <= v.len(),
        v.len() == ranks.len(),
    ensures
        by_rank(v, ranks, n).len() == n,
        by_rank(v, ranks, n).to_multiset() == v.take(n).to_multiset(),
    decreases n,
{
    broadcast use vstd::seq_lib::to_multiset_insert, vstd::seq_lib::to_multiset_build;

    if n > 0 {
        law_ranking_keeps_the_candidates(v, ranks, n - 1);
        lemma_falling(ranks, n - 1);
        lemma_falling_place(falling(ranks, n - 1), ranks[n - 1]);
        let had = by_rank(v, ranks, n - 1);
        let at = falling_place(falling(ranks, n - 1), ranks[n - 1]);
        crate::text::lemma_take_next(v, n - 1);
        assert(had.insert(at, v[n - 1]).to_multiset() =~= had.to_multiset().insert(v[n - 1]));
        assert(v.take(n).to_multiset() =~= v.take(n - 1).to_multiset().insert(v[n - 1]));
    } else {
        assert(v.take(0) =~= seq![]);
    }
}

proof fn lemma_falls(ranks: Seq<nat>, r: nat)
    requires
        forall|i: int, j: int| 0 <= i < j < ranks.len() ==> ranks[i] >= ranks[j],
    ensures
        ({
            let at = falling_place(ranks, r);
            &&& 0 <= at <= ranks.len()
            &&& forall|i: int| 0 <= i < at ==> #[trigger] ranks[i] >= r
            &&& forall|i: int| at <= i < ranks.len() ==> #[trigger] ranks[i] < r
        }),
    decreases ranks.len(),
{
    if ranks.len() > 0 && ranks.last() < r {
        let less = ranks.drop_last();
        assert forall|i: int, j: int| 0 <= i < j < less.len() implies less[i] >= less[j] by {
            assert(ranks[i] >= ranks[j]);
        }
        lemma_falls(less, r);
        let at = falling_place(less, r);
        assert forall|i: int| 0 <= i < at implies #[trigger] ranks[i] >= r by {
            assert(less[i] == ranks[i]);
        }
        assert forall|i: int| at <= i < ranks.len() implies #[trigger] ranks[i] < r by {
            if i < less.len() {
                assert(less[i] == ranks[i]);
            }
        }
    } else if ranks.len() > 0 {
        assert forall|i: int| 0 <= i < ranks.len() implies #[trigger] ranks[i] >= r by {
            if i < ranks.len() - 1 {
                assert(ranks[i] >= ranks[ranks.len() - 1]);
            }
        }
    }
}

/// Candidates of a higher rank come before those of a lower one, each with its own rank.
pub proof fn law_higher_ranks_come_first(v: Seq<Choice>, ranks: Seq<nat>, n: int)
    requires
        0 <= n <= v.len(),
        v.len() == ranks.len(),
    ensures
        by_rank(v, ranks, n).len() == n,
        falling(ranks, n).len() == n,
        forall|i: int, j: int| 0 <= i < j < n ==> falling(ranks, n)[i] >= falling(ranks, n)[j],
        forall|i: int|
            0 <= i < n ==> exists|k: int|
                0 <= k < n && #[trigger] by_rank(v, ranks, n)[i] == #[trigger] v[k] && falling(
                    ranks,
                    n,
                )[i] == ranks[k],
    decreases n,
{
    if n > 0 {
        law_higher_ranks_come_first(v, ranks, n - 1);
        let had = falling(ranks, n - 1);
        let r = ranks[n - 1];
        let some = by_rank(v, ranks, n - 1);
        lemma_falls(had, r);
        let at = falling_place(had, r);
        let now = falling(ranks, n);
        let all = by_rank(v, ranks, n);
        assert forall|i: int, j: int| 0 <= i < j < n implies now[i] >= now[j] by {
            let a = if i < at {
                i
            } else {
                i - 1
            };
            let b = if j < at {
                j
            } else {
                j - 1
            };
            if i != at && j != at {
                assert(now[i] == had[a] && now[j] == had[b]);
                assert(a < b);
            } else if i == at {
                assert(now[j] == had[b]);
            } else {
                assert(now[i] == had[a]);
            }
        }
        assert forall|i: int| 0 <= i < n implies exists|k: int|
            0 <= k < n && #[trigger] all[i] == #[trigger] v[k] && now[i] == ranks[k] by {
            if i == at {
                assert(all[i] == v[n - 1] && now[i] == ranks[n - 1]);
            } else {
                let a = if i < at {
                    i
                } else {
                    i - 1
                };
                assert(all[i] == some[a] && now[i] == had[a]);
                let k = choose|k: int|
                    0 <= k < n - 1 && some[a] == #[trigger] v[k] && had[a] == ranks[k];
                assert(all[i] == v[k] && now[i] == ranks[k]);
            }
        }
    }
}

/// Candidates that the screen tells nothing of, or the same of, keep their order.
pub proof fn law_equal_ranks_keep_the_order(v: Seq<Choice>, ranks: Seq<nat>, n: int)
    requires
        0 <= n <= v.len(),
        v.len() == ranks.len(),
        forall|i: int, j: int| 0 <= i < j < n ==> ranks[i] == ranks[j],
    ensures
        by_rank(v, ranks, n) == v.take(n),
        falling(ranks, n) == ranks.take(n),
    decreases n,
{
    if n > 0 {
        law_equal_ranks_keep_the_order(v, ranks, n - 1);
        crate::text::lemma_take_next(v, n - 1);
        crate::text::lemma_take_next(ranks, n - 1);
        let had = falling(ranks, n - 1);
        if n > 1 {
            assert(had.last() == ranks[n - 2]);
            assert(ranks[n - 2] == ranks[n - 1]);
        }
        assert(by_rank(v, ranks, n) =~= v.take(n - 1).push(v[n - 1]));
        assert(falling(ranks, n) =~= ranks.take(n - 1).push(ranks[n - 1]));
    } else {
        assert(v.take(0) =~= seq![]);
        assert(ranks.take(0) =~= seq![]);
    }
}

/// The okurigana never leaves a conversion without candidates.
pub proof fn law_okuri_keeps_a_candidate(s: State, v: Seq<Choice>)
    requires
        v.len() > 0,
    ensures
        okuri_ordered(s, v).len() > 0,
{
    reveal(okuri_ordered);
    reveal(by_okuri);
    let wanted = crate::dict::okuri_looked_up(s.dict, s.dict_key, s.okuri_kana);
    let c = v[0];
    if wanted.contains(c.cand.text) {
        let k = choose|k: int| 0 <= k < wanted.len() && wanted[k] == c.cand.text;
        lemma_picked_some(v, wanted, wanted.len() as int, k);
    } else {
        assert(v.contains(c));
        v.lemma_filter_contains_rev(not_among(wanted), c);
        assert(v.filter(not_among(wanted)).contains(c));
    }
}

proof fn lemma_picked_some(v: Seq<Choice>, wanted: Seq<Seq<char>>, n: int, k: int)
    requires
        v.len() > 0,
        0 <= k < n <= wanted.len(),
        wanted[k] == v[0].cand.text,
    ensures
        picked(v, wanted, n).len() > 0,
    decreases n,
{
    if k < n - 1 {
        lemma_picked_some(v, wanted, n - 1, k);
    } else {
        assert(v.contains(v[0]));
        v.lemma_filter_contains_rev(written(wanted[k]), v[0]);
        let f = v.filter(written(wanted[k]));
        assert(f.contains(v[0]));
    }
}

pub proof fn lemma_ranked_sound(s: State, ranks: Seq<nat>, note: Seq<char>)
    requires
        sound(s),
    ensures
        sound(context_ranked(s, ranks, note)),
{
    let found = found_now(s);
    if orderable(s) && ranks.len() == found.len() {
        law_ranking_keeps_the_candidates(found, ranks, ranks.len() as int);
        law_okuri_keeps_a_candidate(s, by_rank(found, ranks, ranks.len() as int));
    }
}

/// A setup that is accepted can be worked with, and so can the defaults.
pub proof fn law_an_accepted_setup_is_usable(doc: crate::config::Doc)
    requires
        crate::config::config_error(doc) is None,
    ensures
        usable(crate::config::configured(doc)),
        usable(crate::config::default_config()),
{
    let d = crate::config::default_config();
    match crate::config::setting(doc, "behavior"@, "mode_symbols"@) {
        Some(crate::config::SettingText::Table(t)) => {
            lemma_marks_len(t, t.len() as int, d.mode_symbols);
        },
        _ => {},
    }
}

proof fn lemma_marks_len(v: Seq<(Seq<char>, Option<Seq<char>>)>, n: int, old_marks: Seq<char>)
    requires
        old_marks.len() == 4,
    ensures
        crate::config::symbols_upto(v, n, old_marks).len() == old_marks.len(),
    decreases n,
{
    if n > 0 {
        lemma_marks_len(v, n - 1, old_marks);
    }
}

} // verus!
