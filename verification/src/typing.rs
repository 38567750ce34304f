//! What typed letters become: kana that are handed out, a reading, or an okurigana. No letter
//! is lost on the way.
use vstd::prelude::*;
use crate::config::ConfigText;
use crate::key::{held, KeyText};
use crate::machine::{
    auto_started, candidates_for, composing, composing_step, converting, direct, direct_step,
    dispatched, edits, fed, gathered, handled, kana_mode, key_of, key_step, okuri_ordered,
    pending_flushed, quiet, reading_typed, registering, shaped, silence, starts_conversion,
    sticky_taken, suggested, Mode, Phase, State,
};
use crate::manners::{free, plainly_typing, useless};
use crate::romaji::{flushed, hankaku_of, in_katakana, settled, spelled, table, Rows};
use crate::soundness::law_okuri_keeps_a_candidate;
use crate::text::{lemma_take_next, lower, upper};

verus! {

/// Whether a character only spells: it is bound to nothing.
pub open spec fn only_spells(c: ConfigText, x: char) -> bool {
    let key = KeyText::Char(x);
    &&& useless(c, key)
    &&& !edits(c, key)
    &&& free(c.affix, key)
    &&& free(c.convert, key)
    &&& free(c.complete, key)
    &&& free(c.complete_previous, key)
    &&& held(c.ascii_keys, key) == false
}

/// Small letters that only spell.
pub open spec fn small_letters(c: ConfigText, v: Seq<char>) -> bool {
    forall|i: int| 0 <= i < v.len() ==> only_spells(c, #[trigger] v[i]) && !upper(v[i])
}

/// The state after the first `n` characters were typed.
pub open spec fn after_typing(s: State, v: Seq<char>, n: int) -> State
    decreases n,
{
    if n <= 0 {
        s
    } else {
        handled(after_typing(s, v, n - 1), KeyText::Char(v[n - 1])).0
    }
}

/// All that is handed out while the first `n` characters are typed.
pub open spec fn handed_out(s: State, v: Seq<char>, n: int) -> Seq<char>
    decreases n,
{
    if n <= 0 {
        seq![]
    } else {
        handed_out(s, v, n - 1) + handled(
            after_typing(s, v, n - 1),
            KeyText::Char(v[n - 1]),
        ).1.commit
    }
}

/// The spellings that a state goes by.
pub open spec fn rows_of(s: State) -> Rows {
    table(s.cfg.azik)
}

/// The kana that letters spell all together, with the punctuation of the setup.
pub open spec fn kana_of_letters(s: State, v: Seq<char>) -> Seq<char> {
    s.cfg.kutouten.marked(spelled(rows_of(s), v).0)
}

/// The letters at the end that spell nothing yet.
pub open spec fn left_over(s: State, v: Seq<char>) -> Seq<char> {
    spelled(rows_of(s), v).1
}

proof fn lemma_kana_next(s: State, v: Seq<char>, n: int)
    requires
        0 < n <= v.len(),
    ensures
        ({
            let now = settled(rows_of(s), left_over(s, v.take(n - 1)).push(v[n - 1]));
            &&& left_over(s, v.take(n)) == now.1
            &&& kana_of_letters(s, v.take(n)) == kana_of_letters(s, v.take(n - 1))
                + s.cfg.kutouten.marked(now.0)
        }),
{
    lemma_take_next(v, n - 1);
    let now = settled(rows_of(s), left_over(s, v.take(n - 1)).push(v[n - 1]));
    let before = spelled(rows_of(s), v.take(n - 1)).0;
    assert(s.cfg.kutouten.marked(before + now.0) =~= s.cfg.kutouten.marked(before)
        + s.cfg.kutouten.marked(now.0));
}

proof fn lemma_flat_add(a: Seq<char>, b: Seq<char>)
    ensures
        a.flat_map(|c: char| hankaku_of(c)) + b.flat_map(|c: char| hankaku_of(c)) == (a
            + b).flat_map(|c: char| hankaku_of(c)),
    decreases b.len(),
{
    let f = |c: char| hankaku_of(c);
    if b.len() == 0 {
        assert(a + b =~= a);
        assert(b =~= seq![]);
        assert(b.flat_map(f) =~= seq![]);
        assert(a.flat_map(f) + b.flat_map(f) =~= a.flat_map(f));
    } else {
        let c = b.drop_last();
        lemma_flat_add(a, c);
        assert(a + b =~= (a + c).push(b.last()));
        assert(b =~= c.push(b.last()));
        (a + c).lemma_flat_map_push(f, b.last());
        c.lemma_flat_map_push(f, b.last());
        assert(a.flat_map(f) + b.flat_map(f) =~= (a + b).flat_map(f));
    }
}

/// Kana may be shaped piece by piece.
pub proof fn law_kana_are_shaped_piece_by_piece(m: Mode, a: Seq<char>, b: Seq<char>)
    ensures
        shaped(m, a + b) == shaped(m, a) + shaped(m, b),
{
    assert(in_katakana(a + b) =~= in_katakana(a) + in_katakana(b));
    lemma_flat_add(in_katakana(a), in_katakana(b));
}

/// A letter that only spells is kept, and the cursor stays.
pub proof fn lemma_letter_is_kept(s: State, c: char)
    requires
        plainly_typing(s),
        s.phase == Phase::Direct,
        kana_mode(s.mode),
        !s.sticky,
        only_spells(s.cfg, c),
    ensures
        handled(s, KeyText::Char(c)).1.passthrough is None,
        handled(s, KeyText::Char(c)).1.cursor_back == 0,
{
    reveal(key_step);
    reveal(dispatched);
    reveal(sticky_taken);
    reveal(direct);
    reveal(direct_step);
}

/// Letters that are typed while nothing is converted are handed out as the kana that they
/// spell all together, in the shape of the mode; what spells nothing yet waits.
pub proof fn law_typed_letters_are_handed_out_as_kana(s: State, v: Seq<char>, n: int)
    requires
        plainly_typing(s),
        s.phase == Phase::Direct,
        kana_mode(s.mode),
        !s.sticky,
        s.waiting.len() == 0,
        small_letters(s.cfg, v),
        0 <= n <= v.len(),
    ensures
        ({
            let t = after_typing(s, v, n);
            &&& handed_out(s, v, n) == shaped(s.mode, kana_of_letters(s, v.take(n)))
            &&& t.waiting == left_over(s, v.take(n))
            &&& t.phase == Phase::Direct
            &&& t.mode == s.mode
            &&& t.dict == s.dict
            &&& t.cfg == s.cfg
            &&& !t.sticky
            &&& plainly_typing(t)
        }),
    decreases n,
{
    let none: Seq<char> = seq![];
    if n > 0 {
        law_typed_letters_are_handed_out_as_kana(s, v, n - 1);
        lemma_kana_next(s, v, n);
        let t = after_typing(s, v, n - 1);
        let c = v[n - 1];
        assert(only_spells(s.cfg, c) && !upper(c));
        reveal(key_step);
        reveal(dispatched);
        reveal(sticky_taken);
        reveal(direct);
        reveal(direct_step);
        reveal(fed);
        let now = settled(rows_of(s), t.waiting.push(c));
        law_kana_are_shaped_piece_by_piece(
            s.mode,
            kana_of_letters(s, v.take(n - 1)),
            s.cfg.kutouten.marked(now.0),
        );
    } else {
        assert(v.take(0) =~= none);
        assert(s.waiting =~= none);
        assert(kana_of_letters(s, v.take(0)) =~= none);
        assert(none.flat_map(|c: char| hankaku_of(c)) =~= none);
        assert(in_katakana(none) =~= none);
        assert(shaped(s.mode, none) =~= none);
    }
}

/// What a character does to a reading that is being typed.
proof fn lemma_typed_into_reading(s: State, c: char)
    requires
        plainly_typing(s),
        s.phase == Phase::Composing,
        !s.sticky,
        only_spells(s.cfg, c),
    ensures
        ({
            let t = reading_typed(State { fresh: false, ..s }, c);
            handled(s, KeyText::Char(c)) == (suggested(State { completion: None, ..t }), silence())
        }),
{
    reveal(key_step);
    reveal(dispatched);
    reveal(sticky_taken);
    reveal(composing);
    reveal(composing_step);
}

/// Whether no kana of a text begins a conversion by itself.
pub open spec fn starts_nothing(s: State, t: Seq<char>) -> bool {
    forall|i: int| 0 <= i < t.len() ==> !s.cfg.auto_start_henkan.contains(#[trigger] t[i])
}

proof fn lemma_reading_grows(s: State, v: Seq<char>, n: int)
    requires
        plainly_typing(s),
        s.phase == Phase::Composing,
        !s.sticky,
        !s.abbrev,
        s.okuri_head is None,
        0 <= s.cursor <= s.reading.len(),
        small_letters(s.cfg, v),
        0 <= n <= v.len(),
        s.waiting.len() == 0,
        starts_nothing(s, kana_of_letters(s, v.take(n))),
    ensures
        ({
            let t = after_typing(s, v, n);
            let kana = kana_of_letters(s, v.take(n));
            &&& t.phase == Phase::Composing
            &&& t.reading == s.reading.take(s.cursor) + kana + s.reading.skip(s.cursor)
            &&& t.cursor == s.cursor + kana.len()
            &&& t.waiting == left_over(s, v.take(n))
            &&& t.okuri_head is None
            &&& t.okuri_kana == s.okuri_kana
            &&& t.mode == s.mode
            &&& t.dict == s.dict
            &&& t.cfg == s.cfg
            &&& !t.abbrev
            &&& !t.sticky
            &&& plainly_typing(t)
            &&& handed_out(s, v, n).len() == 0
        }),
    decreases n,
{
    if n > 0 {
        lemma_kana_next(s, v, n);
        let had = kana_of_letters(s, v.take(n - 1));
        let all = kana_of_letters(s, v.take(n));
        assert(starts_nothing(s, had)) by {
            assert forall|i: int| 0 <= i < had.len() implies !s.cfg.auto_start_henkan.contains(
                #[trigger] had[i],
            ) by {
                assert(all[i] == had[i]);
            }
        }
        lemma_reading_grows(s, v, n - 1);
        let t = after_typing(s, v, n - 1);
        let c = v[n - 1];
        assert(only_spells(s.cfg, c) && !upper(c));
        lemma_typed_into_reading(t, c);
        reveal(reading_typed);
        reveal(fed);
        let now = settled(rows_of(s), t.waiting.push(c));
        let more = s.cfg.kutouten.marked(now.0);
        if more.len() > 0 {
            assert(all[all.len() - 1] == more.last());
        }
        let u = handled(t, KeyText::Char(c)).0;
        assert(u.reading =~= s.reading.take(s.cursor) + all + s.reading.skip(s.cursor));
    } else {
        let none: Seq<char> = seq![];
        assert(v.take(0) =~= none);
        assert(s.waiting =~= none);
        assert(kana_of_letters(s, v.take(0)) =~= none);
        assert(s.reading =~= s.reading.take(s.cursor) + none + s.reading.skip(s.cursor));
    }
}

/// Letters that are typed into a reading become the kana that they spell all together, where
/// the cursor is; nothing is handed out.
pub proof fn law_typed_letters_become_the_reading(s: State, v: Seq<char>, n: int)
    requires
        plainly_typing(s),
        s.phase == Phase::Composing,
        !s.sticky,
        !s.abbrev,
        s.okuri_head is None,
        0 <= s.cursor <= s.reading.len(),
        small_letters(s.cfg, v),
        0 <= n <= v.len(),
        s.waiting.len() == 0,
        starts_nothing(s, kana_of_letters(s, v.take(n))),
    ensures
        ({
            let t = after_typing(s, v, n);
            let kana = kana_of_letters(s, v.take(n));
            &&& t.phase == Phase::Composing
            &&& t.reading == s.reading.take(s.cursor) + kana + s.reading.skip(s.cursor)
            &&& t.cursor == s.cursor + kana.len()
            &&& t.waiting == left_over(s, v.take(n))
            &&& handed_out(s, v, n).len() == 0
        }),
{
    lemma_reading_grows(s, v, n);
}

/// The letters in small.
pub open spec fn in_small(v: Seq<char>) -> Seq<char> {
    v.map_values(|c: char| lower(c))
}

/// A capital letter begins a reading: with it, and with the small letters after it, the
/// reading is what they spell all together.
pub proof fn law_a_capital_begins_a_reading(s: State, v: Seq<char>)
    requires
        plainly_typing(s),
        s.phase == Phase::Direct,
        kana_mode(s.mode),
        !s.sticky,
        s.waiting.len() == 0,
        s.reading.len() == 0,
        s.cursor == 0,
        s.okuri_head is None,
        !s.abbrev,
        v.len() > 0,
        upper(v[0]),
        only_spells(s.cfg, v[0]),
        small_letters(s.cfg, v.skip(1)),
        starts_nothing(s, kana_of_letters(s, in_small(v))),
    ensures
        ({
            let t = after_typing(s, v, v.len() as int);
            &&& t.phase == Phase::Composing
            &&& t.reading == kana_of_letters(s, in_small(v))
            &&& t.waiting == left_over(s, in_small(v))
            &&& handed_out(s, v, v.len() as int).len() == 0
        }),
{
    assert(in_small(v).take(v.len() as int) =~= in_small(v));
    lemma_capital(s, v, v.len() as int);
}

proof fn lemma_capital(s: State, v: Seq<char>, n: int)
    requires
        plainly_typing(s),
        s.phase == Phase::Direct,
        kana_mode(s.mode),
        !s.sticky,
        s.waiting.len() == 0,
        s.reading.len() == 0,
        s.cursor == 0,
        s.okuri_head is None,
        !s.abbrev,
        0 < n <= v.len(),
        upper(v[0]),
        only_spells(s.cfg, v[0]),
        small_letters(s.cfg, v.skip(1)),
        starts_nothing(s, kana_of_letters(s, in_small(v).take(n))),
    ensures
        ({
            let t = after_typing(s, v, n);
            let kana = kana_of_letters(s, in_small(v).take(n));
            &&& t.phase == Phase::Composing
            &&& t.reading == kana
            &&& t.cursor == kana.len()
            &&& t.waiting == left_over(s, in_small(v).take(n))
            &&& t.okuri_head is None
            &&& t.cfg == s.cfg
            &&& !t.abbrev
            &&& !t.sticky
            &&& plainly_typing(t)
            &&& handed_out(s, v, n).len() == 0
        }),
    decreases n,
{
    let w = in_small(v);
    let none: Seq<char> = seq![];
    lemma_kana_next(s, w, n);
    let all = kana_of_letters(s, w.take(n));
    reveal(fed);
    if n == 1 {
        assert(w.take(0) =~= none);
        assert(kana_of_letters(s, w.take(0)) =~= none);
        assert(s.waiting =~= none);
        assert(s.reading =~= none);
        reveal(key_step);
        reveal(dispatched);
        reveal(sticky_taken);
        reveal(direct);
        reveal(direct_step);
        assert(after_typing(s, v, 0) == s);
        assert(handed_out(s, v, 0) =~= none);
        let t = after_typing(s, v, 1);
        assert(t == handled(s, KeyText::Char(v[0])).0);
        assert(w[0] == lower(v[0]));
        assert(none.push(w[0]) =~= s.waiting.push(w[0]));
        assert(t.reading =~= all);
        assert(t.waiting == left_over(s, w.take(1)));
    } else {
        let had = kana_of_letters(s, w.take(n - 1));
        assert(starts_nothing(s, had)) by {
            assert forall|i: int| 0 <= i < had.len() implies !s.cfg.auto_start_henkan.contains(
                #[trigger] had[i],
            ) by {
                assert(all[i] == had[i]);
            }
        }
        lemma_capital(s, v, n - 1);
        let t = after_typing(s, v, n - 1);
        let c = v[n - 1];
        assert(v.skip(1)[n - 2] == c);
        assert(only_spells(s.cfg, c) && !upper(c));
        assert(w[n - 1] == c);
        lemma_typed_into_reading(t, c);
        reveal(reading_typed);
        let now = settled(rows_of(s), t.waiting.push(c));
        let more = s.cfg.kutouten.marked(now.0);
        if more.len() > 0 {
            assert(all[all.len() - 1] == more.last());
        }
        let u = handled(t, KeyText::Char(c)).0;
        assert(u.reading =~= all);
    }
}

/// Letters for an okurigana: the first is a capital one, the others are small.
pub open spec fn okuri_letters(c: ConfigText, v: Seq<char>) -> bool {
    &&& v.len() > 0
    &&& upper(v[0])
    &&& only_spells(c, v[0])
    &&& small_letters(c, v.skip(1))
}

/// Whether letters spell an okurigana whole: some kana, and no letter is left over.
pub open spec fn whole_okurigana(s: State, v: Seq<char>) -> bool {
    kana_of_letters(s, v).len() > 0 && left_over(s, v).len() == 0
}

/// A conversion that has begun with an okurigana: the candidates are shown, or the word is
/// being registered. The reading, the letter of the okurigana and all its kana are kept.
pub open spec fn begun_with(t: State, s: State, head: char, kana: Seq<char>) -> bool {
    let key = s.reading.push(head);
    if candidates_for(s.dict, key).len() > 0 {
        &&& t.phase == Phase::Selecting
        &&& t.regs == s.regs
        &&& t.reading == s.reading
        &&& t.dict_key == key
        &&& t.okuri_head == Some(head)
        &&& t.okuri_kana == kana
        &&& t.candidates.len() > 0
        &&& t.cand_index == 0
    } else {
        &&& t.phase == Phase::Direct
        &&& t.regs.len() == s.regs.len() + 1
        &&& t.regs.last().key == key
        &&& t.regs.last().reading == s.reading
        &&& t.regs.last().okuri_head == Some(head)
        &&& t.regs.last().okuri_kana == kana
    }
}

proof fn lemma_begins(s: State, t: State, head: char, kana: Seq<char>)
    requires
        t.waiting.len() == 0,
        t.reading.len() > 0,
        t.reading == s.reading,
        t.okuri_head == Some(head),
        t.okuri_kana == kana,
        t.dict == s.dict,
        t.regs == s.regs,
    ensures
        begun_with(converting(t), s, head, kana),
{
    reveal(converting);
    reveal(pending_flushed);
    reveal(gathered);
    reveal(registering);
    reveal_strlit("n");
    let s1 = pending_flushed(t);
    assert(t.waiting != "n"@);
    assert(flushed(t.waiting).len() == 0);
    let s2 = State { cursor: s1.reading.len() as int, ..s1 };
    let key = key_of(s2);
    let found = candidates_for(s.dict, key);
    let s3 = State { dict_key: key, numbers: crate::num::numbers(key), ..s2 };
    if found.len() > 0 {
        law_okuri_keeps_a_candidate(s3, found);
    } else {
        assert(okuri_ordered(s3, found).len() == 0) by {
            lemma_nothing_ordered(s3, found);
        }
    }
}

proof fn lemma_nothing_ordered(s: State, v: Seq<crate::machine::Choice>)
    requires
        v.len() == 0,
    ensures
        okuri_ordered(s, v).len() == 0,
{
    reveal(okuri_ordered);
    reveal(crate::machine::by_okuri);
    assert(v =~= seq![]);
    let wanted = crate::dict::okuri_looked_up(s.dict, s.dict_key, s.okuri_kana);
    lemma_nothing_picked(v, wanted, wanted.len() as int);
    assert(v.filter(crate::machine::not_among(wanted)) =~= seq![]);
    assert(v.filter(crate::machine::among(wanted)) =~= seq![]);
}

proof fn lemma_nothing_picked(
    v: Seq<crate::machine::Choice>,
    wanted: Seq<Seq<char>>,
    n: int,
)
    requires
        v.len() == 0,
    ensures
        crate::machine::picked(v, wanted, n).len() == 0,
    decreases n,
{
    if n > 0 {
        lemma_nothing_picked(v, wanted, n - 1);
        assert(v.filter(crate::machine::written(wanted[n - 1])) =~= seq![]);
    }
}

/// No letter of an okurigana is lost. While the letters typed since it began leave something
/// over they are kept, and the conversion waits for the rest; as soon as they spell an
/// okurigana whole the conversion begins, with the kana that all of them spell together.
pub proof fn law_no_letter_of_an_okurigana_is_lost(s: State, v: Seq<char>, n: int)
    requires
        plainly_typing(s),
        s.phase == Phase::Composing,
        !s.sticky,
        !s.abbrev,
        s.okuri_head is None,
        s.okuri_kana.len() == 0,
        s.reading.len() > 0,
        s.waiting.len() == 0,
        okuri_letters(s.cfg, v),
        1 <= n <= v.len(),
        forall|k: int| 1 <= k < n ==> !whole_okurigana(s, #[trigger] in_small(v).take(k)),
    ensures
        ({
            let t = after_typing(s, v, n);
            let typed = in_small(v).take(n);
            let kana = kana_of_letters(s, typed);
            let head = lower(v[0]);
            if whole_okurigana(s, typed) {
                begun_with(t, s, head, kana)
            } else {
                &&& t.phase == Phase::Composing
                &&& t.regs == s.regs
                &&& t.reading == s.reading
                &&& t.okuri_head == Some(head)
                &&& t.okuri_kana == kana
                &&& t.waiting == left_over(s, typed)
            }
        }),
{
    lemma_okurigana(s, v, n);
}

proof fn lemma_okurigana(s: State, v: Seq<char>, n: int)
    requires
        plainly_typing(s),
        s.phase == Phase::Composing,
        !s.sticky,
        !s.abbrev,
        s.okuri_head is None,
        s.okuri_kana.len() == 0,
        s.reading.len() > 0,
        s.waiting.len() == 0,
        okuri_letters(s.cfg, v),
        1 <= n <= v.len(),
        forall|k: int| 1 <= k < n ==> !whole_okurigana(s, #[trigger] in_small(v).take(k)),
    ensures
        ({
            let t = after_typing(s, v, n);
            let typed = in_small(v).take(n);
            let kana = kana_of_letters(s, typed);
            let head = lower(v[0]);
            if whole_okurigana(s, typed) {
                begun_with(t, s, head, kana)
            } else {
                &&& t.phase == Phase::Composing
                &&& t.regs == s.regs
                &&& t.filling == s.filling
                &&& t.cfg == s.cfg
                &&& t.dict == s.dict
                &&& !t.sticky
                &&& !t.abbrev
                &&& t.reading == s.reading
                &&& t.okuri_head == Some(head)
                &&& t.okuri_kana == kana
                &&& t.waiting == left_over(s, typed)
            }
        }),
    decreases n,
{
    let w = in_small(v);
    let none: Seq<char> = seq![];
    let head = lower(v[0]);
    let c = v[n - 1];
    lemma_kana_next(s, w, n);
    let kana = kana_of_letters(s, w.take(n));
    reveal(reading_typed);
    reveal(fed);
    if n == 1 {
        assert(w.take(0) =~= none);
        assert(kana_of_letters(s, w.take(0)) =~= none);
        assert(s.waiting =~= none);
        assert(s.okuri_kana =~= none);
        assert(after_typing(s, v, 0) == s);
        lemma_typed_into_reading(s, c);
        let u = State { fresh: false, ..s };
        let s1 = State { okuri_head: Some(head), ..u };
        let r = fed(s1, head);
        assert(none.push(head) =~= seq![head]);
        lemma_single(rows_of(s), head);
        if r.1.len() > 0 {
            let t = State { okuri_kana: r.0.okuri_kana + r.1, ..r.0 };
            assert(t.okuri_kana =~= kana);
            lemma_begins(s, t, head, kana);
        } else {
            assert(kana =~= none);
        }
    } else {
        assert(!whole_okurigana(s, w.take(n - 1)));
        lemma_okurigana(s, v, n - 1);
        let t = after_typing(s, v, n - 1);
        assert(v.skip(1)[n - 2] == c);
        assert(only_spells(s.cfg, c) && !upper(c));
        assert(w[n - 1] == c);
        lemma_typed_into_reading(t, c);
        let u = State { fresh: false, ..t };
        let r = fed(u, c);
        let s1 = State { okuri_kana: r.0.okuri_kana + r.1, ..r.0 };
        assert(s1.okuri_kana == kana);
        if whole_okurigana(s, w.take(n)) {
            lemma_begins(s, s1, head, kana);
        }
    }
}

/// One letter either spells something and leaves nothing over, or waits.
proof fn lemma_single(rows: Rows, c: char)
    ensures
        settled(rows, seq![c]).0.len() > 0 ==> settled(rows, seq![c]).1.len() == 0,
{
}

/// A mark that begins a conversion by itself is not lost: the reading before it and what
/// follows the candidate are all that was typed.
pub proof fn law_a_mark_begins_the_conversion(s: State, c: char)
    requires
        plainly_typing(s),
        s.phase == Phase::Composing,
        !s.sticky,
        !s.abbrev,
        s.okuri_head is None,
        s.cursor == s.reading.len(),
        s.waiting.len() == 0,
        only_spells(s.cfg, c),
        !upper(c),
        starts_conversion(s, kana_of_letters(s, seq![c])),
        handled(s, KeyText::Char(c)).0.phase == Phase::Selecting,
    ensures
        ({
            let t = handled(s, KeyText::Char(c)).0;
            &&& t.auto_suffix.len() == 1
            &&& t.reading + t.auto_suffix == s.reading + kana_of_letters(s, seq![c])
            &&& t.dict_key == t.reading
            &&& quiet(handled(s, KeyText::Char(c)).1)
        }),
{
    lemma_typed_into_reading(s, c);
    reveal(reading_typed);
    reveal(fed);
    reveal(auto_started);
    reveal(converting);
    reveal(pending_flushed);
    reveal(gathered);
    reveal(registering);
    reveal_strlit("n");
    let none: Seq<char> = seq![];
    let one = seq![c];
    assert(one.drop_last() =~= none);
    assert(one.last() == c);
    assert(spelled(rows_of(s), none) == (none, none));
    assert(s.waiting =~= none);
    let now = settled(rows_of(s), none.push(c));
    assert(spelled(rows_of(s), one).0 =~= now.0);
    assert(none.push(c) =~= seq![c]);
    lemma_single(rows_of(s), c);
    let kana = kana_of_letters(s, one);
    let u = State { fresh: false, ..s };
    let r = fed(u, c);
    assert(r.1 == kana);
    let t = handled(s, KeyText::Char(c)).0;
    assert(t.reading =~= s.reading + kana.drop_last());
    assert(t.reading + t.auto_suffix =~= s.reading + kana);
}

} // verus!
