//! A search through a table gives the answer that the dictionaries themselves give.
use vstd::prelude::*;
use crate::dict::{extends, Dict};
use crate::index::{
    law_a_table_finds_the_same_words, law_a_table_goes_on_alike, lemma_texts_added_has, own_part,
    rows_of, tabular, told, Index,
};
use crate::jisyo::texts_added;
use crate::migemo::{
    all_gathered, all_kinds, covered, expanded, expanded_upto, gathered, in_kana,
    law_every_word_is_matched, law_no_word_is_kept_twice, lemma_prefix_transitive, meant, new_ones,
    readings_of, shared_out, word_text, words_added, words_found, words_text, Headwords, RxText,
};
use crate::order::lemma_ascending_unique;
use crate::romaji::zenkaku_form;
use crate::text::{lemma_take_next, lowercased};

verus! {

/// Whether the words of the readings from `i` on stay under the limit.
pub open spec fn uncut<H: Headwords>(
    out: Seq<Seq<char>>,
    taken: nat,
    keys: Seq<Seq<char>>,
    i: int,
    d: &H,
    each: nat,
) -> bool
    decreases keys.len() - i,
{
    if i < 0 || i >= keys.len() {
        true
    } else if keys[i].contains('#') {
        uncut(out, taken, keys, i + 1, d, each)
    } else {
        let more = texts_added(out, d.found(keys[i]));
        let now = (taken + more.len() - out.len()) as nat;
        now < each && uncut(more, now, keys, i + 1, d, each)
    }
}

/// Whether neither the words nor the longer readings of the first `n` readings reach the
/// limit.
pub open spec fn all_uncut<H: Headwords>(
    out: Seq<Seq<char>>,
    readings: Seq<Seq<char>>,
    n: int,
    d: &H,
    each: nat,
) -> bool
    decreases n,
{
    if n <= 0 {
        true
    } else {
        let r = readings[n - 1];
        &&& all_uncut(out, readings, n - 1, d, each)
        &&& d.longer(r, each).len() < each
        &&& uncut(
            all_gathered(out, readings, n - 1, d, each),
            0,
            seq![r] + d.longer(r, each),
            0,
            d,
            each,
        )
    }
}

/// The words that are found under a spelling itself.
pub open spec fn own_words<H: Headwords>(word: Seq<char>, d: &H) -> Seq<Seq<char>> {
    let none: Seq<Seq<char>> = seq![];
    texts_added(texts_added(none, d.found(word)), d.found(lowercased(word)))
}

/// Whether the words for a spelling are found before a limit is reached.
pub open spec fn under_the_limit<H: Headwords>(
    word: Seq<char>,
    d: &H,
    limit: nat,
    azik: bool,
) -> bool {
    let rs = readings_of(word, azik);
    let each = shared_out(limit, rs.len());
    let own = own_words(word, d);
    &&& all_uncut(own, rs, rs.len() as int, d, each)
    &&& all_gathered(own, rs, rs.len() as int, d, each).len() <= limit
}

/// Whether the shared dictionaries hold what is asked for only where a table holds it too.
/// Readings that stand for numbers are not asked for, but for the spelling itself.
pub open spec fn all_told(dict: &Dict, word: Seq<char>, azik: bool) -> bool {
    &&& told(dict@, word)
    &&& told(dict@, lowercased(word))
    &&& forall|i: int|
        0 <= i < readings_of(word, azik).len() ==> told(
            dict@,
            #[trigger] readings_of(word, azik)[i],
        ) || readings_of(word, azik)[i].contains('#')
}

/// Whether a table was made of the shared dictionaries, and stands beside what the user has
/// learned.
pub open spec fn table_of(ix: &Index, dict: &Dict) -> bool {
    &&& dict.wf()
    &&& tabular(dict@)
    &&& ix.rows() == rows_of(dict@)
    &&& own_part(ix.own(), dict@)
}

/// Whether a word is found under one of the readings from `i` on.
spec fn under<H: Headwords>(keys: Seq<Seq<char>>, i: int, d: &H, t: Seq<char>) -> bool {
    exists|j: int|
        i <= j < keys.len() && !(#[trigger] keys[j]).contains('#') && d.found(keys[j]).contains(t)
}

proof fn lemma_gathered_has<H: Headwords>(
    out: Seq<Seq<char>>,
    taken: nat,
    keys: Seq<Seq<char>>,
    i: int,
    d: &H,
    each: nat,
    t: Seq<char>,
)
    requires
        0 <= i <= keys.len(),
        uncut(out, taken, keys, i, d, each),
    ensures
        gathered(out, taken, keys, i, d, each).contains(t) <==> out.contains(t) || under(
            keys,
            i,
            d,
            t,
        ),
    decreases keys.len() - i,
{
    if i < keys.len() {
        let more = texts_added(out, d.found(keys[i]));
        let now = (taken + more.len() - out.len()) as nat;
        if keys[i].contains('#') {
            lemma_gathered_has(out, taken, keys, i + 1, d, each, t);
        } else {
            lemma_gathered_has(more, now, keys, i + 1, d, each, t);
            let v = d.found(keys[i]);
            lemma_texts_added_has(out, v, v.len() as int, t);
            assert(v.take(v.len() as int) =~= v);
        }
        if under(keys, i, d, t) {
            let j = choose|j: int|
                i <= j < keys.len() && !(#[trigger] keys[j]).contains('#') && d.found(
                    keys[j],
                ).contains(t);
            if j > i {
                assert(under(keys, i + 1, d, t));
            }
        }
        if under(keys, i + 1, d, t) {
            let j = choose|j: int|
                i + 1 <= j < keys.len() && !(#[trigger] keys[j]).contains('#') && d.found(
                    keys[j],
                ).contains(t);
            assert(i <= j);
        }
    }
}

/// The readings of which a search takes the words.
spec fn asked<H: Headwords>(r: Seq<char>, d: &H, each: nat) -> Seq<Seq<char>> {
    seq![r] + d.longer(r, each)
}

/// Whether a word is found under a reading, or under one that goes on from it.
spec fn reached<H: Headwords>(r: Seq<char>, d: &H, each: nat, t: Seq<char>) -> bool {
    under(asked(r, d, each), 0, d, t)
}

proof fn lemma_reached_over<H: Headwords, G: Headwords>(
    r: Seq<char>,
    a: &H,
    b: &G,
    each: nat,
    t: Seq<char>,
)
    requires
        reached(r, a, each, t),
        forall|k: Seq<char>|
            !(#[trigger] k.contains('#')) && asked(r, a, each).contains(k) ==> asked(
                r,
                b,
                each,
            ).contains(k) && (a.found(k).contains(t) ==> b.found(k).contains(t)),
    ensures
        reached(r, b, each, t),
{
    let ka = asked(r, a, each);
    let kb = asked(r, b, each);
    let j = choose|j: int|
        0 <= j < ka.len() && !(#[trigger] ka[j]).contains('#') && a.found(ka[j]).contains(t);
    let k = ka[j];
    assert(ka.contains(k));
    assert(!k.contains('#'));
    let m = choose|m: int| 0 <= m < kb.len() && kb[m] == k;
    assert(!kb[m].contains('#'));
}

proof fn lemma_first_then(r: Seq<char>, more: Seq<Seq<char>>, k: Seq<char>)
    ensures
        (seq![r] + more).contains(k) <==> k == r || more.contains(k),
{
    let v = seq![r] + more;
    assert(v[0] == r);
    if more.contains(k) {
        let i = choose|i: int| 0 <= i < more.len() && more[i] == k;
        assert(v[i + 1] == k);
    }
    if v.contains(k) {
        let i = choose|i: int| 0 <= i < v.len() && v[i] == k;
        if i > 0 {
            assert(more[i - 1] == k);
        }
    }
}

/// A reading leads to the same words in both.
proof fn lemma_reached_alike(ix: &Index, dict: &Dict, r: Seq<char>, each: nat, t: Seq<char>)
    requires
        table_of(ix, dict),
        r.len() > 0,
        told(dict@, r) || r.contains('#'),
        ix.longer(r, each).len() < each,
        dict.longer(r, each).len() < each,
    ensures
        reached(r, ix, each, t) <==> reached(r, dict, each, t),
{
    assert forall|k: Seq<char>| !(#[trigger] k.contains('#')) implies (asked(
        r,
        ix,
        each,
    ).contains(k) <==> asked(r, dict, each).contains(k)) && (asked(r, dict, each).contains(k) ==> (
    ix.found(k).contains(t) <==> dict.found(k).contains(t))) by {
        law_a_table_goes_on_alike(ix, dict, r, each, k);
        lemma_first_then(r, ix.longer(r, each), k);
        lemma_first_then(r, dict.longer(r, each), k);
        if asked(r, dict, each).contains(k) {
            if k != r {
                assert(extends(k, r));
            }
            law_a_table_finds_the_same_words(ix, dict, k);
        }
    }
    if reached(r, ix, each, t) {
        lemma_reached_over(r, ix, dict, each, t);
    }
    if reached(r, dict, each, t) {
        lemma_reached_over(r, dict, ix, each, t);
    }
}

proof fn lemma_all_gathered_alike(
    ix: &Index,
    dict: &Dict,
    a: Seq<Seq<char>>,
    b: Seq<Seq<char>>,
    readings: Seq<Seq<char>>,
    n: int,
    each: nat,
    t: Seq<char>,
)
    requires
        0 <= n <= readings.len(),
        table_of(ix, dict),
        a.contains(t) <==> b.contains(t),
        forall|i: int|
            0 <= i < readings.len() ==> (#[trigger] readings[i]).len() > 0 && (told(
                dict@,
                readings[i],
            ) || readings[i].contains('#')),
        all_uncut(a, readings, n, ix, each),
        all_uncut(b, readings, n, dict, each),
    ensures
        all_gathered(a, readings, n, ix, each).contains(t) <==> all_gathered(
            b,
            readings,
            n,
            dict,
            each,
        ).contains(t),
    decreases n,
{
    if n > 0 {
        lemma_all_gathered_alike(ix, dict, a, b, readings, n - 1, each, t);
        let r = readings[n - 1];
        lemma_reached_alike(ix, dict, r, each, t);
        let oa = all_gathered(a, readings, n - 1, ix, each);
        let ob = all_gathered(b, readings, n - 1, dict, each);
        lemma_gathered_has(oa, 0, seq![r] + ix.longer(r, each), 0, ix, each, t);
        lemma_gathered_has(ob, 0, seq![r] + dict.longer(r, each), 0, dict, each, t);
    }
}

proof fn lemma_tails_are_kana(pending: Seq<char>, azik: bool, n: int)
    ensures
        forall|i: int|
            0 <= i < expanded_upto(pending, azik, n).len() ==> (#[trigger] expanded_upto(
                pending,
                azik,
                n,
            )[i]).len() > 0,
    decreases n,
{
    if n > 0 {
        lemma_tails_are_kana(pending, azik, n - 1);
        let had = expanded_upto(pending, azik, n - 1);
        let all = expanded_upto(pending, azik, n);
        assert forall|i: int| 0 <= i < all.len() implies (#[trigger] all[i]).len() > 0 by {
            if i < had.len() {
                assert(all[i] == had[i]);
            }
        }
    }
}

/// No reading is empty.
proof fn lemma_readings_are_not_empty(word: Seq<char>, azik: bool)
    ensures
        forall|i: int|
            0 <= i < readings_of(word, azik).len() ==> (#[trigger] readings_of(
                word,
                azik,
            )[i]).len() > 0,
{
    let (kana, pending) = in_kana(lowercased(word), azik);
    if pending.len() > 0 {
        lemma_tails_are_kana(pending, azik, 6);
        let tails = expanded(pending, azik);
        assert forall|i: int| 0 <= i < readings_of(word, azik).len() implies (
        #[trigger] readings_of(word, azik)[i]).len() > 0 by {
            assert(readings_of(word, azik)[i] == kana + tails[i]);
        }
    }
}

proof fn lemma_own_words_alike(ix: &Index, dict: &Dict, word: Seq<char>, azik: bool, t: Seq<char>)
    requires
        table_of(ix, dict),
        all_told(dict, word, azik),
    ensures
        own_words(word, ix).contains(t) <==> own_words(word, dict).contains(t),
{
    let small = lowercased(word);
    law_a_table_finds_the_same_words(ix, dict, word);
    law_a_table_finds_the_same_words(ix, dict, small);
    let none: Seq<Seq<char>> = seq![];
    lemma_added_has(none, ix.found(word), t);
    lemma_added_has(none, dict.found(word), t);
    lemma_added_has(texts_added(none, ix.found(word)), ix.found(small), t);
    lemma_added_has(texts_added(none, dict.found(word)), dict.found(small), t);
}

proof fn lemma_added_has(v: Seq<Seq<char>>, more: Seq<Seq<char>>, t: Seq<char>)
    ensures
        texts_added(v, more).contains(t) <==> v.contains(t) || more.contains(t),
{
    lemma_texts_added_has(v, more, more.len() as int, t);
    assert(more.take(more.len() as int) =~= more);
}

/// Where no limit is reached, a search through a table finds the words that the dictionaries
/// themselves give.
pub proof fn law_a_table_leads_to_the_same_words(
    ix: &Index,
    dict: &Dict,
    word: Seq<char>,
    limit: nat,
    azik: bool,
    t: Seq<char>,
)
    requires
        table_of(ix, dict),
        all_told(dict, word, azik),
        under_the_limit(word, ix, limit, azik),
        under_the_limit(word, dict, limit, azik),
    ensures
        ({
            let rs = readings_of(word, azik);
            words_found(word, lowercased(word), rs, ix, limit).contains(t) <==> words_found(
                word,
                lowercased(word),
                rs,
                dict,
                limit,
            ).contains(t)
        }),
{
    let rs = readings_of(word, azik);
    let each = shared_out(limit, rs.len());
    lemma_readings_are_not_empty(word, azik);
    lemma_own_words_alike(ix, dict, word, azik, t);
    lemma_all_gathered_alike(
        ix,
        dict,
        own_words(word, ix),
        own_words(word, dict),
        rs,
        rs.len() as int,
        each,
        t,
    );
}

pub proof fn lemma_new_ones_have(v: Seq<Seq<char>>, n: int, t: Seq<char>)
    requires
        0 <= n <= v.len(),
    ensures
        new_ones(v, n).contains(t) <==> t.len() > 0 && v.take(n).contains(t),
    decreases n,
{
    if n > 0 {
        lemma_new_ones_have(v, n - 1, t);
        lemma_new_ones_have(v, n - 1, v[n - 1]);
        lemma_take_next(v, n - 1);
        crate::order::lemma_push_contains(new_ones(v, n - 1), v[n - 1], t);
        crate::order::lemma_push_contains(v.take(n - 1), v[n - 1], t);
    }
}

/// Nothing that a spelling may stand for is empty.
pub proof fn lemma_meant_is_not_empty<H: Headwords>(
    word: Seq<char>,
    d: &H,
    limit: nat,
    azik: bool,
    i: int,
)
    requires
        0 <= i < meant(word, d, limit, azik).len(),
    ensures
        meant(word, d, limit, azik)[i].len() > 0,
{
    let rs = readings_of(word, azik);
    let v = seq![word] + all_kinds(rs, rs.len() as int) + seq![
        word.map_values(|c: char| zenkaku_form(c)),
    ] + words_found(word, lowercased(word), rs, d, limit);
    let all = new_ones(v, v.len() as int);
    assert(meant(word, d, limit, azik) == all);
    assert(all.contains(all[i]));
    lemma_new_ones_have(v, v.len() as int, all[i]);
}

proof fn lemma_both_have(a: Seq<Seq<char>>, b: Seq<Seq<char>>, t: Seq<char>)
    ensures
        (a + b).contains(t) <==> a.contains(t) || b.contains(t),
{
    let v = a + b;
    if a.contains(t) {
        let i = choose|i: int| 0 <= i < a.len() && a[i] == t;
        assert(v[i] == t);
    }
    if b.contains(t) {
        let i = choose|i: int| 0 <= i < b.len() && b[i] == t;
        assert(v[a.len() + i] == t);
    }
    if v.contains(t) {
        let i = choose|i: int| 0 <= i < v.len() && v[i] == t;
        if i >= a.len() {
            assert(b[i - a.len()] == t);
        } else {
            assert(a[i] == t);
        }
    }
}

/// Which words are kept does not depend on the order in which they come.
pub proof fn law_words_are_kept_in_any_order(v: Seq<Seq<char>>, w: Seq<Seq<char>>)
    requires
        forall|t: Seq<char>| #[trigger] v.contains(t) <==> w.contains(t),
    ensures
        words_added(seq![], v, v.len() as int) == words_added(seq![], w, w.len() as int),
{
    let a = words_added(seq![], v, v.len() as int);
    let b = words_added(seq![], w, w.len() as int);
    law_every_word_is_matched(v, v.len() as int);
    law_every_word_is_matched(w, w.len() as int);
    assert forall|t: Seq<char>| a.to_set().contains(t) <==> b.to_set().contains(t) by {
        if a.contains(t) {
            lemma_kept_there(v, w, t);
        }
        if b.contains(t) {
            lemma_kept_there(w, v, t);
        }
    }
    assert(a.to_set() =~= b.to_set());
    lemma_ascending_unique(false, a, b);
}

proof fn lemma_kept_there(v: Seq<Seq<char>>, w: Seq<Seq<char>>, t: Seq<char>)
    requires
        forall|s: Seq<char>| #[trigger] v.contains(s) <==> w.contains(s),
        words_added(seq![], v, v.len() as int).contains(t),
    ensures
        words_added(seq![], w, w.len() as int).contains(t),
{
    let n = v.len() as int;
    let m = w.len() as int;
    let a = words_added(seq![], v, n);
    let b = words_added(seq![], w, m);
    law_every_word_is_matched(v, n);
    law_every_word_is_matched(w, m);
    assert(v.take(n) =~= v);
    assert(w.take(m) =~= w);
    let i = choose|i: int| 0 <= i < a.len() && a[i] == t;
    assert(v.contains(a[i]));
    assert(w.contains(t));
    let p = choose|p: int| 0 <= p < w.len() && w[p] == t;
    assert(covered(b, w[p]));
    let q = choose|q: int| 0 <= q < b.len() && (#[trigger] b[q]).is_prefix_of(t);
    let s = b[q];
    assert(w.contains(b[q]));
    assert(v.contains(s));
    let x = choose|x: int| 0 <= x < v.len() && v[x] == s;
    assert(covered(a, v[x]));
    let y = choose|y: int| 0 <= y < a.len() && (#[trigger] a[y]).is_prefix_of(s);
    lemma_prefix_transitive(a[y], s, t);
    if y != i {
        law_no_word_is_kept_twice(v, n, y, i);
    }
    assert(a[y] == t);
    assert(s =~= t) by {
        assert(t =~= s.subrange(0, t.len() as int));
        assert(s =~= t.subrange(0, s.len() as int));
    }
}

proof fn lemma_word_answered_alike(
    ix: &Index,
    dict: &Dict,
    word: Seq<char>,
    rx: RxText,
    limit: nat,
    azik: bool,
)
    requires
        table_of(ix, dict),
        all_told(dict, word, azik),
        under_the_limit(word, ix, limit, azik),
        under_the_limit(word, dict, limit, azik),
    ensures
        word_text(word, rx, ix, limit, azik) == word_text(word, rx, dict, limit, azik),
{
    let rs = readings_of(word, azik);
    let first = seq![word] + all_kinds(rs, rs.len() as int) + seq![
        word.map_values(|c: char| zenkaku_form(c)),
    ];
    let wa = words_found(word, lowercased(word), rs, ix, limit);
    let wb = words_found(word, lowercased(word), rs, dict, limit);
    let va = first + wa;
    let vb = first + wb;
    let a = meant(word, ix, limit, azik);
    let b = meant(word, dict, limit, azik);
    assert(a == new_ones(va, va.len() as int));
    assert(b == new_ones(vb, vb.len() as int));
    assert forall|t: Seq<char>| #[trigger] a.contains(t) <==> b.contains(t) by {
        law_a_table_leads_to_the_same_words(ix, dict, word, limit, azik, t);
        lemma_new_ones_have(va, va.len() as int, t);
        lemma_new_ones_have(vb, vb.len() as int, t);
        assert(va.take(va.len() as int) =~= va);
        assert(vb.take(vb.len() as int) =~= vb);
        lemma_both_have(first, wa, t);
        lemma_both_have(first, wb, t);
    }
    law_words_are_kept_in_any_order(a, b);
}

/// Where no limit is reached, a search through a table gives the answer that the
/// dictionaries themselves give, letter for letter.
pub proof fn law_a_table_gives_the_same_answer(
    ix: &Index,
    dict: &Dict,
    words: Seq<Seq<char>>,
    n: int,
    rx: RxText,
    limit: nat,
    azik: bool,
)
    requires
        table_of(ix, dict),
        0 <= n <= words.len(),
        forall|i: int|
            0 <= i < words.len() ==> {
                &&& all_told(dict, #[trigger] words[i], azik)
                &&& under_the_limit(words[i], ix, limit, azik)
                &&& under_the_limit(words[i], dict, limit, azik)
            },
    ensures
        words_text(words, n, rx, ix, limit, azik) == words_text(words, n, rx, dict, limit, azik),
    decreases n,
{
    if n > 0 {
        law_a_table_gives_the_same_answer(ix, dict, words, n - 1, rx, limit, azik);
        lemma_word_answered_alike(ix, dict, words[n - 1], rx, limit, azik);
    }
}

} // verus!
