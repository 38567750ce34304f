//! What a spelling may stand for.
use vstd::prelude::*;
use crate::answers::lemma_new_ones_have;
use crate::migemo::{
    all_kinds, expanded, expanded_upto, in_kana, kinds, meant, readings_of, small_readings_of,
    tries, words_found, Headwords,
};
use crate::romaji::{in_hankaku, in_katakana, zenkaku_form, VOWELS};
use crate::text::lowercased;

verus! {

/// A spelling that is finished has one reading, its kana.
pub proof fn law_a_finished_spelling_has_one_reading(small: Seq<char>, azik: bool)
    requires
        in_kana(small, azik).1.len() == 0,
        in_kana(small, azik).0.len() > 0,
    ensures
        small_readings_of(small, azik) == seq![in_kana(small, azik).0],
{
}

proof fn lemma_expanded(pending: Seq<char>, azik: bool, n: int, i: int)
    requires
        0 <= i < n <= 6,
        ({
            let r = in_kana(pending.push(tries(pending)[i]), azik);
            r.0.len() > 0 && (r.1.len() == 0 || tries(pending)[i] == pending.last())
        }),
    ensures
        expanded_upto(pending, azik, n).contains(in_kana(pending.push(tries(pending)[i]), azik).0),
    decreases n,
{
    let had = expanded_upto(pending, azik, n - 1);
    let x = in_kana(pending.push(tries(pending)[i]), azik).0;
    let more = in_kana(pending.push(tries(pending)[n - 1]), azik).0;
    if i < n - 1 {
        lemma_expanded(pending, azik, n - 1, i);
        let k = choose|k: int| 0 <= k < had.len() && had[k] == x;
        assert(had.push(more)[k] == x);
    } else if !had.contains(x) {
        assert(had.push(x)[had.len() as int] == x);
    }
}

proof fn lemma_expanded_only(pending: Seq<char>, azik: bool, n: int, x: Seq<char>) -> (i: int)
    requires
        0 <= n <= 6,
        expanded_upto(pending, azik, n).contains(x),
    ensures
        0 <= i < n,
        in_kana(pending.push(tries(pending)[i]), azik).0 == x,
        x.len() > 0,
    decreases n,
{
    let had = expanded_upto(pending, azik, n - 1);
    if had.contains(x) {
        lemma_expanded_only(pending, azik, n - 1, x)
    } else {
        let more = in_kana(pending.push(tries(pending)[n - 1]), azik).0;
        crate::order::lemma_push_contains(had, more, x);
        n - 1
    }
}

/// A spelling that is not finished has a reading for each vowel that finishes it, and one for
/// its last consonant doubled.
pub proof fn law_an_unfinished_spelling_has_more(small: Seq<char>, azik: bool, c: char)
    requires
        in_kana(small, azik).1.len() > 0,
        ({
            let pending = in_kana(small, azik).1;
            let r = in_kana(pending.push(c), azik);
            r.0.len() > 0 && ((VOWELS@.contains(c) && r.1.len() == 0) || c == pending.last())
        }),
    ensures
        ({
            let (kana, pending) = in_kana(small, azik);
            small_readings_of(small, azik).contains(kana + in_kana(pending.push(c), azik).0)
        }),
{
    let (kana, pending) = in_kana(small, azik);
    let t = tries(pending);
    let i = if c == pending.last() {
        5
    } else {
        choose|i: int| 0 <= i < VOWELS@.len() && VOWELS@[i] == c
    };
    assert(t[i] == c);
    lemma_expanded(pending, azik, 6, i);
    let v = expanded(pending, azik);
    let x = in_kana(pending.push(c), azik).0;
    let k = choose|k: int| 0 <= k < v.len() && v[k] == x;
    assert(small_readings_of(small, azik)[k] == kana + x);
}

/// Every reading of a spelling goes on after the kana that are finished.
pub proof fn law_readings_go_on_after_the_kana(small: Seq<char>, azik: bool, k: int)
    requires
        0 <= k < small_readings_of(small, azik).len(),
    ensures
        in_kana(small, azik).0.is_prefix_of(small_readings_of(small, azik)[k]),
        small_readings_of(small, azik)[k].len() > 0,
{
    let (kana, pending) = in_kana(small, azik);
    let r = small_readings_of(small, azik)[k];
    if pending.len() > 0 {
        let v = expanded(pending, azik);
        assert(v.contains(v[k]));
        let i = lemma_expanded_only(pending, azik, 6, v[k]);
        assert(r == kana + v[k]);
    }
    assert(kana =~= r.subrange(0, kana.len() as int));
}

proof fn lemma_kinds_have(rs: Seq<Seq<char>>, n: int, k: int, x: Seq<char>)
    requires
        0 <= k < n <= rs.len(),
        kinds(rs[k]).contains(x),
    ensures
        all_kinds(rs, n).contains(x),
    decreases n,
{
    let had = all_kinds(rs, n - 1);
    let more = kinds(rs[n - 1]);
    let all = had + more;
    if k < n - 1 {
        lemma_kinds_have(rs, n - 1, k, x);
        let i = choose|i: int| 0 <= i < had.len() && had[i] == x;
        assert(all[i] == x);
    } else {
        let i = choose|i: int| 0 <= i < more.len() && more[i] == x;
        assert(all[had.len() + i] == x);
    }
}

/// A spelling may stand for itself, for its wide form, for each of its readings in all kinds
/// of kana, and for the words that are found for it.
pub proof fn law_what_a_spelling_may_stand_for<H: Headwords>(
    word: Seq<char>,
    d: &H,
    limit: nat,
    azik: bool,
    k: int,
    t: Seq<char>,
)
    requires
        word.len() > 0,
    ensures
        ({
            let v = meant(word, d, limit, azik);
            let rs = readings_of(word, azik);
            &&& v.contains(word)
            &&& v.contains(word.map_values(|c: char| zenkaku_form(c)))
            &&& 0 <= k < rs.len() && rs[k].len() > 0 ==> v.contains(rs[k]) && v.contains(
                in_katakana(rs[k]),
            )
            &&& 0 <= k < rs.len() && in_hankaku(rs[k]).len() > 0 ==> v.contains(in_hankaku(rs[k]))
            &&& t.len() > 0 && words_found(word, lowercased(word), rs, d, limit).contains(t)
                ==> v.contains(t)
        }),
{
    let rs = readings_of(word, azik);
    let wide = word.map_values(|c: char| zenkaku_form(c));
    let own = seq![word];
    let kana = all_kinds(rs, rs.len() as int);
    let found = words_found(word, lowercased(word), rs, d, limit);
    let v = own + kana + seq![wide] + found;
    let n = v.len() as int;
    let a = own + kana;
    assert(v[0] == word);
    assert(v[a.len() as int] == wide);
    lemma_new_ones_have(v, n, word);
    lemma_new_ones_have(v, n, wide);
    assert(v.contains(word) && v.contains(wide));
    assert(v.take(n) =~= v);
    if 0 <= k < rs.len() {
        let r = rs[k];
        let three = kinds(r);
        assert(three[0] == r && three[1] == in_katakana(r) && three[2] == in_hankaku(r));
        assert forall|x: Seq<char>| #[trigger] three.contains(x) implies v.contains(x) by {
            lemma_kinds_have(rs, rs.len() as int, k, x);
            let i = choose|i: int| 0 <= i < kana.len() && kana[i] == x;
            assert(v[1 + i] == x);
        }
        assert(three.contains(r) && three.contains(in_katakana(r)) && three.contains(in_hankaku(r)));
        lemma_new_ones_have(v, n, r);
        lemma_new_ones_have(v, n, in_katakana(r));
        lemma_new_ones_have(v, n, in_hankaku(r));
    }
    if found.contains(t) {
        let i = choose|i: int| 0 <= i < found.len() && found[i] == t;
        assert(v[a.len() + 1 + i] == t);
        lemma_new_ones_have(v, n, t);
    }
}

} // verus!
