//! How letters become kana, one spelling after the other.
use vstd::prelude::*;
use vstd::string::*;
use crate::romaji::{
    flushed, goes_on, hiragana_of, in_hiragana, in_katakana, kana_of, katakana_of, settled, spelled,
    Kutouten, Rows,
};
use crate::text::lemma_take_next;

verus! {

/// Whether no shorter beginning of a spelling is a spelling itself.
pub open spec fn unbroken(rows: Rows, key: Seq<char>) -> bool {
    forall|n: int| 0 < n < key.len() ==> kana_of(rows, #[trigger] key.take(n)) is None
}

/// Whether a text is spelled by a row.
pub open spec fn is_spelling(rows: Rows, key: Seq<char>) -> bool {
    exists|i: int| 0 <= i < rows.len() && (#[trigger] rows[i]).0 == key
}

proof fn lemma_beginning_goes_on(rows: Rows, key: Seq<char>, n: int)
    requires
        is_spelling(rows, key),
        0 <= n < key.len(),
    ensures
        goes_on(rows, key.take(n)),
{
    let i = choose|i: int| 0 <= i < rows.len() && (#[trigger] rows[i]).0 == key;
    assert(key.take(n) =~= rows[i].0.subrange(0, n));
    assert(key.take(n).is_prefix_of(rows[i].0));
}

proof fn lemma_waits(rows: Rows, key: Seq<char>, n: int)
    requires
        is_spelling(rows, key),
        unbroken(rows, key),
        0 <= n < key.len(),
    ensures
        spelled(rows, key.take(n)) == (Seq::<char>::empty(), key.take(n)),
    decreases n,
{
    let none: Seq<char> = seq![];
    if n > 0 {
        lemma_waits(rows, key, n - 1);
        lemma_take_next(key, n - 1);
        assert(kana_of(rows, key.take(n)) is None);
        lemma_beginning_goes_on(rows, key, n);
        assert(none + none =~= none);
    } else {
        assert(key.take(0) =~= none);
    }
}

/// A spelling that is typed letter by letter gives its kana and leaves nothing over, if no
/// shorter spelling begins it.
pub proof fn law_a_spelling_gives_its_kana(rows: Rows, key: Seq<char>)
    requires
        key.len() > 0,
        is_spelling(rows, key),
        unbroken(rows, key),
        kana_of(rows, key) is Some,
    ensures
        spelled(rows, key) == (kana_of(rows, key)->0, Seq::<char>::empty()),
{
    let n = key.len() as int;
    lemma_waits(rows, key, n - 1);
    lemma_take_next(key, n - 1);
    assert(key.take(n) =~= key);
    let none: Seq<char> = seq![];
    assert(none + kana_of(rows, key)->0 =~= kana_of(rows, key)->0);
}

/// What is typed after letters that left nothing over is spelled as if it were typed alone.
pub proof fn law_spellings_follow_each_other(rows: Rows, a: Seq<char>, b: Seq<char>)
    requires
        spelled(rows, a).1.len() == 0,
    ensures
        spelled(rows, a + b) == (spelled(rows, a).0 + spelled(rows, b).0, spelled(rows, b).1),
    decreases b.len(),
{
    let none: Seq<char> = seq![];
    if b.len() == 0 {
        assert(a + b =~= a);
        assert(spelled(rows, a).1 =~= none);
        assert(spelled(rows, a).0 + none =~= spelled(rows, a).0);
    } else {
        let c = b.drop_last();
        law_spellings_follow_each_other(rows, a, c);
        assert((a + b).drop_last() =~= a + c);
        assert((a + b).last() == b.last());
        assert(spelled(rows, a + b).0 =~= spelled(rows, a).0 + spelled(rows, b).0);
    }
}

/// Whether no spelling begins with a text.
pub open spec fn nothing_begins(rows: Rows, key: Seq<char>) -> bool {
    !goes_on(rows, key) && kana_of(rows, key) is None
}

/// The letters for which a doubled one is a small tsu.
pub open spec fn doubles(c: char) -> bool {
    'b' <= c <= 'z' && c != 'e' && c != 'i' && c != 'o' && c != 'u' && c != 'n'
}

proof fn lemma_after_head(rows: Rows, head: char, key: Seq<char>, out: char, n: int)
    requires
        key.len() > 1,
        is_spelling(rows, key),
        unbroken(rows, key),
        nothing_begins(rows, seq![head, key[0]]),
        kana_of(rows, seq![head]) is None,
        goes_on(rows, seq![head]),
        1 <= n < key.len(),
        out == (if head == key[0] && doubles(head) {
            'っ'
        } else if head == 'n' {
            'ん'
        } else {
            head
        }),
        head != key[0] || doubles(head) || head == 'n',
    ensures
        spelled(rows, seq![head] + key.take(n)) == (seq![out], key.take(n)),
    decreases n,
{
    let none: Seq<char> = seq![];
    let s = seq![head] + key.take(n);
    lemma_take_next(key, n - 1);
    assert(s.drop_last() =~= seq![head] + key.take(n - 1));
    assert(s.last() == key[n - 1]);
    if n == 1 {
        assert(key.take(0) =~= none);
        let one = seq![head];
        assert(seq![head] + none =~= one);
        assert(one.drop_last() =~= none);
        assert(none.push(head) =~= one);
        assert(spelled(rows, one.drop_last()) == (none, none));
        assert(one.last() == head);
        assert(settled(rows, none.push(head)) == (none, one));
        assert(spelled(rows, one) == (none + none, one));
        assert(none + none =~= none);
        let two = one.push(key[0]);
        assert(two =~= seq![head, key[0]]);
        assert(two.skip(1) =~= key.take(1));
        assert(kana_of(rows, key.take(1)) is None);
        lemma_beginning_goes_on(rows, key, 1);
        assert(settled(rows, key.take(1)) == (none, key.take(1)));
        assert(settled(rows, two).0 =~= seq![out]);
        assert(none + seq![out] =~= seq![out]);
    } else {
        lemma_after_head(rows, head, key, out, n - 1);
        assert(kana_of(rows, key.take(n)) is None);
        lemma_beginning_goes_on(rows, key, n);
        assert(seq![out] + none =~= seq![out]);
    }
}

proof fn lemma_with_head(rows: Rows, head: char, key: Seq<char>, out: char)
    requires
        key.len() > 1,
        is_spelling(rows, key),
        unbroken(rows, key),
        kana_of(rows, key) is Some,
        nothing_begins(rows, seq![head, key[0]]),
        kana_of(rows, seq![head]) is None,
        goes_on(rows, seq![head]),
        out == (if head == key[0] && doubles(head) {
            'っ'
        } else if head == 'n' {
            'ん'
        } else {
            head
        }),
        head != key[0] || doubles(head) || head == 'n',
    ensures
        spelled(rows, seq![head] + key) == (
            seq![out] + kana_of(rows, key)->0,
            Seq::<char>::empty(),
        ),
{
    let n = key.len() as int;
    lemma_after_head(rows, head, key, out, n - 1);
    lemma_take_next(key, n - 1);
    assert(key.take(n) =~= key);
    let s = seq![head] + key;
    assert(s.drop_last() =~= seq![head] + key.take(n - 1));
    assert(s.last() == key[n - 1]);
}

/// A consonant that is typed twice is a small tsu before the syllable that the second one
/// begins.
pub proof fn law_a_doubled_consonant_is_a_small_tsu(rows: Rows, key: Seq<char>)
    requires
        key.len() > 1,
        doubles(key[0]),
        is_spelling(rows, key),
        unbroken(rows, key),
        kana_of(rows, key) is Some,
        nothing_begins(rows, seq![key[0], key[0]]),
    ensures
        spelled(rows, seq![key[0]] + key) == (
            seq!['っ'] + kana_of(rows, key)->0,
            Seq::<char>::empty(),
        ),
{
    assert(key.take(1) =~= seq![key[0]]);
    assert(kana_of(rows, key.take(1)) is None);
    lemma_beginning_goes_on(rows, key, 1);
    lemma_with_head(rows, key[0], key, 'っ');
}

/// An n before a syllable that it does not belong to is a syllabic n.
pub proof fn law_an_n_before_a_consonant_is_syllabic(rows: Rows, key: Seq<char>)
    requires
        key.len() > 1,
        is_spelling(rows, key),
        unbroken(rows, key),
        kana_of(rows, key) is Some,
        nothing_begins(rows, seq!['n', key[0]]),
        kana_of(rows, seq!['n']) is None,
        goes_on(rows, seq!['n']),
    ensures
        spelled(rows, seq!['n'] + key) == (
            seq!['ん'] + kana_of(rows, key)->0,
            Seq::<char>::empty(),
        ),
{
    lemma_with_head(rows, 'n', key, 'ん');
}

/// Of the letters that wait in the end only an n is a kana.
pub proof fn law_only_an_n_is_a_kana_in_the_end(waiting: Seq<char>)
    ensures
        waiting == seq!['n'] ==> flushed(waiting) == seq!['ん'],
        waiting != seq!['n'] ==> flushed(waiting).len() == 0,
{
    reveal_strlit("n");
    reveal_strlit("ん");
    assert("n"@ =~= seq!['n']);
    assert("ん"@ =~= seq!['ん']);
}

/// Katakana stand as far behind their hiragana in the list of characters as all others do;
/// what is no kana of the other kind stays.
pub proof fn law_kana_change_in_step(c: char)
    ensures
        'ぁ' <= c <= 'ゖ' ==> katakana_of(c) as int == c as int + 0x60,
        !('ぁ' <= c <= 'ゖ') ==> katakana_of(c) == c,
        'ァ' <= c <= 'ヶ' ==> hiragana_of(c) as int == c as int - 0x60,
        !('ァ' <= c <= 'ヶ') ==> hiragana_of(c) == c,
{
}

/// A text keeps its length in the other kana, and each of its characters changes alone.
pub proof fn law_kana_change_one_by_one(s: Seq<char>, i: int)
    requires
        0 <= i < s.len(),
    ensures
        in_katakana(s).len() == s.len(),
        in_hiragana(s).len() == s.len(),
        in_katakana(s)[i] == katakana_of(s[i]),
        in_hiragana(s)[i] == hiragana_of(s[i]),
{
}

/// Only the full stop and the comma follow the setup: both Japanese or both wide, or one of
/// each.
pub proof fn law_only_punctuation_follows_the_setup(k: Kutouten, s: Seq<char>, i: int)
    requires
        0 <= i < s.len(),
    ensures
        k.marked(s).len() == s.len(),
        s[i] == '。' ==> k.marked(s)[i] == (if k is Jp || k is JpEn {
            '。'
        } else {
            '．'
        }),
        s[i] == '、' ==> k.marked(s)[i] == (if k is Jp || k is EnJp {
            '、'
        } else {
            '，'
        }),
        s[i] != '。' && s[i] != '、' ==> k.marked(s)[i] == s[i],
{
}

} // verus!
