//! What counts as a mention on the screen, and how far away it is.
use vstd::prelude::*;
use crate::context::{
    all_letters, class_is, clues_to, clues_upto, counts, distance_of, found, found_before,
    hint_words, run_ended, stands_at, word_ended, Class, Clues, ScreenText,
};
use crate::text::{letter, lower};

verus! {

/// The distance between two places.
pub open spec fn apart(a: int, b: int) -> int {
    if a < b {
        b - a
    } else {
        a - b
    }
}

/// A mention is as far away as the nearest of its characters.
pub proof fn law_a_mention_is_as_far_as_its_nearest_character(
    cursor: int,
    at: int,
    len: int,
    p: int,
)
    requires
        len > 0,
        at <= p < at + len,
    ensures
        distance_of(cursor, at, len) <= apart(cursor, p),
        exists|q: int| at <= q < at + len && distance_of(cursor, at, len) == #[trigger] apart(
            cursor,
            q,
        ),
{
    let q = if cursor < at {
        at
    } else if cursor >= at + len {
        at + len - 1
    } else {
        cursor
    };
    assert(distance_of(cursor, at, len) == apart(cursor, q));
}

/// Whether a word stands at a place of the screen in a way that counts.
pub open spec fn mentioned_at(c: ScreenText, n: Seq<char>, at: int) -> bool {
    &&& 0 <= at
    &&& at + n.len() <= c.chars.len()
    &&& stands_at(c.chars, n, at)
    &&& counts(c.chars, at, n.len() as int, all_letters(n))
}

proof fn lemma_found_before(c: ScreenText, n: Seq<char>, at: int)
    requires
        0 <= at,
        at - 1 + n.len() <= c.chars.len(),
    ensures
        forall|k: int|
            0 <= k < at && mentioned_at(c, n, k) ==> found_before(c, n, at).contains(
                #[trigger] distance_of(c.cursor, k, n.len() as int),
            ),
        forall|i: int|
            0 <= i < found_before(c, n, at).len() ==> exists|k: int|
                0 <= k < at && mentioned_at(c, n, k) && (#[trigger] found_before(c, n, at)[i])
                    == #[trigger] distance_of(c.cursor, k, n.len() as int),
        found_before(c, n, at).len() <= at,
    decreases at,
{
    let all = found_before(c, n, at);
    if at > 0 {
        lemma_found_before(c, n, at - 1);
        let had = found_before(c, n, at - 1);
        let len = n.len() as int;
        let d = distance_of(c.cursor, at - 1, len);
        assert forall|k: int| 0 <= k < at && mentioned_at(c, n, k) implies all.contains(
            #[trigger] distance_of(c.cursor, k, len),
        ) by {
            if k < at - 1 {
                assert(had.contains(distance_of(c.cursor, k, len)));
                crate::order::lemma_push_contains(had, d, distance_of(c.cursor, k, len));
            } else {
                crate::order::lemma_push_contains(had, d, d);
            }
        }
        assert forall|i: int| 0 <= i < all.len() implies exists|k: int|
            0 <= k < at && mentioned_at(c, n, k) && (#[trigger] all[i]) == #[trigger] distance_of(
                c.cursor,
                k,
                len,
            ) by {
            if i < had.len() {
                assert(all[i] == had[i]);
                let k = choose|k: int|
                    0 <= k < at - 1 && mentioned_at(c, n, k) && had[i] == #[trigger] distance_of(
                        c.cursor,
                        k,
                        len,
                    );
                assert(all[i] == distance_of(c.cursor, k, len));
            } else {
                assert(mentioned_at(c, n, at - 1));
                assert(all[i] == distance_of(c.cursor, at - 1, len));
            }
        }
    }
}

/// Every mention that counts is found, with its distance, and nothing else is.
pub proof fn law_mentions_are_found(c: ScreenText, n: Seq<char>)
    requires
        n.len() > 0,
    ensures
        forall|k: int|
            mentioned_at(c, n, k) ==> found(c, n).contains(
                #[trigger] distance_of(c.cursor, k, n.len() as int),
            ),
        forall|i: int|
            0 <= i < found(c, n).len() ==> exists|k: int|
                mentioned_at(c, n, k) && (#[trigger] found(c, n)[i]) == #[trigger] distance_of(
                    c.cursor,
                    k,
                    n.len() as int,
                ),
{
    if n.len() <= c.chars.len() {
        let at = c.chars.len() - n.len() + 1;
        lemma_found_before(c, n, at);
        assert forall|i: int| 0 <= i < found(c, n).len() implies exists|k: int|
            mentioned_at(c, n, k) && (#[trigger] found(c, n)[i]) == #[trigger] distance_of(
                c.cursor,
                k,
                n.len() as int,
            ) by {
            let k = choose|k: int|
                0 <= k < at && mentioned_at(c, n, k) && found_before(c, n, at)[i]
                    == #[trigger] distance_of(c.cursor, k, n.len() as int);
            assert(mentioned_at(c, n, k));
        }
    }
}

/// Whether a character belongs to identifiers and paths.
pub open spec fn of_a_name(c: char) -> bool {
    'a' <= c <= 'z' || 'A' <= c <= 'Z' || '0' <= c <= '9' || c == '/' || c == '.' || c == '_' || c
        == '-'
}

/// A word of letters counts only where it stands alone, not as part of an identifier or a
/// path, and whatever its case; a longer word counts everywhere; a single character counts
/// where its neighbours are of other kinds.
pub proof fn law_what_counts_as_a_mention(s: Seq<char>, n: Seq<char>, at: int)
    requires
        n.len() > 0,
        0 <= at,
        at + n.len() <= s.len(),
    ensures
        ({
            let len = n.len() as int;
            let alone = (at == 0 || !of_a_name(s[at - 1])) && (at + len == s.len() || !of_a_name(
                s[at + len],
            ));
            &&& counts(s, at, len, true) == alone
            &&& len > 1 ==> counts(s, at, len, false)
            &&& len == 1 ==> counts(s, at, len, false) == ((at == 0 || class_is(s[at - 1])
                != class_is(s[at])) && (at + 1 == s.len() || class_is(s[at + 1]) != class_is(s[at])))
            &&& all_letters(n) && stands_at(s, n, at) ==> forall|i: int|
                0 <= i < len ==> lower(s[at + i]) == lower(#[trigger] n[i])
            &&& !all_letters(n) ==> (stands_at(s, n, at) <==> s.subrange(at, at + len) == n)
        }),
{
    let len = n.len() as int;
    if !all_letters(n) {
        let t = s.subrange(at, at + len);
        if stands_at(s, n, at) {
            assert(t =~= n);
        }
        if t == n {
            assert forall|i: int| 0 <= i < n.len() implies s[at + i] == #[trigger] n[i] by {
                assert(t[i] == s[at + i]);
            }
            assert(stands_at(s, n, at));
        }
    }
}

/// A word that an annotation can give: three letters or more, or two kanji or more.
pub open spec fn can_hint(w: Seq<char>) -> bool {
    ||| w.len() >= 3 && (forall|i: int| 0 <= i < w.len() ==> 'a' <= #[trigger] w[i] <= 'z')
    ||| w.len() >= 2 && (forall|i: int|
        0 <= i < w.len() ==> class_is(#[trigger] w[i]) == Class::Kanji)
}

spec fn hints_well(c: Clues) -> bool {
    &&& forall|i: int| 0 <= i < c.found.len() ==> can_hint(#[trigger] c.found[i])
    &&& forall|i: int| 0 <= i < c.word.len() ==> letter(#[trigger] c.word[i])
    &&& forall|i: int| 0 <= i < c.run.len() ==> class_is(#[trigger] c.run[i]) == Class::Kanji
}

proof fn lemma_word_ended(c: Clues)
    requires
        hints_well(c),
    ensures
        hints_well(word_ended(c)),
{
    let w = c.word.map_values(|x: char| lower(x));
    if c.word.len() >= 3 {
        assert forall|i: int| 0 <= i < w.len() implies 'a' <= #[trigger] w[i] <= 'z' by {
            assert(letter(c.word[i]));
        }
        assert(can_hint(w));
    }
    let d = word_ended(c);
    assert forall|i: int| 0 <= i < d.found.len() implies can_hint(#[trigger] d.found[i]) by {
        if i < c.found.len() {
            assert(d.found[i] == c.found[i]);
        }
    }
}

proof fn lemma_run_ended(c: Clues)
    requires
        hints_well(c),
    ensures
        hints_well(run_ended(c)),
{
    let d = run_ended(c);
    if c.run.len() >= 2 {
        assert(can_hint(c.run));
    }
    assert forall|i: int| 0 <= i < d.found.len() implies can_hint(#[trigger] d.found[i]) by {
        if i < c.found.len() {
            assert(d.found[i] == c.found[i]);
        }
    }
}

proof fn lemma_clues(s: Seq<char>, n: int)
    requires
        n <= s.len(),
    ensures
        hints_well(clues_upto(s, n)),
    decreases n,
{
    if n > 0 {
        lemma_clues(s, n - 1);
        let c = clues_upto(s, n - 1);
        let x = s[n - 1];
        lemma_run_ended(c);
        lemma_word_ended(c);
        lemma_word_ended(run_ended(c));
        let q = Clues { quoted: true, ..c };
        let r = Clues { quoted: false, ..c };
        lemma_run_ended(q);
        lemma_word_ended(run_ended(q));
        lemma_run_ended(r);
        lemma_word_ended(run_ended(r));
    }
}

/// The clues to a candidate are itself and words of its annotation, each of three letters or
/// more, in small letters, or of two kanji or more.
pub proof fn law_what_an_annotation_can_hint(
    c: ScreenText,
    text: Seq<char>,
    annotation: Option<Seq<char>>,
    i: int,
)
    requires
        0 <= i < clues_to(c, text, annotation).len(),
    ensures
        ({
            let m = clues_to(c, text, annotation)[i];
            &&& i == 0 ==> m.word == text && !m.hint
            &&& i > 0 ==> m.hint && can_hint(m.word)
            &&& m.distances == found(c, m.word)
        }),
        annotation is None ==> clues_to(c, text, annotation).len() == 1,
{
    if let Some(a) = annotation {
        let n = a.len() as int;
        lemma_clues(a, n);
        lemma_word_ended(clues_upto(a, n));
        lemma_run_ended(word_ended(clues_upto(a, n)));
        if i > 0 {
            assert(can_hint(hint_words(a)[i - 1]));
        }
    }
}

} // verus!
