//! What the dictionaries answer: whose words come first, and what is completed.
use vstd::prelude::*;
use crate::dict::{
    at_most, completions, extends, far_readings, files_loaded, filled_upto, imported, learned,
    looked_up, near_readings, noted, DictText,
};
use crate::index::{countable, lemma_cands_added_has, lemma_completions_have};
use crate::jisyo::{
    cand_other_than, cand_to_front, cands_added, cands_added_upto, entry, has_cand, line_read,
    lines_loaded, nothing_loaded, CandText, Loaded,
};
use crate::learning::lemma_added_after;
use crate::order::{ascending, before, lemma_before, lemma_listed_set, listed};
use crate::text::{lemma_take_next, lines};

verus! {

/// Whether no two candidates are written the same.
pub open spec fn all_different(v: Seq<CandText>) -> bool {
    forall|i: int, j: int|
        0 <= i < j < v.len() ==> (#[trigger] v[i]).text != (#[trigger] v[j]).text
}

proof fn lemma_added_different(v: Seq<CandText>, more: Seq<CandText>, n: int)
    requires
        all_different(v),
        0 <= n <= more.len(),
    ensures
        all_different(cands_added_upto(v, more, n)),
    decreases n,
{
    if n > 0 {
        lemma_added_different(v, more, n - 1);
        let had = cands_added_upto(v, more, n - 1);
        let all = cands_added_upto(v, more, n);
        assert forall|i: int, j: int| 0 <= i < j < all.len() implies (#[trigger] all[i]).text != (
        #[trigger] all[j]).text by {
            if j < had.len() {
                assert(had[i].text != had[j].text);
            } else {
                assert(all[i] == had[i]);
            }
        }
    }
}

/// The candidates of a reading begin with the user's own words, in their order; those of the
/// snippets come next, and the shared ones last. All of them are there, nothing else is, and
/// no word comes twice.
pub proof fn law_own_words_come_before_shared_ones(d: DictText, key: Seq<char>, t: Seq<char>)
    ensures
        ({
            let v = looked_up(d, key);
            let own = entry(d.user.words, key);
            let mine = entry(d.snippets, key);
            let far = entry(d.system.words, key);
            &&& own.is_prefix_of(v)
            &&& cands_added(own, mine).is_prefix_of(v)
            &&& has_cand(v, t) <==> has_cand(own, t) || has_cand(mine, t) || has_cand(far, t)
            &&& all_different(own) ==> all_different(v)
        }),
{
    reveal(looked_up);
    let own = entry(d.user.words, key);
    let mine = entry(d.snippets, key);
    let far = entry(d.system.words, key);
    let first = cands_added(own, mine);
    let v = cands_added(first, far);
    lemma_added_after(own, mine, mine.len() as int);
    lemma_added_after(first, far, far.len() as int);
    assert(own =~= v.subrange(0, own.len() as int)) by {
        assert(own =~= first.subrange(0, own.len() as int));
        assert(first =~= v.subrange(0, first.len() as int));
        assert forall|i: int| 0 <= i < own.len() implies own[i] == v[i] by {
            assert(first.subrange(0, own.len() as int)[i] == first[i]);
            assert(v.subrange(0, first.len() as int)[i] == v[i]);
        }
    }
    lemma_cands_added_has(own, mine, t);
    lemma_cands_added_has(first, far, t);
    if all_different(own) {
        lemma_added_different(own, mine, mine.len() as int);
        lemma_added_different(first, far, far.len() as int);
    }
}

/// Learning a word puts it before the user's other words of that reading, which keep their
/// order; the words of other readings stay as they are.
pub proof fn law_learning_keeps_the_other_words(
    d: DictText,
    key: Seq<char>,
    cand: CandText,
    other: Seq<char>,
)
    requires
        !crate::dict::from_snippet(d, key, cand.text),
    ensures
        ({
            let was = entry(d.user.words, key);
            let now = entry(learned(d, key, cand).user.words, key);
            &&& now.len() > 0
            &&& now[0] == cand
            &&& now.skip(1) == was.filter(|c: CandText| c.text != cand.text)
            &&& other != key ==> entry(learned(d, key, cand).user.words, other) == entry(
                d.user.words,
                other,
            )
            &&& learned(d, key, cand).system == d.system
        }),
{
    reveal(learned);
    reveal(noted);
    let was = entry(d.user.words, key);
    let f = |c: CandText| c.text != cand.text;
    assert(f =~= cand_other_than(cand.text));
    let now = entry(learned(d, key, cand).user.words, key);
    assert(now == cand_to_front(was, cand));
    assert(now.skip(1) =~= was.filter(cand_other_than(cand.text)));
}

proof fn lemma_lines_keep(d: Loaded, v: Seq<Seq<char>>, n: int, key: Seq<char>)
    requires
        0 <= n <= v.len(),
    ensures
        entry(d.words, key).is_prefix_of(entry(lines_loaded(d, v, n).words, key)),
    decreases n,
{
    let was = entry(d.words, key);
    if n > 0 {
        lemma_lines_keep(d, v, n - 1, key);
        let had = lines_loaded(d, v, n - 1);
        let now = lines_loaded(d, v, n);
        let a = entry(had.words, key);
        let b = entry(now.words, key);
        if let Some(l) = line_read(v[n - 1]) {
            if l.key == key {
                lemma_added_after(a, l.cands, l.cands.len() as int);
                assert(b == cands_added(a, l.cands));
            } else {
                assert(b == a);
                assert(a =~= a.subrange(0, a.len() as int));
            }
        } else {
            assert(a =~= a.subrange(0, a.len() as int));
        }
        assert(was =~= b.subrange(0, was.len() as int)) by {
            assert forall|i: int| 0 <= i < was.len() implies was[i] == b[i] by {
                assert(a.subrange(0, was.len() as int)[i] == a[i]);
                assert(b.subrange(0, a.len() as int)[i] == b[i]);
            }
        }
    } else {
        assert(was =~= was.subrange(0, was.len() as int));
    }
}

proof fn lemma_files_keep(d: Loaded, files: Seq<Vec<u8>>, n: int, m: int, key: Seq<char>)
    requires
        0 <= n <= m <= files.len(),
    ensures
        entry(files_loaded(d, files, n).words, key).is_prefix_of(
            entry(files_loaded(d, files, m).words, key),
        ),
    decreases m - n,
{
    let was = entry(files_loaded(d, files, n).words, key);
    if n < m {
        lemma_files_keep(d, files, n, m - 1, key);
        let a = files_loaded(d, files, m - 1);
        let t = lines(crate::dict::jisyo_text(files[m - 1]@));
        lemma_lines_keep(a, t, t.len() as int, key);
        let x = entry(a.words, key);
        let y = entry(files_loaded(d, files, m).words, key);
        assert(was =~= y.subrange(0, was.len() as int)) by {
            assert forall|i: int| 0 <= i < was.len() implies was[i] == y[i] by {
                assert(x.subrange(0, was.len() as int)[i] == x[i]);
                assert(y.subrange(0, x.len() as int)[i] == y[i]);
            }
        }
    } else {
        assert(was =~= was.subrange(0, was.len() as int));
    }
}

/// The words of a shared dictionary come before those of the ones that are named after it.
pub proof fn law_shared_dictionaries_come_in_order(
    files: Seq<Vec<u8>>,
    n: int,
    m: int,
    key: Seq<char>,
)
    requires
        0 <= n <= m <= files.len(),
    ensures
        entry(files_loaded(nothing_loaded(), files, n).words, key).is_prefix_of(
            entry(files_loaded(nothing_loaded(), files, m).words, key),
        ),
{
    lemma_files_keep(nothing_loaded(), files, n, m, key);
}

/// Taking another dictionary into the user's own keeps the words that are there in their
/// places, adds all the others behind them, and nothing else.
pub proof fn law_importing_adds_behind(base: Loaded, other: Loaded, key: Seq<char>, t: Seq<char>)
    ensures
        ({
            let v = entry(imported(base, other).words, key);
            let own = entry(base.words, key);
            &&& own.is_prefix_of(v)
            &&& has_cand(v, t) <==> has_cand(own, t) || has_cand(entry(other.words, key), t)
        }),
{
    let own = entry(base.words, key);
    let more = entry(other.words, key);
    let v = entry(imported(base, other).words, key);
    lemma_cands_added_has(own, more, t);
    lemma_added_after(own, more, more.len() as int);
    let none: Seq<CandText> = seq![];
    assert(own =~= own.subrange(0, own.len() as int));
    if !other.words.dom().contains(key) {
        assert(v == own);
        assert(!has_cand(none, t));
    }
}

proof fn lemma_filled(
    v: Seq<Seq<char>>,
    more: Seq<Seq<char>>,
    limit: nat,
    n: int,
)
    requires
        0 <= n <= more.len(),
        v.no_duplicates(),
        v.len() <= limit,
    ensures
        ({
            let all = filled_upto(v, more, limit, n);
            &&& v.len() <= all.len() <= limit
            &&& all.no_duplicates()
            &&& forall|i: int| 0 <= i < v.len() ==> all[i] == v[i]
            &&& forall|i: int| v.len() <= i < all.len() ==> more.take(n).contains(#[trigger] all[i])
            &&& forall|i: int| v.len() <= i < all.len() ==> !v.contains(#[trigger] all[i])
        }),
    decreases n,
{
    let all = filled_upto(v, more, limit, n);
    if n > 0 {
        lemma_filled(v, more, limit, n - 1);
        lemma_take_next(more, n - 1);
        let had = filled_upto(v, more, limit, n - 1);
        let a = more.take(n - 1);
        assert forall|i: int| v.len() <= i < all.len() implies more.take(n).contains(
            #[trigger] all[i],
        ) && !v.contains(all[i]) by {
            crate::order::lemma_push_contains(a, more[n - 1], all[i]);
            if i < had.len() {
                assert(all[i] == had[i]);
            } else if v.contains(all[i]) {
                let k = choose|k: int| 0 <= k < v.len() && v[k] == all[i];
                assert(had[k] == v[k]);
                assert(had.contains(had[k]));
            }
        }
        assert(all.no_duplicates()) by {
            assert forall|i: int, j: int| 0 <= i < all.len() && 0 <= j < all.len() && i != j implies all[i]
                != all[j] by {
                if i < had.len() && j < had.len() {
                    assert(had[i] != had[j]);
                } else if i < had.len() {
                    assert(had.contains(had[i]));
                } else if j < had.len() {
                    assert(had.contains(had[j]));
                }
            }
        }
    }
}

/// The places of what is added grow with the places it comes from.
proof fn lemma_filled_order(
    v: Seq<Seq<char>>,
    more: Seq<Seq<char>>,
    limit: nat,
    n: int,
    i: int,
    j: int,
)
    requires
        0 <= n <= more.len(),
        v.no_duplicates(),
        v.len() <= limit,
        ascending(true, more),
        v.len() <= i < j < filled_upto(v, more, limit, n).len(),
    ensures
        before(true, filled_upto(v, more, limit, n)[i], filled_upto(v, more, limit, n)[j]),
    decreases n,
{
    lemma_filled(v, more, limit, n);
    let all = filled_upto(v, more, limit, n);
    if n > 0 {
        lemma_filled(v, more, limit, n - 1);
        let had = filled_upto(v, more, limit, n - 1);
        if j < had.len() {
            lemma_filled_order(v, more, limit, n - 1, i, j);
        } else {
            assert(all[j] == more[n - 1]);
            assert(all[i] == had[i]);
            let a = more.take(n - 1);
            assert(a.contains(had[i]));
            let k = choose|k: int| 0 <= k < a.len() && a[k] == had[i];
            assert(more[k] == had[i]);
            assert(before(true, more[k], more[n - 1]));
        }
    }
}

/// What is completed goes on after what was typed, comes once, and is no more than is asked
/// for. The user's own readings come first and then the shared ones; among each, the shorter
/// ones come first.
pub proof fn law_completions_come_in_order(
    d: DictText,
    prefix: Seq<char>,
    limit: nat,
    i: int,
    j: int,
)
    requires
        countable(d),
        prefix.len() > 0,
        0 <= i < j < completions(d, prefix, limit).len(),
    ensures
        ({
            let v = completions(d, prefix, limit);
            let near = near_readings(d, prefix);
            &&& v.len() <= limit
            &&& extends(v[i], prefix) && extends(v[j], prefix)
            &&& v[i] != v[j]
            &&& near.contains(v[j]) ==> near.contains(v[i])
            &&& near.contains(v[i]) == near.contains(v[j]) ==> v[i].len() <= v[j].len()
        }),
{
    reveal(completions);
    let near = near_readings(d, prefix);
    let far = far_readings(d, prefix);
    let mine = d.user.words.dom().union(d.snippets.dom());
    vstd::set_lib::lemma_set_subset_finite(mine, near);
    vstd::set_lib::lemma_set_subset_finite(d.system.words.dom(), far);
    lemma_listed_set(true, near);
    lemma_listed_set(true, far);
    lemma_before(true);
    let nl = listed(true, near);
    let fl = listed(true, far);
    let first = at_most(nl, limit);
    let v = completions(d, prefix, limit);
    assert(first.no_duplicates()) by {
        assert forall|a: int, b: int| 0 <= a < first.len() && 0 <= b < first.len() && a != b implies first[a]
            != first[b] by {
            if a < b {
                assert(before(true, nl[a], nl[b]));
            } else {
                assert(before(true, nl[b], nl[a]));
            }
        }
    }
    lemma_filled(first, fl, limit, fl.len() as int);
    assert(fl.take(fl.len() as int) =~= fl);
    assert forall|k: int| 0 <= k < v.len() implies {
        &&& k < first.len() ==> near.contains(#[trigger] v[k]) && v[k] == nl[k]
        &&& k >= first.len() ==> far.contains(v[k])
    } by {
        if k < first.len() {
            assert(nl.contains(nl[k]));
            assert(nl.to_set().contains(nl[k]));
        } else {
            assert(fl.contains(v[k]));
            assert(fl.to_set().contains(v[k]));
        }
    }
    assert(extends(v[i], prefix) && extends(v[j], prefix)) by {
        assert(near.contains(v[i]) || far.contains(v[i]));
        assert(near.contains(v[j]) || far.contains(v[j]));
    }
    if j < first.len() {
        assert(before(true, nl[i], nl[j]));
    } else {
        if near.contains(v[j]) {
            // A list that was cut off leaves no room for more.
            assert(nl.to_set().contains(v[j]));
            assert(nl.contains(v[j]));
            let k = choose|k: int| 0 <= k < nl.len() && nl[k] == v[j];
            if k < first.len() {
                assert(first[k] == v[j]);
                assert(first.contains(v[j]));
            }
            assert(first.len() == limit);
        }
        if i >= first.len() {
            lemma_filled_order(first, fl, limit, fl.len() as int, i, j);
        }
    }
}

/// Where there are fewer than are asked for, everything that goes on is completed.
pub proof fn law_completions_leave_nothing_out(
    d: DictText,
    prefix: Seq<char>,
    limit: nat,
    k: Seq<char>,
)
    requires
        countable(d),
        prefix.len() > 0,
        completions(d, prefix, limit).len() < limit,
        extends(k, prefix),
        d.user.words.dom().contains(k) || d.snippets.dom().contains(k)
            || d.system.words.dom().contains(k),
    ensures
        completions(d, prefix, limit).contains(k),
{
    lemma_completions_have(d, prefix, limit, k);
}

} // verus!
