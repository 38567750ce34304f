//! What holds of what the dictionaries learn.
use vstd::prelude::*;
use crate::dict::{
    disk_loaded, file_snippets, from_snippet, learned, looked_up, merged_loaded, noted,
    okuri_learned, okuri_looked_up, snippets_read, DictText, Stamp,
};
use crate::jisyo::{
    all_changed, block_entry, blocks_purged, cand_other_than, cand_to_front, cands_added,
    cands_added_upto, changed, entry, has_cand, okuri_entry, other_than, texts_added,
    texts_added_upto, CandText, ChangeText, Loaded,
};

verus! {

pub proof fn lemma_added_after(v: Seq<CandText>, more: Seq<CandText>, n: int)
    requires
        0 <= n <= more.len(),
    ensures
        v.is_prefix_of(cands_added_upto(v, more, n)),
        forall|i: int|
            0 <= i < n ==> has_cand(cands_added_upto(v, more, n), (#[trigger] more[i]).text),
    decreases n,
{
    if n > 0 {
        lemma_added_after(v, more, n - 1);
        let a = cands_added_upto(v, more, n - 1);
        let b = cands_added_upto(v, more, n);
        assert(v =~= b.subrange(0, v.len() as int)) by {
            assert(v =~= a.subrange(0, v.len() as int));
        }
        assert forall|i: int| 0 <= i < n implies has_cand(b, (#[trigger] more[i]).text) by {
            if i < n - 1 {
                let k = choose|k: int| 0 <= k < a.len() && (#[trigger] a[k]).text == more[i].text;
                assert(b[k] == a[k]);
            } else if !has_cand(a, more[i].text) {
                assert(b[a.len() as int] == more[i]);
            }
        }
    } else {
        assert(v =~= v.subrange(0, v.len() as int));
    }
}

proof fn lemma_prefix_has(a: Seq<CandText>, b: Seq<CandText>, text: Seq<char>)
    requires
        a.is_prefix_of(b),
        has_cand(a, text),
    ensures
        has_cand(b, text),
{
    let k = choose|k: int| 0 <= k < a.len() && (#[trigger] a[k]).text == text;
    assert(a[k] == b.subrange(0, a.len() as int)[k]);
    assert(b[k].text == text);
}

/// The user's own words come first, and nothing that one of the dictionaries holds is
/// hidden by another.
pub proof fn law_every_word_is_found(d: DictText, key: Seq<char>)
    ensures
        entry(d.user.words, key).is_prefix_of(looked_up(d, key)),
        forall|i: int|
            0 <= i < entry(d.snippets, key).len() ==> has_cand(
                looked_up(d, key),
                (#[trigger] entry(d.snippets, key)[i]).text,
            ),
        forall|i: int|
            0 <= i < entry(d.system.words, key).len() ==> has_cand(
                looked_up(d, key),
                (#[trigger] entry(d.system.words, key)[i]).text,
            ),
{
    reveal(looked_up);
    let own = entry(d.user.words, key);
    let snip = entry(d.snippets, key);
    let shared = entry(d.system.words, key);
    let a = cands_added(own, snip);
    let b = cands_added(a, shared);
    lemma_added_after(own, snip, snip.len() as int);
    lemma_added_after(a, shared, shared.len() as int);
    assert(own =~= b.subrange(0, own.len() as int)) by {
        assert(own =~= a.subrange(0, own.len() as int));
        assert(a =~= b.subrange(0, a.len() as int));
    }
    assert forall|i: int| 0 <= i < snip.len() implies has_cand(
        b,
        (#[trigger] snip[i]).text,
    ) by {
        lemma_prefix_has(a, b, snip[i].text);
    }
}

/// What was chosen last comes first the next time.
pub proof fn law_what_was_learned_comes_first(d: DictText, key: Seq<char>, cand: CandText)
    requires
        !from_snippet(d, key, cand.text),
    ensures
        looked_up(learned(d, key, cand), key).len() > 0,
        looked_up(learned(d, key, cand), key)[0] == cand,
{
    reveal(learned);
    reveal(noted);
    let e = learned(d, key, cand);
    let own = entry(e.user.words, key);
    assert(own[0] == cand);
    law_every_word_is_found(e, key);
    let all = looked_up(e, key);
    assert(own[0] == all.subrange(0, own.len() as int)[0]);
}

/// Learning one reading changes no other.
pub proof fn law_learning_changes_one_reading(
    d: DictText,
    key: Seq<char>,
    cand: CandText,
    other: Seq<char>,
)
    requires
        other != key,
    ensures
        looked_up(learned(d, key, cand), other) == looked_up(d, other),
{
    reveal(learned);
    reveal(noted);
    reveal(looked_up);
}

/// What was chosen last with an okurigana comes first with it the next time.
pub proof fn law_what_was_learned_with_okurigana_comes_first(
    d: DictText,
    key: Seq<char>,
    o: Seq<char>,
    text: Seq<char>,
)
    requires
        o.len() > 0,
        text.len() > 0,
        !from_snippet(d, key, text),
    ensures
        ({
            let v = okuri_looked_up(okuri_learned(d, key, o, text), key, o);
            v.len() > 0 && v[0] == text
        }),
{
    reveal(okuri_learned);
    reveal(noted);
    reveal(okuri_looked_up);
    let e = okuri_learned(d, key, o, text);
    let own = block_entry(okuri_entry(e.user.okuri, key), o);
    let shared = block_entry(okuri_entry(e.system.okuri, key), o);
    assert(own[0] == text);
    let none: Seq<Seq<char>> = seq![];
    let a = texts_added(none, own);
    assert(texts_added_upto(none, own, 1) =~= seq![text]) by {
        assert(texts_added_upto(none, own, 0) == none);
    }
    lemma_first_stays_first(none, own, text, own.len() as int);
    lemma_texts_after(a, shared, shared.len() as int);
    let v = texts_added(a, shared);
    assert(v[0] == v.subrange(0, a.len() as int)[0]);
}

proof fn lemma_first_stays_first(
    v: Seq<Seq<char>>,
    more: Seq<Seq<char>>,
    t: Seq<char>,
    n: int,
)
    requires
        v.len() == 0,
        more.len() > 0,
        more[0] == t,
        1 <= n <= more.len(),
    ensures
        texts_added_upto(v, more, n).len() > 0,
        texts_added_upto(v, more, n)[0] == t,
    decreases n,
{
    if n > 1 {
        lemma_first_stays_first(v, more, t, n - 1);
    } else {
        assert(texts_added_upto(v, more, 0) == v);
        assert(!v.contains(t));
    }
}

proof fn lemma_texts_after(v: Seq<Seq<char>>, more: Seq<Seq<char>>, n: int)
    requires
        0 <= n <= more.len(),
    ensures
        v.is_prefix_of(texts_added_upto(v, more, n)),
    decreases n,
{
    if n > 0 {
        lemma_texts_after(v, more, n - 1);
        let a = texts_added_upto(v, more, n - 1);
        let b = texts_added_upto(v, more, n);
        assert(v =~= b.subrange(0, v.len() as int)) by {
            assert(v =~= a.subrange(0, v.len() as int));
        }
    } else {
        assert(v =~= v.subrange(0, v.len() as int));
    }
}

/// Snippets are never learned: they keep their place behind the user's own words.
pub proof fn law_snippets_are_never_learned(
    d: DictText,
    key: Seq<char>,
    o: Seq<char>,
    cand: CandText,
)
    requires
        from_snippet(d, key, cand.text),
    ensures
        learned(d, key, cand) == d,
        okuri_learned(d, key, o, cand.text) == d,
{
    reveal(learned);
    reveal(okuri_learned);
}

proof fn lemma_filtered_out(v: Seq<CandText>, text: Seq<char>)
    ensures
        !has_cand(v.filter(cand_other_than(text)), text),
    decreases v.len(),
{
    let p = cand_other_than(text);
    if v.len() > 0 {
        let w = v.drop_last();
        lemma_filtered_out(w, text);
        assert(v =~= w.push(v.last()));
        Seq::lemma_filter_push(w, v.last(), p);
        let f = v.filter(p);
        if has_cand(f, text) {
            let k = choose|k: int| 0 <= k < f.len() && (#[trigger] f[k]).text == text;
            if k < w.filter(p).len() {
                assert(w.filter(p)[k].text == text);
            }
        }
    } else {
        assert(v.filter(p) =~= seq![]);
    }
}

proof fn lemma_text_filtered_out(v: Seq<Seq<char>>, text: Seq<char>)
    ensures
        !v.filter(other_than(text)).contains(text),
    decreases v.len(),
{
    let p = other_than(text);
    if v.len() > 0 {
        let w = v.drop_last();
        lemma_text_filtered_out(w, text);
        assert(v =~= w.push(v.last()));
        Seq::lemma_filter_push(w, v.last(), p);
        let f = v.filter(p);
        if f.contains(text) {
            let k = choose|k: int| 0 <= k < f.len() && f[k] == text;
            if k < w.filter(p).len() {
                assert(w.filter(p)[k] == text);
            }
        }
    } else {
        assert(v.filter(p) =~= seq![]);
    }
}

/// A word that was thrown out is not among the user's words any more, with or without
/// okurigana. The shared dictionaries and the snippets stay as they are.
pub proof fn law_a_purged_word_is_gone(d: DictText, key: Seq<char>, text: Seq<char>, o: Seq<char>)
    ensures
        ({
            let e = noted(d, ChangeText::Purge(key, text));
            &&& !has_cand(entry(e.user.words, key), text)
            &&& !block_entry(okuri_entry(e.user.okuri, key), o).contains(text)
            &&& e.system == d.system
            &&& e.snippets == d.snippets
        }),
{
    reveal(noted);
    let e = noted(d, ChangeText::Purge(key, text));
    lemma_filtered_out(entry(d.user.words, key), text);
    let b = okuri_entry(d.user.okuri, key);
    let c = blocks_purged(b, text);
    if b.dom().contains(o) {
        lemma_text_filtered_out(b[o], text);
    }
    if c.dom().is_empty() {
        assert(!e.user.okuri.dom().contains(key));
    }
}

/// Whether a change is one of a reading.
pub open spec fn change_key(c: ChangeText) -> Seq<char> {
    match c {
        ChangeText::Learn(key, _) => key,
        ChangeText::LearnOkuri(key, _, _) => key,
        ChangeText::Purge(key, _) => key,
    }
}

proof fn lemma_other_keys_stay(d: Loaded, v: Seq<ChangeText>, n: int, key: Seq<char>)
    requires
        0 <= n <= v.len(),
        forall|i: int| 0 <= i < n ==> change_key(#[trigger] v[i]) != key,
    ensures
        entry(all_changed(d, v, n).words, key) == entry(d.words, key),
        okuri_entry(all_changed(d, v, n).okuri, key) == okuri_entry(d.okuri, key),
    decreases n,
{
    if n > 0 {
        lemma_other_keys_stay(d, v, n - 1, key);
    }
}

/// What another process has written in the meantime is not lost by saving: where this run
/// has changed nothing, what is on disk stays.
pub proof fn law_saving_keeps_what_others_learned(
    d: DictText,
    disk: Option<&Vec<u8>>,
    import: Option<&Vec<u8>>,
    key: Seq<char>,
)
    requires
        forall|i: int| 0 <= i < d.changes.len() ==> change_key(#[trigger] d.changes[i]) != key,
    ensures
        entry(merged_loaded(d, disk, import).words, key) == entry(
            disk_loaded(disk, import).words,
            key,
        ),
        okuri_entry(merged_loaded(d, disk, import).okuri, key) == okuri_entry(
            disk_loaded(disk, import).okuri,
            key,
        ),
{
    lemma_other_keys_stay(disk_loaded(disk, import), d.changes, d.changes.len() as int, key);
}

proof fn lemma_later_changes(d: Loaded, v: Seq<ChangeText>, at: int, n: int, key: Seq<char>)
    requires
        0 <= at < n <= v.len(),
        change_key(v[at]) == key,
        forall|i: int| at < i < n ==> change_key(#[trigger] v[i]) != key,
    ensures
        entry(all_changed(d, v, n).words, key) == entry(all_changed(d, v, at + 1).words, key),
        okuri_entry(all_changed(d, v, n).okuri, key) == okuri_entry(
            all_changed(d, v, at + 1).okuri,
            key,
        ),
    decreases n,
{
    if n > at + 1 {
        lemma_later_changes(d, v, at, n - 1, key);
    }
}

/// What this run has learned last of a reading comes first in what is saved, whatever is on
/// disk.
pub proof fn law_saving_keeps_what_was_learned(
    d: DictText,
    disk: Option<&Vec<u8>>,
    import: Option<&Vec<u8>>,
    at: int,
    key: Seq<char>,
    cand: CandText,
)
    requires
        0 <= at < d.changes.len(),
        d.changes[at] == ChangeText::Learn(key, cand),
        forall|i: int| at < i < d.changes.len() ==> change_key(#[trigger] d.changes[i]) != key,
    ensures
        ({
            let v = entry(merged_loaded(d, disk, import).words, key);
            v.len() > 0 && v[0] == cand
        }),
{
    let base = disk_loaded(disk, import);
    lemma_later_changes(base, d.changes, at, d.changes.len() as int, key);
    let before = all_changed(base, d.changes, at);
    assert(all_changed(base, d.changes, at + 1) == changed(before, d.changes[at]));
    assert(cand_to_front(entry(before.words, key), cand)[0] == cand);
}

/// What this run has thrown out stays out of what is saved, though it is still on disk.
pub proof fn law_saving_keeps_what_was_purged(
    d: DictText,
    disk: Option<&Vec<u8>>,
    import: Option<&Vec<u8>>,
    at: int,
    key: Seq<char>,
    text: Seq<char>,
)
    requires
        0 <= at < d.changes.len(),
        d.changes[at] == ChangeText::Purge(key, text),
        forall|i: int| at < i < d.changes.len() ==> change_key(#[trigger] d.changes[i]) != key,
    ensures
        !has_cand(entry(merged_loaded(d, disk, import).words, key), text),
{
    let base = disk_loaded(disk, import);
    lemma_later_changes(base, d.changes, at, d.changes.len() as int, key);
    let before = all_changed(base, d.changes, at);
    assert(all_changed(base, d.changes, at + 1) == changed(before, d.changes[at]));
    lemma_filtered_out(entry(before.words, key), text);
}

/// A file of snippets that is broken when it is read again loses nothing of what was read
/// of it before.
pub proof fn law_a_broken_file_keeps_its_snippets(
    d: DictText,
    files: Seq<Option<Vec<u8>>>,
    stamps: Seq<Option<Stamp>>,
    i: int,
)
    requires
        0 <= i < files.len(),
        i < d.snippet_lists.len(),
        files[i] is Some,
        file_snippets(files[i]->0@) is None,
    ensures
        snippets_read(d, files, d.snippet_lists, stamps).snippet_lists[i] == d.snippet_lists[i],
{
}

} // verus!
