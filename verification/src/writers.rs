//! Two processes that write one user's dictionary do not lose what the other has learned.
use vstd::prelude::*;
use crate::dict::{disk_loaded, from_snippet, learned, looked_up, merged_loaded, noted, DictText};
use crate::jisyo::{
    all_changed, cand_other_than, cand_to_front, cands_added, changed, dict_written, entry,
    has_cand, CandText, ChangeText, Loaded,
};
use crate::learning::{
    change_key, law_saving_keeps_what_others_learned, law_saving_keeps_what_was_learned,
    lemma_added_after,
};
use crate::roundtrip::{
    clean_cand, clean_cands, clean_key, law_what_is_saved_is_read_again, writable,
};
use crate::surviving::{
    law_the_first_candidate_reads_back, law_what_was_read_stays_on_its_lines, lemma_learned_stays,
    on_lines,
};

verus! {

/// Whether a file is what was written of a user's dictionary.
pub open spec fn holds(file: &Vec<u8>, d: Loaded) -> bool {
    file@ == vstd::utf8::encode_utf8(dict_written(d))
}

/// Whether the last thing that was learned of a reading in a run is `cand`.
pub open spec fn learned_last(d: DictText, key: Seq<char>, cand: CandText) -> bool {
    exists|at: int|
        0 <= at < d.changes.len() && #[trigger] d.changes[at] == ChangeText::Learn(key, cand)
            && forall|i: int|
            at < i < d.changes.len() ==> change_key(#[trigger] d.changes[i]) != key
}

/// The first of the user's own candidates is the first of all.
proof fn lemma_own_comes_first(d: DictText, key: Seq<char>, cand: CandText)
    requires
        entry(d.user.words, key).len() > 0,
        entry(d.user.words, key)[0] == cand,
    ensures
        looked_up(d, key).len() > 0,
        looked_up(d, key)[0] == cand,
{
    reveal(looked_up);
    let own = entry(d.user.words, key);
    let mine = entry(d.snippets, key);
    let far = entry(d.system.words, key);
    let first = cands_added(own, mine);
    lemma_added_after(own, mine, mine.len() as int);
    lemma_added_after(first, far, far.len() as int);
    assert(first.subrange(0, own.len() as int)[0] == first[0]);
    let all = cands_added(first, far);
    assert(all.subrange(0, first.len() as int)[0] == all[0]);
}

/// Two processes share one user's dictionary. The first one learns a word and saves, then
/// the second one learns another word and saves. Whoever reads the file then has both words,
/// each the first of its reading; also the one of the first process, as long as the second
/// one has done nothing about that reading. What else the file held does not matter.
pub proof fn law_two_writers_keep_each_others_words(
    a: DictText,
    b: DictText,
    disk: Option<&Vec<u8>>,
    import: Option<&Vec<u8>>,
    between: &Vec<u8>,
    after: &Vec<u8>,
    key_a: Seq<char>,
    cand_a: CandText,
    key_b: Seq<char>,
    cand_b: CandText,
    reader: DictText,
)
    requires
        learned_last(a, key_a, cand_a),
        learned_last(b, key_b, cand_b),
        forall|i: int| 0 <= i < b.changes.len() ==> change_key(#[trigger] b.changes[i]) != key_a,
        clean_key(key_a),
        clean_cand(cand_a),
        clean_key(key_b),
        clean_cand(cand_b),
        on_lines(merged_loaded(a, disk, import)),
        holds(between, merged_loaded(a, disk, import)),
        on_lines(merged_loaded(b, Some(between), import)),
        holds(after, merged_loaded(b, Some(between), import)),
        reader.user == disk_loaded(Some(after), import),
    ensures
        looked_up(reader, key_a).len() > 0,
        looked_up(reader, key_a)[0] == cand_a,
        looked_up(reader, key_b).len() > 0,
        looked_up(reader, key_b)[0] == cand_b,
{
    let first = merged_loaded(a, disk, import);
    let second = merged_loaded(b, Some(between), import);
    let i = choose|at: int|
        0 <= at < a.changes.len() && #[trigger] a.changes[at] == ChangeText::Learn(key_a, cand_a)
            && forall|i: int|
            at < i < a.changes.len() ==> change_key(#[trigger] a.changes[i]) != key_a;
    law_saving_keeps_what_was_learned(a, disk, import, i, key_a, cand_a);
    law_the_first_candidate_reads_back(first, between, import, key_a, cand_a);
    law_saving_keeps_what_others_learned(b, Some(between), import, key_a);
    law_the_first_candidate_reads_back(second, after, import, key_a, cand_a);
    let j = choose|at: int|
        0 <= at < b.changes.len() && #[trigger] b.changes[at] == ChangeText::Learn(key_b, cand_b)
            && forall|i: int|
            at < i < b.changes.len() ==> change_key(#[trigger] b.changes[i]) != key_b;
    law_saving_keeps_what_was_learned(b, Some(between), import, j, key_b, cand_b);
    law_the_first_candidate_reads_back(second, after, import, key_b, cand_b);
    lemma_own_comes_first(reader, key_a, cand_a);
    lemma_own_comes_first(reader, key_b, cand_b);
}

proof fn lemma_filter_keeps_text(v: Seq<CandText>, drop: Seq<char>, text: Seq<char>)
    requires
        has_cand(v, text),
        text != drop,
    ensures
        has_cand(v.filter(cand_other_than(drop)), text),
{
    let p = cand_other_than(drop);
    let k = choose|k: int| 0 <= k < v.len() && (#[trigger] v[k]).text == text;
    v.lemma_filter_contains(p, k);
    let f = v.filter(p);
    let m = choose|m: int| 0 <= m < f.len() && f[m] == v[k];
    assert(f[m].text == text);
}

proof fn lemma_word_survives(
    d: Loaded,
    v: Seq<ChangeText>,
    n: int,
    key: Seq<char>,
    text: Seq<char>,
)
    requires
        0 <= n <= v.len(),
        has_cand(entry(d.words, key), text),
        forall|i: int| 0 <= i < n ==> #[trigger] v[i] != ChangeText::Purge(key, text),
    ensures
        has_cand(entry(all_changed(d, v, n).words, key), text),
    decreases n,
{
    if n > 0 {
        lemma_word_survives(d, v, n - 1, key, text);
        let had = all_changed(d, v, n - 1);
        let c = v[n - 1];
        let own = entry(had.words, key);
        match c {
            ChangeText::Learn(k, cand) => {
                if k == key {
                    let now = cand_to_front(own, cand);
                    assert(entry(changed(had, c).words, key) == now);
                    if cand.text == text {
                        assert(now[0].text == text);
                    } else {
                        lemma_filter_keeps_text(own, cand.text, text);
                        let f = own.filter(cand_other_than(cand.text));
                        let m = choose|m: int| 0 <= m < f.len() && (#[trigger] f[m]).text == text;
                        assert(now[m + 1].text == text);
                    }
                }
            },
            ChangeText::Purge(k, t) => {
                if k == key {
                    assert(t != text);
                    lemma_filter_keeps_text(own, t, text);
                }
            },
            ChangeText::LearnOkuri(_, _, _) => {},
        }
    }
}

/// What the first of two processes has learned is still there when the second one has saved,
/// also where that one has learned words of the same reading; only a word that it throws out
/// itself is gone. This is said of dictionaries that a file can hold whole.
pub proof fn law_a_second_writer_loses_no_word(
    a: DictText,
    b: DictText,
    disk: Option<&Vec<u8>>,
    import: Option<&Vec<u8>>,
    between: &Vec<u8>,
    after: &Vec<u8>,
    key: Seq<char>,
    text: Seq<char>,
)
    requires
        has_cand(entry(merged_loaded(a, disk, import).words, key), text),
        forall|i: int|
            0 <= i < b.changes.len() ==> #[trigger] b.changes[i] != ChangeText::Purge(key, text),
        writable(merged_loaded(a, disk, import)),
        holds(between, merged_loaded(a, disk, import)),
        writable(merged_loaded(b, Some(between), import)),
        holds(after, merged_loaded(b, Some(between), import)),
    ensures
        has_cand(entry(disk_loaded(Some(after), import).words, key), text),
{
    let first = merged_loaded(a, disk, import);
    law_what_is_saved_is_read_again(first, between, import);
    law_what_is_saved_is_read_again(merged_loaded(b, Some(between), import), after, import);
    lemma_word_survives(first, b.changes, b.changes.len() as int, key, text);
}

proof fn lemma_front_is_clean(v: Seq<CandText>, c: CandText)
    requires
        clean_cands(v),
        clean_cand(c),
    ensures
        clean_cands(cand_to_front(v, c)),
{
    let p = cand_other_than(c.text);
    let f = v.filter(p);
    let all = cand_to_front(v, c);
    lemma_filter_clean(v, p);
    assert forall|i: int| 0 <= i < all.len() implies clean_cand(#[trigger] all[i]) by {
        if i > 0 {
            assert(all[i] == f[i - 1]);
        }
    }
    assert forall|i: int, j: int| 0 <= i < j < all.len() implies (#[trigger] all[i]).text != (
    #[trigger] all[j]).text by {
        assert(all[j] == f[j - 1]);
        if i > 0 {
            assert(all[i] == f[i - 1]);
        } else {
            v.lemma_filter_pred(p, j - 1);
        }
    }
}

proof fn lemma_filter_clean(v: Seq<CandText>, p: spec_fn(CandText) -> bool)
    requires
        clean_cands(v),
    ensures
        clean_cands(v.filter(p)),
    decreases v.len(),
{
    if v.len() > 0 {
        let w = v.drop_last();
        let c = v.last();
        assert forall|i: int| 0 <= i < w.len() implies clean_cand(#[trigger] w[i]) by {
            assert(w[i] == v[i]);
        }
        assert forall|i: int, j: int| 0 <= i < j < w.len() implies (#[trigger] w[i]).text != (
        #[trigger] w[j]).text by {
            assert(v[i].text != v[j].text);
        }
        lemma_filter_clean(w, p);
        assert(v =~= w.push(c));
        Seq::lemma_filter_push(w, c, p);
        let fw = w.filter(p);
        let f = v.filter(p);
        assert(clean_cand(v[v.len() - 1]));
        assert forall|i: int, j: int| 0 <= i < j < f.len() implies (#[trigger] f[i]).text != (
        #[trigger] f[j]).text by {
            if j < fw.len() {
                assert(fw[i].text != fw[j].text);
            } else {
                assert(fw.contains(fw[i]));
                w.lemma_filter_contains_rev(p, fw[i]);
                let m = choose|m: int| 0 <= m < w.len() && w[m] == fw[i];
                assert(v[m].text != v[v.len() - 1].text);
            }
        }
        assert forall|i: int| 0 <= i < f.len() implies clean_cand(#[trigger] f[i]) by {
            if i < fw.len() {
                assert(clean_cand(fw[i]));
            }
        }
    } else {
        assert(v.filter(p) =~= seq![]);
    }
}

/// A file that can hold a dictionary can hold it with one more word, if a line can hold that
/// word.
pub proof fn law_a_learned_word_can_be_written(d: Loaded, key: Seq<char>, cand: CandText)
    requires
        writable(d),
        clean_key(key),
        clean_cand(cand),
    ensures
        writable(changed(d, ChangeText::Learn(key, cand))),
{
    let own = entry(d.words, key);
    assert(clean_cands(own)) by {
        if d.words.dom().contains(key) {
            assert(clean_cands(d.words[key]));
        }
    }
    lemma_front_is_clean(own, cand);
    let now = changed(d, ChangeText::Learn(key, cand));
    assert(now.words.dom() =~= d.words.dom().insert(key));
}

/// Two processes that have the same user's dictionary learn a word each, and save one after
/// the other. Whoever reads the file then has both words, each the first of its reading,
/// whatever the file held before. Only the words themselves have to be such that a line can
/// hold them.
pub proof fn law_two_learners_keep_each_others_words(
    a: DictText,
    b: DictText,
    disk: Option<&Vec<u8>>,
    import: Option<&Vec<u8>>,
    between: &Vec<u8>,
    after: &Vec<u8>,
    key_a: Seq<char>,
    cand_a: CandText,
    key_b: Seq<char>,
    cand_b: CandText,
    reader: DictText,
)
    requires
        a.changes.len() == 0,
        b.changes.len() == 0,
        !from_snippet(a, key_a, cand_a.text),
        !from_snippet(b, key_b, cand_b.text),
        key_a != key_b,
        clean_key(key_a),
        clean_cand(cand_a),
        clean_key(key_b),
        clean_cand(cand_b),
        holds(between, merged_loaded(learned(a, key_a, cand_a), disk, import)),
        holds(after, merged_loaded(learned(b, key_b, cand_b), Some(between), import)),
        reader.user == disk_loaded(Some(after), import),
    ensures
        looked_up(reader, key_a).len() > 0,
        looked_up(reader, key_a)[0] == cand_a,
        looked_up(reader, key_b).len() > 0,
        looked_up(reader, key_b)[0] == cand_b,
{
    reveal(learned);
    reveal(noted);
    reveal_with_fuel(all_changed, 2);
    let a1 = learned(a, key_a, cand_a);
    let b1 = learned(b, key_b, cand_b);
    assert(a1.changes =~= seq![ChangeText::Learn(key_a, cand_a)]);
    assert(b1.changes =~= seq![ChangeText::Learn(key_b, cand_b)]);
    assert(a1.changes[0] == ChangeText::Learn(key_a, cand_a));
    assert(b1.changes[0] == ChangeText::Learn(key_b, cand_b));
    let base = disk_loaded(disk, import);
    let first = merged_loaded(a1, disk, import);
    assert(first == changed(base, a1.changes[0]));
    law_what_was_read_stays_on_its_lines(disk, import);
    lemma_learned_stays(base, key_a, cand_a);
    let second = merged_loaded(b1, Some(between), import);
    let read = disk_loaded(Some(between), import);
    assert(second == changed(read, b1.changes[0]));
    law_what_was_read_stays_on_its_lines(Some(between), import);
    lemma_learned_stays(read, key_b, cand_b);
    law_two_writers_keep_each_others_words(
        a1,
        b1,
        disk,
        import,
        between,
        after,
        key_a,
        cand_a,
        key_b,
        cand_b,
        reader,
    );
}

/// Where there is no file yet, nothing keeps the first one from being written.
pub proof fn law_a_first_file_can_be_written()
    ensures
        writable(disk_loaded(None, None)),
{
}

} // verus!
