//! What is read out of a dictionary file.
use vstd::prelude::*;
use crate::dict::{
    added_count, added_upto, broken_files, decoded, file_snippets, imported, jisyo_text,
    okuri_looked_up, Charset, DictText,
};
use crate::index::{lemma_cands_added_has, lemma_texts_added_has};
use crate::jisyo::{
    block_entry, cand_read, cands_added_upto, entry, has_cand, line_loaded, line_read, okuri_ari,
    okuri_entry, texts_added, texts_added_upto, CandText, Loaded,
};
use crate::order::{lemma_listed_set, listed};
use crate::text::{lemma_is_first_at, letter};

verus! {

/// A piece of a line is a candidate unless it holds nothing but half-width blanks and tabs.
pub proof fn law_only_blanks_are_no_candidate(s: Seq<char>)
    ensures
        cand_read(s) is None <==> forall|i: int|
            0 <= i < s.len() ==> #[trigger] s[i] == ' ' || s[i] == '\t',
{
}

/// What follows the first semicolon of a candidate is its annotation; a semicolon at its
/// start, and a candidate without any, have none.
pub proof fn law_an_annotation_follows_a_semicolon(t: Seq<char>, a: Seq<char>)
    requires
        t.len() > 0,
        !t.contains(';'),
    ensures
        cand_read(t + seq![';'] + a) == Some(CandText { text: t, annotation: Some(a) }),
        cand_read(seq![';'] + a) == Some(CandText { text: seq![';'] + a, annotation: None }),
        cand_read(t) is Some ==> cand_read(t) == Some(CandText { text: t, annotation: None }),
{
    let s = t + seq![';'] + a;
    let n = t.len() as int;
    assert forall|j: int| 0 <= j < n implies s[j] != ';' by {
        assert(s[j] == t[j]);
        assert(t.contains(t[j]));
    }
    assert(s[n] == ';');
    lemma_is_first_at(s, ';', n);
    assert(s.take(n) =~= t);
    assert(s.skip(n + 1) =~= a);
    let u = seq![';'] + a;
    assert(u[0] == ';');
    lemma_is_first_at(u, ';', 0);
    crate::text::lemma_first_of_none(t, ';');
}

/// A line that begins with a semicolon, one without a blank and an empty one say nothing.
pub proof fn law_comments_say_nothing(d: Loaded, line: Seq<char>)
    requires
        line.len() == 0 || line[0] == ';' || !line.contains(' '),
    ensures
        line_loaded(d, line) == d,
{
    if !line.contains(' ') {
        crate::text::lemma_first_of_none(line, ' ');
    }
}

/// What a file has for a reading is read up to the first blank of the line.
pub proof fn law_a_reading_ends_with_a_blank(key: Seq<char>, rest: Seq<char>)
    requires
        key.len() > 0,
        key[0] != ';',
        !key.contains(' '),
        line_read(key + seq![' '] + rest) is Some,
    ensures
        (line_read(key + seq![' '] + rest)->0).key == key,
        (line_read(key + seq![' '] + rest)->0).cands.len() > 0,
{
    let s = key + seq![' '] + rest;
    let n = key.len() as int;
    assert forall|j: int| 0 <= j < n implies s[j] != ' ' by {
        assert(s[j] == key[j]);
        assert(key.contains(key[j]));
    }
    assert(s[n] == ' ');
    lemma_is_first_at(s, ' ', n);
    assert(s.take(n) =~= key);
}

/// A byte order mark is believed and is no part of the text. Without one a file is UTF-8 if it
/// can be.
pub proof fn law_byte_order_marks_are_believed(t: Seq<char>, b: Seq<u8>)
    ensures
        jisyo_text(seq![0xefu8, 0xbbu8, 0xbfu8] + vstd::utf8::encode_utf8(t)) == t,
        jisyo_text(seq![0xffu8, 0xfeu8] + b) == decoded(Charset::Utf16Le, b),
        jisyo_text(seq![0xfeu8, 0xffu8] + b) == decoded(Charset::Utf16Be, b),
        !vstd::utf8::valid_utf8(b) && b.len() > 0 && b[0] < 0xef ==> jisyo_text(b) == decoded(
            Charset::EucJp,
            b,
        ),
        b.len() > 0 && b[0] < 0xef && vstd::utf8::valid_utf8(b) ==> jisyo_text(b)
            == vstd::utf8::decode_utf8(b),
{
    let e = vstd::utf8::encode_utf8(t);
    vstd::utf8::encode_utf8_valid_utf8(t);
    vstd::utf8::encode_utf8_decode_utf8(t);
    let m = seq![0xefu8, 0xbbu8, 0xbfu8];
    assert((m + e).skip(3) =~= e);
    let le = seq![0xffu8, 0xfeu8];
    assert((le + b).skip(2) =~= b);
    let be = seq![0xfeu8, 0xffu8];
    assert((be + b).skip(2) =~= b);
}

proof fn lemma_texts_behind(v: Seq<Seq<char>>, more: Seq<Seq<char>>, n: int)
    ensures
        v.is_prefix_of(texts_added_upto(v, more, n)),
        texts_added_upto(v, more, n).len() >= v.len(),
    decreases n,
{
    let r = texts_added_upto(v, more, n);
    if n > 0 {
        lemma_texts_behind(v, more, n - 1);
        let had = texts_added_upto(v, more, n - 1);
        assert(v =~= had.subrange(0, v.len() as int));
        assert(v =~= r.subrange(0, v.len() as int)) by {
            assert forall|i: int| 0 <= i < v.len() implies v[i] == r[i] by {
                assert(v[i] == had.subrange(0, v.len() as int)[i]);
            }
        }
    } else {
        assert(v =~= r.subrange(0, v.len() as int));
    }
}

/// The texts that belong to an okurigana are the user's own, and then the shared ones; there
/// are no others.
pub proof fn law_own_okurigana_come_first(
    d: DictText,
    key: Seq<char>,
    o: Seq<char>,
    t: Seq<char>,
)
    ensures
        ({
            let own = block_entry(okuri_entry(d.user.okuri, key), o);
            let shared = block_entry(okuri_entry(d.system.okuri, key), o);
            let v = okuri_looked_up(d, key, o);
            &&& v.contains(t) <==> own.contains(t) || shared.contains(t)
            &&& texts_added(seq![], own).is_prefix_of(v)
        }),
{
    reveal(okuri_looked_up);
    let none: Seq<Seq<char>> = seq![];
    let own = block_entry(okuri_entry(d.user.okuri, key), o);
    let shared = block_entry(okuri_entry(d.system.okuri, key), o);
    let a = texts_added(none, own);
    lemma_texts_added_has(none, own, own.len() as int, t);
    lemma_texts_added_has(a, shared, shared.len() as int, t);
    assert(own.take(own.len() as int) =~= own);
    assert(shared.take(shared.len() as int) =~= shared);
    lemma_texts_behind(a, shared, shared.len() as int);
}

proof fn lemma_nothing_new(v: Seq<CandText>, more: Seq<CandText>, n: int)
    requires
        0 <= n <= more.len(),
        forall|i: int| 0 <= i < n ==> has_cand(v, (#[trigger] more[i]).text),
    ensures
        cands_added_upto(v, more, n) == v,
    decreases n,
{
    if n > 0 {
        lemma_nothing_new(v, more, n - 1);
        assert(has_cand(v, more[n - 1].text));
    }
}

proof fn lemma_adds_nothing(base: Loaded, other: Loaded, keys: Seq<Seq<char>>, n: int)
    requires
        0 <= n <= keys.len(),
        forall|i: int| 0 <= i < n ==> other.words.dom().contains(#[trigger] keys[i]),
    ensures
        added_upto(imported(base, other).words, other.words, keys, n) == 0,
    decreases n,
{
    if n > 0 {
        lemma_adds_nothing(base, other, keys, n - 1);
        let k = keys[n - 1];
        let now = imported(base, other).words;
        let more = other.words[k];
        assert(other.words.dom().contains(k));
        assert(now.dom().contains(k));
        assert forall|i: int| 0 <= i < more.len() implies has_cand(
            entry(now, k),
            (#[trigger] more[i]).text,
        ) by {
            lemma_cands_added_has(entry(base.words, k), more, more[i].text);
        }
        lemma_nothing_new(entry(now, k), more, more.len() as int);
    }
}

/// A dictionary that was taken over once adds nothing when it is taken over again.
pub proof fn law_importing_again_adds_nothing(base: Loaded, other: Loaded)
    requires
        other.words.dom().finite(),
    ensures
        added_count(imported(base, other).words, other.words) == 0,
{
    let keys = listed(false, other.words.dom());
    lemma_listed_set(false, other.words.dom());
    assert forall|i: int| 0 <= i < keys.len() implies other.words.dom().contains(
        #[trigger] keys[i],
    ) by {
        assert(keys.to_set().contains(keys[i]));
    }
    lemma_adds_nothing(base, other, keys, keys.len() as int);
}

/// A file of snippets is broken where it is there and cannot be read; the broken ones are
/// told in the order of the files.
pub proof fn law_broken_files_are_told(files: Seq<Option<Vec<u8>>>, n: int, i: int, k: int)
    requires
        0 <= n <= files.len(),
    ensures
        broken_files(files, n).contains(i) <==> 0 <= i < n && files[i] is Some && file_snippets(
            files[i]->0@,
        ) is None,
        0 <= k < broken_files(files, n).len() ==> 0 <= broken_files(files, n)[k] < n,
        0 < k < broken_files(files, n).len() ==> broken_files(files, n)[k - 1] < broken_files(
            files,
            n,
        )[k],
    decreases n,
{
    if n > 0 {
        let had = broken_files(files, n - 1);
        law_broken_files_are_told(files, n - 1, i, k);
        law_broken_files_are_told(files, n - 1, i, k - 1);
        law_broken_files_are_told(files, n - 1, n - 1, k);
        crate::order::lemma_push_contains(had, n - 1, i);
    }
}

/// A reading with okurigana ends in the letter that the okurigana begins with.
pub proof fn law_okurigana_end_in_a_letter(reading: Seq<char>, h: char)
    ensures
        okuri_ari(reading + seq![h]) <==> letter(h),
        okuri_ari(reading.push(h)) <==> letter(h),
{
    assert((reading + seq![h]).last() == h);
}

} // verus!
