//! Romaji to kana.
//!
//! The table holds a kana for each spelling. The small tsu of a doubled consonant and
//! the syllabic n before a consonant follow from rules, so the table need not list them.
use vstd::prelude::*;
use vstd::string::*;
use crate::text::{
    char_text, chars_of, is_letter, joined, lemma_take_next, letter, lower, shift_down, shift_up,
    shifted, slice_text, starts_with, to_lower,
};
use crate::spelling::{
    azik_ann_alt, azik_ann_alt_rows, azik_consonant_alt, azik_consonant_alt_rows, azik_direct,
    azik_direct_rows, azik_extra, azik_extra_rows, azik_same_finger, azik_same_finger_rows,
    azik_small, azik_small_rows, azik_vowels, azik_vowels_rows, azik_words, azik_words_rows,
    azik_youon, azik_youon_rows, hankaku, hankaku_rows, standard_list, standard_list_rows,
};

verus! {

/// The five vowels.
pub const VOWELS: [char; 5] = ['a', 'i', 'u', 'e', 'o'];

/// A table of spellings: each row is a spelling and its kana.
pub type Rows = Seq<(Seq<char>, Seq<char>)>;

/// The rows held by a vector of strings.
pub open spec fn rows_of(v: Seq<(String, String)>) -> Rows {
    v.map_values(|p: (String, String)| (p.0@, p.1@))
}

/// The rows of a list of literals.
pub open spec fn literal_rows(v: Seq<(&'static str, &'static str)>) -> Rows {
    v.map_values(|p: (&'static str, &'static str)| (p.0@, p.1@))
}

/// The standard table.
pub open spec fn standard() -> Rows {
    literal_rows(standard_list())
}

/// The kana of the first row from `i` on that is spelled `key`.
pub open spec fn kana_from(rows: Rows, key: Seq<char>, i: int) -> Option<Seq<char>>
    decreases rows.len() - i,
{
    if i < 0 || i >= rows.len() {
        None
    } else if rows[i].0 == key {
        Some(rows[i].1)
    } else {
        kana_from(rows, key, i + 1)
    }
}

/// The kana spelled `key`, if a row spells it. The first row wins.
pub open spec fn kana_of(rows: Rows, key: Seq<char>) -> Option<Seq<char>> {
    kana_from(rows, key, 0)
}

/// Whether some row goes on after `key`, so that it must not be settled yet.
pub open spec fn goes_on(rows: Rows, key: Seq<char>) -> bool {
    exists|i: int|
        0 <= i < rows.len() && key.len() < (#[trigger] rows[i]).0.len() && key.is_prefix_of(
            rows[i].0,
        )
}

/// The letters that are no vowel.
pub open spec fn consonant(c: char) -> bool {
    letter(c) && !VOWELS@.contains(lower(c))
}

/// What settles of the typed letters `buf`: the text that comes out and the letters that wait.
pub open spec fn settled(rows: Rows, buf: Seq<char>) -> (Seq<char>, Seq<char>)
    decreases buf.len(),
{
    if buf.len() == 0 {
        (seq![], seq![])
    } else if kana_of(rows, buf) is Some {
        (kana_of(rows, buf)->0, seq![])
    } else if goes_on(rows, buf) {
        (seq![], buf)
    } else if buf.len() == 1 {
        (buf, seq![])
    } else {
        let head = if buf[1] == buf[0] && consonant(buf[0]) && buf[0] != 'n' {
            'っ'
        } else if buf[0] == 'n' {
            'ん'
        } else {
            buf[0]
        };
        let later = settled(rows, buf.skip(1));
        (seq![head] + later.0, later.1)
    }
}

/// What comes out of typing `s` from scratch, and the letters that wait at the end.
pub open spec fn spelled(rows: Rows, s: Seq<char>) -> (Seq<char>, Seq<char>)
    decreases s.len(),
{
    if s.len() == 0 {
        (seq![], seq![])
    } else {
        let before = spelled(rows, s.drop_last());
        let now = settled(rows, before.1.push(s.last()));
        (before.0 + now.0, now.1)
    }
}

/// The letters that wait are always the beginning of a spelling, and never a whole one.
pub proof fn law_what_waits_goes_on(rows: Rows, buf: Seq<char>)
    ensures
        settled(rows, buf).1.len() > 0 ==> goes_on(rows, settled(rows, buf).1) && kana_of(
            rows,
            settled(rows, buf).1,
        ) is None,
    decreases buf.len(),
{
    if buf.len() > 1 && kana_of(rows, buf) is None && !goes_on(rows, buf) {
        law_what_waits_goes_on(rows, buf.skip(1));
    }
}

/// Taking the last letter back leaves the beginning of a spelling.
pub proof fn law_taking_back_still_goes_on(rows: Rows, buf: Seq<char>)
    requires
        buf.len() > 0,
        goes_on(rows, buf),
    ensures
        goes_on(rows, buf.drop_last()),
{
    let i = choose|i: int|
        0 <= i < rows.len() && buf.len() < (#[trigger] rows[i]).0.len() && buf.is_prefix_of(
            rows[i].0,
        );
    let row = rows[i].0;
    assert(buf.drop_last() =~= row.subrange(0, buf.len() - 1)) by {
        assert(buf =~= row.subrange(0, buf.len() as int));
    }
    assert(buf.drop_last().is_prefix_of(rows[i].0));
}

/// The kana of a spelling that the standard table turns into kana without a rest.
pub open spec fn standard_kana(roman: Seq<char>) -> Option<Seq<char>> {
    let r = spelled(standard(), roman);
    if r.1.len() == 0 && (forall|i: int| 0 <= i < r.0.len() ==> !letter(#[trigger] r.0[i])) {
        Some(r.0)
    } else {
        None
    }
}

/// What stands before the trailing vowels of a spelling.
pub open spec fn trimmed(k: Seq<char>) -> Seq<char>
    decreases k.len(),
{
    if k.len() > 0 && VOWELS@.contains(k.last()) {
        trimmed(k.drop_last())
    } else {
        k
    }
}

/// The consonants that stand before a vowel in the first `n` rows, each once.
pub open spec fn consonants_upto(rows: Rows, n: int) -> Seq<Seq<char>>
    decreases n,
{
    if n <= 0 {
        seq![]
    } else {
        let before = consonants_upto(rows, n - 1);
        let k = rows[n - 1].0;
        let head = trimmed(k);
        if head.len() > 0 && head.len() < k.len() && !before.contains(head) {
            before.push(head)
        } else {
            before
        }
    }
}

/// The spellings `key` + vowel for the syllables `roman` + vowel.
pub open spec fn with_vowels(key: Seq<char>, roman: Seq<char>) -> Rows {
    VOWELS@.map_values(|v: char| (key.push(v), roman.push(v)))
}

/// The spellings `key` + extension key for the syllables `roman` + what the key stands for.
pub open spec fn with_extensions(key: Seq<char>, roman: Seq<char>) -> Rows {
    azik_vowels().map_values(|e: (char, &'static str)| (key.push(e.0), roman + e.1@))
}

/// Every AZIK spelling with the standard spelling it stands for, in order of precedence.
pub open spec fn azik_spellings() -> Rows {
    azik_consonant_alt().flat_map(
        |a: (char, &'static str)| with_vowels(seq![a.0], a.1@) + with_extensions(seq![a.0], a.1@),
    ) + literal_rows(azik_small()) + consonants_upto(standard(), standard().len() as int).flat_map(
        |c: Seq<char>| with_extensions(c, c),
    ) + azik_youon().flat_map(
        |c: char| with_vowels(seq![c, 'g'], seq![c, 'y']) + with_extensions(seq![c, 'g'], seq![c, 'y']),
    ) + azik_ann_alt().map_values(|c: char| (seq![c, 'n'], seq![c] + "ann"@)) + literal_rows(
        azik_same_finger(),
    ) + literal_rows(azik_words()) + literal_rows(azik_extra())
}

/// `rows` with the spelling `p.0` added for the standard spelling `p.1`, unless it is taken
/// already or does not become kana.
pub open spec fn row_added(rows: Rows, p: (Seq<char>, Seq<char>)) -> Rows {
    if standard_kana(p.1) is Some && kana_of(rows, p.0) is None {
        rows.push((p.0, standard_kana(p.1)->0))
    } else {
        rows
    }
}

/// `rows` with the first `n` of `pairs` added.
pub open spec fn rows_added(rows: Rows, pairs: Rows, n: int) -> Rows
    decreases n,
{
    if n <= 0 {
        rows
    } else {
        row_added(rows_added(rows, pairs, n - 1), pairs[n - 1])
    }
}

/// The AZIK table.
pub open spec fn azik() -> Rows {
    let pairs = azik_spellings();
    rows_added(literal_rows(azik_direct()), pairs, pairs.len() as int)
}

/// The table in force: AZIK spellings come before the standard ones.
pub open spec fn table(azik_on: bool) -> Rows {
    if azik_on {
        azik() + standard()
    } else {
        standard()
    }
}

pub proof fn lemma_kana_from_found(rows: Rows, key: Seq<char>, from: int, i: int)
    requires
        0 <= from <= i < rows.len(),
        rows[i].0 == key,
        forall|j: int| from <= j < i ==> (#[trigger] rows[j]).0 != key,
    ensures
        kana_from(rows, key, from) == Some(rows[i].1),
    decreases i - from,
{
    if from < i {
        lemma_kana_from_found(rows, key, from + 1, i);
    }
}

pub proof fn lemma_kana_from_none(rows: Rows, key: Seq<char>, from: int)
    requires
        0 <= from <= rows.len(),
        forall|j: int| from <= j < rows.len() ==> (#[trigger] rows[j]).0 != key,
    ensures
        kana_from(rows, key, from) is None,
    decreases rows.len() - from,
{
    if from < rows.len() {
        lemma_kana_from_none(rows, key, from + 1);
    }
}

/// Asking one table after another is asking their concatenation.
pub proof fn lemma_kana_concat(a: Rows, b: Rows, key: Seq<char>, from: int)
    requires
        0 <= from <= a.len(),
    ensures
        kana_from(a + b, key, from) == if kana_from(a, key, from) is Some {
            kana_from(a, key, from)
        } else {
            kana_of(b, key)
        },
    decreases a.len() - from,
{
    if from < a.len() {
        assert((a + b)[from] == a[from]);
        lemma_kana_concat(a, b, key, from + 1);
    } else {
        lemma_kana_shift(a, b, key, 0);
    }
}

proof fn lemma_kana_shift(a: Rows, b: Rows, key: Seq<char>, i: int)
    requires
        0 <= i <= b.len(),
    ensures
        kana_from(a + b, key, a.len() + i) == kana_from(b, key, i),
    decreases b.len() - i,
{
    if i < b.len() {
        assert((a + b)[a.len() + i] == b[i]);
        lemma_kana_shift(a, b, key, i + 1);
    }
}

proof fn lemma_goes_on_concat(a: Rows, b: Rows, key: Seq<char>)
    ensures
        goes_on(a + b, key) == (goes_on(a, key) || goes_on(b, key)),
{
    let c = a + b;
    if goes_on(a, key) {
        let i = choose|i: int|
            0 <= i < a.len() && key.len() < (#[trigger] a[i]).0.len() && key.is_prefix_of(a[i].0);
        assert(c[i] == a[i]);
    }
    if goes_on(b, key) {
        let i = choose|i: int|
            0 <= i < b.len() && key.len() < (#[trigger] b[i]).0.len() && key.is_prefix_of(b[i].0);
        assert(c[a.len() + i] == b[i]);
    }
    if goes_on(c, key) {
        let i = choose|i: int|
            0 <= i < c.len() && key.len() < (#[trigger] c[i]).0.len() && key.is_prefix_of(c[i].0);
        if i < a.len() {
            assert(a[i] == c[i]);
        } else {
            assert(b[i - a.len()] == c[i]);
        }
    }
}

/// The kana that the standard table gives for a spelling.
fn lookup(key: &str) -> (r: Option<&'static str>)
    ensures
        match r {
            Some(k) => kana_of(standard(), key@) == Some(k@),
            None => kana_of(standard(), key@) is None,
        },
{
    let list = standard_list_rows();
    let mut i: usize = 0;
    while i < list.len()
        invariant
            list@ == standard_list(),
            i <= list@.len(),
            standard() == literal_rows(standard_list()),
            forall|j: int| 0 <= j < i ==> (#[trigger] standard()[j]).0 != key@,
        decreases list.len() - i,
    {
        let row = list[i];
        assert(standard()[i as int] == (row.0@, row.1@));
        if *row.0 == *key {
            proof {
                lemma_kana_from_found(standard(), key@, 0, i as int);
            }
            return Some(row.1);
        }
        i = i + 1;
    }
    proof {
        lemma_kana_from_none(standard(), key@, 0);
    }
    None
}

/// Whether a standard spelling goes on after `key`.
fn has_prefix(key: &str) -> (r: bool)
    ensures
        r == goes_on(standard(), key@),
{
    let list = standard_list_rows();
    let mut i: usize = 0;
    while i < list.len()
        invariant
            list@ == standard_list(),
            i <= list@.len(),
            standard() == literal_rows(standard_list()),
            forall|j: int|
                0 <= j < i ==> !(key@.len() < (#[trigger] standard()[j]).0.len()
                    && key@.is_prefix_of(standard()[j].0)),
        decreases list.len() - i,
    {
        let row = list[i];
        assert(standard()[i as int] == (row.0@, row.1@));
        if proper_prefix(key, row.0) {
            return true;
        }
        i = i + 1;
    }
    false
}

/// Whether `text` goes on after `key`.
fn proper_prefix(key: &str, text: &str) -> (r: bool)
    ensures
        r == (key@.len() < text@.len() && key@.is_prefix_of(text@)),
{
    key.unicode_len() < text.unicode_len() && starts_with(text, key)
}

/// Whether `c` is one of the five vowels.
fn is_vowel(c: char) -> (r: bool)
    ensures
        r == VOWELS@.contains(c),
{
    let mut i: usize = 0;
    while i < 5
        invariant
            i <= 5,
            forall|j: int| 0 <= j < i ==> VOWELS@[j] != c,
        decreases 5 - i,
    {
        if VOWELS[i] == c {
            assert(VOWELS@[i as int] == c);
            return true;
        }
        i = i + 1;
    }
    false
}

fn is_consonant(c: char) -> (r: bool)
    ensures
        r == consonant(c),
{
    is_letter(c) && !is_vowel(to_lower(c))
}

/// The AZIK table, put together from the standard one.
fn azik_table() -> (r: Vec<(String, String)>)
    ensures
        rows_of(r@) == azik(),
{
    build_azik()
}

/// Adds `key` + vowel for `roman` + vowel to `out`.
fn push_vowels(out: &mut Vec<(String, String)>, key: &str, roman: &str)
    ensures
        rows_of(final(out)@) == rows_of(old(out)@) + with_vowels(key@, roman@),
{
    let ghost before = rows_of(out@);
    let mut i: usize = 0;
    assert(rows_of(out@) =~= before + with_vowels(key@, roman@).take(0));
    while i < 5
        invariant
            i <= 5,
            with_vowels(key@, roman@).len() == 5,
            rows_of(out@) == before + with_vowels(key@, roman@).take(i as int),
        decreases 5 - i,
    {
        let mut k: String = key.to_owned();
        let mut r: String = roman.to_owned();
        k.push(VOWELS[i]);
        r.push(VOWELS[i]);
        let ghost rows = rows_of(out@);
        let ghost row = (k@, r@);
        out.push((k, r));
        i = i + 1;
        proof {
            lemma_take_next(with_vowels(key@, roman@), i - 1);
            assert(rows_of(out@) =~= rows.push(row));
            assert(rows_of(out@) =~= before + with_vowels(key@, roman@).take(i as int));
        }
    }
    assert(with_vowels(key@, roman@).take(5) =~= with_vowels(key@, roman@));
}

/// Adds `key` + extension key for `roman` + what the key stands for to `out`.
fn push_extensions(out: &mut Vec<(String, String)>, key: &str, roman: &str)
    ensures
        rows_of(final(out)@) == rows_of(old(out)@) + with_extensions(key@, roman@),
{
    let ghost before = rows_of(out@);
    let ghost ext = with_extensions(key@, roman@);
    let list = azik_vowels_rows();
    let mut i: usize = 0;
    assert(rows_of(out@) =~= before + ext.take(0));
    while i < list.len()
        invariant
            list@ == azik_vowels(),
            i <= list@.len(),
            ext == with_extensions(key@, roman@),
            ext.len() == list@.len(),
            rows_of(out@) == before + ext.take(i as int),
        decreases list.len() - i,
    {
        let e = list[i];
        let mut k: String = key.to_owned();
        k.push(e.0);
        let r: String = joined(roman, e.1);
        let ghost rows = rows_of(out@);
        let ghost row = (k@, r@);
        out.push((k, r));
        i = i + 1;
        proof {
            lemma_take_next(ext, i - 1);
            assert(ext[i - 1] == row);
            assert(rows_of(out@) =~= rows.push(row));
            assert(rows_of(out@) =~= before + ext.take(i as int));
        }
    }
    assert(ext.take(ext.len() as int) =~= ext);
}

/// Adds the literal rows `list` to `out`.
fn push_literals(out: &mut Vec<(String, String)>, list: &[(&'static str, &'static str)])
    ensures
        rows_of(final(out)@) == rows_of(old(out)@) + literal_rows(list@),
{
    let ghost before = rows_of(out@);
    let ghost all = literal_rows(list@);
    let mut i: usize = 0;
    assert(rows_of(out@) =~= before + all.take(0));
    while i < list.len()
        invariant
            i <= list@.len(),
            all == literal_rows(list@),
            rows_of(out@) == before + all.take(i as int),
        decreases list.len() - i,
    {
        let row = list[i];
        let ghost rows = rows_of(out@);
        out.push((row.0.to_owned(), row.1.to_owned()));
        i = i + 1;
        proof {
            lemma_take_next(all, i - 1);
            assert(rows_of(out@) =~= rows.push((row.0@, row.1@)));
            assert(rows_of(out@) =~= before + all.take(i as int));
        }
    }
    assert(all.take(all.len() as int) =~= all);
}

/// Every AZIK spelling with the standard spelling it stands for.
fn azik_pairs() -> (out: Vec<(String, String)>)
    ensures
        rows_of(out@) == azik_spellings(),
{
    broadcast use Seq::lemma_flat_map_take_append;

    let mut out: Vec<(String, String)> = Vec::new();
    let ghost alt = |a: (char, &'static str)|
        with_vowels(seq![a.0], a.1@) + with_extensions(seq![a.0], a.1@);
    let ghost part1 = azik_consonant_alt().flat_map(alt);
    let list = azik_consonant_alt_rows();
    let mut i: usize = 0;
    assert(azik_consonant_alt().take(0).flat_map(alt) =~= seq![]);
    while i < list.len()
        invariant
            list@ == azik_consonant_alt(),
            i <= list@.len(),
            alt == (|a: (char, &'static str)|
                with_vowels(seq![a.0], a.1@) + with_extensions(seq![a.0], a.1@)),
            rows_of(out@) =~= azik_consonant_alt().take(i as int).flat_map(alt),
        decreases list.len() - i,
    {
        let a = list[i];
        let k = char_text(a.0);
        let ghost rows = rows_of(out@);
        push_vowels(&mut out, k.as_str(), a.1);
        push_extensions(&mut out, k.as_str(), a.1);
        proof {
            azik_consonant_alt().lemma_flat_map_take_append(alt, i as int);
            assert(rows_of(out@) =~= rows + alt(a));
        }
        i = i + 1;
    }
    assert(azik_consonant_alt().take(list@.len() as int) =~= azik_consonant_alt());
    push_literals(&mut out, azik_small_rows());
    let ghost done2 = rows_of(out@);
    let heads = consonants();
    let ghost hs = consonants_upto(standard(), standard().len() as int);
    let ghost same = |c: Seq<char>| with_extensions(c, c);
    let mut i: usize = 0;
    assert(rows_of(out@) =~= done2 + hs.take(0).flat_map(same)) by {
        assert(hs.take(0).flat_map(same) =~= seq![]);
    }
    while i < heads.len()
        invariant
            i <= heads@.len(),
            crate::text::texts(heads@) == hs,
            same == (|c: Seq<char>| with_extensions(c, c)),
            rows_of(out@) == done2 + hs.take(i as int).flat_map(same),
        decreases heads.len() - i,
    {
        let ghost rows = rows_of(out@);
        push_extensions(&mut out, heads[i].as_str(), heads[i].as_str());
        proof {
            assert(hs[i as int] == heads@[i as int]@);
            hs.lemma_flat_map_take_append(same, i as int);
            assert(rows_of(out@) =~= done2 + hs.take(i + 1).flat_map(same));
        }
        i = i + 1;
    }
    assert(hs.take(hs.len() as int) =~= hs);
    let ghost done3 = rows_of(out@);
    let ghost you = |c: char|
        with_vowels(seq![c, 'g'], seq![c, 'y']) + with_extensions(seq![c, 'g'], seq![c, 'y']);
    let list = azik_youon_rows();
    let mut i: usize = 0;
    assert(rows_of(out@) =~= done3 + azik_youon().take(0).flat_map(you)) by {
        assert(azik_youon().take(0).flat_map(you) =~= seq![]);
    }
    while i < list.len()
        invariant
            list@ == azik_youon(),
            i <= list@.len(),
            you == (|c: char|
                with_vowels(seq![c, 'g'], seq![c, 'y']) + with_extensions(
                    seq![c, 'g'],
                    seq![c, 'y'],
                )),
            rows_of(out@) == done3 + azik_youon().take(i as int).flat_map(you),
        decreases list.len() - i,
    {
        let c = list[i];
        let mut key = char_text(c);
        let mut roman = char_text(c);
        key.push('g');
        roman.push('y');
        proof {
            assert(key@ =~= seq![c, 'g']);
            assert(roman@ =~= seq![c, 'y']);
        }
        let ghost rows = rows_of(out@);
        push_vowels(&mut out, key.as_str(), roman.as_str());
        push_extensions(&mut out, key.as_str(), roman.as_str());
        proof {
            azik_youon().lemma_flat_map_take_append(you, i as int);
            assert(rows_of(out@) =~= rows + you(c));
            assert(rows_of(out@) =~= done3 + azik_youon().take(i + 1).flat_map(you));
        }
        i = i + 1;
    }
    assert(azik_youon().take(list@.len() as int) =~= azik_youon());
    let ghost done4 = rows_of(out@);
    let ghost ann = azik_ann_alt().map_values(|c: char| (seq![c, 'n'], seq![c] + "ann"@));
    let list = azik_ann_alt_rows();
    let mut i: usize = 0;
    assert(rows_of(out@) =~= done4 + ann.take(0));
    while i < list.len()
        invariant
            list@ == azik_ann_alt(),
            i <= list@.len(),
            ann == azik_ann_alt().map_values(|c: char| (seq![c, 'n'], seq![c] + "ann"@)),
            ann.len() == list@.len(),
            rows_of(out@) == done4 + ann.take(i as int),
        decreases list.len() - i,
    {
        let c = list[i];
        let mut key = char_text(c);
        key.push('n');
        let first = char_text(c);
        let roman = joined(first.as_str(), "ann");
        let ghost rows = rows_of(out@);
        let ghost row = (key@, roman@);
        assert(key@ =~= seq![c, 'n']);
        out.push((key, roman));
        i = i + 1;
        proof {
            lemma_take_next(ann, i - 1);
            assert(ann[i - 1] == row);
            assert(rows_of(out@) =~= rows.push(row));
            assert(rows_of(out@) =~= done4 + ann.take(i as int));
        }
    }
    assert(ann.take(list@.len() as int) =~= ann);
    push_literals(&mut out, azik_same_finger_rows());
    push_literals(&mut out, azik_words_rows());
    push_literals(&mut out, azik_extra_rows());
    out
}

fn build_azik() -> (r: Vec<(String, String)>)
    ensures
        rows_of(r@) == azik(),
{
    let mut out: Vec<(String, String)> = Vec::new();
    push_literals(&mut out, azik_direct_rows());
    let ghost first = literal_rows(azik_direct());
    assert(rows_of(out@) =~= first);
    let pairs = azik_pairs();
    let ghost all = rows_of(pairs@);
    let mut i: usize = 0;
    while i < pairs.len()
        invariant
            i <= pairs@.len(),
            all == rows_of(pairs@),
            rows_of(out@) == rows_added(first, all, i as int),
        decreases pairs.len() - i,
    {
        let p = &pairs[i];
        let ghost rows = rows_of(out@);
        assert(all[i as int] == (p.0@, p.1@));
        if let Some(kana) = convert_standard(p.1.as_str()) {
            if find_row(&out, p.0.as_str()).is_none() {
                let ghost row = (p.0@, kana@);
                out.push((p.0.clone(), kana));
                assert(rows_of(out@) =~= rows.push(row));
            }
        }
        i = i + 1;
    }
    out
}

/// The kana that `rows` give for a spelling.
fn find_row(rows: &Vec<(String, String)>, key: &str) -> (r: Option<String>)
    ensures
        match r {
            Some(k) => kana_of(rows_of(rows@), key@) == Some(k@),
            None => kana_of(rows_of(rows@), key@) is None,
        },
{
    let ghost all = rows_of(rows@);
    let mut i: usize = 0;
    while i < rows.len()
        invariant
            i <= rows@.len(),
            all == rows_of(rows@),
            forall|j: int| 0 <= j < i ==> (#[trigger] all[j]).0 != key@,
        decreases rows.len() - i,
    {
        assert(all[i as int] == (rows@[i as int].0@, rows@[i as int].1@));
        if *rows[i].0.as_str() == *key {
            proof {
                lemma_kana_from_found(all, key@, 0, i as int);
            }
            return Some(rows[i].1.clone());
        }
        i = i + 1;
    }
    proof {
        lemma_kana_from_none(all, key@, 0);
    }
    None
}

/// Whether a spelling of `rows` goes on after `key`.
fn row_goes_on(rows: &Vec<(String, String)>, key: &str) -> (r: bool)
    ensures
        r == goes_on(rows_of(rows@), key@),
{
    let ghost all = rows_of(rows@);
    let mut i: usize = 0;
    while i < rows.len()
        invariant
            i <= rows@.len(),
            all == rows_of(rows@),
            forall|j: int|
                0 <= j < i ==> !(key@.len() < (#[trigger] all[j]).0.len() && key@.is_prefix_of(
                    all[j].0,
                )),
        decreases rows.len() - i,
    {
        assert(all[i as int] == (rows@[i as int].0@, rows@[i as int].1@));
        if proper_prefix(key, rows[i].0.as_str()) {
            return true;
        }
        i = i + 1;
    }
    false
}

/// The consonants that stand before a vowel in the standard table, each once.
fn consonants() -> (r: Vec<String>)
    ensures
        crate::text::texts(r@) == consonants_upto(standard(), standard().len() as int),
{
    let mut out: Vec<String> = Vec::new();
    let list = standard_list_rows();
    let mut i: usize = 0;
    assert(crate::text::texts(out@) =~= seq![]);
    while i < list.len()
        invariant
            list@ == standard_list(),
            i <= list@.len(),
            standard() == literal_rows(standard_list()),
            crate::text::texts(out@) == consonants_upto(standard(), i as int),
        decreases list.len() - i,
    {
        let row = list[i];
        assert(standard()[i as int] == (row.0@, row.1@));
        let k = chars_of(row.0);
        let mut n: usize = k.len();
        assert(k@.take(n as int) =~= k@);
        while n > 0 && is_vowel(k[n - 1])
            invariant
                n <= k@.len(),
                trimmed(k@) == trimmed(k@.take(n as int)),
            decreases n,
        {
            proof {
                lemma_take_next(k@, n - 1);
            }
            n = n - 1;
        }
        let head = slice_text(&k, 0, n);
        proof {
            assert(head@ =~= k@.take(n as int));
            if n > 0 {
                lemma_take_next(k@, n - 1);
            }
        }
        let ghost before = crate::text::texts(out@);
        if n > 0 && n < k.len() && !crate::text::has_text(&out, head.as_str()) {
            out.push(head);
            assert(crate::text::texts(out@) =~= before.push(head@));
        }
        i = i + 1;
    }
    out
}

/// The kana of a spelling, if the standard table turns all of it into kana.
fn convert_standard(roman: &str) -> (r: Option<String>)
    ensures
        match r {
            Some(k) => standard_kana(roman@) == Some(k@),
            None => standard_kana(roman@) is None,
        },
{
    let v = chars_of(roman);
    let mut m = Romaji::new();
    let mut out: String = String::new();
    let mut i: usize = 0;
    assert(v@.take(0) =~= seq![]);
    while i < v.len()
        invariant
            i <= v@.len(),
            v@ == roman@,
            m.wf(),
            m.azik_on() == false,
            m.marks() == Kutouten::Jp,
            spelled(standard(), v@.take(i as int)) == (out@, m.waiting()),
        decreases v.len() - i,
    {
        proof {
            lemma_take_next(v@, i as int);
            law_standard_marks(settled(standard(), m.waiting().push(v@[i as int])).0);
        }
        let t = m.feed(v[i]);
        out.append(t.as_str());
        i = i + 1;
    }
    assert(v@.take(i as int) =~= v@);
    if !m.is_empty() {
        return None;
    }
    let o = chars_of(out.as_str());
    let mut i: usize = 0;
    while i < o.len()
        invariant
            i <= o@.len(),
            o@ == out@,
            spelled(standard(), roman@).0 == out@,
            forall|j: int| 0 <= j < i ==> !letter(#[trigger] out@[j]),
        decreases o.len() - i,
    {
        if is_letter(o[i]) {
            assert(letter(out@[i as int]));
            return None;
        }
        i = i + 1;
    }
    Some(out)
}

/// The punctuation that `.` and `,` give. The table holds 。 and 、 and they are replaced
/// by the chosen pair.
#[derive(Clone, Copy, Debug, PartialEq, Eq, Structural)]
pub enum Kutouten {
    /// 。 and 、, the default.
    Jp,
    /// ． and ，
    En,
    /// 。 and ，
    JpEn,
    /// ． and 、
    EnJp,
}

impl Default for Kutouten {
    fn default() -> (r: Self)
        ensures
            r == Kutouten::Jp,
    {
        Kutouten::Jp
    }
}

impl Kutouten {
    /// The full stop of the pair.
    pub open spec fn stop(self) -> char {
        if self == Kutouten::Jp || self == Kutouten::JpEn {
            '。'
        } else {
            '．'
        }
    }

    /// The comma of the pair.
    pub open spec fn comma(self) -> char {
        if self == Kutouten::Jp || self == Kutouten::EnJp {
            '、'
        } else {
            '，'
        }
    }

    /// A character of the table under this pair.
    pub open spec fn mark(self, c: char) -> char {
        if c == '。' {
            self.stop()
        } else if c == '、' {
            self.comma()
        } else {
            c
        }
    }

    /// A text of the table under this pair.
    pub open spec fn marked(self, s: Seq<char>) -> Seq<char> {
        s.map_values(|c: char| self.mark(c))
    }

    /// The full stop and the comma.
    fn pair(self) -> (r: (char, char))
        ensures
            r == (self.stop(), self.comma()),
    {
        match self {
            Kutouten::Jp => ('。', '、'),
            Kutouten::En => ('．', '，'),
            Kutouten::JpEn => ('。', '，'),
            Kutouten::EnJp => ('．', '、'),
        }
    }

    /// Replaces the punctuation of the table by this pair.
    fn apply(self, s: String) -> (r: String)
        ensures
            r@ == self.marked(s@),
    {
        if self == Kutouten::Jp {
            proof {
                law_standard_marks(s@);
            }
            return s;
        }
        let (stop, comma) = self.pair();
        let v = chars_of(s.as_str());
        let mut out: String = String::new();
        for i in 0..v.len()
            invariant
                stop == self.stop(),
                comma == self.comma(),
                out@ == self.marked(v@.take(i as int)),
        {
            let c = v[i];
            if c == '。' {
                out.push(stop);
            } else if c == '、' {
                out.push(comma);
            } else {
                out.push(c);
            }
            proof {
                lemma_take_next(v@, i as int);
                assert(out@ =~= self.marked(v@.take(i + 1)));
            }
        }
        assert(v@.take(v@.len() as int) =~= v@);
        out
    }
}

/// The default pair changes nothing.
pub proof fn law_standard_marks(s: Seq<char>)
    ensures
        Kutouten::Jp.marked(s) == s,
{
    assert(Kutouten::Jp.marked(s) =~= s);
}

/// Typed letters on their way to kana.
pub struct Romaji {
    buf: String,
    kutouten: Kutouten,
    azik: bool,
    /// The AZIK table once it has been asked for, else empty.
    extended: Vec<(String, String)>,
}

impl Default for Romaji {
    fn default() -> (r: Self)
        ensures
            r.wf(),
            r.waiting() == Seq::<char>::empty(),
            r.marks() == Kutouten::Jp,
            r.azik_on() == false,
    {
        Romaji {
            buf: String::new(),
            kutouten: Kutouten::Jp,
            azik: false,
            extended: Vec::new(),
        }
    }
}

impl Romaji {
    /// The extended table is there whenever it is in use.
    pub closed spec fn wf(&self) -> bool {
        self.azik ==> rows_of(self.extended@) == azik()
    }

    /// The letters that wait.
    pub closed spec fn waiting(&self) -> Seq<char> {
        self.buf@
    }

    /// The punctuation in use.
    pub closed spec fn marks(&self) -> Kutouten {
        self.kutouten
    }

    /// Whether AZIK spellings are in use.
    pub closed spec fn azik_on(&self) -> bool {
        self.azik
    }

    pub fn new() -> (r: Self)
        ensures
            r.wf(),
            r.waiting() == Seq::<char>::empty(),
            r.marks() == Kutouten::Jp,
            r.azik_on() == false,
    {
        Self::default()
    }

    /// Changes the punctuation; what waits stays.
    pub fn set_kutouten(&mut self, k: Kutouten)
        requires
            old(self).wf(),
        ensures
            final(self).wf(),
            final(self).waiting() == old(self).waiting(),
            final(self).marks() == k,
            final(self).azik_on() == old(self).azik_on(),
    {
        self.kutouten = k;
    }

    /// Whether to use AZIK spellings; what waits stays.
    pub fn set_azik(&mut self, on: bool)
        requires
            old(self).wf(),
        ensures
            final(self).wf(),
            final(self).waiting() == old(self).waiting(),
            final(self).marks() == old(self).marks(),
            final(self).azik_on() == on,
    {
        if on && !self.azik {
            self.extended = azik_table();
        }
        self.azik = on;
    }

    /// The kana of a spelling; AZIK spellings come first where they are in use.
    fn lookup(&self, key: &str) -> (r: Option<String>)
        requires
            self.wf(),
        ensures
            match r {
                Some(k) => kana_of(table(self.azik_on()), key@) == Some(k@),
                None => kana_of(table(self.azik_on()), key@) is None,
            },
    {
        proof {
            lemma_kana_concat(azik(), standard(), key@, 0);
        }
        if self.azik {
            if let Some(kana) = find_row(&self.extended, key) {
                return Some(kana);
            }
        }
        match lookup(key) {
            Some(kana) => Some(kana.to_owned()),
            None => None,
        }
    }

    /// Whether a spelling goes on after `key`.
    fn has_prefix(&self, key: &str) -> (r: bool)
        requires
            self.wf(),
        ensures
            r == goes_on(table(self.azik_on()), key@),
    {
        proof {
            lemma_goes_on_concat(azik(), standard(), key@);
        }
        if self.azik && row_goes_on(&self.extended, key) {
            return true;
        }
        has_prefix(key)
    }

    /// The letters that wait.
    pub fn pending(&self) -> (r: &str)
        ensures
            r@ == self.waiting(),
    {
        self.buf.as_str()
    }

    pub fn is_empty(&self) -> (r: bool)
        ensures
            r == (self.waiting().len() == 0),
    {
        self.buf.as_str().is_empty()
    }

    pub fn clear(&mut self)
        requires
            old(self).wf(),
        ensures
            final(self).wf(),
            final(self).waiting() == Seq::<char>::empty(),
            final(self).marks() == old(self).marks(),
            final(self).azik_on() == old(self).azik_on(),
    {
        self.buf = String::new();
    }

    /// Takes the last letter back. Returns whether there was one.
    pub fn backspace(&mut self) -> (r: bool)
        requires
            old(self).wf(),
        ensures
            final(self).wf(),
            r == (old(self).waiting().len() > 0),
            final(self).waiting() == if r {
                old(self).waiting().drop_last()
            } else {
                old(self).waiting()
            },
            final(self).marks() == old(self).marks(),
            final(self).azik_on() == old(self).azik_on(),
    {
        let v = chars_of(self.buf.as_str());
        if v.len() == 0 {
            return false;
        }
        self.buf = slice_text(&v, 0, v.len() - 1);
        true
    }

    /// Types one character and returns the text that settles. What cannot become kana
    /// comes out as it is.
    pub fn feed(&mut self, c: char) -> (r: String)
        requires
            old(self).wf(),
        ensures
            final(self).wf(),
            ({
                let s = settled(table(old(self).azik_on()), old(self).waiting().push(c));
                &&& r@ == old(self).marks().marked(s.0)
                &&& final(self).waiting() == s.1
            }),
            final(self).marks() == old(self).marks(),
            final(self).azik_on() == old(self).azik_on(),
    {
        self.buf.push(c);
        let ghost rows = table(self.azik_on());
        let ghost whole = self.buf@;
        let mut out: String = String::new();
        assert(out@ + settled(rows, whole).0 =~= settled(rows, whole).0);
        while !self.buf.as_str().is_empty()
            invariant
                self.wf(),
                rows == table(self.azik_on()),
                whole == old(self).waiting().push(c),
                self.azik_on() == old(self).azik_on(),
                self.marks() == old(self).marks(),
                settled(rows, whole) == (
                    out@ + settled(rows, self.buf@).0,
                    settled(rows, self.buf@).1,
                ),
            decreases self.buf@.len(),
        {
            let ghost buf0 = self.buf@;
            let ghost out0 = out@;
            if let Some(kana) = self.lookup(self.buf.as_str()) {
                out.append(kana.as_str());
                self.buf = String::new();
                assert(out@ + settled(rows, self.buf@).0 =~= out0 + settled(rows, buf0).0);
                assert(self.buf@ =~= seq![]);
                continue;
            }
            if self.has_prefix(self.buf.as_str()) {
                let out = self.kutouten.apply(out);
                assert(out0 + settled(rows, self.buf@).0 =~= out0);
                return out;
            }
            let v = chars_of(self.buf.as_str());
            let first = v[0];
            if v.len() == 1 {
                out.push(first);
                self.buf = String::new();
                assert(out@ + settled(rows, self.buf@).0 =~= out0 + settled(rows, buf0).0);
                assert(self.buf@ =~= seq![]);
            } else {
                if v[1] == first && is_consonant(first) && first != 'n' {
                    out.push('っ');
                } else if first == 'n' {
                    out.push('ん');
                } else {
                    out.push(first);
                }
                self.buf = slice_text(&v, 1, v.len());
                proof {
                    assert(self.buf@ =~= buf0.skip(1));
                    assert(out@ + settled(rows, self.buf@).0 =~= out0 + settled(rows, buf0).0);
                }
            }
        }
        assert(out@ + settled(rows, self.buf@).0 =~= out@);
        assert(self.buf@ =~= seq![]);
        self.kutouten.apply(out)
    }

    /// Ends the typing. A lone `n` becomes ん; any other half-typed spelling is dropped.
    pub fn flush(&mut self) -> (r: String)
        requires
            old(self).wf(),
        ensures
            final(self).wf(),
            r@ == flushed(old(self).waiting()),
            final(self).waiting() == Seq::<char>::empty(),
            final(self).marks() == old(self).marks(),
            final(self).azik_on() == old(self).azik_on(),
    {
        let n = *self.buf.as_str() == *"n";
        self.buf = String::new();
        if n {
            "ん".to_owned()
        } else {
            String::new()
        }
    }
}

/// What the letters that wait leave behind when typing ends.
pub open spec fn flushed(waiting: Seq<char>) -> Seq<char> {
    if waiting == "n"@ {
        "ん"@
    } else {
        seq![]
    }
}

/// A hiragana as katakana.
pub open spec fn katakana_of(c: char) -> char {
    if 'ぁ' <= c <= 'ゖ' {
        shifted(c, 0x60)
    } else {
        c
    }
}

/// A katakana as hiragana.
pub open spec fn hiragana_of(c: char) -> char {
    if 'ァ' <= c <= 'ヶ' {
        shifted(c, -0x60)
    } else {
        c
    }
}

/// A text in katakana.
pub open spec fn in_katakana(s: Seq<char>) -> Seq<char> {
    s.map_values(|c: char| katakana_of(c))
}

/// A text in hiragana.
pub open spec fn in_hiragana(s: Seq<char>) -> Seq<char> {
    s.map_values(|c: char| hiragana_of(c))
}

/// Katakana and back is the hiragana text again, for every text without katakana.
pub proof fn law_katakana_roundtrip(s: Seq<char>)
    requires
        forall|i: int| 0 <= i < s.len() ==> !('ァ' <= #[trigger] s[i] <= 'ヶ'),
    ensures
        in_hiragana(in_katakana(s)) == s,
{
    assert forall|i: int| 0 <= i < s.len() implies in_hiragana(in_katakana(s))[i] == s[i] by {
        let c = s[i];
        assert(!('ァ' <= c <= 'ヶ'));
    }
    assert(in_hiragana(in_katakana(s)) =~= s);
}

/// An ASCII character written full-width.
pub open spec fn zenkaku_form(c: char) -> char {
    if c == ' ' {
        '\u{3000}'
    } else if '!' <= c <= '~' {
        shifted(c, 0xff01 - 0x21)
    } else {
        c
    }
}

/// The half-width form of the first row from `i` on that holds `c`; else `c` itself.
pub open spec fn hankaku_from(c: char, i: int) -> Seq<char>
    decreases hankaku().len() - i,
{
    if i < 0 || i >= hankaku().len() {
        seq![c]
    } else if hankaku()[i].0 == c {
        hankaku()[i].1@
    } else {
        hankaku_from(c, i + 1)
    }
}

/// The half-width form of a character; what has none stays as it is.
pub open spec fn hankaku_of(c: char) -> Seq<char> {
    hankaku_from(c, 0)
}

/// A text in half-width katakana.
pub open spec fn in_hankaku(s: Seq<char>) -> Seq<char> {
    in_katakana(s).flat_map(|c: char| hankaku_of(c))
}

/// Turns hiragana into katakana.
pub fn to_katakana(s: &str) -> (r: String)
    ensures
        r@ == in_katakana(s@),
{
    let v = chars_of(s);
    let mut out: String = String::new();
    for i in 0..v.len()
        invariant
            out@ == in_katakana(v@.take(i as int)),
    {
        let c = v[i];
        if 'ぁ' <= c && c <= 'ゖ' {
            out.push(shift_up(c, 0x60));
        } else {
            out.push(c);
        }
        proof {
            lemma_take_next(v@, i as int);
            assert(out@ =~= in_katakana(v@.take(i + 1)));
        }
    }
    assert(v@.take(v@.len() as int) =~= v@);
    out
}

/// Turns katakana into hiragana.
pub fn to_hiragana(s: &str) -> (r: String)
    ensures
        r@ == in_hiragana(s@),
{
    let v = chars_of(s);
    let mut out: String = String::new();
    for i in 0..v.len()
        invariant
            out@ == in_hiragana(v@.take(i as int)),
    {
        let c = v[i];
        if 'ァ' <= c && c <= 'ヶ' {
            out.push(shift_down(c, 0x60));
        } else {
            out.push(c);
        }
        proof {
            lemma_take_next(v@, i as int);
            assert(out@ =~= in_hiragana(v@.take(i + 1)));
        }
    }
    assert(v@.take(v@.len() as int) =~= v@);
    out
}

/// Writes an ASCII character full-width.
pub fn to_zenkaku(c: char) -> (r: char)
    ensures
        r == zenkaku_form(c),
{
    if c == ' ' {
        '\u{3000}'
    } else if '!' <= c && c <= '~' {
        shift_up(c, 0xff01 - 0x21)
    } else {
        c
    }
}

/// The half-width form of one character.
fn hankaku_char(c: char) -> (r: String)
    ensures
        r@ == hankaku_of(c),
{
    let list = hankaku_rows();
    let mut i: usize = 0;
    while i < list.len()
        invariant
            list@ == hankaku(),
            i <= list@.len(),
            hankaku_of(c) == hankaku_from(c, i as int),
        decreases list.len() - i,
    {
        let row = list[i];
        if row.0 == c {
            return row.1.to_owned();
        }
        i = i + 1;
    }
    char_text(c)
}

/// Turns hiragana and katakana into half-width katakana.
pub fn to_hankaku_katakana(s: &str) -> (r: String)
    ensures
        r@ == in_hankaku(s@),
{
    let k = to_katakana(s);
    let v = chars_of(k.as_str());
    let ghost f = |c: char| hankaku_of(c);
    let mut out: String = String::new();
    assert(v@.take(0).flat_map(f) =~= seq![]);
    for i in 0..v.len()
        invariant
            f == (|c: char| hankaku_of(c)),
            out@ == v@.take(i as int).flat_map(f),
    {
        let h = hankaku_char(v[i]);
        out.append(h.as_str());
        proof {
            v@.lemma_flat_map_take_append(f, i as int);
        }
    }
    assert(v@.take(v@.len() as int) =~= v@);
    out
}

} // verus!
