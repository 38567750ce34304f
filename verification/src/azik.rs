//! How the spellings of AZIK follow from the standard ones.
use vstd::prelude::*;
use vstd::string::*;
use crate::romaji::{
    azik, azik_spellings, consonants_upto, kana_from, kana_of, lemma_kana_concat, literal_rows,
    row_added, rows_added, standard, standard_kana, table, trimmed, with_extensions, with_vowels,
    Rows, VOWELS,
};
use crate::spelling::{
    azik_ann_alt, azik_consonant_alt, azik_direct, azik_extra, azik_same_finger, azik_small,
    azik_vowels, azik_words, azik_youon,
};

verus! {

/// Where AZIK is in use its spellings come first, and the standard ones stay for the rest.
pub proof fn law_azik_comes_first(key: Seq<char>)
    ensures
        kana_of(azik(), key) is Some ==> kana_of(table(true), key) == kana_of(azik(), key),
        kana_of(azik(), key) is None ==> kana_of(table(true), key) == kana_of(standard(), key),
        kana_of(table(false), key) == kana_of(standard(), key),
{
    lemma_kana_concat(azik(), standard(), key, 0);
}

/// Nothing that is spelled is spelled otherwise when rows are added.
proof fn lemma_rows_stay(rows: Rows, pairs: Rows, n: int, key: Seq<char>)
    requires
        0 <= n <= pairs.len(),
        kana_of(rows, key) is Some,
    ensures
        kana_of(rows_added(rows, pairs, n), key) == kana_of(rows, key),
    decreases n,
{
    if n > 0 {
        lemma_rows_stay(rows, pairs, n - 1, key);
        let had = rows_added(rows, pairs, n - 1);
        lemma_row(had, pairs[n - 1], key);
    }
}

proof fn lemma_row(rows: Rows, p: (Seq<char>, Seq<char>), key: Seq<char>)
    ensures
        kana_of(rows, key) is Some ==> kana_of(row_added(rows, p), key) == kana_of(rows, key),
        kana_of(rows, key) is None && key != p.0 ==> kana_of(row_added(rows, p), key) is None,
        kana_of(rows, key) is None && key == p.0 ==> kana_of(row_added(rows, p), key)
            == standard_kana(p.1),
{
    if standard_kana(p.1) is Some && kana_of(rows, p.0) is None {
        let one = (p.0, standard_kana(p.1)->0);
        let more = seq![one];
        lemma_kana_concat(rows, more, key, 0);
        assert(rows.push(one) =~= rows + more);
        assert(more[0] == one);
        assert(kana_from(more, key, 1) is None);
    }
}

proof fn lemma_rows_not(rows: Rows, pairs: Rows, n: int, key: Seq<char>)
    requires
        0 <= n <= pairs.len(),
        kana_of(rows, key) is None,
        forall|i: int|
            0 <= i < n && (#[trigger] pairs[i]).0 == key ==> standard_kana(pairs[i].1) is None,
    ensures
        kana_of(rows_added(rows, pairs, n), key) is None,
    decreases n,
{
    if n > 0 {
        lemma_rows_not(rows, pairs, n - 1, key);
        lemma_row(rows_added(rows, pairs, n - 1), pairs[n - 1], key);
    }
}

/// An AZIK spelling gives the kana of the standard spelling that it stands for. The first
/// spelling wins, and what no standard spelling gives comes before all.
pub proof fn law_an_azik_spelling_gives_its_kana(j: int)
    requires
        0 <= j < azik_spellings().len(),
        standard_kana(azik_spellings()[j].1) is Some,
        kana_of(literal_rows(azik_direct()), azik_spellings()[j].0) is None,
        forall|i: int|
            0 <= i < j && (#[trigger] azik_spellings()[i]).0 == azik_spellings()[j].0
                ==> standard_kana(azik_spellings()[i].1) is None,
    ensures
        kana_of(azik(), azik_spellings()[j].0) == standard_kana(azik_spellings()[j].1),
{
    let pairs = azik_spellings();
    let rows = literal_rows(azik_direct());
    let key = pairs[j].0;
    lemma_rows_not(rows, pairs, j, key);
    lemma_row(rows_added(rows, pairs, j), pairs[j], key);
    lemma_later_rows(rows, pairs, j + 1, pairs.len() as int, key);
}

proof fn lemma_later_rows(rows: Rows, pairs: Rows, n: int, m: int, key: Seq<char>)
    requires
        0 <= n <= m <= pairs.len(),
        kana_of(rows_added(rows, pairs, n), key) is Some,
    ensures
        kana_of(rows_added(rows, pairs, m), key) == kana_of(rows_added(rows, pairs, n), key),
    decreases m - n,
{
    if n < m {
        lemma_later_rows(rows, pairs, n, m - 1, key);
        lemma_row(rows_added(rows, pairs, m - 1), pairs[m - 1], key);
    }
}

/// What no standard spelling gives is spelled as it is listed.
pub proof fn law_direct_spellings_stay(key: Seq<char>)
    requires
        kana_of(literal_rows(azik_direct()), key) is Some,
    ensures
        kana_of(azik(), key) == kana_of(literal_rows(azik_direct()), key),
{
    let pairs = azik_spellings();
    lemma_rows_stay(literal_rows(azik_direct()), pairs, pairs.len() as int, key);
}

/// The keys z k j d l stand for the vowels with a syllabic n, and q h w p for two vowels.
pub proof fn law_keys_for_a_vowel_and_more(i: int)
    requires
        0 <= i < 5,
    ensures
        azik_vowels().len() == 9,
        azik_vowels()[i].0 == "zkjdl"@[i],
        azik_vowels()[i].1@ == seq![VOWELS@[i], 'n', 'n'],
        i < 4 ==> azik_vowels()[5 + i].0 == "qhwp"@[i] && azik_vowels()[5 + i].1@ == seq![
            "aueo"@[i],
            "iuiu"@[i],
        ],
{
    reveal(azik_vowels);
    reveal_strlit("zkjdl");
    reveal_strlit("qhwp");
    reveal_strlit("aueo");
    reveal_strlit("iuiu");
    reveal_strlit("ann");
    reveal_strlit("inn");
    reveal_strlit("unn");
    reveal_strlit("enn");
    reveal_strlit("onn");
    reveal_strlit("ai");
    reveal_strlit("uu");
    reveal_strlit("ei");
    reveal_strlit("ou");
    let v = azik_vowels();
    assert(v[0].1@ =~= seq!['a', 'n', 'n']);
    assert(v[1].1@ =~= seq!['i', 'n', 'n']);
    assert(v[2].1@ =~= seq!['u', 'n', 'n']);
    assert(v[3].1@ =~= seq!['e', 'n', 'n']);
    assert(v[4].1@ =~= seq!['o', 'n', 'n']);
    assert(v[5].1@ =~= seq!['a', 'i']);
    assert(v[6].1@ =~= seq!['u', 'u']);
    assert(v[7].1@ =~= seq!['e', 'i']);
    assert(v[8].1@ =~= seq!['o', 'u']);
}

proof fn lemma_in_sum<A>(a: Seq<A>, b: Seq<A>, x: A)
    requires
        a.contains(x) || b.contains(x),
    ensures
        (a + b).contains(x),
{
    if a.contains(x) {
        let i = choose|i: int| 0 <= i < a.len() && a[i] == x;
        assert((a + b)[i] == x);
    } else {
        let i = choose|i: int| 0 <= i < b.len() && b[i] == x;
        assert((a + b)[a.len() + i] == x);
    }
}

proof fn lemma_in_flat<A, B>(v: Seq<A>, f: spec_fn(A) -> Seq<B>, k: int, x: B)
    requires
        0 <= k < v.len(),
        f(v[k]).contains(x),
    ensures
        v.flat_map(f).contains(x),
    decreases v.len(),
{
    let u = v.drop_last();
    u.lemma_flat_map_push(f, v.last());
    assert(u.push(v.last()) =~= v);
    if k < u.len() {
        assert(u[k] == v[k]);
        lemma_in_flat(u, f, k, x);
    }
    lemma_in_sum(u.flat_map(f), f(v.last()), x);
}

/// A consonant with one of the keys for a vowel and more stands for the consonant with that
/// vowel and more.
pub proof fn law_consonants_take_the_keys(c: Seq<char>, i: int)
    requires
        consonants_upto(standard(), standard().len() as int).contains(c),
        0 <= i < azik_vowels().len(),
    ensures
        azik_spellings().contains((c.push(azik_vowels()[i].0), c + azik_vowels()[i].1@)),
{
    let x = (c.push(azik_vowels()[i].0), c + azik_vowels()[i].1@);
    let all = consonants_upto(standard(), standard().len() as int);
    let same = |c: Seq<char>| with_extensions(c, c);
    let k = choose|k: int| 0 <= k < all.len() && all[k] == c;
    assert(with_extensions(c, c)[i] == x);
    assert(same(all[k]).contains(x));
    lemma_in_flat(all, same, k, x);
    let alt = |a: (char, &'static str)|
        with_vowels(seq![a.0], a.1@) + with_extensions(seq![a.0], a.1@);
    let yo = |c: char| with_vowels(seq![c, 'g'], seq![c, 'y']) + with_extensions(
        seq![c, 'g'],
        seq![c, 'y'],
    );
    let p1 = azik_consonant_alt().flat_map(alt) + literal_rows(azik_small());
    let p2 = p1 + all.flat_map(same);
    let p3 = p2 + azik_youon().flat_map(yo);
    let p4 = p3 + azik_ann_alt().map_values(|c: char| (seq![c, 'n'], seq![c] + "ann"@));
    let p5 = p4 + literal_rows(azik_same_finger());
    let p6 = p5 + literal_rows(azik_words());
    let p7 = p6 + literal_rows(azik_extra());
    assert(p7 == azik_spellings());
    lemma_in_sum(p1, all.flat_map(same), x);
    lemma_in_sum(p2, azik_youon().flat_map(yo), x);
    lemma_in_sum(p3, azik_ann_alt().map_values(|c: char| (seq![c, 'n'], seq![c] + "ann"@)), x);
    lemma_in_sum(p4, literal_rows(azik_same_finger()), x);
    lemma_in_sum(p5, literal_rows(azik_words()), x);
    lemma_in_sum(p6, literal_rows(azik_extra()), x);
}

/// What stands before a vowel in a standard spelling is a consonant.
pub proof fn law_consonants_stand_before_vowels(i: int, c: Seq<char>, v: char)
    requires
        0 <= i < standard().len(),
        standard()[i].0 == c.push(v),
        VOWELS@.contains(v),
        c.len() > 0,
        !VOWELS@.contains(c.last()),
    ensures
        consonants_upto(standard(), standard().len() as int).contains(c),
{
    assert(c.push(v).drop_last() =~= c);
    assert(c.push(v).last() == v);
    assert(trimmed(c) == c);
    assert(trimmed(c.push(v)) == c);
    lemma_consonant(standard(), i + 1, c);
    lemma_consonants_stay(standard(), i + 1, standard().len() as int, c);
}

proof fn lemma_consonant(rows: Rows, n: int, c: Seq<char>)
    requires
        0 < n <= rows.len(),
        trimmed(rows[n - 1].0) == c,
        0 < c.len() < rows[n - 1].0.len(),
    ensures
        consonants_upto(rows, n).contains(c),
{
    let had = consonants_upto(rows, n - 1);
    if !had.contains(c) {
        assert(had.push(c)[had.len() as int] == c);
    }
}

proof fn lemma_consonants_stay(rows: Rows, n: int, m: int, c: Seq<char>)
    requires
        0 <= n <= m <= rows.len(),
        consonants_upto(rows, n).contains(c),
    ensures
        consonants_upto(rows, m).contains(c),
    decreases m - n,
{
    if n < m {
        lemma_consonants_stay(rows, n, m - 1, c);
        let had = consonants_upto(rows, m - 1);
        let head = trimmed(rows[m - 1].0);
        let i = choose|i: int| 0 <= i < had.len() && had[i] == c;
        assert(had.push(head)[i] == c);
    }
}

} // verus!
