//! The snippets of a file, and the words that are found for a spelling.
use vstd::prelude::*;
use vstd::string::*;
use crate::dict::{file_snippets, lists_read, lists_words, snippet_added, snippets_added};
use crate::index::lemma_texts_added_has;
use crate::jisyo::{entry, has_cand, texts_added, CandText, Words};
use crate::migemo::{all_gathered, gathered, shared_out, words_found, Headwords};
use crate::order::{
    lemma_precedes_irreflexive, lemma_precedes_total, lemma_precedes_transitive, precedes,
};
use crate::snippet::{
    all_snippets, by_prefix, entry_snippets, field, field_from, free_number, fresh_name,
    leaf_strings, lemma_free_number_exists, name_used, numbered, place_in, present, FieldTexts,
    LeafText, SnippetText,
};
use crate::text::{decimal, join, lemma_split_push, split};

verus! {

/// Texts go by the first character in which they differ; the beginning of a text comes
/// before it.
pub proof fn law_texts_go_by_their_first_difference(p: Seq<char>, a: Seq<char>, b: Seq<char>)
    requires
        b.len() > 0,
        a.len() == 0 || a[0] < b[0],
    ensures
        precedes(p + a, p + b),
        !precedes(p + b, p + a),
    decreases p.len(),
{
    let x = p + a;
    let y = p + b;
    if p.len() == 0 {
        assert(x =~= a && y =~= b);
    } else {
        assert(x[0] == p[0] && y[0] == p[0]);
        assert(x.skip(1) =~= p.skip(1) + a);
        assert(y.skip(1) =~= p.skip(1) + b);
        law_texts_go_by_their_first_difference(p.skip(1), a, b);
    }
}

proof fn lemma_field(f: FieldTexts, name: Seq<char>, i: int, k: int)
    requires
        0 <= i <= k < f.len(),
        f[k].0 == name,
        forall|j: int| i <= j < k ==> (#[trigger] f[j]).0 != name,
    ensures
        field_from(f, name, i) == f[k].1,
    decreases k - i,
{
    if i < k {
        assert(f[i].0 != name);
        lemma_field(f, name, i + 1, k);
    }
}

/// A field is found by its name.
pub proof fn law_a_field_is_found(f: FieldTexts, k: int)
    requires
        0 <= k < f.len(),
        forall|j: int| 0 <= j < k ==> (#[trigger] f[j]).0 != f[k].0,
    ensures
        field(f, f[k].0) == f[k].1,
{
    lemma_field(f, f[k].0, 0, k);
}

proof fn lemma_present(v: Seq<Option<Seq<char>>>, w: Seq<Seq<char>>)
    requires
        v.len() == w.len(),
        forall|i: int| 0 <= i < v.len() ==> #[trigger] v[i] == Some(w[i]),
    ensures
        present(v) == w,
    decreases v.len(),
{
    if v.len() > 0 {
        let n = v.len() - 1;
        assert(v[n] == Some(w[n]));
        assert forall|i: int| 0 <= i < n implies #[trigger] v.drop_last()[i] == Some(
            w.drop_last()[i],
        ) by {
            assert(v[i] == Some(w[i]));
        }
        lemma_present(v.drop_last(), w.drop_last());
        assert(w.drop_last().push(w.last()) =~= w);
    } else {
        assert(w =~= seq![]);
    }
}

proof fn lemma_lines(v: Seq<Seq<char>>)
    requires
        v.len() > 0,
        forall|i: int| 0 <= i < v.len() ==> !(#[trigger] v[i]).contains('\n'),
    ensures
        split(join(v, "\n"@), '\n') == v,
    decreases v.len(),
{
    reveal_strlit("\n");
    let w = v.last();
    assert(!v[v.len() - 1].contains('\n'));
    if v.len() == 1 {
        crate::text::lemma_first_of_none(w, '\n');
        assert(split(w, '\n') =~= seq![w]);
        assert(v =~= seq![w]);
    } else {
        let u = v.drop_last();
        assert forall|i: int| 0 <= i < u.len() implies !(#[trigger] u[i]).contains('\n') by {
            assert(u[i] == v[i]);
        }
        lemma_lines(u);
        assert("\n"@ =~= seq!['\n']);
        lemma_split_push(join(u, "\n"@), w, '\n');
        assert(u.push(w) =~= v);
    }
}

/// An entry gives a snippet for each of its readings. The lines of its body are the lines of
/// the snippet, and its description, or else its name, is the note.
pub proof fn law_an_entry_gives_its_snippets(
    name: Seq<char>,
    f: FieldTexts,
    readings: Seq<Seq<char>>,
    lines: Seq<Seq<char>>,
    k: int,
)
    requires
        0 <= k < readings.len(),
        lines.len() > 0,
        lines.len() == 1 ==> lines[0].len() > 0,
        forall|i: int| 0 <= i < lines.len() ==> !(#[trigger] lines[i]).contains('\n'),
        field(f, "prefix"@) matches LeafText::List(v) && v.len() == readings.len() && forall|i: int|
            0 <= i < v.len() ==> #[trigger] v[i] == Some(readings[i]),
        field(f, "body"@) matches LeafText::List(v) && v.len() == lines.len() && forall|i: int|
            0 <= i < v.len() ==> #[trigger] v[i] == Some(lines[i]),
    ensures
        ({
            let r = entry_snippets((name, Some(f)));
            &&& r.len() == readings.len()
            &&& r[k].prefix == readings[k]
            &&& split(r[k].body, '\n') == lines
            &&& field(f, "description"@) matches LeafText::Text(t) ==> r[k].description == Some(t)
            &&& field(f, "description"@) is Other && name.len() > 0 ==> r[k].description == Some(
                name,
            )
        }),
{
    lemma_present(field(f, "prefix"@)->List_0, readings);
    lemma_present(field(f, "body"@)->List_0, lines);
    lemma_lines(lines);
    let body = join(lines, "\n"@);
    reveal_strlit("\n");
    if lines.len() > 1 {
        assert(body.len() > 0);
    }
}

/// A reading or a body that is a single text is a list of that text.
pub proof fn law_a_text_is_a_list_of_one(t: Seq<char>)
    ensures
        leaf_strings(LeafText::Text(t)) == leaf_strings(LeafText::List(seq![Some(t)])),
        leaf_strings(LeafText::Text(t)) == seq![t],
{
    let v = seq![Some(t)];
    lemma_present(v, seq![t]);
}

/// Whether no snippet stands before one with a smaller reading.
pub open spec fn goes_up(v: Seq<SnippetText>) -> bool {
    forall|i: int, j: int|
        0 <= i < j < v.len() ==> !precedes((#[trigger] v[j]).prefix, (#[trigger] v[i]).prefix)
}

proof fn lemma_place(v: Seq<SnippetText>, p: Seq<char>)
    requires
        goes_up(v),
    ensures
        0 <= place_in(v, p) <= v.len(),
        forall|i: int|
            0 <= i < place_in(v, p) ==> !precedes(p, (#[trigger] v[i]).prefix),
        forall|i: int| place_in(v, p) <= i < v.len() ==> precedes(p, (#[trigger] v[i]).prefix),
    decreases v.len(),
{
    if v.len() > 0 {
        let n = v.len() - 1;
        let u = v.drop_last();
        if precedes(p, v.last().prefix) {
            assert(goes_up(u)) by {
                assert forall|i: int, j: int| 0 <= i < j < u.len() implies !precedes(
                    (#[trigger] u[j]).prefix,
                    (#[trigger] u[i]).prefix,
                ) by {
                    assert(!precedes(v[j].prefix, v[i].prefix));
                }
            }
            lemma_place(u, p);
            assert forall|i: int| 0 <= i < place_in(v, p) implies !precedes(
                p,
                (#[trigger] v[i]).prefix,
            ) by {
                assert(u[i] == v[i]);
            }
            assert forall|i: int| place_in(v, p) <= i < v.len() implies precedes(
                p,
                (#[trigger] v[i]).prefix,
            ) by {
                if i < n {
                    assert(u[i] == v[i]);
                }
            }
        } else {
            assert forall|i: int| 0 <= i < v.len() implies !precedes(
                p,
                (#[trigger] v[i]).prefix,
            ) by {
                if i < n && precedes(p, v[i].prefix) {
                    assert(!precedes(v[n].prefix, v[i].prefix));
                    lemma_precedes_total(v[i].prefix, v[n].prefix);
                    if v[i].prefix != v[n].prefix {
                        lemma_precedes_transitive(p, v[i].prefix, v[n].prefix);
                    }
                }
            }
        }
    }
}

/// The snippets of a file go by their readings.
pub proof fn law_snippets_go_by_reading(v: Seq<SnippetText>, n: int)
    requires
        0 <= n <= v.len(),
    ensures
        goes_up(by_prefix(v, n)),
        by_prefix(v, n).len() == n,
    decreases n,
{
    if n > 0 {
        law_snippets_go_by_reading(v, n - 1);
        let had = by_prefix(v, n - 1);
        let p = v[n - 1].prefix;
        lemma_place(had, p);
        let at = place_in(had, p);
        let r = had.insert(at, v[n - 1]);
        assert forall|i: int, j: int| 0 <= i < j < r.len() implies !precedes(
            (#[trigger] r[j]).prefix,
            (#[trigger] r[i]).prefix,
        ) by {
            if j < at {
                assert(r[i] == had[i] && r[j] == had[j]);
            } else if j == at {
                assert(r[i] == had[i]);
                assert(!precedes(p, had[i].prefix));
            } else if i < at {
                assert(r[i] == had[i] && r[j] == had[j - 1]);
            } else if i == at {
                assert(r[j] == had[j - 1]);
                if precedes(had[j - 1].prefix, p) {
                    lemma_precedes_transitive(had[j - 1].prefix, p, had[j - 1].prefix);
                    lemma_precedes_irreflexive(had[j - 1].prefix);
                }
            } else {
                assert(r[i] == had[i - 1] && r[j] == had[j - 1]);
            }
        }
    }
}

/// The snippets of every entry are among those of the file.
pub proof fn law_no_entry_is_passed_over(
    v: Seq<(Seq<char>, Option<FieldTexts>)>,
    n: int,
    k: int,
    i: int,
)
    requires
        0 <= k < n <= v.len(),
        0 <= i < entry_snippets(v[k]).len(),
    ensures
        all_snippets(v, n).contains(entry_snippets(v[k])[i]),
    decreases n,
{
    let had = all_snippets(v, n - 1);
    let more = entry_snippets(v[n - 1]);
    let all = had + more;
    if k < n - 1 {
        law_no_entry_is_passed_over(v, n - 1, k, i);
        let x = choose|x: int| 0 <= x < had.len() && had[x] == entry_snippets(v[k])[i];
        assert(all[x] == had[x]);
    } else {
        assert(all[had.len() + i] == more[i]);
    }
}

proof fn lemma_added_has(v: Seq<Seq<char>>, more: Seq<Seq<char>>, t: Seq<char>)
    ensures
        texts_added(v, more).contains(t) <==> v.contains(t) || more.contains(t),
{
    lemma_texts_added_has(v, more, more.len() as int, t);
    assert(more.take(more.len() as int) =~= more);
}

proof fn lemma_gathered_keeps<H: Headwords>(
    out: Seq<Seq<char>>,
    taken: nat,
    keys: Seq<Seq<char>>,
    i: int,
    d: &H,
    each: nat,
    t: Seq<char>,
)
    requires
        out.contains(t),
    ensures
        gathered(out, taken, keys, i, d, each).contains(t),
    decreases keys.len() - i,
{
    if 0 <= i < keys.len() {
        if keys[i].contains('#') {
            lemma_gathered_keeps(out, taken, keys, i + 1, d, each, t);
        } else {
            let more = texts_added(out, d.found(keys[i]));
            let now = (taken + more.len() - out.len()) as nat;
            lemma_added_has(out, d.found(keys[i]), t);
            if now < each {
                lemma_gathered_keeps(more, now, keys, i + 1, d, each, t);
            }
        }
    }
}

proof fn lemma_gathered_first<H: Headwords>(
    out: Seq<Seq<char>>,
    keys: Seq<Seq<char>>,
    d: &H,
    each: nat,
    t: Seq<char>,
)
    requires
        keys.len() > 0,
        !keys[0].contains('#'),
        d.found(keys[0]).contains(t),
    ensures
        gathered(out, 0, keys, 0, d, each).contains(t),
{
    let more = texts_added(out, d.found(keys[0]));
    lemma_added_has(out, d.found(keys[0]), t);
    let now = (0 + more.len() - out.len()) as nat;
    if now < each {
        lemma_gathered_keeps(more, now, keys, 1, d, each, t);
    }
}

/// The words of every reading are gathered, whatever is asked of each.
pub proof fn law_words_of_a_reading_are_gathered<H: Headwords>(
    out: Seq<Seq<char>>,
    readings: Seq<Seq<char>>,
    n: int,
    d: &H,
    each: nat,
    k: int,
    t: Seq<char>,
)
    requires
        0 <= k < n <= readings.len(),
        !readings[k].contains('#'),
        d.found(readings[k]).contains(t),
    ensures
        all_gathered(out, readings, n, d, each).contains(t),
    decreases n,
{
    let r = readings[n - 1];
    let keys = seq![r] + d.longer(r, each);
    let had = all_gathered(out, readings, n - 1, d, each);
    if k < n - 1 {
        law_words_of_a_reading_are_gathered(out, readings, n - 1, d, each, k, t);
        lemma_gathered_keeps(had, 0, keys, 0, d, each, t);
    } else {
        assert(keys[0] == r);
        lemma_gathered_first(had, keys, d, each, t);
    }
}

proof fn lemma_all_keep<H: Headwords>(
    out: Seq<Seq<char>>,
    readings: Seq<Seq<char>>,
    n: int,
    d: &H,
    each: nat,
    t: Seq<char>,
)
    requires
        out.contains(t),
    ensures
        all_gathered(out, readings, n, d, each).contains(t),
    decreases n,
{
    if n > 0 {
        lemma_all_keep(out, readings, n - 1, d, each, t);
        let r = readings[n - 1];
        lemma_gathered_keeps(
            all_gathered(out, readings, n - 1, d, each),
            0,
            seq![r] + d.longer(r, each),
            0,
            d,
            each,
            t,
        );
    }
}

/// There are never more words than asked for; as long as they are fewer, all the words of the
/// spelling, of its small letters and of its readings are among them.
pub proof fn law_words_are_found_up_to_the_limit<H: Headwords>(
    word: Seq<char>,
    small: Seq<char>,
    readings: Seq<Seq<char>>,
    d: &H,
    limit: nat,
    t: Seq<char>,
)
    ensures
        words_found(word, small, readings, d, limit).len() <= limit,
        words_found(word, small, readings, d, limit).len() < limit && (d.found(word).contains(t)
            || d.found(small).contains(t) || exists|k: int|
            0 <= k < readings.len() && !(#[trigger] readings[k]).contains('#') && d.found(
                readings[k],
            ).contains(t)) ==> words_found(word, small, readings, d, limit).contains(t),
{
    let none: Seq<Seq<char>> = seq![];
    let a = texts_added(none, d.found(word));
    let own = texts_added(a, d.found(small));
    let each = shared_out(limit, readings.len());
    let n = readings.len() as int;
    let all = all_gathered(own, readings, n, d, each);
    if all.len() < limit {
        lemma_added_has(none, d.found(word), t);
        lemma_added_has(a, d.found(small), t);
        if d.found(word).contains(t) || d.found(small).contains(t) {
            lemma_all_keep(own, readings, n, d, each, t);
        } else if exists|k: int|
            0 <= k < readings.len() && !(#[trigger] readings[k]).contains('#') && d.found(
                readings[k],
            ).contains(t) {
            let k = choose|k: int|
                0 <= k < readings.len() && !(#[trigger] readings[k]).contains('#') && d.found(
                    readings[k],
                ).contains(t);
            law_words_of_a_reading_are_gathered(own, readings, n, d, each, k, t);
        }
    }
}

/// The readings share the limit: each gets as much as the others, and together they get
/// enough.
pub proof fn law_the_limit_is_shared(limit: nat, n: nat)
    requires
        n > 0,
    ensures
        shared_out(limit, n) * n >= limit,
        limit > 0 ==> (shared_out(limit, n) - 1) * n < limit,
{
    let q = shared_out(limit, n);
    let a = (limit + n - 1) as nat;
    vstd::arithmetic::div_mod::lemma_fundamental_div_mod(a as int, n as int);
    vstd::arithmetic::div_mod::lemma_mod_bound(a as int, n as int);
    assert(n * q == q * n) by (nonlinear_arith);
    assert((q - 1) * n == q * n - n) by (nonlinear_arith);
}

/// A new entry is called by its reading; where that name is used it gets the first number,
/// from two on, that makes a name that is not.
pub proof fn law_a_new_name_is_the_first_free_one(text: Seq<char>, prefix: Seq<char>)
    requires
        prefix.len() > 0,
    ensures
        !name_used(text, prefix) ==> fresh_name(text, prefix) == prefix,
        name_used(text, prefix) ==> exists|n: nat|
            n >= 2 && fresh_name(text, prefix) == prefix + " "@ + #[trigger] decimal(n) && (forall|
                m: nat,
            |
                2 <= m < n ==> name_used(text, prefix + " "@ + #[trigger] decimal(m))),
{
    if name_used(text, prefix) {
        lemma_free_number_exists(text, prefix, 2);
        let n = choose|n: nat| free_number(text, prefix, n);
        assert(free_number(text, prefix, n));
        assert(fresh_name(text, prefix) == prefix + " "@ + decimal(n));
        assert forall|m: nat| 2 <= m < n implies name_used(
            text,
            prefix + " "@ + #[trigger] decimal(m),
        ) by {
            assert(name_used(text, numbered(prefix, m)));
        }
    }
}

proof fn lemma_snippet_added(w: Words, s: SnippetText, key: Seq<char>, text: Seq<char>)
    ensures
        has_cand(entry(w, key), text) ==> has_cand(entry(snippet_added(w, s), key), text),
        has_cand(entry(snippet_added(w, s), s.prefix), s.body),
        entry(w, key).is_prefix_of(entry(snippet_added(w, s), key)),
{
    let had = entry(w, s.prefix);
    let c = CandText { text: s.body, annotation: s.description };
    let now = entry(snippet_added(w, s), s.prefix);
    if has_cand(had, s.body) {
        assert(now == had);
    } else {
        assert(now == had.push(c));
        assert(now[had.len() as int].text == s.body);
    }
    let a = entry(w, key);
    let b = entry(snippet_added(w, s), key);
    assert(a =~= b.subrange(0, a.len() as int));
    if has_cand(a, text) {
        let k = choose|k: int| 0 <= k < a.len() && (#[trigger] a[k]).text == text;
        assert(b[k].text == text);
    }
}

proof fn lemma_snippets_added(
    w: Words,
    v: Seq<SnippetText>,
    n: int,
    k: int,
    key: Seq<char>,
    text: Seq<char>,
)
    requires
        0 <= n <= v.len(),
    ensures
        has_cand(entry(w, key), text) ==> has_cand(entry(snippets_added(w, v, n), key), text),
        0 <= k < n ==> has_cand(entry(snippets_added(w, v, n), v[k].prefix), v[k].body),
        entry(w, key).is_prefix_of(entry(snippets_added(w, v, n), key)),
    decreases n,
{
    if n > 0 {
        lemma_snippets_added(w, v, n - 1, k, key, text);
        let had = snippets_added(w, v, n - 1);
        lemma_snippet_added(had, v[n - 1], key, text);
        if 0 <= k < n {
            lemma_snippet_added(had, v[n - 1], v[k].prefix, v[k].body);
        }
        let a = entry(w, key);
        let b = entry(had, key);
        let c = entry(snippet_added(had, v[n - 1]), key);
        lemma_prefixes(a, b, c);
    } else {
        let a = entry(w, key);
        assert(a =~= a.subrange(0, a.len() as int));
    }
}

proof fn lemma_prefixes(a: Seq<CandText>, b: Seq<CandText>, c: Seq<CandText>)
    requires
        a.is_prefix_of(b),
        b.is_prefix_of(c),
    ensures
        a.is_prefix_of(c),
{
    assert(a =~= c.subrange(0, a.len() as int)) by {
        assert forall|i: int| 0 <= i < a.len() implies a[i] == c[i] by {
            assert(a[i] == b.subrange(0, a.len() as int)[i]);
            assert(b[i] == c.subrange(0, b.len() as int)[i]);
        }
    }
}

/// Every snippet of every file is a candidate of its reading.
pub proof fn law_every_snippet_is_a_candidate(lists: Seq<Seq<SnippetText>>, n: int, i: int, k: int)
    requires
        0 <= i < n <= lists.len(),
        0 <= k < lists[i].len(),
    ensures
        has_cand(entry(lists_words(lists, n), lists[i][k].prefix), lists[i][k].body),
    decreases n,
{
    let s = lists[i][k];
    let v = lists[n - 1];
    let had = lists_words(lists, n - 1);
    if i < n - 1 {
        law_every_snippet_is_a_candidate(lists, n - 1, i, k);
        lemma_snippets_added(had, v, v.len() as int, 0, s.prefix, s.body);
    } else {
        lemma_snippets_added(had, v, v.len() as int, k, s.prefix, s.body);
    }
}

/// The snippets of one file come before those of the files behind it.
pub proof fn law_files_of_snippets_come_in_order(
    lists: Seq<Seq<SnippetText>>,
    n: int,
    m: int,
    key: Seq<char>,
)
    requires
        0 <= n <= m <= lists.len(),
    ensures
        entry(lists_words(lists, n), key).is_prefix_of(entry(lists_words(lists, m), key)),
    decreases m - n,
{
    let a = entry(lists_words(lists, n), key);
    if n < m {
        law_files_of_snippets_come_in_order(lists, n, m - 1, key);
        let v = lists[m - 1];
        lemma_snippets_added(lists_words(lists, m - 1), v, v.len() as int, 0, key, key);
        lemma_prefixes(a, entry(lists_words(lists, m - 1), key), entry(lists_words(lists, m), key));
    } else {
        assert(a =~= a.subrange(0, a.len() as int));
    }
}

/// A file that can be read gives its own snippets, and a missing one gives none.
pub proof fn law_each_file_gives_its_snippets(
    files: Seq<Option<Vec<u8>>>,
    kept: Seq<Seq<SnippetText>>,
    i: int,
)
    requires
        0 <= i < files.len(),
    ensures
        lists_read(files, kept).len() == files.len(),
        files[i] is None ==> lists_read(files, kept)[i].len() == 0,
        files[i] is Some && file_snippets(files[i]->0@) is Some ==> lists_read(files, kept)[i]
            == file_snippets(files[i]->0@)->0,
{
}

} // verus!
