//! A table of readings and words that is made beforehand, so that a search need not read
//! the shared dictionaries.
//!
//! It holds a line `reading<TAB>word<TAB>word…` for each reading, sorted by reading. What the
//! user has learned is not in it: that changes all the time, and is read anew.
use vstd::prelude::*;
use vstd::string::*;
use crate::dict::{
    at_most, completions, extends, far_readings, files_loaded, filled_upto, findable, looked_up,
    near_readings, system_loaded, Dict, DictText, Stamp, BUILTIN,
};
use crate::jisyo::{
    add_texts, cand_texts, cands_added, cands_added_upto, entry, has_cand, line_read, lines_loaded,
    nothing_loaded, okuri_ari, texts_added, texts_added_upto, CandText, Candidate, Loaded, Words,
};
use crate::migemo::{plain_texts, Headwords};
use crate::order::{
    ascending, is_before, lemma_listed_set, lemma_precedes_irreflexive, lemma_precedes_transitive,
    listed, precedes, sorted, spelled_out,
};
use crate::text::{
    chars_of, decimal, find_char, first_at, has_char, has_text, is_letter, join, join_texts,
    lemma_first_at, lemma_first_of_none, lemma_first_stays, lemma_is_first_at, lemma_split_push,
    lemma_take_next, lines, not_empty, number_text, slice_text, split, split_text, starts_at,
    text_of, texts,
};

verus! {

/// A shared dictionary: where it is, and what marks its state if it is there.
pub type SourceFile = (String, Option<Stamp>);

/// What is known of the shared dictionaries.
pub open spec fn source_texts(v: Seq<SourceFile>) -> Seq<(Seq<char>, Option<Stamp>)> {
    v.map_values(|s: SourceFile| (s.0@, s.1))
}

/// What marks the state of a shared dictionary; one that is not there counts as empty.
pub open spec fn mark_text(s: (Seq<char>, Option<Stamp>)) -> Seq<char> {
    let (secs, len) = match s.1 {
        Some(t) => (t.secs as nat, t.len as nat),
        None => (0, 0),
    };
    s.0 + seq![':'] + decimal(secs) + seq![':'] + decimal(len)
}

/// The first line of a table that was made from these dictionaries.
pub open spec fn header_text(sources: Seq<(Seq<char>, Option<Stamp>)>) -> Seq<char> {
    "ttyskk-migemo-index\t1\t"@ + join(
        sources.map_values(|s: (Seq<char>, Option<Stamp>)| mark_text(s)),
        "\t"@,
    )
}

/// The readings that go into a table: those that can be found by their beginning and stand
/// for no number.
pub open spec fn indexed(d: DictText, k: Seq<char>) -> bool {
    d.system.words.dom().contains(k) && findable(k) && !k.contains('#')
}

/// Neither a tab nor a line feed.
pub open spec fn unbroken() -> spec_fn(char) -> bool {
    |c: char| c != '\t' && c != '\n'
}

/// The first `n` words as they stand behind a reading.
pub open spec fn words_line(v: Seq<CandText>, n: int) -> Seq<char>
    decreases n,
{
    if n <= 0 {
        seq![]
    } else {
        words_line(v, n - 1) + seq!['\t'] + v[n - 1].text.filter(unbroken())
    }
}

/// The line of a reading.
pub open spec fn row_line(key: Seq<char>, v: Seq<CandText>) -> Seq<char> {
    key + words_line(v, v.len() as int)
}

/// The lines of the first `n` readings.
pub open spec fn row_lines(d: DictText, keys: Seq<Seq<char>>, n: int) -> Seq<char>
    decreases n,
{
    if n <= 0 {
        seq![]
    } else {
        row_lines(d, keys, n - 1) + row_line(keys[n - 1], d.system.words[keys[n - 1]]) + seq!['\n']
    }
}

/// The readings of a table in order.
pub open spec fn index_keys(d: DictText) -> Seq<Seq<char>> {
    listed(false, Set::new(|k: Seq<char>| indexed(d, k)))
}

/// A whole table.
pub open spec fn index_text(d: DictText, sources: Seq<(Seq<char>, Option<Stamp>)>) -> Seq<char> {
    header_text(sources) + seq!['\n'] + row_lines(d, index_keys(d), index_keys(d).len() as int)
}

/// The lines of a table, unless it was made from other dictionaries.
pub open spec fn table_lines(
    text: Seq<char>,
    sources: Seq<(Seq<char>, Option<Stamp>)>,
) -> Option<Seq<Seq<char>>> {
    let n = first_at(text, '\n') as int;
    if n < text.len() && text.take(n) == header_text(sources) {
        Some(split(text.skip(n + 1), '\n').filter(not_empty()))
    } else {
        None
    }
}

/// The reading of a line.
pub open spec fn line_key(line: Seq<char>) -> Seq<char> {
    line.take(first_at(line, '\t') as int)
}

/// The words of a line.
pub open spec fn line_words(line: Seq<char>) -> Seq<Seq<char>> {
    split(line, '\t').skip(1)
}

/// The place to which halving the range from `lo` up to `hi` leads: in a sorted table, that
/// of the first reading that does not come before `key`.
pub open spec fn bisected(lines: Seq<Seq<char>>, key: Seq<char>, lo: int, hi: int) -> int
    decreases hi - lo,
{
    if lo >= hi {
        lo
    } else {
        let mid = (lo + hi) / 2;
        if precedes(line_key(lines[mid]), key) {
            bisected(lines, key, mid + 1, hi)
        } else {
            bisected(lines, key, lo, mid)
        }
    }
}

/// Where a reading is looked for.
pub open spec fn place_of(lines: Seq<Seq<char>>, key: Seq<char>) -> int {
    bisected(lines, key, 0, lines.len() as int)
}

/// Where the readings end, from the line `i` on, that start with `prefix`.
pub open spec fn range_end(lines: Seq<Seq<char>>, prefix: Seq<char>, i: int) -> int
    decreases lines.len() - i,
{
    if 0 <= i < lines.len() && prefix.is_prefix_of(line_key(lines[i])) {
        range_end(lines, prefix, i + 1)
    } else {
        i
    }
}

/// The longer readings of a table that start with `prefix`. As in the dictionaries, those
/// that look like readings with okurigana are not found by their beginning.
pub open spec fn table_longer(lines: Seq<Seq<char>>, prefix: Seq<char>) -> Set<Seq<char>> {
    let lo = place_of(lines, prefix);
    let hi = range_end(lines, prefix, lo);
    lines.subrange(lo, hi).map_values(|l: Seq<char>| line_key(l)).to_set().filter(
        |k: Seq<char>| k.len() > prefix.len() && !okuri_ari(k),
    )
}

/// A table and what the user has learned.
pub struct Index {
    lines: Vec<String>,
    user: Dict,
}

impl Index {
    /// The lines of the table.
    pub closed spec fn rows(&self) -> Seq<Seq<char>> {
        texts(self.lines@)
    }

    /// What the user has learned.
    pub closed spec fn own(&self) -> DictText {
        self.user@
    }

    pub closed spec fn wf(&self) -> bool {
        self.user.wf()
    }
}

/// What marks the state of a shared dictionary.
fn stamp(s: &SourceFile) -> (r: String)
    ensures
        r@ == mark_text((s.0@, s.1)),
{
    let (secs, len): (u64, u64) = match &s.1 {
        Some(t) => (t.secs, t.len),
        None => (0, 0),
    };
    let mut out = s.0.clone();
    out.push(':');
    let a = number_text(secs);
    out.append(a.as_str());
    out.push(':');
    let b = number_text(len);
    out.append(b.as_str());
    assert(out@ =~= mark_text((s.0@, s.1)));
    out
}

/// The first line of a table that was made from these dictionaries.
fn header(sources: &Vec<SourceFile>) -> (r: String)
    ensures
        r@ == header_text(source_texts(sources@)),
{
    let ghost all = source_texts(sources@).map_values(
        |s: (Seq<char>, Option<Stamp>)| mark_text(s),
    );
    let mut marks: Vec<String> = Vec::new();
    let mut i: usize = 0;
    while i < sources.len()
        invariant
            i <= sources@.len(),
            all == source_texts(sources@).map_values(
                |s: (Seq<char>, Option<Stamp>)| mark_text(s),
            ),
            texts(marks@) =~= all.take(i as int),
        decreases sources.len() - i,
    {
        let ghost had = texts(marks@);
        let one = stamp(&sources[i]);
        marks.push(one);
        i = i + 1;
        proof {
            lemma_take_next(all, i - 1);
            assert(texts(marks@) =~= had.push(one@));
        }
    }
    assert(all.take(i as int) =~= all);
    let mut out = "ttyskk-migemo-index\t1\t".to_owned();
    let rest = join_texts(&marks, "\t");
    out.append(rest.as_str());
    out
}

/// A word without tabs and line feeds.
fn on_one_line(s: &str) -> (r: String)
    ensures
        r@ == s@.filter(unbroken()),
{
    let v = chars_of(s);
    let mut out = String::new();
    let mut i: usize = 0;
    assert(v@.take(0).filter(unbroken()) =~= seq![]);
    while i < v.len()
        invariant
            i <= v@.len(),
            v@ == s@,
            out@ == v@.take(i as int).filter(unbroken()),
        decreases v.len() - i,
    {
        proof {
            lemma_take_next(v@, i as int);
            Seq::lemma_filter_push(v@.take(i as int), v@[i as int], unbroken());
        }
        if v[i] != '\t' && v[i] != '\n' {
            out.push(v[i]);
        }
        i = i + 1;
    }
    assert(v@.take(i as int) =~= v@);
    out
}

/// Adds the line of a reading.
fn push_row(out: &mut String, key: &str, cands: &Vec<Candidate>)
    ensures
        final(out)@ == old(out)@ + row_line(key@, cand_texts(cands@)) + seq!['\n'],
{
    let ghost first = out@;
    let ghost all = cand_texts(cands@);
    out.append(key);
    let mut i: usize = 0;
    assert(out@ =~= first + (key@ + words_line(all, 0)));
    while i < cands.len()
        invariant
            i <= cands@.len(),
            all == cand_texts(cands@),
            out@ == first + (key@ + words_line(all, i as int)),
        decreases cands.len() - i,
    {
        assert(all[i as int] == cands@[i as int]@);
        let word = on_one_line(cands[i].text.as_str());
        out.push('\t');
        out.append(word.as_str());
        i = i + 1;
        assert(out@ =~= first + (key@ + words_line(all, i as int)));
    }
    out.push('\n');
    assert(out@ =~= first + row_line(key@, all) + seq!['\n']);
}

/// The readings that go into a table, in order.
fn sorted_keys(dict: &Dict) -> (r: Vec<Vec<char>>)
    requires
        dict.wf(),
    ensures
        spelled_out(r@) == index_keys(dict@),
        forall|i: int| 0 <= i < r@.len() ==> indexed(dict@, #[trigger] spelled_out(r@)[i]),
{
    let entries = dict.system_entries();
    let ghost d = dict@;
    let mut keys: Vec<Vec<char>> = Vec::new();
    let mut i: usize = 0;
    while i < entries.len()
        invariant
            i <= entries@.len(),
            d == dict@,
            forall|j: int|
                0 <= j < entries@.len() ==> d.system.words.dom().contains(
                    (#[trigger] entries@[j]).0@,
                ) && findable(entries@[j].0@),
            forall|j: int| 0 <= j < keys@.len() ==> indexed(d, #[trigger] spelled_out(keys@)[j]),
            forall|j: int|
                0 <= j < i && !(#[trigger] entries@[j]).0@.contains('#') ==> spelled_out(
                    keys@,
                ).contains(entries@[j].0@),
        decreases entries.len() - i,
    {
        let ghost had = spelled_out(keys@);
        let key = chars_of(entries[i].0.as_str());
        let ghost k = key@;
        assert(k == entries@[i as int].0@);
        if !has_char(&key, '#') {
            keys.push(key);
            proof {
                assert(spelled_out(keys@) =~= had.push(k));
                assert forall|j: int|
                    0 <= j <= i && !(#[trigger] entries@[j]).0@.contains('#') implies spelled_out(
                    keys@,
                ).contains(entries@[j].0@) by {
                    crate::order::lemma_push_contains(had, k, entries@[j].0@);
                }
                assert forall|j: int| 0 <= j < keys@.len() implies indexed(
                    d,
                    #[trigger] spelled_out(keys@)[j],
                ) by {
                    if j < had.len() {
                        assert(spelled_out(keys@)[j] == had[j]);
                    }
                }
            }
        }
        i = i + 1;
    }
    let r = sorted(false, &keys);
    proof {
        let set = Set::new(|k: Seq<char>| indexed(d, k));
        let all = spelled_out(keys@);
        assert forall|k: Seq<char>| all.to_set().contains(k) <==> set.contains(k) by {
            if all.contains(k) {
                let j = choose|j: int| 0 <= j < all.len() && all[j] == k;
                assert(indexed(d, all[j]));
            }
            if indexed(d, k) {
                let j = choose|j: int| 0 <= j < entries@.len() && (#[trigger] entries@[j]).0@ == k;
                assert(all.contains(entries@[j].0@));
            }
        }
        assert(all.to_set() =~= set);
        let out = spelled_out(r@);
        assert forall|j: int| 0 <= j < r@.len() implies indexed(d, #[trigger] out[j]) by {
            assert(out.contains(out[j]));
            assert(out.to_set().contains(out[j]));
            assert(all.to_set().contains(out[j]));
        }
    }
    r
}

impl Index {
    /// Makes a table of the shared dictionaries.
    pub fn build(dict: &Dict, sources: &Vec<SourceFile>) -> (r: String)
        requires
            dict.wf(),
        ensures
            r@ == index_text(dict@, source_texts(sources@)),
    {
        let keys = sorted_keys(dict);
        let ghost ks = spelled_out(keys@);
        let ghost d = dict@;
        let mut out = header(sources);
        out.push('\n');
        let ghost first = out@;
        let mut i: usize = 0;
        assert(out@ =~= first + row_lines(d, ks, 0));
        while i < keys.len()
            invariant
                i <= keys@.len(),
                d == dict@,
                dict.wf(),
                ks == spelled_out(keys@),
                forall|j: int| 0 <= j < ks.len() ==> indexed(d, #[trigger] ks[j]),
                out@ == first + row_lines(d, ks, i as int),
            decreases keys.len() - i,
        {
            let key = text_of(&keys[i]);
            assert(ks[i as int] == key@);
            assert(indexed(d, ks[i as int]));
            if let Some(cands) = dict.system_cands(key.as_str()) {
                push_row(&mut out, key.as_str(), cands);
            }
            i = i + 1;
            assert(out@ =~= first + row_lines(d, ks, i as int));
        }
        out
    }

    /// Takes a table, unless it was made from dictionaries that have changed since.
    pub fn load(text: &str, sources: &Vec<SourceFile>, user: Dict) -> (r: Option<Index>)
        requires
            user.wf(),
        ensures
            match table_lines(text@, source_texts(sources@)) {
                Some(rows) => {
                    &&& r is Some
                    &&& r->0.rows() == rows
                    &&& r->0.own() == user@
                    &&& r->0.wf()
                },
                None => r is None,
            },
    {
            let v = chars_of(text);
        let n = find_char(&v, 0, '\n');
        proof {
            assert(v@.skip(0) =~= v@);
            lemma_first_at(v@, '\n');
        }
        if n >= v.len() {
            return None;
        }
        let first = slice_text(&v, 0, n);
        assert(first@ =~= text@.take(n as int));
        let wanted = header(sources);
        if *first.as_str() != *wanted.as_str() {
            return None;
        }
        let rest = slice_text(&v, n + 1, v.len());
        assert(rest@ =~= text@.skip(n + 1));
        let all = split_text(rest.as_str(), '\n');
        let ghost at = texts(all@);
        let mut lines: Vec<String> = Vec::new();
        let mut i: usize = 0;
        assert(at.take(0).filter(not_empty()) =~= seq![]);
        assert(texts(lines@) =~= seq![]);
        while i < all.len()
            invariant
                i <= all@.len(),
                at == texts(all@),
                texts(lines@) == at.take(i as int).filter(not_empty()),
            decreases all.len() - i,
        {
            let ghost had = texts(lines@);
            proof {
                lemma_take_next(at, i as int);
                assert(at[i as int] == all@[i as int]@);
                Seq::lemma_filter_push(at.take(i as int), at[i as int], not_empty());
            }
            if !all[i].as_str().is_empty() {
                let line = all[i].clone();
                lines.push(line);
                assert(texts(lines@) =~= had.push(line@));
            }
            i = i + 1;
        }
        assert(at.take(i as int) =~= at);
        Some(Index { lines, user })
    }

    /// The reading of a line.
    fn key_of(&self, i: usize) -> (r: Vec<char>)
        requires
            i < self.rows().len(),
        ensures
            r@ == line_key(self.rows()[i as int]),
    {
        let v = chars_of(self.lines[i].as_str());
        let n = find_char(&v, 0, '\t');
        let mut out = v;
        proof {
            assert(v@.skip(0) =~= v@);
            lemma_first_at(v@, '\t');
        }
        out.truncate(n);
        assert(out@ =~= line_key(self.rows()[i as int]));
        out
    }

    /// Where a reading is looked for.
    fn lower_bound(&self, key: &Vec<char>) -> (r: usize)
        ensures
            r == place_of(self.rows(), key@),
            r <= self.rows().len(),
    {
        let mut lo: usize = 0;
        let mut hi: usize = self.lines.len();
        while lo < hi
            invariant
                lo <= hi <= self.rows().len(),
                self.rows().len() == self.lines@.len(),
                place_of(self.rows(), key@) == bisected(self.rows(), key@, lo as int, hi as int),
            decreases hi - lo,
        {
            let mid: usize = lo + (hi - lo) / 2;
            assert(mid == (lo + hi) / 2);
            let at = self.key_of(mid);
            if is_before(false, &at, key) {
                lo = mid + 1;
            } else {
                hi = mid;
            }
        }
        lo
    }
}

impl Headwords for Index {
    open spec fn ready(&self) -> bool {
        self.wf()
    }

    open spec fn found(&self, key: Seq<char>) -> Seq<Seq<char>> {
        let own = plain_texts(looked_up(self.own(), key));
        let i = place_of(self.rows(), key);
        if i < self.rows().len() && line_key(self.rows()[i]) == key {
            texts_added(own, line_words(self.rows()[i]))
        } else {
            own
        }
    }

    open spec fn longer(&self, prefix: Seq<char>, limit: nat) -> Seq<Seq<char>> {
        let far = listed(true, table_longer(self.rows(), prefix));
        filled_upto(completions(self.own(), prefix, limit), far, limit, far.len() as int)
    }

    fn lookup(&self, key: &str) -> (r: Vec<String>) {
        let mut out = Headwords::lookup(&self.user, key);
        let k = chars_of(key);
        let i = self.lower_bound(&k);
        if i < self.lines.len() {
            let at = self.key_of(i);
            let at_text = text_of(&at);
            if *at_text.as_str() == *key {
                let parts = split_text(self.lines[i].as_str(), '\t');
                let ghost ps = texts(parts@);
                let mut words: Vec<String> = Vec::new();
                let mut j: usize = 1;
                assert(texts(words@) =~= seq![]);
                proof {
                    assert(ps == split(self.rows()[i as int], '\t'));
                    assert(ps.len() >= 1);
                }
                while j < parts.len()
                    invariant
                        1 <= j <= parts@.len(),
                        ps == texts(parts@),
                        texts(words@) =~= ps.subrange(1, j as int),
                    decreases parts.len() - j,
                {
                    let ghost had = texts(words@);
                    let one = parts[j].clone();
                    words.push(one);
                    j = j + 1;
                    proof {
                        assert(texts(words@) =~= had.push(one@));
                        assert(ps.subrange(1, j as int) =~= ps.subrange(1, j - 1).push(ps[j - 1]));
                    }
                }
                assert(texts(words@) =~= line_words(self.rows()[i as int]));
                add_texts(&mut out, &words);
            }
        }
        out
    }

    fn complete(&self, prefix: &str, limit: usize) -> (r: Vec<String>) {
        let mut out = Dict::complete(&self.user, prefix, limit);
        let ghost own = texts(out@);
        let p = chars_of(prefix);
        let lo = self.lower_bound(&p);
        let ghost rows = self.rows();
        let ghost good = |k: Seq<char>| k.len() > prefix@.len() && !okuri_ari(k);
        let mut keys: Vec<Vec<char>> = Vec::new();
        let mut i: usize = lo;
        let mut on = true;
        while on && i < self.lines.len()
            invariant
                lo <= i <= rows.len(),
                rows == self.rows(),
                rows.len() == self.lines@.len(),
                p@ == prefix@,
                good == (|k: Seq<char>| k.len() > prefix@.len() && !okuri_ari(k)),
                range_end(rows, prefix@, lo as int) == range_end(rows, prefix@, i as int),
                !on ==> range_end(rows, prefix@, lo as int) == i,
                forall|k: Seq<char>|
                    #[trigger] spelled_out(keys@).contains(k) <==> good(k) && exists|j: int|
                        lo <= j < i && line_key(#[trigger] rows[j]) == k,
            decreases
                    self.lines.len() - i,
                    (if on {
                        1int
                    } else {
                        0
                    }),
        {
            let key = self.key_of(i);
            if starts_at(&key, 0, &p) {
                assert(key@.subrange(0, p@.len() as int) =~= p@);
                let ghost had = spelled_out(keys@);
                let ghost k0 = key@;
                let ghost was = keys@;
                if key.len() > p.len() && !ends_in_letter(&key) {
                    keys.push(key);
                    assert(spelled_out(keys@) =~= had.push(k0));
                }
                i = i + 1;
                proof {
                    assert forall|k: Seq<char>|
                        #[trigger] spelled_out(keys@).contains(k) <==> good(k) && exists|j: int|
                            lo <= j < i && line_key(#[trigger] rows[j]) == k by {
                        crate::order::lemma_push_contains(had, k0, k);
                        assert(line_key(rows[i - 1]) == k0);
                        if had.contains(k) {
                            let j = choose|j: int|
                                lo <= j < i - 1 && line_key(#[trigger] rows[j]) == k;
                            assert(lo <= j < i);
                        }
                        if good(k) && exists|j: int|
                            lo <= j < i && line_key(#[trigger] rows[j]) == k {
                            let j = choose|j: int|
                                lo <= j < i && line_key(#[trigger] rows[j]) == k;
                            if j < i - 1 {
                                assert(had.contains(k));
                            }
                        }
                    }
                }
            } else {
                proof {
                    if p@.is_prefix_of(key@) {
                        assert(key@.subrange(0, p@.len() as int) == p@);
                    }
                }
                on = false;
            }
        }
        let ghost hi = i as int;
        assert(hi == range_end(rows, prefix@, lo as int));
        let far = sorted(true, &keys);
        let ghost ft = spelled_out(far@);
        proof {
            let set = table_longer(rows, prefix@);
            let part = rows.subrange(lo as int, hi).map_values(|l: Seq<char>| line_key(l));
            assert forall|k: Seq<char>| spelled_out(keys@).to_set().contains(k) <==> set.contains(
                k,
            ) by {
                if part.contains(k) {
                    let j = choose|j: int| 0 <= j < part.len() && part[j] == k;
                    assert(line_key(rows[lo + j]) == k);
                }
                if exists|j: int| lo <= j < hi && line_key(#[trigger] rows[j]) == k {
                    let j = choose|j: int| lo <= j < hi && line_key(#[trigger] rows[j]) == k;
                    assert(part[j - lo] == k);
                }
                assert(spelled_out(keys@).contains(k) <==> good(k) && part.contains(k));
            }
            assert(spelled_out(keys@).to_set() =~= set);
        }
        let mut j: usize = 0;
        while j < far.len()
            invariant
                j <= far@.len(),
                ft == spelled_out(far@),
                texts(out@) == filled_upto(own, ft, limit as nat, j as int),
            decreases far.len() - j,
        {
            let ghost had = texts(out@);
            let k = text_of(&far[j]);
            assert(ft[j as int] == k@);
            if out.len() < limit && !has_text(&out, k.as_str()) {
                out.push(k);
                assert(texts(out@) =~= had.push(k@));
            }
            j = j + 1;
        }
        out
    }
}

/// Whether a reading looks like one with okurigana.
fn ends_in_letter(v: &Vec<char>) -> (r: bool)
    ensures
        r == okuri_ari(v@),
{
    v.len() > 0 && is_letter(v[v.len() - 1])
}

/// Where the shared dictionaries are said to be.
pub open spec fn places_of(v: Seq<(Seq<char>, Option<Stamp>)>) -> Seq<Seq<char>> {
    v.map_values(|s: (Seq<char>, Option<Stamp>)| s.0)
}

/// Whether one of the shared dictionaries is there.
pub open spec fn any_there(v: Seq<(Seq<char>, Option<Stamp>)>) -> bool {
    exists|i: int| 0 <= i < v.len() && (#[trigger] v[i]).1 is Some
}

/// What is said where none of the shared dictionaries is there.
pub open spec fn nowhere_text(v: Seq<(Seq<char>, Option<Stamp>)>) -> Seq<char> {
    "共有辞書が無い ("@ + join(places_of(v), ", "@) + ")。TTYSKK_JISYO で場所を指せる"@
}

/// Prepares what words are looked for in. Where the table cannot be used the dictionaries
/// themselves have to be read: that is slower and gives the same words.
pub fn source(sources: &Vec<SourceFile>, table: Option<&str>, user: Dict) -> (r: Result<
    Option<Index>,
    String,
>)
    requires
        user.wf(),
    ensures
        if !any_there(source_texts(sources@)) {
            r is Err && r->Err_0@ == nowhere_text(source_texts(sources@))
        } else {
            &&& r is Ok
            &&& match table {
                None => r->Ok_0 is None,
                Some(t) => match table_lines(t@, source_texts(sources@)) {
                    None => r->Ok_0 is None,
                    Some(rows) => {
                        &&& r->Ok_0 is Some
                        &&& r->Ok_0->0.rows() == rows
                        &&& r->Ok_0->0.own() == user@
                        &&& r->Ok_0->0.wf()
                    },
                },
            }
        },
{
    let ghost all = source_texts(sources@);
    let mut places: Vec<String> = Vec::new();
    let mut any = false;
    let mut i: usize = 0;
    while i < sources.len()
        invariant
            i <= sources@.len(),
            all == source_texts(sources@),
            any == (exists|j: int| 0 <= j < i && (#[trigger] all[j]).1 is Some),
            texts(places@) =~= places_of(all).take(i as int),
        decreases sources.len() - i,
    {
        let ghost had = texts(places@);
        assert(all[i as int] == (sources@[i as int].0@, sources@[i as int].1));
        if sources[i].1.is_some() {
            any = true;
        }
        let place = sources[i].0.clone();
        places.push(place);
        i = i + 1;
        proof {
            lemma_take_next(places_of(all), i - 1);
            assert(texts(places@) =~= had.push(place@));
        }
    }
    assert(places_of(all).take(i as int) =~= places_of(all));
    if !any {
        let mut text = "共有辞書が無い (".to_owned();
        let list = join_texts(&places, ", ");
        text.append(list.as_str());
        text.append(")。TTYSKK_JISYO で場所を指せる");
        return Err(text);
    }
    match table {
        Some(t) => Ok(Index::load(t, sources, user)),
        None => Ok(None),
    }
}

/// The lines of the readings of a table.
pub open spec fn rows_of(d: DictText) -> Seq<Seq<char>> {
    index_keys(d).map_values(|k: Seq<char>| row_line(k, d.system.words[k]))
}

/// Whether the shared dictionaries hold nothing that a line cannot: their readings are not
/// empty, and neither tabs nor line feeds are in them or in their words.
pub open spec fn tabular(d: DictText) -> bool {
    &&& d.system.words.dom().finite()
    &&& forall|k: Seq<char>|
        #[trigger] d.system.words.dom().contains(k) ==> k.len() > 0 && !k.contains('\t')
            && !k.contains('\n')
    &&& forall|k: Seq<char>, i: int|
        d.system.words.dom().contains(k) && 0 <= i < d.system.words[k].len()
            ==> !(#[trigger] d.system.words[k][i]).text.contains('\t')
            && !d.system.words[k][i].text.contains('\n')
}

proof fn lemma_unbroken(s: Seq<char>)
    requires
        !s.contains('\t'),
        !s.contains('\n'),
    ensures
        s.filter(unbroken()) == s,
    decreases s.len(),
{
    if s.len() > 0 {
        let t = s.drop_last();
        assert(!t.contains('\t')) by {
            if t.contains('\t') {
                let i = choose|i: int| 0 <= i < t.len() && t[i] == '\t';
                assert(s[i] == '\t');
            }
        }
        assert(!t.contains('\n')) by {
            if t.contains('\n') {
                let i = choose|i: int| 0 <= i < t.len() && t[i] == '\n';
                assert(s[i] == '\n');
            }
        }
        lemma_unbroken(t);
        assert(s.last() == s[s.len() - 1]);
        assert(s =~= t.push(s.last()));
        Seq::lemma_filter_push(t, s.last(), unbroken());
    } else {
        assert(s.filter(unbroken()) =~= s);
    }
}

/// What a line says is what was written on it.
proof fn lemma_line_says(key: Seq<char>, v: Seq<CandText>, n: int)
    requires
        0 <= n <= v.len(),
        !key.contains('\t'),
        forall|i: int|
            0 <= i < v.len() ==> !(#[trigger] v[i]).text.contains('\t') && !v[i].text.contains('\n'),
    ensures
        split(key + words_line(v, n), '\t') == seq![key] + plain_texts(v).take(n),
        line_key(key + words_line(v, n)) == key,
    decreases n,
{
    let line = key + words_line(v, n);
    lemma_first_of_none(key, '\t');
    if n > 0 {
        lemma_line_says(key, v, n - 1);
        let a = key + words_line(v, n - 1);
        let w = v[n - 1].text;
        lemma_unbroken(w);
        assert(line =~= a + seq!['\t'] + w);
        lemma_split_push(a, w, '\t');
        lemma_take_next(plain_texts(v), n - 1);
        assert(split(line, '\t') =~= seq![key] + plain_texts(v).take(n));
        let rest = line.skip(key.len() as int);
        assert(line[key.len() as int] == '\t') by {
            lemma_words_start(v, n);
            assert(line[key.len() as int] == words_line(v, n)[0]);
        }
        assert forall|j: int| 0 <= j < key.len() implies line[j] != '\t' by {
            assert(line[j] == key[j]);
        }
        lemma_is_first_at(line, '\t', key.len() as int);
        assert(line.take(key.len() as int) =~= key);
    } else {
        assert(line =~= key);
        assert(split(line, '\t') =~= seq![key] + plain_texts(v).take(0));
        assert(key.take(key.len() as int) =~= key);
    }
}

proof fn lemma_words_start(v: Seq<CandText>, n: int)
    requires
        0 < n <= v.len(),
    ensures
        words_line(v, n).len() > 0,
        words_line(v, n)[0] == '\t',
    decreases n,
{
    let a = words_line(v, n - 1);
    assert(words_line(v, n) == a + seq!['\t'] + v[n - 1].text.filter(unbroken()));
    if n > 1 {
        lemma_words_start(v, n - 1);
        assert(words_line(v, n)[0] == a[0]);
    } else {
        assert(a.len() == 0);
        assert((a + seq!['\t'])[0] == '\t');
    }
}

proof fn lemma_no_feed_in_words(v: Seq<CandText>, n: int)
    requires
        0 <= n <= v.len(),
        forall|i: int|
            0 <= i < v.len() ==> !(#[trigger] v[i]).text.contains('\t') && !v[i].text.contains('\n'),
    ensures
        !words_line(v, n).contains('\n'),
    decreases n,
{
    if n > 0 {
        lemma_no_feed_in_words(v, n - 1);
        let w = v[n - 1].text;
        lemma_unbroken(w);
        let line = words_line(v, n);
        if line.contains('\n') {
            let i = choose|i: int| 0 <= i < line.len() && line[i] == '\n';
            let a = words_line(v, n - 1);
            if i < a.len() {
                assert(a[i] == '\n');
            } else if i > a.len() {
                assert(w[i - a.len() - 1] == '\n');
            }
        }
    }
}

proof fn lemma_keys_are_indexed(d: DictText)
    requires
        d.system.words.dom().finite(),
    ensures
        ascending(false, index_keys(d)),
        forall|k: Seq<char>| #[trigger] index_keys(d).contains(k) <==> indexed(d, k),
{
    let set = Set::new(|k: Seq<char>| indexed(d, k));
    assert(set.subset_of(d.system.words.dom()));
    vstd::set_lib::lemma_set_subset_finite(d.system.words.dom(), set);
    lemma_listed_set(false, set);
    assert forall|k: Seq<char>| #[trigger] index_keys(d).contains(k) <==> indexed(d, k) by {
        assert(index_keys(d).to_set().contains(k) <==> set.contains(k));
    }
}

#[verifier::rlimit(60)]
proof fn lemma_rows_split(d: DictText, n: int)
    requires
        tabular(d),
        0 <= n <= index_keys(d).len(),
    ensures
        split(row_lines(d, index_keys(d), n), '\n') == rows_of(d).take(n).push(seq![]),
        rows_of(d).take(n).push(seq![]).filter(not_empty()) == rows_of(d).take(n),
    decreases n,
{
    let keys = index_keys(d);
    let rows = rows_of(d);
    let none: Seq<char> = seq![];
    Seq::lemma_filter_push(rows.take(n), none, not_empty());
    if n > 0 {
        lemma_rows_split(d, n - 1);
        lemma_keys_are_indexed(d);
        let k = keys[n - 1];
        assert(keys.contains(k));
        assert(d.system.words.dom().contains(k));
        let v = d.system.words[k];
        let row = row_line(k, v);
        assert forall|i: int| 0 <= i < v.len() implies !(#[trigger] v[i]).text.contains('\t')
            && !v[i].text.contains('\n') by {
            assert(d.system.words[k][i] == v[i]);
        }
        lemma_no_feed_in_words(v, v.len() as int);
        assert(!row.contains('\n')) by {
            if row.contains('\n') {
                let i = choose|i: int| 0 <= i < row.len() && row[i] == '\n';
                if i < k.len() {
                    assert(k[i] == '\n');
                } else {
                    assert(words_line(v, v.len() as int)[i - k.len()] == '\n');
                }
            }
        }
        let a = row_lines(d, keys, n - 1);
        lemma_split_ends(a, row, '\n');
        lemma_take_next(rows, n - 1);
        assert(split(row_lines(d, keys, n), '\n') =~= rows.take(n).push(none));
        Seq::lemma_filter_push(rows.take(n - 1), row, not_empty());
        Seq::lemma_filter_push(rows.take(n - 1), none, not_empty());
        assert(row.len() > 0);
    } else {
        assert(row_lines(d, keys, 0) =~= none);
        lemma_first_of_none(none, '\n');
        assert(split(none, '\n') =~= seq![none]);
        assert(rows.take(0) =~= seq![]);
        assert(rows.take(0).push(none) =~= seq![none]);
        assert(rows.take(0).filter(not_empty()) =~= seq![]);
    }
}

/// A line behind whole lines is one line more.
proof fn lemma_split_ends(a: Seq<char>, x: Seq<char>, c: char)
    requires
        split(a, c).last() == Seq::<char>::empty(),
        split(a, c).len() > 0,
        !x.contains(c),
    ensures
        split(a + x + seq![c], c) == split(a, c).drop_last().push(x).push(seq![]),
    decreases a.len(),
{
    let s = a + x + seq![c];
    let none: Seq<char> = seq![];
    let n = first_at(a, c) as int;
    lemma_first_at(a, c);
    if n >= a.len() {
        assert(split(a, c) =~= seq![a]);
        assert(a =~= none);
        assert(s =~= x + seq![c] + none);
        lemma_split_push(x, none, c);
        lemma_first_of_none(x, c);
        assert(split(x, c) =~= seq![x]);
        assert(split(s, c) =~= split(a, c).drop_last().push(x).push(none));
    } else {
        assert(s =~= a + (x + seq![c]));
        lemma_first_stays(a, x + seq![c], c);
        let rest = a.skip(n + 1);
        assert(s.skip(n + 1) =~= rest + x + seq![c]);
        assert(s.take(n) =~= a.take(n));
        lemma_split_some(rest, c);
        assert(split(a, c) =~= seq![a.take(n)] + split(rest, c));
        assert(split(a, c).last() == split(rest, c).last());
        lemma_split_ends(rest, x, c);
        assert(split(s, c) =~= split(a, c).drop_last().push(x).push(none));
    }
}

proof fn lemma_split_some(s: Seq<char>, c: char)
    ensures
        split(s, c).len() > 0,
{
}

/// A table that was made and is taken again holds the lines that were made: a reading and
/// its words for each reading that goes into it.
pub proof fn law_a_table_reads_back(d: DictText, sources: Seq<(Seq<char>, Option<Stamp>)>)
    requires
        tabular(d),
        !header_text(sources).contains('\n'),
    ensures
        table_lines(index_text(d, sources), sources) == Some(rows_of(d)),
{
    let head = header_text(sources);
    let keys = index_keys(d);
    let lines = row_lines(d, keys, keys.len() as int);
    let text = index_text(d, sources);
    assert(text[head.len() as int] == '\n');
    assert forall|j: int| 0 <= j < head.len() implies text[j] != '\n' by {
        assert(text[j] == head[j]);
    }
    lemma_is_first_at(text, '\n', head.len() as int);
    assert(text.take(head.len() as int) =~= head);
    assert(text.skip(head.len() as int + 1) =~= lines);
    lemma_rows_split(d, keys.len() as int);
    assert(rows_of(d).take(keys.len() as int) =~= rows_of(d));
}

/// A table is not taken once one of the dictionaries that it was made from has another
/// mark.
pub proof fn law_a_stale_table_is_not_taken(
    d: DictText,
    made: Seq<(Seq<char>, Option<Stamp>)>,
    now: Seq<(Seq<char>, Option<Stamp>)>,
)
    requires
        !header_text(made).contains('\n'),
        header_text(made) != header_text(now),
    ensures
        table_lines(index_text(d, made), now) is None,
{
    let head = header_text(made);
    let text = index_text(d, made);
    assert(text[head.len() as int] == '\n');
    assert forall|j: int| 0 <= j < head.len() implies text[j] != '\n' by {
        assert(text[j] == head[j]);
    }
    lemma_is_first_at(text, '\n', head.len() as int);
    assert(text.take(head.len() as int) =~= head);
}

/// Whether lines are sorted by their readings.
pub open spec fn in_order(lines: Seq<Seq<char>>) -> bool {
    forall|i: int, j: int|
        0 <= i < j < lines.len() ==> precedes(
            line_key(#[trigger] lines[i]),
            line_key(#[trigger] lines[j]),
        )
}

proof fn lemma_bisected(lines: Seq<Seq<char>>, key: Seq<char>, lo: int, hi: int)
    requires
        in_order(lines),
        0 <= lo <= hi <= lines.len(),
        forall|i: int| 0 <= i < lo ==> precedes(line_key(#[trigger] lines[i]), key),
        forall|i: int| hi <= i < lines.len() ==> !precedes(line_key(#[trigger] lines[i]), key),
    ensures
        ({
            let at = bisected(lines, key, lo, hi);
            &&& lo <= at <= hi
            &&& forall|i: int| 0 <= i < at ==> precedes(line_key(#[trigger] lines[i]), key)
            &&& forall|i: int|
                at <= i < lines.len() ==> !precedes(line_key(#[trigger] lines[i]), key)
        }),
    decreases hi - lo,
{
    if lo < hi {
        let mid = (lo + hi) / 2;
        let m = line_key(lines[mid]);
        if precedes(m, key) {
            assert forall|i: int| 0 <= i < mid + 1 implies precedes(
                line_key(#[trigger] lines[i]),
                key,
            ) by {
                if i < mid {
                    lemma_precedes_transitive(line_key(lines[i]), m, key);
                }
            }
            lemma_bisected(lines, key, mid + 1, hi);
        } else {
            assert forall|i: int| mid <= i < lines.len() implies !precedes(
                line_key(#[trigger] lines[i]),
                key,
            ) by {
                if i > mid && precedes(line_key(lines[i]), key) {
                    lemma_precedes_transitive(m, line_key(lines[i]), key);
                }
            }
            lemma_bisected(lines, key, lo, mid);
        }
    }
}

/// In a sorted table halving finds the first reading that does not come before another.
pub proof fn law_halving_finds_the_place(lines: Seq<Seq<char>>, key: Seq<char>)
    requires
        in_order(lines),
    ensures
        0 <= place_of(lines, key) <= lines.len(),
        forall|i: int|
            0 <= i < place_of(lines, key) ==> precedes(line_key(#[trigger] lines[i]), key),
        forall|i: int|
            place_of(lines, key) <= i < lines.len() ==> !precedes(
                line_key(#[trigger] lines[i]),
                key,
            ),
{
    lemma_bisected(lines, key, 0, lines.len() as int);
}

proof fn lemma_rows(d: DictText)
    requires
        tabular(d),
    ensures
        in_order(rows_of(d)),
        forall|i: int|
            0 <= i < index_keys(d).len() ==> {
                let k = index_keys(d)[i];
                &&& line_key(#[trigger] rows_of(d)[i]) == k
                &&& line_words(rows_of(d)[i]) == plain_texts(d.system.words[k])
            },
{
    let keys = index_keys(d);
    let rows = rows_of(d);
    lemma_keys_are_indexed(d);
    assert forall|i: int| 0 <= i < keys.len() implies {
        let k = keys[i];
        &&& line_key(#[trigger] rows[i]) == k
        &&& line_words(rows[i]) == plain_texts(d.system.words[k])
    } by {
        let k = keys[i];
        assert(keys.contains(k));
        assert(d.system.words.dom().contains(k));
        let v = d.system.words[k];
        assert forall|j: int| 0 <= j < v.len() implies !(#[trigger] v[j]).text.contains('\t')
            && !v[j].text.contains('\n') by {
            assert(d.system.words[k][j] == v[j]);
        }
        lemma_line_says(k, v, v.len() as int);
        assert(plain_texts(v).take(v.len() as int) =~= plain_texts(v));
        assert((seq![k] + plain_texts(v)).skip(1) =~= plain_texts(v));
    }
    assert forall|i: int, j: int| 0 <= i < j < rows.len() implies precedes(
        line_key(#[trigger] rows[i]),
        line_key(#[trigger] rows[j]),
    ) by {
        assert(crate::order::before(false, keys[i], keys[j]));
    }
}

proof fn lemma_plain_added(a: Seq<CandText>, b: Seq<CandText>, n: int)
    requires
        0 <= n <= b.len(),
    ensures
        plain_texts(cands_added_upto(a, b, n)) == texts_added_upto(
            plain_texts(a),
            plain_texts(b),
            n,
        ),
    decreases n,
{
    if n > 0 {
        lemma_plain_added(a, b, n - 1);
        let v = cands_added_upto(a, b, n - 1);
        let t = b[n - 1].text;
        let pv = plain_texts(v);
        assert(has_cand(v, t) <==> pv.contains(t)) by {
            if pv.contains(t) {
                let i = choose|i: int| 0 <= i < pv.len() && pv[i] == t;
                assert(v[i].text == t);
            }
            if has_cand(v, t) {
                let i = choose|i: int| 0 <= i < v.len() && (#[trigger] v[i]).text == t;
                assert(pv[i] == t);
            }
        }
        assert(plain_texts(b)[n - 1] == t);
        assert(plain_texts(v.push(b[n - 1])) =~= pv.push(t));
    }
}

proof fn lemma_plain_has(v: Seq<CandText>, t: Seq<char>)
    ensures
        plain_texts(v).contains(t) <==> has_cand(v, t),
{
    let pv = plain_texts(v);
    if pv.contains(t) {
        let i = choose|i: int| 0 <= i < pv.len() && pv[i] == t;
        assert(v[i].text == t);
    }
    if has_cand(v, t) {
        let i = choose|i: int| 0 <= i < v.len() && (#[trigger] v[i]).text == t;
        assert(pv[i] == t);
    }
}

/// What is added to a list is in it, and so is what was there.
pub proof fn lemma_texts_added_has(
    v: Seq<Seq<char>>,
    more: Seq<Seq<char>>,
    n: int,
    t: Seq<char>,
)
    requires
        0 <= n <= more.len(),
    ensures
        texts_added_upto(v, more, n).contains(t) <==> v.contains(t) || more.take(n).contains(t),
    decreases n,
{
    if n > 0 {
        lemma_texts_added_has(v, more, n - 1, t);
        lemma_take_next(more, n - 1);
        let had = texts_added_upto(v, more, n - 1);
        crate::order::lemma_push_contains(had, more[n - 1], t);
        crate::order::lemma_push_contains(more.take(n - 1), more[n - 1], t);
    }
}

pub proof fn lemma_cands_added_has(a: Seq<CandText>, b: Seq<CandText>, t: Seq<char>)
    ensures
        has_cand(cands_added(a, b), t) <==> has_cand(a, t) || has_cand(b, t),
{
    lemma_plain_added(a, b, b.len() as int);
    lemma_texts_added_has(plain_texts(a), plain_texts(b), b.len() as int, t);
    assert(plain_texts(b).take(b.len() as int) =~= plain_texts(b));
    lemma_plain_has(cands_added(a, b), t);
    lemma_plain_has(a, t);
    lemma_plain_has(b, t);
}

/// Whether everything that one list of words has is in another one too.
pub open spec fn within(a: Words, b: Words) -> bool {
    &&& forall|k: Seq<char>| #[trigger] a.dom().contains(k) ==> b.dom().contains(k)
    &&& forall|k: Seq<char>, t: Seq<char>|
        #[trigger] has_cand(entry(a, k), t) ==> has_cand(entry(b, k), t)
}

proof fn lemma_lines_within(a: Loaded, b: Loaded, v: Seq<Seq<char>>, n: int)
    requires
        within(a.words, b.words),
    ensures
        within(lines_loaded(a, v, n).words, lines_loaded(b, v, n).words),
    decreases n,
{
    if n > 0 {
        lemma_lines_within(a, b, v, n - 1);
        let x = lines_loaded(a, v, n - 1);
        let y = lines_loaded(b, v, n - 1);
        let x1 = lines_loaded(a, v, n).words;
        let y1 = lines_loaded(b, v, n).words;
        if let Some(l) = line_read(v[n - 1]) {
            assert forall|k: Seq<char>, t: Seq<char>| #[trigger] has_cand(
                entry(x1, k),
                t,
            ) implies has_cand(entry(y1, k), t) by {
                lemma_cands_added_has(entry(x.words, l.key), l.cands, t);
                lemma_cands_added_has(entry(y.words, l.key), l.cands, t);
                if k != l.key {
                    assert(entry(x1, k) == entry(x.words, k));
                    assert(entry(y1, k) == entry(y.words, k));
                } else {
                    assert(has_cand(entry(x.words, k), t) ==> has_cand(entry(y.words, k), t));
                }
            }
        }
    }
}

/// The dictionary that comes with the engine is part of what the shared ones hold, whichever
/// files are laid under it.
pub proof fn law_the_built_in_words_are_always_there(files: Seq<Vec<u8>>)
    ensures
        within(system_loaded(seq![]).words, system_loaded(files).words),
{
    let none: Seq<Vec<u8>> = seq![];
    let a = files_loaded(nothing_loaded(), none, 0);
    let b = files_loaded(nothing_loaded(), files, files.len() as int);
    assert(within(a.words, b.words));
    lemma_lines_within(a, b, lines(BUILTIN@), lines(BUILTIN@).len() as int);
}

/// What the user has learned, without the shared dictionaries but for what comes with the
/// engine.
pub open spec fn own_part(u: DictText, d: DictText) -> bool {
    &&& u.user.words == d.user.words
    &&& u.snippets == d.snippets
    &&& within(u.system.words, d.system.words)
}

/// Whether the shared dictionaries do not hold a reading that a table leaves out.
pub open spec fn told(d: DictText, key: Seq<char>) -> bool {
    d.system.words.dom().contains(key) ==> indexed(d, key)
}

/// A search through a table finds for a reading the words that the dictionaries themselves
/// give. They come in the same order too, unless the reading is one that comes with the
/// engine.
pub proof fn law_a_table_finds_the_same_words(ix: &Index, dict: &Dict, key: Seq<char>)
    requires
        tabular(dict@),
        ix.rows() == rows_of(dict@),
        own_part(ix.own(), dict@),
        told(dict@, key),
    ensures
        forall|t: Seq<char>| #[trigger] ix.found(key).contains(t) <==> dict.found(key).contains(t),
        !ix.own().system.words.dom().contains(key) ==> ix.found(key) == dict.found(key),
{
    let d = dict@;
    let u = ix.own();
    let rows = ix.rows();
    let keys = index_keys(d);
    reveal(looked_up);
    lemma_rows(d);
    lemma_keys_are_indexed(d);
    law_halving_finds_the_place(rows, key);
    let at = place_of(rows, key);
    let own = cands_added(entry(d.user.words, key), entry(d.snippets, key));
    let first = looked_up(u, key);
    let none: Seq<CandText> = seq![];
    assert(cands_added(own, none) == own);
    if d.system.words.dom().contains(key) {
        assert(keys.contains(key));
        let j = choose|j: int| 0 <= j < keys.len() && keys[j] == key;
        lemma_precedes_irreflexive(key);
        assert(line_key(rows[j]) == key);
        assert(j >= at);
        if at < j {
            assert(precedes(line_key(rows[at]), line_key(rows[j])));
        }
        assert(at == j);
        let v = d.system.words[key];
        lemma_plain_added(own, v, v.len() as int);
        assert(ix.found(key) == texts_added(plain_texts(first), plain_texts(v)));
        assert forall|t: Seq<char>| #[trigger] ix.found(key).contains(t) <==> dict.found(
            key,
        ).contains(t) by {
            lemma_texts_added_has(plain_texts(first), plain_texts(v), v.len() as int, t);
            assert(plain_texts(v).take(v.len() as int) =~= plain_texts(v));
            lemma_plain_has(first, t);
            lemma_plain_has(v, t);
            lemma_plain_has(looked_up(d, key), t);
            lemma_cands_added_has(own, entry(u.system.words, key), t);
            lemma_cands_added_has(own, v, t);
        }
    } else {
        if at < rows.len() && line_key(rows[at]) == key {
            assert(keys[at] == key);
            assert(keys.contains(key));
        }
        assert(looked_up(d, key) == own);
        assert(!u.system.words.dom().contains(key));
    }
}

proof fn lemma_prefix_is_first(p: Seq<char>, a: Seq<char>)
    requires
        p.is_prefix_of(a),
    ensures
        !precedes(a, p),
    decreases p.len(),
{
    if p.len() > 0 && a.len() > 0 {
        assert(a.subrange(0, p.len() as int)[0] == a[0]);
        assert(p[0] == a[0]);
        assert(p.skip(1) =~= a.skip(1).subrange(0, p.len() - 1)) by {
            assert(p =~= a.subrange(0, p.len() as int));
        }
        lemma_prefix_is_first(p.skip(1), a.skip(1));
    }
}

/// Texts with the same beginning stand together.
proof fn lemma_prefix_block(p: Seq<char>, a: Seq<char>, b: Seq<char>)
    requires
        !precedes(a, p),
        !p.is_prefix_of(a),
        precedes(a, b),
    ensures
        !p.is_prefix_of(b),
    decreases p.len(),
{
    if p.len() == 0 {
        assert(p =~= a.subrange(0, 0));
    } else if p.is_prefix_of(b) {
        assert(b.subrange(0, p.len() as int)[0] == b[0]);
        assert(p[0] == b[0]);
        assert(a.len() > 0);
        if a[0] == p[0] {
            assert(p.skip(1) =~= b.skip(1).subrange(0, p.len() - 1)) by {
                assert(p =~= b.subrange(0, p.len() as int));
            }
            if p.skip(1).is_prefix_of(a.skip(1)) {
                assert(p =~= a.subrange(0, p.len() as int)) by {
                    let x = a.skip(1).subrange(0, p.len() - 1);
                    assert forall|i: int| 0 <= i < p.len() implies p[i] == a[i] by {
                        if i > 0 {
                            assert(p.skip(1)[i - 1] == x[i - 1]);
                        }
                    }
                }
            }
            lemma_prefix_block(p.skip(1), a.skip(1), b.skip(1));
        }
    }
}

proof fn lemma_range_end(lines: Seq<Seq<char>>, prefix: Seq<char>, i: int)
    requires
        0 <= i <= lines.len(),
    ensures
        i <= range_end(lines, prefix, i) <= lines.len(),
        forall|j: int|
            i <= j < range_end(lines, prefix, i) ==> prefix.is_prefix_of(
                line_key(#[trigger] lines[j]),
            ),
        range_end(lines, prefix, i) < lines.len() ==> !prefix.is_prefix_of(
            line_key(lines[range_end(lines, prefix, i)]),
        ),
    decreases lines.len() - i,
{
    if i < lines.len() && prefix.is_prefix_of(line_key(lines[i])) {
        lemma_range_end(lines, prefix, i + 1);
    }
}

/// The longer readings of a table are those of the shared dictionaries, but for the ones that
/// stand for numbers.
proof fn lemma_table_longer(d: DictText, prefix: Seq<char>)
    requires
        tabular(d),
    ensures
        forall|k: Seq<char>| #[trigger]
            table_longer(rows_of(d), prefix).contains(k) <==> far_readings(d, prefix).contains(k)
                && !k.contains('#'),
{
    let rows = rows_of(d);
    let keys = index_keys(d);
    lemma_rows(d);
    lemma_keys_are_indexed(d);
    law_halving_finds_the_place(rows, prefix);
    let lo = place_of(rows, prefix);
    lemma_range_end(rows, prefix, lo);
    let hi = range_end(rows, prefix, lo);
    let part = rows.subrange(lo, hi).map_values(|l: Seq<char>| line_key(l));
    let mine = table_longer(rows, prefix);
    let far = far_readings(d, prefix);
    assert forall|k: Seq<char>| #[trigger] mine.contains(k) <==> far.contains(k) && !k.contains(
        '#',
    ) by {
        if mine.contains(k) {
            assert(part.to_set().contains(k));
            assert(part.contains(k));
            let j = choose|j: int| 0 <= j < part.len() && part[j] == k;
            assert(line_key(rows[lo + j]) == k);
            assert(keys[lo + j] == k);
            assert(keys.contains(k));
            assert(prefix.is_prefix_of(line_key(rows[lo + j])));
        }
        if far.contains(k) && !k.contains('#') {
            assert(indexed(d, k));
            assert(keys.contains(k));
            let j = choose|j: int| 0 <= j < keys.len() && keys[j] == k;
            assert(line_key(rows[j]) == k);
            lemma_prefix_is_first(prefix, k);
            assert(j >= lo);
            if j >= hi {
                let stop = line_key(rows[hi]);
                assert(!precedes(stop, prefix));
                if j > hi {
                    assert(precedes(line_key(rows[hi]), line_key(rows[j])));
                    lemma_prefix_block(prefix, stop, k);
                }
            }
            assert(part[j - lo] == k);
            assert(part.contains(k));
            assert(part.to_set().contains(k));
        }
    }
}

proof fn lemma_filled_has(
    v: Seq<Seq<char>>,
    more: Seq<Seq<char>>,
    limit: nat,
    n: int,
    k: Seq<char>,
)
    requires
        0 <= n <= more.len(),
        filled_upto(v, more, limit, n).len() < limit,
    ensures
        filled_upto(v, more, limit, n).contains(k) <==> v.contains(k) || more.take(n).contains(k),
        v.len() < limit,
    decreases n,
{
    if n > 0 {
        lemma_filled_has(v, more, limit, n - 1, k);
        lemma_take_next(more, n - 1);
        let had = filled_upto(v, more, limit, n - 1);
        crate::order::lemma_push_contains(had, more[n - 1], k);
        crate::order::lemma_push_contains(more.take(n - 1), more[n - 1], k);
    }
}

/// The list of a finite set, as far as it is not cut off.
pub proof fn lemma_completions_have(d: DictText, prefix: Seq<char>, limit: nat, k: Seq<char>)
    requires
        prefix.len() > 0,
        countable(d),
        completions(d, prefix, limit).len() < limit,
    ensures
        completions(d, prefix, limit).contains(k) <==> near_readings(d, prefix).contains(k)
            || far_readings(d, prefix).contains(k),
{
    reveal(completions);
    let near = near_readings(d, prefix);
    let far = far_readings(d, prefix);
    let mine = d.user.words.dom().union(d.snippets.dom());
    vstd::set_lib::lemma_set_subset_finite(mine, near);
    vstd::set_lib::lemma_set_subset_finite(d.system.words.dom(), far);
    lemma_listed_set(true, near);
    lemma_listed_set(true, far);
    let fl = listed(true, far);
    lemma_filled_has(at_most(listed(true, near), limit), fl, limit, fl.len() as int, k);
    assert(fl.take(fl.len() as int) =~= fl);
    assert(fl.contains(k) <==> fl.to_set().contains(k));
    assert(listed(true, near).contains(k) <==> listed(true, near).to_set().contains(k));
}

/// Whether there is an end to the words of the dictionaries.
pub open spec fn countable(d: DictText) -> bool {
    d.user.words.dom().finite() && d.snippets.dom().finite() && d.system.words.dom().finite()
}

/// Where no limit is reached, a search through a table goes on to the same longer readings
/// as one through the dictionaries, but for those that stand for numbers, which no search
/// looks up.
pub proof fn law_a_table_goes_on_alike(
    ix: &Index,
    dict: &Dict,
    prefix: Seq<char>,
    limit: nat,
    k: Seq<char>,
)
    requires
        dict.wf(),
        tabular(dict@),
        ix.rows() == rows_of(dict@),
        own_part(ix.own(), dict@),
        prefix.len() > 0,
        ix.longer(prefix, limit).len() < limit,
        dict.longer(prefix, limit).len() < limit,
        !k.contains('#'),
    ensures
        ix.longer(prefix, limit).contains(k) <==> dict.longer(prefix, limit).contains(k),
        dict.longer(prefix, limit).contains(k) ==> extends(k, prefix),
{
    let d = dict@;
    let u = ix.own();
    let set = table_longer(ix.rows(), prefix);
    dict.lemma_countable();
    lemma_table_longer(d, prefix);
    vstd::set_lib::lemma_set_subset_finite(d.system.words.dom(), u.system.words.dom());
    vstd::set_lib::lemma_set_subset_finite(d.system.words.dom(), set);
    lemma_listed_set(true, set);
    let far = listed(true, set);
    lemma_filled_has(completions(u, prefix, limit), far, limit, far.len() as int, k);
    assert(far.take(far.len() as int) =~= far);
    assert(far.contains(k) <==> far.to_set().contains(k));
    lemma_completions_have(u, prefix, limit, k);
    lemma_completions_have(d, prefix, limit, k);
}

/// Whatever the limit, a search through a table goes on to the same longer readings, in the
/// same order, where none of them stands for a number or comes with the engine.
pub proof fn law_a_table_goes_on_in_order(ix: &Index, dict: &Dict, prefix: Seq<char>, limit: nat)
    requires
        tabular(dict@),
        ix.rows() == rows_of(dict@),
        own_part(ix.own(), dict@),
        prefix.len() > 0,
        forall|k: Seq<char>|
            #[trigger] dict@.system.words.dom().contains(k) && extends(k, prefix)
                ==> !k.contains('#') && !ix.own().system.words.dom().contains(k),
    ensures
        ix.longer(prefix, limit) == dict.longer(prefix, limit),
{
    let d = dict@;
    let u = ix.own();
    reveal(completions);
    lemma_table_longer(d, prefix);
    assert(table_longer(ix.rows(), prefix) =~= far_readings(d, prefix));
    assert(near_readings(u, prefix) =~= near_readings(d, prefix));
    let none = far_readings(u, prefix);
    assert(none =~= Set::<Seq<char>>::empty());
    lemma_listed_set(true, none);
    let empty = listed(true, none);
    if empty.len() > 0 {
        assert(empty.to_set().contains(empty[0]));
    }
}

} // verus!
