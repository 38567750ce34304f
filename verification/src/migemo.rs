//! Makes a regular expression that finds Japanese text by its spelling in letters.
//!
//! The words are found by their reading, so that kanji are matched too; the dictionaries
//! for that are the ones that conversion uses. Two dialects are written, for they group and
//! choose differently.
use vstd::prelude::*;
use vstd::string::*;
use crate::dict::{completions, looked_up, Dict};
use crate::jisyo::{add_texts, cand_texts, texts_added, texts_added_upto, CandText};
use crate::order::{
    ascending, before, is_before, lemma_before, lemma_listed, lemma_listed_set, listed, spelled_out,
};
use crate::romaji::{
    in_hankaku, in_katakana, law_standard_marks, settled, spelled, table, to_hankaku_katakana,
    to_katakana, to_zenkaku, zenkaku_form, Kutouten, Romaji,
};
use crate::text::{
    chars_of, copy_chars, has_char, has_text, join, join_texts, joined, lemma_take_next, lowercased,
    split_words, texts, to_lowercase, words_from,
};

pub use crate::index::{source, Index, SourceFile};

verus! {

/// How a dialect of regular expressions is written.
#[derive(Clone, Copy)]
pub struct Rxop {
    /// What stands once before everything.
    pub prefix: &'static str,
    pub or: &'static str,
    pub start_group: &'static str,
    pub end_group: &'static str,
    pub start_class: &'static str,
    pub end_class: &'static str,
    /// The characters that mean something of their own.
    pub escape: &'static str,
}

/// How a dialect is written.
pub struct RxText {
    pub prefix: Seq<char>,
    pub or: Seq<char>,
    pub start_group: Seq<char>,
    pub end_group: Seq<char>,
    pub start_class: Seq<char>,
    pub end_class: Seq<char>,
    pub escape: Seq<char>,
}

impl View for Rxop {
    type V = RxText;

    open spec fn view(&self) -> RxText {
        RxText {
            prefix: self.prefix@,
            or: self.or@,
            start_group: self.start_group@,
            end_group: self.end_group@,
            start_class: self.start_class@,
            end_class: self.end_class@,
            escape: self.escape@,
        }
    }
}

/// The dialect of Vim.
pub open spec fn vim_text() -> RxText {
    RxText {
        prefix: "\\m"@,
        or: "\\|"@,
        start_group: "\\%("@,
        end_group: "\\)"@,
        start_class: "["@,
        end_class: "]"@,
        escape: "\\.[]*~^$"@,
    }
}

/// The dialect of ripgrep.
pub open spec fn rg_text() -> RxText {
    RxText {
        prefix: ""@,
        or: "|"@,
        start_group: "(?:"@,
        end_group: ")"@,
        start_class: "["@,
        end_class: "]"@,
        escape: "\\.[]{}()*+-?^$|"@,
    }
}

/// The dialect of Vim.
pub fn vim() -> (r: Rxop)
    ensures
        r@ == vim_text(),
{
    Rxop {
        prefix: "\\m",
        or: "\\|",
        start_group: "\\%(",
        end_group: "\\)",
        start_class: "[",
        end_class: "]",
        escape: "\\.[]*~^$",
    }
}

/// The dialect of ripgrep.
pub fn rg() -> (r: Rxop)
    ensures
        r@ == rg_text(),
{
    Rxop {
        prefix: "",
        or: "|",
        start_group: "(?:",
        end_group: ")",
        start_class: "[",
        end_class: "]",
        escape: "\\.[]{}()*+-?^$|",
    }
}

/// Finds a dialect by its name.
pub fn flavour(name: &str) -> (r: Option<Rxop>)
    ensures
        if name@ == "vim"@ {
            r is Some && r->0@ == vim_text()
        } else if name@ == "rg"@ {
            r is Some && r->0@ == rg_text()
        } else {
            r is None
        },
{
    if *name == *"vim" {
        Some(vim())
    } else if *name == *"rg" {
        Some(rg())
    } else {
        None
    }
}

/// How many words are taken for one spelling at most.
pub const DEFAULT_LIMIT: usize = 1000;

/// A character as it is written in a dialect.
pub open spec fn escaped(c: char, rx: RxText) -> Seq<char> {
    if rx.escape.contains(c) {
        seq!['\\', c]
    } else {
        seq![c]
    }
}

/// How many of `words` start with the character with which the first one starts.
pub open spec fn same_start(words: Seq<Seq<char>>, n: int) -> int
    decreases words.len() - n,
{
    if n < words.len() && words[n].len() > 0 && words[n][0] == words[0][0] {
        same_start(words, n + 1)
    } else {
        n
    }
}

/// Texts without their first characters.
pub open spec fn tails(words: Seq<Seq<char>>) -> Seq<Seq<char>> {
    words.map_values(|w: Seq<char>| w.skip(1))
}

/// How many characters there are in all.
pub open spec fn total(words: Seq<Seq<char>>) -> nat
    decreases words.len(),
{
    if words.len() == 0 {
        0
    } else {
        total(words.drop_last()) + words.last().len()
    }
}

/// The ways on from a point: characters with nothing behind them, and longer ways.
pub struct Ways {
    pub singles: Seq<char>,
    pub count: nat,
    pub branches: Seq<Seq<char>>,
}

/// The ways that sorted words take.
pub open spec fn ways(words: Seq<Seq<char>>, rx: RxText) -> Ways
    decreases total(words), 0int,
    via ways_decreases
{
    if words.len() == 0 || words[0].len() == 0 {
        Ways { singles: seq![], count: 0, branches: seq![] }
    } else {
        let n = same_start(words, 1);
        let head = escaped(words[0][0], rx);
        let rest = emitted(tails(words.take(n)), rx);
        let later = ways(words.skip(n), rx);
        if rest.len() == 0 {
            Ways { singles: head + later.singles, count: later.count + 1, ..later }
        } else {
            Ways { branches: seq![head + rest] + later.branches, ..later }
        }
    }
}

/// The ways as choices; characters with nothing behind them come first, as a class if there
/// are several.
pub open spec fn choices(w: Ways, rx: RxText) -> Seq<Seq<char>> {
    (if w.count == 0 {
        seq![]
    } else if w.count == 1 {
        seq![w.singles]
    } else {
        seq![rx.start_class + w.singles + rx.end_class]
    }) + w.branches
}

/// A group of choices.
pub open spec fn grouped(v: Seq<Seq<char>>, rx: RxText) -> Seq<char> {
    rx.start_group + join(v, rx.or) + rx.end_group
}

/// The regular expression for sorted words; only where there is a choice it is a group.
pub open spec fn emitted(words: Seq<Seq<char>>, rx: RxText) -> Seq<char>
    decreases total(words), 1int,
{
    let v = choices(ways(words, rx), rx);
    if v.len() == 0 {
        seq![]
    } else if v.len() == 1 {
        v[0]
    } else {
        grouped(v, rx)
    }
}

pub proof fn lemma_same_start(words: Seq<Seq<char>>, n: int)
    requires
        0 <= n <= words.len(),
    ensures
        n <= same_start(words, n) <= words.len(),
        forall|i: int|
            n <= i < same_start(words, n) ==> (#[trigger] words[i]).len() > 0 && words[i][0]
                == words[0][0],
    decreases words.len() - n,
{
    if n < words.len() && words[n].len() > 0 && words[n][0] == words[0][0] {
        lemma_same_start(words, n + 1);
    }
}

proof fn lemma_total_parts(words: Seq<Seq<char>>, n: int)
    requires
        0 <= n <= words.len(),
    ensures
        total(words) == total(words.take(n)) + total(words.skip(n)),
    decreases words.len(),
{
    if n == words.len() {
        assert(words.take(n) =~= words);
        assert(words.skip(n) =~= seq![]);
    } else {
        lemma_total_parts(words.drop_last(), n);
        assert(words.drop_last().take(n) =~= words.take(n));
        assert(words.skip(n).drop_last() =~= words.drop_last().skip(n));
    }
}

proof fn lemma_total_tails(words: Seq<Seq<char>>)
    requires
        forall|i: int| 0 <= i < words.len() ==> (#[trigger] words[i]).len() > 0,
    ensures
        total(words) == total(tails(words)) + words.len(),
    decreases words.len(),
{
    if words.len() > 0 {
        lemma_total_tails(words.drop_last());
        assert(tails(words).drop_last() =~= tails(words.drop_last()));
        assert(tails(words).last() == words.last().skip(1));
    }
}

pub proof fn lemma_ways_shrink(words: Seq<Seq<char>>)
    requires
        words.len() > 0,
        words[0].len() > 0,
    ensures
        ({
            let n = same_start(words, 1);
            &&& 1 <= n <= words.len()
            &&& total(tails(words.take(n))) < total(words)
            &&& total(words.skip(n)) < total(words)
        }),
{
    lemma_same_start(words, 1);
    let n = same_start(words, 1);
    lemma_total_parts(words, n);
    let mine = words.take(n);
    assert forall|i: int| 0 <= i < mine.len() implies (#[trigger] mine[i]).len() > 0 by {
        assert(mine[i] == words[i]);
    }
    lemma_total_tails(mine);
}

#[via_fn]
proof fn ways_decreases(words: Seq<Seq<char>>, rx: RxText) {
    if words.len() > 0 && words[0].len() > 0 {
        lemma_ways_shrink(words);
    }
}

/// Words that are kept so that their shared beginnings can be put together. Where one is
/// the beginning of another, only the shorter one is kept: it matches wherever the other
/// would.
pub struct Node {
    words: Vec<Vec<char>>,
}

impl View for Node {
    type V = Seq<Seq<char>>;

    closed spec fn view(&self) -> Seq<Seq<char>> {
        spelled_out(self.words@)
    }
}

/// Whether one of `words` is the beginning of `s`.
pub open spec fn covered(words: Seq<Seq<char>>, s: Seq<char>) -> bool {
    exists|i: int| 0 <= i < words.len() && (#[trigger] words[i]).is_prefix_of(s)
}

/// The words with one more, sorted.
pub open spec fn word_added(words: Seq<Seq<char>>, s: Seq<char>) -> Seq<Seq<char>> {
    if covered(words, s) {
        words
    } else {
        listed(false, words.to_set().filter(|w: Seq<char>| !s.is_prefix_of(w)).insert(s))
    }
}

/// The words with the first `n` of a list more.
pub open spec fn words_added(words: Seq<Seq<char>>, v: Seq<Seq<char>>, n: int) -> Seq<Seq<char>>
    decreases n,
{
    if n <= 0 {
        words
    } else {
        word_added(words_added(words, v, n - 1), v[n - 1])
    }
}

/// Whether `a` is the beginning of `b`.
fn begins(a: &Vec<char>, b: &Vec<char>) -> (r: bool)
    ensures
        r == a@.is_prefix_of(b@),
{
    if a.len() > b.len() {
        return false;
    }
    let mut i: usize = 0;
    while i < a.len()
        invariant
            i <= a@.len() <= b@.len(),
            forall|j: int| 0 <= j < i ==> a@[j] == b@[j],
        decreases a.len() - i,
    {
        if a[i] != b[i] {
            assert(b@.subrange(0, a@.len() as int)[i as int] == b@[i as int]);
            return false;
        }
        i = i + 1;
    }
    assert(a@ =~= b@.subrange(0, a@.len() as int));
    true
}

impl Default for Node {
    fn default() -> (r: Self)
        ensures
            r@ == Seq::<Seq<char>>::empty(),
            r.wf(),
    {
        let r = Node { words: Vec::new() };
        assert(spelled_out(r.words@) =~= Seq::<Seq<char>>::empty());
        r
    }
}

impl Node {
    /// The words are sorted.
    pub open spec fn wf(&self) -> bool {
        ascending(false, self@)
    }

    /// Adds a word.
    pub fn insert(&mut self, s: &str)
        requires
            old(self).wf(),
        ensures
            final(self).wf(),
            final(self)@ == word_added(old(self)@, s@),
    {
        let word = chars_of(s);
        let ghost words = self@;
        let mut i: usize = 0;
        while i < self.words.len()
            invariant
                i <= self.words@.len(),
                words == self@,
                ascending(false, words),
                word@ == s@,
                forall|j: int| 0 <= j < i ==> !(#[trigger] words[j]).is_prefix_of(word@),
            decreases self.words.len() - i,
        {
            assert(words[i as int] == self.words@[i as int]@);
            if begins(&self.words[i], &word) {
                return;
            }
            i = i + 1;
        }
        let ghost keep = |w: Seq<char>| !s@.is_prefix_of(w);
        let mut out: Vec<Vec<char>> = Vec::new();
        let mut placed = false;
        let mut j: usize = 0;
        assert(spelled_out(out@) =~= seq![]);
        while j < self.words.len()
            invariant
                j <= self.words@.len(),
                words == self@,
                ascending(false, words),
                word@ == s@,
                forall|k: int| 0 <= k < words.len() ==> !(#[trigger] words[k]).is_prefix_of(word@),
                keep == (|w: Seq<char>| !s@.is_prefix_of(w)),
                ascending(false, spelled_out(out@)),
                forall|w: Seq<char>|
                    #[trigger] spelled_out(out@).contains(w) <==> (words.take(j as int).contains(w)
                        && keep(w)) || (placed && w == s@),
                forall|k: int|
                    0 <= k < spelled_out(out@).len() ==> before(
                        false,
                        #[trigger] spelled_out(out@)[k],
                        s@,
                    ) || placed,
                placed ==> spelled_out(out@).contains(s@),
                placed ==> forall|k: int| j <= k < words.len() ==> before(false, s@, #[trigger] words[k]),
            decreases self.words.len() - j,
        {
            proof {
                lemma_before(false);
                lemma_take_next(words, j as int);
            }
            assert(words[j as int] == self.words@[j as int]@);
            let ghost had = spelled_out(out@);
            let ghost w = words[j as int];
            assert(w != s@) by {
                if w == s@ {
                    assert(w.is_prefix_of(s@)) by {
                        assert(s@.subrange(0, s@.len() as int) =~= s@);
                    }
                }
            }
            if !placed && is_before(false, &word, &self.words[j]) {
                out.push(chars_of(s));
                placed = true;
                proof {
                    assert(spelled_out(out@) =~= had.push(s@));
                    lemma_pushed(had, s@);
                    assert forall|k: int| j <= k < words.len() implies before(
                        false,
                        s@,
                        #[trigger] words[k],
                    ) by {
                        if k > j {
                            assert(before(false, words[j as int], words[k]));
                        }
                    }
                }
            }
            let ghost had2 = spelled_out(out@);
            if !begins(&word, &self.words[j]) {
                let copy = copy_chars(&self.words[j]);
                out.push(copy);
                proof {
                    assert(spelled_out(out@) =~= had2.push(w));
                    lemma_pushed(had2, w);
                    assert forall|k: int| 0 <= k < had2.len() implies before(
                        false,
                        #[trigger] had2[k],
                        w,
                    ) by {
                        if had2[k] != s@ {
                            assert(had2.contains(had2[k]));
                            lemma_pushed_has(had, s@, had2[k]);
                            assert(had.contains(had2[k]));
                            assert(words.take(j as int).contains(had2[k]));
                            let m = choose|m: int|
                                0 <= m < j && words.take(j as int)[m] == had2[k];
                            assert(before(false, words[m], words[j as int]));
                        }
                    }
                }
            }
            j = j + 1;
            proof {
                lemma_pushed(words.take(j - 1), w);
                assert(words.take(j as int) == words.take(j - 1).push(w));
                assert forall|x: Seq<char>|
                    #[trigger] spelled_out(out@).contains(x) <==> (words.take(j as int).contains(x)
                        && keep(x)) || (placed && x == s@) by {
                    lemma_pushed_has(words.take(j - 1), w, x);
                    lemma_pushed_has(had, s@, x);
                    lemma_pushed_has(had2, w, x);
                }
            }
        }
        proof {
            lemma_before(false);
            assert(words.take(j as int) =~= words);
        }
        let ghost had = spelled_out(out@);
        if !placed {
            out.push(chars_of(s));
            proof {
                assert(spelled_out(out@) =~= had.push(s@));
            }
        }
        proof {
            let all = words.to_set().filter(keep).insert(s@);
            assert forall|x: Seq<char>| spelled_out(out@).to_set().contains(x) <==> all.contains(
                x,
            ) by {
                lemma_pushed_has(had, s@, x);
            }
            assert(spelled_out(out@).to_set() =~= all);
            lemma_listed(false, spelled_out(out@));
            assert(!covered(words, s@));
        }
        self.words = out;
    }
}

proof fn lemma_pushed(s: Seq<Seq<char>>, x: Seq<char>)
    ensures
        s.push(x).contains(x),
{
    assert(s.push(x)[s.len() as int] == x);
}

proof fn lemma_pushed_has(s: Seq<Seq<char>>, x: Seq<char>, y: Seq<char>)
    ensures
        s.push(x).contains(y) <==> s.contains(y) || y == x,
{
    crate::order::lemma_push_contains(s, x, y);
}

/// Ways after other ways.
spec fn ways_joined(a: Ways, b: Ways) -> Ways {
    Ways {
        singles: a.singles + b.singles,
        count: a.count + b.count,
        branches: a.branches + b.branches,
    }
}

/// A character as it is written in a dialect.
fn escape(c: char, rx: &Rxop) -> (r: String)
    ensures
        r@ == escaped(c, rx@),
{
    let special = chars_of(rx.escape);
    let mut r = String::new();
    if has_char(&special, c) {
        r.push('\\');
    }
    r.push(c);
    assert(r@ =~= escaped(c, rx@));
    r
}

/// The words from `from` up to `to` without their first characters.
fn tails_of(words: &Vec<Vec<char>>, from: usize, to: usize) -> (r: Vec<Vec<char>>)
    requires
        from <= to <= words@.len(),
        forall|i: int| from <= i < to ==> (#[trigger] words@[i])@.len() > 0,
    ensures
        spelled_out(r@) == tails(spelled_out(words@).subrange(from as int, to as int)),
{
    let ghost mine = spelled_out(words@).subrange(from as int, to as int);
    let mut out: Vec<Vec<char>> = Vec::new();
    let mut i: usize = from;
    while i < to
        invariant
            from <= i <= to <= words@.len(),
            forall|k: int| from <= k < to ==> (#[trigger] words@[k])@.len() > 0,
            mine == spelled_out(words@).subrange(from as int, to as int),
            spelled_out(out@).len() == i - from,
            forall|k: int|
                0 <= k < i - from ==> #[trigger] spelled_out(out@)[k] == mine[k].skip(1),
        decreases to - i,
    {
        let ghost had = spelled_out(out@);
        let w = &words[i];
        assert(w@.len() > 0);
        let mut tail: Vec<char> = Vec::new();
        let mut k: usize = 1;
        while k < w.len()
            invariant
                1 <= k <= w@.len(),
                tail@ == w@.subrange(1, k as int),
            decreases w.len() - k,
        {
            tail.push(w[k]);
            k = k + 1;
            assert(w@.subrange(1, k as int) =~= w@.subrange(1, k - 1).push(w@[k - 1]));
        }
        assert(tail@ =~= w@.skip(1));
        out.push(tail);
        assert(mine[i - from] == w@);
        assert(spelled_out(out@) =~= had.push(tail@));
        i = i + 1;
    }
    assert(spelled_out(out@) =~= tails(mine));
    out
}

/// The ways on from a point, as choices.
fn alternatives(words: &Vec<Vec<char>>, rx: &Rxop) -> (r: Vec<String>)
    ensures
        texts(r@) == choices(ways(spelled_out(words@), rx@), rx@),
    decreases total(spelled_out(words@)), 0int,
{
    let ghost all = spelled_out(words@);
    let mut singles = String::new();
    let mut count: usize = 0;
    let mut branches: Vec<String> = Vec::new();
    let mut i: usize = 0;
    let ghost mut done = Ways { singles: seq![], count: 0, branches: seq![] };
    proof {
        assert(all.skip(0) =~= all);
        let w = ways(all, rx@);
        assert(ways_joined(done, w).singles =~= w.singles);
        assert(ways_joined(done, w).branches =~= w.branches);
        assert(texts(branches@) =~= seq![]);
    }
    while i < words.len() && words[i].len() > 0
        invariant
            i <= words@.len(),
            all == spelled_out(words@),
            total(all.skip(i as int)) <= total(all),
            done == (Ways { singles: singles@, count: count as nat, branches: texts(branches@) }),
            count <= i,
            ways(all, rx@) == ways_joined(done, ways(all.skip(i as int), rx@)),
        decreases words.len() - i,
    {
        let ghost rest_words = all.skip(i as int);
        let ghost was = done;
        let c = words[i][0];
        let start = i;
        assert(rest_words[0] == words@[i as int]@);
        i = i + 1;
        while i < words.len() && words[i].len() > 0 && words[i][0] == c
            invariant
                start < i <= words@.len(),
                all == spelled_out(words@),
                rest_words == all.skip(start as int),
                rest_words[0][0] == c,
                same_start(rest_words, 1) == same_start(rest_words, i - start),
                forall|k: int| start <= k < i ==> (#[trigger] words@[k])@.len() > 0,
            decreases words.len() - i,
        {
            assert(rest_words[i - start] == words@[i as int]@);
            i = i + 1;
        }
        proof {
            if i < words@.len() {
                assert(rest_words[i - start] == words@[i as int]@);
            }
            assert(same_start(rest_words, 1) == i - start);
            lemma_ways_shrink(rest_words);
            assert(rest_words.take(i - start) =~= all.subrange(start as int, i as int));
            assert(rest_words.skip(i - start) =~= all.skip(i as int));
        }
        let below = tails_of(words, start, i);
        let rest = emit_words(&below, rx);
        let mut head = escape(c, rx);
        if rest.as_str().is_empty() {
            singles.append(head.as_str());
            count = count + 1;
        } else {
            head.append(rest.as_str());
            let ghost had = texts(branches@);
            branches.push(head);
            assert(texts(branches@) =~= had.push(head@));
        }
        proof {
            done = Ways { singles: singles@, count: count as nat, branches: texts(branches@) };
            let later = ways(all.skip(i as int), rx@);
            let now = ways(rest_words, rx@);
            let a = ways_joined(was, now);
            let b = ways_joined(done, later);
            assert(a.singles =~= b.singles);
            assert(a.branches =~= b.branches);
        }
    }
    proof {
        let last = ways(all.skip(i as int), rx@);
        if i < words@.len() {
            assert(all.skip(i as int)[0] == words@[i as int]@);
        }
        assert(ways_joined(done, last).singles =~= done.singles);
        assert(ways_joined(done, last).branches =~= done.branches);
    }
    let mut alts: Vec<String> = Vec::new();
    let ghost w = ways(all, rx@);
    if count == 1 {
        alts.push(singles);
    } else if count > 1 {
        let mut class = rx.start_class.to_owned();
        class.append(singles.as_str());
        class.append(rx.end_class);
        alts.push(class);
    }
    let ghost first = texts(alts@);
    let ghost longer = texts(branches@);
    alts.append(&mut branches);
    proof {
        assert(texts(alts@) =~= first + longer);
        assert(texts(alts@) =~= choices(w, rx@));
    }
    alts
}

/// The regular expression for words.
fn emit_words(words: &Vec<Vec<char>>, rx: &Rxop) -> (r: String)
    ensures
        r@ == emitted(spelled_out(words@), rx@),
    decreases total(spelled_out(words@)), 1int,
{
    let alts = alternatives(words, rx);
    if alts.len() == 0 {
        String::new()
    } else if alts.len() == 1 {
        assert(texts(alts@)[0] == alts@[0]@);
        alts[0].clone()
    } else {
        group(&alts, rx)
    }
}

/// A group of choices.
fn group(alts: &Vec<String>, rx: &Rxop) -> (r: String)
    ensures
        r@ == grouped(texts(alts@), rx@),
{
    let mut out = rx.start_group.to_owned();
    let inner = join_texts(alts, rx.or);
    out.append(inner.as_str());
    out.append(rx.end_group);
    out
}

/// The regular expression for the words of a node; only where there is a choice it is a
/// group.
pub fn emit(node: &Node, rx: &Rxop) -> (r: String)
    ensures
        r@ == emitted(node@, rx@),
{
    emit_words(&node.words, rx)
}

/// What finds words by their readings.
pub trait Headwords {
    /// What holds of it.
    spec fn ready(&self) -> bool;

    /// The words of a reading.
    spec fn found(&self, key: Seq<char>) -> Seq<Seq<char>>;

    /// The longer readings that start with `prefix`, the shorter ones first.
    spec fn longer(&self, prefix: Seq<char>, limit: nat) -> Seq<Seq<char>>;

    /// The words of a reading.
    fn lookup(&self, key: &str) -> (r: Vec<String>)
        requires
            self.ready(),
        ensures
            texts(r@) == self.found(key@),
    ;

    /// The longer readings that start with `prefix`, at most `limit` of them.
    fn complete(&self, prefix: &str, limit: usize) -> (r: Vec<String>)
        requires
            self.ready(),
        ensures
            texts(r@) == self.longer(prefix@, limit as nat),
    ;
}

/// The texts of candidates.
pub open spec fn plain_texts(v: Seq<CandText>) -> Seq<Seq<char>> {
    v.map_values(|c: CandText| c.text)
}

impl Headwords for Dict {
    open spec fn ready(&self) -> bool {
        self.wf()
    }

    open spec fn found(&self, key: Seq<char>) -> Seq<Seq<char>> {
        plain_texts(looked_up(self@, key))
    }

    open spec fn longer(&self, prefix: Seq<char>, limit: nat) -> Seq<Seq<char>> {
        completions(self@, prefix, limit)
    }

    fn lookup(&self, key: &str) -> (r: Vec<String>) {
        let cands = Dict::lookup(self, key);
        let ghost all = cand_texts(cands@);
        let mut out: Vec<String> = Vec::new();
        let mut i: usize = 0;
        while i < cands.len()
            invariant
                i <= cands@.len(),
                all == cand_texts(cands@),
                texts(out@) =~= plain_texts(all).take(i as int),
            decreases cands.len() - i,
        {
            let ghost had = texts(out@);
            let text = cands[i].text.clone();
            assert(all[i as int] == cands@[i as int]@);
            out.push(text);
            i = i + 1;
            proof {
                lemma_take_next(plain_texts(all), i - 1);
                assert(texts(out@) =~= had.push(text@));
            }
        }
        assert(plain_texts(all).take(i as int) =~= plain_texts(all));
        out
    }

    fn complete(&self, prefix: &str, limit: usize) -> (r: Vec<String>) {
        Dict::complete(self, prefix, limit)
    }
}

/// The kana of a spelling that is typed from scratch, and the letters that wait.
pub open spec fn in_kana(word: Seq<char>, azik: bool) -> (Seq<char>, Seq<char>) {
    spelled(table(azik), word)
}

/// What is typed after letters that wait, to see which kana they may become.
pub open spec fn tries(pending: Seq<char>) -> Seq<char> {
    seq!['a', 'i', 'u', 'e', 'o', pending.last()]
}

/// The kana that letters that wait may become, after the first `n` tries.
pub open spec fn expanded_upto(pending: Seq<char>, azik: bool, n: int) -> Seq<Seq<char>>
    decreases n,
{
    if n <= 0 {
        seq![]
    } else {
        let v = expanded_upto(pending, azik, n - 1);
        let tail = tries(pending)[n - 1];
        let (kana, rest) = in_kana(pending.push(tail), azik);
        if kana.len() > 0 && !v.contains(kana) && (rest.len() == 0 || tail == pending.last()) {
            v.push(kana)
        } else {
            v
        }
    }
}

/// The kana that letters that wait may become.
pub open spec fn expanded(pending: Seq<char>, azik: bool) -> Seq<Seq<char>> {
    if pending.len() == 0 {
        seq![]
    } else {
        expanded_upto(pending, azik, 6)
    }
}

/// The readings of a spelling, whatever its letters are.
pub open spec fn readings_of(word: Seq<char>, azik: bool) -> Seq<Seq<char>> {
    small_readings_of(lowercased(word), azik)
}

/// The readings of a spelling in small letters; one that is not finished has several.
pub open spec fn small_readings_of(small: Seq<char>, azik: bool) -> Seq<Seq<char>> {
    let (kana, pending) = in_kana(small, azik);
    if pending.len() > 0 {
        expanded(pending, azik).map_values(|tail: Seq<char>| kana + tail)
    } else if kana.len() > 0 {
        seq![kana]
    } else {
        seq![]
    }
}

/// Types a spelling from scratch.
fn to_kana(word: &str, azik: bool) -> (r: (String, String))
    ensures
        r.0@ == in_kana(word@, azik).0,
        r.1@ == in_kana(word@, azik).1,
{
    let mut romaji = Romaji::new();
    romaji.set_azik(azik);
    let v = chars_of(word);
    let mut out = String::new();
    let mut i: usize = 0;
    assert(v@.take(0) =~= seq![]);
    while i < v.len()
        invariant
            i <= v@.len(),
            v@ == word@,
            romaji.wf(),
            romaji.azik_on() == azik,
            romaji.marks() == Kutouten::Jp,
            out@ == in_kana(v@.take(i as int), azik).0,
            romaji.waiting() == in_kana(v@.take(i as int), azik).1,
        decreases v.len() - i,
    {
        let ghost so_far = v@.take(i as int);
        let ghost waits = romaji.waiting();
        let kana = romaji.feed(v[i]);
        out.append(kana.as_str());
        i = i + 1;
        proof {
            lemma_take_next(v@, i - 1);
            assert(v@.take(i as int).drop_last() =~= so_far);
            law_standard_marks(settled(table(azik), waits.push(v@[i - 1])).0);
        }
    }
    assert(v@.take(i as int) =~= v@);
    (out, romaji.pending().to_owned())
}

/// The kana that letters that wait may become: it is tried what comes of a vowel, and of the
/// last letter once more.
fn expand(pending: &str, azik: bool) -> (r: Vec<String>)
    ensures
        texts(r@) == expanded(pending@, azik),
{
    let v = chars_of(pending);
    let mut out: Vec<String> = Vec::new();
    assert(texts(out@) =~= seq![]);
    if v.len() == 0 {
        return out;
    }
    let last = v[v.len() - 1];
    let tails: [char; 6] = ['a', 'i', 'u', 'e', 'o', last];
    let mut i: usize = 0;
    while i < 6
        invariant
            i <= 6,
            pending@.len() > 0,
            last == pending@.last(),
            tails@ =~= tries(pending@),
            texts(out@) == expanded_upto(pending@, azik, i as int),
        decreases 6 - i,
    {
        let tail = tails[i];
        let mut typed = pending.to_owned();
        typed.push(tail);
        let (kana, rest) = to_kana(typed.as_str(), azik);
        let ghost had = texts(out@);
        if !kana.as_str().is_empty() && !has_text(&out, kana.as_str()) && (rest.as_str().is_empty()
            || tail == last) {
            out.push(kana);
            assert(texts(out@) =~= had.push(kana@));
        }
        i = i + 1;
    }
    out
}

/// The readings of a spelling, whatever its letters are.
pub fn readings(word: &str, azik: bool) -> (r: Vec<String>)
    ensures
        texts(r@) == readings_of(word@, azik),
{
    let small = to_lowercase(word);
    small_readings(small.as_str(), azik)
}

/// The readings of a spelling in small letters.
pub fn small_readings(small: &str, azik: bool) -> (r: Vec<String>)
    ensures
        texts(r@) == small_readings_of(small@, azik),
{
    let (kana, pending) = to_kana(small, azik);
    let mut out: Vec<String> = Vec::new();
    assert(texts(out@) =~= seq![]);
    if pending.as_str().is_empty() {
        if !kana.as_str().is_empty() {
            out.push(kana);
            assert(texts(out@) =~= seq![kana@]);
        }
        return out;
    }
    let tails = expand(pending.as_str(), azik);
    let ghost all = small_readings_of(small@, azik);
    let mut i: usize = 0;
    while i < tails.len()
        invariant
            i <= tails@.len(),
            all == texts(tails@).map_values(|tail: Seq<char>| kana@ + tail),
            texts(out@) =~= all.take(i as int),
        decreases tails.len() - i,
    {
        let ghost had = texts(out@);
        let one = joined(kana.as_str(), tails[i].as_str());
        assert(texts(tails@)[i as int] == tails@[i as int]@);
        out.push(one);
        i = i + 1;
        proof {
            lemma_take_next(all, i - 1);
            assert(texts(out@) =~= had.push(one@));
        }
    }
    assert(all.take(i as int) =~= all);
    out
}

/// `a` divided by `b`, rounded up.
pub open spec fn shared_out(a: nat, b: nat) -> nat {
    if b == 0 {
        0
    } else {
        ((a + b - 1) as nat) / b
    }
}

/// `out` with the words of the readings from `i` on, until `each` new ones have come.
/// Readings that stand for numbers are left out.
pub open spec fn gathered<H: Headwords>(
    out: Seq<Seq<char>>,
    taken: nat,
    keys: Seq<Seq<char>>,
    i: int,
    d: &H,
    each: nat,
) -> Seq<Seq<char>>
    decreases keys.len() - i,
{
    if i < 0 || i >= keys.len() {
        out
    } else if keys[i].contains('#') {
        gathered(out, taken, keys, i + 1, d, each)
    } else {
        let more = texts_added(out, d.found(keys[i]));
        let now = (taken + more.len() - out.len()) as nat;
        if now >= each {
            more
        } else {
            gathered(more, now, keys, i + 1, d, each)
        }
    }
}

/// `out` with the words of the first `n` readings, and of those that go on from them.
pub open spec fn all_gathered<H: Headwords>(
    out: Seq<Seq<char>>,
    readings: Seq<Seq<char>>,
    n: int,
    d: &H,
    each: nat,
) -> Seq<Seq<char>>
    decreases n,
{
    if n <= 0 {
        out
    } else {
        let r = readings[n - 1];
        gathered(
            all_gathered(out, readings, n - 1, d, each),
            0,
            seq![r] + d.longer(r, each),
            0,
            d,
            each,
        )
    }
}

/// At most `limit` of a list.
pub open spec fn first_of(v: Seq<Seq<char>>, limit: nat) -> Seq<Seq<char>> {
    if v.len() <= limit {
        v
    } else {
        v.take(limit as int)
    }
}

/// The words that are found for a spelling: under the spelling itself, in its own letters
/// and in small ones, and under its readings, which share the limit.
pub open spec fn words_found<H: Headwords>(
    word: Seq<char>,
    small: Seq<char>,
    readings: Seq<Seq<char>>,
    d: &H,
    limit: nat,
) -> Seq<Seq<char>> {
    let none: Seq<Seq<char>> = seq![];
    let own = texts_added(texts_added(none, d.found(word)), d.found(small));
    first_of(
        all_gathered(
            own,
            readings,
            readings.len() as int,
            d,
            shared_out(limit, readings.len()),
        ),
        limit,
    )
}

proof fn lemma_texts_added_grow(v: Seq<Seq<char>>, more: Seq<Seq<char>>, n: int)
    ensures
        texts_added_upto(v, more, n).len() >= v.len(),
    decreases n,
{
    if n > 0 {
        lemma_texts_added_grow(v, more, n - 1);
    }
}

/// At most `limit` of a list.
fn cut_short(v: Vec<String>, limit: usize) -> (r: Vec<String>)
    ensures
        texts(r@) == first_of(texts(v@), limit as nat),
{
    let mut out = v;
    if out.len() > limit {
        let ghost all = out@;
        out.truncate(limit);
        assert(texts(out@) =~= texts(all).take(limit as int));
    }
    out
}

/// The words that are found for a spelling.
pub fn headwords<H: Headwords>(
    word: &str,
    readings: &Vec<String>,
    dict: &H,
    limit: usize,
) -> (r: Vec<String>)
    requires
        dict.ready(),
    ensures
        texts(r@) == words_found(
            word@,
            lowercased(word@),
            texts(readings@),
            dict,
            limit as nat,
        ),
{
    let small = to_lowercase(word);
    headwords_of(word, small.as_str(), readings, dict, limit)
}

/// The words that are found for a spelling and the same in small letters.
pub fn headwords_of<H: Headwords>(
    word: &str,
    small: &str,
    readings: &Vec<String>,
    dict: &H,
    limit: usize,
) -> (r: Vec<String>)
    requires
        dict.ready(),
    ensures
        texts(r@) == words_found(word@, small@, texts(readings@), dict, limit as nat),
{
    let mut out: Vec<String> = Vec::new();
    assert(texts(out@) =~= seq![]);
    let own = dict.lookup(word);
    add_texts(&mut out, &own);
    let lower = dict.lookup(small);
    add_texts(&mut out, &lower);
    let ghost rs = texts(readings@);
    let ghost first = texts(out@);
    if readings.len() == 0 {
        return cut_short(out, limit);
    }
    let count: usize = readings.len();
    proof {
        lemma_round_up(limit as nat, count as nat);
    }
    let each: usize = if limit % count == 0 {
        limit / count
    } else {
        limit / count + 1
    };
    let mut i: usize = 0;
    while i < readings.len()
        invariant
            i <= readings@.len(),
            dict.ready(),
            rs == texts(readings@),
            each == shared_out(limit as nat, rs.len()),
            texts(out@) == all_gathered(first, rs, i as int, dict, each as nat),
        decreases readings.len() - i,
    {
        let ghost before = texts(out@);
        let mut keys: Vec<String> = Vec::new();
        keys.push(readings[i].clone());
        let mut more = dict.complete(readings[i].as_str(), each);
        let ghost longer = texts(more@);
        assert(rs[i as int] == readings@[i as int]@);
        assert(texts(keys@) =~= seq![rs[i as int]]);
        let ghost one = texts(keys@);
        keys.append(&mut more);
        assert(texts(keys@) =~= one + longer);
        gather(&mut out, &keys, dict, each);
        i = i + 1;
    }
    cut_short(out, limit)
}

proof fn lemma_round_up(a: nat, b: nat)
    requires
        b > 0,
    ensures
        shared_out(a, b) == if a % b == 0 {
            a / b
        } else {
            a / b + 1
        },
        a % b != 0 ==> a / b < a,
{
    let q = (a / b) as int;
    let r = (a % b) as int;
    assert(a == b * q + r) by {
        vstd::arithmetic::div_mod::lemma_fundamental_div_mod(a as int, b as int);
    }
    if r == 0 {
        vstd::arithmetic::div_mod::lemma_fundamental_div_mod_converse(
            (a + b - 1) as int,
            b as int,
            q,
            (b - 1) as int,
        );
    } else {
        assert(b * (q + 1) == b * q + b) by (nonlinear_arith);
        assert(q <= b * q) by (nonlinear_arith)
            requires
                b >= 1,
                q >= 0,
        ;
        vstd::arithmetic::div_mod::lemma_fundamental_div_mod_converse(
            (a + b - 1) as int,
            b as int,
            q + 1,
            r - 1,
        );
    }
}

/// Adds the words of readings, until `each` new ones have come.
fn gather<H: Headwords>(out: &mut Vec<String>, keys: &Vec<String>, dict: &H, each: usize)
    requires
        dict.ready(),
    ensures
        texts(final(out)@) == gathered(texts(old(out)@), 0, texts(keys@), 0, dict, each as nat),
{
    let ghost all = texts(keys@);
    let ghost first = texts(out@);
    let mut taken: usize = 0;
    let mut i: usize = 0;
    while i < keys.len()
        invariant
            i <= keys@.len(),
            dict.ready(),
            all == texts(keys@),
            first == texts(old(out)@),
            taken <= out@.len(),
            gathered(first, 0, all, 0, dict, each as nat) == gathered(
                texts(out@),
                taken as nat,
                all,
                i as int,
                dict,
                each as nat,
            ),
        decreases keys.len() - i,
    {
        let key = chars_of(keys[i].as_str());
        assert(all[i as int] == key@);
        if !has_char(&key, '#') {
            let words = dict.lookup(keys[i].as_str());
            let had: usize = out.len();
            proof {
                lemma_texts_added_grow(texts(out@), texts(words@), words@.len() as int);
            }
            add_texts(out, &words);
            taken = taken + (out.len() - had);
            if taken >= each {
                return;
            }
        }
        i = i + 1;
    }
}

/// The first `n` texts of a list, those that are empty or came before left out.
pub open spec fn new_ones(v: Seq<Seq<char>>, n: int) -> Seq<Seq<char>>
    decreases n,
{
    if n <= 0 {
        seq![]
    } else {
        let so_far = new_ones(v, n - 1);
        if v[n - 1].len() > 0 && !so_far.contains(v[n - 1]) {
            so_far.push(v[n - 1])
        } else {
            so_far
        }
    }
}

/// A reading in the kinds of kana.
pub open spec fn kinds(r: Seq<char>) -> Seq<Seq<char>> {
    seq![r, in_katakana(r), in_hankaku(r)]
}

/// The first `n` readings in the kinds of kana.
pub open spec fn all_kinds(readings: Seq<Seq<char>>, n: int) -> Seq<Seq<char>>
    decreases n,
{
    if n <= 0 {
        seq![]
    } else {
        all_kinds(readings, n - 1) + kinds(readings[n - 1])
    }
}

/// What a spelling may stand for: itself, its kana, its wide form, and the words that are
/// found for it.
pub open spec fn meant<H: Headwords>(
    word: Seq<char>,
    d: &H,
    limit: nat,
    azik: bool,
) -> Seq<Seq<char>> {
    let rs = readings_of(word, azik);
    let v = seq![word] + all_kinds(rs, rs.len() as int) + seq![
        word.map_values(|c: char| zenkaku_form(c)),
    ] + words_found(word, lowercased(word), rs, d, limit);
    new_ones(v, v.len() as int)
}

/// A text in its wide form.
fn widened(word: &str) -> (r: String)
    ensures
        r@ == word@.map_values(|c: char| zenkaku_form(c)),
{
    let v = chars_of(word);
    let mut out = String::new();
    let mut i: usize = 0;
    while i < v.len()
        invariant
            i <= v@.len(),
            out@ =~= v@.take(i as int).map_values(|c: char| zenkaku_form(c)),
        decreases v.len() - i,
    {
        out.push(to_zenkaku(v[i]));
        i = i + 1;
        proof {
            lemma_take_next(v@, i - 1);
        }
    }
    assert(v@.take(i as int) =~= v@);
    out
}

/// What a spelling may stand for.
fn candidates<H: Headwords>(word: &str, dict: &H, limit: usize, azik: bool) -> (r: Vec<String>)
    requires
        dict.ready(),
    ensures
        texts(r@) == meant(word@, dict, limit as nat, azik),
{
    let mut all: Vec<String> = Vec::new();
    all.push(word.to_owned());
    let rs = readings(word, azik);
    let ghost rt = texts(rs@);
    let ghost first = texts(all@);
    assert(first =~= seq![word@]);
    let mut i: usize = 0;
    assert(texts(all@) =~= first + all_kinds(rt, 0));
    while i < rs.len()
        invariant
            i <= rs@.len(),
            rt == texts(rs@),
            texts(all@) == first + all_kinds(rt, i as int),
        decreases rs.len() - i,
    {
        let ghost had = texts(all@);
        let r = rs[i].clone();
        assert(rt[i as int] == r@);
        let katakana = to_katakana(r.as_str());
        let hankaku = to_hankaku_katakana(r.as_str());
        all.push(r);
        all.push(katakana);
        all.push(hankaku);
        i = i + 1;
        proof {
            assert(texts(all@) =~= had + kinds(rt[i - 1]));
            assert(texts(all@) =~= first + all_kinds(rt, i as int));
        }
    }
    let ghost had = texts(all@);
    let wide = widened(word);
    all.push(wide);
    let mut words = headwords(word, &rs, dict, limit);
    let ghost found = texts(words@);
    assert(texts(all@) =~= had + seq![wide@]);
    let ghost most = texts(all@);
    all.append(&mut words);
    assert(texts(all@) =~= most + found);
    let ghost v = texts(all@);
    let mut out: Vec<String> = Vec::new();
    let mut j: usize = 0;
    assert(texts(out@) =~= seq![]);
    while j < all.len()
        invariant
            j <= all@.len(),
            v == texts(all@),
            texts(out@) == new_ones(v, j as int),
        decreases all.len() - j,
    {
        let ghost so_far = texts(out@);
        assert(v[j as int] == all@[j as int]@);
        if !all[j].as_str().is_empty() && !has_text(&out, all[j].as_str()) {
            let one = all[j].clone();
            out.push(one);
            assert(texts(out@) =~= so_far.push(one@));
        }
        j = j + 1;
    }
    out
}

/// The regular expression for one word: always a group, so that its choices stay its own.
pub open spec fn word_text<H: Headwords>(
    word: Seq<char>,
    rx: RxText,
    d: &H,
    limit: nat,
    azik: bool,
) -> Seq<char> {
    let v = meant(word, d, limit, azik);
    grouped(choices(ways(words_added(seq![], v, v.len() as int), rx), rx), rx)
}

/// The regular expression for the first `n` words.
pub open spec fn words_text<H: Headwords>(
    words: Seq<Seq<char>>,
    n: int,
    rx: RxText,
    d: &H,
    limit: nat,
    azik: bool,
) -> Seq<char>
    decreases n,
{
    if n <= 0 {
        seq![]
    } else {
        words_text(words, n - 1, rx, d, limit, azik) + word_text(words[n - 1], rx, d, limit, azik)
    }
}

/// The regular expression for one word.
fn word_regex<H: Headwords>(word: &str, rx: &Rxop, dict: &H, limit: usize, azik: bool) -> (r:
    String)
    requires
        dict.ready(),
    ensures
        r@ == word_text(word@, rx@, dict, limit as nat, azik),
{
    let cands = candidates(word, dict, limit, azik);
    let ghost v = texts(cands@);
    let mut root = Node::default();
    let mut i: usize = 0;
    while i < cands.len()
        invariant
            i <= cands@.len(),
            v == texts(cands@),
            root.wf(),
            root@ == words_added(seq![], v, i as int),
        decreases cands.len() - i,
    {
        assert(v[i as int] == cands@[i as int]@);
        root.insert(cands[i].as_str());
        i = i + 1;
    }
    let alts = alternatives(&root.words, rx);
    group(&alts, rx)
}

/// Makes the regular expression for a query. White space separates words; the expressions
/// for them stand one after the other.
pub fn build<H: Headwords>(query: &str, rx: &Rxop, dict: &H, limit: usize, azik: bool) -> (r:
    String)
    requires
        dict.ready(),
    ensures
        r@ == rx@.prefix + words_text(
            words_from(query@, 0),
            words_from(query@, 0).len() as int,
            rx@,
            dict,
            limit as nat,
            azik,
        ),
{
    let words = split_words(query);
    let ghost all = words_from(query@, 0);
    let mut out = rx.prefix.to_owned();
    let mut i: usize = 0;
    assert(out@ =~= rx@.prefix + words_text(all, 0, rx@, dict, limit as nat, azik));
    while i < words.len()
        invariant
            i <= words@.len(),
            dict.ready(),
            all == texts(words@),
            out@ == rx@.prefix + words_text(all, i as int, rx@, dict, limit as nat, azik),
        decreases words.len() - i,
    {
        assert(all[i as int] == words@[i as int]@);
        let one = word_regex(words[i].as_str(), rx, dict, limit, azik);
        out.append(one.as_str());
        i = i + 1;
        assert(out@ =~= rx@.prefix + words_text(all, i as int, rx@, dict, limit as nat, azik));
    }
    out
}

pub proof fn lemma_prefix_transitive(a: Seq<char>, b: Seq<char>, c: Seq<char>)
    requires
        a.is_prefix_of(b),
        b.is_prefix_of(c),
    ensures
        a.is_prefix_of(c),
{
    assert(a =~= c.subrange(0, a.len() as int)) by {
        assert forall|i: int| 0 <= i < a.len() implies a[i] == c.subrange(0, a.len() as int)[i] by {
            assert(a[i] == b.subrange(0, a.len() as int)[i]);
            assert(b[i] == c.subrange(0, b.len() as int)[i]);
        }
    }
}

proof fn lemma_word_added(words: Seq<Seq<char>>, s: Seq<char>)
    requires
        ascending(false, words),
    ensures
        ascending(false, word_added(words, s)),
        !covered(words, s) ==> forall|w: Seq<char>|
            #[trigger] word_added(words, s).contains(w) <==> w == s || (words.contains(w)
                && !s.is_prefix_of(w)),
{
    if !covered(words, s) {
        let set = words.to_set().filter(|w: Seq<char>| !s.is_prefix_of(w)).insert(s);
        vstd::seq_lib::seq_to_set_is_finite(words);
        lemma_listed_set(false, set);
        let all = listed(false, set);
        assert forall|w: Seq<char>| #[trigger] all.contains(w) <==> w == s || (words.contains(w)
            && !s.is_prefix_of(w)) by {
            assert(all.contains(w) <==> all.to_set().contains(w));
            assert(words.contains(w) <==> words.to_set().contains(w));
        }
    }
}

/// Putting words together loses none and makes none up: each of them is matched by its
/// beginning, and what is kept are some of them.
pub proof fn law_every_word_is_matched(v: Seq<Seq<char>>, n: int)
    requires
        0 <= n <= v.len(),
    ensures
        ({
            let words = words_added(seq![], v, n);
            &&& ascending(false, words)
            &&& forall|i: int| 0 <= i < n ==> covered(words, #[trigger] v[i])
            &&& forall|j: int| 0 <= j < words.len() ==> v.take(n).contains(#[trigger] words[j])
        }),
    decreases n,
{
    let words = words_added(seq![], v, n);
    if n > 0 {
        law_every_word_is_matched(v, n - 1);
        let before = words_added(seq![], v, n - 1);
        let s = v[n - 1];
        lemma_word_added(before, s);
        lemma_take_next(v, n - 1);
        assert forall|i: int| 0 <= i < n implies covered(words, #[trigger] v[i]) by {
            if covered(before, s) {
                if i == n - 1 {
                    assert(covered(before, s));
                }
            } else if i == n - 1 {
                assert(words.contains(s));
                let k = choose|k: int| 0 <= k < words.len() && words[k] == s;
                assert(s.subrange(0, s.len() as int) =~= s);
                assert(words[k].is_prefix_of(s));
            } else {
                assert(covered(before, v[i]));
                let k = choose|k: int|
                    0 <= k < before.len() && (#[trigger] before[k]).is_prefix_of(v[i]);
                let w = before[k];
                if s.is_prefix_of(w) {
                    lemma_prefix_transitive(s, w, v[i]);
                    assert(words.contains(s));
                    let m = choose|m: int| 0 <= m < words.len() && words[m] == s;
                    assert(words[m].is_prefix_of(v[i]));
                } else {
                    assert(before.contains(w));
                    assert(words.contains(w));
                    let m = choose|m: int| 0 <= m < words.len() && words[m] == w;
                    assert(words[m].is_prefix_of(v[i]));
                }
            }
        }
        assert forall|j: int| 0 <= j < words.len() implies v.take(n).contains(
            #[trigger] words[j],
        ) by {
            let w = words[j];
            assert(words.contains(w));
            crate::order::lemma_push_contains(v.take(n - 1), s, w);
            if covered(before, s) {
                assert(v.take(n - 1).contains(before[j]));
            } else if w != s {
                assert(before.contains(w));
                let k = choose|k: int| 0 <= k < before.len() && before[k] == w;
                assert(v.take(n - 1).contains(before[k]));
            }
        }
    }
}

/// Of two words that are kept, neither is the beginning of the other.
pub proof fn law_no_word_is_kept_twice(v: Seq<Seq<char>>, n: int, i: int, j: int)
    requires
        0 <= n <= v.len(),
        ({
            let words = words_added(seq![], v, n);
            0 <= i < words.len() && 0 <= j < words.len() && i != j
        }),
    ensures
        ({
            let words = words_added(seq![], v, n);
            !words[i].is_prefix_of(words[j])
        }),
    decreases n,
{
    let words = words_added(seq![], v, n);
    if n > 0 {
        law_every_word_is_matched(v, n - 1);
        law_every_word_is_matched(v, n);
        let before = words_added(seq![], v, n - 1);
        let s = v[n - 1];
        lemma_word_added(before, s);
        if covered(before, s) {
            law_no_word_is_kept_twice(v, n - 1, i, j);
        } else {
            lemma_before(false);
            assert(words.contains(words[i]) && words.contains(words[j]));
            assert(words[i] != words[j]) by {
                if i < j {
                    assert(crate::order::before(false, words[i], words[j]));
                } else {
                    assert(crate::order::before(false, words[j], words[i]));
                }
            }
            if words[i] == s {
            } else if words[j] == s {
                let k = choose|k: int| 0 <= k < before.len() && before[k] == words[i];
                assert(!before[k].is_prefix_of(s));
            } else {
                let a = choose|k: int| 0 <= k < before.len() && before[k] == words[i];
                let b = choose|k: int| 0 <= k < before.len() && before[k] == words[j];
                law_no_word_is_kept_twice(v, n - 1, a, b);
            }
        }
    }
}

} // verus!
