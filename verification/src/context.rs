//! The text on the screen as a clue to which of many homophones is meant.
//!
//! A text repeats its words: a candidate that stands on the screen already is likely to be
//! meant again. The words in a candidate's annotation are clues, too, though weaker ones:
//! dictionaries keep translations and examples there. This module finds the mentions and
//! how far they are from the cursor; how much a mention weighs is up to the caller.
use vstd::prelude::*;
use vstd::string::*;
use crate::text::{
    chars_of, digit, is_digit, is_letter, lemma_take_next, letter, lower, text_of, texts, to_lower,
};

verus! {

/// The text on the screen.
pub struct Context {
    chars: Vec<char>,
    cursor: usize,
}

/// What is on the screen, and where the cursor is.
pub struct ScreenText {
    pub chars: Seq<char>,
    pub cursor: int,
}

impl View for Context {
    type V = ScreenText;

    closed spec fn view(&self) -> ScreenText {
        ScreenText { chars: self.chars@, cursor: self.cursor as int }
    }
}

/// The kinds of characters that part words of one character.
#[derive(Clone, Copy, Debug, PartialEq, Eq, Structural)]
pub enum Class {
    Kanji,
    Kana,
    Ascii,
    Other,
}

/// The kind of a character.
pub open spec fn class_is(c: char) -> Class {
    if '\u{4e00}' <= c <= '\u{9fff}' || '\u{3400}' <= c <= '\u{4dbf}' || '\u{f900}' <= c
        <= '\u{fadf}' {
        Class::Kanji
    } else if '\u{3041}' <= c <= '\u{309f}' || '\u{30a0}' <= c <= '\u{30ff}' || '\u{ff66}' <= c
        <= '\u{ff9d}' {
        Class::Kana
    } else if letter(c) || digit(c) {
        Class::Ascii
    } else {
        Class::Other
    }
}

/// A word of letters only: it is found whatever its case.
pub open spec fn all_letters(n: Seq<char>) -> bool {
    forall|i: int| 0 <= i < n.len() ==> letter(#[trigger] n[i])
}

/// Whether the word `n` stands at `at`.
pub open spec fn stands_at(s: Seq<char>, n: Seq<char>, at: int) -> bool {
    forall|i: int|
        0 <= i < n.len() ==> if all_letters(n) {
            lower(s[at + i]) == lower(#[trigger] n[i])
        } else {
            s[at + i] == n[i]
        }
}

/// A character that joins letters to an identifier or a path.
pub open spec fn joins(c: char) -> bool {
    letter(c) || digit(c) || c == '/' || c == '.' || c == '_' || c == '-'
}

/// Whether a mention at `at` counts. A word of letters must not be part of an identifier or
/// a path. A word of one character must be all there is of its kind.
pub open spec fn counts(s: Seq<char>, at: int, len: int, letters: bool) -> bool {
    if letters {
        !(at > 0 && joins(s[at - 1])) && !(at + len < s.len() && joins(s[at + len]))
    } else if len > 1 {
        true
    } else {
        !(at > 0 && class_is(s[at - 1]) == class_is(s[at])) && !(at + len < s.len() && class_is(
            s[at + len],
        ) == class_is(s[at]))
    }
}

/// How many characters a mention is away from the cursor.
pub open spec fn distance_of(cursor: int, at: int, len: int) -> int {
    if cursor < at {
        at - cursor
    } else if cursor >= at + len {
        cursor - (at + len - 1)
    } else {
        0
    }
}

/// The distances of the mentions of `n` that start before `at`.
pub open spec fn found_before(c: ScreenText, n: Seq<char>, at: int) -> Seq<int>
    decreases at,
{
    if at <= 0 {
        seq![]
    } else {
        let had = found_before(c, n, at - 1);
        if stands_at(c.chars, n, at - 1) && counts(c.chars, at - 1, n.len() as int, all_letters(n)) {
            had.push(distance_of(c.cursor, at - 1, n.len() as int))
        } else {
            had
        }
    }
}

/// The distances of all mentions of `n`, from the top of the screen down.
pub open spec fn found(c: ScreenText, n: Seq<char>) -> Seq<int> {
    if n.len() == 0 || n.len() > c.chars.len() {
        seq![]
    } else {
        found_before(c, n, c.chars.len() - n.len() + 1)
    }
}

/// Where the reading of an annotation stands: the words found, the letters and the kanji
/// that may be one more word, and whether a quotation is open.
pub struct Clues {
    pub found: Seq<Seq<char>>,
    pub word: Seq<char>,
    pub run: Seq<char>,
    pub quoted: bool,
}

/// The letters become a word, if there are three or more.
pub open spec fn word_ended(c: Clues) -> Clues {
    Clues {
        found: if c.word.len() >= 3 {
            c.found.push(c.word.map_values(|x: char| lower(x)))
        } else {
            c.found
        },
        word: seq![],
        ..c
    }
}

/// The kanji become a word, if there are two or more.
pub open spec fn run_ended(c: Clues) -> Clues {
    Clues {
        found: if c.run.len() >= 2 {
            c.found.push(c.run)
        } else {
            c.found
        },
        run: seq![],
        ..c
    }
}

/// Reads one more character of an annotation. Letters count everywhere; kanji count only
/// inside a quotation, where the examples are.
pub open spec fn clue_step(c: Clues, x: char) -> Clues {
    if x == '「' {
        word_ended(run_ended(Clues { quoted: true, ..c }))
    } else if x == '」' {
        word_ended(run_ended(Clues { quoted: false, ..c }))
    } else if letter(x) {
        let d = run_ended(c);
        Clues { word: d.word.push(x), ..d }
    } else if c.quoted && class_is(x) == Class::Kanji {
        let d = word_ended(c);
        Clues { run: d.run.push(x), ..d }
    } else {
        word_ended(run_ended(c))
    }
}

/// Reads the first `n` characters of an annotation.
pub open spec fn clues_upto(s: Seq<char>, n: int) -> Clues
    decreases n,
{
    if n <= 0 {
        Clues { found: seq![], word: seq![], run: seq![], quoted: false }
    } else {
        clue_step(clues_upto(s, n - 1), s[n - 1])
    }
}

/// The words of an annotation that may stand on the screen.
pub open spec fn hint_words(s: Seq<char>) -> Seq<Seq<char>> {
    run_ended(word_ended(clues_upto(s, s.len() as int))).found
}

/// A word and where it is mentioned.
#[derive(Debug, PartialEq)]
pub struct Mention {
    pub word: String,
    /// It comes from the annotation.
    pub hint: bool,
    /// How far each mention is from the cursor.
    pub distances: Vec<usize>,
}

/// What a mention says.
pub struct MentionText {
    pub word: Seq<char>,
    pub hint: bool,
    pub distances: Seq<int>,
}

pub open spec fn as_ints(v: Seq<usize>) -> Seq<int> {
    v.map_values(|n: usize| n as int)
}

impl View for Mention {
    type V = MentionText;

    open spec fn view(&self) -> MentionText {
        MentionText { word: self.word@, hint: self.hint, distances: as_ints(self.distances@) }
    }
}

pub open spec fn mention_texts(v: Seq<Mention>) -> Seq<MentionText> {
    v.map_values(|m: Mention| m@)
}

/// The clues to a candidate: itself, then the words of its annotation.
pub open spec fn clues_to(
    c: ScreenText,
    text: Seq<char>,
    annotation: Option<Seq<char>>,
) -> Seq<MentionText> {
    let own = seq![MentionText { word: text, hint: false, distances: found(c, text) }];
    match annotation {
        None => own,
        Some(a) => own + hint_words(a).map_values(
            |w: Seq<char>| MentionText { word: w, hint: true, distances: found(c, w) },
        ),
    }
}

/// A mention is found at its place and nowhere before the text begins.
pub proof fn law_no_mention_no_clue(c: ScreenText, n: Seq<char>)
    requires
        forall|at: int| 0 <= at <= c.chars.len() - n.len() ==> !#[trigger] stands_at(c.chars, n, at),
    ensures
        found(c, n) == Seq::<int>::empty(),
{
    if n.len() > 0 && n.len() <= c.chars.len() {
        lemma_none_before(c, n, c.chars.len() - n.len() + 1);
    }
}

proof fn lemma_none_before(c: ScreenText, n: Seq<char>, at: int)
    requires
        at <= c.chars.len() - n.len() + 1,
        forall|a: int| 0 <= a <= c.chars.len() - n.len() ==> !#[trigger] stands_at(c.chars, n, a),
    ensures
        found_before(c, n, at) == Seq::<int>::empty(),
    decreases at,
{
    if at > 0 {
        lemma_none_before(c, n, at - 1);
        assert(!stands_at(c.chars, n, at - 1));
    }
}

fn class_of(c: char) -> (r: Class)
    ensures
        r == class_is(c),
{
    if ('\u{4e00}' <= c && c <= '\u{9fff}') || ('\u{3400}' <= c && c <= '\u{4dbf}') || ('\u{f900}'
        <= c && c <= '\u{fadf}') {
        Class::Kanji
    } else if ('\u{3041}' <= c && c <= '\u{309f}') || ('\u{30a0}' <= c && c <= '\u{30ff}') || (
    '\u{ff66}' <= c && c <= '\u{ff9d}') {
        Class::Kana
    } else if is_letter(c) || is_digit(c) {
        Class::Ascii
    } else {
        Class::Other
    }
}

fn is_joining(c: char) -> (r: bool)
    ensures
        r == joins(c),
{
    is_letter(c) || is_digit(c) || c == '/' || c == '.' || c == '_' || c == '-'
}

impl Context {
    /// The cursor is on the screen, or just behind its text.
    pub closed spec fn wf(&self) -> bool {
        self.cursor <= self.chars@.len()
    }

    /// The text on the screen, its lines joined, and the cursor counted in characters.
    pub fn new(text: &str, cursor: usize) -> (r: Context)
        ensures
            r.wf(),
            r@.chars == text@,
            r@.cursor == if cursor <= text@.len() {
                cursor as int
            } else {
                text@.len() as int
            },
    {
        let chars = chars_of(text);
        let cursor: usize = if cursor <= chars.len() {
            cursor
        } else {
            chars.len()
        };
        Context { chars, cursor }
    }

    pub fn is_empty(&self) -> (r: bool)
        ensures
            r == (self@.chars.len() == 0),
    {
        self.chars.len() == 0
    }

    /// The clues to a candidate: itself, then the words of its annotation.
    pub fn explain(&self, text: &str, annotation: &Option<String>) -> (r: Vec<Mention>)
        requires
            self.wf(),
        ensures
            mention_texts(r@) == clues_to(self@, text@, crate::text::opt_text(*annotation)),
    {
        let mut out: Vec<Mention> = Vec::new();
        let distances = self.distances_of(text);
        let own = Mention { word: text.to_owned(), hint: false, distances };
        out.push(own);
        let ghost first = mention_texts(out@);
        assert(first =~= seq![own@]);
        if let Some(a) = annotation {
            let words = hints(a.as_str());
            let ghost all = texts(words@);
            let ghost more = all.map_values(
                |w: Seq<char>|
                    MentionText { word: w, hint: true, distances: found(self@, w) },
            );
            let mut i: usize = 0;
            assert(mention_texts(out@) =~= first + more.take(0));
            while i < words.len()
                invariant
                    i <= words@.len(),
                    self.wf(),
                    all == texts(words@),
                    more == all.map_values(
                        |w: Seq<char>|
                            MentionText { word: w, hint: true, distances: found(self@, w) },
                    ),
                    mention_texts(out@) == first + more.take(i as int),
                decreases words.len() - i,
            {
                let ghost had = mention_texts(out@);
                let distances = self.distances_of(words[i].as_str());
                let m = Mention { word: words[i].clone(), hint: true, distances };
                out.push(m);
                i = i + 1;
                proof {
                    lemma_take_next(more, i - 1);
                    assert(all[i - 1] == words@[i - 1]@);
                    assert(m@ == more[i - 1]);
                    assert(mention_texts(out@) =~= had.push(m@));
                    assert(mention_texts(out@) =~= first + more.take(i as int));
                }
            }
            assert(more.take(i as int) =~= more);
        }
        out
    }

    /// The distances of all mentions of a word.
    fn distances_of(&self, needle: &str) -> (r: Vec<usize>)
        requires
            self.wf(),
        ensures
            as_ints(r@) == found(self@, needle@),
    {
        let n = chars_of(needle);
        let mut out: Vec<usize> = Vec::new();
        assert(as_ints(out@) =~= seq![]);
        if n.len() == 0 || n.len() > self.chars.len() {
            return out;
        }
        let letters = is_all_letters(&n);
        let last: usize = self.chars.len() - n.len();
        let mut at: usize = 0;
        loop
            invariant
                self.wf(),
                n@ == needle@,
                n@.len() > 0,
                last == self.chars@.len() - n@.len(),
                at <= last,
                letters == all_letters(n@),
                as_ints(out@) == found_before(self@, n@, at as int),
            decreases last - at,
        {
            let ghost had = as_ints(out@);
            if self.is_at(&n, at, letters) && self.boundary_ok(at, n.len(), letters) {
                let d = self.distance(at, n.len());
                out.push(d);
                assert(as_ints(out@) =~= had.push(d as int));
            }
            if at == last {
                return out;
            }
            at = at + 1;
        }
    }

    /// Whether the word stands at `at`.
    fn is_at(&self, n: &Vec<char>, at: usize, letters: bool) -> (r: bool)
        requires
            at + n@.len() <= self.chars@.len(),
            letters == all_letters(n@),
        ensures
            r == stands_at(self@.chars, n@, at as int),
    {
        let mut i: usize = 0;
        while i < n.len()
            invariant
                at + n@.len() <= self.chars@.len(),
                at + n.len() <= self.chars.len(),
                i <= n@.len(),
                letters == all_letters(n@),
                forall|j: int|
                    0 <= j < i ==> if letters {
                        lower(self.chars@[at + j]) == lower(#[trigger] n@[j])
                    } else {
                        self.chars@[at + j] == n@[j]
                    },
            decreases n.len() - i,
        {
            let same = if letters {
                to_lower(self.chars[at + i]) == to_lower(n[i])
            } else {
                self.chars[at + i] == n[i]
            };
            if !same {
                proof {
                    let s = self@.chars;
                    if stands_at(s, n@, at as int) {
                        assert(if all_letters(n@) {
                            lower(s[at + i]) == lower(n@[i as int])
                        } else {
                            s[at + i] == n@[i as int]
                        });
                    }
                }
                return false;
            }
            i = i + 1;
        }
        true
    }

    /// Whether a mention counts.
    fn boundary_ok(&self, at: usize, len: usize, letters: bool) -> (r: bool)
        requires
            len > 0,
            at + len <= self.chars@.len(),
        ensures
            r == counts(self@.chars, at as int, len as int, letters),
    {
        let total: usize = self.chars.len();
        let end: usize = at + len;
        let more = end < total;
        if letters {
            return !(at > 0 && is_joining(self.chars[at - 1])) && !(more && is_joining(
                self.chars[end],
            ));
        }
        if len > 1 {
            return true;
        }
        let class = class_of(self.chars[at]);
        !(at > 0 && class_of(self.chars[at - 1]) == class) && !(more && class_of(self.chars[end])
            == class)
    }

    /// How many characters a mention is away from the cursor.
    fn distance(&self, at: usize, len: usize) -> (r: usize)
        requires
            self.wf(),
            len > 0,
            at + len <= self.chars@.len(),
        ensures
            r == distance_of(self@.cursor, at as int, len as int),
    {
        let total: usize = self.chars.len();
        assert(at + len <= total);
        let end: usize = at + len;
        if self.cursor < at {
            at - self.cursor
        } else if self.cursor >= end {
            self.cursor - (end - 1)
        } else {
            0
        }
    }
}

fn is_all_letters(n: &Vec<char>) -> (r: bool)
    ensures
        r == all_letters(n@),
{
    let mut i: usize = 0;
    while i < n.len()
        invariant
            i <= n@.len(),
            forall|j: int| 0 <= j < i ==> letter(#[trigger] n@[j]),
        decreases n.len() - i,
    {
        if !is_letter(n[i]) {
            assert(!letter(n@[i as int]));
            return false;
        }
        i = i + 1;
    }
    true
}

/// Closes the letters that may be a word.
fn flush_word(out: &mut Vec<String>, word: &mut Vec<char>)
    ensures
        final(word)@ == Seq::<char>::empty(),
        texts(final(out)@) == if old(word)@.len() >= 3 {
            texts(old(out)@).push(old(word)@.map_values(|x: char| lower(x)))
        } else {
            texts(old(out)@)
        },
{
    if word.len() >= 3 {
        let ghost had = texts(out@);
        let mut w: Vec<char> = Vec::new();
        for i in 0..word.len()
            invariant
                w@ =~= word@.take(i as int).map_values(|x: char| lower(x)),
        {
            w.push(to_lower(word[i]));
            proof {
                lemma_take_next(word@, i as int);
            }
        }
        assert(word@.take(word@.len() as int) =~= word@);
        let t = text_of(&w);
        out.push(t);
        assert(texts(out@) =~= had.push(t@));
    }
    *word = Vec::new();
    assert(word@ =~= Seq::<char>::empty());
}

/// Closes the kanji that may be a word.
fn flush_run(out: &mut Vec<String>, run: &mut Vec<char>)
    ensures
        final(run)@ == Seq::<char>::empty(),
        texts(final(out)@) == if old(run)@.len() >= 2 {
            texts(old(out)@).push(old(run)@)
        } else {
            texts(old(out)@)
        },
{
    if run.len() >= 2 {
        let ghost had = texts(out@);
        let t = text_of(run);
        out.push(t);
        assert(texts(out@) =~= had.push(t@));
    }
    *run = Vec::new();
    assert(run@ =~= Seq::<char>::empty());
}

/// The words of an annotation that may stand on the screen: letters from anywhere in it,
/// kanji from inside its quotations.
pub fn hints(annotation: &str) -> (r: Vec<String>)
    ensures
        texts(r@) == hint_words(annotation@),
{
    let v = chars_of(annotation);
    let mut out: Vec<String> = Vec::new();
    let mut word: Vec<char> = Vec::new();
    let mut run: Vec<char> = Vec::new();
    let mut quoted = false;
    let mut i: usize = 0;
    proof {
        assert(texts(out@) =~= seq![]);
        assert(word@ =~= seq![]);
        assert(run@ =~= seq![]);
    }
    while i < v.len()
        invariant
            i <= v@.len(),
            v@ == annotation@,
            clues_upto(v@, i as int) == (Clues {
                found: texts(out@),
                word: word@,
                run: run@,
                quoted,
            }),
        decreases v.len() - i,
    {
        let c = v[i];
        if c == '「' {
            quoted = true;
            flush_run(&mut out, &mut run);
            flush_word(&mut out, &mut word);
        } else if c == '」' {
            quoted = false;
            flush_run(&mut out, &mut run);
            flush_word(&mut out, &mut word);
        } else if is_letter(c) {
            flush_run(&mut out, &mut run);
            word.push(c);
        } else if quoted && class_of(c) == Class::Kanji {
            flush_word(&mut out, &mut word);
            run.push(c);
        } else {
            flush_run(&mut out, &mut run);
            flush_word(&mut out, &mut word);
        }
        i = i + 1;
    }
    flush_word(&mut out, &mut word);
    flush_run(&mut out, &mut run);
    out
}

} // verus!
