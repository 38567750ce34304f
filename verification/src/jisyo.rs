//! The lines of an SKK dictionary.
//!
//! A line is a reading, a blank and the candidates between slashes: `かんじ /漢字/幹事;宴会/`.
//! What follows a `;` in a candidate annotates it. A reading with okurigana ends in the
//! first letter of the okurigana (`うごk`); its line may hold, behind the candidates, which
//! of them belong to which okurigana: `おおk /大/多/[き/大/]/[く/多/]/`.
use vstd::prelude::*;
use vstd::string::*;
use crate::order::listed;
use crate::table::Table;
use crate::text::{
    chars_of, find_char, first_at, has_text, is_letter, lemma_take_next, letter, lines, lines_of,
    opt_text, slice_text, split, split_text, texts, trim, trimmed_end, trimmed_start,
};

verus! {

/// One candidate; what follows the `;` is kept apart.
#[derive(Clone, Debug, PartialEq, Eq)]
pub struct Candidate {
    pub text: String,
    pub annotation: Option<String>,
}

/// What a candidate holds.
pub struct CandText {
    pub text: Seq<char>,
    pub annotation: Option<Seq<char>>,
}

impl View for Candidate {
    type V = CandText;

    open spec fn view(&self) -> CandText {
        CandText { text: self.text@, annotation: opt_text(self.annotation) }
    }
}

/// What a list of candidates holds.
pub open spec fn cand_texts(v: Seq<Candidate>) -> Seq<CandText> {
    v.map_values(|c: Candidate| c@)
}

/// Candidates by reading.
pub type Words = Map<Seq<char>, Seq<CandText>>;

/// The texts that belong to each okurigana.
pub type Blocks = Map<Seq<char>, Seq<Seq<char>>>;

/// Okurigana by reading.
pub type Okuri = Map<Seq<char>, Blocks>;

/// Which candidates belong to which okurigana, under one reading.
pub type OkuriBlocks = Table<Vec<String>>;

/// What a table of candidates holds.
pub open spec fn words_of(m: Map<Seq<char>, Vec<Candidate>>) -> Words {
    Map::new(|k: Seq<char>| m.dom().contains(k), |k: Seq<char>| cand_texts(m[k]@))
}

/// What the okurigana under one reading hold.
pub open spec fn blocks_of(m: Map<Seq<char>, Vec<String>>) -> Blocks {
    Map::new(|k: Seq<char>| m.dom().contains(k), |k: Seq<char>| texts(m[k]@))
}

/// What a table of okurigana holds.
pub open spec fn okuri_of(m: Map<Seq<char>, OkuriBlocks>) -> Okuri {
    Map::new(|k: Seq<char>| m.dom().contains(k), |k: Seq<char>| blocks_of(m[k]@))
}

/// All tables of a table of okurigana are in order.
pub open spec fn okuri_wf(t: &Table<OkuriBlocks>) -> bool {
    t.wf() && forall|k: Seq<char>| t@.dom().contains(k) ==> (#[trigger] t@[k]).wf()
}

/// The candidates of a reading; none where it is missing.
pub open spec fn entry(w: Words, key: Seq<char>) -> Seq<CandText> {
    if w.dom().contains(key) {
        w[key]
    } else {
        seq![]
    }
}

/// The okurigana of a reading; none where it is missing.
pub open spec fn okuri_entry(o: Okuri, key: Seq<char>) -> Blocks {
    if o.dom().contains(key) {
        o[key]
    } else {
        Map::empty()
    }
}

/// The texts of an okurigana; none where it is missing.
pub open spec fn block_entry(b: Blocks, okuri: Seq<char>) -> Seq<Seq<char>> {
    if b.dom().contains(okuri) {
        b[okuri]
    } else {
        seq![]
    }
}

/// Half-width blanks and tabs only.
pub open spec fn blank(s: Seq<char>) -> bool {
    forall|i: int| 0 <= i < s.len() ==> #[trigger] s[i] == ' ' || s[i] == '\t'
}

/// The candidate that a piece of a line writes. A blank piece is none: it would hide the
/// candidates of the shared dictionary. A full-width blank is a candidate.
pub open spec fn cand_read(s: Seq<char>) -> Option<CandText> {
    let n = first_at(s, ';') as int;
    if blank(s) {
        None
    } else if 0 < n < s.len() {
        Some(CandText { text: s.take(n), annotation: Some(s.skip(n + 1)) })
    } else {
        Some(CandText { text: s, annotation: None })
    }
}

/// A candidate as a piece of a line.
pub open spec fn cand_written(c: CandText) -> Seq<char> {
    match c.annotation {
        Some(a) => c.text + seq![';'] + a,
        None => c.text,
    }
}

/// What has been read of a line.
pub struct LineText {
    pub key: Seq<char>,
    pub cands: Seq<CandText>,
    pub blocks: Blocks,
}

/// What has been read of the pieces of a line. `open` is an okurigana whose bracket is not
/// closed yet.
pub struct Pieces {
    pub cands: Seq<CandText>,
    pub blocks: Blocks,
    pub open: Option<(Seq<char>, Seq<Seq<char>>)>,
}

/// Reads one more piece of a line.
pub open spec fn piece_read(p: Pieces, seg: Seq<char>) -> Pieces {
    if seg.len() > 0 && seg[0] == '[' {
        Pieces { open: Some((seg.skip(1), seq![])), ..p }
    } else if seg.len() > 0 && seg[0] == ']' {
        match p.open {
            Some(o) if o.0.len() > 0 && o.1.len() > 0 => Pieces {
                blocks: p.blocks.insert(o.0, o.1),
                open: None,
                ..p
            },
            _ => Pieces { open: None, ..p },
        }
    } else {
        match (p.open, cand_read(seg)) {
            (Some(o), Some(c)) => Pieces { open: Some((o.0, o.1.push(c.text))), ..p },
            (None, Some(c)) => Pieces { cands: p.cands.push(c), ..p },
            _ => p,
        }
    }
}

/// Reads the first `n` pieces of a line.
pub open spec fn pieces_read(segs: Seq<Seq<char>>, n: int) -> Pieces
    decreases n,
{
    if n <= 0 {
        Pieces { cands: seq![], blocks: Map::empty(), open: None }
    } else {
        piece_read(pieces_read(segs, n - 1), segs[n - 1])
    }
}

/// `s` without a slash at its start.
pub open spec fn without_first_slash(s: Seq<char>) -> Seq<char> {
    if s.len() > 0 && s[0] == '/' {
        s.skip(1)
    } else {
        s
    }
}

/// `s` without a slash at its end.
pub open spec fn without_last_slash(s: Seq<char>) -> Seq<char> {
    if s.len() > 0 && s.last() == '/' {
        s.drop_last()
    } else {
        s
    }
}

/// What a line says. Comments, lines without a blank and lines without a candidate say
/// nothing.
pub open spec fn line_read(line: Seq<char>) -> Option<LineText> {
    let n = first_at(line, ' ') as int;
    if line.len() == 0 || line[0] == ';' || n >= line.len() {
        None
    } else {
        let body = without_last_slash(without_first_slash(trim(line.skip(n + 1))));
        let segs = split(body, '/');
        let p = pieces_read(segs, segs.len() as int);
        if p.cands.len() == 0 {
            None
        } else {
            Some(LineText { key: line.take(n), cands: p.cands, blocks: p.blocks })
        }
    }
}

/// Whether one of the candidates is written `text`.
pub open spec fn has_cand(v: Seq<CandText>, text: Seq<char>) -> bool {
    exists|i: int| 0 <= i < v.len() && (#[trigger] v[i]).text == text
}

/// `v` with `c` behind it, unless a candidate is written the same.
pub open spec fn cand_added(v: Seq<CandText>, c: CandText) -> Seq<CandText> {
    if has_cand(v, c.text) {
        v
    } else {
        v.push(c)
    }
}

/// `v` with the first `n` of `more` behind it, as far as they are new.
pub open spec fn cands_added_upto(v: Seq<CandText>, more: Seq<CandText>, n: int) -> Seq<CandText>
    decreases n,
{
    if n <= 0 {
        v
    } else {
        cand_added(cands_added_upto(v, more, n - 1), more[n - 1])
    }
}

/// `v` with `more` behind it, as far as they are new.
pub open spec fn cands_added(v: Seq<CandText>, more: Seq<CandText>) -> Seq<CandText> {
    cands_added_upto(v, more, more.len() as int)
}

/// `v` with the first `n` of `more` behind it, as far as they are new.
pub open spec fn texts_added_upto(v: Seq<Seq<char>>, more: Seq<Seq<char>>, n: int) -> Seq<Seq<char>>
    decreases n,
{
    if n <= 0 {
        v
    } else {
        let before = texts_added_upto(v, more, n - 1);
        if before.contains(more[n - 1]) {
            before
        } else {
            before.push(more[n - 1])
        }
    }
}

/// `v` with `more` behind it, as far as they are new.
pub open spec fn texts_added(v: Seq<Seq<char>>, more: Seq<Seq<char>>) -> Seq<Seq<char>> {
    texts_added_upto(v, more, more.len() as int)
}

/// The okurigana of `b` with those of `more` behind them.
pub open spec fn blocks_added(b: Blocks, more: Blocks) -> Blocks {
    Map::new(
        |k: Seq<char>| b.dom().contains(k) || more.dom().contains(k),
        |k: Seq<char>|
            if more.dom().contains(k) {
                texts_added(block_entry(b, k), more[k])
            } else {
                b[k]
            },
    )
}

/// What the lines of a dictionary say, all together.
pub struct Loaded {
    pub words: Words,
    pub okuri: Okuri,
}

/// Takes one more line in. The candidates of a reading that is there already come after
/// those that are there.
pub open spec fn line_loaded(d: Loaded, line: Seq<char>) -> Loaded {
    match line_read(line) {
        None => d,
        Some(l) => Loaded {
            words: d.words.insert(l.key, cands_added(entry(d.words, l.key), l.cands)),
            okuri: if l.blocks.dom().is_empty() {
                d.okuri
            } else {
                d.okuri.insert(l.key, blocks_added(okuri_entry(d.okuri, l.key), l.blocks))
            },
        },
    }
}

/// Takes the first `n` lines in.
pub open spec fn lines_loaded(d: Loaded, v: Seq<Seq<char>>, n: int) -> Loaded
    decreases n,
{
    if n <= 0 {
        d
    } else {
        line_loaded(lines_loaded(d, v, n - 1), v[n - 1])
    }
}

/// Takes a whole text in.
pub open spec fn text_loaded(d: Loaded, text: Seq<char>) -> Loaded {
    lines_loaded(d, lines(text), lines(text).len() as int)
}

/// A dictionary with nothing in it.
pub open spec fn nothing_loaded() -> Loaded {
    Loaded { words: Map::empty(), okuri: Map::empty() }
}

/// A reading with okurigana: it ends in a letter.
pub open spec fn okuri_ari(key: Seq<char>) -> bool {
    key.len() > 0 && letter(key.last())
}

/// Whether a candidate is written otherwise than `text`.
pub open spec fn cand_other_than(text: Seq<char>) -> spec_fn(CandText) -> bool {
    |c: CandText| c.text != text
}

/// Whether a text is another one than `text`.
pub open spec fn other_than(text: Seq<char>) -> spec_fn(Seq<char>) -> bool {
    |t: Seq<char>| t != text
}

/// `v` with `c` at its front, and nothing else written like it.
pub open spec fn cand_to_front(v: Seq<CandText>, c: CandText) -> Seq<CandText> {
    seq![c] + v.filter(cand_other_than(c.text))
}

/// `v` with `t` at its front, once.
pub open spec fn text_to_front(v: Seq<Seq<char>>, t: Seq<char>) -> Seq<Seq<char>> {
    seq![t] + v.filter(other_than(t))
}

/// The okurigana without the text `t`; those that hold nothing else are gone.
pub open spec fn blocks_purged(b: Blocks, t: Seq<char>) -> Blocks {
    Map::new(
        |k: Seq<char>| b.dom().contains(k) && b[k].filter(other_than(t)).len() > 0,
        |k: Seq<char>| b[k].filter(other_than(t)),
    )
}

/// A change of the user's dictionary.
pub enum ChangeText {
    /// A candidate was chosen.
    Learn(Seq<char>, CandText),
    /// A candidate was chosen with an okurigana: reading, okurigana, text.
    LearnOkuri(Seq<char>, Seq<char>, Seq<char>),
    /// A candidate was thrown out.
    Purge(Seq<char>, Seq<char>),
}

/// The dictionary after one change.
pub open spec fn changed(d: Loaded, c: ChangeText) -> Loaded {
    match c {
        ChangeText::Learn(key, cand) => Loaded {
            words: d.words.insert(key, cand_to_front(entry(d.words, key), cand)),
            okuri: d.okuri,
        },
        ChangeText::LearnOkuri(key, o, text) => {
            let b = okuri_entry(d.okuri, key);
            Loaded {
                words: d.words,
                okuri: d.okuri.insert(key, b.insert(o, text_to_front(block_entry(b, o), text))),
            }
        },
        ChangeText::Purge(key, text) => {
            let left = entry(d.words, key).filter(cand_other_than(text));
            let b = blocks_purged(okuri_entry(d.okuri, key), text);
            Loaded {
                words: if left.len() == 0 {
                    d.words.remove(key)
                } else {
                    d.words.insert(key, left)
                },
                okuri: if b.dom().is_empty() {
                    d.okuri.remove(key)
                } else {
                    d.okuri.insert(key, b)
                },
            }
        },
    }
}

/// The dictionary after the first `n` changes.
pub open spec fn all_changed(d: Loaded, v: Seq<ChangeText>, n: int) -> Loaded
    decreases n,
{
    if n <= 0 {
        d
    } else {
        changed(all_changed(d, v, n - 1), v[n - 1])
    }
}

impl Candidate {
    /// Reads a piece of a line.
    pub fn parse(s: &str) -> (r: Option<Self>)
        ensures
            match r {
                Some(c) => cand_read(s@) == Some(c@),
                None => cand_read(s@) is None,
            },
    {
        let v = chars_of(s);
        let mut i: usize = 0;
        while i < v.len() && (v[i] == ' ' || v[i] == '\t')
            invariant
                i <= v@.len(),
                v@ == s@,
                forall|j: int| 0 <= j < i ==> #[trigger] s@[j] == ' ' || s@[j] == '\t',
            decreases v.len() - i,
        {
            i = i + 1;
        }
        if i == v.len() {
            return None;
        }
        assert(!blank(s@)) by {
            assert(s@[i as int] != ' ' && s@[i as int] != '\t');
        }
        let n = find_char(&v, 0, ';');
        assert(v@.skip(0) =~= v@);
        if 0 < n && n < v.len() {
            let text = slice_text(&v, 0, n);
            let annotation = slice_text(&v, n + 1, v.len());
            proof {
                assert(text@ =~= s@.take(n as int));
                assert(annotation@ =~= s@.skip(n + 1));
            }
            Some(Candidate { text, annotation: Some(annotation) })
        } else {
            Some(Candidate { text: s.to_owned(), annotation: None })
        }
    }

    /// Writes the candidate as a piece of a line.
    pub fn serialize(&self) -> (r: String)
        ensures
            r@ == cand_written(self@),
    {
        match &self.annotation {
            Some(a) => {
                let mut s: String = self.text.clone();
                s.push(';');
                s.append(a.as_str());
                assert(s@ =~= cand_written(self@));
                s
            },
            None => self.text.clone(),
        }
    }

    /// A copy.
    pub fn copied(&self) -> (r: Candidate)
        ensures
            r@ == self@,
    {
        let annotation: Option<String> = match &self.annotation {
            Some(a) => Some(a.clone()),
            None => None,
        };
        Candidate { text: self.text.clone(), annotation }
    }
}

/// A copy of a list of candidates.
pub fn copy_cands(v: &Vec<Candidate>) -> (r: Vec<Candidate>)
    ensures
        cand_texts(r@) == cand_texts(v@),
{
    let mut out: Vec<Candidate> = Vec::new();
    let mut i: usize = 0;
    while i < v.len()
        invariant
            i <= v@.len(),
            cand_texts(out@) =~= cand_texts(v@).take(i as int),
        decreases v.len() - i,
    {
        let ghost before = cand_texts(out@);
        let c = v[i].copied();
        out.push(c);
        i = i + 1;
        proof {
            lemma_take_next(cand_texts(v@), i - 1);
            assert(cand_texts(out@) =~= before.push(c@));
        }
    }
    assert(cand_texts(out@) =~= cand_texts(v@));
    out
}

/// Whether one of the candidates is written `text`.
pub fn find_cand(v: &Vec<Candidate>, text: &str) -> (r: bool)
    ensures
        r == has_cand(cand_texts(v@), text@),
{
    let mut i: usize = 0;
    while i < v.len()
        invariant
            i <= v@.len(),
            forall|j: int| 0 <= j < i ==> (#[trigger] cand_texts(v@)[j]).text != text@,
        decreases v.len() - i,
    {
        assert(cand_texts(v@)[i as int] == v@[i as int]@);
        if *v[i].text.as_str() == *text {
            assert(cand_texts(v@)[i as int].text == text@);
            return true;
        }
        i = i + 1;
    }
    false
}

/// Adds those of `more` that are new to `v`.
pub fn add_cands(v: &mut Vec<Candidate>, more: &Vec<Candidate>)
    ensures
        cand_texts(final(v)@) == cands_added(cand_texts(old(v)@), cand_texts(more@)),
{
    let ghost first = cand_texts(v@);
    let ghost all = cand_texts(more@);
    let mut i: usize = 0;
    while i < more.len()
        invariant
            i <= more@.len(),
            all == cand_texts(more@),
            cand_texts(v@) == cands_added_upto(first, all, i as int),
        decreases more.len() - i,
    {
        let ghost before = cand_texts(v@);
        assert(all[i as int] == more@[i as int]@);
        if !find_cand(v, more[i].text.as_str()) {
            let c = more[i].copied();
            v.push(c);
            assert(cand_texts(v@) =~= before.push(c@));
        }
        i = i + 1;
    }
}

/// Adds those of `more` that are new to `v`.
pub fn add_texts(v: &mut Vec<String>, more: &Vec<String>)
    ensures
        texts(final(v)@) == texts_added(texts(old(v)@), texts(more@)),
{
    let ghost first = texts(v@);
    let ghost all = texts(more@);
    let mut i: usize = 0;
    while i < more.len()
        invariant
            i <= more@.len(),
            all == texts(more@),
            texts(v@) == texts_added_upto(first, all, i as int),
        decreases more.len() - i,
    {
        let ghost before = texts(v@);
        assert(all[i as int] == more@[i as int]@);
        if !has_text(v, more[i].as_str()) {
            let t = more[i].clone();
            v.push(t);
            assert(texts(v@) =~= before.push(t@));
        }
        i = i + 1;
    }
}

/// What a line says: its reading, its candidates and its okurigana.
pub fn parse_line(line: &str) -> (r: Option<(String, Vec<Candidate>, OkuriBlocks)>)
    ensures
        match r {
            Some(l) => l.2.wf() && line_read(line@) == Some(
                LineText { key: l.0@, cands: cand_texts(l.1@), blocks: blocks_of(l.2@) },
            ),
            None => line_read(line@) is None,
        },
{
    let v = chars_of(line);
    if v.len() == 0 || v[0] == ';' {
        return None;
    }
    let n = find_char(&v, 0, ' ');
    assert(v@.skip(0) =~= v@);
    if n >= v.len() {
        return None;
    }
    let key = slice_text(&v, 0, n);
    let start = trimmed_start(&v, n + 1, v.len());
    let end = trimmed_end(&v, start, v.len());
    proof {
        assert(key@ =~= line@.take(n as int));
        assert(v@.subrange(n + 1, v@.len() as int) =~= line@.skip(n + 1));
    }
    let ghost t = trim(line@.skip(n + 1));
    assert(t == v@.subrange(start as int, end as int));
    let from: usize = if start < end && v[start] == '/' {
        start + 1
    } else {
        start
    };
    proof {
        if start < end {
            assert(t[0] == v@[start as int]);
        }
        assert(without_first_slash(t) =~= v@.subrange(from as int, end as int));
    }
    let to: usize = if from < end && v[end - 1] == '/' {
        end - 1
    } else {
        end
    };
    let body = slice_text(&v, from, to);
    proof {
        let u = v@.subrange(from as int, end as int);
        if from < end {
            assert(u.last() == v@[end - 1]);
        }
        assert(body@ =~= without_last_slash(u));
    }
    let segs = split_text(body.as_str(), '/');
    let ghost all = texts(segs@);
    let mut cands: Vec<Candidate> = Vec::new();
    let mut blocks: OkuriBlocks = Table::new(4);
    let mut open: Option<(String, Vec<String>)> = None;
    let mut i: usize = 0;
    proof {
        assert(cand_texts(cands@) =~= seq![]);
        assert(blocks_of(blocks@) =~= Map::empty());
    }
    while i < segs.len()
        invariant
            i <= segs@.len(),
            all == texts(segs@),
            blocks.wf(),
            pieces_read(all, i as int) == (Pieces {
                cands: cand_texts(cands@),
                blocks: blocks_of(blocks@),
                open: open_text(open),
            }),
        decreases segs.len() - i,
    {
        let ghost before = pieces_read(all, i as int);
        let ghost seg = all[i as int];
        assert(seg == segs@[i as int]@);
        let s = chars_of(segs[i].as_str());
        if s.len() > 0 && s[0] == '[' {
            let okuri = slice_text(&s, 1, s.len());
            let none: Vec<String> = Vec::new();
            proof {
                assert(okuri@ =~= seg.skip(1));
                assert(texts(none@) =~= seq![]);
            }
            open = Some((okuri, none));
        } else if s.len() > 0 && s[0] == ']' {
            match open {
                Some((okuri, list)) => {
                    if !okuri.as_str().is_empty() && list.len() > 0 {
                        let ghost m = blocks@;
                        blocks.put(okuri, list);
                        proof {
                            assert(blocks_of(blocks@) =~= blocks_of(m).insert(
                                okuri@,
                                texts(list@),
                            ));
                        }
                    }
                },
                None => {},
            }
            open = None;
        } else {
            match Candidate::parse(segs[i].as_str()) {
                Some(c) => {
                    match open {
                        Some((okuri, list)) => {
                            let mut more = list;
                            let ghost had = texts(more@);
                            more.push(c.text);
                            assert(texts(more@) =~= had.push(c.text@));
                            open = Some((okuri, more));
                        },
                        None => {
                            let ghost had = cand_texts(cands@);
                            cands.push(c);
                            assert(cand_texts(cands@) =~= had.push(c@));
                        },
                    }
                },
                None => {},
            }
        }
        i = i + 1;
    }
    if cands.len() == 0 {
        return None;
    }
    Some((key, cands, blocks))
}

/// What an open okurigana holds.
pub open spec fn open_text(o: Option<(String, Vec<String>)>) -> Option<
    (Seq<char>, Seq<Seq<char>>),
> {
    match o {
        Some(p) => Some((p.0@, texts(p.1@))),
        None => None,
    }
}

/// A reading with okurigana: it ends in a letter.
pub fn is_okuri_ari(key: &str) -> (r: bool)
    ensures
        r == okuri_ari(key@),
{
    let v = chars_of(key);
    v.len() > 0 && is_letter(v[v.len() - 1])
}

/// A change of the user's dictionary. Changes are kept in order, so that learning and
/// throwing out may come one after the other.
pub enum Change {
    Learn(String, Candidate),
    LearnOkuri(String, String, String),
    Purge(String, String),
}

impl View for Change {
    type V = ChangeText;

    open spec fn view(&self) -> ChangeText {
        match self {
            Change::Learn(key, cand) => ChangeText::Learn(key@, cand@),
            Change::LearnOkuri(key, o, text) => ChangeText::LearnOkuri(key@, o@, text@),
            Change::Purge(key, text) => ChangeText::Purge(key@, text@),
        }
    }
}

/// What a list of changes says.
pub open spec fn change_texts(v: Seq<Change>) -> Seq<ChangeText> {
    v.map_values(|c: Change| c@)
}

/// A table of candidates with its table of okurigana.
pub open spec fn loaded_of(
    words: &Table<Vec<Candidate>>,
    okuri: &Table<OkuriBlocks>,
) -> Loaded {
    Loaded { words: words_of(words@), okuri: okuri_of(okuri@) }
}

/// `b` with the first `n` of `keys` taken over from `more`.
spec fn blocks_added_upto(b: Blocks, more: Blocks, keys: Seq<Seq<char>>, n: int) -> Blocks {
    Map::new(
        |k: Seq<char>| b.dom().contains(k) || keys.take(n).contains(k),
        |k: Seq<char>|
            if keys.take(n).contains(k) {
                texts_added(block_entry(b, k), more[k])
            } else {
                b[k]
            },
    )
}

/// Adds the okurigana of `more` behind those of `dst`.
pub fn add_blocks(dst: &mut OkuriBlocks, more: &OkuriBlocks)
    requires
        old(dst).wf(),
        more.wf(),
    ensures
        final(dst).wf(),
        blocks_of(final(dst)@) == blocks_added(blocks_of(old(dst)@), blocks_of(more@)),
{
    let ghost b = blocks_of(dst@);
    let ghost m = blocks_of(more@);
    let keys = more.keys();
    let ghost ks = texts(keys@);
    let mut i: usize = 0;
    assert(blocks_of(dst@) =~= blocks_added_upto(b, m, ks, 0));
    while i < keys.len()
        invariant
            i <= keys@.len(),
            dst.wf(),
            more.wf(),
            m == blocks_of(more@),
            ks == texts(keys@),
            ks.to_set() == more@.dom(),
            ks.no_duplicates(),
            blocks_of(dst@) == blocks_added_upto(b, m, ks, i as int),
        decreases keys.len() - i,
    {
        let ghost key = keys@[i as int]@;
        let ghost before = dst@;
        proof {
            assert(ks[i as int] == key);
            assert(ks.to_set().contains(key));
            lemma_take_next(ks, i as int);
            assert(!ks.take(i as int).contains(key));
        }
        let mut list: Vec<String> = match dst.take(keys[i].as_str()) {
            Some(v) => v,
            None => Vec::new(),
        };
        let ghost list0 = texts(list@);
        proof {
            if before.dom().contains(key) {
                assert(blocks_of(before)[key] == list0);
                assert(blocks_of(before).dom().contains(key));
            } else {
                assert(list0 =~= seq![]);
                assert(!blocks_of(before).dom().contains(key));
            }
            assert(list0 == block_entry(b, key));
        }
        match more.get(keys[i].as_str()) {
            Some(v) => {
                add_texts(&mut list, v);
            },
            None => {},
        }
        let ghost list1 = texts(list@);
        let ghost mid = dst@;
        dst.put(keys[i].clone(), list);
        i = i + 1;
        proof {
            assert(list1 == texts_added(list0, m[key]));
            assert forall|k: Seq<char>|
                #![trigger blocks_of(dst@).dom().contains(k)]
                blocks_of(dst@).dom().contains(k) == blocks_added_upto(b, m, ks, i as int).dom()
                    .contains(k) && (blocks_of(dst@).dom().contains(k) ==> blocks_of(dst@)[k]
                    == blocks_added_upto(b, m, ks, i as int)[k]) by {
                crate::order::lemma_push_contains(ks.take(i - 1), key, k);
                let was = blocks_added_upto(b, m, ks, i - 1);
                assert(blocks_of(before) == was);
                assert(blocks_of(before).dom().contains(k) == was.dom().contains(k));
                if k == key {
                } else {
                    assert(dst@.dom().contains(k) == before.dom().contains(k));
                    if before.dom().contains(k) {
                        assert(dst@[k] == before[k]);
                        assert(blocks_of(before)[k] == was[k]);
                    }
                }
            }
            assert(blocks_of(dst@) =~= blocks_added_upto(b, m, ks, i as int));
        }
    }
    proof {
        assert(ks.take(i as int) =~= ks);
        assert forall|k: Seq<char>| ks.contains(k) <==> m.dom().contains(k) by {
            assert(ks.to_set().contains(k) <==> more@.dom().contains(k));
        }
        assert(blocks_of(dst@) =~= blocks_added(b, m));
    }
}

/// Whether okurigana hold nothing at all.
pub fn no_blocks(b: &OkuriBlocks) -> (r: bool)
    requires
        b.wf(),
    ensures
        r == blocks_of(b@).dom().is_empty(),
{
    let n = b.len();
    proof {
        assert(blocks_of(b@).dom() =~= b@.dom());
        let keys = b@.dom();
        if n == 0 {
            assert(keys.finite()) by {
                lemma_table_finite(b);
            }
            keys.lemma_len0_is_empty();
        } else {
            if keys.is_empty() {
                assert(keys =~= Set::empty());
            }
        }
    }
    n == 0
}

proof fn lemma_table_finite<V>(t: &Table<V>)
    requires
        t.wf(),
    ensures
        t@.dom().finite(),
{
    t.lemma_finite();
}

/// Takes the lines of a dictionary in. Candidates of a reading that is there already come
/// after those that are there.
pub fn load_into(
    map: &mut Table<Vec<Candidate>>,
    okuri: &mut Table<OkuriBlocks>,
    text: &str,
)
    requires
        old(map).wf(),
        okuri_wf(old(okuri)),
    ensures
        final(map).wf(),
        okuri_wf(final(okuri)),
        loaded_of(final(map), final(okuri)) == text_loaded(loaded_of(old(map), old(okuri)), text@),
{
    let ghost first = loaded_of(map, okuri);
    let all = lines_of(text);
    let ghost ls = texts(all@);
    let mut i: usize = 0;
    while i < all.len()
        invariant
            i <= all@.len(),
            map.wf(),
            okuri_wf(okuri),
            ls == texts(all@),
            loaded_of(map, okuri) == lines_loaded(first, ls, i as int),
        decreases all.len() - i,
    {
        let ghost d0 = loaded_of(map, okuri);
        let ghost line = ls[i as int];
        assert(line == all@[i as int]@);
        match parse_line(all[i].as_str()) {
            Some((key, cands, blocks)) => {
                let ghost m0 = map@;
                let ghost o0 = okuri@;
                let ghost l = line_read(line)->0;
                let mut list: Vec<Candidate> = match map.take(key.as_str()) {
                    Some(v) => v,
                    None => Vec::new(),
                };
                proof {
                    if m0.dom().contains(key@) {
                        assert(words_of(m0)[key@] == cand_texts(list@));
                    } else {
                        assert(cand_texts(list@) =~= seq![]);
                    }
                    assert(cand_texts(list@) == entry(d0.words, key@));
                }
                add_cands(&mut list, &cands);
                map.put(key.clone(), list);
                proof {
                    assert(words_of(map@) =~= d0.words.insert(
                        l.key,
                        cands_added(entry(d0.words, l.key), l.cands),
                    ));
                }
                if !no_blocks(&blocks) {
                    let mut dst: OkuriBlocks = match okuri.take(key.as_str()) {
                        Some(b) => b,
                        None => Table::new(4),
                    };
                    proof {
                        if o0.dom().contains(key@) {
                            assert(okuri_of(o0)[key@] == blocks_of(dst@));
                        } else {
                            assert(blocks_of(dst@) =~= Map::empty());
                        }
                        assert(blocks_of(dst@) == okuri_entry(d0.okuri, key@));
                    }
                    add_blocks(&mut dst, &blocks);
                    let ghost o1 = okuri@;
                    okuri.put(key, dst);
                    proof {
                        assert(okuri_of(okuri@) =~= d0.okuri.insert(
                            l.key,
                            blocks_added(okuri_entry(d0.okuri, l.key), l.blocks),
                        ));
                        assert forall|k: Seq<char>| okuri@.dom().contains(k) implies (
                        #[trigger] okuri@[k]).wf() by {
                            if k != l.key {
                                assert(o1.dom().contains(k));
                                assert(o0.dom().contains(k));
                                assert(okuri@[k] == o0[k]);
                            }
                        }
                    }
                }
            },
            None => {},
        }
        i = i + 1;
    }
}

/// Takes the candidates written `text` out of `v`.
pub fn drop_cand(v: &Vec<Candidate>, text: &str) -> (r: Vec<Candidate>)
    ensures
        cand_texts(r@) == cand_texts(v@).filter(cand_other_than(text@)),
{
    let ghost keep = cand_other_than(text@);
    let ghost all = cand_texts(v@);
    let mut out: Vec<Candidate> = Vec::new();
    let mut i: usize = 0;
    assert(cand_texts(out@) =~= all.take(0).filter(keep)) by {
        assert(all.take(0) =~= seq![]);
    }
    while i < v.len()
        invariant
            i <= v@.len(),
            keep == cand_other_than(text@),
            all == cand_texts(v@),
            cand_texts(out@) == all.take(i as int).filter(keep),
        decreases v.len() - i,
    {
        broadcast use Seq::lemma_filter_push;

        let ghost had = cand_texts(out@);
        proof {
            lemma_take_next(all, i as int);
            assert(all[i as int] == v@[i as int]@);
        }
        if !(*v[i].text.as_str() == *text) {
            let c = v[i].copied();
            out.push(c);
            assert(cand_texts(out@) =~= had.push(c@));
        }
        i = i + 1;
    }
    assert(all.take(i as int) =~= all);
    out
}

/// Takes `text` out of `v`.
pub fn drop_text(v: &Vec<String>, text: &str) -> (r: Vec<String>)
    ensures
        texts(r@) == texts(v@).filter(other_than(text@)),
{
    let ghost keep = other_than(text@);
    let ghost all = texts(v@);
    let mut out: Vec<String> = Vec::new();
    let mut i: usize = 0;
    assert(texts(out@) =~= all.take(0).filter(keep)) by {
        assert(all.take(0) =~= seq![]);
    }
    while i < v.len()
        invariant
            i <= v@.len(),
            keep == other_than(text@),
            all == texts(v@),
            texts(out@) == all.take(i as int).filter(keep),
        decreases v.len() - i,
    {
        broadcast use Seq::lemma_filter_push;

        let ghost had = texts(out@);
        proof {
            lemma_take_next(all, i as int);
            assert(all[i as int] == v@[i as int]@);
        }
        if !(*v[i].as_str() == *text) {
            let t = v[i].clone();
            out.push(t);
            assert(texts(out@) =~= had.push(t@));
        }
        i = i + 1;
    }
    assert(all.take(i as int) =~= all);
    out
}

/// `v` with `cand` at its front, and nothing else written like it.
pub fn move_to_front(v: &Vec<Candidate>, cand: &Candidate) -> (r: Vec<Candidate>)
    ensures
        cand_texts(r@) == cand_to_front(cand_texts(v@), cand@),
{
    let rest = drop_cand(v, cand.text.as_str());
    let ghost tail = cand_texts(rest@);
    let mut out = rest;
    let c = cand.copied();
    out.insert(0, c);
    assert(cand_texts(out@) =~= seq![c@] + tail);
    out
}

/// The okurigana without the text; those that hold nothing else are gone.
fn purge_blocks(b: &OkuriBlocks, text: &str) -> (r: OkuriBlocks)
    requires
        b.wf(),
    ensures
        r.wf(),
        blocks_of(r@) == blocks_purged(blocks_of(b@), text@),
{
    let ghost m = blocks_of(b@);
    let ghost want = blocks_purged(m, text@);
    let keys = b.keys();
    let ghost ks = texts(keys@);
    let mut out: OkuriBlocks = Table::new(4);
    let mut i: usize = 0;
    while i < keys.len()
        invariant
            i <= keys@.len(),
            out.wf(),
            b.wf(),
            m == blocks_of(b@),
            want == blocks_purged(m, text@),
            ks == texts(keys@),
            ks.to_set() == b@.dom(),
            forall|k: Seq<char>|
                #[trigger] blocks_of(out@).dom().contains(k) <==> want.dom().contains(k)
                    && ks.take(i as int).contains(k),
            forall|k: Seq<char>|
                #[trigger] blocks_of(out@).dom().contains(k) ==> blocks_of(out@)[k] == want[k],
        decreases keys.len() - i,
    {
        let ghost key = keys@[i as int]@;
        proof {
            assert(ks[i as int] == key);
            assert(ks.to_set().contains(key));
            assert(b@.dom().contains(key));
            lemma_take_next(ks, i as int);
        }
        let ghost before = out@;
        let ghost bb = blocks_of(before);
        match b.get(keys[i].as_str()) {
            Some(v) => {
                let left = drop_text(v, text);
                assert(texts(left@) == m[key].filter(other_than(text@)));
                assert(texts(left@).len() == left@.len());
                if left.len() > 0 {
                    out.put(keys[i].clone(), left);
                }
            },
            None => {},
        }
        i = i + 1;
        proof {
            assert forall|k: Seq<char>|
                #[trigger] blocks_of(out@).dom().contains(k) <==> want.dom().contains(k)
                    && ks.take(i as int).contains(k) by {
                crate::order::lemma_push_contains(ks.take(i - 1), key, k);
                assert(bb.dom().contains(k) <==> want.dom().contains(k) && ks.take(
                    i - 1,
                ).contains(k));
                assert(bb.dom().contains(k) == before.dom().contains(k));
            }
            assert forall|k: Seq<char>|
                #[trigger] blocks_of(out@).dom().contains(k) implies blocks_of(out@)[k]
                == want[k] by {
                if k != key {
                    assert(before.dom().contains(k));
                    assert(bb.dom().contains(k));
                    assert(bb[k] == want[k]);
                } else if out@ == before {
                    assert(bb.dom().contains(k));
                    assert(bb[k] == want[k]);
                }
            }
        }
    }
    proof {
        assert(ks.take(i as int) =~= ks);
        assert forall|k: Seq<char>| blocks_of(out@).dom().contains(k) == want.dom().contains(k) by {
            assert(ks.to_set().contains(k) <==> b@.dom().contains(k));
            assert(blocks_of(out@).dom().contains(k) <==> want.dom().contains(k)
                && ks.take(i as int).contains(k));
        }
        assert(blocks_of(out@) =~= want);
    }
    out
}

/// Carries one change out.
pub fn apply_change(
    change: &Change,
    map: &mut Table<Vec<Candidate>>,
    okuri: &mut Table<OkuriBlocks>,
)
    requires
        old(map).wf(),
        okuri_wf(old(okuri)),
    ensures
        final(map).wf(),
        okuri_wf(final(okuri)),
        loaded_of(final(map), final(okuri)) == changed(
            loaded_of(old(map), old(okuri)),
            change@,
        ),
{
    let ghost m0 = map@;
    let ghost o0 = okuri@;
    let ghost d0 = loaded_of(map, okuri);
    match change {
        Change::Learn(key, cand) => {
            let list: Vec<Candidate> = match map.take(key.as_str()) {
                Some(v) => v,
                None => Vec::new(),
            };
            proof {
                if m0.dom().contains(key@) {
                    assert(words_of(m0)[key@] == cand_texts(list@));
                } else {
                    assert(cand_texts(list@) =~= seq![]);
                }
            }
            let moved = move_to_front(&list, cand);
            map.put(key.clone(), moved);
            assert(words_of(map@) =~= d0.words.insert(
                key@,
                cand_to_front(entry(d0.words, key@), cand@),
            ));
        },
        Change::LearnOkuri(key, o, text) => {
            let mut b: OkuriBlocks = match okuri.take(key.as_str()) {
                Some(b) => b,
                None => Table::new(4),
            };
            let ghost o1 = okuri@;
            let ghost b0 = b@;
            proof {
                if o0.dom().contains(key@) {
                    assert(okuri_of(o0)[key@] == blocks_of(b@));
                } else {
                    assert(blocks_of(b@) =~= Map::empty());
                }
            }
            let list: Vec<String> = match b.take(o.as_str()) {
                Some(v) => v,
                None => Vec::new(),
            };
            proof {
                if b0.dom().contains(o@) {
                    assert(blocks_of(b0)[o@] == texts(list@));
                } else {
                    assert(texts(list@) =~= seq![]);
                }
            }
            let mut moved = drop_text(&list, text.as_str());
            let ghost rest = texts(moved@);
            moved.insert(0, text.clone());
            assert(texts(moved@) =~= seq![text@] + rest);
            b.put(o.clone(), moved);
            proof {
                assert(blocks_of(b@) =~= blocks_of(b0).insert(
                    o@,
                    text_to_front(block_entry(blocks_of(b0), o@), text@),
                ));
            }
            okuri.put(key.clone(), b);
            proof {
                assert(okuri_of(okuri@) =~= changed(d0, change@).okuri);
                assert forall|k: Seq<char>| okuri@.dom().contains(k) implies (
                #[trigger] okuri@[k]).wf() by {
                    if k != key@ {
                        assert(o1.dom().contains(k));
                        assert(o0.dom().contains(k));
                        assert(okuri@[k] == o0[k]);
                    }
                }
            }
        },
        Change::Purge(key, text) => {
            match map.take(key.as_str()) {
                Some(v) => {
                    assert(words_of(m0)[key@] == cand_texts(v@));
                    let left = drop_cand(&v, text.as_str());
                    assert(cand_texts(left@).len() == left@.len());
                    if left.len() > 0 {
                        map.put(key.clone(), left);
                    }
                },
                None => {
                    assert(entry(d0.words, key@) =~= seq![]);
                    assert(entry(d0.words, key@).filter(cand_other_than(text@)) =~= seq![]);
                },
            }
            proof {
                assert(words_of(map@) =~= changed(d0, change@).words);
            }
            match okuri.take(key.as_str()) {
                Some(b) => {
                    assert(okuri_of(o0)[key@] == blocks_of(b@));
                    let ghost o1 = okuri@;
                    let left = purge_blocks(&b, text.as_str());
                    if !no_blocks(&left) {
                        okuri.put(key.clone(), left);
                    }
                    proof {
                        assert forall|k: Seq<char>| okuri@.dom().contains(k) implies (
                        #[trigger] okuri@[k]).wf() by {
                            if k != key@ {
                                assert(o1.dom().contains(k));
                                assert(o0.dom().contains(k));
                                assert(okuri@[k] == o0[k]);
                            }
                        }
                    }
                },
                None => {
                    proof {
                        let none: Blocks = Map::empty();
                        assert(blocks_purged(none, text@).dom() =~= Set::empty());
                    }
                },
            }
            proof {
                assert(okuri_of(okuri@) =~= changed(d0, change@).okuri);
            }
        },
    }
}

/// The first `n` candidates of a line, each with a slash behind it.
pub open spec fn cands_written(v: Seq<CandText>, n: int) -> Seq<char>
    decreases n,
{
    if n <= 0 {
        seq![]
    } else {
        cands_written(v, n - 1) + cand_written(v[n - 1]) + seq!['/']
    }
}

/// The first `n` texts, each with a slash behind it.
pub open spec fn texts_written(v: Seq<Seq<char>>, n: int) -> Seq<char>
    decreases n,
{
    if n <= 0 {
        seq![]
    } else {
        texts_written(v, n - 1) + v[n - 1] + seq!['/']
    }
}

/// One okurigana of a line.
pub open spec fn block_written(o: Seq<char>, v: Seq<Seq<char>>) -> Seq<char> {
    if v.len() == 0 {
        seq![]
    } else {
        seq!['['] + o + seq!['/'] + texts_written(v, v.len() as int) + seq![']', '/']
    }
}

/// The first `n` of the okurigana `keys` of a line.
pub open spec fn blocks_written(b: Blocks, keys: Seq<Seq<char>>, n: int) -> Seq<char>
    decreases n,
{
    if n <= 0 {
        seq![]
    } else {
        blocks_written(b, keys, n - 1) + block_written(keys[n - 1], b[keys[n - 1]])
    }
}

/// A line of a dictionary without its line feed.
pub open spec fn line_written(key: Seq<char>, cands: Seq<CandText>, b: Blocks) -> Seq<char> {
    let keys = listed(false, b.dom());
    key + seq![' ', '/'] + cands_written(cands, cands.len() as int) + blocks_written(
        b,
        keys,
        keys.len() as int,
    )
}

/// A line of a dictionary; a reading without candidates has none.
pub open spec fn entry_written(key: Seq<char>, cands: Seq<CandText>, b: Blocks) -> Seq<char> {
    if cands.len() == 0 {
        seq![]
    } else {
        line_written(key, cands, b).push('\n')
    }
}

/// The lines of the first `n` readings that do, or do not, have okurigana.
pub open spec fn entries_written(d: Loaded, keys: Seq<Seq<char>>, ari: bool, n: int) -> Seq<char>
    decreases n,
{
    if n <= 0 {
        seq![]
    } else {
        let k = keys[n - 1];
        let before = entries_written(d, keys, ari, n - 1);
        if okuri_ari(k) != ari {
            before
        } else {
            before + entry_written(
                k,
                d.words[k],
                if ari {
                    okuri_entry(d.okuri, k)
                } else {
                    Map::empty()
                },
            )
        }
    }
}

/// A user's dictionary as a text: readings with okurigana first, each part in order.
pub open spec fn dict_written(d: Loaded) -> Seq<char> {
    let keys = listed(false, d.words.dom());
    ";; -*- mode: fundamental; coding: utf-8 -*-\n"@ + ";; ttyskk 利用者辞書\n"@
        + ";; okuri-ari entries.\n"@ + entries_written(d, keys, true, keys.len() as int)
        + ";; okuri-nasi entries.\n"@ + entries_written(d, keys, false, keys.len() as int)
}

/// Writes one line.
pub fn write_entry(out: &mut String, key: &str, cands: &Vec<Candidate>, okuri: &OkuriBlocks)
    requires
        okuri.wf(),
    ensures
        final(out)@ == old(out)@ + entry_written(key@, cand_texts(cands@), blocks_of(okuri@)),
{
    let ghost cs = cand_texts(cands@);
    let ghost b = blocks_of(okuri@);
    let ghost out0 = out@;
    if cands.len() == 0 {
        assert(out@ =~= out0 + seq![]);
        return;
    }
    let mut line: String = key.to_owned();
    line.push(' ');
    line.push('/');
    let ghost head = line@;
    assert(head =~= key@ + seq![' ', '/']);
    let mut i: usize = 0;
    assert(line@ =~= head + cands_written(cs, 0));
    while i < cands.len()
        invariant
            i <= cands@.len(),
            cs == cand_texts(cands@),
            line@ == head + cands_written(cs, i as int),
        decreases cands.len() - i,
    {
        let c = cands[i].serialize();
        assert(cs[i as int] == cands@[i as int]@);
        line.append(c.as_str());
        line.push('/');
        i = i + 1;
        assert(line@ =~= head + cands_written(cs, i as int));
    }
    let ghost mid = line@;
    let keys = okuri.sorted_keys(false);
    let ghost ks = texts(keys@);
    let mut i: usize = 0;
    assert(line@ =~= mid + blocks_written(b, ks, 0));
    while i < keys.len()
        invariant
            i <= keys@.len(),
            ks == texts(keys@),
            ks.to_set() == okuri@.dom(),
            okuri.wf(),
            b == blocks_of(okuri@),
            line@ == mid + blocks_written(b, ks, i as int),
        decreases keys.len() - i,
    {
        let ghost line0 = line@;
        proof {
            assert(ks[i as int] == keys@[i as int]@);
            assert(ks.to_set().contains(ks[i as int]));
        }
        match okuri.get(keys[i].as_str()) {
            Some(v) => {
                assert(b[ks[i as int]] == texts(v@));
                if v.len() > 0 {
                    line.push('[');
                    line.append(keys[i].as_str());
                    line.push('/');
                    let ghost line1 = line@;
                    let mut j: usize = 0;
                    assert(line@ =~= line1 + texts_written(texts(v@), 0));
                    while j < v.len()
                        invariant
                            j <= v@.len(),
                            line@ == line1 + texts_written(texts(v@), j as int),
                        decreases v.len() - j,
                    {
                        line.append(v[j].as_str());
                        line.push('/');
                        j = j + 1;
                        assert(line@ =~= line1 + texts_written(texts(v@), j as int));
                    }
                    line.push(']');
                    line.push('/');
                    assert(line@ =~= line0 + block_written(ks[i as int], texts(v@)));
                } else {
                    assert(line@ =~= line0 + block_written(ks[i as int], texts(v@)));
                }
            },
            None => {},
        }
        i = i + 1;
        assert(line@ =~= mid + blocks_written(b, ks, i as int));
    }
    proof {
        assert(b.dom() =~= okuri@.dom());
        assert(line@ =~= line_written(key@, cs, b));
    }
    line.push('\n');
    out.append(line.as_str());
}

/// Writes a user's dictionary.
pub fn write_dict(words: &Table<Vec<Candidate>>, okuri: &Table<OkuriBlocks>) -> (r: String)
    requires
        words.wf(),
        okuri_wf(okuri),
    ensures
        r@ == dict_written(loaded_of(words, okuri)),
{
    let ghost d = loaded_of(words, okuri);
    let keys = words.sorted_keys(false);
    let ghost ks = texts(keys@);
    assert(d.words.dom() =~= words@.dom());
    let mut out: String = String::new();
    out.append(";; -*- mode: fundamental; coding: utf-8 -*-\n");
    out.append(";; ttyskk 利用者辞書\n");
    out.append(";; okuri-ari entries.\n");
    let ghost head = ";; -*- mode: fundamental; coding: utf-8 -*-\n"@
        + ";; ttyskk 利用者辞書\n"@ + ";; okuri-ari entries.\n"@;
    assert(out@ =~= head);
    write_entries(&mut out, words, okuri, &keys, true);
    out.append(";; okuri-nasi entries.\n");
    write_entries(&mut out, words, okuri, &keys, false);
    assert(out@ =~= dict_written(d));
    out
}

/// Writes the lines of the readings that do, or do not, have okurigana.
fn write_entries(
    out: &mut String,
    words: &Table<Vec<Candidate>>,
    okuri: &Table<OkuriBlocks>,
    keys: &Vec<String>,
    ari: bool,
)
    requires
        words.wf(),
        okuri_wf(okuri),
        texts(keys@).to_set() == words@.dom(),
    ensures
        final(out)@ == old(out)@ + entries_written(
            loaded_of(words, okuri),
            texts(keys@),
            ari,
            keys@.len() as int,
        ),
{
    let ghost d = loaded_of(words, okuri);
    let ghost ks = texts(keys@);
    let ghost out0 = out@;
    let none: OkuriBlocks = Table::new(1);
    assert(blocks_of(none@) =~= Map::empty());
    let mut i: usize = 0;
    assert(out@ =~= out0 + entries_written(d, ks, ari, 0));
    while i < keys.len()
        invariant
            i <= keys@.len(),
            words.wf(),
            okuri_wf(okuri),
            none.wf(),
            blocks_of(none@) == Map::<Seq<char>, Seq<Seq<char>>>::empty(),
            d == loaded_of(words, okuri),
            ks == texts(keys@),
            ks.to_set() == words@.dom(),
            out@ == out0 + entries_written(d, ks, ari, i as int),
        decreases keys.len() - i,
    {
        let ghost k = ks[i as int];
        proof {
            assert(k == keys@[i as int]@);
            assert(ks.to_set().contains(k));
        }
        if is_okuri_ari(keys[i].as_str()) == ari {
            match words.get(keys[i].as_str()) {
                Some(v) => {
                    assert(d.words[k] == cand_texts(v@));
                    let b: &OkuriBlocks = if ari {
                        match okuri.get(keys[i].as_str()) {
                            Some(b) => {
                                assert(d.okuri[k] == blocks_of(b@));
                                b
                            },
                            None => &none,
                        }
                    } else {
                        &none
                    };
                    write_entry(out, keys[i].as_str(), v, b);
                },
                None => {},
            }
        }
        i = i + 1;
        assert(out@ =~= out0 + entries_written(d, ks, ari, i as int));
    }
}

} // verus!
