//! The dictionaries of the engine.
//!
//! The user's own dictionary is asked first, then the snippets, then the shared
//! dictionaries. Readings without and with okurigana (`うごk`) share one table, since they
//! cannot clash.
//!
//! Files are read and written by the caller. What this run has learned is kept as a list of
//! changes and laid over what the file holds when it is written, so that several engines
//! may share one file without losing each other's learning.
use vstd::prelude::*;
use vstd::string::*;
pub use crate::jisyo::{
    apply_change, is_okuri_ari, load_into, parse_line, Candidate, Change, OkuriBlocks,
};
use crate::jisyo::{
    add_blocks, add_cands, add_texts, all_changed, block_entry, blocks_added, blocks_of, cand_texts,
    cands_added, cands_added_upto, change_texts, changed, copy_cands, dict_written, entry,
    find_cand, has_cand, loaded_of, nothing_loaded, okuri_ari, okuri_entry, okuri_of, okuri_wf,
    text_loaded, texts_added, words_of, write_dict, CandText, ChangeText, Loaded, Okuri, Words,
};
use crate::order::{
    ascending, before, is_before, lemma_before, lemma_listed_set, lemma_precedes_transitive, listed,
    precedes, sorted, spelled_out,
};
use crate::snippet::{
    copy_snippet, json_shape, shape_snippets, snippet_texts, Snippet, SnippetError, SnippetText,
};
use crate::jsonc::plain_json;
use crate::table::Table;
use crate::text::{chars_of, has_text, lemma_take_next, starts_at, text_of, texts};

verus! {

/// The dictionary that comes with the engine: the circled numbers, by `まる` and by `c`.
pub const BUILTIN: &'static str = "まる1 /①/
まる2 /②/
まる3 /③/
まる4 /④/
まる5 /⑤/
まる6 /⑥/
まる7 /⑦/
まる8 /⑧/
まる9 /⑨/
まる10 /⑩/
まる11 /⑪/
まる12 /⑫/
まる13 /⑬/
まる14 /⑭/
まる15 /⑮/
まる16 /⑯/
まる17 /⑰/
まる18 /⑱/
まる19 /⑲/
まる20 /⑳/
まる21 /㉑/
まる22 /㉒/
まる23 /㉓/
まる24 /㉔/
まる25 /㉕/
まる26 /㉖/
まる27 /㉗/
まる28 /㉘/
まる29 /㉙/
まる30 /㉚/
まる31 /㉛/
まる32 /㉜/
まる33 /㉝/
まる34 /㉞/
まる35 /㉟/
まる36 /㊱/
まる37 /㊲/
まる38 /㊳/
まる39 /㊴/
まる40 /㊵/
まる41 /㊶/
まる42 /㊷/
まる43 /㊸/
まる44 /㊹/
まる45 /㊺/
まる46 /㊻/
まる47 /㊼/
まる48 /㊽/
まる49 /㊾/
まる50 /㊿/
c1 /①/
c2 /②/
c3 /③/
c4 /④/
c5 /⑤/
c6 /⑥/
c7 /⑦/
c8 /⑧/
c9 /⑨/
c10 /⑩/
c11 /⑪/
c12 /⑫/
c13 /⑬/
c14 /⑭/
c15 /⑮/
c16 /⑯/
c17 /⑰/
c18 /⑱/
c19 /⑲/
c20 /⑳/
c21 /㉑/
c22 /㉒/
c23 /㉓/
c24 /㉔/
c25 /㉕/
c26 /㉖/
c27 /㉗/
c28 /㉘/
c29 /㉙/
c30 /㉚/
c31 /㉛/
c32 /㉜/
c33 /㉝/
c34 /㉞/
c35 /㉟/
c36 /㊱/
c37 /㊲/
c38 /㊳/
c39 /㊴/
c40 /㊵/
c41 /㊶/
c42 /㊷/
c43 /㊸/
c44 /㊹/
c45 /㊺/
c46 /㊻/
c47 /㊼/
c48 /㊽/
c49 /㊾/
c50 /㊿/
";

/// The encodings that dictionaries come in besides UTF-8.
#[derive(Clone, Copy, Debug, PartialEq, Eq, Structural)]
pub enum Charset {
    Utf16Le,
    Utf16Be,
    EucJp,
}

/// The text that bytes write in an encoding; what is malformed is replaced.
pub uninterp spec fn decoded(charset: Charset, bytes: Seq<u8>) -> Seq<char>;

/// `encoding_rs::Encoding::decode` on `UTF_16LE`, `UTF_16BE` or `EUC_JP`: the text depends
/// on the encoding and the bytes alone. The call panics where the size of its buffer
/// overflows, which the bound on the length rules out.
#[verifier::external_body]
fn decode_as(charset: Charset, bytes: &Vec<u8>) -> (r: String)
    requires
        bytes@.len() <= usize::MAX / 8,
    ensures
        r@ == decoded(charset, bytes@),
{
    let encoding = match charset {
        Charset::Utf16Le => encoding_rs::UTF_16LE,
        Charset::Utf16Be => encoding_rs::UTF_16BE,
        Charset::EucJp => encoding_rs::EUC_JP,
    };
    encoding.decode(bytes).0.into_owned()
}

/// `std::str::from_utf8`: the text that bytes write in UTF-8, if they are valid UTF-8.
#[verifier::external_body]
pub(crate) fn utf8_text(bytes: &Vec<u8>) -> (r: Option<String>)
    ensures
        match r {
            Some(s) => vstd::utf8::valid_utf8(bytes@) && s@ == vstd::utf8::decode_utf8(bytes@),
            None => !vstd::utf8::valid_utf8(bytes@),
        },
{
    match std::str::from_utf8(bytes) {
        Ok(s) => Some(s.to_string()),
        Err(_) => None,
    }
}

/// The text that bytes write in UTF-8, or else in EUC-JP.
pub open spec fn unmarked_text(bytes: Seq<u8>) -> Seq<char> {
    if vstd::utf8::valid_utf8(bytes) {
        vstd::utf8::decode_utf8(bytes)
    } else {
        decoded(Charset::EucJp, bytes)
    }
}

/// The text of a dictionary file: a byte order mark is believed; without one the file is
/// UTF-8 if it can be, and EUC-JP otherwise.
pub open spec fn jisyo_text(bytes: Seq<u8>) -> Seq<char> {
    if bytes.len() >= 2 && bytes[0] == 0xff && bytes[1] == 0xfe {
        decoded(Charset::Utf16Le, bytes.skip(2))
    } else if bytes.len() >= 2 && bytes[0] == 0xfe && bytes[1] == 0xff {
        decoded(Charset::Utf16Be, bytes.skip(2))
    } else if bytes.len() >= 3 && bytes[0] == 0xef && bytes[1] == 0xbb && bytes[2] == 0xbf {
        unmarked_text(bytes.skip(3))
    } else {
        unmarked_text(bytes)
    }
}

/// A file that can be held in memory together with its text.
pub open spec fn readable(bytes: Seq<u8>) -> bool {
    bytes.len() <= usize::MAX / 8
}

/// What is left of `bytes` after its first `n`.
fn bytes_from(bytes: &Vec<u8>, n: usize) -> (r: Vec<u8>)
    requires
        n <= bytes@.len(),
    ensures
        r@ == bytes@.skip(n as int),
{
    let mut out: Vec<u8> = Vec::new();
    let mut i: usize = n;
    while i < bytes.len()
        invariant
            n <= i <= bytes@.len(),
            out@ == bytes@.subrange(n as int, i as int),
        decreases bytes.len() - i,
    {
        out.push(bytes[i]);
        i = i + 1;
        assert(out@ =~= bytes@.subrange(n as int, i as int));
    }
    assert(out@ =~= bytes@.skip(n as int));
    out
}

/// Reads the bytes of a dictionary file.
pub fn decode_jisyo(bytes: &Vec<u8>) -> (r: String)
    requires
        readable(bytes@),
    ensures
        r@ == jisyo_text(bytes@),
{
    if bytes.len() >= 2 && bytes[0] == 0xff && bytes[1] == 0xfe {
        let rest = bytes_from(bytes, 2);
        return decode_as(Charset::Utf16Le, &rest);
    }
    if bytes.len() >= 2 && bytes[0] == 0xfe && bytes[1] == 0xff {
        let rest = bytes_from(bytes, 2);
        return decode_as(Charset::Utf16Be, &rest);
    }
    let marked = bytes.len() >= 3 && bytes[0] == 0xef && bytes[1] == 0xbb && bytes[2] == 0xbf;
    let start: usize = if marked {
        3
    } else {
        0
    };
    let rest = bytes_from(bytes, start);
    assert(bytes@.skip(0) =~= bytes@);
    match utf8_text(&rest) {
        Some(s) => s,
        None => decode_as(Charset::EucJp, &rest),
    }
}

/// The state of a file, to notice when another process writes it: the time of its last
/// change and its size.
#[derive(Clone, Copy, Debug, PartialEq, Eq, Structural)]
pub struct Stamp {
    pub secs: u64,
    pub nanos: u32,
    pub len: u64,
}

fn same_stamp(a: &Option<Stamp>, b: &Option<Stamp>) -> (r: bool)
    ensures
        r == (*a == *b),
{
    match (a, b) {
        (Some(x), Some(y)) => *x == *y,
        (None, None) => true,
        _ => false,
    }
}

/// The dictionaries.
pub struct Dict {
    system: Table<Vec<Candidate>>,
    user: Table<Vec<Candidate>>,
    system_okuri: Table<OkuriBlocks>,
    user_okuri: Table<OkuriBlocks>,
    snippets: Table<Vec<Candidate>>,
    /// What was last read of each file of snippets.
    snippet_lists: Vec<Vec<Snippet>>,
    snippet_stamps: Vec<Option<Stamp>>,
    /// What this run has changed, in order.
    changes: Vec<Change>,
    user_stamp: Option<Stamp>,
    /// The readings of the shared dictionaries without okurigana, in order.
    system_sorted: Vec<Vec<char>>,
}

/// What the dictionaries hold.
pub struct DictText {
    pub system: Loaded,
    pub user: Loaded,
    pub snippets: Words,
    pub snippet_lists: Seq<Seq<SnippetText>>,
    pub snippet_stamps: Seq<Option<Stamp>>,
    pub changes: Seq<ChangeText>,
    pub user_stamp: Option<Stamp>,
}

impl View for Dict {
    type V = DictText;

    closed spec fn view(&self) -> DictText {
        DictText {
            system: loaded_of(&self.system, &self.system_okuri),
            user: loaded_of(&self.user, &self.user_okuri),
            snippets: words_of(self.snippets@),
            snippet_lists: list_texts(self.snippet_lists@),
            snippet_stamps: self.snippet_stamps@,
            changes: change_texts(self.changes@),
            user_stamp: self.user_stamp,
        }
    }
}

/// The readings without okurigana.
pub open spec fn plain_readings(w: Words) -> Set<Seq<char>> {
    Set::new(|k: Seq<char>| w.dom().contains(k) && !okuri_ari(k))
}

/// A user's dictionary that is ready to be written.
pub struct Merged {
    user: Table<Vec<Candidate>>,
    okuri: Table<OkuriBlocks>,
}

impl View for Merged {
    type V = Loaded;

    closed spec fn view(&self) -> Loaded {
        loaded_of(&self.user, &self.okuri)
    }
}

impl Merged {
    pub closed spec fn wf(&self) -> bool {
        self.user.wf() && okuri_wf(&self.okuri)
    }

    /// The text to write.
    pub fn text(&self) -> (r: String)
        requires
            self.wf(),
        ensures
            r@ == dict_written(self@),
    {
        write_dict(&self.user, &self.okuri)
    }
}

/// The first `n` of the files, one laid over the other.
pub open spec fn files_loaded(d: Loaded, files: Seq<Vec<u8>>, n: int) -> Loaded
    decreases n,
{
    if n <= 0 {
        d
    } else {
        text_loaded(files_loaded(d, files, n - 1), jisyo_text(files[n - 1]@))
    }
}

/// The shared dictionaries: the files in order, and the one that comes with the engine.
pub open spec fn system_loaded(files: Seq<Vec<u8>>) -> Loaded {
    text_loaded(files_loaded(nothing_loaded(), files, files.len() as int), BUILTIN@)
}

/// The user's dictionary on disk: the file, or else the one to take over, or nothing.
pub open spec fn disk_loaded(disk: Option<&Vec<u8>>, import: Option<&Vec<u8>>) -> Loaded {
    match (disk, import) {
        (Some(b), _) => text_loaded(nothing_loaded(), jisyo_text(b@)),
        (None, Some(b)) => text_loaded(nothing_loaded(), jisyo_text(b@)),
        (None, None) => nothing_loaded(),
    }
}

/// What is on disk with the changes of this run laid over it.
pub open spec fn merged_loaded(
    d: DictText,
    disk: Option<&Vec<u8>>,
    import: Option<&Vec<u8>>,
) -> Loaded {
    all_changed(disk_loaded(disk, import), d.changes, d.changes.len() as int)
}

/// A file that is there can be held in memory.
pub open spec fn readable_file(b: Option<&Vec<u8>>) -> bool {
    b is Some ==> readable(b->0@)
}

/// The candidates of a reading: the user's own, then the snippets, then the shared ones.
#[verifier::opaque]
pub open spec fn looked_up(d: DictText, key: Seq<char>) -> Seq<CandText> {
    cands_added(
        cands_added(entry(d.user.words, key), entry(d.snippets, key)),
        entry(d.system.words, key),
    )
}

/// The texts that belong to an okurigana of a reading: the user's own, then the shared ones.
#[verifier::opaque]
pub open spec fn okuri_looked_up(d: DictText, key: Seq<char>, o: Seq<char>) -> Seq<Seq<char>> {
    texts_added(
        texts_added(seq![], block_entry(okuri_entry(d.user.okuri, key), o)),
        block_entry(okuri_entry(d.system.okuri, key), o),
    )
}

/// Whether a candidate comes from a snippet.
#[verifier::opaque]
pub open spec fn from_snippet(d: DictText, key: Seq<char>, text: Seq<char>) -> bool {
    has_cand(entry(d.snippets, key), text)
}

/// A reading that goes on after `prefix`.
pub open spec fn extends(key: Seq<char>, prefix: Seq<char>) -> bool {
    key.len() > prefix.len() && prefix.is_prefix_of(key) && !okuri_ari(key)
}

/// The user's readings, and those of the snippets, that go on after `prefix`.
pub open spec fn near_readings(d: DictText, prefix: Seq<char>) -> Set<Seq<char>> {
    Set::new(
        |k: Seq<char>|
            (d.user.words.dom().contains(k) || d.snippets.dom().contains(k)) && extends(k, prefix),
    )
}

/// The shared readings that go on after `prefix`.
pub open spec fn far_readings(d: DictText, prefix: Seq<char>) -> Set<Seq<char>> {
    Set::new(|k: Seq<char>| d.system.words.dom().contains(k) && extends(k, prefix))
}

/// At most `limit` of `s`.
pub open spec fn at_most(s: Seq<Seq<char>>, limit: nat) -> Seq<Seq<char>> {
    if s.len() <= limit {
        s
    } else {
        s.take(limit as int)
    }
}

/// `v` with the first `n` of `more` behind it, as far as they are new and there is room.
pub open spec fn filled_upto(
    v: Seq<Seq<char>>,
    more: Seq<Seq<char>>,
    limit: nat,
    n: int,
) -> Seq<Seq<char>>
    decreases n,
{
    if n <= 0 {
        v
    } else {
        let before = filled_upto(v, more, limit, n - 1);
        if before.len() >= limit || before.contains(more[n - 1]) {
            before
        } else {
            before.push(more[n - 1])
        }
    }
}

/// The readings that go on after `prefix`: the user's own first, then the shared ones; the
/// shorter ones first.
#[verifier::opaque]
pub open spec fn completions(d: DictText, prefix: Seq<char>, limit: nat) -> Seq<Seq<char>> {
    if prefix.len() == 0 {
        seq![]
    } else {
        let far = listed(true, far_readings(d, prefix));
        filled_upto(
            at_most(listed(true, near_readings(d, prefix)), limit),
            far,
            limit,
            far.len() as int,
        )
    }
}

/// The dictionaries after a candidate was chosen. Snippets are never learned.
#[verifier::opaque]
pub open spec fn learned(d: DictText, key: Seq<char>, cand: CandText) -> DictText {
    if from_snippet(d, key, cand.text) {
        d
    } else {
        noted(d, ChangeText::Learn(key, cand))
    }
}

/// The dictionaries after a change of the user's own.
#[verifier::opaque]
pub open spec fn noted(d: DictText, c: ChangeText) -> DictText {
    DictText { user: changed(d.user, c), changes: d.changes.push(c), ..d }
}

/// The dictionaries after a candidate was chosen with an okurigana.
#[verifier::opaque]
pub open spec fn okuri_learned(
    d: DictText,
    key: Seq<char>,
    o: Seq<char>,
    text: Seq<char>,
) -> DictText {
    if o.len() == 0 || text.len() == 0 || from_snippet(d, key, text) {
        d
    } else {
        noted(d, ChangeText::LearnOkuri(key, o, text))
    }
}

/// The candidates that snippets make.
pub open spec fn snippet_added(w: Words, s: SnippetText) -> Words {
    w.insert(
        s.prefix,
        crate::jisyo::cand_added(
            entry(w, s.prefix),
            CandText { text: s.body, annotation: s.description },
        ),
    )
}

/// The candidates that the first `n` snippets make.
pub open spec fn snippets_added(w: Words, v: Seq<SnippetText>, n: int) -> Words
    decreases n,
{
    if n <= 0 {
        w
    } else {
        snippet_added(snippets_added(w, v, n - 1), v[n - 1])
    }
}

/// The snippets of one file, or nothing where it cannot be read.
pub open spec fn file_snippets(bytes: Seq<u8>) -> Option<Seq<SnippetText>> {
    match json_shape(plain_json(jisyo_text(bytes))) {
        Some(Some(v)) => Some(shape_snippets(v)),
        _ => None,
    }
}

/// What is read of one file of snippets: nothing of one that is missing, and of one that
/// cannot be read what was last read of it.
pub open spec fn file_list(file: Option<Vec<u8>>, kept: Seq<SnippetText>) -> Seq<SnippetText> {
    match file {
        Some(b) => match file_snippets(b@) {
            Some(v) => v,
            None => kept,
        },
        None => seq![],
    }
}

/// What is read of the files of snippets.
pub open spec fn lists_read(
    files: Seq<Option<Vec<u8>>>,
    kept: Seq<Seq<SnippetText>>,
) -> Seq<Seq<SnippetText>> {
    Seq::new(
        files.len(),
        |i: int|
            file_list(
                files[i],
                if i < kept.len() {
                    kept[i]
                } else {
                    seq![]
                },
            ),
    )
}

/// The candidates that the first `n` lists of snippets make.
pub open spec fn lists_words(lists: Seq<Seq<SnippetText>>, n: int) -> Words
    decreases n,
{
    if n <= 0 {
        Map::empty()
    } else {
        snippets_added(lists_words(lists, n - 1), lists[n - 1], lists[n - 1].len() as int)
    }
}

/// What lists of snippets hold.
pub open spec fn list_texts(v: Seq<Vec<Snippet>>) -> Seq<Seq<SnippetText>> {
    v.map_values(|l: Vec<Snippet>| snippet_texts(l@))
}

/// The dictionaries after the files of snippets were read.
pub open spec fn snippets_read(
    d: DictText,
    files: Seq<Option<Vec<u8>>>,
    kept: Seq<Seq<SnippetText>>,
    stamps: Seq<Option<Stamp>>,
) -> DictText {
    let lists = lists_read(files, kept);
    DictText {
        snippets: lists_words(lists, lists.len() as int),
        snippet_lists: lists,
        snippet_stamps: stamps,
        ..d
    }
}

/// Which of the first `n` snippet files cannot be read.
pub open spec fn broken_files(files: Seq<Option<Vec<u8>>>, n: int) -> Seq<int>
    decreases n,
{
    if n <= 0 {
        seq![]
    } else {
        let before = broken_files(files, n - 1);
        match files[n - 1] {
            Some(b) => if file_snippets(b@) is None {
                before.push(n - 1)
            } else {
                before
            },
            None => before,
        }
    }
}

/// Files that are there can be held in memory.
pub open spec fn readable_files(files: Seq<Option<Vec<u8>>>) -> bool {
    forall|i: int| 0 <= i < files.len() && (#[trigger] files[i]) is Some ==> readable(files[i]->0@)
}

proof fn lemma_filled_from(
    v: Seq<Seq<char>>,
    more: Seq<Seq<char>>,
    limit: nat,
    n: int,
    x: Seq<char>,
)
    requires
        0 <= n <= more.len(),
        filled_upto(v, more, limit, n).contains(x),
    ensures
        v.contains(x) || more.contains(x),
    decreases n,
{
    if n > 0 {
        let had = filled_upto(v, more, limit, n - 1);
        crate::order::lemma_push_contains(had, more[n - 1], x);
        assert(more.contains(more[n - 1]));
        if had.contains(x) {
            lemma_filled_from(v, more, limit, n - 1, x);
        }
    }
}

/// Every completion goes on after what is completed.
pub proof fn law_completions_go_on(d: DictText, prefix: Seq<char>, limit: nat, i: int)
    requires
        near_readings(d, prefix).finite(),
        far_readings(d, prefix).finite(),
        0 <= i < completions(d, prefix, limit).len(),
    ensures
        extends(completions(d, prefix, limit)[i], prefix),
{
    reveal(completions);
    let near = listed(true, near_readings(d, prefix));
    let far = listed(true, far_readings(d, prefix));
    lemma_listed_set(true, near_readings(d, prefix));
    lemma_listed_set(true, far_readings(d, prefix));
    let x = completions(d, prefix, limit)[i];
    let first = at_most(near, limit);
    assert(completions(d, prefix, limit).contains(x));
    lemma_filled_from(first, far, limit, far.len() as int, x);
    if first.contains(x) {
        let k = choose|k: int| 0 <= k < first.len() && first[k] == x;
        assert(near[k] == x);
        assert(near.to_set().contains(x));
    } else {
        assert(far.to_set().contains(x));
    }
}

/// A text that comes before another one comes before all that follows it.
proof fn lemma_prefix_order(a: Seq<char>, b: Seq<char>, p: Seq<char>)
    requires
        precedes(a, b),
        p.is_prefix_of(b),
    ensures
        precedes(a, p) || p.is_prefix_of(a),
    decreases p.len(),
{
    if p.len() == 0 {
        assert(p =~= a.take(0));
    } else {
        assert(p[0] == b[0]);
        if a.len() > 0 && a[0] == b[0] {
            assert(p.skip(1) =~= b.skip(1).take(p.len() - 1)) by {
                assert(p =~= b.take(p.len() as int));
            }
            lemma_prefix_order(a.skip(1), b.skip(1), p.skip(1));
            if p.skip(1).is_prefix_of(a.skip(1)) {
                let n = p.len() as int;
                assert(p.skip(1) =~= a.skip(1).take(n - 1));
                assert forall|i: int| 0 <= i < n implies p[i] == a[i] by {
                    if i > 0 {
                        assert(p.skip(1)[i - 1] == a.skip(1)[i - 1]);
                    }
                }
                assert(p =~= a.take(n));
            }
        }
    }
}

/// A text that starts with `p` does not come before `p`.
proof fn lemma_extension_after(p: Seq<char>, b: Seq<char>)
    requires
        p.is_prefix_of(b),
    ensures
        !precedes(b, p),
    decreases p.len(),
{
    if p.len() > 0 && precedes(b, p) {
        assert(p[0] == b[0]);
        assert(p.skip(1) =~= b.skip(1).take(p.len() - 1)) by {
            assert(p =~= b.take(p.len() as int));
        }
        lemma_extension_after(p.skip(1), b.skip(1));
    }
}

/// Adds those of `keys` that go on after `prefix` to `out`.
fn collect(out: &mut Vec<Vec<char>>, keys: &Vec<String>, prefix: &Vec<char>)
    ensures
        forall|x: Seq<char>|
            #[trigger] spelled_out(final(out)@).contains(x) <==> spelled_out(old(out)@).contains(x)
                || (texts(keys@).contains(x) && extends(x, prefix@)),
{
    let ghost first = spelled_out(out@);
    let ghost ks = texts(keys@);
    let mut i: usize = 0;
    assert(ks.take(0) =~= seq![]);
    while i < keys.len()
        invariant
            i <= keys@.len(),
            ks == texts(keys@),
            forall|x: Seq<char>|
                #[trigger] spelled_out(out@).contains(x) <==> first.contains(x) || (ks.take(
                    i as int,
                ).contains(x) && extends(x, prefix@)),
        decreases keys.len() - i,
    {
        let ghost had = spelled_out(out@);
        let ghost key = ks[i as int];
        let k = chars_of(keys[i].as_str());
        proof {
            assert(k@ == key);
            assert(k@.skip(0) =~= k@);
            lemma_take_next(ks, i as int);
        }
        if k.len() > prefix.len() && starts_at(&k, 0, prefix) && !is_okuri_ari(keys[i].as_str()) {
            out.push(k);
            assert(spelled_out(out@) =~= had.push(key));
        }
        proof {
            assert forall|x: Seq<char>|
                #[trigger] spelled_out(out@).contains(x) <==> first.contains(x) || (ks.take(
                    i + 1,
                ).contains(x) && extends(x, prefix@)) by {
                crate::order::lemma_push_contains(ks.take(i as int), key, x);
                crate::order::lemma_push_contains(had, key, x);
                assert(had.contains(x) <==> first.contains(x) || (ks.take(i as int).contains(x)
                    && extends(x, prefix@)));
            }
        }
        i = i + 1;
    }
    assert(ks.take(i as int) =~= ks);
}

impl Dict {
    /// The tables are in order, and the index lists the shared readings.
    pub closed spec fn wf(&self) -> bool {
        &&& self.system.wf()
        &&& self.user.wf()
        &&& okuri_wf(&self.system_okuri)
        &&& okuri_wf(&self.user_okuri)
        &&& self.snippets.wf()
        &&& ascending(false, spelled_out(self.system_sorted@))
        &&& spelled_out(self.system_sorted@).to_set() == plain_readings(words_of(self.system@))
    }

    /// There is an end to the words of a dictionary.
    pub proof fn lemma_countable(&self)
        requires
            self.wf(),
        ensures
            self@.user.words.dom().finite(),
            self@.snippets.dom().finite(),
            self@.system.words.dom().finite(),
    {
        self.user.lemma_finite();
        self.snippets.lemma_finite();
        self.system.lemma_finite();
        assert(self@.user.words.dom() =~= self.user@.dom());
        assert(self@.snippets.dom() =~= self.snippets@.dom());
        assert(self@.system.words.dom() =~= self.system@.dom());
    }

    /// Reads the shared dictionaries and the user's own. `import` is the
    /// dictionary of another program to start from while there is no own one.
    pub fn load(
        system: &Vec<Vec<u8>>,
        user: Option<&Vec<u8>>,
        import: Option<&Vec<u8>>,
        user_stamp: Option<Stamp>,
    ) -> (r: Dict)
        requires
            forall|i: int| 0 <= i < system@.len() ==> readable((#[trigger] system@[i])@),
            readable_file(user),
            readable_file(import),
        ensures
            r.wf(),
            r@ == (DictText {
                system: system_loaded(system@),
                user: disk_loaded(user, import),
                snippets: Map::empty(),
                snippet_lists: seq![],
                snippet_stamps: seq![],
                changes: seq![],
                user_stamp,
            }),
    {
        let mut words: Table<Vec<Candidate>> = Table::new(65536);
        let mut okuri: Table<OkuriBlocks> = Table::new(4096);
        proof {
            assert(words_of(words@) =~= Map::empty());
            assert(okuri_of(okuri@) =~= Map::empty());
        }
        let mut i: usize = 0;
        while i < system.len()
            invariant
                i <= system@.len(),
                words.wf(),
                okuri_wf(&okuri),
                forall|j: int| 0 <= j < system@.len() ==> readable((#[trigger] system@[j])@),
                loaded_of(&words, &okuri) == files_loaded(nothing_loaded(), system@, i as int),
            decreases system.len() - i,
        {
            let text = decode_jisyo(&system[i]);
            load_into(&mut words, &mut okuri, text.as_str());
            i = i + 1;
        }
        load_into(&mut words, &mut okuri, BUILTIN);
        let keys = words.keys();
        let sorted = sorted_plain(&keys);
        let own = load_disk(user, import);
        let snippets: Table<Vec<Candidate>> = Table::new(256);
        let snippet_lists: Vec<Vec<Snippet>> = Vec::new();
        let snippet_stamps: Vec<Option<Stamp>> = Vec::new();
        let changes: Vec<Change> = Vec::new();
        proof {
            assert(words_of(snippets@) =~= Map::empty());
            assert(list_texts(snippet_lists@) =~= seq![]);
            assert(change_texts(changes@) =~= seq![]);
            assert(spelled_out(sorted@).to_set() =~= plain_readings(words_of(words@))) by {
                assert forall|k: Seq<char>| texts(keys@).contains(k) <==> words@.dom().contains(
                    k,
                ) by {
                    assert(texts(keys@).to_set().contains(k) <==> words@.dom().contains(k));
                }
            }
        }
        Dict {
            system: words,
            user: own.user,
            system_okuri: okuri,
            user_okuri: own.okuri,
            snippets,
            snippet_lists,
            snippet_stamps,
            changes,
            user_stamp,
            system_sorted: sorted,
        }
    }

    /// Whether there is anything to write.
    pub fn has_changes(&self) -> (r: bool)
        ensures
            r == (self@.changes.len() > 0),
    {
        self.changes.len() > 0
    }

    /// Reads the files of snippets.
    fn read_snippets(
        &mut self,
        files: &Vec<Option<Vec<u8>>>,
        stamps: Vec<Option<Stamp>>,
        again: bool,
    ) -> (r: (usize, Vec<(usize, SnippetError)>))
        requires
            old(self).wf(),
            readable_files(files@),
        ensures
            final(self).wf(),
            final(self)@ == snippets_read(
                old(self)@,
                files@,
                if again {
                    old(self)@.snippet_lists
                } else {
                    seq![]
                },
                stamps@,
            ),
            r.0 == final(self)@.snippets.dom().len(),
            r.1@.map_values(|f: (usize, SnippetError)| f.0 as int) == broken_files(
                files@,
                files@.len() as int,
            ),
    {
        let ghost kept: Seq<Seq<SnippetText>> = if again {
            self@.snippet_lists
        } else {
            seq![]
        };
        let ghost all = lists_read(files@, kept);
        let mut words: Table<Vec<Candidate>> = Table::new(256);
        let mut lists: Vec<Vec<Snippet>> = Vec::new();
        let mut failed: Vec<(usize, SnippetError)> = Vec::new();
        let ghost place = |f: (usize, SnippetError)| f.0 as int;
        let mut i: usize = 0;
        proof {
            assert(words_of(words@) =~= Map::empty());
            assert(failed@.map_values(place) =~= seq![]);
        }
        while i < files.len()
            invariant
                i <= files@.len(),
                words.wf(),
                readable_files(files@),
                self.wf(),
                self@ == old(self)@,
                kept == if again {
                    self@.snippet_lists
                } else {
                    seq![]
                },
                all == lists_read(files@, kept),
                place == (|f: (usize, SnippetError)| f.0 as int),
                words_of(words@) == lists_words(all, i as int),
                list_texts(lists@) =~= all.take(i as int),
                failed@.map_values(place) == broken_files(files@, i as int),
            decreases files.len() - i,
        {
            let ghost had = failed@.map_values(place);
            let ghost so_far = list_texts(lists@);
            let list: Vec<Snippet> = match &files[i] {
                Some(bytes) => {
                    let text = decode_jisyo(bytes);
                    match crate::snippet::parse(text.as_str()) {
                        Ok(list) => list,
                        Err(e) => {
                            failed.push((i, e));
                            assert(failed@.map_values(place) =~= had.push(i as int));
                            if again && i < self.snippet_lists.len() {
                                assert(kept[i as int] == snippet_texts(
                                    self.snippet_lists@[i as int]@,
                                ));
                                copy_list(&self.snippet_lists[i])
                            } else {
                                let none: Vec<Snippet> = Vec::new();
                                assert(snippet_texts(none@) =~= seq![]);
                                none
                            }
                        },
                    }
                },
                None => {
                    let none: Vec<Snippet> = Vec::new();
                    assert(snippet_texts(none@) =~= seq![]);
                    none
                },
            };
            assert(snippet_texts(list@) == all[i as int]);
            add_snippets(&mut words, &list);
            lists.push(list);
            i = i + 1;
            proof {
                lemma_take_next(all, i - 1);
                assert(list_texts(lists@) =~= so_far.push(snippet_texts(list@)));
            }
        }
        let n = words.len();
        proof {
            assert(words_of(words@).dom() =~= words@.dom());
            assert(all.take(i as int) =~= all);
        }
        self.snippets = words;
        self.snippet_lists = lists;
        self.snippet_stamps = stamps;
        (n, failed)
    }

    /// Reads snippet files anew; a missing file is `None`. Returns how many readings they
    /// give, and which of them cannot be read: the others are read all the same.
    pub fn load_snippets(
        &mut self,
        files: &Vec<Option<Vec<u8>>>,
        stamps: Vec<Option<Stamp>>,
    ) -> (r: (usize, Vec<(usize, SnippetError)>))
        requires
            old(self).wf(),
            readable_files(files@),
        ensures
            final(self).wf(),
            final(self)@ == snippets_read(old(self)@, files@, seq![], stamps@),
            r.0 == final(self)@.snippets.dom().len(),
            r.1@.map_values(|f: (usize, SnippetError)| f.0 as int) == broken_files(
                files@,
                files@.len() as int,
            ),
    {
        self.read_snippets(files, stamps, false)
    }

    /// Whether the snippet files have been written since they were read.
    pub fn snippets_changed(&self, now: &Vec<Option<Stamp>>) -> (r: bool)
        ensures
            r == (now@ != self@.snippet_stamps),
    {
        if now.len() != self.snippet_stamps.len() {
            return true;
        }
        let mut i: usize = 0;
        while i < now.len()
            invariant
                i <= now@.len(),
                now@.len() == self.snippet_stamps@.len(),
                forall|j: int| 0 <= j < i ==> now@[j] == self.snippet_stamps@[j],
            decreases now.len() - i,
        {
            if !same_stamp(&now[i], &self.snippet_stamps[i]) {
                return true;
            }
            i = i + 1;
        }
        assert(now@ =~= self.snippet_stamps@);
        false
    }

    /// Reads the snippet files again if they have been written. Returns whether it did, and
    /// which of them cannot be read: what was read of these before stays.
    pub fn reload_snippets(
        &mut self,
        files: &Vec<Option<Vec<u8>>>,
        now: Vec<Option<Stamp>>,
    ) -> (r: (bool, Vec<(usize, SnippetError)>))
        requires
            old(self).wf(),
            readable_files(files@),
        ensures
            final(self).wf(),
            r.0 == (now@ != old(self)@.snippet_stamps),
            !r.0 ==> final(self)@ == old(self)@ && r.1@.len() == 0,
            r.0 ==> final(self)@ == snippets_read(
                old(self)@,
                files@,
                old(self)@.snippet_lists,
                now@,
            ) && r.1@.map_values(|f: (usize, SnippetError)| f.0 as int) == broken_files(
                files@,
                files@.len() as int,
            ),
    {
        if !self.snippets_changed(&now) {
            return (false, Vec::new());
        }
        let (_, failed) = self.read_snippets(files, now, true);
        (true, failed)
    }

    /// The number of readings that snippets give.
    pub fn snippet_len(&self) -> (r: usize)
        requires
            self.wf(),
        ensures
            r == self@.snippets.dom().len(),
    {
        assert(words_of(self.snippets@).dom() =~= self.snippets@.dom());
        self.snippets.len()
    }

    /// Whether a candidate comes from a snippet.
    pub fn is_snippet(&self, key: &str, text: &str) -> (r: bool)
        requires
            self.wf(),
        ensures
            r == from_snippet(self@, key@, text@),
    {
        proof {
            reveal(from_snippet);
        }
        match self.snippets.get(key) {
            Some(v) => find_cand(v, text),
            None => false,
        }
    }

    /// The readings of the shared dictionaries that can be found by their beginning, with
    /// their candidates. Readings with okurigana are cut short and left out; those that are
    /// all ASCII only look like them.
    pub fn system_entries(&self) -> (r: Vec<(String, Vec<Candidate>)>)
        requires
            self.wf(),
        ensures
            forall|i: int|
                0 <= i < r@.len() ==> self@.system.words.dom().contains((#[trigger] r@[i]).0@)
                    && cand_texts(r@[i].1@) == self@.system.words[r@[i].0@] && findable(r@[i].0@),
            forall|i: int, j: int|
                0 <= i < j < r@.len() ==> (#[trigger] r@[i]).0@ != (#[trigger] r@[j]).0@,
            forall|k: Seq<char>|
                #[trigger] self@.system.words.dom().contains(k) && findable(k) ==> exists|i: int|
                    0 <= i < r@.len() && (#[trigger] r@[i]).0@ == k,
    {
        let keys = self.system.keys();
        let ghost ks = texts(keys@);
        let mut out: Vec<(String, Vec<Candidate>)> = Vec::new();
        let mut i: usize = 0;
        while i < keys.len()
            invariant
                i <= keys@.len(),
                self.wf(),
                ks == texts(keys@),
                ks.to_set() == self.system@.dom(),
                ks.no_duplicates(),
                forall|j: int|
                    0 <= j < out@.len() ==> self@.system.words.dom().contains(
                        (#[trigger] out@[j]).0@,
                    ) && cand_texts(out@[j].1@) == self@.system.words[out@[j].0@] && findable(
                        out@[j].0@,
                    ) && ks.take(i as int).contains(out@[j].0@),
                forall|a: int, b: int|
                    0 <= a < b < out@.len() ==> (#[trigger] out@[a]).0@ != (#[trigger] out@[b]).0@,
                forall|n: int|
                    0 <= n < i && findable(#[trigger] ks[n]) ==> exists|j: int|
                        0 <= j < out@.len() && (#[trigger] out@[j]).0@ == ks[n],
            decreases keys.len() - i,
        {
            let ghost key = ks[i as int];
            let ghost out0 = out@;
            proof {
                assert(key == keys@[i as int]@);
                assert(ks.to_set().contains(key));
                lemma_take_next(ks, i as int);
                assert(!ks.take(i as int).contains(key));
                assert forall|x: Seq<char>| ks.take(i as int).contains(x) implies ks.take(
                    i + 1,
                ).contains(x) by {
                    crate::order::lemma_push_contains(ks.take(i as int), key, x);
                }
                crate::order::lemma_push_contains(ks.take(i as int), key, key);
            }
            if !is_okuri_ari(keys[i].as_str()) || all_ascii(keys[i].as_str()) {
                match self.system.get(keys[i].as_str()) {
                    Some(v) => {
                        let cands = copy_cands(v);
                        out.push((keys[i].clone(), cands));
                        assert(out@[out@.len() - 1].0@ == key);
                        assert forall|n: int| 0 <= n < i + 1 && findable(#[trigger] ks[n]) implies exists|
                            j: int,
                        |
                            0 <= j < out@.len() && (#[trigger] out@[j]).0@ == ks[n] by {
                            if n < i {
                                let j = choose|j: int|
                                    0 <= j < out0.len() && (#[trigger] out0[j]).0@ == ks[n];
                                assert(out@[j] == out0[j]);
                            }
                        }
                    },
                    None => {},
                }
            }
            i = i + 1;
        }
        proof {
            assert forall|k: Seq<char>|
                #[trigger] self@.system.words.dom().contains(k) && findable(k) implies exists|i: int|
                0 <= i < out@.len() && (#[trigger] out@[i]).0@ == k by {
                assert(self.system@.dom().contains(k));
                assert(ks.to_set().contains(k));
                let n = choose|n: int| 0 <= n < ks.len() && ks[n] == k;
                assert(findable(ks[n]));
            }
        }
        out
    }

    /// The candidates of the shared dictionaries for a reading.
    pub(crate) fn system_cands(&self, key: &str) -> (r: Option<&Vec<Candidate>>)
        requires
            self.wf(),
        ensures
            match r {
                Some(v) => self@.system.words.dom().contains(key@) && cand_texts(v@)
                    == self@.system.words[key@],
                None => !self@.system.words.dom().contains(key@),
            },
    {
        self.system.get(key)
    }

    /// The number of readings of the shared dictionaries.
    pub fn system_len(&self) -> (r: usize)
        requires
            self.wf(),
        ensures
            r == self@.system.words.dom().len(),
    {
        assert(words_of(self.system@).dom() =~= self.system@.dom());
        self.system.len()
    }

    /// The candidates of a reading: the user's own, then the snippets, then the shared ones.
    pub fn lookup(&self, key: &str) -> (r: Vec<Candidate>)
        requires
            self.wf(),
        ensures
            cand_texts(r@) == looked_up(self@, key@),
    {
        proof {
            reveal(looked_up);
        }
        let mut out: Vec<Candidate> = match self.user.get(key) {
            Some(v) => copy_cands(v),
            None => Vec::new(),
        };
        assert(cand_texts(out@) =~= entry(self@.user.words, key@));
        match self.snippets.get(key) {
            Some(v) => {
                add_cands(&mut out, v);
            },
            None => {},
        }
        match self.system.get(key) {
            Some(v) => {
                add_cands(&mut out, v);
            },
            None => {},
        }
        out
    }

    /// The texts that belong to an okurigana of a reading.
    pub fn okuri_candidates(&self, key: &str, okuri: &str) -> (r: Vec<String>)
        requires
            self.wf(),
        ensures
            texts(r@) == okuri_looked_up(self@, key@, okuri@),
    {
        proof {
            reveal(okuri_looked_up);
        }
        let mut out: Vec<String> = Vec::new();
        assert(texts(out@) =~= seq![]);
        match self.user_okuri.get(key) {
            Some(b) => {
                match b.get(okuri) {
                    Some(v) => {
                        add_texts(&mut out, v);
                    },
                    None => {},
                }
            },
            None => {},
        }
        match self.system_okuri.get(key) {
            Some(b) => {
                match b.get(okuri) {
                    Some(v) => {
                        add_texts(&mut out, v);
                    },
                    None => {},
                }
            },
            None => {},
        }
        out
    }

    /// The readings that go on after `prefix`, at most `limit`.
    pub fn complete(&self, prefix: &str, limit: usize) -> (r: Vec<String>)
        requires
            self.wf(),
        ensures
            texts(r@) == completions(self@, prefix@, limit as nat),
            forall|i: int| 0 <= i < r@.len() ==> extends((#[trigger] texts(r@)[i]), prefix@),
    {
        proof {
            reveal(completions);
        }
        let p = chars_of(prefix);
        let mut out: Vec<String> = Vec::new();
        assert(texts(out@) =~= seq![]);
        if p.len() == 0 {
            return out;
        }
        let mut near: Vec<Vec<char>> = Vec::new();
        assert(spelled_out(near@) =~= seq![]);
        let mine = self.user.keys();
        collect(&mut near, &mine, &p);
        let written = self.snippets.keys();
        collect(&mut near, &written, &p);
        let near = sorted(true, &near);
        proof {
            assert(spelled_out(near@).to_set() =~= near_readings(self@, prefix@)) by {
                assert forall|x: Seq<char>| spelled_out(near@).to_set().contains(x)
                    <==> near_readings(self@, prefix@).contains(x) by {
                    assert(texts(mine@).contains(x) <==> texts(mine@).to_set().contains(x));
                    assert(texts(written@).contains(x) <==> texts(written@).to_set().contains(x));
                }
            }
        }
        let ghost ns = spelled_out(near@);
        let mut i: usize = 0;
        while i < near.len() && i < limit
            invariant
                i <= near@.len(),
                i <= limit,
                ns == spelled_out(near@),
                texts(out@) =~= ns.take(i as int),
            decreases near.len() - i,
        {
            let ghost had = texts(out@);
            let t = text_of(&near[i]);
            out.push(t);
            proof {
                lemma_take_next(ns, i as int);
                assert(texts(out@) =~= had.push(t@));
            }
            i = i + 1;
        }
        assert(texts(out@) =~= at_most(ns, limit as nat));
        let (lo, hi) = self.system_prefix_range(&p);
        let mut far: Vec<Vec<char>> = Vec::new();
        let ghost all = spelled_out(self.system_sorted@);
        let mut i: usize = lo;
        assert(spelled_out(far@) =~= seq![]);
        while i < hi
            invariant
                lo <= i <= hi <= self.system_sorted@.len(),
                all == spelled_out(self.system_sorted@),
                forall|x: Seq<char>|
                    #[trigger] spelled_out(far@).contains(x) <==> (exists|j: int|
                        lo <= j < i && #[trigger] all[j] == x && x.len() > p@.len()),
            decreases hi - i,
        {
            let ghost had = spelled_out(far@);
            let ghost key = all[i as int];
            if self.system_sorted[i].len() > p.len() {
                let t = text_of(&self.system_sorted[i]);
                let k = chars_of(t.as_str());
                far.push(k);
                assert(spelled_out(far@) =~= had.push(key));
            }
            proof {
                assert forall|x: Seq<char>|
                    #[trigger] spelled_out(far@).contains(x) <==> (exists|j: int|
                        lo <= j < i + 1 && #[trigger] all[j] == x && x.len() > p@.len()) by {
                    crate::order::lemma_push_contains(had, key, x);
                    assert(had.contains(x) <==> (exists|j: int|
                        lo <= j < i && #[trigger] all[j] == x && x.len() > p@.len()));
                    if key == x {
                        assert(all[i as int] == x);
                    }
                }
            }
            i = i + 1;
        }
        let far = sorted(true, &far);
        let ghost fs = spelled_out(far@);
        proof {
            let want = far_readings(self@, prefix@);
            assert forall|x: Seq<char>| fs.to_set().contains(x) <==> want.contains(x) by {
                if want.contains(x) {
                    assert(all.to_set().contains(x));
                    let j = choose|j: int| 0 <= j < all.len() && all[j] == x;
                    assert(lo <= j < hi);
                }
                if fs.to_set().contains(x) {
                    let j = choose|j: int| lo <= j < hi && #[trigger] all[j] == x && x.len()
                        > p@.len();
                    assert(all.to_set().contains(x)) by {
                        assert(all.contains(x));
                    }
                }
            }
            assert(fs.to_set() =~= want);
        }
        let ghost start = texts(out@);
        let mut i: usize = 0;
        while i < far.len()
            invariant
                i <= far@.len(),
                fs == spelled_out(far@),
                texts(out@) == filled_upto(start, fs, limit as nat, i as int),
            decreases far.len() - i,
        {
            let ghost had = texts(out@);
            let t = text_of(&far[i]);
            assert(fs[i as int] == t@);
            if out.len() < limit && !has_text(&out, t.as_str()) {
                out.push(t);
                assert(texts(out@) =~= had.push(t@));
            }
            assert(had.len() == texts(out@).len() || had.len() + 1 == texts(out@).len());
            i = i + 1;
        }
        proof {
            vstd::seq_lib::seq_to_set_is_finite(ns);
            vstd::seq_lib::seq_to_set_is_finite(fs);
            assert(texts(out@) == completions(self@, prefix@, limit as nat));
            assert forall|i: int| 0 <= i < out@.len() implies extends(
                (#[trigger] texts(out@)[i]),
                prefix@,
            ) by {
                law_completions_go_on(self@, prefix@, limit as nat, i);
            }
        }
        out
    }

    /// Where the readings that start with `prefix` stand in the index.
    fn system_prefix_range(&self, prefix: &Vec<char>) -> (r: (usize, usize))
        requires
            self.wf(),
        ensures
            r.0 <= r.1 <= self.system_sorted@.len(),
            forall|i: int|
                0 <= i < self.system_sorted@.len() ==> (prefix@.is_prefix_of(
                    (#[trigger] spelled_out(self.system_sorted@)[i]),
                ) <==> r.0 <= i < r.1),
    {
        let ghost all = spelled_out(self.system_sorted@);
        let lo = self.partition(prefix, false);
        let hi = self.partition(prefix, true);
        proof {
            assert forall|i: int| 0 <= i < all.len() implies (prefix@.is_prefix_of(
                #[trigger] all[i],
            ) <==> lo <= i < hi) by {
                if prefix@.is_prefix_of(all[i]) {
                    lemma_extension_after(prefix@, all[i]);
                }
            }
            if hi < lo {
                assert(precedes(all[hi as int], prefix@));
            }
        }
        (lo, hi)
    }

    /// How many readings of the index come before `prefix`, or, where `through` says so,
    /// before the end of those that start with it.
    fn partition(&self, prefix: &Vec<char>, through: bool) -> (r: usize)
        requires
            self.wf(),
        ensures
            r <= self.system_sorted@.len(),
            forall|i: int|
                0 <= i < self.system_sorted@.len() ==> (i < r <==> (precedes(
                    #[trigger] spelled_out(self.system_sorted@)[i],
                    prefix@,
                ) || (through && prefix@.is_prefix_of(spelled_out(self.system_sorted@)[i])))),
    {
        let ghost all = spelled_out(self.system_sorted@);
        let ghost pred = |t: Seq<char>|
            precedes(t, prefix@) || (through && prefix@.is_prefix_of(t));
        let mut lo: usize = 0;
        let mut hi: usize = self.system_sorted.len();
        while lo < hi
            invariant
                lo <= hi <= self.system_sorted@.len(),
                self.wf(),
                all == spelled_out(self.system_sorted@),
                pred == (|t: Seq<char>|
                    precedes(t, prefix@) || (through && prefix@.is_prefix_of(t))),
                forall|i: int| 0 <= i < lo ==> pred(#[trigger] all[i]),
                forall|i: int| hi <= i < all.len() ==> !pred(#[trigger] all[i]),
            decreases hi - lo,
        {
            let mid: usize = lo + (hi - lo) / 2;
            let k = &self.system_sorted[mid];
            assert(k@.skip(0) =~= k@);
            assert(all[mid as int] == k@);
            if is_before(false, k, prefix) || (through && starts_at(k, 0, prefix)) {
                proof {
                    assert forall|i: int| 0 <= i < mid + 1 implies pred(#[trigger] all[i]) by {
                        if i < mid {
                            assert(before(false, all[i], all[mid as int]));
                            if precedes(all[mid as int], prefix@) {
                                lemma_precedes_transitive(all[i], all[mid as int], prefix@);
                            } else {
                                lemma_prefix_order(all[i], all[mid as int], prefix@);
                            }
                        }
                    }
                }
                lo = mid + 1;
            } else {
                proof {
                    assert forall|i: int| mid <= i < all.len() implies !pred(#[trigger] all[i]) by {
                        if i > mid {
                            assert(before(false, all[mid as int], all[i]));
                            if pred(all[i]) {
                                if precedes(all[i], prefix@) {
                                    lemma_precedes_transitive(all[mid as int], all[i], prefix@);
                                } else {
                                    lemma_prefix_order(all[mid as int], all[i], prefix@);
                                }
                            }
                        }
                    }
                }
                hi = mid;
            }
        }
        proof {
            assert forall|i: int| 0 <= i < all.len() implies (i < lo <==> (precedes(
                #[trigger] all[i],
                prefix@,
            ) || (through && prefix@.is_prefix_of(all[i])))) by {
                if i < lo {
                    assert(pred(all[i]));
                } else {
                    assert(!pred(all[i]));
                }
            }
        }
        lo
    }

    /// Carries a change of the user's dictionary out and keeps it.
    fn note(&mut self, change: Change)
        requires
            old(self).wf(),
        ensures
            final(self).wf(),
            final(self)@ == noted(old(self)@, change@),
    {
        proof {
            reveal(noted);
        }
        let ghost had = change_texts(self.changes@);
        apply_change(&change, &mut self.user, &mut self.user_okuri);
        self.changes.push(change);
        assert(change_texts(self.changes@) =~= had.push(change@));
    }

    /// Moves a chosen candidate to the front of the user's dictionary. Snippets stay where
    /// they are written.
    pub fn learn(&mut self, key: &str, cand: &Candidate)
        requires
            old(self).wf(),
        ensures
            final(self).wf(),
            final(self)@ == learned(old(self)@, key@, cand@),
    {
        proof {
            reveal(learned);
        }
        if self.is_snippet(key, cand.text.as_str()) {
            return;
        }
        self.note(Change::Learn(key.to_owned(), cand.copied()));
    }

    /// Notes that a candidate was chosen with an okurigana.
    pub fn learn_okuri(&mut self, key: &str, okuri: &str, text: &str)
        requires
            old(self).wf(),
        ensures
            final(self).wf(),
            final(self)@ == okuri_learned(old(self)@, key@, okuri@, text@),
    {
        proof {
            reveal(okuri_learned);
        }
        if okuri.is_empty() || text.is_empty() {
            return;
        }
        if self.is_snippet(key, text) {
            return;
        }
        self.note(Change::LearnOkuri(key.to_owned(), okuri.to_owned(), text.to_owned()));
    }

    /// Throws a candidate out of the user's dictionary. The change is kept even where the
    /// candidate is not there: it may be on disk. The shared dictionaries are not touched.
    pub fn purge(&mut self, key: &str, text: &str)
        requires
            old(self).wf(),
        ensures
            final(self).wf(),
            final(self)@ == noted(old(self)@, ChangeText::Purge(key@, text@)),
    {
        self.note(Change::Purge(key.to_owned(), text.to_owned()));
    }

    /// What is to be written to the user's file, if anything was learned: what is on disk
    /// now with the changes of this run laid over it.
    pub fn save(&self, disk: Option<&Vec<u8>>, import: Option<&Vec<u8>>) -> (r: Option<Merged>)
        requires
            self.wf(),
            readable_file(disk),
            readable_file(import),
        ensures
            r is Some <==> self@.changes.len() > 0,
            r is Some ==> r->0.wf() && r->0@ == merged_loaded(self@, disk, import),
    {
        if self.changes.len() == 0 {
            return None;
        }
        Some(self.merged_with_disk(disk, import))
    }

    /// What is on disk with the changes of this run laid over it.
    pub fn merged_with_disk(&self, disk: Option<&Vec<u8>>, import: Option<&Vec<u8>>) -> (r: Merged)
        requires
            self.wf(),
            readable_file(disk),
            readable_file(import),
        ensures
            r.wf(),
            r@ == merged_loaded(self@, disk, import),
    {
        let mut m = load_disk(disk, import);
        let ghost first = m@;
        let mut i: usize = 0;
        while i < self.changes.len()
            invariant
                i <= self.changes@.len(),
                m.wf(),
                m@ == all_changed(first, change_texts(self.changes@), i as int),
            decreases self.changes.len() - i,
        {
            assert(change_texts(self.changes@)[i as int] == self.changes@[i as int]@);
            apply_change(&self.changes[i], &mut m.user, &mut m.okuri);
            i = i + 1;
        }
        m
    }

    /// Takes over what has been written to the user's file.
    pub fn write_user(&mut self, merged: Merged, stamp: Option<Stamp>)
        requires
            old(self).wf(),
            merged.wf(),
        ensures
            final(self).wf(),
            final(self)@ == (DictText {
                user: merged@,
                changes: seq![],
                user_stamp: stamp,
                ..old(self)@
            }),
    {
        self.user = merged.user;
        self.user_okuri = merged.okuri;
        self.changes = Vec::new();
        self.user_stamp = stamp;
        assert(change_texts(self.changes@) =~= seq![]);
    }

    /// Takes in what another process has written to the user's file, if its state differs
    /// from the one last seen. What this run has learned is laid over it.
    pub fn reload_user(&mut self, now: Option<Stamp>, disk: Option<&Vec<u8>>) -> (r: bool)
        requires
            old(self).wf(),
            readable_file(disk),
        ensures
            final(self).wf(),
            r == (now != old(self)@.user_stamp),
            !r ==> final(self)@ == old(self)@,
            r ==> final(self)@ == (DictText {
                user: merged_loaded(old(self)@, disk, None),
                user_stamp: now,
                ..old(self)@
            }),
    {
        if same_stamp(&now, &self.user_stamp) {
            return false;
        }
        let m = self.merged_with_disk(disk, None);
        self.user = m.user;
        self.user_okuri = m.okuri;
        self.user_stamp = now;
        true
    }

    /// The user's dictionary with that of another program behind it, and how many
    /// candidates that adds. Candidates that are there keep their places.
    pub fn import_user(
        &self,
        incoming: &Vec<u8>,
        disk: Option<&Vec<u8>>,
        import: Option<&Vec<u8>>,
    ) -> (r: (Merged, usize))
        requires
            self.wf(),
            readable(incoming@),
            readable_file(disk),
            readable_file(import),
        ensures
            r.0.wf(),
            r.0@ == imported(
                merged_loaded(self@, disk, import),
                text_loaded(nothing_loaded(), jisyo_text(incoming@)),
            ),
            r.1 == capped(
                added_count(
                    merged_loaded(self@, disk, import).words,
                    text_loaded(nothing_loaded(), jisyo_text(incoming@)).words,
                ),
            ),
    {
        let other = load_disk(Some(incoming), None);
        let mut m = self.merged_with_disk(disk, import);
        let n = import_words(&mut m.user, &other.user);
        import_okuri(&mut m.okuri, &other.okuri);
        (m, n)
    }
}

/// A reading that is all ASCII.
pub open spec fn ascii_only(s: Seq<char>) -> bool {
    forall|i: int| 0 <= i < s.len() ==> (#[trigger] s[i]) as u32 <= 0x7f
}

/// A reading that can be found by its beginning.
pub open spec fn findable(s: Seq<char>) -> bool {
    !okuri_ari(s) || ascii_only(s)
}

fn all_ascii(s: &str) -> (r: bool)
    ensures
        r == ascii_only(s@),
{
    let v = chars_of(s);
    let mut i: usize = 0;
    while i < v.len()
        invariant
            i <= v@.len(),
            v@ == s@,
            forall|j: int| 0 <= j < i ==> (#[trigger] s@[j]) as u32 <= 0x7f,
        decreases v.len() - i,
    {
        if v[i] as u32 > 0x7f {
            assert(s@[i as int] as u32 > 0x7f);
            return false;
        }
        i = i + 1;
    }
    true
}

/// The readings of `keys` without okurigana, in order.
fn sorted_plain(keys: &Vec<String>) -> (r: Vec<Vec<char>>)
    ensures
        ascending(false, spelled_out(r@)),
        forall|k: Seq<char>|
            #[trigger] spelled_out(r@).to_set().contains(k) <==> texts(keys@).contains(k)
                && !okuri_ari(k),
{
    let ghost ks = texts(keys@);
    let mut out: Vec<Vec<char>> = Vec::new();
    let mut i: usize = 0;
    proof {
        assert(spelled_out(out@) =~= seq![]);
        assert(ks.take(0) =~= seq![]);
    }
    while i < keys.len()
        invariant
            i <= keys@.len(),
            ks == texts(keys@),
            forall|x: Seq<char>|
                #[trigger] spelled_out(out@).contains(x) <==> ks.take(i as int).contains(x)
                    && !okuri_ari(x),
        decreases keys.len() - i,
    {
        let ghost had = spelled_out(out@);
        let ghost key = ks[i as int];
        proof {
            assert(key == keys@[i as int]@);
            lemma_take_next(ks, i as int);
        }
        if !is_okuri_ari(keys[i].as_str()) {
            out.push(chars_of(keys[i].as_str()));
            assert(spelled_out(out@) =~= had.push(key));
        }
        proof {
            assert forall|x: Seq<char>|
                #[trigger] spelled_out(out@).contains(x) <==> ks.take(i + 1).contains(x)
                    && !okuri_ari(x) by {
                crate::order::lemma_push_contains(ks.take(i as int), key, x);
                crate::order::lemma_push_contains(had, key, x);
                assert(had.contains(x) <==> ks.take(i as int).contains(x) && !okuri_ari(x));
            }
        }
        i = i + 1;
    }
    assert(ks.take(i as int) =~= ks);
    let r = sorted(false, &out);
    proof {
        assert forall|k: Seq<char>|
            #[trigger] spelled_out(r@).to_set().contains(k) <==> ks.contains(k) && !okuri_ari(k) by {
            assert(spelled_out(out@).to_set().contains(k) <==> spelled_out(out@).contains(k));
        }
    }
    r
}

/// The user's dictionary on disk.
fn load_disk(disk: Option<&Vec<u8>>, import: Option<&Vec<u8>>) -> (r: Merged)
    requires
        readable_file(disk),
        readable_file(import),
    ensures
        r.wf(),
        r@ == disk_loaded(disk, import),
{
    let mut user: Table<Vec<Candidate>> = Table::new(4096);
    let mut okuri: Table<OkuriBlocks> = Table::new(1024);
    proof {
        assert(words_of(user@) =~= Map::empty());
        assert(okuri_of(okuri@) =~= Map::empty());
    }
    match disk {
        Some(b) => {
            let text = decode_jisyo(b);
            load_into(&mut user, &mut okuri, text.as_str());
        },
        None => {
            match import {
                Some(b) => {
                    let text = decode_jisyo(b);
                    load_into(&mut user, &mut okuri, text.as_str());
                },
                None => {},
            }
        },
    }
    Merged { user, okuri }
}

/// A copy of a list of snippets.
fn copy_list(v: &Vec<Snippet>) -> (r: Vec<Snippet>)
    ensures
        snippet_texts(r@) == snippet_texts(v@),
{
    let mut out: Vec<Snippet> = Vec::new();
    let mut i: usize = 0;
    while i < v.len()
        invariant
            i <= v@.len(),
            snippet_texts(out@) =~= snippet_texts(v@).take(i as int),
        decreases v.len() - i,
    {
        let ghost had = snippet_texts(out@);
        let one = copy_snippet(&v[i]);
        out.push(one);
        i = i + 1;
        proof {
            lemma_take_next(snippet_texts(v@), i - 1);
            assert(snippet_texts(out@) =~= had.push(one@));
        }
    }
    assert(snippet_texts(v@).take(i as int) =~= snippet_texts(v@));
    out
}

/// Adds the candidates that snippets make.
fn add_snippets(words: &mut Table<Vec<Candidate>>, list: &Vec<Snippet>)
    requires
        old(words).wf(),
    ensures
        final(words).wf(),
        words_of(final(words)@) == snippets_added(
            words_of(old(words)@),
            snippet_texts(list@),
            list@.len() as int,
        ),
{
    let ghost first = words_of(words@);
    let ghost all = snippet_texts(list@);
    let mut i: usize = 0;
    while i < list.len()
        invariant
            i <= list@.len(),
            words.wf(),
            all == snippet_texts(list@),
            words_of(words@) == snippets_added(first, all, i as int),
        decreases list.len() - i,
    {
        let s = &list[i];
        let ghost w0 = words_of(words@);
        let ghost m0 = words@;
        assert(all[i as int] == s@);
        let mut v: Vec<Candidate> = match words.take(s.prefix.as_str()) {
            Some(v) => v,
            None => Vec::new(),
        };
        proof {
            if m0.dom().contains(s.prefix@) {
                assert(words_of(m0)[s.prefix@] == cand_texts(v@));
            } else {
                assert(cand_texts(v@) =~= seq![]);
            }
            assert(cand_texts(v@) == entry(w0, s.prefix@));
        }
        let ghost had = cand_texts(v@);
        if !find_cand(&v, s.body.as_str()) {
            let annotation: Option<String> = match &s.description {
                Some(d) => Some(d.clone()),
                None => None,
            };
            let c = Candidate { text: s.body.clone(), annotation };
            v.push(c);
            assert(cand_texts(v@) =~= had.push(c@));
        }
        words.put(s.prefix.clone(), v);
        assert(words_of(words@) =~= snippet_added(w0, s@));
        i = i + 1;
    }
}

/// A dictionary with another one behind it: candidates that are there keep their places.
pub open spec fn imported(base: Loaded, other: Loaded) -> Loaded {
    Loaded {
        words: Map::new(
            |k: Seq<char>| base.words.dom().contains(k) || other.words.dom().contains(k),
            |k: Seq<char>|
                if other.words.dom().contains(k) {
                    cands_added(entry(base.words, k), other.words[k])
                } else {
                    base.words[k]
                },
        ),
        okuri: Map::new(
            |k: Seq<char>| base.okuri.dom().contains(k) || other.okuri.dom().contains(k),
            |k: Seq<char>|
                if other.okuri.dom().contains(k) {
                    blocks_added(okuri_entry(base.okuri, k), other.okuri[k])
                } else {
                    base.okuri[k]
                },
        ),
    }
}

/// How many candidates the first `n` of the readings `keys` of `other` add.
pub open spec fn added_upto(base: Words, other: Words, keys: Seq<Seq<char>>, n: int) -> nat
    decreases n,
{
    if n <= 0 {
        0
    } else {
        let k = keys[n - 1];
        added_upto(base, other, keys, n - 1) + (cands_added(entry(base, k), other[k]).len()
            - entry(base, k).len()) as nat
    }
}

/// How many candidates another dictionary adds.
pub open spec fn added_count(base: Words, other: Words) -> nat {
    let keys = listed(false, other.dom());
    added_upto(base, other, keys, keys.len() as int)
}

/// A count, as far as it can be counted.
pub open spec fn capped(n: nat) -> nat {
    if n > usize::MAX {
        usize::MAX as nat
    } else {
        n
    }
}

proof fn lemma_cands_grow(v: Seq<CandText>, more: Seq<CandText>, n: int)
    ensures
        cands_added_upto(v, more, n).len() >= v.len(),
    decreases n,
{
    if n > 0 {
        lemma_cands_grow(v, more, n - 1);
    }
}

/// Adds the candidates of `other` behind those of `words` and counts what is new.
fn import_words(words: &mut Table<Vec<Candidate>>, other: &Table<Vec<Candidate>>) -> (n: usize)
    requires
        old(words).wf(),
        other.wf(),
    ensures
        final(words).wf(),
        n == capped(added_count(words_of(old(words)@), words_of(other@))),
        forall|o: Okuri, p: Okuri|
            #![trigger imported(
                Loaded { words: words_of(old(words)@), okuri: o },
                Loaded { words: words_of(other@), okuri: p },
            )]
            words_of(final(words)@) == imported(
                Loaded { words: words_of(old(words)@), okuri: o },
                Loaded { words: words_of(other@), okuri: p },
            ).words,
{
    let ghost base = words_of(words@);
    let ghost more = words_of(other@);
    let keys = other.sorted_keys(false);
    let ghost ks = texts(keys@);
    proof {
        assert(more.dom() =~= other@.dom());
        lemma_before(false);
        assert(ks.no_duplicates()) by {
            assert forall|i: int, j: int| 0 <= i < ks.len() && 0 <= j < ks.len() && i != j implies ks[i]
                != ks[j] by {
                if i < j {
                    assert(before(false, ks[i], ks[j]));
                } else {
                    assert(before(false, ks[j], ks[i]));
                }
            }
        }
    }
    let mut n: usize = 0;
    let mut i: usize = 0;
    assert(ks.take(0) =~= seq![]);
    while i < keys.len()
        invariant
            i <= keys@.len(),
            words.wf(),
            other.wf(),
            more == words_of(other@),
            ks == texts(keys@),
            ks.to_set() == other@.dom(),
            ks.no_duplicates(),
            n == capped(added_upto(base, more, ks, i as int)),
            forall|k: Seq<char>|
                #[trigger] words_of(words@).dom().contains(k) <==> base.dom().contains(k)
                    || ks.take(i as int).contains(k),
            forall|k: Seq<char>|
                #[trigger] words_of(words@).dom().contains(k) ==> words_of(words@)[k]
                    == if ks.take(i as int).contains(k) {
                    cands_added(entry(base, k), more[k])
                } else {
                    base[k]
                },
        decreases keys.len() - i,
    {
        let ghost key = ks[i as int];
        let ghost m0 = words@;
        let ghost w0 = words_of(words@);
        proof {
            assert(key == keys@[i as int]@);
            assert(ks.to_set().contains(key));
            lemma_take_next(ks, i as int);
            assert(!ks.take(i as int).contains(key));
        }
        let mut v: Vec<Candidate> = match words.take(keys[i].as_str()) {
            Some(v) => v,
            None => Vec::new(),
        };
        proof {
            assert(w0.dom().contains(key) <==> base.dom().contains(key) || ks.take(
                i as int,
            ).contains(key));
            if m0.dom().contains(key) {
                assert(w0.dom().contains(key));
                assert(w0[key] == cand_texts(v@));
            } else {
                assert(!w0.dom().contains(key));
                assert(cand_texts(v@) =~= seq![]);
            }
            assert(cand_texts(v@) == entry(base, key));
        }
        let had: usize = v.len();
        assert(cand_texts(v@).len() == had);
        match other.get(keys[i].as_str()) {
            Some(o) => {
                assert(more[key] == cand_texts(o@));
                add_cands(&mut v, o);
            },
            None => {},
        }
        proof {
            lemma_cands_grow(entry(base, key), more[key], more[key].len() as int);
            assert(cand_texts(v@).len() == v@.len());
        }
        let new: usize = v.len() - had;
        n = n.saturating_add(new);
        let ghost list = cand_texts(v@);
        words.put(keys[i].clone(), v);
        i = i + 1;
        proof {
            assert forall|k: Seq<char>|
                #[trigger] words_of(words@).dom().contains(k) <==> base.dom().contains(k)
                    || ks.take(i as int).contains(k) by {
                crate::order::lemma_push_contains(ks.take(i - 1), key, k);
                assert(w0.dom().contains(k) <==> base.dom().contains(k) || ks.take(i - 1).contains(
                    k,
                ));
            }
            assert forall|k: Seq<char>|
                #[trigger] words_of(words@).dom().contains(k) implies words_of(words@)[k]
                == if ks.take(i as int).contains(k) {
                cands_added(entry(base, k), more[k])
            } else {
                base[k]
            } by {
                crate::order::lemma_push_contains(ks.take(i - 1), key, k);
                if k == key {
                    assert(words_of(words@)[k] == list);
                } else {
                    assert(w0.dom().contains(k));
                    assert(words_of(words@)[k] == w0[k]);
                }
            }
        }
    }
    proof {
        assert(ks.take(i as int) =~= ks);
        assert forall|k: Seq<char>| ks.contains(k) <==> more.dom().contains(k) by {
            assert(ks.to_set().contains(k) <==> other@.dom().contains(k));
        }
        assert forall|o: Okuri, p: Okuri|
            #![trigger imported(
                Loaded { words: base, okuri: o },
                Loaded { words: more, okuri: p },
            )]
            words_of(words@) == imported(
                Loaded { words: base, okuri: o },
                Loaded { words: more, okuri: p },
            ).words by {
            assert(words_of(words@) =~= imported(
                Loaded { words: base, okuri: o },
                Loaded { words: more, okuri: p },
            ).words);
        }
    }
    n
}

/// Adds the okurigana of `other` behind those of `okuri`.
fn import_okuri(okuri: &mut Table<OkuriBlocks>, other: &Table<OkuriBlocks>)
    requires
        okuri_wf(old(okuri)),
        okuri_wf(other),
    ensures
        okuri_wf(final(okuri)),
        forall|w: Words, x: Words|
            #![trigger imported(
                Loaded { words: w, okuri: okuri_of(old(okuri)@) },
                Loaded { words: x, okuri: okuri_of(other@) },
            )]
            okuri_of(final(okuri)@) == imported(
                Loaded { words: w, okuri: okuri_of(old(okuri)@) },
                Loaded { words: x, okuri: okuri_of(other@) },
            ).okuri,
{
    let ghost base = okuri_of(okuri@);
    let ghost more = okuri_of(other@);
    let keys = other.keys();
    let ghost ks = texts(keys@);
    let mut i: usize = 0;
    assert(ks.take(0) =~= seq![]);
    while i < keys.len()
        invariant
            i <= keys@.len(),
            okuri_wf(okuri),
            okuri_wf(other),
            more == okuri_of(other@),
            ks == texts(keys@),
            ks.to_set() == other@.dom(),
            ks.no_duplicates(),
            forall|k: Seq<char>|
                #[trigger] okuri_of(okuri@).dom().contains(k) <==> base.dom().contains(k)
                    || ks.take(i as int).contains(k),
            forall|k: Seq<char>|
                #[trigger] okuri_of(okuri@).dom().contains(k) ==> okuri_of(okuri@)[k]
                    == if ks.take(i as int).contains(k) {
                    blocks_added(okuri_entry(base, k), more[k])
                } else {
                    base[k]
                },
        decreases keys.len() - i,
    {
        let ghost key = ks[i as int];
        let ghost m0 = okuri@;
        let ghost w0 = okuri_of(okuri@);
        proof {
            assert(key == keys@[i as int]@);
            assert(ks.to_set().contains(key));
            lemma_take_next(ks, i as int);
            assert(!ks.take(i as int).contains(key));
        }
        let mut b: OkuriBlocks = match okuri.take(keys[i].as_str()) {
            Some(b) => b,
            None => Table::new(4),
        };
        let ghost m1 = okuri@;
        proof {
            assert(w0.dom().contains(key) <==> base.dom().contains(key) || ks.take(
                i as int,
            ).contains(key));
            if m0.dom().contains(key) {
                assert(w0.dom().contains(key));
                assert(w0[key] == blocks_of(b@));
            } else {
                assert(!w0.dom().contains(key));
                assert(blocks_of(b@) =~= Map::empty());
            }
            assert(blocks_of(b@) == okuri_entry(base, key));
        }
        match other.get(keys[i].as_str()) {
            Some(o) => {
                assert(more[key] == blocks_of(o@));
                add_blocks(&mut b, o);
            },
            None => {},
        }
        let ghost list = blocks_of(b@);
        okuri.put(keys[i].clone(), b);
        i = i + 1;
        proof {
            assert forall|k: Seq<char>| okuri@.dom().contains(k) implies (
            #[trigger] okuri@[k]).wf() by {
                if k != key {
                    assert(m1.dom().contains(k));
                    assert(m0.dom().contains(k));
                    assert(okuri@[k] == m0[k]);
                }
            }
            assert forall|k: Seq<char>|
                #[trigger] okuri_of(okuri@).dom().contains(k) <==> base.dom().contains(k)
                    || ks.take(i as int).contains(k) by {
                crate::order::lemma_push_contains(ks.take(i - 1), key, k);
                assert(w0.dom().contains(k) <==> base.dom().contains(k) || ks.take(i - 1).contains(
                    k,
                ));
            }
            assert forall|k: Seq<char>|
                #[trigger] okuri_of(okuri@).dom().contains(k) implies okuri_of(okuri@)[k]
                == if ks.take(i as int).contains(k) {
                blocks_added(okuri_entry(base, k), more[k])
            } else {
                base[k]
            } by {
                crate::order::lemma_push_contains(ks.take(i - 1), key, k);
                if k == key {
                    assert(okuri_of(okuri@)[k] == list);
                } else {
                    assert(w0.dom().contains(k));
                    assert(okuri_of(okuri@)[k] == w0[k]);
                }
            }
        }
    }
    proof {
        assert(ks.take(i as int) =~= ks);
        assert forall|k: Seq<char>| ks.contains(k) <==> more.dom().contains(k) by {
            assert(ks.to_set().contains(k) <==> other@.dom().contains(k));
        }
        assert forall|w: Words, x: Words|
            #![trigger imported(
                Loaded { words: w, okuri: base },
                Loaded { words: x, okuri: more },
            )]
            okuri_of(okuri@) == imported(
                Loaded { words: w, okuri: base },
                Loaded { words: x, okuri: more },
            ).okuri by {
            assert(okuri_of(okuri@) =~= imported(
                Loaded { words: w, okuri: base },
                Loaded { words: x, okuri: more },
            ).okuri);
        }
    }
}

} // verus!
