//! Snippets: texts that are tedious to type and always the same, kept as candidates.
//!
//! The files have the shape of editor snippets (`*.code-snippets`): an object of named
//! entries, each with a `prefix` (the reading), a `body` (the candidate) and perhaps a
//! `description` (the annotation). `prefix` and `body` may be a string or a list of
//! strings: several readings, or the lines of one candidate. Comments and trailing commas
//! are allowed.
use vstd::prelude::*;
use vstd::string::*;
use crate::appending::lemma_appended;
use crate::jsonc::{ended, find_solid_end, plain_json, solid_end, strip_jsonc, uncommented, Lex};
use crate::names::{doc_names, item_in, lemma_item_at, named_once, names_text};
use crate::num::{digit_run, lemma_digit_run};
use crate::order::precedes;
use crate::text::{
    chars_of, decimal, digit, find_char, find_last, first_at, is_digit, is_letter, join, join_texts,
    joined, last_at, lemma_first_at, lemma_skip_next, lemma_take_next, letter, number_text, occurs,
    occurs_in, opt_text, pad_zeros, replace_char, replaced, shifted, slice_text, split, split_text,
    swap, texts, trim, trim_end, trimmed_end, trimmed_start, whitespace, zero_padded,
};

verus! {

/// One snippet under one reading.
#[derive(Clone, Debug, PartialEq, Eq)]
pub struct Snippet {
    /// The reading.
    pub prefix: String,
    /// The candidate; its lines are joined by line feeds.
    pub body: String,
    /// The annotation.
    pub description: Option<String>,
}

/// What a snippet holds.
pub struct SnippetText {
    pub prefix: Seq<char>,
    pub body: Seq<char>,
    pub description: Option<Seq<char>>,
}

impl View for Snippet {
    type V = SnippetText;

    open spec fn view(&self) -> SnippetText {
        SnippetText {
            prefix: self.prefix@,
            body: self.body@,
            description: opt_text(self.description),
        }
    }
}

/// What a list of snippets holds.
pub open spec fn snippet_texts(v: Seq<Snippet>) -> Seq<SnippetText> {
    v.map_values(|s: Snippet| s@)
}

/// Why a snippet file could not be read.
#[derive(Clone, Debug, PartialEq, Eq)]
pub enum SnippetError {
    /// It is no JSON; the parser's own words are kept.
    NotJson(String),
    /// Its outermost value is no object.
    NotObject,
}

impl SnippetError {
    /// The message to show.
    pub fn message(&self) -> (r: String)
        ensures
            self is NotJson ==> r@ == "スニペットの書式が JSON として読めない"@,
            self is NotObject ==> r@
                == "スニペットの最も外側は { } でなければならない"@,
    {
        match self {
            SnippetError::NotJson(_) => {
                "スニペットの書式が JSON として読めない".to_owned()
            },
            SnippetError::NotObject => {
                "スニペットの最も外側は { } でなければならない".to_owned()
            },
        }
    }
}

/// The value of a field, as far as snippets care: a string, a list of which only the
/// strings are kept, or something else.
#[derive(Clone, Debug)]
pub enum Leaf {
    Text(String),
    List(Vec<Option<String>>),
    Other,
}

/// What a field holds.
pub enum LeafText {
    Text(Seq<char>),
    List(Seq<Option<Seq<char>>>),
    Other,
}

impl View for Leaf {
    type V = LeafText;

    open spec fn view(&self) -> LeafText {
        match self {
            Leaf::Text(s) => LeafText::Text(s@),
            Leaf::List(l) => LeafText::List(l@.map_values(|o: Option<String>| opt_text(o))),
            Leaf::Other => LeafText::Other,
        }
    }
}

/// The fields of an entry, by name.
pub type Fields = Vec<(String, Leaf)>;

/// A named entry; what is no object has no fields.
pub type Entry = (String, Option<Fields>);

/// What the fields of an entry hold.
pub type FieldTexts = Seq<(Seq<char>, LeafText)>;

pub open spec fn field_texts(f: Seq<(String, Leaf)>) -> FieldTexts {
    f.map_values(|p: (String, Leaf)| (p.0@, p.1@))
}

pub open spec fn entry_text(e: Entry) -> (Seq<char>, Option<FieldTexts>) {
    (
        e.0@,
        match e.1 {
            Some(f) => Some(field_texts(f@)),
            None => None,
        },
    )
}

/// What the entries of a file hold, in the order of their names.
pub type Shape = Option<Seq<(Seq<char>, Option<FieldTexts>)>>;

pub open spec fn shape_of(r: Option<Vec<Entry>>) -> Shape {
    match r {
        Some(v) => Some(v@.map_values(|e: Entry| entry_text(e))),
        None => None,
    }
}

/// A JSON document.
#[verifier::external_type_specification]
#[verifier::external_body]
pub struct ExJson(serde_json::Value);

/// What a JSON document holds, as far as snippets care: no entries where its outermost
/// value is no object. Values below the fields of an entry are told apart only as far as
/// strings and lists of strings go.
pub uninterp spec fn json_doc(v: serde_json::Value) -> Shape;

/// What a JSON text says; nothing where it is no JSON.
pub uninterp spec fn json_shape(text: Seq<char>) -> Option<Shape>;

/// Characters that may stand in a JSON string, bare or escaped by a backslash: no control
/// characters.
pub open spec fn bare(s: Seq<char>) -> bool {
    forall|i: int| 0 <= i < s.len() ==> ' ' <= #[trigger] s[i]
}

/// An empty entry as a member of a JSON object.
pub open spec fn member_text(name: Seq<char>, prefix: Seq<char>) -> Seq<char> {
    "\n    \""@ + escaped(name) + "\": {\n        \"prefix\": \""@ + escaped(prefix)
        + "\",\n        \"body\": [\"\"],\n        \"description\": \"\"\n    } \n"@
}

/// Whether every character of a text is one of another text.
pub open spec fn made_of(s: Seq<char>, x: Seq<char>) -> bool {
    forall|i: int| 0 <= i < s.len() ==> x.contains(#[trigger] s[i])
}

/// What stands between the last member of an object and the next one: a comma, unless there
/// is no member yet.
pub open spec fn separator(head: Seq<char>) -> Seq<char> {
    if head.len() == 0 || head.last() == '{' {
        seq![]
    } else {
        ","@
    }
}

/// The parts of an object with a member more. `head` goes up to the end of the last member,
/// and `x` is the white space before the bracket that closes the object; with the new member,
/// `y` and `z` are the white space around the separator, with no other characters than `x`.
pub open spec fn extended_by(
    old: Seq<char>,
    text: Seq<char>,
    member: Seq<char>,
    head: Seq<char>,
    x: Seq<char>,
    y: Seq<char>,
    z: Seq<char>,
    tail: Seq<char>,
) -> bool {
    &&& old == head + x + seq!['}'] + tail
    &&& text == head + y + separator(head) + z + member + seq!['}'] + tail
    &&& head.len() > 0 ==> !whitespace(head.last())
    &&& forall|i: int| 0 <= i < x.len() ==> whitespace(#[trigger] x[i])
    &&& made_of(y, x)
    &&& made_of(z, x)
    &&& !tail.contains('}')
}

/// Whether a text is that of an object with a member more at its end.
pub open spec fn extended(old: Seq<char>, text: Seq<char>, member: Seq<char>) -> bool {
    exists|head: Seq<char>, x: Seq<char>, y: Seq<char>, z: Seq<char>, tail: Seq<char>|
        extended_by(old, text, member, head, x, y, z, tail)
}

/// Whether an entry has a name already.
pub open spec fn has_entry(v: Seq<(Seq<char>, Option<FieldTexts>)>, name: Seq<char>) -> bool {
    exists|i: int| 0 <= i < v.len() && (#[trigger] v[i]).0 == name
}

/// Whether entries are those of `v` and an empty one called `name`.
pub open spec fn one_more(
    now: Seq<(Seq<char>, Option<FieldTexts>)>,
    v: Seq<(Seq<char>, Option<FieldTexts>)>,
    name: Seq<char>,
) -> bool {
    exists|i: int, f: FieldTexts|
        0 <= i <= v.len() && now == #[trigger] v.insert(i, (name, Some(f))) && field(f, "body"@)
            == LeafText::List(seq![Some(Seq::<char>::empty())])
}

/// `serde_json::from_str` into a `serde_json::Value`: whether it succeeds and what the
/// document then holds depends on the text alone. The parser's message is passed on.
///
/// JSON puts a comma between the members of an object and allows white space around it. So
/// where a text is that of an object with an empty entry more at its end, under a name that
/// the object does not have yet, it is read as the entries of that object and the new one.
#[verifier::external_body]
fn read_json(text: &str) -> (r: Result<serde_json::Value, String>)
    ensures
        match r {
            Ok(v) => json_shape(text@) == Some(json_doc(v)),
            Err(_) => json_shape(text@) is None,
        },
        forall|old: Seq<char>, name: Seq<char>, prefix: Seq<char>|
            #![trigger extended(old, text@, member_text(name, prefix))]
            extended(old, text@, member_text(name, prefix)) && bare(name) && bare(prefix) ==> (
            json_shape(old) matches Some(Some(v)) ==> !has_entry(v, name) ==> {
                &&& r is Ok
                &&& json_doc(r->Ok_0) is Some
                &&& one_more(json_doc(r->Ok_0)->0, v, name)
            }),
{
    serde_json::from_str(text).map_err(|e| e.to_string())
}

/// `serde_json::Value::as_object` and the keys of the objects: the names of the entries and
/// of their fields. An object names nothing twice.
#[verifier::external_body]
fn json_names(v: &serde_json::Value) -> (r: Option<Vec<(String, Option<Vec<String>>)>>)
    ensures
        match json_doc(*v) {
            Some(doc) => {
                &&& r is Some
                &&& names_text(r->0@) == doc_names(doc)
                &&& named_once(names_text(r->0@))
            },
            None => r is None,
        },
{
    let keys = |o: &serde_json::Map<String, serde_json::Value>| o.keys().cloned().collect();
    let entries = v.as_object()?.iter();
    Some(entries.map(|(k, e)| (k.clone(), e.as_object().map(keys))).collect())
}

/// The field of an entry, if there is one.
pub open spec fn field_in(doc: Shape, entry: Seq<char>, name: Seq<char>) -> Option<LeafText> {
    match doc {
        Some(d) => item_in(d, entry, name),
        None => None,
    }
}

/// `serde_json::Value::as_str` on a field of an entry.
#[verifier::external_body]
fn json_text(v: &serde_json::Value, entry: &str, name: &str) -> (r: Option<String>)
    ensures
        match field_in(json_doc(*v), entry@, name@) {
            Some(LeafText::Text(t)) => r is Some && r->0@ == t,
            _ => r is None,
        },
{
    v.get(entry)?.get(name)?.as_str().map(String::from)
}

/// `serde_json::Value::as_array` on a field of an entry, and `as_str` on what it lists.
#[verifier::external_body]
fn json_list(v: &serde_json::Value, entry: &str, name: &str) -> (r: Option<Vec<Option<String>>>)
    ensures
        match field_in(json_doc(*v), entry@, name@) {
            Some(LeafText::List(l)) => r is Some && r->0@.map_values(
                |o: Option<String>| opt_text(o),
            ) == l,
            _ => r is None,
        },
{
    let list = v.get(entry)?.get(name)?.as_array()?;
    Some(list.iter().map(|x| x.as_str().map(String::from)).collect())
}

/// A field of a JSON document.
fn leaf_of(v: &serde_json::Value, entry: &str, name: &str) -> (r: Leaf)
    ensures
        match field_in(json_doc(*v), entry@, name@) {
            Some(l) => r@ == l,
            None => r is Other,
        },
{
    if let Some(t) = json_text(v, entry, name) {
        return Leaf::Text(t);
    }
    if let Some(l) = json_list(v, entry, name) {
        return Leaf::List(l);
    }
    Leaf::Other
}

/// The fields of one entry of a JSON document, by their names.
fn fields_of(
    v: &serde_json::Value,
    entry: &str,
    names: &Vec<String>,
    Ghost(doc): Ghost<Seq<(Seq<char>, Option<FieldTexts>)>>,
    Ghost(i): Ghost<int>,
) -> (r: Fields)
    requires
        json_doc(*v) == Some(doc),
        named_once(doc_names(doc)),
        0 <= i < doc.len(),
        entry@ == doc[i].0,
        doc[i].1 is Some,
        texts(names@) == (doc[i].1->0).map_values(|p: (Seq<char>, LeafText)| p.0),
    ensures
        field_texts(r@) == doc[i].1->0,
{
    let mut out: Fields = Vec::new();
    let ghost all = doc[i].1->0;
    assert(all.len() == texts(names@).len());
    let mut j: usize = 0;
    while j < names.len()
        invariant
            j <= names@.len(),
            0 <= i < doc.len(),
            json_doc(*v) == Some(doc),
            named_once(doc_names(doc)),
            entry@ == doc[i].0,
            doc[i].1 == Some(all),
            all.len() == names@.len(),
            texts(names@) == all.map_values(|p: (Seq<char>, LeafText)| p.0),
            field_texts(out@) =~= all.take(j as int),
        decreases names.len() - j,
    {
        let ghost before = field_texts(out@);
        assert(texts(names@)[j as int] == all[j as int].0);
        proof {
            lemma_item_at(doc, i, j as int);
        }
        let leaf = leaf_of(v, entry, names[j].as_str());
        let field = (names[j].clone(), leaf);
        out.push(field);
        proof {
            lemma_take_next(all, j as int);
            assert(field_texts(out@) =~= before.push((field.0@, field.1@)));
        }
        j = j + 1;
    }
    assert(all.take(j as int) =~= all);
    out
}

/// The entries of a JSON document.
fn entries_of(v: &serde_json::Value) -> (r: Option<Vec<Entry>>)
    ensures
        shape_of(r) == json_doc(*v),
{
    let names = match json_names(v) {
        Some(names) => names,
        None => {
            return None;
        },
    };
    let ghost doc = json_doc(*v)->0;
    let ghost ns = names_text(names@);
    let mut out: Vec<Entry> = Vec::new();
    let mut i: usize = 0;
    assert(ns.len() == doc.len());
    while i < names.len()
        invariant
            i <= names@.len(),
            json_doc(*v) == Some(doc),
            ns == names_text(names@),
            ns == doc_names(doc),
            ns.len() == doc.len(),
            named_once(ns),
            out@.map_values(|e: Entry| entry_text(e)) =~= doc.take(i as int),
        decreases names.len() - i,
    {
        let ghost had = out@.map_values(|e: Entry| entry_text(e));
        assert(ns[i as int].0 == names@[i as int].0@);
        assert(doc_names(doc)[i as int].0 == doc[i as int].0);
        let name = names[i].0.clone();
        let fields: Option<Fields> = match &names[i].1 {
            None => {
                assert(doc_names(doc)[i as int].1 is None);
                None
            },
            Some(list) => {
                assert(doc_names(doc)[i as int].1 == Some(texts(list@)));
                Some(fields_of(v, name.as_str(), list, Ghost(doc), Ghost(i as int)))
            },
        };
        let e: Entry = (name, fields);
        out.push(e);
        proof {
            lemma_take_next(doc, i as int);
            assert(entry_text(e) == doc[i as int]);
            assert(out@.map_values(|e: Entry| entry_text(e)) =~= had.push(entry_text(e)));
        }
        i = i + 1;
    }
    assert(doc.take(i as int) =~= doc);
    Some(out)
}

/// The strings of a field.
pub open spec fn leaf_strings(l: LeafText) -> Seq<Seq<char>> {
    match l {
        LeafText::Text(s) => seq![s],
        LeafText::List(v) => present(v),
        LeafText::Other => seq![],
    }
}

/// The texts of a list that are there.
pub open spec fn present(v: Seq<Option<Seq<char>>>) -> Seq<Seq<char>>
    decreases v.len(),
{
    if v.len() == 0 {
        seq![]
    } else {
        match v.last() {
            Some(s) => present(v.drop_last()).push(s),
            None => present(v.drop_last()),
        }
    }
}

/// The field called `name`, from the field `i` on.
pub open spec fn field_from(f: FieldTexts, name: Seq<char>, i: int) -> LeafText
    decreases f.len() - i,
{
    if i < 0 || i >= f.len() {
        LeafText::Other
    } else if f[i].0 == name {
        f[i].1
    } else {
        field_from(f, name, i + 1)
    }
}

/// The field called `name`; a missing field says nothing.
pub open spec fn field(f: FieldTexts, name: Seq<char>) -> LeafText {
    field_from(f, name, 0)
}

/// The annotation of an entry: its description, or else its name.
pub open spec fn note_of(name: Seq<char>, f: FieldTexts) -> Option<Seq<char>> {
    match field(f, "description"@) {
        LeafText::Text(s) => Some(s),
        _ => if name.len() > 0 {
            Some(name)
        } else {
            None
        },
    }
}

/// The snippets of one entry: one for each of its readings, none if it has no body.
pub open spec fn entry_snippets(e: (Seq<char>, Option<FieldTexts>)) -> Seq<SnippetText> {
    match e.1 {
        None => seq![],
        Some(f) => {
            let prefixes = leaf_strings(field(f, "prefix"@));
            let body = join(leaf_strings(field(f, "body"@)), "\n"@);
            if body.len() == 0 {
                seq![]
            } else {
                prefixes.map_values(
                    |p: Seq<char>| SnippetText { prefix: p, body, description: note_of(e.0, f) },
                )
            }
        },
    }
}

/// The snippets of the first `n` entries.
pub open spec fn all_snippets(
    v: Seq<(Seq<char>, Option<FieldTexts>)>,
    n: int,
) -> Seq<SnippetText>
    decreases n,
{
    if n <= 0 {
        seq![]
    } else {
        all_snippets(v, n - 1) + entry_snippets(v[n - 1])
    }
}

/// Where a snippet called `prefix` goes in a list sorted by reading: after its equals.
pub open spec fn place_in(v: Seq<SnippetText>, prefix: Seq<char>) -> int
    decreases v.len(),
{
    if v.len() == 0 || !precedes(prefix, v.last().prefix) {
        v.len() as int
    } else {
        place_in(v.drop_last(), prefix)
    }
}

/// The first `n` snippets sorted by reading; equals keep their order.
pub open spec fn by_prefix(v: Seq<SnippetText>, n: int) -> Seq<SnippetText>
    decreases n,
{
    if n <= 0 {
        seq![]
    } else {
        let before = by_prefix(v, n - 1);
        before.insert(place_in(before, v[n - 1].prefix), v[n - 1])
    }
}

/// The snippets of the entries of a file.
pub open spec fn shape_snippets(v: Seq<(Seq<char>, Option<FieldTexts>)>) -> Seq<SnippetText> {
    let all = all_snippets(v, v.len() as int);
    by_prefix(all, all.len() as int)
}

proof fn lemma_place_range(v: Seq<SnippetText>, prefix: Seq<char>)
    ensures
        0 <= place_in(v, prefix) <= v.len(),
    decreases v.len(),
{
    if v.len() > 0 && precedes(prefix, v.last().prefix) {
        lemma_place_range(v.drop_last(), prefix);
    }
}

/// Sorting neither loses nor makes snippets.
pub proof fn law_sorting_keeps_the_snippets(v: Seq<SnippetText>, n: int)
    requires
        0 <= n <= v.len(),
    ensures
        by_prefix(v, n).to_multiset() == v.take(n).to_multiset(),
    decreases n,
{
    broadcast use vstd::seq_lib::to_multiset_insert, vstd::seq_lib::to_multiset_build;

    if n > 0 {
        law_sorting_keeps_the_snippets(v, n - 1);
        let before = by_prefix(v, n - 1);
        let at = place_in(before, v[n - 1].prefix);
        lemma_place_range(before, v[n - 1].prefix);
        lemma_take_next(v, n - 1);
        assert(before.insert(at, v[n - 1]).to_multiset() =~= before.to_multiset().insert(v[n - 1]));
        assert(v.take(n).to_multiset() =~= v.take(n - 1).to_multiset().insert(v[n - 1]));
    } else {
        assert(v.take(0) =~= seq![]);
    }
}

/// The texts of the strings of a field.
fn strings(leaf: &Leaf) -> (r: Vec<String>)
    ensures
        texts(r@) == leaf_strings(leaf@),
{
    let mut out: Vec<String> = Vec::new();
    match leaf {
        Leaf::Text(s) => {
            out.push(s.clone());
            assert(texts(out@) =~= seq![s@]);
        },
        Leaf::List(l) => {
            let ghost all = l@.map_values(|o: Option<String>| opt_text(o));
            assert(texts(out@) =~= seq![]);
            let mut i: usize = 0;
            while i < l.len()
                invariant
                    i <= l@.len(),
                    all == l@.map_values(|o: Option<String>| opt_text(o)),
                    texts(out@) == present(all.take(i as int)),
                decreases l.len() - i,
            {
                let ghost before = texts(out@);
                proof {
                    lemma_take_next(all, i as int);
                }
                match &l[i] {
                    Some(s) => {
                        out.push(s.clone());
                        assert(texts(out@) =~= before.push(s@));
                    },
                    None => {},
                }
                i = i + 1;
            }
            assert(all.take(i as int) =~= all);
        },
        Leaf::Other => {
            assert(texts(out@) =~= seq![]);
        },
    }
    out
}

/// The field called `name`.
fn find_field<'a>(f: &'a Fields, name: &str) -> (r: Option<&'a Leaf>)
    ensures
        match r {
            Some(l) => field(field_texts(f@), name@) == l@,
            None => field(field_texts(f@), name@) == LeafText::Other,
        },
{
    let ghost all = field_texts(f@);
    let mut i: usize = 0;
    while i < f.len()
        invariant
            i <= f@.len(),
            all == field_texts(f@),
            field(all, name@) == field_from(all, name@, i as int),
        decreases f.len() - i,
    {
        assert(all[i as int] == (f@[i as int].0@, f@[i as int].1@));
        if *f[i].0.as_str() == *name {
            return Some(&f[i].1);
        }
        i = i + 1;
    }
    None
}

/// The strings of the field called `name`.
fn field_strings(f: &Fields, name: &str) -> (r: Vec<String>)
    ensures
        texts(r@) == leaf_strings(field(field_texts(f@), name@)),
{
    match find_field(f, name) {
        Some(l) => strings(l),
        None => {
            let out: Vec<String> = Vec::new();
            assert(texts(out@) =~= seq![]);
            out
        },
    }
}

/// Adds the snippets of one entry to `out`.
fn push_entry(out: &mut Vec<Snippet>, e: &Entry)
    ensures
        snippet_texts(final(out)@) == snippet_texts(old(out)@) + entry_snippets(entry_text(*e)),
{
    let ghost before = snippet_texts(out@);
    match &e.1 {
        None => {
            assert(snippet_texts(out@) =~= before + seq![]);
        },
        Some(f) => {
            let prefixes = field_strings(f, "prefix");
            let lines = field_strings(f, "body");
            let body = join_texts(&lines, "\n");
            if body.as_str().is_empty() {
                assert(snippet_texts(out@) =~= before + seq![]);
                return;
            }
            let description: Option<String> = match find_field(f, "description") {
                Some(Leaf::Text(s)) => Some(s.clone()),
                _ => {
                    if e.0.as_str().is_empty() {
                        None
                    } else {
                        Some(e.0.clone())
                    }
                },
            };
            let ghost added = entry_snippets(entry_text(*e));
            let ghost note = note_of(e.0@, field_texts(f@));
            assert(opt_text(description) == note);
            let mut i: usize = 0;
            assert(snippet_texts(out@) =~= before + added.take(0));
            while i < prefixes.len()
                invariant
                    i <= prefixes@.len(),
                    added.len() == prefixes@.len(),
                    forall|j: int|
                        0 <= j < added.len() ==> #[trigger] added[j] == (SnippetText {
                            prefix: texts(prefixes@)[j],
                            body: body@,
                            description: note,
                        }),
                    opt_text(description) == note,
                    snippet_texts(out@) == before + added.take(i as int),
                decreases prefixes.len() - i,
            {
                let d: Option<String> = match &description {
                    Some(s) => Some(s.clone()),
                    None => None,
                };
                let ghost have = snippet_texts(out@);
                let s = Snippet {
                    prefix: prefixes[i].clone(),
                    body: body.clone(),
                    description: d,
                };
                out.push(s);
                i = i + 1;
                proof {
                    lemma_take_next(added, i - 1);
                    assert(s@ == added[i - 1]);
                    assert(snippet_texts(out@) =~= have.push(s@));
                    assert(snippet_texts(out@) =~= before + added.take(i as int));
                }
            }
            assert(added.take(i as int) =~= added);
        },
    }
}

/// The snippets that the entries of a file define, sorted by reading.
pub fn snippets_of(entries: Option<Vec<Entry>>) -> (r: Result<Vec<Snippet>, SnippetError>)
    ensures
        match shape_of(entries) {
            Some(v) => r is Ok && snippet_texts(r->Ok_0@) == shape_snippets(v),
            None => r == Err::<Vec<Snippet>, SnippetError>(SnippetError::NotObject),
        },
{
    let table = match entries {
        Some(v) => v,
        None => {
            return Err(SnippetError::NotObject);
        },
    };
    let ghost shape = table@.map_values(|e: Entry| entry_text(e));
    let mut all: Vec<Snippet> = Vec::new();
    let mut i: usize = 0;
    assert(snippet_texts(all@) =~= seq![]);
    while i < table.len()
        invariant
            i <= table@.len(),
            shape == table@.map_values(|e: Entry| entry_text(e)),
            snippet_texts(all@) == all_snippets(shape, i as int),
        decreases table.len() - i,
    {
        push_entry(&mut all, &table[i]);
        i = i + 1;
    }
    let ghost found = snippet_texts(all@);
    let mut out: Vec<Snippet> = Vec::new();
    let mut i: usize = 0;
    assert(snippet_texts(out@) =~= seq![]);
    while i < all.len()
        invariant
            i <= all@.len(),
            found == snippet_texts(all@),
            snippet_texts(out@) == by_prefix(found, i as int),
        decreases all.len() - i,
    {
        let s = copy_snippet(&all[i]);
        let ghost have = snippet_texts(out@);
        let key = chars_of(s.prefix.as_str());
        let mut at: usize = out.len();
        assert(have.take(at as int) =~= have);
        loop
            invariant
                at <= out@.len(),
                have == snippet_texts(out@),
                place_in(have, key@) == place_in(have.take(at as int), key@),
            ensures
                at <= out@.len(),
                place_in(have, key@) == at,
            decreases at,
        {
            if at == 0 {
                break;
            }
            let other = chars_of(out[at - 1].prefix.as_str());
            proof {
                lemma_take_next(have, at - 1);
                assert(have[at - 1].prefix == other@);
            }
            if !crate::order::is_before(false, &key, &other) {
                break;
            }
            at = at - 1;
        }
        out.insert(at, s);
        proof {
            assert(s@ == found[i as int]);
            assert(snippet_texts(out@) =~= have.insert(at as int, s@));
        }
        i = i + 1;
    }
    Ok(out)
}

pub(crate) fn copy_snippet(s: &Snippet) -> (r: Snippet)
    ensures
        r@ == s@,
{
    let description: Option<String> = match &s.description {
        Some(d) => Some(d.clone()),
        None => None,
    };
    Snippet { prefix: s.prefix.clone(), body: s.body.clone(), description }
}

/// Reads the snippets of a file, sorted by reading. A file to which an empty entry was added
/// is read as it was before: no entry is lost or broken.
pub fn parse(text: &str) -> (r: Result<Vec<Snippet>, SnippetError>)
    ensures
        match json_shape(plain_json(text@)) {
            Some(Some(v)) => r is Ok && snippet_texts(r->Ok_0@) == shape_snippets(v),
            Some(None) => r == Err::<Vec<Snippet>, SnippetError>(SnippetError::NotObject),
            None => r is Err && r->Err_0 is NotJson,
        },
        forall|before: Seq<char>, prefix: Seq<char>|
            text@ == (#[trigger] template_added(before, prefix)).0 && appendable(before, prefix)
                ==> (json_shape(plain_json(template_base(before))) matches Some(Some(v))
                ==> !has_entry(v, fresh_name(template_base(before), prefix)) ==> r is Ok
                && snippet_texts(r->Ok_0@) == shape_snippets(v)),
{
    let json = strip_jsonc(text);
    let doc = read_json(json.as_str());
    proof {
        assert forall|before: Seq<char>, prefix: Seq<char>|
            text@ == (#[trigger] template_added(before, prefix)).0 && appendable(
                before,
                prefix,
            ) implies (json_shape(plain_json(template_base(before))) matches Some(Some(v))
            ==> !has_entry(v, fresh_name(template_base(before), prefix)) ==> {
            &&& doc is Ok
            &&& json_doc(doc->Ok_0) is Some
            &&& shape_snippets(json_doc(doc->Ok_0)->0) == shape_snippets(v)
        }) by {
            let base = template_base(before);
            let name = fresh_name(base, prefix);
            lemma_appended(before, prefix);
            assert(extended(plain_json(base), json@, member_text(name, prefix)));
            if let Some(Some(v)) = json_shape(plain_json(base)) {
                if !has_entry(v, name) {
                    lemma_one_more(json_doc(doc->Ok_0)->0, v, name);
                }
            }
        }
    }
    match doc {
        Ok(doc) => snippets_of(entries_of(&doc)),
        Err(e) => Err(SnippetError::NotJson(e)),
    }
}

proof fn lemma_insert_empty(
    v: Seq<(Seq<char>, Option<FieldTexts>)>,
    i: int,
    e: (Seq<char>, Option<FieldTexts>),
    n: int,
)
    requires
        0 <= i <= v.len(),
        0 <= n <= v.len(),
        entry_snippets(e) == Seq::<SnippetText>::empty(),
    ensures
        n < i ==> all_snippets(v.insert(i, e), n) == all_snippets(v, n),
        n >= i ==> all_snippets(v.insert(i, e), n + 1) == all_snippets(v, n),
    decreases n,
{
    let w = v.insert(i, e);
    if n > 0 {
        lemma_insert_empty(v, i, e, n - 1);
        if n < i {
            assert(w[n - 1] == v[n - 1]);
        } else if n == i {
            assert(w[n - 1] == v[n - 1]);
            assert(w[n] == e);
            assert(all_snippets(w, n + 1) =~= all_snippets(w, n));
        } else {
            assert(w[n] == v[n - 1]);
        }
    } else if i == 0 {
        assert(w[0] == e);
        assert(all_snippets(w, 1) =~= all_snippets(w, 0));
    }
}

/// An empty entry adds no snippet.
proof fn lemma_one_more(
    now: Seq<(Seq<char>, Option<FieldTexts>)>,
    v: Seq<(Seq<char>, Option<FieldTexts>)>,
    name: Seq<char>,
)
    requires
        one_more(now, v, name),
    ensures
        shape_snippets(now) == shape_snippets(v),
{
    let (i, f) = choose|i: int, f: FieldTexts|
        0 <= i <= v.len() && now == #[trigger] v.insert(i, (name, Some(f))) && field(f, "body"@)
            == LeafText::List(seq![Some(Seq::<char>::empty())]);
    let e = (name, Some(f));
    let none: Seq<char> = seq![];
    let one = seq![Some(none)];
    reveal_with_fuel(present, 2);
    assert(one.drop_last() =~= seq![]);
    assert(present(one) =~= seq![none]);
    lemma_join_one(none, "\n"@);
    assert(entry_snippets(e) =~= seq![]);
    lemma_insert_empty(v, i, e, v.len() as int);
}

proof fn lemma_join_one(s: Seq<char>, sep: Seq<char>)
    ensures
        join(seq![s], sep) == s,
{
    reveal_with_fuel(join, 2);
    assert(join(seq![s], sep) =~= s);
}

/// The current time, as far as snippets use it. The engine reads no clock: the caller
/// tells the time.
#[derive(Clone, Copy, Debug, PartialEq, Eq, Structural)]
pub struct Now {
    pub year: i32,
    /// 1 to 12.
    pub month: u32,
    /// 1 to 31.
    pub day: u32,
    pub hour: u32,
    pub minute: u32,
    pub second: u32,
    /// 0 is Sunday.
    pub weekday: u32,
    /// Seconds since the epoch.
    pub unix: i64,
}

impl Default for Now {
    fn default() -> (r: Self)
        ensures
            r == (Now {
                year: 0,
                month: 0,
                day: 0,
                hour: 0,
                minute: 0,
                second: 0,
                weekday: 0,
                unix: 0,
            }),
    {
        Now { year: 0, month: 0, day: 0, hour: 0, minute: 0, second: 0, weekday: 0, unix: 0 }
    }
}

pub const MONTH_NAMES: [&'static str; 12] = [
    "January", "February", "March", "April", "May", "June", "July", "August", "September",
    "October", "November", "December",
];

pub const MONTH_NAMES_SHORT: [&'static str; 12] = [
    "Jan", "Feb", "Mar", "Apr", "May", "Jun", "Jul", "Aug", "Sep", "Oct", "Nov", "Dec",
];

pub const DAY_NAMES: [&'static str; 7] = [
    "Sunday", "Monday", "Tuesday", "Wednesday", "Thursday", "Friday", "Saturday",
];

pub const DAY_NAMES_SHORT: [&'static str; 7] = ["Sun", "Mon", "Tue", "Wed", "Thu", "Fri", "Sat"];

/// A number with its sign.
pub open spec fn signed(n: int) -> Seq<char> {
    if n < 0 {
        seq!['-'] + decimal((-n) as nat)
    } else {
        decimal(n as nat)
    }
}

/// A year in at least four characters, the sign counted.
pub open spec fn year_text(n: int) -> Seq<char> {
    if n < 0 {
        seq!['-'] + zero_padded(decimal((-n) as nat), 3)
    } else {
        zero_padded(decimal(n as nat), 4)
    }
}

/// A number in at least two digits.
pub open spec fn two_digits(n: nat) -> Seq<char> {
    zero_padded(decimal(n), 2)
}

/// The month as a place in the list of names.
pub open spec fn month_index(m: u32) -> int {
    if m < 1 {
        0
    } else if m > 12 {
        11
    } else {
        m - 1
    }
}

/// The value of the variable `name`; only dates and times are known.
pub open spec fn value_of(now: Now, name: Seq<char>) -> Option<Seq<char>> {
    if name == "CURRENT_YEAR"@ {
        Some(year_text(now.year as int))
    } else if name == "CURRENT_YEAR_SHORT"@ {
        Some(two_digits((now.year as int % 100) as nat))
    } else if name == "CURRENT_MONTH"@ {
        Some(two_digits(now.month as nat))
    } else if name == "CURRENT_MONTH_NAME"@ {
        Some(MONTH_NAMES@[month_index(now.month)]@)
    } else if name == "CURRENT_MONTH_NAME_SHORT"@ {
        Some(MONTH_NAMES_SHORT@[month_index(now.month)]@)
    } else if name == "CURRENT_DATE"@ {
        Some(two_digits(now.day as nat))
    } else if name == "CURRENT_DAY_NAME"@ {
        Some(DAY_NAMES@[now.weekday as int % 7]@)
    } else if name == "CURRENT_DAY_NAME_SHORT"@ {
        Some(DAY_NAMES_SHORT@[now.weekday as int % 7]@)
    } else if name == "CURRENT_HOUR"@ {
        Some(two_digits(now.hour as nat))
    } else if name == "CURRENT_MINUTE"@ {
        Some(two_digits(now.minute as nat))
    } else if name == "CURRENT_SECOND"@ {
        Some(two_digits(now.second as nat))
    } else if name == "CURRENT_SECONDS_UNIX"@ {
        Some(signed(now.unix as int))
    } else {
        None
    }
}

/// The characters of a name.
pub open spec fn name_char(c: char) -> bool {
    letter(c) || digit(c) || c == '_'
}

/// How many characters of a name `s` starts with.
pub open spec fn name_run(s: Seq<char>) -> nat
    decreases s.len(),
{
    if s.len() > 0 && name_char(s[0]) {
        1 + name_run(s.skip(1))
    } else {
        0
    }
}

pub proof fn lemma_name_run(s: Seq<char>)
    ensures
        name_run(s) <= s.len(),
    decreases s.len(),
{
    if s.len() > 0 && name_char(s[0]) {
        lemma_name_run(s.skip(1));
    }
}

/// The first step of opening the variables of `s`: what comes out, and how many characters
/// it stands for. `$NAME` and `${NAME}` become the value; `\$` is a plain dollar sign; an
/// unknown name stays as it is written.
pub open spec fn variable_step(s: Seq<char>, now: Now) -> (Seq<char>, int) {
    if s[0] == '\\' && s.len() > 1 && s[1] == '$' {
        (seq!['$'], 2)
    } else if s[0] != '$' {
        (seq![s[0]], 1)
    } else {
        let braced = s.len() > 1 && s[1] == '{';
        let start: int = if braced {
            2
        } else {
            1
        };
        let end = start + name_run(s.skip(start));
        let closed = !braced || (end < s.len() && s[end] == '}');
        match value_of(now, s.subrange(start, end)) {
            Some(v) if closed => (
                v,
                if braced {
                    end + 1
                } else {
                    end
                },
            ),
            _ => (seq!['$'], 1),
        }
    }
}

/// `s` with its variables opened.
pub open spec fn variables_opened(s: Seq<char>, now: Now) -> Seq<char>
    decreases s.len(),
    via variables_decreases
{
    if s.len() == 0 {
        seq![]
    } else {
        let step = variable_step(s, now);
        step.0 + variables_opened(s.skip(step.1), now)
    }
}

proof fn lemma_variable_step(s: Seq<char>, now: Now)
    requires
        s.len() > 0,
    ensures
        1 <= variable_step(s, now).1 <= s.len(),
{
    lemma_name_run(s.skip(1));
    if s.len() > 1 {
        lemma_name_run(s.skip(2));
    }
}

#[via_fn]
proof fn variables_decreases(s: Seq<char>, now: Now) {
    if s.len() > 0 {
        lemma_variable_step(s, now);
    }
}

/// A text without a dollar sign is kept as it is.
pub proof fn law_no_variable_no_change(s: Seq<char>, now: Now)
    requires
        !s.contains('$'),
    ensures
        variables_opened(s, now) == s,
    decreases s.len(),
{
    if s.len() > 0 {
        assert(s.contains(s[0]));
        if s.len() > 1 {
            assert(s.contains(s[1]));
        }
        let t = s.skip(1);
        assert forall|i: int| 0 <= i < t.len() implies t[i] != '$' by {
            assert(s.contains(s[i + 1]));
        }
        law_no_variable_no_change(t, now);
        assert(seq![s[0]] + t =~= s);
    }
}

impl Now {
    /// The value of the variable `name`; nothing for an unknown name.
    fn value(&self, name: &str) -> (r: Option<String>)
        ensures
            match r {
                Some(v) => value_of(*self, name@) == Some(v@),
                None => value_of(*self, name@) is None,
            },
    {
        let month: usize = if self.month < 1 {
            0
        } else if self.month > 12 {
            11
        } else {
            (self.month - 1) as usize
        };
        let weekday: usize = (self.weekday % 7) as usize;
        if *name == *"CURRENT_YEAR" {
            Some(year_string(self.year))
        } else if *name == *"CURRENT_YEAR_SHORT" {
            let short: u32 = if self.year >= 0 {
                (self.year as u32) % 100
            } else {
                let back: u32 = ((-(self.year as i64)) as u64 % 100) as u32;
                if back == 0 {
                    0
                } else {
                    100 - back
                }
            };
            assert(short == self.year as int % 100);
            Some(two_digit_string(short))
        } else if *name == *"CURRENT_MONTH" {
            Some(two_digit_string(self.month))
        } else if *name == *"CURRENT_MONTH_NAME" {
            Some(MONTH_NAMES[month].to_owned())
        } else if *name == *"CURRENT_MONTH_NAME_SHORT" {
            Some(MONTH_NAMES_SHORT[month].to_owned())
        } else if *name == *"CURRENT_DATE" {
            Some(two_digit_string(self.day))
        } else if *name == *"CURRENT_DAY_NAME" {
            Some(DAY_NAMES[weekday].to_owned())
        } else if *name == *"CURRENT_DAY_NAME_SHORT" {
            Some(DAY_NAMES_SHORT[weekday].to_owned())
        } else if *name == *"CURRENT_HOUR" {
            Some(two_digit_string(self.hour))
        } else if *name == *"CURRENT_MINUTE" {
            Some(two_digit_string(self.minute))
        } else if *name == *"CURRENT_SECOND" {
            Some(two_digit_string(self.second))
        } else if *name == *"CURRENT_SECONDS_UNIX" {
            Some(signed_string(self.unix))
        } else {
            None
        }
    }
}

fn two_digit_string(n: u32) -> (r: String)
    ensures
        r@ == two_digits(n as nat),
{
    let s = number_text(n as u64);
    pad_zeros(s.as_str(), 2)
}

fn year_string(n: i32) -> (r: String)
    ensures
        r@ == year_text(n as int),
{
    if n < 0 {
        let s = number_text((-(n as i64)) as u64);
        let p = pad_zeros(s.as_str(), 3);
        let r = joined("-", p.as_str());
        proof {
            reveal_strlit("-");
            assert("-"@ =~= seq!['-']);
        }
        r
    } else {
        let s = number_text(n as u64);
        pad_zeros(s.as_str(), 4)
    }
}

fn signed_string(n: i64) -> (r: String)
    ensures
        r@ == signed(n as int),
{
    if n < 0 {
        let m: u64 = (-(n + 1)) as u64 + 1;
        let s = number_text(m);
        let r = joined("-", s.as_str());
        proof {
            reveal_strlit("-");
            assert("-"@ =~= seq!['-']);
        }
        r
    } else {
        number_text(n as u64)
    }
}

/// Opens the variables of a text.
pub fn expand_variables(text: &str, now: &Now) -> (r: String)
    ensures
        r@ == variables_opened(text@, *now),
{
    let v = chars_of(text);
    let mut out: String = String::new();
    let mut i: usize = 0;
    proof {
        assert(v@.skip(0) =~= v@);
        assert(out@ + variables_opened(v@, *now) =~= variables_opened(v@, *now));
    }
    while i < v.len()
        invariant
            i <= v@.len(),
            v@ == text@,
            out@ + variables_opened(v@.skip(i as int), *now) == variables_opened(text@, *now),
        decreases v.len() - i,
    {
        let ghost s = v@.skip(i as int);
        let ghost out0 = out@;
        let ghost i0 = i as int;
        let ghost step = variable_step(s, *now);
        proof {
            lemma_variable_step(s, *now);
            assert(s[0] == v@[i0]);
            if i + 1 < v.len() {
                assert(s[1] == v@[i0 + 1]);
            }
        }
        if v[i] == '\\' && i + 1 < v.len() && v[i + 1] == '$' {
            out.push('$');
            i = i + 2;
            assert(out@ =~= out0 + seq!['$']);
        } else if v[i] != '$' {
            out.push(v[i]);
            assert(out@ =~= out0 + seq![s[0]]);
            i = i + 1;
        } else {
            let braced = i + 1 < v.len() && v[i + 1] == '{';
            let start: usize = if braced {
                i + 2
            } else {
                i + 1
            };
            let mut end: usize = start;
            while end < v.len() && (is_letter(v[end]) || is_digit(v[end]) || v[end] == '_')
                invariant
                    start <= end <= v@.len(),
                    name_run(v@.skip(start as int)) == (end - start) + name_run(
                        v@.skip(end as int),
                    ),
                decreases v.len() - end,
            {
                proof {
                    lemma_skip_next(v@, end as int);
                }
                end = end + 1;
            }
            let name = slice_text(&v, start, end);
            let closed = !braced || (end < v.len() && v[end] == '}');
            proof {
                if end < v.len() {
                    assert(v@.skip(end as int)[0] == v@[end as int]);
                    assert(s[end - i0] == v@[end as int]);
                }
                assert(name_run(v@.skip(end as int)) == 0);
                assert(s.skip(start - i0) =~= v@.skip(start as int));
                assert(s.subrange(start - i0, end - i0) =~= v@.subrange(start as int, end as int));
            }
            let value = now.value(name.as_str());
            match value {
                Some(t) if closed => {
                    out.append(t.as_str());
                    i = if braced {
                        end + 1
                    } else {
                        end
                    };
                },
                _ => {
                    out.push('$');
                    i = i + 1;
                    assert(out@ =~= out0 + seq!['$']);
                },
            }
        }
        proof {
            assert(out@ =~= out0 + step.0);
            assert(i == i0 + step.1);
            assert(s.skip(step.1) =~= v@.skip(i as int));
            assert(out@ + variables_opened(v@.skip(i as int), *now) =~= out0 + variables_opened(
                s,
                *now,
            ));
        }
    }
    proof {
        assert(v@.skip(i as int) =~= seq![]);
        assert(out@ + variables_opened(v@.skip(i as int), *now) =~= out@);
    }
    out
}

/// A part of a snippet: plain text, or a place to fill in. Place 0 is where the cursor
/// goes at the end.
#[derive(Debug, PartialEq, Eq)]
pub enum Piece {
    Text(String),
    Stop { index: u32, default: String, choices: Vec<String> },
}

/// What a part of a snippet holds.
pub enum PieceText {
    Text(Seq<char>),
    Stop { index: nat, default: Seq<char>, choices: Seq<Seq<char>> },
}

impl View for Piece {
    type V = PieceText;

    open spec fn view(&self) -> PieceText {
        match self {
            Piece::Text(t) => PieceText::Text(t@),
            Piece::Stop { index, default, choices } => PieceText::Stop {
                index: *index as nat,
                default: default@,
                choices: texts(choices@),
            },
        }
    }
}

/// What the parts of a snippet hold.
pub open spec fn piece_texts(v: Seq<Piece>) -> Seq<PieceText> {
    v.map_values(|p: Piece| p@)
}

/// The number that digits write.
pub open spec fn number_value(s: Seq<char>) -> nat
    decreases s.len(),
{
    if s.len() == 0 {
        0
    } else {
        number_value(s.drop_last()) * 10 + (s.last() as u32 - '0' as u32) as nat
    }
}

/// The first place in `s` from `i` on where `|}` stands, or the length of `s`.
pub open spec fn bar_close(s: Seq<char>, i: int) -> int
    decreases s.len() - i,
{
    if i < 0 || i + 1 >= s.len() {
        s.len() as int
    } else if s[i] == '|' && s[i + 1] == '}' {
        i
    } else {
        bar_close(s, i + 1)
    }
}

proof fn lemma_bar_close(s: Seq<char>, i: int)
    requires
        0 <= i <= s.len(),
    ensures
        i <= bar_close(s, i) <= s.len(),
        bar_close(s, i) < s.len() ==> bar_close(s, i) + 1 < s.len(),
    decreases s.len() - i,
{
    if i + 1 < s.len() && !(s[i] == '|' && s[i + 1] == '}') {
        lemma_bar_close(s, i + 1);
    }
}

/// A place without a default and without choices.
pub open spec fn bare_stop(index: nat) -> PieceText {
    PieceText::Stop { index, default: seq![], choices: seq![] }
}

/// The place to fill in that `s` starts with, and how many characters write it: `$1`,
/// `${1}`, `${1:default}` or `${1|one,other|}`.
pub open spec fn stop_at(s: Seq<char>) -> Option<(PieceText, int)> {
    if s.len() < 2 || s[0] != '$' {
        None
    } else if s[1] != '{' {
        let n = digit_run(s.skip(1)) as int;
        let index = number_value(s.subrange(1, 1 + n));
        if n > 0 && index <= u32::MAX {
            Some((bare_stop(index), 1 + n))
        } else {
            None
        }
    } else {
        let n = digit_run(s.skip(2)) as int;
        let index = number_value(s.subrange(2, 2 + n));
        if n == 0 || index > u32::MAX || 2 + n >= s.len() {
            None
        } else {
            let rest = s.skip(3 + n);
            if s[2 + n] == '}' {
                Some((bare_stop(index), 3 + n))
            } else if s[2 + n] == ':' {
                let close = first_at(rest, '}') as int;
                if close < rest.len() {
                    Some(
                        (
                            PieceText::Stop { index, default: rest.take(close), choices: seq![] },
                            4 + n + close,
                        ),
                    )
                } else {
                    None
                }
            } else if s[2 + n] == '|' {
                let close = bar_close(rest, 0);
                if close < rest.len() {
                    Some(
                        (
                            PieceText::Stop {
                                index,
                                default: seq![],
                                choices: split(rest.take(close), ','),
                            },
                            5 + n + close,
                        ),
                    )
                } else {
                    None
                }
            } else {
                None
            }
        }
    }
}

pub proof fn lemma_stop_at(s: Seq<char>)
    ensures
        stop_at(s) is Some ==> 1 < (stop_at(s)->0).1 <= s.len() && (stop_at(s)->0).0 is Stop,
{
    if s.len() >= 2 {
        lemma_digit_run(s.skip(1));
        lemma_digit_run(s.skip(2));
        let n = digit_run(s.skip(2)) as int;
        if 2 + n < s.len() {
            let rest = s.skip(3 + n);
            lemma_first_at(rest, '}');
            lemma_bar_close(rest, 0);
        }
    }
}

/// The text so far as a part of its own.
pub open spec fn run_piece(run: Seq<char>) -> Seq<PieceText> {
    if run.len() == 0 {
        seq![]
    } else {
        seq![PieceText::Text(run)]
    }
}

/// The parts of `run + s`, where `run` is known to be plain text.
pub open spec fn pieces_after(run: Seq<char>, s: Seq<char>) -> Seq<PieceText>
    decreases s.len(),
    via pieces_decreases
{
    if s.len() == 0 {
        run_piece(run)
    } else {
        match stop_at(s) {
            Some(p) => run_piece(run) + seq![p.0] + pieces_after(seq![], s.skip(p.1)),
            None => pieces_after(run.push(s[0]), s.skip(1)),
        }
    }
}

#[via_fn]
proof fn pieces_decreases(run: Seq<char>, s: Seq<char>) {
    lemma_stop_at(s);
}

/// The parts of a snippet.
pub open spec fn pieces(s: Seq<char>) -> Seq<PieceText> {
    pieces_after(seq![], s)
}

/// What stands in a place before anything is typed: its first choice, or its default.
pub open spec fn seed(p: PieceText) -> Seq<char> {
    match p {
        PieceText::Text(t) => t,
        PieceText::Stop { index, default, choices } => if choices.len() == 0 {
            default
        } else {
            choices[0]
        },
    }
}

/// The first `n` parts with their defaults filled in. Place 0 shows nothing.
pub open spec fn previewed(v: Seq<PieceText>, n: int) -> Seq<char>
    decreases n,
{
    if n <= 0 {
        seq![]
    } else {
        previewed(v, n - 1) + match v[n - 1] {
            PieceText::Text(t) => t,
            PieceText::Stop { index, default, choices } => if index == 0 {
                seq![]
            } else {
                seed(v[n - 1])
            },
        }
    }
}

/// A snippet with the defaults filled in.
pub open spec fn preview(s: Seq<char>) -> Seq<char> {
    previewed(pieces(s), pieces(s).len() as int)
}

/// The value of the digits `v[from..to]`, if it fits.
fn small_number(v: &Vec<char>, from: usize, to: usize) -> (r: Option<u32>)
    requires
        from <= to <= v@.len(),
        forall|i: int| from <= i < to ==> digit(#[trigger] v@[i]),
    ensures
        match r {
            Some(n) => number_value(v@.subrange(from as int, to as int)) == n,
            None => number_value(v@.subrange(from as int, to as int)) > u32::MAX,
        },
{
    let mut n: u64 = 0;
    let mut i: usize = from;
    assert(v@.subrange(from as int, from as int) =~= seq![]);
    while i < to
        invariant
            from <= i <= to <= v@.len(),
            forall|j: int| from <= j < to ==> digit(#[trigger] v@[j]),
            n <= u32::MAX,
            n == number_value(v@.subrange(from as int, i as int)),
        decreases to - i,
    {
        proof {
            let s = v@.subrange(from as int, i + 1);
            assert(s.drop_last() =~= v@.subrange(from as int, i as int));
            assert(s.last() == v@[i as int]);
        }
        let d: u32 = v[i] as u32 - '0' as u32;
        n = n * 10 + d as u64;
        i = i + 1;
        if n > u32::MAX as u64 {
            proof {
                lemma_value_grows(v@.subrange(from as int, to as int), i - from);
                assert(v@.subrange(from as int, to as int).take(i - from) =~= v@.subrange(
                    from as int,
                    i as int,
                ));
            }
            return None;
        }
    }
    Some(n as u32)
}

proof fn lemma_value_grows(s: Seq<char>, n: int)
    requires
        0 <= n <= s.len(),
    ensures
        number_value(s.take(n)) <= number_value(s),
    decreases s.len() - n,
{
    if n < s.len() {
        lemma_value_grows(s, n + 1);
        lemma_take_next(s, n);
    } else {
        assert(s.take(n) =~= s);
    }
}

/// The place to fill in that starts at `i`, and where it ends.
fn read_stop(v: &Vec<char>, i: usize) -> (r: Option<(Piece, usize)>)
    requires
        i < v@.len(),
    ensures
        match r {
            Some(p) => i < p.1 <= v@.len() && stop_at(v@.skip(i as int)) == Some(
                (p.0@, p.1 - i),
            ),
            None => stop_at(v@.skip(i as int)) is None,
        },
{
    let ghost s = v@.skip(i as int);
    assert(s[0] == v@[i as int]);
    if v[i] != '$' || v.len() - i < 2 {
        return None;
    }
    assert(s[1] == v@[i + 1]);
    let braced = v[i + 1] == '{';
    let start: usize = if braced {
        i + 2
    } else {
        i + 1
    };
    let mut end: usize = start;
    while end < v.len() && is_digit(v[end])
        invariant
            start <= end <= v@.len(),
            forall|j: int| start <= j < end ==> digit(#[trigger] v@[j]),
            digit_run(v@.skip(start as int)) == (end - start) + digit_run(v@.skip(end as int)),
        decreases v.len() - end,
    {
        proof {
            lemma_skip_next(v@, end as int);
        }
        end = end + 1;
    }
    proof {
        lemma_digit_run(v@.skip(end as int));
        if end < v.len() {
            assert(v@.skip(end as int)[0] == v@[end as int]);
            assert(s[end - i] == v@[end as int]);
        }
        assert(s.skip(start - i) =~= v@.skip(start as int));
        assert(s.subrange(start - i, end - i) =~= v@.subrange(start as int, end as int));
    }
    if end == start {
        return None;
    }
    let index: u32 = match small_number(v, start, end) {
        Some(n) => n,
        None => {
            return None;
        },
    };
    if !braced {
        let none: Vec<String> = Vec::new();
        assert(texts(none@) =~= seq![]);
        let p = Piece::Stop { index, default: String::new(), choices: none };
        return Some((p, end));
    }
    if end >= v.len() {
        return None;
    }
    let ghost rest = s.skip(end - i + 1);
    assert(rest =~= v@.skip(end + 1));
    if v[end] == '}' {
        let none: Vec<String> = Vec::new();
        assert(texts(none@) =~= seq![]);
        let p = Piece::Stop { index, default: String::new(), choices: none };
        return Some((p, end + 1));
    }
    if v[end] == ':' {
        let close = find_char(v, end + 1, '}');
        if close >= v.len() {
            return None;
        }
        let none: Vec<String> = Vec::new();
        assert(texts(none@) =~= seq![]);
        let default = slice_text(v, end + 1, close);
        assert(default@ =~= rest.take(close - end - 1));
        return Some((Piece::Stop { index, default, choices: none }, close + 1));
    }
    if v[end] == '|' {
        let mut close: usize = end + 1;
        while v.len() - close >= 2 && !(v[close] == '|' && v[close + 1] == '}')
            invariant
                end + 1 <= close,
                end < v.len(),
                close <= v.len(),
                rest == v@.skip(end + 1),
                bar_close(rest, 0) == bar_close(rest, close - end - 1),
            decreases v.len() - close,
        {
            proof {
                assert(rest[close - end - 1] == v@[close as int]);
                assert(rest[close - end] == v@[close + 1]);
            }
            close = close + 1;
        }
        if v.len() - close < 2 {
            return None;
        }
        proof {
            assert(rest[close - end - 1] == v@[close as int]);
            assert(rest[close - end] == v@[close + 1]);
        }
        let inner = slice_text(v, end + 1, close);
        let choices = split_text(inner.as_str(), ',');
        assert(inner@ =~= rest.take(close - end - 1));
        return Some((Piece::Stop { index, default: String::new(), choices }, close + 2));
    }
    None
}

/// Splits a snippet into plain text and places to fill in.
pub fn split_placeholders(body: &str) -> (r: Vec<Piece>)
    ensures
        piece_texts(r@) == pieces(body@),
{
    let v = chars_of(body);
    let mut out: Vec<Piece> = Vec::new();
    let mut run: String = String::new();
    let mut i: usize = 0;
    proof {
        assert(v@.skip(0) =~= v@);
        assert(run@ =~= seq![]);
        assert(piece_texts(out@) + pieces_after(run@, v@) =~= pieces(body@));
    }
    while i < v.len()
        invariant
            i <= v@.len(),
            v@ == body@,
            piece_texts(out@) + pieces_after(run@, v@.skip(i as int)) == pieces(body@),
        decreases v.len() - i,
    {
        let ghost s = v@.skip(i as int);
        let ghost have = piece_texts(out@);
        let ghost run0 = run@;
        proof {
            lemma_skip_next(v@, i as int);
            lemma_stop_at(s);
        }
        match read_stop(&v, i) {
            Some((p, end)) => {
                if !run.as_str().is_empty() {
                    out.push(Piece::Text(run));
                    assert(piece_texts(out@) =~= have + run_piece(run0));
                } else {
                    assert(piece_texts(out@) =~= have + run_piece(run0));
                }
                let ghost mid = piece_texts(out@);
                out.push(p);
                run = String::new();
                proof {
                    assert(run@ =~= seq![]);
                    assert(piece_texts(out@) =~= mid.push(p@));
                    assert(s.skip(end - i) =~= v@.skip(end as int));
                    assert(piece_texts(out@) + pieces_after(run@, v@.skip(end as int)) =~= have
                        + pieces_after(run0, s));
                }
                i = end;
            },
            None => {
                run.push(v[i]);
                i = i + 1;
            },
        }
    }
    let ghost have = piece_texts(out@);
    let ghost run0 = run@;
    assert(v@.skip(i as int) =~= seq![]);
    if !run.as_str().is_empty() {
        out.push(Piece::Text(run));
        assert(piece_texts(out@) =~= have + run_piece(run0));
    } else {
        assert(piece_texts(out@) =~= have + run_piece(run0));
    }
    out
}

/// A snippet with the defaults filled in, as it is shown among the candidates.
pub fn preview_placeholders(text: &str) -> (r: String)
    ensures
        r@ == preview(text@),
{
    let parts = split_placeholders(text);
    let ghost all = piece_texts(parts@);
    let mut out: String = String::new();
    let mut i: usize = 0;
    while i < parts.len()
        invariant
            i <= parts@.len(),
            all == piece_texts(parts@),
            out@ == previewed(all, i as int),
        decreases parts.len() - i,
    {
        let ghost out0 = out@;
        match &parts[i] {
            Piece::Text(t) => {
                assert(all[i as int] == PieceText::Text(t@));
                out.append(t.as_str());
            },
            Piece::Stop { index, default, choices } => {
                assert(all[i as int] == (PieceText::Stop {
                    index: *index as nat,
                    default: default@,
                    choices: texts(choices@),
                }));
                if *index == 0 {
                    assert(out@ =~= out0 + seq![]);
                } else if choices.len() == 0 {
                    out.append(default.as_str());
                } else {
                    assert(texts(choices@)[0] == choices@[0]@);
                    out.append(choices[0].as_str());
                }
            },
        }
        i = i + 1;
    }
    out
}

/// What a new file starts with: how to write snippets.
pub const TEMPLATE: &'static str = "{
    // ttyskk の定型文。書式は VS Code のスニペット (*.code-snippets)。
    //
    //   prefix      … 見出し語 (かな)。並びにすると複数の見出し語で引ける
    //   body        … 候補。並びにすると行として繋がる (改行を含む定型文)
    //   description … 候補の右に出る注釈。日本語版と英語版の区別などに
    //
    // 注釈 (この行のような //) と末尾のカンマを書いてよい。保存した時点で
    // ttyskk が読み直すので、起動し直さなくてよい。
}
";

/// `s` in the form that a JSON string takes.
pub open spec fn escaped(s: Seq<char>) -> Seq<char> {
    replaced(replaced(s, '\\', "\\\\"@), '"', "\\\""@)
}

/// `s` as a JSON string.
pub open spec fn quoted(s: Seq<char>) -> Seq<char> {
    seq!['"'] + escaped(s) + seq!['"']
}

/// Whether a file holds the JSON string `name`.
pub open spec fn name_used(text: Seq<char>, name: Seq<char>) -> bool {
    occurs(quoted(name), text)
}

/// `base` with a number behind it.
pub open spec fn numbered(base: Seq<char>, n: nat) -> Seq<char> {
    base + " "@ + decimal(n)
}

/// The name that a new entry is first given.
pub open spec fn base_name(prefix: Seq<char>) -> Seq<char> {
    if prefix.len() == 0 {
        "新しい定型文"@
    } else {
        prefix
    }
}

/// `n` is the least number from 2 on that makes a name the file does not use.
pub open spec fn free_number(text: Seq<char>, base: Seq<char>, n: nat) -> bool {
    &&& n >= 2
    &&& !name_used(text, numbered(base, n))
    &&& forall|m: nat| 2 <= m < n ==> name_used(text, #[trigger] numbered(base, m))
}

/// A name that the file does not use: the reading, with the least number behind it that
/// makes it new.
pub open spec fn fresh_name(text: Seq<char>, prefix: Seq<char>) -> Seq<char> {
    let base = base_name(prefix);
    if !name_used(text, base) {
        base
    } else {
        numbered(base, choose|n: nat| free_number(text, base, n))
    }
}

/// The number of line feeds in a text.
pub open spec fn line_feeds(s: Seq<char>) -> nat
    decreases s.len(),
{
    if s.len() == 0 {
        0
    } else {
        line_feeds(s.drop_last()) + if s.last() == '\n' {
            1nat
        } else {
            0nat
        }
    }
}

/// The entries of a file as they were written, with a comma behind the last one where it
/// lacks one. It goes behind the last character that is read, not into a comment that
/// follows.
pub open spec fn closed_off(head: Seq<char>) -> Seq<char> {
    let e = solid_end(head, Lex::Plain);
    if e > 0 && head[e - 1] != ',' && head[e - 1] != '{' {
        head.take(e) + ","@ + head.skip(e)
    } else {
        head
    }
}

/// An empty entry of the given name and reading.
pub open spec fn blank_entry(name: Seq<char>, prefix: Seq<char>) -> Seq<char> {
    "\n    \""@ + escaped(name) + "\": {\n        \"prefix\": \""@ + escaped(prefix)
        + "\",\n        \"body\": [\"\"],\n        \"description\": \"\"\n    },\n"@
}

/// The file that is added to: what was there, or a new file.
pub open spec fn template_base(text: Seq<char>) -> Seq<char> {
    if trim(text).len() == 0 {
        TEMPLATE@
    } else {
        text
    }
}

/// The file before the new entry ends, where its last closing bracket stands at `close`.
pub open spec fn with_entry(base: Seq<char>, close: int, prefix: Seq<char>) -> Seq<char> {
    closed_off(trim_end(base.take(close))) + blank_entry(fresh_name(base, prefix), prefix)
}

/// The file with an empty entry at its end, and the line to write on, counted from 1: the
/// body, or the reading where it is not known yet.
pub open spec fn template_added(text: Seq<char>, prefix: Seq<char>) -> (Seq<char>, nat) {
    let base = template_base(text);
    match last_at(base, '}') {
        None => (base, 1),
        Some(close) => {
            let part = with_entry(base, close as int, prefix);
            let up: nat = if prefix.len() == 0 {
                3
            } else {
                2
            };
            let n = line_feeds(part);
            (
                part + base.skip(close as int),
                if n >= up {
                    (n - up) as nat
                } else {
                    0
                },
            )
        },
    }
}

/// Whether an entry can be added to a file so that the file can still be read: its last
/// closing bracket stands outside comments and strings, no comma stands where there is no
/// entry, and the reading holds no control characters.
pub open spec fn appendable(text: Seq<char>, prefix: Seq<char>) -> bool {
    let base = template_base(text);
    &&& bare(prefix)
    &&& last_at(base, '}') matches Some(close) && ended(base.take(close as int), Lex::Plain)
        is Plain && !lone_comma(entries_read(base, close as int))
}

/// The entries of a file up to the end of the last one, as they are read.
pub open spec fn entries_read(base: Seq<char>, close: int) -> Seq<char> {
    let t = trim_end(base.take(close));
    uncommented(t.take(solid_end(t, Lex::Plain)), Lex::Plain)
}

/// Whether entries end with a comma that no entry stands before.
pub open spec fn lone_comma(entries: Seq<char>) -> bool {
    entries.len() > 0 && entries.last() == ',' && {
        let k = trim_end(entries.drop_last());
        k.len() == 0 || k.last() == '{'
    }
}

/// Digits write the number they were made from.
pub proof fn lemma_decimal_value(n: nat)
    ensures
        number_value(decimal(n)) == n,
        decimal(n).len() > 0,
        forall|i: int| 0 <= i < decimal(n).len() ==> digit(#[trigger] decimal(n)[i]),
    decreases n,
{
    reveal_with_fuel(number_value, 2);
    if n < 10 {
        assert(decimal(n).drop_last() =~= seq![]);
        assert(decimal(n).last() == shifted('0', n as int));
    } else {
        lemma_decimal_value(n / 10);
        let d = decimal(n / 10);
        let c = shifted('0', (n % 10) as int);
        assert(decimal(n) == d.push(c));
        assert(d.push(c).drop_last() =~= d);
        assert(d.push(c).last() == c);
        assert forall|i: int| 0 <= i < decimal(n).len() implies digit(#[trigger] decimal(n)[i]) by {
            if i < d.len() {
                assert(decimal(n)[i] == d[i]);
            }
        }
    }
}

pub proof fn lemma_replaced_add(a: Seq<char>, b: Seq<char>, c: char, with: Seq<char>)
    ensures
        replaced(a + b, c, with) == replaced(a, c, with) + replaced(b, c, with),
    decreases b.len(),
{
    let f = swap(c, with);
    if b.len() == 0 {
        assert(a + b =~= a);
        assert(b =~= seq![]);
        assert(b.flat_map(f) =~= seq![]);
        assert(replaced(a, c, with) + replaced(b, c, with) =~= replaced(a, c, with));
    } else {
        let b1 = b.drop_last();
        lemma_replaced_add(a, b1, c, with);
        assert(a + b =~= (a + b1).push(b.last()));
        assert(b =~= b1.push(b.last()));
        (a + b1).lemma_flat_map_push(f, b.last());
        b1.lemma_flat_map_push(f, b.last());
        assert(replaced(a + b, c, with) =~= replaced(a, c, with) + replaced(b, c, with));
    }
}

proof fn lemma_replaced_none(a: Seq<char>, c: char, with: Seq<char>)
    requires
        forall|i: int| 0 <= i < a.len() ==> #[trigger] a[i] != c,
    ensures
        replaced(a, c, with) == a,
    decreases a.len(),
{
    let f = swap(c, with);
    if a.len() == 0 {
        assert(a.flat_map(f) =~= seq![]);
    } else {
        lemma_replaced_none(a.drop_last(), c, with);
        assert(a =~= a.drop_last().push(a.last()));
        a.drop_last().lemma_flat_map_push(f, a.last());
        assert(a[a.len() - 1] != c);
        assert(replaced(a, c, with) =~= a);
    }
}

/// A numbered name in quotes is the quoted base, a blank and the number.
proof fn lemma_quoted_number(base: Seq<char>, n: nat)
    ensures
        quoted(numbered(base, n)) == seq!['"'] + escaped(base) + seq![' '] + decimal(n) + seq!['"'],
{
    reveal_strlit(" ");
    assert(" "@ =~= seq![' ']);
    let tail = seq![' '] + decimal(n);
    assert(numbered(base, n) =~= base + tail);
    lemma_decimal_value(n);
    assert forall|i: int| 0 <= i < tail.len() implies #[trigger] tail[i] != '\\' && tail[i] != '"' by {
        if i > 0 {
            assert(digit(decimal(n)[i - 1]));
        }
    }
    lemma_replaced_add(base, tail, '\\', "\\\\"@);
    lemma_replaced_none(tail, '\\', "\\\\"@);
    lemma_replaced_add(replaced(base, '\\', "\\\\"@), tail, '"', "\\\""@);
    lemma_replaced_none(tail, '"', "\\\""@);
    assert(quoted(numbered(base, n)) =~= seq!['"'] + escaped(base) + seq![' '] + decimal(n)
        + seq!['"']);
}

/// Two numbered names cannot stand at the same place.
proof fn lemma_one_name_per_place(text: Seq<char>, base: Seq<char>, m: nat, k: nat, at: int)
    requires
        0 <= at <= text.len(),
        quoted(numbered(base, m)).is_prefix_of(text.skip(at)),
        quoted(numbered(base, k)).is_prefix_of(text.skip(at)),
    ensures
        m == k,
{
    lemma_quoted_number(base, m);
    lemma_quoted_number(base, k);
    lemma_decimal_value(m);
    lemma_decimal_value(k);
    let head = seq!['"'] + escaped(base) + seq![' '];
    let h = head.len() as int;
    let t = text.skip(at);
    let qm = quoted(numbered(base, m));
    let qk = quoted(numbered(base, k));
    let dm = decimal(m);
    let dk = decimal(k);
    assert(qm =~= head + dm + seq!['"']);
    assert(qk =~= head + dk + seq!['"']);
    assert forall|i: int| 0 <= i < dm.len() implies t[h + i] == dm[i] by {
        assert(t[h + i] == qm[h + i]);
    }
    assert forall|i: int| 0 <= i < dk.len() implies t[h + i] == dk[i] by {
        assert(t[h + i] == qk[h + i]);
    }
    assert(t[h + dm.len()] == qm[h + dm.len()]);
    assert(t[h + dk.len()] == qk[h + dk.len()]);
    if dm.len() < dk.len() {
        assert(digit(dk[dm.len() as int]));
    }
    if dk.len() < dm.len() {
        assert(digit(dm[dk.len() as int]));
    }
    assert(dm =~= dk);
}

/// As many names as are used have as many places in the file.
proof fn lemma_names_need_room(text: Seq<char>, base: Seq<char>, n: nat)
    requires
        n >= 3,
        forall|m: nat| 2 <= m < n ==> name_used(text, #[trigger] numbered(base, m)),
    ensures
        n <= text.len(),
{
    let place = |m: nat|
        choose|i: int|
            0 <= i <= text.len() && quoted(numbered(base, m)).is_prefix_of(#[trigger] text.skip(i));
    assert forall|m: nat| 2 <= m < n implies {
        let i = #[trigger] place(m);
        0 <= i < text.len() - 3 && quoted(numbered(base, m)).is_prefix_of(text.skip(i))
    } by {
        assert(name_used(text, numbered(base, m)));
        let i = place(m);
        lemma_quoted_number(base, m);
        lemma_decimal_value(m);
        assert(quoted(numbered(base, m)).len() >= 4);
        assert(text.skip(i).len() == text.len() - i);
    }
    let places = Seq::new((n - 2) as nat, |i: int| place((i + 2) as nat));
    assert forall|i: int, j: int| 0 <= i < j < places.len() implies places[i] != places[j] by {
        if places[i] == places[j] {
            assert(0 <= place((i + 2) as nat) < text.len() - 3);
            assert(0 <= place((j + 2) as nat) < text.len() - 3);
            lemma_one_name_per_place(text, base, (i + 2) as nat, (j + 2) as nat, places[i]);
        }
    }
    assert(places.no_duplicates());
    places.unique_seq_to_set();
    assert(0 <= place(2nat) < text.len() - 3);
    let room = vstd::set_lib::set_int_range(0, text.len() - 3);
    vstd::set_lib::lemma_int_range(0, text.len() - 3);
    assert forall|x: int| places.to_set().contains(x) implies room.contains(x) by {
        let i = choose|i: int| 0 <= i < places.len() && places[i] == x;
        assert(0 <= place((i + 2) as nat) < text.len() - 3);
    }
    vstd::set_lib::lemma_len_subset(places.to_set(), room);
}

pub proof fn lemma_free_number_exists(text: Seq<char>, base: Seq<char>, n: nat)
    requires
        n >= 2,
        forall|m: nat| 2 <= m < n ==> name_used(text, #[trigger] numbered(base, m)),
    ensures
        exists|k: nat| free_number(text, base, k),
    decreases text.len() + 3 - n,
{
    if name_used(text, numbered(base, n)) {
        lemma_names_need_room(text, base, n + 1);
        lemma_free_number_exists(text, base, n + 1);
    } else {
        assert(free_number(text, base, n));
    }
}

/// The name of a new entry is one that the file does not hold yet, so that no entry is lost.
pub proof fn law_fresh_name_is_new(text: Seq<char>, prefix: Seq<char>)
    ensures
        !name_used(text, fresh_name(text, prefix)),
{
    let base = base_name(prefix);
    if name_used(text, base) {
        lemma_free_number_exists(text, base, 2);
    }
}

/// `s` in the form that a JSON string takes.
fn escape(s: &str) -> (r: String)
    ensures
        r@ == escaped(s@),
{
    let once = replace_char(s, '\\', "\\\\");
    replace_char(once.as_str(), '"', "\\\"")
}

/// Whether a file holds the JSON string `name`.
fn is_used(text: &str, name: &str) -> (r: bool)
    ensures
        r == name_used(text@, name@),
{
    let e = escape(name);
    let mut q: String = String::new();
    q.push('"');
    q.append(e.as_str());
    q.push('"');
    assert(q@ =~= quoted(name@));
    occurs_in(q.as_str(), text)
}

/// A name for a new entry that the file does not use yet.
fn unique_name(text: &str, prefix: &str) -> (r: String)
    ensures
        r@ == fresh_name(text@, prefix@),
{
    let base: String = if prefix.is_empty() {
        "新しい定型文".to_owned()
    } else {
        prefix.to_owned()
    };
    if !is_used(text, base.as_str()) {
        return base;
    }
    let room: usize = text.unicode_len();
    let mut n: usize = 2;
    let spaced = joined(base.as_str(), " ");
    loop
        invariant
            room == text@.len(),
            base@ == base_name(prefix@),
            spaced@ == base@ + " "@,
            name_used(text@, base@),
            2 <= n,
            n == 2 || n <= room,
            forall|m: nat| 2 <= m < n ==> name_used(text@, #[trigger] numbered(base@, m)),
        decreases usize::MAX - n,
    {
        let number = number_text(n as u64);
        let name = joined(spaced.as_str(), number.as_str());
        assert(name@ == numbered(base@, n as nat));
        if !is_used(text, name.as_str()) {
            proof {
                assert(free_number(text@, base@, n as nat));
                let k = choose|k: nat| free_number(text@, base@, k);
                assert(free_number(text@, base@, k));
                if k < n {
                    assert(name_used(text@, numbered(base@, k)));
                }
                if k > n {
                    assert(name_used(text@, numbered(base@, n as nat)));
                }
            }
            return name;
        }
        proof {
            let next = (n + 1) as nat;
            assert forall|m: nat| 2 <= m < next implies name_used(
                text@,
                #[trigger] numbered(base@, m),
            ) by {
                if m == n {
                    assert(name@ == numbered(base@, m));
                }
            }
            lemma_names_need_room(text@, base@, next);
        }
        n = n + 1;
    }
}

/// Puts a comma behind the last entry of a file where it lacks one.
fn close_off(head: &str) -> (r: String)
    ensures
        r@ == closed_off(head@),
{
    let v = chars_of(head);
    let e = find_solid_end(&v);
    if e > 0 && v[e - 1] != ',' && v[e - 1] != '{' {
        let mut out = slice_text(&v, 0, e);
        let rest = slice_text(&v, e, v.len());
        assert(out@ =~= head@.take(e as int));
        assert(rest@ =~= head@.skip(e as int));
        out.append(",");
        out.append(rest.as_str());
        out
    } else {
        head.to_owned()
    }
}

/// Adds an empty entry to the end of a file, and says on which line to write.
pub fn append_template(text: &str, prefix: &str) -> (r: (String, usize))
    ensures
        r.0@ == template_added(text@, prefix@).0,
        r.1 == template_added(text@, prefix@).1,
{
    let written = chars_of(text);
    let from = trimmed_start(&written, 0, written.len());
    let to = trimmed_end(&written, from, written.len());
    proof {
        assert(written@.subrange(0, written@.len() as int) =~= written@);
    }
    let base: String = if from == to {
        TEMPLATE.to_owned()
    } else {
        text.to_owned()
    };
    let v = chars_of(base.as_str());
    let close: usize = match find_last(&v, '}') {
        Some(i) => i,
        None => {
            return (base, 1);
        },
    };
    let end = trimmed_end(&v, 0, close);
    let head = slice_text(&v, 0, end);
    proof {
        assert(v@.subrange(0, close as int) =~= v@.take(close as int));
    }
    let mut out = close_off(head.as_str());
    let ghost out1 = out@;
    let unique = unique_name(base.as_str(), prefix);
    let name = escape(unique.as_str());
    let escaped_prefix = escape(prefix);
    out.append("\n    \"");
    out.append(name.as_str());
    out.append("\": {\n        \"prefix\": \"");
    out.append(escaped_prefix.as_str());
    out.append("\",\n        \"body\": [\"\"],\n        \"description\": \"\"\n    },\n");
    proof {
        assert(out@ =~= out1 + blank_entry(fresh_name(base@, prefix@), prefix@));
        assert(out@ == with_entry(base@, close as int, prefix@));
    }
    let last = count_line_feeds(out.as_str());
    let up: usize = if prefix.is_empty() {
        3
    } else {
        2
    };
    let line: usize = if last >= up {
        last - up
    } else {
        0
    };
    let tail = slice_text(&v, close, v.len());
    assert(tail@ =~= v@.skip(close as int));
    out.append(tail.as_str());
    (out, line)
}

/// The number of line feeds in a text.
fn count_line_feeds(s: &str) -> (r: usize)
    ensures
        r == line_feeds(s@),
{
    let v = chars_of(s);
    let mut n: usize = 0;
    let mut i: usize = 0;
    assert(v@.take(0) =~= seq![]);
    while i < v.len()
        invariant
            i <= v@.len(),
            n <= i,
            n == line_feeds(v@.take(i as int)),
        decreases v.len() - i,
    {
        proof {
            lemma_take_next(v@, i as int);
        }
        if v[i] == '\n' {
            n = n + 1;
        }
        i = i + 1;
    }
    assert(v@.take(i as int) =~= v@);
    n
}

} // verus!
