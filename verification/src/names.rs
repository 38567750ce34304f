//! The names in a document of two levels: its sections, and what each section holds.
use vstd::prelude::*;
use crate::text::texts;

verus! {

/// The sections of a document by name, each with the names of what it holds if it is a table.
pub type Names = Seq<(Seq<char>, Option<Seq<Seq<char>>>)>;

/// No section is named twice, and nothing in a section is.
pub open spec fn named_once(names: Names) -> bool {
    &&& forall|i: int, j: int|
        0 <= i < j < names.len() ==> (#[trigger] names[i]).0 != (#[trigger] names[j]).0
    &&& forall|i: int, a: int, b: int|
        0 <= i < names.len() && names[i].1 is Some && 0 <= a < b < (names[i].1->0).len() ==> (
        #[trigger] (names[i].1->0)[a]) != (#[trigger] (names[i].1->0)[b])
}

/// What a list of names holds.
pub open spec fn names_text(v: Seq<(String, Option<Vec<String>>)>) -> Names {
    v.map_values(
        |s: (String, Option<Vec<String>>)|
            (
                s.0@,
                match s.1 {
                    Some(v) => Some(texts(v@)),
                    None => None,
                },
            ),
    )
}

/// The names of a document.
pub open spec fn doc_names<T>(doc: Seq<(Seq<char>, Option<Seq<(Seq<char>, T)>>)>) -> Names {
    doc.map_values(
        |s: (Seq<char>, Option<Seq<(Seq<char>, T)>>)|
            (
                s.0,
                match s.1 {
                    Some(v) => Some(v.map_values(|p: (Seq<char>, T)| p.0)),
                    None => None,
                },
            ),
    )
}

/// The section called `name`, from the section `i` on.
pub open spec fn section_from<T>(
    doc: Seq<(Seq<char>, Option<Seq<(Seq<char>, T)>>)>,
    name: Seq<char>,
    i: int,
) -> Option<Option<Seq<(Seq<char>, T)>>>
    decreases doc.len() - i,
{
    if i < 0 || i >= doc.len() {
        None
    } else if doc[i].0 == name {
        Some(doc[i].1)
    } else {
        section_from(doc, name, i + 1)
    }
}

/// What is called `name`, from the place `i` on.
pub open spec fn item_from<T>(items: Seq<(Seq<char>, T)>, name: Seq<char>, i: int) -> Option<T>
    decreases items.len() - i,
{
    if i < 0 || i >= items.len() {
        None
    } else if items[i].0 == name {
        Some(items[i].1)
    } else {
        item_from(items, name, i + 1)
    }
}

/// What a document holds under two names.
pub open spec fn item_in<T>(
    doc: Seq<(Seq<char>, Option<Seq<(Seq<char>, T)>>)>,
    section: Seq<char>,
    name: Seq<char>,
) -> Option<T> {
    match section_from(doc, section, 0) {
        Some(Some(items)) => item_from(items, name, 0),
        _ => None,
    }
}

proof fn lemma_section_at<T>(doc: Seq<(Seq<char>, Option<Seq<(Seq<char>, T)>>)>, i: int, from: int)
    requires
        named_once(doc_names(doc)),
        0 <= from <= i < doc.len(),
    ensures
        section_from(doc, doc[i].0, from) == Some(doc[i].1),
    decreases i - from,
{
    if from < i {
        assert(doc_names(doc)[from].0 != doc_names(doc)[i].0);
        lemma_section_at(doc, i, from + 1);
    }
}

proof fn lemma_item_from<T>(
    doc: Seq<(Seq<char>, Option<Seq<(Seq<char>, T)>>)>,
    i: int,
    j: int,
    from: int,
)
    requires
        named_once(doc_names(doc)),
        0 <= i < doc.len(),
        doc[i].1 is Some,
        0 <= from <= j < (doc[i].1->0).len(),
    ensures
        item_from(doc[i].1->0, (doc[i].1->0)[j].0, from) == Some((doc[i].1->0)[j].1),
    decreases j - from,
{
    if from < j {
        let items = doc_names(doc)[i].1;
        assert((items->0)[from] != (items->0)[j]);
        lemma_item_from(doc, i, j, from + 1);
    }
}

/// In a document that names nothing twice, each item is found under its two names.
pub proof fn lemma_item_at<T>(doc: Seq<(Seq<char>, Option<Seq<(Seq<char>, T)>>)>, i: int, j: int)
    requires
        named_once(doc_names(doc)),
        0 <= i < doc.len(),
        doc[i].1 is Some,
        0 <= j < (doc[i].1->0).len(),
    ensures
        item_in(doc, doc[i].0, (doc[i].1->0)[j].0) == Some((doc[i].1->0)[j].1),
{
    lemma_section_at(doc, i, 0);
    lemma_item_from(doc, i, j, 0);
}

} // verus!
