//! Small decisions around starting and being started.
use vstd::prelude::*;
use vstd::string::*;
use crate::jsonc::plain_json;
use crate::snippet::{json_shape, parse, shape_snippets, SnippetError};
use crate::text::{
    chars_of, lemma_take_next, not_empty, slice_text, split, split_text, split_words, starts_with,
    texts, words_from,
};

verus! {

/// The paths of a list that is separated by colons; empty ones are left out.
pub fn split_paths(list: &str) -> (r: Vec<String>)
    ensures
        texts(r@) == split(list@, ':').filter(not_empty()),
{
    let parts = split_text(list, ':');
    let ghost all = texts(parts@);
    let mut out: Vec<String> = Vec::new();
    let mut i: usize = 0;
    assert(all.take(0).filter(not_empty()) =~= seq![]);
    assert(texts(out@) =~= seq![]);
    while i < parts.len()
        invariant
            i <= parts@.len(),
            all == texts(parts@),
            texts(out@) == all.take(i as int).filter(not_empty()),
        decreases parts.len() - i,
    {
        let ghost had = texts(out@);
        proof {
            lemma_take_next(all, i as int);
            assert(all[i as int] == parts@[i as int]@);
            Seq::lemma_filter_push(all.take(i as int), all[i as int], not_empty());
        }
        if !parts[i].as_str().is_empty() {
            let one = parts[i].clone();
            out.push(one);
            assert(texts(out@) =~= had.push(one@));
        }
        i = i + 1;
    }
    assert(all.take(i as int) =~= all);
    out
}

/// One path below another; a path that starts at the root stays as it is.
pub open spec fn below(base: Seq<char>, path: Seq<char>) -> Seq<char> {
    if base.len() == 0 || (path.len() > 0 && path[0] == '/') {
        path
    } else if base.last() == '/' {
        base + path
    } else {
        base + seq!['/'] + path
    }
}

/// A path in which `~/` at the start stands for the home directory, if there is one.
pub open spec fn at_home(path: Seq<char>, home: Option<Seq<char>>) -> Seq<char> {
    match home {
        Some(h) if "~/"@.is_prefix_of(path) => below(h, path.skip(2)),
        _ => path,
    }
}

/// A path in which `~/` at the start stands for the home directory, if there is one.
pub fn expand_home(path: &str, home: Option<&str>) -> (r: String)
    ensures
        r@ == at_home(path@, said(home)),
{
    proof {
        reveal_strlit("~/");
    }
    match home {
        Some(h) => {
            if !starts_with(path, "~/") {
                return path.to_owned();
            }
            let v = chars_of(path);
            let rest = slice_text(&v, 2, v.len());
            assert(rest@ =~= path@.skip(2));
            let base = chars_of(h);
            if base.len() == 0 || (v.len() > 2 && v[2] == '/') {
                return rest;
            }
            let mut out = h.to_owned();
            if base[base.len() - 1] != '/' {
                out.push('/');
            }
            out.append(rest.as_str());
            assert(out@ =~= below(h@, path@.skip(2)));
            out
        },
        None => path.to_owned(),
    }
}

/// The editors in the order in which they are tried: the one for full screens, the one for
/// all terminals, and the one that is nearly everywhere.
pub open spec fn editor_asked(
    i: int,
    visual: Option<Seq<char>>,
    editor: Option<Seq<char>>,
) -> Option<Seq<char>> {
    if i == 0 {
        visual
    } else if i == 1 {
        editor
    } else if i == 2 {
        Some("vi"@)
    } else {
        None
    }
}

/// The program and the arguments of an editor; none where nothing but white space was said.
pub open spec fn editor_words(
    i: int,
    visual: Option<Seq<char>>,
    editor: Option<Seq<char>>,
) -> Seq<Seq<char>> {
    match editor_asked(i, visual, editor) {
        Some(s) => words_from(s, 0),
        None => seq![],
    }
}

/// What an environment variable says, if it is set.
pub open spec fn said(v: Option<&str>) -> Option<Seq<char>> {
    match v {
        Some(s) => Some(s@),
        None => None,
    }
}

/// The next editor to try, after the first `tried` of them could not be found: which one it
/// is, and its program with its arguments. Those of which nothing is said are passed over.
pub fn next_editor(tried: usize, visual: Option<&str>, editor: Option<&str>) -> (r: Option<
    (usize, Vec<String>),
>)
    ensures
        match r {
            Some((i, words)) => {
                &&& tried <= i < 3
                &&& texts(words@) == editor_words(i as int, said(visual), said(editor))
                &&& words@.len() > 0
                &&& forall|j: int|
                    tried <= j < i ==> (#[trigger] editor_words(
                        j,
                        said(visual),
                        said(editor),
                    )).len() == 0
            },
            None => forall|j: int|
                tried <= j ==> (#[trigger] editor_words(j, said(visual), said(editor))).len() == 0,
        },
        tried <= 2 ==> r is Some,
{
    let mut i: usize = tried;
    proof {
        lemma_vi_is_a_word();
    }
    while i < 3
        invariant
            tried <= i,
            i <= 3 || i == tried,
            words_from("vi"@, 0).len() > 0,
            forall|j: int|
                tried <= j < i ==> (#[trigger] editor_words(j, said(visual), said(editor))).len()
                    == 0,
        decreases 3 - i,
    {
        let asked: Option<&str> = if i == 0 {
            visual
        } else if i == 1 {
            editor
        } else {
            Some("vi")
        };
        if let Some(s) = asked {
            let words = split_words(s);
            assert(texts(words@).len() == words@.len());
            if words.len() > 0 {
                return Some((i, words));
            }
        }
        i = i + 1;
        proof {
            assert(editor_words(i - 1, said(visual), said(editor)).len() == 0);
        }
    }
    assert(tried <= 2 ==> editor_words(2, said(visual), said(editor)).len() > 0);
    None
}

proof fn lemma_vi_is_a_word()
    ensures
        words_from("vi"@, 0).len() > 0,
{
    reveal_strlit("vi");
}

/// Whether an editor takes `+N` for the line to start at.
pub open spec fn knows_lines(name: Seq<char>) -> bool {
    name == "vi"@ || name == "vim"@ || name == "nvim"@ || name == "view"@ || name == "emacs"@ || name
        == "emacsclient"@ || name == "nano"@ || name == "hx"@ || name == "helix"@ || name == "kak"@
}

/// Whether an editor takes `+N` for the line to start at. Others would take it for a file.
pub fn takes_line(name: &str) -> (r: bool)
    ensures
        r == knows_lines(name@),
{
    *name == *"vi" || *name == *"vim" || *name == *"nvim" || *name == *"view" || *name == *"emacs"
        || *name == *"emacsclient" || *name == *"nano" || *name == *"hx" || *name == *"helix"
        || *name == *"kak"
}

/// The size of the screen; where it cannot be told, that of the oldest terminals.
pub open spec fn size_of_screen(told: bool, rows: u16, cols: u16) -> (u16, u16) {
    if told && rows != 0 && cols != 0 {
        (rows, cols)
    } else {
        (24u16, 80u16)
    }
}

/// The size of the screen; where it cannot be told, that of the oldest terminals.
pub fn screen_size(told: bool, rows: u16, cols: u16) -> (r: (u16, u16))
    ensures
        r == size_of_screen(told, rows, cols),
{
    if told && rows != 0 && cols != 0 {
        (rows, cols)
    } else {
        (24, 80)
    }
}

/// What an editor has left of a file of snippets to which an empty one had been added.
pub enum Edited {
    /// Nothing was written: the empty one is to be taken out again.
    Untouched,
    /// The file can be read, and holds so many snippets.
    Read(usize),
    /// The file cannot be read. It is left as it is: whoever wrote it will mend it.
    Broken(SnippetError),
}

/// Looks at what an editor has left.
pub fn edited(offered: &str, left: &str) -> (r: Edited)
    ensures
        if left@ == offered@ {
            r is Untouched
        } else {
            match json_shape(plain_json(left@)) {
                Some(Some(v)) => r is Read && r->Read_0 == shape_snippets(v).len(),
                Some(None) => r == Edited::Broken(SnippetError::NotObject),
                None => r is Broken && r->Broken_0 is NotJson,
            }
        },
{
    if *left == *offered {
        return Edited::Untouched;
    }
    match parse(left) {
        Ok(v) => Edited::Read(v.len()),
        Err(e) => Edited::Broken(e),
    }
}

} // verus!
