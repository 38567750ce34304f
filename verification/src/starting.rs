//! How the library is started, and what a desktop gets from it.
use vstd::prelude::*;
use vstd::string::*;
use crate::desktop::{
    bit, handed, mode_number, modifies, not_nul, pieces_for_c, style_number, taken_from_desktop,
};
use crate::display::Seg;
use crate::input::{all_digits, cursor_report, from_nought, law_a_report_is_taken_out};
use crate::key::KeyText;
use crate::launch::{at_home, below, editor_words, knows_lines, size_of_screen};
use crate::machine::{all_flushed, handled, shown, Mode, Phase, State, Style};
use crate::session::{report_taken, SessionText};
use crate::text::{join, lemma_split_push, not_empty, split, whitespace, words_from};

verus! {

/// Whether a text has no character that ends a text of C.
pub open spec fn nul_free(t: Seq<char>) -> bool {
    forall|i: int| 0 <= i < t.len() ==> #[trigger] t[i] != '\0'
}

proof fn lemma_nul_free(t: Seq<char>)
    requires
        nul_free(t),
    ensures
        t.filter(not_nul()) == t,
    decreases t.len(),
{
    reveal(Seq::filter);
    if t.len() > 0 {
        assert forall|i: int| 0 <= i < t.drop_last().len() implies #[trigger] t.drop_last()[i]
            != '\0' by {
            assert(t[i] != '\0');
        }
        lemma_nul_free(t.drop_last());
        assert(t.last() == t[t.len() - 1]);
        assert(t.drop_last().push(t.last()) =~= t);
    }
}

proof fn lemma_filtered_is_free(t: Seq<char>)
    ensures
        nul_free(t.filter(not_nul())),
    decreases t.len(),
{
    reveal(Seq::filter);
    if t.len() > 0 {
        lemma_filtered_is_free(t.drop_last());
    }
}

/// What is confirmed is handed to a desktop as it is, without what C cannot hold.
pub proof fn law_a_desktop_gets_what_is_confirmed(s: State, commit: Seq<char>)
    ensures
        nul_free(commit) ==> handed(s, commit).commit == commit,
        nul_free(handed(s, commit).commit),
{
    lemma_filtered_is_free(commit);
    if nul_free(commit) {
        lemma_nul_free(commit);
    }
}

/// Whether a style belongs to what is being typed.
pub open spec fn is_typed(s: Style) -> bool {
    s == Style::Reading || s == Style::ReadingCursor || s == Style::Romaji || s == Style::Candidate
        || s == Style::Completion
}

/// The styles of what is being typed have a number each, and no other style has one; the modes
/// have a number each too.
pub proof fn law_numbers_tell_apart(a: Style, b: Style, m: Mode, k: Mode)
    ensures
        style_number(a) is Some <==> is_typed(a),
        style_number(a) is Some && style_number(a) == style_number(b) ==> a == b,
        mode_number(m) == mode_number(k) ==> m == k,
        0 <= mode_number(m) < 5,
{
}

/// What is being typed is handed to a desktop piece by piece: nothing of it is left out, and
/// nothing else is among it.
pub proof fn law_a_desktop_gets_what_is_typed(v: Seq<Seg>, n: int)
    requires
        0 <= n <= v.len(),
        forall|i: int| 0 <= i < n ==> is_typed((#[trigger] v[i]).style) && nul_free(v[i].text),
    ensures
        pieces_for_c(v, n).len() == n,
        forall|i: int|
            0 <= i < n ==> (#[trigger] pieces_for_c(v, n)[i]).0 == v[i].text && Some(
                pieces_for_c(v, n)[i].1,
            ) == style_number(v[i].style),
    decreases n,
{
    if n > 0 {
        law_a_desktop_gets_what_is_typed(v, n - 1);
        assert(is_typed(v[n - 1].style));
        lemma_nul_free(v[n - 1].text);
    }
}

/// A piece that is not being typed is passed over.
pub proof fn law_a_desktop_gets_no_marks(v: Seq<Seg>, n: int)
    requires
        0 < n <= v.len(),
        !is_typed(v[n - 1].style),
    ensures
        pieces_for_c(v, n) == pieces_for_c(v, n - 1),
{
}

/// While a candidate is chosen a desktop gets all of them in their order, with the place of
/// the one that is chosen; at other times it gets none.
pub proof fn law_a_desktop_gets_the_candidates(s: State, commit: Seq<char>, i: int)
    requires
        0 <= i < s.candidates.len(),
        nul_free(shown(s, s.candidates[i])),
    ensures
        s.phase == Phase::Selecting ==> ({
            let h = handed(s, commit);
            &&& h.candidates.len() == s.candidates.len()
            &&& h.candidates[i].0 == shown(s, s.candidates[i])
            &&& s.candidates[i].cand.annotation is None ==> h.candidates[i].1.len() == 0
            &&& s.candidates[i].cand.annotation is Some && nul_free(
                s.candidates[i].cand.annotation->0,
            ) ==> h.candidates[i].1 == s.candidates[i].cand.annotation->0
            &&& h.selected == s.cand_index
            &&& nul_free(s.cfg.select) ==> h.labels == s.cfg.select
        }),
        s.phase != Phase::Selecting ==> handed(s, commit).candidates.len() == 0 && !handed(
            s,
            commit,
        ).list_visible && handed(s, commit).labels.len() == 0 && handed(s, commit).selected == 0,
{
    lemma_nul_free(shown(s, s.candidates[i]));
    if s.candidates[i].cand.annotation is Some && nul_free(s.candidates[i].cand.annotation->0) {
        lemma_nul_free(s.candidates[i].cand.annotation->0);
    }
    if nul_free(s.cfg.select) {
        lemma_nul_free(s.cfg.select);
    }
}

proof fn lemma_paths_split(v: Seq<Seq<char>>)
    requires
        v.len() > 0,
        forall|i: int| 0 <= i < v.len() ==> !(#[trigger] v[i]).contains(':'),
    ensures
        split(join(v, ":"@), ':') == v,
    decreases v.len(),
{
    reveal_strlit(":");
    let w = v.last();
    assert(!v[v.len() - 1].contains(':'));
    if v.len() == 1 {
        crate::text::lemma_first_of_none(w, ':');
        assert(split(w, ':') =~= seq![w]);
        assert(v =~= seq![w]);
    } else {
        let u = v.drop_last();
        assert forall|i: int| 0 <= i < u.len() implies !(#[trigger] u[i]).contains(':') by {
            assert(u[i] == v[i]);
        }
        lemma_paths_split(u);
        assert(":"@ =~= seq![':']);
        lemma_split_push(join(u, ":"@), w, ':');
        assert(u.push(w) =~= v);
    }
}

/// Paths that are written with colons between them are read again, and the empty ones among
/// them are left out.
pub proof fn law_paths_stand_between_colons(v: Seq<Seq<char>>)
    requires
        v.len() > 0,
        forall|i: int| 0 <= i < v.len() ==> !(#[trigger] v[i]).contains(':'),
    ensures
        split(join(v, ":"@), ':').filter(not_empty()) == v.filter(not_empty()),
        (forall|i: int| 0 <= i < v.len() ==> (#[trigger] v[i]).len() > 0) ==> split(
            join(v, ":"@),
            ':',
        ).filter(not_empty()) == v,
{
    lemma_paths_split(v);
    if forall|i: int| 0 <= i < v.len() ==> (#[trigger] v[i]).len() > 0 {
        lemma_none_empty(v);
    }
}

proof fn lemma_none_empty(v: Seq<Seq<char>>)
    requires
        forall|i: int| 0 <= i < v.len() ==> (#[trigger] v[i]).len() > 0,
    ensures
        v.filter(not_empty()) == v,
    decreases v.len(),
{
    reveal(Seq::filter);
    if v.len() > 0 {
        let u = v.drop_last();
        assert forall|i: int| 0 <= i < u.len() implies (#[trigger] u[i]).len() > 0 by {
            assert(v[i].len() > 0);
        }
        lemma_none_empty(u);
        assert(v[v.len() - 1].len() > 0);
        assert(u.push(v.last()) =~= v);
    }
}

/// A path below a directory begins with the directory and ends with the path, with one
/// stroke between them; one that starts at the root stays.
pub proof fn law_paths_below_a_directory(base: Seq<char>, path: Seq<char>)
    requires
        path.len() > 0,
    ensures
        path[0] == '/' ==> below(base, path) == path,
        path[0] != '/' && base.len() > 0 ==> ({
            let r = below(base, path);
            &&& base.is_prefix_of(r)
            &&& r.len() > path.len()
            &&& r.skip(r.len() - path.len()) == path
            &&& r[r.len() - path.len() - 1] == '/'
            &&& r.len() == base.len() + path.len() + if base.last() == '/' {
                0int
            } else {
                1int
            }
        }),
{
    if path[0] != '/' && base.len() > 0 {
        let r = below(base, path);
        assert(r.subrange(0, base.len() as int) =~= base);
        assert(r.skip(r.len() - path.len()) =~= path);
    }
}

proof fn lemma_word_in_it(t: Seq<char>, i: int)
    requires
        0 <= i < t.len(),
        exists|j: int| i <= j < t.len() && !whitespace(#[trigger] t[j]),
    ensures
        words_from(t, i).len() > 0,
    decreases t.len() - i,
{
    if whitespace(t[i]) {
        let j = choose|j: int| i <= j < t.len() && !whitespace(#[trigger] t[j]);
        assert(i + 1 <= j);
        lemma_word_in_it(t, i + 1);
    }
}

/// The editor for full screens is asked before the other one, and either before the one that
/// is nearly everywhere.
pub proof fn law_editors_are_asked_in_order(
    visual: Option<Seq<char>>,
    editor: Option<Seq<char>>,
    i: int,
)
    requires
        i == 0 ==> visual is Some && exists|j: int|
            0 <= j < visual->0.len() && !whitespace(#[trigger] visual->0[j]),
        i == 1 ==> editor is Some && exists|j: int|
            0 <= j < editor->0.len() && !whitespace(#[trigger] editor->0[j]),
    ensures
        i == 0 ==> editor_words(0, visual, editor) == words_from(visual->0, 0)
            && words_from(visual->0, 0).len() > 0,
        i == 1 ==> editor_words(1, visual, editor) == words_from(editor->0, 0)
            && words_from(editor->0, 0).len() > 0,
        editor_words(2, visual, editor) == words_from("vi"@, 0),
        visual is None ==> editor_words(0, visual, editor).len() == 0,
        editor is None ==> editor_words(1, visual, editor).len() == 0,
        i > 2 ==> editor_words(i, visual, editor).len() == 0,
{
    if i == 0 {
        lemma_word_in_it(visual->0, 0);
    } else if i == 1 {
        lemma_word_in_it(editor->0, 0);
    }
}

/// A report that was asked for tells where the cursor is, and does not reach the program; one
/// that was not asked for is left where it is.
pub proof fn law_a_report_sets_the_cursor(
    s: SessionText,
    before: Seq<u8>,
    row: Seq<u8>,
    col: Seq<u8>,
    later: Seq<u8>,
)
    requires
        forall|j: int| 0 <= j < before.len() ==> #[trigger] before[j] != 0x1b,
        row.len() > 0 && all_digits(row),
        col.len() > 0 && all_digits(col),
    ensures
        ({
            let data = before + cursor_report(row, col) + later;
            let (s1, rest) = report_taken(s, data);
            if s.awaiting_report {
                &&& rest == before + later
                &&& s1.anchored && !s1.awaiting_report
                &&& from_nought(row) < s.screen.rows ==> s1.screen.row == from_nought(row)
                &&& from_nought(row) >= s.screen.rows ==> s1.screen.row == s.screen.rows - 1
                &&& from_nought(col) < s.screen.cols ==> s1.screen.col == from_nought(col)
                &&& from_nought(col) >= s.screen.cols ==> s1.screen.col == s.screen.cols - 1
                &&& s1.screen.grid == s.screen.grid
                &&& s1.engine == s.engine && s1.painted == s.painted && s1.decoder == s.decoder
            } else {
                s1 == s && rest == data
            }
        }),
{
    reveal(report_taken);
    law_a_report_is_taken_out(before, row, col, later);
}

/// A path that begins with a tilde and a stroke begins with the home directory and ends with
/// what follows the stroke; every other path stays, and so does that one where nobody knows
/// the home directory.
pub proof fn law_a_tilde_is_the_home_directory(path: Seq<char>, rest: Seq<char>, home: Seq<char>)
    requires
        home.len() > 0,
        rest.len() > 0,
        rest[0] != '/',
    ensures
        home.is_prefix_of(at_home("~/"@ + rest, Some(home))),
        rest.is_suffix_of(at_home("~/"@ + rest, Some(home))),
        at_home(path, None) == path,
        path.len() < 2 || path[0] != '~' || path[1] != '/' ==> at_home(path, Some(home)) == path,
{
    reveal_strlit("~/");
    let p = "~/"@ + rest;
    assert("~/"@ =~= p.subrange(0, 2));
    assert(p.skip(2) =~= rest);
    law_paths_below_a_directory(home, rest);
    let r = below(home, rest);
    assert(rest =~= r.subrange(r.len() - rest.len(), r.len() as int)) by {
        assert(r.skip(r.len() - rest.len()) =~= r.subrange(r.len() - rest.len(), r.len() as int));
    }
    if "~/"@.is_prefix_of(path) {
        assert("~/"@[0] == path.subrange(0, 2)[0]);
        assert("~/"@[1] == path.subrange(0, 2)[1]);
    }
}

/// A screen has the size that is told, and it always has one.
pub proof fn law_a_screen_has_a_size(rows: u16, cols: u16)
    ensures
        rows > 0 && cols > 0 ==> size_of_screen(true, rows, cols) == (rows, cols),
        rows == 0 || cols == 0 ==> size_of_screen(true, rows, cols) == (24u16, 80u16),
        size_of_screen(false, rows, cols) == (24u16, 80u16),
{
}

/// The editors that are known to take the line to start at are those of the families of vi,
/// of Emacs and a few more; nothing else is.
pub proof fn law_some_editors_take_a_line(name: Seq<char>)
    ensures
        knows_lines("vi"@) && knows_lines("vim"@) && knows_lines("nvim"@) && knows_lines("view"@),
        knows_lines("emacs"@) && knows_lines("emacsclient"@),
        knows_lines("nano"@) && knows_lines("hx"@) && knows_lines("helix"@) && knows_lines("kak"@),
        knows_lines(name) ==> 2 <= name.len() <= 11 && forall|i: int|
            0 <= i < name.len() ==> 'a' <= #[trigger] name[i] <= 'z',
{
    reveal_strlit("vi");
    reveal_strlit("vim");
    reveal_strlit("nvim");
    reveal_strlit("view");
    reveal_strlit("emacs");
    reveal_strlit("emacsclient");
    reveal_strlit("nano");
    reveal_strlit("hx");
    reveal_strlit("helix");
    reveal_strlit("kak");
}

/// On a desktop a key that only modifies others changes nothing. A key that is not for the
/// engine confirms what is being typed and is left to the program; any other key does what it
/// does in a terminal, and the program gets it where the engine would pass it on.
pub proof fn law_keys_are_taken_from_a_desktop(s: State, keysym: u32, modifiers: u32)
    ensures
        ({
            let r = taken_from_desktop(s, keysym, modifiers);
            &&& 0xffe1 <= keysym <= 0xffee ==> r.0 == s && r.1.len() == 0 && !r.2
            &&& !modifies(keysym) && (bit(modifiers, 8) || bit(modifiers, 64)) ==> r.0
                == all_flushed(s).0 && r.1 == all_flushed(s).1 && !r.2
            &&& !bit(modifiers, 8) && !bit(modifiers, 64) && !bit(modifiers, 4) && 0x20 <= keysym
                <= 0x7e ==> ({
                let h = handled(s, KeyText::Char(keysym as char));
                r.0 == h.0 && r.1 == h.1.commit && r.2 == (h.1.passthrough is None)
            })
        }),
{
}

} // verus!
