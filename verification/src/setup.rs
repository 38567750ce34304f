//! What is written in the setup is what holds.
use vstd::prelude::*;
use vstd::string::*;
use crate::config::{
    behavior_error, candidates_error, completion_of, configured, default_config, key_read,
    keys_read, keys_read_upto, kutouten_of, layout_of, marker_of, okuri_match_of, romaji_of,
    select_read, select_upto, setting, symbol_place, symbols_in, symbols_upto, Doc,
    DynamicCompletion, Layout, Marker, OkuriMatch, SettingText,
};
use crate::key::KeyText;
use crate::romaji::Kutouten;
use crate::width::columns;

verus! {

/// A word for the place of the list is one of two.
pub proof fn law_words_for_the_layout(w: Seq<char>)
    ensures
        layout_of(w) == Some(Layout::Inline) <==> w == "inline"@,
        layout_of(w) == Some(Layout::Float) <==> w == "float"@,
{
    reveal_strlit("inline");
    assert("inline"@.len() == 6 && "inline"@[0] == 'i');
    reveal_strlit("float");
    assert("float"@.len() == 5 && "float"@[0] == 'f');
}

/// A word for the mark of the mode is one of five.
pub proof fn law_words_for_the_marker(w: Seq<char>)
    ensures
        marker_of(w) == Some(Marker::Off) <==> w == "off"@,
        marker_of(w) == Some(Marker::Cell) <==> w == "cell"@,
        marker_of(w) == Some(Marker::Symbol) <==> w == "symbol"@,
        marker_of(w) == Some(Marker::Beside) <==> w == "beside"@,
        marker_of(w) == Some(Marker::Letter) <==> w == "letter"@,
{
    reveal_strlit("off");
    assert("off"@.len() == 3 && "off"@[0] == 'o');
    reveal_strlit("cell");
    assert("cell"@.len() == 4 && "cell"@[0] == 'c');
    reveal_strlit("symbol");
    assert("symbol"@.len() == 6 && "symbol"@[0] == 's');
    reveal_strlit("beside");
    assert("beside"@.len() == 6 && "beside"@[0] == 'b');
    reveal_strlit("letter");
    assert("letter"@.len() == 6 && "letter"@[0] == 'l');
}

/// A word for the punctuation is one of four.
pub proof fn law_words_for_the_punctuation(w: Seq<char>)
    ensures
        kutouten_of(w) == Some(Kutouten::Jp) <==> w == "jp"@,
        kutouten_of(w) == Some(Kutouten::En) <==> w == "en"@,
        kutouten_of(w) == Some(Kutouten::JpEn) <==> w == "jp-en"@,
        kutouten_of(w) == Some(Kutouten::EnJp) <==> w == "en-jp"@,
{
    reveal_strlit("jp");
    assert("jp"@.len() == 2 && "jp"@[0] == 'j');
    reveal_strlit("en");
    assert("en"@.len() == 2 && "en"@[0] == 'e');
    reveal_strlit("jp-en");
    assert("jp-en"@.len() == 5 && "jp-en"@[0] == 'j');
    reveal_strlit("en-jp");
    assert("en-jp"@.len() == 5 && "en-jp"@[0] == 'e');
}

/// A word for the spellings, for the completions or for the okurigana is one of a few.
pub proof fn law_other_words(w: Seq<char>)
    ensures
        romaji_of(w) == Some(false) <==> w == "default"@,
        romaji_of(w) == Some(true) <==> w == "azik"@,
        completion_of(w) == Some(DynamicCompletion::Off) <==> w == "off"@,
        completion_of(w) == Some(DynamicCompletion::Single) <==> w == "single"@,
        completion_of(w) == Some(DynamicCompletion::Multiple) <==> w == "multiple"@,
        okuri_match_of(w) == Some(OkuriMatch::Off) <==> w == "off"@,
        okuri_match_of(w) == Some(OkuriMatch::First) <==> w == "first"@,
        okuri_match_of(w) == Some(OkuriMatch::Only) <==> w == "only"@,
{
    reveal_strlit("default");
    assert("default"@.len() == 7 && "default"@[0] == 'd');
    reveal_strlit("azik");
    assert("azik"@.len() == 4 && "azik"@[0] == 'a');
    reveal_strlit("off");
    assert("off"@.len() == 3 && "off"@[0] == 'o');
    reveal_strlit("single");
    assert("single"@.len() == 6 && "single"@[0] == 's');
    reveal_strlit("multiple");
    assert("multiple"@.len() == 8 && "multiple"@[0] == 'm');
    reveal_strlit("first");
    assert("first"@.len() == 5 && "first"@[0] == 'f');
    reveal_strlit("only");
    assert("only"@.len() == 4 && "only"@[0] == 'o');
}

/// Whether the keys of a list are those that are written under its name, where they can be
/// read, and the usual ones where nothing is written.
pub open spec fn set_by(
    doc: Doc,
    part: Seq<char>,
    name: Seq<char>,
    keys: Seq<KeyText>,
    usual: Seq<KeyText>,
) -> bool {
    &&& setting(doc, part, name) is None ==> keys == usual
    &&& setting(doc, part, name) is Some && keys_read(name, setting(doc, part, name)->0) is Ok
        ==> keys == keys_read(name, setting(doc, part, name)->0)->Ok_0
}

/// The keys for the modes are set under their names.
pub proof fn law_keys_for_the_modes_are_set(doc: Doc)
    ensures
        ({
            let c = configured(doc);
            let d = default_config();
            &&& set_by(doc, "keys"@, "kana"@, c.kana, d.kana)
            &&& set_by(doc, "keys"@, "ascii"@, c.ascii, d.ascii)
            &&& set_by(doc, "keys"@, "zenkaku"@, c.zenkaku, d.zenkaku)
            &&& set_by(doc, "keys"@, "katakana"@, c.katakana, d.katakana)
            &&& set_by(doc, "keys"@, "hankaku_katakana"@, c.hankaku_katakana, d.hankaku_katakana)
            &&& set_by(doc, "keys"@, "abbrev"@, c.abbrev, d.abbrev)
        }),
{
}

/// The keys for conversions are set under their names.
pub proof fn law_keys_for_conversions_are_set(doc: Doc)
    ensures
        ({
            let c = configured(doc);
            let d = default_config();
            &&& set_by(doc, "keys"@, "start_conversion"@, c.start_conversion, d.start_conversion)
            &&& set_by(doc, "keys"@, "convert"@, c.convert, d.convert)
            &&& set_by(doc, "keys"@, "previous"@, c.previous, d.previous)
            &&& set_by(doc, "keys"@, "confirm"@, c.confirm, d.confirm)
            &&& set_by(doc, "keys"@, "cancel"@, c.cancel, d.cancel)
            &&& set_by(doc, "keys"@, "purge"@, c.purge, d.purge)
        }),
{
}

/// The keys for completions are set under their names.
pub proof fn law_keys_for_completions_are_set(doc: Doc)
    ensures
        ({
            let c = configured(doc);
            let d = default_config();
            &&& set_by(doc, "keys"@, "complete"@, c.complete, d.complete)
            &&& set_by(doc, "keys"@, "complete_previous"@, c.complete_previous, d.complete_previous)
            &&& set_by(doc, "keys"@, "affix"@, c.affix, d.affix)
            &&& set_by(doc, "keys"@, "sticky"@, c.sticky, d.sticky)
            &&& set_by(doc, "keys"@, "snippet_edit"@, c.snippet_edit, d.snippet_edit)
            &&& set_by(doc, "keys"@, "reload"@, c.reload, d.reload)
        }),
{
}

/// The keys for editing are set under their names.
pub proof fn law_keys_for_editing_are_set(doc: Doc)
    ensures
        ({
            let c = configured(doc);
            let d = default_config();
            &&& set_by(doc, "keys"@, "move_left"@, c.move_left, d.move_left)
            &&& set_by(doc, "keys"@, "move_right"@, c.move_right, d.move_right)
            &&& set_by(doc, "keys"@, "move_home"@, c.move_home, d.move_home)
            &&& set_by(doc, "keys"@, "move_end"@, c.move_end, d.move_end)
            &&& set_by(doc, "keys"@, "delete_forward"@, c.delete_forward, d.delete_forward)
            &&& set_by(doc, "keys"@, "backspace"@, c.backspace, d.backspace)
            &&& set_by(doc, "behavior"@, "ascii_keys"@, c.ascii_keys, d.ascii_keys)
        }),
{
}

proof fn lemma_keys_upto(specs: Seq<Seq<char>>, n: int, j: int, k: KeyText)
    requires
        0 <= j < n <= specs.len(),
        forall|i: int| 0 <= i < n ==> key_read(#[trigger] specs[i]) is Ok,
    ensures
        keys_read_upto(specs, n) is Ok,
        key_read(specs[j])->Ok_0.contains(k) ==> keys_read_upto(specs, n)->Ok_0.contains(k),
    decreases n,
{
    if n > 1 && j < n - 1 {
        lemma_keys_upto(specs, n - 1, j, k);
    } else if n > 1 {
        lemma_keys_upto(specs, n - 1, 0, k);
    } else {
        assert(keys_read_upto(specs, 0) == Ok::<Seq<KeyText>, Seq<char>>(seq![]));
    }
    let had = keys_read_upto(specs, n - 1)->Ok_0;
    let more = key_read(specs[n - 1])->Ok_0;
    assert(key_read(specs[n - 1]) is Ok);
    assert(keys_read_upto(specs, n)->Ok_0 == had + more);
    if key_read(specs[j])->Ok_0.contains(k) {
        if j < n - 1 {
            let x = choose|x: int| 0 <= x < had.len() && had[x] == k;
            assert((had + more)[x] == k);
        } else {
            let x = choose|x: int| 0 <= x < more.len() && more[x] == k;
            assert((had + more)[had.len() + x] == k);
        }
    }
}

proof fn lemma_keys_upto_only(specs: Seq<Seq<char>>, n: int, k: KeyText) -> (j: int)
    requires
        0 <= n <= specs.len(),
        keys_read_upto(specs, n) is Ok,
        keys_read_upto(specs, n)->Ok_0.contains(k),
    ensures
        0 <= j < n,
        key_read(specs[j]) is Ok,
        key_read(specs[j])->Ok_0.contains(k),
    decreases n,
{
    let all = keys_read_upto(specs, n)->Ok_0;
    let x = choose|x: int| 0 <= x < all.len() && all[x] == k;
    let had = keys_read_upto(specs, n - 1)->Ok_0;
    let more = key_read(specs[n - 1])->Ok_0;
    assert(all == had + more);
    if x < had.len() {
        assert(had[x] == k);
        lemma_keys_upto_only(specs, n - 1, k)
    } else {
        assert(more[x - had.len()] == k);
        n - 1
    }
}

/// A list of keys holds the keys of all the ways that are written for it, and no others. It
/// is refused where one of them cannot be read.
pub proof fn law_a_list_has_all_its_keys(specs: Seq<Seq<char>>, k: KeyText)
    ensures
        keys_read_upto(specs, specs.len() as int) is Ok <==> forall|i: int|
            0 <= i < specs.len() ==> key_read(#[trigger] specs[i]) is Ok,
        keys_read_upto(specs, specs.len() as int) is Ok ==> (keys_read_upto(
            specs,
            specs.len() as int,
        )->Ok_0.contains(k) <==> exists|i: int|
            0 <= i < specs.len() && (#[trigger] key_read(specs[i]))->Ok_0.contains(k)),
{
    let n = specs.len() as int;
    lemma_keys_all_ok(specs, n);
    if keys_read_upto(specs, n) is Ok {
        if keys_read_upto(specs, n)->Ok_0.contains(k) {
            let j = lemma_keys_upto_only(specs, n, k);
            assert(key_read(specs[j])->Ok_0.contains(k));
        }
        if exists|i: int| 0 <= i < n && (#[trigger] key_read(specs[i]))->Ok_0.contains(k) {
            let i = choose|i: int| 0 <= i < n && (#[trigger] key_read(specs[i]))->Ok_0.contains(k);
            lemma_keys_upto(specs, n, i, k);
        }
    }
}

proof fn lemma_keys_all_ok(specs: Seq<Seq<char>>, n: int)
    requires
        0 <= n <= specs.len(),
    ensures
        keys_read_upto(specs, n) is Ok <==> forall|i: int|
            0 <= i < n ==> key_read(#[trigger] specs[i]) is Ok,
    decreases n,
{
    if n > 0 {
        lemma_keys_all_ok(specs, n - 1);
        if keys_read_upto(specs, n) is Ok {
            assert(key_read(specs[n - 1]) is Ok);
        }
    }
}

/// Words, numbers and truth values are taken as they are written, and leave everything else
/// as it is.
pub proof fn law_settings_are_taken(doc: Doc)
    ensures
        ({
            let c = configured(doc);
            let d = default_config();
            let inline = setting(doc, "candidates"@, "inline"@);
            let layout = setting(doc, "candidates"@, "layout"@);
            let marker = setting(doc, "behavior"@, "mode_marker"@);
            let kutouten = setting(doc, "behavior"@, "kutouten"@);
            let romaji = setting(doc, "behavior"@, "romaji"@);
            let combined = setting(doc, "behavior"@, "learn_combined"@);
            let completion = setting(doc, "behavior"@, "dynamic_completion"@);
            let okuri = setting(doc, "behavior"@, "okuri_match"@);
            let order = setting(doc, "behavior"@, "context_order"@);
            let half = setting(doc, "behavior"@, "context_half_distance"@);
            &&& inline matches Some(SettingText::Number(n)) ==> (1 <= n <= usize::MAX
                ==> c.inline_candidates == n)
            &&& half matches Some(SettingText::Number(n)) ==> (1 <= n <= u32::MAX
                ==> c.context_half_distance == n)
            &&& combined matches Some(SettingText::Flag(b)) ==> c.learn_combined == b
            &&& order matches Some(SettingText::Flag(b)) ==> c.context_order == b
            &&& layout is Some && candidates_error("layout"@, layout->0) is None ==> Some(c.layout)
                == layout_of(layout->0->Text_0)
            &&& marker is Some && behavior_error("mode_marker"@, marker->0) is None ==> Some(
                c.mode_marker,
            ) == marker_of(marker->0->Text_0)
            &&& kutouten is Some && behavior_error("kutouten"@, kutouten->0) is None ==> Some(
                c.kutouten,
            ) == kutouten_of(kutouten->0->Text_0)
            &&& romaji is Some && behavior_error("romaji"@, romaji->0) is None ==> Some(c.azik)
                == romaji_of(romaji->0->Text_0)
            &&& completion is Some && behavior_error("dynamic_completion"@, completion->0) is None
                ==> Some(c.dynamic_completion) == completion_of(completion->0->Text_0)
            &&& okuri is Some && behavior_error("okuri_match"@, okuri->0) is None ==> Some(
                c.okuri_match,
            ) == okuri_match_of(okuri->0->Text_0)
            &&& inline is None ==> c.inline_candidates == 4
            &&& half is None ==> c.context_half_distance == 200
            &&& combined is None ==> c.learn_combined
            &&& order is None ==> !c.context_order
            &&& layout is None ==> c.layout == Layout::Inline
            &&& marker is None ==> c.mode_marker == Marker::Cell
            &&& kutouten is None ==> c.kutouten == Kutouten::Jp
            &&& romaji is None ==> !c.azik
            &&& completion is None ==> c.dynamic_completion == DynamicCompletion::Off
            &&& okuri is None ==> c.okuri_match == OkuriMatch::First
        }),
{
    lemma_names_apart();
}

proof fn lemma_names_apart()
    ensures
        "layout"@ != "inline"@,
        "mode_marker"@ != "ascii_keys"@,
        "kutouten"@ != "ascii_keys"@ && "kutouten"@ != "mode_marker"@ && "kutouten"@
            != "mode_symbols"@ && "kutouten"@ != "romaji"@,
        "romaji"@ != "ascii_keys"@ && "romaji"@ != "mode_marker"@ && "romaji"@ != "mode_symbols"@,
        forall|w: Seq<char>|
            w == "dynamic_completion"@ || w == "okuri_match"@ ==> #[trigger] w.len() != 0 && w
                != "ascii_keys"@ && w != "mode_marker"@ && w != "mode_symbols"@ && w != "romaji"@
                && w != "kutouten"@ && w != "auto_start_henkan"@ && w != "learn_combined"@,
        "okuri_match"@ != "dynamic_completion"@,
{
    reveal_strlit("layout");
    assert("layout"@.len() == 6 && "layout"@[0] == 'l');
    reveal_strlit("inline");
    assert("inline"@.len() == 6 && "inline"@[0] == 'i');
    reveal_strlit("ascii_keys");
    assert("ascii_keys"@.len() == 10 && "ascii_keys"@[0] == 'a');
    reveal_strlit("mode_marker");
    assert("mode_marker"@.len() == 11 && "mode_marker"@[0] == 'm');
    reveal_strlit("mode_symbols");
    assert("mode_symbols"@.len() == 12 && "mode_symbols"@[0] == 'm');
    reveal_strlit("romaji");
    assert("romaji"@.len() == 6 && "romaji"@[0] == 'r');
    reveal_strlit("kutouten");
    assert("kutouten"@.len() == 8 && "kutouten"@[0] == 'k');
    reveal_strlit("auto_start_henkan");
    assert("auto_start_henkan"@.len() == 17 && "auto_start_henkan"@[0] == 'a');
    reveal_strlit("learn_combined");
    assert("learn_combined"@.len() == 14 && "learn_combined"@[0] == 'l');
    reveal_strlit("dynamic_completion");
    assert("dynamic_completion"@.len() == 18 && "dynamic_completion"@[0] == 'd');
    reveal_strlit("okuri_match");
    assert("okuri_match"@.len() == 11 && "okuri_match"@[0] == 'o');
}

/// The mark of a mode is the character that is written for it last, and stays where nothing
/// is written for it.
pub proof fn law_marks_are_set_by_name(
    v: Seq<(Seq<char>, Option<Seq<char>>)>,
    marks: Seq<char>,
    k: int,
    i: int,
)
    requires
        marks.len() == 4,
        0 <= k < 4,
        0 <= i <= v.len(),
        forall|j: int| i <= j < v.len() ==> symbol_place((#[trigger] v[j]).0) != Some(k),
    ensures
        symbols_in(v, marks).len() == 4,
        i == 0 ==> symbols_in(v, marks)[k] == marks[k],
        i > 0 && symbol_place(v[i - 1].0) == Some(k) && v[i - 1].1 is Some && v[i - 1].1->0.len()
            == 1 && columns(v[i - 1].1->0[0]) == Some(1nat) ==> symbols_in(v, marks)[k]
            == v[i - 1].1->0[0],
{
    lemma_marks_upto(v, v.len() as int, marks, k, i);
}

proof fn lemma_marks_upto(
    v: Seq<(Seq<char>, Option<Seq<char>>)>,
    n: int,
    marks: Seq<char>,
    k: int,
    i: int,
)
    requires
        marks.len() == 4,
        0 <= k < 4,
        0 <= i <= n <= v.len(),
        forall|j: int| i <= j < n ==> symbol_place((#[trigger] v[j]).0) != Some(k),
    ensures
        symbols_upto(v, n, marks).len() == 4,
        i == 0 ==> symbols_upto(v, n, marks)[k] == marks[k],
        i > 0 && symbol_place(v[i - 1].0) == Some(k) && v[i - 1].1 is Some && v[i - 1].1->0.len()
            == 1 && columns(v[i - 1].1->0[0]) == Some(1nat) ==> symbols_upto(v, n, marks)[k]
            == v[i - 1].1->0[0],
    decreases n,
{
    if n > 0 {
        if i < n {
            lemma_marks_upto(v, n - 1, marks, k, i);
            assert(symbol_place(v[n - 1].0) != Some(k));
        } else {
            lemma_marks_len(v, n - 1, marks);
        }
    }
}

proof fn lemma_marks_len(v: Seq<(Seq<char>, Option<Seq<char>>)>, n: int, marks: Seq<char>)
    requires
        marks.len() == 4,
    ensures
        symbols_upto(v, n, marks).len() == 4,
    decreases n,
{
    if n > 0 {
        lemma_marks_len(v, n - 1, marks);
    }
}

/// The marks have a name each.
pub proof fn law_names_of_the_marks(name: Seq<char>)
    ensures
        symbol_place(name) == Some(0int) <==> name == "hiragana"@,
        symbol_place(name) == Some(1int) <==> name == "katakana"@,
        symbol_place(name) == Some(2int) <==> name == "hankaku_katakana"@,
        symbol_place(name) == Some(3int) <==> name == "zenkaku"@,
{
    reveal_strlit("hiragana");
    assert("hiragana"@.len() == 8 && "hiragana"@[0] == 'h');
    reveal_strlit("katakana");
    assert("katakana"@.len() == 8 && "katakana"@[0] == 'k');
    reveal_strlit("hankaku_katakana");
    assert("hankaku_katakana"@.len() == 16 && "hankaku_katakana"@[0] == 'h');
    reveal_strlit("zenkaku");
    assert("zenkaku"@.len() == 7 && "zenkaku"@[0] == 'z');
}

/// The keys of the list are the characters that are written for it, one for each text.
pub proof fn law_the_keys_of_the_list(v: Seq<Option<Seq<char>>>)
    ensures
        select_read(SettingText::List(v)) is Ok <==> v.len() > 0 && forall|i: int|
            0 <= i < v.len() ==> (#[trigger] v[i]) is Some && v[i]->0.len() == 1,
        select_read(SettingText::List(v)) is Ok ==> ({
            let r = select_read(SettingText::List(v))->Ok_0;
            r.len() == v.len() && forall|i: int|
                0 <= i < v.len() ==> #[trigger] r[i] == v[i]->0[0]
        }),
{
    lemma_select_upto(v, v.len() as int);
}

proof fn lemma_select_upto(v: Seq<Option<Seq<char>>>, n: int)
    requires
        0 <= n <= v.len(),
    ensures
        select_upto(v, n) is Ok <==> forall|i: int|
            0 <= i < n ==> (#[trigger] v[i]) is Some && v[i]->0.len() == 1,
        select_upto(v, n) is Ok ==> select_upto(v, n)->Ok_0.len() == n && forall|i: int|
            0 <= i < n ==> #[trigger] select_upto(v, n)->Ok_0[i] == v[i]->0[0],
    decreases n,
{
    if n > 0 {
        lemma_select_upto(v, n - 1);
        let had = select_upto(v, n - 1);
        if select_upto(v, n) is Ok {
            assert(had is Ok);
            assert(v[n - 1] is Some && v[n - 1]->0.len() == 1);
        }
        if forall|i: int| 0 <= i < n ==> (#[trigger] v[i]) is Some && v[i]->0.len() == 1 {
            assert(v[n - 1] is Some && v[n - 1]->0.len() == 1);
            assert(had is Ok);
        }
    }
}

/// What the mark of the modes, the keys of the list, the characters that begin a conversion
/// and the files of snippets are set to; and what they are where nothing is written.
pub proof fn law_lists_are_taken(doc: Doc)
    ensures
        ({
            let c = configured(doc);
            let select = setting(doc, "keys"@, "select"@);
            let marks = setting(doc, "behavior"@, "mode_symbols"@);
            let auto = setting(doc, "behavior"@, "auto_start_henkan"@);
            let files = setting(doc, "snippets"@, "files"@);
            &&& select is Some && select_read(select->0) is Ok ==> c.select == select_read(
                select->0,
            )->Ok_0
            &&& select is None ==> c.select == "asdfjkl"@
            &&& marks is Some && marks->0 is Table ==> c.mode_symbols == symbols_in(
                marks->0->Table_0,
                "~+-@"@,
            )
            &&& marks is None ==> c.mode_symbols == "~+-@"@
            &&& auto matches Some(SettingText::Text(t)) ==> c.auto_start_henkan == t
            &&& files matches Some(SettingText::Text(t)) ==> c.snippets == seq![t]
            &&& files is None ==> c.snippets.len() == 0
        }),
{
    reveal_strlit("asdfjkl");
    assert("asdfjkl"@.len() == 7 && "asdfjkl"@[0] == 'a');
    reveal_strlit("~+-@");
    assert("~+-@"@.len() == 4 && "~+-@"@[0] == '~');
    assert("asdfjkl"@ =~= seq!['a', 's', 'd', 'f', 'j', 'k', 'l']);
    assert("~+-@"@ =~= seq!['~', '+', '-', '@']);
    let auto = setting(doc, "behavior"@, "auto_start_henkan"@);
    if auto is Some && auto->0 is Text {
        let t = auto->0->Text_0;
        let v = seq![t];
        reveal_with_fuel(Seq::flatten, 2);
        assert(v.drop_first() =~= seq![]);
        assert(v.flatten() =~= t);
    }
}

} // verus!
