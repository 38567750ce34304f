//! The setup file.
//!
//! Only what is written changes; everything else keeps its default. A file with a mistake
//! in it is refused as a whole, so that no key stops working half-way.
use vstd::prelude::*;
use vstd::string::*;
use crate::key::{has, held, is_bound, is_held, key_texts, Key, KeyText};
use crate::romaji::Kutouten;
use crate::snippet::present;
use crate::text::{
    chars_of, has_char, joined, lemma_take_next, letter, lower, opt_text, slice_text, starts_at,
    text_of, texts, to_lower, trim, trimmed_end, trimmed_start,
};
use crate::names::{
    doc_names, item_from, item_in, lemma_item_at, named_once, names_text, section_from,
};
use crate::width::{char_width, columns};

verus! {

/// A setup file that states every default, each in a comment of its own.
pub const EXAMPLE: &'static str = "# ttyskk の設定。全項目を既定値のまま # で無効にしてある。
# 変えたい項目だけ # を外して書き換える。

[keys]
# かなモードへ入る
#kana = \"C-j\"
# 打ちかけのローマ字・見出し語・候補を確定する
#confirm = \"C-j\"
# 取り消す
#cancel = \"C-g\"
# ASCII モードへ
#ascii = \"l\"
# 全角英数モードへ
#zenkaku = \"L\"
# ひらがなとカタカナを切り替える。▽ ではカタカナで確定する
#katakana = \"q\"
# ひらがなと半角カタカナを切り替える。▽ では半角カタカナで確定する
#hankaku_katakana = \"C-q\"
# 空の見出し語で変換を始める
#start_conversion = \"Q\"
# ASCII の見出し語で変換する
#abbrev = \"/\"
# 変換する / 次の候補へ
#convert = \"space\"
# 前の候補へ
#previous = \"x\"
# 見出し語を補完する / 次の補完へ
#complete = \"tab\"
# 前の補完へ
#complete_previous = \"s-tab\"
# 候補を利用者辞書から取り除く
#purge = \"X\"
# 接頭辞・接尾辞変換を始める
#affix = \">\"
# 見出し語の中を左へ
#move_left = [\"C-b\", \"left\"]
# 見出し語の中を右へ
#move_right = [\"C-f\", \"right\"]
# 見出し語の先頭へ
#move_home = [\"C-a\", \"home\"]
# 見出し語の末尾へ
#move_end = [\"C-e\", \"end\"]
# カーソル位置の一文字を消す
#delete_forward = \"C-d\"
# 手前の一文字を消す
#backspace = [\"bs\", \"C-h\"]
# Shift の代わりに前置する
#sticky = []
# 定型文を編集器で書く
#snippet_edit = []
# 辞書を読み直す
#reload = []
# 候補一覧から選ぶキー。個数が一頁の候補数になる
#select = [\"a\", \"s\", \"d\", \"f\", \"j\", \"k\", \"l\"]

[candidates]
# 一覧を出さずに一つずつ送る候補数
#inline = 4
# 一覧の出し方。\"inline\" か \"float\"
#layout = \"inline\"

[behavior]
# 押すと ASCII モードへ戻るキー
#ascii_keys = [\"esc\", \"C-c\"]
# モードの印。\"off\" / \"cell\" / \"symbol\" / \"beside\" / \"letter\"
#mode_marker = \"cell\"
# ローマ字。\"default\" か \"azik\"
#romaji = \"default\"
# 句読点。\"jp\" / \"en\" / \"jp-en\" / \"en-jp\"
#kutouten = \"jp\"
# これらの文字が来たら手前までを変換する
#auto_start_henkan = \"を、。．，？」！；：);:）”】』》〉}]?.,!\"
# 接頭辞・接尾辞に続く語を繋げて覚えるか
#learn_combined = true
# 打つそばから見せる補完。\"off\" / \"single\" / \"multiple\"
#dynamic_completion = \"off\"
# 送り仮名で候補を並べ替えるか。\"off\" / \"first\" / \"only\"
#okuri_match = \"first\"
# 画面の文章で候補を並べ替えるか
#context_order = false
# 重みが半分になる距離 (文字数)
#context_half_distance = 200

# mode_marker = \"symbol\" で出す記号。半角一桁の文字だけ
[behavior.mode_symbols]
#hiragana = \"~\"
#katakana = \"+\"
#hankaku_katakana = \"-\"
#zenkaku = \"@\"

[snippets]
# 定型文のファイル。空なら既定の置き場所を読む
#files = []
";

/// How the input mode is shown.
#[derive(Clone, Copy, Debug, PartialEq, Eq, Structural)]
pub enum Marker {
    /// Not at all, but for the shape of the cursor.
    Off,
    /// By the colour of the cell under the cursor.
    Cell,
    /// By a half-width mark in the cell under the cursor.
    Symbol,
    /// By the colour of the cell beside the cursor.
    Beside,
    /// By a letter behind the cursor.
    Letter,
}

/// Where the list of candidates goes.
#[derive(Clone, Copy, Debug, PartialEq, Eq, Structural)]
pub enum Layout {
    /// Behind what is being typed.
    Inline,
    /// On a line of its own below, or above the last line.
    Float,
}

/// Whether completions are shown while a reading is typed.
#[derive(Clone, Copy, Debug, PartialEq, Eq, Structural)]
pub enum DynamicCompletion {
    Off,
    /// The rest of the first one.
    Single,
    /// A list of them.
    Multiple,
}

/// What the okurigana does to the order of the candidates.
#[derive(Clone, Copy, Debug, PartialEq, Eq, Structural)]
pub enum OkuriMatch {
    Off,
    /// Those chosen with the same okurigana come first.
    First,
    /// Only those are offered.
    Only,
}

/// A setting of the setup file, as far as the engine cares: text, a list of which only the
/// texts are kept, a number, a truth value, or a table of texts.
#[derive(Clone, Debug)]
pub enum Setting {
    Text(String),
    List(Vec<Option<String>>),
    Number(i64),
    Flag(bool),
    Table(Vec<(String, Option<String>)>),
    Other,
}

/// What a setting says.
pub enum SettingText {
    Text(Seq<char>),
    List(Seq<Option<Seq<char>>>),
    Number(int),
    Flag(bool),
    Table(Seq<(Seq<char>, Option<Seq<char>>)>),
    Other,
}

pub open spec fn opt_texts(v: Seq<Option<String>>) -> Seq<Option<Seq<char>>> {
    v.map_values(|o: Option<String>| opt_text(o))
}

pub open spec fn pair_texts(
    v: Seq<(String, Option<String>)>,
) -> Seq<(Seq<char>, Option<Seq<char>>)> {
    v.map_values(|p: (String, Option<String>)| (p.0@, opt_text(p.1)))
}

impl View for Setting {
    type V = SettingText;

    open spec fn view(&self) -> SettingText {
        match self {
            Setting::Text(s) => SettingText::Text(s@),
            Setting::List(v) => SettingText::List(opt_texts(v@)),
            Setting::Number(n) => SettingText::Number(*n as int),
            Setting::Flag(b) => SettingText::Flag(*b),
            Setting::Table(v) => SettingText::Table(pair_texts(v@)),
            Setting::Other => SettingText::Other,
        }
    }
}

/// The settings of a section, by name.
pub type Settings = Vec<(String, Setting)>;

/// A section; what is no table has no settings.
pub type Section = (String, Option<Settings>);

/// What the settings of a section say.
pub type SettingTexts = Seq<(Seq<char>, SettingText)>;

/// What a setup file says.
pub type Doc = Seq<(Seq<char>, Option<SettingTexts>)>;

pub open spec fn setting_texts(v: Seq<(String, Setting)>) -> SettingTexts {
    v.map_values(|p: (String, Setting)| (p.0@, p.1@))
}

pub open spec fn section_text(s: Section) -> (Seq<char>, Option<SettingTexts>) {
    (
        s.0@,
        match s.1 {
            Some(v) => Some(setting_texts(v@)),
            None => None,
        },
    )
}

pub open spec fn doc_text(v: Seq<Section>) -> Doc {
    v.map_values(|s: Section| section_text(s))
}

/// A TOML document.
#[verifier::external_type_specification]
#[verifier::external_body]
pub struct ExToml(toml::Value);

/// What a TOML document holds, as far as the engine cares: its sections and their settings,
/// in the order in which it lists them. Floats, dates and deeper values are told apart no
/// further.
pub uninterp spec fn toml_doc(v: toml::Value) -> Doc;

/// What a TOML text says; nothing where it is no TOML.
pub uninterp spec fn toml_shape(text: Seq<char>) -> Option<Doc>;

/// `toml::from_str` into a `toml::Table`, as a value: whether it succeeds and what the
/// document then holds depends on the text alone. The parser's message is passed on.
#[verifier::external_body]
fn read_toml(text: &str) -> (r: Result<toml::Value, String>)
    ensures
        match r {
            Ok(v) => toml_shape(text@) == Some(toml_doc(v)),
            Err(_) => toml_shape(text@) is None,
        },
{
    let table = toml::from_str::<toml::Table>(text).map_err(|e: toml::de::Error| e.to_string())?;
    Ok(toml::Value::Table(table))
}

/// `toml::Value::as_table` and the keys of the tables: the names of the sections and of
/// their settings. A table names nothing twice.
#[verifier::external_body]
fn toml_names(v: &toml::Value) -> (r: Vec<(String, Option<Vec<String>>)>)
    ensures
        names_text(r@) == doc_names(toml_doc(*v)),
        named_once(names_text(r@)),
{
    let keys = |t: &toml::Table| t.keys().cloned().collect();
    let table = v.as_table().into_iter().flatten();
    table.map(|(k, s)| (k.clone(), s.as_table().map(keys))).collect()
}

/// The text of a setting, if it is one.
pub open spec fn text_in(doc: Doc, sec: Seq<char>, name: Seq<char>) -> Option<Seq<char>> {
    match setting(doc, sec, name) {
        Some(SettingText::Text(t)) => Some(t),
        _ => None,
    }
}

/// `toml::Value::as_str` on a setting of a section.
#[verifier::external_body]
fn toml_text(v: &toml::Value, sec: &str, name: &str) -> (r: Option<String>)
    ensures
        opt_text(r) == text_in(toml_doc(*v), sec@, name@),
{
    v.get(sec)?.get(name)?.as_str().map(String::from)
}

/// `toml::Value::as_integer` on a setting of a section.
#[verifier::external_body]
fn toml_number(v: &toml::Value, sec: &str, name: &str) -> (r: Option<i64>)
    ensures
        match setting(toml_doc(*v), sec@, name@) {
            Some(SettingText::Number(n)) => r is Some && r->0 == n,
            _ => r is None,
        },
{
    v.get(sec)?.get(name)?.as_integer()
}

/// `toml::Value::as_bool` on a setting of a section.
#[verifier::external_body]
fn toml_flag(v: &toml::Value, sec: &str, name: &str) -> (r: Option<bool>)
    ensures
        match setting(toml_doc(*v), sec@, name@) {
            Some(SettingText::Flag(b)) => r == Some(b),
            _ => r is None,
        },
{
    v.get(sec)?.get(name)?.as_bool()
}

/// `toml::Value::as_array` on a setting of a section, and `as_str` on what it lists.
#[verifier::external_body]
fn toml_list(v: &toml::Value, sec: &str, name: &str) -> (r: Option<Vec<Option<String>>>)
    ensures
        match setting(toml_doc(*v), sec@, name@) {
            Some(SettingText::List(l)) => r is Some && opt_texts(r->0@) == l,
            _ => r is None,
        },
{
    let list = v.get(sec)?.get(name)?.as_array()?;
    Some(list.iter().map(|x| x.as_str().map(String::from)).collect())
}

/// `toml::Value::as_table` on a setting of a section, and `as_str` on what it holds.
#[verifier::external_body]
fn toml_pairs(v: &toml::Value, sec: &str, name: &str) -> (r: Option<Vec<(String, Option<String>)>>)
    ensures
        match setting(toml_doc(*v), sec@, name@) {
            Some(SettingText::Table(t)) => r is Some && pair_texts(r->0@) == t,
            _ => r is None,
        },
{
    let table = v.get(sec)?.get(name)?.as_table()?;
    Some(table.iter().map(|(k, x)| (k.clone(), x.as_str().map(String::from))).collect())
}

/// A setting of a TOML document.
fn setting_of(v: &toml::Value, sec: &str, name: &str) -> (r: Setting)
    ensures
        match setting(toml_doc(*v), sec@, name@) {
            Some(s) => r@ == s,
            None => r is Other,
        },
{
    if let Some(t) = toml_text(v, sec, name) {
        return Setting::Text(t);
    }
    if let Some(n) = toml_number(v, sec, name) {
        return Setting::Number(n);
    }
    if let Some(b) = toml_flag(v, sec, name) {
        return Setting::Flag(b);
    }
    if let Some(l) = toml_list(v, sec, name) {
        return Setting::List(l);
    }
    if let Some(t) = toml_pairs(v, sec, name) {
        return Setting::Table(t);
    }
    Setting::Other
}

/// The sections of a TOML document.
fn sections_of(v: &toml::Value) -> (r: Vec<Section>)
    ensures
        doc_text(r@) == toml_doc(*v),
{
    let names = toml_names(v);
    let ghost doc = toml_doc(*v);
    let ghost ns = names_text(names@);
    let mut out: Vec<Section> = Vec::new();
    let mut i: usize = 0;
    assert(ns.len() == doc.len());
    while i < names.len()
        invariant
            i <= names@.len(),
            doc == toml_doc(*v),
            ns == names_text(names@),
            ns == doc_names(doc),
            ns.len() == doc.len(),
            named_once(ns),
            doc_text(out@) =~= doc.take(i as int),
        decreases names.len() - i,
    {
        let ghost had = doc_text(out@);
        let ghost sec = doc[i as int];
        assert(ns[i as int].0 == names@[i as int].0@);
        assert(doc_names(doc)[i as int].0 == sec.0);
        let name = names[i].0.clone();
        let items: Option<Settings> = match &names[i].1 {
            None => {
                assert(doc_names(doc)[i as int].1 is None);
                None
            },
            Some(list) => {
                assert(doc_names(doc)[i as int].1 == Some(texts(list@)));
                let ghost all = sec.1->0;
                assert(texts(list@) == all.map_values(|p: (Seq<char>, SettingText)| p.0));
                let mut settings: Settings = Vec::new();
                let mut j: usize = 0;
                assert(all.len() == texts(list@).len());
                while j < list.len()
                    invariant
                        j <= list@.len(),
                        0 <= i < doc.len(),
                        doc == toml_doc(*v),
                        named_once(doc_names(doc)),
                        sec == doc[i as int],
                        name@ == sec.0,
                        sec.1 == Some(all),
                        all.len() == list@.len(),
                        texts(list@) == all.map_values(|p: (Seq<char>, SettingText)| p.0),
                        setting_texts(settings@) =~= all.take(j as int),
                    decreases list.len() - j,
                {
                    let ghost before = setting_texts(settings@);
                    assert(texts(list@)[j as int] == all[j as int].0);
                    proof {
                        lemma_item_at(doc, i as int, j as int);
                    }
                    let s = setting_of(v, name.as_str(), list[j].as_str());
                    let item = (list[j].clone(), s);
                    settings.push(item);
                    proof {
                        lemma_take_next(all, j as int);
                        assert(setting_texts(settings@) =~= before.push((item.0@, item.1@)));
                    }
                    j = j + 1;
                }
                assert(all.take(j as int) =~= all);
                Some(settings)
            },
        };
        let p: Section = (name, items);
        out.push(p);
        proof {
            lemma_take_next(doc, i as int);
            assert(section_text(p) == sec);
            assert(doc_text(out@) =~= had.push(section_text(p)));
        }
        i = i + 1;
    }
    assert(doc.take(i as int) =~= doc);
    out
}

/// Why a setup file was refused.
#[derive(Clone, Debug, PartialEq, Eq)]
pub enum ConfigError {
    /// It is no TOML; the parser's own words are kept.
    Syntax(String),
    /// It sets something up that cannot be honoured.
    Refused(String),
}

impl ConfigError {
    /// The message to show.
    pub fn message(&self) -> (r: String)
        ensures
            match self {
                ConfigError::Syntax(s) => r@ == s@,
                ConfigError::Refused(s) => r@ == s@,
            },
    {
        match self {
            ConfigError::Syntax(s) => s.clone(),
            ConfigError::Refused(s) => s.clone(),
        }
    }
}

/// The keys that terminals send as sequences. Which one they send depends on the terminal
/// and its state, so that each name stands for all of them.
pub const SEQUENCE_NAMES: [&'static str; 6] = ["left", "right", "up", "down", "home", "end"];

/// The two forms of an arrow key.
pub open spec fn arrow_keys(last: u8) -> Seq<KeyText> {
    seq![
        KeyText::Raw(seq![0x1bu8, 0x5bu8, last]),
        KeyText::Raw(seq![0x1bu8, 0x4fu8, last]),
    ]
}

/// The four forms of Home and End.
pub open spec fn edge_keys(last: u8, linux: u8, rxvt: u8) -> Seq<KeyText> {
    arrow_keys(last) + seq![
        KeyText::Raw(seq![0x1bu8, 0x5bu8, linux, 0x7eu8]),
        KeyText::Raw(seq![0x1bu8, 0x5bu8, rxvt, 0x7eu8]),
    ]
}

/// The keys that a name of a sequence stands for.
pub open spec fn named_keys(name: Seq<char>) -> Option<Seq<KeyText>> {
    if name == "left"@ {
        Some(arrow_keys(0x44))
    } else if name == "right"@ {
        Some(arrow_keys(0x43))
    } else if name == "up"@ {
        Some(arrow_keys(0x41))
    } else if name == "down"@ {
        Some(arrow_keys(0x42))
    } else if name == "home"@ {
        Some(edge_keys(0x48, 0x31, 0x37))
    } else if name == "end"@ {
        Some(edge_keys(0x46, 0x34, 0x38))
    } else {
        None
    }
}

/// Every named sequence is an escape sequence: no name takes a plain character away.
pub proof fn law_named_keys_are_sequences(name: Seq<char>, i: int)
    requires
        named_keys(name) is Some,
        0 <= i < (named_keys(name)->0).len(),
    ensures
        (named_keys(name)->0)[i] is Raw,
        (named_keys(name)->0)[i]->Raw_0.len() >= 3,
        (named_keys(name)->0)[i]->Raw_0[0] == 0x1b,
{
}

/// The keys that stand for themselves by name.
pub open spec fn word_key(w: Seq<char>) -> Option<KeyText> {
    if w == "space"@ || w == "spc"@ {
        Some(KeyText::Char(' '))
    } else if w == "enter"@ || w == "return"@ || w == "ret"@ {
        Some(KeyText::Enter)
    } else if w == "tab"@ {
        Some(KeyText::Tab)
    } else if w == "esc"@ || w == "escape"@ {
        Some(KeyText::Esc)
    } else if w == "bs"@ || w == "backspace"@ || w == "del"@ {
        Some(KeyText::Backspace)
    } else if w == "s-tab"@ || w == "shift-tab"@ || w == "btab"@ {
        Some(KeyText::ShiftTab)
    } else {
        None
    }
}

/// What follows the name of the control key in `w`, if it starts with it.
pub open spec fn after_ctrl(w: Seq<char>) -> Option<Seq<char>> {
    if "c-"@.is_prefix_of(w) {
        Some(w.skip("c-"@.len() as int))
    } else if "ctrl-"@.is_prefix_of(w) {
        Some(w.skip("ctrl-"@.len() as int))
    } else if "ctrl+"@.is_prefix_of(w) {
        Some(w.skip("ctrl+"@.len() as int))
    } else if "control-"@.is_prefix_of(w) {
        Some(w.skip("control-"@.len() as int))
    } else {
        None
    }
}

/// The control character of a small letter or of a symbol. `[` is left out: it is Esc.
pub open spec fn ctrl_code(c: char) -> Option<u8> {
    if 'a' <= c <= 'z' {
        Some((c as u32 - 0x60) as u8)
    } else if c == '@' {
        Some(0x00u8)
    } else if c == '\\' {
        Some(0x1cu8)
    } else if c == ']' {
        Some(0x1du8)
    } else if c == '^' {
        Some(0x1eu8)
    } else if c == '_' {
        Some(0x1fu8)
    } else {
        None
    }
}

/// The key that the control key makes with what follows it, or why it makes none.
pub open spec fn ctrl_read(spec: Seq<char>, rest: Seq<char>) -> Result<Seq<KeyText>, Seq<char>> {
    if rest == "space"@ || rest == "spc"@ {
        Ok(seq![KeyText::Ctrl(0x00)])
    } else if rest.len() != 1 {
        Err(spec + " は解せない (Ctrl は一文字にだけ付く)"@)
    } else {
        match ctrl_code(rest[0]) {
            Some(b) => Ok(seq![KeyText::Ctrl(b)]),
            None => Err(spec + " は解せない (Ctrl は英字にだけ付く)"@),
        }
    }
}

/// The keys that a way to write a key stands for, or why it stands for none.
pub open spec fn key_read(spec: Seq<char>) -> Result<Seq<KeyText>, Seq<char>> {
    let s = trim(spec);
    let w = s.map_values(|c: char| lower(c));
    if s.len() == 0 {
        Err("キーの指定が空"@)
    } else if word_key(w) is Some {
        Ok(seq![word_key(w)->0])
    } else if named_keys(w) is Some {
        Ok(named_keys(w)->0)
    } else if after_ctrl(w) is Some {
        ctrl_read(spec, after_ctrl(w)->0)
    } else if s.len() == 1 {
        Ok(seq![KeyText::Char(s[0])])
    } else {
        Err(spec + " は解せない"@)
    }
}

/// The keys that the first `n` ways to write a key stand for.
pub open spec fn keys_read_upto(specs: Seq<Seq<char>>, n: int) -> Result<
    Seq<KeyText>,
    Seq<char>,
>
    decreases n,
{
    if n <= 0 {
        Ok(seq![])
    } else {
        match (keys_read_upto(specs, n - 1), key_read(specs[n - 1])) {
            (Err(e), _) => Err(e),
            (_, Err(e)) => Err(e),
            (Ok(a), Ok(b)) => Ok(a + b),
        }
    }
}

/// Key settings that may be left without a key.
pub open spec fn may_be_unset(name: Seq<char>) -> bool {
    name == "sticky"@ || name == "snippet_edit"@ || name == "reload"@ || name == "ascii_keys"@
}

/// Every entry of a list is a text.
pub open spec fn all_there(v: Seq<Option<Seq<char>>>) -> bool {
    forall|i: int| 0 <= i < v.len() ==> (#[trigger] v[i]) is Some
}

/// A setting that is a text or a list of texts.
pub open spec fn words_read(
    what: Seq<char>,
    s: SettingText,
) -> Result<Seq<Seq<char>>, Seq<char>> {
    match s {
        SettingText::Text(t) => Ok(seq![t]),
        SettingText::List(v) => if all_there(v) {
            Ok(present(v))
        } else {
            Err(what + " の並びは文字列だけ"@)
        },
        _ => Err(what + " は文字列か文字列の並び"@),
    }
}

/// The keys of a key setting.
pub open spec fn keys_read(name: Seq<char>, s: SettingText) -> Result<Seq<KeyText>, Seq<char>> {
    match words_read("keys."@ + name, s) {
        Err(e) => Err(e),
        Ok(specs) => if specs.len() == 0 && !may_be_unset(name) {
            Err("keys."@ + name + " が空。割り当てを外したいなら項目ごと消す"@)
        } else {
            keys_read_upto(specs, specs.len() as int)
        },
    }
}

/// The first `n` of the characters that choose from the list.
pub open spec fn select_upto(v: Seq<Option<Seq<char>>>, n: int) -> Result<Seq<char>, Seq<char>>
    decreases n,
{
    if n <= 0 {
        Ok(seq![])
    } else {
        match (select_upto(v, n - 1), v[n - 1]) {
            (Err(e), _) => Err(e),
            (Ok(_), None) => Err("keys.select の並びは文字列だけ"@),
            (Ok(a), Some(s)) => if s.len() == 1 {
                Ok(a.push(s[0]))
            } else {
                Err("keys.select は一文字ずつ書く ("@ + s + " は不可)"@)
            },
        }
    }
}

/// The characters that choose from the list.
pub open spec fn select_read(s: SettingText) -> Result<Seq<char>, Seq<char>> {
    match s {
        SettingText::List(v) => match select_upto(v, v.len() as int) {
            Ok(cs) => if cs.len() == 0 {
                Err("keys.select が空"@)
            } else {
                Ok(cs)
            },
            Err(e) => Err(e),
        },
        _ => Err("keys.select は文字の並び"@),
    }
}

/// A set of characters: one text, or a list of texts. It may be empty.
pub open spec fn chars_read(name: Seq<char>, s: SettingText) -> Result<Seq<char>, Seq<char>> {
    match words_read("behavior."@ + name, s) {
        Ok(v) => Ok(v.flatten()),
        Err(e) => Err(e),
    }
}

/// The snippet files.
pub open spec fn paths_read(name: Seq<char>, s: SettingText) -> Result<
    Seq<Seq<char>>,
    Seq<char>,
> {
    words_read("snippets."@ + name, s)
}

/// A mark for an input mode: one character of one column.
pub open spec fn symbol_read(name: Seq<char>, s: Option<Seq<char>>) -> Result<char, Seq<char>> {
    match s {
        None => Err("mode_symbols."@ + name + " は文字列"@),
        Some(t) => if t.len() != 1 {
            Err("mode_symbols."@ + name + " は一文字だけ ("@ + t + " は不可)"@)
        } else if columns(t[0]) != Some(1nat) {
            Err("mode_symbols."@ + name + " は半角一桁の文字だけ ("@ + t + " は不可)"@)
        } else {
            Ok(t[0])
        },
    }
}

/// The place of an input mode among the marks.
pub open spec fn symbol_place(name: Seq<char>) -> Option<int> {
    if name == "hiragana"@ {
        Some(0)
    } else if name == "katakana"@ {
        Some(1)
    } else if name == "hankaku_katakana"@ {
        Some(2)
    } else if name == "zenkaku"@ {
        Some(3)
    } else {
        None
    }
}

/// What is wrong with the marks from `i` on. Unknown names are passed over.
pub open spec fn symbols_error(v: Seq<(Seq<char>, Option<Seq<char>>)>, i: int) -> Option<
    Seq<char>,
>
    decreases v.len() - i,
{
    if i < 0 || i >= v.len() {
        None
    } else if symbol_place(v[i].0) is Some && symbol_read(v[i].0, v[i].1) is Err {
        Some(symbol_read(v[i].0, v[i].1)->Err_0)
    } else {
        symbols_error(v, i + 1)
    }
}

/// The marks after the first `n` of `v`.
pub open spec fn symbols_upto(
    v: Seq<(Seq<char>, Option<Seq<char>>)>,
    n: int,
    old_marks: Seq<char>,
) -> Seq<char>
    decreases n,
{
    if n <= 0 {
        old_marks
    } else {
        let had = symbols_upto(v, n - 1, old_marks);
        match (symbol_place(v[n - 1].0), symbol_read(v[n - 1].0, v[n - 1].1)) {
            (Some(i), Ok(c)) => had.update(i, c),
            _ => had,
        }
    }
}

/// The marks that a table sets.
pub open spec fn symbols_in(
    v: Seq<(Seq<char>, Option<Seq<char>>)>,
    old_marks: Seq<char>,
) -> Seq<char> {
    symbols_upto(v, v.len() as int, old_marks)
}

pub open spec fn layout_of(w: Seq<char>) -> Option<Layout> {
    if w == "inline"@ {
        Some(Layout::Inline)
    } else if w == "float"@ {
        Some(Layout::Float)
    } else {
        None
    }
}

pub open spec fn marker_of(w: Seq<char>) -> Option<Marker> {
    if w == "off"@ {
        Some(Marker::Off)
    } else if w == "cell"@ {
        Some(Marker::Cell)
    } else if w == "symbol"@ {
        Some(Marker::Symbol)
    } else if w == "beside"@ {
        Some(Marker::Beside)
    } else if w == "letter"@ {
        Some(Marker::Letter)
    } else {
        None
    }
}

pub open spec fn kutouten_of(w: Seq<char>) -> Option<Kutouten> {
    if w == "jp"@ {
        Some(Kutouten::Jp)
    } else if w == "en"@ {
        Some(Kutouten::En)
    } else if w == "jp-en"@ {
        Some(Kutouten::JpEn)
    } else if w == "en-jp"@ {
        Some(Kutouten::EnJp)
    } else {
        None
    }
}

pub open spec fn romaji_of(w: Seq<char>) -> Option<bool> {
    if w == "default"@ {
        Some(false)
    } else if w == "azik"@ {
        Some(true)
    } else {
        None
    }
}

pub open spec fn completion_of(w: Seq<char>) -> Option<DynamicCompletion> {
    if w == "off"@ {
        Some(DynamicCompletion::Off)
    } else if w == "single"@ {
        Some(DynamicCompletion::Single)
    } else if w == "multiple"@ {
        Some(DynamicCompletion::Multiple)
    } else {
        None
    }
}

pub open spec fn okuri_match_of(w: Seq<char>) -> Option<OkuriMatch> {
    if w == "off"@ {
        Some(OkuriMatch::Off)
    } else if w == "first"@ {
        Some(OkuriMatch::First)
    } else if w == "only"@ {
        Some(OkuriMatch::Only)
    } else {
        None
    }
}

/// A setting that is a text.
pub open spec fn setting_word(s: SettingText) -> Option<Seq<char>> {
    match s {
        SettingText::Text(t) => Some(t),
        _ => None,
    }
}

/// The setting `name` of the section `sec`, if it is written.
pub open spec fn setting(doc: Doc, sec: Seq<char>, name: Seq<char>) -> Option<SettingText> {
    item_in(doc, sec, name)
}

/// The setting `name` of the section `sec`, if it is a text.
pub open spec fn word(doc: Doc, sec: Seq<char>, name: Seq<char>) -> Option<Seq<char>> {
    match setting(doc, sec, name) {
        Some(s) => setting_word(s),
        None => None,
    }
}

/// The keys of a key setting, or `unset` where it is not written.
pub open spec fn keys_in(
    doc: Doc,
    sec: Seq<char>,
    name: Seq<char>,
    unset: Seq<KeyText>,
) -> Seq<KeyText> {
    match setting(doc, sec, name) {
        Some(s) => match keys_read(name, s) {
            Ok(v) => v,
            Err(_) => unset,
        },
        None => unset,
    }
}

/// Whether `name` is one of a list of names.
pub open spec fn named_in(list: Seq<&'static str>, name: Seq<char>) -> bool {
    exists|i: int| 0 <= i < list.len() && (#[trigger] list[i])@ == name
}

/// What is wrong where a result was wanted.
pub open spec fn error_of<T>(r: Result<T, Seq<char>>) -> Option<Seq<char>> {
    match r {
        Ok(_) => None,
        Err(e) => Some(e),
    }
}

/// What is wrong where one of a few words was wanted.
pub open spec fn word_error(known: bool, message: Seq<char>) -> Option<Seq<char>> {
    if known {
        None
    } else {
        Some(message)
    }
}

/// What is wrong with a setting of `[keys]`.
pub open spec fn keys_error(name: Seq<char>, s: SettingText) -> Option<Seq<char>> {
    if name == "select"@ {
        error_of(select_read(s))
    } else if named_in(KEY_NAMES@, name) {
        error_of(keys_read(name, s))
    } else {
        Some("keys."@ + name + " は知らない項目"@)
    }
}

/// What is wrong with a setting of `[behavior]`.
pub open spec fn behavior_error(name: Seq<char>, s: SettingText) -> Option<Seq<char>> {
    let w = setting_word(s);
    if name == "ascii_keys"@ {
        error_of(keys_read(name, s))
    } else if name == "mode_marker"@ {
        word_error(
            w is Some && marker_of(w->0) is Some,
            "behavior.mode_marker は \"off\" / \"cell\" / \"symbol\" / \"beside\" / \"letter\""@,
        )
    } else if name == "mode_symbols"@ {
        match s {
            SettingText::Table(t) => symbols_error(t, 0),
            _ => Some("behavior.mode_symbols は表 (名前 = 記号)"@),
        }
    } else if name == "romaji"@ {
        word_error(
            w is Some && romaji_of(w->0) is Some,
            "behavior.romaji は \"default\" か \"azik\""@,
        )
    } else if name == "kutouten"@ {
        word_error(
            w is Some && kutouten_of(w->0) is Some,
            "behavior.kutouten は \"jp\" (。、) / \"en\" (．，) / \"jp-en\" (。，) / \"en-jp\" (．、)"@,
        )
    } else if name == "auto_start_henkan"@ {
        error_of(chars_read(name, s))
    } else if name == "learn_combined"@ {
        word_error(s is Flag, "behavior.learn_combined は真偽値"@)
    } else if name == "dynamic_completion"@ {
        word_error(
            w is Some && completion_of(w->0) is Some,
            "behavior.dynamic_completion は \"off\" / \"single\" / \"multiple\""@,
        )
    } else if name == "okuri_match"@ {
        word_error(
            w is Some && okuri_match_of(w->0) is Some,
            "behavior.okuri_match は \"off\" / \"first\" / \"only\""@,
        )
    } else if name == "context_order"@ {
        word_error(s is Flag, "behavior.context_order は真偽値"@)
    } else if name == "context_half_distance"@ {
        word_error(
            s is Number && 1 <= s->Number_0 <= u32::MAX,
            "behavior.context_half_distance は 1 以上の整数"@,
        )
    } else {
        Some("behavior."@ + name + " は知らない項目"@)
    }
}

/// What is wrong with a setting of `[candidates]`.
pub open spec fn candidates_error(name: Seq<char>, s: SettingText) -> Option<Seq<char>> {
    let w = setting_word(s);
    if name == "inline"@ {
        match s {
            SettingText::Number(n) => word_error(n >= 1, "candidates.inline は 1 以上"@),
            _ => Some("candidates.inline は整数"@),
        }
    } else if name == "layout"@ {
        word_error(
            w is Some && layout_of(w->0) is Some,
            "candidates.layout は \"inline\" か \"float\""@,
        )
    } else {
        Some("candidates."@ + name + " は知らない項目"@)
    }
}

/// What is wrong with a setting of `[snippets]`.
pub open spec fn snippets_error(name: Seq<char>, s: SettingText) -> Option<Seq<char>> {
    if name == "files"@ {
        error_of(paths_read(name, s))
    } else {
        Some("snippets."@ + name + " は知らない項目"@)
    }
}

/// The sections of a setup file.
#[derive(Clone, Copy, Debug, PartialEq, Eq, Structural)]
pub enum Part {
    Keys,
    Behavior,
    Candidates,
    Snippets,
}

impl Part {
    pub open spec fn named(self) -> Seq<char> {
        match self {
            Part::Keys => "keys"@,
            Part::Behavior => "behavior"@,
            Part::Candidates => "candidates"@,
            Part::Snippets => "snippets"@,
        }
    }

    fn name(self) -> (r: &'static str)
        ensures
            r@ == self.named(),
    {
        match self {
            Part::Keys => "keys",
            Part::Behavior => "behavior",
            Part::Candidates => "candidates",
            Part::Snippets => "snippets",
        }
    }
}

/// What is wrong with a setting.
pub open spec fn setting_error(part: Part, name: Seq<char>, s: SettingText) -> Option<Seq<char>> {
    match part {
        Part::Keys => keys_error(name, s),
        Part::Behavior => behavior_error(name, s),
        Part::Candidates => candidates_error(name, s),
        Part::Snippets => snippets_error(name, s),
    }
}

/// The first thing that is wrong with the settings from `i` on.
pub open spec fn settings_error(part: Part, v: SettingTexts, i: int) -> Option<Seq<char>>
    decreases v.len() - i,
{
    if i < 0 || i >= v.len() {
        None
    } else if setting_error(part, v[i].0, v[i].1) is Some {
        setting_error(part, v[i].0, v[i].1)
    } else {
        settings_error(part, v, i + 1)
    }
}

/// The first thing that is wrong with a section.
pub open spec fn part_error(doc: Doc, part: Part) -> Option<Seq<char>> {
    match section_from(doc, part.named(), 0) {
        None => None,
        Some(None) => Some("["@ + part.named() + "] は表でなければならない"@),
        Some(Some(v)) => settings_error(part, v, 0),
    }
}

/// The first section from `i` on that is not known.
pub open spec fn unknown_from(doc: Doc, i: int) -> Option<Seq<char>>
    decreases doc.len() - i,
{
    if i < 0 || i >= doc.len() {
        None
    } else if doc[i].0 != Part::Keys.named() && doc[i].0 != Part::Behavior.named() && doc[i].0
        != Part::Candidates.named() && doc[i].0 != Part::Snippets.named() {
        Some("["@ + doc[i].0 + "] は知らない節"@)
    } else {
        unknown_from(doc, i + 1)
    }
}

/// The first thing that is wrong with a setup file.
pub open spec fn config_error(doc: Doc) -> Option<Seq<char>> {
    if part_error(doc, Part::Keys) is Some {
        part_error(doc, Part::Keys)
    } else if part_error(doc, Part::Behavior) is Some {
        part_error(doc, Part::Behavior)
    } else if part_error(doc, Part::Candidates) is Some {
        part_error(doc, Part::Candidates)
    } else if part_error(doc, Part::Snippets) is Some {
        part_error(doc, Part::Snippets)
    } else {
        unknown_from(doc, 0)
    }
}

/// How many candidates a page of the list shows.
pub open spec fn page_len(c: ConfigText) -> nat {
    if c.select.len() == 0 {
        1
    } else {
        c.select.len()
    }
}

/// `a` with the first `n` of `more` behind it, as far as they are new.
pub open spec fn keys_added_upto(
    a: Seq<KeyText>,
    more: Seq<KeyText>,
    n: int,
) -> Seq<KeyText>
    decreases n,
{
    if n <= 0 {
        a
    } else {
        let had = keys_added_upto(a, more, n - 1);
        if had.contains(more[n - 1]) {
            had
        } else {
            had.push(more[n - 1])
        }
    }
}

/// The keys of the first `n` lists, each once.
pub open spec fn lists_joined(lists: Seq<Seq<KeyText>>, n: int) -> Seq<KeyText>
    decreases n,
{
    if n <= 0 {
        seq![]
    } else {
        keys_added_upto(lists_joined(lists, n - 1), lists[n - 1], lists[n - 1].len() as int)
    }
}

proof fn lemma_keys_added(a: Seq<KeyText>, more: Seq<KeyText>, n: int, k: KeyText)
    requires
        0 <= n <= more.len(),
    ensures
        keys_added_upto(a, more, n).contains(k) <==> a.contains(k) || more.take(n).contains(k),
    decreases n,
{
    if n > 0 {
        lemma_keys_added(a, more, n - 1, k);
        lemma_take_next(more, n - 1);
        let had = keys_added_upto(a, more, n - 1);
        crate::order::lemma_push_contains(had, more[n - 1], k);
        crate::order::lemma_push_contains(more.take(n - 1), more[n - 1], k);
    } else {
        assert(more.take(0) =~= seq![]);
    }
}

proof fn lemma_lists_joined(lists: Seq<Seq<KeyText>>, n: int, k: KeyText)
    requires
        0 <= n <= lists.len(),
    ensures
        lists_joined(lists, n).contains(k) <==> exists|i: int|
            0 <= i < n && (#[trigger] lists[i]).contains(k),
    decreases n,
{
    if n > 0 {
        lemma_lists_joined(lists, n - 1, k);
        let last = lists[n - 1];
        lemma_keys_added(lists_joined(lists, n - 1), last, last.len() as int, k);
        assert(last.take(last.len() as int) =~= last);
    }
}

/// How a user has set the engine up.
#[derive(Clone, Debug, PartialEq)]
pub struct Config {
    /// Into kana input, from plain or full-width letters.
    pub kana: Vec<Key>,
    /// Confirms the romaji, the reading or the candidate.
    pub confirm: Vec<Key>,
    /// Takes back.
    pub cancel: Vec<Key>,
    /// Into plain letters.
    pub ascii: Vec<Key>,
    /// Into full-width letters.
    pub zenkaku: Vec<Key>,
    /// Between hiragana and katakana; confirms a reading in katakana.
    pub katakana: Vec<Key>,
    /// Between hiragana and half-width katakana; confirms a reading in it.
    pub hankaku_katakana: Vec<Key>,
    /// Starts an empty reading.
    pub start_conversion: Vec<Key>,
    /// Starts a reading of plain letters.
    pub abbrev: Vec<Key>,
    /// Converts, and goes on to the next candidate.
    pub convert: Vec<Key>,
    /// Back to the previous candidate.
    pub previous: Vec<Key>,
    /// Completes the reading, and goes on to the next completion.
    pub complete: Vec<Key>,
    /// Back to the previous completion.
    pub complete_previous: Vec<Key>,
    /// Throws the candidate out of the user's dictionary.
    pub purge: Vec<Key>,
    /// Converts as a prefix or goes on with a suffix.
    pub affix: Vec<Key>,
    /// One character to the left in the reading.
    pub move_left: Vec<Key>,
    /// One character to the right in the reading.
    pub move_right: Vec<Key>,
    /// To the start of the reading.
    pub move_home: Vec<Key>,
    /// To the end of the reading.
    pub move_end: Vec<Key>,
    /// Deletes the character under the cursor of the reading.
    pub delete_forward: Vec<Key>,
    /// Deletes one character backwards.
    pub backspace: Vec<Key>,
    /// Stands for Shift before the next character.
    pub sticky: Vec<Key>,
    /// Opens the snippets in an editor.
    pub snippet_edit: Vec<Key>,
    /// Reads the dictionaries again.
    pub reload: Vec<Key>,
    /// The keys that choose from the list of candidates, in the order of the list.
    pub select: Vec<char>,
    /// How many candidates are shown one by one before the list.
    pub inline_candidates: usize,
    pub layout: Layout,
    /// The marks of `Marker::Symbol`: hiragana, katakana, half-width katakana, full-width.
    pub mode_symbols: [char; 4],
    pub mode_marker: Marker,
    pub kutouten: Kutouten,
    /// Whether AZIK spellings are in use.
    pub azik: bool,
    /// Characters that start the conversion of what stands before them.
    pub auto_start_henkan: Vec<char>,
    /// Whether a prefix or suffix and its word are learned as one word, too.
    pub learn_combined: bool,
    /// Keys that also lead back to plain letters; they still reach the child.
    pub ascii_keys: Vec<Key>,
    /// The snippet files; none stands for the usual one.
    pub snippets: Vec<String>,
    pub dynamic_completion: DynamicCompletion,
    pub okuri_match: OkuriMatch,
    /// Whether the text on the screen orders the candidates.
    pub context_order: bool,
    /// The distance at which a mention on the screen counts half.
    pub context_half_distance: u32,
}

/// What a setup says.
pub struct ConfigText {
    pub kana: Seq<KeyText>,
    pub confirm: Seq<KeyText>,
    pub cancel: Seq<KeyText>,
    pub ascii: Seq<KeyText>,
    pub zenkaku: Seq<KeyText>,
    pub katakana: Seq<KeyText>,
    pub hankaku_katakana: Seq<KeyText>,
    pub start_conversion: Seq<KeyText>,
    pub abbrev: Seq<KeyText>,
    pub convert: Seq<KeyText>,
    pub previous: Seq<KeyText>,
    pub complete: Seq<KeyText>,
    pub complete_previous: Seq<KeyText>,
    pub purge: Seq<KeyText>,
    pub affix: Seq<KeyText>,
    pub move_left: Seq<KeyText>,
    pub move_right: Seq<KeyText>,
    pub move_home: Seq<KeyText>,
    pub move_end: Seq<KeyText>,
    pub delete_forward: Seq<KeyText>,
    pub backspace: Seq<KeyText>,
    pub sticky: Seq<KeyText>,
    pub snippet_edit: Seq<KeyText>,
    pub reload: Seq<KeyText>,
    pub select: Seq<char>,
    pub inline_candidates: nat,
    pub layout: Layout,
    pub mode_symbols: Seq<char>,
    pub mode_marker: Marker,
    pub kutouten: Kutouten,
    pub azik: bool,
    pub auto_start_henkan: Seq<char>,
    pub learn_combined: bool,
    pub ascii_keys: Seq<KeyText>,
    pub snippets: Seq<Seq<char>>,
    pub dynamic_completion: DynamicCompletion,
    pub okuri_match: OkuriMatch,
    pub context_order: bool,
    pub context_half_distance: u32,
}

impl View for Config {
    type V = ConfigText;

    open spec fn view(&self) -> ConfigText {
        config_text(*self)
    }
}

/// What a setup says, field by field.
#[verifier::opaque]
pub open spec fn config_text(c: Config) -> ConfigText {
    ConfigText {
        kana: key_texts(c.kana@),
        confirm: key_texts(c.confirm@),
        cancel: key_texts(c.cancel@),
        ascii: key_texts(c.ascii@),
        zenkaku: key_texts(c.zenkaku@),
        katakana: key_texts(c.katakana@),
        hankaku_katakana: key_texts(c.hankaku_katakana@),
        start_conversion: key_texts(c.start_conversion@),
        abbrev: key_texts(c.abbrev@),
        convert: key_texts(c.convert@),
        previous: key_texts(c.previous@),
        complete: key_texts(c.complete@),
        complete_previous: key_texts(c.complete_previous@),
        purge: key_texts(c.purge@),
        affix: key_texts(c.affix@),
        move_left: key_texts(c.move_left@),
        move_right: key_texts(c.move_right@),
        move_home: key_texts(c.move_home@),
        move_end: key_texts(c.move_end@),
        delete_forward: key_texts(c.delete_forward@),
        backspace: key_texts(c.backspace@),
        sticky: key_texts(c.sticky@),
        snippet_edit: key_texts(c.snippet_edit@),
        reload: key_texts(c.reload@),
        select: c.select@,
        inline_candidates: c.inline_candidates as nat,
        layout: c.layout,
        mode_symbols: c.mode_symbols@,
        mode_marker: c.mode_marker,
        kutouten: c.kutouten,
        azik: c.azik,
        auto_start_henkan: c.auto_start_henkan@,
        learn_combined: c.learn_combined,
        ascii_keys: key_texts(c.ascii_keys@),
        snippets: texts(c.snippets@),
        dynamic_completion: c.dynamic_completion,
        okuri_match: c.okuri_match,
        context_order: c.context_order,
        context_half_distance: c.context_half_distance,
    }
}

/// The setup of a user who has set nothing up.
pub open spec fn default_config() -> ConfigText {
    ConfigText {
        kana: seq![KeyText::Ctrl(0x0a)],
        confirm: seq![KeyText::Ctrl(0x0a)],
        cancel: seq![KeyText::Ctrl(0x07)],
        ascii: seq![KeyText::Char('l')],
        zenkaku: seq![KeyText::Char('L')],
        katakana: seq![KeyText::Char('q')],
        hankaku_katakana: seq![KeyText::Ctrl(0x11)],
        start_conversion: seq![KeyText::Char('Q')],
        abbrev: seq![KeyText::Char('/')],
        convert: seq![KeyText::Char(' ')],
        previous: seq![KeyText::Char('x')],
        complete: seq![KeyText::Tab],
        complete_previous: seq![KeyText::ShiftTab],
        purge: seq![KeyText::Char('X')],
        affix: seq![KeyText::Char('>')],
        move_left: seq![KeyText::Ctrl(0x02)] + named_keys("left"@)->0,
        move_right: seq![KeyText::Ctrl(0x06)] + named_keys("right"@)->0,
        move_home: seq![KeyText::Ctrl(0x01)] + named_keys("home"@)->0,
        move_end: seq![KeyText::Ctrl(0x05)] + named_keys("end"@)->0,
        delete_forward: seq![KeyText::Ctrl(0x04)],
        backspace: seq![KeyText::Backspace, KeyText::Ctrl(0x08)],
        sticky: seq![],
        snippet_edit: seq![],
        reload: seq![],
        select: seq!['a', 's', 'd', 'f', 'j', 'k', 'l'],
        inline_candidates: 4,
        layout: Layout::Inline,
        mode_symbols: seq!['~', '+', '-', '@'],
        mode_marker: Marker::Cell,
        kutouten: Kutouten::Jp,
        azik: false,
        auto_start_henkan: "を、。．，？」！；：);:）”】』》〉}]?.,!"@,
        learn_combined: true,
        ascii_keys: seq![KeyText::Esc, KeyText::Ctrl(0x03)],
        snippets: seq![],
        dynamic_completion: DynamicCompletion::Off,
        okuri_match: OkuriMatch::First,
        context_order: false,
        context_half_distance: 200,
    }
}

/// The lists of keys of a setup.
#[derive(Clone, Copy, Debug, PartialEq, Eq, Structural)]
pub enum Slot {
    Kana,
    Confirm,
    Cancel,
    Ascii,
    Zenkaku,
    Katakana,
    HankakuKatakana,
    StartConversion,
    Abbrev,
    Convert,
    Previous,
    Complete,
    CompletePrevious,
    Purge,
    Affix,
    MoveLeft,
    MoveRight,
    MoveHome,
    MoveEnd,
    DeleteForward,
    Backspace,
    Sticky,
    SnippetEdit,
    Reload,
    AsciiKeys,
}

/// The keys of a list.
pub open spec fn slot_keys(c: ConfigText, slot: Slot) -> Seq<KeyText> {
    match slot {
        Slot::Kana => c.kana,
        Slot::Confirm => c.confirm,
        Slot::Cancel => c.cancel,
        Slot::Ascii => c.ascii,
        Slot::Zenkaku => c.zenkaku,
        Slot::Katakana => c.katakana,
        Slot::HankakuKatakana => c.hankaku_katakana,
        Slot::StartConversion => c.start_conversion,
        Slot::Abbrev => c.abbrev,
        Slot::Convert => c.convert,
        Slot::Previous => c.previous,
        Slot::Complete => c.complete,
        Slot::CompletePrevious => c.complete_previous,
        Slot::Purge => c.purge,
        Slot::Affix => c.affix,
        Slot::MoveLeft => c.move_left,
        Slot::MoveRight => c.move_right,
        Slot::MoveHome => c.move_home,
        Slot::MoveEnd => c.move_end,
        Slot::DeleteForward => c.delete_forward,
        Slot::Backspace => c.backspace,
        Slot::Sticky => c.sticky,
        Slot::SnippetEdit => c.snippet_edit,
        Slot::Reload => c.reload,
        Slot::AsciiKeys => c.ascii_keys,
    }
}

/// The names of the key settings.
pub const KEY_NAMES: [&'static str; 24] = [
    "kana", "confirm", "cancel", "ascii", "zenkaku", "katakana", "hankaku_katakana",
    "start_conversion", "abbrev", "convert", "previous", "complete", "complete_previous", "purge",
    "affix", "move_left", "move_right", "move_home", "move_end", "delete_forward", "backspace",
    "sticky", "snippet_edit", "reload",
];

/// The key settings of a setup, in the order of `KEY_NAMES`.
pub open spec fn key_lists(c: ConfigText) -> Seq<Seq<KeyText>> {
    seq![
        c.kana,
        c.confirm,
        c.cancel,
        c.ascii,
        c.zenkaku,
        c.katakana,
        c.hankaku_katakana,
        c.start_conversion,
        c.abbrev,
        c.convert,
        c.previous,
        c.complete,
        c.complete_previous,
        c.purge,
        c.affix,
        c.move_left,
        c.move_right,
        c.move_home,
        c.move_end,
        c.delete_forward,
        c.backspace,
        c.sticky,
        c.snippet_edit,
        c.reload,
    ]
}

/// The characters that choose from the list, or `unset`.
pub open spec fn select_in(doc: Doc, unset: Seq<char>) -> Seq<char> {
    match setting(doc, "keys"@, "select"@) {
        Some(s) => match select_read(s) {
            Ok(v) => v,
            Err(_) => unset,
        },
        None => unset,
    }
}

/// The number of candidates before the list, or `unset`.
pub open spec fn inline_in(doc: Doc, unset: nat) -> nat {
    match setting(doc, "candidates"@, "inline"@) {
        Some(SettingText::Number(n)) if n >= 1 => if n > usize::MAX {
            usize::MAX as nat
        } else {
            n as nat
        },
        _ => unset,
    }
}

/// The marks of the input modes, or `unset`.
pub open spec fn marks_in(doc: Doc, unset: Seq<char>) -> Seq<char> {
    match setting(doc, "behavior"@, "mode_symbols"@) {
        Some(SettingText::Table(t)) => symbols_in(t, unset),
        _ => unset,
    }
}

/// The characters that start a conversion, or `unset`.
pub open spec fn auto_start_in(doc: Doc, unset: Seq<char>) -> Seq<char> {
    match setting(doc, "behavior"@, "auto_start_henkan"@) {
        Some(s) => match chars_read("auto_start_henkan"@, s) {
            Ok(v) => v,
            Err(_) => unset,
        },
        None => unset,
    }
}

/// A truth value of `[behavior]`, or `unset`.
pub open spec fn flag_in(doc: Doc, name: Seq<char>, unset: bool) -> bool {
    match setting(doc, "behavior"@, name) {
        Some(SettingText::Flag(b)) => b,
        _ => unset,
    }
}

/// The snippet files, or `unset`.
pub open spec fn paths_in(doc: Doc, unset: Seq<Seq<char>>) -> Seq<Seq<char>> {
    match setting(doc, "snippets"@, "files"@) {
        Some(s) => match paths_read("files"@, s) {
            Ok(v) => v,
            Err(_) => unset,
        },
        None => unset,
    }
}

/// The distance at which a mention counts half, or `unset`.
pub open spec fn half_distance_in(doc: Doc, unset: u32) -> u32 {
    match setting(doc, "behavior"@, "context_half_distance"@) {
        Some(SettingText::Number(n)) if 1 <= n <= u32::MAX => n as u32,
        _ => unset,
    }
}

/// Where the list of candidates goes, or `unset`.
pub open spec fn layout_in(doc: Doc, unset: Layout) -> Layout {
    match word(doc, "candidates"@, "layout"@) {
        Some(w) if layout_of(w) is Some => layout_of(w)->0,
        _ => unset,
    }
}

/// How the input mode is shown, or `unset`.
pub open spec fn marker_in(doc: Doc, unset: Marker) -> Marker {
    match word(doc, "behavior"@, "mode_marker"@) {
        Some(w) if marker_of(w) is Some => marker_of(w)->0,
        _ => unset,
    }
}

/// The punctuation, or `unset`.
pub open spec fn kutouten_in(doc: Doc, unset: Kutouten) -> Kutouten {
    match word(doc, "behavior"@, "kutouten"@) {
        Some(w) if kutouten_of(w) is Some => kutouten_of(w)->0,
        _ => unset,
    }
}

/// Whether AZIK spellings are in use, or `unset`.
pub open spec fn romaji_in(doc: Doc, unset: bool) -> bool {
    match word(doc, "behavior"@, "romaji"@) {
        Some(w) if romaji_of(w) is Some => romaji_of(w)->0,
        _ => unset,
    }
}

/// Whether completions are shown, or `unset`.
pub open spec fn completion_in(doc: Doc, unset: DynamicCompletion) -> DynamicCompletion {
    match word(doc, "behavior"@, "dynamic_completion"@) {
        Some(w) if completion_of(w) is Some => completion_of(w)->0,
        _ => unset,
    }
}

/// What the okurigana does to the order, or `unset`.
pub open spec fn okuri_match_in(doc: Doc, unset: OkuriMatch) -> OkuriMatch {
    match word(doc, "behavior"@, "okuri_match"@) {
        Some(w) if okuri_match_of(w) is Some => okuri_match_of(w)->0,
        _ => unset,
    }
}

/// What a setup file makes of the defaults: only what is written changes.
pub open spec fn configured(doc: Doc) -> ConfigText {
    let d = default_config();
    ConfigText {
        kana: keys_in(doc, "keys"@, "kana"@, d.kana),
        confirm: keys_in(doc, "keys"@, "confirm"@, d.confirm),
        cancel: keys_in(doc, "keys"@, "cancel"@, d.cancel),
        ascii: keys_in(doc, "keys"@, "ascii"@, d.ascii),
        zenkaku: keys_in(doc, "keys"@, "zenkaku"@, d.zenkaku),
        katakana: keys_in(doc, "keys"@, "katakana"@, d.katakana),
        hankaku_katakana: keys_in(doc, "keys"@, "hankaku_katakana"@, d.hankaku_katakana),
        start_conversion: keys_in(doc, "keys"@, "start_conversion"@, d.start_conversion),
        abbrev: keys_in(doc, "keys"@, "abbrev"@, d.abbrev),
        convert: keys_in(doc, "keys"@, "convert"@, d.convert),
        previous: keys_in(doc, "keys"@, "previous"@, d.previous),
        complete: keys_in(doc, "keys"@, "complete"@, d.complete),
        complete_previous: keys_in(doc, "keys"@, "complete_previous"@, d.complete_previous),
        purge: keys_in(doc, "keys"@, "purge"@, d.purge),
        affix: keys_in(doc, "keys"@, "affix"@, d.affix),
        move_left: keys_in(doc, "keys"@, "move_left"@, d.move_left),
        move_right: keys_in(doc, "keys"@, "move_right"@, d.move_right),
        move_home: keys_in(doc, "keys"@, "move_home"@, d.move_home),
        move_end: keys_in(doc, "keys"@, "move_end"@, d.move_end),
        delete_forward: keys_in(doc, "keys"@, "delete_forward"@, d.delete_forward),
        backspace: keys_in(doc, "keys"@, "backspace"@, d.backspace),
        sticky: keys_in(doc, "keys"@, "sticky"@, d.sticky),
        snippet_edit: keys_in(doc, "keys"@, "snippet_edit"@, d.snippet_edit),
        reload: keys_in(doc, "keys"@, "reload"@, d.reload),
        select: select_in(doc, d.select),
        inline_candidates: inline_in(doc, d.inline_candidates),
        layout: layout_in(doc, d.layout),
        mode_symbols: marks_in(doc, d.mode_symbols),
        mode_marker: marker_in(doc, d.mode_marker),
        kutouten: kutouten_in(doc, d.kutouten),
        azik: romaji_in(doc, d.azik),
        auto_start_henkan: auto_start_in(doc, d.auto_start_henkan),
        learn_combined: flag_in(doc, "learn_combined"@, d.learn_combined),
        ascii_keys: keys_in(doc, "behavior"@, "ascii_keys"@, d.ascii_keys),
        snippets: paths_in(doc, d.snippets),
        dynamic_completion: completion_in(doc, d.dynamic_completion),
        okuri_match: okuri_match_in(doc, d.okuri_match),
        context_order: flag_in(doc, "context_order"@, d.context_order),
        context_half_distance: half_distance_in(doc, d.context_half_distance),
    }
}

impl Default for Config {
    fn default() -> (r: Self)
        ensures
            r@ == default_config(),
    {
        proof {
            reveal(config_text);
        }
        let none: Vec<String> = Vec::new();
        assert(texts(none@) =~= seq![]);
        let kana: Vec<Key> = vec![Key::Ctrl(0x0a)];
        assert(key_texts(kana@) =~= seq![KeyText::Ctrl(0x0a)]);
        let confirm: Vec<Key> = vec![Key::Ctrl(0x0a)];
        assert(key_texts(confirm@) =~= seq![KeyText::Ctrl(0x0a)]);
        let cancel: Vec<Key> = vec![Key::Ctrl(0x07)];
        assert(key_texts(cancel@) =~= seq![KeyText::Ctrl(0x07)]);
        let ascii: Vec<Key> = vec![Key::Char('l')];
        assert(key_texts(ascii@) =~= seq![KeyText::Char('l')]);
        let zenkaku: Vec<Key> = vec![Key::Char('L')];
        assert(key_texts(zenkaku@) =~= seq![KeyText::Char('L')]);
        let katakana: Vec<Key> = vec![Key::Char('q')];
        assert(key_texts(katakana@) =~= seq![KeyText::Char('q')]);
        let hankaku_katakana: Vec<Key> = vec![Key::Ctrl(0x11)];
        assert(key_texts(hankaku_katakana@) =~= seq![KeyText::Ctrl(0x11)]);
        let start_conversion: Vec<Key> = vec![Key::Char('Q')];
        assert(key_texts(start_conversion@) =~= seq![KeyText::Char('Q')]);
        let abbrev: Vec<Key> = vec![Key::Char('/')];
        assert(key_texts(abbrev@) =~= seq![KeyText::Char('/')]);
        let convert: Vec<Key> = vec![Key::Char(' ')];
        assert(key_texts(convert@) =~= seq![KeyText::Char(' ')]);
        let previous: Vec<Key> = vec![Key::Char('x')];
        assert(key_texts(previous@) =~= seq![KeyText::Char('x')]);
        let complete: Vec<Key> = vec![Key::Tab];
        assert(key_texts(complete@) =~= seq![KeyText::Tab]);
        let complete_previous: Vec<Key> = vec![Key::ShiftTab];
        assert(key_texts(complete_previous@) =~= seq![KeyText::ShiftTab]);
        let purge: Vec<Key> = vec![Key::Char('X')];
        assert(key_texts(purge@) =~= seq![KeyText::Char('X')]);
        let affix: Vec<Key> = vec![Key::Char('>')];
        assert(key_texts(affix@) =~= seq![KeyText::Char('>')]);
        let move_left: Vec<Key> = ctrl_or_sequence(0x02, "left");
        let move_right: Vec<Key> = ctrl_or_sequence(0x06, "right");
        let move_home: Vec<Key> = ctrl_or_sequence(0x01, "home");
        let move_end: Vec<Key> = ctrl_or_sequence(0x05, "end");
        let delete_forward: Vec<Key> = vec![Key::Ctrl(0x04)];
        assert(key_texts(delete_forward@) =~= seq![KeyText::Ctrl(0x04)]);
        let backspace: Vec<Key> = vec![Key::Backspace, Key::Ctrl(0x08)];
        assert(key_texts(backspace@) =~= seq![KeyText::Backspace, KeyText::Ctrl(0x08)]);
        let sticky: Vec<Key> = vec![];
        assert(key_texts(sticky@) =~= seq![]);
        let snippet_edit: Vec<Key> = vec![];
        assert(key_texts(snippet_edit@) =~= seq![]);
        let reload: Vec<Key> = vec![];
        assert(key_texts(reload@) =~= seq![]);
        let ascii_keys: Vec<Key> = vec![Key::Esc, Key::Ctrl(0x03)];
        assert(key_texts(ascii_keys@) =~= seq![KeyText::Esc, KeyText::Ctrl(0x03)]);
        let select: Vec<char> = vec!['a', 's', 'd', 'f', 'j', 'k', 'l'];
        assert(select@ =~= seq!['a', 's', 'd', 'f', 'j', 'k', 'l']);
        let mode_symbols: [char; 4] = ['~', '+', '-', '@'];
        assert(mode_symbols@ =~= seq!['~', '+', '-', '@']);
        Config {
            kana,
            confirm,
            cancel,
            ascii,
            zenkaku,
            katakana,
            hankaku_katakana,
            start_conversion,
            abbrev,
            convert,
            previous,
            complete,
            complete_previous,
            purge,
            affix,
            move_left,
            move_right,
            move_home,
            move_end,
            delete_forward,
            backspace,
            sticky,
            snippet_edit,
            reload,
            select,
            inline_candidates: 4,
            layout: Layout::Inline,
            mode_symbols,
            mode_marker: Marker::Cell,
            kutouten: Kutouten::Jp,
            azik: false,
            auto_start_henkan: chars_of("を、。．，？」！；：);:）”】』》〉}]?.,!"),
            learn_combined: true,
            ascii_keys,
            snippets: none,
            dynamic_completion: DynamicCompletion::Off,
            okuri_match: OkuriMatch::First,
            context_order: false,
            context_half_distance: 200,
        }
    }
}

impl Config {
    pub fn kutouten(&self) -> (r: Kutouten)
        ensures
            r == self@.kutouten,
    {
        proof {
            reveal(config_text);
        }
        self.kutouten
    }

    pub fn azik(&self) -> (r: bool)
        ensures
            r == self@.azik,
    {
        proof {
            reveal(config_text);
        }
        self.azik
    }

    pub fn learn_combined(&self) -> (r: bool)
        ensures
            r == self@.learn_combined,
    {
        proof {
            reveal(config_text);
        }
        self.learn_combined
    }

    pub fn okuri_match(&self) -> (r: OkuriMatch)
        ensures
            r == self@.okuri_match,
    {
        proof {
            reveal(config_text);
        }
        self.okuri_match
    }

    pub fn layout(&self) -> (r: Layout)
        ensures
            r == self@.layout,
    {
        proof {
            reveal(config_text);
        }
        self.layout
    }

    pub fn mode_marker(&self) -> (r: Marker)
        ensures
            r == self@.mode_marker,
    {
        proof {
            reveal(config_text);
        }
        self.mode_marker
    }

    pub fn dynamic_completion(&self) -> (r: DynamicCompletion)
        ensures
            r == self@.dynamic_completion,
    {
        proof {
            reveal(config_text);
        }
        self.dynamic_completion
    }

    pub fn context_order(&self) -> (r: bool)
        ensures
            r == self@.context_order,
    {
        proof {
            reveal(config_text);
        }
        self.context_order
    }

    pub fn context_half_distance(&self) -> (r: u32)
        ensures
            r == self@.context_half_distance,
    {
        proof {
            reveal(config_text);
        }
        self.context_half_distance
    }

    pub fn inline_candidates(&self) -> (r: usize)
        ensures
            r == self@.inline_candidates,
    {
        proof {
            reveal(config_text);
        }
        self.inline_candidates
    }

    /// The keys that choose from the list.
    pub fn select_keys(&self) -> (r: &Vec<char>)
        ensures
            r@ == self@.select,
    {
        proof {
            reveal(config_text);
        }
        &self.select
    }

    /// Whether a character starts a conversion.
    pub fn starts_henkan(&self, c: char) -> (r: bool)
        ensures
            r == self@.auto_start_henkan.contains(c),
    {
        proof {
            reveal(config_text);
        }
        has_char(&self.auto_start_henkan, c)
    }

    /// The mark of an input mode.
    pub fn mode_symbol(&self, i: usize) -> (r: char)
        requires
            i < 4,
        ensures
            r == self@.mode_symbols[i as int],
    {
        proof {
            reveal(config_text);
        }
        self.mode_symbols[i]
    }

    /// Whether the engine can work with the setup.
    pub fn is_usable(&self) -> (r: bool)
        ensures
            r == (self@.inline_candidates >= 1 && self@.select.len() >= 1
                && self@.mode_symbols.len() == 4),
    {
        proof {
            reveal(config_text);
        }
        self.inline_candidates >= 1 && self.select.len() >= 1
    }

    /// Whether a key is bound by a list. Enter is bound by none; it may still be one of the
    /// keys that turn kana off on their way to the program.
    pub fn is(&self, slot: Slot, key: &Key) -> (r: bool)
        ensures
            r == (if slot == Slot::AsciiKeys {
                held(self@.ascii_keys, key@)
            } else {
                has(slot_keys(self@, slot), key@)
            }),
    {
        proof {
            reveal(config_text);
        }
        match slot {
            Slot::Kana => is_bound(&self.kana, key),
            Slot::Confirm => is_bound(&self.confirm, key),
            Slot::Cancel => is_bound(&self.cancel, key),
            Slot::Ascii => is_bound(&self.ascii, key),
            Slot::Zenkaku => is_bound(&self.zenkaku, key),
            Slot::Katakana => is_bound(&self.katakana, key),
            Slot::HankakuKatakana => is_bound(&self.hankaku_katakana, key),
            Slot::StartConversion => is_bound(&self.start_conversion, key),
            Slot::Abbrev => is_bound(&self.abbrev, key),
            Slot::Convert => is_bound(&self.convert, key),
            Slot::Previous => is_bound(&self.previous, key),
            Slot::Complete => is_bound(&self.complete, key),
            Slot::CompletePrevious => is_bound(&self.complete_previous, key),
            Slot::Purge => is_bound(&self.purge, key),
            Slot::Affix => is_bound(&self.affix, key),
            Slot::MoveLeft => is_bound(&self.move_left, key),
            Slot::MoveRight => is_bound(&self.move_right, key),
            Slot::MoveHome => is_bound(&self.move_home, key),
            Slot::MoveEnd => is_bound(&self.move_end, key),
            Slot::DeleteForward => is_bound(&self.delete_forward, key),
            Slot::Backspace => is_bound(&self.backspace, key),
            Slot::Sticky => is_bound(&self.sticky, key),
            Slot::SnippetEdit => is_bound(&self.snippet_edit, key),
            Slot::Reload => is_bound(&self.reload, key),
            Slot::AsciiKeys => is_held(&self.ascii_keys, key),
        }
    }

    /// Whether a list holds no key.
    pub fn unset(&self, slot: Slot) -> (r: bool)
        ensures
            r == (slot_keys(self@, slot).len() == 0),
    {
        proof {
            reveal(config_text);
        }
        let n: usize = match slot {
            Slot::Kana => self.kana.len(),
            Slot::Confirm => self.confirm.len(),
            Slot::Cancel => self.cancel.len(),
            Slot::Ascii => self.ascii.len(),
            Slot::Zenkaku => self.zenkaku.len(),
            Slot::Katakana => self.katakana.len(),
            Slot::HankakuKatakana => self.hankaku_katakana.len(),
            Slot::StartConversion => self.start_conversion.len(),
            Slot::Abbrev => self.abbrev.len(),
            Slot::Convert => self.convert.len(),
            Slot::Previous => self.previous.len(),
            Slot::Complete => self.complete.len(),
            Slot::CompletePrevious => self.complete_previous.len(),
            Slot::Purge => self.purge.len(),
            Slot::Affix => self.affix.len(),
            Slot::MoveLeft => self.move_left.len(),
            Slot::MoveRight => self.move_right.len(),
            Slot::MoveHome => self.move_home.len(),
            Slot::MoveEnd => self.move_end.len(),
            Slot::DeleteForward => self.delete_forward.len(),
            Slot::Backspace => self.backspace.len(),
            Slot::Sticky => self.sticky.len(),
            Slot::SnippetEdit => self.snippet_edit.len(),
            Slot::Reload => self.reload.len(),
            Slot::AsciiKeys => self.ascii_keys.len(),
        };
        n == 0
    }

    /// How many candidates a page of the list shows.
    pub fn page_size(&self) -> (r: usize)
        ensures
            r == page_len(self@),
    {
        proof {
            reveal(config_text);
        }
        if self.select.len() == 0 {
            1
        } else {
            self.select.len()
        }
    }

    /// The keys that the engine itself uses, list by list. `ascii_keys` belong to the child.
    fn key_slots(&self) -> (r: Vec<&Vec<Key>>)
        ensures
            r@.map_values(|v: &Vec<Key>| key_texts(v@)) == key_lists(self@),
    {
        proof {
            reveal(config_text);
        }
        let r: Vec<&Vec<Key>> = vec![
            &self.kana,
            &self.confirm,
            &self.cancel,
            &self.ascii,
            &self.zenkaku,
            &self.katakana,
            &self.hankaku_katakana,
            &self.start_conversion,
            &self.abbrev,
            &self.convert,
            &self.previous,
            &self.complete,
            &self.complete_previous,
            &self.purge,
            &self.affix,
            &self.move_left,
            &self.move_right,
            &self.move_home,
            &self.move_end,
            &self.delete_forward,
            &self.backspace,
            &self.sticky,
            &self.snippet_edit,
            &self.reload,
        ];
        assert(r@.map_values(|v: &Vec<Key>| key_texts(v@)) =~= key_lists(self@));
        r
    }

    /// The keys that the engine itself uses, each once.
    pub fn bound_keys(&self) -> (r: Vec<Key>)
        ensures
            key_texts(r@) == lists_joined(key_lists(self@), key_lists(self@).len() as int),
            forall|k: KeyText|
                #[trigger] key_texts(r@).contains(k) <==> exists|i: int|
                    0 <= i < key_lists(self@).len() && (#[trigger] key_lists(self@)[i]).contains(k),
    {
        let slots = self.key_slots();
        let ghost lists = key_lists(self@);
        let mut out: Vec<Key> = Vec::new();
        let mut i: usize = 0;
        assert(key_texts(out@) =~= seq![]);
        while i < slots.len()
            invariant
                i <= slots@.len(),
                slots@.map_values(|v: &Vec<Key>| key_texts(v@)) == lists,
                key_texts(out@) == lists_joined(lists, i as int),
            decreases slots.len() - i,
        {
            assert(lists[i as int] == key_texts(slots@[i as int]@));
            add_keys(&mut out, slots[i]);
            i = i + 1;
        }
        proof {
            assert forall|k: KeyText|
                #[trigger] key_texts(out@).contains(k) <==> exists|i: int|
                    0 <= i < lists.len() && (#[trigger] lists[i]).contains(k) by {
                lemma_lists_joined(lists, lists.len() as int, k);
            }
        }
        out
    }

    /// Reads a setup file. Broken files are refused as a whole.
    pub fn parse(text: &str) -> (r: Result<Config, ConfigError>)
        ensures
            match toml_shape(text@) {
                None => r is Err && r->Err_0 is Syntax,
                Some(doc) => match config_error(doc) {
                    Some(e) => r is Err && r->Err_0 is Refused && r->Err_0->Refused_0@ == e,
                    None => r is Ok && r->Ok_0@ == configured(doc),
                },
            },
    {
        match read_toml(text) {
            Ok(doc) => {
                let sections = sections_of(&doc);
                Config::from_sections(&sections)
            },
            Err(e) => Err(ConfigError::Syntax(e)),
        }
    }

    /// Makes a setup of the sections of a setup file.
    pub fn from_sections(doc: &Vec<Section>) -> (r: Result<Config, ConfigError>)
        ensures
            match config_error(doc_text(doc@)) {
                Some(e) => r is Err && r->Err_0 is Refused && r->Err_0->Refused_0@ == e,
                None => r is Ok && r->Ok_0@ == configured(doc_text(doc@)),
            },
    {
        proof {
            reveal(config_text);
        }
        if let Some(e) = check_config(doc) {
            return Err(ConfigError::Refused(e));
        }
        let d = Config::default();
        let c = Config {
            kana: read_keys(doc, "keys", "kana", d.kana),
            confirm: read_keys(doc, "keys", "confirm", d.confirm),
            cancel: read_keys(doc, "keys", "cancel", d.cancel),
            ascii: read_keys(doc, "keys", "ascii", d.ascii),
            zenkaku: read_keys(doc, "keys", "zenkaku", d.zenkaku),
            katakana: read_keys(doc, "keys", "katakana", d.katakana),
            hankaku_katakana: read_keys(doc, "keys", "hankaku_katakana", d.hankaku_katakana),
            start_conversion: read_keys(doc, "keys", "start_conversion", d.start_conversion),
            abbrev: read_keys(doc, "keys", "abbrev", d.abbrev),
            convert: read_keys(doc, "keys", "convert", d.convert),
            previous: read_keys(doc, "keys", "previous", d.previous),
            complete: read_keys(doc, "keys", "complete", d.complete),
            complete_previous: read_keys(doc, "keys", "complete_previous", d.complete_previous),
            purge: read_keys(doc, "keys", "purge", d.purge),
            affix: read_keys(doc, "keys", "affix", d.affix),
            move_left: read_keys(doc, "keys", "move_left", d.move_left),
            move_right: read_keys(doc, "keys", "move_right", d.move_right),
            move_home: read_keys(doc, "keys", "move_home", d.move_home),
            move_end: read_keys(doc, "keys", "move_end", d.move_end),
            delete_forward: read_keys(doc, "keys", "delete_forward", d.delete_forward),
            backspace: read_keys(doc, "keys", "backspace", d.backspace),
            sticky: read_keys(doc, "keys", "sticky", d.sticky),
            snippet_edit: read_keys(doc, "keys", "snippet_edit", d.snippet_edit),
            reload: read_keys(doc, "keys", "reload", d.reload),
            select: read_select(doc, d.select),
            inline_candidates: read_inline(doc, d.inline_candidates),
            layout: read_layout(doc, d.layout),
            mode_symbols: read_marks(doc, d.mode_symbols),
            mode_marker: read_marker(doc, d.mode_marker),
            kutouten: read_kutouten(doc, d.kutouten),
            azik: read_romaji(doc, d.azik),
            auto_start_henkan: read_auto_start(doc, d.auto_start_henkan),
            learn_combined: read_flag(doc, "learn_combined", d.learn_combined),
            ascii_keys: read_keys(doc, "behavior", "ascii_keys", d.ascii_keys),
            snippets: read_paths(doc, d.snippets),
            dynamic_completion: read_completion(doc, d.dynamic_completion),
            okuri_match: read_okuri_match(doc, d.okuri_match),
            context_order: read_flag(doc, "context_order", d.context_order),
            context_half_distance: read_half_distance(doc, d.context_half_distance),
        };
        Ok(c)
    }
}

/// Adds those of `more` that are new to `out`.
fn add_keys(out: &mut Vec<Key>, more: &Vec<Key>)
    ensures
        key_texts(final(out)@) == keys_added_upto(
            key_texts(old(out)@),
            key_texts(more@),
            more@.len() as int,
        ),
{
    let ghost first = key_texts(out@);
    let ghost all = key_texts(more@);
    let mut i: usize = 0;
    while i < more.len()
        invariant
            i <= more@.len(),
            all == key_texts(more@),
            key_texts(out@) == keys_added_upto(first, all, i as int),
        decreases more.len() - i,
    {
        proof {
            reveal(held);
        }
        let ghost had = key_texts(out@);
        assert(all[i as int] == more@[i as int]@);
        if !is_held(out, &more[i]) {
            let k = more[i].copied();
            out.push(k);
            assert(key_texts(out@) =~= had.push(k@));
        }
        i = i + 1;
    }
}

/// A sequence of three bytes as a key.
fn sequence3(a: u8, b: u8, c: u8) -> (r: Key)
    ensures
        r@ == KeyText::Raw(seq![a, b, c]),
{
    let v: Vec<u8> = vec![a, b, c];
    assert(v@ =~= seq![a, b, c]);
    Key::Raw(v)
}

/// A sequence of four bytes as a key.
fn sequence4(a: u8, b: u8, c: u8, d: u8) -> (r: Key)
    ensures
        r@ == KeyText::Raw(seq![a, b, c, d]),
{
    let v: Vec<u8> = vec![a, b, c, d];
    assert(v@ =~= seq![a, b, c, d]);
    Key::Raw(v)
}

fn arrow_sequences(last: u8) -> (r: Vec<Key>)
    ensures
        key_texts(r@) == arrow_keys(last),
{
    let r: Vec<Key> = vec![sequence3(0x1b, 0x5b, last), sequence3(0x1b, 0x4f, last)];
    assert(key_texts(r@) =~= arrow_keys(last));
    r
}

fn edge_sequences(last: u8, linux: u8, rxvt: u8) -> (r: Vec<Key>)
    ensures
        key_texts(r@) == edge_keys(last, linux, rxvt),
{
    let r: Vec<Key> = vec![
        sequence3(0x1b, 0x5b, last),
        sequence3(0x1b, 0x4f, last),
        sequence4(0x1b, 0x5b, linux, 0x7e),
        sequence4(0x1b, 0x5b, rxvt, 0x7e),
    ];
    assert(key_texts(r@) =~= edge_keys(last, linux, rxvt));
    r
}

/// The keys that a name of a sequence stands for.
pub fn named_sequence(name: &str) -> (r: Option<Vec<Key>>)
    ensures
        match r {
            Some(v) => named_keys(name@) == Some(key_texts(v@)),
            None => named_keys(name@) is None,
        },
{
    if *name == *"left" {
        Some(arrow_sequences(0x44))
    } else if *name == *"right" {
        Some(arrow_sequences(0x43))
    } else if *name == *"up" {
        Some(arrow_sequences(0x41))
    } else if *name == *"down" {
        Some(arrow_sequences(0x42))
    } else if *name == *"home" {
        Some(edge_sequences(0x48, 0x31, 0x37))
    } else if *name == *"end" {
        Some(edge_sequences(0x46, 0x34, 0x38))
    } else {
        None
    }
}

/// A control key and a named sequence.
fn ctrl_or_sequence(ctrl: u8, name: &str) -> (r: Vec<Key>)
    requires
        named_keys(name@) is Some,
    ensures
        key_texts(r@) == seq![KeyText::Ctrl(ctrl)] + named_keys(name@)->0,
{
    let mut out: Vec<Key> = Vec::new();
    out.push(Key::Ctrl(ctrl));
    match named_sequence(name) {
        Some(more) => {
            let mut i: usize = 0;
            let ghost all = key_texts(more@);
            assert(key_texts(out@) =~= seq![KeyText::Ctrl(ctrl)] + all.take(0));
            while i < more.len()
                invariant
                    i <= more@.len(),
                    all == key_texts(more@),
                    key_texts(out@) == seq![KeyText::Ctrl(ctrl)] + all.take(i as int),
                decreases more.len() - i,
            {
                let ghost had = key_texts(out@);
                let k = more[i].copied();
                out.push(k);
                i = i + 1;
                proof {
                    lemma_take_next(all, i - 1);
                    assert(key_texts(out@) =~= had.push(k@));
                    assert(key_texts(out@) =~= seq![KeyText::Ctrl(ctrl)] + all.take(i as int));
                }
            }
            assert(all.take(i as int) =~= all);
        },
        None => {},
    }
    out
}

/// What follows `prefix` in `w`, if it starts with it.
fn after_prefix(w: &Vec<char>, prefix: &str) -> (r: Option<String>)
    ensures
        match r {
            Some(s) => prefix@.is_prefix_of(w@) && s@ == w@.skip(prefix@.len() as int),
            None => !prefix@.is_prefix_of(w@),
        },
{
    let p = chars_of(prefix);
    assert(w@.skip(0) =~= w@);
    if starts_at(w, 0, &p) {
        let s = slice_text(w, p.len(), w.len());
        assert(s@ =~= w@.skip(prefix@.len() as int));
        Some(s)
    } else {
        None
    }
}

fn ctrl_rest(w: &Vec<char>) -> (r: Option<String>)
    ensures
        match r {
            Some(s) => after_ctrl(w@) == Some(s@),
            None => after_ctrl(w@) is None,
        },
{
    if let Some(s) = after_prefix(w, "c-") {
        return Some(s);
    }
    if let Some(s) = after_prefix(w, "ctrl-") {
        return Some(s);
    }
    if let Some(s) = after_prefix(w, "ctrl+") {
        return Some(s);
    }
    after_prefix(w, "control-")
}

fn ctrl_byte(c: char) -> (r: Option<u8>)
    ensures
        r == ctrl_code(c),
{
    if 'a' <= c && c <= 'z' {
        Some((c as u32 - 0x60) as u8)
    } else if c == '@' {
        Some(0x00)
    } else if c == '\\' {
        Some(0x1c)
    } else if c == ']' {
        Some(0x1d)
    } else if c == '^' {
        Some(0x1e)
    } else if c == '_' {
        Some(0x1f)
    } else {
        None
    }
}

fn named_key(w: &str) -> (r: Option<Key>)
    ensures
        match r {
            Some(k) => word_key(w@) == Some(k@),
            None => word_key(w@) is None,
        },
{
    if *w == *"space" || *w == *"spc" {
        Some(Key::Char(' '))
    } else if *w == *"enter" || *w == *"return" || *w == *"ret" {
        Some(Key::Enter)
    } else if *w == *"tab" {
        Some(Key::Tab)
    } else if *w == *"esc" || *w == *"escape" {
        Some(Key::Esc)
    } else if *w == *"bs" || *w == *"backspace" || *w == *"del" {
        Some(Key::Backspace)
    } else if *w == *"s-tab" || *w == *"shift-tab" || *w == *"btab" {
        Some(Key::ShiftTab)
    } else {
        None
    }
}

/// A list of one key.
fn one_key(k: Key) -> (r: Vec<Key>)
    ensures
        key_texts(r@) == seq![k@],
{
    let mut v: Vec<Key> = Vec::new();
    v.push(k);
    assert(key_texts(v@) =~= seq![k@]);
    v
}

/// A list of one character.
fn char_key(c: char) -> (r: Vec<Key>)
    ensures
        key_texts(r@) == seq![KeyText::Char(c)],
{
    one_key(Key::Char(c))
}

/// The keys that a way to write a key stands for: `C-j`, `ctrl+j`, `space`, `left`, `q`.
pub fn parse_key(spec: &str) -> (r: Result<Vec<Key>, String>)
    ensures
        match r {
            Ok(v) => key_read(spec@) == Ok::<Seq<KeyText>, Seq<char>>(key_texts(v@)),
            Err(e) => key_read(spec@) == Err::<Seq<KeyText>, Seq<char>>(e@),
        },
{
    let t = trim_text(spec);
    if t.as_str().is_empty() {
        return Err("キーの指定が空".to_owned());
    }
    let w = lower_chars(t.as_str());
    let word = text_of(&w);
    if let Some(k) = named_key(word.as_str()) {
        return Ok(one_key(k));
    }
    if let Some(keys) = named_sequence(word.as_str()) {
        return Ok(keys);
    }
    if let Some(rest) = ctrl_rest(&w) {
        return ctrl_key(spec, rest.as_str());
    }
    let c = chars_of(t.as_str());
    if c.len() == 1 {
        let keys = char_key(c[0]);
        proof {
            assert(key_read(spec@) is Ok);
            assert(key_read(spec@)->Ok_0 == key_texts(keys@));
        }
        return Ok(keys);
    }
    Err(joined(spec, " は解せない"))
}

/// The key that the control key makes with what follows it.
fn ctrl_key(spec: &str, rest: &str) -> (r: Result<Vec<Key>, String>)
    ensures
        match r {
            Ok(v) => ctrl_read(spec@, rest@) == Ok::<Seq<KeyText>, Seq<char>>(key_texts(v@)),
            Err(e) => ctrl_read(spec@, rest@) == Err::<Seq<KeyText>, Seq<char>>(e@),
        },
{
    if *rest == *"space" || *rest == *"spc" {
        return Ok(one_key(Key::Ctrl(0x00)));
    }
    let c = chars_of(rest);
    if c.len() != 1 {
        return Err(joined(spec, " は解せない (Ctrl は一文字にだけ付く)"));
    }
    match ctrl_byte(c[0]) {
        Some(b) => Ok(one_key(Key::Ctrl(b))),
        None => Err(joined(spec, " は解せない (Ctrl は英字にだけ付く)")),
    }
}

/// A text without the white space at both ends.
fn trim_text(s: &str) -> (r: String)
    ensures
        r@ == trim(s@),
{
    let v = chars_of(s);
    let from = trimmed_start(&v, 0, v.len());
    let to = trimmed_end(&v, from, v.len());
    assert(v@.subrange(0, v@.len() as int) =~= v@);
    slice_text(&v, from, to)
}

/// The characters of a text with its capital letters made small.
fn lower_chars(s: &str) -> (r: Vec<char>)
    ensures
        r@ == s@.map_values(|c: char| lower(c)),
{
    let v = chars_of(s);
    let mut w: Vec<char> = Vec::new();
    for i in 0..v.len()
        invariant
            w@ =~= v@.take(i as int).map_values(|c: char| lower(c)),
    {
        w.push(to_lower(v[i]));
        proof {
            lemma_take_next(v@, i as int);
        }
    }
    assert(v@.take(v@.len() as int) =~= v@);
    w
}

/// A setting that is a text or a list of texts.
fn parse_words(what: &str, s: &Setting) -> (r: Result<Vec<String>, String>)
    ensures
        match r {
            Ok(v) => words_read(what@, s@) == Ok::<Seq<Seq<char>>, Seq<char>>(texts(v@)),
            Err(e) => words_read(what@, s@) == Err::<Seq<Seq<char>>, Seq<char>>(e@),
        },
{
    match s {
        Setting::Text(t) => {
            let mut out: Vec<String> = Vec::new();
            out.push(t.clone());
            assert(texts(out@) =~= seq![t@]);
            Ok(out)
        },
        Setting::List(v) => {
            let ghost all = opt_texts(v@);
            let mut out: Vec<String> = Vec::new();
            let mut i: usize = 0;
            assert(texts(out@) =~= seq![]);
            while i < v.len()
                invariant
                    i <= v@.len(),
                    all == opt_texts(v@),
                    s@ == SettingText::List(all),
                    forall|j: int| 0 <= j < i ==> (#[trigger] all[j]) is Some,
                    texts(out@) == present(all.take(i as int)),
                decreases v.len() - i,
            {
                let ghost had = texts(out@);
                proof {
                    lemma_take_next(all, i as int);
                    assert(all[i as int] == opt_text(v@[i as int]));
                }
                match &v[i] {
                    Some(t) => {
                        out.push(t.clone());
                        assert(texts(out@) =~= had.push(t@));
                    },
                    None => {
                        return Err(joined(what, " の並びは文字列だけ"));
                    },
                }
                i = i + 1;
            }
            assert(all.take(i as int) =~= all);
            Ok(out)
        },
        _ => Err(joined(what, " は文字列か文字列の並び")),
    }
}

fn is_lax(name: &str) -> (r: bool)
    ensures
        r == may_be_unset(name@),
{
    *name == *"sticky" || *name == *"snippet_edit" || *name == *"reload" || *name == *"ascii_keys"
}

/// The keys of a key setting.
fn parse_keys(name: &str, s: &Setting) -> (r: Result<Vec<Key>, String>)
    ensures
        match r {
            Ok(v) => keys_read(name@, s@) == Ok::<Seq<KeyText>, Seq<char>>(key_texts(v@)),
            Err(e) => keys_read(name@, s@) == Err::<Seq<KeyText>, Seq<char>>(e@),
        },
{
    let what = joined("keys.", name);
    let specs = match parse_words(what.as_str(), s) {
        Ok(v) => v,
        Err(e) => {
            return Err(e);
        },
    };
    let ghost all = texts(specs@);
    if specs.len() == 0 && !is_lax(name) {
        return Err(joined(what.as_str(), " が空。割り当てを外したいなら項目ごと消す"));
    }
    let mut out: Vec<Key> = Vec::new();
    let mut i: usize = 0;
    assert(key_texts(out@) =~= seq![]);
    while i < specs.len()
        invariant
            i <= specs@.len(),
            all == texts(specs@),
            words_read("keys."@ + name@, s@) == Ok::<Seq<Seq<char>>, Seq<char>>(all),
            all.len() > 0 || may_be_unset(name@),
            keys_read_upto(all, i as int) == Ok::<Seq<KeyText>, Seq<char>>(key_texts(out@)),
        decreases specs.len() - i,
    {
        assert(all[i as int] == specs@[i as int]@);
        match parse_key(specs[i].as_str()) {
            Ok(more) => {
                let ghost had = key_texts(out@);
                let ghost new = key_texts(more@);
                let mut more = more;
                out.append(&mut more);
                assert(key_texts(out@) =~= had + new);
            },
            Err(e) => {
                proof {
                    assert(keys_read_upto(all, i + 1) == Err::<Seq<KeyText>, Seq<char>>(e@));
                    lemma_keys_error_stays(all, i + 1, all.len() as int);
                }
                return Err(e);
            },
        }
        i = i + 1;
    }
    Ok(out)
}

proof fn lemma_keys_error_stays(v: Seq<Seq<char>>, n: int, m: int)
    requires
        0 <= n <= m <= v.len(),
        keys_read_upto(v, n) is Err,
    ensures
        keys_read_upto(v, m) == keys_read_upto(v, n),
    decreases m - n,
{
    if n < m {
        lemma_keys_error_stays(v, n, m - 1);
    }
}

proof fn lemma_select_error_stays(v: Seq<Option<Seq<char>>>, n: int, m: int)
    requires
        0 <= n <= m <= v.len(),
        select_upto(v, n) is Err,
    ensures
        select_upto(v, m) == select_upto(v, n),
    decreases m - n,
{
    if n < m {
        lemma_select_error_stays(v, n, m - 1);
    }
}

/// The characters that choose from the list.
fn parse_select(s: &Setting) -> (r: Result<Vec<char>, String>)
    ensures
        match r {
            Ok(v) => select_read(s@) == Ok::<Seq<char>, Seq<char>>(v@),
            Err(e) => select_read(s@) == Err::<Seq<char>, Seq<char>>(e@),
        },
{
    match s {
        Setting::List(v) => {
            let ghost all = opt_texts(v@);
            let mut out: Vec<char> = Vec::new();
            let mut i: usize = 0;
            assert(out@ =~= seq![]);
            while i < v.len()
                invariant
                    i <= v@.len(),
                    all == opt_texts(v@),
                    s@ == SettingText::List(all),
                    select_upto(all, i as int) == Ok::<Seq<char>, Seq<char>>(out@),
                decreases v.len() - i,
            {
                assert(all[i as int] == opt_text(v@[i as int]));
                match &v[i] {
                    Some(t) => {
                        let c = chars_of(t.as_str());
                        if c.len() != 1 {
                            let head = joined("keys.select は一文字ずつ書く (", t.as_str());
                            proof {
                                lemma_select_error_stays(all, i + 1, all.len() as int);
                            }
                            return Err(joined(head.as_str(), " は不可)"));
                        }
                        out.push(c[0]);
                    },
                    None => {
                        proof {
                            lemma_select_error_stays(all, i + 1, all.len() as int);
                        }
                        return Err("keys.select の並びは文字列だけ".to_owned());
                    },
                }
                i = i + 1;
            }
            if out.len() == 0 {
                return Err("keys.select が空".to_owned());
            }
            Ok(out)
        },
        _ => Err("keys.select は文字の並び".to_owned()),
    }
}

/// A set of characters.
fn parse_chars(name: &str, s: &Setting) -> (r: Result<Vec<char>, String>)
    ensures
        match r {
            Ok(v) => chars_read(name@, s@) == Ok::<Seq<char>, Seq<char>>(v@),
            Err(e) => chars_read(name@, s@) == Err::<Seq<char>, Seq<char>>(e@),
        },
{
    let what = joined("behavior.", name);
    let words = match parse_words(what.as_str(), s) {
        Ok(v) => v,
        Err(e) => {
            return Err(e);
        },
    };
    let ghost all = texts(words@);
    let mut out: Vec<char> = Vec::new();
    let mut i: usize = 0;
    assert(all.take(0).flatten() =~= seq![]);
    while i < words.len()
        invariant
            i <= words@.len(),
            all == texts(words@),
            out@ == all.take(i as int).flatten(),
        decreases words.len() - i,
    {
        let ghost had = out@;
        let mut more = chars_of(words[i].as_str());
        proof {
            lemma_take_next(all, i as int);
            assert(all[i as int] == more@);
            all.take(i as int).lemma_flatten_push(all[i as int]);
        }
        out.append(&mut more);
        i = i + 1;
    }
    assert(all.take(i as int) =~= all);
    Ok(out)
}

/// The snippet files.
fn parse_paths(name: &str, s: &Setting) -> (r: Result<Vec<String>, String>)
    ensures
        match r {
            Ok(v) => paths_read(name@, s@) == Ok::<Seq<Seq<char>>, Seq<char>>(texts(v@)),
            Err(e) => paths_read(name@, s@) == Err::<Seq<Seq<char>>, Seq<char>>(e@),
        },
{
    let what = joined("snippets.", name);
    parse_words(what.as_str(), s)
}

/// A mark for an input mode.
fn parse_symbol(name: &str, s: &Option<String>) -> (r: Result<char, String>)
    ensures
        match r {
            Ok(c) => symbol_read(name@, opt_text(*s)) == Ok::<char, Seq<char>>(c),
            Err(e) => symbol_read(name@, opt_text(*s)) == Err::<char, Seq<char>>(e@),
        },
{
    let what = joined("mode_symbols.", name);
    match s {
        None => Err(joined(what.as_str(), " は文字列")),
        Some(t) => {
            let c = chars_of(t.as_str());
            if c.len() != 1 {
                let a = joined(what.as_str(), " は一文字だけ (");
                let b = joined(a.as_str(), t.as_str());
                return Err(joined(b.as_str(), " は不可)"));
            }
            let one = match char_width(c[0]) {
                Some(n) => n == 1,
                None => false,
            };
            if !one {
                let a = joined(what.as_str(), " は半角一桁の文字だけ (");
                let b = joined(a.as_str(), t.as_str());
                return Err(joined(b.as_str(), " は不可)"));
            }
            Ok(c[0])
        },
    }
}

fn symbol_index(name: &str) -> (r: Option<usize>)
    ensures
        match r {
            Some(i) => i < 4 && symbol_place(name@) == Some(i as int),
            None => symbol_place(name@) is None,
        },
{
    if *name == *"hiragana" {
        Some(0)
    } else if *name == *"katakana" {
        Some(1)
    } else if *name == *"hankaku_katakana" {
        Some(2)
    } else if *name == *"zenkaku" {
        Some(3)
    } else {
        None
    }
}

fn check_symbols(v: &Vec<(String, Option<String>)>) -> (r: Option<String>)
    ensures
        opt_text(r) == symbols_error(pair_texts(v@), 0),
{
    let ghost all = pair_texts(v@);
    let mut i: usize = 0;
    while i < v.len()
        invariant
            i <= v@.len(),
            all == pair_texts(v@),
            symbols_error(all, 0) == symbols_error(all, i as int),
        decreases v.len() - i,
    {
        assert(all[i as int] == (v@[i as int].0@, opt_text(v@[i as int].1)));
        if symbol_index(v[i].0.as_str()).is_some() {
            match parse_symbol(v[i].0.as_str(), &v[i].1) {
                Ok(_) => {},
                Err(e) => {
                    return Some(e);
                },
            }
        }
        i = i + 1;
    }
    None
}

fn read_symbols(v: &Vec<(String, Option<String>)>, marks: [char; 4]) -> (r: [char; 4])
    ensures
        r@ == symbols_in(pair_texts(v@), marks@),
{
    let ghost all = pair_texts(v@);
    let mut out = marks;
    let mut i: usize = 0;
    while i < v.len()
        invariant
            i <= v@.len(),
            all == pair_texts(v@),
            out@ == symbols_upto(all, i as int, marks@),
        decreases v.len() - i,
    {
        assert(all[i as int] == (v@[i as int].0@, opt_text(v@[i as int].1)));
        if let Some(at) = symbol_index(v[i].0.as_str()) {
            if let Ok(c) = parse_symbol(v[i].0.as_str(), &v[i].1) {
                out[at] = c;
            }
        }
        i = i + 1;
    }
    out
}

fn parse_layout(w: &str) -> (r: Option<Layout>)
    ensures
        r == layout_of(w@),
{
    if *w == *"inline" {
        Some(Layout::Inline)
    } else if *w == *"float" {
        Some(Layout::Float)
    } else {
        None
    }
}

fn parse_marker(w: &str) -> (r: Option<Marker>)
    ensures
        r == marker_of(w@),
{
    if *w == *"off" {
        Some(Marker::Off)
    } else if *w == *"cell" {
        Some(Marker::Cell)
    } else if *w == *"symbol" {
        Some(Marker::Symbol)
    } else if *w == *"beside" {
        Some(Marker::Beside)
    } else if *w == *"letter" {
        Some(Marker::Letter)
    } else {
        None
    }
}

fn parse_kutouten(w: &str) -> (r: Option<Kutouten>)
    ensures
        r == kutouten_of(w@),
{
    if *w == *"jp" {
        Some(Kutouten::Jp)
    } else if *w == *"en" {
        Some(Kutouten::En)
    } else if *w == *"jp-en" {
        Some(Kutouten::JpEn)
    } else if *w == *"en-jp" {
        Some(Kutouten::EnJp)
    } else {
        None
    }
}

fn parse_romaji(w: &str) -> (r: Option<bool>)
    ensures
        r == romaji_of(w@),
{
    if *w == *"default" {
        Some(false)
    } else if *w == *"azik" {
        Some(true)
    } else {
        None
    }
}

fn parse_completion(w: &str) -> (r: Option<DynamicCompletion>)
    ensures
        r == completion_of(w@),
{
    if *w == *"off" {
        Some(DynamicCompletion::Off)
    } else if *w == *"single" {
        Some(DynamicCompletion::Single)
    } else if *w == *"multiple" {
        Some(DynamicCompletion::Multiple)
    } else {
        None
    }
}

fn parse_okuri_match(w: &str) -> (r: Option<OkuriMatch>)
    ensures
        r == okuri_match_of(w@),
{
    if *w == *"off" {
        Some(OkuriMatch::Off)
    } else if *w == *"first" {
        Some(OkuriMatch::First)
    } else if *w == *"only" {
        Some(OkuriMatch::Only)
    } else {
        None
    }
}

/// The settings of the section `name`, if there is one.
fn find_section<'a>(doc: &'a Vec<Section>, name: &str) -> (r: Option<&'a Option<Settings>>)
    ensures
        match r {
            Some(Some(v)) => section_from(doc_text(doc@), name@, 0) == Some(
                Some(setting_texts(v@)),
            ),
            Some(None) => section_from(doc_text(doc@), name@, 0) == Some(None::<SettingTexts>),
            None => section_from(doc_text(doc@), name@, 0) is None,
        },
{
    let ghost all = doc_text(doc@);
    let mut i: usize = 0;
    while i < doc.len()
        invariant
            i <= doc@.len(),
            all == doc_text(doc@),
            section_from(all, name@, 0) == section_from(all, name@, i as int),
        decreases doc.len() - i,
    {
        assert(all[i as int] == section_text(doc@[i as int]));
        if *doc[i].0.as_str() == *name {
            return Some(&doc[i].1);
        }
        i = i + 1;
    }
    None
}

/// The setting `name` of the section `sec`, if it is written.
fn find_setting<'a>(doc: &'a Vec<Section>, sec: &str, name: &str) -> (r: Option<&'a Setting>)
    ensures
        match r {
            Some(s) => setting(doc_text(doc@), sec@, name@) == Some(s@),
            None => setting(doc_text(doc@), sec@, name@) is None,
        },
{
    match find_section(doc, sec) {
        Some(Some(v)) => {
            let ghost all = setting_texts(v@);
            let mut i: usize = 0;
            while i < v.len()
                invariant
                    i <= v@.len(),
                    all == setting_texts(v@),
                    setting(doc_text(doc@), sec@, name@) == item_from(all, name@, i as int),
                decreases v.len() - i,
            {
                assert(all[i as int] == (v@[i as int].0@, v@[i as int].1@));
                if *v[i].0.as_str() == *name {
                    return Some(&v[i].1);
                }
                i = i + 1;
            }
            None
        },
        _ => None,
    }
}

/// The setting `name` of the section `sec`, if it is a text.
fn find_word<'a>(doc: &'a Vec<Section>, sec: &str, name: &str) -> (r: Option<&'a str>)
    ensures
        match r {
            Some(s) => word(doc_text(doc@), sec@, name@) == Some(s@),
            None => word(doc_text(doc@), sec@, name@) is None,
        },
{
    match find_setting(doc, sec, name) {
        Some(Setting::Text(t)) => Some(t.as_str()),
        _ => None,
    }
}

/// The keys of a key setting, or `unset` where it is not written.
fn read_keys(doc: &Vec<Section>, sec: &str, name: &str, unset: Vec<Key>) -> (r: Vec<Key>)
    ensures
        key_texts(r@) == keys_in(doc_text(doc@), sec@, name@, key_texts(unset@)),
{
    match find_setting(doc, sec, name) {
        Some(s) => match parse_keys(name, s) {
            Ok(v) => v,
            Err(_) => unset,
        },
        None => unset,
    }
}

fn read_select(doc: &Vec<Section>, unset: Vec<char>) -> (r: Vec<char>)
    ensures
        r@ == select_in(doc_text(doc@), unset@),
{
    match find_setting(doc, "keys", "select") {
        Some(s) => match parse_select(s) {
            Ok(v) => v,
            Err(_) => unset,
        },
        None => unset,
    }
}

fn read_inline(doc: &Vec<Section>, unset: usize) -> (r: usize)
    ensures
        r == inline_in(doc_text(doc@), unset as nat),
{
    match find_setting(doc, "candidates", "inline") {
        Some(Setting::Number(n)) if *n >= 1 => {
            let wide: u64 = *n as u64;
            if wide > usize::MAX as u64 {
                usize::MAX
            } else {
                wide as usize
            }
        },
        _ => unset,
    }
}

fn read_marks(doc: &Vec<Section>, unset: [char; 4]) -> (r: [char; 4])
    ensures
        r@ == marks_in(doc_text(doc@), unset@),
{
    match find_setting(doc, "behavior", "mode_symbols") {
        Some(Setting::Table(t)) => read_symbols(t, unset),
        _ => unset,
    }
}

fn read_auto_start(doc: &Vec<Section>, unset: Vec<char>) -> (r: Vec<char>)
    ensures
        r@ == auto_start_in(doc_text(doc@), unset@),
{
    match find_setting(doc, "behavior", "auto_start_henkan") {
        Some(s) => match parse_chars("auto_start_henkan", s) {
            Ok(v) => v,
            Err(_) => unset,
        },
        None => unset,
    }
}

fn read_flag(doc: &Vec<Section>, name: &str, unset: bool) -> (r: bool)
    ensures
        r == flag_in(doc_text(doc@), name@, unset),
{
    match find_setting(doc, "behavior", name) {
        Some(Setting::Flag(b)) => *b,
        _ => unset,
    }
}

fn read_paths(doc: &Vec<Section>, unset: Vec<String>) -> (r: Vec<String>)
    ensures
        texts(r@) == paths_in(doc_text(doc@), texts(unset@)),
{
    match find_setting(doc, "snippets", "files") {
        Some(s) => match parse_paths("files", s) {
            Ok(v) => v,
            Err(_) => unset,
        },
        None => unset,
    }
}

fn read_half_distance(doc: &Vec<Section>, unset: u32) -> (r: u32)
    ensures
        r == half_distance_in(doc_text(doc@), unset),
{
    match find_setting(doc, "behavior", "context_half_distance") {
        Some(Setting::Number(n)) if 1 <= *n && *n <= u32::MAX as i64 => *n as u32,
        _ => unset,
    }
}

fn read_layout(doc: &Vec<Section>, unset: Layout) -> (r: Layout)
    ensures
        r == layout_in(doc_text(doc@), unset),
{
    match find_word(doc, "candidates", "layout") {
        Some(w) => match parse_layout(w) {
            Some(v) => v,
            None => unset,
        },
        None => unset,
    }
}

fn read_marker(doc: &Vec<Section>, unset: Marker) -> (r: Marker)
    ensures
        r == marker_in(doc_text(doc@), unset),
{
    match find_word(doc, "behavior", "mode_marker") {
        Some(w) => match parse_marker(w) {
            Some(v) => v,
            None => unset,
        },
        None => unset,
    }
}

fn read_kutouten(doc: &Vec<Section>, unset: Kutouten) -> (r: Kutouten)
    ensures
        r == kutouten_in(doc_text(doc@), unset),
{
    match find_word(doc, "behavior", "kutouten") {
        Some(w) => match parse_kutouten(w) {
            Some(v) => v,
            None => unset,
        },
        None => unset,
    }
}

fn read_romaji(doc: &Vec<Section>, unset: bool) -> (r: bool)
    ensures
        r == romaji_in(doc_text(doc@), unset),
{
    match find_word(doc, "behavior", "romaji") {
        Some(w) => match parse_romaji(w) {
            Some(v) => v,
            None => unset,
        },
        None => unset,
    }
}

fn read_completion(doc: &Vec<Section>, unset: DynamicCompletion) -> (r: DynamicCompletion)
    ensures
        r == completion_in(doc_text(doc@), unset),
{
    match find_word(doc, "behavior", "dynamic_completion") {
        Some(w) => match parse_completion(w) {
            Some(v) => v,
            None => unset,
        },
        None => unset,
    }
}

fn read_okuri_match(doc: &Vec<Section>, unset: OkuriMatch) -> (r: OkuriMatch)
    ensures
        r == okuri_match_in(doc_text(doc@), unset),
{
    match find_word(doc, "behavior", "okuri_match") {
        Some(w) => match parse_okuri_match(w) {
            Some(v) => v,
            None => unset,
        },
        None => unset,
    }
}

fn is_key_name(name: &str) -> (r: bool)
    ensures
        r == named_in(KEY_NAMES@, name@),
{
    let list: &[&'static str] = &KEY_NAMES;
    let mut i: usize = 0;
    while i < list.len()
        invariant
            i <= list@.len(),
            list@ == KEY_NAMES@,
            forall|j: int| 0 <= j < i ==> (#[trigger] list@[j])@ != name@,
        decreases list.len() - i,
    {
        if *list[i] == *name {
            return true;
        }
        i = i + 1;
    }
    false
}

fn unless(known: bool, message: &str) -> (r: Option<String>)
    ensures
        opt_text(r) == word_error(known, message@),
{
    if known {
        None
    } else {
        Some(message.to_owned())
    }
}

fn err_of<T>(r: Result<T, String>) -> (o: Option<String>)
    ensures
        opt_text(o) == match r {
            Ok(_) => None,
            Err(e) => Some(e@),
        },
{
    match r {
        Ok(_) => None,
        Err(e) => Some(e),
    }
}

fn unknown_item(part: &str, name: &str) -> (r: Option<String>)
    ensures
        opt_text(r) == Some(part@ + name@ + " は知らない項目"@),
{
    let a = joined(part, name);
    Some(joined(a.as_str(), " は知らない項目"))
}

fn check_keys(name: &str, s: &Setting) -> (r: Option<String>)
    ensures
        opt_text(r) == keys_error(name@, s@),
{
    if *name == *"select" {
        err_of(parse_select(s))
    } else if is_key_name(name) {
        err_of(parse_keys(name, s))
    } else {
        unknown_item("keys.", name)
    }
}

fn check_behavior(name: &str, s: &Setting) -> (r: Option<String>)
    ensures
        opt_text(r) == behavior_error(name@, s@),
{
    let w: Option<&str> = match s {
        Setting::Text(t) => Some(t.as_str()),
        _ => None,
    };
    if *name == *"ascii_keys" {
        err_of(parse_keys(name, s))
    } else if *name == *"mode_marker" {
        let known = match w {
            Some(t) => parse_marker(t).is_some(),
            None => false,
        };
        unless(
            known,
            "behavior.mode_marker は \"off\" / \"cell\" / \"symbol\" / \"beside\" / \"letter\"",
        )
    } else if *name == *"mode_symbols" {
        match s {
            Setting::Table(t) => check_symbols(t),
            _ => Some("behavior.mode_symbols は表 (名前 = 記号)".to_owned()),
        }
    } else if *name == *"romaji" {
        let known = match w {
            Some(t) => parse_romaji(t).is_some(),
            None => false,
        };
        unless(known, "behavior.romaji は \"default\" か \"azik\"")
    } else if *name == *"kutouten" {
        let known = match w {
            Some(t) => parse_kutouten(t).is_some(),
            None => false,
        };
        unless(
            known,
            "behavior.kutouten は \"jp\" (。、) / \"en\" (．，) / \"jp-en\" (。，) / \"en-jp\" (．、)",
        )
    } else if *name == *"auto_start_henkan" {
        err_of(parse_chars(name, s))
    } else if *name == *"learn_combined" {
        let known = match s {
            Setting::Flag(_) => true,
            _ => false,
        };
        unless(known, "behavior.learn_combined は真偽値")
    } else if *name == *"dynamic_completion" {
        let known = match w {
            Some(t) => parse_completion(t).is_some(),
            None => false,
        };
        unless(known, "behavior.dynamic_completion は \"off\" / \"single\" / \"multiple\"")
    } else if *name == *"okuri_match" {
        let known = match w {
            Some(t) => parse_okuri_match(t).is_some(),
            None => false,
        };
        unless(known, "behavior.okuri_match は \"off\" / \"first\" / \"only\"")
    } else if *name == *"context_order" {
        let known = match s {
            Setting::Flag(_) => true,
            _ => false,
        };
        unless(known, "behavior.context_order は真偽値")
    } else if *name == *"context_half_distance" {
        let known = match s {
            Setting::Number(n) => 1 <= *n && *n <= u32::MAX as i64,
            _ => false,
        };
        unless(known, "behavior.context_half_distance は 1 以上の整数")
    } else {
        unknown_item("behavior.", name)
    }
}

fn check_candidates(name: &str, s: &Setting) -> (r: Option<String>)
    ensures
        opt_text(r) == candidates_error(name@, s@),
{
    if *name == *"inline" {
        match s {
            Setting::Number(n) => unless(*n >= 1, "candidates.inline は 1 以上"),
            _ => Some("candidates.inline は整数".to_owned()),
        }
    } else if *name == *"layout" {
        let known = match s {
            Setting::Text(t) => parse_layout(t.as_str()).is_some(),
            _ => false,
        };
        unless(known, "candidates.layout は \"inline\" か \"float\"")
    } else {
        unknown_item("candidates.", name)
    }
}

fn check_snippets(name: &str, s: &Setting) -> (r: Option<String>)
    ensures
        opt_text(r) == snippets_error(name@, s@),
{
    if *name == *"files" {
        err_of(parse_paths(name, s))
    } else {
        unknown_item("snippets.", name)
    }
}

fn check_setting(part: Part, name: &str, s: &Setting) -> (r: Option<String>)
    ensures
        opt_text(r) == setting_error(part, name@, s@),
{
    match part {
        Part::Keys => check_keys(name, s),
        Part::Behavior => check_behavior(name, s),
        Part::Candidates => check_candidates(name, s),
        Part::Snippets => check_snippets(name, s),
    }
}

/// The first thing that is wrong with a section.
fn check_part(doc: &Vec<Section>, part: Part) -> (r: Option<String>)
    ensures
        opt_text(r) == part_error(doc_text(doc@), part),
{
    match find_section(doc, part.name()) {
        None => None,
        Some(None) => {
            let a = joined("[", part.name());
            Some(joined(a.as_str(), "] は表でなければならない"))
        },
        Some(Some(v)) => {
            let ghost all = setting_texts(v@);
            let mut i: usize = 0;
            while i < v.len()
                invariant
                    i <= v@.len(),
                    all == setting_texts(v@),
                    part_error(doc_text(doc@), part) == settings_error(part, all, i as int),
                decreases v.len() - i,
            {
                assert(all[i as int] == (v@[i as int].0@, v@[i as int].1@));
                let e = check_setting(part, v[i].0.as_str(), &v[i].1);
                if e.is_some() {
                    return e;
                }
                i = i + 1;
            }
            None
        },
    }
}

/// The first thing that is wrong with a setup file.
fn check_config(doc: &Vec<Section>) -> (r: Option<String>)
    ensures
        opt_text(r) == config_error(doc_text(doc@)),
{
    let e = check_part(doc, Part::Keys);
    if e.is_some() {
        return e;
    }
    let e = check_part(doc, Part::Behavior);
    if e.is_some() {
        return e;
    }
    let e = check_part(doc, Part::Candidates);
    if e.is_some() {
        return e;
    }
    let e = check_part(doc, Part::Snippets);
    if e.is_some() {
        return e;
    }
    let ghost all = doc_text(doc@);
    let mut i: usize = 0;
    while i < doc.len()
        invariant
            i <= doc@.len(),
            all == doc_text(doc@),
            config_error(all) == unknown_from(all, i as int),
        decreases doc.len() - i,
    {
        assert(all[i as int] == section_text(doc@[i as int]));
        let name = doc[i].0.as_str();
        if !(*name == *Part::Keys.name()) && !(*name == *Part::Behavior.name()) && !(*name
            == *Part::Candidates.name()) && !(*name == *Part::Snippets.name()) {
            let a = joined("[", name);
            return Some(joined(a.as_str(), "] は知らない節"));
        }
        i = i + 1;
    }
    None
}

/// A file that sets nothing up leaves every default as it is.
pub proof fn law_empty_file_gives_the_defaults()
    ensures
        config_error(Seq::empty()) is None,
        configured(Seq::empty()) == default_config(),
{
}

/// Where the keys of a slot are written.
pub open spec fn slot_name(slot: Slot) -> (Seq<char>, Seq<char>) {
    match slot {
        Slot::Kana => ("keys"@, "kana"@),
        Slot::Confirm => ("keys"@, "confirm"@),
        Slot::Cancel => ("keys"@, "cancel"@),
        Slot::Ascii => ("keys"@, "ascii"@),
        Slot::Zenkaku => ("keys"@, "zenkaku"@),
        Slot::Katakana => ("keys"@, "katakana"@),
        Slot::HankakuKatakana => ("keys"@, "hankaku_katakana"@),
        Slot::StartConversion => ("keys"@, "start_conversion"@),
        Slot::Abbrev => ("keys"@, "abbrev"@),
        Slot::Convert => ("keys"@, "convert"@),
        Slot::Previous => ("keys"@, "previous"@),
        Slot::Complete => ("keys"@, "complete"@),
        Slot::CompletePrevious => ("keys"@, "complete_previous"@),
        Slot::Purge => ("keys"@, "purge"@),
        Slot::Affix => ("keys"@, "affix"@),
        Slot::MoveLeft => ("keys"@, "move_left"@),
        Slot::MoveRight => ("keys"@, "move_right"@),
        Slot::MoveHome => ("keys"@, "move_home"@),
        Slot::MoveEnd => ("keys"@, "move_end"@),
        Slot::DeleteForward => ("keys"@, "delete_forward"@),
        Slot::Backspace => ("keys"@, "backspace"@),
        Slot::Sticky => ("keys"@, "sticky"@),
        Slot::SnippetEdit => ("keys"@, "snippet_edit"@),
        Slot::Reload => ("keys"@, "reload"@),
        Slot::AsciiKeys => ("behavior"@, "ascii_keys"@),
    }
}

/// A slot is what the file says of it, over the defaults.
#[verifier::rlimit(60)]
proof fn lemma_slot_configured(doc: Doc, d: ConfigText, slot: Slot)
    requires
        d == default_config(),
    ensures
        slot_keys(configured(doc), slot) == keys_in(
            doc,
            slot_name(slot).0,
            slot_name(slot).1,
            slot_keys(d, slot),
        ),
{
    match slot {
        Slot::Kana => {},
        Slot::Confirm => {},
        Slot::Cancel => {},
        Slot::Ascii => {},
        Slot::Zenkaku => {},
        Slot::Katakana => {},
        Slot::HankakuKatakana => {},
        Slot::StartConversion => {},
        Slot::Abbrev => {},
        Slot::Convert => {},
        Slot::Previous => {},
        Slot::Complete => {},
        Slot::CompletePrevious => {},
        Slot::Purge => {},
        Slot::Affix => {},
        Slot::MoveLeft => {},
        Slot::MoveRight => {},
        Slot::MoveHome => {},
        Slot::MoveEnd => {},
        Slot::DeleteForward => {},
        Slot::Backspace => {},
        Slot::Sticky => {},
        Slot::SnippetEdit => {},
        Slot::Reload => {},
        Slot::AsciiKeys => {},
    }
}

/// Only what is written in a file changes: the keys of every other slot are those of the
/// defaults.
pub proof fn law_unwritten_keys_stay(doc: Doc, slot: Slot)
    requires
        setting(doc, slot_name(slot).0, slot_name(slot).1) is None,
    ensures
        slot_keys(configured(doc), slot) == slot_keys(default_config(), slot),
{
    lemma_slot_configured(doc, default_config(), slot);
}

} // verus!
