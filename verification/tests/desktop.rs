use ttyskk::desktop::{
    is_modifier, mode_code, style_code, to_key, TtyskkEngine, TTYSKK_MODE_ASCII,
    TTYSKK_MODE_HIRAGANA, TTYSKK_MODE_ZENKAKU_ASCII, TTYSKK_STYLE_COMPLETION,
    TTYSKK_STYLE_READING, TTYSKK_STYLE_READING_CURSOR,
};
use ttyskk::dict::Dict;
use ttyskk::skk::{Key, Mode, Style};

const RETURN: u32 = 0xff0d;
const BACKSPACE: u32 = 0xff08;
const ESCAPE: u32 = 0xff1b;
const ISO_LEFT_TAB: u32 = 0xfe20;
const LEFT: u32 = 0xff51;
const CTRL: u32 = 1 << 2;

fn engine(entries: &[(&str, &str)]) -> TtyskkEngine {
    let mut body = String::from(";; okuri-nasi entries.\n");
    for (k, v) in entries {
        body.push_str(&format!("{k} {v}\n"));
    }
    let dict = Dict::load(&vec![body.into_bytes()], None, None, None);
    TtyskkEngine::new(dict, None)
}

fn typed(p: &mut TtyskkEngine, s: &str) -> String {
    let mut out = String::new();
    for c in s.chars() {
        p.key(c as u32, 0);
        out.push_str(p.commit());
    }
    out
}

fn preedit(p: &TtyskkEngine) -> String {
    p.preedit().iter().map(|s| s.0.as_str()).collect()
}

fn candidates(p: &TtyskkEngine) -> Vec<String> {
    p.candidates().iter().map(|c| c.0.clone()).collect()
}

#[test]
fn kana_mode_and_conversion() {
    let mut p = engine(&[("かんじ", "/漢字/幹事;宴会の/")]);

    // 何もしていないうちは ASCII で、打った文字は呼ぶ側へ委ねる
    assert_eq!(p.mode(), TTYSKK_MODE_ASCII);
    assert!(!p.key('a' as u32, 0));

    // C-j でかなモードへ
    assert!(p.key('j' as u32, CTRL));
    assert_eq!(p.mode(), TTYSKK_MODE_HIRAGANA);

    assert_eq!(typed(&mut p, "ai"), "あい");

    // 大文字で ▽ に入る
    typed(&mut p, "Kanji");
    assert_eq!(preedit(&p), "▽かんじ");
    assert!(candidates(&p).is_empty(), "まだ変換していない");

    // space で ▼
    typed(&mut p, " ");
    assert_eq!(preedit(&p), "▼漢字");
    assert_eq!(candidates(&p), vec!["漢字", "幹事"]);
    assert_eq!(p.selected(), 0);
    assert_eq!(p.candidates()[1].1, "宴会の");

    // 次の候補へ
    typed(&mut p, " ");
    assert_eq!(p.selected(), 1);

    // C-j で確定
    p.key('j' as u32, CTRL);
    assert_eq!(p.commit(), "幹事");
    assert_eq!(preedit(&p), "");
    assert!(candidates(&p).is_empty());
}

/// 候補があることと、一覧を出すことは別。
#[test]
fn the_candidate_list_appears_only_after_a_few() {
    let mut p = engine(&[("あ", "/亜/唖/娃/阿/哀/愛/挨/姶/逢/")]);
    p.key('j' as u32, CTRL);
    typed(&mut p, "A ");

    // 既定では 4 件目まで一つずつ送る
    assert_eq!(p.candidates().len(), 9, "候補は全部見える");
    assert!(!p.list_visible(), "まだ一覧は出さない");

    // 3 件目まではまだ
    typed(&mut p, "  ");
    assert_eq!(p.selected(), 2);
    assert!(!p.list_visible());

    typed(&mut p, "  ");
    assert_eq!(p.selected(), 4);
    assert!(p.list_visible(), "4 件目を過ぎたら一覧");
    assert_eq!(p.labels(), "asdfjkl");

    // ▼ を抜ければ消える
    p.key('j' as u32, CTRL);
    assert!(!p.list_visible());
    assert_eq!(p.candidates().len(), 0);
    assert_eq!(p.labels(), "");
}

/// 確定と「呼ぶ側へ委ねる」は同時に起きる。
#[test]
fn commit_can_come_with_an_unhandled_key() {
    let mut p = engine(&[]);
    p.key('j' as u32, CTRL);
    typed(&mut p, "Kanji");

    let handled = p.key(LEFT, 0);
    assert!(!handled, "矢印は呼ぶ側の仕事");
    assert_eq!(p.commit(), "かんじ", "見出し語は確定している");
    assert_eq!(preedit(&p), "");
}

/// 入力中の表示にモードの印は混ざらない (GUI 側のインジケータが担うため)。
#[test]
fn preedit_has_no_mode_marker() {
    let mut p = engine(&[]);
    p.key('j' as u32, CTRL);
    typed(&mut p, "a");
    // 直接入力では表示するものが無い
    assert_eq!(p.preedit().len(), 0);

    typed(&mut p, "Kanji");
    for (_, st) in p.preedit() {
        assert!(
            (TTYSKK_STYLE_READING..=TTYSKK_STYLE_READING_CURSOR).contains(st),
            "GUI へ渡す装飾だけが残る"
        );
    }
}

/// 名前のあるキーが畳めること。
#[test]
fn named_keys_fold() {
    assert_eq!(to_key(RETURN, 0), Some(Key::Enter));
    assert_eq!(to_key(BACKSPACE, 0), Some(Key::Backspace));
    assert_eq!(to_key(0xff09, 0), Some(Key::Tab));
    assert_eq!(to_key(ISO_LEFT_TAB, 0), Some(Key::ShiftTab));
    assert_eq!(to_key(ESCAPE, 0), Some(Key::Esc));
    assert_eq!(to_key('j' as u32, CTRL), Some(Key::Ctrl(0x0a)));
    assert_eq!(to_key(' ' as u32, CTRL), Some(Key::Ctrl(0x00)));
    assert_eq!(to_key('a' as u32, 0), Some(Key::Char('a')));
    // 畳めないものは呼ぶ側へ
    assert_eq!(to_key(LEFT, 0), None);
    // Alt / Super の付いた打鍵は入力メソッドの仕事ではない
    assert_eq!(to_key('a' as u32, 1 << 3), None);
    // Unicode keysym
    assert_eq!(to_key(0x01000000 + 'あ' as u32, 0), Some(Key::Char('あ')));
}

#[test]
fn keys_without_a_plain_form_are_left() {
    assert_eq!(to_key('J' as u32, CTRL), Some(Key::Ctrl(0x0a)));
    assert_eq!(to_key(']' as u32, CTRL), None);
    assert_eq!(to_key(0xff09, 1), None);
    assert_eq!(to_key('a' as u32, 1 << 6), None);
    assert_eq!(to_key(0x0100d800, 0), None);
    assert_eq!(to_key(0x0100_3042, CTRL), None);
    assert!(is_modifier(0xffe1) && is_modifier(0xfe03) && is_modifier(0xff7f));
    assert!(!is_modifier(0xffff) && !is_modifier('a' as u32));
    assert_eq!(mode_code(Mode::ZenkakuAscii), TTYSKK_MODE_ZENKAKU_ASCII);
    assert_eq!(style_code(Style::Completion), Some(TTYSKK_STYLE_COMPLETION));
    assert_eq!(style_code(Style::ListItem), None);
    assert_eq!(style_code(Style::ModeHiragana), None);
}

/// 取り消しと、入力中の内容を捨てる操作。
#[test]
fn reset_drops_what_is_being_typed() {
    let mut p = engine(&[]);
    p.key('j' as u32, CTRL);
    typed(&mut p, "Kanji");
    assert_eq!(preedit(&p), "▽かんじ");

    p.reset();
    assert_eq!(preedit(&p), "");
    assert_eq!(p.commit(), "", "捨てるので確定もしない");
    // モードは変わらない
    assert_eq!(p.mode(), TTYSKK_MODE_HIRAGANA);
}

/// 設定を差し替えると、その場でキーの割り当てが変わる。
#[test]
fn config_can_be_replaced() {
    let mut p = engine(&[]);
    assert!(p.set_config("[keys]\nkana = \"C-o\"\n"));

    // C-j はもうかなモードへ入らない
    assert!(!p.key('j' as u32, CTRL));
    assert_eq!(p.mode(), TTYSKK_MODE_ASCII);

    assert!(p.key('o' as u32, CTRL));
    assert_eq!(p.mode(), TTYSKK_MODE_HIRAGANA);

    // 読めない設定は捨てる
    assert!(!p.set_config("[keys]\nkana = 3\n"));
    assert!(!p.set_config("これは設定ではない"));
}

/// 学習が利用者辞書へ書き出される。
#[test]
fn learning_is_saved() {
    let mut p = engine(&[("かんじ", "/漢字/幹事/")]);
    p.key('j' as u32, CTRL);
    typed(&mut p, "Kanji  ");
    p.key('j' as u32, CTRL);
    assert_eq!(p.commit(), "幹事");

    let merged = p.skk_mut().dict_mut().save(None, None).unwrap();
    assert!(merged.text().contains("かんじ /幹事/"));
}

#[test]
fn pressing_shift_does_nothing_yet() {
    let mut p = engine(&[]);
    p.key('j' as u32, CTRL);
    typed(&mut p, "Oku");
    assert!(!p.key(0xffe1, 0));
    assert_eq!(p.commit(), "");
    assert_eq!(preedit(&p), "▽おく");
}

#[test]
fn a_refused_setup_gives_the_defaults() {
    let dict = Dict::load(&vec![], None, None, None);
    let mut p = TtyskkEngine::new(dict, Some("[keys]\nnonsense = \"x\"\n"));
    assert!(p.key('j' as u32, CTRL));
    let dict = Dict::load(&vec![], None, None, None);
    let mut q = TtyskkEngine::new(dict, Some("[keys]\nkana = \"C-o\"\n"));
    assert!(!q.key('j' as u32, CTRL));
    assert!(q.key('o' as u32, CTRL));
}
