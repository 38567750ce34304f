//! How the engine behaves towards the program behind it.
use ttyskk::config::Config;
use ttyskk::dict::{Candidate, Dict};
use ttyskk::input::Decoder;
use ttyskk::key::raw_bytes;
use ttyskk::skk::{Key, Mode, Skk};

fn engine(text: &str) -> Skk {
    engine_with(text, Config::default())
}

fn engine_with(text: &str, cfg: Config) -> Skk {
    let dict = Dict::load(&vec![text.as_bytes().to_vec()], None, None, None);
    Skk::new(dict, cfg)
}

const KANA: Key = Key::Ctrl(0x0a);
const CANCEL: Key = Key::Ctrl(0x07);

fn typed(skk: &mut Skk, s: &str) -> String {
    s.chars().map(|c| skk.handle(Key::Char(c)).commit).collect()
}

#[test]
fn letters_go_through() {
    let mut skk = engine("");
    for key in [
        Key::Char('a'),
        Key::Char('あ'),
        Key::Enter,
        Key::Tab,
        Key::Ctrl(0x03),
        Key::Raw(b"\x1b[A".to_vec()),
        Key::Paste(b"x".to_vec()),
    ] {
        let r = skk.handle(key.clone());
        assert_eq!(r.passthrough, Some(key));
        assert_eq!(r.commit, "");
        assert!(skk.is_idle() && skk.preedit().is_empty());
    }
}

#[test]
fn enter_only_confirms() {
    let mut skk = engine("かんじ /漢字/\n");
    skk.handle(KANA);
    typed(&mut skk, "Kanji");
    let r = skk.handle(Key::Enter);
    assert_eq!((r.commit.as_str(), r.passthrough), ("かんじ", None));
    typed(&mut skk, "Kanji ");
    let r = skk.handle(Key::Enter);
    assert_eq!((r.commit.as_str(), r.passthrough), ("漢字", None));
    let r = skk.handle(Key::Enter);
    assert_eq!(r.passthrough, Some(Key::Enter));
}

#[test]
fn registering_hands_nothing_out() {
    let mut skk = engine("");
    skk.handle(KANA);
    typed(&mut skk, "Tegaki ");
    for key in [
        Key::Char('t'),
        Key::Char('e'),
        Key::Ctrl(0x01),
        Key::Raw(b"\x1b[A".to_vec()),
        Key::Paste("貼".as_bytes().to_vec()),
        Key::Tab,
    ] {
        assert!(skk.handle(key).is_empty());
    }
    let r = skk.handle(Key::Enter);
    assert_eq!(r.commit, "て貼");
    assert_eq!(r.passthrough, None);
    assert_eq!(skk.dict_mut().lookup("てがき")[0].text, "て貼");
}

#[test]
fn cancelling_leaves_nothing() {
    let mut skk = engine("かんじ /漢字/\n");
    skk.handle(KANA);
    typed(&mut skk, "Kanji ");
    assert!(skk.handle(CANCEL).is_empty());
    let shown: String = skk
        .preedit()
        .at_cursor
        .iter()
        .map(|s| s.text.clone())
        .collect();
    assert_eq!(shown, "▽かんじ");
    assert!(skk.handle(CANCEL).is_empty());
    assert!(skk.is_idle());
    assert!(!skk.dict_mut().has_changes());
}

#[test]
fn giving_up_a_registration_brings_the_reading_back() {
    let mut skk = engine("");
    skk.handle(KANA);
    typed(&mut skk, "Tegaki ");
    assert!(skk.handle(CANCEL).is_empty());
    assert_eq!(skk.flush(), "てがき");
    assert!(!skk.dict_mut().has_changes());
}

#[test]
fn shift_may_be_pressed_ahead() {
    let cfg = || Config {
        sticky: vec![Key::Char(';')],
        ..Config::default()
    };
    let mut a = engine_with("かんじ /漢字/\n", cfg());
    let mut b = engine_with("かんじ /漢字/\n", cfg());
    a.handle(KANA);
    b.handle(KANA);
    assert!(a.handle(Key::Char(';')).is_empty());
    for (x, y) in "kanji ".chars().zip("Kanji ".chars()) {
        assert_eq!(a.handle(Key::Char(x)), b.handle(Key::Char(y)));
        assert_eq!(a.preedit(), b.preedit());
    }
}

#[test]
fn flushing_and_clearing_leave_nothing() {
    let mut skk = engine("");
    skk.handle(KANA);
    typed(&mut skk, "Kan");
    assert_eq!(skk.flush(), "かん");
    assert!(skk.is_idle());
    typed(&mut skk, "Kan");
    skk.clear();
    assert!(skk.is_idle());
    assert_eq!(skk.mode(), Mode::Hiragana);
    // 定型文を埋めている途中でも同じ
    let file = r#"{"引用": {"prefix": "いんよう", "body": "「$1」"}}"#;
    skk.dict_mut()
        .load_snippets(&vec![Some(file.as_bytes().to_vec())], vec![None]);
    typed(&mut skk, "Innyou ");
    skk.handle(KANA);
    assert!(!skk.is_idle());
    skk.clear();
    assert!(skk.is_idle());
    // 辞書登録の途中でも同じ
    typed(&mut skk, "Tegaki ");
    skk.clear();
    assert!(skk.is_idle());
}

#[test]
fn a_paste_goes_through() {
    let mut skk = engine("");
    skk.handle(KANA);
    typed(&mut skk, "n");
    let r = skk.handle(Key::Paste(b"hello".to_vec()));
    assert_eq!(r.commit, "ん");
    assert_eq!(r.passthrough, Some(Key::Paste(b"hello".to_vec())));
}

#[test]
fn escape_turns_kana_off() {
    let mut skk = engine("");
    skk.handle(KANA);
    let r = skk.handle(Key::Esc);
    assert_eq!(r.passthrough, Some(Key::Esc));
    assert!(r.mode_changed);
    assert_eq!(skk.mode(), Mode::Ascii);
}

#[test]
fn a_reading_stays_with_the_engine() {
    let mut skk = engine("");
    skk.handle(KANA);
    assert_eq!(typed(&mut skk, "Nihongonyuuryoku"), "");
}

#[test]
fn unbound_input_is_kept() {
    let mut d = Decoder::new(&Config::default());
    let input = "aあ\x1b[1;5C\x1bOP\x1b]0;t\x07\x1b[99;5u\x7f\r\t\x1b[Z\x1b[200~p\x1b[A\x1b[201~";
    let out: Vec<u8> = d
        .feed(input.as_bytes())
        .iter()
        .flat_map(raw_bytes)
        .collect();
    assert_eq!(out, input.as_bytes());
}

#[test]
fn what_was_learned_with_okurigana_comes_first() {
    let dict = "うごk /動/起/[く/動/]/\n";
    let mut d = Dict::load(&vec![dict.as_bytes().to_vec()], None, None, None);
    d.learn_okuri("うごk", "く", "起");
    assert_eq!(d.okuri_candidates("うごk", "く"), ["起", "動"]);
    d.learn_okuri("うごk", "", "起");
    d.learn(
        "うごk",
        &Candidate {
            text: "起".to_string(),
            annotation: None,
        },
    );
    assert_eq!(d.lookup("うごk")[0].text, "起");
}

#[test]
fn ranks_order_and_equals_keep_their_order() {
    let cfg = || Config {
        context_order: true,
        ..Config::default()
    };
    let texts = |skk: &Skk| -> Vec<String> {
        skk.candidates()
            .unwrap()
            .items
            .into_iter()
            .map(|i| i.text)
            .collect()
    };
    let mut skk = engine_with("こうせい /構成/公正/校正/\n", cfg());
    skk.handle(KANA);
    skk.set_context("校正の話", 0);
    assert!(skk.wants_context());
    typed(&mut skk, "Kousei ");
    assert_eq!(skk.context_clues().len(), 3);
    skk.rank_by_context(&vec![1, 1, 1], "同じ".to_string());
    assert_eq!(texts(&skk), ["構成", "公正", "校正"]);
    assert_eq!(skk.take_context_note(), Some("同じ".to_string()));
    skk.handle(CANCEL);
    typed(&mut skk, " ");
    skk.rank_by_context(&vec![0, 1, 2], String::new());
    assert_eq!(texts(&skk), ["校正", "公正", "構成"]);
    // 一度並べたら、次の打鍵まで並べ直さない
    skk.rank_by_context(&vec![0, 1, 2], String::new());
    assert_eq!(texts(&skk), ["校正", "公正", "構成"]);
}

#[test]
fn unwritten_keys_stay() {
    let c = Config::parse("[keys]\nkana = \"C-o\"\n").unwrap();
    let d = Config::default();
    assert_eq!(c.kana, vec![Key::Ctrl(0x0f)]);
    assert_eq!(c.confirm, d.confirm);
    assert_eq!(c.cancel, d.cancel);
    assert_eq!(Config::parse("").unwrap(), d);
}

#[test]
fn a_confirmed_candidate_comes_first() {
    let mut skk = engine("かんじ /漢字/幹事/監事/\n");
    skk.handle(KANA);
    typed(&mut skk, "Kanji   ");
    assert_eq!(skk.handle(Key::Enter).commit, "監事");
    typed(&mut skk, "Kanji ");
    assert_eq!(skk.handle(Key::Enter).commit, "監事");
    let texts: Vec<String> = skk
        .dict_mut()
        .lookup("かんじ")
        .into_iter()
        .map(|c| c.text)
        .collect();
    assert_eq!(texts, ["監事", "漢字", "幹事"]);
}

/// Enter はどの一覧に書いても割り当てられない。
#[test]
fn enter_cannot_be_rebound() {
    for cfg in [
        Config {
            cancel: vec![Key::Enter],
            ..Config::default()
        },
        Config {
            convert: vec![Key::Enter],
            sticky: vec![Key::Enter],
            ..Config::default()
        },
        Config {
            kana: vec![KANA, Key::Enter],
            snippet_edit: vec![Key::Enter],
            purge: vec![Key::Enter],
            ..Config::default()
        },
    ] {
        let mut skk = engine_with("かんじ /漢字/幹事/\n", cfg);
        let r = skk.handle(Key::Enter);
        assert_eq!(r.passthrough, Some(Key::Enter));
        skk.handle(KANA);
        let r = skk.handle(Key::Enter);
        assert_eq!(r.passthrough, Some(Key::Enter));
        typed(&mut skk, "Kanji");
        let r = skk.handle(Key::Enter);
        assert_eq!((r.commit.as_str(), r.passthrough), ("かんじ", None));
        assert!(skk.is_idle());
    }
    let cancel = Config {
        cancel: vec![Key::Enter],
        ..Config::default()
    };
    let mut skk = engine_with("かんじ /漢字/幹事/\n", cancel);
    skk.handle(KANA);
    typed(&mut skk, "Kanji  ");
    let r = skk.handle(Key::Enter);
    assert_eq!((r.commit.as_str(), r.passthrough), ("幹事", None));
}

/// 接頭辞・接尾辞の印は確定した文字列に残らない。
#[test]
fn the_mark_of_an_affix_is_not_handed_out() {
    let mut skk = engine("さい> /再>/\n>てき />的/\n");
    skk.handle(KANA);
    typed(&mut skk, "Sai>");
    assert_eq!(skk.candidates().unwrap().items[0].text, "再");
    let r = skk.handle(KANA);
    assert_eq!(r.commit, "再");
    assert!(skk.is_idle());
}

/// 前の候補へ戻ると、次の候補へ送ったのが取り消される。
#[test]
fn stepping_back_undoes_stepping_on() {
    let words: String = (0..30).map(|i| format!("語{i}/")).collect();
    let mut skk = engine(&format!("ご /{words}\n"));
    skk.handle(KANA);
    typed(&mut skk, "Go ");
    let at = |skk: &Skk| skk.candidates().unwrap().selected;
    let mut seen = vec![at(&skk)];
    while seen.len() < 6 {
        typed(&mut skk, " ");
        let now = at(&skk);
        assert!(now > *seen.last().unwrap());
        seen.push(now);
    }
    let view = skk.candidates().unwrap();
    assert!(seen[5] > view.inline_until && view.selected < view.items.len());
    while seen.len() > 1 {
        seen.pop();
        let r = skk.handle(Key::Char('x'));
        assert_eq!((r.commit.as_str(), r.passthrough), ("", None));
        assert_eq!(Some(&at(&skk)), seen.last());
    }
    skk.handle(Key::Char('x'));
    assert!(skk.candidates().is_none());
}

/// 確定だけを頼むのは、使い途の無いキーが来たのと同じ。
#[test]
fn flushing_is_like_an_unused_key() {
    let arrow = || Key::Raw(b"\x1b[15~".to_vec());
    for keys in ["", "n", "ky", "Kan", "Kanji", "Kanji ", "Kanji  ", "UgoKu"] {
        let text = "かんじ /漢字/幹事/\nうごk /動/\n";
        let mut a = engine(text);
        let mut b = engine(text);
        for skk in [&mut a, &mut b] {
            skk.handle(KANA);
            typed(skk, keys);
        }
        let r = b.handle(arrow());
        assert_eq!(a.flush(), r.commit, "{keys}");
        assert_eq!(r.passthrough, Some(arrow()));
        assert!(a.is_idle() && b.is_idle());
        assert_eq!(a.mode(), b.mode());
        assert!(a.candidates().is_none() && b.candidates().is_none());
    }
    // 辞書登録の途中では何もしない
    let mut skk = engine("");
    skk.handle(KANA);
    typed(&mut skk, "Ren ");
    typed(&mut skk, "ren");
    assert_eq!(skk.flush(), "");
    assert!(!skk.is_idle());
    assert_eq!(skk.handle(Key::Enter).commit, "れん");
}

/// 送り仮名で候補を絞る設定でも、画面は絞る前の候補を並べる。
#[test]
fn the_screen_orders_all_that_was_found() {
    let cfg = Config::parse("[behavior]\nokuri_match = \"only\"\ncontext_order = true\n").unwrap();
    let user = "おおk /多/大/被/[き/大/多/]/\n".as_bytes().to_vec();
    let dict = Dict::load(&vec![], Some(&user), None, None);
    let mut skk = Skk::new(dict, cfg);
    skk.handle(KANA);
    skk.set_context("多い", 0);
    typed(&mut skk, "OoKi");
    let words = |skk: &Skk| -> Vec<String> {
        skk.candidates().unwrap().items.into_iter().map(|i| i.text).collect()
    };
    assert_eq!(words(&skk), ["多", "大"]);
    assert_eq!(skk.context_clues().len(), 3);
    assert_eq!(skk.context_words(), ["多", "大", "被"]);
    assert_eq!(skk.asked(), "おおk");
    skk.rank_by_context(&vec![1, 2, 3], String::new());
    assert_eq!(words(&skk), ["大", "多"]);
}

/// かなを離れたら、打ちかけの文字は残っていない。
#[test]
fn letters_wait_only_for_kana() {
    for key in [Key::Esc, Key::Ctrl(0x03)] {
        let mut skk = engine("");
        skk.handle(KANA);
        typed(&mut skk, "kan");
        let r = skk.handle(key.clone());
        assert_eq!((r.commit.as_str(), r.passthrough), ("ん", Some(key)));
        assert_eq!(skk.mode(), Mode::Ascii);
        assert!(skk.is_idle());
        assert_eq!(skk.flush(), "");
    }
}

/// 登録の途中でも、定型文を埋めている間でも、前の候補へ戻れる。
#[test]
fn stepping_back_works_inside_other_work() {
    let words: String = (0..20).map(|i| format!("語{i}/")).collect();
    let at = |skk: &Skk| skk.candidates().unwrap().selected;
    let mut skk = engine(&format!("ご /{words}\n"));
    skk.handle(KANA);
    typed(&mut skk, "Ren Go ");
    let mut seen = vec![at(&skk)];
    for _ in 0..5 {
        typed(&mut skk, " ");
        seen.push(at(&skk));
    }
    while seen.len() > 1 {
        seen.pop();
        typed(&mut skk, "x");
        assert_eq!(Some(&at(&skk)), seen.last());
    }
    let snippet = r#"{"a": {"prefix": "あて", "body": "$1様"}}"#;
    let mut skk = engine(&format!("ご /{words}\n"));
    skk.dict_mut().load_snippets(&vec![Some(snippet.as_bytes().to_vec())], vec![None]);
    skk.handle(KANA);
    typed(&mut skk, "Ate ");
    skk.handle(KANA);
    typed(&mut skk, "Go   ");
    assert_eq!(at(&skk), 2);
    typed(&mut skk, "x");
    assert_eq!(at(&skk), 1);
}
