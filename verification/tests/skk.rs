//! The engine, key by key.
use ttyskk::config::{Config, Marker};
use ttyskk::dict::Dict;
use ttyskk::skk::{Key, Mode, Preedit, Skk, Style, Tint};
use ttyskk::snippet::Now;

/// A dictionary of the given lines, and an engine with it.
fn skk_with(entries: &[(&str, &str)]) -> Skk {
    let mut body = String::from(";; okuri-nasi entries.\n");
    for (k, v) in entries {
        body.push_str(&format!("{} {}\n", k, v));
    }
    let dict = Dict::load(&vec![body.into_bytes()], None, None, None);
    Skk::new(dict, Config::default())
}

/// Reads a snippet file into the dictionary of an engine.
fn load_snippets(skk: &mut Skk, text: &str) {
    let (_, failed) = skk.dict_mut().load_snippets(&vec![Some(text.as_bytes().to_vec())], vec![None]);
    assert!(failed.is_empty());
}

fn typed(skk: &mut Skk, s: &str) -> String {
    let mut out = Vec::new();
    for c in s.chars() {
        let key = match c {
            '\n' => Key::Ctrl(0x0a),
            '\r' => Key::Enter,
            '\x07' => Key::Ctrl(0x07),
            '\x7f' => Key::Backspace,
            c => Key::Char(c),
        };
        out.extend(skk.handle(key).to_child());
        order_by_screen(skk);
    }
    String::from_utf8(out).unwrap()
}

/// Ranks the candidates by what the screen tells of them.
fn order_by_screen(skk: &mut Skk) {
    let half = f64::from(skk.config().context_half_distance);
    let mut scores: Vec<f64> = Vec::new();
    for clues in skk.context_clues() {
        let mut total = 0.0;
        for m in clues {
            let weight = if m.hint { 0.5 } else { 1.0 };
            for d in m.distances {
                total += weight / (1.0 + d as f64 / half);
            }
        }
        scores.push(total);
    }
    let mut levels: Vec<f64> = scores.iter().copied().filter(|s| *s > 0.0).collect();
    levels.sort_by(|a, b| a.partial_cmp(b).unwrap());
    let ranks: Vec<u64> = scores
        .iter()
        .map(|s| levels.iter().filter(|l| **l <= *s && *s > 0.0).count() as u64)
        .collect();
    skk.rank_by_context(&ranks, String::new());
}

/// An engine whose `;` stands for Shift.
fn skk_with_sticky(entries: &[(&str, &str)]) -> Skk {
    let mut skk = skk_with(entries);
    skk.set_config(Config {
        sticky: vec![Key::Char(';')],
        ..Config::default()
    });
    skk
}

fn preedit_text(skk: &Skk) -> String {
    let p = skk.preedit();
    p.at_cursor
        .into_iter()
        .chain(p.floating)
        .filter(|s| {
            !matches!(
                s.style,
                Style::ModeHiragana
                    | Style::ModeKatakana
                    | Style::ModeHankaku
                    | Style::ModeZenkaku
            )
        })
        .map(|s| s.text)
        .collect()
}

fn cursor_char(skk: &Skk) -> String {
    skk.preedit()
        .at_cursor
        .into_iter()
        .filter(|s| s.style == Style::ReadingCursor)
        .map(|s| s.text)
        .collect()
}

fn mode_marker(skk: &Skk) -> String {
    skk.preedit()
        .at_cursor
        .into_iter()
        .filter(|s| {
            matches!(
                s.style,
                Style::ModeHiragana
                    | Style::ModeKatakana
                    | Style::ModeHankaku
                    | Style::ModeZenkaku
            )
        })
        .map(|s| s.text)
        .collect()
}

#[test]
fn sticky_shows_where_it_will_cut() {
    let mut skk = skk_with_sticky(&[("かんがe", "/考/")]);
    skk.handle(Key::Ctrl(0x0a));

    typed(&mut skk, ";");
    assert_eq!(preedit_text(&skk), "▽");
    typed(&mut skk, "kanga");
    assert_eq!(preedit_text(&skk), "▽かんが");

    typed(&mut skk, ";");
    assert_eq!(preedit_text(&skk), "▽かんが*");
    typed(&mut skk, "e");
    assert_eq!(preedit_text(&skk), "▼考え");

    typed(&mut skk, ";");
    assert_eq!(preedit_text(&skk), "▼考え▽");
    typed(&mut skk, "kanga");
    assert_eq!(preedit_text(&skk), "▽かんが");

    skk.handle(Key::Ctrl(0x07));
    typed(&mut skk, "k;");
    assert_eq!(preedit_text(&skk), "▽k");
}

#[test]
fn sticky_and_shift_agree_even_mid_romaji() {
    let dict = &[("はしr", "/走/"), ("かんじ", "/漢字/")];
    for (shift, sticky) in [
        ("HasSuru", ";has;suru"), // 送り仮名の頭が促音になる (#197 の打鍵列)
        ("HasiRu", ";hasi;ru"),
        ("Kanji ", ";kanji "),
    ] {
        let mut a = skk_with_sticky(dict);
        a.handle(Key::Ctrl(0x0a));
        let out_a = typed(&mut a, shift);
        let mut b = skk_with_sticky(dict);
        b.handle(Key::Ctrl(0x0a));
        let out_b = typed(&mut b, sticky);
        assert_eq!(
            (out_a, preedit_text(&a)),
            (out_b, preedit_text(&b)),
            "{shift} と {sticky} で結果が違う"
        );
    }
}

#[test]
fn sticky_takes_the_place_of_shift() {
    let mut skk = skk_with_sticky(&[("かんじ", "/漢字/")]);
    skk.handle(Key::Ctrl(0x0a));
    typed(&mut skk, ";kanji");
    assert_eq!(preedit_text(&skk), "▽かんじ");
    typed(&mut skk, " ");
    assert_eq!(preedit_text(&skk), "▼漢字");
}

#[test]
fn sticky_starts_the_okuri() {
    let mut skk = skk_with_sticky(&[]);
    skk.handle(Key::Ctrl(0x0a));
    typed(&mut skk, ";ugo;ku");
    assert_eq!(preedit_text(&skk), "[登録:うご*く]");
}

#[test]
fn sticky_pressed_twice_types_the_character() {
    let mut skk = skk_with_sticky(&[]);
    skk.handle(Key::Ctrl(0x0a));
    assert_eq!(typed(&mut skk, ";;"), ";");
    assert!(preedit_text(&skk).is_empty());
}

#[test]
fn sticky_does_not_reach_the_ascii_modes() {
    let mut skk = skk_with_sticky(&[]);
    assert_eq!(typed(&mut skk, ";a"), ";a");
    skk.handle(Key::Ctrl(0x0a));
    typed(&mut skk, "L");
    assert_eq!(typed(&mut skk, ";a"), "；ａ");
}

#[test]
fn sticky_does_not_reach_the_ascii_reading() {
    let mut skk = skk_with_sticky(&[]);
    skk.handle(Key::Ctrl(0x0a));
    typed(&mut skk, "/c;;");
    assert_eq!(preedit_text(&skk), "▽c;;");
}

#[test]
fn sticky_is_not_idle() {
    let mut skk = skk_with_sticky(&[]);
    skk.handle(Key::Ctrl(0x0a));
    typed(&mut skk, ";");
    assert!(!skk.leave_to_ascii());
    assert_eq!(typed(&mut skk, "ka"), "");
    assert_eq!(preedit_text(&skk), "▽か");
}

#[test]
fn sticky_is_off_until_it_is_asked_for() {
    let mut skk = skk_with(&[]);
    skk.handle(Key::Ctrl(0x0a));
    assert_eq!(typed(&mut skk, ";k"), ";");
    assert_eq!(preedit_text(&skk), "k");
}

#[test]
fn unknown_word_starts_registration() {
    let mut skk = skk_with(&[]);
    skk.handle(Key::Ctrl(0x0a));
    typed(&mut skk, "Kanji ");
    assert_eq!(preedit_text(&skk), "[登録:かんじ]");

    assert_eq!(typed(&mut skk, "kanji"), "");
    assert_eq!(preedit_text(&skk), "[登録:かんじ]かんじ");

    assert_eq!(typed(&mut skk, "\r"), "かんじ");
    assert!(preedit_text(&skk).is_empty());

    typed(&mut skk, "Kanji ");
    assert_eq!(preedit_text(&skk), "▼かんじ");
}

#[test]
fn registration_keeps_conversion_available_inside() {
    let mut skk = skk_with(&[("かん", "/漢/"), ("じ", "/字/")]);
    skk.handle(Key::Ctrl(0x0a));
    typed(&mut skk, "Kanji ");
    typed(&mut skk, "Kan \nJi \n");
    assert_eq!(preedit_text(&skk), "[登録:かんじ]漢字");
    assert_eq!(typed(&mut skk, "\r"), "漢字");
}

#[test]
fn registration_with_okuri_registers_only_the_stem() {
    let mut skk = skk_with(&[]);
    skk.handle(Key::Ctrl(0x0a));
    typed(&mut skk, "UgoKu");
    assert_eq!(preedit_text(&skk), "[登録:うご*く]");
    typed(&mut skk, "l動");
    assert_eq!(preedit_text(&skk), "[登録:うご*く]動");
    assert_eq!(typed(&mut skk, "\r"), "動く");
    typed(&mut skk, "\nUgoKu");
    assert_eq!(preedit_text(&skk), "▼動く");
}

#[test]
fn cancelling_registration_returns_to_the_reading() {
    let mut skk = skk_with(&[]);
    skk.handle(Key::Ctrl(0x0a));
    typed(&mut skk, "Kanji ");
    typed(&mut skk, "aiu");
    assert_eq!(typed(&mut skk, "\x07"), "");
    assert_eq!(preedit_text(&skk), "▽かんじ");
}

#[test]
fn empty_registration_returns_to_the_reading() {
    let mut skk = skk_with(&[]);
    skk.handle(Key::Ctrl(0x0a));
    typed(&mut skk, "Kanji ");
    assert_eq!(typed(&mut skk, "\r"), "");
    assert_eq!(preedit_text(&skk), "▽かんじ");
}

#[test]
fn backspace_walks_out_of_registration() {
    let mut skk = skk_with(&[]);
    skk.handle(Key::Ctrl(0x0a));
    typed(&mut skk, "Kanji ");
    typed(&mut skk, "ai");
    assert_eq!(preedit_text(&skk), "[登録:かんじ]あい");
    typed(&mut skk, "\x7f");
    assert_eq!(preedit_text(&skk), "[登録:かんじ]あ");
    typed(&mut skk, "\x7f");
    assert_eq!(preedit_text(&skk), "[登録:かんじ]");
    typed(&mut skk, "\x7f");
    assert_eq!(preedit_text(&skk), "▽かんじ");
}

#[test]
fn exhausting_the_candidates_starts_registration() {
    let mut skk = skk_with(&[("あい", "/愛/")]);
    skk.handle(Key::Ctrl(0x0a));
    typed(&mut skk, "Ai ");
    assert_eq!(preedit_text(&skk), "▼愛");
    typed(&mut skk, " ");
    assert_eq!(preedit_text(&skk), "[登録:あい]");
}

#[test]
fn registration_nests() {
    let mut skk = skk_with(&[]);
    skk.handle(Key::Ctrl(0x0a));
    typed(&mut skk, "Kanji ");
    typed(&mut skk, "Ai ");
    assert_eq!(preedit_text(&skk), "[[登録:あい]]");
    typed(&mut skk, "l愛");
    assert_eq!(typed(&mut skk, "\r"), "");
    assert_eq!(preedit_text(&skk), "[登録:かんじ]愛");
    assert_eq!(typed(&mut skk, "\r"), "愛");
}

#[test]
fn control_keys_do_not_leak_into_the_registration() {
    let mut skk = skk_with(&[]);
    skk.handle(Key::Ctrl(0x0a));
    typed(&mut skk, "Kanji ");
    typed(&mut skk, "ai");
    assert_eq!(skk.handle(Key::Ctrl(0x1a)).to_child(), Vec::<u8>::new());
    assert_eq!(
        skk.handle(Key::Raw(b"\x1b[A".to_vec())).to_child(),
        Vec::<u8>::new()
    );
    assert_eq!(preedit_text(&skk), "[登録:かんじ]あい");
}

#[test]
fn azik_does_not_eat_the_circled_number_reading() {
    let mut skk = skk_with(&[]);
    skk.set_config(Config {
        azik: true,
        ..Default::default()
    });
    skk.handle(Key::Ctrl(0x0a));

    typed(&mut skk, "C1");
    assert_eq!(preedit_text(&skk), "▽c1");
    assert_eq!(typed(&mut skk, " \n"), "①");

    assert_eq!(typed(&mut skk, "ca"), "ちゃ");
    typed(&mut skk, "Maru1");
    assert_eq!(preedit_text(&skk), "▽まる1");
    assert_eq!(typed(&mut skk, " \n"), "①");
}

#[test]
fn auto_start_henkan_converts_before_the_keyword() {
    let mut skk = skk_with(&[("ほんやく", "/翻訳/飜訳/")]);
    skk.handle(Key::Ctrl(0x0a));
    typed(&mut skk, "Honnyaku");
    assert_eq!(preedit_text(&skk), "▽ほんやく");

    typed(&mut skk, "wo");
    assert_eq!(preedit_text(&skk), "▼翻訳を");
    typed(&mut skk, " ");
    assert_eq!(preedit_text(&skk), "▼飜訳を");
    assert_eq!(typed(&mut skk, "\n"), "飜訳を");
}

#[test]
fn auto_start_henkan_keeps_the_kana_before_the_keyword() {
    let mut skk = skk_with(&[("にほん", "/日本/")]);
    skk.handle(Key::Ctrl(0x0a));
    typed(&mut skk, "Nihon");
    assert_eq!(preedit_text(&skk), "▽にほn");
    typed(&mut skk, ".");
    assert_eq!(preedit_text(&skk), "▼日本。");
    assert_eq!(typed(&mut skk, "\n"), "日本。");
}

#[test]
fn auto_start_henkan_survives_the_registration() {
    let mut skk = skk_with(&[]);
    skk.handle(Key::Ctrl(0x0a));
    typed(&mut skk, "Honnyaku");
    typed(&mut skk, "wo");
    assert_eq!(preedit_text(&skk), "[登録:ほんやく]");
    typed(&mut skk, "honnyaku");
    assert_eq!(preedit_text(&skk), "[登録:ほんやく]ほんやく");
    assert_eq!(typed(&mut skk, "\r"), "ほんやくを");
}

#[test]
fn auto_start_henkan_needs_a_reading() {
    let mut skk = skk_with(&[]);
    skk.handle(Key::Ctrl(0x0a));
    assert_eq!(typed(&mut skk, "wo"), "を");
    typed(&mut skk, "Q");
    assert_eq!(preedit_text(&skk), "▽");
    typed(&mut skk, "wo");
    assert_eq!(preedit_text(&skk), "▽を");
}

#[test]
fn auto_start_henkan_can_be_turned_off() {
    let mut skk = skk_with(&[("ほんやく", "/翻訳/")]);
    let mut cfg = Config::default();
    cfg.auto_start_henkan.clear();
    skk.set_config(cfg);
    skk.handle(Key::Ctrl(0x0a));
    typed(&mut skk, "Honnyakuwo");
    assert_eq!(preedit_text(&skk), "▽ほんやくを");
}

#[test]
fn auto_start_henkan_stays_out_of_abbrev() {
    let mut skk = skk_with(&[]);
    skk.handle(Key::Ctrl(0x0a));
    typed(&mut skk, "/ab.");
    assert_eq!(preedit_text(&skk), "▽ab.");
}

#[test]
fn commit_and_passthrough_come_apart() {
    let mut skk = skk_with(&[]);
    skk.handle(Key::Ctrl(0x0a));
    typed(&mut skk, "Kanji");

    let r = skk.handle(Key::Raw(b"\x1b[A".to_vec()));
    assert_eq!(r.commit, "かんじ");
    assert_eq!(r.passthrough, Some(Key::Raw(b"\x1b[A".to_vec())));
    assert_eq!(r.to_child(), "かんじ\x1b[A".as_bytes());

    let r = skk.handle(Key::Char('a'));
    assert_eq!((r.commit.as_str(), r.passthrough), ("あ", None));
}

#[test]
fn ascii_typing_reaches_the_registration() {
    let mut skk = skk_with(&[]);
    skk.handle(Key::Ctrl(0x0a));
    typed(&mut skk, "Kanji ");
    assert_eq!(preedit_text(&skk), "[登録:かんじ]");
    typed(&mut skk, "l");
    typed(&mut skk, "abc");
    assert_eq!(preedit_text(&skk), "[登録:かんじ]abc");
    assert_eq!(typed(&mut skk, "\r"), "abc");
}

#[test]
fn candidates_come_out_as_data() {
    let mut skk = skk_with(&[("かんじ", "/漢字/幹事;宴会の/")]);
    skk.handle(Key::Ctrl(0x0a));
    assert!(skk.candidates().is_none());

    typed(&mut skk, "Kanji ");
    let v = skk.candidates().expect("▼ の最中");
    assert_eq!(v.items.len(), 2);
    assert_eq!(v.items[0].text, "漢字");
    assert_eq!(v.items[0].annotation, None);
    assert_eq!(v.items[1].text, "幹事");
    assert_eq!(v.items[1].annotation.as_deref(), Some("宴会の"));
    assert_eq!(v.selected, 0);
    assert_eq!(v.select_keys, Config::default().select);

    typed(&mut skk, " ");
    assert_eq!(skk.candidates().unwrap().selected, 1);

    typed(&mut skk, "\n");
    assert!(skk.candidates().is_none());
}

#[test]
fn candidates_show_the_expanded_numbers() {
    let mut skk = skk_with(&[("だい#かい", "/第#1回/第#3回/")]);
    skk.handle(Key::Ctrl(0x0a));
    typed(&mut skk, "Dai5kai ");
    let v = skk.candidates().unwrap();
    assert_eq!(v.items[0].text, "第５回");
    assert_eq!(v.items[1].text, "第五回");
}

fn pasted(skk: &mut Skk, text: &str) -> String {
    let r = skk.handle(Key::Paste(text.as_bytes().to_vec()));
    String::from_utf8(r.to_child()).unwrap()
}

#[test]
fn pasted_text_is_not_converted() {
    let mut skk = skk_with(&[]);
    skk.handle(Key::Ctrl(0x0a));
    assert_eq!(
        pasted(&mut skk, "hello, world"),
        "\x1b[200~hello, world\x1b[201~"
    );
    assert_eq!(skk.mode, Mode::Hiragana);
    assert_eq!(typed(&mut skk, "ai"), "あい");
}

#[test]
fn pasting_confirms_what_is_being_converted() {
    let mut skk = skk_with(&[("かんじ", "/漢字/")]);
    skk.handle(Key::Ctrl(0x0a));
    typed(&mut skk, "Kanji");
    assert_eq!(pasted(&mut skk, "x"), "かんじ\x1b[200~x\x1b[201~");
    assert_eq!(preedit_text(&skk), "");

    typed(&mut skk, "Kanji ");
    assert_eq!(pasted(&mut skk, "x"), "漢字\x1b[200~x\x1b[201~");
    assert_eq!(preedit_text(&skk), "");
}

#[test]
fn offers_to_write_a_snippet_from_the_registration() {
    let mut skk = skk_with(&[]);
    skk.handle(Key::Ctrl(0x0a));
    typed(&mut skk, "Kaisyadenwa ");
    assert_eq!(preedit_text(&skk), "[登録:かいしゃでんわ]");

    skk.handle(Key::Char(' '));
    assert_eq!(
        preedit_text(&skk),
        "[登録:かいしゃでんわ]▼[スニペットを登録]"
    );

    let r = skk.handle(Key::Enter);
    assert_eq!(r.edit_snippet.as_deref(), Some("かいしゃでんわ"));
    assert!(r.commit.is_empty(), "子へは何も出さない");
    assert_eq!(preedit_text(&skk), "▽かいしゃでんわ");
}

#[test]
fn typing_dismisses_the_snippet_offer() {
    let mut skk = skk_with(&[]);
    skk.handle(Key::Ctrl(0x0a));
    typed(&mut skk, "Kanji ");
    skk.handle(Key::Char(' '));
    assert!(preedit_text(&skk).contains("スニペット"));

    typed(&mut skk, "ai");
    assert_eq!(preedit_text(&skk), "[登録:かんじ]あい");
}

#[test]
fn fills_the_placeholders_in_order() {
    let snip = r#"{"挨拶": {"prefix": "あいさつ", "body": "${1:宛先} 様、$2 です。"}}"#;
    let mut skk = skk_with(&[("たなか", "/田中/"), ("たけうち", "/竹内/")]);
    load_snippets(&mut skk, snip);

    skk.handle(Key::Ctrl(0x0a));
    typed(&mut skk, "Aisatu ");
    assert_eq!(preedit_text(&skk), "▼宛先 様、 です。 ; 挨拶");

    assert_eq!(typed(&mut skk, "\r"), "");
    assert_eq!(preedit_text(&skk), "[埋め 1/2]宛先 様、 です。");

    skk.handle(Key::Backspace);
    skk.handle(Key::Backspace);
    typed(&mut skk, "Tanaka ");
    assert_eq!(preedit_text(&skk), "[埋め 1/2]▼田中 様、 です。");

    skk.handle(Key::Tab);
    assert_eq!(preedit_text(&skk), "[埋め 2/2]田中 様、 です。");
    typed(&mut skk, "Takeuti ");
    let r = skk.handle(Key::Tab);
    assert_eq!(r.commit, "田中 様、竹内 です。");
    assert_eq!(preedit_text(&skk), "");
}

#[test]
fn mirrors_the_same_number_and_reports_the_final_position() {
    let snip = r#"{"括弧": {"prefix": "かっこ", "body": "「$1」$0 と$1"}}"#;
    let mut skk = skk_with(&[("あい", "/愛/")]);
    load_snippets(&mut skk, snip);

    skk.handle(Key::Ctrl(0x0a));
    typed(&mut skk, "Kakko ");
    typed(&mut skk, "\r");
    typed(&mut skk, "Ai ");
    assert_eq!(skk.handle(Key::Enter).commit, "");
    let r = skk.handle(Key::Enter);
    assert_eq!(r.commit, "「愛」 と愛", "同じ番号は同じ値");
    assert_eq!(r.cursor_back, 3, "$0 から末尾までの 3 文字ぶん戻す");
}

#[test]
fn cycles_through_the_choices() {
    let snip = r#"{"返事": {"prefix": "へんじ", "body": "${1|承知しました,検討します|}。"}}"#;
    let mut skk = skk_with(&[]);
    load_snippets(&mut skk, snip);

    skk.handle(Key::Ctrl(0x0a));
    typed(&mut skk, "Henzi ");
    typed(&mut skk, "\r");
    assert_eq!(preedit_text(&skk), "[埋め 1/1]承知しました。 ; 2 択");
    skk.handle(Key::Char(' '));
    assert_eq!(preedit_text(&skk), "[埋め 1/1]検討します。 ; 2 択");
    skk.handle(Key::Char(' '));
    assert_eq!(preedit_text(&skk), "[埋め 1/1]承知しました。 ; 2 択");
    assert_eq!(skk.handle(Key::Enter).commit, "承知しました。");
}

#[test]
fn only_snippets_enter_the_filling_stage() {
    let mut skk = skk_with(&[("ねだん", "/$100/")]);
    skk.handle(Key::Ctrl(0x0a));
    typed(&mut skk, "Nedan ");
    assert_eq!(typed(&mut skk, "\r"), "$100", "そのまま確定する");
    assert_eq!(preedit_text(&skk), "");
}

#[test]
fn an_unknown_word_while_filling_falls_back_to_the_reading() {
    let snip = r#"{"礼": {"prefix": "れい", "body": "$1 さんへ"}}"#;
    let mut skk = skk_with(&[]);
    load_snippets(&mut skk, snip);

    skk.handle(Key::Ctrl(0x0a));
    typed(&mut skk, "Rei ");
    typed(&mut skk, "\r");
    typed(&mut skk, "Tanaka ");
    assert_eq!(preedit_text(&skk), "[埋め 1/1]たなか さんへ", "読みが入る");
    assert_eq!(skk.handle(Key::Enter).commit, "たなか さんへ");
}

#[test]
fn cancelling_the_filling_emits_nothing() {
    let snip = r#"{"礼": {"prefix": "れい", "body": "$1 さんへ"}}"#;
    let mut skk = skk_with(&[]);
    load_snippets(&mut skk, snip);

    skk.handle(Key::Ctrl(0x0a));
    typed(&mut skk, "Rei ");
    typed(&mut skk, "\r");
    assert!(preedit_text(&skk).starts_with("[埋め"));
    let r = skk.handle(Key::Ctrl(0x07));
    assert_eq!(r.commit, "");
    assert_eq!(preedit_text(&skk), "");
}

#[test]
fn the_date_is_already_expanded_in_the_candidate() {
    let mut skk = skk_with(&[("きょう", "/$CURRENT_YEAR-$CURRENT_MONTH-$CURRENT_DATE/")]);
    skk.set_now(Now {
        year: 2026,
        month: 7,
        day: 28,
        weekday: 2,
        ..Default::default()
    });
    skk.handle(Key::Ctrl(0x0a));
    typed(&mut skk, "Kyou ");
    assert_eq!(preedit_text(&skk), "▼2026-07-28");
    assert_eq!(typed(&mut skk, "\r"), "2026-07-28");
}

#[test]
fn candidates_survive_without_a_clock() {
    let mut skk = skk_with(&[("ねだん", "/$100/")]);
    skk.handle(Key::Ctrl(0x0a));
    typed(&mut skk, "Nedan ");
    assert_eq!(preedit_text(&skk), "▼$100", "知らない名前は残す");
}

#[test]
fn the_snippet_key_works_from_anywhere_when_bound() {
    let mut skk = skk_with(&[]);
    skk.set_config(Config::parse("[keys]\nsnippet_edit = \"C-t\"\n").unwrap());
    skk.handle(Key::Ctrl(0x0a));

    let r = skk.handle(Key::Ctrl(0x14));
    assert_eq!(r.edit_snippet.as_deref(), Some(""));

    typed(&mut skk, "Kaisya");
    let r = skk.handle(Key::Ctrl(0x14));
    assert_eq!(r.edit_snippet.as_deref(), Some("かいしゃ"));

    let mut skk = skk_with(&[]);
    skk.set_config(Config::parse("[keys]\nsnippet_edit = \"C-t\"\n").unwrap());
    let r = skk.handle(Key::Ctrl(0x14));
    assert_eq!(r.edit_snippet, None);
    assert_eq!(r.passthrough, Some(Key::Ctrl(0x14)), "子へ渡す");
}

#[test]
fn the_snippet_key_is_unbound_by_default() {
    let mut skk = skk_with(&[]);
    skk.handle(Key::Ctrl(0x0a));
    let r = skk.handle(Key::Ctrl(0x14));
    assert_eq!(r.edit_snippet, None);
    assert_eq!(r.passthrough, Some(Key::Ctrl(0x14)));
}

#[test]
fn cancel_dismisses_only_the_offer() {
    let mut skk = skk_with(&[]);
    skk.handle(Key::Ctrl(0x0a));
    typed(&mut skk, "Kanji ");
    skk.handle(Key::Char(' '));
    assert!(preedit_text(&skk).contains("スニペット"));

    skk.handle(Key::Ctrl(0x07));
    assert_eq!(preedit_text(&skk), "[登録:かんじ]", "登録は続いている");
    skk.handle(Key::Char(' '));
    assert!(preedit_text(&skk).contains("スニペット"));
}

#[test]
fn the_offer_only_appears_on_an_empty_registration() {
    let mut skk = skk_with(&[("あい", "/愛/")]);
    skk.handle(Key::Ctrl(0x0a));
    typed(&mut skk, "Kanji ");
    typed(&mut skk, "Ai ");
    assert_eq!(preedit_text(&skk), "[登録:かんじ]▼愛");
}

#[test]
fn pasting_into_the_registration_keeps_the_text() {
    let mut skk = skk_with(&[]);
    skk.handle(Key::Ctrl(0x0a));
    typed(&mut skk, "Kanji ");
    assert_eq!(pasted(&mut skk, "漢字"), "");
    assert_eq!(preedit_text(&skk), "[登録:かんじ]漢字");
    assert_eq!(typed(&mut skk, "\r"), "漢字");
}

#[test]
fn escape_returns_to_ascii() {
    let mut skk = skk_with(&[("かんじ", "/漢字/")]);
    skk.handle(Key::Ctrl(0x0a));
    typed(&mut skk, "ai");
    let r = skk.handle(Key::Esc);
    assert_eq!(r.to_child(), vec![0x1b]);
    assert!(r.mode_changed);
    assert_eq!(skk.mode, Mode::Ascii);
    assert_eq!(typed(&mut skk, "dd"), "dd");
}

#[test]
fn escape_confirms_the_reading_first() {
    let mut skk = skk_with(&[("かんじ", "/漢字/")]);
    skk.handle(Key::Ctrl(0x0a));
    typed(&mut skk, "Kanji ");
    assert_eq!(preedit_text(&skk), "▼漢字");
    let r = skk.handle(Key::Esc);
    assert_eq!(String::from_utf8(r.to_child()).unwrap(), "漢字\u{1b}");
    assert_eq!(skk.mode, Mode::Ascii);
}

#[test]
fn escape_does_not_disturb_registration() {
    let mut skk = skk_with(&[]);
    skk.handle(Key::Ctrl(0x0a));
    typed(&mut skk, "Kanji ");
    typed(&mut skk, "ai");
    skk.handle(Key::Esc);
    assert_eq!(skk.mode, Mode::Hiragana);
    assert_eq!(preedit_text(&skk), "[登録:かんじ]あい");
}

#[test]
fn ctrl_c_also_returns_to_ascii() {
    let mut skk = skk_with(&[]);
    skk.handle(Key::Ctrl(0x0a));
    let r = skk.handle(Key::Ctrl(0x03));
    assert_eq!(r.to_child(), vec![0x03]);
    assert_eq!(skk.mode, Mode::Ascii);

    skk.handle(Key::Ctrl(0x0a));
    let r = skk.handle(Key::Ctrl(0x04));
    assert_eq!(r.to_child(), vec![0x04]);
    assert_eq!(skk.mode, Mode::Hiragana, "C-d では抜けない");
}

#[test]
fn ascii_keys_can_be_turned_off() {
    let mut skk = skk_with(&[]);
    skk.set_config(Config::parse("[behavior]\nascii_keys = []\n").unwrap());
    skk.handle(Key::Ctrl(0x0a));
    let r = skk.handle(Key::Esc);
    assert_eq!(r.to_child(), vec![0x1b]);
    assert_eq!(skk.mode, Mode::Hiragana);
}

#[test]
fn tab_completes_the_reading() {
    let mut skk = skk_with(&[
        ("かんじ", "/漢字/"),
        ("かんじゃ", "/患者/"),
        ("かんきょう", "/環境/"),
        ("かい", "/回/"),
    ]);
    skk.handle(Key::Ctrl(0x0a));
    typed(&mut skk, "Kan");
    assert_eq!(preedit_text(&skk), "▽かn");

    skk.handle(Key::Tab);
    assert_eq!(preedit_text(&skk), "▽かんじ 漢字 [1/3]");
    skk.handle(Key::Tab);
    assert_eq!(preedit_text(&skk), "▽かんじゃ 患者 [2/3]");
    skk.handle(Key::Tab);
    assert_eq!(preedit_text(&skk), "▽かんきょう 環境 [3/3]");
    skk.handle(Key::Tab);
    assert_eq!(preedit_text(&skk), "▽かんじ 漢字 [1/3]");
    skk.handle(Key::ShiftTab);
    assert_eq!(preedit_text(&skk), "▽かんきょう 環境 [3/3]");

    typed(&mut skk, " ");
    assert_eq!(preedit_text(&skk), "▼環境");
}

#[test]
fn completion_shows_what_it_becomes() {
    let mut skk = skk_with(&[
        ("かんじゃ", "/患者;病人/"),
        ("かんじゃく", "/閑寂/"),
        ("かんじ", "/漢字/"),
    ]);
    skk.handle(Key::Ctrl(0x0a));
    typed(&mut skk, "Kanji");

    skk.handle(Key::Tab);
    assert_eq!(preedit_text(&skk), "▽かんじゃ 患者 ; 病人 [1/2]");
    skk.handle(Key::Tab);
    assert_eq!(preedit_text(&skk), "▽かんじゃく 閑寂 [2/2]");

    typed(&mut skk, "\x07");
    assert_eq!(preedit_text(&skk), "▽かんじ");
}

#[test]
fn cancel_undoes_the_completion() {
    let mut skk = skk_with(&[("かんじ", "/漢字/")]);
    skk.handle(Key::Ctrl(0x0a));
    typed(&mut skk, "Kan");
    skk.handle(Key::Tab);
    assert_eq!(preedit_text(&skk), "▽かんじ 漢字 [1/1]");
    typed(&mut skk, "\x07");
    assert_eq!(preedit_text(&skk), "▽かん");
    typed(&mut skk, "\x07");
    assert!(preedit_text(&skk).is_empty());
}

#[test]
fn typing_after_a_completion_starts_over() {
    let mut skk = skk_with(&[("かんじ", "/漢字/"), ("かんじゃ", "/患者/")]);
    skk.handle(Key::Ctrl(0x0a));
    typed(&mut skk, "Kan");
    skk.handle(Key::Tab);
    assert_eq!(preedit_text(&skk), "▽かんじ 漢字 [1/2]");
    typed(&mut skk, "ya");
    assert_eq!(preedit_text(&skk), "▽かんじや");
    skk.handle(Key::Tab);
    assert_eq!(
        preedit_text(&skk),
        "▽かんじや",
        "前方一致しないので変わらない"
    );
}

#[test]
fn dynamic_completion_shows_the_rest_while_typing() {
    let entries = &[
        ("にほんご", "/日本語/"),
        ("にほんじん", "/日本人/"),
        ("にほん", "/日本/"),
    ];
    let mut skk = skk_with(entries);
    skk.handle(Key::Ctrl(0x0a));
    typed(&mut skk, "Nihonn");
    assert_eq!(preedit_text(&skk), "▽にほん", "既定では出さない");

    let mut skk = skk_with(entries);
    skk.set_config(Config::parse("[behavior]\ndynamic_completion = \"single\"\n").unwrap());
    skk.handle(Key::Ctrl(0x0a));
    typed(&mut skk, "Nihonn");
    assert_eq!(preedit_text(&skk), "▽にほんご");
    let p = skk.preedit();
    assert_eq!(p.at_cursor[0].style, Style::Reading);
    assert_eq!(p.at_cursor[0].text, "▽にほん");
    assert_eq!(p.at_cursor[1].style, Style::Completion);
    assert_eq!(p.at_cursor[1].text, "ご");

    let mut probe = skk_with(entries);
    probe.set_config(Config::parse("[behavior]\ndynamic_completion = \"single\"\n").unwrap());
    probe.handle(Key::Ctrl(0x0a));
    typed(&mut probe, "Nihonn ");
    assert_eq!(preedit_text(&probe), "▼日本");

    skk.handle(Key::Tab);
    assert_eq!(preedit_text(&skk), "▽にほんご 日本語 [1/2]");
}

#[test]
fn dynamic_completion_can_list_several() {
    let mut skk = skk_with(&[
        ("にほんご", "/日本語/"),
        ("にほんじん", "/日本人/"),
        ("にほんかい", "/日本海/"),
    ]);
    skk.set_config(Config::parse("[behavior]\ndynamic_completion = \"multiple\"\n").unwrap());
    skk.handle(Key::Ctrl(0x0a));
    typed(&mut skk, "Nihonn");
    assert_eq!(preedit_text(&skk), "▽にほん にほんご にほんかい にほんじん");
    skk.handle(Key::Tab);
    assert_eq!(preedit_text(&skk), "▽にほんご 日本語 [1/3]");

    let mut skk = skk_with(&[("にほんご", "/日本語/")]);
    skk.set_config(
        Config::parse(
            "[behavior]\ndynamic_completion = \"multiple\"\n[candidates]\nlayout = \"float\"\n",
        )
        .unwrap(),
    );
    skk.handle(Key::Ctrl(0x0a));
    typed(&mut skk, "Nihonn");
    let p = skk.preedit();
    assert_eq!(
        p.at_cursor
            .iter()
            .map(|s| s.text.clone())
            .collect::<String>(),
        "▽にほん"
    );
    assert_eq!(
        p.floating
            .iter()
            .map(|s| s.text.clone())
            .collect::<String>(),
        "にほんご"
    );
}

#[test]
fn dynamic_completion_keeps_quiet_where_it_cannot_extend() {
    let mut skk = skk_with(&[("にほんご", "/日本語/"), ("にほんかい", "/日本海/")]);
    skk.set_config(Config::parse("[behavior]\ndynamic_completion = \"single\"\n").unwrap());
    skk.handle(Key::Ctrl(0x0a));
    typed(&mut skk, "Nihonn");
    assert_eq!(preedit_text(&skk), "▽にほんご");

    typed(&mut skk, "k");
    assert_eq!(preedit_text(&skk), "▽にほんk");
    typed(&mut skk, "a");
    assert_eq!(preedit_text(&skk), "▽にほんかい", "かなが揃えば出る");

    skk.handle(Key::Ctrl(0x02));
    assert_eq!(cursor_char(&skk), "か");
    assert_eq!(preedit_text(&skk), "▽にほんか");

    let mut skk = skk_with(&[("にほんご", "/日本語/")]);
    skk.set_config(Config::parse("[behavior]\ndynamic_completion = \"single\"\n").unwrap());
    skk.handle(Key::Ctrl(0x0a));
    typed(&mut skk, "NihonnN");
    assert_eq!(preedit_text(&skk), "▽にほん*n");
}

#[test]
fn tab_outside_conversion_reaches_the_child() {
    let mut skk = skk_with(&[("かんじ", "/漢字/")]);
    assert_eq!(skk.handle(Key::Tab).to_child(), vec![0x09]);
    skk.handle(Key::Ctrl(0x0a));
    assert_eq!(skk.handle(Key::Tab).to_child(), vec![0x09]);
}

#[test]
fn purge_removes_the_learned_candidate() {
    let mut skk = skk_with(&[("かんじ", "/漢字/幹事/")]);
    skk.handle(Key::Ctrl(0x0a));
    typed(&mut skk, "Kanji  \n");
    typed(&mut skk, "Kanji ");
    assert_eq!(preedit_text(&skk), "▼幹事", "学習で先頭に来ている");

    typed(&mut skk, "X");
    assert_eq!(preedit_text(&skk), "▼漢字");
    typed(&mut skk, "\n");
    typed(&mut skk, "Kanji ");
    assert_eq!(preedit_text(&skk), "▼漢字");
}

#[test]
fn purging_the_last_candidate_returns_to_the_reading() {
    let mut skk = skk_with(&[]);
    skk.handle(Key::Ctrl(0x0a));
    typed(&mut skk, "Tegaki ");
    typed(&mut skk, "lXY\r");
    typed(&mut skk, "\nTegaki ");
    assert_eq!(preedit_text(&skk), "▼XY");
    typed(&mut skk, "X");
    assert_eq!(preedit_text(&skk), "▽てがき");
}

#[test]
fn numeric_conversion() {
    let mut skk = skk_with(&[("だい#かい", "/第#1回/第#0回/第#3回/")]);
    skk.handle(Key::Ctrl(0x0a));
    typed(&mut skk, "Dai5kai ");
    assert_eq!(preedit_text(&skk), "▼第５回");
    typed(&mut skk, " ");
    assert_eq!(preedit_text(&skk), "▼第5回");
    typed(&mut skk, " ");
    assert_eq!(preedit_text(&skk), "▼第五回");
    assert_eq!(typed(&mut skk, "\n"), "第五回");

    typed(&mut skk, "Dai12kai ");
    assert_eq!(preedit_text(&skk), "▼第十二回", "学習した #3 が先頭に来る");
    assert_eq!(typed(&mut skk, "\n"), "第十二回");
}

#[test]
fn numeric_learning_keeps_the_hash_form() {
    let mut skk = skk_with(&[("だい#かい", "/第#1回/第#3回/")]);
    skk.handle(Key::Ctrl(0x0a));
    typed(&mut skk, "Dai5kai  \n");
    let cands = skk.dict_mut().lookup("だい#かい");
    assert_eq!(cands[0].text, "第#3回");
    assert!(skk.dict_mut().lookup("だい5かい").is_empty());
}

#[test]
fn literal_entry_wins_over_the_hash_form() {
    let mut skk = skk_with(&[
        ("だい#かい", "/第#1回/"),
        ("だい5かい", "/第五回だけの項目/"),
    ]);
    skk.handle(Key::Ctrl(0x0a));
    typed(&mut skk, "Dai5kai ");
    assert_eq!(preedit_text(&skk), "▼第五回だけの項目");
    typed(&mut skk, " ");
    assert_eq!(preedit_text(&skk), "▼第５回");
}

#[test]
fn a_reading_without_digits_is_untouched() {
    let mut skk = skk_with(&[("かんじ", "/漢字/")]);
    skk.handle(Key::Ctrl(0x0a));
    typed(&mut skk, "Kanji ");
    assert_eq!(preedit_text(&skk), "▼漢字");
    assert_eq!(typed(&mut skk, "\n"), "漢字");
}

#[test]
fn prefix_conversion() {
    let mut skk = skk_with(&[("あか>", "/赤/"), ("ぺん", "/ペン/")]);
    skk.handle(Key::Ctrl(0x0a));
    typed(&mut skk, "Aka>");
    assert_eq!(preedit_text(&skk), "▼赤");
    assert_eq!(typed(&mut skk, "\n"), "赤");
    assert_eq!(typed(&mut skk, "Pen \n"), "ペン");
}

#[test]
fn suffix_conversion() {
    let mut skk = skk_with(&[("かんどう", "/感動/"), (">てき", "/的/")]);
    skk.handle(Key::Ctrl(0x0a));
    typed(&mut skk, "Kandou ");
    assert_eq!(preedit_text(&skk), "▼感動");
    assert_eq!(typed(&mut skk, ">"), "感動");
    assert_eq!(preedit_text(&skk), "▽>");
    typed(&mut skk, "teki");
    assert_eq!(preedit_text(&skk), "▽>てき");
    assert_eq!(typed(&mut skk, " \n"), "的");
}

#[test]
fn learns_the_combined_word() {
    let mut skk = skk_with(&[("さい>", "/再/"), ("りよう", "/利用/")]);
    skk.handle(Key::Ctrl(0x0a));
    typed(&mut skk, "Sai>\n");
    typed(&mut skk, "Riyou \n");
    let c = skk.dict_mut().lookup("さいりよう");
    assert_eq!(c.len(), 1);
    assert_eq!(c[0].text, "再利用");
}

#[test]
fn learns_the_combined_word_with_a_suffix() {
    let mut skk = skk_with(&[("かんどう", "/感動/"), (">てき", "/的/")]);
    skk.handle(Key::Ctrl(0x0a));
    typed(&mut skk, "Kandou >teki \n");
    let c = skk.dict_mut().lookup("かんどうてき");
    assert_eq!(c.len(), 1);
    assert_eq!(c[0].text, "感動的");
}

#[test]
fn does_not_combine_across_other_input() {
    let mut skk = skk_with(&[("さい>", "/再/"), ("りよう", "/利用/")]);
    skk.handle(Key::Ctrl(0x0a));
    typed(&mut skk, "Sai>\n");
    typed(&mut skk, "no");
    typed(&mut skk, "Riyou \n");
    assert!(skk.dict_mut().lookup("さいりよう").is_empty());
}

#[test]
fn combining_can_be_turned_off() {
    let mut skk = skk_with(&[("さい>", "/再/"), ("りよう", "/利用/")]);
    skk.set_config(Config::parse("[behavior]\nlearn_combined = false\n").unwrap());
    skk.handle(Key::Ctrl(0x0a));
    typed(&mut skk, "Sai>\nRiyou \n");
    assert!(skk.dict_mut().lookup("さいりよう").is_empty());
}

#[test]
fn affix_marker_is_stripped_from_the_candidate() {
    let mut skk = skk_with(&[("さい>", "/再>/")]);
    skk.handle(Key::Ctrl(0x0a));
    typed(&mut skk, "Sai>");
    assert_eq!(preedit_text(&skk), "▼再");
}

#[test]
fn a_bare_angle_bracket_passes_through() {
    let mut skk = skk_with(&[]);
    skk.handle(Key::Ctrl(0x0a));
    assert_eq!(typed(&mut skk, ">"), ">");
}

#[test]
fn hankaku_katakana_mode() {
    let mut skk = skk_with(&[]);
    skk.handle(Key::Ctrl(0x0a));
    assert!(skk.handle(Key::Ctrl(0x11)).mode_changed);
    assert_eq!(skk.mode, Mode::HankakuKatakana);
    assert_eq!(typed(&mut skk, "nihongo"), "ﾆﾎﾝｺﾞ");
    skk.handle(Key::Ctrl(0x11));
    assert_eq!(skk.mode, Mode::Hiragana);
    assert_eq!(typed(&mut skk, "aiu"), "あいう");
}

#[test]
fn hankaku_katakana_from_the_reading() {
    let mut skk = skk_with(&[]);
    skk.handle(Key::Ctrl(0x0a));
    typed(&mut skk, "Nihongo");
    assert_eq!(preedit_text(&skk), "▽にほんご");
    let r = skk.handle(Key::Ctrl(0x11));
    assert_eq!(String::from_utf8(r.to_child()).unwrap(), "ﾆﾎﾝｺﾞ");
    assert!(preedit_text(&skk).is_empty());
}

#[test]
fn hankaku_katakana_shows_in_the_reading() {
    let mut skk = skk_with(&[]);
    skk.handle(Key::Ctrl(0x0a));
    skk.handle(Key::Ctrl(0x11));
    typed(&mut skk, "Nihongo");
    assert_eq!(preedit_text(&skk), "▽ﾆﾎﾝｺﾞ");
}

#[test]
fn float_layout_moves_the_list_off_the_line() {
    let mut skk = skk_with(&[("あい", "/愛/藍/相/合/挨/曖/哀/")]);
    skk.set_config(Config::parse("[candidates]\nlayout = \"float\"\n").unwrap());
    skk.handle(Key::Ctrl(0x0a));
    typed(&mut skk, "Ai     ");
    let p = skk.preedit();
    assert_eq!(
        p.at_cursor
            .iter()
            .map(|s| s.text.as_str())
            .collect::<String>(),
        "▼挨"
    );
    assert!(p.floating.iter().any(|s| s.text.contains("挨")));
    assert!(!p.floating.is_empty());
}

#[test]
fn inline_layout_keeps_everything_on_the_line() {
    let mut skk = skk_with(&[("あい", "/愛/藍/相/合/挨/曖/哀/")]);
    skk.handle(Key::Ctrl(0x0a));
    typed(&mut skk, "Ai     ");
    let p = skk.preedit();
    assert!(p.floating.is_empty());
    assert!(p.at_cursor.iter().any(|s| s.text.contains("挨")));
}

#[test]
fn shows_how_many_candidates_remain() {
    let mut skk = skk_with(&[("あい", "/1/2/3/4/5/6/7/8/9/10/11/12/13/14/")]);
    skk.handle(Key::Ctrl(0x0a));
    typed(&mut skk, "Ai     ");
    assert!(preedit_text(&skk).contains("[残り 3]"));
}

#[test]
fn cell_marker_tints_the_cursor_without_adding_anything() {
    let mut skk = skk_with(&[]);
    assert_eq!(skk.marker(), Marker::Cell);
    assert!(skk.preedit().cursor_tint.is_none(), "ASCII では何もしない");
    assert!(skk.preedit().is_empty());

    skk.handle(Key::Ctrl(0x0a));
    let p = skk.preedit();
    assert_eq!(
        p.cursor_tint,
        Some(Tint {
            style: Style::ModeHiragana,
            offset: 0,
            glyph: None
        })
    );
    assert!(p.at_cursor.is_empty(), "文字は足さない");
    assert!(!p.is_empty(), "色を敷くので描くものはある");

    skk.handle(Key::Char('q'));
    assert_eq!(
        skk.preedit().cursor_tint.map(|t| t.style),
        Some(Style::ModeKatakana)
    );

    skk.handle(Key::Char('q'));
    typed(&mut skk, "Kanji");
    assert!(skk.preedit().cursor_tint.is_none());
    assert_eq!(preedit_text(&skk), "▽かんじ");
}

#[test]
fn beside_marker_sits_next_to_the_cursor() {
    let mut skk = skk_with(&[]);
    skk.set_config(Config::parse("[behavior]\nmode_marker = \"beside\"\n").unwrap());
    assert!(skk.preedit().cursor_tint.is_none(), "ASCII では何もしない");
    skk.handle(Key::Ctrl(0x0a));
    assert_eq!(
        skk.preedit().cursor_tint,
        Some(Tint {
            style: Style::ModeHiragana,
            offset: 1,
            glyph: None
        })
    );
    assert!(skk.preedit().at_cursor.is_empty(), "文字は足さない");
}

#[test]
fn symbol_marker_shows_a_halfwidth_letter() {
    let mut skk = skk_with(&[]);
    skk.set_config(Config::parse("[behavior]\nmode_marker = \"symbol\"\n").unwrap());
    assert!(skk.preedit().cursor_tint.is_none(), "ASCII では何もしない");
    for (key, glyph) in [
        (Key::Ctrl(0x0a), '~'),
        (Key::Char('q'), '+'),
        (Key::Ctrl(0x11), '-'),
    ] {
        skk.handle(key);
        let t = skk.preedit().cursor_tint.expect("印が出る");
        assert_eq!(t.glyph, Some(glyph));
        assert_eq!(t.offset, 0, "カーソルの真上");
    }
    skk.handle(Key::Ctrl(0x11));
    skk.handle(Key::Char('L'));
    assert_eq!(skk.preedit().cursor_tint.unwrap().glyph, Some('@'));

    skk.set_config(
        Config::parse(
            "[behavior]\nmode_marker = \"symbol\"\n[behavior.mode_symbols]\nhiragana = \"#\"\n",
        )
        .unwrap(),
    );
    skk.handle(Key::Ctrl(0x0a));
    assert_eq!(skk.preedit().cursor_tint.unwrap().glyph, Some('#'));
    assert!(Config::parse("[behavior.mode_symbols]\nhiragana = \"あ\"\n").is_err());
    assert!(Config::parse("[behavior.mode_symbols]\nhiragana = \"ab\"\n").is_err());
    assert_eq!(
        Config::parse("[behavior.mode_symbols]\nfoo = \"#\"\n").unwrap(),
        Config::default()
    );
}

#[test]
fn letter_marker_appends_a_letter() {
    let mut skk = skk_with(&[]);
    skk.set_config(Config::parse("[behavior]\nmode_marker = \"letter\"\n").unwrap());
    assert_eq!(mode_marker(&skk), "", "ASCII では何も描かない");

    skk.handle(Key::Ctrl(0x0a));
    assert_eq!(mode_marker(&skk), "あ");
    skk.handle(Key::Char('q'));
    assert_eq!(mode_marker(&skk), "ア");
    skk.handle(Key::Ctrl(0x11));
    assert_eq!(mode_marker(&skk), "半");
    skk.handle(Key::Ctrl(0x11));
    skk.handle(Key::Char('L'));
    assert_eq!(mode_marker(&skk), "Ａ");

    skk.handle(Key::Ctrl(0x0a));
    typed(&mut skk, "Kanji");
    let texts: Vec<String> = skk
        .preedit()
        .at_cursor
        .into_iter()
        .map(|s| s.text)
        .collect();
    assert_eq!(texts.last().map(|s| s.as_str()), Some("あ"));
    assert!(skk.preedit().cursor_tint.is_none());
}

#[test]
fn mode_marker_can_be_turned_off() {
    let mut skk = skk_with(&[]);
    skk.set_config(Config::parse("[behavior]\nmode_marker = \"off\"\n").unwrap());
    skk.handle(Key::Ctrl(0x0a));
    assert_eq!(mode_marker(&skk), "");
    assert!(skk.preedit().cursor_tint.is_none());
    assert!(
        skk.preedit().is_empty(),
        "何も打っていなければ描くものが無い"
    );
}

#[test]
fn custom_bindings_are_honoured() {
    let cfg = Config::parse(
        r#"
        [keys]
        kana = "C-o"
        ascii = "@"
        katakana = "~"
        convert = "C-space"
        previous = "-"
        select = ["1", "2"]

        [candidates]
        inline = 1
        "#,
    )
    .unwrap();
    let mut skk = skk_with(&[("あい", "/愛/藍/相/合/"), ("かんじ", "/漢字/")]);
    skk.set_config(cfg);

    assert_eq!(skk.handle(Key::Ctrl(0x0a)).to_child(), vec![0x0a]);
    assert!(skk.handle(Key::Ctrl(0x0f)).mode_changed);
    assert_eq!(typed(&mut skk, "ai"), "あい");
    skk.handle(Key::Char('~'));
    assert_eq!(skk.mode, Mode::Katakana);
    skk.handle(Key::Char('@'));
    assert_eq!(skk.mode, Mode::Ascii);

    skk.handle(Key::Ctrl(0x0f));
    typed(&mut skk, "Ai");
    skk.handle(Key::Ctrl(0x00));
    assert_eq!(preedit_text(&skk), "▼愛");
    skk.handle(Key::Ctrl(0x00));
    assert!(preedit_text(&skk).contains("1:藍"));
    assert!(preedit_text(&skk).contains("2:相"));
    assert_eq!(skk.handle(Key::Char('2')).to_child(), "相".as_bytes());
}

#[test]
fn reconfiguring_mid_conversion_keeps_the_state() {
    let mut skk = skk_with(&[("かんじ", "/漢字/感じ/")]);
    skk.handle(Key::Ctrl(0x0a));
    typed(&mut skk, "Kanji ");
    assert_eq!(preedit_text(&skk), "▼漢字");
    let cfg = Config::parse("[keys]\nconvert = \"C-n\"\n").unwrap();
    skk.set_config(cfg);
    assert_eq!(preedit_text(&skk), "▼漢字");
    skk.handle(Key::Ctrl(0x0e));
    assert_eq!(preedit_text(&skk), "▼感じ");
    assert_eq!(typed(&mut skk, " "), "感じ ");
}

#[test]
fn enter_confirms_regardless_of_bindings() {
    let mut skk = skk_with(&[("かんじ", "/漢字/")]);
    skk.set_config(Config::parse("[keys]\nconfirm = \"C-m\"\n").unwrap());
    skk.handle(Key::Ctrl(0x0a));
    typed(&mut skk, "Kanji ");
    let r = skk.handle(Key::Enter);
    assert_eq!(String::from_utf8(r.to_child()).unwrap(), "漢字");
    assert_eq!(skk.handle(Key::Enter).to_child(), vec![0x0d]);
}

#[test]
fn ascii_passes_through() {
    let mut skk = skk_with(&[]);
    assert_eq!(typed(&mut skk, "ls -la"), "ls -la");
}

#[test]
fn kana_mode_emits_kana() {
    let mut skk = skk_with(&[]);
    skk.handle(Key::Ctrl(0x0a));
    assert_eq!(typed(&mut skk, "aiueo"), "あいうえお");
}

#[test]
fn pending_romaji_is_not_sent() {
    let mut skk = skk_with(&[]);
    skk.handle(Key::Ctrl(0x0a));
    assert_eq!(typed(&mut skk, "k"), "");
    assert_eq!(preedit_text(&skk), "k");
    assert_eq!(typed(&mut skk, "a"), "か");
    assert_eq!(preedit_text(&skk), "");
}

#[test]
fn conversion_without_okuri() {
    let mut skk = skk_with(&[("かんじ", "/漢字/幹事/")]);
    skk.handle(Key::Ctrl(0x0a));
    assert_eq!(typed(&mut skk, "Kanji"), "");
    assert_eq!(preedit_text(&skk), "▽かんじ");
    typed(&mut skk, " ");
    assert_eq!(preedit_text(&skk), "▼漢字");
    typed(&mut skk, " ");
    assert_eq!(preedit_text(&skk), "▼幹事");
    assert_eq!(typed(&mut skk, "\n"), "幹事");
}

#[test]
fn conversion_with_okuri() {
    let mut skk = skk_with(&[("うごk", "/動/")]);
    skk.handle(Key::Ctrl(0x0a));
    typed(&mut skk, "Ugo");
    assert_eq!(preedit_text(&skk), "▽うご");
    typed(&mut skk, "Ku");
    assert_eq!(preedit_text(&skk), "▼動く");
    assert_eq!(typed(&mut skk, "\n"), "動く");
}

fn learn_both_readings(skk: &mut Skk) {
    typed(skk, "OoKu");
    assert_eq!(preedit_text(skk), "▼大く", "辞書の順では「大」が先");
    typed(skk, " ");
    assert_eq!(preedit_text(skk), "▼多く");
    assert_eq!(typed(skk, "\n"), "多く");

    typed(skk, "OoKi");
    assert_eq!(preedit_text(skk), "▼多き", "見出し語の学習が効いている");
    typed(skk, " ");
    assert_eq!(preedit_text(skk), "▼大き");
    assert_eq!(typed(skk, "i"), "大きい");
}

#[test]
fn learning_is_kept_apart_by_okurigana() {
    let mut skk = skk_with(&[("おおk", "/大/多/")]);
    skk.handle(Key::Ctrl(0x0a));
    learn_both_readings(&mut skk);

    typed(&mut skk, "OoKu");
    assert_eq!(preedit_text(&skk), "▼多く");
    typed(&mut skk, "\x07\x07");
    typed(&mut skk, "OoKi");
    assert_eq!(preedit_text(&skk), "▼大き");
}

#[test]
fn okurigana_matching_can_be_turned_off() {
    let mut skk = skk_with(&[("おおk", "/大/多/")]);
    skk.set_config(Config::parse("[behavior]\nokuri_match = \"off\"\n").unwrap());
    skk.handle(Key::Ctrl(0x0a));
    learn_both_readings(&mut skk);

    typed(&mut skk, "OoKu");
    assert_eq!(preedit_text(&skk), "▼大く");
}

#[test]
fn context_reorders_the_homophones() {
    let entries = [(
        "こうせい",
        "/構成/公正;fair/校正;proofread.「新聞の-」/厚生;welfare.「-労働省」/",
    )];
    let convert = |screen: &str, on: bool| {
        let mut skk = skk_with(&entries);
        let toml = format!("[behavior]\ncontext_order = {on}\n");
        skk.set_config(Config::parse(&toml).unwrap());
        skk.set_context(screen, screen.chars().count());
        skk.handle(Key::Ctrl(0x0a));
        typed(&mut skk, "Kousei ");
        let shown = preedit_text(&skk);
        shown.split(" ; ").next().unwrap_or("").to_string()
    };

    assert_eq!(convert("", true), "▼構成");
    assert_eq!(convert("校正の指示をまとめる。", true), "▼校正");
    assert_eq!(convert("please proofread the draft", true), "▼校正");
    assert_eq!(convert("労働省の発表を読む", true), "▼厚生");
    assert_eq!(convert("$ cargo test --quiet", true), "▼構成");
    assert_eq!(convert("校正の指示をまとめる。", false), "▼構成");
}

#[test]
fn okurigana_wins_over_the_context() {
    let mut skk = skk_with(&[("おおk", "/大/多/")]);
    skk.set_config(Config::parse("[behavior]\ncontext_order = true\n").unwrap());
    skk.handle(Key::Ctrl(0x0a));
    learn_both_readings(&mut skk);

    skk.set_context("大きい大きい大きい", 9);
    typed(&mut skk, "OoKu");
    assert_eq!(preedit_text(&skk), "▼多く");
}

#[test]
fn okurigana_order_leaves_unknown_readings_alone() {
    let mut skk = skk_with(&[("おおk", "/大/多/"), ("うごk", "/動/")]);
    skk.handle(Key::Ctrl(0x0a));
    typed(&mut skk, "OoKi");
    assert_eq!(preedit_text(&skk), "▼大き", "辞書の順のまま");
    typed(&mut skk, "\x07\x07");
    typed(&mut skk, "UgoKu");
    assert_eq!(preedit_text(&skk), "▼動く");
}

#[test]
fn learning_moves_candidate_to_front() {
    let mut skk = skk_with(&[("かんじ", "/漢字/幹事/")]);
    skk.handle(Key::Ctrl(0x0a));
    typed(&mut skk, "Kanji  \n");
    typed(&mut skk, "Kanji ");
    assert_eq!(preedit_text(&skk), "▼幹事");
}

#[test]
fn cancel_discards_everything() {
    let mut skk = skk_with(&[("かんじ", "/漢字/")]);
    skk.handle(Key::Ctrl(0x0a));
    typed(&mut skk, "Kanji ");
    assert_eq!(typed(&mut skk, "\x07"), "");
    assert_eq!(preedit_text(&skk), "▽かんじ");
    assert_eq!(typed(&mut skk, "\x07"), "");
    assert_eq!(preedit_text(&skk), "");
}

#[test]
fn the_reading_can_be_edited_after_cancelling_a_conversion() {
    let mut skk = skk_with(&[("かんじ", "/漢字/"), ("かじ", "/家事/火事/")]);
    skk.handle(Key::Ctrl(0x0a));
    typed(&mut skk, "Kanji ");
    assert_eq!(preedit_text(&skk), "▼漢字");

    typed(&mut skk, "\x07");
    assert_eq!(preedit_text(&skk), "▽かんじ");
    assert_eq!(cursor_char(&skk), "");

    skk.handle(Key::Ctrl(0x02));
    assert_eq!(cursor_char(&skk), "じ");
    skk.handle(Key::Ctrl(0x02));
    assert_eq!(cursor_char(&skk), "ん");

    skk.handle(Key::Ctrl(0x04));
    assert_eq!(preedit_text(&skk), "▽かじ");
    assert_eq!(cursor_char(&skk), "じ");
    assert_eq!(typed(&mut skk, " "), "");
    assert_eq!(preedit_text(&skk), "▼家事");
    assert_eq!(typed(&mut skk, "\n"), "家事");
}

#[test]
fn typing_goes_where_the_cursor_is() {
    let mut skk = skk_with(&[]);
    skk.handle(Key::Ctrl(0x0a));
    typed(&mut skk, "Kaji");
    skk.handle(Key::Ctrl(0x02));
    assert_eq!(cursor_char(&skk), "じ");
    typed(&mut skk, "nn");
    assert_eq!(preedit_text(&skk), "▽かんじ");
    assert_eq!(cursor_char(&skk), "じ", "カーソルは打った文字の後ろに残る");
    assert_eq!(typed(&mut skk, "\n"), "かんじ");
}

#[test]
fn backspace_follows_the_cursor() {
    let mut skk = skk_with(&[]);
    skk.handle(Key::Ctrl(0x0a));
    typed(&mut skk, "Kanji");
    typed(&mut skk, "\x7f");
    assert_eq!(preedit_text(&skk), "▽かん", "末尾では末尾から消える");

    typed(&mut skk, "ji");
    skk.handle(Key::Ctrl(0x02));
    skk.handle(Key::Ctrl(0x02));
    assert_eq!(cursor_char(&skk), "ん");
    typed(&mut skk, "\x7f");
    assert_eq!(preedit_text(&skk), "▽んじ");
    assert_eq!(cursor_char(&skk), "ん");
}

#[test]
fn the_cursor_stops_at_both_ends() {
    let mut skk = skk_with(&[]);
    skk.handle(Key::Ctrl(0x0a));
    typed(&mut skk, "Kanji");

    skk.handle(Key::Ctrl(0x01));
    assert_eq!(cursor_char(&skk), "か");
    skk.handle(Key::Ctrl(0x02));
    assert_eq!(cursor_char(&skk), "か", "先頭より左へは行かない");
    typed(&mut skk, "\x7f");
    assert_eq!(
        preedit_text(&skk),
        "▽かんじ",
        "消すものが無いだけで ▽ は残る"
    );

    skk.handle(Key::Ctrl(0x05));
    assert_eq!(cursor_char(&skk), "", "末尾では区間が分かれない");
    skk.handle(Key::Ctrl(0x06));
    assert_eq!(cursor_char(&skk), "");
    skk.handle(Key::Ctrl(0x04));
    assert_eq!(preedit_text(&skk), "▽かんじ", "末尾の C-d は何もしない");
}

#[test]
fn arrows_move_the_cursor_too() {
    let mut skk = skk_with(&[]);
    skk.handle(Key::Ctrl(0x0a));
    typed(&mut skk, "Kanji");
    skk.handle(Key::Raw(b"\x1b[D".to_vec()));
    assert_eq!(cursor_char(&skk), "じ");
    skk.handle(Key::Raw(b"\x1bOD".to_vec()));
    assert_eq!(cursor_char(&skk), "ん");
    skk.handle(Key::Raw(b"\x1b[C".to_vec()));
    assert_eq!(cursor_char(&skk), "じ");
}

#[test]
fn moving_settles_the_pending_romaji() {
    let mut skk = skk_with(&[]);
    skk.handle(Key::Ctrl(0x0a));
    typed(&mut skk, "Kanjik");
    assert_eq!(preedit_text(&skk), "▽かんじk");
    skk.handle(Key::Ctrl(0x02));
    assert_eq!(preedit_text(&skk), "▽かんじ", "単独の子音は捨てられる");
    assert_eq!(cursor_char(&skk), "じ");

    skk.handle(Key::Ctrl(0x05));
    typed(&mut skk, "n");
    assert_eq!(preedit_text(&skk), "▽かんじn");
    skk.handle(Key::Ctrl(0x02));
    assert_eq!(preedit_text(&skk), "▽かんじん");
    assert_eq!(cursor_char(&skk), "ん");
}

#[test]
fn the_cursor_stays_inside_the_reading_when_there_is_okuri() {
    let mut skk = skk_with(&[("うごk", "/動/")]);
    skk.handle(Key::Ctrl(0x0a));
    typed(&mut skk, "UgoKu");
    assert_eq!(preedit_text(&skk), "▼動く");
    typed(&mut skk, "\x07");
    assert_eq!(preedit_text(&skk), "▽うご*く");

    skk.handle(Key::Ctrl(0x02));
    assert_eq!(cursor_char(&skk), "ご");
    assert_eq!(preedit_text(&skk), "▽うご*く", "送り仮名は末尾に残る");
    skk.handle(Key::Ctrl(0x06));
    skk.handle(Key::Ctrl(0x06));
    assert_eq!(cursor_char(&skk), "", "送り仮名の中へは入らない");
    typed(&mut skk, "\x7f");
    assert_eq!(preedit_text(&skk), "▽うご*");
}

#[test]
fn the_cursor_segment_follows_the_mode() {
    let mut skk = skk_with(&[]);
    skk.handle(Key::Ctrl(0x0a));
    typed(&mut skk, "q");
    typed(&mut skk, "Kanji");
    assert_eq!(preedit_text(&skk), "▽カンジ");
    skk.handle(Key::Ctrl(0x02));
    assert_eq!(cursor_char(&skk), "ジ");
    assert_eq!(preedit_text(&skk), "▽カンジ");
}

#[test]
fn ctrl_h_deletes_one_character() {
    let mut skk = skk_with(&[("かんじ", "/漢字/幹事/")]);
    skk.handle(Key::Ctrl(0x0a));
    typed(&mut skk, "Kanji");
    assert_eq!(preedit_text(&skk), "▽かんじ");
    skk.handle(Key::Ctrl(0x08));
    assert_eq!(preedit_text(&skk), "▽かん", "▽ の見出し語から一文字消える");

    typed(&mut skk, "ji ");
    assert_eq!(preedit_text(&skk), "▼漢字");
    skk.handle(Key::Char(' '));
    assert_eq!(preedit_text(&skk), "▼幹事");
    skk.handle(Key::Ctrl(0x08));
    assert_eq!(preedit_text(&skk), "▼漢字");
}

#[test]
fn ctrl_h_reaches_the_child_as_itself() {
    let mut skk = skk_with(&[]);
    let cfg = Config::default();
    for enter in [None, Some(&cfg.ascii), Some(&cfg.zenkaku)] {
        skk.handle(cfg.kana[0].clone());
        if let Some(e) = enter {
            skk.handle(e[0].clone());
        }
        let r = skk.handle(Key::Ctrl(0x08));
        assert_eq!(r.passthrough, Some(Key::Ctrl(0x08)));
        assert_eq!(r.to_child(), vec![0x08], "{enter:?} の段");
    }
    skk.handle(cfg.kana[0].clone());
    assert_eq!(skk.handle(Key::Backspace).to_child(), vec![0x7f]);
}

#[test]
fn ctrl_h_can_be_given_back_to_the_child() {
    let mut skk = skk_with(&[]);
    skk.set_config(Config::parse("[keys]\nbackspace = \"bs\"\n").unwrap());
    skk.handle(Key::Ctrl(0x0a));
    let r = skk.handle(Key::Ctrl(0x08));
    assert_eq!(r.to_child(), vec![0x08], "押されたとおり素通しする");
}

#[test]
fn the_cursor_keys_come_from_the_config() {
    let mut skk = skk_with(&[]);
    skk.set_config(Config::parse("[keys]\nmove_left = \"C-h\"\n").unwrap());
    skk.handle(Key::Ctrl(0x0a));
    typed(&mut skk, "Kanji");
    skk.handle(Key::Ctrl(0x08));
    assert_eq!(cursor_char(&skk), "じ", "割り当てた C-h で動く");
    let r = skk.handle(Key::Ctrl(0x02));
    assert_eq!(r.commit, "かんじ");
    assert_eq!(r.passthrough, Some(Key::Ctrl(0x02)));
}

#[test]
fn katakana_toggle() {
    let mut skk = skk_with(&[]);
    skk.handle(Key::Ctrl(0x0a));
    typed(&mut skk, "q");
    assert_eq!(typed(&mut skk, "aiu"), "アイウ");
}

#[test]
fn q_in_composing_makes_katakana() {
    let mut skk = skk_with(&[]);
    skk.handle(Key::Ctrl(0x0a));
    assert_eq!(typed(&mut skk, "Aiuq"), "アイウ");
}

#[test]
fn candidate_list_appears_after_four() {
    let mut skk = skk_with(&[("あ", "/亜/唖/娃/阿/哀/愛/挨/姶/逢/葵/")]);
    skk.handle(Key::Ctrl(0x0a));
    typed(&mut skk, "A     ");
    let text = preedit_text(&skk);
    assert!(text.contains("a:哀"), "一覧が出ていない: {text}");
    assert!(text.contains("d:挨"), "一覧が短い: {text}");
    assert_eq!(typed(&mut skk, "d"), "挨");
}

#[test]
fn backspace_walks_back_through_reading() {
    let mut skk = skk_with(&[]);
    skk.handle(Key::Ctrl(0x0a));
    typed(&mut skk, "Kanji");
    typed(&mut skk, "\x7f");
    assert_eq!(preedit_text(&skk), "▽かん");
}

#[test]
fn control_keys_reach_the_child() {
    let mut skk = skk_with(&[]);
    assert_eq!(skk.handle(Key::Ctrl(0x1a)).to_child(), vec![0x1a]);
    skk.handle(Key::Ctrl(0x0a));
    assert_eq!(skk.handle(Key::Ctrl(0x1a)).to_child(), vec![0x1a]);
    skk.handle(Key::Char('k'));
    let r = skk.handle(Key::Ctrl(0x1a));
    assert_eq!(r.to_child(), vec![0x1a]);
}

#[test]
fn escape_sequence_confirms_then_passes() {
    let mut skk = skk_with(&[]);
    skk.handle(Key::Ctrl(0x0a));
    typed(&mut skk, "Kanji");
    let r = skk.handle(Key::Raw(b"\x1b[A".to_vec()));
    assert_eq!(r.to_child(), "かんじ\x1b[A".as_bytes());
    assert_eq!(preedit_text(&skk), "");
}

#[test]
fn zenkaku_mode() {
    let mut skk = skk_with(&[]);
    skk.handle(Key::Ctrl(0x0a));
    typed(&mut skk, "L");
    assert_eq!(typed(&mut skk, "abc"), "ａｂｃ");
}

#[test]
fn nothing_is_shown_to_begin_with() {
    assert!(Preedit::default().is_empty());
    assert_eq!(skk_with(&[]).preedit(), Preedit::default());
}
