//! The setup file.
use ttyskk::config::{named_sequence, parse_key, Config, EXAMPLE, SEQUENCE_NAMES};
use ttyskk::skk::Key;

#[test]
fn defaults_match_the_documented_bindings() {
    let c = Config::default();
    assert_eq!(c.kana, vec![Key::Ctrl(0x0a)]);
    assert_eq!(c.cancel, vec![Key::Ctrl(0x07)]);
    assert_eq!(c.convert, vec![Key::Char(' ')]);
    assert_eq!(c.page_size(), 7);
}

#[test]
fn bound_keys_lists_what_skk_uses() {
    let c = Config::default().bound_keys();
    assert!(c.contains(&Key::Ctrl(0x0a)), "C-j"); // kana / confirm
    assert!(c.contains(&Key::Ctrl(0x07)), "C-g"); // cancel
    assert!(c.contains(&Key::Ctrl(0x11)), "C-q"); // hankaku_katakana
    assert!(c.contains(&Key::ShiftTab), "S-tab"); // complete_previous
    assert!(!c.contains(&Key::Ctrl(0x1a)), "C-z");
    assert!(!c.contains(&Key::Ctrl(0x03)), "C-c");
}

#[test]
fn bound_keys_covers_every_binding() {
    let names = [
        "kana",
        "confirm",
        "cancel",
        "ascii",
        "zenkaku",
        "katakana",
        "hankaku_katakana",
        "start_conversion",
        "abbrev",
        "convert",
        "previous",
        "complete",
        "complete_previous",
        "purge",
        "affix",
        "move_left",
        "move_right",
        "move_home",
        "move_end",
        "delete_forward",
    ];
    let letters = "abcdefghijklmnoqrstu";
    assert_eq!(names.len(), letters.len());
    let mut text = String::from("[keys]\n");
    for (name, c) in names.iter().zip(letters.chars()) {
        text.push_str(&format!("{name} = \"C-{c}\"\n"));
    }
    text.push_str("\n[behavior]\nascii_keys = [\"C-p\"]\n");

    let got = Config::parse(&text).unwrap().bound_keys();
    for c in letters.chars() {
        assert!(
            got.contains(&Key::Ctrl(c as u8 & 0x1f)),
            "C-{c} が漏れている"
        );
    }
    assert!(
        !got.contains(&Key::Ctrl(0x10)),
        "ascii_keys の C-p は対象外"
    );
}

#[test]
fn parses_key_spellings() {
    assert_eq!(parse_key("C-j").unwrap(), vec![Key::Ctrl(0x0a)]);
    assert_eq!(parse_key("ctrl+g").unwrap(), vec![Key::Ctrl(0x07)]);
    assert_eq!(parse_key("Ctrl-A").unwrap(), vec![Key::Ctrl(0x01)]);
    assert_eq!(parse_key("space").unwrap(), vec![Key::Char(' ')]);
    assert_eq!(parse_key("Enter").unwrap(), vec![Key::Enter]);
    assert_eq!(parse_key("esc").unwrap(), vec![Key::Esc]);
    assert_eq!(parse_key("bs").unwrap(), vec![Key::Backspace]);
    assert_eq!(parse_key("C-space").unwrap(), vec![Key::Ctrl(0x00)]);
    assert_eq!(parse_key("/").unwrap(), vec![Key::Char('/')]);
    assert_eq!(parse_key("Q").unwrap(), vec![Key::Char('Q')]);
    assert!(parse_key("C-").is_err());
    assert!(parse_key("C-1").is_err());
    assert!(parse_key("").is_err());
}

#[test]
fn arrow_names_cover_every_shape_the_terminal_may_send() {
    assert_eq!(
        parse_key("left").unwrap(),
        vec![Key::Raw(b"\x1b[D".to_vec()), Key::Raw(b"\x1bOD".to_vec()),],
        "CSI 形と SS3 形 (アプリケーションカーソルキーモード) の両方"
    );
    assert_eq!(parse_key("Right").unwrap().len(), 2, "大文字でも引ける");
    assert_eq!(parse_key("home").unwrap().len(), 4);

    let c = Config::parse("[keys]\nmove_left = [\"C-b\", \"left\"]\n").unwrap();
    assert_eq!(
        c.move_left,
        vec![
            Key::Ctrl(0x02),
            Key::Raw(b"\x1b[D".to_vec()),
            Key::Raw(b"\x1bOD".to_vec()),
        ]
    );
}

#[test]
fn named_sequences_are_escape_sequences() {
    for name in SEQUENCE_NAMES {
        let seqs = named_sequence(name).unwrap();
        assert!(!seqs.is_empty(), "{name} に形が無い");
        for s in seqs {
            match s {
                Key::Raw(s) => assert_eq!(
                    s.first(),
                    Some(&0x1b),
                    "{name} の {s:?} が ESC で始まらない"
                ),
                other => panic!("{name} の {other:?} が列でない"),
            }
        }
    }
}

#[test]
fn cursor_keys_default_to_both_control_and_arrows() {
    let c = Config::default();
    for (slot, ctrl, seq) in [
        (&c.move_left, 0x02, "\x1b[D"),
        (&c.move_right, 0x06, "\x1b[C"),
        (&c.move_home, 0x01, "\x1b[H"),
        (&c.move_end, 0x05, "\x1b[F"),
    ] {
        assert!(slot.contains(&Key::Ctrl(ctrl)), "C-{ctrl:#x} が無い");
        assert!(
            slot.contains(&Key::Raw(seq.as_bytes().to_vec())),
            "{seq:?} が無い"
        );
    }
    assert_eq!(c.delete_forward, vec![Key::Ctrl(0x04)]);
}

#[test]
fn empty_file_gives_the_defaults() {
    assert_eq!(Config::parse("").unwrap(), Config::default());
}

#[test]
fn overrides_only_what_is_written() {
    let c = Config::parse(
        r#"
        [keys]
        kana = "C-o"
        cancel = ["C-g", "esc"]
        select = ["1", "2", "3"]

        [candidates]
        inline = 2
        "#,
    )
    .unwrap();
    assert_eq!(c.kana, vec![Key::Ctrl(0x0f)]);
    assert_eq!(c.cancel, vec![Key::Ctrl(0x07), Key::Esc]);
    assert_eq!(c.select, vec!['1', '2', '3']);
    assert_eq!(c.page_size(), 3);
    assert_eq!(c.inline_candidates, 2);
    assert_eq!(
        Config::parse("[behavior]\nascii_keys = []\n")
            .unwrap()
            .ascii_keys,
        Vec::<Key>::new()
    );
    assert_eq!(
        Config::parse("[behavior]\nascii_keys = [\"esc\", \"C-c\"]\n")
            .unwrap()
            .ascii_keys,
        vec![Key::Esc, Key::Ctrl(0x03)]
    );
    assert_eq!(c.ascii, vec![Key::Char('l')]);
}

#[test]
fn rejects_what_it_cannot_honour() {
    assert!(Config::parse("[keys]\nkana = 3\n").is_err());
    assert!(Config::parse("[keys]\nkanaa = \"x\"\n").is_err());
    assert!(Config::parse("[keyz]\n").is_err());
    assert!(Config::parse("[keys]\nselect = [\"ab\"]\n").is_err());
    assert!(Config::parse("[candidates]\ninline = 0\n").is_err());
    assert!(Config::parse("[keys]\ncancel = []\n").is_err());
    assert!(Config::parse("[behavior]\nascii_keys = 3\n").is_err());
    assert!(Config::parse("[behavior]\nfoo = []\n").is_err());
}

#[test]
fn the_bundled_example_states_the_defaults() {
    let text = EXAMPLE;
    assert_eq!(
        Config::parse(text).unwrap(),
        Config::default(),
        "見本をそのまま読んだら既定になるはず"
    );

    let enabled: String = text
        .lines()
        .map(|line| match line.strip_prefix('#') {
            Some(rest) if !rest.starts_with(' ') && !rest.is_empty() => rest,
            _ => line,
        })
        .collect::<Vec<_>>()
        .join("\n");
    assert_eq!(
        Config::parse(&enabled).unwrap(),
        Config::default(),
        "見本の # を外したら既定と同じになるはず (既定を変えたら見本も直す)"
    );
}

/// 構文解析の内部で使う名前でも、知らない節は知らない節。
#[test]
fn a_private_name_of_the_parser_is_an_unknown_section() {
    assert!(Config::parse("\"$__toml_private_datetime\" = \"1979-05-27\"\n").is_err());
    assert!(Config::parse("[\"$__toml_private_datetime\"]\nx = 1\n").is_err());
}
