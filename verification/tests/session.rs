use ttyskk::config::{Config, Marker};
use ttyskk::dict::Dict;
use ttyskk::launch::{edited, expand_home, next_editor, screen_size, split_paths, takes_line, Edited};
use ttyskk::session::{cursor_indicator, Session};
use ttyskk::skk::{Mode, Skk};
use ttyskk::snippet::{Now, SnippetError};

fn session(shows_mode: bool) -> Session {
    let dict = Dict::load(&vec!["かんじ /漢字/\n".as_bytes().to_vec()], None, None, None);
    let cfg = Config::parse("[behavior]\nmode_marker = \"off\"\n").unwrap();
    Session::new(Skk::new(dict, cfg), 24, 80, Some((0, 0)), shows_mode)
}

fn input(s: &mut Session, bytes: &[u8]) -> (String, String) {
    let out = s.on_input(bytes, Now::default());
    (
        String::from_utf8(out.to_child).unwrap(),
        String::from_utf8(out.to_terminal).unwrap(),
    )
}

fn output(s: &mut Session, text: &str) -> String {
    let mut all = s.before_output();
    for c in text.chars() {
        s.screen_mut().print(c);
    }
    all.extend(s.after_output(text.as_bytes()));
    String::from_utf8(all).unwrap()
}

#[test]
fn nothing_is_written_by_itself() {
    let mut s = session(false);
    assert!(s.greeting().is_empty());
    assert_eq!(input(&mut s, b"ls\r"), ("ls\r".to_string(), String::new()));
    assert_eq!(output(&mut s, "file"), "file");
    assert!(s.farewell().is_empty());
}

#[test]
fn the_cursor_shows_the_mode() {
    let mut s = session(true);
    assert_eq!(s.greeting(), b"\x1b[4 q\x1b]112\x07");
    let (to_child, to_terminal) = input(&mut s, b"\x0a");
    assert_eq!(to_child, "");
    assert_eq!(to_terminal, "\x1b[2 q\x1b]12;#7fd75f\x07");
    s.screen_mut().csi_dispatch(&vec![vec![5]], b" ", 'q');
    assert_eq!(
        String::from_utf8(s.after_output(b"x")).unwrap(),
        "x\x1b[2 q\x1b]12;#7fd75f\x07"
    );
    assert_eq!(
        String::from_utf8(s.farewell()).unwrap(),
        "\x1b[0 q\x1b]112\x07\x1b[0m\x1b[?25h"
    );
}

#[test]
fn what_is_typed_is_drawn_and_taken_away() {
    let mut s = session(false);
    let (to_child, drawn) = input(&mut s, b"\x0aKanji");
    assert_eq!(to_child, "");
    assert!(drawn.contains("▽かんじ"), "{drawn}");
    assert!(drawn.ends_with("\x1b[0m\x1b[1;1H\x1b[?25h"), "{drawn}");
    let (to_child, _) = input(&mut s, b" \x0a");
    assert_eq!(to_child, "漢字");
    assert!(s.on_pause());
    assert!(!s.on_pause());
    let written = output(&mut s, "漢字");
    assert_eq!(written, "漢字");
}

#[test]
fn nothing_comes_between() {
    let mut s = session(true);
    input(&mut s, b"\x0aKanji");
    s.before_output();
    assert_eq!(s.after_output(b"\x1b[3"), b"\x1b[3");
    // 列の途中ではモードの合図も待つ
    let (_, to_terminal) = input(&mut s, b"\x0al");
    assert_eq!(to_terminal, "");
    assert_eq!(
        String::from_utf8(s.after_output(b"1m")).unwrap(),
        "1m\x1b[4 q\x1b]112\x07"
    );
}

#[test]
fn the_report_of_the_cursor_is_taken_out() {
    let dict = Dict::load(&vec![], None, None, None);
    let cfg = Config::parse("[behavior]\nmode_marker = \"off\"\n").unwrap();
    let mut s = Session::new(Skk::new(dict, cfg), 10, 20, None, false);
    assert_eq!((s.screen().row, s.screen().col), (9, 0));
    // 位置が分からないうちは描かない
    let (_, drawn) = input(&mut s, b"\x0aKa");
    assert_eq!(drawn, "");
    assert_eq!(s.on_resize(5, 20), b"\x1b[6n");
    let (to_child, drawn) = input(&mut s, b"\x1b[3;4Rn");
    assert_eq!(to_child, "");
    assert_eq!((s.screen().row, s.screen().col), (2, 3));
    assert!(drawn.contains("\x1b[3;4H"), "{drawn}");
}

#[test]
fn a_change_of_setup_reaches_the_keys() {
    let mut s = session(false);
    s.on_config(Config::parse("[keys]\nkana = \"C-o\"\n").unwrap());
    assert_eq!(input(&mut s, b"\x1b[111;5u").0, "");
    assert_eq!(s.skk_mut().mode(), Mode::Hiragana);
    s.after_editor();
    assert_eq!(s.farewell(), b"\x1b[0m\x1b[?25h");
}

#[test]
fn a_snippet_puts_the_cursor_back() {
    let mut s = session(false);
    let file = r#"{"引用": {"prefix": "いんよう", "body": "「$1」$0と"}}"#;
    s.skk_mut()
        .dict_mut()
        .load_snippets(&vec![Some(file.as_bytes().to_vec())], vec![None]);
    let (to_child, _) = input(&mut s, b"\x0aInnyou \x0aa\r");
    assert_eq!(to_child, "「あ」と\x1b[D");
}

#[test]
fn shapes_tell_the_modes_apart() {
    let modes = [
        Mode::Ascii,
        Mode::Hiragana,
        Mode::Katakana,
        Mode::HankakuKatakana,
        Mode::ZenkakuAscii,
    ];
    for marker in [Marker::Off, Marker::Beside, Marker::Letter] {
        let shapes: Vec<&str> = modes
            .iter()
            .map(|m| &cursor_indicator(*m, marker)[..5])
            .collect();
        for (i, a) in shapes.iter().enumerate() {
            for b in &shapes[i + 1..] {
                assert_ne!(a, b);
            }
        }
    }
    assert_eq!(
        cursor_indicator(Mode::Katakana, Marker::Cell),
        cursor_indicator(Mode::Ascii, Marker::Symbol)
    );
}

#[test]
fn small_decisions() {
    assert_eq!(split_paths("/a::/b:"), ["/a", "/b"]);
    assert!(split_paths("").is_empty());
    assert_eq!(expand_home("~/a/b", Some("/home/x")), "/home/x/a/b");
    assert_eq!(expand_home("~/a", Some("/")), "/a");
    assert_eq!(expand_home("~//a", Some("/home/x")), "/a");
    assert_eq!(expand_home("~/a", None), "~/a");
    assert_eq!(expand_home("~x/a", Some("/home/x")), "~x/a");
    assert_eq!(expand_home("/a", Some("/home/x")), "/a");
    assert!(takes_line("nvim") && takes_line("kak") && !takes_line("code"));
    assert_eq!(screen_size(true, 50, 100), (50, 100));
    assert_eq!(screen_size(true, 0, 100), (24, 80));
    assert_eq!(screen_size(false, 50, 100), (24, 80));
    assert!(matches!(edited("x", "x"), Edited::Untouched));
    let one = r#"{"a": {"prefix": ["あ", "い"], "body": "x"}}"#;
    assert!(matches!(edited("x", one), Edited::Read(2)));
    assert!(matches!(
        edited("x", "{"),
        Edited::Broken(SnippetError::NotJson(_))
    ));
    assert!(matches!(
        edited("x", "[]"),
        Edited::Broken(SnippetError::NotObject)
    ));
}

#[test]
fn editors_are_tried_in_turn() {
    let words = |v: &[&str]| -> Vec<String> { v.iter().map(|s| s.to_string()).collect() };
    let next = |n, v, e| next_editor(n, v, e);
    assert_eq!(next(0, Some("code -w"), Some("nano")), Some((0, words(&["code", "-w"]))));
    assert_eq!(next(1, Some("code -w"), Some("nano")), Some((1, words(&["nano"]))));
    assert_eq!(next(2, Some("code -w"), Some("nano")), Some((2, words(&["vi"]))));
    assert_eq!(next(3, Some("code -w"), Some("nano")), None);
    assert_eq!(next(0, Some(" \u{3000}"), None), Some((2, words(&["vi"]))));
    assert_eq!(next(0, None, Some("  emacs  -nw ")), Some((1, words(&["emacs", "-nw"]))));
    assert_eq!(next(usize::MAX, None, None), None);
}
