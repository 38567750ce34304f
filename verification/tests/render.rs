use ttyskk::render::Overlay;
use ttyskk::screen::Screen;
use ttyskk::skk::{Preedit, Segment, Style, Tint};
use vte::{Params, Parser, Perform};

/// Lets a screen follow what a parser of terminal output finds.
struct Follow<'a>(&'a mut Screen);

fn numbers(params: &Params) -> Vec<Vec<u16>> {
    params.iter().map(|p| p.to_vec()).collect()
}

impl Perform for Follow<'_> {
    fn print(&mut self, c: char) {
        self.0.print(c);
    }

    fn execute(&mut self, byte: u8) {
        self.0.execute(byte);
    }

    fn osc_dispatch(&mut self, params: &[&[u8]], _bell_terminated: bool) {
        let params: Vec<Vec<u8>> = params.iter().map(|p| p.to_vec()).collect();
        self.0.osc_dispatch(&params);
    }

    fn csi_dispatch(&mut self, params: &Params, intermediates: &[u8], _ignore: bool, action: char) {
        self.0.csi_dispatch(&numbers(params), intermediates, action);
    }

    fn esc_dispatch(&mut self, intermediates: &[u8], _ignore: bool, byte: u8) {
        self.0.esc_dispatch(intermediates, byte);
    }
}

fn screen_with(text: &str, rows: usize, cols: usize) -> Screen {
    let mut s = Screen::new(rows, cols);
    let mut p = Parser::new();
    p.advance(&mut Follow(&mut s), text.as_bytes());
    s
}

fn seg(style: Style, text: &str) -> Segment {
    Segment {
        style,
        text: text.to_string(),
    }
}

#[test]
fn draws_at_cursor() {
    let s = screen_with("$ ", 5, 20);
    let mut o = Overlay::new();
    let bytes = String::from_utf8(o.draw(&s, &[seg(Style::Reading, "▽かんじ")])).unwrap();
    assert!(bytes.contains("\x1b[1;3H"));
    assert!(bytes.contains("▽かんじ"));
    assert_eq!(o.painted, vec![(0, 2, 7)]);
}

#[test]
fn erase_restores_original_content() {
    let s = screen_with("abcdef", 5, 20);
    let mut o = Overlay::new();
    o.draw(&s, &[seg(Style::Romaji, "xy")]);
    let bytes = String::from_utf8(o.erase(&s)).unwrap();
    assert!(bytes.contains("\x1b[1;7H"));
    assert!(o.is_empty());
}

#[test]
fn wraps_at_right_edge() {
    // 幅 10、カーソルは 8 桁目。全角 3 文字は折り返す。
    let s = screen_with("12345678", 5, 10);
    let mut o = Overlay::new();
    o.draw(&s, &[seg(Style::Reading, "あいう")]);
    assert_eq!(o.painted.len(), 2);
    assert_eq!(o.painted[0], (0, 8, 2));
    assert_eq!(o.painted[1], (1, 0, 4));
}

#[test]
fn truncates_at_bottom() {
    let s = screen_with("\x1b[2;9H", 2, 10);
    let mut o = Overlay::new();
    o.draw(&s, &[seg(Style::Reading, "あいうえお")]);
    // 最終行を越える分は捨てる (スクロールさせない)
    assert_eq!(o.painted.len(), 1);
    assert_eq!(o.painted[0].0, 1);
}

#[test]
fn empty_preedit_draws_nothing() {
    let s = screen_with("$ ", 5, 20);
    let mut o = Overlay::new();
    assert!(o.draw(&s, &[]).is_empty());
    assert!(o.is_empty());
}

#[test]
fn styles_are_written_as_looks() {
    let s = screen_with("", 5, 40);
    let mut o = Overlay::new();
    let bytes = o.draw(
        &s,
        &[
            seg(Style::Reading, "a"),
            seg(Style::Romaji, "b"),
            seg(Style::Candidate, "c"),
            seg(Style::ListItem, "d"),
            seg(Style::ListSelected, "e"),
            seg(Style::ListSelected, "f"),
        ],
    );
    assert_eq!(
        String::from_utf8(bytes).unwrap(),
        "\x1b[?25l\x1b[1;1H\x1b[0;1;4ma\x1b[0;1;32mb\x1b[0;1;4;31mc\x1b[0;2md\x1b[0;7mef"
    );
}

#[test]
fn the_terminal_is_put_back() {
    let s = screen_with("ab\x1b[31m", 5, 40);
    let bytes = Overlay::restore_terminal(&s);
    assert_eq!(
        String::from_utf8(bytes).unwrap(),
        "\x1b[0;31m\x1b[1;3H\x1b[?25h"
    );
    let s = screen_with("\x1b[?25l", 5, 40);
    let bytes = Overlay::restore_terminal(&s);
    assert_eq!(String::from_utf8(bytes).unwrap(), "\x1b[0m\x1b[1;1H\x1b[?25l");
}

#[test]
fn drawing_leaves_no_trace() {
    let text = "あいうえお\x1b[32mかき\x1b[m\x1b[1;9H";
    let s = screen_with(text, 3, 12);
    let mut t = screen_with(text, 3, 12);
    let mut o = Overlay::new();
    let mut bytes = o.draw(&s, &[seg(Style::Reading, "▽さしすせそ"), seg(Style::Romaji, "t")]);
    assert!(!o.is_empty());
    let mut p = Parser::new();
    p.advance(&mut Follow(&mut t), &bytes);
    assert_ne!(t.cell(1, 0), s.cell(1, 0));
    bytes = o.erase(&s);
    bytes.extend(Overlay::restore_terminal(&s));
    p.advance(&mut Follow(&mut t), &bytes);
    for row in 0..3 {
        for col in 0..12 {
            assert_eq!(t.cell(row, col), s.cell(row, col), "{row},{col}");
        }
    }
    assert_eq!((t.row, t.col, t.pen), (s.row, s.col, s.pen));
    o.draw(&s, &[seg(Style::Reading, "x")]);
    o.forget();
    assert!(o.is_empty() && o.erase(&s).is_empty());
}

fn shown(at_cursor: Vec<Segment>, floating: Vec<Segment>, cursor_tint: Option<Tint>) -> Preedit {
    Preedit {
        at_cursor,
        floating,
        cursor_tint,
    }
}

#[test]
fn a_colour_lies_under_the_character_or_a_mark() {
    let s = screen_with("aあb\x1b[1;3H", 2, 6);
    let mut o = Overlay::new();
    let tint = |offset, glyph| Tint {
        style: Style::ModeHiragana,
        offset,
        glyph,
    };
    // 全角の右半分に居ても、その文字ごと塗る
    let bytes = o.draw_preedit(&s, &shown(vec![], vec![], Some(tint(0, None))));
    assert_eq!(
        String::from_utf8(bytes).unwrap(),
        "\x1b[?25l\x1b[1;2H\x1b[0;30;48;5;113mあ"
    );
    assert_eq!(o.painted, vec![(0, 1, 2)]);
    let bytes = o.draw_preedit(&s, &shown(vec![], vec![], Some(tint(1, Some('@')))));
    assert_eq!(
        String::from_utf8(bytes).unwrap(),
        "\x1b[?25l\x1b[1;4H\x1b[0;30;48;5;113m@"
    );
    // 行の終わりを越えては塗らない
    assert!(o
        .draw_preedit(&s, &shown(vec![], vec![], Some(tint(4, None))))
        .is_empty());
    assert!(o.is_empty());
}

#[test]
fn a_list_has_a_line_of_its_own() {
    let s = screen_with("x", 3, 6);
    let mut o = Overlay::new();
    let p = shown(
        vec![seg(Style::Candidate, "▼亜")],
        vec![seg(Style::ListItem, "a:亜 s:唖")],
        None,
    );
    let bytes = String::from_utf8(o.draw_preedit(&s, &p)).unwrap();
    assert_eq!(
        bytes,
        "\x1b[?25l\x1b[1;2H\x1b[0;1;4;31m▼亜\x1b[2;1H\x1b[0;2ma:亜 s"
    );
    assert_eq!(o.painted, vec![(0, 1, 3), (1, 0, 6)]);
    // 最下行では上の行に出す
    let s = screen_with("\x1b[3;1H", 3, 6);
    o.draw_preedit(&s, &p);
    assert_eq!(o.painted, vec![(2, 0, 3), (1, 0, 6)]);
    // 一行しかなければ出さない
    let s = screen_with("", 1, 6);
    o.draw_preedit(&s, &p);
    assert_eq!(o.painted, vec![(0, 0, 3)]);
}

#[test]
fn all_that_is_shown_leaves_no_trace() {
    let text = "abcdefgh\x1b[2;3H\x1b[34mxyz\x1b[m\x1b[2;5H";
    let s = screen_with(text, 3, 8);
    let mut t = screen_with(text, 3, 8);
    let mut o = Overlay::new();
    let p = shown(
        vec![seg(Style::Reading, "▽かん")],
        vec![seg(Style::ListItem, "a:漢 s:缶 d:館")],
        Some(Tint {
            style: Style::ModeKatakana,
            offset: 0,
            glyph: None,
        }),
    );
    let mut bytes = o.draw_preedit(&s, &p);
    let mut parser = Parser::new();
    parser.advance(&mut Follow(&mut t), &bytes);
    bytes = o.erase(&s);
    bytes.extend(Overlay::restore_terminal(&s));
    parser.advance(&mut Follow(&mut t), &bytes);
    for row in 0..3 {
        for col in 0..8 {
            assert_eq!(t.cell(row, col), s.cell(row, col), "{row},{col}");
        }
    }
    assert_eq!((t.row, t.col, t.pen), (s.row, s.col, s.pen));
}

/// 文字色も背景色も自由な色の画面でも、描いた跡が残らない。
#[test]
fn nothing_is_left_on_free_colours() {
    let text = "\x1b[38;2;10;20;30;48;2;40;50;60mabcdef\x1b[1;3H";
    let s = screen_with(text, 3, 10);
    let mut t = screen_with(text, 3, 10);
    let mut o = Overlay::new();
    let mut bytes = o.draw(&s, &[seg(Style::Reading, "▽か")]);
    bytes.extend(o.erase(&s));
    let mut p = Parser::new();
    p.advance(&mut Follow(&mut t), &bytes);
    for row in 0..3 {
        for col in 0..10 {
            assert_eq!(t.cell(row, col), s.cell(row, col), "{row},{col}");
        }
    }
    assert_eq!(t.pen, s.pen);
}

/// 折り返さない端末なら、一桁の画面に全角を描いても跡が残らない。
#[test]
fn a_wide_character_on_one_column_is_taken_away() {
    let text = "\x1b[?7la\x1b[2;1Hb\x1b[3;1Hc\x1b[1;1H";
    let s = screen_with(text, 3, 1);
    let mut t = screen_with(text, 3, 1);
    let mut o = Overlay::new();
    let mut p = Parser::new();
    let drawn = o.draw(&s, &[seg(Style::Reading, "あい")]);
    p.advance(&mut Follow(&mut t), &drawn);
    assert_eq!(t.cell(1, 0).ch, 'あ');
    let erased = o.erase(&s);
    assert!(o.is_empty() && o.erase(&s).is_empty());
    p.advance(&mut Follow(&mut t), &erased);
    for row in 0..3 {
        assert_eq!(t.cell(row, 0), s.cell(row, 0), "{row}");
    }
}
