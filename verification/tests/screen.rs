use ttyskk::screen::{Attr, Cell, Color, Screen, BOLD, UNDERLINE};
use vte::{Params, Parser, Perform};

/// Lets a screen follow what a parser of terminal output finds.
struct Follow<'a>(&'a mut Screen);

fn numbers(params: &Params) -> Vec<Vec<u16>> {
    params.iter().map(|p| p.to_vec()).collect()
}

impl Perform for Follow<'_> {
    fn print(&mut self, c: char) {
        self.0.print(c);
    }

    fn execute(&mut self, byte: u8) {
        self.0.execute(byte);
    }

    fn osc_dispatch(&mut self, params: &[&[u8]], _bell_terminated: bool) {
        let params: Vec<Vec<u8>> = params.iter().map(|p| p.to_vec()).collect();
        self.0.osc_dispatch(&params);
    }

    fn csi_dispatch(&mut self, params: &Params, intermediates: &[u8], _ignore: bool, action: char) {
        self.0.csi_dispatch(&numbers(params), intermediates, action);
    }

    fn esc_dispatch(&mut self, intermediates: &[u8], _ignore: bool, byte: u8) {
        self.0.esc_dispatch(intermediates, byte);
    }
}

fn feed(s: &mut Screen, bytes: &str) {
    let mut p = Parser::new();
    p.advance(&mut Follow(s), bytes.as_bytes());
}

#[test]
fn private_csi_is_not_mistaken_for_sgr_or_cursor_restore() {
    let mut s = Screen::new(5, 20);
    feed(&mut s, "\x1b[s"); // 控えを (0,0) に取る
    feed(&mut s, "abc");
    // modifyOtherKeys。SGR 4;2 (下線+薄字) と読んではいけない。
    feed(&mut s, "\x1b[>4;2m");
    assert_eq!(s.pen, Attr::default());
    // kitty 鍵盤プロトコル。'u' = カーソル復帰と読んではいけない。
    feed(&mut s, "\x1b[>1u");
    feed(&mut s, "\x1b[<u");
    assert_eq!((s.row, s.col), (0, 3));
    // 素の SGR とカーソル復帰はそのまま効く
    feed(&mut s, "\x1b[4m");
    assert_eq!(s.pen.flags & UNDERLINE, UNDERLINE);
    feed(&mut s, "\x1b[u");
    assert_eq!((s.row, s.col), (0, 0));
}

#[test]
fn notices_when_the_child_takes_over_the_cursor_look() {
    let mut s = Screen::new(5, 20);
    feed(&mut s, "abc\x1b[?25l\x1b]0;title\x07");
    assert!(!s.take_cursor_style_touched());
    // DECSCUSR (形)
    feed(&mut s, "\x1b[5 q");
    assert!(s.take_cursor_style_touched());
    assert!(!s.take_cursor_style_touched(), "印は一度で落ちる");
    // OSC 12 (色) と OSC 112 (既定へ戻す)
    feed(&mut s, "\x1b]12;#ff0000\x07");
    assert!(s.take_cursor_style_touched());
    feed(&mut s, "\x1b]112\x07");
    assert!(s.take_cursor_style_touched());
    // 格子とカーソル位置には影響しない
    assert_eq!((s.row, s.col), (0, 3));
}

#[test]
fn intermediate_bytes_are_skipped() {
    let mut s = Screen::new(5, 20);
    feed(&mut s, "xy");
    // DECSCUSR。'q' は元々扱わないが、中間バイト付きが素通りしないことを見る。
    feed(&mut s, "\x1b[2 q");
    // DECSTR。'p' も同様。
    feed(&mut s, "\x1b[!p");
    assert_eq!((s.row, s.col), (0, 2));
    assert_eq!(s.pen, Attr::default());
    // DECSET/DECRST は引き続き効く
    feed(&mut s, "\x1b[?25l");
    assert!(!s.cursor_visible);
}

#[test]
fn tracks_cursor_and_text() {
    let mut s = Screen::new(5, 20);
    feed(&mut s, "hello");
    assert_eq!((s.row, s.col), (0, 5));
    assert_eq!(s.cell(0, 0).ch, 'h');
}

#[test]
fn handles_wide_chars() {
    let mut s = Screen::new(5, 20);
    feed(&mut s, "あい");
    assert_eq!(s.col, 4);
    assert_eq!(s.cell(0, 0).ch, 'あ');
    assert_eq!(s.cell(0, 1).width, 0);
    assert_eq!(s.cell(0, 2).ch, 'い');
}

#[test]
fn restores_region_with_attributes() {
    let mut s = Screen::new(5, 20);
    feed(&mut s, "\x1b[31mab\x1b[0mcd");
    let out = s.restore_region(0, 0, 4);
    assert!(out.starts_with("\x1b[1;1H"));
    assert!(out.contains(";31m"));
    assert!(out.ends_with("cd"));
}

/// 子の出力が文字の途中で切れても、控えの画面に置換文字が入らない。
///
/// 子の出力は 8192 バイトずつ読む。かなは 3 バイトなので境界は文字の途中に
/// 落ちる。パーサが持ち越さないと控えに U+FFFD が入り、重ね描きを消すときに
/// **画面へ書き戻されてしまう**。
#[test]
fn split_utf8_output_keeps_the_grid_intact() {
    let text = "ただ一点、私の計算違いでしたら申し訳ないのですが、";
    let bytes = text.as_bytes();
    for at in 1..bytes.len() {
        let mut s = Screen::new(5, 80);
        let mut p = Parser::new();
        p.advance(&mut Follow(&mut s), &bytes[..at]);
        p.advance(&mut Follow(&mut s), &bytes[at..]);
        let shown = s.restore_region(0, 0, text.chars().count() * 2);
        assert!(
            !shown.contains('\u{fffd}'),
            "境界 {at} で置換文字が入った: {shown:?}"
        );
    }
}

#[test]
fn restore_expands_over_wide_char() {
    let mut s = Screen::new(5, 20);
    feed(&mut s, "あい");
    // 全角の後続セルから始めても文字が欠けない
    let out = s.restore_region(0, 1, 1);
    assert!(out.contains('あ'));
}

#[test]
fn wraps_and_scrolls() {
    let mut s = Screen::new(2, 3);
    feed(&mut s, "abcdef");
    assert_eq!(s.cell(1, 0).ch, 'd');
    feed(&mut s, "ghi");
    assert_eq!(s.cell(0, 0).ch, 'd');
    assert_eq!(s.cell(1, 0).ch, 'g');
}

#[test]
fn erase_line_clears_cells() {
    let mut s = Screen::new(3, 10);
    feed(&mut s, "abcdef\r\x1b[K");
    assert_eq!(s.cell(0, 0).ch, ' ');
}

#[test]
fn alt_screen_restores_main() {
    let mut s = Screen::new(3, 10);
    feed(&mut s, "main");
    feed(&mut s, "\x1b[?1049h");
    feed(&mut s, "\x1b[Halt");
    assert_eq!(s.cell(0, 0).ch, 'a');
    feed(&mut s, "\x1b[?1049l");
    assert_eq!(s.cell(0, 0).ch, 'm');
}

#[test]
fn the_look_is_written_in_full() {
    let plain = Attr::default();
    assert_eq!(plain.sgr(), "\x1b[0m");
    let a = Attr {
        fg: Color::Indexed(1),
        bg: Color::Indexed(12),
        flags: BOLD | UNDERLINE,
    };
    assert_eq!(a.sgr(), "\x1b[0;1;4;31;104m");
    let b = Attr {
        fg: Color::Indexed(200),
        bg: Color::Rgb(1, 2, 3),
        flags: 0,
    };
    assert_eq!(b.sgr(), "\x1b[0;38;5;200;48;2;1;2;3m");
    let c = Attr {
        fg: Color::Indexed(9),
        bg: Color::Default,
        flags: 0xff,
    };
    assert_eq!(c.sgr(), "\x1b[0;1;2;3;4;5;7;8;9;91m");
}

#[test]
fn a_look_comes_back() {
    for a in [
        Attr {
            fg: Color::Indexed(1),
            bg: Color::Indexed(12),
            flags: BOLD | UNDERLINE,
        },
        Attr {
            fg: Color::Indexed(200),
            bg: Color::Rgb(1, 2, 3),
            flags: 0xff,
        },
        Attr {
            fg: Color::Rgb(9, 8, 7),
            bg: Color::Default,
            flags: 0,
        },
    ] {
        let mut s = Screen::new(2, 4);
        feed(&mut s, "\x1b[1;3;35m");
        feed(&mut s, &a.sgr());
        assert_eq!(s.pen, a);
    }
}

#[test]
fn looks_are_taken_back_one_by_one() {
    let mut s = Screen::new(2, 4);
    feed(&mut s, "\x1b[1;2;3;4;5;7;8;9m");
    assert_eq!(s.pen.flags, 0xff);
    feed(&mut s, "\x1b[22;23;24;25;27;28;29m");
    assert_eq!(s.pen.flags, 0);
    feed(&mut s, "\x1b[38:2::10:20:30m\x1b[48:5:7m");
    assert_eq!(s.pen.fg, Color::Rgb(10, 20, 30));
    assert_eq!(s.pen.bg, Color::Indexed(7));
    feed(&mut s, "\x1b[39;49m");
    assert_eq!(s.pen, Attr::default());
    feed(&mut s, "\x1b[31m\x1b[m");
    assert_eq!(s.pen, Attr::default());
}

#[test]
fn a_restored_region_brings_the_screen_back() {
    let mut s = Screen::new(3, 10);
    feed(&mut s, "a\x1b[31mあい\x1b[0mbc\x1b[2;1H\x1b[1mxyz\x1b[m");
    let mut t = Screen::new(3, 10);
    feed(&mut t, "a\x1b[31mあい\x1b[0mbc\x1b[2;1H\x1b[1mxyz\x1b[m");
    feed(&mut t, "\x1b[1;3H----");
    assert_eq!(t.cell(0, 3).ch, '-');
    let back = s.restore_region(0, 2, 4);
    feed(&mut t, &back);
    for row in 0..3 {
        for col in 0..10 {
            assert_eq!(t.cell(row, col), s.cell(row, col), "{row},{col}");
        }
    }
    let mut u = Screen::new(3, 10);
    feed(&mut u, "\x1b[7m##########");
    let all = s.repaint();
    feed(&mut u, &all);
    for row in 0..3 {
        for col in 0..10 {
            assert_eq!(u.cell(row, col), s.cell(row, col), "{row},{col}");
        }
    }
}

#[test]
fn rows_and_columns_are_put_in_and_taken_out() {
    let mut s = Screen::new(3, 5);
    feed(&mut s, "abcde\x1b[2;1Hfghij\x1b[3;1Hklmno");
    feed(&mut s, "\x1b[1;2H\x1b[2@");
    let row = |s: &Screen, r: usize| (0..5).map(|c| s.cell(r, c).ch).collect::<String>();
    assert_eq!(row(&s, 0), "a  bc");
    feed(&mut s, "\x1b[3P");
    assert_eq!(row(&s, 0), "ac   ");
    feed(&mut s, "\x1b[2;1H\x1b[L");
    assert_eq!(row(&s, 1), "     ");
    assert_eq!(row(&s, 2), "fghij");
    feed(&mut s, "\x1b[M");
    assert_eq!(row(&s, 1), "fghij");
    assert_eq!(row(&s, 2), "     ");
    feed(&mut s, "\x1b[2;2H\x1b[2X");
    assert_eq!(row(&s, 1), "f  ij");
    feed(&mut s, "\x1b[T");
    assert_eq!(row(&s, 2), "f  ij");
    feed(&mut s, "\x1b[2S");
    assert_eq!(row(&s, 0), "f  ij");
    feed(&mut s, "\x1b[44m\x1b[1;3H\x1b[J");
    assert_eq!(row(&s, 0), "f    ");
    assert_eq!(s.cell(1, 0).attr.bg, Color::Indexed(4));
    assert_eq!(s.cell(0, 0).attr.bg, Color::Default);
}

#[test]
fn only_the_set_part_scrolls() {
    let mut s = Screen::new(4, 3);
    feed(&mut s, "aaa\x1b[2;1Hbbb\x1b[3;1Hccc\x1b[4;1Hddd");
    feed(&mut s, "\x1b[2;3r");
    assert_eq!((s.row, s.col), (0, 0));
    feed(&mut s, "\x1b[3;1H\n");
    assert_eq!(s.cell(0, 0).ch, 'a');
    assert_eq!(s.cell(1, 0).ch, 'c');
    assert_eq!(s.cell(2, 0), Cell::default());
    assert_eq!(s.cell(3, 0).ch, 'd');
    feed(&mut s, "\x1b[2;1H\x1bM");
    assert_eq!(s.cell(1, 0), Cell::default());
    assert_eq!(s.cell(2, 0).ch, 'c');
}

#[test]
fn the_cursor_stays_on_the_screen() {
    let mut s = Screen::new(3, 10);
    feed(&mut s, "\x1b[99;99H");
    assert_eq!((s.row, s.col), (2, 9));
    feed(&mut s, "\x1b[99A\x1b[99D");
    assert_eq!((s.row, s.col), (0, 0));
    feed(&mut s, "\x1b[99B\x1b[99C");
    assert_eq!((s.row, s.col), (2, 9));
    feed(&mut s, "\x1b[2F\x1b[E");
    assert_eq!((s.row, s.col), (1, 0));
    feed(&mut s, "\t");
    assert_eq!(s.col, 8);
    feed(&mut s, "\t");
    assert_eq!(s.col, 9);
    feed(&mut s, "\x08\x1b[4G\x1b[3d");
    assert_eq!((s.row, s.col), (2, 3));
    s.set_cursor(100, 100);
    assert_eq!((s.row, s.col), (2, 9));
    s.resize(2, 4);
    assert_eq!((s.rows, s.cols, s.row, s.col), (2, 4, 1, 3));
    let tiny = Screen::new(0, 0);
    assert_eq!((tiny.rows, tiny.cols), (1, 1));
    feed(&mut s, "x\x1bc");
    assert_eq!((s.row, s.col), (0, 0));
    assert_eq!(s.cell(1, 3), Cell::default());
}

#[test]
fn a_remembered_cursor_comes_back() {
    let mut s = Screen::new(3, 10);
    feed(&mut s, "\x1b[2;3H\x1b[31m\x1b7\x1b[H\x1b[m\x1b8");
    assert_eq!((s.row, s.col), (1, 2));
    assert_eq!(s.pen.fg, Color::Indexed(1));
}

#[test]
fn without_continued_rows_the_last_column_is_written_over() {
    let mut s = Screen::new(2, 3);
    feed(&mut s, "\x1b[?7labcd");
    assert_eq!(s.cell(0, 2).ch, 'd');
    assert_eq!(s.row, 0);
}

#[test]
fn kana_and_kanji_take_two_columns() {
    for c in ('\u{3041}'..='\u{3096}')
        .chain('\u{30a1}'..='\u{30fa}')
        .chain('\u{4e00}'..='\u{9fff}')
    {
        let mut s = Screen::new(1, 4);
        s.print(c);
        assert_eq!(s.col, 2, "{c}");
    }
    for c in ' '..='~' {
        let mut s = Screen::new(1, 4);
        s.print(c);
        assert_eq!(s.col, 1, "{c}");
    }
    let mut s = Screen::new(1, 4);
    s.print('\u{7f}');
    s.print('\u{301}');
    assert_eq!(s.col, 0);
    s.put('x', 3);
    assert_eq!(s.col, 3);
    assert_eq!(s.cell(0, 0).width, 3);
}

/// 色の番号は四つまで。その後ろはまた普通の番号として読む。
#[test]
fn numbers_after_a_colour_are_read() {
    let mut s = Screen::new(2, 4);
    feed(&mut s, "\x1b[38;2;10;20;30;1m");
    assert_eq!(s.pen.fg, Color::Rgb(10, 20, 30));
    assert_eq!(s.pen.flags, BOLD);
    feed(&mut s, "\x1b[0;38;5;200;4m");
    assert_eq!(s.pen.fg, Color::Indexed(200));
    assert_eq!(s.pen.flags, UNDERLINE);
    feed(&mut s, "\x1b[0;38;2;1;2;3;48;2;4;5;6m");
    assert_eq!(s.pen.fg, Color::Rgb(1, 2, 3));
    assert_eq!(s.pen.bg, Color::Rgb(4, 5, 6));
}

#[test]
fn a_look_of_two_free_colours_comes_back() {
    let a = Attr {
        fg: Color::Rgb(1, 2, 3),
        bg: Color::Rgb(4, 5, 6),
        flags: BOLD,
    };
    let mut s = Screen::new(2, 4);
    feed(&mut s, "\x1b[31;7m");
    feed(&mut s, &a.sgr());
    assert_eq!(s.pen, a);
}
