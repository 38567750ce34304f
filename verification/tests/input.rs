use ttyskk::config::Config;
use ttyskk::input::{take_cursor_report, Decoder, SeqTracker, MAX_PASTE};
use ttyskk::skk::{Key, PASTE_END, PASTE_START, SHIFT_TAB};

/// 既定の割り当てで切り出す。
fn decoder() -> Decoder {
    Decoder::new(&Config::default())
}

#[test]
fn plain_ascii() {
    let mut d = decoder();
    assert_eq!(d.feed(b"ab"), vec![Key::Char('a'), Key::Char('b')]);
}

#[test]
fn control_keys() {
    let mut d = decoder();
    assert_eq!(
        d.feed(b"\x0a\x0d\x7f\x09"),
        vec![Key::Ctrl(0x0a), Key::Enter, Key::Backspace, Key::Tab]
    );
}

#[test]
fn arrow_key_is_raw() {
    let mut d = decoder();
    assert_eq!(d.feed(b"\x1b[A"), vec![Key::Raw(b"\x1b[A".to_vec())]);
}

#[test]
fn split_escape_is_carried_over() {
    let mut d = decoder();
    assert_eq!(d.feed(b"\x1b["), vec![]);
    assert_eq!(d.feed(b"C"), vec![Key::Raw(b"\x1b[C".to_vec())]);
}

#[test]
fn split_utf8_is_carried_over() {
    let mut d = decoder();
    let bytes = "あ".as_bytes();
    assert_eq!(d.feed(&bytes[..2]), vec![]);
    assert_eq!(d.feed(&bytes[2..]), vec![Key::Char('あ')]);
}

#[test]
fn lone_escape() {
    let mut d = decoder();
    assert_eq!(d.feed(b"\x1b"), vec![Key::Esc]);
}

/// 記号に付いた Ctrl も、拡張鍵盤プロトコルの下で素の形へ戻ること。
///
/// `C-]` は「子アプリから奪っても痛くないキー」として `keys.reload` の置き場に
/// なる。奪う相手は子アプリなのだから、その下で効かなければ意味が無い。
#[test]
fn decodes_kitty_control_symbols() {
    let cfg = Config::parse("[keys]\nreload = \"C-]\"\n").unwrap();
    let mut d = Decoder::new(&cfg);
    assert_eq!(d.feed(b"\x1b[93;5u"), vec![Key::Ctrl(0x1d)]); // Ctrl+]
    // 素の端末では制御文字そのものが届く
    assert_eq!(d.feed(b"\x1d"), vec![Key::Ctrl(0x1d)]);
    // 割り当てが無ければ元のバイト列のまま子へ渡す
    let mut plain = decoder();
    assert_ne!(plain.feed(b"\x1b[93;5u"), vec![Key::Ctrl(0x1d)]);
}

/// 子アプリのように kitty 鍵盤プロトコルを有効にするアプリの下でも
/// モード切り替えが効くこと。
#[test]
fn decodes_kitty_control_keys() {
    let mut d = decoder();
    assert_eq!(d.feed(b"\x1b[106;5u"), vec![Key::Ctrl(0x0a)]); // Ctrl+J
    assert_eq!(d.feed(b"\x1b[103;5u"), vec![Key::Ctrl(0x07)]); // Ctrl+G
    assert_eq!(d.feed(b"\x1b[113;5u"), vec![Key::Ctrl(0x11)]); // Ctrl+Q
    // 下位引数 (イベント種別) が付いていても読める
    assert_eq!(d.feed(b"\x1b[106;5:1u"), vec![Key::Ctrl(0x0a)]);
}

/// C-h は制御キーのまま切り出す。backspace として扱うかは設定が決める。
///
/// ここを `Key::Backspace` に潰していると、押されたのが `0x08` だったのか
/// `0x7f` だったのかが分からなくなる。
#[test]
fn ctrl_h_stays_a_control_key() {
    let mut d = decoder();
    assert_eq!(d.feed(b"\x08"), vec![Key::Ctrl(0x08)]);
    assert_eq!(d.feed(b"\x7f"), vec![Key::Backspace]);
}

/// **拡張鍵盤プロトコルの下でも C-h が届くこと。**
///
/// `keys.backspace` に挙がっていないと `CSI 104;5u` が素通しされ、▽ の途中で
/// 押したときに見出し語がそこで確定してしまう (消すどころか出てしまう)。
#[test]
fn decodes_kitty_ctrl_h() {
    let mut d = decoder();
    assert_eq!(d.feed(b"\x1b[104;5u"), vec![Key::Ctrl(0x08)]);
}

/// 復号の対象は設定から作る。割り当てを変えたらそちらが復号される。
#[test]
fn follows_the_configured_bindings() {
    let cfg = Config::parse("[keys]\nhankaku_katakana = \"C-o\"\n").unwrap();
    let mut d = Decoder::new(&cfg);
    assert_eq!(d.feed(b"\x1b[111;5u"), vec![Key::Ctrl(0x0f)]); // Ctrl+O
    // 割り当てを外された Ctrl+Q は元の形のまま子へ渡る
    assert_eq!(
        d.feed(b"\x1b[113;5u"),
        vec![Key::Raw(b"\x1b[113;5u".to_vec())]
    );
    // 動いている最中の差し替えにも追従する
    d.set_config(&Config::default());
    assert_eq!(d.feed(b"\x1b[113;5u"), vec![Key::Ctrl(0x11)]);
}

#[test]
fn decodes_modify_other_keys() {
    let mut d = decoder();
    assert_eq!(d.feed(b"\x1b[27;5;106~"), vec![Key::Ctrl(0x0a)]);
}

/// 割り当ての無いキーは元の形のまま子へ渡す。
///
/// `Ctrl+C` は `ascii_keys` に入っているが、あれは子アプリのキーへの便乗なので
/// 形を変えない。素の `0x03` に直すと、`Ctrl+C` で入力欄を
/// 空にするアプリで押した内容が消える。
#[test]
fn other_extended_keys_pass_through() {
    let mut d = decoder();
    for seq in [
        &b"\x1b[99;5u"[..],  // Ctrl+C (ascii_keys)
        &b"\x1b[122;5u"[..], // Ctrl+Z
        &b"\x1b[119;5u"[..], // Ctrl+W
        &b"\x1b[106;1u"[..], // 修飾なしの J
        &b"\x1b[13;5u"[..],  // Ctrl+Enter
    ] {
        assert_eq!(d.feed(seq), vec![Key::Raw(seq.to_vec())], "{seq:?}");
    }
}

/// Shift+Tab は名前のあるキーとして切り出す (端末は `CSI Z` として送る)。
///
/// 設定に端末のバイト列が現れないので、GUI の入力メソッドからも同じキーを作れる。
#[test]
fn shift_tab_is_a_named_key() {
    let mut d = decoder();
    assert_eq!(d.feed(&SHIFT_TAB), vec![Key::ShiftTab]);
    // 拡張鍵盤プロトコルの下でも同じキーになる (Ctrl 付きと同じ扱い)
    assert_eq!(d.feed(b"\x1b[9;2u"), vec![Key::ShiftTab]);
    assert_eq!(d.feed(b"\x1b[27;2;9~"), vec![Key::ShiftTab]);
    // 修飾なしの Tab は素の 0x09 で届くので、こちらは Tab のまま
    assert_eq!(d.feed(b"\x09"), vec![Key::Tab]);
}

/// 割り当てが外れていれば Shift+Tab も復号しない。
#[test]
fn shift_tab_follows_the_bindings() {
    let cfg = Config::parse("[keys]\ncomplete_previous = \"C-p\"\n").unwrap();
    let mut d = Decoder::new(&cfg);
    assert_eq!(d.feed(b"\x1b[9;2u"), vec![Key::Raw(b"\x1b[9;2u".to_vec())]);
    assert_eq!(d.feed(b"\x1b[112;5u"), vec![Key::Ctrl(0x10)]);
    // 素の CSI Z は端末の Shift+Tab そのものなので、割り当てに関わらず名前が付く
    assert_eq!(d.feed(&SHIFT_TAB), vec![Key::ShiftTab]);
}

/// 貼り付けは打鍵ではないので、中身を一つのキーにまとめる。
#[test]
fn bracketed_paste_becomes_one_key() {
    let mut d = decoder();
    assert_eq!(
        d.feed(b"\x1b[200~hello, world\x1b[201~"),
        vec![Key::Paste(b"hello, world".to_vec())]
    );
}

/// 中身は一切解釈しない。矢印でもモード切り替えのキーでも、そのまま溜める。
#[test]
fn paste_content_is_never_interpreted() {
    let mut d = decoder();
    assert_eq!(
        d.feed(b"\x1b[200~l\x1b[A\x0aq\x1b[201~"),
        vec![Key::Paste(b"l\x1b[A\x0aq".to_vec())]
    );
}

/// 大きな貼り付けは読み込みの境界で切れる。囲みの列そのものが切れることもある。
#[test]
fn split_paste_is_carried_over() {
    let mut d = decoder();
    assert_eq!(d.feed(b"\x1b[200~hel"), vec![]);
    assert_eq!(d.feed(b"lo"), vec![]);
    // 終わりの列の途中で切れても、前半を中身と取り違えない
    assert_eq!(d.feed(b"\x1b[20"), vec![]);
    assert_eq!(d.feed(b"1~"), vec![Key::Paste(b"hello".to_vec())]);

    // 開始の列が切れる場合も同じ
    assert_eq!(d.feed(b"\x1b[2"), vec![]);
    assert_eq!(d.feed(b"00~ab\x1b[201~"), vec![Key::Paste(b"ab".to_vec())]);
}

/// 日本語を含む長い貼り付けが読み込みの境界で切れても、中身は一バイトも変わらない。
///
/// 標準入力は 4096 バイトずつ読む。かなは 3 バイトなので境界はほぼ必ず文字の
/// 途中に落ちる。そこで一バイトでも落とすと、受け取った側で置換文字 (U+FFFD)
/// になる。**あらゆる境界で切って**中身が変わらないことを見張る。
#[test]
fn split_paste_keeps_multibyte_bytes_intact() {
    let body = "ただ一点、私の計算違いでしたら申し訳ないのですが、".repeat(60);
    let want = vec![Key::Paste(body.as_bytes().to_vec())];
    let mut input = PASTE_START.to_vec();
    input.extend_from_slice(body.as_bytes());
    input.extend_from_slice(&PASTE_END);

    // 実際の読み込み単位で切る
    let mut d = decoder();
    let mut keys = Vec::new();
    for chunk in input.chunks(4096) {
        keys.extend(d.feed(chunk));
    }
    assert_eq!(keys, want, "4096 バイトずつ");

    // 境界を一バイトずつずらして二つに切る。囲みの列そのものが切れる場合は
    // split_paste_is_carried_over が見ているので、中身の途中だけを試す。
    for at in PASTE_START.len()..input.len() - PASTE_END.len() {
        let mut d = decoder();
        let mut keys = d.feed(&input[..at]);
        keys.extend(d.feed(&input[at..]));
        assert!(
            keys == want,
            "境界 {at} で中身が変わった: キー {} 個",
            keys.len()
        );
    }
}

/// 貼り付けの前後に打鍵が続いていても取りこぼさない。
#[test]
fn keys_around_a_paste_survive() {
    let mut d = decoder();
    assert_eq!(
        d.feed(b"a\x1b[200~xy\x1b[201~b"),
        vec![Key::Char('a'), Key::Paste(b"xy".to_vec()), Key::Char('b'),]
    );
}

/// 終わりの列が来ないまま溜まり続けたら、囲みごと素通しに切り替える。
#[test]
fn a_paste_without_an_end_gives_up() {
    let mut d = decoder();
    let big = vec![b'x'; MAX_PASTE + 1];
    let mut input = PASTE_START.to_vec();
    input.extend_from_slice(&big);
    let keys = d.feed(&input);
    assert_eq!(keys.len(), 1);
    match &keys[0] {
        Key::Raw(v) => {
            assert!(v.starts_with(&PASTE_START));
            assert_eq!(v.len(), PASTE_START.len() + big.len());
        }
        other => panic!("素通しになるはず: {other:?}"),
    }
    // 諦めたあとは普通の打鍵に戻る
    assert_eq!(d.feed(b"a"), vec![Key::Char('a')]);
}

#[test]
fn finds_cursor_report() {
    let (pos, rest) = take_cursor_report(b"\x1b[12;34R").unwrap();
    assert_eq!(pos, (11, 33));
    assert!(rest.is_empty());
}

#[test]
fn keeps_typeahead_around_the_report() {
    let (pos, rest) = take_cursor_report(b"ab\x1b[5;1Rcd").unwrap();
    assert_eq!(pos, (4, 0));
    assert_eq!(rest, b"abcd");
}

#[test]
fn skips_other_sequences() {
    // 先走って押された矢印キーを報告と取り違えない
    let (pos, rest) = take_cursor_report(b"\x1b[A\x1b[7;2R").unwrap();
    assert_eq!(pos, (6, 1));
    assert_eq!(rest, b"\x1b[A");
}

#[test]
fn no_report_present() {
    assert!(take_cursor_report(b"\x1b[Ahello").is_none());
    assert!(take_cursor_report(b"\x1b[12;").is_none());
}

#[test]
fn tracker_detects_complete_output() {
    let mut t = SeqTracker::new();
    assert!(!t.feed(b"hello"));
    assert!(!t.feed(b"\x1b[31mred\x1b[0m"));
    assert!(!t.feed("日本語".as_bytes()));
}

#[test]
fn tracker_detects_split_csi() {
    let mut t = SeqTracker::new();
    assert!(t.feed(b"abc\x1b[3"));
    assert!(!t.feed(b"1m"));
}

#[test]
fn tracker_carries_over_lone_escape() {
    let mut t = SeqTracker::new();
    assert!(t.feed(b"\x1b"));
    assert!(t.feed(b"[31"));
    assert!(!t.feed(b"m"));
}

#[test]
fn tracker_handles_osc() {
    let mut t = SeqTracker::new();
    assert!(t.feed(b"\x1b]0;title"));
    assert!(!t.feed(b"\x07"));
    assert!(!t.feed(b"\x1b]0;title\x1b\\"));
}

#[test]
fn tracker_detects_split_utf8() {
    let mut t = SeqTracker::new();
    let bytes = "あ".as_bytes();
    assert!(t.feed(&bytes[..2]));
    assert!(!t.feed(&bytes[2..]));
}

#[test]
fn a_reading_may_be_cut_anywhere_but_after_an_escape() {
    let input = b"ab\x1b[A\xe3\x81\x82\x1b[200~x\x1b[Ay\x1b[201~\x1bOP\x1b]0;t\x07z";
    let mut whole = decoder();
    let want = whole.feed(input);
    for at in 0..=input.len() {
        if at > 0 && input[at - 1] == 0x1b {
            continue;
        }
        let mut d = decoder();
        let mut keys = d.feed(&input[..at]);
        keys.extend(d.feed(&input[at..]));
        assert_eq!(keys, want, "cut at {at}");
    }
}

#[test]
fn broken_bytes_go_through_as_they_are() {
    let mut d = decoder();
    assert_eq!(d.feed(b"\xff"), vec![Key::Raw(vec![0xff])]);
    assert_eq!(
        d.feed(b"\xe3AB"),
        vec![Key::Raw(vec![0xe3, b'A', b'B'])]
    );
    assert_eq!(d.feed(b"\x1bx"), vec![Key::Raw(b"\x1bx".to_vec())]);
}

#[test]
fn a_report_may_have_a_mark_and_any_size() {
    let (pos, rest) = take_cursor_report(b"\x1b[?3;4R").unwrap();
    assert_eq!(pos, (2, 3));
    assert!(rest.is_empty());
    let (pos, _) = take_cursor_report(b"\x1b[0;99999999999999999999999R").unwrap();
    assert_eq!(pos, (0, usize::MAX - 1));
    assert!(take_cursor_report(b"\x1b[;4R").is_none());
    assert!(take_cursor_report(b"\x1b[4R").is_none());
}

#[test]
fn a_number_too_large_is_no_extended_key() {
    let mut d = decoder();
    let seq = b"\x1b[106;4294967301u";
    assert_eq!(d.feed(seq), vec![Key::Raw(seq.to_vec())]);
    assert_eq!(d.feed(b"\x1b[+106;+5u"), vec![Key::Ctrl(0x0a)]);
}

#[test]
fn output_may_be_cut_anywhere() {
    let out = "a\x1b[31mあ\x1b]0;t\x1b\\b\x1b(B".as_bytes();
    for at in 0..=out.len() {
        let mut two = SeqTracker::new();
        two.feed(&out[..at]);
        let mut one = SeqTracker::new();
        assert_eq!(two.feed(&out[at..]), one.feed(out), "cut at {at}");
    }
}

/// 何度に分けて届いても、貼り付けは一つ。
#[test]
fn a_paste_in_many_pieces_is_one_key() {
    let sent = b"\x1b[200~ab\x1b[A\xe3\x81\x82\x1b[201~";
    for size in 2..sent.len() {
        let mut d = decoder();
        let mut keys = Vec::new();
        for piece in sent.chunks(size) {
            keys.extend(d.feed(piece));
        }
        assert_eq!(keys, vec![Key::Paste(b"ab\x1b[A\xe3\x81\x82".to_vec())], "{size}");
    }
}

/// 割り当てのあるキーも、普通の形で届けば元のバイト列に戻る。
#[test]
fn bound_keys_in_plain_form_are_kept() {
    let sent: &[u8] = b"a\x0a\x07\x1b[A\x1b[122;5uq\x7f\x1b[200~x\x1b[106;5u\x1b[201~";
    let keys = decoder().feed(sent);
    let back: Vec<u8> = keys.iter().flat_map(ttyskk::key::raw_bytes).collect();
    assert_eq!(back, sent);
    assert_eq!(decoder().feed(b"\x1b[106;5u"), vec![Key::Ctrl(0x0a)]);
}
