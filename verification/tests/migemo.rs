use ttyskk::dict::{Dict, Stamp};
use ttyskk::migemo::{
    build, emit, flavour, headwords, readings, rg, source, vim, Headwords, Index, Node, Rxop,
    SourceFile, DEFAULT_LIMIT,
};

fn dict(entries: &[(&str, &str)]) -> Dict {
    let mut body = String::from(";; okuri-nasi entries.\n");
    for (k, v) in entries {
        body.push_str(&format!("{k} {v}\n"));
    }
    Dict::load(&vec![body.into_bytes()], None, None, None)
}

fn nothing_learned() -> Dict {
    Dict::load(&vec![], None, None, None)
}

fn source_file(secs: u64, len: u64) -> SourceFile {
    (
        "/usr/share/skk/SKK-JISYO.L".to_string(),
        Some(Stamp {
            secs,
            nanos: 0,
            len,
        }),
    )
}

/// 木に入れて正規表現にする。辞書を通さずに形だけ見る。
fn compress(cands: &[&str], rx: &Rxop) -> String {
    let mut root = Node::default();
    for c in cands {
        root.insert(c);
    }
    emit(&root, rx)
}

/// 共通の接頭辞をまとめる。
#[test]
fn a_shared_prefix_is_folded() {
    // 一字で分かれるならクラス
    assert_eq!(compress(&["海技", "海魚"], &rg()), "海[技魚]");
    // 長さが違えば群
    assert_eq!(compress(&["買玉", "買い玉"], &rg()), "買(?:玉|い玉)");
    // クラスと群が混ざる時はクラスが先
    assert_eq!(
        compress(&["怪訝", "怪魚", "怪現象"], &rg()),
        "怪(?:[訝魚]|現象)"
    );
    // 分かれ道が無ければ何も足さない
    assert_eq!(compress(&["会議"], &rg()), "会議");
}

/// 短い候補があれば、それで始まる長い候補は要らない。
#[test]
fn a_longer_candidate_under_a_shorter_one_is_dropped() {
    // どちらの順で入れても同じ
    assert_eq!(compress(&["ノート", "ノートPC"], &rg()), "ノート");
    assert_eq!(compress(&["ノートPC", "ノート"], &rg()), "ノート");
}

/// 方言で群と or の書き方が変わる。
#[test]
fn both_flavours_come_out() {
    let d = dict(&[("かいぎ", "/会議/")]);
    assert_eq!(
        build("kaigi", &rg(), &d, DEFAULT_LIMIT, false),
        "(?:kaigi|かいぎ|カイギ|会議|ｋａｉｇｉ|ｶｲｷﾞ)"
    );
    assert_eq!(
        build("kaigi", &vim(), &d, DEFAULT_LIMIT, false),
        r"\m\%(kaigi\|かいぎ\|カイギ\|会議\|ｋａｉｇｉ\|ｶｲｷﾞ\)"
    );
}

/// 特別な意味を持つ文字は方言ごとに逃がす。
#[test]
fn special_characters_are_escaped_per_flavour() {
    // `-` は rg では特別、vim では特別でない
    assert_eq!(compress(&["-", "…"], &rg()), r"[\-…]");
    assert_eq!(compress(&["-", "…"], &vim()), "[-…]");
    // `.` はどちらでも逃がす
    assert_eq!(compress(&["Ｎ.Ｙ."], &rg()), r"Ｎ\.Ｙ\.");
    assert_eq!(compress(&["Ｎ.Ｙ."], &vim()), r"Ｎ\.Ｙ\.");
}

/// 読みは打った綴りから作る。大小は保たない。
#[test]
fn a_reading_comes_from_the_spelling() {
    assert_eq!(readings("kaigi", false), vec!["かいぎ"]);
    assert_eq!(readings("Kaigi", false), vec!["かいぎ"]);
    // nn は ん (自前で書き直さない)
    assert_eq!(readings("shinnyuu", false), vec!["しんゆう"]);
    // かなにならない部分は字面で残る
    assert_eq!(readings("2026", false), vec!["2026"]);
}

/// 半端な綴りは、続きうるかなに広げる。
#[test]
fn a_half_finished_spelling_expands() {
    assert_eq!(
        readings("kaig", false),
        vec!["かいが", "かいぎ", "かいぐ", "かいげ", "かいご", "かいっ"]
    );
    // 促音を挟んだ半端な綴りも同じ道を通る
    assert_eq!(readings("ttyskk", false)[0], "っtysっか");
}

/// 空白は語の区切りで、群が並ぶ。
#[test]
fn a_space_separates_words() {
    let d = dict(&[("かいぎ", "/会議/"), ("ろく", "/録/")]);
    // 一字で終わる候補 (録) はクラスの側に回るので先に出る
    assert_eq!(
        build("kaigi roku", &rg(), &d, DEFAULT_LIMIT, false),
        "(?:kaigi|かいぎ|カイギ|会議|ｋａｉｇｉ|ｶｲｷﾞ)(?:録|roku|ろく|ロク|ｒｏｋｕ|ﾛｸ)"
    );
}

/// 読みぴったりだけでなく、その読みで始まる見出し語も引く。
#[test]
fn headwords_starting_with_the_reading_are_included() {
    let d = dict(&[
        ("かいぎ", "/会議/"),
        ("かいぎょう", "/開業/改行/"),
        ("かいご", "/介護/"),
    ]);
    let rx = build("kaigi", &rg(), &d, DEFAULT_LIMIT, false);
    for want in ["会議", "開業", "改行"] {
        assert!(rx.contains(want), "{want} が {rx} に無い");
    }
    assert!(!rx.contains("介護"), "読みが違うものは入らない");
}

/// 数値変換の見出しは、そのままでは文字列として当たらないので外す。
#[test]
fn numeric_entries_are_left_out() {
    let d = dict(&[("だい#", "/第#0/"), ("だい", "/台/")]);
    let rx = build("dai", &rg(), &d, DEFAULT_LIMIT, false);
    assert!(rx.contains('台'));
    assert!(!rx.contains('#'), "{rx} に # が残っている");
}

/// 上限を超えたら見出し語を切る。かなや全角英数は上限に関わらず残す。
#[test]
fn the_limit_cuts_only_the_headwords() {
    let many: String = (0..50).map(|i| format!("/語{i}/")).collect();
    let d = dict(&[("あ", &many)]);
    assert_eq!(headwords("a", &vec!["あ".to_string()], &d, 3).len(), 3);

    let rx = build("a", &rg(), &d, 3, false);
    assert!(rx.contains("語[012]"), "{rx}");
    for want in ["a", "あ", "ア", "ｱ", "ａ"] {
        assert!(rx.contains(want), "{want} が {rx} に無い");
    }
}

/// 索引を通しても、辞書をそのまま読んだ時と同じものが出る。
#[test]
fn the_index_gives_the_same_answer() {
    let entries: &[(&str, &str)] = &[
        ("かいぎ", "/会議/回議/"),
        ("かいぎょう", "/開業/改行/"),
        ("かいご", "/介護/"),
        ("だい#", "/第#0/"),
        ("a", "/エー/エイ/"),
    ];
    let d = dict(entries);
    let sources = vec![source_file(1, 100)];
    let text = Index::build(&d, &sources);
    let ix = Index::load(&text, &sources, nothing_learned()).expect("索引を読めた");

    for q in ["kaigi", "kaig", "a", "dai", "nihongo"] {
        assert_eq!(
            build(q, &rg(), &ix, DEFAULT_LIMIT, false),
            build(q, &rg(), &d, DEFAULT_LIMIT, false),
            "{q} で食い違う"
        );
    }
}

/// 元の辞書が入れ替わったら、その索引は使わない。
#[test]
fn a_stale_index_is_not_used() {
    let d = dict(&[("かいぎ", "/会議/")]);
    let sources = vec![source_file(1, 100)];
    let text = Index::build(&d, &sources);
    assert!(
        Index::load(&text, &sources, nothing_learned()).is_some(),
        "作った直後は使える"
    );

    // 元の辞書を書き換える (大きさが変わる)
    let changed = vec![source_file(1, 107)];
    assert!(
        Index::load(&text, &changed, nothing_learned()).is_none(),
        "入れ替わった辞書の索引は使わない"
    );

    // 無い索引も誤りではない
    assert!(source(&sources, None, nothing_learned()).unwrap().is_none());
}

/// 辞書に無い語でも、字面とかなの分は必ず出る。
#[test]
fn an_unknown_word_still_yields_the_kana() {
    let d = dict(&[]);
    assert_eq!(
        build("nihongo", &rg(), &d, DEFAULT_LIMIT, false),
        "(?:nihongo|にほんご|ニホンゴ|ｎｉｈｏｎｇｏ|ﾆﾎﾝｺﾞ)"
    );
}

#[test]
fn a_table_is_written_by_reading() {
    let d = dict(&[("かいぎ", "/会議;会う/回議/"), ("あい", "/愛/"), ("だい#", "/第#0/"), ("うごk", "/動/")]);
    let sources = vec![source_file(7, 9), ("/nowhere".to_string(), None)];
    let text = Index::build(&d, &sources);
    let mut lines = text.lines();
    assert_eq!(
        lines.next().unwrap(),
        "ttyskk-migemo-index\t1\t/usr/share/skk/SKK-JISYO.L:7:9\t/nowhere:0:0"
    );
    let rest: Vec<&str> = lines.collect();
    assert!(rest.contains(&"あい\t愛"));
    assert!(rest.contains(&"かいぎ\t会議\t回議"));
    assert!(!text.contains('#') && !text.contains("うごk"));
    let mut sorted = rest.clone();
    sorted.sort();
    assert_eq!(rest, sorted);
    let ix = Index::load(&text, &sources, nothing_learned()).unwrap();
    assert_eq!(Headwords::lookup(&ix, "かいぎ"), ["会議", "回議"]);
    assert_eq!(Headwords::complete(&ix, "か", 10), ["かいぎ"]);
    assert!(Headwords::lookup(&ix, "かい").is_empty());
}

#[test]
fn without_a_shared_dictionary_there_is_nothing_to_look_in() {
    let sources = vec![("/a".to_string(), None), ("/b".to_string(), None)];
    assert_eq!(
        source(&sources, None, nothing_learned()).err().unwrap(),
        "共有辞書が無い (/a, /b)。TTYSKK_JISYO で場所を指せる"
    );
}

#[test]
fn dialects_have_names() {
    assert_eq!(flavour("vim").unwrap().prefix, "\\m");
    assert_eq!(flavour("rg").unwrap().or, "|");
    assert!(flavour("perl").is_none());
}

#[test]
fn capital_letters_are_read_as_small_ones() {
    let d = dict(&[("note", "/ノート/")]);
    let rx = build("NOTE", &rg(), &d, DEFAULT_LIMIT, false);
    assert!(rx.contains("NOTE") && rx.contains("ノ(?:テ|ート)"), "{rx}");
}

#[test]
fn readings_share_the_limit() {
    let d = dict(&[("かが", "/加賀/花芽/"), ("かぎ", "/鍵/鉤/"), ("かぐ", "/家具/")]);
    let rs = readings("kag", false);
    assert_eq!(rs.len(), 6);
    let words = headwords("kag", &rs, &d, 6);
    assert_eq!(words, ["加賀", "花芽", "鍵", "鉤", "家具"]);
    assert_eq!(headwords("kag", &rs, &d, 2), ["加賀", "花芽"]);
    assert!(headwords("kag", &vec![], &d, 2).is_empty());
}

/// 数字だけの見出し語も、索引を通して同じように引ける。
#[test]
fn readings_of_digits_are_found_by_their_beginning() {
    let d = dict(&[("24", "/二四/"), ("2", "/二/"), ("c9x", "/無/"), ("24h", "/終日/")]);
    let sources = vec![source_file(1, 100)];
    let text = Index::build(&d, &sources);
    let ix = Index::load(&text, &sources, nothing_learned()).unwrap();
    for q in ["2", "24", "c", "c1", "maru", "24h"] {
        assert_eq!(
            build(q, &rg(), &ix, DEFAULT_LIMIT, false),
            build(q, &rg(), &d, DEFAULT_LIMIT, false),
            "{q} で食い違う"
        );
    }
    assert_eq!(Headwords::complete(&ix, "2", 10), ["24"]);
    assert!(build("2", &rg(), &ix, DEFAULT_LIMIT, false).contains("二"));
}
