//! Snippets.
use ttyskk::snippet::{append_template, expand_variables, parse, Now};

#[test]
fn reads_the_vscode_shape() {
    let s = parse(
        r#"{
            "会社住所 (日本語)": {
                "prefix": "かいしゃじゅうしょ",
                "body": ["東京都港区…"],
                "description": "日本語"
            },
            "会社住所 (英語)": {
                "prefix": "かいしゃじゅうしょ",
                "body": "1-2-3 …, Minato-ku, Tokyo",
                "description": "英語"
            }
        }"#,
    )
    .unwrap();
    assert_eq!(s.len(), 2);
    assert!(s.iter().all(|x| x.prefix == "かいしゃじゅうしょ"));
    let notes: Vec<&str> = s.iter().filter_map(|x| x.description.as_deref()).collect();
    assert!(notes.contains(&"日本語") && notes.contains(&"英語"));
}

#[test]
fn joins_the_body_lines_with_newlines() {
    let s =
        parse(r#"{"署名": {"prefix": "しょめい", "body": ["竹内 光明", "株式会社レスカ"]}}"#)
            .unwrap();
    assert_eq!(s[0].body, "竹内 光明\n株式会社レスカ");
    assert_eq!(s[0].description.as_deref(), Some("署名"));
}

#[test]
fn a_snippet_can_have_several_prefixes() {
    let s =
        parse(r#"{"電話": {"prefix": ["でんわ", "tel"], "body": "03-XXXX-XXXX"}}"#).unwrap();
    assert_eq!(s.len(), 2);
    assert_eq!(s[0].prefix, "tel");
    assert_eq!(s[1].prefix, "でんわ");
    assert!(s.iter().all(|x| x.body == "03-XXXX-XXXX"));
}

#[test]
fn allows_comments_and_trailing_commas() {
    let s = parse(
        r#"{
            "電話": {
                "prefix": "でんわ",  /* 見出し語 */
                "body": "03-XXXX-XXXX",
            },
        }"#,
    )
    .unwrap();
    assert_eq!(s.len(), 1);
    assert_eq!(s[0].body, "03-XXXX-XXXX");
}

#[test]
fn a_slash_inside_a_string_is_not_a_comment() {
    let s = parse(r#"{"社": {"prefix": "url", "body": "https://rhesca.co.jp/"}}"#).unwrap();
    assert_eq!(s[0].body, "https://rhesca.co.jp/");
}

#[test]
fn skips_incomplete_entries() {
    let s = parse(
        r#"{
            "書きかけ": {"prefix": "", "body": ""},
            "本文なし": {"prefix": "あ"},
            "使える": {"prefix": "い", "body": "居"}
        }"#,
    )
    .unwrap();
    assert_eq!(s.len(), 1);
    assert_eq!(s[0].prefix, "い");
}

fn now() -> Now {
    Now {
        year: 2026,
        month: 7,
        day: 28,
        hour: 13,
        minute: 5,
        second: 7,
        weekday: 2,
        unix: 1_785_243_907,
    }
}

#[test]
fn expands_the_date_variables() {
    let n = now();
    assert_eq!(expand_variables("$CURRENT_YEAR", &n), "2026");
    assert_eq!(
        expand_variables("${CURRENT_YEAR}-${CURRENT_MONTH}-${CURRENT_DATE}", &n),
        "2026-07-28"
    );
    assert_eq!(
        expand_variables("$CURRENT_HOUR:$CURRENT_MINUTE", &n),
        "13:05"
    );
    assert_eq!(expand_variables("$CURRENT_DAY_NAME_SHORT", &n), "Tue");
    assert_eq!(expand_variables("$CURRENT_MONTH_NAME", &n), "July");
    assert_eq!(expand_variables("$CURRENT_YEAR_SHORT", &n), "26");
}

#[test]
fn leaves_unknown_variables_alone() {
    let n = now();
    assert_eq!(expand_variables("$100 と $200", &n), "$100 と $200");
    assert_eq!(expand_variables("$HOME/bin", &n), "$HOME/bin");
    assert_eq!(expand_variables("${CURRENT_YEAR", &n), "${CURRENT_YEAR");
    assert_eq!(expand_variables("\\$CURRENT_YEAR", &n), "$CURRENT_YEAR");
}

#[test]
fn works_without_a_clock() {
    let n = Now::default();
    assert_eq!(expand_variables("$CURRENT_YEAR", &n), "0000");
    assert_eq!(expand_variables("ふつうの文字列", &n), "ふつうの文字列");
}

#[test]
fn creates_the_first_entry_from_nothing() {
    let (text, line) = append_template("", "でんわ");
    assert_eq!(parse(&text).unwrap().len(), 0);
    assert!(text.contains(r#""prefix": "でんわ""#), "{text}");
    assert_eq!(
        text.lines().nth(line - 1).unwrap().trim(),
        r#""body": [""],"#
    );
}

#[test]
fn appends_after_an_existing_entry() {
    let before = "{\n    \"電話\": {\n        \"prefix\": \"でんわ\",\n        \"body\": \"03\"\n    }\n}\n";
    let (text, line) = append_template(before, "");
    let got = parse(&text).unwrap();
    assert_eq!(got.len(), 1, "元の項目は残る: {text}");
    assert_eq!(got[0].prefix, "でんわ");
    assert_eq!(
        text.lines().nth(line - 1).unwrap().trim(),
        r#""prefix": "","#
    );
}

#[test]
fn does_not_double_the_comma() {
    let before = "{\n    \"電話\": {\n        \"prefix\": \"でんわ\",\n        \"body\": \"03\"\n    },\n}\n";
    let (text, _) = append_template(before, "しょめい");
    assert!(!text.contains(",,"), "{text}");
    assert_eq!(parse(&text).unwrap().len(), 1);
}

#[test]
fn escapes_the_prefix() {
    let (text, _) = append_template("", "a\"b");
    assert!(parse(&text).is_ok(), "{text}");
}

#[test]
fn adding_twice_keeps_both() {
    let (one, _) = append_template("", "でんわ");
    let filled = one.replace(r#""body": [""]"#, r#""body": ["03"]"#);
    let (two, _) = append_template(&filled, "しょめい");
    let two = two.replace(r#""body": [""]"#, r#""body": ["竹内"]"#);

    let got = parse(&two).unwrap();
    assert_eq!(got.len(), 2, "両方残るはず: {two}");
    let prefixes: Vec<&str> = got.iter().map(|s| s.prefix.as_str()).collect();
    assert!(prefixes.contains(&"でんわ") && prefixes.contains(&"しょめい"));

    let (three, _) = append_template(&two, "でんわ");
    let three = three.replace(r#""body": [""]"#, r#""body": ["+81"]"#);
    assert_eq!(parse(&three).unwrap().len(), 3, "{three}");
}

#[test]
fn reports_broken_json() {
    let e = parse(r#"{"壊れ": {"prefix": "あ" "body": "亜"}}"#).unwrap_err();
    assert!(e.message().contains("読めない"), "{}", e.message());
}

/// 最後の項目の後ろに注釈があっても、カンマは注釈の中へ入らない。
#[test]
fn a_comment_after_the_last_entry_does_not_take_the_comma() {
    let entry = "    \"電話\": {\n        \"prefix\": \"でんわ\",\n        \"body\": \"03\"\n    }";
    for behind in [
        " // 会社\n",
        ", // 会社\n",
        " /* 会社 */\n",
        "\n    // 一行目、\n    // 二行目\n",
        ",\n    /* } */ // {\n",
    ] {
        let before = format!("{{\n{entry}{behind}}}\n");
        let was = parse(&before).unwrap();
        assert_eq!(was.len(), 1);
        for (prefix, want) in [("しょめい", r#""body": [""],"#), ("", r#""prefix": "","#)] {
            let (text, line) = append_template(&before, prefix);
            let got = parse(&text).unwrap();
            assert_eq!(got.len(), 1, "{text}");
            assert_eq!(got[0].prefix, was[0].prefix);
            assert_eq!(got[0].body, was[0].body);
            assert_eq!(text.lines().nth(line - 1).unwrap().trim(), want, "{text}");
            let filled = text
                .replace(r#""body": [""]"#, r#""body": ["竹内"]"#)
                .replace(r#""prefix": """#, r#""prefix": "な""#);
            assert_eq!(parse(&filled).unwrap().len(), 2, "{filled}");
        }
    }
}

/// 空の項目を足しても、読める中身は変わらない。
#[test]
fn an_empty_entry_changes_nothing_that_is_read() {
    for before in [
        "{}",
        "{ }\n\n",
        "{ // まだ無い\n}\n",
        "{\"a\": {\"prefix\": \"あ\", \"body\": [\"x, }\", \"]\"]}}",
        "{\"a\": {\"prefix\": [\"あ\", \"い\",], \"body\": \"\\\"{,\",},\t}",
        "{\"a\": {\"prefix\": \"う\", \"body\": \"//\"} /* , */ , // }\n /* { */ }\n // 終わり\n",
        "{\"あ\": {\"prefix\": \"あ\", \"body\": \"亜\"}, \"n\": 1}",
    ] {
        let was = parse(before).unwrap();
        for prefix in ["", "あ", "a\"b\\", "x, }"] {
            let (text, _) = append_template(before, prefix);
            assert_eq!(parse(&text).unwrap(), was, "{text}");
        }
    }
}
