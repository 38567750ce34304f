//! Numbers inside a reading.
use ttyskk::num::{abstract_numbers, expand};

fn nums(v: &[&str]) -> Vec<String> {
    v.iter().map(|s| s.to_string()).collect()
}

#[test]
fn pulls_the_numbers_out_of_the_reading() {
    assert_eq!(
        abstract_numbers("だい5かい"),
        ("だい#かい".into(), nums(&["5"]))
    );
    assert_eq!(
        abstract_numbers("3かい2ばん"),
        ("#かい#ばん".into(), nums(&["3", "2"]))
    );
    assert_eq!(abstract_numbers("1234"), ("#".into(), nums(&["1234"])));
    assert_eq!(abstract_numbers("かんじ"), ("かんじ".into(), vec![]));
}

#[test]
fn converts_each_type() {
    let n = nums(&["1234"]);
    assert_eq!(expand("#0", &n), "1234");
    assert_eq!(expand("#1", &n), "１２３４");
    assert_eq!(expand("#2", &n), "一二三四");
    assert_eq!(expand("#3", &n), "千二百三十四");
    assert_eq!(expand("#5", &n), "壱阡弐百参拾四");
    assert_eq!(expand("#8", &n), "1,234");
    assert_eq!(expand("#4", &n), "1234");
}

#[test]
fn positional_handles_the_awkward_places() {
    let t = |s: &str| expand("#3", &nums(&[s]));
    assert_eq!(t("1"), "一");
    assert_eq!(t("10"), "十", "位の頭の一は省く");
    assert_eq!(t("11"), "十一");
    assert_eq!(t("100"), "百");
    assert_eq!(t("1000"), "千");
    assert_eq!(t("10000"), "一万", "万の前の一は残す");
    assert_eq!(t("100000000"), "一億");
    assert_eq!(t("10001"), "一万一");
    assert_eq!(t("1020304"), "百二万三百四");
    assert_eq!(t("0"), "〇");
    assert_eq!(t("007"), "七", "先頭の零は落とす");
    assert_eq!(expand("#5", &nums(&["10"])), "壱拾");
}

#[test]
fn substitutes_in_order_and_leaves_the_rest() {
    assert_eq!(expand("#1かい#2ばん", &nums(&["3", "5"])), "３かい五ばん");
    assert_eq!(expand("#1と#1", &nums(&["3"])), "３と#1");
    assert_eq!(expand("C#と#1", &nums(&["3"])), "C#と３");
    assert_eq!(expand("第#1回", &vec![]), "第#1回");
}

#[test]
fn shogi_and_grouping() {
    assert_eq!(expand("#9", &nums(&["34"])), "３四");
    assert_eq!(expand("#9", &nums(&["345"])), "345", "2 桁以外はそのまま");
    assert_eq!(expand("#8", &nums(&["1234567"])), "1,234,567");
    assert_eq!(expand("#8", &nums(&["123"])), "123");
}
