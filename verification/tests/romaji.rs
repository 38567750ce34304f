//! Romaji to kana.
use ttyskk::romaji::{
    to_hankaku_katakana, to_hiragana, to_katakana, Kutouten, Romaji,
};

fn typed(r: &mut Romaji, s: &str) -> String {
    s.chars().map(|c| r.feed(c)).collect()
}

fn azik() -> Romaji {
    let mut r = Romaji::new();
    r.set_azik(true);
    r
}

#[test]
fn azik_expands_the_syllabic_n() {
    let mut r = azik();
    assert_eq!(typed(&mut r, "kz"), "かん");
    assert_eq!(typed(&mut r, "kk"), "きん");
    assert_eq!(typed(&mut r, "kj"), "くん");
    assert_eq!(typed(&mut r, "kd"), "けん");
    assert_eq!(typed(&mut r, "kl"), "こん");
    assert_eq!(typed(&mut r, "gz"), "がん");
    assert_eq!(typed(&mut r, "kyz"), "きゃん");
    assert_eq!(typed(&mut r, "xz"), "しゃん");
    assert_eq!(typed(&mut r, "cz"), "ちゃん");
}

#[test]
fn azik_expands_the_double_vowels() {
    let mut r = azik();
    assert_eq!(typed(&mut r, "sq"), "さい");
    assert_eq!(typed(&mut r, "kh"), "くう");
    assert_eq!(typed(&mut r, "sw"), "せい");
    assert_eq!(typed(&mut r, "kp"), "こう");
}

#[test]
fn azik_leaves_the_bare_vowels_alone() {
    let mut r = azik();
    assert_eq!(typed(&mut r, "ai"), "あい");
    assert_eq!(typed(&mut r, "aq"), "あん");
    assert_eq!(typed(&mut r, "oq"), "おん");
}

#[test]
fn azik_single_strokes() {
    let mut r = azik();
    assert_eq!(typed(&mut r, "a;ka:"), "あっかー");
    assert_eq!(typed(&mut r, "q"), "ん");
    assert_eq!(typed(&mut r, "nn"), "ん");
}

#[test]
fn azik_sya_and_tya_move_to_x_and_c() {
    let mut r = azik();
    assert_eq!(typed(&mut r, "xa"), "しゃ");
    assert_eq!(typed(&mut r, "xu"), "しゅ");
    assert_eq!(typed(&mut r, "xo"), "しょ");
    assert_eq!(typed(&mut r, "ca"), "ちゃ");
    assert_eq!(typed(&mut r, "cu"), "ちゅ");
    assert_eq!(typed(&mut r, "co"), "ちょ");
    assert_eq!(typed(&mut r, "sh"), "すう");
    assert_eq!(typed(&mut r, "ch"), "ちゅう");
}

#[test]
fn azik_small_kana_with_l() {
    let mut r = azik();
    assert_eq!(typed(&mut r, "la"), "ぁ");
    assert_eq!(typed(&mut r, "lyo"), "ょ");
    assert_eq!(typed(&mut r, "kulwa"), "くゎ");
}

#[test]
fn azik_youon_with_g() {
    let mut r = azik();
    assert_eq!(typed(&mut r, "kga"), "きゃ");
    assert_eq!(typed(&mut r, "kgp"), "きょう");
    assert_eq!(typed(&mut r, "ngz"), "にゃん");
    assert_eq!(typed(&mut r, "ga"), "が");
}

#[test]
fn azik_ann_with_n() {
    let mut r = azik();
    assert_eq!(typed(&mut r, "sn"), "さん");
    assert_eq!(typed(&mut r, "dn"), "だん");
    assert_eq!(typed(&mut r, "tn"), "たん");
}

#[test]
fn azik_same_finger_keys() {
    let mut r = azik();
    assert_eq!(typed(&mut r, "kf"), "き");
    assert_eq!(typed(&mut r, "mf"), "む");
    assert_eq!(typed(&mut r, "pf"), "ぽん");
}

#[test]
fn azik_special_words() {
    let mut r = azik();
    assert_eq!(typed(&mut r, "kt"), "こと");
    assert_eq!(typed(&mut r, "ds"), "です");
    assert_eq!(typed(&mut r, "mn"), "もの");
    assert_eq!(typed(&mut r, "sr"), "する");
}

#[test]
fn azik_loanword_spellings() {
    let mut r = azik();
    assert_eq!(typed(&mut r, "tgi"), "てぃ");
    assert_eq!(typed(&mut r, "dci"), "でぃ");
    assert_eq!(typed(&mut r, "wso"), "うぉ");
    assert_eq!(typed(&mut r, "wp"), "うぉー");
}

#[test]
fn azik_keeps_the_standard_spellings() {
    let mut r = azik();
    assert_eq!(typed(&mut r, "konnnitiha"), "こんにちは");
    assert_eq!(typed(&mut r, "kyou"), "きょう");
    assert_eq!(typed(&mut r, "si"), "し");
    assert_eq!(typed(&mut r, "ti"), "ち");
    assert_eq!(typed(&mut r, "tt"), "たち");
    assert_eq!(typed(&mut r, ";ta"), "った");
}

#[test]
fn azik_is_off_by_default() {
    let mut r = Romaji::new();
    assert_eq!(typed(&mut r, "kz"), "k");
    assert_eq!(r.pending(), "z");
}

#[test]
fn kutouten_follows_the_setting() {
    for (k, want) in [
        (Kutouten::Jp, "あ。い、"),
        (Kutouten::En, "あ．い，"),
        (Kutouten::JpEn, "あ。い，"),
        (Kutouten::EnJp, "あ．い、"),
    ] {
        let mut r = Romaji::new();
        r.set_kutouten(k);
        assert_eq!(typed(&mut r, "a.i,"), want, "{k:?}");
    }
}

#[test]
fn kutouten_leaves_other_symbols_alone() {
    let mut r = Romaji::new();
    r.set_kutouten(Kutouten::En);
    assert_eq!(typed(&mut r, "z.z,"), "…‥");
}

#[test]
fn kutouten_applies_to_a_flushed_n() {
    let mut r = Romaji::new();
    r.set_kutouten(Kutouten::En);
    assert_eq!(typed(&mut r, "n."), "ん．");
}

#[test]
fn hankaku_katakana() {
    assert_eq!(to_hankaku_katakana("にほんご"), "ﾆﾎﾝｺﾞ");
    assert_eq!(to_hankaku_katakana("パソコン"), "ﾊﾟｿｺﾝ");
    assert_eq!(to_hankaku_katakana("が").chars().count(), 2);
    assert_eq!(to_hankaku_katakana("ぱ").chars().count(), 2);
    assert_eq!(to_hankaku_katakana("きゃっと"), "ｷｬｯﾄ");
    assert_eq!(to_hankaku_katakana("コーヒー"), "ｺｰﾋｰ");
    assert_eq!(to_hankaku_katakana("あ、い。"), "ｱ､ｲ｡");
    assert_eq!(to_hankaku_katakana("ヶ月"), "ヶ月");
    assert_eq!(to_hankaku_katakana("abc"), "abc");
}

fn conv(s: &str) -> String {
    let mut r = Romaji::new();
    let mut out = String::new();
    for c in s.chars() {
        out.push_str(&r.feed(c));
    }
    out.push_str(&r.flush());
    out
}

#[test]
fn basic() {
    assert_eq!(conv("aiueo"), "あいうえお");
    assert_eq!(conv("kanji"), "かんじ");
    assert_eq!(conv("nihongo"), "にほんご");
}

#[test]
fn sokuon() {
    assert_eq!(conv("gakkou"), "がっこう");
    assert_eq!(conv("itta"), "いった");
}

#[test]
fn hatsuon() {
    assert_eq!(conv("nn"), "ん");
    assert_eq!(conv("hon"), "ほん");
    assert_eq!(conv("kanpeki"), "かんぺき");
    assert_eq!(conv("tanni"), "たんい");
    assert_eq!(conv("tannni"), "たんに");
}

#[test]
fn youon_and_symbols() {
    assert_eq!(conv("syashin"), "しゃしん");
    assert_eq!(conv("cha-han"), "ちゃーはん");
    assert_eq!(conv("desu."), "です。");
}

#[test]
fn katakana_roundtrip() {
    assert_eq!(to_katakana("あいうえお"), "アイウエオ");
    assert_eq!(to_hiragana("アイウエオ"), "あいうえお");
}
