use ttyskk::dict::{
    decode_jisyo, is_okuri_ari, load_into, parse_line, Candidate, Dict, OkuriBlocks, Stamp,
    BUILTIN,
};
use ttyskk::snippet::SnippetError;
use ttyskk::table::Table;

fn loaded(text: &str) -> (Table<Vec<Candidate>>, Table<OkuriBlocks>) {
    let mut map = Table::new(16);
    let mut okuri = Table::new(16);
    load_into(&mut map, &mut okuri, text);
    (map, okuri)
}

fn cand(text: &str) -> Candidate {
    Candidate {
        text: text.to_string(),
        annotation: None,
    }
}

fn bytes(text: &str) -> Vec<u8> {
    text.as_bytes().to_vec()
}

/// A user's file that is held in memory.
struct File {
    bytes: Option<Vec<u8>>,
    turn: u64,
}

impl File {
    fn new(text: Option<&str>) -> File {
        File {
            bytes: text.map(bytes),
            turn: 1,
        }
    }

    fn write(&mut self, text: &str) {
        self.bytes = Some(bytes(text));
        self.turn += 1;
    }

    fn stamp(&self) -> Option<Stamp> {
        self.bytes.as_ref().map(|b| Stamp {
            secs: self.turn,
            nanos: 0,
            len: b.len() as u64,
        })
    }

    fn load(&self, system: &[&str]) -> Dict {
        let files: Vec<Vec<u8>> = system.iter().map(|t| bytes(t)).collect();
        Dict::load(&files, self.bytes.as_ref(), None, self.stamp())
    }

    fn save(&mut self, d: &mut Dict) {
        if let Some(m) = d.save(self.bytes.as_ref(), None) {
            self.write(&m.text());
            d.write_user(m, self.stamp());
        }
    }

    fn text(&self) -> String {
        String::from_utf8(self.bytes.clone().unwrap()).unwrap()
    }
}

fn texts(v: Vec<Candidate>) -> Vec<String> {
    v.into_iter().map(|c| c.text).collect()
}

#[test]
fn builtin_covers_the_circled_numbers() {
    let (m, _) = loaded(BUILTIN);
    assert_eq!(m.len(), 100, "まる1〜50 と c1〜50 の二通り");
    for (key, want) in [
        ("まる1", "①"),
        ("まる20", "⑳"),
        ("まる21", "㉑"),
        ("まる35", "㉟"),
        ("まる36", "㊱"),
        ("まる50", "㊿"),
        ("c1", "①"),
        ("c20", "⑳"),
        ("c21", "㉑"),
        ("c50", "㊿"),
    ] {
        assert_eq!(m.get(key).unwrap()[0].text, want, "{key}");
    }
}

#[test]
fn blank_candidates_are_dropped() {
    // 登録に失敗した跡。共有辞書の正しい候補を覆い隠すので拾わない。
    assert!(parse_line("まる1 / /").is_none());
    assert!(parse_line("あ ///").is_none());
    // 空候補が混じっていても、まともな候補は残る
    let (_, c, _) = parse_line("あ /亜// /唖/").unwrap();
    assert_eq!(
        c.iter().map(|x| x.text.as_str()).collect::<Vec<_>>(),
        ["亜", "唖"]
    );
    // 全角空白は正当な候補
    let (_, c, _) = parse_line("すぺーす /　/").unwrap();
    assert_eq!(c[0].text, "　");
}

#[test]
fn completes_by_prefix() {
    let user = File::new(Some("かんきょう /環境/\nかんぱい /乾杯/\n"));
    let d = user.load(&[
        "かんじ /漢字/\nかんじゃ /患者/\nかんきょう /環境/\nかい /回/\nかんがr /考/\nかん /缶/\n",
    ]);
    // 利用者辞書のものが先、そのあと共有辞書。同じ長さなら辞書順。
    assert_eq!(
        d.complete("かん", 10),
        ["かんぱい", "かんきょう", "かんじ", "かんじゃ"]
    );
    // 送りありの見出し語 (かんがr) は出さない。完全一致 (かん) も出さない。
    assert!(!d.complete("かん", 10).iter().any(|k| k.ends_with('r')));
    assert!(!d.complete("かん", 10).contains(&"かん".to_string()));
    assert_eq!(d.complete("かん", 2).len(), 2, "上限が効く");
    assert!(d.complete("", 10).is_empty());
    assert!(d.complete("ぬ", 10).is_empty());
}

#[test]
fn purge_survives_the_merge_with_disk() {
    let mut file = File::new(Some(
        ";; okuri-ari entries.\n;; okuri-nasi entries.\nかんじ /幹事/漢字/\n",
    ));
    let mut d = file.load(&[]);
    d.purge("かんじ", "幹事");
    assert_eq!(d.lookup("かんじ").len(), 1);
    file.save(&mut d);

    // 読み直しても消えたまま
    let d2 = file.load(&[]);
    assert_eq!(texts(d2.lookup("かんじ")), ["漢字"]);
}

/// 送り仮名ごとの宛先を、覚えて・書き出して・読み直せる。
#[test]
fn okuri_blocks_survive_a_round_trip() {
    // 手を触れていない、別の実装が書いた宛先 (うごk の [き/起/])
    let mut file = File::new(Some(
        ";; okuri-ari entries.\nうごk /動/起/[き/起/]/\n;; okuri-nasi entries.\n",
    ));
    let mut d = file.load(&[]);
    assert_eq!(d.okuri_candidates("うごk", "き"), ["起"], "読める");
    d.learn("おおk", &cand("多"));
    d.learn_okuri("おおk", "く", "多");
    file.save(&mut d);

    let text = file.text();
    assert!(text.contains("おおk /多/[く/多/]/"), "書き出す形: {text}");
    assert!(
        text.contains("うごk /動/起/[き/起/]/"),
        "触っていない宛先を消さない: {text}"
    );

    let d2 = file.load(&[]);
    assert_eq!(d2.okuri_candidates("おおk", "く"), ["多"]);
    assert_eq!(d2.okuri_candidates("うごk", "き"), ["起"]);
    assert!(d2.okuri_candidates("おおk", "き").is_empty());
}

/// 候補を削除したら、送り仮名ごとの宛先からも消える。
#[test]
fn purge_also_clears_the_okuri_blocks() {
    let mut file = File::new(Some(
        ";; okuri-ari entries.\nおおk /多/大/[く/多/]/[き/大/]/\n;; okuri-nasi entries.\n",
    ));
    let mut d = file.load(&[]);
    d.purge("おおk", "多");
    assert!(d.okuri_candidates("おおk", "く").is_empty(), "宛先も消える");
    assert_eq!(d.okuri_candidates("おおk", "き"), ["大"], "他は残る");

    file.save(&mut d);
    let d2 = file.load(&[]);
    assert!(d2.okuri_candidates("おおk", "く").is_empty());
    assert_eq!(d2.okuri_candidates("おおk", "き"), ["大"]);
}

/// CorvusSKK の利用者辞書 (UTF-16LE + BOM、送り仮名ブロック付き) を読める。
#[test]
fn reads_corvusskk_user_dictionary() {
    // UTF-16LE + BOM で書かれた、送り仮名ブロックを含む辞書
    let text = ";; okuri-ari entries.\n\
                おくr /送/[り/送/]/\n\
                ;; okuri-nasi entries.\n\
                かんじ /漢字/幹事/\n";
    let mut bytes = vec![0xff, 0xfe];
    for u in text.encode_utf16() {
        bytes.extend_from_slice(&u.to_le_bytes());
    }
    let decoded = decode_jisyo(&bytes);
    assert_eq!(decoded, text, "UTF-16LE を読める");

    let (map, okuri) = loaded(&decoded);
    // 候補列に `[り` や `]` が紛れ込まない
    let cands: Vec<&str> = map
        .get("おくr")
        .unwrap()
        .iter()
        .map(|c| c.text.as_str())
        .collect();
    assert_eq!(cands, ["送"], "[り/送/] は候補に混ぜない");
    assert_eq!(map.get("かんじ").unwrap().len(), 2);
    // 送り仮名ごとの宛先は宛先として取る (捨てない)
    assert_eq!(*okuri.get("おくr").unwrap().get("り").unwrap(), ["送"]);
    assert!(okuri.get("かんじ").is_none(), "送りなしには付かない");
}

/// 符号化は BOM を信じ、無ければ UTF-8 → EUC-JP の順に試す。
#[test]
fn decodes_the_usual_encodings() {
    assert_eq!(decode_jisyo(&bytes("かんじ /漢字/")), "かんじ /漢字/");
    // BOM 付きの UTF-8
    let mut utf8_bom = vec![0xef, 0xbb, 0xbf];
    utf8_bom.extend_from_slice("あ /亜/".as_bytes());
    assert_eq!(decode_jisyo(&utf8_bom), "あ /亜/");
    // EUC-JP
    let (euc, _, _) = encoding_rs::EUC_JP.encode("あ /亜/");
    assert_eq!(decode_jisyo(&euc.to_vec()), "あ /亜/");
}

#[test]
fn decodes_utf_16_in_either_order() {
    let mut be = vec![0xfe, 0xff];
    for u in "あ /亜/".encode_utf16() {
        be.extend_from_slice(&u.to_be_bytes());
    }
    assert_eq!(decode_jisyo(&be), "あ /亜/");
}

/// 他の実装で溜めた学習を合流させる。
#[test]
fn imports_another_implementations_learning() {
    let mut user = File::new(Some(";; okuri-nasi entries.\nかんじ /漢字/幹事/\n"));
    // 向こうにしかない語と、こちらと順序が違う語
    let other = bytes(
        ";; okuri-ari entries.\nうごk /動/\n;; okuri-nasi entries.\nかんじ /監事/幹事/\nとうきょう /東京/\n",
    );
    let mut d = user.load(&[]);
    let (merged, added) = d.import_user(&other, user.bytes.as_ref(), None);
    assert_eq!(added, 3, "監事・東京・動 の 3 つ");
    user.write(&merged.text());
    d.write_user(merged, user.stamp());

    // こちらの順序は変わらない。向こうにしかないものが後ろに付く
    assert_eq!(texts(d.lookup("かんじ")), ["漢字", "幹事", "監事"]);
    assert_eq!(d.lookup("とうきょう")[0].text, "東京");
    assert_eq!(d.lookup("うごk")[0].text, "動");

    // ディスクにも書けている
    let fresh = user.load(&[]);
    assert_eq!(fresh.lookup("とうきょう")[0].text, "東京");
    assert_eq!(fresh.lookup("うごk")[0].text, "動");
}

/// 別のプロセスが覚えたことを、起動し直さずに取り込む。
#[test]
fn reloads_what_another_process_learned() {
    let mut file = File::new(Some(";; okuri-nasi entries.\nかんじ /漢字/幹事/\n"));
    let mut d = file.load(&[]);
    // こちらは「にほん」を覚えた (まだ書き出していない)
    d.learn("にほん", &cand("日本"));

    // その間に別のプロセスが「かんじ」の並びを変え、「とうきょう」を足した
    file.write(";; okuri-nasi entries.\nかんじ /幹事/漢字/\nとうきょう /東京/\n");

    assert!(
        d.reload_user(file.stamp(), file.bytes.as_ref()),
        "書き換わっていたので読み直す"
    );
    // 向こうの学習が入り
    assert_eq!(d.lookup("かんじ")[0].text, "幹事");
    assert_eq!(d.lookup("とうきょう")[0].text, "東京");
    // こちらの学習も残る
    assert_eq!(d.lookup("にほん")[0].text, "日本");

    // 変わっていなければ読み直さない
    assert!(!d.reload_user(file.stamp(), file.bytes.as_ref()));

    // 自分で保存した直後も読み直しは起きない (目印を更新するため)
    file.save(&mut d);
    assert!(!d.reload_user(file.stamp(), file.bytes.as_ref()));
    // 保存した内容には両方入っている
    let fresh = file.load(&[]);
    assert_eq!(fresh.lookup("にほん")[0].text, "日本");
    assert_eq!(fresh.lookup("とうきょう")[0].text, "東京");
}

/// スニペットは共有辞書より先に出て、確定しても利用者辞書へ写らない。
#[test]
fn snippets_come_before_the_shared_dictionary_and_are_never_learned() {
    let mut user = File::new(None);
    let snip = bytes(
        r#"{"会社の電話": {"prefix": "でんわ", "body": "03-1111-2222", "description": "会社"}}"#,
    );
    let mut d = user.load(&["でんわ /電話/\n"]);
    let (n, failed) = d.load_snippets(&vec![Some(snip)], vec![None]);
    assert_eq!((n, failed.len()), (1, 0));

    // スニペットが先、共有辞書は後ろ
    assert_eq!(texts(d.lookup("でんわ")), ["03-1111-2222", "電話"]);
    assert_eq!(d.lookup("でんわ")[0].annotation.as_deref(), Some("会社"));

    // 確定しても利用者辞書へ写らない (保存するものが無い)
    let first = d.lookup("でんわ")[0].clone();
    d.learn("でんわ", &first);
    user.save(&mut d);
    assert!(user.bytes.is_none(), "書き出すものは無いはず");

    // 共有辞書の候補はこれまでどおり覚える
    d.learn("でんわ", &cand("電話"));
    user.save(&mut d);
    let fresh = user.load(&[]);
    assert_eq!(fresh.lookup("でんわ")[0].text, "電話");
}

/// 編集器で保存されたら読み直す。壊れていても前の内容を捨てない。
#[test]
fn reloads_snippets_when_the_file_changes() {
    let mut snip = File::new(Some(
        r#"{"住所": {"prefix": "じゅうしょ", "body": "港区"}}"#,
    ));
    let mut d = File::new(None).load(&[]);
    d.load_snippets(&vec![snip.bytes.clone()], vec![snip.stamp()]);
    assert_eq!(d.lookup("じゅうしょ")[0].text, "港区");
    // 変わっていなければ読み直さない
    assert!(!d.snippets_changed(&vec![snip.stamp()]));
    assert!(!d.reload_snippets(&vec![snip.bytes.clone()], vec![snip.stamp()]).0);

    // 引っ越したので書き換える。時刻の粒度に負けないよう長さも変える。
    snip.write(r#"{"住所": {"prefix": "じゅうしょ", "body": "千代田区一番町"}}"#);
    let (reloaded, failed) =
        d.reload_snippets(&vec![snip.bytes.clone()], vec![snip.stamp()]);
    assert!(reloaded && failed.is_empty());
    // 古い住所は残らない
    assert_eq!(texts(d.lookup("じゅうしょ")), ["千代田区一番町"]);

    // 補完でも見つかる
    assert!(d.complete("じゅう", 10).contains(&"じゅうしょ".to_string()));
}

/// 壊れたファイルがあっても、他のファイルは読める。
#[test]
fn a_broken_file_does_not_stop_the_others() {
    let bad = bytes(r#"{"壊れ": {"prefix": "あ" "body": "亜"}}"#);
    let good = bytes(r#"{"良": {"prefix": "い", "body": "居"}}"#);
    let mut d = File::new(None).load(&[]);
    let (n, failed) = d.load_snippets(&vec![Some(bad), Some(good)], vec![None, None]);
    assert_eq!(n, 1, "良い方は読める");
    assert_eq!(failed.len(), 1);
    assert_eq!(failed[0].0, 0);
    assert!(matches!(failed[0].1, SnippetError::NotJson(_)));
    assert_eq!(d.lookup("い")[0].text, "居");
}

#[test]
fn parses_entries() {
    let (k, c, o) = parse_line("かんじ /漢字/幹事;幹事さん/").unwrap();
    assert_eq!(k, "かんじ");
    assert_eq!(c.len(), 2);
    assert_eq!(c[0].text, "漢字");
    assert_eq!(c[1].text, "幹事");
    assert_eq!(c[1].annotation.as_deref(), Some("幹事さん"));
    assert_eq!(o.len(), 0);
}

/// 送り仮名ブロックの読み取り。`/` で素朴に分けると `[き` と `]` に散る。
#[test]
fn parses_okuri_blocks() {
    let (k, c, o) = parse_line("おおk /大/多/[き/大/]/[く/多/夛/]/").unwrap();
    assert_eq!(k, "おおk");
    assert_eq!(
        c.iter().map(|x| x.text.as_str()).collect::<Vec<_>>(),
        ["大", "多"],
        "括弧の中身は候補に混ぜない"
    );
    assert_eq!(*o.get("き").unwrap(), ["大"]);
    assert_eq!(*o.get("く").unwrap(), ["多", "夛"]);

    // 注釈の角括弧 (`[文語]`) はブロックではない。`/` の直後だけが始まりの印。
    let (_, c, o) = parse_line("ゆるb /弛;[文語]/緩;[文語]/").unwrap();
    assert_eq!(c.len(), 2);
    assert_eq!(c[0].annotation.as_deref(), Some("[文語]"));
    assert_eq!(o.len(), 0, "注釈をブロックと取り違えない");
}

#[test]
fn skips_comments() {
    assert!(parse_line(";; okuri-ari entries.").is_none());
    assert!(parse_line("").is_none());
}

#[test]
fn detects_okuri_ari_key() {
    assert!(is_okuri_ari("うごk"));
    assert!(!is_okuri_ari("かんじ"));
}

/// 二つの ttyskk が同時に走っても、互いの学習を消さないこと。
#[test]
fn save_merges_with_what_is_already_on_disk() {
    let mut user = File::new(None);
    let sys = ["かんじ /漢字/幹事/\nあい /愛/相/\n"];
    let mut a = user.load(&sys);
    let mut b = user.load(&sys);

    // 別々のペインでそれぞれ違う語を覚える
    a.learn("かんじ", &cand("幹事"));
    b.learn("あい", &cand("相"));
    user.save(&mut a);
    user.save(&mut b);

    // 後から保存した b が a の学習を消していないこと
    let merged = user.load(&sys);
    assert_eq!(merged.lookup("かんじ")[0].text, "幹事");
    assert_eq!(merged.lookup("あい")[0].text, "相");
}

#[test]
fn what_is_saved_is_read_again() {
    let mut user = File::new(None);
    let mut d = user.load(&[]);
    d.learn(
        "かんじ",
        &Candidate {
            text: "幹事".to_string(),
            annotation: Some("宴会の".to_string()),
        },
    );
    d.learn("かんじ", &cand("漢字"));
    d.learn("おおk", &cand("多"));
    d.learn_okuri("おおk", "く", "多");
    assert!(d.has_changes());
    user.save(&mut d);
    assert!(!d.has_changes());
    assert_eq!(
        user.text(),
        ";; -*- mode: fundamental; coding: utf-8 -*-\n\
         ;; ttyskk 利用者辞書\n\
         ;; okuri-ari entries.\n\
         おおk /多/[く/多/]/\n\
         ;; okuri-nasi entries.\n\
         かんじ /漢字/幹事;宴会の/\n"
    );
    let again = user.load(&[]);
    assert_eq!(again.lookup("かんじ"), d.lookup("かんじ"));
    assert_eq!(again.okuri_candidates("おおk", "く"), ["多"]);
}

#[test]
fn learning_moves_a_word_to_the_front_and_leaves_the_others() {
    let user = File::new(None);
    let mut d = user.load(&["かんじ /漢字/幹事/監事/\nあい /愛/相/\n"]);
    d.learn("かんじ", &cand("監事"));
    assert_eq!(texts(d.lookup("かんじ")), ["監事", "漢字", "幹事"]);
    assert_eq!(texts(d.lookup("あい")), ["愛", "相"]);
    d.purge("かんじ", "監事");
    assert_eq!(texts(d.lookup("かんじ")), ["漢字", "幹事", "監事"]);
}

#[test]
fn the_shared_readings_are_counted_and_listed() {
    let d = File::new(None).load(&["かんじ /漢字/\nうごk /動/\n"]);
    assert_eq!(d.system_len(), 102);
    let keys: Vec<String> = d.system_entries().into_iter().map(|e| e.0).collect();
    assert!(keys.contains(&"かんじ".to_string()));
    assert!(!keys.contains(&"うごk".to_string()));
    assert_eq!(d.snippet_len(), 0);
    assert!(!d.is_snippet("かんじ", "漢字"));
}

#[test]
fn a_dictionary_of_another_program_is_taken_over_once() {
    let other = bytes("かんじ /漢字/\n");
    let d = Dict::load(&vec![], None, Some(&other), None);
    assert_eq!(d.lookup("かんじ")[0].text, "漢字");
    let own = bytes("あい /愛/\n");
    let d = Dict::load(&vec![], Some(&own), Some(&other), None);
    assert!(d.lookup("かんじ").is_empty());
}

#[test]
fn a_file_that_breaks_keeps_what_was_read_of_it() {
    let mut a = File::new(Some(r#"{"住所": {"prefix": "じゅうしょ", "body": "港区"}}"#));
    let mut b = File::new(Some(r#"{"電話": {"prefix": "でんわ", "body": "03"}}"#));
    let mut d = File::new(None).load(&[]);
    d.load_snippets(
        &vec![a.bytes.clone(), b.bytes.clone()],
        vec![a.stamp(), b.stamp()],
    );
    a.write("{ 書きかけ");
    b.write(r#"{"電話": {"prefix": "でんわ", "body": "06"}}"#);
    let (reloaded, failed) = d.reload_snippets(
        &vec![a.bytes.clone(), b.bytes.clone()],
        vec![a.stamp(), b.stamp()],
    );
    assert!(reloaded);
    assert_eq!(failed.len(), 1);
    assert_eq!(failed[0].0, 0);
    assert_eq!(d.lookup("じゅうしょ")[0].text, "港区");
    assert_eq!(texts(d.lookup("でんわ")), ["06"]);
    // 消えたファイルの中身は残らない
    let (_, failed) = d.reload_snippets(&vec![None, b.bytes.clone()], vec![None, b.stamp()]);
    assert!(failed.is_empty());
    assert!(d.lookup("じゅうしょ").is_empty());
    // 最も外側が { } でないファイル
    let (_, failed) = d.load_snippets(&vec![Some(bytes("[1]"))], vec![None]);
    assert_eq!(failed[0].1, SnippetError::NotObject);
}

/// 同じ見出し語を覚えても、先に書かれたものは消えない。
#[test]
fn a_second_writer_loses_no_word() {
    let mut file = File::new(None);
    let mut a = file.load(&[]);
    let mut b = file.load(&[]);
    a.learn("かんじ", &cand("幹事"));
    b.learn("かんじ", &cand("漢字"));
    b.learn("あい", &cand("相"));
    file.save(&mut a);
    file.save(&mut b);
    let c = file.load(&[]);
    assert_eq!(texts(c.lookup("かんじ")), ["漢字", "幹事"]);
    assert_eq!(texts(c.lookup("あい")), ["相"]);
    let had = file.text();
    let mut idle = file.load(&[]);
    file.save(&mut idle);
    assert_eq!(file.text(), had);
}

/// 変わった行のある利用者辞書でも、二つの学習が残る。
#[test]
fn two_learners_keep_their_words_beside_odd_lines() {
    let odd = " /空/\nかんじ /漢/[き/漢/]/\nあい /;注/ ;空白/藍/\nうごk /動/[き/動/\n";
    let mut file = File::new(Some(odd));
    let mut a = file.load(&[]);
    let mut b = file.load(&[]);
    a.learn("かんじ", &cand("幹事"));
    b.learn("あい", &cand("相"));
    file.save(&mut a);
    file.save(&mut b);
    let c = file.load(&[]);
    assert_eq!(c.lookup("かんじ")[0].text, "幹事");
    assert_eq!(c.lookup("あい")[0].text, "相");
    assert!(texts(c.lookup("かんじ")).contains(&"漢".to_string()));
}
