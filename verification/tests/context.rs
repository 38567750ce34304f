//! The screen as a clue.
use ttyskk::context::{hints, Context};

/// The weight of all that the screen tells of a candidate.
trait Score {
    fn score(&self, text: &str, annotation: Option<&str>) -> f64;
}

impl Score for Context {
    fn score(&self, text: &str, annotation: Option<&str>) -> f64 {
        let mut total = 0.0;
        for m in self.explain(text, &annotation.map(|a| a.to_string())) {
            let weight = if m.hint { 0.5 } else { 1.0 };
            for d in m.distances {
                total += weight / (1.0 + d as f64 / 200.0);
            }
        }
        total
    }
}

fn order(screen: &str, cursor: usize, cands: &[(&str, Option<&str>)]) -> Vec<String> {
    let ctx = Context::new(screen, cursor);
    let mut v: Vec<(f64, usize, &str)> = cands
        .iter()
        .enumerate()
        .map(|(i, (t, a))| (ctx.score(t, *a), i, *t))
        .collect();
    v.sort_by(|a, b| b.0.partial_cmp(&a.0).unwrap().then(a.1.cmp(&b.1)));
    v.into_iter().map(|(_, _, t)| t.to_string()).collect()
}

#[test]
fn a_candidate_already_on_screen_comes_first() {
    let screen = "きょうの構成をなおす。校正はあとまわし。";
    let cands = [("構成", None), ("公正", None), ("校正", None)];
    assert_eq!(order(screen, 8, &cands)[0], "構成");
    assert_eq!(order(screen, 20, &cands)[0], "校正");
}

#[test]
fn an_unrelated_screen_leaves_the_order_alone() {
    let screen = "$ cargo test --quiet\n   Compiling ttyskk v0.1.1\n";
    let cands = [("構成", None), ("公正", None), ("校正", None)];
    assert_eq!(order(screen, 10, &cands), ["構成", "公正", "校正"]);
}

#[test]
fn the_annotation_supplies_the_hints() {
    let cands = [
        ("構成", None),
        ("校正", Some("proofread.「新聞の-」")),
        ("厚生", Some("welfare.「-労働省」")),
    ];
    assert_eq!(order("let me proofread this draft", 27, &cands)[0], "校正");
    assert_eq!(order("労働省の発表によると", 10, &cands)[0], "厚生");
    assert_eq!(order("まったく別の話題です", 10, &cands)[0], "構成");
}

#[test]
fn a_single_kanji_needs_the_whole_run() {
    let cands = [("好", None), ("公", None)];
    assert_eq!(order("公園であそぶ", 6, &cands), ["好", "公"]);
    assert_eq!(order("公とする", 4, &cands), ["公", "好"]);
}

#[test]
fn english_matches_only_whole_words() {
    let cands = [("構成", None), ("校正", Some("proofread"))];
    assert_eq!(order("proofread the draft", 19, &cands)[0], "校正");
    assert_eq!(order("Proofread the draft", 19, &cands)[0], "校正");
    assert_eq!(order("src/proofread_helper.rs", 23, &cands)[0], "構成");
}

#[test]
fn a_distant_mention_still_counts() {
    let far = format!("校正の話。{}いま", "あ".repeat(2000));
    let ctx = Context::new(&far, far.chars().count());
    assert!(ctx.score("校正", None) > 0.0, "遠いだけで消してはいけない");
    let near = Context::new("校正の話。いま", 7);
    assert!(near.score("校正", None) > ctx.score("校正", None));
}

#[test]
fn repeated_mentions_add_up() {
    let once = Context::new("校正をする", 5);
    let twice = Context::new("校正をする。校正をする", 11);
    assert!(twice.score("校正", None) > once.score("校正", None));
}

#[test]
fn hints_are_taken_from_the_annotation() {
    assert_eq!(hints("proofread.「新聞の-」"), ["proofread", "新聞"]);
    assert_eq!(hints("welfare.「-労働省」"), ["welfare", "労働省"]);
    assert_eq!(hints("†lecture.「作家の-」"), ["lecture", "作家"]);
    assert_eq!(hints("「多」の異体字"), Vec::<String>::new());
    assert_eq!(hints("[生物]tropism"), ["tropism"]);
    assert_eq!(hints("学校名"), Vec::<String>::new());
    assert_eq!(hints("=紅炎"), Vec::<String>::new());
}
